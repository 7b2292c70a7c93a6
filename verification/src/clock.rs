//! The time of day, as the system's clock gives it.

use vstd::prelude::*;

verus! {

/// Trusted: `std::time::SystemTime::elapsed`, of the start of 1970, in whole
/// seconds and the nanoseconds beyond them, of which there are fewer than make a
/// second. There is none where the clock stands before that time. Nothing more is
/// promised: it is whatever the clock of the machine says.
#[verifier::external_body]
fn since_1970() -> (r: Option<(u64, u32)>)
    ensures
        r matches Some((_, nanos)) ==> nanos < 1_000_000_000,
{
    std::time::UNIX_EPOCH.elapsed().ok().map(|d| (d.as_secs(), d.subsec_nanos()))
}

/// The nanoseconds in whole seconds and the nanoseconds beyond them, or 0 where
/// there are none.
pub fn nanos_of(since: Option<(u64, u32)>) -> (n: u128)
    ensures
        n == match since {
            Some((secs, nanos)) => secs * 1_000_000_000 + nanos,
            None => 0,
        },
{
    match since {
        Some((secs, nanos)) => secs as u128 * 1_000_000_000 + nanos as u128,
        None => 0,
    }
}

/// Whole milliseconds in a number of nanoseconds, as a 64-bit count that wraps.
pub open spec fn millis_in(nanos: nat) -> nat {
    (nanos / 1_000_000) % 0x1_0000_0000_0000_0000
}

/// Whole seconds in a number of nanoseconds, as a 64-bit count that wraps.
pub open spec fn secs_in(nanos: nat) -> nat {
    (nanos / 1_000_000_000) % 0x1_0000_0000_0000_0000
}

/// The milliseconds in a number of nanoseconds.
pub fn millis_of(nanos: u128) -> (ms: u64)
    ensures
        ms == millis_in(nanos as nat),
{
    ((nanos / 1_000_000) % 0x1_0000_0000_0000_0000) as u64
}

/// The seconds in a number of nanoseconds.
pub fn secs_of(nanos: u128) -> (s: u64)
    ensures
        s == secs_in(nanos as nat),
{
    ((nanos / 1_000_000_000) % 0x1_0000_0000_0000_0000) as u64
}

/// The nanoseconds since the start of 1970, or 0 where the clock stands before
/// that. They make up no more seconds than 64 bits count; beyond that nothing is
/// promised of the number.
pub fn nanos_now() -> (n: u128)
    ensures
        n < 0x1_0000_0000_0000_0000 * 1_000_000_000,
{
    nanos_of(since_1970())
}

/// Milliseconds are a thousand to the second, and a million nanoseconds each: as long as
/// they can be counted, the seconds are the whole thousands of the milliseconds.
pub proof fn a_second_has_a_thousand_milliseconds(nanos: nat)
    requires
        nanos < 0x1_0000_0000_0000_0000 * 1_000_000,
    ensures
        millis_in(nanos) * 1_000_000 <= nanos < (millis_in(nanos) + 1) * 1_000_000,
        secs_in(nanos) * 1000 <= millis_in(nanos) < (secs_in(nanos) + 1) * 1000,
{
    assert(nanos / 1_000_000 < 0x1_0000_0000_0000_0000);
    assert(nanos / 1_000_000_000 < 0x1_0000_0000_0000_0000);
}

} // verus!
