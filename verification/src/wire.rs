//! Numbers and texts as bytes: little-endian integers, and UTF-8.

use vstd::prelude::*;
use vstd::utf8::*;

verus! {

/// The `n` low bytes of a number, the least significant first.
pub open spec fn le(x: nat, n: nat) -> Seq<u8>
    decreases n,
{
    if n == 0 {
        Seq::empty()
    } else {
        seq![(x % 256) as u8] + le(x / 256, (n - 1) as nat)
    }
}

/// The number that bytes stand for, the least significant first.
pub open spec fn le_value(s: Seq<u8>) -> nat
    decreases s.len(),
{
    if s.len() == 0 {
        0
    } else {
        s[0] as nat + 256 * le_value(s.skip(1))
    }
}

/// 256 to the power `n`.
pub open spec fn bound(n: nat) -> nat
    decreases n,
{
    if n == 0 {
        1
    } else {
        256 * bound((n - 1) as nat)
    }
}

/// The number of bytes is the one asked for.
pub proof fn le_len(x: nat, n: nat)
    ensures
        le(x, n).len() == n,
    decreases n,
{
    if n > 0 {
        le_len(x / 256, (n - 1) as nat);
    }
}

/// Reading back what was written gives the number, where it fits.
pub proof fn le_reads_back(x: nat, n: nat)
    requires
        x < bound(n),
    ensures
        le_value(le(x, n)) == x,
        le(x, n).len() == n,
    decreases n,
{
    le_len(x, n);
    if n > 0 {
        le_reads_back(x / 256, (n - 1) as nat);
        assert(le(x, n).skip(1) =~= le(x / 256, (n - 1) as nat));
    }
}

/// Writing what was read gives back the bytes.
pub proof fn le_writes_back(s: Seq<u8>)
    ensures
        le(le_value(s), s.len()) == s,
        le_value(s) < bound(s.len()),
    decreases s.len(),
{
    if s.len() > 0 {
        le_writes_back(s.skip(1));
        let v = le_value(s);
        assert(v % 256 == s[0] as nat && v / 256 == le_value(s.skip(1)));
        assert(le(v, s.len()) =~= s);
    } else {
        assert(le(le_value(s), s.len()) =~= s);
    }
}

/// The byte at a place counts the power of 256 of that place: the first counts ones.
pub proof fn each_byte_counts_its_power(x: nat, n: nat, i: nat)
    requires
        i < n,
    ensures
        le(x, n)[i as int] == (x / bound(i)) % 256,
        bound(i) > 0,
    decreases n,
{
    le_len(x / 256, (n - 1) as nat);
    if i > 0 {
        each_byte_counts_its_power(x / 256, (n - 1) as nat, (i - 1) as nat);
        let b = bound((i - 1) as nat);
        assert(le(x, n)[i as int] == le(x / 256, (n - 1) as nat)[i - 1]);
        vstd::arithmetic::div_mod::lemma_div_denominator(x as int, 256, b as int);
    }
}

/// Four bytes hold any `u32`, and eight any `u64`.
pub proof fn bounds()
    ensures
        bound(2) == 0x1_0000,
        bound(4) == 0x1_0000_0000,
        bound(8) == 0x1_0000_0000_0000_0000,
{
    reveal_with_fuel(bound, 9);
}

fn push_le(out: &mut Vec<u8>, x: u64, n: usize)
    ensures
        final(out)@ == old(out)@ + le(x as nat, n as nat),
    decreases n,
{
    if n == 0 {
        assert(old(out)@ + le(x as nat, 0) =~= old(out)@);
    } else {
        out.push((x % 256) as u8);
        let ghost mid = out@;
        push_le(out, x / 256, n - 1);
        assert(out@ =~= old(out)@ + le(x as nat, n as nat));
    }
}

/// Appends the four bytes of a number.
pub fn push_u32(out: &mut Vec<u8>, x: u32)
    ensures
        final(out)@ == old(out)@ + le(x as nat, 4),
{
    push_le(out, x as u64, 4);
}

/// Appends the four low bytes of a number.
pub fn push_low_4(out: &mut Vec<u8>, x: u64)
    ensures
        final(out)@ == old(out)@ + le(x as nat, 4),
{
    push_le(out, x, 4);
}

/// Appends the eight bytes of a number.
pub fn push_u64(out: &mut Vec<u8>, x: u64)
    ensures
        final(out)@ == old(out)@ + le(x as nat, 8),
{
    push_le(out, x, 8);
}

fn read_le(b: &[u8], at: usize, n: usize) -> (x: u64)
    requires
        n <= 8,
        at + n <= b@.len(),
    ensures
        x == le_value(b@.subrange(at as int, at + n)),
        x < bound(n as nat),
    decreases n,
{
    if n == 0 {
        0
    } else {
        assert(b@.len() == b.len());
        let rest: u64 = read_le(b, at + 1, n - 1);
        let ghost s = b@.subrange(at as int, at + n);
        proof {
            assert(s.skip(1) =~= b@.subrange(at + 1, at + n));
            bounds();
            bound_grows(n as nat, 8);
        }
        b[at] as u64 + 256 * rest
    }
}

proof fn bound_grows(n: nat, m: nat)
    requires
        n <= m,
    ensures
        bound(n) <= bound(m),
    decreases m,
{
    if n < m {
        bound_grows(n, (m - 1) as nat);
    }
}

/// Reads the number in the two bytes from `at` on.
pub fn read_u16(b: &[u8], at: usize) -> (x: u16)
    requires
        at + 2 <= b@.len(),
    ensures
        x == le_value(b@.subrange(at as int, at + 2)),
{
    proof {
        bounds();
    }
    read_le(b, at, 2) as u16
}

/// Reads the number in the four bytes from `at` on.
pub fn read_u32(b: &[u8], at: usize) -> (x: u32)
    requires
        at + 4 <= b@.len(),
    ensures
        x == le_value(b@.subrange(at as int, at + 4)),
{
    proof {
        bounds();
    }
    read_le(b, at, 4) as u32
}

/// Reads the number in the eight bytes from `at` on.
pub fn read_u64(b: &[u8], at: usize) -> (x: u64)
    requires
        at + 8 <= b@.len(),
    ensures
        x == le_value(b@.subrange(at as int, at + 8)),
{
    proof {
        bounds();
    }
    read_le(b, at, 8)
}

/// A signed number as the unsigned one with the same 64 bits.
pub open spec fn two_complement(d: i64) -> nat {
    if d < 0 {
        (d + 0x1_0000_0000_0000_0000) as nat
    } else {
        d as nat
    }
}

/// The signed number with the 64 bits of an unsigned one.
pub open spec fn signed(u: nat) -> int {
    if u < 0x8000_0000_0000_0000 {
        u as int
    } else {
        u - 0x1_0000_0000_0000_0000
    }
}

/// Appends the eight bytes of a signed number.
pub fn push_i64(out: &mut Vec<u8>, d: i64)
    ensures
        final(out)@ == old(out)@ + le(two_complement(d), 8),
{
    let u: u64 = if d < 0 {
        ((d as i128) + 0x1_0000_0000_0000_0000) as u64
    } else {
        d as u64
    };
    push_le(out, u, 8);
}

/// Reads the signed number in the eight bytes from `at` on.
pub fn read_i64(b: &[u8], at: usize) -> (d: i64)
    requires
        at + 8 <= b@.len(),
    ensures
        d == signed(le_value(b@.subrange(at as int, at + 8))),
{
    let u: u64 = read_u64(b, at);
    if u < 0x8000_0000_0000_0000 {
        u as i64
    } else {
        ((u as i128) - 0x1_0000_0000_0000_0000) as i64
    }
}

/// A signed number and the unsigned one with the same bits differ by 2 to the 64th where
/// the signed one is negative, and nowhere else; either gives the other back.
pub proof fn signs_are_kept(d: i64)
    ensures
        two_complement(d) < 0x1_0000_0000_0000_0000,
        signed(two_complement(d)) == d,
        d >= 0 ==> two_complement(d) == d,
        d < 0 ==> two_complement(d) - d == 0x1_0000_0000_0000_0000,
{
}

// ---------------------------------------------------------------------------
// UTF-8
// ---------------------------------------------------------------------------

/// Trusted: `String::from_utf8` takes the bytes exactly where they are UTF-8,
/// and the string it gives has those bytes.
#[verifier::external_body]
fn string_from_utf8(bytes: Vec<u8>) -> (r: Option<String>)
    ensures
        r is Some <==> valid_utf8(bytes@),
        r matches Some(s) ==> encode_utf8(s@) == bytes@,
{
    String::from_utf8(bytes).ok()
}

/// The text that bytes hold, where they are UTF-8.
pub fn text_of(bytes: &[u8]) -> (r: Option<String>)
    ensures
        r is Some <==> valid_utf8(bytes@),
        r matches Some(s) ==> s@ == decode_utf8(bytes@),
{
    match string_from_utf8(crate::text::copy_bytes(bytes)) {
        Some(s) => {
            proof {
                encode_utf8_decode_utf8(s@);
            }
            Some(s)
        },
        None => None,
    }
}

} // verus!
