//! Sizes, counts and shares as people read them, and what fits in memory.
//!
//! The figures are those of 64-bit floating-point arithmetic, written out with
//! whole numbers: a number is rounded to 53 significant bits, ties to even.

use vstd::prelude::*;

use crate::text;

verus! {

/// A quotient rounded to the nearest whole number, ties to the even one.
pub open spec fn round_even(a: nat, d: nat) -> nat {
    let q = a / d;
    let r = a % d;
    if 2 * r < d || (2 * r == d && q % 2 == 0) {
        q
    } else {
        q + 1
    }
}

/// The weight of the last of 53 significant bits of a number, from `u` on.
pub open spec fn last_bit(n: nat, u: nat) -> nat
    decreases
            (if n >= 0x20_0000_0000_0000 * u {
                n - 0x20_0000_0000_0000 * u + 1
            } else {
                0
            }),
{
    if u == 0 || n < 0x20_0000_0000_0000 * u {
        u
    } else {
        last_bit(n, 2 * u)
    }
}

/// A whole number rounded to 53 significant bits, ties to even.
pub open spec fn round53(n: nat) -> nat {
    let u = last_bit(n, 1);
    round_even(n, u) * u
}

fn nearest_even(a: u128, d: u128) -> (r: u128)
    requires
        0 < d < 0x4000_0000_0000_0000_0000_0000_0000_0000,
        a < 0x8000_0000_0000_0000_0000_0000_0000_0000,
    ensures
        r == round_even(a as nat, d as nat),
        a / d <= r <= a / d + 1,
{
    let q: u128 = a / d;
    let rest: u128 = a % d;
    assert(q <= a) by (nonlinear_arith)
        requires
            q == a / d,
            d > 0,
    ;
    if 2 * rest < d || (2 * rest == d && q % 2 == 0) {
        q
    } else {
        q + 1
    }
}

/// Rounds a whole number to 53 significant bits, ties to even.
pub fn to_53_bits(n: u128) -> (r: u128)
    requires
        n < 0x40_0000_0000_0000_0000_0000_0000_0000,
    ensures
        r == round53(n as nat),
        r <= n + n / 0x10_0000_0000_0000,
        n <= r + n / 0x10_0000_0000_0000,
{
    let mut u: u128 = 1;
    while n >= 0x20_0000_0000_0000 * u
        invariant
            1 <= u,
            n < 0x40_0000_0000_0000_0000_0000_0000_0000,
            0x20_0000_0000_0000 * u <= 0x80_0000_0000_0000_0000_0000_0000_0000,
            u == 1 || 0x10_0000_0000_0000 * u <= n,
            last_bit(n as nat, 1) == last_bit(n as nat, u as nat),
        decreases n - 0x20_0000_0000_0000 * u + 0x8_0000_0000_0000_0000_0000_0000_0000_0000,
    {
        u = 2 * u;
    }
    let q: u128 = nearest_even(n, u);
    proof {
        let m = n as int;
        let w = u as int;
        vstd::arithmetic::div_mod::lemma_fundamental_div_mod(m, w);
        assert(q * w <= (m / w + 1) * w) by (nonlinear_arith)
            requires
                q <= m / w + 1,
                w > 0,
        ;
        assert((m / w + 1) * w == w * (m / w) + w) by (nonlinear_arith);
        assert(q * w >= w * (m / w)) by (nonlinear_arith)
            requires
                q >= m / w,
                w > 0,
        ;
        if u == 1 {
            assert(m / 1 == m && m % 1 == 0);
            assert(q == n);
            assert(q * 1 == q);
        }
    }
    q * u
}

/// 1024 to the power `k`.
pub open spec fn kilo(k: nat) -> nat
    decreases k,
{
    if k == 0 {
        1
    } else {
        1024 * kilo((k - 1) as nat)
    }
}

/// The unit in which a number of bytes is written: the greatest that it fills,
/// at most `top`.
pub open spec fn unit_for(v: nat, top: nat) -> nat
    decreases top,
{
    if top == 0 || v >= kilo(top) {
        top
    } else {
        unit_for(v, (top - 1) as nat)
    }
}

/// The name of a unit.
pub open spec fn unit_name(k: nat) -> Seq<char> {
    if k == 0 {
        "B"@
    } else if k == 1 {
        "KB"@
    } else if k == 2 {
        "MB"@
    } else if k == 3 {
        "GB"@
    } else {
        "TB"@
    }
}

/// A number of tenths as it is written.
pub open spec fn tenths_text(t: nat) -> Seq<char> {
    text::dec(t / 10) + "."@ + text::dec(t % 10)
}

/// A number of tenths as it is written.
fn write_tenths(t: u128) -> (s: String)
    ensures
        s@ == tenths_text(t as nat),
{
    let mut s: String = text::decimal_wide(t / 10);
    s.append(".");
    s.append(text::decimal_wide(t % 10).as_str());
    s
}

/// A number of bytes with one decimal, in the greatest unit that it fills, at
/// most the unit `top`.
pub open spec fn size_text(bytes: nat, top: nat) -> Seq<char> {
    let v = round53(bytes);
    let k = unit_for(v, top);
    tenths_text(round_even(10 * v, kilo(k))) + " "@ + unit_name(k)
}

proof fn kilos()
    ensures
        kilo(0) == 1,
        kilo(1) == 1024,
        kilo(2) == 1024 * 1024,
        kilo(3) == 1024 * 1024 * 1024,
        kilo(4) == 1024 * 1024 * 1024 * 1024,
{
    reveal_with_fuel(kilo, 5);
}

fn unit_label(k: usize) -> (s: &'static str)
    requires
        k <= 4,
    ensures
        s@ == unit_name(k as nat),
{
    if k == 0 {
        "B"
    } else if k == 1 {
        "KB"
    } else if k == 2 {
        "MB"
    } else if k == 3 {
        "GB"
    } else {
        "TB"
    }
}

fn kilo_of(k: usize) -> (r: u128)
    requires
        k <= 4,
    ensures
        r == kilo(k as nat),
        1 <= r <= 1024 * 1024 * 1024 * 1024,
{
    proof {
        kilos();
    }
    if k == 0 {
        1
    } else if k == 1 {
        1024
    } else if k == 2 {
        1024 * 1024
    } else if k == 3 {
        1024 * 1024 * 1024
    } else {
        1024 * 1024 * 1024 * 1024
    }
}

fn size_string(bytes: u64, top: usize) -> (s: String)
    requires
        top <= 4,
    ensures
        s@ == size_text(bytes as nat, top as nat),
{
    let v: u128 = to_53_bits(bytes as u128);
    let mut k: usize = top;
    while k > 0 && v < kilo_of(k)
        invariant
            k <= top <= 4,
            unit_for(v as nat, top as nat) == unit_for(v as nat, k as nat),
        decreases k,
    {
        k -= 1;
    }
    let t: u128 = nearest_even(10 * v, kilo_of(k));
    proof {
        let a = 10 * v as int;
        let d = kilo(k as nat) as int;
        assert(a / d <= a) by (nonlinear_arith)
            requires
                d >= 1,
                a >= 0,
        ;
    }
    let mut s: String = write_tenths(t);
    s.append(" ");
    s.append(unit_label(k));
    s
}

/// A number of bytes as it is written: whole bytes where it is less than a
/// kilobyte, else with one decimal, up to gigabytes.
pub open spec fn bytes_text(b: nat) -> Seq<char> {
    if unit_for(round53(b), 3) == 0 {
        text::dec(b) + " B"@
    } else {
        size_text(b, 3)
    }
}

/// Writes a number of bytes: whole bytes where it is less than a kilobyte, else
/// with one decimal, up to gigabytes.
pub fn human_bytes(b: u64) -> (s: String)
    ensures
        s@ == bytes_text(b as nat),
{
    let v: u128 = to_53_bits(b as u128);
    proof {
        kilos();
        reveal_with_fuel(unit_for, 4);
    }
    if v < 1024 {
        let mut s: String = text::decimal(b);
        s.append(" B");
        s
    } else {
        size_string(b, 3)
    }
}

/// Writes a number of bytes with one decimal, up to terabytes.
pub fn human_size(bytes: u64) -> (s: String)
    ensures
        s@ == size_text(bytes as nat, 4),
{
    size_string(bytes, 4)
}

// ---------------------------------------------------------------------------
// What fits
// ---------------------------------------------------------------------------

/// Whether a need, taken 1.3 times, is at most what is there. The factor is
/// the fraction over two to the power 52 nearest to it.
pub open spec fn fits_with_room(needed: nat, available: nat) -> bool {
    round53(round53(needed) * 5854679515581645) <= round53(available) * 0x10_0000_0000_0000
}

/// What can be used of memory: 0.7 of it. The factor is the fraction over two
/// to the power 53 nearest to it.
pub open spec fn usable_part(available: nat) -> nat {
    round53(round53(available) * 6305039478318694) / 0x20_0000_0000_0000
}

/// Whether a need, taken 1.3 times, is at most what is there.
pub fn fits(needed: u64, available: u64) -> (r: bool)
    ensures
        r == fits_with_room(needed as nat, available as nat),
{
    let need: u128 = to_53_bits(needed as u128);
    let have: u128 = to_53_bits(available as u128);
    to_53_bits(need * 5854679515581645) <= have * 0x10_0000_0000_0000
}

/// What can be used of memory: 0.7 of it.
pub fn usable(available: u64) -> (r: u64)
    ensures
        r == usable_part(available as nat),
{
    let have: u128 = to_53_bits(available as u128);
    (to_53_bits(have * 6305039478318694) / 0x20_0000_0000_0000) as u64
}

// ---------------------------------------------------------------------------
// Quotients
// ---------------------------------------------------------------------------

/// The power of two that brings `a` to `top` at least, the least one.
pub open spec fn scale(a: nat, top: nat) -> nat
    decreases
            (if a < top {
                top - a
            } else {
                0
            }),
{
    if a == 0 || a >= top {
        1
    } else {
        2 * scale(2 * a, top)
    }
}

/// A quotient below two to the power 53, rounded to 53 significant bits, ties to
/// even: a numerator, and a power of two under it.
pub open spec fn quotient53(a: nat, d: nat) -> (nat, nat) {
    let u = scale(a, 0x10_0000_0000_0000 * d);
    (round_even(a * u, d), u)
}

fn quotient_53_bits(a: u128, d: u128) -> (r: (u128, u128))
    requires
        0 < d <= 0x2_0000_0000_0000_0000,
        a < 0x20_0000_0000_0000 * d,
    ensures
        (r.0 as nat, r.1 as nat) == quotient53(a as nat, d as nat),
        r.0 <= 0x20_0000_0000_0000,
        r.0 <= (a * r.1) / (d as int) + 1,
        0 < r.1,
        a > 0 ==> r.1 == 1 || r.1 * a < 0x20_0000_0000_0000 * d,
        a == 0 ==> r.1 == 1,
{
    let top: u128 = 0x10_0000_0000_0000 * d;
    let mut b: u128 = a;
    let mut u: u128 = 1;
    assert(a * 1 == a);
    while b != 0 && b < top
        invariant
            0 < u,
            b == a * u,
            u <= b || a == 0,
            a == 0 ==> u == 1,
            top == 0x10_0000_0000_0000 * d,
            0 < d <= 0x2_0000_0000_0000_0000,
            b < 2 * top,
            scale(a as nat, top as nat) == u * scale(b as nat, top as nat),
        decreases 2 * top - b,
    {
        let ghost rest = scale((2 * b) as nat, top as nat);
        proof {
            assert(a * (2 * u) == 2 * (a * u)) by (nonlinear_arith);
            assert(u * (2 * rest) == (2 * u) * rest) by (nonlinear_arith);
        }
        b = 2 * b;
        u = 2 * u;
    }
    proof {
        assert(u * 1 == u);
        assert(b / d <= 0x20_0000_0000_0000 - 1) by (nonlinear_arith)
            requires
                b < 0x20_0000_0000_0000 * d,
                d > 0,
        ;
        assert(u * a == a * u) by (nonlinear_arith);
    }
    (nearest_even(b, d), u)
}

/// A quotient with one decimal, in tenths.
pub open spec fn tenths_of(n: nat, d: nat) -> nat {
    let (m, u) = quotient53(round53(n), d);
    round_even(10 * m, u)
}

/// A quotient to the nearest whole number.
pub open spec fn units_of(n: nat, d: nat) -> nat {
    let (m, u) = quotient53(round53(n), d);
    round_even(m, u)
}

/// The power of two under a quotient is small enough for what is done with it.
proof fn a_scale_is_small(a: nat, d: nat, u: nat)
    requires
        0 < a,
        u == 1 || u * a < 0x20_0000_0000_0000 * d,
        d <= 0x2_0000_0000_0000_0000,
    ensures
        u < 0x4000_0000_0000_0000_0000_0000_0000_0000,
{
    assert(u <= u * a) by (nonlinear_arith)
        requires
            0 < a,
    ;
}

fn tenths(n: u64, d: u64) -> (t: u128)
    requires
        n < 0x10_0000_0000_0000 * d,
    ensures
        t == tenths_of(n as nat, d as nat),
{
    let v: u128 = to_53_bits(n as u128);
    let (m, u) = quotient_53_bits(v, d as u128);
    proof {
        if v > 0 {
            a_scale_is_small(v as nat, d as nat, u as nat);
        }
        assert((10 * m) / (u as int) <= 10 * m) by (nonlinear_arith)
            requires
                u >= 1,
                m >= 0,
        ;
    }
    nearest_even(10 * m, u)
}

fn whole_units(n: u64, d: u64) -> (t: u128)
    requires
        n < 0x10_0000_0000_0000 * d,
    ensures
        t == units_of(n as nat, d as nat),
{
    let v: u128 = to_53_bits(n as u128);
    let (m, u) = quotient_53_bits(v, d as u128);
    proof {
        if v > 0 {
            a_scale_is_small(v as nat, d as nat, u as nat);
        }
    }
    nearest_even(m, u)
}

/// A number of parameters as it is written: in billions with one decimal, or in
/// millions where it is less than a billion.
pub open spec fn params_text(params: nat) -> Seq<char> {
    if params == 0 {
        "   ?  "@
    } else if params >= 1_000_000_000 {
        text::pad_left(tenths_text(tenths_of(params, 1_000_000_000)), ' ', 5) + "B"@
    } else {
        text::pad_left(text::dec(units_of(params, 1_000_000)), ' ', 5) + "M"@
    }
}

/// Writes a number of parameters.
pub fn human_params(params: u64) -> (s: String)
    ensures
        s@ == params_text(params as nat),
{
    if params == 0 {
        return "   ?  ".to_string();
    }
    if params >= 1_000_000_000 {
        let t: String = write_tenths(tenths(params, 1_000_000_000));
        let mut s: String = text::padded_left(t.as_str(), ' ', 5);
        s.append("B");
        s
    } else {
        let t: String = text::decimal_wide(whole_units(params, 1_000_000));
        let mut s: String = text::padded_left(t.as_str(), ' ', 5);
        s.append("M");
        s
    }
}

/// A count as it is written: in millions with one decimal, or in thousands, or as
/// it is where it is less than a thousand.
pub open spec fn count_text(n: nat) -> Seq<char> {
    if n >= 1_000_000 {
        tenths_text(tenths_of(n, 1_000_000)) + "M"@
    } else if n >= 1_000 {
        text::dec(units_of(n, 1_000)) + "k"@
    } else {
        text::dec(n)
    }
}

/// Writes a count.
pub fn human_count(n: u64) -> (s: String)
    ensures
        s@ == count_text(n as nat),
{
    if n >= 1_000_000 {
        let mut s: String = write_tenths(tenths(n, 1_000_000));
        s.append("M");
        s
    } else if n >= 1_000 {
        let mut s: String = text::decimal_wide(whole_units(n, 1_000));
        s.append("k");
        s
    } else {
        text::decimal(n)
    }
}

// ---------------------------------------------------------------------------
// Shares
// ---------------------------------------------------------------------------

/// The share of `part` in `whole` in percent: a numerator, and a power of two
/// under it.
pub open spec fn percent(part: nat, whole: nat) -> (nat, nat) {
    let (m, u) = quotient53(part, whole);
    (round53(100 * m), u)
}

fn percent_of(part: u128, whole: u128) -> (r: (u128, u128))
    requires
        0 < whole <= 0x2_0000_0000_0000_0000,
        part < 0x20_0000_0000_0000 * whole,
    ensures
        (r.0 as nat, r.1 as nat) == percent(part as nat, whole as nat),
        r.0 < 0x100_0000_0000_0000_0000,
        part <= 4 * whole ==> r.0 <= 1000 * r.1,
        0 < r.1 < 0x4000_0000_0000_0000_0000_0000_0000_0000,
{
    let (m, u) = quotient_53_bits(part, whole);
    proof {
        if part > 0 {
            a_scale_is_small(part as nat, whole as nat, u as nat);
        }
        if part <= 4 * whole {
            assert((part * u) / (whole as int) <= 4 * u) by (nonlinear_arith)
                requires
                    0 <= part <= 4 * whole,
                    whole > 0,
                    u > 0,
            ;
        }
    }
    (to_53_bits(100 * m), u)
}

/// How much of a model a machine can hold, in percent: at most all of it, to the
/// nearest whole number, ties to even.
pub open spec fn share_percent(max_layers: nat, total_layers: nat) -> nat {
    let (p, u) = percent(
        max_layers,
        if total_layers == 0 {
            1
        } else {
            total_layers
        },
    );
    if p >= 100 * u {
        100
    } else {
        round_even(p, u)
    }
}

/// How much of a model a machine can hold, in percent.
pub fn share_of_model(max_layers: u32, total_layers: u32) -> (r: u64)
    ensures
        r == share_percent(max_layers as nat, total_layers as nat),
        r <= 100,
{
    let whole: u128 = if total_layers == 0 {
        1
    } else {
        total_layers as u128
    };
    let (p, u) = percent_of(max_layers as u128, whole);
    if p / u >= 100 {
        assert(p >= 100 * u) by (nonlinear_arith)
            requires
                p / u >= 100,
                u > 0,
        ;
        return 100;
    }
    proof {
        assert(p < 100 * u) by (nonlinear_arith)
            requires
                p / u < 100,
                u > 0,
        ;
    }
    let n: u128 = nearest_even(p, u);
    assert(n <= p / u + 1);
    n as u64
}

/// How much of the time of an answer went into computing, in percent: to the
/// nearest whole number, and a half counts as one; half of it where no time was
/// taken.
pub open spec fn compute_percent(compute_ms: nat, network_ms: nat) -> nat {
    if compute_ms + network_ms == 0 {
        50
    } else {
        let (p, u) = percent(round53(compute_ms), round53(compute_ms + network_ms));
        (2 * p + u) / (2 * u)
    }
}

/// How much of the time of an answer went into computing, in percent.
pub fn compute_share(compute_ms: u64, network_ms: u64) -> (r: u32)
    requires
        compute_ms + network_ms <= u64::MAX,
    ensures
        r == compute_percent(compute_ms as nat, network_ms as nat),
{
    let all: u64 = compute_ms + network_ms;
    if all == 0 {
        return 50;
    }
    let part: u128 = to_53_bits(compute_ms as u128);
    let whole: u128 = to_53_bits(all as u128);
    let (p, u) = percent_of(part, whole);
    proof {
        assert((2 * p + u) / (2 * u as int) <= 1001) by (nonlinear_arith)
            requires
                p <= 1000 * u,
                u > 0,
        ;
    }
    ((2 * p + u) / (2 * u)) as u32
}

// ---------------------------------------------------------------------------
// Laws
// ---------------------------------------------------------------------------
/// A quotient is rounded to a nearest whole number: it is off by half at most, and where two
/// are as near it is the even one.
pub proof fn rounding_is_to_the_nearest(a: nat, d: nat)
    requires
        d > 0,
    ensures
        -(d as int) <= 2 * (round_even(a, d) * d - a) <= d,
        2 * (round_even(a, d) * d - a) == d || 2 * (a - round_even(a, d) * d) == d ==> round_even(
            a,
            d,
        ) % 2 == 0,
{
    let q = a / d;
    let r = a % d;
    assert(q * d + r == a && r < d) by (nonlinear_arith)
        requires
            d > 0,
            q == a / d,
            r == a % d,
    ;
    assert((q + 1) * d == q * d + d) by (nonlinear_arith);
}

proof fn the_last_bit_is_small(n: nat, u: nat)
    requires
        u > 0,
        u == 1 || 0x10_0000_0000_0000 * u <= n,
    ensures
        last_bit(n, u) > 0,
        last_bit(n, u) == 1 || 0x10_0000_0000_0000 * last_bit(n, u) <= n,
        n < 0x20_0000_0000_0000 * u ==> last_bit(n, u) == u,
    decreases
            (if n >= 0x20_0000_0000_0000 * u {
                n - 0x20_0000_0000_0000 * u + 1
            } else {
                0
            }),
{
    if n >= 0x20_0000_0000_0000 * u {
        the_last_bit_is_small(n, 2 * u);
    }
}

/// A number is off by at most one part in two to the power 53 when it is rounded to that many
/// bits, and one that has no more bits is kept.
pub proof fn rounding_to_bits_is_close(n: nat)
    ensures
        -(n as int) <= 0x20_0000_0000_0000 * (round53(n) - n) <= n,
        n < 0x20_0000_0000_0000 ==> round53(n) == n,
{
    the_last_bit_is_small(n, 1);
    let u = last_bit(n, 1);
    rounding_is_to_the_nearest(n, u);
    if u == 1 {
        assert(round_even(n, 1) * 1 == round_even(n, 1)) by (nonlinear_arith);
    }
}

/// What fits leaves room: a need fits only where a quarter more than it is there, and it does
/// fit where two fifths more than it are.
pub proof fn what_fits_leaves_room(needed: nat, available: nat)
    ensures
        fits_with_room(needed, available) ==> 5 * needed <= 4 * available,
        7 * needed <= 5 * available ==> fits_with_room(needed, available),
{
    let x = round53(needed);
    let y = round53(x * 5854679515581645);
    let z = round53(available);
    rounding_to_bits_is_close(needed);
    rounding_to_bits_is_close(x * 5854679515581645);
    rounding_to_bits_is_close(available);
}

/// What can be used of memory is seven tenths of it, give or take a hundredth and one byte.
pub proof fn seven_tenths_can_be_used(available: nat)
    ensures
        100 * usable_part(available) <= 71 * available,
        100 * (usable_part(available) + 1) >= 69 * available,
{
    let x = round53(available);
    let y = round53(x * 6305039478318694);
    rounding_to_bits_is_close(available);
    rounding_to_bits_is_close(x * 6305039478318694);
}

/// A unit is the greatest that a number fills, of those up to a greatest one.
pub proof fn a_unit_is_the_greatest_filled(v: nat, top: nat, j: nat)
    requires
        unit_for(v, top) < j <= top,
    ensures
        v < kilo(j),
        unit_for(v, top) == 0 || v >= kilo(unit_for(v, top)),
    decreases top,
{
    if !(top == 0 || v >= kilo(top)) {
        if j < top {
            a_unit_is_the_greatest_filled(v, (top - 1) as nat, j);
        } else {
            the_unit_is_filled(v, top);
        }
    }
}

proof fn the_unit_is_filled(v: nat, top: nat)
    ensures
        unit_for(v, top) <= top,
        unit_for(v, top) == 0 || v >= kilo(unit_for(v, top)),
    decreases top,
{
    if !(top == 0 || v >= kilo(top)) {
        the_unit_is_filled(v, (top - 1) as nat);
    }
}

/// Each unit is 1024 of the one below it.
pub proof fn a_unit_is_1024_of_the_next(k: nat)
    ensures
        kilo(k + 1) == 1024 * kilo(k),
        kilo(0) == 1,
{
}

proof fn a_scale_reaches_the_top(a: nat, top: nat)
    requires
        a > 0,
    ensures
        scale(a, top) > 0,
        scale(a, top) * a >= top,
        scale(a, top) == 1 || scale(a, top) * a < 2 * top,
    decreases
            (if a < top {
                top - a
            } else {
                0
            }),
{
    if a < top {
        a_scale_reaches_the_top(2 * a, top);
        let s = scale(2 * a, top);
        assert((2 * s) * a == s * (2 * a)) by (nonlinear_arith);
        if s == 1 {
            assert(s * (2 * a) == 2 * a) by (nonlinear_arith)
                requires
                    s == 1,
            ;
        }
    } else {
        assert(1 * a == a) by (nonlinear_arith);
    }
}

/// A quotient in 53 bits is off by half of its last bit at most, which is small.
proof fn a_quotient_is_close(a: nat, d: nat, least: nat)
    requires
        0 < a,
        0 < d,
        least * a <= 0x10_0000_0000_0000 * d,
    ensures
        ({
            let (m, u) = quotient53(a, d);
            &&& u > 0 && u >= least
            &&& -(d as int) <= 2 * (m * d - a * u) <= d
        }),
{
    let top = 0x10_0000_0000_0000 * d;
    a_scale_reaches_the_top(a, top);
    let u = scale(a, top);
    rounding_is_to_the_nearest(a * u, d);
    if u < least {
        assert(u * a < least * a) by (nonlinear_arith)
            requires
                u < least,
                a > 0,
        ;
    }
}

/// A quotient that is written with one decimal is off by less than a tenth, and one that is
/// written whole by less than one.
pub proof fn a_quotient_is_written_closely(n: nat, d: nat)
    requires
        0 < d,
        n < 0x20_0000_0000_0000,
        n <= 0x100_0000_0000 * d,
    ensures
        -(d as int) < tenths_of(n, d) * d - 10 * n < d,
        -(d as int) < units_of(n, d) * d - n < d,
{
    rounding_to_bits_is_close(n);
    let (m, u) = quotient53(n, d);
    if n == 0 {
        assert(u == 1);
        assert(n * u == 0) by (nonlinear_arith)
            requires
                n == 0,
        ;
        rounding_is_to_the_nearest(0, d);
        assert(m == 0) by (nonlinear_arith)
            requires
                2 * (m * d - 0) <= d,
                d > 0,
                m >= 0,
        ;
        rounding_is_to_the_nearest(0, 1);
        assert(0 * d == 0) by (nonlinear_arith);
    } else {
        a_quotient_is_close(n, d, 1024);
        let t = round_even(10 * m, u);
        let w = round_even(m, u);
        rounding_is_to_the_nearest(10 * m, u);
        rounding_is_to_the_nearest(m, u);
        a_rounded_quotient_is_close(n as int, d as int, m as int, u as int, t as int, 10);
        assert(1 * m == m);
        a_rounded_quotient_is_close(n as int, d as int, m as int, u as int, w as int, 1);
    }
}

proof fn a_rounded_quotient_is_close(a: int, d: int, m: int, u: int, t: int, k: int)
    requires
        0 < d,
        1024 <= u,
        1 <= k <= 10,
        -d <= 2 * (m * d - a * u) <= d,
        -u <= 2 * (t * u - k * m) <= u,
    ensures
        -d < t * d - k * a < d,
{
    let e = t * u - k * m;
    let f = m * d - a * u;
    assert((t * d - k * a) * u == e * d + k * f) by (nonlinear_arith)
        requires
            e == t * u - k * m,
            f == m * d - a * u,
    ;
    assert(-(u * d) <= 2 * (e * d) <= u * d) by (nonlinear_arith)
        requires
            -u <= 2 * e <= u,
            d > 0,
    ;
    assert(-(k * d) <= 2 * (k * f) <= k * d) by (nonlinear_arith)
        requires
            -d <= 2 * f <= d,
            k > 0,
    ;
    assert(k * d < u * d) by (nonlinear_arith)
        requires
            k < u,
            d > 0,
    ;
    let g = t * d - k * a;
    assert(-d < g < d) by (nonlinear_arith)
        requires
            -(2 * (u * d)) < 2 * (g * u) < 2 * (u * d),
            u > 0,
    ;
}

/// The share of a model that a machine can hold is written in percent and off by less than
/// one.
pub proof fn a_share_is_in_percent(max_layers: nat, total_layers: nat)
    requires
        max_layers <= total_layers <= u32::MAX,
        total_layers > 0,
    ensures
        -(total_layers as int) <= share_percent(max_layers, total_layers) * total_layers - 100
            * max_layers <= total_layers,
        share_percent(0, total_layers) == 0,
{
    let a = max_layers;
    let d = total_layers;
    let (m, u) = quotient53(a, d);
    let p = round53(100 * m);
    nothing_is_no_share(d);
    if a > 0 {
        assert(0x10_0000_0000_0000 * a <= 0x10_0000_0000_0000 * d);
        a_quotient_is_close(a, d, 0x10_0000_0000_0000);
        let top = 0x10_0000_0000_0000 * d;
        a_scale_reaches_the_top(a, top);
        assert(a * u == u * a) by (nonlinear_arith);
        assert(u != 1);
        assert(2 * (m * d) <= 2 * (2 * top) + d);
        assert(m <= 0x40_0000_0000_0000) by (nonlinear_arith)
            requires
                2 * (m * d) <= 2 * (2 * (0x10_0000_0000_0000 * d)) + d,
                d > 0,
        ;
        rounding_to_bits_is_close(100 * m);
        assert(-200 <= p - 100 * m <= 200);
        rounding_is_to_the_nearest(p, u);
        let s = share_percent(a, d);
        if p >= 100 * u {
            a_full_share_is_close(a as int, d as int, m as int, u as int, p as int);
        } else {
            a_part_share_is_close(a as int, d as int, m as int, u as int, p as int, s as int);
        }
    }
}

proof fn nothing_is_no_share(d: nat)
    requires
        d > 0,
    ensures
        share_percent(0, d) == 0,
{
    let (m, u) = quotient53(0, d);
    assert(u == 1);
    assert(0 * u == 0) by (nonlinear_arith);
    rounding_is_to_the_nearest(0, d);
    assert(m == 0) by (nonlinear_arith)
        requires
            2 * (m * d - 0) <= d,
            d > 0,
            m >= 0,
    ;
    rounding_to_bits_is_close(0);
    rounding_is_to_the_nearest(0, 1);
}

proof fn a_full_share_is_close(a: int, d: int, m: int, u: int, p: int)
    requires
        0 < a <= d <= u32::MAX,
        u >= 0x10_0000_0000_0000,
        -d <= 2 * (m * d - a * u) <= d,
        p - 100 * m <= 200,
        p >= 100 * u,
    ensures
        0 <= 100 * d - 100 * a <= d,
{
    assert(u - m <= 2);
    assert((u - m) * d <= 2 * d) by (nonlinear_arith)
        requires
            u - m <= 2,
            d > 0,
    ;
    assert((u - m) * d == u * d - m * d) by (nonlinear_arith);
    assert(u * d - a * u == u * (d - a)) by (nonlinear_arith);
    if d > a {
        assert(u * (d - a) >= u) by (nonlinear_arith)
            requires
                d - a >= 1,
                u > 0,
        ;
    }
}

proof fn a_part_share_is_close(a: int, d: int, m: int, u: int, p: int, s: int)
    requires
        0 < a <= d,
        u >= 0x10_0000_0000_0000,
        -d <= 2 * (m * d - a * u) <= d,
        -200 <= p - 100 * m <= 200,
        -u <= 2 * (s * u - p) <= u,
    ensures
        -d <= s * d - 100 * a <= d,
{
    let e = s * u - 100 * m;
    let f = m * d - a * u;
    assert((s * d - 100 * a) * u == e * d + 100 * f) by (nonlinear_arith)
        requires
            e == s * u - 100 * m,
            f == m * d - a * u,
    ;
    assert(-((u + 400) * d) <= 2 * (e * d) <= (u + 400) * d) by (nonlinear_arith)
        requires
            -(u + 400) <= 2 * e <= u + 400,
            d > 0,
    ;
    assert((u + 400) * d == u * d + 400 * d) by (nonlinear_arith);
    assert(500 * d <= u * d) by (nonlinear_arith)
        requires
            500 <= u,
            d > 0,
    ;
    let g = s * d - 100 * a;
    assert(-d <= g <= d) by (nonlinear_arith)
        requires
            -(2 * (u * d)) <= 2 * (g * u) <= 2 * (u * d),
            u > 0,
    ;
}

/// How much of the time went into computing is in percent of all of it and off by less than
/// one; where no time was taken, it is half.
pub proof fn the_time_is_shared_in_percent(compute_ms: nat, network_ms: nat)
    requires
        compute_ms + network_ms < 0x20_0000_0000_0000,
    ensures
        compute_percent(0, 0) == 50,
        -((compute_ms + network_ms) as int) <= compute_percent(compute_ms, network_ms) * (compute_ms
            + network_ms) - 100 * compute_ms <= compute_ms + network_ms,
{
    let a = compute_ms;
    let d = compute_ms + network_ms;
    rounding_to_bits_is_close(a);
    rounding_to_bits_is_close(d);
    let s = compute_percent(a, network_ms);
    if d == 0 {
        assert(s * d == 0) by (nonlinear_arith)
            requires
                d == 0,
        ;
    } else {
        let (m, u) = quotient53(a, d);
        let p = round53(100 * m);
        if a == 0 {
            assert(u == 1);
            assert(0 * u == 0) by (nonlinear_arith);
            rounding_is_to_the_nearest(0, d);
            assert(m == 0) by (nonlinear_arith)
                requires
                    2 * (m * d - 0) <= d,
                    d > 0,
                    m >= 0,
            ;
            rounding_to_bits_is_close(0);
            assert(p == 0);
            assert(s == (2 * p + u) / (2 * u));
            assert(s == 0) by (nonlinear_arith)
                requires
                    s == (2 * p + u) / (2 * u),
                    p == 0,
                    u == 1,
            ;
            assert(s * d == 0) by (nonlinear_arith)
                requires
                    s == 0,
            ;
        } else {
            a_quotient_is_close(a, d, 0x10_0000_0000_0000);
            let top = 0x10_0000_0000_0000 * d;
            a_scale_reaches_the_top(a, top);
            assert(a * u == u * a) by (nonlinear_arith);
            assert(2 * (m * d) <= 2 * (2 * top) + d);
            assert(m <= 0x40_0000_0000_0000) by (nonlinear_arith)
                requires
                    2 * (m * d) <= 2 * (2 * (0x10_0000_0000_0000 * d)) + d,
                    d > 0,
            ;
            rounding_to_bits_is_close(100 * m);
            let x = 2 * p + u;
            let w = 2 * u;
            assert(s == x / w);
            assert(w * s <= x < w * s + w) by (nonlinear_arith)
                requires
                    w > 0,
                    s == x / w,
            ;
            assert(w * s == 2 * (s * u)) by (nonlinear_arith)
                requires
                    w == 2 * u,
            ;
            a_part_share_is_close(a as int, d as int, m as int, u as int, p as int, s as int);
        }
    }
}

/// A number of tenths is written as the whole ones, a point, and the one digit that is left.
pub proof fn tenths_are_written_with_a_point(whole: nat, rest: nat)
    requires
        rest < 10,
    ensures
        tenths_text(10 * whole + rest) == text::dec(whole) + "."@ + text::dec(rest),
        text::dec(rest).len() == 1,
{
}

} // verus!
