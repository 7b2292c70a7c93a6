//! Text: what a string holds, how numbers are written, and the searches that
//! the other modules need, all over sequences of characters.

use vstd::prelude::*;
use vstd::utf8::*;

verus! {

/// Trusted: `String::push` appends one character at the end.
pub assume_specification[ String::push ](s: &mut String, c: char)
    ensures
        final(s)@ == old(s)@.push(c),
;

/// The characters of a string, one by one.
pub fn chars_of(s: &str) -> (r: Vec<char>)
    ensures
        r@ == s@,
{
    let mut out: Vec<char> = Vec::new();
    for c in it: s.chars()
        invariant
            out@ == it.seq().take(it.index()),
    {
        out.push(c);
    }
    out
}

/// The string made of the characters from `i` up to `j`.
pub fn slice_of(v: &Vec<char>, i: usize, j: usize) -> (r: String)
    requires
        i <= j <= v@.len(),
    ensures
        r@ == v@.subrange(i as int, j as int),
{
    let mut s: String = String::new();
    let mut k: usize = i;
    while k < j
        invariant
            i <= k <= j <= v@.len(),
            s@ == v@.subrange(i as int, k as int),
        decreases j - k,
    {
        s.push(v[k]);
        assert(v@.subrange(i as int, k + 1) =~= v@.subrange(i as int, k as int).push(v@[k as int]));
        k += 1;
    }
    s
}

/// Whether two strings hold the same characters.
pub fn str_eq(a: &str, b: &str) -> (r: bool)
    ensures
        r == (a@ == b@),
{
    let x: &[u8] = a.as_bytes();
    let y: &[u8] = b.as_bytes();
    let same = bytes_eq(x, y);
    proof {
        encode_utf8_decode_utf8(a@);
        encode_utf8_decode_utf8(b@);
    }
    same
}

/// Whether two byte strings are the same.
pub fn bytes_eq(x: &[u8], y: &[u8]) -> (r: bool)
    ensures
        r == (x@ == y@),
{
    if x.len() != y.len() {
        return false;
    }
    let mut i: usize = 0;
    while i < x.len()
        invariant
            i <= x@.len(),
            x@.len() == y@.len(),
            forall|k: int| 0 <= k < i ==> x@[k] == y@[k],
        decreases x@.len() - i,
    {
        if x[i] != y[i] {
            return false;
        }
        i += 1;
    }
    assert(x@ =~= y@);
    true
}

/// A copy of a byte string.
pub fn copy_bytes(x: &[u8]) -> (r: Vec<u8>)
    ensures
        r@ == x@,
{
    let mut out: Vec<u8> = Vec::new();
    append_bytes(&mut out, x);
    assert(out@ =~= x@);
    out
}

/// Appends a byte string.
pub fn append_bytes(out: &mut Vec<u8>, x: &[u8])
    ensures
        final(out)@ == old(out)@ + x@,
{
    let mut i: usize = 0;
    while i < x.len()
        invariant
            i <= x@.len(),
            out@ == old(out)@ + x@.take(i as int),
        decreases x@.len() - i,
    {
        out.push(x[i]);
        assert(x@.take(i + 1) =~= x@.take(i as int).push(x@[i as int]));
        i += 1;
    }
    assert(x@.take(i as int) =~= x@);
}

/// The bytes from `i` up to `j`.
pub fn slice_bytes(x: &[u8], i: usize, j: usize) -> (r: Vec<u8>)
    requires
        i <= j <= x@.len(),
    ensures
        r@ == x@.subrange(i as int, j as int),
{
    let mut out: Vec<u8> = Vec::new();
    let mut k: usize = i;
    while k < j
        invariant
            i <= k <= j <= x@.len(),
            out@ == x@.subrange(i as int, k as int),
        decreases j - k,
    {
        out.push(x[k]);
        assert(x@.subrange(i as int, k + 1) =~= x@.subrange(i as int, k as int).push(x@[k as int]));
        k += 1;
    }
    out
}

// ---------------------------------------------------------------------------
// Numbers
// ---------------------------------------------------------------------------

/// One digit, `0` to `9` and then `a` to `f`.
pub open spec fn digit(d: nat) -> char {
    if d < 10 {
        (48 + d) as char
    } else {
        (87 + d) as char
    }
}

/// A number written in base `base`, without leading zeros.
pub open spec fn numeral(n: nat, base: nat) -> Seq<char>
    decreases n,
{
    if base < 2 {
        Seq::empty()
    } else if n < base {
        seq![digit(n)]
    } else {
        proof {
            assert(n / base < n) by (nonlinear_arith)
                requires
                    2 <= base <= n,
            ;
        }
        numeral(n / base, base).push(digit(n % base))
    }
}

/// A number written in base ten.
pub open spec fn dec(n: nat) -> Seq<char> {
    numeral(n, 10)
}

/// A signed number written in base ten.
pub open spec fn dec_int(n: int) -> Seq<char> {
    if n < 0 {
        seq!['-'] + dec((-n) as nat)
    } else {
        dec(n as nat)
    }
}

fn digit_char(d: u8) -> (c: char)
    requires
        d < 16,
    ensures
        c == digit(d as nat),
{
    if d < 10 {
        (48 + d) as char
    } else {
        (87 + d) as char
    }
}

fn numeral_of(n: u128, base: u128) -> (s: String)
    requires
        2 <= base <= 16,
    ensures
        s@ == numeral(n as nat, base as nat),
    decreases n,
{
    if n < base {
        let mut s: String = String::new();
        s.push(digit_char(n as u8));
        assert(s@ =~= seq![digit(n as nat)]);
        s
    } else {
        assert(n / base < n) by (nonlinear_arith)
            requires
                2 <= base <= n,
        ;
        let mut s: String = numeral_of(n / base, base);
        s.push(digit_char((n % base) as u8));
        s
    }
}

/// Writes a number in base ten.
pub fn decimal(n: u64) -> (s: String)
    ensures
        s@ == dec(n as nat),
{
    numeral_of(n as u128, 10)
}

/// Writes a number in base ten.
pub fn decimal_wide(n: u128) -> (s: String)
    ensures
        s@ == dec(n as nat),
{
    numeral_of(n, 10)
}

/// Writes a signed number in base ten.
pub fn decimal_i64(n: i64) -> (s: String)
    ensures
        s@ == dec_int(n as int),
{
    if n < 0 {
        let magnitude: u128 = (-(n as i128)) as u128;
        let mut s: String = String::new();
        s.push('-');
        s.append(numeral_of(magnitude, 10).as_str());
        assert(s@ =~= dec_int(n as int));
        s
    } else {
        numeral_of(n as u128, 10)
    }
}

/// Writes a number in base sixteen, in lower case.
pub fn hexadecimal(n: u128) -> (s: String)
    ensures
        s@ == numeral(n as nat, 16),
{
    numeral_of(n, 16)
}

/// The two digits of a byte.
pub open spec fn hex_byte(b: u8) -> Seq<char> {
    seq![digit((b / 16) as nat), digit((b % 16) as nat)]
}

/// Bytes written in base sixteen, two digits each.
pub open spec fn hex(bytes: Seq<u8>) -> Seq<char>
    decreases bytes.len(),
{
    if bytes.len() == 0 {
        Seq::empty()
    } else {
        hex(bytes.drop_last()) + hex_byte(bytes.last())
    }
}

/// Writes bytes in base sixteen, in lower case.
pub fn hex_of(bytes: &[u8]) -> (s: String)
    ensures
        s@ == hex(bytes@),
{
    let mut s: String = String::new();
    let mut i: usize = 0;
    while i < bytes.len()
        invariant
            i <= bytes@.len(),
            s@ == hex(bytes@.take(i as int)),
        decreases bytes@.len() - i,
    {
        let b: u8 = bytes[i];
        s.push(digit_char(b / 16));
        s.push(digit_char(b % 16));
        proof {
            let t = bytes@.take(i + 1);
            assert(t.drop_last() =~= bytes@.take(i as int));
            assert(s@ =~= hex(t.drop_last()) + hex_byte(t.last()));
        }
        i += 1;
    }
    assert(bytes@.take(i as int) =~= bytes@);
    s
}

/// `s` with `c` put in front until it is `width` characters long.
pub open spec fn pad_left(s: Seq<char>, c: char, width: nat) -> Seq<char> {
    if s.len() >= width {
        s
    } else {
        Seq::new((width - s.len()) as nat, |i: int| c) + s
    }
}

/// `s` with spaces behind it until it is `width` characters long.
pub open spec fn pad_right(s: Seq<char>, width: nat) -> Seq<char> {
    if s.len() >= width {
        s
    } else {
        s + Seq::new((width - s.len()) as nat, |i: int| ' ')
    }
}

/// The character `c`, `n` times.
pub open spec fn repeated(c: char, n: nat) -> Seq<char> {
    Seq::new(n, |i: int| c)
}

/// A string of `n` times the same character.
pub fn repeat_char(c: char, n: usize) -> (s: String)
    ensures
        s@ == repeated(c, n as nat),
{
    let mut s: String = String::new();
    let mut i: usize = 0;
    while i < n
        invariant
            i <= n,
            s@ == repeated(c, i as nat),
        decreases n - i,
    {
        s.push(c);
        i += 1;
        assert(s@ =~= repeated(c, i as nat));
    }
    s
}

/// `s` with `c` put in front until it is `width` characters long.
pub fn padded_left(s: &str, c: char, width: usize) -> (r: String)
    ensures
        r@ == pad_left(s@, c, width as nat),
{
    let len: usize = s.unicode_len();
    if len >= width {
        return s.to_string();
    }
    let mut r: String = repeat_char(c, width - len);
    r.append(s);
    assert(r@ =~= pad_left(s@, c, width as nat));
    r
}

/// Writes a number in base sixteen with zeros in front, at least `width` digits.
pub fn hexadecimal_padded(n: u64, width: usize) -> (s: String)
    ensures
        s@ == pad_left(numeral(n as nat, 16), '0', width as nat),
{
    padded_left(numeral_of(n as u128, 16).as_str(), '0', width)
}

/// `s` with spaces behind it until it is `width` characters long.
pub fn padded_right(s: &str, width: usize) -> (r: String)
    ensures
        r@ == pad_right(s@, width as nat),
{
    let len: usize = s.unicode_len();
    let mut r: String = s.to_string();
    if len < width {
        r.append(repeat_char(' ', width - len).as_str());
        assert(r@ =~= pad_right(s@, width as nat));
    }
    r
}

// ---------------------------------------------------------------------------
// Searching
// ---------------------------------------------------------------------------

/// Whether `p` stands in `s` at position `i`.
pub open spec fn occurs_at(s: Seq<char>, p: Seq<char>, i: int) -> bool {
    0 <= i && i + p.len() <= s.len() && s.subrange(i, i + p.len()) == p
}

/// Whether `s` begins with `p`.
pub open spec fn has_prefix(s: Seq<char>, p: Seq<char>) -> bool {
    occurs_at(s, p, 0)
}

/// Whether `p` stands anywhere in `s`.
pub open spec fn has_part(s: Seq<char>, p: Seq<char>) -> bool {
    exists|i: int| occurs_at(s, p, i)
}

fn occurs_here(s: &Vec<char>, p: &Vec<char>, i: usize) -> (r: bool)
    requires
        i <= s@.len(),
    ensures
        r == occurs_at(s@, p@, i as int),
{
    if p.len() > s.len() - i {
        return false;
    }
    let mut k: usize = 0;
    while k < p.len()
        invariant
            k <= p@.len(),
            i + p@.len() <= s.len(),
            s.len() == s@.len(),
            forall|j: int| 0 <= j < k ==> s@[i + j] == p@[j],
        decreases p@.len() - k,
    {
        if s[i + k] != p[k] {
            assert(s@.subrange(i as int, i + p@.len())[k as int] != p@[k as int]);
            return false;
        }
        k += 1;
    }
    assert(s@.subrange(i as int, i + p@.len()) =~= p@);
    true
}

/// The first place at which `p` stands in `s`, in characters.
pub fn find(s: &Vec<char>, p: &Vec<char>) -> (r: Option<usize>)
    ensures
        match r {
            Some(i) => occurs_at(s@, p@, i as int) && forall|k: int|
                0 <= k < i ==> !occurs_at(s@, p@, k),
            None => !has_part(s@, p@),
        },
{
    let mut i: usize = 0;
    while i < s.len()
        invariant
            i <= s@.len(),
            forall|k: int| 0 <= k < i ==> !occurs_at(s@, p@, k),
        decreases s@.len() - i,
    {
        if occurs_here(s, p, i) {
            return Some(i);
        }
        i += 1;
    }
    if occurs_here(s, p, i) {
        Some(i)
    } else {
        None
    }
}

/// Whether `s` begins with `p`.
pub fn starts_with(s: &str, p: &str) -> (r: bool)
    ensures
        r == has_prefix(s@, p@),
{
    occurs_here(&chars_of(s), &chars_of(p), 0)
}

/// What is left of `s` behind the prefix `p`.
pub fn strip_prefix(s: &str, p: &str) -> (r: Option<String>)
    ensures
        match r {
            Some(rest) => has_prefix(s@, p@) && rest@ == s@.skip(p@.len() as int),
            None => !has_prefix(s@, p@),
        },
{
    let cs: Vec<char> = chars_of(s);
    let cp: Vec<char> = chars_of(p);
    if occurs_here(&cs, &cp, 0) {
        let rest: String = slice_of(&cs, cp.len(), cs.len());
        assert(rest@ =~= s@.skip(p@.len() as int));
        Some(rest)
    } else {
        None
    }
}

/// Whether `p` stands anywhere in `s`.
pub fn contains(s: &str, p: &str) -> (r: bool)
    ensures
        r == has_part(s@, p@),
{
    find(&chars_of(s), &chars_of(p)).is_some()
}

/// Whether `i` is the last place at which `c` stands in `s`.
pub open spec fn last_at(s: Seq<char>, c: char, i: int) -> bool {
    0 <= i < s.len() && s[i] == c && forall|k: int| i < k < s.len() ==> s[k] != c
}

/// The last place at which `c` stands in `s`.
pub open spec fn last_place(s: Seq<char>, c: char) -> Option<int>
    decreases s.len(),
{
    if s.len() == 0 {
        None
    } else if s.last() == c {
        Some(s.len() - 1)
    } else {
        last_place(s.drop_last(), c)
    }
}

/// The last place of a character is one, and none is behind it.
pub proof fn the_last_place_is_the_last(s: Seq<char>, c: char)
    ensures
        match last_place(s, c) {
            Some(i) => last_at(s, c, i),
            None => forall|k: int| 0 <= k < s.len() ==> s[k] != c,
        },
    decreases s.len(),
{
    if s.len() > 0 && s.last() != c {
        the_last_place_is_the_last(s.drop_last(), c);
        assert forall|k: int| 0 <= k < s.len() - 1 implies s[k] == s.drop_last()[k] by {}
    }
}

/// The last place at which `c` stands in `s`.
pub fn last_index(s: &Vec<char>, c: char) -> (r: Option<usize>)
    ensures
        match r {
            Some(i) => last_place(s@, c) == Some(i as int) && last_at(s@, c, i as int),
            None => last_place(s@, c) is None && forall|k: int|
                0 <= k < s@.len() ==> s@[k] != c,
        },
{
    proof {
        the_last_place_is_the_last(s@, c);
    }
    let mut i: usize = s.len();
    assert(s@.take(i as int) =~= s@);
    while i > 0
        invariant
            i <= s@.len(),
            last_place(s@, c) matches Some(k) ==> last_at(s@, c, k),
            last_place(s@, c) == last_place(s@.take(i as int), c),
        decreases i,
    {
        assert(s@.take(i as int).drop_last() =~= s@.take(i - 1));
        i -= 1;
        if s[i] == c {
            return Some(i);
        }
    }
    None
}

/// The strings of `parts`, with `sep` between each two.
pub open spec fn joined(parts: Seq<Seq<char>>, sep: Seq<char>) -> Seq<char>
    decreases parts.len(),
{
    if parts.len() == 0 {
        Seq::empty()
    } else if parts.len() == 1 {
        parts[0]
    } else {
        joined(parts.drop_last(), sep) + sep + parts.last()
    }
}

/// What a list of strings holds.
pub open spec fn views(parts: Seq<String>) -> Seq<Seq<char>> {
    Seq::new(parts.len(), |i: int| parts[i]@)
}

/// The strings of `parts` in one, with `sep` between each two.
pub fn join(parts: &Vec<String>, sep: &str) -> (s: String)
    ensures
        s@ == joined(views(parts@), sep@),
{
    if parts.len() == 0 {
        let s: String = String::new();
        assert(s@ =~= Seq::<char>::empty());
        return s;
    }
    let mut s: String = parts[0].clone();
    let mut i: usize = 1;
    assert(views(parts@).take(1).len() == 1);
    while i < parts.len()
        invariant
            1 <= i <= parts@.len(),
            s@ == joined(views(parts@).take(i as int), sep@),
        decreases parts@.len() - i,
    {
        s.append(sep);
        s.append(parts[i].as_str());
        proof {
            let t = views(parts@).take(i + 1);
            assert(t.drop_last() =~= views(parts@).take(i as int));
        }
        i += 1;
    }
    assert(views(parts@).take(i as int) =~= views(parts@));
    s
}

// ---------------------------------------------------------------------------
// White space and case
// ---------------------------------------------------------------------------

/// The number of a character.
pub fn code_point(c: char) -> (n: u32)
    ensures
        n == c as int,
{
    c as u32
}

/// The characters with the Unicode property `White_Space`.
pub open spec fn is_space(c: char) -> bool {
    let n = c as int;
    9 <= n <= 13 || n == 32 || n == 0x85 || n == 0xa0 || n == 0x1680 || 0x2000 <= n <= 0x200a || n
        == 0x2028 || n == 0x2029 || n == 0x202f || n == 0x205f || n == 0x3000
}

/// Whether a character is white space.
pub fn space(c: char) -> (r: bool)
    ensures
        r == is_space(c),
{
    let n: u32 = c as u32;
    (9 <= n && n <= 13) || n == 32 || n == 0x85 || n == 0xa0 || n == 0x1680 || (0x2000 <= n && n
        <= 0x200a) || n == 0x2028 || n == 0x2029 || n == 0x202f || n == 0x205f || n == 0x3000
}

/// `t` is `s` without the white space at both ends.
pub open spec fn trims_to(s: Seq<char>, t: Seq<char>) -> bool {
    exists|i: int, j: int|
        {
            &&& 0 <= i <= j <= s.len()
            &&& t == #[trigger] s.subrange(i, j)
            &&& forall|k: int| 0 <= k < i || j <= k < s.len() ==> is_space(s[k])
            &&& i < j ==> !is_space(s[i]) && !is_space(s[j - 1])
        }
}

/// The same text without the white space at both ends.
pub fn trim(s: &str) -> (t: String)
    ensures
        trims_to(s@, t@),
{
    let cs: Vec<char> = chars_of(s);
    let mut i: usize = 0;
    while i < cs.len() && space(cs[i])
        invariant
            i <= cs@.len(),
            forall|k: int| 0 <= k < i ==> is_space(cs@[k]),
        decreases cs@.len() - i,
    {
        i += 1;
    }
    let mut j: usize = cs.len();
    while j > i && space(cs[j - 1])
        invariant
            i <= j <= cs@.len(),
            forall|k: int| j <= k < cs@.len() ==> is_space(cs@[k]),
        decreases j,
    {
        j -= 1;
    }
    let t: String = slice_of(&cs, i, j);
    assert(t@ == s@.subrange(i as int, j as int));
    t
}

/// An ASCII capital as its small letter; any other character as it is.
pub open spec fn lower(c: char) -> char {
    if 65 <= c as int <= 90 {
        (c as int + 32) as char
    } else {
        c
    }
}

/// `s` with its ASCII capitals made small.
pub open spec fn lowered(s: Seq<char>) -> Seq<char> {
    Seq::new(s.len(), |i: int| lower(s[i]))
}

/// The same text with its ASCII capitals made small.
pub fn to_lower(s: &str) -> (r: String)
    ensures
        r@ == lowered(s@),
{
    let cs: Vec<char> = chars_of(s);
    let mut r: String = String::new();
    let mut i: usize = 0;
    while i < cs.len()
        invariant
            i <= cs@.len(),
            r@ == lowered(cs@.take(i as int)),
        decreases cs@.len() - i,
    {
        let c: char = cs[i];
        let n: u32 = code_point(c);
        if 65 <= n && n <= 90 {
            r.push((n as u8 + 32) as char);
        } else {
            r.push(c);
        }
        i += 1;
        assert(r@ =~= lowered(cs@.take(i as int)));
    }
    assert(cs@.take(i as int) =~= cs@);
    r
}

// ---------------------------------------------------------------------------
// Order
// ---------------------------------------------------------------------------

/// Whether `a` stands before `b` in the order of their code points, from left
/// to right, a prefix before what continues it.
pub open spec fn before(a: Seq<char>, b: Seq<char>) -> bool
    decreases a.len(),
{
    if b.len() == 0 {
        false
    } else if a.len() == 0 {
        true
    } else if a[0] == b[0] {
        before(a.skip(1), b.skip(1))
    } else {
        (a[0] as int) < (b[0] as int)
    }
}

/// No text stands before itself.
pub proof fn before_is_irreflexive(a: Seq<char>)
    ensures
        !before(a, a),
    decreases a.len(),
{
    if a.len() > 0 {
        before_is_irreflexive(a.skip(1));
    }
}

/// The order of texts is transitive.
pub proof fn before_is_transitive(a: Seq<char>, b: Seq<char>, c: Seq<char>)
    requires
        before(a, b),
        before(b, c),
    ensures
        before(a, c),
    decreases a.len(),
{
    if a.len() > 0 {
        if a[0] == b[0] && b[0] == c[0] {
            before_is_transitive(a.skip(1), b.skip(1), c.skip(1));
        }
    }
}

/// Of two different texts one stands before the other.
pub proof fn before_is_total(a: Seq<char>, b: Seq<char>)
    ensures
        before(a, b) || before(b, a) || a == b,
    decreases a.len(),
{
    if a.len() > 0 && b.len() > 0 && a[0] == b[0] {
        before_is_total(a.skip(1), b.skip(1));
        if a.skip(1) == b.skip(1) {
            assert(a =~= seq![a[0]] + a.skip(1));
            assert(b =~= seq![b[0]] + b.skip(1));
        }
    } else if a.len() == 0 && b.len() == 0 {
        assert(a =~= b);
    }
}

/// Whether `a` stands before `b`.
pub fn is_before(a: &str, b: &str) -> (r: bool)
    ensures
        r == before(a@, b@),
{
    let x: Vec<char> = chars_of(a);
    let y: Vec<char> = chars_of(b);
    let mut i: usize = 0;
    proof {
        assert(x@.skip(0) =~= x@);
        assert(y@.skip(0) =~= y@);
    }
    while i < x.len() && i < y.len()
        invariant
            x@ == a@,
            y@ == b@,
            i <= x@.len(),
            i <= y@.len(),
            before(x@, y@) == before(x@.skip(i as int), y@.skip(i as int)),
        decreases x@.len() - i,
    {
        if x[i] != y[i] {
            return code_point(x[i]) < code_point(y[i]);
        }
        proof {
            assert(x@.skip(i as int).skip(1) =~= x@.skip(i + 1));
            assert(y@.skip(i as int).skip(1) =~= y@.skip(i + 1));
        }
        i += 1;
    }
    i < y.len()
}

/// Texts in order, none twice.
pub open spec fn ascending(s: Seq<Seq<char>>) -> bool {
    forall|i: int, j: int| 0 <= i < j < s.len() ==> before(#[trigger] s[i], #[trigger] s[j])
}

/// Puts a text in its place in an ascending list, unless it is there already.
pub fn insert_ascending(list: &mut Vec<String>, item: String)
    requires
        ascending(views(old(list)@)),
    ensures
        ascending(views(final(list)@)),
        forall|t: Seq<char>|
            #![auto]
            views(final(list)@).contains(t) <==> views(old(list)@).contains(t) || t == item@,
{
    let ghost before_list = views(list@);
    let mut i: usize = 0;
    while i < list.len() && is_before(list[i].as_str(), item.as_str())
        invariant
            i <= list@.len(),
            list@ == old(list)@,
            forall|k: int| 0 <= k < i ==> before(views(list@)[k], item@),
        decreases list@.len() - i,
    {
        i += 1;
    }
    if i < list.len() && str_eq(list[i].as_str(), item.as_str()) {
        assert(views(list@)[i as int] == item@);
        return;
    }
    let ghost value = item@;
    list.insert(i, item);
    proof {
        let after_list = views(list@);
        assert(after_list =~= before_list.insert(i as int, value));
        if i < before_list.len() {
            before_is_total(before_list[i as int], value);
        }
        assert forall|a: int, b: int| 0 <= a < b < after_list.len() implies before(
            #[trigger] after_list[a],
            #[trigger] after_list[b],
        ) by {
            if a == i && b > i + 1 {
                before_is_transitive(value, before_list[i as int], before_list[b - 1]);
            }
        }
        assert forall|t: Seq<char>|
            #![auto]
            after_list.contains(t) <==> before_list.contains(t) || t == value by {
            if before_list.contains(t) {
                let k = choose|k: int| 0 <= k < before_list.len() && before_list[k] == t;
                if k < i {
                    assert(after_list[k] == t);
                } else {
                    assert(after_list[k + 1] == t);
                }
            }
            if t == value {
                assert(after_list[i as int] == t);
            }
            if after_list.contains(t) && t != value {
                let k = choose|k: int| 0 <= k < after_list.len() && after_list[k] == t;
                if k < i {
                    assert(before_list[k] == t);
                } else {
                    assert(before_list[k - 1] == t);
                }
            }
        }
    }
}

// ---------------------------------------------------------------------------
// Reading numbers
// ---------------------------------------------------------------------------

/// Whether a character is a decimal digit.
pub open spec fn is_digit(c: char) -> bool {
    48 <= c as int <= 57
}

/// Whether every character is a decimal digit, and there is one.
pub open spec fn all_digits(s: Seq<char>) -> bool {
    s.len() > 0 && forall|i: int| 0 <= i < s.len() ==> is_digit(#[trigger] s[i])
}

/// The number that decimal digits stand for.
pub open spec fn digits_value(s: Seq<char>) -> nat
    decreases s.len(),
{
    if s.len() == 0 {
        0
    } else {
        10 * digits_value(s.drop_last()) + (s.last() as int - 48) as nat
    }
}

/// The digits of a written number: behind a `+`, where there is one.
pub open spec fn unsigned_digits(s: Seq<char>) -> Seq<char> {
    if s.len() > 0 && s[0] == '+' {
        s.skip(1)
    } else {
        s
    }
}

/// The number that a text stands for, where it stands for one of at most `max`:
/// decimal digits, with or without a `+` in front.
pub open spec fn read_number(s: Seq<char>, max: nat) -> Option<nat> {
    let d = unsigned_digits(s);
    if all_digits(d) && digits_value(d) <= max {
        Some(digits_value(d))
    } else {
        None
    }
}

proof fn digits_value_grows(s: Seq<char>, n: int)
    requires
        0 <= n <= s.len(),
    ensures
        digits_value(s.take(n)) <= digits_value(s),
    decreases s.len(),
{
    if n == s.len() {
        assert(s.take(n) =~= s);
    } else {
        digits_value_grows(s.drop_last(), n);
        assert(s.drop_last().take(n) =~= s.take(n));
    }
}

/// Reads a number of at most `max`.
pub fn parse_number(s: &str, max: u64) -> (r: Option<u64>)
    ensures
        match r {
            Some(n) => read_number(s@, max as nat) == Some(n as nat),
            None => read_number(s@, max as nat) is None,
        },
{
    let cs: Vec<char> = chars_of(s);
    let start: usize = if cs.len() > 0 && cs[0] == '+' {
        1
    } else {
        0
    };
    let ghost d = unsigned_digits(s@);
    proof {
        assert(d =~= cs@.skip(start as int));
    }
    if start == cs.len() {
        return None;
    }
    let mut value: u64 = 0;
    let mut i: usize = start;
    while i < cs.len()
        invariant
            start <= i <= cs@.len(),
            d == cs@.skip(start as int),
            d == unsigned_digits(s@),
            forall|k: int| 0 <= k < i - start ==> is_digit(#[trigger] d[k]),
            value == digits_value(d.take(i - start)),
            value <= max,
        decreases cs@.len() - i,
    {
        let n: u32 = code_point(cs[i]);
        assert(cs@[i as int] == d[i - start]);
        if n < 48 || n > 57 {
            return None;
        }
        let digit_here: u64 = (n - 48) as u64;
        proof {
            assert(d.take(i + 1 - start).drop_last() =~= d.take(i - start));
            digits_value_grows(d, i + 1 - start);
        }
        let wide: u128 = 10 * (value as u128) + digit_here as u128;
        if wide > max as u128 {
            return None;
        }
        value = wide as u64;
        i += 1;
    }
    assert(d.take(i - start) =~= d);
    Some(value)
}

/// What a decimal numeral stands for is the number it was written from.
pub proof fn a_written_number_reads_back(n: nat)
    ensures
        all_digits(dec(n)),
        digits_value(dec(n)) == n,
    decreases n,
{
    if n < 10 {
        assert(dec(n).drop_last() =~= Seq::<char>::empty());
        assert(digits_value(Seq::<char>::empty()) == 0);
        assert(dec(n).last() == digit(n));
    } else {
        a_written_number_reads_back(n / 10);
        assert(dec(n) == dec(n / 10).push(digit(n % 10)));
        assert(dec(n).drop_last() =~= dec(n / 10));
    }
}

/// A number within the bound is read from its own numeral, and one beyond it from none.
pub proof fn a_written_number_is_read(n: nat, max: nat)
    ensures
        read_number(dec(n), max) == if n <= max {
            Some(n)
        } else {
            None
        },
        forall|i: int| 0 <= i < dec(n).len() ==> is_digit(#[trigger] dec(n)[i]),
        dec(n).len() > 0,
{
    a_written_number_reads_back(n);
    assert(is_digit(dec(n)[0]));
}

/// The number that a digit stands for.
pub open spec fn digit_value(c: char) -> int {
    if c as int >= 97 {
        c as int - 87
    } else {
        c as int - 48
    }
}

/// The number that digits stand for in a base.
pub open spec fn value_in(s: Seq<char>, base: nat) -> int
    decreases s.len(),
{
    if s.len() == 0 {
        0
    } else {
        value_in(s.drop_last(), base) * base + digit_value(s.last())
    }
}

/// A numeral stands for the number that it was written from, in its base, and has no
/// zero in front.
pub proof fn a_numeral_stands_for_its_number(n: nat, base: nat)
    requires
        2 <= base <= 16,
    ensures
        value_in(numeral(n, base), base) == n,
        numeral(n, base).len() > 0,
        numeral(n, base)[0] == '0' ==> n == 0,
        forall|i: int|
            0 <= i < numeral(n, base).len() ==> 0 <= digit_value(#[trigger] numeral(n, base)[i])
                < base,
    decreases n,
{
    let s = numeral(n, base);
    if n < base {
        assert(s.drop_last() =~= Seq::<char>::empty());
        assert(value_in(Seq::<char>::empty(), base) == 0);
        assert(0 * base == 0) by (nonlinear_arith);
        assert(s.last() == digit(n));
    } else {
        let q = n / base;
        let r = n % base;
        assert(q < n && q > 0 && r < base && q * base + r == n) by (nonlinear_arith)
            requires
                2 <= base <= n,
                q == n / base,
                r == n % base,
        ;
        a_numeral_stands_for_its_number(q, base);
        assert(s == numeral(q, base).push(digit(r)));
        assert(s.drop_last() =~= numeral(q, base));
        assert(s.last() == digit(r));
        assert(s[0] == numeral(q, base)[0]);
        assert forall|i: int| 0 <= i < s.len() implies 0 <= digit_value(#[trigger] s[i]) < base by {
            if i < numeral(q, base).len() {
                assert(s[i] == numeral(q, base)[i]);
            }
        }
    }
}

/// Each byte is found again from its two digits: the first counts sixteen times.
pub proof fn each_byte_reads_back_from_its_digits(bytes: Seq<u8>, i: int)
    requires
        0 <= i < bytes.len(),
    ensures
        hex(bytes).len() == 2 * bytes.len(),
        16 * digit_value(hex(bytes)[2 * i]) + digit_value(hex(bytes)[2 * i + 1]) == bytes[i],
        0 <= digit_value(hex(bytes)[2 * i]) < 16,
        0 <= digit_value(hex(bytes)[2 * i + 1]) < 16,
    decreases bytes.len(),
{
    let init = bytes.drop_last();
    crate::crypto::hex_is_twice_as_long(bytes);
    crate::crypto::hex_is_twice_as_long(init);
    if i < init.len() {
        each_byte_reads_back_from_its_digits(init, i);
        assert(hex(bytes)[2 * i] == hex(init)[2 * i]);
        assert(hex(bytes)[2 * i + 1] == hex(init)[2 * i + 1]);
    } else {
        let b = bytes.last();
        assert(hex(bytes)[2 * i] == hex_byte(b)[0]);
        assert(hex(bytes)[2 * i + 1] == hex_byte(b)[1]);
        assert(b / 16 < 16 && b % 16 < 16 && 16 * (b / 16) + b % 16 == b);
    }
}

/// A text that is padded is as wide as it should be at least, and holds the text itself
/// at the one end and nothing but the filling elsewhere.
pub proof fn padding_keeps_the_text(s: Seq<char>, c: char, width: nat, i: int)
    requires
        0 <= i < width,
        i < width - s.len(),
    ensures
        pad_left(s, c, width).len() == width,
        pad_left(s, c, width).skip(width - s.len()) == s,
        pad_left(s, c, width)[i] == c,
        pad_right(s, width).len() == width,
        pad_right(s, width).take(s.len() as int) == s,
        pad_right(s, width)[s.len() + i] == ' ',
{
    assert(pad_left(s, c, width).skip(width - s.len()) =~= s);
    assert(pad_right(s, width).take(s.len() as int) =~= s);
}

/// A text that is wide enough is not padded.
pub proof fn a_wide_text_is_not_padded(s: Seq<char>, c: char, width: nat)
    requires
        s.len() >= width,
    ensures
        pad_left(s, c, width) == s,
        pad_right(s, width) == s,
{
}

/// What was put in front of a text is found there, and without it the text is left; and
/// wherever one text stands in another, it is found.
pub proof fn what_is_put_in_front_is_found(p: Seq<char>, rest: Seq<char>, q: Seq<char>)
    ensures
        has_prefix(p + rest, p),
        (p + rest).skip(p.len() as int) == rest,
        has_prefix(rest, q) ==> q + rest.skip(q.len() as int) == rest,
        has_part(p + q + rest, q),
{
    assert((p + rest).subrange(0, p.len() as int) =~= p);
    assert((p + rest).skip(p.len() as int) =~= rest);
    if has_prefix(rest, q) {
        assert(rest.subrange(0, q.len() as int) == q);
        assert(q + rest.skip(q.len() as int) =~= rest);
    }
    let s = p + q + rest;
    assert(s.subrange(p.len() as int, (p.len() + q.len()) as int) =~= q);
    assert(occurs_at(s, q, p.len() as int));
}

/// Two lists joined one behind the other, with what stands between any two of them, are
/// both lists joined at once.
pub proof fn joining_goes_part_by_part(a: Seq<Seq<char>>, b: Seq<Seq<char>>, sep: Seq<char>)
    requires
        a.len() > 0,
        b.len() > 0,
    ensures
        joined(a + b, sep) == joined(a, sep) + sep + joined(b, sep),
        a.len() == 1 ==> joined(a, sep) == a[0],
    decreases b.len(),
{
    let all = a + b;
    assert(all.last() == b.last());
    assert(all.drop_last() =~= a + b.drop_last());
    if b.len() == 1 {
        assert(a + b.drop_last() =~= a);
        assert(joined(b, sep) == b[0]);
    } else {
        joining_goes_part_by_part(a, b.drop_last(), sep);
        assert(joined(b, sep) == joined(b.drop_last(), sep) + sep + b.last());
        assert(joined(all, sep) =~= joined(a, sep) + sep + joined(b, sep));
    }
}

/// What is left without the white space at both ends is one text, and it is left as it is
/// when that is done once more.
pub proof fn trimming_gives_one_text(s: Seq<char>, t: Seq<char>, u: Seq<char>)
    requires
        trims_to(s, t),
        trims_to(s, u),
    ensures
        t == u,
        trims_to(t, t),
{
    let (i, j) = choose|i: int, j: int|
        {
            &&& 0 <= i <= j <= s.len()
            &&& t == #[trigger] s.subrange(i, j)
            &&& forall|k: int| 0 <= k < i || j <= k < s.len() ==> is_space(s[k])
            &&& i < j ==> !is_space(s[i]) && !is_space(s[j - 1])
        };
    let (a, b) = choose|a: int, b: int|
        {
            &&& 0 <= a <= b <= s.len()
            &&& u == #[trigger] s.subrange(a, b)
            &&& forall|k: int| 0 <= k < a || b <= k < s.len() ==> is_space(s[k])
            &&& a < b ==> !is_space(s[a]) && !is_space(s[b - 1])
        };
    if i < j {
        assert(a <= i && j - 1 < b);
        assert(!is_space(s[a]) && !is_space(s[b - 1]));
        assert(a == i && b == j);
    } else if a < b {
        assert(is_space(s[a]));
    } else {
        assert(t =~= u);
    }
    assert(t.subrange(0, t.len() as int) =~= t);
    if t.len() > 0 {
        assert(t[0] == s[i] && t[t.len() - 1] == s[j - 1]);
    }
}

/// Only capitals change when a text is made small: each letter becomes its own small one,
/// as far behind `a` as the capital is behind `A`.
pub proof fn only_capitals_change(s: Seq<char>, i: int)
    requires
        0 <= i < s.len(),
    ensures
        lowered(s).len() == s.len(),
        lowered(lowered(s)) == lowered(s),
        'A' <= s[i] <= 'Z' ==> lowered(s)[i] as int - 'a' as int == s[i] as int - 'A' as int,
        !('A' <= s[i] <= 'Z') ==> lowered(s)[i] == s[i],
{
    assert(lowered(lowered(s)) =~= lowered(s)) by {
        assert forall|k: int| 0 <= k < s.len() implies lower(lower(#[trigger] s[k])) == lower(
            s[k],
        ) by {}
    }
}

/// A number and the same below zero differ by the sign in front.
pub proof fn a_sign_stands_in_front(n: nat)
    ensures
        n > 0 ==> dec_int(-n) == "-"@ + dec_int(n as int),
        dec_int(n as int) == dec(n),
{
    reveal_strlit("-");
    assert("-"@ =~= seq!['-']);
}

/// A text stands for a number only where it has a digit and nothing but digits, or a plus in
/// front of them; and a plus makes no difference.
pub proof fn only_digits_make_a_number(s: Seq<char>, max: nat, i: int)
    ensures
        read_number(Seq::empty(), max) is None,
        0 < i < s.len() && !is_digit(s[i]) ==> read_number(s, max) is None,
        s.len() > 0 && !is_digit(s[0]) && s[0] != '+' ==> read_number(s, max) is None,
        all_digits(s) ==> read_number(seq!['+'] + s, max) == read_number(s, max),
{
    if 0 < i < s.len() && !is_digit(s[i]) {
        if s[0] == '+' {
            assert(s.skip(1)[i - 1] == s[i]);
        }
    }
    if all_digits(s) {
        assert(is_digit(s[0]));
        assert((seq!['+'] + s).skip(1) =~= s);
    }
}

/// In an ascending list each text stands before all behind it, and none stands twice.
pub proof fn an_ascending_list_is_in_order(s: Seq<Seq<char>>, i: int, j: int)
    requires
        ascending(s),
        0 <= i < j < s.len(),
    ensures
        before(s[i], s[j]),
        s[i] != s[j],
{
    before_is_irreflexive(s[i]);
}

} // verus!
