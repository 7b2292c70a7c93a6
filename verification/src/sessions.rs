//! The names of sessions, and of the files that come of them.

use vstd::prelude::*;
use vstd::utf8::*;

use crate::text;

verus! {

/// Trusted: `uuid::Uuid::new_v4`, written out, is 36 ASCII characters. Which
/// they are is left to chance.
#[verifier::external_body]
fn uuid_v4() -> (r: String)
    ensures
        r@.len() == 36,
        is_ascii_chars(r@),
{
    uuid::Uuid::new_v4().to_string()
}

/// A name for something new: `prefix`, and behind it 36 characters left to
/// chance.
pub fn fresh_name(prefix: &str) -> (r: String)
    ensures
        text::has_prefix(r@, prefix@),
        r@.len() == prefix@.len() + 36,
        is_ascii_chars(r@.skip(prefix@.len() as int)),
{
    let mut r: String = prefix.to_string();
    let tail: String = uuid_v4();
    r.append(tail.as_str());
    proof {
        assert(r@.subrange(0, prefix@.len() as int) =~= prefix@);
        assert(r@.skip(prefix@.len() as int) =~= tail@);
    }
    r
}

/// The name of the session of a turn: the prefix of the conversation, and the
/// number of the turn.
pub open spec fn turn_text(prefix: Seq<char>, turn: nat) -> Seq<char> {
    prefix + "-"@ + text::dec(turn)
}

/// The name of the session of a turn: the prefix of the conversation, and the
/// number of the turn.
pub fn turn_name(prefix: &str, turn: u64) -> (r: String)
    ensures
        r@ == turn_text(prefix@, turn as nat),
{
    let mut r: String = prefix.to_string();
    r.append("-");
    r.append(text::decimal(turn).as_str());
    r
}

/// The prefix of a conversation that begins at a time.
pub open spec fn prefix_text(ms: nat) -> Seq<char> {
    text::pad_left(text::numeral(ms, 16), '0', 16)
}

/// The prefix of a conversation that begins at a time.
pub fn conversation_prefix(ms: u64) -> (r: String)
    ensures
        r@ == prefix_text(ms as nat),
{
    text::hexadecimal_padded(ms, 16)
}

/// How many bytes of the name of a session are part of the name of a file.
pub open spec fn head_len(session: Seq<char>) -> int {
    if encode_utf8(session).len() <= 8 {
        encode_utf8(session).len() as int
    } else {
        8
    }
}

/// The name of the file that is written for a session: its first bytes, and what
/// stands behind the last slash of the type of media.
pub open spec fn file_text(session: Seq<char>, mime: Seq<char>) -> Seq<char> {
    "diffuse-"@ + decode_utf8(encode_utf8(session).take(head_len(session))) + "."@
        + crate::attachments::behind_last_slash(mime)
}

/// The name of the file that is written for a session.
pub fn output_name(session: &str, mime: &str) -> (r: String)
    requires
        is_char_boundary(encode_utf8(session@), head_len(session@)),
    ensures
        r@ == file_text(session@, mime@),
{
    let n: usize = if session.len() <= 8 {
        session.len()
    } else {
        8
    };
    let bytes: &[u8] = session.as_bytes();
    assert(bytes@.len() == bytes.len());
    let (head, _) = session.split_at(n);
    proof {
        assert(encode_utf8(session@).take(n as int) =~= encode_utf8(session@).subrange(
            0,
            n as int,
        ));
        encode_utf8_decode_utf8(head@);
    }
    let cs: Vec<char> = text::chars_of(mime);
    let from: usize = match text::last_index(&cs, '/') {
        Some(i) => {
            assert(i < cs.len());
            i + 1
        },
        None => 0,
    };
    let ext: String = text::slice_of(&cs, from, cs.len());
    assert(ext@ =~= crate::attachments::behind_last_slash(mime@));
    let mut r: String = "diffuse-".to_string();
    r.append(head);
    r.append(".");
    r.append(ext.as_str());
    r
}

/// A name of ASCII characters can be cut anywhere.
pub proof fn an_ascii_name_can_be_cut(session: Seq<char>)
    requires
        is_ascii_chars(session),
    ensures
        is_char_boundary(encode_utf8(session), head_len(session)),
{
    is_ascii_chars_encode_utf8(session);
    encode_utf8_valid_utf8(session);
    is_char_boundary_start_end_of_seq(encode_utf8(session));
    let n = head_len(session);
    let bytes = encode_utf8(session);
    if n < bytes.len() {
        is_char_boundary_iff_not_is_continuation_byte(bytes, n);
        is_ascii_chars_nat_bound(session);
        assert(bytes[n] == session[n] as u8);
        let b = bytes[n];
        assert(b < 128);
        assert(!is_continuation_byte(b));
    }
}

/// The turns of a conversation have different names, which all begin with its prefix.
pub proof fn turns_have_different_names(prefix: Seq<char>, a: nat, b: nat)
    requires
        turn_text(prefix, a) == turn_text(prefix, b),
    ensures
        a == b,
        text::has_prefix(turn_text(prefix, a), prefix),
{
    text::a_written_number_reads_back(a);
    text::a_written_number_reads_back(b);
    let front = prefix + "-"@;
    assert(turn_text(prefix, a).skip(front.len() as int) =~= text::dec(a));
    assert(turn_text(prefix, b).skip(front.len() as int) =~= text::dec(b));
    assert(turn_text(prefix, a).subrange(0, prefix.len() as int) =~= prefix);
}

proof fn zeros_in_front_change_nothing(s: Seq<char>, n: nat)
    ensures
        text::value_in(text::repeated('0', n) + s, 16) == text::value_in(s, 16),
    decreases s.len() + n,
{
    let z = text::repeated('0', n) + s;
    if s.len() > 0 {
        zeros_in_front_change_nothing(s.drop_last(), n);
        assert(z.drop_last() =~= text::repeated('0', n) + s.drop_last());
        assert(z.last() == s.last());
    } else if n > 0 {
        zeros_in_front_change_nothing(s, (n - 1) as nat);
        assert(z.drop_last() =~= text::repeated('0', (n - 1) as nat) + s);
        assert(z.last() == '0');
        assert(text::value_in(s, 16) == 0);
        assert(0 * 16 == 0);
    } else {
        assert(z =~= s);
    }
}

/// Conversations that begin at different times have different prefixes: the prefix stands
/// for the time, in base sixteen, in at least sixteen digits.
pub proof fn a_prefix_stands_for_its_time(ms: nat)
    ensures
        text::value_in(prefix_text(ms), 16) == ms,
        prefix_text(ms).len() >= 16,
{
    text::a_numeral_stands_for_its_number(ms, 16);
    let s = text::numeral(ms, 16);
    if s.len() < 16 {
        zeros_in_front_change_nothing(s, (16 - s.len()) as nat);
        assert(prefix_text(ms) =~= text::repeated('0', (16 - s.len()) as nat) + s);
    }
}

/// The name of a file holds the first bytes of the name of the session: eight, or all where it
/// has fewer.
pub proof fn a_file_is_named_by_the_first_bytes(session: Seq<char>, mime: Seq<char>)
    ensures
        0 <= head_len(session) <= 8,
        head_len(session) <= encode_utf8(session).len(),
        encode_utf8(session).len() >= 8 ==> head_len(session) == 8,
        encode_utf8(session).len() <= 8 ==> encode_utf8(session).take(head_len(session))
            == encode_utf8(session),
        text::has_prefix(file_text(session, mime), "diffuse-"@),
{
    if encode_utf8(session).len() <= 8 {
        assert(encode_utf8(session).take(head_len(session)) =~= encode_utf8(session));
    }
    assert(file_text(session, mime).subrange(0, "diffuse-"@.len() as int) =~= "diffuse-"@);
}

} // verus!
