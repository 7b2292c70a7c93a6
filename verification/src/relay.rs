//! Passing requests on to nodes that cannot be reached from outside. Such a node
//! attaches itself to a relay; a request for it goes down that line, and the
//! answer comes back up to the one who waits for it.
//!
//! Lines and waiters are known here by numbers that the caller hands out.

use vstd::prelude::*;
use vstd::utf8::*;

use crate::clock::nanos_now;
use crate::registry::PeerRegistry;
use crate::text;

verus! {

/// The mark of the message by which a node attaches itself.
pub const REGISTER_MARKER: &'static str = "register";

/// Whether one of the entries has the key.
pub open spec fn has_key(es: Seq<(Seq<u8>, u64)>, key: Seq<u8>) -> bool {
    exists|i: int| 0 <= i < es.len() && (#[trigger] es[i]).0 == key
}

/// A place at which the entry with a key stands.
pub open spec fn key_place(es: Seq<(Seq<u8>, u64)>, key: Seq<u8>) -> int {
    choose|i: int| 0 <= i < es.len() && (#[trigger] es[i]).0 == key
}

/// No two entries have the same key.
pub open spec fn keys_distinct(es: Seq<(Seq<u8>, u64)>) -> bool {
    forall|i: int, j: int| 0 <= i < j < es.len() ==> (#[trigger] es[i]).0 != (#[trigger] es[j]).0
}

/// The numbers of a list of entries, each under its key.
pub open spec fn numbers(es: Seq<(Seq<u8>, u64)>) -> Map<Seq<u8>, u64> {
    Map::new(|key: Seq<u8>| has_key(es, key), |key: Seq<u8>| es[key_place(es, key)].1)
}

/// Numbers, each under a key of bytes.
struct Numbers {
    entries: Vec<(Vec<u8>, u64)>,
}

impl Numbers {
    spec fn entry_views(&self) -> Seq<(Seq<u8>, u64)> {
        Seq::new(self.entries@.len(), |i: int| (self.entries@[i].0@, self.entries@[i].1))
    }

    spec fn map(&self) -> Map<Seq<u8>, u64> {
        numbers(self.entry_views())
    }

    spec fn wf(&self) -> bool {
        keys_distinct(self.entry_views())
    }

    fn new() -> (r: Self)
        ensures
            r.wf(),
            r.map() == Map::<Seq<u8>, u64>::empty(),
    {
        let r = Numbers { entries: Vec::new() };
        assert(r.map() =~= Map::<Seq<u8>, u64>::empty());
        r
    }

    fn position(&self, key: &[u8]) -> (r: Option<usize>)
        ensures
            match r {
                Some(i) => i < self.entries@.len() && self.entry_views()[i as int].0 == key@,
                None => !has_key(self.entry_views(), key@),
            },
    {
        let mut i: usize = 0;
        while i < self.entries.len()
            invariant
                i <= self.entries@.len(),
                forall|k: int| 0 <= k < i ==> (#[trigger] self.entry_views()[k]).0 != key@,
            decreases self.entries@.len() - i,
        {
            if text::bytes_eq(self.entries[i].0.as_slice(), key) {
                return Some(i);
            }
            i += 1;
        }
        None
    }

    fn get(&self, key: &[u8]) -> (r: Option<u64>)
        requires
            self.wf(),
        ensures
            match r {
                Some(n) => self.map().contains_key(key@) && self.map()[key@] == n,
                None => !self.map().contains_key(key@),
            },
    {
        match self.position(key) {
            Some(i) => {
                let ghost es = self.entry_views();
                proof {
                    let k = key_place(es, key@);
                    assert(es[i as int].0 == key@);
                    assert(k == i);
                }
                Some(self.entries[i].1)
            },
            None => None,
        }
    }

    fn remove(&mut self, key: &[u8]) -> (r: Option<u64>)
        requires
            old(self).wf(),
        ensures
            final(self).wf(),
            final(self).map() == old(self).map().remove(key@),
            match r {
                Some(n) => old(self).map().contains_key(key@) && old(self).map()[key@] == n,
                None => !old(self).map().contains_key(key@),
            },
    {
        let ghost es = self.entry_views();
        match self.position(key) {
            Some(i) => {
                let (_, n) = self.entries.remove(i);
                proof {
                    let rest = self.entry_views();
                    assert(rest =~= es.remove(i as int));
                    assert(es[i as int].0 == key@);
                    assert(key_place(es, key@) == i);
                    assert(self.map() =~= numbers(es).remove(key@)) by {
                        assert forall|k: Seq<u8>| #[trigger]
                            self.map().contains_key(k) <==> numbers(es).remove(
                                key@,
                            ).contains_key(k) by {
                            if has_key(rest, k) {
                                let a = key_place(rest, k);
                                assert(es[if a < i { a } else { a + 1 }].0 == k);
                            }
                            if has_key(es, k) && k != key@ {
                                let b = key_place(es, k);
                                assert(rest[if b < i { b } else { b - 1 }].0 == k);
                            }
                        }
                        assert forall|k: Seq<u8>| #[trigger] self.map().contains_key(
                            k,
                        ) implies self.map()[k] == numbers(es).remove(key@)[k] by {
                            let a = key_place(rest, k);
                            let b = key_place(es, k);
                            assert(es[if a < i { a } else { a + 1 }].0 == k);
                            assert(es[b].0 == k);
                        }
                    }
                }
                Some(n)
            },
            None => {
                assert(self.map() =~= old(self).map().remove(key@));
                None
            },
        }
    }

    fn insert(&mut self, key: Vec<u8>, n: u64)
        requires
            old(self).wf(),
        ensures
            final(self).wf(),
            final(self).map() == old(self).map().insert(key@, n),
    {
        let _ = self.remove(key.as_slice());
        let ghost es = self.entry_views();
        let ghost k = key@;
        assert(!self.map().contains_key(k));
        self.entries.push((key, n));
        proof {
            let all = self.entry_views();
            assert(all =~= es.push((k, n)));
            assert(all[es.len() as int].0 == k);
            assert(self.map() =~= numbers(es).insert(k, n)) by {
                assert forall|q: Seq<u8>| #[trigger]
                    self.map().contains_key(q) <==> numbers(es).insert(k, n).contains_key(q) by {
                    if has_key(all, q) {
                        let a = key_place(all, q);
                        if a < es.len() {
                            assert(es[a].0 == q);
                        }
                    }
                    if has_key(es, q) {
                        let a = key_place(es, q);
                        assert(all[a].0 == q);
                    }
                }
                assert forall|q: Seq<u8>| #[trigger] self.map().contains_key(q) implies self.map()[q]
                    == numbers(es).insert(k, n)[q] by {
                    let a = key_place(all, q);
                    if a < es.len() {
                        assert(es[a].0 == q);
                        let b = key_place(es, q);
                        assert(es[b].0 == q);
                        assert(all[a].0 == all[b].0);
                    }
                }
            }
            assert(numbers(es).insert(k, n) =~= old(self).map().insert(k, n));
        }
    }
}

/// Lines by their keys, with one more, or with a new one for its key.
pub open spec fn with_line(lines: Map<Seq<u8>, u64>, key: Seq<u8>, line: u64) -> Map<Seq<u8>, u64> {
    lines.insert(key, line)
}

/// Lines by their keys, without the one for a key.
pub open spec fn without_line(lines: Map<Seq<u8>, u64>, key: Seq<u8>) -> Map<Seq<u8>, u64> {
    lines.remove(key)
}

/// The line for a key, where there is one.
pub open spec fn line_for(lines: Map<Seq<u8>, u64>, key: Seq<u8>) -> Option<u64> {
    if lines.contains_key(key) {
        Some(lines[key])
    } else {
        None
    }
}

/// Why a node cannot attach itself.
#[derive(Debug, Clone, Copy, PartialEq, Eq, Structural)]
pub enum AttachError {
    /// The first message does not carry the mark and a node id.
    NotARegistration,
}

/// The nodes that are attached, and those who wait for an answer.
pub struct RelayState {
    registrations: Numbers,
    pending: Numbers,
}

impl RelayState {
    /// The line of each node that is attached.
    pub closed spec fn lines(&self) -> Map<Seq<u8>, u64> {
        self.registrations.map()
    }

    /// Who waits for the answer to each request.
    pub closed spec fn waiters(&self) -> Map<Seq<u8>, u64> {
        self.pending.map()
    }

    /// No node is attached twice, and no request is waited for twice.
    pub closed spec fn wf(&self) -> bool {
        self.registrations.wf() && self.pending.wf()
    }

    /// A relay to which nobody is attached.
    pub fn new() -> (r: Self)
        ensures
            r.wf(),
            r.lines() == Map::<Seq<u8>, u64>::empty(),
            r.waiters() == Map::<Seq<u8>, u64>::empty(),
    {
        RelayState { registrations: Numbers::new(), pending: Numbers::new() }
    }

    /// Attaches a node by its first message, which carries the mark and the node
    /// id. A node that attaches itself again gets the new line.
    pub fn attach(&mut self, request_id: &str, node_id: &[u8], line: u64) -> (r: Result<
        (),
        AttachError,
    >)
        requires
            old(self).wf(),
        ensures
            final(self).wf(),
            final(self).waiters() == old(self).waiters(),
            match r {
                Ok(_) => request_id@ == REGISTER_MARKER@ && node_id@.len() > 0
                    && final(self).lines() == with_line(old(self).lines(), node_id@, line),
                Err(e) => (request_id@ != REGISTER_MARKER@ || node_id@.len() == 0)
                    && final(self).lines() == old(self).lines(),
            },
    {
        if !text::str_eq(request_id, REGISTER_MARKER) || node_id.len() == 0 {
            return Err(AttachError::NotARegistration);
        }
        self.registrations.insert(text::copy_bytes(node_id), line);
        Ok(())
    }

    /// Who waits for an answer that came up a line. The mark is no answer, nor is
    /// a message without one. Who waited waits no longer.
    pub fn reply(&mut self, request_id: &str, has_response: bool) -> (r: Option<u64>)
        requires
            old(self).wf(),
        ensures
            final(self).wf(),
            final(self).lines() == old(self).lines(),
            ({
                let key = encode_utf8(request_id@);
                if request_id@ == REGISTER_MARKER@ || !has_response {
                    r is None && final(self).waiters() == old(self).waiters()
                } else {
                    &&& final(self).waiters() == without_line(old(self).waiters(), key)
                    &&& r == line_for(old(self).waiters(), key)
                }
            }),
    {
        if text::str_eq(request_id, REGISTER_MARKER) || !has_response {
            return None;
        }
        self.pending.remove(request_id.as_bytes())
    }

    /// Detaches a node when its line ends, and has the known peers forget it.
    /// Says whether it was known.
    pub fn detach(&mut self, registry: &mut PeerRegistry, node_id: &[u8]) -> (evicted: bool)
        requires
            old(self).wf(),
            old(registry).wf(),
        ensures
            final(self).wf(),
            final(registry).wf(),
            final(self).lines() == without_line(old(self).lines(), node_id@),
            final(self).waiters() == old(self).waiters(),
            final(registry)@ == old(registry)@.remove(node_id@),
            final(registry).patience() == old(registry).patience(),
            evicted == old(registry)@.contains_key(node_id@),
    {
        let _ = self.registrations.remove(node_id);
        registry.remove_node(node_id)
    }

    /// The line down which a request for a node goes, and notes who waits for
    /// the answer. There is none where the node is not attached, and then nobody
    /// waits.
    pub fn relay_compute(&mut self, target: &[u8], request_id: &str, waiter: u64) -> (r: Option<u64>)
        requires
            old(self).wf(),
        ensures
            final(self).wf(),
            final(self).lines() == old(self).lines(),
            r == line_for(old(self).lines(), target@),
            match r {
                Some(_) => final(self).waiters() == with_line(
                    old(self).waiters(),
                    encode_utf8(request_id@),
                    waiter,
                ),
                None => final(self).waiters() == old(self).waiters(),
            },
    {
        match self.registrations.get(target) {
            Some(line) => {
                self.pending.insert(text::copy_bytes(request_id.as_bytes()), waiter);
                Some(line)
            },
            None => None,
        }
    }

    /// Waits no longer for the answer to a request.
    pub fn abandon(&mut self, request_id: &str)
        requires
            old(self).wf(),
        ensures
            final(self).wf(),
            final(self).lines() == old(self).lines(),
            final(self).waiters() == without_line(old(self).waiters(), encode_utf8(request_id@)),
    {
        let _ = self.pending.remove(request_id.as_bytes());
    }
}

/// The id of a request that is made at a time.
pub fn request_id_at(nanos: u128) -> (s: String)
    ensures
        s@ == text::numeral(nanos as nat, 16),
{
    text::hexadecimal(nanos)
}

/// The id of a request that is made now.
pub fn new_request_id() -> (s: String)
    ensures
        exists|nanos: nat| s@ == #[trigger] text::numeral(nanos, 16),
{
    let nanos: u128 = nanos_now();
    request_id_at(nanos)
}

/// The first bytes of an id, at most four.
pub open spec fn short_of(id: Seq<u8>) -> Seq<u8> {
    if id.len() <= 4 {
        id
    } else {
        id.take(4)
    }
}

/// The first digits of an id.
pub fn hex_short(id: &[u8]) -> (s: String)
    ensures
        s@ == text::hex(short_of(id@)),
{
    let n: usize = if id.len() <= 4 {
        id.len()
    } else {
        4
    };
    let head: Vec<u8> = text::slice_bytes(id, 0, n);
    assert(head@ =~= short_of(id@));
    text::hex_of(head.as_slice())
}

/// Says that a node is not attached.
pub fn not_attached_message(target: &[u8]) -> (s: String)
    ensures
        s@ == "target "@ + text::hex(short_of(target@)) + " not attached"@,
{
    let mut s: String = "target ".to_string();
    s.append(hex_short(target).as_str());
    s.append(" not attached");
    s
}

// ---------------------------------------------------------------------------
// Laws
// ---------------------------------------------------------------------------

/// An answer reaches the one who waits for it, and only once. (Ids of requests
/// that differ have different bytes.)
pub proof fn an_answer_reaches_its_waiter_once(
    waiters: Map<Seq<u8>, u64>,
    request: Seq<char>,
    waiter: u64,
)
    ensures
        ({
            let key = encode_utf8(request);
            let waiting = waiters.insert(key, waiter);
            &&& waiting.contains_key(key) && waiting[key] == waiter
            &&& !waiting.remove(key).contains_key(key)
        }),
        forall|other: Seq<char>|
            other != request ==> #[trigger] encode_utf8(other) != encode_utf8(request),
{
    assert forall|other: Seq<char>| other != request implies #[trigger] encode_utf8(other)
        != encode_utf8(request) by {
        encode_utf8_decode_utf8(other);
        encode_utf8_decode_utf8(request);
    }
}

/// A line is found by the key under which it was attached, and until it is detached or
/// attached anew: what is done under other keys does not touch it. Who waits for an
/// answer is found in the same way.
pub proof fn a_line_is_found_by_its_own_key(
    lines: Map<Seq<u8>, u64>,
    key: Seq<u8>,
    line: u64,
    other: Seq<u8>,
    n: u64,
)
    ensures
        line_for(with_line(lines, key, line), key) == Some(line),
        line_for(without_line(lines, key), key) is None,
        key != other ==> line_for(with_line(lines, other, n), key) == line_for(lines, key),
        key != other ==> line_for(without_line(lines, other), key) == line_for(lines, key),
        line_for(Map::<Seq<u8>, u64>::empty(), key) is None,
{
}

/// The first bytes of an id are its beginning: four of them, or all where it has fewer.
pub proof fn an_id_is_told_by_its_first_bytes(id: Seq<u8>)
    ensures
        short_of(id) == id.take(short_of(id).len() as int),
        short_of(id).len() <= 4,
        id.len() >= 4 ==> short_of(id).len() == 4,
        id.len() <= 4 ==> short_of(id) == id,
{
    assert(short_of(id) =~= id.take(short_of(id).len() as int));
}

} // verus!
