//! The peers that a node knows of, each under its node id.

use vstd::prelude::*;
use vstd::utf8::*;

use crate::clock::{millis_of, nanos_now};
use crate::text;
use crate::wire;

verus! {

/// The version of the wire format that this node speaks. A peer that never
/// said which it speaks counts as version 0.
pub const WIRE_VERSION: u32 = 1;

/// What a node announces of itself: who it is, where it listens, and which
/// layers of which model it holds.
#[derive(Debug)]
pub struct Peer {
    pub node_id: Vec<u8>,
    pub daemon_endpoint: String,
    pub worker_endpoint: String,
    pub model_id: String,
    pub start_layer: u32,
    pub end_layer: u32,
    /// The depth of the whole model, or 0 where the node does not know it.
    pub total_layers: u32,
    pub last_seen_ms: u64,
    pub signature: Vec<u8>,
    pub kx_public: Vec<u8>,
    pub reachable: bool,
}

/// What a [`Peer`] holds.
#[verifier::ext_equal]
pub struct PeerView {
    pub node_id: Seq<u8>,
    pub daemon_endpoint: Seq<char>,
    pub worker_endpoint: Seq<char>,
    pub model_id: Seq<char>,
    pub start_layer: u32,
    pub end_layer: u32,
    pub total_layers: u32,
    pub last_seen_ms: u64,
    pub signature: Seq<u8>,
    pub kx_public: Seq<u8>,
    pub reachable: bool,
}

impl View for Peer {
    type V = PeerView;

    open spec fn view(&self) -> PeerView {
        PeerView {
            node_id: self.node_id@,
            daemon_endpoint: self.daemon_endpoint@,
            worker_endpoint: self.worker_endpoint@,
            model_id: self.model_id@,
            start_layer: self.start_layer,
            end_layer: self.end_layer,
            total_layers: self.total_layers,
            last_seen_ms: self.last_seen_ms,
            signature: self.signature@,
            kx_public: self.kx_public@,
            reachable: self.reachable,
        }
    }
}

impl Clone for Peer {
    fn clone(&self) -> (r: Self)
        ensures
            r@ == self@,
    {
        Peer {
            node_id: text::copy_bytes(&self.node_id),
            daemon_endpoint: self.daemon_endpoint.clone(),
            worker_endpoint: self.worker_endpoint.clone(),
            model_id: self.model_id.clone(),
            start_layer: self.start_layer,
            end_layer: self.end_layer,
            total_layers: self.total_layers,
            last_seen_ms: self.last_seen_ms,
            signature: text::copy_bytes(&self.signature),
            kx_public: text::copy_bytes(&self.kx_public),
            reachable: self.reachable,
        }
    }
}

/// What the peers of a list hold.
pub open spec fn peer_views(ps: Seq<Peer>) -> Seq<PeerView> {
    Seq::new(ps.len(), |i: int| ps[i]@)
}

/// The bytes over which a node signs what it announces.
pub open spec fn signable(p: PeerView) -> Seq<u8> {
    p.node_id + seq![0u8] + encode_utf8(p.daemon_endpoint) + seq![0u8] + encode_utf8(
        p.worker_endpoint,
    ) + seq![0u8] + encode_utf8(p.model_id) + seq![0u8] + wire::le(p.start_layer as nat, 4)
        + wire::le(p.end_layer as nat, 4) + p.kx_public
}

impl Peer {
    /// The bytes over which a node signs what it announces.
    pub fn signable_bytes(&self) -> (buf: Vec<u8>)
        ensures
            buf@ == signable(self@),
    {
        let mut buf: Vec<u8> = text::copy_bytes(&self.node_id);
        buf.push(0);
        text::append_bytes(&mut buf, self.daemon_endpoint.as_str().as_bytes());
        buf.push(0);
        text::append_bytes(&mut buf, self.worker_endpoint.as_str().as_bytes());
        buf.push(0);
        text::append_bytes(&mut buf, self.model_id.as_str().as_bytes());
        buf.push(0);
        wire::push_u32(&mut buf, self.start_layer);
        wire::push_u32(&mut buf, self.end_layer);
        text::append_bytes(&mut buf, &self.kx_public);
        assert(buf@ =~= signable(self@));
        buf
    }
}

/// The time by the system's clock, in milliseconds since the start of 1970.
/// Nothing is promised of the number: it is whatever the clock of the machine
/// says.
pub fn now_ms() -> (ms: u64) {
    millis_of(nanos_now())
}

// ---------------------------------------------------------------------------
// The registry
// ---------------------------------------------------------------------------

/// Whether one of the peers has the node id `id`.
pub open spec fn listed(ps: Seq<PeerView>, id: Seq<u8>) -> bool {
    exists|i: int| 0 <= i < ps.len() && (#[trigger] ps[i]).node_id == id
}

/// A place at which the peer with the node id `id` stands.
pub open spec fn place(ps: Seq<PeerView>, id: Seq<u8>) -> int {
    choose|i: int| 0 <= i < ps.len() && (#[trigger] ps[i]).node_id == id
}

/// The peers of a list, each under its node id.
pub open spec fn by_id(ps: Seq<PeerView>) -> Map<Seq<u8>, PeerView> {
    Map::new(|id: Seq<u8>| listed(ps, id), |id: Seq<u8>| ps[place(ps, id)])
}

/// Every peer has a node id, and no two have the same.
pub open spec fn distinct_ids(ps: Seq<PeerView>) -> bool {
    &&& forall|i: int| 0 <= i < ps.len() ==> (#[trigger] ps[i]).node_id.len() > 0
    &&& forall|i: int, j: int|
        0 <= i < j < ps.len() ==> (#[trigger] ps[i]).node_id != (#[trigger] ps[j]).node_id
}

/// What a peer's announcement makes of the known peers: one without a node id
/// is passed over, and so is one older than what is known of the same node.
pub open spec fn upserted(m: Map<Seq<u8>, PeerView>, p: PeerView) -> Map<Seq<u8>, PeerView> {
    if p.node_id.len() == 0 || (m.contains_key(p.node_id) && p.last_seen_ms
        < m[p.node_id].last_seen_ms) {
        m
    } else {
        m.insert(p.node_id, p)
    }
}

/// What a list of announcements, taken one after the other, makes of the known peers.
pub open spec fn merged(m: Map<Seq<u8>, PeerView>, ps: Seq<PeerView>) -> Map<Seq<u8>, PeerView>
    decreases ps.len(),
{
    if ps.len() == 0 {
        m
    } else {
        upserted(merged(m, ps.drop_last()), ps.last())
    }
}

/// A peer with another time of the last sign of life.
pub open spec fn seen_at(p: PeerView, now: u64) -> PeerView {
    PeerView { last_seen_ms: now, ..p }
}

/// The known peers after a sign of life from the node `id`.
pub open spec fn node_touched(m: Map<Seq<u8>, PeerView>, id: Seq<u8>, now: u64) -> Map<
    Seq<u8>,
    PeerView,
> {
    if m.contains_key(id) {
        m.insert(id, seen_at(m[id], now))
    } else {
        m
    }
}

/// The known peers after a sign of life from an endpoint: of every node behind it.
pub open spec fn endpoint_touched(m: Map<Seq<u8>, PeerView>, endpoint: Seq<char>, now: u64) -> Map<
    Seq<u8>,
    PeerView,
> {
    Map::new(
        |id: Seq<u8>| m.contains_key(id),
        |id: Seq<u8>|
            if m[id].daemon_endpoint == endpoint {
                seen_at(m[id], now)
            } else {
                m[id]
            },
    )
}

/// The known peers that gave a sign of life at `cutoff` or later.
pub open spec fn fresh(m: Map<Seq<u8>, PeerView>, cutoff: int) -> Map<Seq<u8>, PeerView> {
    Map::new(|id: Seq<u8>| m.contains_key(id) && m[id].last_seen_ms >= cutoff, |id: Seq<u8>| m[id])
}

/// The time before which a sign of life is too old.
pub open spec fn cutoff_at(now: u64, stale_after_ms: u64) -> int {
    if now >= stale_after_ms {
        now - stale_after_ms
    } else {
        0
    }
}

/// The peers that hold exactly the layers `start` to `end` of a model.
pub open spec fn holds_slice(model_id: Seq<char>, start: u32, end: u32) -> spec_fn(
    PeerView,
) -> bool {
    |p: PeerView| p.model_id == model_id && p.start_layer == start && p.end_layer == end
}

proof fn by_id_at(ps: Seq<PeerView>, i: int)
    requires
        distinct_ids(ps),
        0 <= i < ps.len(),
    ensures
        by_id(ps).contains_key(ps[i].node_id),
        by_id(ps)[ps[i].node_id] == ps[i],
{
    let id = ps[i].node_id;
    assert(listed(ps, id));
    let j = place(ps, id);
    assert(0 <= j < ps.len() && ps[j].node_id == id);
}

/// Each known peer stands in the registry's list once, under its own node id.
pub proof fn every_peer_is_listed_once(ps: Seq<PeerView>)
    requires
        distinct_ids(ps),
    ensures
        by_id(ps).dom().finite(),
        by_id(ps).len() == ps.len(),
        forall|i: int|
            0 <= i < ps.len() ==> by_id(ps).contains_key((#[trigger] ps[i]).node_id)
                && by_id(ps)[ps[i].node_id] == ps[i],
        forall|id: Seq<u8>| #[trigger]
            by_id(ps).contains_key(id) ==> by_id(ps)[id].node_id == id,
{
    let ids = Seq::new(ps.len(), |i: int| ps[i].node_id);
    assert(ids.no_duplicates());
    ids.unique_seq_to_set();
    assert(by_id(ps).dom() =~= ids.to_set()) by {
        assert forall|id: Seq<u8>| by_id(ps).dom().contains(id) <==> ids.to_set().contains(id) by {
            if listed(ps, id) {
                assert(ids[place(ps, id)] == id);
            }
            if ids.contains(id) {
                let i = choose|i: int| 0 <= i < ids.len() && ids[i] == id;
                assert(ps[i].node_id == id);
            }
        }
    }
    assert forall|i: int| 0 <= i < ps.len() implies by_id(ps).contains_key(
        (#[trigger] ps[i]).node_id,
    ) && by_id(ps)[ps[i].node_id] == ps[i] by {
        by_id_at(ps, i);
    }
}

/// The peers that a node knows of, and how long one may keep silent.
pub struct PeerRegistry {
    peers: Vec<Peer>,
    stale_after_ms: u64,
}

impl View for PeerRegistry {
    type V = Map<Seq<u8>, PeerView>;

    /// The known peers, each under its node id.
    open spec fn view(&self) -> Map<Seq<u8>, PeerView> {
        by_id(self.listing())
    }
}

impl PeerRegistry {
    /// The known peers in the order in which the registry walks them.
    pub closed spec fn listing(&self) -> Seq<PeerView> {
        peer_views(self.peers@)
    }

    /// How long a peer may keep silent, in milliseconds.
    pub closed spec fn patience(&self) -> u64 {
        self.stale_after_ms
    }

    /// Every known peer has a node id, and no two have the same.
    pub open spec fn wf(&self) -> bool {
        distinct_ids(self.listing())
    }

    /// A registry that knows no peer.
    pub fn new(stale_after_ms: u64) -> (r: Self)
        ensures
            r.wf(),
            r@ == Map::<Seq<u8>, PeerView>::empty(),
            r.listing() == Seq::<PeerView>::empty(),
            r.patience() == stale_after_ms,
    {
        let r = Self { peers: Vec::new(), stale_after_ms };
        assert(r@ =~= Map::<Seq<u8>, PeerView>::empty());
        r
    }

    /// Where the peer with the node id `id` stands.
    fn position(&self, id: &[u8]) -> (r: Option<usize>)
        ensures
            match r {
                Some(i) => i < self.listing().len() && self.listing()[i as int].node_id == id@,
                None => !listed(self.listing(), id@),
            },
    {
        let mut i: usize = 0;
        while i < self.peers.len()
            invariant
                i <= self.peers@.len(),
                forall|k: int| 0 <= k < i ==> (#[trigger] self.listing()[k]).node_id != id@,
            decreases self.peers@.len() - i,
        {
            assert(self.listing()[i as int].node_id == self.peers@[i as int].node_id@);
            if text::bytes_eq(&self.peers[i].node_id, id) {
                return Some(i);
            }
            i += 1;
        }
        None
    }

    /// Takes in what a node announces, unless it has no node id or something
    /// newer is known of it.
    pub fn upsert(&mut self, peer: Peer)
        requires
            old(self).wf(),
        ensures
            final(self).wf(),
            final(self)@ == upserted(old(self)@, peer@),
            final(self).patience() == old(self).patience(),
    {
        if peer.node_id.len() == 0 {
            return ;
        }
        let ghost ps = self.listing();
        let ghost p = peer@;
        match self.position(&peer.node_id) {
            Some(i) => {
                proof {
                    by_id_at(ps, i as int);
                    assert(ps[i as int] == self.peers@[i as int]@);
                }
                if peer.last_seen_ms >= self.peers[i].last_seen_ms {
                    self.peers.set(i, peer);
                    proof {
                        assert(self.listing() =~= ps.update(i as int, p));
                        assert(distinct_ids(self.listing()));
                        replaced(ps, i as int, p);
                    }
                }
            },
            None => {
                self.peers.push(peer);
                proof {
                    assert(self.listing() =~= ps.push(p));
                    assert forall|i: int, j: int|
                        0 <= i < j < ps.push(p).len() implies (#[trigger] ps.push(p)[i]).node_id
                        != (#[trigger] ps.push(p)[j]).node_id by {
                        if j == ps.len() {
                            assert(ps[i].node_id != p.node_id);
                        }
                    }
                    appended(ps, p);
                }
            },
        }
    }

    /// Takes in a list of announcements, one after the other.
    pub fn merge(&mut self, incoming: Vec<Peer>)
        requires
            old(self).wf(),
        ensures
            final(self).wf(),
            final(self)@ == merged(old(self)@, peer_views(incoming@)),
            final(self).patience() == old(self).patience(),
    {
        let mut i: usize = 0;
        let ghost ps = peer_views(incoming@);
        assert(ps.take(0) =~= Seq::<PeerView>::empty());
        while i < incoming.len()
            invariant
                i <= incoming@.len(),
                ps == peer_views(incoming@),
                self.wf(),
                self@ == merged(old(self)@, ps.take(i as int)),
                self.patience() == old(self).patience(),
            decreases incoming@.len() - i,
        {
            self.upsert(incoming[i].clone());
            assert(ps.take(i + 1).drop_last() =~= ps.take(i as int));
            i += 1;
        }
        assert(ps.take(i as int) =~= ps);
    }

    /// Notes a sign of life, at the time `now`, from every node behind an endpoint.
    pub fn touch_endpoint_at(&mut self, daemon_endpoint: &str, now: u64)
        requires
            old(self).wf(),
        ensures
            final(self).wf(),
            final(self)@ == endpoint_touched(old(self)@, daemon_endpoint@, now),
            final(self).patience() == old(self).patience(),
    {
        let ghost ps = self.listing();
        let mut i: usize = 0;
        while i < self.peers.len()
            invariant
                i <= self.peers@.len(),
                ps == old(self).listing(),
                self.listing().len() == ps.len(),
                self.peers@.len() == ps.len(),
                self.patience() == old(self).patience(),
                forall|k: int|
                    0 <= k < i ==> #[trigger] self.listing()[k] == if ps[k].daemon_endpoint
                        == daemon_endpoint@ {
                        seen_at(ps[k], now)
                    } else {
                        ps[k]
                    },
                forall|k: int| i <= k < ps.len() ==> #[trigger] self.listing()[k] == ps[k],
            decreases self.peers@.len() - i,
        {
            let ghost before = self.listing();
            assert(before[i as int] == self.peers@[i as int]@);
            if text::str_eq(self.peers[i].daemon_endpoint.as_str(), daemon_endpoint) {
                let mut p: Peer = self.peers[i].clone();
                p.last_seen_ms = now;
                self.peers.set(i, p);
                assert(self.listing() =~= before.update(i as int, seen_at(before[i as int], now)));
            }
            i += 1;
        }
        proof {
            let qs = self.listing();
            assert forall|k: int| 0 <= k < qs.len() implies (#[trigger] qs[k]).node_id
                == ps[k].node_id by {}
            same_ids(ps, qs);
            every_peer_is_listed_once(ps);
            every_peer_is_listed_once(qs);
            assert(self@ =~= endpoint_touched(old(self)@, daemon_endpoint@, now)) by {
                assert forall|id: Seq<u8>| #[trigger] self@.contains_key(id) implies self@[id]
                    == endpoint_touched(old(self)@, daemon_endpoint@, now)[id] by {
                    let k = place(qs, id);
                    assert(ps[k].node_id == id);
                }
            }
        }
    }

    /// Notes a sign of life from every node behind an endpoint, by the system's clock.
    pub fn touch_endpoint(&mut self, daemon_endpoint: &str)
        requires
            old(self).wf(),
        ensures
            final(self).wf(),
            exists|now: u64|
                final(self)@ == #[trigger] endpoint_touched(old(self)@, daemon_endpoint@, now),
            final(self).patience() == old(self).patience(),
    {
        let now: u64 = now_ms();
        self.touch_endpoint_at(daemon_endpoint, now);
    }

    /// Notes a sign of life from a node, at the time `now`.
    pub fn touch_node_at(&mut self, node_id: &[u8], now: u64)
        requires
            old(self).wf(),
        ensures
            final(self).wf(),
            final(self)@ == node_touched(old(self)@, node_id@, now),
            final(self).patience() == old(self).patience(),
    {
        let ghost ps = self.listing();
        match self.position(node_id) {
            Some(i) => {
                let mut p: Peer = self.peers[i].clone();
                p.last_seen_ms = now;
                proof {
                    assert(p@ == seen_at(ps[i as int], now));
                    by_id_at(ps, i as int);
                }
                let ghost q = p@;
                self.peers.set(i, p);
                proof {
                    assert(self.listing() =~= ps.update(i as int, q));
                    replaced(ps, i as int, q);
                }
            },
            None => {},
        }
    }

    /// Notes a sign of life from a node, by the system's clock.
    pub fn touch_node(&mut self, node_id: &[u8])
        requires
            old(self).wf(),
        ensures
            final(self).wf(),
            exists|now: u64| final(self)@ == #[trigger] node_touched(old(self)@, node_id@, now),
            final(self).patience() == old(self).patience(),
    {
        let now: u64 = now_ms();
        self.touch_node_at(node_id, now);
    }

    /// Forgets the peers that have kept silent too long at the time `now`, and
    /// says how many they were.
    pub fn prune_at(&mut self, now: u64) -> (removed: usize)
        requires
            old(self).wf(),
        ensures
            final(self).wf(),
            final(self)@ == fresh(old(self)@, cutoff_at(now, old(self).patience())),
            removed == old(self)@.len() - final(self)@.len(),
            final(self).patience() == old(self).patience(),
    {
        let cutoff: u64 = if now >= self.stale_after_ms {
            now - self.stale_after_ms
        } else {
            0
        };
        let before: usize = self.peers.len();
        let ghost ps = self.listing();
        let ghost mut k: int = 0;
        let mut i: usize = 0;
        while i < self.peers.len()
            invariant
                i <= self.peers@.len() <= before,
                ps.len() == before,
                distinct_ids(ps),
                self.peers@.len() - i == ps.len() - k,
                i <= k <= ps.len(),
                self.patience() == old(self).patience(),
                distinct_ids(self.listing()),
                forall|a: int| i <= a < self.peers@.len() ==> #[trigger] self.listing()[a] == ps[a
                    - i + k],
                forall|a: int|
                    0 <= a < i ==> (#[trigger] self.listing()[a]).last_seen_ms >= cutoff && listed(
                        ps,
                        self.listing()[a].node_id,
                    ) && by_id(ps)[self.listing()[a].node_id] == self.listing()[a],
                forall|b: int|
                    0 <= b < k && (#[trigger] ps[b]).last_seen_ms >= cutoff ==> listed(
                        self.listing().take(i as int),
                        ps[b].node_id,
                    ),
            decreases self.peers@.len() - i,
        {
            let ghost now_list = self.listing();
            assert(now_list[i as int] == self.peers@[i as int]@);
            assert(now_list[i as int] == ps[k]);
            proof {
                by_id_at(ps, k);
            }
            if self.peers[i].last_seen_ms < cutoff {
                self.peers.remove(i);
                proof {
                    assert(self.listing() =~= now_list.remove(i as int));
                    assert(self.listing().take(i as int) =~= now_list.take(i as int));
                    k = k + 1;
                }
            } else {
                proof {
                    assert forall|b: int|
                        0 <= b < k + 1 && (#[trigger] ps[b]).last_seen_ms >= cutoff implies listed(
                        now_list.take(i + 1),
                        ps[b].node_id,
                    ) by {
                        if b == k {
                            assert(now_list.take(i + 1)[i as int].node_id == ps[b].node_id);
                        } else {
                            let a = place(now_list.take(i as int), ps[b].node_id);
                            assert(now_list.take(i + 1)[a] == now_list.take(i as int)[a]);
                        }
                    }
                    k = k + 1;
                }
                i += 1;
            }
        }
        proof {
            let qs = self.listing();
            assert(qs.take(i as int) =~= qs);
            every_peer_is_listed_once(ps);
            every_peer_is_listed_once(qs);
            let want = fresh(old(self)@, cutoff_at(now, old(self).patience()));
            assert(self@ =~= want) by {
                assert forall|id: Seq<u8>| #[trigger]
                    self@.contains_key(id) <==> want.contains_key(id) by {
                    if listed(qs, id) {
                        let a = place(qs, id);
                        assert(qs[a].node_id == id);
                    }
                    if want.contains_key(id) {
                        let b = place(ps, id);
                        assert(ps[b].node_id == id);
                    }
                }
                assert forall|id: Seq<u8>| #[trigger] self@.contains_key(id) implies self@[id]
                    == want[id] by {
                    let a = place(qs, id);
                    assert(qs[a].node_id == id);
                }
            }
        }
        before - self.peers.len()
    }

    /// Forgets the peers that have kept silent too long by the system's clock,
    /// and says how many they were.
    pub fn prune(&mut self) -> (removed: usize)
        requires
            old(self).wf(),
        ensures
            final(self).wf(),
            exists|now: u64|
                final(self)@ == fresh(
                    old(self)@,
                    #[trigger] cutoff_at(now, old(self).patience()),
                ),
            removed == old(self)@.len() - final(self)@.len(),
            final(self).patience() == old(self).patience(),
    {
        let now: u64 = now_ms();
        let removed: usize = self.prune_at(now);
        assert(self@ == fresh(old(self)@, cutoff_at(now, old(self).patience())));
        removed
    }

    /// The known peers.
    pub fn all(&self) -> (r: Vec<Peer>)
        ensures
            peer_views(r@) == self.listing(),
    {
        let mut r: Vec<Peer> = Vec::new();
        let mut i: usize = 0;
        while i < self.peers.len()
            invariant
                i <= self.peers@.len(),
                peer_views(r@) == self.listing().take(i as int),
            decreases self.peers@.len() - i,
        {
            let ghost before = peer_views(r@);
            r.push(self.peers[i].clone());
            proof {
                let p = self.listing()[i as int];
                assert(peer_views(r@) =~= before.push(p));
                assert(self.listing().take(i + 1) =~= self.listing().take(i as int).push(p));
            }
            i += 1;
        }
        assert(self.listing().take(i as int) =~= self.listing());
        r
    }

    /// The endpoints of the known peers in ascending order, none twice.
    pub fn live_endpoints(&self) -> (r: Vec<String>)
        ensures
            text::ascending(text::views(r@)),
            forall|e: Seq<char>| #[trigger]
                text::views(r@).contains(e) <==> exists|i: int|
                    0 <= i < self.listing().len() && (#[trigger] self.listing()[i]).daemon_endpoint
                        == e,
    {
        let mut r: Vec<String> = Vec::new();
        let mut i: usize = 0;
        let ghost ps = self.listing();
        while i < self.peers.len()
            invariant
                i <= self.peers@.len(),
                ps == self.listing(),
                text::ascending(text::views(r@)),
                forall|e: Seq<char>| #[trigger]
                    text::views(r@).contains(e) <==> exists|k: int|
                        0 <= k < i && (#[trigger] ps[k]).daemon_endpoint == e,
            decreases self.peers@.len() - i,
        {
            assert(ps[i as int] == self.peers@[i as int]@);
            let ghost before = text::views(r@);
            text::insert_ascending(&mut r, self.peers[i].daemon_endpoint.clone());
            proof {
                let after = text::views(r@);
                assert forall|e: Seq<char>| #[trigger] after.contains(e) <==> exists|k: int|
                    0 <= k < i + 1 && (#[trigger] ps[k]).daemon_endpoint == e by {
                    assert(after.contains(e) <==> before.contains(e) || e
                        == ps[i as int].daemon_endpoint);
                    if before.contains(e) {
                        let k = choose|k: int|
                            0 <= k < i && (#[trigger] ps[k]).daemon_endpoint == e;
                        assert(ps[k].daemon_endpoint == e);
                    }
                }
            }
            i += 1;
        }
        r
    }

    /// How many peers are known.
    pub fn len(&self) -> (n: usize)
        requires
            self.wf(),
        ensures
            n == self@.len(),
            n == self.listing().len(),
    {
        proof {
            every_peer_is_listed_once(self.listing());
        }
        self.peers.len()
    }

    /// Whether no peer is known.
    pub fn is_empty(&self) -> (r: bool)
        requires
            self.wf(),
        ensures
            r == (self@.len() == 0),
    {
        proof {
            every_peer_is_listed_once(self.listing());
        }
        self.peers.len() == 0
    }

    /// The known peers that hold exactly the layers `start` to `end` of a model.
    pub fn replicas_for_slice(&self, model_id: &str, start: u32, end: u32) -> (r: Vec<Peer>)
        ensures
            peer_views(r@) == self.listing().filter(holds_slice(model_id@, start, end)),
    {
        let mut r: Vec<Peer> = Vec::new();
        let mut i: usize = 0;
        let ghost ps = self.listing();
        let ghost pred = holds_slice(model_id@, start, end);
        proof {
            crate::lists::filter_ends(ps, pred);
            assert(peer_views(r@) =~= Seq::<PeerView>::empty());
        }
        while i < self.peers.len()
            invariant
                i <= self.peers@.len(),
                ps == self.listing(),
                ps.len() == self.peers@.len(),
                pred == holds_slice(model_id@, start, end),
                peer_views(r@) == ps.take(i as int).filter(pred),
            decreases self.peers@.len() - i,
        {
            let p: &Peer = &self.peers[i];
            let ghost before = peer_views(r@);
            proof {
                assert(ps[i as int] == p@);
                crate::lists::filter_step(ps, pred, i as int);
            }
            if text::str_eq(p.model_id.as_str(), model_id) && p.start_layer == start && p.end_layer
                == end {
                r.push(p.clone());
                assert(peer_views(r@) =~= before.push(ps[i as int]));
            }
            i += 1;
        }
        proof {
            crate::lists::filter_ends(ps, pred);
        }
        r
    }

    /// Forgets a node, and says whether it was known.
    pub fn remove_node(&mut self, node_id: &[u8]) -> (known: bool)
        requires
            old(self).wf(),
        ensures
            final(self).wf(),
            known == old(self)@.contains_key(node_id@),
            final(self)@ == old(self)@.remove(node_id@),
            final(self).patience() == old(self).patience(),
    {
        let ghost ps = self.listing();
        match self.position(node_id) {
            Some(i) => {
                self.peers.remove(i);
                proof {
                    let qs = self.listing();
                    assert(qs =~= ps.remove(i as int));
                    every_peer_is_listed_once(ps);
                    every_peer_is_listed_once(qs);
                    assert(self@ =~= old(self)@.remove(node_id@)) by {
                        assert forall|id: Seq<u8>| #[trigger] self@.contains_key(id) <==> old(
                            self,
                        )@.remove(node_id@).contains_key(id) by {
                            if listed(qs, id) {
                                let a = place(qs, id);
                                let b = if a < i {
                                    a
                                } else {
                                    a + 1
                                };
                                assert(ps[b].node_id == id);
                            }
                            if listed(ps, id) && id != node_id@ {
                                let b = place(ps, id);
                                let a = if b < i {
                                    b
                                } else {
                                    b - 1
                                };
                                assert(qs[a].node_id == id);
                            }
                        }
                        assert forall|id: Seq<u8>| #[trigger] self@.contains_key(id) implies self@[id]
                            == old(self)@.remove(node_id@)[id] by {
                            let a = place(qs, id);
                            let b = if a < i {
                                a
                            } else {
                                a + 1
                            };
                            assert(ps[b].node_id == id);
                        }
                    }
                }
                true
            },
            None => {
                assert(self@ =~= old(self)@.remove(node_id@));
                false
            },
        }
    }
}

proof fn same_ids(ps: Seq<PeerView>, qs: Seq<PeerView>)
    requires
        distinct_ids(ps),
        ps.len() == qs.len(),
        forall|k: int| 0 <= k < qs.len() ==> (#[trigger] qs[k]).node_id == ps[k].node_id,
    ensures
        distinct_ids(qs),
        by_id(qs).dom() == by_id(ps).dom(),
{
    assert forall|i: int, j: int| 0 <= i < j < qs.len() implies (#[trigger] qs[i]).node_id != (
    #[trigger] qs[j]).node_id by {
        assert(ps[i].node_id != ps[j].node_id);
    }
    assert forall|id: Seq<u8>| listed(qs, id) <==> listed(ps, id) by {
        if listed(qs, id) {
            let k = place(qs, id);
            assert(qs[k].node_id == ps[k].node_id);
        }
        if listed(ps, id) {
            let k = place(ps, id);
            assert(qs[k].node_id == ps[k].node_id);
        }
    }
    assert(by_id(qs).dom() =~= by_id(ps).dom());
}

proof fn replaced(ps: Seq<PeerView>, i: int, p: PeerView)
    requires
        distinct_ids(ps),
        0 <= i < ps.len(),
        p.node_id == ps[i].node_id,
    ensures
        distinct_ids(ps.update(i, p)),
        by_id(ps.update(i, p)) == by_id(ps).insert(p.node_id, p),
{
    let qs = ps.update(i, p);
    same_ids(ps, qs);
    every_peer_is_listed_once(ps);
    every_peer_is_listed_once(qs);
    assert(by_id(qs) =~= by_id(ps).insert(p.node_id, p)) by {
        assert forall|id: Seq<u8>| #[trigger] by_id(qs).contains_key(id) implies by_id(qs)[id]
            == by_id(ps).insert(p.node_id, p)[id] by {
            let k = place(qs, id);
            assert(qs[k].node_id == id);
            assert(ps[k].node_id == id);
            assert(qs[i].node_id == p.node_id);
        }
    }
}

proof fn appended(ps: Seq<PeerView>, p: PeerView)
    requires
        distinct_ids(ps),
        distinct_ids(ps.push(p)),
    ensures
        by_id(ps.push(p)) == by_id(ps).insert(p.node_id, p),
{
    let qs = ps.push(p);
    every_peer_is_listed_once(ps);
    every_peer_is_listed_once(qs);
    assert(qs[ps.len() as int] == p);
    assert(by_id(qs) =~= by_id(ps).insert(p.node_id, p)) by {
        assert forall|id: Seq<u8>| #[trigger] by_id(qs).contains_key(id) <==> by_id(ps).insert(
            p.node_id,
            p,
        ).contains_key(id) by {
            if listed(qs, id) {
                let k = place(qs, id);
                if k < ps.len() {
                    assert(ps[k].node_id == id);
                }
            }
            if listed(ps, id) {
                let k = place(ps, id);
                assert(qs[k].node_id == id);
            }
        }
        assert forall|id: Seq<u8>| #[trigger] by_id(qs).contains_key(id) implies by_id(qs)[id]
            == by_id(ps).insert(p.node_id, p)[id] by {
            let k = place(qs, id);
            if k < ps.len() {
                assert(ps[k].node_id == id);
            }
        }
    }
}

// ---------------------------------------------------------------------------
// Laws
// ---------------------------------------------------------------------------

/// Announcements never make a known node look older or unknown.
pub proof fn merging_never_ages_a_peer(
    m: Map<Seq<u8>, PeerView>,
    ps: Seq<PeerView>,
    id: Seq<u8>,
)
    requires
        m.contains_key(id),
    ensures
        merged(m, ps).contains_key(id),
        merged(m, ps)[id].last_seen_ms >= m[id].last_seen_ms,
    decreases ps.len(),
{
    if ps.len() > 0 {
        merging_never_ages_a_peer(m, ps.drop_last(), id);
    }
}

/// What is known after announcements was known before, or was announced.
pub proof fn merging_adds_only_what_was_announced(
    m: Map<Seq<u8>, PeerView>,
    ps: Seq<PeerView>,
    id: Seq<u8>,
)
    requires
        merged(m, ps).contains_key(id),
    ensures
        (m.contains_key(id) && merged(m, ps)[id] == m[id]) || (exists|i: int|
            0 <= i < ps.len() && #[trigger] ps[i] == merged(m, ps)[id] && ps[i].node_id == id),
    decreases ps.len(),
{
    if ps.len() > 0 {
        let before = merged(m, ps.drop_last());
        if before.contains_key(id) && merged(m, ps)[id] == before[id] {
            merging_adds_only_what_was_announced(m, ps.drop_last(), id);
            if !(m.contains_key(id) && before[id] == m[id]) {
                let i = choose|i: int|
                    0 <= i < ps.drop_last().len() && #[trigger] ps.drop_last()[i] == before[id]
                        && ps.drop_last()[i].node_id == id;
                assert(ps[i] == merged(m, ps)[id]);
            }
        } else {
            assert(ps[ps.len() - 1] == merged(m, ps)[id]);
        }
    }
}

/// Whatever was announced, something at least as new is known of the same node.
/// Where it is as new, it is what was announced there or later.
pub proof fn the_newest_announcement_wins(
    m: Map<Seq<u8>, PeerView>,
    ps: Seq<PeerView>,
    j: int,
)
    requires
        0 <= j < ps.len(),
        ps[j].node_id.len() > 0,
    ensures
        merged(m, ps).contains_key(ps[j].node_id),
        merged(m, ps)[ps[j].node_id].last_seen_ms >= ps[j].last_seen_ms,
        merged(m, ps)[ps[j].node_id].last_seen_ms == ps[j].last_seen_ms ==> exists|k: int|
            j <= k < ps.len() && #[trigger] ps[k] == merged(m, ps)[ps[j].node_id] && ps[k].node_id
                == ps[j].node_id,
    decreases ps.len(),
{
    let id = ps[j].node_id;
    let before = merged(m, ps.drop_last());
    let last = ps.len() - 1;
    if j == last {
        if merged(m, ps) != before {
            assert(ps[last] == merged(m, ps)[id]);
        } else if merged(m, ps)[id].last_seen_ms == ps[j].last_seen_ms {
            assert(before.insert(id, ps[last])[id] == ps[last]);
            assert(ps[last] == merged(m, ps)[id]);
        }
    } else {
        assert(ps.drop_last()[j] == ps[j]);
        the_newest_announcement_wins(m, ps.drop_last(), j);
        if merged(m, ps)[id] == before[id] {
            if before[id].last_seen_ms == ps[j].last_seen_ms {
                let k = choose|k: int|
                    j <= k < ps.drop_last().len() && #[trigger] ps.drop_last()[k] == before[id]
                        && ps.drop_last()[k].node_id == id;
                assert(ps[k] == merged(m, ps)[id]);
            }
        } else {
            assert(ps[last] == merged(m, ps)[id]);
        }
    }
}

proof fn echo_step(m: Map<Seq<u8>, PeerView>, ps: Seq<PeerView>, n: int, id: Seq<u8>)
    requires
        0 <= n <= ps.len(),
    ensures
        merged(merged(m, ps), ps.take(n)).contains_key(id) <==> merged(m, ps).contains_key(id),
        merged(m, ps).contains_key(id) ==> {
            let now = merged(merged(m, ps), ps.take(n))[id];
            let known = merged(m, ps)[id];
            &&& now.last_seen_ms == known.last_seen_ms
            &&& now == known || (id.len() > 0 && exists|k: int|
                n <= k < ps.len() && #[trigger] ps[k] == known && ps[k].node_id == id)
        },
    decreases n,
{
    let base = merged(m, ps);
    if n == 0 {
        assert(ps.take(0).len() == 0);
    } else {
        echo_step(m, ps, n - 1, id);
        let before = merged(base, ps.take(n - 1));
        assert(ps.take(n).drop_last() =~= ps.take(n - 1));
        assert(ps.take(n).last() == ps[n - 1]);
        let p = ps[n - 1];
        if p.node_id.len() > 0 {
            the_newest_announcement_wins(m, ps, n - 1);
            echo_step(m, ps, n - 1, p.node_id);
        }
        if base.contains_key(id) {
            let known = base[id];
            if p.node_id.len() > 0 && p.node_id == id && p.last_seen_ms == known.last_seen_ms {
                let k = choose|k: int|
                    n - 1 <= k < ps.len() && #[trigger] ps[k] == known && ps[k].node_id == id;
                assert(ps[k] == known);
            } else if before[id] != known {
                let k = choose|k: int|
                    n - 1 <= k < ps.len() && #[trigger] ps[k] == known && ps[k].node_id == id;
                assert(ps[k] == known);
                assert(before.contains_key(id));
                assert(known.node_id == id);
                assert(k != n - 1);
            }
        }
    }
}

/// Hearing the same announcements again changes nothing.
pub proof fn an_echo_changes_nothing(m: Map<Seq<u8>, PeerView>, ps: Seq<PeerView>)
    ensures
        merged(merged(m, ps), ps) == merged(m, ps),
{
    assert(ps.take(ps.len() as int) =~= ps);
    assert forall|id: Seq<u8>|
        {
            &&& #[trigger] merged(merged(m, ps), ps).contains_key(id) <==> merged(
                m,
                ps,
            ).contains_key(id)
            &&& merged(m, ps).contains_key(id) ==> merged(merged(m, ps), ps)[id] == merged(
                m,
                ps,
            )[id]
        } by {
        echo_step(m, ps, ps.len() as int, id);
    }
    assert(merged(merged(m, ps), ps) =~= merged(m, ps));
}

/// A node of which every record is too old is forgotten, however often its old
/// record is heard again.
pub proof fn a_departed_node_is_forgotten(
    m: Map<Seq<u8>, PeerView>,
    ps: Seq<PeerView>,
    id: Seq<u8>,
    cutoff: int,
)
    requires
        m.contains_key(id) ==> m[id].last_seen_ms < cutoff,
        forall|i: int|
            0 <= i < ps.len() && (#[trigger] ps[i]).node_id == id ==> ps[i].last_seen_ms < cutoff,
    ensures
        !fresh(merged(m, ps), cutoff).contains_key(id),
{
    if merged(m, ps).contains_key(id) {
        merging_adds_only_what_was_announced(m, ps, id);
    }
}

/// A peer heard of within the time that a node may keep silent stays known.
pub proof fn a_fresh_node_stays(m: Map<Seq<u8>, PeerView>, id: Seq<u8>, now: u64, patience: u64)
    requires
        m.contains_key(id),
        m[id].last_seen_ms + patience >= now,
    ensures
        fresh(m, cutoff_at(now, patience)).contains_key(id),
        fresh(m, cutoff_at(now, patience))[id] == m[id],
{
}

proof fn nul_free_scalar(character: char)
    requires
        character != '\0',
    ensures
        forall|i: int|
            0 <= i < encode_scalar(character as u32).len() ==> #[trigger] encode_scalar(
                character as u32,
            )[i] != 0,
{
    let c = character as u32;
    char_is_scalar(character);
    assert(c <= 0x7f && c != 0 ==> (c & 0x7f) as u8 != 0) by (bit_vector);
    assert(0xC0u8 | ((c >> 6) & 0x1F) as u8 != 0) by (bit_vector);
    assert(0xE0u8 | ((c >> 12) & 0x0F) as u8 != 0) by (bit_vector);
    assert(0xF0u8 | ((c >> 18) & 0x7) as u8 != 0) by (bit_vector);
    assert(0x80u8 | (c & 0x3F) as u8 != 0) by (bit_vector);
    assert(0x80u8 | ((c >> 6) & 0x3F) as u8 != 0) by (bit_vector);
    assert(0x80u8 | ((c >> 12) & 0x3F) as u8 != 0) by (bit_vector);
}

/// Whether a text has no NUL character.
pub open spec fn nul_free(s: Seq<char>) -> bool {
    forall|i: int| 0 <= i < s.len() ==> #[trigger] s[i] != '\0'
}

proof fn nul_free_bytes(s: Seq<char>)
    requires
        nul_free(s),
    ensures
        forall|i: int| 0 <= i < encode_utf8(s).len() ==> #[trigger] encode_utf8(s)[i] != 0,
    decreases s.len(),
{
    if s.len() > 0 {
        let rest = s.drop_first();
        assert forall|i: int| 0 <= i < rest.len() implies #[trigger] rest[i] != '\0' by {
            assert(rest[i] == s[i + 1]);
        }
        nul_free_bytes(rest);
        nul_free_scalar(s[0]);
        let head = encode_scalar(s[0] as u32);
        assert forall|i: int| 0 <= i < encode_utf8(s).len() implies #[trigger] encode_utf8(s)[i]
            != 0 by {
            if i < head.len() {
                assert(encode_utf8(s)[i] == head[i]);
            } else {
                assert(encode_utf8(s)[i] == encode_utf8(rest)[i - head.len()]);
            }
        }
    }
}

proof fn first_nul_splits(a: Seq<u8>, x: Seq<u8>, b: Seq<u8>, y: Seq<u8>)
    requires
        a + seq![0u8] + x == b + seq![0u8] + y,
        forall|i: int| 0 <= i < a.len() ==> #[trigger] a[i] != 0,
        forall|i: int| 0 <= i < b.len() ==> #[trigger] b[i] != 0,
    ensures
        a == b,
        x == y,
{
    let l = a + seq![0u8] + x;
    let r = b + seq![0u8] + y;
    assert(l.len() == a.len() + 1 + x.len());
    assert(r.len() == b.len() + 1 + y.len());
    if a.len() < b.len() {
        assert(l[a.len() as int] == 0);
        assert(r[a.len() as int] == b[a.len() as int]);
        assert(false);
    } else if b.len() < a.len() {
        assert(r[b.len() as int] == 0);
        assert(l[b.len() as int] == a[b.len() as int]);
        assert(false);
    }
    assert forall|i: int| 0 <= i < a.len() implies a[i] == b[i] by {
        assert(l[i] == a[i]);
        assert(r[i] == b[i]);
    }
    assert(a =~= b);
    assert(x.len() == y.len());
    assert forall|i: int| 0 <= i < x.len() implies x[i] == y[i] by {
        assert(l[a.len() + 1 + i] == x[i]);
        assert(r[a.len() + 1 + i] == y[i]);
    }
    assert(x =~= y);
}

/// A signature over the signed bytes is one over the node id, the endpoints,
/// the model, the layers and the exchange key: announcements that differ in one
/// of them have different signed bytes. (Node ids have one length, and no text
/// holds a NUL character.)
pub proof fn the_signed_bytes_fix_what_is_announced(p: PeerView, q: PeerView)
    requires
        signable(p) == signable(q),
        p.node_id.len() == q.node_id.len(),
        nul_free(p.daemon_endpoint) && nul_free(p.worker_endpoint) && nul_free(p.model_id),
        nul_free(q.daemon_endpoint) && nul_free(q.worker_endpoint) && nul_free(q.model_id),
    ensures
        p.node_id == q.node_id,
        p.daemon_endpoint == q.daemon_endpoint,
        p.worker_endpoint == q.worker_endpoint,
        p.model_id == q.model_id,
        p.start_layer == q.start_layer,
        p.end_layer == q.end_layer,
        p.kx_public == q.kx_public,
{
    tails(p);
    tails(q);
    let n = p.node_id.len() as int;
    assert(p.node_id == q.node_id && from_daemon(p) == from_daemon(q)) by {
        assert(signable(p).take(n) =~= p.node_id);
        assert(signable(q).take(n) =~= q.node_id);
        assert(signable(p).skip(n + 1) =~= from_daemon(p));
        assert(signable(q).skip(n + 1) =~= from_daemon(q));
    }
    text_splits(p.daemon_endpoint, from_worker(p), q.daemon_endpoint, from_worker(q));
    text_splits(p.worker_endpoint, from_model(p), q.worker_endpoint, from_model(q));
    text_splits(p.model_id, from_layers(p), q.model_id, from_layers(q));
    assert(p.start_layer == q.start_layer && p.end_layer == q.end_layer && p.kx_public
        == q.kx_public) by {
        let lp = from_layers(p);
        let lq = from_layers(q);
        wire::bounds();
        wire::le_reads_back(p.start_layer as nat, 4);
        wire::le_reads_back(q.start_layer as nat, 4);
        wire::le_reads_back(p.end_layer as nat, 4);
        wire::le_reads_back(q.end_layer as nat, 4);
        assert(lp.take(4) =~= wire::le(p.start_layer as nat, 4));
        assert(lq.take(4) =~= wire::le(q.start_layer as nat, 4));
        assert(lp.subrange(4, 8) =~= wire::le(p.end_layer as nat, 4));
        assert(lq.subrange(4, 8) =~= wire::le(q.end_layer as nat, 4));
        assert(lp.skip(8) =~= p.kx_public);
        assert(lq.skip(8) =~= q.kx_public);
    }
}

spec fn from_layers(p: PeerView) -> Seq<u8> {
    wire::le(p.start_layer as nat, 4) + wire::le(p.end_layer as nat, 4) + p.kx_public
}

spec fn from_model(p: PeerView) -> Seq<u8> {
    encode_utf8(p.model_id) + seq![0u8] + from_layers(p)
}

spec fn from_worker(p: PeerView) -> Seq<u8> {
    encode_utf8(p.worker_endpoint) + seq![0u8] + from_model(p)
}

spec fn from_daemon(p: PeerView) -> Seq<u8> {
    encode_utf8(p.daemon_endpoint) + seq![0u8] + from_worker(p)
}

proof fn tails(p: PeerView)
    ensures
        signable(p) == p.node_id + seq![0u8] + from_daemon(p),
{
    assert(signable(p) =~= p.node_id + seq![0u8] + from_daemon(p));
}

proof fn text_splits(a: Seq<char>, x: Seq<u8>, b: Seq<char>, y: Seq<u8>)
    requires
        nul_free(a),
        nul_free(b),
        encode_utf8(a) + seq![0u8] + x == encode_utf8(b) + seq![0u8] + y,
    ensures
        a == b,
        x == y,
{
    nul_free_bytes(a);
    nul_free_bytes(b);
    first_nul_splits(encode_utf8(a), x, encode_utf8(b), y);
    encode_utf8_decode_utf8(a);
    encode_utf8_decode_utf8(b);
}

/// A sign of life changes the time of the last one and nothing else, and only of the nodes
/// that gave it: those behind the endpoint, or the one with the node id.
pub proof fn a_sign_of_life_changes_the_time_alone(
    m: Map<Seq<u8>, PeerView>,
    endpoint: Seq<char>,
    node: Seq<u8>,
    now: u64,
    id: Seq<u8>,
)
    requires
        m.contains_key(id),
    ensures
        endpoint_touched(m, endpoint, now).dom() == m.dom(),
        node_touched(m, node, now).dom() == m.dom(),
        m[id].daemon_endpoint == endpoint ==> endpoint_touched(m, endpoint, now)[id].last_seen_ms
            == now,
        m[id].daemon_endpoint != endpoint ==> endpoint_touched(m, endpoint, now)[id] == m[id],
        id == node ==> node_touched(m, node, now)[id].last_seen_ms == now,
        id != node ==> node_touched(m, node, now)[id] == m[id],
        seen_at(endpoint_touched(m, endpoint, now)[id], m[id].last_seen_ms) == m[id],
        seen_at(node_touched(m, node, now)[id], m[id].last_seen_ms) == m[id],
        endpoint_touched(m, endpoint, now)[id].node_id == m[id].node_id,
        endpoint_touched(m, endpoint, now)[id].signature == m[id].signature,
        signable(endpoint_touched(m, endpoint, now)[id]) == signable(m[id]),
        signable(node_touched(m, node, now)[id]) == signable(m[id]),
{
    assert(endpoint_touched(m, endpoint, now).dom() =~= m.dom());
    assert(node_touched(m, node, now).dom() =~= m.dom());
}

/// A peer is forgotten exactly where it has kept silent longer than it may.
pub proof fn only_the_silent_are_forgotten(
    m: Map<Seq<u8>, PeerView>,
    id: Seq<u8>,
    now: u64,
    patience: u64,
)
    requires
        m.contains_key(id),
    ensures
        fresh(m, cutoff_at(now, patience)).contains_key(id) <==> m[id].last_seen_ms + patience
            >= now,
        fresh(m, cutoff_at(now, patience)).contains_key(id) ==> fresh(
            m,
            cutoff_at(now, patience),
        )[id] == m[id],
        fresh(m, cutoff_at(now, patience)).dom().subset_of(m.dom()),
{
}

/// What is not part of an announcement is not signed: the time of the last sign of life,
/// whether a node can be reached, how deep its model is. So these can change without a
/// new signature.
pub proof fn only_what_is_announced_is_signed(p: PeerView, q: PeerView)
    requires
        p.node_id == q.node_id,
        p.daemon_endpoint == q.daemon_endpoint,
        p.worker_endpoint == q.worker_endpoint,
        p.model_id == q.model_id,
        p.start_layer == q.start_layer,
        p.end_layer == q.end_layer,
        p.kx_public == q.kx_public,
    ensures
        signable(p) == signable(q),
{
}

/// The signed bytes begin with the node id and a zero, and end with the first and the last
/// layer, four bytes each, and the exchange key.
pub proof fn the_signed_bytes_begin_and_end(p: PeerView)
    ensures
        ({
            let b = signable(p);
            let k = b.len() - p.kx_public.len();
            &&& b.take(p.node_id.len() as int) == p.node_id
            &&& b[p.node_id.len() as int] == 0
            &&& b.skip(k) == p.kx_public
            &&& wire::le_value(b.subrange(k - 8, k - 4)) == p.start_layer
            &&& wire::le_value(b.subrange(k - 4, k)) == p.end_layer
        }),
{
    let b = signable(p);
    let k = b.len() - p.kx_public.len();
    wire::bounds();
    wire::le_reads_back(p.start_layer as nat, 4);
    wire::le_reads_back(p.end_layer as nat, 4);
    assert(b.take(p.node_id.len() as int) =~= p.node_id);
    assert(b.skip(k) =~= p.kx_public);
    assert(b.subrange(k - 8, k - 4) =~= wire::le(p.start_layer as nat, 4));
    assert(b.subrange(k - 4, k) =~= wire::le(p.end_layer as nat, 4));
}

/// A node that is announced is known from then on under its node id, unless something newer
/// was known of it; nothing that is known of others changes.
pub proof fn an_announcement_concerns_its_node(
    m: Map<Seq<u8>, PeerView>,
    p: PeerView,
    id: Seq<u8>,
)
    requires
        p.node_id.len() > 0,
    ensures
        upserted(m, p).contains_key(p.node_id),
        upserted(m, p)[p.node_id] == p || (m.contains_key(p.node_id) && m[p.node_id].last_seen_ms
            > p.last_seen_ms && upserted(m, p) == m),
        id != p.node_id ==> (upserted(m, p).contains_key(id) <==> m.contains_key(id)),
        id != p.node_id && m.contains_key(id) ==> upserted(m, p)[id] == m[id],
        forall|q: PeerView| q.node_id.len() == 0 ==> #[trigger] upserted(m, q) == m,
{
}

/// Nobody is known without a node id.
pub proof fn nobody_is_known_without_an_id(ps: Seq<PeerView>)
    requires
        distinct_ids(ps),
    ensures
        !by_id(ps).contains_key(Seq::empty()),
{
    if listed(ps, Seq::empty()) {
        let i = place(ps, Seq::empty());
        assert(ps[i].node_id.len() > 0);
    }
}

} // verus!
