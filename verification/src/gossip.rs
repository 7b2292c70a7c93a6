//! What nodes tell each other of the peers they know. Only what a node signed
//! itself is believed.

use vstd::prelude::*;

use crate::crypto::{sign, verify};
use crate::identity::Identity;
use crate::registry::{Peer, PeerRegistry};
use crate::text;

verus! {

/// A peer as it travels between nodes.
#[derive(Debug)]
pub struct PeerInfo {
    pub node_id: Vec<u8>,
    pub daemon_endpoint: String,
    pub worker_endpoint: String,
    pub model_id: String,
    pub start_layer: u32,
    pub end_layer: u32,
    pub total_layers: u32,
    pub last_seen_ms: u64,
    pub signature: Vec<u8>,
    pub kx_public: Vec<u8>,
    pub reachable: bool,
}

impl View for PeerInfo {
    type V = crate::registry::PeerView;

    open spec fn view(&self) -> crate::registry::PeerView {
        crate::registry::PeerView {
            node_id: self.node_id@,
            daemon_endpoint: self.daemon_endpoint@,
            worker_endpoint: self.worker_endpoint@,
            model_id: self.model_id@,
            start_layer: self.start_layer,
            end_layer: self.end_layer,
            total_layers: self.total_layers,
            last_seen_ms: self.last_seen_ms,
            signature: self.signature@,
            kx_public: self.kx_public@,
            reachable: self.reachable,
        }
    }
}

/// What travelling peers hold.
pub open spec fn info_views(infos: Seq<PeerInfo>) -> Seq<crate::registry::PeerView> {
    Seq::new(infos.len(), |i: int| infos[i]@)
}

/// A peer as it travels.
pub fn peer_to_info(p: &Peer) -> (r: PeerInfo)
    ensures
        r@ == p@,
{
    PeerInfo {
        node_id: text::copy_bytes(&p.node_id),
        daemon_endpoint: p.daemon_endpoint.clone(),
        worker_endpoint: p.worker_endpoint.clone(),
        model_id: p.model_id.clone(),
        start_layer: p.start_layer,
        end_layer: p.end_layer,
        total_layers: p.total_layers,
        last_seen_ms: p.last_seen_ms,
        signature: text::copy_bytes(&p.signature),
        kx_public: text::copy_bytes(&p.kx_public),
        reachable: p.reachable,
    }
}

/// A peer as it arrived.
pub fn info_to_peer(i: &PeerInfo) -> (r: Peer)
    ensures
        r@ == i@,
{
    Peer {
        node_id: text::copy_bytes(&i.node_id),
        daemon_endpoint: i.daemon_endpoint.clone(),
        worker_endpoint: i.worker_endpoint.clone(),
        model_id: i.model_id.clone(),
        start_layer: i.start_layer,
        end_layer: i.end_layer,
        total_layers: i.total_layers,
        last_seen_ms: i.last_seen_ms,
        signature: text::copy_bytes(&i.signature),
        kx_public: text::copy_bytes(&i.kx_public),
        reachable: i.reachable,
    }
}

fn infos_of(peers: &Vec<Peer>) -> (r: Vec<PeerInfo>)
    ensures
        info_views(r@) == crate::registry::peer_views(peers@),
{
    let mut r: Vec<PeerInfo> = Vec::new();
    let ghost ps = crate::registry::peer_views(peers@);
    let mut i: usize = 0;
    while i < peers.len()
        invariant
            i <= peers@.len(),
            ps == crate::registry::peer_views(peers@),
            info_views(r@) == ps.take(i as int),
        decreases peers@.len() - i,
    {
        let ghost before = info_views(r@);
        r.push(peer_to_info(&peers[i]));
        proof {
            assert(info_views(r@) =~= before.push(ps[i as int]));
            assert(ps.take(i + 1) =~= ps.take(i as int).push(ps[i as int]));
        }
        i += 1;
    }
    assert(ps.take(i as int) =~= ps);
    r
}

/// A peer announced itself: it has a node id, and a signature over what it
/// announces that holds under that id.
pub open spec fn is_authentic(p: crate::registry::PeerView) -> bool {
    p.node_id.len() > 0 && p.signature.len() > 0 && crate::crypto::is_signature(
        p.node_id,
        crate::registry::signable(p),
        p.signature,
    )
}

/// The peers that announced themselves.
pub open spec fn authentic_only() -> spec_fn(crate::registry::PeerView) -> bool {
    |p: crate::registry::PeerView| is_authentic(p)
}

/// Whether a peer announced itself.
pub fn peer_is_authentic(peer: &Peer) -> (r: bool)
    ensures
        r == is_authentic(peer@),
{
    if peer.node_id.len() == 0 || peer.signature.len() == 0 {
        return false;
    }
    verify(
        peer.node_id.as_slice(),
        peer.signable_bytes().as_slice(),
        peer.signature.as_slice(),
    )
}

/// Takes in the peers that announced themselves, and says how many they were.
pub fn merge_authentic(registry: &mut PeerRegistry, incoming: Vec<Peer>) -> (accepted: usize)
    requires
        old(registry).wf(),
    ensures
        final(registry).wf(),
        final(registry)@ == crate::registry::merged(
            old(registry)@,
            crate::registry::peer_views(incoming@).filter(authentic_only()),
        ),
        accepted == crate::registry::peer_views(incoming@).filter(authentic_only()).len(),
        final(registry).patience() == old(registry).patience(),
{
    let mut accepted: usize = 0;
    let ghost ps = crate::registry::peer_views(incoming@);
    let ghost pred = authentic_only();
    let mut i: usize = 0;
    proof {
        crate::lists::filter_ends(ps, pred);
    }
    while i < incoming.len()
        invariant
            i <= incoming@.len(),
            incoming@.len() == incoming.len(),
            ps == crate::registry::peer_views(incoming@),
            pred == authentic_only(),
            registry.wf(),
            registry@ == crate::registry::merged(
                old(registry)@,
                ps.take(i as int).filter(pred),
            ),
            registry.patience() == old(registry).patience(),
            accepted == ps.take(i as int).filter(pred).len(),
            accepted <= i,
        decreases incoming@.len() - i,
    {
        let ghost before = ps.take(i as int).filter(pred);
        proof {
            assert(ps[i as int] == incoming@[i as int]@);
            crate::lists::filter_step(ps, pred, i as int);
        }
        if peer_is_authentic(&incoming[i]) {
            registry.upsert(incoming[i].clone());
            accepted += 1;
            assert(before.push(ps[i as int]).drop_last() =~= before);
        }
        i += 1;
    }
    proof {
        crate::lists::filter_ends(ps, pred);
    }
    accepted
}

fn peers_of(infos: &Vec<PeerInfo>) -> (r: Vec<Peer>)
    ensures
        crate::registry::peer_views(r@) == info_views(infos@),
{
    let mut r: Vec<Peer> = Vec::new();
    let ghost ps = info_views(infos@);
    let mut i: usize = 0;
    while i < infos.len()
        invariant
            i <= infos@.len(),
            ps == info_views(infos@),
            crate::registry::peer_views(r@) == ps.take(i as int),
        decreases infos@.len() - i,
    {
        let ghost before = crate::registry::peer_views(r@);
        r.push(info_to_peer(&infos[i]));
        proof {
            assert(crate::registry::peer_views(r@) =~= before.push(ps[i as int]));
            assert(ps.take(i + 1) =~= ps.take(i as int).push(ps[i as int]));
        }
        i += 1;
    }
    assert(ps.take(i as int) =~= ps);
    r
}

/// What a node tells of the peers it knows.
pub fn known_peers(registry: &PeerRegistry) -> (r: Vec<PeerInfo>)
    ensures
        info_views(r@) == registry.listing(),
{
    infos_of(&registry.all())
}

/// Takes in what another node tells, and answers with all that is known then.
pub fn exchange(registry: &mut PeerRegistry, known: &Vec<PeerInfo>) -> (r: Vec<PeerInfo>)
    requires
        old(registry).wf(),
    ensures
        final(registry).wf(),
        final(registry)@ == crate::registry::merged(
            old(registry)@,
            info_views(known@).filter(authentic_only()),
        ),
        info_views(r@) == final(registry).listing(),
        final(registry).patience() == old(registry).patience(),
{
    let _ = merge_authentic(registry, peers_of(known));
    known_peers(registry)
}

/// The known peers after the node at an endpoint answered at the time `now`.
pub open spec fn absorbed(
    m: Map<Seq<u8>, crate::registry::PeerView>,
    ps: Seq<crate::registry::PeerView>,
    endpoint: Seq<char>,
    now: u64,
) -> Map<Seq<u8>, crate::registry::PeerView> {
    crate::registry::endpoint_touched(
        crate::registry::merged(m, ps.filter(authentic_only())),
        endpoint,
        now,
    )
}

/// Takes in what the node at an endpoint answered at the time `now`, notes its
/// sign of life, and says how many peers were believed.
pub fn absorb(
    registry: &mut PeerRegistry,
    known: &Vec<PeerInfo>,
    endpoint: &str,
    now: u64,
) -> (accepted: usize)
    requires
        old(registry).wf(),
    ensures
        final(registry).wf(),
        final(registry)@ == absorbed(old(registry)@, info_views(known@), endpoint@, now),
        accepted == info_views(known@).filter(authentic_only()).len(),
        final(registry).patience() == old(registry).patience(),
{
    let accepted: usize = merge_authentic(registry, peers_of(known));
    registry.touch_endpoint_at(endpoint, now);
    accepted
}

/// A peer announces who it is, where it listens, which layers of which model it holds, and
/// whether it can be reached.
pub open spec fn announces(
    p: crate::registry::PeerView,
    node_id: Seq<u8>,
    kx_public: Seq<u8>,
    endpoints: (Seq<char>, Seq<char>),
    model_id: Seq<char>,
    layers: (u32, u32, u32),
    last_seen_ms: u64,
    reachable: bool,
) -> bool {
    &&& p.node_id == node_id
    &&& p.kx_public == kx_public
    &&& p.daemon_endpoint == endpoints.0
    &&& p.worker_endpoint == endpoints.1
    &&& p.model_id == model_id
    &&& p.start_layer == layers.0
    &&& p.end_layer == layers.1
    &&& p.total_layers == layers.2
    &&& p.last_seen_ms == last_seen_ms
    &&& p.reachable == reachable
}

/// What a node announces of itself, signed with its own key. Others believe it.
pub fn announce(
    identity: &Identity,
    daemon_endpoint: &str,
    worker_endpoint: &str,
    model_id: &str,
    start_layer: u32,
    end_layer: u32,
    total_layers: u32,
    last_seen_ms: u64,
    reachable: bool,
) -> (p: Peer)
    ensures
        announces(
            p@,
            identity.node_id(),
            identity.key_exchange.public(),
            (daemon_endpoint@, worker_endpoint@),
            model_id@,
            (start_layer, end_layer, total_layers),
            last_seen_ms,
            reachable,
        ),
        p.signature@ == crate::crypto::ed25519_signature(
            identity.signing_key.secret(),
            crate::registry::signable(p@),
        ),
        is_authentic(p@),
{
    let node_id = identity.signing_public();
    let kx_public = identity.kx_public();
    let mut p = Peer {
        node_id: text::copy_bytes(node_id.as_slice()),
        daemon_endpoint: daemon_endpoint.to_string(),
        worker_endpoint: worker_endpoint.to_string(),
        model_id: model_id.to_string(),
        start_layer,
        end_layer,
        total_layers,
        last_seen_ms,
        signature: Vec::new(),
        kx_public: text::copy_bytes(kx_public.as_slice()),
        reachable,
    };
    let ghost unsigned = p@;
    p.signature = sign(&identity.signing_key, p.signable_bytes().as_slice());
    assert(crate::registry::signable(p@) == crate::registry::signable(unsigned));
    p
}

// ---------------------------------------------------------------------------
// Reachability
// ---------------------------------------------------------------------------

/// What stands behind `http://`, or all where that does not stand in front.
pub open spec fn without_scheme(endpoint: Seq<char>) -> Seq<char> {
    if text::has_prefix(endpoint, "http://"@) {
        endpoint.skip("http://"@.len() as int)
    } else {
        endpoint
    }
}

/// What stands behind the last colon, or all where there is none.
pub open spec fn behind_last_colon(s: Seq<char>) -> Seq<char> {
    match text::last_place(s, ':') {
        Some(i) => s.skip(i + 1),
        None => s,
    }
}

/// What stands behind the last colon, or all where there is none.
pub fn last_segment(s: &str) -> (r: String)
    ensures
        r@ == behind_last_colon(s@),
{
    let cs: Vec<char> = text::chars_of(s);
    match text::last_index(&cs, ':') {
        Some(i) => {
            assert(i < cs.len());
            let r: String = text::slice_of(&cs, i + 1, cs.len());
            assert(r@ =~= s@.skip(i + 1));
            r
        },
        None => s.to_string(),
    }
}

/// The port that an endpoint names.
pub open spec fn port_named(endpoint: Seq<char>) -> Option<nat> {
    text::read_number(behind_last_colon(without_scheme(endpoint)), 65535)
}

/// The port of an endpoint.
pub fn extract_port(endpoint: &str) -> (r: Option<u16>)
    ensures
        match r {
            Some(port) => port_named(endpoint@) == Some(port as nat),
            None => port_named(endpoint@) is None,
        },
{
    let after: String = match text::strip_prefix(endpoint, "http://") {
        Some(rest) => rest,
        None => endpoint.to_string(),
    };
    match text::parse_number(last_segment(after.as_str()).as_str(), 65535) {
        Some(port) => Some(port as u16),
        None => None,
    }
}

/// An address and a port as they are written; an address of the sixth version
/// stands in brackets.
pub open spec fn socket_text(ip: Seq<char>, v6: bool, port: nat) -> Seq<char> {
    if v6 {
        "["@ + ip + "]:"@ + text::dec(port)
    } else {
        ip + ":"@ + text::dec(port)
    }
}

/// Where to knock to see whether a node can be reached from outside.
pub open spec fn knock_at(source_ip: Seq<char>, v6: bool, compute_endpoint: Seq<char>) -> Option<
    Seq<char>,
> {
    match port_named(compute_endpoint) {
        Some(port) => if port == 0 {
            None
        } else {
            Some(socket_text(source_ip, v6, port))
        },
        None => None,
    }
}

/// Where to knock to see whether a node can be reached from outside: at the
/// address that its question came from, and the port of the endpoint it names.
/// There is none where the endpoint has no port, or port 0.
pub fn check_reachability(source_ip: &str, v6: bool, compute_endpoint: &str) -> (r: Option<String>)
    ensures
        match r {
            Some(s) => knock_at(source_ip@, v6, compute_endpoint@) == Some(s@),
            None => knock_at(source_ip@, v6, compute_endpoint@) is None,
        },
{
    let port: u16 = match extract_port(compute_endpoint) {
        Some(p) => p,
        None => 0,
    };
    if port == 0 {
        return None;
    }
    let mut s: String = if v6 {
        let mut s: String = "[".to_string();
        s.append(source_ip);
        s.append("]:");
        s
    } else {
        let mut s: String = source_ip.to_string();
        s.append(":");
        s
    };
    s.append(text::decimal(port as u64).as_str());
    Some(s)
}

// ---------------------------------------------------------------------------
// Laws
// ---------------------------------------------------------------------------

/// Whatever a node comes to know through gossip, it knew before, or the peer
/// announced it itself.
pub proof fn only_the_authentic_are_believed(
    m: Map<Seq<u8>, crate::registry::PeerView>,
    ps: Seq<crate::registry::PeerView>,
    id: Seq<u8>,
)
    requires
        crate::registry::merged(m, ps.filter(authentic_only())).contains_key(id),
    ensures
        ({
            let known = crate::registry::merged(m, ps.filter(authentic_only()))[id];
            (m.contains_key(id) && known == m[id]) || (is_authentic(known) && known.node_id == id)
        }),
{
    let fs = ps.filter(authentic_only());
    crate::registry::merging_adds_only_what_was_announced(m, fs, id);
    let known = crate::registry::merged(m, fs)[id];
    if !(m.contains_key(id) && known == m[id]) {
        let i = choose|i: int|
            0 <= i < fs.len() && #[trigger] fs[i] == known && fs[i].node_id == id;
        crate::lists::filtered_was_there(ps, authentic_only(), i);
    }
}

/// Announcements that nobody signed change nothing.
pub proof fn forgeries_change_nothing(
    m: Map<Seq<u8>, crate::registry::PeerView>,
    ps: Seq<crate::registry::PeerView>,
)
    requires
        forall|i: int| 0 <= i < ps.len() ==> !is_authentic(#[trigger] ps[i]),
    ensures
        crate::registry::merged(m, ps.filter(authentic_only())) == m,
{
    let fs = ps.filter(authentic_only());
    if fs.len() > 0 {
        crate::lists::filtered_was_there(ps, authentic_only(), 0);
        let j = choose|j: int| 0 <= j < ps.len() && #[trigger] ps[j] == fs[0];
        assert(!is_authentic(ps[j]));
    }
}

/// What stands behind the last colon is what was put behind one, where that has none.
pub proof fn what_is_behind_the_colon_is_found(front: Seq<char>, tail: Seq<char>)
    requires
        forall|i: int| 0 <= i < tail.len() ==> #[trigger] tail[i] != ':',
    ensures
        behind_last_colon(front + ":"@ + tail) == tail,
        behind_last_colon(tail) == tail,
{
    reveal_strlit(":");
    let s = front + ":"@ + tail;
    text::the_last_place_is_the_last(s, ':');
    text::the_last_place_is_the_last(tail, ':');
    let at = front.len() as int;
    assert(s[at] == ':');
    assert forall|k: int| at < k < s.len() implies s[k] != ':' by {
        assert(s[k] == tail[k - at - 1]);
    }
    assert(text::last_place(s, ':') == Some(at));
    assert(s.skip(at + 1) =~= tail);
}

/// The port that an endpoint names is the one that was written there, with a scheme in
/// front or without.
pub proof fn a_port_is_found_in_its_endpoint(host: Seq<char>, port: nat)
    requires
        port <= 65535,
    ensures
        port_named("http://"@ + host + ":"@ + text::dec(port)) == Some(port),
        !text::has_prefix(host + ":"@ + text::dec(port), "http://"@) ==> port_named(
            host + ":"@ + text::dec(port),
        ) == Some(port),
        text::read_number(behind_last_colon(host + ":"@ + text::dec(port)), 65535) == Some(port),
{
    text::a_written_number_is_read(port, 65535);
    assert forall|i: int| 0 <= i < text::dec(port).len() implies #[trigger] text::dec(port)[i]
        != ':' by {
        assert(text::is_digit(text::dec(port)[i]));
    }
    what_is_behind_the_colon_is_found(host, text::dec(port));
    let rest = host + ":"@ + text::dec(port);
    text::what_is_put_in_front_is_found("http://"@, rest, rest);
    the_rest_in_a_row("http://"@, host, ":"@, text::dec(port));
}

proof fn the_rest_in_a_row(a: Seq<char>, b: Seq<char>, c: Seq<char>, d: Seq<char>)
    ensures
        a + (b + c + d) == a + b + c + d,
{
    assert(a + (b + c + d) =~= a + b + c + d);
}

/// A sentinel knocks at the address from which it was asked, whatever host the node names
/// itself by, and at the port that the node names; at port 0 nobody can be.
pub proof fn a_knock_goes_back_to_who_asked(
    source_ip: Seq<char>,
    endpoint: Seq<char>,
    other: Seq<char>,
    port: nat,
)
    requires
        port_named(endpoint) == Some(port),
        port_named(other) == Some(port),
    ensures
        port == 0 <==> knock_at(source_ip, false, endpoint) is None,
        port == 0 <==> knock_at(source_ip, true, endpoint) is None,
        port > 0 ==> knock_at(source_ip, false, endpoint).unwrap() == source_ip + ":"@ + text::dec(
            port,
        ),
        port > 0 ==> knock_at(source_ip, true, endpoint).unwrap() == ("["@ + source_ip + "]"@)
            + ":"@ + text::dec(port),
        knock_at(source_ip, false, endpoint) == knock_at(source_ip, false, other),
        knock_at(source_ip, true, endpoint) == knock_at(source_ip, true, other),
{
    a_bracket_and_a_colon();
    let ip = "["@ + source_ip;
    parts_in_a_row(ip, "]"@, ":"@, text::dec(port));
}

proof fn a_bracket_and_a_colon()
    ensures
        "]:"@ == "]"@ + ":"@,
{
    reveal_strlit("]:");
    reveal_strlit("]");
    reveal_strlit(":");
    assert("]:"@ =~= "]"@ + ":"@);
}

proof fn parts_in_a_row(a: Seq<char>, b: Seq<char>, c: Seq<char>, d: Seq<char>)
    ensures
        a + (b + c) + d == a + b + c + d,
{
    assert(a + (b + c) + d =~= a + b + c + d);
}

/// Who is known is believed about itself alone: what a peer that announced itself tells is
/// taken in whole, where nothing newer is known of it.
pub proof fn an_announcement_is_taken_in(
    m: Map<Seq<u8>, crate::registry::PeerView>,
    p: crate::registry::PeerView,
)
    requires
        is_authentic(p),
        m.contains_key(p.node_id) ==> m[p.node_id].last_seen_ms <= p.last_seen_ms,
    ensures
        ({
            let known = crate::registry::merged(m, seq![p].filter(authentic_only()));
            known.contains_key(p.node_id) && known[p.node_id] == p && forall|id: Seq<u8>|
                id != p.node_id ==> (#[trigger] known.contains_key(id) <==> m.contains_key(id)) && (
                m.contains_key(id) ==> known[id] == m[id])
        }),
{
    reveal(Seq::filter);
    assert(seq![p].drop_last() =~= Seq::empty());
    assert(seq![p].filter(authentic_only()) =~= seq![p]);
    assert(crate::registry::merged(m, seq![p].drop_last()) == m);
    assert(seq![p].last() == p);
}

/// Only bytes of the right lengths count as announced: a node id is 32 bytes long, and a
/// signature 64.
pub proof fn what_is_believed_is_signed(p: crate::registry::PeerView)
    requires
        is_authentic(p),
    ensures
        p.node_id.len() == 32,
        p.signature.len() == 64,
        crate::crypto::ed25519_verifies(p.node_id, crate::registry::signable(p), p.signature),
{
}

/// A number that is too great is no port.
pub proof fn a_number_too_great_is_no_port(host: Seq<char>, port: nat)
    requires
        port > 65535,
    ensures
        port_named("http://"@ + (host + ":"@ + text::dec(port))) is None,
{
    text::a_written_number_is_read(port, 65535);
    assert forall|i: int| 0 <= i < text::dec(port).len() implies #[trigger] text::dec(port)[i]
        != ':' by {
        assert(text::is_digit(text::dec(port)[i]));
    }
    what_is_behind_the_colon_is_found(host, text::dec(port));
    let rest = host + ":"@ + text::dec(port);
    text::what_is_put_in_front_is_found("http://"@, rest, rest);
}

/// A node is asked as it announced itself: as a holder of the layers that it named, directly at
/// the endpoint to compute at that belongs to the one at which it listens where it can be
/// reached, and else through the relay under its node id; either way under its own key.
pub proof fn a_node_is_asked_as_it_announced_itself(
    p: crate::registry::PeerView,
    node_id: Seq<u8>,
    kx_public: Seq<u8>,
    endpoints: (Seq<char>, Seq<char>),
    model_id: Seq<char>,
    layers: (u32, u32, u32),
    last_seen_ms: u64,
    reachable: bool,
    relay: Seq<char>,
)
    requires
        announces(
            p,
            node_id,
            kx_public,
            endpoints,
            model_id,
            layers,
            last_seen_ms,
            reachable,
        ),
        kx_public.len() == 32,
    ensures
        crate::registry::holds_slice(model_id, layers.0, layers.1)(p),
        match crate::orchestrator::replica_of(p, Some(relay)) {
            Some(
                crate::orchestrator::ReplicaView::Remote { compute_endpoint, host_kx_public, .. },
            ) => reachable && compute_endpoint == crate::orchestrator::compute_endpoint_of(
                endpoints.0,
            ) && host_kx_public == kx_public,
            Some(
                crate::orchestrator::ReplicaView::Relayed { target_node_id, host_kx_public, .. },
            ) => !reachable && target_node_id == node_id && host_kx_public == kx_public,
            _ => false,
        },
        crate::capacity::depth(seq![p], model_id) == if layers.2 > 0 {
            layers.2
        } else {
            layers.1
        },
        p.last_seen_ms == last_seen_ms,
        p.worker_endpoint == endpoints.1,
{
    let ps = seq![p];
    assert(ps.drop_last() =~= Seq::empty());
    assert(ps.last() == p);
    assert(crate::capacity::reported_depth(ps.drop_last(), model_id) == 0);
    assert(crate::capacity::greatest_end(ps.drop_last(), model_id) == 0);
}

/// Who answers is alive at that time, and what it tells is believed only of peers that announced
/// it themselves: of anyone else nothing changes, and nobody is forgotten.
pub proof fn an_answer_is_a_sign_of_life(
    m: Map<Seq<u8>, crate::registry::PeerView>,
    ps: Seq<crate::registry::PeerView>,
    endpoint: Seq<char>,
    now: u64,
    id: Seq<u8>,
)
    ensures
        m.contains_key(id) ==> absorbed(m, ps, endpoint, now).contains_key(id),
        absorbed(m, ps, endpoint, now).contains_key(id) ==> {
            let known = absorbed(m, ps, endpoint, now)[id];
            &&& known.daemon_endpoint == endpoint ==> known.last_seen_ms == now
            &&& (m.contains_key(id) && crate::registry::signable(known)
                == crate::registry::signable(m[id]) && known.signature == m[id].signature)
                || is_authentic(known)
            &&& known.daemon_endpoint != endpoint && (forall|i: int|
                0 <= i < ps.len() ==> !is_authentic(#[trigger] ps[i])) ==> m.contains_key(id)
                && known == m[id]
        },
{
    let mid = crate::registry::merged(m, ps.filter(authentic_only()));
    if m.contains_key(id) {
        crate::registry::merging_never_ages_a_peer(m, ps.filter(authentic_only()), id);
    }
    if mid.contains_key(id) {
        only_the_authentic_are_believed(m, ps, id);
        let known = absorbed(m, ps, endpoint, now)[id];
        crate::registry::only_what_is_announced_is_signed(known, mid[id]);
    }
    if forall|i: int| 0 <= i < ps.len() ==> !is_authentic(#[trigger] ps[i]) {
        forgeries_change_nothing(m, ps);
    }
}

} // verus!
