//! Joining the network: which addresses a node tells of itself, and whether it
//! can be reached.

use vstd::prelude::*;

use crate::gossip::last_segment;
use crate::text;

verus! {

/// The port of the local worker, from its endpoint; a fixed one where it has none.
pub open spec fn worker_port_of(endpoint: Seq<char>) -> nat {
    match text::read_number(crate::gossip::behind_last_colon(endpoint), 65535) {
        Some(port) => port,
        None => 50051,
    }
}

/// The port of the local worker, from its endpoint; a fixed one where it has none.
pub fn worker_port(endpoint: &str) -> (r: u16)
    ensures
        r == worker_port_of(endpoint@),
{
    match text::parse_number(last_segment(endpoint).as_str(), 65535) {
        Some(port) => port as u16,
        None => 50051,
    }
}

/// What stands before the first colon, or all where there is none.
pub open spec fn before_colon(s: Seq<char>) -> Seq<char>
    decreases s.len(),
{
    if s.len() == 0 {
        s
    } else if s[0] == ':' {
        Seq::empty()
    } else {
        seq![s[0]] + before_colon(s.skip(1))
    }
}

/// What stands before the first colon, or all where there is none.
pub fn host_part(addr: &str) -> (r: String)
    ensures
        r@ == before_colon(addr@),
{
    let cs: Vec<char> = text::chars_of(addr);
    let mut i: usize = 0;
    assert(cs@.skip(0) =~= addr@);
    assert(cs@.take(0) + before_colon(cs@.skip(0)) =~= before_colon(addr@));
    while i < cs.len() && cs[i] != ':'
        invariant
            i <= cs@.len(),
            cs@.take(i as int) + before_colon(cs@.skip(i as int)) == before_colon(addr@),
        decreases cs@.len() - i,
    {
        proof {
            assert(cs@.skip(i as int).skip(1) =~= cs@.skip(i + 1));
            assert(cs@.take(i as int) + (seq![cs@[i as int]] + before_colon(cs@.skip(i + 1)))
                =~= cs@.take(i + 1) + before_colon(cs@.skip(i + 1)));
        }
        i += 1;
    }
    let r: String = text::slice_of(&cs, 0, i);
    proof {
        assert(r@ =~= cs@.take(i as int));
        assert(before_colon(cs@.skip(i as int)) =~= Seq::<char>::empty());
        assert(cs@.take(i as int) + Seq::<char>::empty() =~= cs@.take(i as int));
    }
    r
}

/// The endpoint of a host and a port.
pub open spec fn endpoint_text(host: Seq<char>, port: int) -> Seq<char> {
    "http://"@ + host + ":"@ + text::dec_int(port)
}

/// The endpoint at which a node computes that listens at a port.
pub open spec fn compute_at(host: Seq<char>, port: int) -> Seq<char> {
    endpoint_text(host, port + 1000)
}

/// The endpoint of a host and a port.
pub fn endpoint(host: &str, port: u16) -> (r: String)
    ensures
        r@ == endpoint_text(host@, port as int),
{
    let mut r: String = "http://".to_string();
    r.append(host);
    r.append(":");
    r.append(text::decimal(port as u64).as_str());
    r
}

/// The port at which a node computes, from the one at which it listens.
pub fn compute_port(port: u16) -> (r: u16)
    requires
        port + 1000 <= 65535,
    ensures
        r == port + 1000,
{
    port + 1000
}

/// The address that a node gives as its own: the one that it was given for that,
/// or else the one that it listens at.
pub open spec fn announced(public_addr: Option<String>, listen: Seq<char>) -> Seq<char> {
    match public_addr {
        Some(explicit) => explicit@,
        None => listen,
    }
}

/// What a node takes as its own addresses before anyone told it how it is seen.
#[derive(Debug)]
pub struct Presumed {
    pub ip: String,
    pub compute_endpoint: String,
    pub daemon_endpoint: String,
}

/// What a node that listens at `port` takes as its own addresses before anyone
/// told it how it is seen.
pub fn presume(public_addr: &Option<String>, listen: &str, port: u16) -> (r: Presumed)
    requires
        port + 1000 <= 65535,
    ensures
        r.ip@ == before_colon(announced(*public_addr, listen@)),
        r.compute_endpoint@ == compute_at(r.ip@, port as int),
        r.daemon_endpoint@ == "http://"@ + announced(*public_addr, listen@),
{
    let addr: &str = match public_addr {
        Some(explicit) => explicit.as_str(),
        None => listen,
    };
    let ip: String = host_part(addr);
    let compute_endpoint: String = endpoint(ip.as_str(), compute_port(port));
    let mut daemon_endpoint: String = "http://".to_string();
    daemon_endpoint.append(addr);
    Presumed { ip, compute_endpoint, daemon_endpoint }
}

/// What is left of a list of texts without one of them.
pub open spec fn without(s: Seq<Seq<char>>, one: Seq<char>) -> Seq<Seq<char>> {
    s.filter(crate::discovery::others_than(one))
}

/// The sentinels that can be asked to knock: all but the node itself.
pub fn probes(sentinels: &Vec<String>, own: &str) -> (r: Vec<String>)
    ensures
        text::views(r@) == without(text::views(sentinels@), own@),
{
    let mut r: Vec<String> = Vec::new();
    let ghost all = text::views(sentinels@);
    let ghost pred = crate::discovery::others_than(own@);
    let mut i: usize = 0;
    proof {
        crate::lists::filter_ends(all, pred);
        assert(text::views(r@) =~= Seq::<Seq<char>>::empty());
    }
    while i < sentinels.len()
        invariant
            i <= sentinels@.len(),
            all == text::views(sentinels@),
            pred == crate::discovery::others_than(own@),
            text::views(r@) == all.take(i as int).filter(pred),
        decreases sentinels@.len() - i,
    {
        let ghost before = text::views(r@);
        proof {
            crate::lists::filter_step(all, pred, i as int);
            assert(all[i as int] == sentinels@[i as int]@);
        }
        if !text::str_eq(sentinels[i].as_str(), own) {
            r.push(sentinels[i].clone());
            assert(text::views(r@) =~= before.push(all[i as int]));
        }
        i += 1;
    }
    proof {
        crate::lists::filter_ends(all, pred);
    }
    r
}

/// The sentinel that relays for a node that cannot be reached: the first other
/// than the node itself.
pub open spec fn relay_of(sentinels: Seq<Seq<char>>, own: Seq<char>) -> Option<Seq<char>> {
    if without(sentinels, own).len() > 0 {
        Some(without(sentinels, own)[0])
    } else {
        None
    }
}

/// The sentinel that relays for a node that cannot be reached: the first other
/// than the node itself.
pub fn relay_sentinel(sentinels: &Vec<String>, own: &str) -> (r: Option<String>)
    ensures
        crate::orchestrator::text_option(r) == relay_of(text::views(sentinels@), own@),
{
    let others: Vec<String> = probes(sentinels, own);
    if others.len() > 0 {
        assert(text::views(others@)[0] == others@[0]@);
        Some(others[0].clone())
    } else {
        None
    }
}

/// What a sentinel found: whether its knock was answered, and the address that
/// the question came from.
#[derive(Debug)]
pub struct Probe {
    pub ok: bool,
    pub seen: Option<String>,
}

/// What asking sentinels one after the other came to, until one could knock:
/// whether one could, and the first address that one told.
#[derive(Debug)]
pub struct Reachability {
    pub reachable: bool,
    pub observed_ip: Option<String>,
}

/// What some probes came to: whether one could knock, none being asked behind
/// it, and the first address that one told.
pub open spec fn reachability_of(ps: Seq<Probe>) -> (bool, Option<Seq<char>>)
    decreases ps.len(),
{
    if ps.len() == 0 {
        (false, None)
    } else {
        let (reachable, seen) = reachability_of(ps.drop_last());
        if reachable {
            (true, seen)
        } else {
            (
                ps.last().ok,
                match seen {
                    Some(s) => Some(s),
                    None => crate::orchestrator::text_option(ps.last().seen),
                },
            )
        }
    }
}

/// What is known of a node that nobody could knock at yet, once the next sentinel was asked.
pub open spec fn learned(observed: Option<Seq<char>>, probe: Probe) -> (bool, Option<Seq<char>>) {
    (
        probe.ok,
        match observed {
            Some(s) => Some(s),
            None => crate::orchestrator::text_option(probe.seen),
        },
    )
}

impl Reachability {
    /// What no sentinel could say yet: where there is none to ask, a node takes
    /// itself as reachable.
    pub fn begin(probes: usize) -> (r: Self)
        ensures
            r.reachable == (probes == 0),
            r.observed_ip is None,
    {
        Reachability { reachable: probes == 0, observed_ip: None }
    }

    /// Takes in what the next sentinel found.
    pub fn learn(&mut self, probe: Probe)
        requires
            !old(self).reachable,
        ensures
            (
                final(self).reachable,
                crate::orchestrator::text_option(final(self).observed_ip),
            ) == learned(crate::orchestrator::text_option(old(self).observed_ip), probe),
    {
        self.reachable = probe.ok;
        if self.observed_ip.is_none() {
            self.observed_ip = probe.seen;
        }
    }
}

/// Asking one more sentinel, while none could knock, comes to what the longer
/// list of probes comes to.
pub proof fn probes_add_up(ps: Seq<Probe>, p: Probe)
    requires
        !reachability_of(ps).0,
    ensures
        reachability_of(ps.push(p)) == learned(reachability_of(ps).1, p),
        reachability_of(ps.push(p)).0 == p.ok,
        reachability_of(ps.push(p)).1 == match reachability_of(ps).1 {
            Some(s) => Some(s),
            None => crate::orchestrator::text_option(p.seen),
        },
{
    assert(ps.push(p).drop_last() =~= ps);
}

/// The address that a node tells of itself: the one that it was given, or else
/// the one that it was seen at, or else the one that it took as its own.
pub open spec fn told_ip(
    public_addr: Option<String>,
    observed: Option<String>,
    own_ip: Seq<char>,
) -> Seq<char> {
    match (public_addr, observed) {
        (Some(explicit), _) => before_colon(explicit@),
        (None, Some(seen)) => seen@,
        (None, None) => own_ip,
    }
}

/// The address that a node tells of itself.
pub fn advertised_ip(public_addr: &Option<String>, observed: &Option<String>, own_ip: &str) -> (r:
    String)
    ensures
        r@ == told_ip(*public_addr, *observed, own_ip@),
{
    match (public_addr, observed) {
        (Some(explicit), _) => host_part(explicit.as_str()),
        (None, Some(seen)) => seen.clone(),
        (None, None) => own_ip.to_string(),
    }
}

/// How a node joins the network.
#[derive(Debug)]
pub struct Joining {
    pub ip: String,
    pub daemon_endpoint: String,
    pub compute_endpoint: String,
    pub reachable: bool,
    /// The sentinel that relays for the node, where it cannot be reached.
    pub relay: Option<String>,
}

/// How a node that listens at `port` joins the network, once the sentinels told
/// how they see it.
pub fn join(
    public_addr: &Option<String>,
    seen: &Reachability,
    own_ip: &str,
    port: u16,
    sentinels: &Vec<String>,
) -> (r: Joining)
    requires
        port + 1000 <= 65535,
    ensures
        r.ip@ == told_ip(*public_addr, seen.observed_ip, own_ip@),
        r.daemon_endpoint@ == endpoint_text(r.ip@, port as int),
        r.compute_endpoint@ == compute_at(r.ip@, port as int),
        r.compute_endpoint@ == crate::orchestrator::compute_endpoint_of(r.daemon_endpoint@),
        r.reachable == seen.reachable,
        crate::orchestrator::text_option(r.relay) == if seen.reachable {
            None
        } else {
            relay_of(text::views(sentinels@), r.daemon_endpoint@)
        },
{
    proof {
        a_node_computes_where_it_is_asked(
            told_ip(*public_addr, seen.observed_ip, own_ip@),
            port as nat,
        );
    }
    let ip: String = advertised_ip(public_addr, &seen.observed_ip, own_ip);
    let daemon_endpoint: String = endpoint(ip.as_str(), port);
    let compute_endpoint: String = endpoint(ip.as_str(), compute_port(port));
    let relay: Option<String> = if seen.reachable {
        None
    } else {
        relay_sentinel(sentinels, daemon_endpoint.as_str())
    };
    Joining { ip, daemon_endpoint, compute_endpoint, reachable: seen.reachable, relay }
}

/// A node never relays through itself.
pub proof fn a_node_does_not_relay_for_itself(sentinels: Seq<Seq<char>>, own: Seq<char>)
    ensures
        !without(sentinels, own).contains(own),
{
    let pred = crate::discovery::others_than(own);
    if without(sentinels, own).contains(own) {
        let i = choose|i: int|
            0 <= i < without(sentinels, own).len() && without(sentinels, own)[i] == own;
        crate::lists::filtered_was_there(sentinels, pred, i);
    }
}

/// A node computes where the others ask it to: the endpoint at which it computes is the
/// one that belongs to the endpoint at which it listens.
pub proof fn a_node_computes_where_it_is_asked(host: Seq<char>, port: nat)
    requires
        port + 1000 <= 65535,
    ensures
        compute_at(host, port as int) == crate::orchestrator::compute_endpoint_of(
            endpoint_text(host, port as int),
        ),
        crate::orchestrator::port_fits(endpoint_text(host, port as int)),
{
    crate::orchestrator::the_port_to_compute_at_is_a_thousand_up("http://"@ + host, port);
}

/// The port of the worker is the one that its endpoint names.
pub proof fn the_port_of_the_worker_is_found(host: Seq<char>, port: nat)
    requires
        port <= 65535,
    ensures
        worker_port_of(endpoint_text(host, port as int)) == port,
{
    crate::gossip::a_port_is_found_in_its_endpoint("http://"@ + host, port);
}

/// The host is what stands in front of a port, and all of an address that has none.
pub proof fn a_host_stands_in_front_of_its_port(host: Seq<char>, tail: Seq<char>)
    requires
        forall|i: int| 0 <= i < host.len() ==> #[trigger] host[i] != ':',
    ensures
        before_colon(host + ":"@ + tail) == host,
        before_colon(host) == host,
    decreases host.len(),
{
    reveal_strlit(":");
    let s = host + ":"@ + tail;
    if host.len() > 0 {
        let rest = host.skip(1);
        assert forall|i: int| 0 <= i < rest.len() implies #[trigger] rest[i] != ':' by {
            assert(rest[i] == host[i + 1]);
        }
        a_host_stands_in_front_of_its_port(rest, tail);
        assert(s.skip(1) =~= rest + ":"@ + tail);
        assert(s[0] == host[0]);
        assert(seq![host[0]] + rest =~= host);
    } else {
        assert(s[0] == ':');
        assert(before_colon(s) =~= host);
    }
}

/// A node that was given an address tells the host of that, whatever it was seen at; one
/// that was given none tells where it was seen; and only one that nobody saw tells what it
/// took as its own.
pub proof fn what_was_given_is_told_first(
    given: String,
    observed: String,
    any: Option<String>,
    own_ip: Seq<char>,
    host: Seq<char>,
    tail: Seq<char>,
)
    requires
        forall|i: int| 0 <= i < host.len() ==> #[trigger] host[i] != ':',
        given@ == host + ":"@ + tail,
    ensures
        told_ip(Some(given), any, own_ip) == host,
        told_ip(None, Some(observed), own_ip) == observed@,
        told_ip(None, None, own_ip) == own_ip,
{
    a_host_stands_in_front_of_its_port(host, tail);
}

/// The sentinel that relays for a node is one of those that are named, another than the
/// node itself, and everyone named in front of it is the node itself; there is none only
/// where no other is named.
pub proof fn the_first_other_sentinel_relays(sentinels: Seq<Seq<char>>, own: Seq<char>)
    ensures
        match relay_of(sentinels, own) {
            Some(s) => s != own && exists|i: int|
                0 <= i < sentinels.len() && #[trigger] sentinels[i] == s && forall|j: int|
                    0 <= j < i ==> #[trigger] sentinels[j] == own,
            None => forall|j: int| 0 <= j < sentinels.len() ==> #[trigger] sentinels[j] == own,
        },
    decreases sentinels.len(),
{
    reveal(Seq::filter);
    if sentinels.len() > 0 {
        let init = sentinels.drop_last();
        the_first_other_sentinel_relays(init, own);
        assert forall|j: int| 0 <= j < init.len() implies sentinels[j] == init[j] by {}
        match relay_of(init, own) {
            Some(s) => {
                let i = choose|i: int|
                    0 <= i < init.len() && #[trigger] init[i] == s && forall|j: int|
                        0 <= j < i ==> #[trigger] init[j] == own;
                assert(relay_of(sentinels, own) == Some(s));
                assert(sentinels[i] == s);
                assert forall|j: int| 0 <= j < i implies #[trigger] sentinels[j] == own by {
                    assert(init[j] == own);
                }
            },
            None => {
                let last = sentinels.len() - 1;
                assert forall|j: int| 0 <= j < last implies #[trigger] sentinels[j] == own by {
                    assert(init[j] == own);
                }
                if sentinels[last] != own {
                    assert(relay_of(sentinels, own) == Some(sentinels[last]));
                }
            },
        }
    }
}

/// A node counts as reachable just where a sentinel could knock, and the address that it
/// is seen at is the first that was told, by a sentinel in front of which none could
/// knock.
pub proof fn the_first_address_told_counts(ps: Seq<Probe>)
    ensures
        reachability_of(ps).0 <==> exists|i: int| 0 <= i < ps.len() && (#[trigger] ps[i]).ok,
        match reachability_of(ps).1 {
            Some(s) => exists|i: int|
                0 <= i < ps.len() && crate::orchestrator::text_option((#[trigger] ps[i]).seen)
                    == Some(s) && forall|j: int|
                    0 <= j < i ==> (#[trigger] ps[j]).seen is None && !ps[j].ok,
            None => forall|i: int|
                0 <= i < ps.len() && (forall|j: int| 0 <= j < i ==> !(#[trigger] ps[j]).ok)
                    ==> (#[trigger] ps[i]).seen is None,
        },
    decreases ps.len(),
{
    if ps.len() > 0 {
        let init = ps.drop_last();
        let last = ps.len() - 1;
        the_first_address_told_counts(init);
        assert forall|j: int| 0 <= j < init.len() implies ps[j] == init[j] by {}
        if reachability_of(init).0 {
            let k = choose|k: int| 0 <= k < init.len() && (#[trigger] init[k]).ok;
            assert(ps[k].ok);
        } else {
            assert forall|j: int| 0 <= j < last implies !(#[trigger] ps[j]).ok by {
                assert(!init[j].ok);
            }
        }
        match reachability_of(init).1 {
            Some(s) => {
                let i = choose|i: int|
                    0 <= i < init.len() && crate::orchestrator::text_option(
                        (#[trigger] init[i]).seen,
                    ) == Some(s) && forall|j: int|
                        0 <= j < i ==> (#[trigger] init[j]).seen is None && !init[j].ok;
                assert(crate::orchestrator::text_option(ps[i].seen) == Some(s));
                assert forall|j: int| 0 <= j < i implies (#[trigger] ps[j]).seen is None
                    && !ps[j].ok by {
                    assert(init[j].seen is None);
                }
            },
            None => {
                assert forall|i: int|
                    0 <= i < last && (forall|j: int| 0 <= j < i ==> !(#[trigger] ps[j]).ok) implies (
                #[trigger] ps[i]).seen is None by {
                    assert forall|j: int| 0 <= j < i implies !(#[trigger] init[j]).ok by {
                        assert(!ps[j].ok);
                    }
                    assert(init[i].seen is None);
                }
                if reachability_of(ps).1 is Some {
                    assert(!reachability_of(init).0);
                    assert forall|j: int| 0 <= j < last implies (#[trigger] ps[j]).seen is None by {
                        assert forall|m: int| 0 <= m < j implies !(#[trigger] init[m]).ok by {}
                        assert(init[j].seen is None);
                    }
                    assert(crate::orchestrator::text_option(ps[last].seen) == reachability_of(
                        ps,
                    ).1);
                } else if reachability_of(init).0 {
                    let k = choose|k: int| 0 <= k < init.len() && (#[trigger] init[k]).ok;
                    assert(ps[k].ok && k < last);
                }
            },
        }
    }
}

} // verus!
