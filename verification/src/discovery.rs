//! Whom a node talks to about the peers it knows.

use vstd::prelude::*;

use crate::registry::PeerRegistry;
use crate::text;

verus! {

/// The endpoints other than a node's own.
pub open spec fn others_than(own: Seq<char>) -> spec_fn(Seq<char>) -> bool {
    |e: Seq<char>| e != own
}

/// The endpoints of the known peers in ascending order, none twice.
pub open spec fn endpoints_of(ps: Seq<crate::registry::PeerView>, endpoints: Seq<Seq<char>>) -> bool {
    text::ascending(endpoints) && forall|e: Seq<char>| #[trigger]
        endpoints.contains(e) <==> exists|i: int|
            0 <= i < ps.len() && (#[trigger] ps[i]).daemon_endpoint == e
}

/// The first of a list, as many as there are or as asked for.
pub open spec fn at_most<A>(s: Seq<A>, n: nat) -> Seq<A> {
    if s.len() <= n {
        s
    } else {
        s.take(n as int)
    }
}

/// Whom to talk to in one round: of the endpoints of the known peers, in
/// ascending order and without the node's own, the first `fanout`.
pub fn gossip_targets(registry: &PeerRegistry, own_endpoint: &str, fanout: usize) -> (r: Vec<String>)
    ensures
        exists|endpoints: Seq<Seq<char>>| #[trigger]
            endpoints_of(registry.listing(), endpoints) && text::views(r@) == at_most(
                endpoints.filter(others_than(own_endpoint@)),
                fanout as nat,
            ),
{
    let all: Vec<String> = registry.live_endpoints();
    let ghost endpoints = text::views(all@);
    assert(endpoints_of(registry.listing(), endpoints));
    let ghost pred = others_than(own_endpoint@);
    let mut r: Vec<String> = Vec::new();
    let mut i: usize = 0;
    proof {
        crate::lists::filter_ends(endpoints, pred);
        assert(text::views(r@) =~= at_most(endpoints.take(0).filter(pred), fanout as nat));
    }
    while i < all.len()
        invariant
            i <= all@.len(),
            endpoints == text::views(all@),
            pred == others_than(own_endpoint@),
            text::views(r@) == at_most(endpoints.take(i as int).filter(pred), fanout as nat),
        decreases all@.len() - i,
    {
        let ghost before = endpoints.take(i as int).filter(pred);
        let ghost shown = text::views(r@);
        proof {
            crate::lists::filter_step(endpoints, pred, i as int);
            assert(endpoints[i as int] == all@[i as int]@);
        }
        if !text::str_eq(all[i].as_str(), own_endpoint) && r.len() < fanout {
            r.push(all[i].clone());
            assert(text::views(r@) =~= shown.push(endpoints[i as int]));
        }
        assert(text::views(r@) =~= at_most(endpoints.take(i + 1).filter(pred), fanout as nat));
        i += 1;
    }
    proof {
        crate::lists::filter_ends(endpoints, pred);
    }
    r
}

/// A node does not talk to itself, and to at most as many as it may.
pub proof fn a_round_leaves_out_the_node_itself(
    endpoints: Seq<Seq<char>>,
    own: Seq<char>,
    fanout: nat,
    i: int,
)
    requires
        0 <= i < at_most(endpoints.filter(others_than(own)), fanout).len(),
    ensures
        at_most(endpoints.filter(others_than(own)), fanout)[i] != own,
        at_most(endpoints.filter(others_than(own)), fanout).len() <= fanout,
        endpoints.contains(at_most(endpoints.filter(others_than(own)), fanout)[i]),
{
    crate::lists::filtered_was_there(endpoints, others_than(own), i);
}

/// Nobody is passed over for someone who comes later: where a node does not talk to a
/// known peer other than itself, it talks to as many as it may, and all of them come
/// before that one.
pub proof fn nobody_is_passed_over(
    endpoints: Seq<Seq<char>>,
    own: Seq<char>,
    fanout: nat,
    e: Seq<char>,
)
    requires
        text::ascending(endpoints),
        endpoints.contains(e),
        e != own,
        !at_most(endpoints.filter(others_than(own)), fanout).contains(e),
    ensures
        ({
            let round = at_most(endpoints.filter(others_than(own)), fanout);
            round.len() == fanout && forall|i: int|
                0 <= i < round.len() ==> text::before(#[trigger] round[i], e)
        }),
{
    let others = endpoints.filter(others_than(own));
    let round = at_most(others, fanout);
    let at = choose|at: int| 0 <= at < endpoints.len() && endpoints[at] == e;
    crate::lists::passing_is_left(endpoints, others_than(own), at);
    let k = choose|k: int| 0 <= k < others.len() && others[k] == e;
    if others.len() <= fanout || k < fanout {
        assert(round[k] == e);
        assert(false);
    }
    assert forall|i: int| 0 <= i < round.len() implies text::before(#[trigger] round[i], e) by {
        crate::lists::filtering_keeps_the_order(endpoints, others_than(own), i, k);
    }
}

/// A round reaches everyone where there is room: a node talks to each known peer but itself,
/// as long as their endpoints are no more than it may talk to; and it talks to nobody else.
pub proof fn a_round_reaches_everyone(
    ps: Seq<crate::registry::PeerView>,
    endpoints: Seq<Seq<char>>,
    own: Seq<char>,
    fanout: nat,
    j: int,
)
    requires
        endpoints_of(ps, endpoints),
        endpoints.len() <= fanout,
    ensures
        ({
            let round = at_most(endpoints.filter(others_than(own)), fanout);
            &&& 0 <= j < ps.len() && ps[j].daemon_endpoint != own ==> round.contains(
                ps[j].daemon_endpoint,
            )
            &&& 0 <= j < round.len() ==> exists|i: int|
                0 <= i < ps.len() && (#[trigger] ps[i]).daemon_endpoint == round[j]
        }),
{
    let pred = others_than(own);
    let others = endpoints.filter(pred);
    let round = at_most(others, fanout);
    no_more_are_left(endpoints, pred);
    if 0 <= j < ps.len() && ps[j].daemon_endpoint != own {
        let e = ps[j].daemon_endpoint;
        assert(endpoints.contains(e));
        let at = choose|at: int| 0 <= at < endpoints.len() && endpoints[at] == e;
        crate::lists::passing_is_left(endpoints, pred, at);
    }
    if 0 <= j < round.len() {
        crate::lists::filtered_was_there(endpoints, pred, j);
        assert(endpoints.contains(round[j]));
    }
}

proof fn no_more_are_left<A>(s: Seq<A>, pred: spec_fn(A) -> bool)
    ensures
        s.filter(pred).len() <= s.len(),
    decreases s.len(),
{
    reveal(Seq::filter);
    if s.len() > 0 {
        no_more_are_left(s.drop_last(), pred);
    }
}

} // verus!
