//! What the known peers can serve: which layers of each model are held, by how
//! many nodes, where the holes are, and where one more node helps most.

use vstd::prelude::*;

use crate::registry::{Peer, PeerRegistry};
use crate::text;

verus! {

/// A range of layers, and how many nodes hold exactly it.
#[derive(Debug, Clone, Copy)]
pub struct SliceCoverage {
    pub start_layer: u32,
    pub end_layer: u32,
    pub replicas: usize,
}

/// What the known peers hold of one model.
#[derive(Debug)]
pub struct ModelCapacity {
    pub model_id: String,
    pub total_layers: u32,
    pub slices: Vec<SliceCoverage>,
    pub servable: bool,
    pub min_replicas: usize,
    pub weakest_slice: Option<(u32, u32)>,
}

impl Clone for ModelCapacity {
    fn clone(&self) -> (r: Self)
        ensures
            r.model_id@ == self.model_id@,
            r.total_layers == self.total_layers,
            r.slices@ == self.slices@,
            r.servable == self.servable,
            r.min_replicas == self.min_replicas,
            r.weakest_slice == self.weakest_slice,
    {
        let slices: Vec<SliceCoverage> = self.slices.clone();
        assert(slices@ =~= self.slices@);
        ModelCapacity {
            model_id: self.model_id.clone(),
            total_layers: self.total_layers,
            slices,
            servable: self.servable,
            min_replicas: self.min_replicas,
            weakest_slice: self.weakest_slice,
        }
    }
}

// ---------------------------------------------------------------------------
// Coverage
// ---------------------------------------------------------------------------

/// Whether a slice is held by a node and has the layer `l`.
pub open spec fn covers(s: SliceCoverage, l: int) -> bool {
    s.replicas > 0 && s.start_layer <= l < s.end_layer
}

/// Whether some node holds the layer `l`.
pub open spec fn covered(slices: Seq<SliceCoverage>, l: int) -> bool {
    exists|i: int| 0 <= i < slices.len() && covers(#[trigger] slices[i], l)
}

/// Whether there are layers, and some node holds each of them.
pub open spec fn fully_covered(slices: Seq<SliceCoverage>, total: int) -> bool {
    total > 0 && forall|l: int| 0 <= l < total ==> covered(slices, l)
}

/// The first layer from `c` on that no node holds.
pub open spec fn first_uncovered(slices: Seq<SliceCoverage>, c: int) -> int
    decreases 0x1_0000_0000 - c,
{
    if c >= 0x1_0000_0000 || !covered(slices, c) {
        c
    } else {
        first_uncovered(slices, c + 1)
    }
}

/// The lowest layer above `c` at which a held slice begins.
pub open spec fn lowest_start_above(slices: Seq<SliceCoverage>, c: int) -> Option<int>
    decreases slices.len(),
{
    if slices.len() == 0 {
        None
    } else {
        let lowest = lowest_start_above(slices.drop_last(), c);
        let s = slices.last();
        if s.replicas > 0 && s.start_layer > c && (lowest is None || s.start_layer
            < lowest.unwrap()) {
            Some(s.start_layer as int)
        } else {
            lowest
        }
    }
}

/// Where the next held slice behind layer `c` begins, wherever that is, or the end of
/// the model where there is none.
pub open spec fn next_held(slices: Seq<SliceCoverage>, total: int, c: int) -> int {
    match lowest_start_above(slices, c) {
        Some(n) => n,
        None => total,
    }
}

/// Where a hole that begins at `c` ends: where the next held slice begins, or
/// at the end of the model where none begins before that.
pub open spec fn hole_end(slices: Seq<SliceCoverage>, total: int, c: int) -> int {
    let n = next_held(slices, total, c);
    if n < total {
        n
    } else {
        total
    }
}

/// The holes from layer `c` on, each as its first layer and the layer behind its last.
pub open spec fn gaps_from(slices: Seq<SliceCoverage>, total: int, c: int) -> Seq<(int, int)>
    decreases
            (if c < total {
                total - c
            } else {
                0
            }),
{
    let hole = first_uncovered(slices, c);
    if hole >= total {
        Seq::empty()
    } else {
        let end = hole_end(slices, total, hole);
        proof {
            first_uncovered_is_it(slices, c);
            lowest_start_is_above(slices, hole);
        }
        seq![(hole, end)] + gaps_from(slices, total, end)
    }
}

/// The holes of a model: the ranges of its layers that no node holds.
pub open spec fn gaps(slices: Seq<SliceCoverage>, total: int) -> Seq<(int, int)> {
    gaps_from(slices, total, 0)
}

/// Where a model is first not held: from there to where the next held slice begins,
/// which lies behind the end of the model where a slice was announced that does.
pub open spec fn first_gap(slices: Seq<SliceCoverage>, total: int) -> Option<(int, int)> {
    let hole = first_uncovered(slices, 0);
    if hole < total {
        Some((hole, next_held(slices, total, hole)))
    } else {
        None
    }
}

/// The first layer that no node holds is not held, and all before it are.
pub proof fn first_uncovered_is_it(slices: Seq<SliceCoverage>, c: int)
    ensures
        first_uncovered(slices, c) >= c,
        !covered(slices, first_uncovered(slices, c)),
        forall|l: int| c <= l < first_uncovered(slices, c) ==> covered(slices, l),
        first_uncovered(slices, c) <= c || first_uncovered(slices, c) <= 0xffff_ffff,
    decreases 0x1_0000_0000 - c,
{
    if c < 0x1_0000_0000 && covered(slices, c) {
        first_uncovered_is_it(slices, c + 1);
        let i = choose|i: int| 0 <= i < slices.len() && covers(#[trigger] slices[i], c);
        assert(covers(slices[i], c));
    }
}

proof fn only_one_first_uncovered(slices: Seq<SliceCoverage>, c: int, r: int)
    requires
        c <= r,
        !covered(slices, r),
        forall|l: int| c <= l < r ==> covered(slices, l),
    ensures
        first_uncovered(slices, c) == r,
{
    first_uncovered_is_it(slices, c);
    let f = first_uncovered(slices, c);
    if f < r {
        assert(covered(slices, f));
    } else if r < f {
        assert(covered(slices, r));
    }
}

/// The lowest start above a layer is one, and none is lower.
pub proof fn lowest_start_is_above(slices: Seq<SliceCoverage>, c: int)
    ensures
        match lowest_start_above(slices, c) {
            Some(n) => n > c && n <= 0xffff_ffff && (exists|i: int|
                0 <= i < slices.len() && (#[trigger] slices[i]).replicas > 0
                    && slices[i].start_layer == n),
            None => true,
        },
        forall|i: int|
            0 <= i < slices.len() && (#[trigger] slices[i]).replicas > 0 && slices[i].start_layer
                > c ==> lowest_start_above(slices, c) is Some && lowest_start_above(
                slices,
                c,
            ).unwrap() <= slices[i].start_layer,
    decreases slices.len(),
{
    if slices.len() > 0 {
        let init = slices.drop_last();
        lowest_start_is_above(init, c);
        assert forall|i: int|
            0 <= i < slices.len() && (#[trigger] slices[i]).replicas > 0 && slices[i].start_layer
                > c implies lowest_start_above(slices, c) is Some && lowest_start_above(
            slices,
            c,
        ).unwrap() <= slices[i].start_layer by {
            if i < init.len() {
                assert(init[i] == slices[i]);
            }
        }
        match lowest_start_above(slices, c) {
            Some(n) => {
                if lowest_start_above(init, c) == Some(n) {
                    let i = choose|i: int|
                        0 <= i < init.len() && (#[trigger] init[i]).replicas > 0
                            && init[i].start_layer == n;
                    assert(slices[i] == init[i]);
                } else {
                    assert(slices[slices.len() - 1].start_layer == n);
                }
            },
            None => {},
        }
    }
}

/// Walks up from a layer that is taken as covered, as far as held slices reach.
fn reach(slices: &[SliceCoverage], from: u32) -> (r: u32)
    ensures
        r == first_uncovered(slices@, from as int),
{
    let mut covered_up_to: u32 = from;
    let mut progressed: bool = true;
    while progressed
        invariant
            from <= covered_up_to,
            forall|l: int| from <= l < covered_up_to ==> covered(slices@, l),
            !progressed ==> !covered(slices@, covered_up_to as int),
        decreases
                2 * (u32::MAX - covered_up_to) + (if progressed {
                    1int
                } else {
                    0
                }),
    {
        progressed = false;
        let start: u32 = covered_up_to;
        let mut i: usize = 0;
        while i < slices.len()
            invariant
                from <= start <= covered_up_to,
                i <= slices@.len(),
                forall|l: int| from <= l < covered_up_to ==> covered(slices@, l),
                progressed <==> start < covered_up_to,
                !progressed ==> forall|k: int|
                    0 <= k < i ==> !covers(#[trigger] slices@[k], covered_up_to as int),
            decreases slices@.len() - i,
        {
            let s: SliceCoverage = slices[i];
            if s.replicas > 0 && s.start_layer <= covered_up_to && s.end_layer > covered_up_to {
                assert forall|l: int| from <= l < s.end_layer implies covered(slices@, l) by {
                    if l >= covered_up_to {
                        assert(covers(slices@[i as int], l));
                    }
                }
                covered_up_to = s.end_layer;
                progressed = true;
            }
            i += 1;
        }
    }
    proof {
        only_one_first_uncovered(slices@, from as int, covered_up_to as int);
    }
    covered_up_to
}

/// Where the next held slice behind layer `c` begins, or the end of the model where
/// there is none.
fn start_of_next(slices: &[SliceCoverage], total: u32, c: u32) -> (r: u32)
    ensures
        r == next_held(slices@, total as int, c as int),
{
    let mut lowest: Option<u32> = None;
    let mut i: usize = 0;
    while i < slices.len()
        invariant
            i <= slices@.len(),
            match lowest {
                Some(n) => lowest_start_above(slices@.take(i as int), c as int) == Some(n as int),
                None => lowest_start_above(slices@.take(i as int), c as int) is None,
            },
        decreases slices@.len() - i,
    {
        let s: SliceCoverage = slices[i];
        proof {
            let t = slices@.take(i + 1);
            assert(t.drop_last() =~= slices@.take(i as int));
            assert(t.last() == s);
        }
        if s.replicas > 0 && s.start_layer > c {
            match lowest {
                Some(n) => {
                    if s.start_layer < n {
                        lowest = Some(s.start_layer);
                    }
                },
                None => {
                    lowest = Some(s.start_layer);
                },
            }
        }
        i += 1;
    }
    assert(slices@.take(i as int) =~= slices@);
    match lowest {
        Some(n) => n,
        None => total,
    }
}

/// Where a hole that begins at `c` ends.
fn end_of_hole(slices: &[SliceCoverage], total: u32, c: u32) -> (r: u32)
    ensures
        r == hole_end(slices@, total as int, c as int),
{
    let n: u32 = start_of_next(slices, total, c);
    if n < total {
        n
    } else {
        total
    }
}

/// The holes of a list of ranges.
pub open spec fn ranges(v: Seq<(u32, u32)>) -> Seq<(int, int)> {
    Seq::new(v.len(), |i: int| (v[i].0 as int, v[i].1 as int))
}

/// The ranges of the slices that nobody holds.
pub open spec fn unheld(slices: Seq<SliceCoverage>) -> Seq<(u32, u32)>
    decreases slices.len(),
{
    if slices.len() == 0 {
        Seq::empty()
    } else if slices.last().replicas == 0 {
        unheld(slices.drop_last()).push((slices.last().start_layer, slices.last().end_layer))
    } else {
        unheld(slices.drop_last())
    }
}

/// Whether a model can be served, and each slice of it is held often enough.
pub open spec fn robust(cap: ModelCapacity, target: nat) -> bool {
    cap.servable && cap.min_replicas >= target
}

impl ModelCapacity {
    /// Whether the model can be served, and each slice is held often enough.
    pub fn is_robust(&self, target_replication: usize) -> (r: bool)
        ensures
            r == robust(*self, target_replication as nat),
    {
        self.servable && self.min_replicas >= target_replication
    }

    /// The slices that are named but held by nobody.
    pub fn missing_slices(&self) -> (r: Vec<(u32, u32)>)
        ensures
            r@ == unheld(self.slices@),
    {
        let mut r: Vec<(u32, u32)> = Vec::new();
        let mut i: usize = 0;
        while i < self.slices.len()
            invariant
                i <= self.slices@.len(),
                r@ == unheld(self.slices@.take(i as int)),
            decreases self.slices@.len() - i,
        {
            let s: SliceCoverage = self.slices[i];
            proof {
                let t = self.slices@.take(i + 1);
                assert(t.drop_last() =~= self.slices@.take(i as int));
                assert(t.last() == s);
            }
            if s.replicas == 0 {
                r.push((s.start_layer, s.end_layer));
            }
            i += 1;
        }
        assert(self.slices@.take(i as int) =~= self.slices@);
        r
    }

    /// The ranges of layers below `total_layers` that no held slice covers, in
    /// order: the holes between slices, and the tail that nobody announces. None
    /// is empty, none reaches past the model, and each ends before the next begins.
    pub fn coverage_gaps(&self) -> (r: Vec<(u32, u32)>)
        ensures
            ranges(r@) == gaps(self.slices@, self.total_layers as int),
            forall|i: int|
                0 <= i < r@.len() ==> (#[trigger] r@[i]).0 < r@[i].1 <= self.total_layers,
            forall|i: int, j: int|
                0 <= i < j < r@.len() ==> (#[trigger] r@[i]).1 <= (#[trigger] r@[j]).0,
    {
        let mut r: Vec<(u32, u32)> = Vec::new();
        let slices: &[SliceCoverage] = self.slices.as_slice();
        let total: u32 = self.total_layers;
        let mut at: u32 = 0;
        let mut open: bool = true;
        assert(ranges(r@) =~= Seq::<(int, int)>::empty());
        while open
            invariant
                slices@ == self.slices@,
                total == self.total_layers,
                open ==> gaps(slices@, total as int) == ranges(r@) + gaps_from(
                    slices@,
                    total as int,
                    at as int,
                ),
                !open ==> gaps(slices@, total as int) == ranges(r@),
            decreases
                    (if open {
                        if at < total {
                            1 + total - at
                        } else {
                            1
                        }
                    } else {
                        0
                    }),
        {
            let hole: u32 = reach(slices, at);
            proof {
                first_uncovered_is_it(slices@, at as int);
                lowest_start_is_above(slices@, hole as int);
            }
            if hole >= total {
                open = false;
                assert(ranges(r@) + Seq::<(int, int)>::empty() =~= ranges(r@));
            } else {
                let end: u32 = end_of_hole(slices, total, hole);
                let ghost before = ranges(r@);
                r.push((hole, end));
                assert(ranges(r@) =~= before + seq![(hole as int, end as int)]);
                assert(ranges(r@) + gaps_from(slices@, total as int, end as int) =~= before
                    + gaps_from(slices@, total as int, at as int));
                at = end;
            }
        }
        proof {
            let all = gaps_from(slices@, total as int, 0);
            gaps_stand_in_order(slices@, total as int, 0);
            assert forall|i: int| 0 <= i < r@.len() implies (#[trigger] r@[i]).0 < r@[i].1
                <= self.total_layers by {
                assert(all[i] == (r@[i].0 as int, r@[i].1 as int));
            }
            assert forall|i: int, j: int| 0 <= i < j < r@.len() implies (#[trigger] r@[i]).1 <= (
            #[trigger] r@[j]).0 by {
                assert(all[i] == (r@[i].0 as int, r@[i].1 as int));
                assert(all[j] == (r@[j].0 as int, r@[j].1 as int));
            }
        }
        r
    }
}

/// Whether there are layers, and some node holds each of them.
pub fn is_fully_covered(slices: &[SliceCoverage], total_layers: u32) -> (r: bool)
    ensures
        r == fully_covered(slices@, total_layers as int),
{
    if total_layers == 0 {
        return false;
    }
    let hole: u32 = reach(slices, 0);
    proof {
        first_uncovered_is_it(slices@, 0);
        if hole < total_layers {
            assert(!covered(slices@, hole as int));
        }
    }
    hole >= total_layers
}

/// Where a model of `total_layers` layers is first not held, and where the next held
/// slice begins.
pub fn first_coverage_gap_with_total(cap: &ModelCapacity, total_layers: u32) -> (r: Option<
    (u32, u32),
>)
    ensures
        match r {
            Some((start, end)) => first_gap(cap.slices@, total_layers as int) == Some(
                (start as int, end as int),
            ),
            None => first_gap(cap.slices@, total_layers as int) is None,
        },
{
    let slices: &[SliceCoverage] = cap.slices.as_slice();
    let hole: u32 = reach(slices, 0);
    if hole < total_layers {
        Some((hole, start_of_next(slices, total_layers, hole)))
    } else {
        None
    }
}

/// Where a model is first not held, and where the next held slice begins.
pub fn first_coverage_gap(cap: &ModelCapacity) -> (r: Option<(u32, u32)>)
    ensures
        match r {
            Some((start, end)) => first_gap(cap.slices@, cap.total_layers as int) == Some(
                (start as int, end as int),
            ),
            None => first_gap(cap.slices@, cap.total_layers as int) is None,
        },
{
    first_coverage_gap_with_total(cap, cap.total_layers)
}

// ---------------------------------------------------------------------------
// Analysis
// ---------------------------------------------------------------------------

/// How many of the peers hold exactly the layers `start` to `end` of a model.
pub open spec fn holders(
    ps: Seq<crate::registry::PeerView>,
    model_id: Seq<char>,
    start: u32,
    end: u32,
) -> nat {
    ps.filter(crate::registry::holds_slice(model_id, start, end)).len()
}

/// Whether a slice stands before another: by its start, then by its end.
pub open spec fn slice_before(a: SliceCoverage, b: SliceCoverage) -> bool {
    a.start_layer < b.start_layer || (a.start_layer == b.start_layer && a.end_layer < b.end_layer)
}

/// The slices are those that peers hold of a model, in order and none twice,
/// each with the number of its holders.
pub open spec fn tallies(
    ps: Seq<crate::registry::PeerView>,
    model_id: Seq<char>,
    slices: Seq<SliceCoverage>,
) -> bool {
    &&& forall|i: int, j: int|
        0 <= i < j < slices.len() ==> slice_before(#[trigger] slices[i], #[trigger] slices[j])
    &&& forall|i: int|
        0 <= i < slices.len() ==> (#[trigger] slices[i]).replicas > 0 && slices[i].replicas
            == holders(ps, model_id, slices[i].start_layer, slices[i].end_layer)
    &&& forall|start: u32, end: u32| #[trigger]
        holders(ps, model_id, start, end) > 0 ==> exists|i: int|
            0 <= i < slices.len() && (#[trigger] slices[i]).start_layer == start
                && slices[i].end_layer == end
}

/// The greatest depth that a peer reports of a model, or 0.
pub open spec fn reported_depth(ps: Seq<crate::registry::PeerView>, model_id: Seq<char>) -> u32
    decreases ps.len(),
{
    if ps.len() == 0 {
        0
    } else {
        let most = reported_depth(ps.drop_last(), model_id);
        if ps.last().model_id == model_id && ps.last().total_layers > most {
            ps.last().total_layers
        } else {
            most
        }
    }
}

/// The greatest end of a slice that a peer holds of a model, or 0.
pub open spec fn greatest_end(ps: Seq<crate::registry::PeerView>, model_id: Seq<char>) -> u32
    decreases ps.len(),
{
    if ps.len() == 0 {
        0
    } else {
        let most = greatest_end(ps.drop_last(), model_id);
        if ps.last().model_id == model_id && ps.last().end_layer > most {
            ps.last().end_layer
        } else {
            most
        }
    }
}

/// The depth of a model: the one that its holders report, or, where none
/// reports any, the greatest end of a slice.
pub open spec fn depth(ps: Seq<crate::registry::PeerView>, model_id: Seq<char>) -> u32 {
    if reported_depth(ps, model_id) > 0 {
        reported_depth(ps, model_id)
    } else {
        greatest_end(ps, model_id)
    }
}

/// The first of the slices that the fewest nodes hold.
pub open spec fn weakest(slices: Seq<SliceCoverage>) -> int
    decreases slices.len(),
{
    if slices.len() <= 1 {
        0
    } else {
        let w = weakest(slices.drop_last());
        if slices.last().replicas < slices[w].replicas {
            slices.len() - 1
        } else {
            w
        }
    }
}

/// No slice is held by fewer nodes than the weakest, and none before it by as few.
pub proof fn the_weakest_is_the_first_of_the_fewest(slices: Seq<SliceCoverage>)
    requires
        slices.len() > 0,
    ensures
        0 <= weakest(slices) < slices.len(),
        forall|i: int|
            0 <= i < slices.len() ==> (#[trigger] slices[i]).replicas
                >= slices[weakest(slices)].replicas,
        forall|i: int|
            0 <= i < weakest(slices) ==> (#[trigger] slices[i]).replicas
                > slices[weakest(slices)].replicas,
    decreases slices.len(),
{
    if slices.len() > 1 {
        let init = slices.drop_last();
        the_weakest_is_the_first_of_the_fewest(init);
        assert(init[weakest(init)] == slices[weakest(init)]);
        assert forall|i: int| 0 <= i < slices.len() implies (#[trigger] slices[i]).replicas
            >= slices[weakest(slices)].replicas by {
            if i < init.len() {
                assert(init[i] == slices[i]);
            }
        }
        assert forall|i: int| 0 <= i < weakest(slices) implies (#[trigger] slices[i]).replicas
            > slices[weakest(slices)].replicas by {
            assert(init[i] == slices[i]);
        }
    }
}

/// The capacity is what the peers hold of a model.
pub open spec fn describes(
    cap: ModelCapacity,
    ps: Seq<crate::registry::PeerView>,
    model_id: Seq<char>,
) -> bool {
    &&& cap.model_id@ == model_id
    &&& cap.total_layers == depth(ps, model_id)
    &&& tallies(ps, model_id, cap.slices@)
    &&& cap.servable == fully_covered(cap.slices@, cap.total_layers as int)
    &&& cap.min_replicas == if cap.servable {
        cap.slices@[weakest(cap.slices@)].replicas
    } else {
        0
    }
    &&& cap.weakest_slice == if cap.slices@.len() == 0 {
        None
    } else {
        let w = cap.slices@[weakest(cap.slices@)];
        Some((w.start_layer, w.end_layer))
    }
}

/// The place of the first of the slices that the fewest nodes hold.
fn find_weakest(slices: &Vec<SliceCoverage>) -> (w: usize)
    requires
        slices@.len() > 0,
    ensures
        w == weakest(slices@),
        w < slices@.len(),
{
    let mut w: usize = 0;
    let mut i: usize = 1;
    while i < slices.len()
        invariant
            1 <= i <= slices@.len(),
            w == weakest(slices@.take(i as int)),
            w < i,
        decreases slices@.len() - i,
    {
        proof {
            let t = slices@.take(i + 1);
            assert(t.drop_last() =~= slices@.take(i as int));
        }
        if slices[i].replicas < slices[w].replicas {
            w = i;
        }
        i += 1;
    }
    assert(slices@.take(i as int) =~= slices@);
    w
}

/// One more holder is counted of the slice that stands at `at`.
spec fn counted(
    before: Seq<SliceCoverage>,
    after: Seq<SliceCoverage>,
    at: int,
    start: u32,
    end: u32,
) -> bool {
    &&& 0 <= at < after.len()
    &&& after[at].start_layer == start
    &&& after[at].end_layer == end
    &&& ({
        ||| at < before.len() && before[at].start_layer == start && before[at].end_layer == end
            && after == before.update(at, after[at]) && after[at].replicas == before[at].replicas
            + 1
        ||| at <= before.len() && after == before.insert(at, after[at]) && after[at].replicas == 1
            && forall|i: int|
            0 <= i < before.len() ==> !((#[trigger] before[i]).start_layer == start
                && before[i].end_layer == end)
    })
}

/// Counts one more holder of a slice.
fn count_holder(slices: &mut Vec<SliceCoverage>, start: u32, end: u32)
    requires
        forall|i: int, j: int|
            0 <= i < j < old(slices)@.len() ==> slice_before(
                #[trigger] old(slices)@[i],
                #[trigger] old(slices)@[j],
            ),
        forall|i: int|
            0 <= i < old(slices)@.len() ==> (#[trigger] old(slices)@[i]).replicas < usize::MAX,
    ensures
        forall|i: int, j: int|
            0 <= i < j < final(slices)@.len() ==> slice_before(
                #[trigger] final(slices)@[i],
                #[trigger] final(slices)@[j],
            ),
        exists|at: int| counted(old(slices)@, final(slices)@, at, start, end),
{
    let mut i: usize = 0;
    let ghost old_slices = slices@;
    while i < slices.len() && (slices[i].start_layer < start || (slices[i].start_layer == start
        && slices[i].end_layer < end))
        invariant
            slices@ == old_slices,
            i <= slices@.len(),
            forall|k: int|
                0 <= k < i ==> (#[trigger] slices@[k]).start_layer < start || (
                slices@[k].start_layer == start && slices@[k].end_layer < end),
        decreases slices@.len() - i,
    {
        i += 1;
    }
    if i < slices.len() && slices[i].start_layer == start && slices[i].end_layer == end {
        let n: usize = slices[i].replicas;
        slices.set(i, SliceCoverage { start_layer: start, end_layer: end, replicas: n + 1 });
        assert(slices@ == old_slices.update(i as int, slices@[i as int]));
        assert(counted(old_slices, slices@, i as int, start, end));
    } else {
        slices.insert(i, SliceCoverage { start_layer: start, end_layer: end, replicas: 1 });
        assert(slices@[i as int].replicas == 1);
        assert forall|k: int| 0 <= k < old_slices.len() implies !((
        #[trigger] old_slices[k]).start_layer == start && old_slices[k].end_layer == end) by {
            if k > i {
                assert(slice_before(old_slices[i as int], old_slices[k]));
            }
        }
        assert(counted(old_slices, slices@, i as int, start, end));
        assert forall|a: int, b: int| 0 <= a < b < slices@.len() implies slice_before(
            #[trigger] slices@[a],
            #[trigger] slices@[b],
        ) by {
            let x = if a < i {
                a
            } else {
                a - 1
            };
            let y = if b < i {
                b
            } else {
                b - 1
            };
            if a == i {
                if y > i {
                    assert(slice_before(old_slices[i as int], old_slices[y]));
                }
            } else if b != i {
                assert(slice_before(old_slices[x], old_slices[y]));
            }
        }
    }
}

proof fn tallied(
    ps: Seq<crate::registry::PeerView>,
    model_id: Seq<char>,
    k: int,
    before: Seq<SliceCoverage>,
    after: Seq<SliceCoverage>,
    at: int,
)
    requires
        0 <= k < ps.len(),
        ps[k].model_id == model_id,
        tallies(ps.take(k), model_id, before),
        forall|i: int, j: int|
            0 <= i < j < after.len() ==> slice_before(#[trigger] after[i], #[trigger] after[j]),
        counted(before, after, at, ps[k].start_layer, ps[k].end_layer),
    ensures
        tallies(ps.take(k + 1), model_id, after),
{
    let one = ps.take(k);
    let two = ps.take(k + 1);
    assert forall|start: u32, end: u32| #[trigger]
        holders(two, model_id, start, end) == holders(one, model_id, start, end) + (if start
            == ps[k].start_layer && end == ps[k].end_layer {
            1int
        } else {
            0
        }) by {
        crate::lists::filter_step(
            ps,
            crate::registry::holds_slice(model_id, start, end),
            k,
        );
    }
    assert forall|i: int| 0 <= i < after.len() implies (#[trigger] after[i]).replicas > 0
        && after[i].replicas == holders(two, model_id, after[i].start_layer, after[i].end_layer) by {
        if i != at {
            let b = if after.len() == before.len() || i < at {
                i
            } else {
                i - 1
            };
            assert(after[i] == before[b]);
            if i < at {
                assert(slice_before(after[i], after[at]));
            } else {
                assert(slice_before(after[at], after[i]));
            }
        } else if after.len() != before.len() {
            if holders(one, model_id, ps[k].start_layer, ps[k].end_layer) > 0 {
                let b = choose|b: int|
                    0 <= b < before.len() && (#[trigger] before[b]).start_layer
                        == ps[k].start_layer && before[b].end_layer == ps[k].end_layer;
                assert(before[b].start_layer == ps[k].start_layer);
            }
        } else {
            assert(before[at].replicas == holders(
                one,
                model_id,
                before[at].start_layer,
                before[at].end_layer,
            ));
        }
    }
    assert forall|start: u32, end: u32| #[trigger] holders(two, model_id, start, end) > 0 implies
        exists|i: int|
        0 <= i < after.len() && (#[trigger] after[i]).start_layer == start && after[i].end_layer
            == end by {
        if start == ps[k].start_layer && end == ps[k].end_layer {
            assert(after[at].start_layer == start);
        } else {
            assert(holders(one, model_id, start, end) > 0);
            let b = choose|b: int|
                0 <= b < before.len() && (#[trigger] before[b]).start_layer == start
                    && before[b].end_layer == end;
            let i = if after.len() == before.len() || b < at {
                b
            } else {
                b + 1
            };
            assert(after[i] == before[b]);
        }
    }
}

proof fn not_tallied(
    ps: Seq<crate::registry::PeerView>,
    model_id: Seq<char>,
    k: int,
    slices: Seq<SliceCoverage>,
)
    requires
        0 <= k < ps.len(),
        ps[k].model_id != model_id,
        tallies(ps.take(k), model_id, slices),
    ensures
        tallies(ps.take(k + 1), model_id, slices),
{
    assert forall|start: u32, end: u32| #[trigger]
        holders(ps.take(k + 1), model_id, start, end) == holders(
            ps.take(k),
            model_id,
            start,
            end,
        ) by {
        crate::lists::filter_step(
            ps,
            crate::registry::holds_slice(model_id, start, end),
            k,
        );
    }
}

/// What peers hold of one model.
fn model_capacity(peers: &Vec<Peer>, model_id: &str) -> (cap: ModelCapacity)
    ensures
        describes(cap, crate::registry::peer_views(peers@), model_id@),
{
    let mut reported: u32 = 0;
    let mut furthest: u32 = 0;
    let mut slices: Vec<SliceCoverage> = Vec::new();
    let ghost ps = crate::registry::peer_views(peers@);
    let mut k: usize = 0;
    proof {
        assert forall|start: u32, end: u32| #[trigger]
            holders(ps.take(0), model_id@, start, end) == 0 by {
            crate::lists::filter_ends(
                ps,
                crate::registry::holds_slice(model_id@, start, end),
            );
        }
    }
    while k < peers.len()
        invariant
            k <= peers@.len(),
            ps == crate::registry::peer_views(peers@),
            reported == reported_depth(ps.take(k as int), model_id@),
            furthest == greatest_end(ps.take(k as int), model_id@),
            tallies(ps.take(k as int), model_id@, slices@),
            peers@.len() == peers.len(),
        decreases peers@.len() - k,
    {
        let p: &Peer = &peers[k];
        let ghost before = slices@;
        proof {
            assert(ps[k as int] == p@);
            assert(ps.take(k + 1).drop_last() =~= ps.take(k as int));
            assert(ps.take(k + 1).last() == p@);
        }
        if text::str_eq(p.model_id.as_str(), model_id) {
            if p.total_layers > reported {
                reported = p.total_layers;
            }
            if p.end_layer > furthest {
                furthest = p.end_layer;
            }
            proof {
                assert forall|i: int| 0 <= i < before.len() implies (
                #[trigger] before[i]).replicas < usize::MAX by {
                    ps.take(k as int).lemma_filter_len(
                        crate::registry::holds_slice(
                            model_id@,
                            before[i].start_layer,
                            before[i].end_layer,
                        ),
                    );
                }
            }
            count_holder(&mut slices, p.start_layer, p.end_layer);
            proof {
                let after = slices@;
                let at = choose|at: int|
                    counted(before, after, at, p.start_layer, p.end_layer);
                tallied(ps, model_id@, k as int, before, after, at);
            }
        } else {
            proof {
                not_tallied(ps, model_id@, k as int, before);
            }
        }
        k += 1;
    }
    assert(ps.take(k as int) =~= ps);
    let total_layers: u32 = if reported > 0 {
        reported
    } else {
        furthest
    };
    let servable: bool = is_fully_covered(slices.as_slice(), total_layers);
    proof {
        if servable {
            assert(covered(slices@, 0));
        }
    }
    let min_replicas: usize = if servable {
        slices[find_weakest(&slices)].replicas
    } else {
        0
    };
    let weakest_slice: Option<(u32, u32)> = if slices.len() > 0 {
        let w: SliceCoverage = slices[find_weakest(&slices)];
        Some((w.start_layer, w.end_layer))
    } else {
        None
    };
    ModelCapacity {
        model_id: model_id.to_string(),
        total_layers,
        slices,
        servable,
        min_replicas,
        weakest_slice,
    }
}

/// The ids of the models of a list of capacities.
pub open spec fn model_ids(caps: Seq<ModelCapacity>) -> Seq<Seq<char>> {
    Seq::new(caps.len(), |i: int| caps[i].model_id@)
}

/// What the known peers hold of each model, in the order of the models' ids.
pub fn analyze(registry: &PeerRegistry) -> (r: Vec<ModelCapacity>)
    ensures
        text::ascending(model_ids(r@)),
        forall|id: Seq<char>| #[trigger]
            model_ids(r@).contains(id) <==> exists|i: int|
                0 <= i < registry.listing().len() && (#[trigger] registry.listing()[i]).model_id
                    == id,
        forall|i: int|
            0 <= i < r@.len() ==> describes(
                #[trigger] r@[i],
                registry.listing(),
                r@[i].model_id@,
            ),
{
    let peers: Vec<Peer> = registry.all();
    let ghost ps = registry.listing();
    let mut ids: Vec<String> = Vec::new();
    let mut k: usize = 0;
    while k < peers.len()
        invariant
            k <= peers@.len(),
            ps == crate::registry::peer_views(peers@),
            text::ascending(text::views(ids@)),
            forall|id: Seq<char>| #[trigger]
                text::views(ids@).contains(id) <==> exists|i: int|
                    0 <= i < k && (#[trigger] ps[i]).model_id == id,
        decreases peers@.len() - k,
    {
        let ghost before = text::views(ids@);
        assert(ps[k as int] == peers@[k as int]@);
        text::insert_ascending(&mut ids, peers[k].model_id.clone());
        proof {
            let after = text::views(ids@);
            assert forall|id: Seq<char>| #[trigger] after.contains(id) <==> exists|i: int|
                0 <= i < k + 1 && (#[trigger] ps[i]).model_id == id by {
                assert(after.contains(id) <==> before.contains(id) || id == ps[k as int].model_id);
                if before.contains(id) {
                    let i = choose|i: int| 0 <= i < k && (#[trigger] ps[i]).model_id == id;
                    assert(ps[i].model_id == id);
                }
            }
        }
        k += 1;
    }
    let mut r: Vec<ModelCapacity> = Vec::new();
    let mut j: usize = 0;
    while j < ids.len()
        invariant
            j <= ids@.len(),
            r@.len() == j,
            ps == crate::registry::peer_views(peers@),
            forall|i: int|
                0 <= i < j ==> describes(#[trigger] r@[i], ps, ids@[i]@),
        decreases ids@.len() - j,
    {
        r.push(model_capacity(&peers, ids[j].as_str()));
        j += 1;
    }
    assert(model_ids(r@) =~= text::views(ids@));
    r
}

// ---------------------------------------------------------------------------
// Placement
// ---------------------------------------------------------------------------

/// Where one more node helps a model most.
#[derive(Debug, Clone, Copy, PartialEq, Eq, Structural)]
pub enum Placement {
    FillMissing { start: u32, end: u32 },
    ReinforceWeak { start: u32, end: u32, current_replicas: usize },
    ModelNotPresent,
}

/// The place of the first capacity from `k` on that is one of the model.
pub open spec fn find_model(caps: Seq<ModelCapacity>, model_id: Seq<char>, k: int) -> Option<int>
    decreases caps.len() - k,
{
    if k < 0 || k >= caps.len() {
        None
    } else if caps[k].model_id@ == model_id {
        Some(k)
    } else {
        find_model(caps, model_id, k + 1)
    }
}

/// What is found of a model is of that model, none in front of it is, and it is found
/// where there is one.
pub proof fn a_found_model_is_the_one(caps: Seq<ModelCapacity>, model_id: Seq<char>, k: int)
    requires
        0 <= k,
    ensures
        match find_model(caps, model_id, k) {
            Some(i) => k <= i < caps.len() && caps[i].model_id@ == model_id && forall|j: int|
                k <= j < i ==> (#[trigger] caps[j]).model_id@ != model_id,
            None => forall|i: int| k <= i < caps.len() ==> (#[trigger] caps[i]).model_id@
                != model_id,
        },
    decreases caps.len() - k,
{
    if k < caps.len() && caps[k].model_id@ != model_id {
        a_found_model_is_the_one(caps, model_id, k + 1);
    }
}

/// The place of the first capacity that is one of the model.
pub fn position_of(caps: &[ModelCapacity], model_id: &str) -> (r: Option<usize>)
    ensures
        match r {
            Some(i) => find_model(caps@, model_id@, 0) == Some(i as int) && i < caps@.len()
                && caps@[i as int].model_id@ == model_id@,
            None => find_model(caps@, model_id@, 0) is None,
        },
{
    let mut i: usize = 0;
    while i < caps.len()
        invariant
            i <= caps@.len(),
            find_model(caps@, model_id@, 0) == find_model(caps@, model_id@, i as int),
        decreases caps@.len() - i,
    {
        if text::str_eq(caps[i].model_id.as_str(), model_id) {
            return Some(i);
        }
        i += 1;
    }
    None
}

/// Where one more node helps the model that `cap` describes most: in its first
/// hole, or else beside the holders of its weakest slice.
pub open spec fn best_placement(cap: ModelCapacity) -> Placement {
    match first_gap(cap.slices@, cap.total_layers as int) {
        Some((start, end)) => Placement::FillMissing { start: start as u32, end: end as u32 },
        None => {
            let w = cap.slices@[weakest(cap.slices@)];
            Placement::ReinforceWeak {
                start: w.start_layer,
                end: w.end_layer,
                current_replicas: w.replicas,
            }
        },
    }
}

/// Where one more node helps a model most. The weakest slice is the one to
/// reinforce whether or not it is held less often than the target asks for.
pub fn recommend_placement(
    caps: &[ModelCapacity],
    model_id: &str,
    _target_replication: usize,
) -> (r: Placement)
    requires
        find_model(caps@, model_id@, 0) matches Some(i) ==> caps@[i].slices@.len() > 0
            || caps@[i].total_layers > 0,
    ensures
        r == match find_model(caps@, model_id@, 0) {
            Some(i) => best_placement(caps@[i]),
            None => Placement::ModelNotPresent,
        },
{
    let i: usize = match position_of(caps, model_id) {
        Some(i) => i,
        None => {
            return Placement::ModelNotPresent;
        },
    };
    let cap: &ModelCapacity = &caps[i];
    if let Some((start, end)) = first_coverage_gap(cap) {
        return Placement::FillMissing { start, end };
    }
    proof {
        first_uncovered_is_it(cap.slices@, 0);
        if cap.slices@.len() == 0 {
            assert(covered(cap.slices@, 0));
        }
    }
    let w: SliceCoverage = cap.slices[find_weakest(&cap.slices)];
    Placement::ReinforceWeak {
        start: w.start_layer,
        end: w.end_layer,
        current_replicas: w.replicas,
    }
}

/// The place of the last of the deepest models that can be served.
pub open spec fn best_servable(caps: Seq<ModelCapacity>) -> Option<int>
    decreases caps.len(),
{
    if caps.len() == 0 {
        None
    } else {
        let best = best_servable(caps.drop_last());
        if caps.last().servable && (best is None || caps.last().total_layers
            >= caps[best.unwrap()].total_layers) {
            Some(caps.len() - 1)
        } else {
            best
        }
    }
}

/// The best model can be served and none that can is deeper, and there is one
/// where any can be served. Of equally deep ones it is the last.
pub proof fn the_best_servable_is_the_deepest(caps: Seq<ModelCapacity>)
    ensures
        match best_servable(caps) {
            Some(b) => 0 <= b < caps.len() && caps[b].servable && forall|i: int|
                0 <= i < caps.len() && (#[trigger] caps[i]).servable ==> caps[i].total_layers
                    <= caps[b].total_layers && (i > b ==> caps[i].total_layers
                    < caps[b].total_layers),
            None => forall|i: int| 0 <= i < caps.len() ==> !(#[trigger] caps[i]).servable,
        },
    decreases caps.len(),
{
    if caps.len() > 0 {
        let init = caps.drop_last();
        the_best_servable_is_the_deepest(init);
        assert forall|i: int| 0 <= i < init.len() implies init[i] == #[trigger] caps[i] by {}
    }
}

/// The deepest of the models that can be served.
pub fn best_servable_model(caps: &[ModelCapacity]) -> (r: Option<&ModelCapacity>)
    ensures
        match r {
            Some(c) => best_servable(caps@) is Some && *c == caps@[best_servable(caps@).unwrap()],
            None => best_servable(caps@) is None,
        },
{
    let mut best: Option<usize> = None;
    let mut i: usize = 0;
    while i < caps.len()
        invariant
            i <= caps@.len(),
            match best {
                Some(b) => b < i && best_servable(caps@.take(i as int)) == Some(b as int),
                None => best_servable(caps@.take(i as int)) is None,
            },
        decreases caps@.len() - i,
    {
        assert(caps@.take(i + 1).drop_last() =~= caps@.take(i as int));
        if caps[i].servable {
            match best {
                Some(b) => {
                    if caps[i].total_layers >= caps[b].total_layers {
                        best = Some(i);
                    }
                },
                None => {
                    best = Some(i);
                },
            }
        }
        i += 1;
    }
    assert(caps@.take(i as int) =~= caps@);
    match best {
        Some(b) => Some(&caps[b]),
        None => None,
    }
}

/// Whether the capacity found of a model says that it can be served.
pub open spec fn is_servable(caps: Seq<ModelCapacity>, model_id: Seq<char>) -> bool {
    find_model(caps, model_id, 0) matches Some(i) && caps[i].servable
}

/// The model to fall back to where the current one can no longer be served:
/// none while it can be, else the deepest that can be.
pub open spec fn fallback_for(caps: Seq<ModelCapacity>, current: Seq<char>) -> Option<int> {
    if is_servable(caps, current) {
        None
    } else {
        best_servable(caps)
    }
}

/// The model to fall back to where the current one can no longer be served:
/// none while it can be, else the deepest that can be.
pub fn fallback_after_loss<'a>(caps: &'a [ModelCapacity], current_model: &str) -> (r: Option<
    &'a ModelCapacity,
>)
    ensures
        match r {
            Some(c) => fallback_for(caps@, current_model@) is Some && *c == caps@[fallback_for(
                caps@,
                current_model@,
            ).unwrap()],
            None => fallback_for(caps@, current_model@) is None,
        },
{
    let servable: bool = match position_of(caps, current_model) {
        Some(i) => caps[i].servable,
        None => false,
    };
    if servable {
        return None;
    }
    best_servable_model(caps)
}

/// The layers that a node takes of a model, and why.
#[derive(Debug, PartialEq)]
pub struct SliceAssignment {
    pub start: u32,
    pub end: u32,
    pub reason: String,
}

impl Clone for SliceAssignment {
    fn clone(&self) -> (r: Self)
        ensures
            r@ == self@,
    {
        SliceAssignment { start: self.start, end: self.end, reason: self.reason.clone() }
    }
}

/// What a [`SliceAssignment`] holds.
#[verifier::ext_equal]
pub struct AssignmentView {
    pub start: int,
    pub end: int,
    pub reason: Seq<char>,
}

impl View for SliceAssignment {
    type V = AssignmentView;

    open spec fn view(&self) -> AssignmentView {
        AssignmentView { start: self.start as int, end: self.end as int, reason: self.reason@ }
    }
}

/// A range of layers as it is written.
pub open spec fn range_text(start: int, end: int) -> Seq<char> {
    text::dec(start as nat) + ":"@ + text::dec(end as nat)
}

/// The layers that a node which can hold `room` of them takes of a model that
/// the peers hold as `cap` describes: as much of the first hole as it can hold;
/// or else the whole of the weakest slice, where it can hold that.
pub open spec fn share_of(cap: ModelCapacity, total: int, room: int, target: int) -> Option<
    AssignmentView,
> {
    match first_gap(cap.slices@, total) {
        Some((start, end)) => Some(
            AssignmentView {
                start,
                end: if end - start <= room {
                    end
                } else {
                    start + room
                },
                reason: "fill coverage gap "@ + range_text(start, end),
            },
        ),
        None => {
            let w = cap.slices@[weakest(cap.slices@)];
            if cap.slices@.len() == 0 || w.end_layer - w.start_layer > room {
                None
            } else {
                Some(
                    AssignmentView {
                        start: w.start_layer as int,
                        end: w.end_layer as int,
                        reason: if w.replicas < target {
                            "reinforce fragile slice "@ + range_text(
                                w.start_layer as int,
                                w.end_layer as int,
                            ) + " ("@ + text::dec(w.replicas as nat) + " replica)"@
                        } else {
                            "add redundancy"@
                        },
                    },
                )
            }
        },
    }
}

/// The layers that a node takes of a model: none where it can hold none, the
/// first ones where nobody has any, and else its share.
pub open spec fn assignment(
    caps: Seq<ModelCapacity>,
    model_id: Seq<char>,
    total: int,
    capacity: int,
    target: int,
) -> Option<AssignmentView> {
    let room = if capacity <= total {
        capacity
    } else {
        total
    };
    if capacity == 0 || total == 0 {
        None
    } else {
        match find_model(caps, model_id, 0) {
            None => Some(
                AssignmentView {
                    start: 0,
                    end: room,
                    reason: "bootstrap: first holder of this model"@,
                },
            ),
            Some(i) => share_of(caps[i], total, room, target),
        }
    }
}

/// Writes a range of layers.
pub fn write_range(start: u32, end: u32) -> (s: String)
    ensures
        s@ == range_text(start as int, end as int),
{
    let mut s: String = text::decimal(start as u64);
    s.append(":");
    s.append(text::decimal(end as u64).as_str());
    s
}

/// Whether the weakest slice of the model does not end before it begins, where
/// that slice is the one to share.
pub open spec fn weakest_is_a_range(
    caps: Seq<ModelCapacity>,
    model_id: Seq<char>,
    total: int,
) -> bool {
    find_model(caps, model_id, 0) matches Some(i) ==> {
        let slices = caps[i].slices@;
        first_gap(slices, total) is None && slices.len() > 0 ==> slices[weakest(
            slices,
        )].start_layer <= slices[weakest(slices)].end_layer
    }
}

/// Whether the weakest slice of the model does not end before it begins, where
/// that slice is the one to share.
pub fn can_assign(caps: &[ModelCapacity], model_id: &str, total_layers: u32) -> (r: bool)
    ensures
        r == weakest_is_a_range(caps@, model_id@, total_layers as int),
{
    match position_of(caps, model_id) {
        Some(i) => {
            let cap: &ModelCapacity = &caps[i];
            if first_coverage_gap_with_total(cap, total_layers).is_some() || cap.slices.len() == 0 {
                return true;
            }
            let w: SliceCoverage = cap.slices[find_weakest(&cap.slices)];
            w.start_layer <= w.end_layer
        },
        None => true,
    }
}

/// The layers of a model that a node takes which can hold `my_capacity_layers` of them.
pub fn assign_slice(
    caps: &[ModelCapacity],
    model_id: &str,
    total_layers: u32,
    my_capacity_layers: u32,
    target_replication: usize,
) -> (r: Option<SliceAssignment>)
    requires
        total_layers > 0 && my_capacity_layers > 0 ==> weakest_is_a_range(
            caps@,
            model_id@,
            total_layers as int,
        ),
    ensures
        match r {
            Some(a) => assignment(
                caps@,
                model_id@,
                total_layers as int,
                my_capacity_layers as int,
                target_replication as int,
            ) == Some(a@),
            None => assignment(
                caps@,
                model_id@,
                total_layers as int,
                my_capacity_layers as int,
                target_replication as int,
            ) is None,
        },
{
    if my_capacity_layers == 0 || total_layers == 0 {
        return None;
    }
    let room: u32 = if my_capacity_layers <= total_layers {
        my_capacity_layers
    } else {
        total_layers
    };
    let i: usize = match position_of(caps, model_id) {
        Some(i) => i,
        None => {
            return Some(
                SliceAssignment {
                    start: 0,
                    end: room,
                    reason: "bootstrap: first holder of this model".to_string(),
                },
            );
        },
    };
    let cap: &ModelCapacity = &caps[i];
    if let Some((start, end)) = first_coverage_gap_with_total(cap, total_layers) {
        proof {
            first_uncovered_is_it(cap.slices@, 0);
            lowest_start_is_above(cap.slices@, start as int);
        }
        let mut reason: String = "fill coverage gap ".to_string();
        reason.append(write_range(start, end).as_str());
        let end: u32 = if end - start <= room {
            end
        } else {
            start + room
        };
        return Some(SliceAssignment { start, end, reason });
    }
    if cap.slices.len() == 0 {
        return None;
    }
    let w: SliceCoverage = cap.slices[find_weakest(&cap.slices)];
    if w.end_layer - w.start_layer > room {
        return None;
    }
    let reason: String = if w.replicas < target_replication {
        let mut reason: String = "reinforce fragile slice ".to_string();
        reason.append(write_range(w.start_layer, w.end_layer).as_str());
        reason.append(" (");
        reason.append(text::decimal(w.replicas as u64).as_str());
        reason.append(" replica)");
        reason
    } else {
        "add redundancy".to_string()
    };
    Some(SliceAssignment { start: w.start_layer, end: w.end_layer, reason })
}

// ---------------------------------------------------------------------------
// Laws
// ---------------------------------------------------------------------------

proof fn tallies_agree(
    ps: Seq<crate::registry::PeerView>,
    model_id: Seq<char>,
    a: Seq<SliceCoverage>,
    b: Seq<SliceCoverage>,
    n: int,
)
    requires
        tallies(ps, model_id, a),
        tallies(ps, model_id, b),
        0 <= n <= a.len(),
    ensures
        n <= b.len(),
        forall|i: int| 0 <= i < n ==> #[trigger] a[i] == b[i],
    decreases n,
{
    if n > 0 {
        let k = n - 1;
        tallies_agree(ps, model_id, a, b, k);
        let x = a[k];
        assert(holders(ps, model_id, x.start_layer, x.end_layer) > 0);
        let j = choose|j: int|
            0 <= j < b.len() && (#[trigger] b[j]).start_layer == x.start_layer && b[j].end_layer
                == x.end_layer;
        if j < k {
            assert(a[j] == b[j]);
            assert(slice_before(a[j], a[k]));
        }
        if j > k {
            let y = b[k];
            assert(slice_before(b[k], b[j]));
            assert(holders(ps, model_id, y.start_layer, y.end_layer) > 0);
            let m = choose|m: int|
                0 <= m < a.len() && (#[trigger] a[m]).start_layer == y.start_layer && a[m].end_layer
                    == y.end_layer;
            if m < k {
                assert(a[m] == b[m]);
                assert(slice_before(b[m], b[k]));
            } else if m > k {
                assert(slice_before(a[k], a[m]));
            }
        }
    }
}

/// What peers hold of a model is tallied in one way only.
pub proof fn there_is_one_tally(
    ps: Seq<crate::registry::PeerView>,
    model_id: Seq<char>,
    a: Seq<SliceCoverage>,
    b: Seq<SliceCoverage>,
)
    requires
        tallies(ps, model_id, a),
        tallies(ps, model_id, b),
    ensures
        a == b,
{
    tallies_agree(ps, model_id, a, b, a.len() as int);
    tallies_agree(ps, model_id, b, a, b.len() as int);
    assert(a =~= b);
}

/// The holes from a layer on stand in order and inside the model, each with at
/// least one layer and none held, each ending where a held slice begins or at the
/// end of the model.
pub proof fn gaps_stand_in_order(slices: Seq<SliceCoverage>, total: int, c: int)
    requires
        0 <= c,
    ensures
        forall|k: int|
            #![trigger gaps_from(slices, total, c)[k]]
            0 <= k < gaps_from(slices, total, c).len() ==> {
                let (start, end) = gaps_from(slices, total, c)[k];
                &&& c <= start < end <= total
                &&& forall|l: int| start <= l < end ==> !covered(slices, l)
                &&& end == total || exists|i: int|
                    0 <= i < slices.len() && (#[trigger] slices[i]).replicas > 0
                        && slices[i].start_layer == end
            },
        forall|j: int, k: int|
            0 <= j < k < gaps_from(slices, total, c).len() ==> (#[trigger] gaps_from(
                slices,
                total,
                c,
            )[j]).1 <= (#[trigger] gaps_from(slices, total, c)[k]).0,
    decreases
            (if c < total {
                total - c
            } else {
                0
            }),
{
    let hole = first_uncovered(slices, c);
    first_uncovered_is_it(slices, c);
    lowest_start_is_above(slices, hole);
    if hole < total {
        let end = hole_end(slices, total, hole);
        gaps_stand_in_order(slices, total, end);
        let rest = gaps_from(slices, total, end);
        let all = gaps_from(slices, total, c);
        assert forall|l: int| hole <= l < end implies !covered(slices, l) by {
            if covered(slices, l) {
                let i = choose|i: int| 0 <= i < slices.len() && covers(#[trigger] slices[i], l);
                assert(covers(slices[i], l));
                if slices[i].start_layer <= hole {
                    assert(covers(slices[i], hole));
                    assert(covered(slices, hole));
                }
            }
        }
        assert forall|k: int|
            #![trigger all[k]]
            0 <= k < all.len() implies {
            let (start, stop) = all[k];
            &&& c <= start < stop <= total
            &&& forall|l: int| start <= l < stop ==> !covered(slices, l)
            &&& stop == total || exists|i: int|
                0 <= i < slices.len() && (#[trigger] slices[i]).replicas > 0
                    && slices[i].start_layer == stop
        } by {
            if k > 0 {
                assert(all[k] == rest[k - 1]);
            }
        }
        assert forall|j: int, k: int| 0 <= j < k < all.len() implies (#[trigger] all[j]).1 <= (
        #[trigger] all[k]).0 by {
            assert(all[k] == rest[k - 1]);
            if j > 0 {
                assert(all[j] == rest[j - 1]);
            }
        }
    }
}

proof fn gaps_hold_every_hole(slices: Seq<SliceCoverage>, total: int, c: int, l: int)
    requires
        0 <= c <= l < total,
        !covered(slices, l),
    ensures
        exists|k: int|
            0 <= k < gaps_from(slices, total, c).len() && (#[trigger] gaps_from(
                slices,
                total,
                c,
            )[k]).0 <= l < gaps_from(slices, total, c)[k].1,
    decreases total - c,
{
    let hole = first_uncovered(slices, c);
    first_uncovered_is_it(slices, c);
    lowest_start_is_above(slices, hole);
    if l < hole {
        assert(covered(slices, l));
    }
    let end = hole_end(slices, total, hole);
    let all = gaps_from(slices, total, c);
    assert(all[0] == (hole, end));
    if l >= end {
        gaps_hold_every_hole(slices, total, end, l);
        let rest = gaps_from(slices, total, end);
        let k = choose|k: int|
            0 <= k < rest.len() && (#[trigger] rest[k]).0 <= l < rest[k].1;
        assert(all[k + 1] == rest[k]);
    }
}

/// A layer of the model lies in one of the holes exactly where no node holds it.
pub proof fn the_gaps_are_what_no_node_holds(slices: Seq<SliceCoverage>, total: int, l: int)
    requires
        0 <= l < total,
    ensures
        !covered(slices, l) <==> exists|k: int|
            0 <= k < gaps(slices, total).len() && (#[trigger] gaps(slices, total)[k]).0 <= l
                < gaps(slices, total)[k].1,
{
    gaps_stand_in_order(slices, total, 0);
    let all = gaps_from(slices, total, 0);
    if !covered(slices, l) {
        gaps_hold_every_hole(slices, total, 0, l);
        let k = choose|k: int| 0 <= k < all.len() && (#[trigger] all[k]).0 <= l < all[k].1;
        assert(gaps(slices, total)[k].0 <= l < gaps(slices, total)[k].1);
    }
    if exists|k: int| 0 <= k < all.len() && (#[trigger] all[k]).0 <= l < all[k].1 {
        let k = choose|k: int| 0 <= k < all.len() && (#[trigger] all[k]).0 <= l < all[k].1;
        assert(!covered(slices, l));
    }
}

/// A model with layers can be served exactly where it has no hole.
pub proof fn a_model_is_servable_without_gaps(slices: Seq<SliceCoverage>, total: int)
    requires
        total > 0,
    ensures
        fully_covered(slices, total) <==> gaps(slices, total).len() == 0,
        first_gap(slices, total) is None <==> gaps(slices, total).len() == 0,
        gaps(slices, total).len() > 0 ==> (first_gap(slices, total) matches Some((start, end))
            && gaps(slices, total)[0] == (
            start,
            if end < total {
                end
            } else {
                total
            },
        )),
{
    first_uncovered_is_it(slices, 0);
    if gaps(slices, total).len() > 0 {
        gaps_stand_in_order(slices, total, 0);
        let (start, end) = gaps(slices, total)[0];
        assert(!covered(slices, start));
    } else {
        assert forall|l: int| 0 <= l < total implies covered(slices, l) by {
            the_gaps_are_what_no_node_holds(slices, total, l);
        }
    }
}

proof fn nothing_is_held_before_the_next(slices: Seq<SliceCoverage>, total: int, hole: int, l: int)
    requires
        hole < total,
        !covered(slices, hole),
        hole <= l < next_held(slices, total, hole),
    ensures
        !covered(slices, l),
{
    lowest_start_is_above(slices, hole);
    if covered(slices, l) {
        let i = choose|i: int| 0 <= i < slices.len() && covers(#[trigger] slices[i], l);
        if slices[i].start_layer <= hole {
            assert(covers(slices[i], hole));
        }
    }
}

/// A node is never assigned more layers than it can hold, nor an empty part of
/// a hole; and what it fills begins in the model and was held by nobody.
pub proof fn an_assignment_fits(
    caps: Seq<ModelCapacity>,
    model_id: Seq<char>,
    total: int,
    capacity: int,
    target: int,
)
    requires
        total >= 0,
        capacity >= 0,
        assignment(caps, model_id, total, capacity, target) is Some,
    ensures
        ({
            let a = assignment(caps, model_id, total, capacity, target).unwrap();
            &&& a.end - a.start <= capacity
            &&& find_model(caps, model_id, 0) is None ==> a.start == 0 < a.end <= total
            &&& find_model(caps, model_id, 0) matches Some(i) ==> (first_gap(
                caps[i].slices@,
                total,
            ) is Some ==> a.start < a.end && a.start < total && forall|l: int|
                a.start <= l < a.end ==> !covered(caps[i].slices@, l))
        }),
{
    match find_model(caps, model_id, 0) {
        Some(i) => {
            let slices = caps[i].slices@;
            let hole = first_uncovered(slices, 0);
            first_uncovered_is_it(slices, 0);
            lowest_start_is_above(slices, hole);
            if first_gap(slices, total) is Some {
                let a = assignment(caps, model_id, total, capacity, target).unwrap();
                assert forall|l: int| a.start <= l < a.end implies !covered(slices, l) by {
                    nothing_is_held_before_the_next(slices, total, hole, l);
                }
            }
        },
        None => {},
    }
}

/// An assignment stays in the model, but for two cases: a part of a hole may run on
/// to a slice that was announced behind the end of the model, and a slice that is
/// doubled may itself reach past it.
pub proof fn an_assignment_stays_in_the_model(
    caps: Seq<ModelCapacity>,
    model_id: Seq<char>,
    total: int,
    capacity: int,
    target: int,
)
    requires
        total >= 0,
        capacity >= 0,
        assignment(caps, model_id, total, capacity, target) is Some,
        find_model(caps, model_id, 0) matches Some(i) ==> match first_gap(caps[i].slices@, total) {
            Some((start, end)) => end <= total || start + capacity <= total,
            None => caps[i].slices@[weakest(caps[i].slices@)].end_layer <= total,
        },
    ensures
        assignment(caps, model_id, total, capacity, target).unwrap().end <= total,
{
}

/// A layer counts as held exactly where a peer announced a slice of the model with it.
pub proof fn a_layer_is_held_by_a_peer(
    ps: Seq<crate::registry::PeerView>,
    model_id: Seq<char>,
    slices: Seq<SliceCoverage>,
    l: int,
)
    requires
        tallies(ps, model_id, slices),
    ensures
        covered(slices, l) <==> exists|j: int|
            0 <= j < ps.len() && (#[trigger] ps[j]).model_id == model_id && ps[j].start_layer <= l
                < ps[j].end_layer,
{
    if covered(slices, l) {
        let i = choose|i: int| 0 <= i < slices.len() && covers(#[trigger] slices[i], l);
        let s = slices[i];
        let pred = crate::registry::holds_slice(model_id, s.start_layer, s.end_layer);
        assert(ps.filter(pred).len() > 0);
        crate::lists::filtered_was_there(ps, pred, 0);
        let j = choose|j: int| 0 <= j < ps.len() && #[trigger] ps[j] == ps.filter(pred)[0];
        assert(ps[j].model_id == model_id && ps[j].start_layer <= l < ps[j].end_layer);
    }
    if exists|j: int|
        0 <= j < ps.len() && (#[trigger] ps[j]).model_id == model_id && ps[j].start_layer <= l
            < ps[j].end_layer {
        let j = choose|j: int|
            0 <= j < ps.len() && (#[trigger] ps[j]).model_id == model_id && ps[j].start_layer <= l
                < ps[j].end_layer;
        let p = ps[j];
        let pred = crate::registry::holds_slice(model_id, p.start_layer, p.end_layer);
        crate::lists::passing_is_left(ps, pred, j);
        assert(holders(ps, model_id, p.start_layer, p.end_layer) > 0);
        let i = choose|i: int|
            0 <= i < slices.len() && (#[trigger] slices[i]).start_layer == p.start_layer
                && slices[i].end_layer == p.end_layer;
        assert(covers(slices[i], l));
    }
}

proof fn the_greatest_is_reported(ps: Seq<crate::registry::PeerView>, model_id: Seq<char>)
    ensures
        forall|j: int|
            0 <= j < ps.len() && (#[trigger] ps[j]).model_id == model_id ==> ps[j].total_layers
                <= reported_depth(ps, model_id) && ps[j].end_layer <= greatest_end(ps, model_id),
        reported_depth(ps, model_id) > 0 ==> exists|j: int|
            0 <= j < ps.len() && (#[trigger] ps[j]).model_id == model_id && ps[j].total_layers
                == reported_depth(ps, model_id),
        greatest_end(ps, model_id) > 0 ==> exists|j: int|
            0 <= j < ps.len() && (#[trigger] ps[j]).model_id == model_id && ps[j].end_layer
                == greatest_end(ps, model_id),
    decreases ps.len(),
{
    if ps.len() > 0 {
        let init = ps.drop_last();
        let last = ps.len() - 1;
        the_greatest_is_reported(init, model_id);
        assert forall|j: int| 0 <= j < init.len() implies #[trigger] ps[j] == init[j] by {}
        if reported_depth(ps, model_id) > 0 {
            if reported_depth(ps, model_id) == reported_depth(init, model_id) {
                let j = choose|j: int|
                    0 <= j < init.len() && (#[trigger] init[j]).model_id == model_id
                        && init[j].total_layers == reported_depth(init, model_id);
                assert(ps[j].model_id == model_id);
            } else {
                assert(ps[last].model_id == model_id);
            }
        }
        if greatest_end(ps, model_id) > 0 {
            if greatest_end(ps, model_id) == greatest_end(init, model_id) {
                let j = choose|j: int|
                    0 <= j < init.len() && (#[trigger] init[j]).model_id == model_id
                        && init[j].end_layer == greatest_end(init, model_id);
                assert(ps[j].model_id == model_id);
            } else {
                assert(ps[last].model_id == model_id);
            }
        }
    }
}

/// The depth of a model is one that a holder told, and none told a greater; where nobody
/// told any, it is where the holders reach, and none reaches further.
pub proof fn the_depth_is_the_greatest_told(
    ps: Seq<crate::registry::PeerView>,
    model_id: Seq<char>,
    j: int,
)
    requires
        0 <= j < ps.len(),
        ps[j].model_id == model_id,
    ensures
        ps[j].total_layers <= depth(ps, model_id),
        (forall|k: int|
            0 <= k < ps.len() && (#[trigger] ps[k]).model_id == model_id ==> ps[k].total_layers
                == 0) ==> ps[j].end_layer <= depth(ps, model_id),
        depth(ps, model_id) > 0 ==> exists|k: int|
            0 <= k < ps.len() && (#[trigger] ps[k]).model_id == model_id && (ps[k].total_layers
                == depth(ps, model_id) || ps[k].end_layer == depth(ps, model_id)),
        ps[j].total_layers > 0 ==> exists|k: int|
            0 <= k < ps.len() && (#[trigger] ps[k]).model_id == model_id && ps[k].total_layers
                == depth(ps, model_id),
{
    the_greatest_is_reported(ps, model_id);
}

/// A model is robust exactly where a node holds each of its layers and every slice of it
/// is held as often as it should be.
pub proof fn a_robust_model_is_held_often_enough(
    cap: ModelCapacity,
    ps: Seq<crate::registry::PeerView>,
    target: nat,
)
    requires
        describes(cap, ps, cap.model_id@),
        target > 0,
    ensures
        robust(cap, target) <==> fully_covered(cap.slices@, cap.total_layers as int) && forall|
            i: int,
        |
            0 <= i < cap.slices@.len() ==> (#[trigger] cap.slices@[i]).replicas >= target,
{
    if cap.servable {
        assert(covered(cap.slices@, 0));
        the_weakest_is_the_first_of_the_fewest(cap.slices@);
    }
}

/// One more node is asked to fill the first hole of a model where it has one: from the
/// first layer that no node holds to where the next held slice begins. Only a model
/// without holes is reinforced, and then where the fewest nodes hold it.
pub proof fn holes_are_filled_first(cap: ModelCapacity)
    requires
        cap.slices@.len() > 0,
        cap.total_layers > 0,
    ensures
        match best_placement(cap) {
            Placement::FillMissing { start, end } => {
                &&& start < cap.total_layers
                &&& start < end
                &&& forall|l: int| 0 <= l < start ==> covered(cap.slices@, l)
                &&& forall|l: int| start <= l < end ==> !covered(cap.slices@, l)
                &&& end == cap.total_layers || exists|i: int|
                    0 <= i < cap.slices@.len() && (#[trigger] cap.slices@[i]).replicas > 0
                        && cap.slices@[i].start_layer == end
            },
            Placement::ReinforceWeak { start, end, current_replicas } => {
                &&& fully_covered(cap.slices@, cap.total_layers as int)
                &&& exists|i: int|
                    0 <= i < cap.slices@.len() && (#[trigger] cap.slices@[i]).start_layer == start
                        && cap.slices@[i].end_layer == end && cap.slices@[i].replicas
                        == current_replicas
                &&& forall|i: int|
                    0 <= i < cap.slices@.len() ==> (#[trigger] cap.slices@[i]).replicas
                        >= current_replicas
            },
            Placement::ModelNotPresent => false,
        },
{
    let total = cap.total_layers as int;
    let hole = first_uncovered(cap.slices@, 0);
    first_uncovered_is_it(cap.slices@, 0);
    lowest_start_is_above(cap.slices@, hole);
    a_model_is_servable_without_gaps(cap.slices@, total);
    the_weakest_is_the_first_of_the_fewest(cap.slices@);
    if hole < total {
        let end = next_held(cap.slices@, total, hole);
        assert forall|l: int| hole <= l < end implies !covered(cap.slices@, l) by {
            nothing_is_held_before_the_next(cap.slices@, total, hole, l);
        }
    } else {
        let w = cap.slices@[weakest(cap.slices@)];
        assert(w.replicas == best_placement(cap)->current_replicas);
    }
}

/// A node takes all that it can hold of the first hole of a model: the hole to its end, or
/// as many layers as it has room for. Of a model that nobody has it takes the first
/// layers. It goes without only where it has no room at all, or where nothing is missing
/// and the weakest slice is larger than its room.
pub proof fn an_assignment_takes_all_it_can(
    caps: Seq<ModelCapacity>,
    model_id: Seq<char>,
    total: int,
    capacity: int,
    target: int,
)
    requires
        0 < total,
        0 < capacity,
    ensures
        ({
            let a = assignment(caps, model_id, total, capacity, target);
            match find_model(caps, model_id, 0) {
                None => a matches Some(a) && a.start == 0 && (a.end == capacity || (a.end == total
                    && total < capacity)) && a.end <= capacity,
                Some(i) => {
                    let hole = first_uncovered(caps[i].slices@, 0);
                    if hole < total {
                        a matches Some(a) && a.start == hole && (a.end == next_held(
                            caps[i].slices@,
                            total,
                            hole,
                        ) || a.end - a.start == capacity || a.end - a.start == total) && a.end
                            <= next_held(caps[i].slices@, total, hole)
                    } else {
                        let w = caps[i].slices@[weakest(caps[i].slices@)];
                        match a {
                            Some(a) => a.start == w.start_layer && a.end == w.end_layer
                                && caps[i].slices@.len() > 0,
                            None => caps[i].slices@.len() == 0 || w.end_layer - w.start_layer
                                > capacity || w.end_layer - w.start_layer > total,
                        }
                    }
                },
            }
        }),
        assignment(caps, model_id, total, 0, target) is None,
        assignment(caps, model_id, 0, capacity, target) is None,
{
}

/// Just the slices that nobody holds are missing, in their order.
pub proof fn what_nobody_holds_is_missing(slices: Seq<SliceCoverage>)
    ensures
        unheld(slices) == slices.filter(|s: SliceCoverage| s.replicas == 0).map_values(
            |s: SliceCoverage| (s.start_layer, s.end_layer),
        ),
    decreases slices.len(),
{
    reveal(Seq::filter);
    let none = |s: SliceCoverage| s.replicas == 0;
    let range = |s: SliceCoverage| (s.start_layer, s.end_layer);
    if slices.len() > 0 {
        what_nobody_holds_is_missing(slices.drop_last());
        if slices.last().replicas == 0 {
            assert(slices.filter(none) == slices.drop_last().filter(none).push(slices.last()));
        }
    }
    assert(unheld(slices) =~= slices.filter(none).map_values(range));
}

/// While a model can be served nobody falls back from it. What is fallen back to can be
/// served, no model that can be is deeper, and it is another model than the one that was
/// lost, where each model is listed once.
pub proof fn a_fallback_can_be_served(caps: Seq<ModelCapacity>, current: Seq<char>)
    ensures
        is_servable(caps, current) ==> fallback_for(caps, current) is None,
        match fallback_for(caps, current) {
            Some(b) => 0 <= b < caps.len() && caps[b].servable && (forall|i: int|
                0 <= i < caps.len() && (#[trigger] caps[i]).servable ==> caps[i].total_layers
                    <= caps[b].total_layers) && (text::ascending(model_ids(caps))
                ==> caps[b].model_id@ != current),
            None => is_servable(caps, current) || forall|i: int|
                0 <= i < caps.len() ==> !(#[trigger] caps[i]).servable,
        },
{
    the_best_servable_is_the_deepest(caps);
    a_found_model_is_the_one(caps, current, 0);
    if fallback_for(caps, current) is Some && text::ascending(model_ids(caps)) {
        let b = fallback_for(caps, current).unwrap();
        if caps[b].model_id@ == current {
            let i = find_model(caps, current, 0).unwrap();
            assert(i != b);
            assert(model_ids(caps)[i] == current && model_ids(caps)[b] == current);
            text::before_is_irreflexive(current);
            if i < b {
                assert(text::before(model_ids(caps)[i], model_ids(caps)[b]));
            } else {
                assert(text::before(model_ids(caps)[b], model_ids(caps)[i]));
            }
        }
    }
}

/// The weakest slice is told exactly where there is any, and it is one that the fewest nodes
/// hold. How few these are counts only for a model that can be served.
pub proof fn the_weakest_slice_is_told(cap: ModelCapacity, ps: Seq<crate::registry::PeerView>)
    requires
        describes(cap, ps, cap.model_id@),
    ensures
        cap.weakest_slice is None <==> cap.slices@.len() == 0,
        cap.weakest_slice matches Some((start, end)) ==> exists|i: int|
            0 <= i < cap.slices@.len() && (#[trigger] cap.slices@[i]).start_layer == start
                && cap.slices@[i].end_layer == end && (cap.servable ==> cap.slices@[i].replicas
                == cap.min_replicas) && forall|j: int|
                0 <= j < cap.slices@.len() ==> (#[trigger] cap.slices@[j]).replicas
                    >= cap.slices@[i].replicas,
        !cap.servable ==> cap.min_replicas == 0,
{
    if cap.slices@.len() > 0 {
        the_weakest_is_the_first_of_the_fewest(cap.slices@);
        let w = weakest(cap.slices@);
        assert(cap.slices@[w].start_layer == cap.weakest_slice.unwrap().0);
    }
}

} // verus!
