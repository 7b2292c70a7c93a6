//! What a sweep over a route comes to in which spares are recruited for the stages
//! that have too few replicas.

use vstd::prelude::*;

verus! {

/// The stages after a spare was taken into one of them.
pub open spec fn with_recruit(
    stages: Seq<crate::orchestrator::StageView>,
    stage: int,
    ep: Seq<char>,
) -> Seq<crate::orchestrator::StageView> {
    let s = stages[stage];
    let r = crate::orchestrator::ReplicaView::Local { endpoint: ep, alive: true };
    stages.update(
        stage,
        crate::orchestrator::StageView { replicas: s.replicas.push(r), ..s },
    )
}

/// The rounds for one stage, and how many spares they took in. In each round the
/// first spare that is free is asked to load the slice, as long as too few
/// replicas answer; `loads` says which can. The rounds end with one that cannot.
pub open spec fn rounds(
    stages: Seq<crate::orchestrator::StageView>,
    stage: int,
    spares: Seq<String>,
    target: nat,
    loads: spec_fn(Seq<char>, int) -> bool,
) -> (Seq<crate::orchestrator::StageView>, nat)
    decreases target - crate::orchestrator::alive_count(stages[stage].replicas),
{
    if stage < 0 || stage >= stages.len() {
        (stages, 0)
    } else {
        match crate::orchestrator::next_spare(stages, stage, spares, target) {
            Some(k) => if loads(spares[k]@, stage) {
                let next = with_recruit(stages, stage, spares[k]@);
                proof {
                    crate::orchestrator::a_recruit_strengthens_the_stage(
                        stages,
                        stage,
                        spares[k]@,
                    );
                }
                let (after, n) = rounds(next, stage, spares, target, loads);
                (after, n + 1)
            } else {
                (stages, 0)
            },
            None => (stages, 0),
        }
    }
}

/// The rounds for the first `n` stages, one after the other, and how many spares
/// they took in.
pub open spec fn sweep(
    stages: Seq<crate::orchestrator::StageView>,
    n: int,
    spares: Seq<String>,
    target: nat,
    loads: spec_fn(Seq<char>, int) -> bool,
) -> (Seq<crate::orchestrator::StageView>, nat)
    decreases n,
{
    if n <= 0 {
        (stages, 0)
    } else {
        let (before, a) = sweep(stages, n - 1, spares, target, loads);
        let (after, b) = rounds(before, n - 1, spares, target, loads);
        (after, a + b)
    }
}

/// How many replicas the stages have.
pub open spec fn replica_count(stages: Seq<crate::orchestrator::StageView>) -> nat
    decreases stages.len(),
{
    if stages.len() == 0 {
        0
    } else {
        replica_count(stages.drop_last()) + stages.last().replicas.len()
    }
}

/// A stage is the same but for replicas of this machine that were added behind the
/// others, and all of these answer. Where any was added, no more answer than
/// should.
pub open spec fn only_added(
    before: crate::orchestrator::StageView,
    after: crate::orchestrator::StageView,
    target: nat,
) -> bool {
    let n = before.replicas.len();
    &&& after == (crate::orchestrator::StageView { replicas: after.replicas, ..before })
    &&& after.replicas.len() >= n
    &&& after.replicas.take(n as int) == before.replicas
    &&& forall|i: int|
        n <= i < after.replicas.len() ==> (#[trigger] after.replicas[i]) is Local
            && after.replicas[i].is_alive()
    &&& crate::orchestrator::alive_count(after.replicas) == crate::orchestrator::alive_count(
        before.replicas,
    ) + (after.replicas.len() - n)
    &&& after.replicas.len() > n ==> crate::orchestrator::alive_count(after.replicas) <= target
}

proof fn count_updated(
    stages: Seq<crate::orchestrator::StageView>,
    i: int,
    s: crate::orchestrator::StageView,
)
    requires
        0 <= i < stages.len(),
    ensures
        replica_count(stages.update(i, s)) == replica_count(stages) - stages[i].replicas.len()
            + s.replicas.len(),
    decreases stages.len(),
{
    let init = stages.drop_last();
    if i == stages.len() - 1 {
        assert(stages.update(i, s).drop_last() =~= init);
    } else {
        count_updated(init, i, s);
        assert(stages.update(i, s).drop_last() =~= init.update(i, s));
    }
}

proof fn rounds_only_add(
    stages: Seq<crate::orchestrator::StageView>,
    stage: int,
    spares: Seq<String>,
    target: nat,
    loads: spec_fn(Seq<char>, int) -> bool,
)
    requires
        0 <= stage < stages.len(),
    ensures
        ({
            let (after, n) = rounds(stages, stage, spares, target, loads);
            &&& after.len() == stages.len()
            &&& only_added(stages[stage], after[stage], target)
            &&& forall|i: int| 0 <= i < stages.len() && i != stage ==> #[trigger] after[i]
                == stages[i]
            &&& replica_count(after) == replica_count(stages) + n
            &&& after[stage].replicas.len() == stages[stage].replicas.len() + n
        }),
    decreases target - crate::orchestrator::alive_count(stages[stage].replicas),
{
    let s = stages[stage];
    assert(s.replicas.take(s.replicas.len() as int) =~= s.replicas);
    if crate::orchestrator::alive_count(s.replicas) < target {
        if let Some(k) = crate::orchestrator::free_spare(stages, spares, 0) {
            if loads(spares[k]@, stage) {
                let next = with_recruit(stages, stage, spares[k]@);
                crate::orchestrator::a_recruit_strengthens_the_stage(stages, stage, spares[k]@);
                count_updated(stages, stage, next[stage]);
                rounds_only_add(next, stage, spares, target, loads);
                let (after, n) = rounds(next, stage, spares, target, loads);
                let grown = next[stage].replicas;
                assert(after[stage].replicas.take(s.replicas.len() as int) =~= grown.take(
                    s.replicas.len() as int,
                ));
                assert(grown.take(s.replicas.len() as int) =~= s.replicas);
                assert forall|i: int| s.replicas.len() <= i < after[stage].replicas.len() implies (
                #[trigger] after[stage].replicas[i]) is Local
                    && after[stage].replicas[i].is_alive() by {
                    if i == s.replicas.len() {
                        assert(after[stage].replicas.take(grown.len() as int)[i] == grown[i]);
                    }
                }
                assert forall|i: int| 0 <= i < stages.len() && i != stage implies #[trigger] after[i]
                    == stages[i] by {
                    assert(next[i] == stages[i]);
                }
            }
        }
    }
}

/// A sweep takes nothing away: the replicas of each stage stay, in their order, and
/// what is added stands behind them. It adds no more to a stage than it should
/// have, and it counts exactly what it adds.
pub proof fn a_sweep_only_adds(
    stages: Seq<crate::orchestrator::StageView>,
    n: int,
    spares: Seq<String>,
    target: nat,
    loads: spec_fn(Seq<char>, int) -> bool,
)
    requires
        0 <= n <= stages.len(),
    ensures
        ({
            let (after, recruited) = sweep(stages, n, spares, target, loads);
            &&& after.len() == stages.len()
            &&& forall|i: int|
                0 <= i < n ==> only_added(#[trigger] stages[i], after[i], target)
            &&& forall|i: int| n <= i < stages.len() ==> #[trigger] after[i] == stages[i]
            &&& replica_count(after) == replica_count(stages) + recruited
        }),
    decreases n,
{
    if n > 0 {
        a_sweep_only_adds(stages, n - 1, spares, target, loads);
        let (before, a) = sweep(stages, n - 1, spares, target, loads);
        rounds_only_add(before, n - 1, spares, target, loads);
        let (after, b) = rounds(before, n - 1, spares, target, loads);
        assert(before[n - 1] == stages[n - 1]);
        assert forall|i: int| 0 <= i < n implies only_added(
            #[trigger] stages[i],
            after[i],
            target,
        ) by {
            if i < n - 1 {
                assert(after[i] == before[i]);
            }
        }
        assert forall|i: int| n <= i < stages.len() implies #[trigger] after[i] == stages[i] by {
            assert(after[i] == before[i]);
        }
    }
}

proof fn rounds_end_for_a_reason(
    stages: Seq<crate::orchestrator::StageView>,
    stage: int,
    spares: Seq<String>,
    target: nat,
    loads: spec_fn(Seq<char>, int) -> bool,
)
    requires
        0 <= stage < stages.len(),
    ensures
        ({
            let after = rounds(stages, stage, spares, target, loads).0;
            &&& after.len() == stages.len()
            &&& crate::orchestrator::alive_count(after[stage].replicas) >= target || match
                crate::orchestrator::free_spare(after, spares, 0) {
                Some(k) => !loads(spares[k]@, stage),
                None => true,
            }
        }),
    decreases target - crate::orchestrator::alive_count(stages[stage].replicas),
{
    if crate::orchestrator::alive_count(stages[stage].replicas) < target {
        if let Some(k) = crate::orchestrator::free_spare(stages, spares, 0) {
            if loads(spares[k]@, stage) {
                crate::orchestrator::a_recruit_strengthens_the_stage(stages, stage, spares[k]@);
                rounds_end_for_a_reason(
                    with_recruit(stages, stage, spares[k]@),
                    stage,
                    spares,
                    target,
                    loads,
                );
            }
        }
    }
}

/// The rounds for a stage end with as many replicas that answer as there should
/// be, unless no spare was free any more or the next one could not load the slice.
pub proof fn a_stage_is_brought_up_to_strength(
    stages: Seq<crate::orchestrator::StageView>,
    stage: int,
    spares: Seq<String>,
    target: nat,
    loads: spec_fn(Seq<char>, int) -> bool,
)
    requires
        0 <= stage < stages.len(),
    ensures
        ({
            let after = rounds(stages, stage, spares, target, loads).0;
            crate::orchestrator::alive_count(after[stage].replicas) >= target || match
                crate::orchestrator::free_spare(after, spares, 0) {
                Some(k) => !loads(spares[k]@, stage),
                None => forall|i: int|
                    0 <= i < spares.len() ==> crate::orchestrator::in_use(
                        after,
                        (#[trigger] spares[i])@,
                    ),
            }
        }),
{
    rounds_end_for_a_reason(stages, stage, spares, target, loads);
    crate::orchestrator::a_free_spare_is_not_in_use(
        rounds(stages, stage, spares, target, loads).0,
        spares,
        0,
    );
}

} // verus!
