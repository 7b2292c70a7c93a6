//! What an answer comes to when replicas die under it.
//!
//! The nodes are modelled here with what each of them holds of a session: a
//! replica that runs the tokens of a step goes on from what it ran before, and a
//! standby has run nothing. What a replica computes is a function of its layers
//! and of what it has run, and the same whichever replica of a stage runs it. A
//! replica that is asked over a relay is not told to forget a session: the laws speak
//! of sessions that are clean, of which none goes on from what such a one still holds.

use vstd::prelude::*;

use crate::generation::{Came, Sending, StepAction, StepRun};
use crate::orchestrator::{Outcome, DECODE_TOP_K, MAX_REPLAYS};

verus! {

// ---------------------------------------------------------------------------
// The model that the stages run
// ---------------------------------------------------------------------------

/// A model that is run in stages, over activations of any kind.
#[verifier::reject_recursive_types(A)]
pub struct Layers<A> {
    /// A token as it enters the first stage.
    pub embed: spec_fn(i64) -> A,
    /// What a stage gives at a place, of all that stands up to there.
    pub run: spec_fn(int, Seq<A>) -> A,
    /// The token that is drawn from what the last stage gives, where one can be.
    pub pick: spec_fn(A) -> Option<i64>,
}

impl<A> Layers<A> {
    /// Tokens as they enter the first stage.
    pub open spec fn embedded(self, ids: Seq<i64>) -> Seq<A> {
        Seq::new(ids.len(), |i: int| (self.embed)(ids[i]))
    }

    /// What a stage gives for all of its input.
    pub open spec fn outputs(self, stage: int, xs: Seq<A>) -> Seq<A> {
        Seq::new(xs.len(), |p: int| (self.run)(stage, xs.take(p + 1)))
    }

    /// What the first `n` stages give, one after the other.
    pub open spec fn through(self, n: int, xs: Seq<A>) -> Seq<A>
        decreases n,
    {
        if n <= 0 {
            xs
        } else {
            self.outputs(n - 1, self.through(n - 1, xs))
        }
    }

    /// The token that is drawn from what came out of the last stage.
    pub open spec fn drawn(self, out: Seq<A>) -> Option<i64> {
        if out.len() == 0 {
            None
        } else {
            (self.pick)(out.last())
        }
    }
}

proof fn what_comes_later_changes_nothing<A>(l: Layers<A>, n: int, xs: Seq<A>, k: int)
    requires
        0 <= k <= xs.len(),
    ensures
        l.through(n, xs).len() == xs.len(),
        l.through(n, xs).take(k) == l.through(n, xs.take(k)),
    decreases n,
{
    if n > 0 {
        what_comes_later_changes_nothing(l, n - 1, xs, k);
        let inner = l.through(n - 1, xs);
        assert forall|p: int| 0 <= p < k implies l.through(n, xs).take(k)[p] == l.through(
            n,
            xs.take(k),
        )[p] by {
            assert(inner.take(k).take(p + 1) =~= inner.take(p + 1));
        }
        assert(l.through(n, xs).take(k) =~= l.through(n, xs.take(k)));
    }
}

// ---------------------------------------------------------------------------
// The nodes
// ---------------------------------------------------------------------------

/// The stages of a route, and what each replica holds of a session.
#[verifier::ext_equal]
#[verifier::reject_recursive_types(A)]
pub struct Net<A> {
    pub stages: Seq<crate::orchestrator::StageView>,
    /// By stage and replica: the input that it has run.
    pub held: Seq<Seq<Seq<A>>>,
}

/// What came of a pass through the stages.
#[verifier::reject_recursive_types(A)]
pub enum Way<A> {
    /// It came through, with this.
    Through(Seq<A>),
    /// A replica that was asked did not answer.
    Broken { stage: int, replica: int },
    /// A stage had no replica to ask.
    Exhausted,
}

impl<A> Way<A> {
    /// What the step sees of it.
    pub open spec fn came(self) -> Came {
        match self {
            Way::Through(_) => Came::Through,
            Way::Broken { .. } => Came::Broken,
            Way::Exhausted => Came::Failed,
        }
    }
}

/// Whether a replica counts as alive.
pub open spec fn alive_at(
    stages: Seq<crate::orchestrator::StageView>,
    stage: int,
    replica: int,
) -> bool {
    stages[stage].replicas[replica].is_alive()
}

/// The same replica, whether it counts as alive and whichever version it speaks.
pub open spec fn same_replica(
    a: crate::orchestrator::ReplicaView,
    b: crate::orchestrator::ReplicaView,
) -> bool {
    a.with_alive(true).with_version(0) == b.with_alive(true).with_version(0)
}

/// The same stages with the same replicas in the same places.
pub open spec fn same_places(
    a: Seq<crate::orchestrator::StageView>,
    b: Seq<crate::orchestrator::StageView>,
) -> bool {
    &&& a.len() == b.len()
    &&& forall|i: int| 0 <= i < a.len() ==> (#[trigger] a[i]).replicas.len() == b[i].replicas.len()
    &&& forall|i: int, r: int|
        0 <= i < a.len() && 0 <= r < a[i].replicas.len() ==> same_replica(
            #[trigger] a[i].replicas[r],
            b[i].replicas[r],
        )
}

impl<A> Net<A> {
    /// Something is known of each replica.
    pub open spec fn fits(self) -> bool {
        &&& self.held.len() == self.stages.len()
        &&& forall|i: int|
            0 <= i < self.stages.len() ==> (#[trigger] self.held[i]).len()
                == self.stages[i].replicas.len()
    }

    /// No replica holds anything of the session.
    pub open spec fn is_fresh(self) -> bool {
        forall|i: int, r: int|
            0 <= i < self.stages.len() && 0 <= r < self.stages[i].replicas.len() ==> (
            #[trigger] self.held[i][r]).len() == 0
    }

    /// Every replica is told to forget a session: none is asked over a relay.
    pub open spec fn forgets(self) -> bool {
        forall|i: int, r: int|
            0 <= i < self.stages.len() && 0 <= r < self.stages[i].replicas.len()
                ==> crate::orchestrator::can_be_told(#[trigger] self.stages[i].replicas[r])
    }

    /// The replica that a stage asks.
    pub open spec fn asked(self, stage: int) -> Option<int> {
        crate::orchestrator::next_alive(self.stages[stage].replicas, 0)
    }

    /// A replica answered: it has run the input too.
    pub open spec fn after_answer(
        self,
        stage: int,
        replica: int,
        input: Seq<A>,
        outcome: Outcome,
    ) -> Net<A> {
        Net {
            stages: self.stages.update(
                stage,
                crate::orchestrator::after_attempt(self.stages[stage], replica, outcome),
            ),
            held: self.held.update(
                stage,
                self.held[stage].update(replica, self.held[stage][replica] + input),
            ),
        }
    }

    /// A replica did not answer.
    pub open spec fn after_failure(self, stage: int, replica: int) -> Net<A> {
        Net {
            stages: self.stages.update(
                stage,
                crate::orchestrator::after_attempt(self.stages[stage], replica, Outcome::Failed),
            ),
            ..self
        }
    }

    /// Every replica was told to forget the session. One that answers does; one
    /// that is asked over a relay is not told.
    pub open spec fn cleared(self, tells: spec_fn(int, int) -> Outcome) -> Net<A> {
        Net {
            held: Seq::new(
                self.held.len(),
                |i: int|
                    Seq::new(
                        self.held[i].len(),
                        |r: int|
                            if tells(i, r) is Answered && crate::orchestrator::can_be_told(
                                self.stages[i].replicas[r],
                            ) {
                                Seq::empty()
                            } else {
                                self.held[i][r]
                            },
                    ),
            ),
            ..self
        }
    }

    /// A pass from a stage on, where `tells` says what comes of asking a replica.
    /// Each stage asks the first of its replicas that counts as alive. While a
    /// session is held no other can go on in its place.
    pub open spec fn pass(
        self,
        l: Layers<A>,
        stage: int,
        input: Seq<A>,
        tells: spec_fn(int, int) -> Outcome,
    ) -> (Net<A>, Way<A>)
        decreases self.stages.len() - stage,
    {
        if stage < 0 || stage >= self.stages.len() {
            (self, Way::Through(input))
        } else {
            match self.asked(stage) {
                None => (self, Way::Exhausted),
                Some(r) => if tells(stage, r) is Answered {
                    let before = self.held[stage][r];
                    let out = l.outputs(stage, before + input).skip(before.len() as int);
                    self.after_answer(stage, r, input, tells(stage, r)).pass(
                        l,
                        stage + 1,
                        out,
                        tells,
                    )
                } else {
                    (self.after_failure(stage, r), Way::Broken { stage, replica: r })
                },
            }
        }
    }

    /// A request that the nodes hand on from a stage on, each to the first replica of
    /// the next stage that can be part of a chain.
    pub open spec fn handed_on(
        self,
        l: Layers<A>,
        stage: int,
        input: Seq<A>,
        tells: spec_fn(int, int) -> Outcome,
    ) -> (Net<A>, Way<A>)
        decreases self.stages.len() - stage,
    {
        if stage < 0 || stage >= self.stages.len() {
            (self, Way::Through(input))
        } else {
            match crate::orchestrator::chain_place(self.stages[stage].replicas, 0) {
                None => (self, Way::Exhausted),
                Some(r) => if tells(stage, r) is Answered {
                    let before = self.held[stage][r];
                    let out = l.outputs(stage, before + input).skip(before.len() as int);
                    let held = self.held.update(
                        stage,
                        self.held[stage].update(r, before + input),
                    );
                    Net { held, ..self }.handed_on(l, stage + 1, out, tells)
                } else {
                    (self, Way::Broken { stage, replica: r })
                },
            }
        }
    }

    /// A pass as a chain. Where a hop does not answer, an endpoint is blamed for it,
    /// and every node that is asked there counts as dead.
    pub open spec fn chain(
        self,
        l: Layers<A>,
        input: Seq<A>,
        tells: spec_fn(int, int) -> Outcome,
        blames: spec_fn(int, int) -> Seq<char>,
    ) -> (Net<A>, Way<A>) {
        let (after, way) = self.handed_on(l, 0, input, tells);
        match way {
            Way::Through(_) => {
                let first = self.stages[0];
                let head = crate::orchestrator::chain_place(first.replicas, 0).unwrap();
                let version = tells(0, head)->peer_version;
                let replicas = first.replicas.update(
                    head,
                    first.replicas[head].with_version(version),
                );
                (
                    Net {
                        stages: self.stages.update(
                            0,
                            crate::orchestrator::StageView { replicas, ..first },
                        ),
                        ..after
                    },
                    way,
                )
            },
            Way::Broken { stage, replica } => (
                Net {
                    stages: crate::orchestrator::stages_without(
                        self.stages,
                        blames(stage, replica),
                    ),
                    ..after
                },
                way,
            ),
            Way::Exhausted => (after, way),
        }
    }
}

// ---------------------------------------------------------------------------
// A session
// ---------------------------------------------------------------------------

/// A replica can be part of a chain: it is another node, asked directly, and known to
/// speak the current wire format.
pub open spec fn can_chain(r: crate::orchestrator::ReplicaView) -> bool {
    r is Remote && r.is_current()
}

/// What is known of the versions of the replicas was learned by asking them, the
/// first of a stage first: of those that count as alive only the first can be part
/// of a chain.
pub open spec fn learned_in_order(stages: Seq<crate::orchestrator::StageView>) -> bool {
    forall|i: int, r: int, q: int|
        0 <= i < stages.len() && 0 <= r < q < stages[i].replicas.len() && #[trigger] alive_at(
            stages,
            i,
            r,
        ) && #[trigger] alive_at(stages, i, q) ==> !can_chain(stages[i].replicas[q])
}

/// How many of the best candidates are asked for with this.
pub open spec fn asked_for(sending: Sending) -> u32 {
    if sending is Prefill {
        0
    } else {
        DECODE_TOP_K
    }
}

/// A session over a route: what is run, what was embedded by the client ahead of
/// the tokens, and what comes of asking a replica of a stage in each pass.
#[verifier::reject_recursive_types(A)]
pub struct Session<A> {
    pub layers: Layers<A>,
    pub prefill: Option<Seq<A>>,
    /// By pass, stage and replica.
    pub tells: spec_fn(nat, int, int) -> Outcome,
    /// Whether a pass may go as a chain.
    pub may_chain: bool,
    /// By pass: whether the first node of a chain can be connected to.
    pub connects: spec_fn(nat) -> bool,
    /// By pass, stage and replica: the endpoint that is blamed where this hop of a
    /// chain does not answer.
    pub blames: spec_fn(nat, int, int) -> Seq<char>,
}

impl<A> Session<A> {
    /// What comes of asking in one pass.
    pub open spec fn in_pass(self, k: nat) -> spec_fn(int, int) -> Outcome {
        |i: int, r: int| (self.tells)(k, i, r)
    }

    /// Whether a pass goes as a chain: where it may, each stage can take part, and the
    /// first node can be connected to.
    pub open spec fn chained(self, net: Net<A>, k: nat, top_k: u32) -> bool {
        &&& self.may_chain
        &&& net.stages.len() >= 2
        &&& crate::orchestrator::chain_of(net.stages, net.stages.len() as int, top_k) is Some
        &&& (self.connects)(k)
    }

    /// A pass, as a chain or stage by stage.
    pub open spec fn pass(self, net: Net<A>, k: nat, input: Seq<A>, top_k: u32) -> (
        Net<A>,
        Way<A>,
    ) {
        if self.chained(net, k, top_k) {
            net.chain(
                self.layers,
                input,
                self.in_pass(k),
                |i: int, r: int| (self.blames)(k, i, r),
            )
        } else {
            net.pass(self.layers, 0, input, self.in_pass(k))
        }
    }

    /// Every pass asks the same replicas as long as none dies: a chain, where there may
    /// be one, asks those that the stages would ask one by one.
    pub open spec fn is_steady(self, net: Net<A>) -> bool {
        self.may_chain ==> learned_in_order(net.stages)
    }

    /// Every replica answers whenever it is asked.
    pub open spec fn nothing_fails(self) -> bool {
        forall|k: nat, i: int, r: int| #[trigger] (self.tells)(k, i, r) is Answered
    }

    /// What was embedded.
    pub open spec fn ahead(self) -> Seq<A> {
        match self.prefill {
            Some(xs) => xs,
            None => Seq::empty(),
        }
    }

    /// All of a session, as it enters the first stage.
    pub open spec fn whole(self, g: crate::generation::GenerationView) -> Seq<A> {
        self.ahead() + self.layers.embedded(g.ids)
    }

    /// What the route has had of it before the next step: nothing before the first
    /// token, and later all but the last one.
    pub open spec fn had(self, g: crate::generation::GenerationView) -> Seq<A> {
        if g.sampled == 0 {
            Seq::empty()
        } else {
            self.ahead() + self.layers.embedded(g.ids.drop_last())
        }
    }

    /// What is sent, as it enters the first stage.
    pub open spec fn input(self, g: crate::generation::GenerationView, sending: Sending) -> Seq<A> {
        if sending is Prefill {
            self.ahead()
        } else {
            self.layers.embedded(g.sends(sending))
        }
    }

    /// A step from where it stands, with pass `k` the next one: the nodes after it,
    /// the pass after it, and what came out, where anything did.
    pub open spec fn step(
        self,
        net: Net<A>,
        k: nat,
        g: crate::generation::GenerationView,
        run: StepRun,
    ) -> (Net<A>, nat, Option<Seq<A>>)
        decreases
            if run.replays < MAX_REPLAYS {
                MAX_REPLAYS - run.replays
            } else {
                0
            },
            if run.sending is Prefill {
                1int
            } else {
                0int
            },
    {
        let (after, way) = self.pass(
            net,
            k,
            self.input(g, run.sending),
            asked_for(run.sending),
        );
        let next = run.after(way.came());
        match run.action(way.came()) {
            StepAction::Done => (after, k + 1, Some(way->Through_0)),
            StepAction::Fail => (after, k + 1, None),
            StepAction::Send(_) => self.step(after, k + 1, g, next),
            StepAction::ClearAndSend(_) => self.step(
                after.cleared(self.in_pass(k + 1)),
                k + 1,
                g,
                next,
            ),
        }
    }

    /// The rest of an answer: the nodes after it, the pass after it, and the
    /// answer, where there is one.
    pub open spec fn answer(
        self,
        net: Net<A>,
        k: nat,
        g: crate::generation::GenerationView,
    ) -> (Net<A>, nat, Option<crate::generation::GenerationView>)
        decreases g.max_new_tokens - g.sampled, 1int,
    {
        let run = StepRun { replays: 0, sending: Sending::Step, has_prefill: self.prefill is Some };
        let (after, next, out) = self.step(net, k, g, run);
        match out {
            None => (after, next, None),
            Some(out) => self.go_on(after, next, g, out),
        }
    }

    /// The rest of an answer from what came out of the last stage.
    pub open spec fn go_on(
        self,
        net: Net<A>,
        k: nat,
        g: crate::generation::GenerationView,
        out: Seq<A>,
    ) -> (Net<A>, nat, Option<crate::generation::GenerationView>)
        decreases g.max_new_tokens - g.sampled, 0int,
    {
        match self.layers.drawn(out) {
            None => (net, k, None),
            Some(token) => if g.drawn(token).finished {
                (net, k, Some(g.after(token)))
            } else {
                self.answer(net, k, g.after(token))
            },
        }
    }

    /// An answer from its beginning. What was embedded makes the first pass by
    /// itself.
    pub open spec fn generate(self, net: Net<A>, g: crate::generation::GenerationView) -> (
        Net<A>,
        nat,
        Option<crate::generation::GenerationView>,
    ) {
        if self.prefill is Some {
            let (after, way) = self.pass(net, 0, self.ahead(), DECODE_TOP_K);
            match way {
                Way::Through(out) => self.go_on(after, 1, g, out),
                _ => (after, 1, None),
            }
        } else {
            self.answer(net, 0, g)
        }
    }

    /// No replica that is asked in pass `k`, and answers, holds anything of the
    /// session.
    pub open spec fn is_bare(self, net: Net<A>, k: nat) -> bool {
        forall|i: int|
            0 <= i < net.stages.len() ==> match #[trigger] net.asked(i) {
                Some(r) => (self.tells)(k, i, r) is Answered ==> net.held[i][r].len() == 0,
                None => true,
            }
    }

    /// Whenever a step is sent again, the replicas that are asked have been told to
    /// forget the session or had nothing of it.
    pub open spec fn step_is_clean(
        self,
        net: Net<A>,
        k: nat,
        g: crate::generation::GenerationView,
        run: StepRun,
    ) -> bool
        decreases
            if run.replays < MAX_REPLAYS {
                MAX_REPLAYS - run.replays
            } else {
                0
            },
            if run.sending is Prefill {
                1int
            } else {
                0int
            },
    {
        let (after, way) = self.pass(
            net,
            k,
            self.input(g, run.sending),
            asked_for(run.sending),
        );
        let next = run.after(way.came());
        match run.action(way.came()) {
            StepAction::Done => true,
            StepAction::Fail => true,
            StepAction::Send(_) => self.step_is_clean(after, k + 1, g, next),
            StepAction::ClearAndSend(_) => {
                let cleared = after.cleared(self.in_pass(k + 1));
                self.is_bare(cleared, k + 1) && self.step_is_clean(cleared, k + 1, g, next)
            },
        }
    }

    /// The same for the rest of an answer.
    pub open spec fn answer_is_clean(
        self,
        net: Net<A>,
        k: nat,
        g: crate::generation::GenerationView,
    ) -> bool
        decreases g.max_new_tokens - g.sampled, 1int,
    {
        let run = StepRun { replays: 0, sending: Sending::Step, has_prefill: self.prefill is Some };
        let (after, next, out) = self.step(net, k, g, run);
        &&& self.step_is_clean(net, k, g, run)
        &&& match out {
            None => true,
            Some(out) => self.rest_is_clean(after, next, g, out),
        }
    }

    /// The same for the rest of an answer from what came out of the last stage.
    pub open spec fn rest_is_clean(
        self,
        net: Net<A>,
        k: nat,
        g: crate::generation::GenerationView,
        out: Seq<A>,
    ) -> bool
        decreases g.max_new_tokens - g.sampled, 0int,
    {
        match self.layers.drawn(out) {
            None => true,
            Some(token) => g.drawn(token).finished || self.answer_is_clean(net, k, g.after(token)),
        }
    }

    /// Whenever part of a session is sent again, the replicas that are asked have been
    /// told to forget it or had nothing of it.
    pub open spec fn is_clean(self, net: Net<A>, g: crate::generation::GenerationView) -> bool {
        if self.prefill is Some {
            let (after, way) = self.pass(net, 0, self.ahead(), DECODE_TOP_K);
            match way {
                Way::Through(out) => self.rest_is_clean(after, 1, g, out),
                _ => true,
            }
        } else {
            self.answer_is_clean(net, 0, g)
        }
    }

    /// The answer that `n` stages give when each token is drawn from all that goes
    /// before it.
    pub open spec fn plain(self, n: int, g: crate::generation::GenerationView) -> Option<
        crate::generation::GenerationView,
    >
        decreases g.max_new_tokens - g.sampled,
    {
        match self.layers.drawn(self.layers.through(n, self.whole(g))) {
            None => None,
            Some(token) => if g.drawn(token).finished {
                Some(g.after(token))
            } else {
                self.plain(n, g.after(token))
            },
        }
    }

    /// Each replica that is asked in pass `k`, and answers, holds just this of the
    /// session.
    pub open spec fn holds(self, net: Net<A>, k: nat, xs: Seq<A>) -> bool {
        forall|i: int|
            0 <= i < net.stages.len() ==> match #[trigger] net.asked(i) {
                Some(r) => (self.tells)(k, i, r) is Answered ==> net.held[i][r]
                    == self.layers.through(i, xs),
                None => true,
            }
    }

    /// What the replicas hold when this is sent.
    pub open spec fn held_for(
        self,
        g: crate::generation::GenerationView,
        sending: Sending,
    ) -> Seq<A> {
        match sending {
            Sending::Step => self.had(g),
            Sending::Prefill => Seq::empty(),
            Sending::Replay => self.ahead(),
        }
    }

    /// An answer that can go on by a step: what was embedded has been sent, and of
    /// what was drawn the first token was kept.
    pub open spec fn can_step(self, g: crate::generation::GenerationView) -> bool {
        &&& self.prefill is Some ==> g.sampled > 0
        &&& g.sampled > 0 ==> g.ids.len() > 0
    }
}

/// The same replicas count as alive.
pub open spec fn same_alive(
    a: Seq<crate::orchestrator::StageView>,
    b: Seq<crate::orchestrator::StageView>,
) -> bool {
    forall|i: int, r: int|
        0 <= i < a.len() && 0 <= r < a[i].replicas.len() ==> #[trigger] alive_at(b, i, r)
            == alive_at(a, i, r)
}

/// The same replicas count as alive but for one, which does not any more.
pub open spec fn one_died(
    a: Seq<crate::orchestrator::StageView>,
    b: Seq<crate::orchestrator::StageView>,
    stage: int,
    replica: int,
) -> bool {
    forall|i: int, r: int|
        0 <= i < a.len() && 0 <= r < a[i].replicas.len() ==> #[trigger] alive_at(b, i, r) == (
        alive_at(a, i, r) && !(i == stage && r == replica))
}

proof fn alike_are_asked_alike(
    a: Seq<crate::orchestrator::ReplicaView>,
    b: Seq<crate::orchestrator::ReplicaView>,
    from: int,
)
    requires
        a.len() == b.len(),
        0 <= from,
        forall|r: int| 0 <= r < a.len() ==> (#[trigger] a[r]).is_alive() == b[r].is_alive(),
    ensures
        crate::orchestrator::next_alive(a, from) == crate::orchestrator::next_alive(b, from),
    decreases a.len() - from,
{
    if from < a.len() {
        assert(a[from].is_alive() == b[from].is_alive());
        alike_are_asked_alike(a, b, from + 1);
    }
}

proof fn an_answer_keeps_the_places<A>(
    net: Net<A>,
    stage: int,
    replica: int,
    input: Seq<A>,
    outcome: Outcome,
)
    requires
        net.fits(),
        0 <= stage < net.stages.len(),
        0 <= replica < net.stages[stage].replicas.len(),
        outcome is Answered,
    ensures
        ({
            let after = net.after_answer(stage, replica, input, outcome);
            &&& after.fits()
            &&& same_places(net.stages, after.stages)
            &&& net.asked(stage) == Some(replica) ==> only_the_asked_tell(net, after.stages)
            &&& same_alive(net.stages, after.stages)
            &&& forall|i: int|
                0 <= i < net.stages.len() ==> #[trigger] after.asked(i) == net.asked(i)
        }),
{
    let after = net.after_answer(stage, replica, input, outcome);
    assert forall|i: int, r: int|
        0 <= i < net.stages.len() && 0 <= r < net.stages[i].replicas.len() implies #[trigger] alive_at(
        after.stages,
        i,
        r,
    ) == alive_at(net.stages, i, r) by {}
    assert forall|i: int| 0 <= i < net.stages.len() implies #[trigger] after.asked(i) == net.asked(
        i,
    ) by {
        let a = after.stages[i].replicas;
        let b = net.stages[i].replicas;
        assert forall|r: int| 0 <= r < a.len() implies (#[trigger] a[r]).is_alive()
            == b[r].is_alive() by {
            assert(alive_at(after.stages, i, r) == alive_at(net.stages, i, r));
        }
        alike_are_asked_alike(a, b, 0);
    }
}

/// Nothing new is known of the version of a replica that was not asked.
spec fn only_the_asked_tell<A>(net: Net<A>, after: Seq<crate::orchestrator::StageView>) -> bool {
    forall|i: int, r: int|
        0 <= i < net.stages.len() && 0 <= r < net.stages[i].replicas.len() ==> (
        #[trigger] after[i].replicas[r]).version() == net.stages[i].replicas[r].version()
            || net.asked(i) == Some(r)
}

/// What a pass from a stage on does to the replicas.
spec fn passes<A>(
    net: Net<A>,
    stage: int,
    tells: spec_fn(int, int) -> Outcome,
    after: Net<A>,
    way: Way<A>,
) -> bool {
    &&& after.fits()
    &&& same_places(net.stages, after.stages)
    &&& only_the_asked_tell(net, after.stages)
    &&& match way {
        Way::Through(_) => {
            &&& same_alive(net.stages, after.stages)
            &&& forall|i: int|
                stage <= i < net.stages.len() ==> (#[trigger] net.asked(i)) is Some && tells(
                    i,
                    net.asked(i).unwrap(),
                ) is Answered
            &&& forall|i: int|
                0 <= i < net.stages.len() ==> #[trigger] after.asked(i) == net.asked(i)
        },
        Way::Broken { stage: s, replica: q } => {
            &&& stage <= s < net.stages.len()
            &&& 0 <= q < net.stages[s].replicas.len()
            &&& net.asked(s) == Some(q)
            &&& alive_at(net.stages, s, q)
            &&& tells(s, q) is Failed
            &&& one_died(net.stages, after.stages, s, q)
        },
        Way::Exhausted => {
            &&& same_alive(net.stages, after.stages)
            &&& exists|i: int| stage <= i < net.stages.len() && (#[trigger] net.asked(i)) is None
        },
    }
}

proof fn a_pass_breaks_at_one_replica<A>(
    net: Net<A>,
    l: Layers<A>,
    stage: int,
    input: Seq<A>,
    tells: spec_fn(int, int) -> Outcome,
)
    requires
        net.fits(),
        0 <= stage <= net.stages.len(),
    ensures
        ({
            let (after, way) = net.pass(l, stage, input, tells);
            passes(net, stage, tells, after, way)
        }),
    decreases net.stages.len() - stage,
{
    if stage < net.stages.len() {
        crate::orchestrator::the_next_alive_is_the_first(net.stages[stage].replicas, 0);
        if let Some(r) = net.asked(stage) {
            assert(alive_at(net.stages, stage, r));
            if tells(stage, r) is Answered {
                let before = net.held[stage][r];
                let out = l.outputs(stage, before + input).skip(before.len() as int);
                let next = net.after_answer(stage, r, input, tells(stage, r));
                an_answer_keeps_the_places(net, stage, r, input, tells(stage, r));
                a_pass_breaks_at_one_replica(next, l, stage + 1, out, tells);
                let (after, way) = next.pass(l, stage + 1, out, tells);
                assert forall|i: int, q: int|
                    0 <= i < net.stages.len() && 0 <= q
                        < net.stages[i].replicas.len() implies same_replica(
                    #[trigger] net.stages[i].replicas[q],
                    after.stages[i].replicas[q],
                ) by {
                    assert(same_replica(net.stages[i].replicas[q], next.stages[i].replicas[q]));
                }
                assert forall|i: int, q: int|
                    0 <= i < net.stages.len() && 0 <= q
                        < net.stages[i].replicas.len() implies (
                #[trigger] after.stages[i].replicas[q]).version()
                    == net.stages[i].replicas[q].version() || net.asked(i) == Some(q) by {
                    assert(next.stages[i].replicas.len() == net.stages[i].replicas.len());
                    assert(next.asked(i) == net.asked(i));
                    assert(next.stages[i].replicas[q].version()
                        == net.stages[i].replicas[q].version() || net.asked(i) == Some(q));
                }
                assert forall|i: int| 0 <= i < net.stages.len() implies (
                #[trigger] net.stages[i]).replicas.len() == after.stages[i].replicas.len() by {
                    assert(next.stages[i].replicas.len() == net.stages[i].replicas.len());
                }
                match way {
                    Way::Through(_) => {
                        assert forall|i: int, q: int|
                            0 <= i < net.stages.len() && 0 <= q
                                < net.stages[i].replicas.len() implies #[trigger] alive_at(
                            after.stages,
                            i,
                            q,
                        ) == alive_at(net.stages, i, q) by {
                            assert(alive_at(next.stages, i, q) == alive_at(net.stages, i, q));
                        }
                        assert forall|i: int| stage <= i < net.stages.len() implies (
                        #[trigger] net.asked(i)) is Some && tells(i, net.asked(i).unwrap())
                            is Answered by {
                            assert(next.asked(i) == net.asked(i));
                        }
                        assert forall|i: int|
                            0 <= i < net.stages.len() implies #[trigger] after.asked(i)
                            == net.asked(i) by {
                            assert(next.asked(i) == net.asked(i));
                        }
                    },
                    Way::Broken { stage: s, replica: q } => {
                        assert(next.asked(s) == net.asked(s));
                        assert(alive_at(next.stages, s, q) == alive_at(net.stages, s, q));
                        assert forall|i: int, p: int|
                            0 <= i < net.stages.len() && 0 <= p
                                < net.stages[i].replicas.len() implies #[trigger] alive_at(
                            after.stages,
                            i,
                            p,
                        ) == (alive_at(net.stages, i, p) && !(i == s && p == q)) by {
                            assert(alive_at(next.stages, i, p) == alive_at(net.stages, i, p));
                        }
                    },
                    Way::Exhausted => {
                        assert forall|i: int, q: int|
                            0 <= i < net.stages.len() && 0 <= q
                                < net.stages[i].replicas.len() implies #[trigger] alive_at(
                            after.stages,
                            i,
                            q,
                        ) == alive_at(net.stages, i, q) by {
                            assert(alive_at(next.stages, i, q) == alive_at(net.stages, i, q));
                        }
                        let i = choose|i: int|
                            stage + 1 <= i < next.stages.len() && (#[trigger] next.asked(i)) is None;
                        assert(next.asked(i) == net.asked(i));
                        assert(net.asked(i) is None);
                    },
                }
            } else {
                let after = net.after_failure(stage, r);
                assert(after.fits());
                assert forall|i: int, p: int|
                    0 <= i < net.stages.len() && 0 <= p
                        < net.stages[i].replicas.len() implies #[trigger] alive_at(
                    after.stages,
                    i,
                    p,
                ) == (alive_at(net.stages, i, p) && !(i == stage && p == r)) by {}
            }
        }
    }
}

proof fn a_pass_goes_on_from_what_is_held<A>(
    net: Net<A>,
    l: Layers<A>,
    stage: int,
    before: Seq<A>,
    x: Seq<A>,
    tells: spec_fn(int, int) -> Outcome,
)
    requires
        net.fits(),
        0 <= stage <= net.stages.len(),
        forall|i: int|
            stage <= i < net.stages.len() ==> match #[trigger] net.asked(i) {
                Some(r) => tells(i, r) is Answered ==> net.held[i][r] == l.through(i, before),
                None => true,
            },
    ensures
        ({
            let input = l.through(stage, before + x).skip(before.len() as int);
            let (after, way) = net.pass(l, stage, input, tells);
            &&& forall|i: int| 0 <= i < stage ==> #[trigger] after.held[i] == net.held[i]
            &&& way matches Way::Through(out) ==> {
                &&& out == l.through(net.stages.len() as int, before + x).skip(before.len() as int)
                &&& forall|i: int|
                    stage <= i < net.stages.len() ==> after.held[i][(
                    #[trigger] net.asked(i)).unwrap()] == l.through(i, before + x)
            }
        }),
    decreases net.stages.len() - stage,
{
    let whole = before + x;
    let n = before.len() as int;
    let input = l.through(stage, whole).skip(n);
    if stage < net.stages.len() {
        crate::orchestrator::the_next_alive_is_the_first(net.stages[stage].replicas, 0);
        if let Some(r) = net.asked(stage) {
            if tells(stage, r) is Answered {
                let held = net.held[stage][r];
                assert(held == l.through(stage, before));
                what_comes_later_changes_nothing(l, stage, whole, n);
                assert(whole.take(n) =~= before);
                assert(held + input =~= l.through(stage, whole));
                what_comes_later_changes_nothing(l, stage, before, n);
                let out = l.outputs(stage, held + input).skip(n);
                assert(l.through(stage + 1, whole) == l.outputs(stage, l.through(stage, whole)));
                let next = net.after_answer(stage, r, input, tells(stage, r));
                an_answer_keeps_the_places(net, stage, r, input, tells(stage, r));
                assert forall|i: int| stage + 1 <= i < next.stages.len() implies match (
                #[trigger] next.asked(i)) {
                    Some(q) => tells(i, q) is Answered ==> next.held[i][q] == l.through(i, before),
                    None => true,
                } by {
                    assert(next.asked(i) == net.asked(i));
                    assert(next.held[i] == net.held[i]);
                }
                a_pass_goes_on_from_what_is_held(next, l, stage + 1, before, x, tells);
                let (after, way) = next.pass(l, stage + 1, out, tells);
                assert forall|i: int| 0 <= i < stage implies #[trigger] after.held[i]
                    == net.held[i] by {
                    assert(after.held[i] == next.held[i]);
                }
                if way is Through {
                    assert forall|i: int| stage <= i < net.stages.len() implies after.held[i][(
                    #[trigger] net.asked(i)).unwrap()] == l.through(i, whole) by {
                        assert(next.asked(i) == net.asked(i));
                        if i == stage {
                            assert(after.held[i] == next.held[i]);
                            assert(next.held[i][r] == held + input);
                        }
                    }
                }
            }
        }
    }
}

/// Nothing comes back to life.
pub open spec fn only_die(
    a: Seq<crate::orchestrator::StageView>,
    b: Seq<crate::orchestrator::StageView>,
) -> bool {
    forall|i: int, r: int|
        0 <= i < a.len() && 0 <= r < a[i].replicas.len() && #[trigger] alive_at(b, i, r)
            ==> alive_at(a, i, r)
}

/// A chain asks the replicas that the stages would ask one by one.
spec fn asks_alike<A>(net: Net<A>) -> bool {
    forall|i: int|
        0 <= i < net.stages.len() ==> crate::orchestrator::chain_place(
            net.stages[i].replicas,
            0,
        ) == #[trigger] net.asked(i)
}

proof fn a_chain_asks_what_stages_ask<A>(net: Net<A>, top_k: u32)
    requires
        learned_in_order(net.stages),
        crate::orchestrator::chain_of(net.stages, net.stages.len() as int, top_k) is Some,
    ensures
        asks_alike(net),
        forall|i: int|
            0 <= i < net.stages.len() ==> (#[trigger] net.asked(i)) is Some
                && net.stages[i].replicas[net.asked(i).unwrap()] is Remote,
{
    assert forall|i: int| 0 <= i < net.stages.len() implies crate::orchestrator::chain_place(
        net.stages[i].replicas,
        0,
    ) == #[trigger] net.asked(i) && net.asked(i) is Some
        && net.stages[i].replicas[net.asked(i).unwrap()] is Remote by {
        let rs = net.stages[i].replicas;
        crate::orchestrator::a_chain_is_made_of_current_nodes(net.stages, top_k, i);
        crate::orchestrator::the_next_alive_is_the_first(rs, 0);
        let at = crate::orchestrator::chain_place(rs, 0).unwrap();
        assert(alive_at(net.stages, i, at));
        let first = net.asked(i).unwrap();
        assert(alive_at(net.stages, i, first));
    }
}

/// What handing on from a stage on comes to.
spec fn hands_on<A>(
    net: Net<A>,
    stage: int,
    tells: spec_fn(int, int) -> Outcome,
    after: Net<A>,
    way: Way<A>,
) -> bool {
    &&& after.fits()
    &&& after.stages == net.stages
    &&& match way {
        Way::Through(_) => forall|i: int|
            stage <= i < net.stages.len() ==> (#[trigger] net.asked(i)) is Some && tells(
                i,
                net.asked(i).unwrap(),
            ) is Answered,
        Way::Broken { stage: s, replica: q } => {
            &&& stage <= s < net.stages.len()
            &&& 0 <= q < net.stages[s].replicas.len()
            &&& net.asked(s) == Some(q)
            &&& alive_at(net.stages, s, q)
            &&& tells(s, q) is Failed
        },
        Way::Exhausted => exists|i: int|
            stage <= i < net.stages.len() && (#[trigger] net.asked(i)) is None,
    }
}

proof fn a_chain_breaks_at_one_hop<A>(
    net: Net<A>,
    l: Layers<A>,
    stage: int,
    input: Seq<A>,
    tells: spec_fn(int, int) -> Outcome,
)
    requires
        net.fits(),
        asks_alike(net),
        0 <= stage <= net.stages.len(),
    ensures
        ({
            let (after, way) = net.handed_on(l, stage, input, tells);
            hands_on(net, stage, tells, after, way)
        }),
    decreases net.stages.len() - stage,
{
    if stage < net.stages.len() {
        assert(crate::orchestrator::chain_place(net.stages[stage].replicas, 0) == net.asked(stage));
        crate::orchestrator::the_next_alive_is_the_first(net.stages[stage].replicas, 0);
        if let Some(r) = net.asked(stage) {
            assert(alive_at(net.stages, stage, r));
            if tells(stage, r) is Answered {
                let before = net.held[stage][r];
                let out = l.outputs(stage, before + input).skip(before.len() as int);
                let next = Net {
                    held: net.held.update(stage, net.held[stage].update(r, before + input)),
                    ..net
                };
                assert(asks_alike(next)) by {
                    assert forall|i: int|
                        0 <= i < next.stages.len() implies crate::orchestrator::chain_place(
                        next.stages[i].replicas,
                        0,
                    ) == #[trigger] next.asked(i) by {
                        assert(net.asked(i) == next.asked(i));
                    }
                }
                a_chain_breaks_at_one_hop(next, l, stage + 1, out, tells);
                let (after, way) = next.handed_on(l, stage + 1, out, tells);
                assert forall|i: int| 0 <= i < net.stages.len() implies #[trigger] next.asked(i)
                    == net.asked(i) by {}
                match way {
                    Way::Through(_) => {
                        assert forall|i: int| stage <= i < net.stages.len() implies (
                        #[trigger] net.asked(i)) is Some && tells(i, net.asked(i).unwrap())
                            is Answered by {
                            assert(next.asked(i) == net.asked(i));
                        }
                    },
                    Way::Broken { stage: s, replica: q } => {
                        assert(next.asked(s) == net.asked(s));
                    },
                    Way::Exhausted => {
                        let i = choose|i: int|
                            stage + 1 <= i < next.stages.len() && (#[trigger] next.asked(i)) is None;
                        assert(next.asked(i) == net.asked(i));
                        assert(net.asked(i) is None);
                    },
                }
            }
        }
    }
}

proof fn a_chain_goes_on_from_what_is_held<A>(
    net: Net<A>,
    l: Layers<A>,
    stage: int,
    before: Seq<A>,
    x: Seq<A>,
    tells: spec_fn(int, int) -> Outcome,
)
    requires
        net.fits(),
        asks_alike(net),
        0 <= stage <= net.stages.len(),
        forall|i: int|
            stage <= i < net.stages.len() ==> match #[trigger] net.asked(i) {
                Some(r) => tells(i, r) is Answered ==> net.held[i][r] == l.through(i, before),
                None => true,
            },
    ensures
        ({
            let input = l.through(stage, before + x).skip(before.len() as int);
            let (after, way) = net.handed_on(l, stage, input, tells);
            &&& forall|i: int| 0 <= i < stage ==> #[trigger] after.held[i] == net.held[i]
            &&& way matches Way::Through(out) ==> {
                &&& out == l.through(net.stages.len() as int, before + x).skip(before.len() as int)
                &&& forall|i: int|
                    stage <= i < net.stages.len() ==> after.held[i][(
                    #[trigger] net.asked(i)).unwrap()] == l.through(i, before + x)
            }
        }),
    decreases net.stages.len() - stage,
{
    let whole = before + x;
    let n = before.len() as int;
    let input = l.through(stage, whole).skip(n);
    if stage < net.stages.len() {
        assert(crate::orchestrator::chain_place(net.stages[stage].replicas, 0) == net.asked(stage));
        crate::orchestrator::the_next_alive_is_the_first(net.stages[stage].replicas, 0);
        if let Some(r) = net.asked(stage) {
            if tells(stage, r) is Answered {
                let held = net.held[stage][r];
                assert(held == l.through(stage, before));
                what_comes_later_changes_nothing(l, stage, whole, n);
                assert(whole.take(n) =~= before);
                assert(held + input =~= l.through(stage, whole));
                what_comes_later_changes_nothing(l, stage, before, n);
                let out = l.outputs(stage, held + input).skip(n);
                assert(l.through(stage + 1, whole) == l.outputs(stage, l.through(stage, whole)));
                let next = Net {
                    held: net.held.update(stage, net.held[stage].update(r, held + input)),
                    ..net
                };
                assert forall|i: int| stage + 1 <= i < next.stages.len() implies match (
                #[trigger] next.asked(i)) {
                    Some(q) => tells(i, q) is Answered ==> next.held[i][q] == l.through(i, before),
                    None => true,
                } by {
                    assert(next.asked(i) == net.asked(i));
                    assert(next.held[i] == net.held[i]);
                }
                assert(asks_alike(next)) by {
                    assert forall|i: int|
                        0 <= i < next.stages.len() implies crate::orchestrator::chain_place(
                        next.stages[i].replicas,
                        0,
                    ) == #[trigger] next.asked(i) by {
                        assert(net.asked(i) == next.asked(i));
                    }
                }
                a_chain_goes_on_from_what_is_held(next, l, stage + 1, before, x, tells);
                let (after, way) = next.handed_on(l, stage + 1, out, tells);
                assert forall|i: int| 0 <= i < stage implies #[trigger] after.held[i]
                    == net.held[i] by {
                    assert(after.held[i] == next.held[i]);
                }
                if way is Through {
                    assert forall|i: int| stage <= i < net.stages.len() implies after.held[i][(
                    #[trigger] net.asked(i)).unwrap()] == l.through(i, whole) by {
                        assert(next.asked(i) == net.asked(i));
                        if i == stage {
                            assert(after.held[i] == next.held[i]);
                            assert(next.held[i][r] == held + input);
                        }
                    }
                }
            }
        }
    }
}

proof fn sent_parts_make_the_whole<A>(
    s: Session<A>,
    g: crate::generation::GenerationView,
    sending: Sending,
)
    requires
        s.can_step(g),
        !(sending is Prefill),
    ensures
        s.held_for(g, sending) + s.input(g, sending) == s.whole(g),
        s.input(g, sending).len() == 0 ==> s.whole(g).len() == 0,
{
    if sending is Step && g.sampled > 0 {
        let last = g.ids.len() - 1;
        assert(s.layers.embedded(g.ids.drop_last()) + s.layers.embedded(seq![g.ids.last()])
            =~= s.layers.embedded(g.ids));
    }
    assert(s.held_for(g, sending) + s.input(g, sending) =~= s.whole(g));
}

proof fn a_cleared_net_fits<A>(net: Net<A>, tells: spec_fn(int, int) -> Outcome)
    requires
        net.fits(),
    ensures
        net.cleared(tells).fits(),
{
    let after = net.cleared(tells);
    assert forall|i: int| 0 <= i < after.stages.len() implies (#[trigger] after.held[i]).len()
        == after.stages[i].replicas.len() by {
        assert(net.held[i].len() == net.stages[i].replicas.len());
    }
}

proof fn a_bare_net_holds_nothing<A>(s: Session<A>, net: Net<A>, k: nat)
    requires
        net.fits(),
        s.is_bare(net, k),
    ensures
        s.holds(net, k, Seq::empty()),
{
    assert forall|i: int| 0 <= i < net.stages.len() implies match #[trigger] net.asked(i) {
        Some(r) => (s.tells)(k, i, r) is Answered ==> net.held[i][r] == s.layers.through(
            i,
            Seq::empty(),
        ),
        None => true,
    } by {
        what_comes_later_changes_nothing(s.layers, i, Seq::<A>::empty(), 0);
        if let Some(r) = net.asked(i) {
            if (s.tells)(k, i, r) is Answered {
                assert(net.held[i][r] =~= s.layers.through(i, Seq::empty()));
            }
        }
    }
}

proof fn places_keep_the_kinds<A>(a: Net<A>, b: Net<A>)
    requires
        a.forgets(),
        same_places(a.stages, b.stages),
    ensures
        b.forgets(),
{
    assert forall|i: int, r: int|
        0 <= i < b.stages.len() && 0 <= r
            < b.stages[i].replicas.len() implies crate::orchestrator::can_be_told(
        #[trigger] b.stages[i].replicas[r],
    ) by {
        assert(a.stages[i].replicas.len() == b.stages[i].replicas.len());
        assert(crate::orchestrator::can_be_told(a.stages[i].replicas[r]));
        assert(same_replica(a.stages[i].replicas[r], b.stages[i].replicas[r]));
    }
}

impl<A> Session<A> {
    /// The replicas that count as dead after a pass broke at one: that one, or in a
    /// chain every node at the endpoint that is blamed.
    pub open spec fn struck(
        self,
        net: Net<A>,
        k: nat,
        top_k: u32,
        at: (int, int),
        i: int,
        r: int,
    ) -> bool {
        if self.chained(net, k, top_k) {
            let replica = net.stages[i].replicas[r];
            replica is Remote && replica->Remote_compute_endpoint == (self.blames)(k, at.0, at.1)
        } else {
            at == (i, r)
        }
    }

    /// What a pass does to the replicas.
    spec fn keeps(self, net: Net<A>, k: nat, top_k: u32, after: Net<A>, way: Way<A>) -> bool {
        &&& after.fits()
        &&& same_places(net.stages, after.stages)
        &&& only_die(net.stages, after.stages)
        &&& self.is_steady(after)
        &&& match way {
            Way::Through(_) => {
                &&& same_alive(net.stages, after.stages)
                &&& forall|i: int|
                    0 <= i < net.stages.len() ==> (#[trigger] net.asked(i)) is Some && (self.tells)(
                        k,
                        i,
                        net.asked(i).unwrap(),
                    ) is Answered
                &&& forall|i: int|
                    0 <= i < net.stages.len() ==> #[trigger] after.asked(i) == net.asked(i)
            },
            Way::Broken { stage: s, replica: q } => {
                &&& 0 <= s < net.stages.len()
                &&& 0 <= q < net.stages[s].replicas.len()
                &&& net.asked(s) == Some(q)
                &&& alive_at(net.stages, s, q)
                &&& (self.tells)(k, s, q) is Failed
                &&& forall|i: int, r: int|
                    0 <= i < net.stages.len() && 0 <= r < net.stages[i].replicas.len()
                        ==> #[trigger] alive_at(after.stages, i, r) == (alive_at(net.stages, i, r)
                        && !self.struck(net, k, top_k, (s, q), i, r))
            },
            Way::Exhausted => exists|i: int|
                0 <= i < net.stages.len() && (#[trigger] net.asked(i)) is None,
        }
    }
}

proof fn what_is_learned_stays_in_order<A>(
    net: Net<A>,
    after: Seq<crate::orchestrator::StageView>,
)
    requires
        learned_in_order(net.stages),
        same_places(net.stages, after),
        only_die(net.stages, after),
        only_the_asked_tell(net, after),
    ensures
        learned_in_order(after),
{
    assert forall|i: int, r: int, q: int|
        0 <= i < after.len() && 0 <= r < q < after[i].replicas.len() && #[trigger] alive_at(
            after,
            i,
            r,
        ) && #[trigger] alive_at(after, i, q) implies !can_chain(after[i].replicas[q]) by {
        let rs = net.stages[i].replicas;
        assert(rs.len() == after[i].replicas.len());
        assert(alive_at(net.stages, i, r));
        assert(alive_at(net.stages, i, q));
        assert(same_replica(rs[q], after[i].replicas[q]));
        crate::orchestrator::the_next_alive_is_the_first(rs, 0);
        assert(rs[r].is_alive());
        assert(net.asked(i) != Some(q));
        assert(after[i].replicas[q].version() == rs[q].version());
    }
}

proof fn a_chained_pass_keeps_the_replicas<A>(
    s: Session<A>,
    net: Net<A>,
    k: nat,
    x: Seq<A>,
    top_k: u32,
)
    requires
        net.fits(),
        s.is_steady(net),
        s.chained(net, k, top_k),
    ensures
        ({
            let (after, way) = s.pass(net, k, x, top_k);
            s.keeps(net, k, top_k, after, way)
        }),
{
    a_chain_asks_what_stages_ask(net, top_k);
    let tells = s.in_pass(k);
    a_chain_breaks_at_one_hop(net, s.layers, 0, x, tells);
    let (mid, _) = net.handed_on(s.layers, 0, x, tells);
    let (after, way) = s.pass(net, k, x, top_k);
    match way {
        Way::Through(_) => {
            crate::orchestrator::the_next_alive_is_the_first(net.stages[0].replicas, 0);
            let head = net.asked(0).unwrap();
            assert(net.asked(0) == Some(head));
            assert(crate::orchestrator::chain_place(net.stages[0].replicas, 0) == Some(head));
            assert(alive_at(net.stages, 0, head));
            assert(tells(0, head) is Answered);
            assert forall|i: int| 0 <= i < after.stages.len() implies (
            #[trigger] after.held[i]).len() == after.stages[i].replicas.len() by {
                assert(mid.held[i].len() == mid.stages[i].replicas.len());
            }
            assert forall|i: int, r: int|
                0 <= i < net.stages.len() && 0 <= r
                    < net.stages[i].replicas.len() implies #[trigger] alive_at(after.stages, i, r)
                == alive_at(net.stages, i, r) by {}
            assert forall|i: int, r: int|
                0 <= i < net.stages.len() && 0 <= r
                    < net.stages[i].replicas.len() implies (
            #[trigger] after.stages[i].replicas[r]).version() == net.stages[i].replicas[r].version()
                || net.asked(i) == Some(r) by {}
            assert forall|i: int|
                0 <= i < net.stages.len() implies #[trigger] after.asked(i) == net.asked(i) by {
                let a = after.stages[i].replicas;
                let b = net.stages[i].replicas;
                assert forall|r: int| 0 <= r < a.len() implies (#[trigger] a[r]).is_alive()
                    == b[r].is_alive() by {
                    assert(alive_at(after.stages, i, r) == alive_at(net.stages, i, r));
                }
                alike_are_asked_alike(a, b, 0);
            }
            assert forall|i: int| 0 <= i < net.stages.len() implies (#[trigger] net.asked(i)) is Some
                && (s.tells)(k, i, net.asked(i).unwrap()) is Answered by {
                assert(tells(i, net.asked(i).unwrap()) is Answered);
            }
            what_is_learned_stays_in_order(net, after.stages);
        },
        Way::Broken { stage, replica } => {
            assert forall|i: int| 0 <= i < after.stages.len() implies (
            #[trigger] after.held[i]).len() == after.stages[i].replicas.len() by {
                assert(mid.held[i].len() == mid.stages[i].replicas.len());
            }
            assert forall|i: int, r: int|
                0 <= i < net.stages.len() && 0 <= r
                    < net.stages[i].replicas.len() implies #[trigger] alive_at(after.stages, i, r)
                == (alive_at(net.stages, i, r) && !s.struck(
                net,
                k,
                top_k,
                (stage, replica),
                i,
                r,
            )) by {}
            assert forall|i: int, r: int|
                0 <= i < net.stages.len() && 0 <= r
                    < net.stages[i].replicas.len() implies (
            #[trigger] after.stages[i].replicas[r]).version() == net.stages[i].replicas[r].version()
                || net.asked(i) == Some(r) by {}
            assert forall|i: int, r: int|
                0 <= i < net.stages.len() && 0 <= r
                    < net.stages[i].replicas.len() implies same_replica(
                #[trigger] net.stages[i].replicas[r],
                after.stages[i].replicas[r],
            ) by {}
            what_is_learned_stays_in_order(net, after.stages);
        },
        Way::Exhausted => {},
    }
}

proof fn a_pass_keeps_the_replicas<A>(s: Session<A>, net: Net<A>, k: nat, x: Seq<A>, top_k: u32)
    requires
        net.fits(),
        s.is_steady(net),
    ensures
        ({
            let (after, way) = s.pass(net, k, x, top_k);
            s.keeps(net, k, top_k, after, way)
        }),
{
    if s.chained(net, k, top_k) {
        a_chained_pass_keeps_the_replicas(s, net, k, x, top_k);
    } else {
        let tells = s.in_pass(k);
        a_pass_breaks_at_one_replica(net, s.layers, 0, x, tells);
        let (after, way) = net.pass(s.layers, 0, x, tells);
        assert(only_die(net.stages, after.stages));
        if s.may_chain {
            what_is_learned_stays_in_order(net, after.stages);
        }
        if way is Through {
            assert forall|i: int| 0 <= i < net.stages.len() implies (#[trigger] net.asked(i)) is Some
                && (s.tells)(k, i, net.asked(i).unwrap()) is Answered by {
                assert(tells(i, net.asked(i).unwrap()) is Answered);
            }
        }
    }
}

/// What is known of a pass of a session: where it came through the replicas hold
/// what was sent too, and the output is that of a route on which nothing failed.
proof fn a_pass_of_a_session<A>(
    s: Session<A>,
    net: Net<A>,
    k: nat,
    before: Seq<A>,
    x: Seq<A>,
    top_k: u32,
)
    requires
        net.fits(),
        s.is_steady(net),
        s.holds(net, k, before),
    ensures
        ({
            let (after, way) = s.pass(net, k, x, top_k);
            &&& s.keeps(net, k, top_k, after, way)
            &&& way matches Way::Through(out) ==> {
                &&& out == s.layers.through(net.stages.len() as int, before + x).skip(
                    before.len() as int,
                )
                &&& forall|m: nat| #[trigger] s.holds(after, m, before + x)
            }
        }),
{
    let tells = s.in_pass(k);
    assert((before + x).skip(before.len() as int) =~= x);
    assert forall|i: int| 0 <= i < net.stages.len() implies match #[trigger] net.asked(i) {
        Some(r) => tells(i, r) is Answered ==> net.held[i][r] == s.layers.through(i, before),
        None => true,
    } by {}
    a_pass_keeps_the_replicas(s, net, k, x, top_k);
    if s.chained(net, k, top_k) {
        a_chain_asks_what_stages_ask(net, top_k);
        a_chain_goes_on_from_what_is_held(net, s.layers, 0, before, x, tells);
    } else {
        a_pass_goes_on_from_what_is_held(net, s.layers, 0, before, x, tells);
    }
    let (after, way) = s.pass(net, k, x, top_k);
    if way is Through {
        assert forall|m: nat| #[trigger] s.holds(after, m, before + x) by {
            assert forall|i: int|
                0 <= i < after.stages.len() implies match #[trigger] after.asked(i) {
                Some(r) => (s.tells)(m, i, r) is Answered ==> after.held[i][r] == s.layers.through(
                    i,
                    before + x,
                ),
                None => true,
            } by {
                assert(after.asked(i) == net.asked(i));
            }
        }
    }
}

/// Only replicas that were asked have run anything, and where the pass broke only those
/// of the stages before.
spec fn only_the_asked_run<A>(net: Net<A>, after: Net<A>, way: Way<A>) -> bool {
    forall|i: int, r: int|
        0 <= i < net.stages.len() && 0 <= r < net.stages[i].replicas.len() ==> (
        #[trigger] after.held[i][r]) == net.held[i][r] || (net.asked(i) == Some(r) && (
        way matches Way::Broken { stage, .. } ==> i < stage))
}

proof fn a_staged_pass_fills_the_asked<A>(
    net: Net<A>,
    l: Layers<A>,
    stage: int,
    input: Seq<A>,
    tells: spec_fn(int, int) -> Outcome,
)
    requires
        net.fits(),
        0 <= stage <= net.stages.len(),
    ensures
        ({
            let (after, way) = net.pass(l, stage, input, tells);
            &&& only_the_asked_run(net, after, way)
            &&& way matches Way::Broken { stage: s, .. } ==> stage <= s
        }),
    decreases net.stages.len() - stage,
{
    if stage < net.stages.len() {
        crate::orchestrator::the_next_alive_is_the_first(net.stages[stage].replicas, 0);
        if let Some(r) = net.asked(stage) {
            if tells(stage, r) is Answered {
                let before = net.held[stage][r];
                let out = l.outputs(stage, before + input).skip(before.len() as int);
                let next = net.after_answer(stage, r, input, tells(stage, r));
                an_answer_keeps_the_places(net, stage, r, input, tells(stage, r));
                a_staged_pass_fills_the_asked(next, l, stage + 1, out, tells);
                let (after, way) = next.pass(l, stage + 1, out, tells);
                assert forall|i: int, q: int|
                    0 <= i < net.stages.len() && 0 <= q < net.stages[i].replicas.len() implies (
                #[trigger] after.held[i][q]) == net.held[i][q] || (net.asked(i) == Some(q) && (
                way matches Way::Broken { stage: s, .. } ==> i < s)) by {
                    assert(next.stages[i].replicas.len() == net.stages[i].replicas.len());
                    assert(next.asked(i) == net.asked(i));
                    assert(net.held[i].len() == net.stages[i].replicas.len());
                    if !(i == stage && q == r) {
                        assert(next.held[i][q] == net.held[i][q]);
                    }
                }
            }
        }
    }
}

proof fn a_chain_fills_the_asked<A>(
    net: Net<A>,
    l: Layers<A>,
    stage: int,
    input: Seq<A>,
    tells: spec_fn(int, int) -> Outcome,
)
    requires
        net.fits(),
        asks_alike(net),
        0 <= stage <= net.stages.len(),
    ensures
        ({
            let (after, way) = net.handed_on(l, stage, input, tells);
            &&& only_the_asked_run(net, after, way)
            &&& way matches Way::Broken { stage: s, .. } ==> stage <= s
        }),
    decreases net.stages.len() - stage,
{
    if stage < net.stages.len() {
        assert(crate::orchestrator::chain_place(net.stages[stage].replicas, 0) == net.asked(
            stage,
        ));
        crate::orchestrator::the_next_alive_is_the_first(net.stages[stage].replicas, 0);
        if let Some(r) = net.asked(stage) {
            if tells(stage, r) is Answered {
                let before = net.held[stage][r];
                let out = l.outputs(stage, before + input).skip(before.len() as int);
                let next = Net {
                    held: net.held.update(stage, net.held[stage].update(r, before + input)),
                    ..net
                };
                assert(asks_alike(next)) by {
                    assert forall|i: int|
                        0 <= i < next.stages.len() implies crate::orchestrator::chain_place(
                        next.stages[i].replicas,
                        0,
                    ) == #[trigger] next.asked(i) by {
                        assert(net.asked(i) == next.asked(i));
                    }
                }
                a_chain_fills_the_asked(next, l, stage + 1, out, tells);
                let (after, way) = next.handed_on(l, stage + 1, out, tells);
                assert forall|i: int, q: int|
                    0 <= i < net.stages.len() && 0 <= q < net.stages[i].replicas.len() implies (
                #[trigger] after.held[i][q]) == net.held[i][q] || (net.asked(i) == Some(q) && (
                way matches Way::Broken { stage: s, .. } ==> i < s)) by {
                    assert(next.asked(i) == net.asked(i));
                    assert(net.held[i].len() == net.stages[i].replicas.len());
                    if !(i == stage && q == r) {
                        assert(next.held[i][q] == net.held[i][q]);
                    }
                }
            }
        }
    }
}

proof fn a_pass_fills_the_asked<A>(s: Session<A>, net: Net<A>, k: nat, x: Seq<A>, top_k: u32)
    requires
        net.fits(),
        s.is_steady(net),
    ensures
        ({
            let (after, way) = s.pass(net, k, x, top_k);
            only_the_asked_run(net, after, way)
        }),
{
    let tells = s.in_pass(k);
    if s.chained(net, k, top_k) {
        a_chain_asks_what_stages_ask(net, top_k);
        a_chain_fills_the_asked(net, s.layers, 0, x, tells);
        let (after, way) = s.pass(net, k, x, top_k);
        let (mid, _) = net.handed_on(s.layers, 0, x, tells);
        assert(after.held == mid.held);
        assert forall|i: int, q: int|
            0 <= i < net.stages.len() && 0 <= q < net.stages[i].replicas.len() implies (
        #[trigger] after.held[i][q]) == net.held[i][q] || (net.asked(i) == Some(q) && (
        way matches Way::Broken { stage, .. } ==> i < stage)) by {
            assert(mid.held[i][q] == after.held[i][q]);
        }
    } else {
        a_staged_pass_fills_the_asked(net, s.layers, 0, x, tells);
    }
}

/// A step that comes to an end gives what a route gives on which nothing failed,
/// and leaves the replicas with all of the session.
proof fn a_step_gives_what_it_should<A>(
    s: Session<A>,
    net: Net<A>,
    k: nat,
    g: crate::generation::GenerationView,
    run: StepRun,
)
    requires
        net.fits(),
        s.step_is_clean(net, k, g, run),
        s.is_steady(net),
        s.can_step(g),
        run.has_prefill == s.prefill is Some,
        s.holds(net, k, s.held_for(g, run.sending)),
    ensures
        ({
            let (after, next, out) = s.step(net, k, g, run);
            &&& after.fits()
            &&& s.is_steady(after)
            &&& same_places(net.stages, after.stages)
            &&& only_die(net.stages, after.stages)
            &&& next > k
            &&& out matches Some(o) ==> {
                &&& s.layers.drawn(o) == s.layers.drawn(
                    s.layers.through(net.stages.len() as int, s.whole(g)),
                )
                &&& s.holds(after, next, s.whole(g))
            }
        }),
    decreases
        if run.replays < MAX_REPLAYS {
            MAX_REPLAYS - run.replays
        } else {
            0
        },
        if run.sending is Prefill {
            1int
        } else {
            0int
        },
{
    let before = s.held_for(g, run.sending);
    let x = s.input(g, run.sending);
    let n = net.stages.len() as int;
    let top_k = asked_for(run.sending);
    let (mid, way) = s.pass(net, k, x, top_k);
    a_pass_of_a_session(s, net, k, before, x, top_k);
    let next = run.after(way.came());
    match run.action(way.came()) {
        StepAction::Done => {
            sent_parts_make_the_whole(s, g, run.sending);
            what_comes_later_changes_nothing(s.layers, n, s.whole(g), 0);
            assert(s.holds(mid, k + 1, before + x));
        },
        StepAction::Fail => {},
        StepAction::Send(_) => {
            assert(before + x =~= s.ahead());
            assert(s.holds(mid, k + 1, before + x));
            a_step_gives_what_it_should(s, mid, k + 1, g, next);
            let (after, _, _) = s.step(mid, k + 1, g, next);
            deaths_add_up(net.stages, mid.stages, after.stages);
        },
        StepAction::ClearAndSend(_) => {
            let fresh = mid.cleared(s.in_pass(k + 1));
            a_cleared_net_fits(mid, s.in_pass(k + 1));
            a_bare_net_holds_nothing(s, fresh, k + 1);
            assert(!(s.prefill is Some) ==> s.ahead() =~= Seq::<A>::empty());
            a_step_gives_what_it_should(s, fresh, k + 1, g, next);
            let (after, _, _) = s.step(fresh, k + 1, g, next);
            deaths_add_up(net.stages, mid.stages, after.stages);
        },
    }
}

proof fn deaths_add_up(
    a: Seq<crate::orchestrator::StageView>,
    b: Seq<crate::orchestrator::StageView>,
    c: Seq<crate::orchestrator::StageView>,
)
    requires
        same_places(a, b),
        same_places(b, c),
        only_die(a, b),
        only_die(b, c),
    ensures
        same_places(a, c),
        only_die(a, c),
{
    assert forall|i: int| 0 <= i < a.len() implies (#[trigger] a[i]).replicas.len()
        == c[i].replicas.len() by {
        assert(b[i].replicas.len() == a[i].replicas.len());
    }
    assert forall|i: int, r: int|
        0 <= i < a.len() && 0 <= r < a[i].replicas.len() implies same_replica(
        #[trigger] a[i].replicas[r],
        c[i].replicas[r],
    ) by {
        assert(b[i].replicas.len() == a[i].replicas.len());
        assert(same_replica(b[i].replicas[r], c[i].replicas[r]));
    }
    assert forall|i: int, r: int|
        0 <= i < a.len() && 0 <= r < a[i].replicas.len() && #[trigger] alive_at(
            c,
            i,
            r,
        ) implies alive_at(a, i, r) by {
        assert(b[i].replicas.len() == a[i].replicas.len());
        assert(alive_at(b, i, r));
    }
}

proof fn an_answer_goes_on_as_it_should<A>(
    s: Session<A>,
    net: Net<A>,
    k: nat,
    g: crate::generation::GenerationView,
    out: Seq<A>,
)
    requires
        net.fits(),
        s.rest_is_clean(net, k, g, out),
        s.is_steady(net),
        s.holds(net, k, s.whole(g)),
        g.sampled > 0 ==> g.ids.len() > 0,
        s.layers.drawn(out) == s.layers.drawn(
            s.layers.through(net.stages.len() as int, s.whole(g)),
        ),
    ensures
        ({
            let (after, next, a) = s.go_on(net, k, g, out);
            &&& same_places(net.stages, after.stages)
            &&& only_die(net.stages, after.stages)
            &&& a is Some ==> s.plain(net.stages.len() as int, g) == a
        }),
    decreases g.max_new_tokens - g.sampled,
{
    let n = net.stages.len() as int;
    if let Some(token) = s.layers.drawn(out) {
        if !g.drawn(token).finished {
            let g1 = g.after(token);
            let run = StepRun {
                replays: 0,
                sending: Sending::Step,
                has_prefill: s.prefill is Some,
            };
            assert(g.ids.push(token).drop_last() =~= g.ids);
            a_step_gives_what_it_should(s, net, k, g1, run);
            let (mid, next, out1) = s.step(net, k, g1, run);
            if let Some(o) = out1 {
                an_answer_goes_on_as_it_should(s, mid, next, g1, o);
                let (after, _, _) = s.go_on(mid, next, g1, o);
                deaths_add_up(net.stages, mid.stages, after.stages);
            }
        }
    }
}

proof fn a_fresh_net_holds_nothing<A>(s: Session<A>, net: Net<A>, k: nat)
    requires
        net.fits(),
        net.is_fresh(),
    ensures
        s.holds(net, k, Seq::empty()),
{
    assert forall|i: int| 0 <= i < net.stages.len() implies match #[trigger] net.asked(i) {
        Some(r) => (s.tells)(k, i, r) is Answered ==> net.held[i][r].len() == 0,
        None => true,
    } by {
        crate::orchestrator::the_next_alive_is_the_first(net.stages[i].replicas, 0);
    }
    a_bare_net_holds_nothing(s, net, k);
}

/// Of some replicas, those that still count as alive.
pub open spec fn left(
    stages: Seq<crate::orchestrator::StageView>,
    doomed: Set<(int, int)>,
) -> Set<(int, int)> {
    doomed.filter(
        |p: (int, int)|
            0 <= p.0 < stages.len() && 0 <= p.1 < stages[p.0].replicas.len() && alive_at(
                stages,
                p.0,
                p.1,
            ),
    )
}

/// A stage has a replica that counts as alive and is not one of these.
pub open spec fn stage_spared(
    stages: Seq<crate::orchestrator::StageView>,
    doomed: Set<(int, int)>,
    stage: int,
) -> bool {
    exists|r: int|
        0 <= r < stages[stage].replicas.len() && #[trigger] alive_at(stages, stage, r)
            && !doomed.contains((stage, r))
}

/// Each stage has a replica that counts as alive and is not one of these.
pub open spec fn spared(
    stages: Seq<crate::orchestrator::StageView>,
    doomed: Set<(int, int)>,
) -> bool {
    forall|i: int| 0 <= i < stages.len() ==> #[trigger] stage_spared(stages, doomed, i)
}

/// A replica that is not one of these stays alive.
pub open spec fn others_stay(
    a: Seq<crate::orchestrator::StageView>,
    b: Seq<crate::orchestrator::StageView>,
    doomed: Set<(int, int)>,
) -> bool {
    forall|i: int, r: int|
        0 <= i < a.len() && 0 <= r < a[i].replicas.len() && !doomed.contains((i, r))
            ==> #[trigger] alive_at(b, i, r) == alive_at(a, i, r)
}

impl<A> Session<A> {
    /// No replica fails but these.
    pub open spec fn only_these_fail(self, doomed: Set<(int, int)>) -> bool {
        forall|k: nat, i: int, r: int|
            #[trigger] (self.tells)(k, i, r) is Failed ==> doomed.contains((i, r))
    }

    /// How many replicas may fail: as many as a step may be sent again, and only
    /// one where something was embedded, as a failure while that is sent again is
    /// final.
    pub open spec fn may_fail(self) -> nat {
        if self.prefill is Some {
            1
        } else {
            MAX_REPLAYS as nat
        }
    }
}

/// Where passes may be chains, a node fails at all of its places, and the one that
/// fails is blamed.
pub open spec fn nodes_fail_as_one(
    stages: Seq<crate::orchestrator::StageView>,
    doomed: Set<(int, int)>,
) -> bool {
    forall|i: int, r: int, j: int, q: int|
        0 <= i < stages.len() && 0 <= r < stages[i].replicas.len() && 0 <= j < stages.len() && 0
            <= q < stages[j].replicas.len() && #[trigger] at_one_endpoint(
            stages[i].replicas[r],
            stages[j].replicas[q],
        ) && doomed.contains((i, r)) ==> doomed.contains((j, q))
}

/// Two replicas are nodes that are asked at the same endpoint.
pub open spec fn at_one_endpoint(
    a: crate::orchestrator::ReplicaView,
    b: crate::orchestrator::ReplicaView,
) -> bool {
    a is Remote && b is Remote && a->Remote_compute_endpoint == b->Remote_compute_endpoint
}

impl<A> Session<A> {
    /// A hop of a chain that does not answer is itself blamed for it.
    pub open spec fn blames_the_hop(self, stages: Seq<crate::orchestrator::StageView>) -> bool {
        forall|k: nat, i: int, r: int|
            0 <= i < stages.len() && 0 <= r < stages[i].replicas.len() && stages[i].replicas[r]
                is Remote && (self.tells)(k, i, r) is Failed ==> #[trigger] (self.blames)(k, i, r)
                == stages[i].replicas[r]->Remote_compute_endpoint
    }

    /// What makes a chain that breaks lose only replicas that fail.
    pub open spec fn is_fair(
        self,
        stages: Seq<crate::orchestrator::StageView>,
        doomed: Set<(int, int)>,
    ) -> bool {
        self.may_chain ==> nodes_fail_as_one(stages, doomed) && self.blames_the_hop(stages)
    }
}

proof fn what_is_fair_stays_fair<A>(
    s: Session<A>,
    a: Seq<crate::orchestrator::StageView>,
    b: Seq<crate::orchestrator::StageView>,
    doomed: Set<(int, int)>,
)
    requires
        s.is_fair(a, doomed),
        same_places(a, b),
    ensures
        s.is_fair(b, doomed),
{
    if s.may_chain {
        assert forall|i: int, r: int, j: int, q: int|
            0 <= i < b.len() && 0 <= r < b[i].replicas.len() && 0 <= j < b.len() && 0 <= q
                < b[j].replicas.len() && #[trigger] at_one_endpoint(
                b[i].replicas[r],
                b[j].replicas[q],
            ) && doomed.contains((i, r)) implies doomed.contains((j, q)) by {
            assert(a[i].replicas.len() == b[i].replicas.len());
            assert(a[j].replicas.len() == b[j].replicas.len());
            assert(same_replica(a[i].replicas[r], b[i].replicas[r]));
            assert(same_replica(a[j].replicas[q], b[j].replicas[q]));
            assert(at_one_endpoint(a[i].replicas[r], a[j].replicas[q]));
        }
        assert forall|k: nat, i: int, r: int|
            0 <= i < b.len() && 0 <= r < b[i].replicas.len() && b[i].replicas[r]
                is Remote && (s.tells)(k, i, r) is Failed implies #[trigger] (s.blames)(k, i, r)
            == b[i].replicas[r]->Remote_compute_endpoint by {
            assert(a[i].replicas.len() == b[i].replicas.len());
            assert(same_replica(a[i].replicas[r], b[i].replicas[r]));
        }
    }
}

proof fn what_is_left_is_finite(
    stages: Seq<crate::orchestrator::StageView>,
    doomed: Set<(int, int)>,
)
    requires
        doomed.finite(),
    ensures
        left(stages, doomed).finite(),
        left(stages, doomed).len() <= doomed.len(),
{
    let f = |p: (int, int)|
        0 <= p.0 < stages.len() && 0 <= p.1 < stages[p.0].replicas.len() && alive_at(
            stages,
            p.0,
            p.1,
        );
    doomed.lemma_len_filter(f);
    assert(left(stages, doomed) =~= doomed.filter(f));
}

/// What a pass does where each stage has a replica that does not fail: it comes
/// through, or breaks at one of the others, which is lost.
proof fn a_pass_loses_what_fails<A>(
    s: Session<A>,
    net: Net<A>,
    k: nat,
    x: Seq<A>,
    top_k: u32,
    doomed: Set<(int, int)>,
)
    requires
        net.fits(),
        s.is_steady(net),
        doomed.finite(),
        s.is_fair(net.stages, doomed),
        s.only_these_fail(doomed),
        spared(net.stages, doomed),
    ensures
        ({
            let (after, way) = s.pass(net, k, x, top_k);
            &&& s.keeps(net, k, top_k, after, way)
            &&& s.is_fair(after.stages, doomed)
            &&& spared(after.stages, doomed)
            &&& others_stay(net.stages, after.stages, doomed)
            &&& match way {
                Way::Through(_) => left(after.stages, doomed) == left(net.stages, doomed),
                Way::Broken { stage, replica } => {
                    &&& left(after.stages, doomed).len() < left(net.stages, doomed).len()
                    &&& doomed.contains((stage, replica))
                    &&& !alive_at(after.stages, stage, replica)
                },
                Way::Exhausted => false,
            }
        }),
{
    a_pass_keeps_the_replicas(s, net, k, x, top_k);
    let (after, way) = s.pass(net, k, x, top_k);
    what_is_fair_stays_fair(s, net.stages, after.stages, doomed);
    let a = left(net.stages, doomed);
    let b = left(after.stages, doomed);
    what_is_left_is_finite(net.stages, doomed);
    assert forall|i: int| 0 <= i < net.stages.len() implies (#[trigger] net.asked(i)) is Some by {
        let st = net.stages[i];
        assert(stage_spared(net.stages, doomed, i));
        let r = choose|r: int|
            0 <= r < st.replicas.len() && #[trigger] alive_at(net.stages, i, r)
                && !doomed.contains((i, r));
        crate::orchestrator::the_next_alive_is_the_first(st.replicas, 0);
        assert(st.replicas[r].is_alive());
    }
    assert forall|i: int, r: int|
        0 <= i < net.stages.len() && 0 <= r < net.stages[i].replicas.len() && !doomed.contains(
            (i, r),
        ) implies #[trigger] alive_at(after.stages, i, r) == alive_at(net.stages, i, r) by {
        if let Way::Broken { stage, replica } = way {
            assert((s.tells)(k, stage, replica) is Failed);
            if s.chained(net, k, top_k) && s.struck(net, k, top_k, (stage, replica), i, r) {
                a_chain_asks_what_stages_ask(net, top_k);
                assert(net.asked(stage) == Some(replica));
                assert((s.blames)(k, stage, replica)
                    == net.stages[stage].replicas[replica]->Remote_compute_endpoint);
                assert(at_one_endpoint(
                    net.stages[stage].replicas[replica],
                    net.stages[i].replicas[r],
                ));
            }
        }
    }
    assert forall|i: int| 0 <= i < after.stages.len() implies #[trigger] stage_spared(
        after.stages,
        doomed,
        i,
    ) by {
        let st = net.stages[i];
        assert(stage_spared(net.stages, doomed, i));
        let r = choose|r: int|
            0 <= r < st.replicas.len() && #[trigger] alive_at(net.stages, i, r)
                && !doomed.contains((i, r));
        assert(st.replicas.len() == after.stages[i].replicas.len());
        assert(alive_at(after.stages, i, r));
    }
    assert forall|i: int| 0 <= i < net.stages.len() implies (
    #[trigger] net.stages[i]).replicas.len() == after.stages[i].replicas.len() by {}
    match way {
        Way::Through(_) => {
            assert forall|p: (int, int)| a.contains(p) == b.contains(p) by {
                if 0 <= p.0 < net.stages.len() && 0 <= p.1 < net.stages[p.0].replicas.len() {
                    assert(alive_at(after.stages, p.0, p.1) == alive_at(net.stages, p.0, p.1));
                }
            }
            assert(a =~= b);
        },
        Way::Broken { stage, replica } => {
            assert((s.tells)(k, stage, replica) is Failed);
            assert(a.contains((stage, replica)));
            if s.chained(net, k, top_k) {
                a_chain_asks_what_stages_ask(net, top_k);
                assert(net.asked(stage) == Some(replica));
                assert((s.blames)(k, stage, replica)
                    == net.stages[stage].replicas[replica]->Remote_compute_endpoint);
            }
            assert(s.struck(net, k, top_k, (stage, replica), stage, replica));
            assert(!alive_at(after.stages, stage, replica));
            let rest = a.remove((stage, replica));
            assert forall|p: (int, int)| b.contains(p) implies rest.contains(p) by {
                if 0 <= p.0 < net.stages.len() && 0 <= p.1 < net.stages[p.0].replicas.len() {
                    assert(alive_at(after.stages, p.0, p.1) ==> alive_at(net.stages, p.0, p.1));
                }
            }
            vstd::set_lib::lemma_len_subset(b, rest);
        },
        Way::Exhausted => {
            let i = choose|i: int| 0 <= i < net.stages.len() && (#[trigger] net.asked(i)) is None;
            assert(net.asked(i) is Some);
        },
    }
}

proof fn survivors_add_up(
    a: Seq<crate::orchestrator::StageView>,
    b: Seq<crate::orchestrator::StageView>,
    c: Seq<crate::orchestrator::StageView>,
    doomed: Set<(int, int)>,
)
    requires
        same_places(a, b),
        same_places(b, c),
        others_stay(a, b, doomed),
        others_stay(b, c, doomed),
    ensures
        others_stay(a, c, doomed),
        same_places(a, c),
{
    assert forall|i: int| 0 <= i < a.len() implies (#[trigger] a[i]).replicas.len()
        == c[i].replicas.len() by {
        assert(b[i].replicas.len() == a[i].replicas.len());
    }
    assert forall|i: int, r: int|
        0 <= i < a.len() && 0 <= r < a[i].replicas.len() implies same_replica(
        #[trigger] a[i].replicas[r],
        c[i].replicas[r],
    ) by {
        assert(b[i].replicas.len() == a[i].replicas.len());
        assert(same_replica(b[i].replicas[r], c[i].replicas[r]));
    }
    assert forall|i: int, r: int|
        0 <= i < a.len() && 0 <= r < a[i].replicas.len() && !doomed.contains(
            (i, r),
        ) implies #[trigger] alive_at(c, i, r) == alive_at(a, i, r) by {
        assert(b[i].replicas.len() == a[i].replicas.len());
        assert(alive_at(b, i, r) == alive_at(a, i, r));
    }
}

proof fn a_step_survives<A>(
    s: Session<A>,
    net: Net<A>,
    k: nat,
    g: crate::generation::GenerationView,
    run: StepRun,
    doomed: Set<(int, int)>,
)
    requires
        net.fits(),
        s.is_steady(net),
        doomed.finite(),
        s.is_fair(net.stages, doomed),
        s.only_these_fail(doomed),
        spared(net.stages, doomed),
        run.has_prefill == s.prefill is Some,
        run.sending is Prefill ==> run.has_prefill && run.replays >= 1,
        run.replays + left(net.stages, doomed).len() <= s.may_fail(),
    ensures
        ({
            let (after, next, out) = s.step(net, k, g, run);
            &&& out is Some
            &&& after.fits()
            &&& s.is_steady(after)
            &&& s.is_fair(after.stages, doomed)
            &&& same_places(net.stages, after.stages)
            &&& spared(after.stages, doomed)
            &&& others_stay(net.stages, after.stages, doomed)
            &&& left(after.stages, doomed).len() <= left(net.stages, doomed).len()
        }),
    decreases
        if run.replays < MAX_REPLAYS {
            MAX_REPLAYS - run.replays
        } else {
            0
        },
        if run.sending is Prefill {
            1int
        } else {
            0int
        },
{
    let x = s.input(g, run.sending);
    let top_k = asked_for(run.sending);
    let (mid, way) = s.pass(net, k, x, top_k);
    a_pass_loses_what_fails(s, net, k, x, top_k, doomed);
    let next = run.after(way.came());
    match run.action(way.came()) {
        StepAction::Done => {},
        StepAction::Fail => {
            assert(way is Broken);
            assert(run.replays < s.may_fail());
            assert(s.may_fail() <= MAX_REPLAYS);
            assert(false);
        },
        StepAction::Send(_) => {
            a_step_survives(s, mid, k + 1, g, next, doomed);
            let (after, _, _) = s.step(mid, k + 1, g, next);
            survivors_add_up(net.stages, mid.stages, after.stages, doomed);
        },
        StepAction::ClearAndSend(_) => {
            let fresh = mid.cleared(s.in_pass(k + 1));
            assert forall|i: int|
                0 <= i < fresh.stages.len() implies (#[trigger] fresh.held[i]).len()
                == fresh.stages[i].replicas.len() by {
                assert(mid.held[i].len() == mid.stages[i].replicas.len());
            }
            a_step_survives(s, fresh, k + 1, g, next, doomed);
            let (after, _, _) = s.step(fresh, k + 1, g, next);
            survivors_add_up(net.stages, mid.stages, after.stages, doomed);
        },
    }
}

proof fn the_rest_of_an_answer_survives<A>(
    s: Session<A>,
    net: Net<A>,
    k: nat,
    g: crate::generation::GenerationView,
    out: Seq<A>,
    doomed: Set<(int, int)>,
)
    requires
        net.fits(),
        s.rest_is_clean(net, k, g, out),
        s.is_steady(net),
        s.holds(net, k, s.whole(g)),
        g.sampled > 0 ==> g.ids.len() > 0,
        s.layers.drawn(out) == s.layers.drawn(
            s.layers.through(net.stages.len() as int, s.whole(g)),
        ),
        doomed.finite(),
        s.is_fair(net.stages, doomed),
        s.only_these_fail(doomed),
        spared(net.stages, doomed),
        left(net.stages, doomed).len() <= s.may_fail(),
    ensures
        ({
            let (after, next, a) = s.go_on(net, k, g, out);
            &&& a == s.plain(net.stages.len() as int, g)
            &&& same_places(net.stages, after.stages)
            &&& others_stay(net.stages, after.stages, doomed)
        }),
    decreases g.max_new_tokens - g.sampled,
{
    if let Some(token) = s.layers.drawn(out) {
        if !g.drawn(token).finished {
            let g1 = g.after(token);
            let run = StepRun {
                replays: 0,
                sending: Sending::Step,
                has_prefill: s.prefill is Some,
            };
            assert(g.ids.push(token).drop_last() =~= g.ids);
            a_step_gives_what_it_should(s, net, k, g1, run);
            a_step_survives(s, net, k, g1, run, doomed);
            let (mid, next, out1) = s.step(net, k, g1, run);
            let o = out1.unwrap();
            the_rest_of_an_answer_survives(s, mid, next, g1, o, doomed);
            let (after, _, _) = s.go_on(mid, next, g1, o);
            survivors_add_up(net.stages, mid.stages, after.stages, doomed);
        }
    }
}

/// A stage asks this replica as long as it counts as alive: none before it does.
pub open spec fn is_first(
    stages: Seq<crate::orchestrator::StageView>,
    stage: int,
    replica: int,
) -> bool {
    forall|r: int| 0 <= r < replica ==> !#[trigger] alive_at(stages, stage, r)
}

impl<A> Session<A> {
    /// One replica fails from a pass on, and no other ever does.
    pub open spec fn only_one_dies(self, stage: int, replica: int, at: nat) -> bool {
        forall|k: nat, i: int, r: int|
            #[trigger] (self.tells)(k, i, r) is Failed <==> i == stage && r == replica && k >= at
    }
}

/// What is known before pass `k` of a replica that fails from pass `at` on.
spec fn dies_in_time<A>(
    s: Session<A>,
    net: Net<A>,
    k: nat,
    stage: int,
    replica: int,
    at: nat,
) -> bool {
    &&& net.fits()
    &&& s.is_steady(net)
    &&& s.is_fair(net.stages, set![(stage, replica)])
    &&& 0 <= stage < net.stages.len()
    &&& 0 <= replica < net.stages[stage].replicas.len()
    &&& spared(net.stages, set![(stage, replica)])
    &&& is_first(net.stages, stage, replica)
    &&& alive_at(net.stages, stage, replica) <==> k <= at
    &&& k <= at ==> only_the_asked_hold(net)
    &&& k == 0 ==> net.is_fresh()
}

proof fn a_pass_notes_a_death<A>(
    s: Session<A>,
    net: Net<A>,
    k: nat,
    x: Seq<A>,
    top_k: u32,
    stage: int,
    replica: int,
    at: nat,
)
    requires
        s.only_one_dies(stage, replica, at),
        dies_in_time(s, net, k, stage, replica, at),
    ensures
        ({
            let (after, way) = s.pass(net, k, x, top_k);
            &&& dies_in_time(s, after, k + 1, stage, replica, at)
            &&& same_places(net.stages, after.stages)
            &&& others_stay(net.stages, after.stages, set![(stage, replica)])
        }),
{
    let doomed = set![(stage, replica)];
    assert(s.only_these_fail(doomed)) by {
        assert forall|m: nat, i: int, r: int|
            #[trigger] (s.tells)(m, i, r) is Failed implies doomed.contains((i, r)) by {}
    }
    a_pass_loses_what_fails(s, net, k, x, top_k, doomed);
    let (after, way) = s.pass(net, k, x, top_k);
    crate::orchestrator::the_next_alive_is_the_first(net.stages[stage].replicas, 0);
    if k <= at {
        let first = net.asked(stage);
        if let Some(q) = first {
            assert(alive_at(net.stages, stage, q));
        }
        assert(net.stages[stage].replicas[replica].is_alive());
        assert(first == Some(replica));
        assert((s.tells)(k, stage, replica) is Failed <==> k == at);
    }
    match way {
        Way::Broken { stage: i, replica: r } => {
            assert((s.tells)(k, i, r) is Failed);
            assert(alive_at(after.stages, stage, replica) == false);
        },
        _ => {
            assert(alive_at(after.stages, stage, replica) == alive_at(net.stages, stage, replica));
        },
    }
    a_pass_fills_the_asked(s, net, k, x, top_k);
    if k + 1 <= at {
        assert(way is Through);
        assert forall|i: int, r: int|
            0 <= i < after.stages.len() && 0 <= r < after.stages[i].replicas.len() && (
            #[trigger] after.held[i][r]).len() > 0 implies after.asked(i) == Some(r) by {
            assert(net.stages[i].replicas.len() == after.stages[i].replicas.len());
            assert(after.asked(i) == net.asked(i));
        }
    }
    assert(net.stages[stage].replicas.len() == after.stages[stage].replicas.len());
    assert forall|r: int| 0 <= r < replica implies !#[trigger] alive_at(
        after.stages,
        stage,
        r,
    ) by {
        assert(!alive_at(net.stages, stage, r));
        assert(!doomed.contains((stage, r)));
        assert(alive_at(after.stages, stage, r) == alive_at(net.stages, stage, r));
    }
}

proof fn a_step_notes_a_death<A>(
    s: Session<A>,
    net: Net<A>,
    k: nat,
    g: crate::generation::GenerationView,
    run: StepRun,
    stage: int,
    replica: int,
    at: nat,
)
    requires
        s.only_one_dies(stage, replica, at),
        dies_in_time(s, net, k, stage, replica, at),
    ensures
        ({
            let (after, next, out) = s.step(net, k, g, run);
            &&& dies_in_time(s, after, next, stage, replica, at)
            &&& same_places(net.stages, after.stages)
            &&& others_stay(net.stages, after.stages, set![(stage, replica)])
        }),
    decreases
        if run.replays < MAX_REPLAYS {
            MAX_REPLAYS - run.replays
        } else {
            0
        },
        if run.sending is Prefill {
            1int
        } else {
            0int
        },
{
    let doomed = set![(stage, replica)];
    let x = s.input(g, run.sending);
    let top_k = asked_for(run.sending);
    let (mid, way) = s.pass(net, k, x, top_k);
    a_pass_notes_a_death(s, net, k, x, top_k, stage, replica, at);
    let next = run.after(way.came());
    match run.action(way.came()) {
        StepAction::Done => {},
        StepAction::Fail => {},
        StepAction::Send(_) => {
            a_step_notes_a_death(s, mid, k + 1, g, next, stage, replica, at);
            let (after, _, _) = s.step(mid, k + 1, g, next);
            survivors_add_up(net.stages, mid.stages, after.stages, doomed);
        },
        StepAction::ClearAndSend(_) => {
            if let Way::Broken { stage: i, replica: r } = way {
                a_pass_keeps_the_replicas(s, net, k, x, top_k);
                assert((s.tells)(k, i, r) is Failed);
            }
            let fresh = mid.cleared(s.in_pass(k + 1));
            assert forall|i: int|
                0 <= i < fresh.stages.len() implies (#[trigger] fresh.held[i]).len()
                == fresh.stages[i].replicas.len() by {
                assert(mid.held[i].len() == mid.stages[i].replicas.len());
            }
            a_step_notes_a_death(s, fresh, k + 1, g, next, stage, replica, at);
            let (after, _, _) = s.step(fresh, k + 1, g, next);
            survivors_add_up(net.stages, mid.stages, after.stages, doomed);
        },
    }
}

proof fn an_answer_notes_a_death<A>(
    s: Session<A>,
    net: Net<A>,
    k: nat,
    g: crate::generation::GenerationView,
    out: Seq<A>,
    stage: int,
    replica: int,
    at: nat,
)
    requires
        s.only_one_dies(stage, replica, at),
        dies_in_time(s, net, k, stage, replica, at),
    ensures
        ({
            let (after, next, a) = s.go_on(net, k, g, out);
            &&& dies_in_time(s, after, next, stage, replica, at)
            &&& same_places(net.stages, after.stages)
            &&& others_stay(net.stages, after.stages, set![(stage, replica)])
        }),
    decreases g.max_new_tokens - g.sampled,
{
    if let Some(token) = s.layers.drawn(out) {
        if !g.drawn(token).finished {
            let g1 = g.after(token);
            let run = StepRun {
                replays: 0,
                sending: Sending::Step,
                has_prefill: s.prefill is Some,
            };
            a_step_notes_a_death(s, net, k, g1, run, stage, replica, at);
            let (mid, next, out1) = s.step(net, k, g1, run);
            if let Some(o) = out1 {
                an_answer_notes_a_death(s, mid, next, g1, o, stage, replica, at);
                let (after, _, _) = s.go_on(mid, next, g1, o);
                survivors_add_up(net.stages, mid.stages, after.stages, set![(stage, replica)]);
            }
        }
    }
}

proof fn a_step_is_clean_without_relays_or_failures<A>(
    s: Session<A>,
    net: Net<A>,
    k: nat,
    g: crate::generation::GenerationView,
    run: StepRun,
)
    requires
        net.fits(),
        s.is_steady(net),
        net.forgets() || s.nothing_fails(),
    ensures
        s.step_is_clean(net, k, g, run),
        ({
            let (after, next, out) = s.step(net, k, g, run);
            &&& after.fits()
            &&& s.is_steady(after)
            &&& net.forgets() ==> after.forgets()
        }),
    decreases
        if run.replays < MAX_REPLAYS {
            MAX_REPLAYS - run.replays
        } else {
            0
        },
        if run.sending is Prefill {
            1int
        } else {
            0int
        },
{
    let x = s.input(g, run.sending);
    let top_k = asked_for(run.sending);
    let (mid, way) = s.pass(net, k, x, top_k);
    a_pass_keeps_the_replicas(s, net, k, x, top_k);
    if net.forgets() {
        places_keep_the_kinds(net, mid);
    }
    let next = run.after(way.came());
    match run.action(way.came()) {
        StepAction::Done => {},
        StepAction::Fail => {},
        StepAction::Send(_) => {
            a_step_is_clean_without_relays_or_failures(s, mid, k + 1, g, next);
        },
        StepAction::ClearAndSend(_) => {
            if let Way::Broken { stage, replica } = way {
                assert((s.tells)(k, stage, replica) is Failed);
            }
            let fresh = mid.cleared(s.in_pass(k + 1));
            a_cleared_net_fits(mid, s.in_pass(k + 1));
            places_keep_the_kinds(mid, fresh);
            assert forall|i: int| 0 <= i < fresh.stages.len() implies match #[trigger] fresh.asked(
                i,
            ) {
                Some(r) => (s.tells)(k + 1, i, r) is Answered ==> fresh.held[i][r].len() == 0,
                None => true,
            } by {
                crate::orchestrator::the_next_alive_is_the_first(fresh.stages[i].replicas, 0);
                if let Some(r) = fresh.asked(i) {
                    assert(mid.held[i].len() == mid.stages[i].replicas.len());
                    assert(crate::orchestrator::can_be_told(mid.stages[i].replicas[r]));
                }
            }
            a_step_is_clean_without_relays_or_failures(s, fresh, k + 1, g, next);
        },
    }
}

proof fn the_rest_is_clean_without_relays_or_failures<A>(
    s: Session<A>,
    net: Net<A>,
    k: nat,
    g: crate::generation::GenerationView,
    out: Seq<A>,
)
    requires
        net.fits(),
        s.is_steady(net),
        net.forgets() || s.nothing_fails(),
    ensures
        s.rest_is_clean(net, k, g, out),
    decreases g.max_new_tokens - g.sampled,
{
    if let Some(token) = s.layers.drawn(out) {
        if !g.drawn(token).finished {
            let g1 = g.after(token);
            let run = StepRun {
                replays: 0,
                sending: Sending::Step,
                has_prefill: s.prefill is Some,
            };
            a_step_is_clean_without_relays_or_failures(s, net, k, g1, run);
            let (mid, next, out1) = s.step(net, k, g1, run);
            if let Some(o) = out1 {
                the_rest_is_clean_without_relays_or_failures(s, mid, next, g1, o);
            }
        }
    }
}

/// How many passes were made only grows.
proof fn passes_are_counted<A>(
    s: Session<A>,
    net: Net<A>,
    k: nat,
    g: crate::generation::GenerationView,
    run: StepRun,
)
    ensures
        s.step(net, k, g, run).1 > k,
    decreases
        if run.replays < MAX_REPLAYS {
            MAX_REPLAYS - run.replays
        } else {
            0
        },
        if run.sending is Prefill {
            1int
        } else {
            0int
        },
{
    let (mid, way) = s.pass(net, k, s.input(g, run.sending), asked_for(run.sending));
    let next = run.after(way.came());
    match run.action(way.came()) {
        StepAction::Done => {},
        StepAction::Fail => {},
        StepAction::Send(_) => {
            passes_are_counted(s, mid, k + 1, g, next);
        },
        StepAction::ClearAndSend(_) => {
            passes_are_counted(s, mid.cleared(s.in_pass(k + 1)), k + 1, g, next);
        },
    }
}

proof fn passes_of_the_rest_are_counted<A>(
    s: Session<A>,
    net: Net<A>,
    k: nat,
    g: crate::generation::GenerationView,
    out: Seq<A>,
)
    ensures
        s.go_on(net, k, g, out).1 >= k,
    decreases g.max_new_tokens - g.sampled,
{
    if let Some(token) = s.layers.drawn(out) {
        if !g.drawn(token).finished {
            let g1 = g.after(token);
            let run = StepRun {
                replays: 0,
                sending: Sending::Step,
                has_prefill: s.prefill is Some,
            };
            passes_are_counted(s, net, k, g1, run);
            let (mid, next, out1) = s.step(net, k, g1, run);
            if let Some(o) = out1 {
                passes_of_the_rest_are_counted(s, mid, next, g1, o);
            }
        }
    }
}

/// No replica of another stage that is asked up to pass `at`, in which the one of
/// `stage` fails, is asked over a relay. In the first pass the stages behind are not
/// asked any more.
pub open spec fn no_relay_is_asked<A>(net: Net<A>, stage: int, at: nat) -> bool {
    forall|i: int|
        0 <= i < net.stages.len() && i != stage && (at > 0 || i < stage) ==> match (
        #[trigger] net.asked(i)) {
            Some(r) => crate::orchestrator::can_be_told(net.stages[i].replicas[r]),
            None => true,
        }
}

/// Only the replicas that are asked hold anything.
spec fn only_the_asked_hold<A>(net: Net<A>) -> bool {
    forall|i: int, r: int|
        0 <= i < net.stages.len() && 0 <= r < net.stages[i].replicas.len() && (
        #[trigger] net.held[i][r]).len() > 0 ==> net.asked(i) == Some(r)
}

proof fn relays_stay_unasked<A>(a: Net<A>, b: Net<A>, stage: int, at: nat)
    requires
        no_relay_is_asked(a, stage, at),
        same_places(a.stages, b.stages),
        forall|i: int| 0 <= i < a.stages.len() ==> #[trigger] b.asked(i) == a.asked(i),
    ensures
        no_relay_is_asked(b, stage, at),
{
    assert forall|i: int|
        0 <= i < b.stages.len() && i != stage && (at > 0 || i < stage) implies match (
    #[trigger] b.asked(i)) {
        Some(r) => crate::orchestrator::can_be_told(b.stages[i].replicas[r]),
        None => true,
    } by {
        assert(b.asked(i) == a.asked(i));
        crate::orchestrator::the_next_alive_is_the_first(a.stages[i].replicas, 0);
        if let Some(r) = a.asked(i) {
            assert(same_replica(a.stages[i].replicas[r], b.stages[i].replicas[r]));
        }
    }
}

proof fn a_death_leaves_a_bare_net<A>(
    s: Session<A>,
    net: Net<A>,
    k: nat,
    x: Seq<A>,
    top_k: u32,
    stage: int,
    replica: int,
    at: nat,
)
    requires
        s.only_one_dies(stage, replica, at),
        dies_in_time(s, net, k, stage, replica, at),
        no_relay_is_asked(net, stage, at),
        s.pass(net, k, x, top_k).1 is Broken,
    ensures
        k == at,
        s.is_bare(s.pass(net, k, x, top_k).0.cleared(s.in_pass(k + 1)), k + 1),
{
    let doomed = set![(stage, replica)];
    assert(s.only_these_fail(doomed)) by {
        assert forall|m: nat, i: int, r: int|
            #[trigger] (s.tells)(m, i, r) is Failed implies doomed.contains((i, r)) by {}
    }
    a_pass_loses_what_fails(s, net, k, x, top_k, doomed);
    a_pass_fills_the_asked(s, net, k, x, top_k);
    let (mid, way) = s.pass(net, k, x, top_k);
    let at_stage = way->Broken_stage;
    let at_replica = way->Broken_replica;
    assert((s.tells)(k, at_stage, at_replica) is Failed);
    assert(at_stage == stage && at_replica == replica);
    let fresh = mid.cleared(s.in_pass(k + 1));
    assert forall|i: int| 0 <= i < fresh.stages.len() implies match #[trigger] fresh.asked(i) {
        Some(r) => (s.tells)(k + 1, i, r) is Answered ==> fresh.held[i][r].len() == 0,
        None => true,
    } by {
        let a = net.stages[i].replicas;
        let b = mid.stages[i].replicas;
        assert(a.len() == b.len());
        crate::orchestrator::the_next_alive_is_the_first(b, 0);
        assert(fresh.asked(i) == mid.asked(i));
        if let Some(r) = mid.asked(i) {
            assert(mid.held[i].len() == b.len());
            assert(alive_at(mid.stages, i, r));
            if mid.held[i][r].len() > 0 {
                // What it holds it ran before this pass or in it: it was asked.
                assert(net.asked(i) == Some(r));
                if i == stage {
                    assert(!alive_at(mid.stages, stage, replica));
                }
                if at == 0 && i > stage {
                    assert(mid.held[i][r] == net.held[i][r]);
                    assert(net.held[i][r].len() == 0);
                }
                assert(crate::orchestrator::can_be_told(a[r]));
                assert(same_replica(a[r], b[r]));
            }
        }
    }
}

proof fn a_step_is_clean_under_a_death<A>(
    s: Session<A>,
    net: Net<A>,
    k: nat,
    g: crate::generation::GenerationView,
    run: StepRun,
    stage: int,
    replica: int,
    at: nat,
)
    requires
        s.only_one_dies(stage, replica, at),
        dies_in_time(s, net, k, stage, replica, at),
        k <= at ==> no_relay_is_asked(net, stage, at) || s.step(net, k, g, run).1 <= at,
    ensures
        s.step_is_clean(net, k, g, run),
        ({
            let (after, next, out) = s.step(net, k, g, run);
            no_relay_is_asked(net, stage, at) && next <= at && out is Some ==> no_relay_is_asked(
                after,
                stage,
                at,
            )
        }),
    decreases
        if run.replays < MAX_REPLAYS {
            MAX_REPLAYS - run.replays
        } else {
            0
        },
        if run.sending is Prefill {
            1int
        } else {
            0int
        },
{
    let x = s.input(g, run.sending);
    let top_k = asked_for(run.sending);
    let (mid, way) = s.pass(net, k, x, top_k);
    a_pass_notes_a_death(s, net, k, x, top_k, stage, replica, at);
    a_pass_keeps_the_replicas(s, net, k, x, top_k);
    passes_are_counted(s, net, k, g, run);
    if let Way::Broken { stage: i, replica: r } = way {
        assert((s.tells)(k, i, r) is Failed);
        assert(alive_at(net.stages, i, r));
        assert(k == at);
    }
    if way is Through && no_relay_is_asked(net, stage, at) {
        relays_stay_unasked(net, mid, stage, at);
    }
    let next = run.after(way.came());
    match run.action(way.came()) {
        StepAction::Done => {},
        StepAction::Fail => {},
        StepAction::Send(_) => {
            a_step_is_clean_under_a_death(s, mid, k + 1, g, next, stage, replica, at);
        },
        StepAction::ClearAndSend(_) => {
            let fresh = mid.cleared(s.in_pass(k + 1));
            a_death_leaves_a_bare_net(s, net, k, x, top_k, stage, replica, at);
            a_cleared_net_fits(mid, s.in_pass(k + 1));
            a_step_is_clean_under_a_death(s, fresh, k + 1, g, next, stage, replica, at);
        },
    }
}

proof fn the_rest_is_clean_under_a_death<A>(
    s: Session<A>,
    net: Net<A>,
    k: nat,
    g: crate::generation::GenerationView,
    out: Seq<A>,
    stage: int,
    replica: int,
    at: nat,
)
    requires
        s.only_one_dies(stage, replica, at),
        dies_in_time(s, net, k, stage, replica, at),
        k <= at ==> no_relay_is_asked(net, stage, at) || s.go_on(net, k, g, out).1 <= at,
    ensures
        s.rest_is_clean(net, k, g, out),
    decreases g.max_new_tokens - g.sampled,
{
    if let Some(token) = s.layers.drawn(out) {
        if !g.drawn(token).finished {
            let g1 = g.after(token);
            let run = StepRun {
                replays: 0,
                sending: Sending::Step,
                has_prefill: s.prefill is Some,
            };
            let (mid, next, out1) = s.step(net, k, g1, run);
            passes_are_counted(s, net, k, g1, run);
            if let Some(o) = out1 {
                passes_of_the_rest_are_counted(s, mid, next, g1, o);
            }
            a_step_is_clean_under_a_death(s, net, k, g1, run, stage, replica, at);
            a_step_notes_a_death(s, net, k, g1, run, stage, replica, at);
            if let Some(o) = out1 {
                the_rest_is_clean_under_a_death(s, mid, next, g1, o, stage, replica, at);
            }
        }
    }
}

proof fn counts_follow(
    a: Seq<crate::orchestrator::ReplicaView>,
    b: Seq<crate::orchestrator::ReplicaView>,
    replica: int,
)
    requires
        a.len() == b.len(),
        forall|r: int|
            0 <= r < a.len() && r != replica ==> (#[trigger] b[r]).is_alive() == a[r].is_alive(),
        0 <= replica < a.len() ==> a[replica].is_alive(),
    ensures
        crate::orchestrator::alive_count(b) == crate::orchestrator::alive_count(a) - if 0 <= replica
            < a.len() && !b[replica].is_alive() {
            1int
        } else {
            0int
        },
    decreases a.len(),
{
    if a.len() > 0 {
        let n = a.len() - 1;
        assert forall|r: int| 0 <= r < n && r != replica implies (
        #[trigger] b.drop_last()[r]).is_alive() == a.drop_last()[r].is_alive() by {
            assert(b[r].is_alive() == a[r].is_alive());
        }
        counts_follow(a.drop_last(), b.drop_last(), replica);
        if replica != n {
            assert(b[n].is_alive() == a[n].is_alive());
        }
    }
}

// ---------------------------------------------------------------------------
// Laws
// ---------------------------------------------------------------------------

/// What is known of the replicas of a route that was just found is in order, so a
/// session over it is steady.
pub proof fn a_new_route_is_in_order(
    stages: Seq<crate::orchestrator::StageView>,
    ps: Seq<crate::registry::PeerView>,
    model_id: Seq<char>,
    slices: Seq<crate::capacity::SliceCoverage>,
    relay: Option<Seq<char>>,
)
    requires
        crate::orchestrator::routes(stages, ps, model_id, slices, relay),
    ensures
        learned_in_order(stages),
{
    assert forall|i: int, r: int, q: int|
        0 <= i < stages.len() && 0 <= r < q < stages[i].replicas.len() && #[trigger] alive_at(
            stages,
            i,
            r,
        ) && #[trigger] alive_at(stages, i, q) implies !can_chain(stages[i].replicas[q]) by {
        assert(stages[i] == crate::orchestrator::stage_for(ps, model_id, slices[i], relay));
        let holders = ps.filter(
            crate::registry::holds_slice(model_id, slices[i].start_layer, slices[i].end_layer),
        );
        crate::orchestrator::a_new_route_is_alive(holders, relay, q);
    }
}

/// Whatever fails under an answer does not change it: a session that comes to its
/// end has the answer that the stages give when each token is drawn from all that
/// goes before it, whether its passes go as chains or stage by stage. No replica
/// comes back to life on the way.
pub proof fn failures_do_not_change_an_answer<A>(
    s: Session<A>,
    net: Net<A>,
    g: crate::generation::GenerationView,
)
    requires
        net.fits(),
        net.is_fresh(),
        s.is_clean(net, g),
        s.is_steady(net),
        g.sampled == 0,
        s.prefill is Some ==> g.ids.len() == 0,
    ensures
        s.generate(net, g).2 is Some ==> s.generate(net, g).2 == s.plain(
            net.stages.len() as int,
            g,
        ),
        only_die(net.stages, s.generate(net, g).0.stages),
{
    a_fresh_net_holds_nothing(s, net, 0);
    if s.prefill is Some {
        let empty = Seq::<A>::empty();
        let x = s.ahead();
        a_pass_of_a_session(s, net, 0, empty, x, DECODE_TOP_K);
        let (mid, way) = s.pass(net, 0, x, DECODE_TOP_K);
        assert(empty + x =~= s.whole(g));
        if let Way::Through(out) = way {
            assert(s.holds(mid, 1, empty + x));
            let all = s.layers.through(net.stages.len() as int, empty + x);
            assert(all.skip(0) =~= all);
            an_answer_goes_on_as_it_should(s, mid, 1, g, out);
            let (after, _, _) = s.go_on(mid, 1, g, out);
            deaths_add_up(net.stages, mid.stages, after.stages);
        }
    } else {
        let run = StepRun { replays: 0, sending: Sending::Step, has_prefill: false };
        a_step_gives_what_it_should(s, net, 0, g, run);
        let (mid, next, out) = s.step(net, 0, g, run);
        if let Some(o) = out {
            an_answer_goes_on_as_it_should(s, mid, next, g, o);
            let (after, _, _) = s.go_on(mid, next, g, o);
            deaths_add_up(net.stages, mid.stages, after.stages);
        }
    }
}

/// An answer survives the death of replicas: where each stage keeps one that does
/// not fail, and no more fail than a step may be sent again, the session comes to
/// its end with the answer that it has when nothing fails. Where something was
/// embedded, its first pass has to come through, and one may fail later. Where passes
/// may be chains, a node fails at all of its places and is itself blamed. The
/// replicas that do not fail stay alive.
pub proof fn an_answer_survives<A>(
    s: Session<A>,
    net: Net<A>,
    g: crate::generation::GenerationView,
    doomed: Set<(int, int)>,
)
    requires
        net.fits(),
        net.is_fresh(),
        s.is_clean(net, g),
        s.is_steady(net),
        g.sampled == 0,
        s.prefill is Some ==> g.ids.len() == 0,
        s.prefill is Some ==> forall|i: int, r: int|
            #[trigger] (s.tells)(0, i, r) is Answered,
        doomed.finite(),
        s.is_fair(net.stages, doomed),
        s.only_these_fail(doomed),
        spared(net.stages, doomed),
        doomed.len() <= s.may_fail(),
    ensures
        s.generate(net, g).2 == s.plain(net.stages.len() as int, g),
        others_stay(net.stages, s.generate(net, g).0.stages, doomed),
{
    a_fresh_net_holds_nothing(s, net, 0);
    what_is_left_is_finite(net.stages, doomed);
    if s.prefill is Some {
        let empty = Seq::<A>::empty();
        let x = s.ahead();
        a_pass_of_a_session(s, net, 0, empty, x, DECODE_TOP_K);
        a_pass_loses_what_fails(s, net, 0, x, DECODE_TOP_K, doomed);
        let (mid, way) = s.pass(net, 0, x, DECODE_TOP_K);
        assert(empty + x =~= s.whole(g));
        if let Way::Broken { stage, replica } = way {
            assert((s.tells)(0, stage, replica) is Answered);
        }
        let out = way->Through_0;
        assert(s.holds(mid, 1, empty + x));
        let all = s.layers.through(net.stages.len() as int, empty + x);
        assert(all.skip(0) =~= all);
        the_rest_of_an_answer_survives(s, mid, 1, g, out, doomed);
        let (after, _, _) = s.go_on(mid, 1, g, out);
        survivors_add_up(net.stages, mid.stages, after.stages, doomed);
    } else {
        let run = StepRun { replays: 0, sending: Sending::Step, has_prefill: false };
        a_step_gives_what_it_should(s, net, 0, g, run);
        a_step_survives(s, net, 0, g, run, doomed);
        let (mid, next, out) = s.step(net, 0, g, run);
        let o = out.unwrap();
        the_rest_of_an_answer_survives(s, mid, next, g, o, doomed);
        let (after, _, _) = s.go_on(mid, next, g, o);
        survivors_add_up(net.stages, mid.stages, after.stages, doomed);
    }
}

/// A session is clean over a route without a relayed replica, and where nothing fails
/// over any route.
pub proof fn a_session_is_clean_without_relays_or_failures<A>(
    s: Session<A>,
    net: Net<A>,
    g: crate::generation::GenerationView,
)
    requires
        net.fits(),
        s.is_steady(net),
        net.forgets() || s.nothing_fails(),
    ensures
        s.is_clean(net, g),
{
    if s.prefill is Some {
        a_pass_keeps_the_replicas(s, net, 0, s.ahead(), DECODE_TOP_K);
        let (mid, way) = s.pass(net, 0, s.ahead(), DECODE_TOP_K);
        if net.forgets() {
            places_keep_the_kinds(net, mid);
        }
        if let Way::Through(out) = way {
            the_rest_is_clean_without_relays_or_failures(s, mid, 1, g, out);
        }
    } else {
        let run = StepRun { replays: 0, sending: Sending::Step, has_prefill: false };
        a_step_is_clean_without_relays_or_failures(s, net, 0, g, run);
        let (mid, next, out) = s.step(net, 0, g, run);
        if let Some(o) = out {
            the_rest_is_clean_without_relays_or_failures(s, mid, next, g, o);
        }
    }
}

/// A session under which the first replica of a stage dies, and nothing else, is clean
/// where no relayed replica of another stage is asked before: one that only stands by
/// does no harm, nor does the one that dies.
pub proof fn a_session_is_clean_under_a_death<A>(
    s: Session<A>,
    net: Net<A>,
    g: crate::generation::GenerationView,
    stage: int,
    replica: int,
    at: nat,
)
    requires
        net.fits(),
        net.is_fresh(),
        s.is_steady(net),
        s.is_fair(net.stages, set![(stage, replica)]),
        0 <= stage < net.stages.len(),
        0 <= replica < net.stages[stage].replicas.len(),
        alive_at(net.stages, stage, replica),
        is_first(net.stages, stage, replica),
        spared(net.stages, set![(stage, replica)]),
        s.only_one_dies(stage, replica, at),
        no_relay_is_asked(net, stage, at) || s.generate(net, g).1 <= at,
    ensures
        s.is_clean(net, g),
{
    if s.prefill is Some {
        let x = s.ahead();
        a_pass_notes_a_death(s, net, 0, x, DECODE_TOP_K, stage, replica, at);
        a_pass_keeps_the_replicas(s, net, 0, x, DECODE_TOP_K);
        let (mid, way) = s.pass(net, 0, x, DECODE_TOP_K);
        if let Way::Through(out) = way {
            if no_relay_is_asked(net, stage, at) {
                relays_stay_unasked(net, mid, stage, at);
            }
            the_rest_is_clean_under_a_death(s, mid, 1, g, out, stage, replica, at);
        }
    } else {
        let run = StepRun { replays: 0, sending: Sending::Step, has_prefill: false };
        let (mid, next, out) = s.step(net, 0, g, run);
        if let Some(o) = out {
            passes_of_the_rest_are_counted(s, mid, next, g, o);
        }
        a_step_is_clean_under_a_death(s, net, 0, g, run, stage, replica, at);
        a_step_notes_a_death(s, net, 0, g, run, stage, replica, at);
        if let Some(o) = out {
            the_rest_is_clean_under_a_death(s, mid, next, g, o, stage, replica, at);
        }
    }
}

/// A replica that dies under an answer does not change it, and is the only one that
/// is lost. The first replica of a stage fails from some pass on, another of that
/// stage does not, and nothing else fails: the answer is the one that the same
/// route gives when every replica answers, and where a pass was made in which the
/// replica failed, its stage has just one less that counts as alive. In the other
/// stages no relayed replica may have been asked before it failed, as none is told to
/// forget what it ran. Where something was embedded, its first pass has to come
/// through.
pub proof fn a_dead_replica_does_not_change_an_answer<A>(
    s: Session<A>,
    reference: Session<A>,
    net: Net<A>,
    g: crate::generation::GenerationView,
    stage: int,
    replica: int,
    at: nat,
)
    requires
        net.fits(),
        net.is_fresh(),
        s.is_steady(net),
        reference.is_steady(net),
        s.is_fair(net.stages, set![(stage, replica)]),
        g.sampled == 0,
        s.prefill is Some ==> g.ids.len() == 0 && at > 0,
        s.layers == reference.layers,
        s.prefill == reference.prefill,
        reference.nothing_fails(),
        0 <= stage < net.stages.len(),
        0 <= replica < net.stages[stage].replicas.len(),
        alive_at(net.stages, stage, replica),
        is_first(net.stages, stage, replica),
        spared(net.stages, set![(stage, replica)]),
        s.only_one_dies(stage, replica, at),
        no_relay_is_asked(net, stage, at) || s.generate(net, g).1 <= at,
    ensures
        ({
            let (after, passes, answer) = s.generate(net, g);
            &&& answer == reference.generate(net, g).2
            &&& answer == s.plain(net.stages.len() as int, g)
            &&& crate::orchestrator::alive_count(after.stages[stage].replicas)
                == crate::orchestrator::alive_count(net.stages[stage].replicas) - if at < passes {
                1int
            } else {
                0int
            }
            &&& others_stay(net.stages, after.stages, set![(stage, replica)])
        }),
{
    let doomed = set![(stage, replica)];
    let n = net.stages.len() as int;
    an_answer_is_plain_where_nothing_fails(reference, net, g, doomed);
    the_same_is_plain(s, reference, n, g);
    assert(s.only_these_fail(doomed)) by {
        assert forall|k: nat, i: int, r: int|
            #[trigger] (s.tells)(k, i, r) is Failed implies doomed.contains((i, r)) by {}
    }
    assert(doomed =~= Set::<(int, int)>::empty().insert((stage, replica)));
    a_session_is_clean_under_a_death(s, net, g, stage, replica, at);
    assert(s.prefill is Some ==> forall|i: int, r: int|
        #[trigger] (s.tells)(0, i, r) is Answered);
    an_answer_survives(s, net, g, doomed);
    if s.prefill is Some {
        let x = s.ahead();
        a_pass_notes_a_death(s, net, 0, x, DECODE_TOP_K, stage, replica, at);
        let (mid, way) = s.pass(net, 0, x, DECODE_TOP_K);
        if let Way::Through(out) = way {
            an_answer_notes_a_death(s, mid, 1, g, out, stage, replica, at);
            let (end, _, _) = s.go_on(mid, 1, g, out);
            survivors_add_up(net.stages, mid.stages, end.stages, doomed);
        }
    } else {
        let run = StepRun { replays: 0, sending: Sending::Step, has_prefill: false };
        a_step_notes_a_death(s, net, 0, g, run, stage, replica, at);
        let (mid, next, out) = s.step(net, 0, g, run);
        if let Some(o) = out {
            an_answer_notes_a_death(s, mid, next, g, o, stage, replica, at);
            let (end, _, _) = s.go_on(mid, next, g, o);
            survivors_add_up(net.stages, mid.stages, end.stages, doomed);
        }
    }
    let (after, passes, answer) = s.generate(net, g);
    let a = net.stages[stage].replicas;
    let b = after.stages[stage].replicas;
    assert(a.len() == b.len());
    assert forall|r: int| 0 <= r < a.len() && r != replica implies (#[trigger] b[r]).is_alive()
        == a[r].is_alive() by {
        assert(!doomed.contains((stage, r)));
        assert(alive_at(after.stages, stage, r) == alive_at(net.stages, stage, r));
    }
    counts_follow(a, b, replica);
}

proof fn an_answer_is_plain_where_nothing_fails<A>(
    s: Session<A>,
    net: Net<A>,
    g: crate::generation::GenerationView,
    doomed: Set<(int, int)>,
)
    requires
        net.fits(),
        net.is_fresh(),
        s.is_steady(net),
        s.nothing_fails(),
        g.sampled == 0,
        s.prefill is Some ==> g.ids.len() == 0,
        spared(net.stages, doomed),
    ensures
        s.generate(net, g).2 == s.plain(net.stages.len() as int, g),
{
    let nobody = Set::<(int, int)>::empty();
    assert forall|i: int| 0 <= i < net.stages.len() implies #[trigger] stage_spared(
        net.stages,
        nobody,
        i,
    ) by {
        assert(stage_spared(net.stages, doomed, i));
    }
    assert(s.only_these_fail(nobody)) by {
        assert forall|k: nat, i: int, r: int|
            #[trigger] (s.tells)(k, i, r) is Failed implies nobody.contains((i, r)) by {
            assert((s.tells)(k, i, r) is Answered);
        }
    }
    assert forall|k: nat, i: int, r: int|
        0 <= i < net.stages.len() && 0 <= r < net.stages[i].replicas.len()
            && net.stages[i].replicas[r] is Remote && (s.tells)(k, i, r)
            is Failed implies #[trigger] (s.blames)(k, i, r)
        == net.stages[i].replicas[r]->Remote_compute_endpoint by {
        assert((s.tells)(k, i, r) is Answered);
    }
    a_session_is_clean_without_relays_or_failures(s, net, g);
    an_answer_survives(s, net, g, nobody);
}

proof fn the_same_is_plain<A>(
    s: Session<A>,
    t: Session<A>,
    n: int,
    g: crate::generation::GenerationView,
)
    requires
        s.layers == t.layers,
        s.prefill == t.prefill,
    ensures
        s.plain(n, g) == t.plain(n, g),
    decreases g.max_new_tokens - g.sampled,
{
    assert(s.whole(g) == t.whole(g));
    if let Some(token) = s.layers.drawn(s.layers.through(n, s.whole(g))) {
        if !g.drawn(token).finished {
            the_same_is_plain(s, t, n, g.after(token));
        }
    }
}

} // verus!
