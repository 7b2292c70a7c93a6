//! Drawing out an answer token by token: what is kept, what is shown, and when
//! it is at its end.

use vstd::prelude::*;

use crate::orchestrator::{ForwardError, DECODE_TOP_K, MAX_REPLAYS};

verus! {

/// An answer in the making.
#[derive(Debug)]
pub struct Generation {
    /// The tokens so far, those of the prompt first.
    pub ids: Vec<i64>,
    /// How many tokens were drawn.
    pub sampled: usize,
    pub max_new_tokens: usize,
    pub eos_id: Option<i64>,
    /// Whether a token that ends the answer is kept when it is not the first.
    pub keep_eos: bool,
}

/// What a [`Generation`] holds.
#[verifier::ext_equal]
pub struct GenerationView {
    pub ids: Seq<i64>,
    pub sampled: nat,
    pub max_new_tokens: nat,
    pub eos_id: Option<i64>,
    pub keep_eos: bool,
}

impl View for Generation {
    type V = GenerationView;

    open spec fn view(&self) -> GenerationView {
        GenerationView {
            ids: self.ids@,
            sampled: self.sampled as nat,
            max_new_tokens: self.max_new_tokens as nat,
            eos_id: self.eos_id,
            keep_eos: self.keep_eos,
        }
    }
}

/// What a token does to an answer.
#[derive(Debug, Clone, Copy, PartialEq, Eq, Structural)]
pub struct Drawn {
    /// The token is shown.
    pub show: bool,
    /// The answer is at its end.
    pub finished: bool,
}

impl GenerationView {
    /// Whether a token ends the answer.
    pub open spec fn ends(self, token: i64) -> bool {
        self.eos_id == Some(token)
    }

    /// Whether a token is kept: the first always, a later one that ends the
    /// answer only where such are kept.
    pub open spec fn keeps(self, token: i64) -> bool {
        self.sampled == 0 || !self.ends(token) || self.keep_eos
    }

    /// The answer with one token more.
    pub open spec fn after(self, token: i64) -> GenerationView {
        GenerationView {
            ids: if self.keeps(token) {
                self.ids.push(token)
            } else {
                self.ids
            },
            sampled: self.sampled + 1,
            ..self
        }
    }

    /// What a token does to the answer: it is shown where it is the first or
    /// does not end the answer, and the answer is at its end with a token that
    /// ends it, or when as many were drawn as may be (one always is).
    pub open spec fn drawn(self, token: i64) -> Drawn {
        Drawn {
            show: self.sampled == 0 || !self.ends(token),
            finished: self.ends(token) || self.sampled + 1 >= self.max_new_tokens,
        }
    }

    /// The tokens that are sent: for a step those that the route has not had yet,
    /// which are all of them before the first is drawn and the last one later, and
    /// to go through a session again all of them.
    pub open spec fn sends(self, sending: Sending) -> Seq<i64> {
        match sending {
            Sending::Step => if self.sampled == 0 || self.ids.len() == 0 {
                self.ids
            } else {
                seq![self.ids.last()]
            },
            Sending::Prefill => Seq::empty(),
            Sending::Replay => self.ids,
        }
    }

    /// The answer after a list of tokens, one after the other.
    pub open spec fn after_all(self, tokens: Seq<i64>) -> GenerationView
        decreases tokens.len(),
    {
        if tokens.len() == 0 {
            self
        } else {
            self.after_all(tokens.drop_last()).after(tokens.last())
        }
    }

    /// What the steps sent while the tokens were drawn, one behind the other.
    pub open spec fn sent_for(self, tokens: Seq<i64>) -> Seq<i64>
        decreases tokens.len(),
    {
        if tokens.len() == 0 {
            Seq::empty()
        } else {
            self.sent_for(tokens.drop_last()) + self.after_all(tokens.drop_last()).sends(
                Sending::Step,
            )
        }
    }

    /// Whether none of the tokens but the last brings the answer to its end.
    pub open spec fn lasts(self, tokens: Seq<i64>) -> bool {
        forall|n: int|
            0 <= n < tokens.len() - 1 ==> !(#[trigger] self.after_all(tokens.take(n)).drawn(
                tokens[n],
            )).finished
    }
}

/// An answer to a prompt of token ids that begins.
pub open spec fn answer_to(prompt: Seq<i64>, most: nat, eos_id: Option<i64>) -> GenerationView {
    GenerationView { ids: prompt, sampled: 0, max_new_tokens: most, eos_id, keep_eos: true }
}

/// An answer that begins to a prompt that was embedded by the client.
pub open spec fn answer_to_embeddings(most: nat, eos_id: Option<i64>) -> GenerationView {
    GenerationView {
        ids: Seq::empty(),
        sampled: 0,
        max_new_tokens: most,
        eos_id,
        keep_eos: false,
    }
}

impl Generation {
    /// An answer to a prompt of token ids. The prompt is part of what is kept,
    /// and so is the token that ends the answer.
    pub fn from_prompt(prompt_ids: &[i64], max_new_tokens: usize, eos_id: Option<i64>) -> (g: Self)
        ensures
            g@ == answer_to(prompt_ids@, max_new_tokens as nat, eos_id),
    {
        let mut ids: Vec<i64> = Vec::new();
        let mut i: usize = 0;
        while i < prompt_ids.len()
            invariant
                i <= prompt_ids@.len(),
                ids@ == prompt_ids@.take(i as int),
            decreases prompt_ids@.len() - i,
        {
            ids.push(prompt_ids[i]);
            i += 1;
            assert(ids@ =~= prompt_ids@.take(i as int));
        }
        assert(ids@ =~= prompt_ids@);
        Generation { ids, sampled: 0, max_new_tokens, eos_id, keep_eos: true }
    }

    /// An answer to a prompt that was embedded by the client: only tokens that
    /// were drawn are kept, and a later one that ends the answer is not.
    pub fn from_embeddings(max_new_tokens: usize, eos_id: Option<i64>) -> (g: Self)
        ensures
            g@ == answer_to_embeddings(max_new_tokens as nat, eos_id),
    {
        let g = Generation {
            ids: Vec::new(),
            sampled: 0,
            max_new_tokens,
            eos_id,
            keep_eos: false,
        };
        assert(g@.ids =~= Seq::<i64>::empty());
        g
    }

    /// The tokens that are sent.
    pub fn tokens(&self, sending: Sending) -> (v: Vec<i64>)
        ensures
            v@ == self@.sends(sending),
    {
        let mut v: Vec<i64> = Vec::new();
        let n: usize = self.ids.len();
        let from: usize = match sending {
            Sending::Prefill => n,
            Sending::Replay => 0,
            Sending::Step => if self.sampled == 0 || n == 0 {
                0
            } else {
                n - 1
            },
        };
        let mut i: usize = from;
        while i < n
            invariant
                from <= i <= n,
                n == self.ids@.len(),
                v@ == self.ids@.subrange(from as int, i as int),
            decreases n - i,
        {
            v.push(self.ids[i]);
            i += 1;
            assert(v@ =~= self.ids@.subrange(from as int, i as int));
        }
        assert(v@ =~= self@.sends(sending));
        v
    }

    /// Takes in the next token, and says what it does to the answer.
    pub fn feed(&mut self, token: i64) -> (d: Drawn)
        requires
            old(self).sampled == 0 || old(self).sampled < old(self).max_new_tokens,
        ensures
            final(self)@ == old(self)@.after(token),
            d == old(self)@.drawn(token),
    {
        let ends: bool = match self.eos_id {
            Some(eos) => eos == token,
            None => false,
        };
        let first: bool = self.sampled == 0;
        if first || !ends || self.keep_eos {
            self.ids.push(token);
        }
        self.sampled += 1;
        Drawn { show: first || !ends, finished: ends || self.sampled >= self.max_new_tokens }
    }
}

// ---------------------------------------------------------------------------
// One step through the route
// ---------------------------------------------------------------------------

/// What is sent through the route to bring a step through.
#[derive(Debug, Clone, Copy, PartialEq, Eq, Structural)]
pub enum Sending {
    /// The tokens of the step.
    Step,
    /// What the client embedded for the session. It goes ahead of the tokens,
    /// which do not hold it.
    Prefill,
    /// All tokens of the session so far.
    Replay,
}

/// What to do next to bring a step through.
#[derive(Debug, Clone, Copy, PartialEq, Eq, Structural)]
pub enum StepAction {
    /// Send this.
    Send(Sending),
    /// Have every replica forget the session, and send this.
    ClearAndSend(Sending),
    /// What came back is the output of the step.
    Done,
    /// The step failed.
    Fail,
}

/// A step that is being brought through the route.
#[derive(Debug, Clone, Copy, PartialEq, Eq, Structural)]
pub struct StepRun {
    /// How often it was sent again.
    pub replays: usize,
    /// What was sent last.
    pub sending: Sending,
    /// Whether the client embedded something for the session.
    pub has_prefill: bool,
}

/// What came of a pass through the route.
pub enum Came {
    /// It came through.
    Through,
    /// The route broke under it.
    Broken,
    /// It failed in some other way.
    Failed,
}

/// What came of a pass that gave this error, or none.
pub open spec fn came_of(failure: Option<ForwardError>) -> Came {
    match failure {
        None => Came::Through,
        Some(ForwardError::Broken { .. }) => Came::Broken,
        Some(ForwardError::Other(_)) => Came::Failed,
    }
}

/// Whether a step is sent again: only after a break of the route, and only so
/// often.
pub open spec fn replays_again(came: Came, replays: int) -> bool {
    came is Broken && replays < MAX_REPLAYS
}

impl StepRun {
    /// How many of the best candidates are asked for: none where only the session is
    /// built up again.
    pub open spec fn asks_for(self) -> u32 {
        if self.sending is Prefill {
            0
        } else {
            DECODE_TOP_K
        }
    }

    /// What a session begins with when it is sent again.
    pub open spec fn first_again(self) -> Sending {
        if self.has_prefill {
            Sending::Prefill
        } else {
            Sending::Replay
        }
    }

    /// What to do when what was sent came through or did not. The replicas that
    /// survive a break hold nothing of the session, so all of it is sent again,
    /// what was embedded first. A failure on the way there is final.
    pub open spec fn action(self, came: Came) -> StepAction {
        if came is Through {
            if self.sending is Prefill {
                StepAction::Send(Sending::Replay)
            } else {
                StepAction::Done
            }
        } else if !(self.sending is Prefill) && replays_again(came, self.replays as int) {
            StepAction::ClearAndSend(self.first_again())
        } else {
            StepAction::Fail
        }
    }

    /// The step after that.
    pub open spec fn after(self, came: Came) -> StepRun {
        match self.action(came) {
            StepAction::Send(sending) => StepRun { sending, ..self },
            StepAction::ClearAndSend(sending) => StepRun {
                replays: (self.replays + 1) as usize,
                sending,
                ..self
            },
            _ => self,
        }
    }

    /// The step after each pass that was made came through or failed.
    pub open spec fn after_all(self, passes: Seq<Came>) -> StepRun
        decreases passes.len(),
    {
        if passes.len() == 0 {
            self
        } else {
            self.after_all(passes.drop_last()).after(passes.last())
        }
    }

    /// Whether something was sent again after each of the passes.
    pub open spec fn goes_on(self, passes: Seq<Came>) -> bool {
        forall|n: int|
            0 <= n < passes.len() ==> ({
                let action = #[trigger] self.after_all(passes.take(n)).action(passes[n]);
                action is Send || action is ClearAndSend
            })
    }

    /// A step that is about to be sent.
    pub fn begin(has_prefill: bool) -> (r: Self)
        ensures
            r == (StepRun { replays: 0, sending: Sending::Step, has_prefill }),
    {
        StepRun { replays: 0, sending: Sending::Step, has_prefill }
    }

    /// How many of the best candidates are asked for: none where only the session
    /// is built up again.
    pub fn top_k(&self) -> (k: u32)
        ensures
            k == self.asks_for(),
    {
        match self.sending {
            Sending::Prefill => 0,
            _ => DECODE_TOP_K,
        }
    }

    /// Takes in whether what was sent came through, and says what to do next.
    pub fn forward_step(&mut self, failure: Option<&ForwardError>) -> (action: StepAction)
        ensures
            ({
                let came = came_of(
                    match failure {
                        Some(err) => Some(*err),
                        None => None,
                    },
                );
                action == old(self).action(came) && *final(self) == old(self).after(came)
            }),
    {
        match (failure, self.sending) {
            (None, Sending::Prefill) => {
                self.sending = Sending::Replay;
                StepAction::Send(Sending::Replay)
            },
            (None, _) => StepAction::Done,
            (Some(_), Sending::Prefill) => StepAction::Fail,
            (Some(err), _) => {
                let broken: bool = match err {
                    ForwardError::Broken { .. } => true,
                    ForwardError::Other(_) => false,
                };
                if !broken || self.replays >= MAX_REPLAYS {
                    return StepAction::Fail;
                }
                let next: Sending = if self.has_prefill {
                    Sending::Prefill
                } else {
                    Sending::Replay
                };
                self.replays += 1;
                self.sending = next;
                StepAction::ClearAndSend(next)
            },
        }
    }
}

// ---------------------------------------------------------------------------
// Laws
// ---------------------------------------------------------------------------

/// As long as an answer lasts, what is kept is the prompt and behind it every
/// token drawn, in order; only of a token that ends the answer it depends on
/// whether such are kept.
pub proof fn an_answer_is_the_prompt_and_the_tokens(g: GenerationView, tokens: Seq<i64>)
    requires
        g.sampled == 0,
        g.lasts(tokens),
    ensures
        g.after_all(tokens).sampled == tokens.len(),
        g.after_all(tokens).eos_id == g.eos_id,
        g.after_all(tokens).max_new_tokens == g.max_new_tokens,
        g.after_all(tokens).keep_eos == g.keep_eos,
        g.after_all(tokens).ids == if tokens.len() > 1 && g.ends(tokens.last()) && !g.keep_eos {
            g.ids + tokens.drop_last()
        } else {
            g.ids + tokens
        },
    decreases tokens.len(),
{
    if tokens.len() == 0 {
        assert(g.ids + tokens =~= g.ids);
    } else {
        let init = tokens.drop_last();
        assert forall|n: int| 0 <= n < init.len() - 1 implies !(#[trigger] g.after_all(
            init.take(n),
        ).drawn(init[n])).finished by {
            assert(init.take(n) =~= tokens.take(n));
            assert(!g.after_all(tokens.take(n)).drawn(tokens[n]).finished);
        }
        an_answer_is_the_prompt_and_the_tokens(g, init);
        if init.len() > 0 {
            let n = init.len() - 1;
            assert(!g.after_all(tokens.take(n)).drawn(tokens[n]).finished);
            an_answer_keeps_its_settings(g, tokens.take(n));
            assert(init.last() == tokens[n]);
        }
        assert((g.ids + init).push(tokens.last()) =~= g.ids + tokens);
    }
}

proof fn an_answer_keeps_its_settings(g: GenerationView, tokens: Seq<i64>)
    ensures
        g.after_all(tokens).eos_id == g.eos_id,
        g.after_all(tokens).max_new_tokens == g.max_new_tokens,
        g.after_all(tokens).keep_eos == g.keep_eos,
        g.after_all(tokens).sampled == g.sampled + tokens.len(),
    decreases tokens.len(),
{
    if tokens.len() > 0 {
        an_answer_keeps_its_settings(g, tokens.drop_last());
    }
}

/// An answer lasts at most as many tokens as may be drawn, or one.
pub proof fn an_answer_is_bounded(g: GenerationView, tokens: Seq<i64>)
    requires
        g.sampled == 0,
        g.lasts(tokens),
    ensures
        tokens.len() <= 1 || tokens.len() <= g.max_new_tokens,
{
    if tokens.len() > 1 {
        let n = tokens.len() - 2;
        an_answer_keeps_its_settings(g, tokens.take(n));
        assert(!g.after_all(tokens.take(n)).drawn(tokens[n]).finished);
    }
}

/// A step ends: besides the first pass, at most two passes are made for each time
/// that it may be sent again, one for what was embedded and one for the tokens.
pub proof fn a_step_is_not_sent_forever(s: StepRun, passes: Seq<Came>)
    requires
        s.replays == 0,
        s.sending is Step,
        s.goes_on(passes),
    ensures
        passes.len() <= 2 * MAX_REPLAYS,
        s.after_all(passes).replays <= MAX_REPLAYS,
{
    passes_use_up_the_replays(s, passes);
}

proof fn passes_use_up_the_replays(s: StepRun, passes: Seq<Came>)
    requires
        s.replays == 0,
        s.sending is Step,
        s.goes_on(passes),
    ensures
        ({
            let now = s.after_all(passes);
            &&& now.replays <= MAX_REPLAYS
            &&& passes.len() <= 2 * now.replays
            &&& now.sending is Prefill ==> passes.len() < 2 * now.replays
        }),
    decreases passes.len(),
{
    if passes.len() > 0 {
        let init = passes.drop_last();
        assert forall|n: int| 0 <= n < init.len() implies ({
            let action = #[trigger] s.after_all(init.take(n)).action(init[n]);
            action is Send || action is ClearAndSend
        }) by {
            assert(init.take(n) =~= passes.take(n));
            assert(init[n] == passes[n]);
            let action = s.after_all(passes.take(n)).action(passes[n]);
        }
        passes_use_up_the_replays(s, init);
        let last = passes.len() - 1;
        assert(passes.take(last) =~= init);
        let action = s.after_all(passes.take(last)).action(passes[last]);
        assert(action is Send || action is ClearAndSend);
    }
}

/// Every token goes through the route once: the steps sent the prompt and each token
/// drawn but the last, which is not sent before the next step. And what is sent to go
/// through the session again is just what the steps sent and the one that is under way
/// would send.
pub proof fn every_token_is_sent_once(g: GenerationView, tokens: Seq<i64>)
    requires
        g.sampled == 0,
        g.lasts(tokens),
        tokens.len() > 0,
    ensures
        g.sent_for(tokens) == g.ids + tokens.drop_last(),
        g.sent_for(tokens) == g.after_all(tokens.drop_last()).sends(Sending::Replay),
    decreases tokens.len(),
{
    let before = tokens.drop_last();
    assert forall|n: int| 0 <= n < before.len() - 1 implies !(#[trigger] g.after_all(
        before.take(n),
    ).drawn(before[n])).finished by {
        assert(before.take(n) =~= tokens.take(n));
        assert(!g.after_all(tokens.take(n)).drawn(tokens[n]).finished);
    }
    an_answer_is_the_prompt_and_the_tokens(g, before);
    if before.len() == 0 {
        assert(g.sent_for(before) =~= Seq::<i64>::empty());
        assert(g.sent_for(tokens) =~= g.ids + before);
    } else {
        every_token_is_sent_once(g, before);
        let n = before.len() - 1;
        assert(tokens.take(n) =~= before.drop_last());
        assert(!g.after_all(tokens.take(n)).drawn(tokens[n]).finished);
        an_answer_keeps_its_settings(g, before.drop_last());
        assert(!g.ends(before.last()));
        assert(g.after_all(before).ids == g.ids + before);
        assert(g.after_all(before).ids.last() == before.last());
        assert(g.sent_for(tokens) =~= g.ids + before);
    }
    assert(g.after_all(before).ids =~= g.ids + before);
}

/// While an answer lasts, every token is shown but one that ends it, and that one only
/// where it is the first; and it is at its end just with a token that ends it, or with
/// the last that may be drawn.
pub proof fn what_is_drawn_is_shown(g: GenerationView, tokens: Seq<i64>, n: int)
    requires
        g.sampled == 0,
        g.lasts(tokens),
        0 <= n < tokens.len(),
    ensures
        g.after_all(tokens.take(n)).drawn(tokens[n]).show <==> n == 0 || g.eos_id != Some(
            tokens[n],
        ),
        g.after_all(tokens.take(n)).drawn(tokens[n]).finished <==> g.eos_id == Some(tokens[n]) || n
            + 1 >= g.max_new_tokens,
        n < tokens.len() - 1 ==> g.eos_id != Some(tokens[n]) && n + 1 < g.max_new_tokens,
{
    an_answer_keeps_its_settings(g, tokens.take(n));
    if n < tokens.len() - 1 {
        assert(!g.after_all(tokens.take(n)).drawn(tokens[n]).finished);
    }
}

/// The best candidates are asked for exactly where what comes back is the output of the
/// step: where it came through, the step is then done.
pub proof fn candidates_are_asked_for_where_they_are_used(s: StepRun)
    ensures
        s.asks_for() > 0 <==> s.action(Came::Through) is Done,
        s.asks_for() <= DECODE_TOP_K,
        s.asks_for() == 0 || s.asks_for() == DECODE_TOP_K,
{
}

/// After a break of the route a session is built up anew in its order: every replica
/// forgets it, what was embedded goes first where there is any, then all tokens, and with
/// these the step is done. A failure of any other kind, or one under what was embedded, is
/// final.
pub proof fn a_broken_step_is_built_up_in_order(s: StepRun)
    requires
        !(s.sending is Prefill),
    ensures
        s.replays < MAX_REPLAYS ==> {
            let again = s.after(Came::Broken);
            &&& s.action(Came::Broken) is ClearAndSend
            &&& s.action(Came::Broken)->ClearAndSend_0 == again.sending
            &&& again.replays == s.replays + 1
            &&& again.has_prefill == s.has_prefill
            &&& s.has_prefill ==> again.sending is Prefill && again.after(Came::Through).sending
                is Replay && again.action(Came::Through) == StepAction::Send(Sending::Replay)
                && again.after(Came::Through).action(Came::Through) is Done && again.action(
                Came::Broken,
            ) is Fail && again.after(Came::Through).replays == again.replays
            &&& !s.has_prefill ==> again.sending is Replay && again.action(Came::Through) is Done
        },
        s.replays >= MAX_REPLAYS ==> s.action(Came::Broken) is Fail,
        s.action(Came::Failed) is Fail,
        s.action(Came::Through) is Done,
{
}

/// Of an answer to token ids the prompt and every token drawn is kept. Of one to a prompt that
/// was embedded every token drawn is kept but one that ends it, unless that was the first.
pub proof fn what_is_kept_of_an_answer(
    prompt: Seq<i64>,
    most: nat,
    eos_id: Option<i64>,
    tokens: Seq<i64>,
)
    ensures
        answer_to(prompt, most, eos_id).lasts(tokens) ==> answer_to(
            prompt,
            most,
            eos_id,
        ).after_all(tokens).ids == prompt + tokens,
        answer_to_embeddings(most, eos_id).lasts(tokens) ==> answer_to_embeddings(
            most,
            eos_id,
        ).after_all(tokens).ids == if tokens.len() > 1 && eos_id == Some(tokens.last()) {
            tokens.drop_last()
        } else {
            tokens
        },
        answer_to(prompt, most, eos_id).lasts(tokens) ==> tokens.len() <= 1 || tokens.len() <= most,
{
    let g = answer_to(prompt, most, eos_id);
    let h = answer_to_embeddings(most, eos_id);
    if g.lasts(tokens) {
        an_answer_is_the_prompt_and_the_tokens(g, tokens);
        an_answer_is_bounded(g, tokens);
    }
    if h.lasts(tokens) {
        an_answer_is_the_prompt_and_the_tokens(h, tokens);
        assert(Seq::<i64>::empty() + tokens =~= tokens);
        assert(Seq::<i64>::empty() + tokens.drop_last() =~= tokens.drop_last());
    }
}

/// Only a break of the route has a step sent again; any other failure is final, and where
/// nothing failed nothing is sent again.
pub proof fn only_a_break_is_sent_again(s: StepRun, err: ForwardError)
    ensures
        s.action(came_of(Some(err))) is ClearAndSend ==> err is Broken,
        err is Broken && !(s.sending is Prefill) && s.replays < MAX_REPLAYS ==> s.action(
            came_of(Some(err)),
        ) is ClearAndSend,
        !(s.action(came_of(None)) is Fail),
        !(s.action(came_of(None)) is ClearAndSend),
        s.after(came_of(None)).replays == s.replays,
{
}

} // verus!
