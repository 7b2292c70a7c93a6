//! A route through the network: which nodes hold each slice of a model, which
//! of them still answer, and what to do when one does not.

use vstd::prelude::*;

use crate::capacity::{analyze, position_of, write_range, ModelCapacity, SliceCoverage};
use crate::compute::{stalled_endpoint, Hop};
use crate::crypto::array_of_32;
use crate::registry::{Peer, PeerRegistry, WIRE_VERSION};
use crate::tensor::Tensor;
use crate::text;
use crate::transport::KeyExchange;

pub use crate::logits::{argmax_last_token, ids_to_tensor, next_token};

verus! {

// ---------------------------------------------------------------------------
// Replicas
// ---------------------------------------------------------------------------

/// One node that holds a slice: a worker of this machine, a node that can be
/// asked directly, or one that is asked through a relay.
#[derive(Debug)]
pub enum Replica {
    Local { endpoint: String, alive: bool },
    Remote {
        compute_endpoint: String,
        host_kx_public: [u8; 32],
        label: String,
        alive: bool,
        protocol_version: u32,
    },
    Relayed {
        relay_endpoint: String,
        target_node_id: Vec<u8>,
        host_kx_public: [u8; 32],
        label: String,
        alive: bool,
        protocol_version: u32,
    },
}

/// What a [`Replica`] holds.
#[verifier::ext_equal]
pub enum ReplicaView {
    Local { endpoint: Seq<char>, alive: bool },
    Remote {
        compute_endpoint: Seq<char>,
        host_kx_public: Seq<u8>,
        label: Seq<char>,
        alive: bool,
        protocol_version: u32,
    },
    Relayed {
        relay_endpoint: Seq<char>,
        target_node_id: Seq<u8>,
        host_kx_public: Seq<u8>,
        label: Seq<char>,
        alive: bool,
        protocol_version: u32,
    },
}

impl View for Replica {
    type V = ReplicaView;

    open spec fn view(&self) -> ReplicaView {
        match *self {
            Replica::Local { endpoint, alive } => ReplicaView::Local { endpoint: endpoint@, alive },
            Replica::Remote { compute_endpoint, host_kx_public, label, alive, protocol_version } =>
            ReplicaView::Remote {
                compute_endpoint: compute_endpoint@,
                host_kx_public: host_kx_public@,
                label: label@,
                alive,
                protocol_version,
            },
            Replica::Relayed {
                relay_endpoint,
                target_node_id,
                host_kx_public,
                label,
                alive,
                protocol_version,
            } => ReplicaView::Relayed {
                relay_endpoint: relay_endpoint@,
                target_node_id: target_node_id@,
                host_kx_public: host_kx_public@,
                label: label@,
                alive,
                protocol_version,
            },
        }
    }
}

impl ReplicaView {
    /// Whether the replica still answers, as far as is known.
    pub open spec fn is_alive(self) -> bool {
        match self {
            ReplicaView::Local { alive, .. } => alive,
            ReplicaView::Remote { alive, .. } => alive,
            ReplicaView::Relayed { alive, .. } => alive,
        }
    }

    /// The same replica, known to answer or not.
    pub open spec fn with_alive(self, now: bool) -> ReplicaView {
        match self {
            ReplicaView::Local { endpoint, .. } => ReplicaView::Local { endpoint, alive: now },
            ReplicaView::Remote {
                compute_endpoint,
                host_kx_public,
                label,
                protocol_version,
                ..
            } => ReplicaView::Remote {
                compute_endpoint,
                host_kx_public,
                label,
                alive: now,
                protocol_version,
            },
            ReplicaView::Relayed {
                relay_endpoint,
                target_node_id,
                host_kx_public,
                label,
                protocol_version,
                ..
            } => ReplicaView::Relayed {
                relay_endpoint,
                target_node_id,
                host_kx_public,
                label,
                alive: now,
                protocol_version,
            },
        }
    }

    /// The version of the wire format that the replica speaks: a worker of this
    /// machine the current one, another node the one it last told.
    pub open spec fn version(self) -> u32 {
        match self {
            ReplicaView::Local { .. } => WIRE_VERSION,
            ReplicaView::Remote { protocol_version, .. } => protocol_version,
            ReplicaView::Relayed { protocol_version, .. } => protocol_version,
        }
    }

    /// The same replica, known to speak a version.
    pub open spec fn with_version(self, version: u32) -> ReplicaView {
        match self {
            ReplicaView::Local { .. } => self,
            ReplicaView::Remote { compute_endpoint, host_kx_public, label, alive, .. } =>
            ReplicaView::Remote {
                compute_endpoint,
                host_kx_public,
                label,
                alive,
                protocol_version: version,
            },
            ReplicaView::Relayed {
                relay_endpoint,
                target_node_id,
                host_kx_public,
                label,
                alive,
                ..
            } => ReplicaView::Relayed {
                relay_endpoint,
                target_node_id,
                host_kx_public,
                label,
                alive,
                protocol_version: version,
            },
        }
    }

    /// Whether the replica can parse the current wire format.
    pub open spec fn is_current(self) -> bool {
        self.version() >= WIRE_VERSION
    }

    /// The name of the replica.
    pub open spec fn name(self) -> Seq<char> {
        match self {
            ReplicaView::Local { endpoint, .. } => endpoint,
            ReplicaView::Remote { label, .. } => label,
            ReplicaView::Relayed { label, .. } => label,
        }
    }
}

impl Replica {
    /// Whether the replica still answers, as far as is known.
    pub fn is_alive(&self) -> (r: bool)
        ensures
            r == self@.is_alive(),
    {
        match self {
            Replica::Local { alive, .. } => *alive,
            Replica::Remote { alive, .. } => *alive,
            Replica::Relayed { alive, .. } => *alive,
        }
    }

    /// Notes whether the replica answers.
    fn set_alive(&mut self, now: bool)
        ensures
            final(self)@ == old(self)@.with_alive(now),
    {
        match self {
            Replica::Local { alive, .. } => {
                *alive = now;
            },
            Replica::Remote { alive, .. } => {
                *alive = now;
            },
            Replica::Relayed { alive, .. } => {
                *alive = now;
            },
        }
    }

    /// Notes that the replica does not answer any more.
    pub fn set_dead(&mut self)
        ensures
            final(self)@ == old(self)@.with_alive(false),
    {
        self.set_alive(false);
    }

    /// Notes the version of the wire format that the replica told.
    pub fn learn_protocol_version(&mut self, version: u32)
        ensures
            final(self)@ == old(self)@.with_version(version),
    {
        match self {
            Replica::Local { .. } => {},
            Replica::Remote { protocol_version, .. } => {
                *protocol_version = version;
            },
            Replica::Relayed { protocol_version, .. } => {
                *protocol_version = version;
            },
        }
    }

    /// The version of the wire format that the replica speaks.
    pub fn protocol_version(&self) -> (r: u32)
        ensures
            r == self@.version(),
    {
        match self {
            Replica::Local { .. } => WIRE_VERSION,
            Replica::Remote { protocol_version, .. } => *protocol_version,
            Replica::Relayed { protocol_version, .. } => *protocol_version,
        }
    }

    /// Whether the replica can parse the current wire format.
    pub fn speaks_current_wire(&self) -> (r: bool)
        ensures
            r == self@.is_current(),
    {
        self.protocol_version() >= WIRE_VERSION
    }

    /// The name of the replica.
    pub fn label(&self) -> (r: String)
        ensures
            r@ == self@.name(),
    {
        match self {
            Replica::Local { endpoint, .. } => endpoint.clone(),
            Replica::Remote { label, .. } => label.clone(),
            Replica::Relayed { label, .. } => label.clone(),
        }
    }
}

/// What the replicas of a list hold.
pub open spec fn replica_views(rs: Seq<Replica>) -> Seq<ReplicaView> {
    Seq::new(rs.len(), |i: int| rs[i]@)
}

// ---------------------------------------------------------------------------
// Stages
// ---------------------------------------------------------------------------

/// One slice of a model, and the replicas that hold it.
#[derive(Debug)]
pub struct Stage {
    pub start_layer: u32,
    pub end_layer: u32,
    pub replicas: Vec<Replica>,
    pub last_compute_ms: u64,
    pub last_network_ms: u64,
}

/// What a [`Stage`] holds.
#[verifier::ext_equal]
pub struct StageView {
    pub start_layer: u32,
    pub end_layer: u32,
    pub replicas: Seq<ReplicaView>,
    pub last_compute_ms: u64,
    pub last_network_ms: u64,
}

impl View for Stage {
    type V = StageView;

    open spec fn view(&self) -> StageView {
        StageView {
            start_layer: self.start_layer,
            end_layer: self.end_layer,
            replicas: replica_views(self.replicas@),
            last_compute_ms: self.last_compute_ms,
            last_network_ms: self.last_network_ms,
        }
    }
}

/// What the stages of a route hold.
pub open spec fn stage_views(stages: Seq<Stage>) -> Seq<StageView> {
    Seq::new(stages.len(), |i: int| stages[i]@)
}

/// The place of the first replica from `from` on that still answers.
pub open spec fn next_alive(rs: Seq<ReplicaView>, from: int) -> Option<int>
    decreases rs.len() - from,
{
    if from < 0 || from >= rs.len() {
        None
    } else if rs[from].is_alive() {
        Some(from)
    } else {
        next_alive(rs, from + 1)
    }
}

/// The next replica that answers does, and none between does; where there is
/// no next one, none does.
pub proof fn the_next_alive_is_the_first(rs: Seq<ReplicaView>, from: int)
    requires
        0 <= from,
    ensures
        match next_alive(rs, from) {
            Some(i) => from <= i < rs.len() && rs[i].is_alive() && forall|k: int|
                from <= k < i ==> !(#[trigger] rs[k]).is_alive(),
            None => forall|k: int| from <= k < rs.len() ==> !(#[trigger] rs[k]).is_alive(),
        },
    decreases rs.len() - from,
{
    if from < rs.len() && !rs[from].is_alive() {
        the_next_alive_is_the_first(rs, from + 1);
    }
}

/// How many of the replicas still answer.
pub open spec fn alive_count(rs: Seq<ReplicaView>) -> nat
    decreases rs.len(),
{
    if rs.len() == 0 {
        0
    } else if rs.last().is_alive() {
        alive_count(rs.drop_last()) + 1
    } else {
        alive_count(rs.drop_last())
    }
}

/// The names of the replicas.
pub open spec fn names(rs: Seq<ReplicaView>) -> Seq<Seq<char>> {
    Seq::new(rs.len(), |i: int| rs[i].name())
}

/// The route broke at a node: what it kept of the session is lost.
#[derive(Debug, PartialEq)]
pub struct RouteBroken {
    pub endpoint: String,
}

impl RouteBroken {
    /// What happened, in words.
    pub open spec fn text(&self) -> Seq<char> {
        "the route broke at "@ + self.endpoint@
            + "; the session must be replayed because the surviving replicas hold no KV cache for it"@
    }

    /// What happened, in words.
    pub fn message(&self) -> (s: String)
        ensures
            s@ == self.text(),
    {
        let mut s: String = "the route broke at ".to_string();
        s.append(self.endpoint.as_str());
        s.append(
            "; the session must be replayed because the surviving replicas hold no KV cache for it",
        );
        s
    }
}

/// Why activations did not come through the route.
#[derive(Debug)]
pub enum ForwardError {
    /// The route broke while the session had a cache.
    Broken { route: RouteBroken, context: String },
    /// Anything else.
    Other(String),
}

impl ForwardError {
    /// What happened, in words, the circumstances first.
    pub open spec fn text(&self) -> Seq<char> {
        match *self {
            ForwardError::Broken { route, context } => context@ + ": "@ + route.text(),
            ForwardError::Other(s) => s@,
        }
    }

    /// What happened, in words, the circumstances first.
    pub fn message(&self) -> (s: String)
        ensures
            s@ == self.text(),
    {
        match self {
            ForwardError::Broken { route, context } => {
                let mut s: String = context.clone();
                s.append(": ");
                s.append(route.message().as_str());
                s
            },
            ForwardError::Other(s) => s.clone(),
        }
    }
}

/// The break of the route behind an error, where it is one.
pub fn route_broken(err: &ForwardError) -> (r: Option<&RouteBroken>)
    ensures
        match r {
            Some(b) => err matches ForwardError::Broken { route, .. } && *b == route,
            None => err is Other,
        },
{
    match err {
        ForwardError::Broken { route, .. } => Some(route),
        ForwardError::Other(_) => None,
    }
}

/// What came of asking a replica.
#[derive(Debug, Clone, Copy, PartialEq, Eq, Structural)]
pub enum Outcome {
    /// It answered: how long it computed, which version it speaks, and how long
    /// it took in all.
    Answered { compute_ms: u64, peer_version: u32, hop_ms: u64 },
    /// It did not.
    Failed,
}

/// What to do next to run a slice.
#[derive(Debug, PartialEq)]
pub enum FailoverStep {
    /// Ask this replica.
    Try(usize),
    /// The slice was run.
    Finished,
    /// The replica that held the session's cache is gone.
    Broken(RouteBroken),
    /// No replica is left.
    Exhausted,
}

/// What is left of a hop when the computing is taken off.
pub open spec fn network_part(hop_ms: u64, compute_ms: u64) -> u64 {
    if hop_ms >= compute_ms {
        (hop_ms - compute_ms) as u64
    } else {
        0
    }
}

/// A stage after one of its replicas was asked.
pub open spec fn after_attempt(s: StageView, idx: int, outcome: Outcome) -> StageView {
    match outcome {
        Outcome::Answered { compute_ms, peer_version, hop_ms } => StageView {
            replicas: s.replicas.update(idx, s.replicas[idx].with_version(peer_version)),
            last_compute_ms: compute_ms,
            last_network_ms: network_part(hop_ms, compute_ms),
            ..s
        },
        Outcome::Failed => StageView {
            replicas: s.replicas.update(idx, s.replicas[idx].with_alive(false)),
            ..s
        },
    }
}

/// Whether a step says to ask the first replica from `from` on that answers, or
/// that there is none.
pub open spec fn tries_from(step: FailoverStep, rs: Seq<ReplicaView>, from: int) -> bool {
    match next_alive(rs, from) {
        Some(i) => step matches FailoverStep::Try(j) && j == i,
        None => step is Exhausted,
    }
}

/// What to do once a replica of a stage was asked: nothing more where it answered. Where it
/// did not, the route is broken there while the session has a cache, and else the next
/// replica that answers is asked.
pub open spec fn follows(
    step: FailoverStep,
    s: StageView,
    idx: int,
    outcome: Outcome,
    use_cache: bool,
) -> bool {
    match outcome {
        Outcome::Answered { .. } => step is Finished,
        Outcome::Failed => if use_cache {
            step matches FailoverStep::Broken(b) && b.endpoint@ == s.replicas[idx].name()
        } else {
            tries_from(step, after_attempt(s, idx, outcome).replicas, idx + 1)
        },
    }
}

impl Stage {
    fn find_alive(&self, from: usize) -> (r: Option<usize>)
        ensures
            match r {
                Some(i) => next_alive(self@.replicas, from as int) == Some(i as int) && from <= i
                    < self.replicas@.len(),
                None => next_alive(self@.replicas, from as int) is None,
            },
    {
        let mut i: usize = from;
        while i < self.replicas.len()
            invariant
                from <= i,
                next_alive(self@.replicas, from as int) == next_alive(self@.replicas, i as int),
            decreases self.replicas@.len() - i,
        {
            assert(self@.replicas[i as int] == self.replicas@[i as int]@);
            if self.replicas[i].is_alive() {
                return Some(i);
            }
            i += 1;
        }
        None
    }

    /// Which replica to ask first.
    pub fn begin(&self) -> (step: FailoverStep)
        ensures
            tries_from(step, self@.replicas, 0),
    {
        match self.find_alive(0) {
            Some(i) => FailoverStep::Try(i),
            None => FailoverStep::Exhausted,
        }
    }

    /// Notes what came of asking a replica, and says what to do next. A replica
    /// that fails is not asked again. While the session has a cache a standby
    /// cannot go on in its place, so the route is broken; else the next replica
    /// that answers is asked.
    pub fn run_with_failover(&mut self, idx: usize, outcome: Outcome, use_cache: bool) -> (step:
        FailoverStep)
        requires
            idx < old(self).replicas@.len(),
        ensures
            final(self)@ == after_attempt(old(self)@, idx as int, outcome),
            follows(step, old(self)@, idx as int, outcome, use_cache),
    {
        let ghost before = self@;
        let n: usize = self.replicas.len();
        assert(before.replicas[idx as int] == self.replicas@[idx as int]@);
        match outcome {
            Outcome::Answered { compute_ms, peer_version, hop_ms } => {
                self.replicas[idx].learn_protocol_version(peer_version);
                self.last_compute_ms = compute_ms;
                self.last_network_ms = if hop_ms >= compute_ms {
                    hop_ms - compute_ms
                } else {
                    0
                };
                assert(self@.replicas =~= before.replicas.update(
                    idx as int,
                    before.replicas[idx as int].with_version(peer_version),
                ));
                FailoverStep::Finished
            },
            Outcome::Failed => {
                let label: String = self.replicas[idx].label();
                self.replicas[idx].set_dead();
                assert(self@.replicas =~= before.replicas.update(
                    idx as int,
                    before.replicas[idx as int].with_alive(false),
                ));
                if use_cache {
                    return FailoverStep::Broken(RouteBroken { endpoint: label });
                }
                match self.find_alive(idx + 1) {
                    Some(i) => FailoverStep::Try(i),
                    None => FailoverStep::Exhausted,
                }
            },
        }
    }

    /// Whether the replica that will take this stage's input can parse the
    /// current wire format.
    pub fn accepts_bf16(&self) -> (r: bool)
        ensures
            r == stage_accepts(self@),
    {
        match self.find_alive(0) {
            Some(i) => {
                assert(self@.replicas[i as int] == self.replicas@[i as int]@);
                self.replicas[i].speaks_current_wire()
            },
            None => false,
        }
    }

    /// How many replicas still answer.
    pub fn live_replicas(&self) -> (n: usize)
        ensures
            n == alive_count(self@.replicas),
            n <= self.replicas@.len(),
    {
        let mut n: usize = 0;
        let mut i: usize = 0;
        let ghost rs = self@.replicas;
        while i < self.replicas.len()
            invariant
                i <= self.replicas@.len(),
                rs == replica_views(self.replicas@),
                n == alive_count(rs.take(i as int)),
                n <= i,
            decreases self.replicas@.len() - i,
        {
            assert(rs.take(i + 1).drop_last() =~= rs.take(i as int));
            assert(rs[i as int] == self.replicas@[i as int]@);
            if self.replicas[i].is_alive() {
                n += 1;
            }
            i += 1;
        }
        assert(rs.take(i as int) =~= rs);
        n
    }

    /// Whether one of the replicas has this name.
    fn has_name(&self, ep: &str) -> (r: bool)
        ensures
            r == names(self@.replicas).contains(ep@),
    {
        let ghost all = names(self@.replicas);
        let mut i: usize = 0;
        while i < self.replicas.len()
            invariant
                i <= self.replicas@.len(),
                all == names(self@.replicas),
                forall|k: int| 0 <= k < i ==> all[k] != ep@,
            decreases self.replicas@.len() - i,
        {
            assert(all[i as int] == self.replicas@[i as int]@.name());
            if text::str_eq(self.replicas[i].label().as_str(), ep) {
                return true;
            }
            i += 1;
        }
        false
    }

    /// The text of the error when no replica is left.
    pub fn exhausted_message(&self) -> (s: String)
        ensures
            s@ == "all replicas dead for slice "@ + crate::capacity::range_text(
                self.start_layer as int,
                self.end_layer as int,
            ),
    {
        let mut s: String = "all replicas dead for slice ".to_string();
        s.append(write_range(self.start_layer, self.end_layer).as_str());
        s
    }

    /// The circumstances of a break: the slice at which it happened.
    pub fn broken_context(&self) -> (s: String)
        ensures
            s@ == "slice "@ + crate::capacity::range_text(
                self.start_layer as int,
                self.end_layer as int,
            ),
    {
        let mut s: String = "slice ".to_string();
        s.append(write_range(self.start_layer, self.end_layer).as_str());
        s
    }
}

/// Whether the first replica of a stage that answers can parse the current wire
/// format; not where none answers.
pub open spec fn stage_accepts(s: StageView) -> bool {
    next_alive(s.replicas, 0) matches Some(i) && s.replicas[i].is_current()
}

// ---------------------------------------------------------------------------
// The route
// ---------------------------------------------------------------------------

/// A route through a model, one stage for each slice, and what is known of it.
pub struct Orchestrator {
    pub model_id: String,
    pub stages: Vec<Stage>,
    pub spare_endpoints: Vec<String>,
    pub target_replication: usize,
    pub session_kx: KeyExchange,
    pub last_forward_compute_ms: u64,
    pub last_forward_network_ms: u64,
    pub chain_enabled: bool,
    /// What the client embedded for the session in flight. A broken route is
    /// mended by sending the beginning of the session again, and media is not
    /// in the token ids.
    pub session_prefill: Option<Tensor>,
}

/// How many of the best candidates the last stage sends back for each token.
pub const DECODE_TOP_K: u32 = 8;

/// How often one step is sent again after a break.
pub const MAX_REPLAYS: usize = 3;

/// Whether an endpoint is the name of a replica of one of the stages.
pub open spec fn in_use(stages: Seq<StageView>, ep: Seq<char>) -> bool {
    exists|i: int| 0 <= i < stages.len() && names((#[trigger] stages[i]).replicas).contains(ep)
}

/// The place of the first spare from `k` on that no stage uses.
pub open spec fn free_spare(stages: Seq<StageView>, spares: Seq<String>, k: int) -> Option<int>
    decreases spares.len() - k,
{
    if k < 0 || k >= spares.len() {
        None
    } else if !in_use(stages, spares[k]@) {
        Some(k)
    } else {
        free_spare(stages, spares, k + 1)
    }
}

/// The spare to recruit for a stage: none where enough of its replicas answer, and else
/// the first that is free.
pub open spec fn next_spare(
    stages: Seq<StageView>,
    stage: int,
    spares: Seq<String>,
    target: nat,
) -> Option<int> {
    if alive_count(stages[stage].replicas) >= target {
        None
    } else {
        free_spare(stages, spares, 0)
    }
}

/// What to do next to bring a stage up to strength.
#[derive(Debug, PartialEq)]
pub enum RepairStep {
    /// Enough replicas answer.
    Enough,
    /// Too few answer, and no spare is free.
    NoSpare,
    /// Have this spare load the slice.
    Recruit(String),
}

/// The place of the first replica that can be part of a chain: another node
/// that answers, can be asked directly, and speaks the current wire format.
pub open spec fn chain_place(rs: Seq<ReplicaView>, k: int) -> Option<int>
    decreases rs.len() - k,
{
    if k < 0 || k >= rs.len() {
        None
    } else if rs[k].is_alive() && rs[k] is Remote && rs[k].is_current() {
        Some(k)
    } else {
        chain_place(rs, k + 1)
    }
}

/// The hop of a chain at a stage.
pub open spec fn hop_of(s: StageView, at: int, top_k: u32) -> crate::compute::HopView {
    crate::compute::HopView {
        compute_endpoint: s.replicas[at]->Remote_compute_endpoint,
        kx_public: s.replicas[at]->Remote_host_kx_public,
        start_layer: s.start_layer,
        end_layer: s.end_layer,
        top_k,
        accepts_bf16: true,
    }
}

/// The hops of a chain through the first `n` stages, each with the place of its
/// replica; none where one of the stages has no replica for it. Only the last
/// stage of all is asked for the best candidates.
pub open spec fn chain_of(stages: Seq<StageView>, n: int, top_k: u32) -> Option<
    Seq<(int, crate::compute::HopView)>,
>
    decreases n,
{
    if n <= 0 {
        Some(Seq::empty())
    } else {
        let s = stages[n - 1];
        let k = if n == stages.len() {
            top_k
        } else {
            0
        };
        match (chain_of(stages, n - 1, top_k), chain_place(s.replicas, 0)) {
            (Some(hops), Some(at)) => Some(hops.push((at, hop_of(s, at, k)))),
            _ => None,
        }
    }
}

/// What the hops of a chain hold, with the places of their replicas.
pub open spec fn placed_views(hops: Seq<(usize, Hop)>) -> Seq<(int, crate::compute::HopView)> {
    Seq::new(hops.len(), |i: int| (hops[i].0 as int, hops[i].1@))
}

/// A request that goes through the whole route by itself: the first hop, and
/// the hops that it hands on to.
pub struct ChainPlan {
    pub head: usize,
    pub endpoint: String,
    pub host_kx_public: [u8; 32],
    pub start_layer: u32,
    pub end_layer: u32,
    pub top_k: u32,
    pub rest: Vec<Hop>,
    pub accepts_bf16: bool,
}

/// The hops behind the first one.
pub open spec fn behind_the_head(chain: Seq<(int, crate::compute::HopView)>) -> Seq<
    crate::compute::HopView,
> {
    Seq::new((chain.len() - 1) as nat, |i: int| chain[i + 1].1)
}

/// The plan sends a request to the first hop of a chain, which hands it on to
/// the others.
pub open spec fn plans_chain(
    plan: ChainPlan,
    stages: Seq<StageView>,
    chain: Seq<(int, crate::compute::HopView)>,
) -> bool {
    let (at, hop) = chain[0];
    &&& chain.len() == stages.len()
    &&& plan.head == at
    &&& plan.head < stages[0].replicas.len()
    &&& plan.endpoint@ == hop.compute_endpoint
    &&& plan.host_kx_public@ == hop.kx_public
    &&& plan.start_layer == hop.start_layer
    &&& plan.end_layer == hop.end_layer
    &&& plan.top_k == hop.top_k
    &&& plan.accepts_bf16 == chain[1].1.accepts_bf16
    &&& crate::compute::hop_views(plan.rest@) == behind_the_head(chain)
}

/// What one stage is asked for.
#[derive(Debug, Clone, Copy, PartialEq, Eq, Structural)]
pub struct StageTask {
    pub top_k: u32,
    pub accepts_bf16: bool,
}

/// What a stage is asked for when the client goes through them one by one.
pub open spec fn stage_task(stages: Seq<StageView>, i: int, top_k: u32) -> StageTask {
    StageTask {
        top_k: if i + 1 == stages.len() {
            top_k
        } else {
            0
        },
        accepts_bf16: i + 1 < stages.len() && stage_accepts(stages[i + 1]),
    }
}

/// Whether activations go by themselves from node to node: where that is allowed, the
/// session has a cache, there are at least two stages, and every stage can take part.
pub open spec fn goes_chained(
    stages: Seq<StageView>,
    enabled: bool,
    use_cache: bool,
    top_k: u32,
) -> bool {
    enabled && use_cache && stages.len() >= 2 && chain_of(
        stages,
        stages.len() as int,
        top_k,
    ) is Some
}

/// How to bring activations through the route.
pub enum ForwardPlan {
    Chained(ChainPlan),
    Staged(Vec<StageTask>),
}

/// What came of a request through the whole route.
#[derive(Debug)]
pub enum ChainOutcome {
    Answered { compute_ms: u64, peer_version: u32, elapsed_ms: u64 },
    /// It failed: what is said of that, and what is said of it with all that led
    /// to it.
    Failed { context: String, cause: String },
}

/// Replicas after an endpoint was found dead: every node that is asked there.
pub open spec fn without_endpoint(rs: Seq<ReplicaView>, ep: Seq<char>) -> Seq<ReplicaView> {
    Seq::new(
        rs.len(),
        |i: int|
            if rs[i] is Remote && rs[i]->Remote_compute_endpoint == ep {
                rs[i].with_alive(false)
            } else {
                rs[i]
            },
    )
}

/// A stage after an endpoint was found dead.
pub open spec fn stage_without(s: StageView, ep: Seq<char>) -> StageView {
    StageView { replicas: without_endpoint(s.replicas, ep), ..s }
}

/// Stages after an endpoint was found dead.
pub open spec fn stages_without(stages: Seq<StageView>, ep: Seq<char>) -> Seq<StageView> {
    Seq::new(stages.len(), |i: int| stage_without(stages[i], ep))
}

/// Stages after it was asked whether a replica is well: noted of a worker of this machine
/// alone.
pub open spec fn after_check(stages: Seq<StageView>, stage: int, replica: int, ok: bool) -> Seq<
    StageView,
> {
    let s = stages[stage];
    let r = s.replicas[replica];
    if r is Local {
        stages.update(
            stage,
            StageView { replicas: s.replicas.update(replica, r.with_alive(ok)), ..s },
        )
    } else {
        stages
    }
}

/// The time that the stages computed, last time each was run.
pub open spec fn compute_sum(stages: Seq<StageView>) -> nat
    decreases stages.len(),
{
    if stages.len() == 0 {
        0
    } else {
        compute_sum(stages.drop_last()) + stages.last().last_compute_ms as nat
    }
}

/// The time that the hops took beside the computing, last time each stage was run.
pub open spec fn network_sum(stages: Seq<StageView>) -> nat
    decreases stages.len(),
{
    if stages.len() == 0 {
        0
    } else {
        network_sum(stages.drop_last()) + stages.last().last_network_ms as nat
    }
}

proof fn sums_grow(stages: Seq<StageView>, n: int)
    requires
        0 <= n <= stages.len(),
    ensures
        compute_sum(stages.take(n)) <= compute_sum(stages),
        network_sum(stages.take(n)) <= network_sum(stages),
    decreases stages.len(),
{
    if n == stages.len() {
        assert(stages.take(n) =~= stages);
    } else {
        sums_grow(stages.drop_last(), n);
        assert(stages.drop_last().take(n) =~= stages.take(n));
    }
}

/// The local replicas that answer, in order, each by its stage and place.
pub open spec fn is_local_alive(stages: Seq<StageView>, at: (int, int)) -> bool {
    0 <= at.0 < stages.len() && 0 <= at.1 < stages[at.0].replicas.len()
        && stages[at.0].replicas[at.1] is Local && stages[at.0].replicas[at.1].is_alive()
}

/// Whether a replica is told to forget a session: one that is asked over a relay is
/// not.
pub open spec fn can_be_told(r: ReplicaView) -> bool {
    !(r is Relayed)
}

/// The place is that of a replica that is told to forget a session.
pub open spec fn is_told(stages: Seq<StageView>, at: (int, int)) -> bool {
    0 <= at.0 < stages.len() && 0 <= at.1 < stages[at.0].replicas.len() && can_be_told(
        stages[at.0].replicas[at.1],
    )
}

/// Whether a place stands before another: by the stage, then by the replica.
pub open spec fn place_before(a: (usize, usize), b: (usize, usize)) -> bool {
    a.0 < b.0 || (a.0 == b.0 && a.1 < b.1)
}

impl Orchestrator {
    /// What the stages hold.
    pub open spec fn view_stages(&self) -> Seq<StageView> {
        stage_views(self.stages@)
    }

    /// All but the stages and the times of the last pass is as it was.
    pub open spec fn same_session(&self, before: &Orchestrator) -> bool {
        &&& self.model_id == before.model_id
        &&& self.spare_endpoints == before.spare_endpoints
        &&& self.target_replication == before.target_replication
        &&& self.session_kx == before.session_kx
        &&& self.chain_enabled == before.chain_enabled
        &&& self.session_prefill == before.session_prefill
    }

    /// The times of the last pass are as they were.
    pub open spec fn same_times(&self, before: &Orchestrator) -> bool {
        self.last_forward_compute_ms == before.last_forward_compute_ms
            && self.last_forward_network_ms == before.last_forward_network_ms
    }

    /// How many replicas of each stage still answer.
    pub fn coverage(&self) -> (r: Vec<usize>)
        ensures
            r@.len() == self.stages@.len(),
            forall|i: int|
                0 <= i < r@.len() ==> #[trigger] r@[i] == alive_count(
                    self.view_stages()[i].replicas,
                ),
    {
        let mut r: Vec<usize> = Vec::new();
        let mut i: usize = 0;
        while i < self.stages.len()
            invariant
                i <= self.stages@.len(),
                r@.len() == i,
                forall|k: int|
                    0 <= k < i ==> #[trigger] r@[k] == alive_count(self.view_stages()[k].replicas),
            decreases self.stages@.len() - i,
        {
            r.push(self.stages[i].live_replicas());
            i += 1;
        }
        r
    }

    /// Whether every stage has a replica that answers.
    pub fn is_servable(&self) -> (r: bool)
        ensures
            r == forall|i: int|
                0 <= i < self.view_stages().len() ==> alive_count(
                    (#[trigger] self.view_stages()[i]).replicas,
                ) > 0,
    {
        let mut i: usize = 0;
        while i < self.stages.len()
            invariant
                i <= self.stages@.len(),
                forall|k: int|
                    0 <= k < i ==> alive_count((#[trigger] self.view_stages()[k]).replicas) > 0,
            decreases self.stages@.len() - i,
        {
            if self.stages[i].live_replicas() == 0 {
                assert(alive_count(self.view_stages()[i as int].replicas) == 0);
                return false;
            }
            i += 1;
        }
        true
    }

    /// Whether every stage has as many replicas that answer as it should.
    pub fn at_strength(&self) -> (r: bool)
        ensures
            r == forall|i: int|
                0 <= i < self.view_stages().len() ==> alive_count(
                    (#[trigger] self.view_stages()[i]).replicas,
                ) >= self.target_replication,
    {
        let mut i: usize = 0;
        while i < self.stages.len()
            invariant
                i <= self.stages@.len(),
                forall|k: int|
                    0 <= k < i ==> alive_count((#[trigger] self.view_stages()[k]).replicas)
                        >= self.target_replication,
            decreases self.stages@.len() - i,
        {
            if self.stages[i].live_replicas() < self.target_replication {
                assert(alive_count(self.view_stages()[i as int].replicas)
                    < self.target_replication);
                return false;
            }
            i += 1;
        }
        true
    }

    /// Notes whether a local replica is well; other nodes are not asked. Says
    /// whether one that answered so far is down.
    pub fn health_sweep(&mut self, stage: usize, replica: usize, ok: bool) -> (went_down: bool)
        requires
            stage < old(self).stages@.len(),
            replica < old(self).stages@[stage as int].replicas@.len(),
        ensures
            final(self).same_session(old(self)),
            final(self).same_times(old(self)),
            ({
                let s = old(self).view_stages()[stage as int];
                let r = s.replicas[replica as int];
                &&& final(self).view_stages() == after_check(
                    old(self).view_stages(),
                    stage as int,
                    replica as int,
                    ok,
                )
                &&& went_down == (r is Local && r.is_alive() && !ok)
            }),
    {
        let ghost before = self.view_stages();
        let ghost s = before[stage as int];
        assert(s == self.stages@[stage as int]@);
        assert(s.replicas[replica as int] == self.stages@[stage as int].replicas@[replica as int]@);
        let was: bool = self.stages[stage].replicas[replica].is_alive();
        let local: bool = match &self.stages[stage].replicas[replica] {
            Replica::Local { .. } => true,
            _ => false,
        };
        if !local {
            return false;
        }
        self.stages[stage].replicas[replica].set_alive(ok);
        proof {
            let r = s.replicas[replica as int];
            assert(self.stages@[stage as int]@.replicas =~= s.replicas.update(
                replica as int,
                r.with_alive(ok),
            ));
            assert(self.view_stages() =~= before.update(
                stage as int,
                StageView { replicas: s.replicas.update(replica as int, r.with_alive(ok)), ..s },
            ));
        }
        was && !ok
    }

    /// Whether an endpoint is the name of a replica of one of the stages.
    pub fn endpoint_in_use(&self, ep: &str) -> (r: bool)
        ensures
            r == in_use(self.view_stages(), ep@),
    {
        let mut i: usize = 0;
        while i < self.stages.len()
            invariant
                i <= self.stages@.len(),
                forall|k: int|
                    0 <= k < i ==> !names((#[trigger] self.view_stages()[k]).replicas).contains(
                        ep@,
                    ),
            decreases self.stages@.len() - i,
        {
            assert(self.view_stages()[i as int] == self.stages@[i as int]@);
            if self.stages[i].has_name(ep) {
                return true;
            }
            i += 1;
        }
        false
    }

    /// What to do next to bring a stage up to strength.
    pub fn repair(&self, stage: usize) -> (step: RepairStep)
        requires
            stage < self.stages@.len(),
        ensures
            match next_spare(
                self.view_stages(),
                stage as int,
                self.spare_endpoints@,
                self.target_replication as nat,
            ) {
                Some(k) => step matches RepairStep::Recruit(ep) && ep@
                    == self.spare_endpoints@[k]@,
                None => if alive_count(self.view_stages()[stage as int].replicas)
                    >= self.target_replication {
                    step is Enough
                } else {
                    step is NoSpare
                },
            },
    {
        if self.stages[stage].live_replicas() >= self.target_replication {
            return RepairStep::Enough;
        }
        let mut k: usize = 0;
        while k < self.spare_endpoints.len()
            invariant
                stage < self.stages@.len(),
                alive_count(self.view_stages()[stage as int].replicas) < self.target_replication,
                k <= self.spare_endpoints@.len(),
                free_spare(self.view_stages(), self.spare_endpoints@, 0) == free_spare(
                    self.view_stages(),
                    self.spare_endpoints@,
                    k as int,
                ),
            decreases self.spare_endpoints@.len() - k,
        {
            if !self.endpoint_in_use(self.spare_endpoints[k].as_str()) {
                return RepairStep::Recruit(self.spare_endpoints[k].clone());
            }
            k += 1;
        }
        RepairStep::NoSpare
    }

    /// Takes in a spare that has loaded the slice of a stage.
    pub fn recruit(&mut self, stage: usize, endpoint: String)
        requires
            stage < old(self).stages@.len(),
        ensures
            final(self).same_session(old(self)),
            final(self).same_times(old(self)),
            final(self).view_stages() == crate::repair::with_recruit(
                old(self).view_stages(),
                stage as int,
                endpoint@,
            ),
    {
        let ghost before = self.view_stages();
        let ghost s = before[stage as int];
        let ghost name = endpoint@;
        assert(s == self.stages@[stage as int]@);
        self.stages[stage].replicas.push(Replica::Local { endpoint, alive: true });
        proof {
            let r = ReplicaView::Local { endpoint: name, alive: true };
            assert(self.stages@[stage as int]@.replicas =~= s.replicas.push(r));
            assert(self.view_stages() =~= before.update(
                stage as int,
                StageView { replicas: s.replicas.push(r), ..s },
            ));
        }
    }

    /// The hops of a chain through all the stages, each with the place of its
    /// replica; none where one of the stages has no replica for it.
    pub fn build_route(&self, top_k: u32) -> (r: Option<Vec<(usize, Hop)>>)
        ensures
            match r {
                Some(hops) => chain_of(
                    self.view_stages(),
                    self.view_stages().len() as int,
                    top_k,
                ) == Some(placed_views(hops@)),
                None => chain_of(
                    self.view_stages(),
                    self.view_stages().len() as int,
                    top_k,
                ) is None,
            },
    {
        let mut hops: Vec<(usize, Hop)> = Vec::new();
        let mut i: usize = 0;
        let ghost stages = self.view_stages();
        assert(placed_views(hops@) =~= Seq::<(int, crate::compute::HopView)>::empty());
        while i < self.stages.len()
            invariant
                i <= self.stages@.len(),
                stages == self.view_stages(),
                chain_of(stages, i as int, top_k) == Some(placed_views(hops@)),
            decreases self.stages@.len() - i,
        {
            let stage: &Stage = &self.stages[i];
            assert(stages[i as int] == stage@);
            let mut at: usize = 0;
            while at < stage.replicas.len() && !chainable(&stage.replicas[at])
                invariant
                    at <= stage.replicas@.len(),
                    chain_place(stage@.replicas, 0) == chain_place(stage@.replicas, at as int),
                decreases stage.replicas@.len() - at,
            {
                assert(stage@.replicas[at as int] == stage.replicas@[at as int]@);
                at += 1;
            }
            let k: u32 = if i + 1 == self.stages.len() {
                top_k
            } else {
                0
            };
            if at == stage.replicas.len() {
                proof {
                    no_chain(stages, i as int, stages.len() as int, top_k);
                }
                return None;
            }
            assert(stage@.replicas[at as int] == stage.replicas@[at as int]@);
            match &stage.replicas[at] {
                Replica::Remote { compute_endpoint, host_kx_public, .. } => {
                    let hop = Hop {
                        compute_endpoint: compute_endpoint.clone(),
                        kx_public: text::copy_bytes(host_kx_public.as_slice()),
                        start_layer: stage.start_layer,
                        end_layer: stage.end_layer,
                        top_k: k,
                        accepts_bf16: true,
                    };
                    let ghost before = placed_views(hops@);
                    let ghost item = (at as int, hop@);
                    hops.push((at, hop));
                    assert(placed_views(hops@) =~= before.push(item));
                    assert(item.1 =~= hop_of(stage@, at as int, k));
                },
                _ => {
                    return None;
                },
            }
            i += 1;
        }
        Some(hops)
    }

    /// How to send a request through the whole route by itself: only where there
    /// are at least two stages, and each has a replica that can be part of it.
    pub fn forward_chained(&self, top_k: u32) -> (r: Option<ChainPlan>)
        ensures
            ({
                let stages = self.view_stages();
                let chain = chain_of(stages, stages.len() as int, top_k);
                match r {
                    Some(plan) => stages.len() >= 2 && chain is Some && plans_chain(
                        plan,
                        stages,
                        chain.unwrap(),
                    ),
                    None => stages.len() < 2 || chain is None,
                }
            }),
    {
        if self.stages.len() < 2 {
            return None;
        }
        let route: Vec<(usize, Hop)> = match self.build_route(top_k) {
            Some(r) => r,
            None => {
                return None;
            },
        };
        let ghost stages = self.view_stages();
        let ghost chain = placed_views(route@);
        proof {
            chain_shape(stages, stages.len() as int, top_k, 0);
            chain_shape(stages, stages.len() as int, top_k, 1);
        }
        assert(chain[0] == (route@[0].0 as int, route@[0].1@));
        assert(chain[1] == (route@[1].0 as int, route@[1].1@));
        let mut rest: Vec<Hop> = Vec::new();
        let mut i: usize = 1;
        let ghost want = behind_the_head(chain);
        while i < route.len()
            invariant
                1 <= i <= route@.len(),
                chain == placed_views(route@),
                want == behind_the_head(chain),
                crate::compute::hop_views(rest@) == want.take(i - 1),
            decreases route@.len() - i,
        {
            let ghost before = crate::compute::hop_views(rest@);
            rest.push(route[i].1.clone());
            proof {
                assert(crate::compute::hop_views(rest@) =~= before.push(chain[i as int].1));
                assert(want.take(i as int) =~= want.take(i - 1).push(want[i - 1]));
            }
            i += 1;
        }
        assert(want.take(i - 1) =~= want);
        let head: &Hop = &route[0].1;
        match array_of_32(head.kx_public.as_slice()) {
            Some(host_kx_public) => Some(
                ChainPlan {
                    head: route[0].0,
                    endpoint: head.compute_endpoint.clone(),
                    host_kx_public,
                    start_layer: head.start_layer,
                    end_layer: head.end_layer,
                    top_k: head.top_k,
                    rest,
                    accepts_bf16: route[1].1.accepts_bf16,
                },
            ),
            None => None,
        }
    }

    /// Notes that a node at an endpoint does not answer any more.
    pub fn mark_dead_by_endpoint(&mut self, endpoint: &str)
        ensures
            final(self).same_session(old(self)),
            final(self).same_times(old(self)),
            final(self).view_stages() == stages_without(old(self).view_stages(), endpoint@),
    {
        let ghost before = self.view_stages();
        let ghost want = stages_without(before, endpoint@);
        let mut i: usize = 0;
        while i < self.stages.len()
            invariant
                i <= self.stages@.len(),
                self.same_session(old(self)),
                self.same_times(old(self)),
                before == old(self).view_stages(),
                want == stages_without(before, endpoint@),
                self.stages@.len() == before.len(),
                forall|k: int| 0 <= k < i ==> #[trigger] self.view_stages()[k] == want[k],
                forall|k: int| i <= k < before.len() ==> #[trigger] self.view_stages()[k]
                    == before[k],
            decreases self.stages@.len() - i,
        {
            let ghost now = self.view_stages();
            assert(now[i as int] == self.stages@[i as int]@);
            mark_stage(&mut self.stages[i], endpoint);
            assert(self.view_stages() =~= now.update(i as int, want[i as int]));
            i += 1;
        }
        assert(self.view_stages() =~= want);
    }

    /// Notes what came of a request through the whole route. A failure breaks
    /// the route: at the hop that the failure names, or else at the first one.
    pub fn finish_chained(
        &mut self,
        head: usize,
        head_endpoint: &str,
        outcome: ChainOutcome,
    ) -> (r: Option<ForwardError>)
        requires
            old(self).stages@.len() > 0,
            head < old(self).stages@[0].replicas@.len(),
        ensures
            final(self).same_session(old(self)),
            chain_ended(*old(self), head as int, head_endpoint@, outcome, *final(self), r),
    {
        match outcome {
            ChainOutcome::Answered { compute_ms, peer_version, elapsed_ms } => {
                let ghost before = self.view_stages();
                let ghost s = before[0];
                assert(s == self.stages@[0]@);
                self.stages[0].replicas[head].learn_protocol_version(peer_version);
                proof {
                    assert(s.replicas[head as int] == old(self).stages@[0].replicas@[head as int]@);
                    assert(self.stages@[0]@.replicas =~= s.replicas.update(
                        head as int,
                        s.replicas[head as int].with_version(peer_version),
                    ));
                    assert(self.view_stages() =~= before.update(
                        0,
                        StageView {
                            replicas: s.replicas.update(
                                head as int,
                                s.replicas[head as int].with_version(peer_version),
                            ),
                            ..s
                        },
                    ));
                }
                self.last_forward_compute_ms = compute_ms;
                self.last_forward_network_ms = if elapsed_ms >= compute_ms {
                    elapsed_ms - compute_ms
                } else {
                    0
                };
                None
            },
            ChainOutcome::Failed { context, cause } => {
                let endpoint: String = match stalled_endpoint(cause.as_str()) {
                    Some(e) => e,
                    None => head_endpoint.to_string(),
                };
                self.mark_dead_by_endpoint(endpoint.as_str());
                Some(ForwardError::Broken { route: RouteBroken { endpoint }, context })
            },
        }
    }

    /// For each stage, whether the one that takes its output can parse the
    /// current wire format. The last stage answers the client, which takes what
    /// every version understands.
    pub fn consumer_formats(&self) -> (r: Vec<bool>)
        ensures
            r@.len() == self.stages@.len(),
            forall|i: int|
                0 <= i < r@.len() ==> #[trigger] r@[i] == (i + 1 < self.view_stages().len()
                    && stage_accepts(self.view_stages()[i + 1])),
    {
        let mut r: Vec<bool> = Vec::new();
        let mut i: usize = 0;
        while i < self.stages.len()
            invariant
                i <= self.stages@.len(),
                r@.len() == i,
                forall|k: int|
                    0 <= k < i ==> #[trigger] r@[k] == (k + 1 < self.view_stages().len()
                        && stage_accepts(self.view_stages()[k + 1])),
            decreases self.stages@.len() - i,
        {
            if i + 1 < self.stages.len() {
                assert(self.view_stages()[i + 1] == self.stages@[i + 1]@);
                r.push(self.stages[i + 1].accepts_bf16());
            } else {
                r.push(false);
            }
            i += 1;
        }
        r
    }

    /// What each stage is asked for when the client goes through them one by
    /// one: only the last for the best candidates, and each for what the next
    /// can parse.
    pub fn staged(&self, top_k: u32) -> (r: Vec<StageTask>)
        ensures
            r@.len() == self.stages@.len(),
            forall|i: int|
                0 <= i < r@.len() ==> #[trigger] r@[i] == stage_task(
                    self.view_stages(),
                    i,
                    top_k,
                ),
    {
        let formats: Vec<bool> = self.consumer_formats();
        let mut r: Vec<StageTask> = Vec::new();
        let mut i: usize = 0;
        while i < self.stages.len()
            invariant
                i <= self.stages@.len(),
                r@.len() == i,
                formats@.len() == self.stages@.len(),
                forall|k: int|
                    0 <= k < formats@.len() ==> #[trigger] formats@[k] == (k + 1
                        < self.view_stages().len() && stage_accepts(self.view_stages()[k + 1])),
                forall|k: int|
                    0 <= k < i ==> #[trigger] r@[k] == stage_task(self.view_stages(), k, top_k),
            decreases self.stages@.len() - i,
        {
            let k: u32 = if i + 1 == self.stages.len() {
                top_k
            } else {
                0
            };
            r.push(StageTask { top_k: k, accepts_bf16: formats[i] });
            i += 1;
        }
        r
    }

    /// How to bring activations through the route: by themselves from node to
    /// node where that is allowed, the session has a cache and every stage can
    /// take part; else stage by stage.
    pub fn forward_tensor(&self, use_cache: bool, top_k: u32) -> (plan: ForwardPlan)
        ensures
            ({
                let stages = self.view_stages();
                let chain = chain_of(stages, stages.len() as int, top_k);
                let chained = goes_chained(stages, self.chain_enabled, use_cache, top_k);
                match plan {
                    ForwardPlan::Chained(p) => chained && plans_chain(p, stages, chain.unwrap()),
                    ForwardPlan::Staged(tasks) => !chained && tasks@.len() == stages.len()
                        && forall|i: int|
                        0 <= i < tasks@.len() ==> #[trigger] tasks@[i] == stage_task(
                            stages,
                            i,
                            top_k,
                        ),
                }
            }),
    {
        if self.chain_enabled && use_cache {
            if let Some(p) = self.forward_chained(top_k) {
                return ForwardPlan::Chained(p);
            }
        }
        ForwardPlan::Staged(self.staged(top_k))
    }

    /// Whether the times of the stages can be added up.
    pub fn times_fit(&self) -> (r: bool)
        ensures
            r == (compute_sum(self.view_stages()) <= u64::MAX && network_sum(self.view_stages())
                <= u64::MAX),
    {
        let ghost stages = self.view_stages();
        let mut compute: u64 = 0;
        let mut network: u64 = 0;
        let mut i: usize = 0;
        assert(stages.take(0).len() == 0);
        while i < self.stages.len()
            invariant
                i <= self.stages@.len(),
                stages == self.view_stages(),
                compute == compute_sum(stages.take(i as int)),
                network == network_sum(stages.take(i as int)),
            decreases self.stages@.len() - i,
        {
            proof {
                assert(stages.take(i + 1).drop_last() =~= stages.take(i as int));
                assert(stages[i as int] == self.stages@[i as int]@);
                sums_grow(stages, i + 1);
            }
            if self.stages[i].last_compute_ms > u64::MAX - compute || self.stages[i].last_network_ms
                > u64::MAX - network {
                return false;
            }
            compute += self.stages[i].last_compute_ms;
            network += self.stages[i].last_network_ms;
            i += 1;
        }
        assert(stages.take(i as int) =~= stages);
        true
    }

    /// Adds up the times of the stages after a pass through all of them.
    pub fn add_up_times(&mut self)
        requires
            compute_sum(old(self).view_stages()) <= u64::MAX,
            network_sum(old(self).view_stages()) <= u64::MAX,
        ensures
            final(self).same_session(old(self)),
            final(self).view_stages() == old(self).view_stages(),
            final(self).last_forward_compute_ms == compute_sum(old(self).view_stages()),
            final(self).last_forward_network_ms == network_sum(old(self).view_stages()),
    {
        let ghost stages = self.view_stages();
        let mut compute: u64 = 0;
        let mut network: u64 = 0;
        let mut i: usize = 0;
        while i < self.stages.len()
            invariant
                i <= self.stages@.len(),
                stages == self.view_stages(),
                compute_sum(stages) <= u64::MAX,
                network_sum(stages) <= u64::MAX,
                compute == compute_sum(stages.take(i as int)),
                network == network_sum(stages.take(i as int)),
            decreases self.stages@.len() - i,
        {
            proof {
                assert(stages.take(i + 1).drop_last() =~= stages.take(i as int));
                assert(stages[i as int] == self.stages@[i as int]@);
                sums_grow(stages, i + 1);
            }
            compute += self.stages[i].last_compute_ms;
            network += self.stages[i].last_network_ms;
            i += 1;
        }
        assert(stages.take(i as int) =~= stages);
        self.last_forward_compute_ms = compute;
        self.last_forward_network_ms = network;
    }

    /// The local replicas that answer, in order: those that can be asked to
    /// encode or decode a text.
    pub fn local_replicas(&self) -> (r: Vec<(usize, usize)>)
        ensures
            forall|i: int, j: int|
                0 <= i < j < r@.len() ==> place_before(#[trigger] r@[i], #[trigger] r@[j]),
            forall|i: int|
                0 <= i < r@.len() ==> is_local_alive(
                    self.view_stages(),
                    ((#[trigger] r@[i]).0 as int, r@[i].1 as int),
                ),
            forall|s: int, k: int|
                is_local_alive(self.view_stages(), (s, k)) ==> exists|i: int|
                    0 <= i < r@.len() && (#[trigger] r@[i]).0 == s && r@[i].1 == k,
    {
        let mut r: Vec<(usize, usize)> = Vec::new();
        let ghost stages = self.view_stages();
        let mut s: usize = 0;
        while s < self.stages.len()
            invariant
                s <= self.stages@.len(),
                stages == self.view_stages(),
                forall|i: int, j: int|
                    0 <= i < j < r@.len() ==> place_before(#[trigger] r@[i], #[trigger] r@[j]),
                forall|i: int|
                    0 <= i < r@.len() ==> (#[trigger] r@[i]).0 < s && is_local_alive(
                        stages,
                        (r@[i].0 as int, r@[i].1 as int),
                    ),
                forall|a: int, b: int|
                    a < s && is_local_alive(stages, (a, b)) ==> exists|i: int|
                        0 <= i < r@.len() && (#[trigger] r@[i]).0 == a && r@[i].1 == b,
            decreases self.stages@.len() - s,
        {
            let stage: &Stage = &self.stages[s];
            assert(stages[s as int] == stage@);
            let mut k: usize = 0;
            while k < stage.replicas.len()
                invariant
                    s < self.stages@.len(),
                    stage == &self.stages@[s as int],
                    stages == self.view_stages(),
                    stages[s as int] == stage@,
                    k <= stage.replicas@.len(),
                    forall|i: int, j: int|
                        0 <= i < j < r@.len() ==> place_before(#[trigger] r@[i], #[trigger] r@[j]),
                    forall|i: int|
                        0 <= i < r@.len() ==> ((#[trigger] r@[i]).0 < s || (r@[i].0 == s && r@[i].1
                            < k)) && is_local_alive(stages, (r@[i].0 as int, r@[i].1 as int)),
                    forall|a: int, b: int|
                        (a < s || (a == s && b < k)) && is_local_alive(stages, (a, b)) ==> exists|
                            i: int,
                        |
                            0 <= i < r@.len() && (#[trigger] r@[i]).0 == a && r@[i].1 == b,
                decreases stage.replicas@.len() - k,
            {
                assert(stage@.replicas[k as int] == stage.replicas@[k as int]@);
                let ghost before = r@;
                let take: bool = match &stage.replicas[k] {
                    Replica::Local { alive, .. } => *alive,
                    _ => false,
                };
                if take {
                    r.push((s, k));
                }
                proof {
                    assert forall|a: int, b: int|
                        (a < s || (a == s && b < k + 1)) && is_local_alive(
                            stages,
                            (a, b),
                        ) implies exists|i: int|
                        0 <= i < r@.len() && (#[trigger] r@[i]).0 == a && r@[i].1 == b by {
                        if a == s && b == k {
                            assert(r@[before.len() as int].0 == a);
                        } else {
                            let i = choose|i: int|
                                0 <= i < before.len() && (#[trigger] before[i]).0 == a
                                    && before[i].1 == b;
                            assert(r@[i] == before[i]);
                        }
                    }
                }
                k += 1;
            }
            s += 1;
        }
        r
    }

    /// The replicas that are told to forget a session, in order.
    pub fn session_holders(&self) -> (r: Vec<(usize, usize)>)
        ensures
            forall|i: int, j: int|
                0 <= i < j < r@.len() ==> place_before(#[trigger] r@[i], #[trigger] r@[j]),
            forall|i: int|
                0 <= i < r@.len() ==> is_told(
                    self.view_stages(),
                    ((#[trigger] r@[i]).0 as int, r@[i].1 as int),
                ),
            forall|s: int, k: int|
                is_told(self.view_stages(), (s, k)) ==> exists|i: int|
                    0 <= i < r@.len() && (#[trigger] r@[i]).0 == s && r@[i].1 == k,
    {
        let mut r: Vec<(usize, usize)> = Vec::new();
        let ghost stages = self.view_stages();
        let mut s: usize = 0;
        while s < self.stages.len()
            invariant
                s <= self.stages@.len(),
                stages == self.view_stages(),
                forall|i: int, j: int|
                    0 <= i < j < r@.len() ==> place_before(#[trigger] r@[i], #[trigger] r@[j]),
                forall|i: int|
                    0 <= i < r@.len() ==> (#[trigger] r@[i]).0 < s && is_told(
                        stages,
                        (r@[i].0 as int, r@[i].1 as int),
                    ),
                forall|a: int, b: int|
                    a < s && is_told(stages, (a, b)) ==> exists|i: int|
                        0 <= i < r@.len() && (#[trigger] r@[i]).0 == a && r@[i].1 == b,
            decreases self.stages@.len() - s,
        {
            let stage: &Stage = &self.stages[s];
            assert(stages[s as int] == stage@);
            let mut k: usize = 0;
            while k < stage.replicas.len()
                invariant
                    s < self.stages@.len(),
                    stage == &self.stages@[s as int],
                    stages == self.view_stages(),
                    stages[s as int] == stage@,
                    k <= stage.replicas@.len(),
                    forall|i: int, j: int|
                        0 <= i < j < r@.len() ==> place_before(#[trigger] r@[i], #[trigger] r@[j]),
                    forall|i: int|
                        0 <= i < r@.len() ==> ((#[trigger] r@[i]).0 < s || (r@[i].0 == s && r@[i].1
                            < k)) && is_told(stages, (r@[i].0 as int, r@[i].1 as int)),
                    forall|a: int, b: int|
                        (a < s || (a == s && b < k)) && is_told(stages, (a, b)) ==> exists|
                            i: int,
                        |
                            0 <= i < r@.len() && (#[trigger] r@[i]).0 == a && r@[i].1 == b,
                decreases stage.replicas@.len() - k,
            {
                assert(stage@.replicas[k as int] == stage.replicas@[k as int]@);
                let ghost before = r@;
                let take: bool = match &stage.replicas[k] {
                    Replica::Relayed { .. } => false,
                    _ => true,
                };
                if take {
                    r.push((s, k));
                }
                proof {
                    assert forall|a: int, b: int|
                        (a < s || (a == s && b < k + 1)) && is_told(
                            stages,
                            (a, b),
                        ) implies exists|i: int|
                        0 <= i < r@.len() && (#[trigger] r@[i]).0 == a && r@[i].1 == b by {
                        if a == s && b == k {
                            assert(r@[before.len() as int].0 == a);
                        } else {
                            let i = choose|i: int|
                                0 <= i < before.len() && (#[trigger] before[i]).0 == a
                                    && before[i].1 == b;
                            assert(r@[i] == before[i]);
                        }
                    }
                }
                k += 1;
            }
            s += 1;
        }
        r
    }
}

/// A request through the whole route came to an end. Where it was answered, the version that
/// the first hop speaks and the times are noted. A failure breaks the route: at the hop that
/// the failure names, or else at the first one.
pub open spec fn chain_ended(
    before: Orchestrator,
    head: int,
    head_endpoint: Seq<char>,
    outcome: ChainOutcome,
    after: Orchestrator,
    r: Option<ForwardError>,
) -> bool {
    match outcome {
        ChainOutcome::Answered { compute_ms, peer_version, elapsed_ms } => {
            let s = before.view_stages()[0];
            &&& r is None
            &&& after.last_forward_compute_ms == compute_ms
            &&& after.last_forward_network_ms == network_part(elapsed_ms, compute_ms)
            &&& after.view_stages() == before.view_stages().update(
                0,
                StageView {
                    replicas: s.replicas.update(
                        head,
                        s.replicas[head].with_version(peer_version),
                    ),
                    ..s
                },
            )
        },
        ChainOutcome::Failed { context: said, cause } => {
            &&& after.same_times(&before)
            &&& r matches Some(ForwardError::Broken { route, context }) && context@ == said@
                && after.view_stages() == stages_without(before.view_stages(), route.endpoint@) && (
            crate::compute::names_stalled(cause@, route.endpoint@) || (route.endpoint@
                == head_endpoint && forall|e: Seq<char>|
                !crate::compute::names_stalled(cause@, e)))
        },
    }
}

/// Whether a replica can be part of a chain.
fn chainable(r: &Replica) -> (b: bool)
    ensures
        b == (r@.is_alive() && r@ is Remote && r@.is_current()),
{
    match r {
        Replica::Remote { alive, .. } => *alive && r.speaks_current_wire(),
        _ => false,
    }
}

fn mark_stage(stage: &mut Stage, endpoint: &str)
    ensures
        final(stage)@ == stage_without(old(stage)@, endpoint@),
{
    let ghost before = stage@.replicas;
    let ghost want = without_endpoint(before, endpoint@);
    let mut i: usize = 0;
    while i < stage.replicas.len()
        invariant
            i <= stage.replicas@.len(),
            stage.start_layer == old(stage).start_layer,
            stage.end_layer == old(stage).end_layer,
            stage.last_compute_ms == old(stage).last_compute_ms,
            stage.last_network_ms == old(stage).last_network_ms,
            before == old(stage)@.replicas,
            want == without_endpoint(before, endpoint@),
            stage.replicas@.len() == before.len(),
            forall|k: int| 0 <= k < i ==> #[trigger] replica_views(stage.replicas@)[k] == want[k],
            forall|k: int|
                i <= k < before.len() ==> #[trigger] replica_views(stage.replicas@)[k] == before[k],
        decreases stage.replicas@.len() - i,
    {
        let ghost now = replica_views(stage.replicas@);
        assert(now[i as int] == stage.replicas@[i as int]@);
        let hit: bool = match &stage.replicas[i] {
            Replica::Remote { compute_endpoint, .. } => text::str_eq(
                compute_endpoint.as_str(),
                endpoint,
            ),
            _ => false,
        };
        if hit {
            stage.replicas[i].set_dead();
        }
        assert(replica_views(stage.replicas@) =~= now.update(i as int, want[i as int]));
        i += 1;
    }
    assert(stage@.replicas =~= want);
}

proof fn no_chain(stages: Seq<StageView>, i: int, n: int, top_k: u32)
    requires
        0 <= i < n <= stages.len(),
        chain_place(stages[i].replicas, 0) is None,
    ensures
        chain_of(stages, n, top_k) is None,
    decreases n,
{
    if i < n - 1 {
        no_chain(stages, i, n - 1, top_k);
    }
}

/// A chain through the first `n` stages has a hop for each of them.
proof fn chain_shape(stages: Seq<StageView>, n: int, top_k: u32, i: int)
    requires
        0 <= i < n <= stages.len(),
        chain_of(stages, n, top_k) is Some,
    ensures
        chain_of(stages, n, top_k).unwrap().len() == n,
        ({
            let (at, hop) = chain_of(stages, n, top_k).unwrap()[i];
            &&& chain_place(stages[i].replicas, 0) == Some(at)
            &&& 0 <= at < stages[i].replicas.len()
            &&& stages[i].replicas[at] is Remote
            &&& hop == hop_of(
                stages[i],
                at,
                if i + 1 == stages.len() {
                    top_k
                } else {
                    0
                },
            )
        }),
    decreases n,
{
    the_chain_place_is_one(stages[i].replicas, 0);
    if n > 1 {
        if i < n - 1 {
            chain_shape(stages, n - 1, top_k, i);
        } else {
            chain_shape(stages, n - 1, top_k, 0);
        }
    } else {
        assert(chain_of(stages, 0, top_k) == Some(
            Seq::<(int, crate::compute::HopView)>::empty(),
        ));
    }
}

proof fn the_chain_place_is_one(rs: Seq<ReplicaView>, k: int)
    requires
        0 <= k,
    ensures
        chain_place(rs, k) matches Some(at) ==> k <= at < rs.len() && rs[at].is_alive()
            && rs[at] is Remote && rs[at].is_current() && forall|j: int|
            k <= j < at ==> !((#[trigger] rs[j]) is Remote && rs[j].is_alive()
                && rs[j].is_current()),
    decreases rs.len() - k,
{
    if k < rs.len() {
        the_chain_place_is_one(rs, k + 1);
    }
}

// ---------------------------------------------------------------------------
// From the known peers to a route
// ---------------------------------------------------------------------------

/// The port at the end of an endpoint, and where the colon before it stands.
pub open spec fn port_of(endpoint: Seq<char>) -> Option<(int, nat)> {
    match text::last_place(endpoint, ':') {
        Some(i) => match text::read_number(endpoint.skip(i + 1), 65535) {
            Some(port) => Some((i, port)),
            None => None,
        },
        None => None,
    }
}

/// Where a node that listens at an endpoint is asked to compute: a thousand
/// ports higher. An endpoint without a port is taken as it is.
pub open spec fn compute_endpoint_of(endpoint: Seq<char>) -> Seq<char> {
    match port_of(endpoint) {
        Some((i, port)) => endpoint.take(i) + ":"@ + text::dec(port + 1000),
        None => endpoint,
    }
}

/// Whether the port a thousand higher is one.
pub open spec fn port_fits(endpoint: Seq<char>) -> bool {
    port_of(endpoint) matches Some((_, port)) ==> port + 1000 <= 65535
}

fn find_port(daemon_endpoint: &str) -> (r: Option<(usize, u16)>)
    ensures
        match r {
            Some((i, port)) => port_of(daemon_endpoint@) == Some((i as int, port as nat)) && i
                < daemon_endpoint@.len(),
            None => port_of(daemon_endpoint@) is None,
        },
{
    let cs: Vec<char> = text::chars_of(daemon_endpoint);
    match text::last_index(&cs, ':') {
        Some(i) => {
            let tail: String = text::slice_of(&cs, i + 1, cs.len());
            assert(tail@ =~= daemon_endpoint@.skip(i + 1));
            match text::parse_number(tail.as_str(), 65535) {
                Some(port) => Some((i, port as u16)),
                None => None,
            }
        },
        None => None,
    }
}

/// Where a node that listens at an endpoint is asked to compute.
pub fn daemon_to_compute_endpoint(daemon_endpoint: &str) -> (r: String)
    requires
        port_fits(daemon_endpoint@),
    ensures
        r@ == compute_endpoint_of(daemon_endpoint@),
{
    match find_port(daemon_endpoint) {
        Some((i, port)) => {
            let cs: Vec<char> = text::chars_of(daemon_endpoint);
            let mut r: String = text::slice_of(&cs, 0, i);
            assert(r@ =~= daemon_endpoint@.take(i as int));
            r.append(":");
            r.append(text::decimal(port as u64 + 1000).as_str());
            r
        },
        None => daemon_endpoint.to_string(),
    }
}

/// The replica that a peer is, where it can be asked: directly where it can be
/// reached, else through the relay, where there is one. A peer whose key is not
/// one is passed over.
pub open spec fn replica_of(
    p: crate::registry::PeerView,
    relay: Option<Seq<char>>,
) -> Option<ReplicaView> {
    if p.kx_public.len() != 32 {
        None
    } else if p.reachable {
        Some(
            ReplicaView::Remote {
                compute_endpoint: compute_endpoint_of(p.daemon_endpoint),
                host_kx_public: p.kx_public,
                label: p.daemon_endpoint,
                alive: true,
                protocol_version: 0,
            },
        )
    } else {
        match relay {
            Some(relay) => Some(
                ReplicaView::Relayed {
                    relay_endpoint: relay,
                    target_node_id: p.node_id,
                    host_kx_public: p.kx_public,
                    label: p.daemon_endpoint + " (relayed)"@,
                    alive: true,
                    protocol_version: 0,
                },
            ),
            None => None,
        }
    }
}

/// The replicas that peers are, in order.
pub open spec fn replicas_of(
    ps: Seq<crate::registry::PeerView>,
    relay: Option<Seq<char>>,
) -> Seq<ReplicaView>
    decreases ps.len(),
{
    if ps.len() == 0 {
        Seq::empty()
    } else {
        match replica_of(ps.last(), relay) {
            Some(r) => replicas_of(ps.drop_last(), relay).push(r),
            None => replicas_of(ps.drop_last(), relay),
        }
    }
}

/// What an optional text holds.
pub open spec fn text_option(s: Option<String>) -> Option<Seq<char>> {
    match s {
        Some(s) => Some(s@),
        None => None,
    }
}

/// The stage for a slice of a model: the replicas that its holders are.
pub open spec fn stage_for(
    ps: Seq<crate::registry::PeerView>,
    model_id: Seq<char>,
    s: SliceCoverage,
    relay: Option<Seq<char>>,
) -> StageView {
    StageView {
        start_layer: s.start_layer,
        end_layer: s.end_layer,
        replicas: replicas_of(
            ps.filter(crate::registry::holds_slice(model_id, s.start_layer, s.end_layer)),
            relay,
        ),
        last_compute_ms: 0,
        last_network_ms: 0,
    }
}

/// Why there is no route through a model.
#[derive(Debug)]
pub enum RouteError {
    /// No known peer holds any of it.
    NoPeers,
    /// Layers that nobody holds, and how many layers there are.
    Incomplete { missing: Vec<(u32, u32)>, total: u32 },
    /// A slice none of whose holders can be asked.
    Unreachable { start: u32, end: u32 },
}

/// Ranges of layers as they are written, with `sep` between each two.
pub open spec fn ranges_text(v: Seq<(u32, u32)>, sep: Seq<char>) -> Seq<char> {
    text::joined(
        Seq::new(v.len(), |i: int| crate::capacity::range_text(v[i].0 as int, v[i].1 as int)),
        sep,
    )
}

/// Writes ranges of layers, with `sep` between each two.
pub fn write_ranges(v: &Vec<(u32, u32)>, sep: &str) -> (s: String)
    ensures
        s@ == ranges_text(v@, sep@),
{
    let mut parts: Vec<String> = Vec::new();
    let mut i: usize = 0;
    let ghost want = Seq::new(
        v@.len(),
        |i: int| crate::capacity::range_text(v@[i].0 as int, v@[i].1 as int),
    );
    while i < v.len()
        invariant
            i <= v@.len(),
            want.len() == v@.len(),
            forall|k: int|
                0 <= k < v@.len() ==> #[trigger] want[k] == crate::capacity::range_text(
                    v@[k].0 as int,
                    v@[k].1 as int,
                ),
            text::views(parts@) == want.take(i as int),
        decreases v@.len() - i,
    {
        let ghost before = text::views(parts@);
        parts.push(write_range(v[i].0, v[i].1));
        proof {
            assert(text::views(parts@) =~= before.push(want[i as int]));
            assert(want.take(i + 1) =~= want.take(i as int).push(want[i as int]));
        }
        i += 1;
    }
    assert(want.take(i as int) =~= want);
    text::join(&parts, sep)
}

impl RouteError {
    /// Why there is no route, in words.
    pub open spec fn text(&self, model_id: Seq<char>) -> Seq<char> {
        match *self {
            RouteError::NoPeers => "no peers in registry serve model "@ + model_id,
            RouteError::Incomplete { missing, total } => "model "@ + model_id
                + " is incomplete: no peer serves layers "@ + ranges_text(missing@, ", "@)
                + " (of "@ + text::dec(total as nat) + " total)"@,
            RouteError::Unreachable { start, end } => "no reachable replica for slice "@
                + crate::capacity::range_text(start as int, end as int),
        }
    }

    /// Why there is no route, in words.
    pub fn message(&self, model_id: &str) -> (s: String)
        ensures
            s@ == self.text(model_id@),
    {
        match self {
            RouteError::NoPeers => {
                let mut s: String = "no peers in registry serve model ".to_string();
                s.append(model_id);
                s
            },
            RouteError::Incomplete { missing, total } => {
                let mut s: String = "model ".to_string();
                s.append(model_id);
                s.append(" is incomplete: no peer serves layers ");
                s.append(write_ranges(missing, ", ").as_str());
                s.append(" (of ");
                s.append(text::decimal(*total as u64).as_str());
                s.append(" total)");
                s
            },
            RouteError::Unreachable { start, end } => {
                let mut s: String = "no reachable replica for slice ".to_string();
                s.append(write_range(*start, *end).as_str());
                s
            },
        }
    }
}

fn replica_for(peer: &Peer, relay: &Option<String>) -> (r: Option<Replica>)
    requires
        peer.reachable && peer.kx_public@.len() == 32 ==> port_fits(peer.daemon_endpoint@),
    ensures
        match r {
            Some(r) => replica_of(peer@, text_option(*relay)) == Some(r@),
            None => replica_of(peer@, text_option(*relay)) is None,
        },
{
    let kx = match array_of_32(peer.kx_public.as_slice()) {
        Some(k) => k,
        None => {
            return None;
        },
    };
    if peer.reachable {
        return Some(
            Replica::Remote {
                compute_endpoint: daemon_to_compute_endpoint(peer.daemon_endpoint.as_str()),
                host_kx_public: kx,
                label: peer.daemon_endpoint.clone(),
                alive: true,
                protocol_version: 0,
            },
        );
    }
    match relay {
        Some(relay) => {
            let mut label: String = peer.daemon_endpoint.clone();
            label.append(" (relayed)");
            Some(
                Replica::Relayed {
                    relay_endpoint: relay.clone(),
                    target_node_id: text::copy_bytes(&peer.node_id),
                    host_kx_public: kx,
                    label,
                    alive: true,
                    protocol_version: 0,
                },
            )
        },
        None => None,
    }
}

fn build_replicas(peers: &Vec<Peer>, relay: &Option<String>) -> (r: Vec<Replica>)
    requires
        forall|i: int|
            0 <= i < peers@.len() && (#[trigger] peers@[i]).reachable
                && peers@[i].kx_public@.len() == 32 ==> port_fits(peers@[i].daemon_endpoint@),
    ensures
        replica_views(r@) == replicas_of(
            crate::registry::peer_views(peers@),
            text_option(*relay),
        ),
{
    let mut r: Vec<Replica> = Vec::new();
    let ghost ps = crate::registry::peer_views(peers@);
    let mut i: usize = 0;
    assert(replica_views(r@) =~= replicas_of(ps.take(0), text_option(*relay)));
    while i < peers.len()
        invariant
            i <= peers@.len(),
            ps == crate::registry::peer_views(peers@),
            forall|i: int|
                0 <= i < peers@.len() && (#[trigger] peers@[i]).reachable
                    && peers@[i].kx_public@.len() == 32 ==> port_fits(peers@[i].daemon_endpoint@),
            replica_views(r@) == replicas_of(ps.take(i as int), text_option(*relay)),
        decreases peers@.len() - i,
    {
        let ghost before = replica_views(r@);
        proof {
            assert(ps.take(i + 1).drop_last() =~= ps.take(i as int));
            assert(ps.take(i + 1).last() == peers@[i as int]@);
        }
        if let Some(one) = replica_for(&peers[i], relay) {
            let ghost item = one@;
            r.push(one);
            assert(replica_views(r@) =~= before.push(item));
        }
        i += 1;
    }
    assert(ps.take(i as int) =~= ps);
    r
}

/// The stages are those for the slices of a model, and each has a replica.
pub open spec fn routes(
    stages: Seq<StageView>,
    ps: Seq<crate::registry::PeerView>,
    model_id: Seq<char>,
    slices: Seq<SliceCoverage>,
    relay: Option<Seq<char>>,
) -> bool {
    &&& stages.len() == slices.len()
    &&& forall|i: int|
        0 <= i < slices.len() ==> #[trigger] stages[i] == stage_for(ps, model_id, slices[i], relay)
            && stages[i].replicas.len() > 0
}

/// The slice at `i` is the first none of whose holders can be asked.
pub open spec fn first_unreachable(
    ps: Seq<crate::registry::PeerView>,
    model_id: Seq<char>,
    slices: Seq<SliceCoverage>,
    relay: Option<Seq<char>>,
    i: int,
) -> bool {
    &&& 0 <= i < slices.len()
    &&& stage_for(ps, model_id, slices[i], relay).replicas.len() == 0
    &&& forall|k: int|
        0 <= k < i ==> stage_for(ps, model_id, #[trigger] slices[k], relay).replicas.len() > 0
}

/// The result of looking for a route through a model over the known peers: the
/// stages for its slices; or else that no peer holds it, that layers are
/// missing and which, or which slice has no holder that can be asked.
pub open spec fn is_route(
    r: Result<Orchestrator, RouteError>,
    ps: Seq<crate::registry::PeerView>,
    model_id: Seq<char>,
    target_replication: usize,
    spare_endpoints: Vec<String>,
    relay: Option<Seq<char>>,
) -> bool {
    let total = crate::capacity::depth(ps, model_id) as int;
    match r {
        Ok(o) => {
            &&& exists|slices: Seq<SliceCoverage>|
                {
                    &&& #[trigger] crate::capacity::tallies(ps, model_id, slices)
                    &&& slices.len() > 0
                    &&& crate::capacity::gaps(slices, total).len() == 0
                    &&& routes(o.view_stages(), ps, model_id, slices, relay)
                }
            &&& o.model_id@ == model_id
            &&& o.spare_endpoints == spare_endpoints
            &&& o.target_replication == target_replication
            &&& o.last_forward_compute_ms == 0
            &&& o.last_forward_network_ms == 0
            &&& o.chain_enabled
            &&& o.session_prefill is None
        },
        Err(RouteError::NoPeers) => forall|i: int|
            0 <= i < ps.len() ==> (#[trigger] ps[i]).model_id != model_id,
        Err(RouteError::Incomplete { missing, total: t }) => t == total && missing@.len() > 0
            && exists|slices: Seq<SliceCoverage>| #[trigger]
            crate::capacity::tallies(ps, model_id, slices) && slices.len() > 0
                && crate::capacity::ranges(missing@) == crate::capacity::gaps(slices, total),
        Err(RouteError::Unreachable { start, end }) => exists|
            slices: Seq<SliceCoverage>,
            i: int,
        |
            {
                &&& #[trigger] crate::capacity::tallies(ps, model_id, slices)
                &&& crate::capacity::gaps(slices, total).len() == 0
                &&& #[trigger] first_unreachable(ps, model_id, slices, relay, i)
                &&& slices[i].start_layer == start
                &&& slices[i].end_layer == end
            },
    }
}

/// The port to ask is one for every peer that holds a slice and is asked directly.
pub open spec fn ports_fit(
    ps: Seq<crate::registry::PeerView>,
    model_id: Seq<char>,
    s: SliceCoverage,
) -> bool {
    let fs = ps.filter(crate::registry::holds_slice(model_id, s.start_layer, s.end_layer));
    forall|j: int|
        0 <= j < fs.len() && (#[trigger] fs[j]).reachable && fs[j].kx_public.len() == 32
            ==> port_fits(fs[j].daemon_endpoint)
}

/// The holders of the slice at `i` are looked at: each slice before it has one that can
/// be asked.
pub open spec fn is_looked_at(
    ps: Seq<crate::registry::PeerView>,
    model_id: Seq<char>,
    slices: Seq<SliceCoverage>,
    relay: Option<Seq<char>>,
    i: int,
) -> bool {
    &&& 0 <= i < slices.len()
    &&& forall|k: int|
        0 <= k < i ==> stage_for(ps, model_id, #[trigger] slices[k], relay).replicas.len() > 0
}

/// Where no layer of a model is missing, the port to ask is one for every peer that is
/// asked directly, up to the first slice none of whose holders can be asked.
pub open spec fn can_look_for_route(
    ps: Seq<crate::registry::PeerView>,
    model_id: Seq<char>,
    relay: Option<Seq<char>>,
) -> bool {
    forall|slices: Seq<SliceCoverage>, i: int|
        #[trigger] crate::capacity::tallies(ps, model_id, slices) && crate::capacity::gaps(
            slices,
            crate::capacity::depth(ps, model_id) as int,
        ).len() == 0 && #[trigger] is_looked_at(ps, model_id, slices, relay, i) ==> ports_fit(
            ps,
            model_id,
            slices[i],
        )
}

/// Whether the port to ask is one for every peer that is asked directly, and whether
/// one of the peers can be asked at all.
fn look_at(peers: &Vec<Peer>, relay: &Option<String>) -> (r: (bool, bool))
    ensures
        r.0 == forall|j: int|
            0 <= j < peers@.len() && (#[trigger] peers@[j]).reachable && peers@[j].kx_public@.len()
                == 32 ==> port_fits(peers@[j].daemon_endpoint@),
        r.1 == (replicas_of(crate::registry::peer_views(peers@), text_option(*relay)).len() > 0),
{
    let ghost ps = crate::registry::peer_views(peers@);
    let mut fits: bool = true;
    let mut usable: bool = false;
    let mut i: usize = 0;
    while i < peers.len()
        invariant
            i <= peers@.len(),
            ps == crate::registry::peer_views(peers@),
            fits == forall|j: int|
                0 <= j < i && (#[trigger] peers@[j]).reachable && peers@[j].kx_public@.len() == 32
                    ==> port_fits(peers@[j].daemon_endpoint@),
            usable == (replicas_of(ps.take(i as int), text_option(*relay)).len() > 0),
        decreases peers@.len() - i,
    {
        let p: &Peer = &peers[i];
        proof {
            assert(ps.take(i + 1).drop_last() =~= ps.take(i as int));
            assert(ps.take(i + 1).last() == p@);
        }
        if p.kx_public.len() == 32 {
            if p.reachable {
                if let Some((_, port)) = find_port(p.daemon_endpoint.as_str()) {
                    if port > 64535 {
                        assert(!port_fits(peers@[i as int].daemon_endpoint@));
                        fits = false;
                    }
                }
                usable = true;
            } else if relay.is_some() {
                usable = true;
            }
        }
        i += 1;
    }
    assert(ps.take(i as int) =~= ps);
    (fits, usable)
}

/// Whether, where no layer of a model is missing, the port to ask is one for every
/// peer that is asked directly, up to the first slice none of whose holders can be
/// asked.
pub fn can_route(registry: &PeerRegistry, model_id: &str, relay_sentinel: &Option<String>) -> (r:
    bool)
    ensures
        r == can_look_for_route(registry.listing(), model_id@, text_option(*relay_sentinel)),
{
    let ghost ps = registry.listing();
    let ghost relay = text_option(*relay_sentinel);
    let ghost total = crate::capacity::depth(ps, model_id@) as int;
    let caps: Vec<ModelCapacity> = analyze(registry);
    let at: usize = match position_of(caps.as_slice(), model_id) {
        Some(i) => i,
        None => {
            proof {
                crate::capacity::a_found_model_is_the_one(caps@, model_id@, 0);
                assert forall|slices: Seq<SliceCoverage>, i: int|
                    #[trigger] crate::capacity::tallies(ps, model_id@, slices)
                        && #[trigger] is_looked_at(
                        ps,
                        model_id@,
                        slices,
                        relay,
                        i,
                    ) implies ports_fit(ps, model_id@, slices[i]) by {
                    let pred = crate::registry::holds_slice(
                        model_id@,
                        slices[i].start_layer,
                        slices[i].end_layer,
                    );
                    assert(slices[i].replicas > 0);
                    crate::lists::filtered_was_there(ps, pred, 0);
                    let j = choose|j: int| 0 <= j < ps.len() && #[trigger] ps[j] == ps.filter(pred)[0];
                    assert(crate::capacity::model_ids(caps@).contains(ps[j].model_id));
                }
            }
            return true;
        },
    };
    let cap: &ModelCapacity = &caps[at];
    let ghost slices = cap.slices@;
    assert(crate::capacity::describes(caps@[at as int], ps, model_id@));
    proof {
        assert forall|other: Seq<SliceCoverage>| #[trigger]
            crate::capacity::tallies(ps, model_id@, other) implies other == slices by {
            crate::capacity::there_is_one_tally(ps, model_id@, other, slices);
        }
    }
    if cap.coverage_gaps().len() > 0 {
        return true;
    }
    assert(crate::capacity::gaps(slices, total).len() == 0);
    let mut k: usize = 0;
    while k < cap.slices.len()
        invariant
            k <= cap.slices@.len(),
            slices == cap.slices@,
            ps == registry.listing(),
            relay == text_option(*relay_sentinel),
            total == crate::capacity::depth(ps, model_id@),
            crate::capacity::tallies(ps, model_id@, slices),
            crate::capacity::gaps(slices, total).len() == 0,
            forall|other: Seq<SliceCoverage>| #[trigger]
                crate::capacity::tallies(ps, model_id@, other) ==> other == slices,
            forall|i: int|
                0 <= i < k ==> ports_fit(ps, model_id@, #[trigger] slices[i]) && stage_for(
                    ps,
                    model_id@,
                    slices[i],
                    relay,
                ).replicas.len() > 0,
        decreases cap.slices@.len() - k,
    {
        let s: SliceCoverage = cap.slices[k];
        let peers: Vec<Peer> = registry.replicas_for_slice(model_id, s.start_layer, s.end_layer);
        let (fits, usable) = look_at(&peers, relay_sentinel);
        proof {
            let fs = ps.filter(
                crate::registry::holds_slice(model_id@, s.start_layer, s.end_layer),
            );
            assert(fs.len() == peers@.len());
            assert forall|j: int| 0 <= j < fs.len() implies #[trigger] fs[j] == peers@[j]@ by {}
            if fits {
                assert(ports_fit(ps, model_id@, s)) by {
                    assert forall|j: int|
                        0 <= j < fs.len() && (#[trigger] fs[j]).reachable && fs[j].kx_public.len()
                            == 32 implies port_fits(fs[j].daemon_endpoint) by {
                        assert(peers@[j].reachable);
                    }
                }
            } else {
                let j = choose|j: int|
                    0 <= j < peers@.len() && (#[trigger] peers@[j]).reachable
                        && peers@[j].kx_public@.len() == 32 && !port_fits(
                        peers@[j].daemon_endpoint@,
                    );
                assert(fs[j] == peers@[j]@);
                assert(!ports_fit(ps, model_id@, s));
                assert(is_looked_at(ps, model_id@, slices, relay, k as int));
            }
        }
        if !fits {
            return false;
        }
        if !usable {
            return true;
        }
        k += 1;
    }
    true
}

/// The route through a model over the known peers, with the given key for the
/// session.
pub fn route_with_key(
    model_id: &str,
    registry: &PeerRegistry,
    target_replication: usize,
    spare_endpoints: Vec<String>,
    relay_sentinel: Option<String>,
    session_kx: KeyExchange,
) -> (r: Result<Orchestrator, RouteError>)
    requires
        can_look_for_route(registry.listing(), model_id@, text_option(relay_sentinel)),
    ensures
        is_route(
            r,
            registry.listing(),
            model_id@,
            target_replication,
            spare_endpoints,
            text_option(relay_sentinel),
        ),
        r matches Ok(o) ==> o.session_kx == session_kx,
{
    let caps: Vec<ModelCapacity> = analyze(registry);
    let ghost ps = registry.listing();
    let ghost relay = text_option(relay_sentinel);
    let at: usize = match position_of(caps.as_slice(), model_id) {
        Some(i) => i,
        None => {
            proof {
                crate::capacity::a_found_model_is_the_one(caps@, model_id@, 0);
                assert forall|i: int| 0 <= i < ps.len() implies (#[trigger] ps[i]).model_id
                    != model_id@ by {
                    if ps[i].model_id == model_id@ {
                        assert(crate::capacity::model_ids(caps@).contains(ps[i].model_id));
                    }
                }
            }
            return Err(RouteError::NoPeers);
        },
    };
    let cap: &ModelCapacity = &caps[at];
    let ghost slices = cap.slices@;
    proof {
        assert(crate::capacity::describes(caps@[at as int], ps, model_id@));
        assert(crate::capacity::model_ids(caps@)[at as int] == model_id@);
        assert(crate::capacity::model_ids(caps@).contains(model_id@));
        let i = choose|i: int| 0 <= i < ps.len() && (#[trigger] ps[i]).model_id == model_id@;
        a_holder_is_tallied(ps, model_id@, slices, i);
    }
    let missing: Vec<(u32, u32)> = cap.coverage_gaps();
    if missing.len() > 0 {
        return Err(RouteError::Incomplete { missing, total: cap.total_layers });
    }
    assert(crate::capacity::gaps(slices, cap.total_layers as int).len() == 0);
    let mut stages: Vec<Stage> = Vec::new();
    let mut k: usize = 0;
    while k < cap.slices.len()
        invariant
            k <= cap.slices@.len(),
            slices == cap.slices@,
            ps == registry.listing(),
            relay == text_option(relay_sentinel),
            can_look_for_route(ps, model_id@, relay),
            crate::capacity::tallies(ps, model_id@, slices),
            cap.total_layers == crate::capacity::depth(ps, model_id@),
            crate::capacity::gaps(slices, cap.total_layers as int).len() == 0,
            stages@.len() == k,
            forall|i: int|
                0 <= i < k ==> #[trigger] stage_views(stages@)[i] == stage_for(
                    ps,
                    model_id@,
                    slices[i],
                    relay,
                ) && stage_views(stages@)[i].replicas.len() > 0,
        decreases cap.slices@.len() - k,
    {
        let s: SliceCoverage = cap.slices[k];
        let peers: Vec<Peer> = registry.replicas_for_slice(model_id, s.start_layer, s.end_layer);
        proof {
            let pred = crate::registry::holds_slice(model_id@, s.start_layer, s.end_layer);
            let fs = ps.filter(pred);
            assert forall|j: int| 0 <= j < k implies stage_for(
                ps,
                model_id@,
                #[trigger] slices[j],
                relay,
            ).replicas.len() > 0 by {
                assert(stage_views(stages@)[j].replicas.len() > 0);
            }
            assert(is_looked_at(ps, model_id@, slices, relay, k as int));
            assert(ports_fit(ps, model_id@, s));
            assert forall|i: int|
                0 <= i < peers@.len() && (#[trigger] peers@[i]).reachable
                    && peers@[i].kx_public@.len() == 32 implies port_fits(
                peers@[i].daemon_endpoint@,
            ) by {
                assert(fs[i] == peers@[i]@);
            }
        }
        let replicas: Vec<Replica> = build_replicas(&peers, &relay_sentinel);
        assert(replica_views(replicas@) == stage_for(ps, model_id@, s, relay).replicas);
        if replicas.len() == 0 {
            assert(first_unreachable(ps, model_id@, slices, relay, k as int));
            return Err(RouteError::Unreachable { start: s.start_layer, end: s.end_layer });
        }
        let ghost before = stage_views(stages@);
        let stage = Stage {
            start_layer: s.start_layer,
            end_layer: s.end_layer,
            replicas,
            last_compute_ms: 0,
            last_network_ms: 0,
        };
        let ghost item = stage@;
        stages.push(stage);
        assert(stage_views(stages@) =~= before.push(item));
        k += 1;
    }
    let o = Orchestrator {
        model_id: model_id.to_string(),
        stages,
        spare_endpoints,
        target_replication,
        session_kx,
        last_forward_compute_ms: 0,
        last_forward_network_ms: 0,
        chain_enabled: true,
        session_prefill: None,
    };
    assert(routes(o.view_stages(), ps, model_id@, slices, relay));
    Ok(o)
}

proof fn a_holder_is_tallied(
    ps: Seq<crate::registry::PeerView>,
    model_id: Seq<char>,
    slices: Seq<SliceCoverage>,
    i: int,
)
    requires
        crate::capacity::tallies(ps, model_id, slices),
        0 <= i < ps.len(),
        ps[i].model_id == model_id,
    ensures
        slices.len() > 0,
{
    let pred = crate::registry::holds_slice(model_id, ps[i].start_layer, ps[i].end_layer);
    crate::lists::passing_is_left(ps, pred, i);
    assert(crate::capacity::holders(ps, model_id, ps[i].start_layer, ps[i].end_layer) > 0);
}

/// The route through a model over the known peers, with a fresh key for the
/// session.
pub fn build_from_registry(
    model_id: &str,
    registry: &PeerRegistry,
    target_replication: usize,
    spare_endpoints: Vec<String>,
    relay_sentinel: Option<String>,
) -> (r: Result<Orchestrator, RouteError>)
    requires
        can_look_for_route(registry.listing(), model_id@, text_option(relay_sentinel)),
    ensures
        is_route(
            r,
            registry.listing(),
            model_id@,
            target_replication,
            spare_endpoints,
            text_option(relay_sentinel),
        ),
{
    route_with_key(
        model_id,
        registry,
        target_replication,
        spare_endpoints,
        relay_sentinel,
        KeyExchange::generate(),
    )
}

// ---------------------------------------------------------------------------
// Laws
// ---------------------------------------------------------------------------

/// Where a pass over the replicas ends that has no cache to lose: at the first
/// that answers when asked, where `works` says which do. Each that does not is
/// noted as dead before the next is asked.
pub open spec fn pass_ends_at(rs: Seq<ReplicaView>, from: int, works: spec_fn(int) -> bool) -> Option<
    int,
>
    decreases rs.len() - from,
{
    match next_alive(rs, from) {
        None => None,
        Some(i) => if works(i) {
            Some(i)
        } else if from <= i < rs.len() && from >= 0 {
            pass_ends_at(rs.update(i, rs[i].with_alive(false)), i + 1, works)
        } else {
            None
        },
    }
}

/// As long as one of the replicas that count as alive works, a pass finds one
/// that does: the first of them.
pub proof fn a_pass_finds_a_working_replica(
    rs: Seq<ReplicaView>,
    from: int,
    works: spec_fn(int) -> bool,
)
    requires
        0 <= from,
    ensures
        match pass_ends_at(rs, from, works) {
            Some(i) => from <= i < rs.len() && rs[i].is_alive() && works(i) && forall|k: int|
                from <= k < i && (#[trigger] rs[k]).is_alive() ==> !works(k),
            None => forall|k: int|
                from <= k < rs.len() && (#[trigger] rs[k]).is_alive() ==> !works(k),
        },
    decreases rs.len() - from,
{
    the_next_alive_is_the_first(rs, from);
    if let Some(i) = next_alive(rs, from) {
        if !works(i) {
            let next = rs.update(i, rs[i].with_alive(false));
            a_pass_finds_a_working_replica(next, i + 1, works);
            assert forall|k: int| i < k < rs.len() implies #[trigger] rs[k] == next[k] by {}
            if let Some(j) = pass_ends_at(next, i + 1, works) {
                assert(rs[j] == next[j]);
            }
        }
    }
}

/// After a failure without a cache, the replica that is asked next stands behind
/// the failed one and counts as alive; the failed one does not any more.
pub proof fn a_failed_replica_is_not_asked_again(s: StageView, idx: int, step: FailoverStep)
    requires
        0 <= idx < s.replicas.len(),
        tries_from(step, after_attempt(s, idx, Outcome::Failed).replicas, idx + 1),
    ensures
        !after_attempt(s, idx, Outcome::Failed).replicas[idx].is_alive(),
        step matches FailoverStep::Try(j) ==> idx < j < s.replicas.len() && after_attempt(
            s,
            idx,
            Outcome::Failed,
        ).replicas[j as int].is_alive(),
{
    the_next_alive_is_the_first(after_attempt(s, idx, Outcome::Failed).replicas, idx + 1);
}

/// A recruit makes one more replica that answers, and the spare it was is not
/// free any more.
pub proof fn a_recruit_strengthens_the_stage(stages: Seq<StageView>, stage: int, ep: Seq<char>)
    requires
        0 <= stage < stages.len(),
    ensures
        ({
            let s = stages[stage];
            let r = ReplicaView::Local { endpoint: ep, alive: true };
            let after = stages.update(stage, StageView { replicas: s.replicas.push(r), ..s });
            &&& alive_count(after[stage].replicas) == alive_count(s.replicas) + 1
            &&& in_use(after, ep)
        }),
{
    let s = stages[stage];
    let r = ReplicaView::Local { endpoint: ep, alive: true };
    let after = stages.update(stage, StageView { replicas: s.replicas.push(r), ..s });
    assert(s.replicas.push(r).drop_last() =~= s.replicas);
    assert(names(after[stage].replicas)[s.replicas.len() as int] == ep);
    assert(names(after[stage].replicas).contains(ep));
}

/// A spare that is recruited was not in use.
pub proof fn a_free_spare_is_not_in_use(stages: Seq<StageView>, spares: Seq<String>, k: int)
    requires
        0 <= k,
    ensures
        match free_spare(stages, spares, k) {
            Some(i) => k <= i < spares.len() && !in_use(stages, spares[i]@),
            None => forall|i: int| k <= i < spares.len() ==> in_use(stages, (#[trigger] spares[i])@),
        },
    decreases spares.len() - k,
{
    if k < spares.len() && in_use(stages, spares[k]@) {
        a_free_spare_is_not_in_use(stages, spares, k + 1);
    }
}

/// Noting that an endpoint is dead never brings a replica back.
pub proof fn marking_dead_revives_nothing(rs: Seq<ReplicaView>, ep: Seq<char>)
    ensures
        alive_count(without_endpoint(rs, ep)) <= alive_count(rs),
        forall|i: int|
            0 <= i < rs.len() && (#[trigger] without_endpoint(rs, ep)[i]).is_alive()
                ==> rs[i].is_alive(),
    decreases rs.len(),
{
    if rs.len() > 0 {
        marking_dead_revives_nothing(rs.drop_last(), ep);
        assert(without_endpoint(rs, ep).drop_last() =~= without_endpoint(rs.drop_last(), ep));
    }
}

/// Every hop of a chain is the first node of its stage that answers and speaks the
/// current wire format. It is asked at its own endpoint and under its own key, for the
/// slice of its stage, and only the last one for the best candidates.
pub proof fn a_chain_is_made_of_current_nodes(stages: Seq<StageView>, top_k: u32, i: int)
    requires
        0 <= i < stages.len(),
        chain_of(stages, stages.len() as int, top_k) is Some,
    ensures
        ({
            let chain = chain_of(stages, stages.len() as int, top_k).unwrap();
            let (at, hop) = chain[i];
            &&& chain.len() == stages.len()
            &&& chain_place(stages[i].replicas, 0) == Some(at)
            &&& 0 <= at < stages[i].replicas.len()
            &&& stages[i].replicas[at] is Remote
            &&& stages[i].replicas[at].is_alive()
            &&& stages[i].replicas[at].is_current()
            &&& hop.compute_endpoint == stages[i].replicas[at]->Remote_compute_endpoint
            &&& hop.kx_public == stages[i].replicas[at]->Remote_host_kx_public
            &&& hop.start_layer == stages[i].start_layer
            &&& hop.end_layer == stages[i].end_layer
            &&& hop.accepts_bf16
            &&& hop.top_k == if i == stages.len() - 1 {
                top_k
            } else {
                0
            }
            &&& forall|k: int|
                0 <= k < at ==> !((#[trigger] stages[i].replicas[k]) is Remote
                    && stages[i].replicas[k].is_alive() && stages[i].replicas[k].is_current())
        }),
{
    chain_shape(stages, stages.len() as int, top_k, i);
    the_chain_place_is_one(stages[i].replicas, 0);
}

/// A hop at which a chain stood still is in no later chain.
pub proof fn a_stalled_hop_is_not_asked_again(
    stages: Seq<StageView>,
    ep: Seq<char>,
    top_k: u32,
    i: int,
)
    requires
        0 <= i < stages.len(),
        chain_of(stages_without(stages, ep), stages.len() as int, top_k) is Some,
    ensures
        chain_of(stages_without(stages, ep), stages.len() as int, top_k).unwrap()[i].1.compute_endpoint
            != ep,
{
    let after = stages_without(stages, ep);
    a_chain_is_made_of_current_nodes(after, top_k, i);
    let (at, hop) = chain_of(after, after.len() as int, top_k).unwrap()[i];
    assert(after[i].replicas[at] == without_endpoint(stages[i].replicas, ep)[at]);
}

/// A route that was found holds every layer of the model: one of its stages runs it.
pub proof fn a_route_holds_every_layer(
    stages: Seq<StageView>,
    ps: Seq<crate::registry::PeerView>,
    model_id: Seq<char>,
    slices: Seq<SliceCoverage>,
    relay: Option<Seq<char>>,
    l: int,
)
    requires
        crate::capacity::gaps(slices, crate::capacity::depth(ps, model_id) as int).len() == 0,
        routes(stages, ps, model_id, slices, relay),
        0 <= l < crate::capacity::depth(ps, model_id),
    ensures
        exists|i: int|
            0 <= i < stages.len() && (#[trigger] stages[i]).start_layer <= l < stages[i].end_layer
                && stages[i].replicas.len() > 0,
{
    let total = crate::capacity::depth(ps, model_id) as int;
    crate::capacity::a_model_is_servable_without_gaps(slices, total);
    assert(crate::capacity::covered(slices, l));
    let i = choose|i: int|
        0 <= i < slices.len() && crate::capacity::covers(#[trigger] slices[i], l);
    assert(stages[i] == stage_for(ps, model_id, slices[i], relay));
}

/// Every replica of a route that was found counts as alive, and of none it is known
/// yet which version it speaks.
pub proof fn a_new_route_is_alive(
    ps: Seq<crate::registry::PeerView>,
    relay: Option<Seq<char>>,
    i: int,
)
    requires
        0 <= i < replicas_of(ps, relay).len(),
    ensures
        replicas_of(ps, relay)[i].is_alive(),
        replicas_of(ps, relay)[i].version() == 0,
    decreases ps.len(),
{
    if ps.len() > 0 {
        if i < replicas_of(ps.drop_last(), relay).len() {
            a_new_route_is_alive(ps.drop_last(), relay, i);
        }
    }
}

/// A replica of a route stands for one of the peers that hold its slice, and is asked as
/// that peer can be: a peer that can be reached directly, at the endpoint to compute at
/// that belongs to its own, and one that cannot through the relay, under the node id by
/// which it attaches itself there. Either way what is sent to it is sealed for its own
/// key.
pub proof fn a_replica_stands_for_a_peer(
    ps: Seq<crate::registry::PeerView>,
    relay: Option<Seq<char>>,
    i: int,
)
    requires
        0 <= i < replicas_of(ps, relay).len(),
    ensures
        exists|j: int|
            0 <= j < ps.len() && (#[trigger] ps[j]).kx_public.len() == 32 && match replicas_of(
                ps,
                relay,
            )[i] {
                ReplicaView::Remote { compute_endpoint, host_kx_public, label, .. } => {
                    &&& ps[j].reachable
                    &&& compute_endpoint == compute_endpoint_of(ps[j].daemon_endpoint)
                    &&& host_kx_public == ps[j].kx_public
                    &&& label == ps[j].daemon_endpoint
                },
                ReplicaView::Relayed {
                    relay_endpoint,
                    target_node_id,
                    host_kx_public,
                    ..
                } => {
                    &&& !ps[j].reachable
                    &&& relay == Some(relay_endpoint)
                    &&& target_node_id == ps[j].node_id
                    &&& host_kx_public == ps[j].kx_public
                },
                ReplicaView::Local { .. } => false,
            },
    decreases ps.len(),
{
    let init = ps.drop_last();
    if i < replicas_of(init, relay).len() {
        a_replica_stands_for_a_peer(init, relay, i);
        let j = choose|j: int|
            0 <= j < init.len() && (#[trigger] init[j]).kx_public.len() == 32 && match replicas_of(
                init,
                relay,
            )[i] {
                ReplicaView::Remote { compute_endpoint, host_kx_public, label, .. } => {
                    &&& init[j].reachable
                    &&& compute_endpoint == compute_endpoint_of(init[j].daemon_endpoint)
                    &&& host_kx_public == init[j].kx_public
                    &&& label == init[j].daemon_endpoint
                },
                ReplicaView::Relayed {
                    relay_endpoint,
                    target_node_id,
                    host_kx_public,
                    ..
                } => {
                    &&& !init[j].reachable
                    &&& relay == Some(relay_endpoint)
                    &&& target_node_id == init[j].node_id
                    &&& host_kx_public == init[j].kx_public
                },
                ReplicaView::Local { .. } => false,
            };
        assert(ps[j] == init[j]);
        assert(replicas_of(ps, relay)[i] == replicas_of(init, relay)[i]);
    } else {
        assert(ps[ps.len() - 1] == ps.last());
    }
}

/// A relayed replica is found at the relay: whatever lines are attached there, the line
/// that its peer attached is the one down which a request for the replica goes.
pub proof fn a_relayed_replica_is_found_at_the_relay(
    ps: Seq<crate::registry::PeerView>,
    relay: Option<Seq<char>>,
    i: int,
    lines: Map<Seq<u8>, u64>,
    line: u64,
)
    requires
        0 <= i < replicas_of(ps, relay).len(),
        replicas_of(ps, relay)[i] is Relayed,
    ensures
        exists|j: int|
            0 <= j < ps.len() && !(#[trigger] ps[j]).reachable && crate::relay::line_for(
                crate::relay::with_line(lines, ps[j].node_id, line),
                replicas_of(ps, relay)[i]->Relayed_target_node_id,
            ) == Some(line) && replicas_of(ps, relay)[i]->Relayed_host_kx_public
                == ps[j].kx_public,
{
    a_replica_stands_for_a_peer(ps, relay, i);
}

/// No peer that can be asked is passed over: one with a whole key that can be reached, or
/// where there is a relay, is one of the replicas.
pub proof fn every_peer_that_can_be_asked_is_a_replica(
    ps: Seq<crate::registry::PeerView>,
    relay: Option<Seq<char>>,
    j: int,
)
    requires
        0 <= j < ps.len(),
        ps[j].kx_public.len() == 32,
        ps[j].reachable || relay is Some,
    ensures
        exists|i: int|
            0 <= i < replicas_of(ps, relay).len() && match #[trigger] replicas_of(ps, relay)[i] {
                ReplicaView::Remote { label, host_kx_public, .. } => ps[j].reachable && label
                    == ps[j].daemon_endpoint && host_kx_public == ps[j].kx_public,
                ReplicaView::Relayed { target_node_id, host_kx_public, .. } => !ps[j].reachable
                    && target_node_id == ps[j].node_id && host_kx_public == ps[j].kx_public,
                ReplicaView::Local { .. } => false,
            },
    decreases ps.len(),
{
    let init = ps.drop_last();
    let all = replicas_of(ps, relay);
    if j < init.len() {
        assert(init[j] == ps[j]);
        every_peer_that_can_be_asked_is_a_replica(init, relay, j);
        let part = replicas_of(init, relay);
        let i = choose|i: int|
            0 <= i < part.len() && match #[trigger] part[i] {
                ReplicaView::Remote { label, host_kx_public, .. } => init[j].reachable && label
                    == init[j].daemon_endpoint && host_kx_public == init[j].kx_public,
                ReplicaView::Relayed { target_node_id, host_kx_public, .. } => !init[j].reachable
                    && target_node_id == init[j].node_id && host_kx_public == init[j].kx_public,
                ReplicaView::Local { .. } => false,
            };
        assert(all[i] == part[i]);
    } else {
        assert(all[all.len() - 1] == replica_of(ps[j], relay).unwrap());
    }
}

/// A node is asked to compute at the same place as it listens, a thousand ports up.
pub proof fn the_port_to_compute_at_is_a_thousand_up(host: Seq<char>, port: nat)
    requires
        port <= 65535,
    ensures
        compute_endpoint_of(host + ":"@ + text::dec(port)) == host + ":"@ + text::dec(port + 1000),
        port_fits(host + ":"@ + text::dec(port)) <==> port <= 64535,
{
    let s = host + ":"@ + text::dec(port);
    reveal_strlit(":");
    text::a_written_number_is_read(port, 65535);
    text::the_last_place_is_the_last(s, ':');
    let at = host.len() as int;
    assert(s[at] == ':');
    assert forall|k: int| at < k < s.len() implies s[k] != ':' by {
        assert(s[k] == text::dec(port)[k - at - 1]);
    }
    let i = text::last_place(s, ':').unwrap();
    assert(i == at);
    assert(s.skip(at + 1) =~= text::dec(port));
    assert(s.take(at) =~= host);
}

/// The stages of a route stand in the order of the layers that they hold.
pub proof fn a_route_goes_up_through_the_layers(
    stages: Seq<StageView>,
    ps: Seq<crate::registry::PeerView>,
    model_id: Seq<char>,
    slices: Seq<SliceCoverage>,
    relay: Option<Seq<char>>,
    i: int,
    j: int,
)
    requires
        crate::capacity::tallies(ps, model_id, slices),
        routes(stages, ps, model_id, slices, relay),
        0 <= i < j < stages.len(),
    ensures
        stages[i].start_layer < stages[j].start_layer || (stages[i].start_layer
            == stages[j].start_layer && stages[i].end_layer < stages[j].end_layer),
{
    assert(stages[i] == stage_for(ps, model_id, slices[i], relay));
    assert(stages[j] == stage_for(ps, model_id, slices[j], relay));
    assert(crate::capacity::slice_before(slices[i], slices[j]));
}

/// Every replica of a stage is a peer that announced just the layers of that stage, of
/// that model.
pub proof fn a_stage_is_made_of_holders(
    ps: Seq<crate::registry::PeerView>,
    model_id: Seq<char>,
    s: SliceCoverage,
    relay: Option<Seq<char>>,
    i: int,
)
    requires
        0 <= i < stage_for(ps, model_id, s, relay).replicas.len(),
    ensures
        stage_for(ps, model_id, s, relay).start_layer == s.start_layer,
        stage_for(ps, model_id, s, relay).end_layer == s.end_layer,
        exists|j: int|
            0 <= j < ps.len() && (#[trigger] ps[j]).model_id == model_id && ps[j].start_layer
                == s.start_layer && ps[j].end_layer == s.end_layer && match stage_for(
                ps,
                model_id,
                s,
                relay,
            ).replicas[i] {
                ReplicaView::Remote { label, host_kx_public, .. } => label
                    == ps[j].daemon_endpoint && host_kx_public == ps[j].kx_public,
                ReplicaView::Relayed { target_node_id, host_kx_public, .. } => target_node_id
                    == ps[j].node_id && host_kx_public == ps[j].kx_public,
                ReplicaView::Local { .. } => false,
            },
{
    let pred = crate::registry::holds_slice(model_id, s.start_layer, s.end_layer);
    let fs = ps.filter(pred);
    a_replica_stands_for_a_peer(fs, relay, i);
    let r = replicas_of(fs, relay)[i];
    let k = choose|k: int|
        0 <= k < fs.len() && (#[trigger] fs[k]).kx_public.len() == 32 && match r {
            ReplicaView::Remote { compute_endpoint, host_kx_public, label, .. } => {
                &&& fs[k].reachable
                &&& compute_endpoint == compute_endpoint_of(fs[k].daemon_endpoint)
                &&& host_kx_public == fs[k].kx_public
                &&& label == fs[k].daemon_endpoint
            },
            ReplicaView::Relayed { relay_endpoint, target_node_id, host_kx_public, .. } => {
                &&& !fs[k].reachable
                &&& relay == Some(relay_endpoint)
                &&& target_node_id == fs[k].node_id
                &&& host_kx_public == fs[k].kx_public
            },
            ReplicaView::Local { .. } => false,
        };
    crate::lists::filtered_was_there(ps, pred, k);
    let j = choose|j: int| 0 <= j < ps.len() && #[trigger] ps[j] == fs[k];
    assert(ps[j].model_id == model_id);
}

/// Noting that a replica is alive or dead, or which version it speaks, leaves the rest of
/// it as it was, and is what is found of it later.
pub proof fn what_is_noted_of_a_replica_is_found(r: ReplicaView, alive: bool, version: u32)
    ensures
        r.with_alive(alive).is_alive() == alive,
        r.with_alive(alive).version() == r.version(),
        r.with_alive(alive).name() == r.name(),
        r.with_alive(r.is_alive()) == r,
        r.with_version(version).is_alive() == r.is_alive(),
        r.with_version(version).name() == r.name(),
        !(r is Local) ==> r.with_version(version).version() == version,
        r is Local ==> r.with_version(version) == r && r.is_current(),
        !(r is Local) ==> (r.with_version(version).is_current() <==> version >= WIRE_VERSION),
{
}

/// As many replicas answer as there are that do.
pub proof fn the_living_are_counted(rs: Seq<ReplicaView>)
    ensures
        alive_count(rs) == rs.filter(|r: ReplicaView| r.is_alive()).len(),
    decreases rs.len(),
{
    let living = |r: ReplicaView| r.is_alive();
    reveal(Seq::filter);
    if rs.len() > 0 {
        the_living_are_counted(rs.drop_last());
    }
}

/// Where an endpoint was found dead, just the nodes that are asked there count as dead
/// from then on.
pub proof fn just_the_nodes_at_an_endpoint_die(rs: Seq<ReplicaView>, ep: Seq<char>, i: int)
    requires
        0 <= i < rs.len(),
    ensures
        without_endpoint(rs, ep).len() == rs.len(),
        rs[i] is Remote && rs[i]->Remote_compute_endpoint == ep ==> !without_endpoint(
            rs,
            ep,
        )[i].is_alive(),
        !(rs[i] is Remote && rs[i]->Remote_compute_endpoint == ep) ==> without_endpoint(rs, ep)[i]
            == rs[i],
{
}

/// What a hop took is the computing and the rest, unless it was said to have computed
/// longer than it took in all.
pub proof fn a_hop_takes_its_computing_and_the_rest(hop_ms: u64, compute_ms: u64)
    ensures
        compute_ms <= hop_ms ==> network_part(hop_ms, compute_ms) + compute_ms == hop_ms,
        compute_ms > hop_ms ==> network_part(hop_ms, compute_ms) == 0,
{
}

/// The times of stages one behind the other are those of each, added up.
pub proof fn times_add_up(a: Seq<StageView>, b: Seq<StageView>)
    ensures
        compute_sum(a + b) == compute_sum(a) + compute_sum(b),
        network_sum(a + b) == network_sum(a) + network_sum(b),
        a.len() == 1 ==> compute_sum(a) == a[0].last_compute_ms && network_sum(a)
            == a[0].last_network_ms,
    decreases b.len(),
{
    if b.len() == 0 {
        assert(a + b =~= a);
        if a.len() == 1 {
            assert(compute_sum(a.drop_last()) == 0 && network_sum(a.drop_last()) == 0);
        }
    } else {
        times_add_up(a, b.drop_last());
        assert((a + b).drop_last() =~= a + b.drop_last());
        assert((a + b).last() == b.last());
    }
}

/// Stage by stage, only the last is asked for the best candidates, and each for a form that
/// the next one can take.
pub proof fn only_the_last_stage_names_candidates(stages: Seq<StageView>, i: int, top_k: u32)
    requires
        0 <= i < stages.len(),
    ensures
        i < stages.len() - 1 ==> stage_task(stages, i, top_k).top_k == 0,
        i == stages.len() - 1 ==> stage_task(stages, i, top_k).top_k == top_k && !stage_task(
            stages,
            i,
            top_k,
        ).accepts_bf16,
        i < stages.len() - 1 && stage_task(stages, i, top_k).accepts_bf16 ==> (next_alive(
            stages[i + 1].replicas,
            0,
        ) matches Some(k) && stages[i + 1].replicas[k].is_current()),
{
}

/// Asking a replica says something of that replica alone: that it does not answer, or which
/// version it speaks. The others stay as they were, and so do the layers of the stage; how
/// long it took is noted only where it answered.
pub proof fn an_attempt_concerns_its_replica(
    s: StageView,
    idx: int,
    k: int,
    compute_ms: u64,
    peer_version: u32,
    hop_ms: u64,
)
    requires
        0 <= idx < s.replicas.len(),
        0 <= k < s.replicas.len(),
    ensures
        ({
            let failed = after_attempt(s, idx, Outcome::Failed);
            let answered = after_attempt(
                s,
                idx,
                Outcome::Answered { compute_ms, peer_version, hop_ms },
            );
            &&& failed.replicas.len() == s.replicas.len()
            &&& answered.replicas.len() == s.replicas.len()
            &&& k != idx ==> failed.replicas[k] == s.replicas[k] && answered.replicas[k]
                == s.replicas[k]
            &&& !failed.replicas[idx].is_alive()
            &&& failed.replicas[idx].name() == s.replicas[idx].name()
            &&& answered.replicas[idx].is_alive() == s.replicas[idx].is_alive()
            &&& !(s.replicas[idx] is Local) ==> answered.replicas[idx].version() == peer_version
            &&& failed.start_layer == s.start_layer && failed.end_layer == s.end_layer
            &&& answered.start_layer == s.start_layer && answered.end_layer == s.end_layer
            &&& failed.last_compute_ms == s.last_compute_ms && failed.last_network_ms
                == s.last_network_ms
            &&& answered.last_compute_ms == compute_ms
            &&& compute_ms <= hop_ms ==> answered.last_compute_ms + answered.last_network_ms
                == hop_ms
        }),
{
}

/// While a session has a cache no standby takes over: a failure breaks the route at the
/// replica that failed. Without one the next replica that counts as alive is asked as long
/// as there is any behind the one that failed, and none is passed over. What was answered is
/// final.
pub proof fn a_standby_takes_over_only_without_a_cache(
    step: FailoverStep,
    s: StageView,
    idx: int,
    outcome: Outcome,
    use_cache: bool,
    k: int,
)
    requires
        0 <= idx < k < s.replicas.len(),
        follows(step, s, idx, outcome, use_cache),
    ensures
        step is Finished <==> outcome is Answered,
        step is Broken <==> outcome is Failed && use_cache,
        step matches FailoverStep::Broken(b) ==> b.endpoint@ == s.replicas[idx].name(),
        outcome is Failed && !use_cache && s.replicas[k].is_alive() ==> step is Try && idx
            < step->Try_0 <= k && s.replicas[step->Try_0 as int].is_alive(),
{
    if outcome is Failed && !use_cache {
        the_next_alive_is_the_first(after_attempt(s, idx, outcome).replicas, idx + 1);
        assert(after_attempt(s, idx, outcome).replicas[k] == s.replicas[k]);
    }
}

/// The peers are asked in the order in which they are known: what the first ones are comes
/// first.
pub proof fn replicas_stand_in_the_order_of_peers(
    a: Seq<crate::registry::PeerView>,
    b: Seq<crate::registry::PeerView>,
    relay: Option<Seq<char>>,
)
    ensures
        replicas_of(a + b, relay) == replicas_of(a, relay) + replicas_of(b, relay),
    decreases b.len(),
{
    if b.len() == 0 {
        assert(a + b =~= a);
        assert(replicas_of(a, relay) + replicas_of(b, relay) =~= replicas_of(a, relay));
    } else {
        replicas_stand_in_the_order_of_peers(a, b.drop_last(), relay);
        assert((a + b).drop_last() =~= a + b.drop_last());
        assert((a + b).last() == b.last());
        assert(replicas_of(a + b, relay) =~= replicas_of(a, relay) + replicas_of(b, relay));
    }
}

proof fn a_place_is_found(rs: Seq<ReplicaView>, from: int, k: int)
    requires
        0 <= from <= k < rs.len(),
        rs[k] is Remote && rs[k].is_alive() && rs[k].is_current(),
    ensures
        chain_place(rs, from) is Some,
    decreases rs.len() - from,
{
    if from < k && !(rs[from] is Remote && rs[from].is_alive() && rs[from].is_current()) {
        a_place_is_found(rs, from + 1, k);
    }
}

proof fn a_chain_is_found(stages: Seq<StageView>, n: int, top_k: u32)
    requires
        0 <= n <= stages.len(),
        forall|i: int| 0 <= i < n ==> chain_place((#[trigger] stages[i]).replicas, 0) is Some,
    ensures
        chain_of(stages, n, top_k) is Some,
    decreases n,
{
    if n > 0 {
        a_chain_is_found(stages, n - 1, top_k);
        assert(chain_place(stages[n - 1].replicas, 0) is Some);
    }
}

/// Whether a stage has a node that can be asked directly, answers and speaks the current wire
/// format.
pub open spec fn has_current_node(s: StageView) -> bool {
    exists|k: int|
        0 <= k < s.replicas.len() && (#[trigger] s.replicas[k]) is Remote && s.replicas[k].is_alive()
            && s.replicas[k].is_current()
}

/// Activations go by themselves from node to node exactly where that is allowed, the session
/// has a cache, and each of at least two stages has a node that can be asked directly,
/// answers and speaks the current wire format. How many candidates are asked for makes no
/// difference.
pub proof fn a_chain_needs_a_current_node_in_every_stage(
    stages: Seq<StageView>,
    enabled: bool,
    use_cache: bool,
    top_k: u32,
)
    ensures
        goes_chained(stages, enabled, use_cache, top_k) <==> enabled && use_cache && stages.len()
            >= 2 && forall|i: int| 0 <= i < stages.len() ==> has_current_node(#[trigger] stages[i]),
{
    let n = stages.len() as int;
    if chain_of(stages, n, top_k) is Some {
        assert forall|i: int| 0 <= i < n implies has_current_node(#[trigger] stages[i]) by {
            a_chain_is_made_of_current_nodes(stages, top_k, i);
            let at = chain_of(stages, n, top_k).unwrap()[i].0;
            assert(stages[i].replicas[at] is Remote);
        }
    }
    if forall|i: int| 0 <= i < stages.len() ==> has_current_node(#[trigger] stages[i]) {
        assert forall|i: int| 0 <= i < n implies chain_place(
            (#[trigger] stages[i]).replicas,
            0,
        ) is Some by {
            assert(has_current_node(stages[i]));
            let k = choose|k: int|
                0 <= k < stages[i].replicas.len() && (#[trigger] stages[i].replicas[k]) is Remote
                    && stages[i].replicas[k].is_alive() && stages[i].replicas[k].is_current();
            a_place_is_found(stages[i].replicas, 0, k);
        }
        a_chain_is_found(stages, n, top_k);
    }
}

/// A request that goes through the route by itself goes through every stage: to the first it
/// is sent, and for each of the others it has a hop left, in their order, with its layers.
/// Only the last hop is asked for the best candidates.
pub proof fn a_plan_goes_through_every_stage(
    plan: ChainPlan,
    stages: Seq<StageView>,
    top_k: u32,
    i: int,
)
    requires
        stages.len() >= 2,
        chain_of(stages, stages.len() as int, top_k) is Some,
        plans_chain(plan, stages, chain_of(stages, stages.len() as int, top_k).unwrap()),
        0 < i < stages.len(),
    ensures
        plan.start_layer == stages[0].start_layer,
        plan.end_layer == stages[0].end_layer,
        plan.top_k == 0,
        plan.accepts_bf16,
        stages[0].replicas[plan.head as int] is Remote,
        stages[0].replicas[plan.head as int]->Remote_compute_endpoint == plan.endpoint@,
        stages[0].replicas[plan.head as int]->Remote_host_kx_public == plan.host_kx_public@,
        plan.rest@.len() == stages.len() - 1,
        plan.rest@[i - 1].start_layer == stages[i].start_layer,
        plan.rest@[i - 1].end_layer == stages[i].end_layer,
        plan.rest@[i - 1].accepts_bf16,
        plan.rest@[i - 1].top_k == if i + 1 == stages.len() {
            top_k
        } else {
            0
        },
{
    let chain = chain_of(stages, stages.len() as int, top_k).unwrap();
    a_chain_is_made_of_current_nodes(stages, top_k, 0);
    a_chain_is_made_of_current_nodes(stages, top_k, 1);
    a_chain_is_made_of_current_nodes(stages, top_k, i);
    assert(crate::compute::hop_views(plan.rest@).len() == chain.len() - 1);
    assert(crate::compute::hop_views(plan.rest@)[i - 1] == chain[i].1);
}

/// A worker of this machine and a node that is asked directly are told to forget a session,
/// whether they still answer or not; one that is asked over a relay is not.
pub proof fn who_can_be_told_is_told(stages: Seq<StageView>, s: int, k: int, alive: bool)
    requires
        0 <= s < stages.len(),
        0 <= k < stages[s].replicas.len(),
    ensures
        is_told(stages, (s, k)) <==> stages[s].replicas[k] is Local || stages[s].replicas[k] is Remote,
        can_be_told(stages[s].replicas[k].with_alive(alive)) == can_be_told(stages[s].replicas[k]),
        is_local_alive(stages, (s, k)) <==> stages[s].replicas[k] is Local
            && stages[s].replicas[k].is_alive(),
{
}

/// A spare is recruited exactly where too few replicas of a stage answer and one is free, and
/// then it is the first of the free ones.
pub proof fn the_first_free_spare_is_recruited(
    stages: Seq<StageView>,
    stage: int,
    spares: Seq<String>,
    target: nat,
)
    requires
        0 <= stage < stages.len(),
    ensures
        match next_spare(stages, stage, spares, target) {
            Some(k) => 0 <= k < spares.len() && !in_use(stages, spares[k]@) && alive_count(
                stages[stage].replicas,
            ) < target && forall|i: int|
                0 <= i < k ==> in_use(stages, (#[trigger] spares[i])@),
            None => alive_count(stages[stage].replicas) >= target || forall|i: int|
                0 <= i < spares.len() ==> in_use(stages, (#[trigger] spares[i])@),
        },
{
    a_free_spare_is_not_in_use(stages, spares, 0);
    all_before_the_free_spare_are_in_use(stages, spares, 0);
}

proof fn all_before_the_free_spare_are_in_use(stages: Seq<StageView>, spares: Seq<String>, k: int)
    requires
        0 <= k,
    ensures
        free_spare(stages, spares, k) matches Some(at) ==> forall|i: int|
            k <= i < at ==> in_use(stages, (#[trigger] spares[i])@),
    decreases spares.len() - k,
{
    if k < spares.len() && in_use(stages, spares[k]@) {
        all_before_the_free_spare_are_in_use(stages, spares, k + 1);
    }
}

/// A route that was found is one for the model and with the spares and the strength that were
/// asked for, and nothing has gone through it yet.
pub proof fn a_route_is_for_what_was_asked(
    o: Orchestrator,
    ps: Seq<crate::registry::PeerView>,
    model_id: Seq<char>,
    target_replication: usize,
    spare_endpoints: Vec<String>,
    relay: Option<Seq<char>>,
)
    requires
        is_route(Ok(o), ps, model_id, target_replication, spare_endpoints, relay),
    ensures
        o.model_id@ == model_id,
        o.target_replication == target_replication,
        o.spare_endpoints@ == spare_endpoints@,
        o.chain_enabled,
        o.session_prefill is None,
        o.last_forward_compute_ms == 0 && o.last_forward_network_ms == 0,
        compute_sum(o.view_stages()) == 0 && network_sum(o.view_stages()) == 0,
        o.view_stages().len() > 0,
        forall|i: int| 0 <= i < o.view_stages().len() ==> (#[trigger] o.view_stages()[i]).replicas.len()
            > 0,
{
    let total = crate::capacity::depth(ps, model_id) as int;
    let slices = choose|slices: Seq<SliceCoverage>|
        {
            &&& #[trigger] crate::capacity::tallies(ps, model_id, slices)
            &&& slices.len() > 0
            &&& crate::capacity::gaps(slices, total).len() == 0
            &&& routes(o.view_stages(), ps, model_id, slices, relay)
        };
    nothing_took_time(o.view_stages());
}

proof fn nothing_took_time(stages: Seq<StageView>)
    requires
        forall|i: int|
            0 <= i < stages.len() ==> (#[trigger] stages[i]).last_compute_ms == 0
                && stages[i].last_network_ms == 0,
    ensures
        compute_sum(stages) == 0,
        network_sum(stages) == 0,
    decreases stages.len(),
{
    if stages.len() > 0 {
        let init = stages.drop_last();
        assert forall|i: int| 0 <= i < init.len() implies (#[trigger] init[i]).last_compute_ms == 0
            && init[i].last_network_ms == 0 by {
            assert(init[i] == stages[i]);
        }
        nothing_took_time(init);
        assert(stages.last() == stages[stages.len() - 1]);
    }
}

/// An endpoint that names no port is taken as it is to compute at, and so is one with a number
/// that is no port.
pub proof fn an_endpoint_without_a_port_is_taken_as_it_is(host: Seq<char>, port: nat)
    ensures
        port > 65535 ==> compute_endpoint_of(host + ":"@ + text::dec(port)) == host + ":"@
            + text::dec(port),
        (forall|i: int| 0 <= i < host.len() ==> #[trigger] host[i] != ':') ==> compute_endpoint_of(
            host,
        ) == host,
{
    if port > 65535 {
        let s = host + ":"@ + text::dec(port);
        reveal_strlit(":");
        text::a_written_number_is_read(port, 65535);
        text::the_last_place_is_the_last(s, ':');
        let at = host.len() as int;
        assert(s[at] == ':');
        assert forall|k: int| at < k < s.len() implies s[k] != ':' by {
            assert(s[k] == text::dec(port)[k - at - 1]);
        }
        assert(text::last_place(s, ':') == Some(at));
        assert(s.skip(at + 1) =~= text::dec(port));
    }
    text::the_last_place_is_the_last(host, ':');
}

/// What is found of a worker of this machine when it is asked whether it is well is noted of
/// that worker and of nothing else; of other nodes nothing is noted.
pub proof fn a_check_concerns_the_worker(
    stages: Seq<StageView>,
    stage: int,
    replica: int,
    ok: bool,
    s: int,
    k: int,
)
    requires
        0 <= stage < stages.len(),
        0 <= replica < stages[stage].replicas.len(),
        0 <= s < stages.len(),
        0 <= k < stages[s].replicas.len(),
    ensures
        ({
            let after = after_check(stages, stage, replica, ok);
            &&& after.len() == stages.len()
            &&& after[s].replicas.len() == stages[s].replicas.len()
            &&& (s, k) != (stage, replica) ==> after[s].replicas[k] == stages[s].replicas[k]
            &&& stages[stage].replicas[replica] is Local
                ==> after[stage].replicas[replica].is_alive() == ok
            &&& !(stages[stage].replicas[replica] is Local) ==> after == stages
            &&& after[stage].replicas[replica].name() == stages[stage].replicas[replica].name()
        }),
{
}

/// A request that failed on its way breaks the route at one endpoint, and no later chain goes
/// there; every node that is asked elsewhere is left as it was. One that was answered leaves
/// every node as alive as it was.
pub proof fn a_failed_chain_avoids_where_it_failed(
    before: Orchestrator,
    head: int,
    head_endpoint: Seq<char>,
    outcome: ChainOutcome,
    after: Orchestrator,
    r: Option<ForwardError>,
    top_k: u32,
    s: int,
    k: int,
)
    requires
        chain_ended(before, head, head_endpoint, outcome, after, r),
        before.view_stages().len() > 0,
        0 <= head < before.view_stages()[0].replicas.len(),
        0 <= s < before.view_stages().len(),
        0 <= k < before.view_stages()[s].replicas.len(),
    ensures
        r is None <==> outcome is Answered,
        after.view_stages().len() == before.view_stages().len(),
        outcome is Answered ==> after.view_stages()[s].replicas[k].is_alive()
            == before.view_stages()[s].replicas[k].is_alive(),
        outcome matches ChainOutcome::Answered { compute_ms, elapsed_ms, .. } ==> compute_ms
            <= elapsed_ms ==> after.last_forward_compute_ms + after.last_forward_network_ms
            == elapsed_ms,
        r matches Some(ForwardError::Broken { route, .. }) ==> (chain_of(
            after.view_stages(),
            after.view_stages().len() as int,
            top_k,
        ) is Some ==> chain_of(
            after.view_stages(),
            after.view_stages().len() as int,
            top_k,
        ).unwrap()[s].1.compute_endpoint != route.endpoint@) && (!(
        before.view_stages()[s].replicas[k] is Remote
            && before.view_stages()[s].replicas[k]->Remote_compute_endpoint == route.endpoint@)
            ==> after.view_stages()[s].replicas[k] == before.view_stages()[s].replicas[k]),
        !(r matches Some(ForwardError::Other(_))),
{
    if let Some(ForwardError::Broken { route, .. }) = r {
        let n = before.view_stages().len() as int;
        if chain_of(after.view_stages(), n, top_k) is Some {
            a_stalled_hop_is_not_asked_again(before.view_stages(), route.endpoint@, top_k, s);
        }
    }
}

/// An endpoint is in use exactly where a replica of some stage has it as its name.
pub proof fn what_is_in_use_is_named(stages: Seq<StageView>, ep: Seq<char>, s: int, k: int)
    ensures
        0 <= s < stages.len() && 0 <= k < stages[s].replicas.len() && stages[s].replicas[k].name()
            == ep ==> in_use(stages, ep),
        in_use(stages, ep) ==> exists|i: int, j: int|
            0 <= i < stages.len() && 0 <= j < stages[i].replicas.len() && (
            #[trigger] stages[i].replicas[j]).name() == ep,
{
    if 0 <= s < stages.len() && 0 <= k < stages[s].replicas.len() && stages[s].replicas[k].name()
        == ep {
        assert(names(stages[s].replicas)[k] == ep);
        assert(names(stages[s].replicas).contains(ep));
    }
    if in_use(stages, ep) {
        let i = choose|i: int|
            0 <= i < stages.len() && names((#[trigger] stages[i]).replicas).contains(ep);
        let j = choose|j: int|
            0 <= j < names(stages[i].replicas).len() && names(stages[i].replicas)[j] == ep;
        assert(stages[i].replicas[j].name() == ep);
    }
}

/// A route that was found runs every layer of the model.
pub proof fn a_found_route_runs_every_layer(
    o: Orchestrator,
    ps: Seq<crate::registry::PeerView>,
    model_id: Seq<char>,
    target_replication: usize,
    spare_endpoints: Vec<String>,
    relay: Option<Seq<char>>,
    l: int,
)
    requires
        is_route(Ok(o), ps, model_id, target_replication, spare_endpoints, relay),
        0 <= l < crate::capacity::depth(ps, model_id),
    ensures
        exists|i: int|
            0 <= i < o.view_stages().len() && (#[trigger] o.view_stages()[i]).start_layer <= l
                < o.view_stages()[i].end_layer,
{
    let total = crate::capacity::depth(ps, model_id) as int;
    let slices = choose|slices: Seq<SliceCoverage>|
        {
            &&& #[trigger] crate::capacity::tallies(ps, model_id, slices)
            &&& slices.len() > 0
            &&& crate::capacity::gaps(slices, total).len() == 0
            &&& routes(o.view_stages(), ps, model_id, slices, relay)
        };
    crate::capacity::a_model_is_servable_without_gaps(slices, total);
    assert(crate::capacity::covered(slices, l));
    let i = choose|i: int|
        0 <= i < slices.len() && crate::capacity::covers(#[trigger] slices[i], l);
    assert(o.view_stages()[i] == stage_for(ps, model_id, slices[i], relay));
}

/// Where layers are told to be missing, some are: they are layers of the model, and no peer
/// holds any of them. How deep the model is told to be is how deep it is.
pub proof fn what_is_told_missing_is_held_by_nobody(
    missing: Vec<(u32, u32)>,
    told: u32,
    ps: Seq<crate::registry::PeerView>,
    model_id: Seq<char>,
    target_replication: usize,
    spare_endpoints: Vec<String>,
    relay: Option<Seq<char>>,
    k: int,
    l: int,
    j: int,
)
    requires
        is_route(
            Err(RouteError::Incomplete { missing, total: told }),
            ps,
            model_id,
            target_replication,
            spare_endpoints,
            relay,
        ),
    ensures
        told == crate::capacity::depth(ps, model_id),
        missing@.len() > 0,
        0 <= k < missing@.len() ==> missing@[k].0 < missing@[k].1 <= told,
        0 <= k < missing@.len() && missing@[k].0 <= l < missing@[k].1 && 0 <= j < ps.len()
            && ps[j].model_id == model_id ==> !(ps[j].start_layer <= l < ps[j].end_layer),
{
    let total = crate::capacity::depth(ps, model_id) as int;
    let slices = choose|slices: Seq<SliceCoverage>| #[trigger]
        crate::capacity::tallies(ps, model_id, slices) && slices.len() > 0
            && crate::capacity::ranges(missing@) == crate::capacity::gaps(slices, total);
    crate::capacity::gaps_stand_in_order(slices, total, 0);
    crate::capacity::a_layer_is_held_by_a_peer(ps, model_id, slices, l);
    if 0 <= k < missing@.len() {
        let gap = crate::capacity::gaps_from(slices, total, 0)[k];
        assert(crate::capacity::ranges(missing@)[k] == gap);
        assert(gap == (missing@[k].0 as int, missing@[k].1 as int));
    }
}

} // verus!
