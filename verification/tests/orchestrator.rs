use std::collections::HashMap;

use diffuse_daemon::generation::{Generation, Sending, StepAction, StepRun};
use diffuse_daemon::orchestrator::{
    build_from_registry, can_route, daemon_to_compute_endpoint, route_broken, ChainOutcome,
    FailoverStep, ForwardError, ForwardPlan, Orchestrator, Outcome, Replica, RepairStep, RouteBroken,
    RouteError, Stage, DECODE_TOP_K, MAX_REPLAYS,
};
use diffuse_daemon::registry::{Peer, PeerRegistry, WIRE_VERSION};
use diffuse_daemon::transport::KeyExchange;

fn local(endpoint: &str) -> Replica {
    Replica::Local { endpoint: endpoint.to_string(), alive: true }
}

fn remote(endpoint: &str, version: u32) -> Replica {
    Replica::Remote {
        compute_endpoint: endpoint.to_string(),
        host_kx_public: [5; 32],
        label: format!("{}-label", endpoint),
        alive: true,
        protocol_version: version,
    }
}

fn relayed(label: &str) -> Replica {
    Replica::Relayed {
        relay_endpoint: "http://relay".to_string(),
        target_node_id: label.as_bytes().to_vec(),
        host_kx_public: [6; 32],
        label: label.to_string(),
        alive: true,
        protocol_version: 0,
    }
}

fn stage(start_layer: u32, end_layer: u32, replicas: Vec<Replica>) -> Stage {
    Stage { start_layer, end_layer, replicas, last_compute_ms: 0, last_network_ms: 0 }
}

fn orch(stages: Vec<Stage>) -> Orchestrator {
    Orchestrator {
        model_id: "m".to_string(),
        stages,
        spare_endpoints: vec![],
        target_replication: 2,
        session_kx: KeyExchange::generate(),
        last_forward_compute_ms: 0,
        last_forward_network_ms: 0,
        chain_enabled: true,
        session_prefill: None,
    }
}

fn answered() -> Outcome {
    Outcome::Answered { compute_ms: 3, peer_version: 1, hop_ms: 10 }
}

#[test]
fn health_sweep_detects_death_proactively() {
    let mut o = orch(vec![stage(0, 6, vec![local("a1"), local("a2")]), stage(6, 12, vec![local("b1")])]);
    for (s, r) in [(0, 0), (0, 1), (1, 0)] {
        assert!(!o.health_sweep(s, r, true));
    }
    assert_eq!(o.coverage(), vec![2, 1], "all replicas should be alive initially");
    assert!(o.is_servable(), "model should be servable with full coverage");

    assert!(o.health_sweep(0, 0, false));
    assert!(!o.health_sweep(0, 1, true));
    assert!(!o.health_sweep(1, 0, true));
    assert_eq!(
        o.coverage(),
        vec![1, 1],
        "sweep should detect the dead replica proactively, without generating"
    );
    assert!(o.is_servable(), "model still servable: one replica left on each stage");
    assert!(!o.health_sweep(0, 0, false), "a replica goes down once");
    assert!(!o.at_strength());
}

/// Nodes that each hold what they ran of a session. What comes out at a place
/// depends on all that stands up to there.
struct Nodes {
    held: HashMap<String, Vec<i64>>,
    dead: Vec<String>,
    passes: usize,
}

impl Nodes {
    fn new() -> Self {
        Nodes { held: HashMap::new(), dead: vec![], passes: 0 }
    }

    fn run(&mut self, endpoint: &str, stage: usize, input: &[i64]) -> Option<Vec<i64>> {
        if self.dead.iter().any(|d| d == endpoint) {
            return None;
        }
        let held = self.held.entry(endpoint.to_string()).or_default();
        let before = held.len();
        held.extend_from_slice(input);
        let mut sum = stage as i64;
        let all: Vec<i64> = held
            .iter()
            .map(|x| {
                sum = (sum * 31 + x) % 1_000_003;
                sum
            })
            .collect();
        Some(all[before..].to_vec())
    }

    fn forget(&mut self, o: &Orchestrator) {
        for (s, r) in o.session_holders() {
            self.held.remove(&asked_at(&o.stages[s].replicas[r]));
        }
    }

    fn pass(&mut self, o: &mut Orchestrator, input: &[i64]) -> Result<Vec<i64>, ForwardError> {
        self.passes += 1;
        let mut x = input.to_vec();
        if let ForwardPlan::Chained(plan) = o.forward_tensor(true, DECODE_TOP_K) {
            let mut hops = vec![plan.endpoint.clone()];
            hops.extend(plan.rest.iter().map(|h| h.compute_endpoint.clone()));
            for (i, hop) in hops.iter().enumerate() {
                match self.run(hop, i, &x) {
                    Some(out) => x = out,
                    None => {
                        let cause = if i == 0 {
                            "refused".to_string()
                        } else {
                            format!("compute failed: chain stalled at [{}]: refused", hop)
                        };
                        let outcome = ChainOutcome::Failed { context: "refused".to_string(), cause };
                        return Err(o.finish_chained(plan.head, &plan.endpoint, outcome).unwrap());
                    }
                }
            }
            let outcome =
                ChainOutcome::Answered { compute_ms: 1, peer_version: WIRE_VERSION, elapsed_ms: 2 };
            assert!(o.finish_chained(plan.head, &plan.endpoint, outcome).is_none());
            return Ok(x);
        }
        for (i, s) in o.stages.iter_mut().enumerate() {
            let FailoverStep::Try(idx) = s.begin() else {
                return Err(ForwardError::Other(s.exhausted_message()));
            };
            let endpoint = asked_at(&s.replicas[idx]);
            let (out, outcome) = match self.run(&endpoint, i, &x) {
                Some(out) => (
                    out,
                    Outcome::Answered { compute_ms: 1, peer_version: WIRE_VERSION, hop_ms: 2 },
                ),
                None => (vec![], Outcome::Failed),
            };
            match s.run_with_failover(idx, outcome, true) {
                FailoverStep::Finished => x = out,
                FailoverStep::Broken(route) => {
                    return Err(ForwardError::Broken { route, context: s.broken_context() });
                }
                step => panic!("{:?}", step),
            }
        }
        Ok(x)
    }

    fn generate(
        &mut self,
        o: &mut Orchestrator,
        prompt: &[i64],
        n: usize,
        kill: Option<(usize, &str)>,
    ) -> Option<Vec<i64>> {
        let mut g = Generation::from_prompt(prompt, n, Some(-1));
        loop {
            if let Some((after, endpoint)) = kill {
                if g.sampled == after {
                    self.dead.push(endpoint.to_string());
                }
            }
            let mut run = StepRun::begin(false);
            let out = loop {
                let came = self.pass(o, &g.tokens(run.sending));
                match (run.forward_step(came.as_ref().err()), came) {
                    (StepAction::Done, Ok(out)) => break out,
                    (StepAction::ClearAndSend(_), Err(_)) => self.forget(o),
                    (StepAction::Fail, Err(_)) => return None,
                    (action, _) => panic!("{:?}", action),
                }
            };
            if g.feed(out[out.len() - 1] % 100).finished {
                return Some(g.ids);
            }
        }
    }
}

fn asked_at(replica: &Replica) -> String {
    match replica {
        Replica::Remote { compute_endpoint, .. } => compute_endpoint.clone(),
        other => other.label(),
    }
}

fn plain_answer(prompt: &[i64], stages: usize, n: usize) -> Vec<i64> {
    let mut ids = prompt.to_vec();
    for _ in 0..n {
        let mut x = ids.clone();
        for stage in 0..stages {
            let mut sum = stage as i64;
            for v in x.iter_mut() {
                sum = (sum * 31 + *v) % 1_000_003;
                *v = sum;
            }
        }
        ids.push(x[x.len() - 1] % 100);
    }
    ids
}

#[test]
fn generation_survives_dead_replica() {
    let ids = vec![1, 2, 3];
    let mut o = orch(vec![stage(0, 6, vec![local("a1"), local("a2")]), stage(6, 12, vec![local("b1")])]);
    o.chain_enabled = false;
    let reference = Nodes::new()
        .generate(&mut o, &ids, 20, None)
        .expect("reference generation with every replica alive");
    assert_eq!(reference, plain_answer(&ids, 2, 20));
    assert_eq!(o.coverage(), vec![2, 1]);

    let mut nodes = Nodes::new();
    let out = nodes
        .generate(&mut o, &ids, 20, Some((5, "a1")))
        .expect("generation should survive a replica dying mid-session");
    assert!(out.len() > ids.len(), "should have generated new tokens");
    assert_eq!(out, reference, "a replica dying mid-session must not change the tokens");
    assert_eq!(nodes.passes, 21, "one pass broke");
    assert_eq!(
        o.stages[0].live_replicas(),
        1,
        "stage A should have exactly one live replica left"
    );
    assert_eq!(o.stages[1].live_replicas(), 1);
}

#[test]
fn an_answer_survives_a_dead_hop_of_a_chain() {
    let ids = vec![4, 5];
    for dying in ["http://a", "http://b"] {
        let mut o = orch(vec![
            stage(0, 6, vec![remote("http://a", 0), remote("http://c", 0)]),
            stage(6, 12, vec![remote("http://b", 0), remote("http://d", 0)]),
        ]);
        let mut nodes = Nodes::new();
        let out = nodes.generate(&mut o, &ids, 8, Some((3, dying))).unwrap();
        assert_eq!(out, plain_answer(&ids, 2, 8), "{}", dying);
        let mut left = vec![2, 2];
        left[if dying == "http://a" { 0 } else { 1 }] = 1;
        assert_eq!(o.coverage(), left, "{}", dying);
        assert!(matches!(o.forward_tensor(true, 8), ForwardPlan::Chained(_)));
    }
}

#[test]
fn an_answer_survives_where_no_relayed_replica_keeps_its_beginning() {
    let ids = vec![4, 5];
    // A relayed standby takes over, and a relayed replica dies itself.
    for (a, dying) in [
        (vec![local("a"), relayed("r")], "a"),
        (vec![relayed("r"), local("a")], "r"),
        (vec![relayed("r"), relayed("s")], "r"),
    ] {
        let mut o = orch(vec![stage(0, 6, a), stage(6, 12, vec![local("b")])]);
        let out = Nodes::new().generate(&mut o, &ids, 8, Some((3, dying))).unwrap();
        assert_eq!(out, plain_answer(&ids, 2, 8));
        assert_eq!(o.coverage(), vec![1, 1]);
    }
    // One of a later stage has not been asked yet when the first pass breaks.
    let late = || orch(vec![stage(0, 6, vec![local("a"), local("c")]), stage(6, 12, vec![relayed("r")])]);
    let out = Nodes::new().generate(&mut late(), &ids, 8, Some((0, "a"))).unwrap();
    assert_eq!(out, plain_answer(&ids, 2, 8));
    // Once it has been, it goes on from what it was not told to forget.
    let out = Nodes::new().generate(&mut late(), &ids, 8, Some((3, "a"))).unwrap();
    assert_ne!(out, plain_answer(&ids, 2, 8));
}

#[test]
fn an_answer_fails_with_the_last_replica_of_a_stage() {
    let mut o = orch(vec![stage(0, 6, vec![local("a1"), local("a2")]), stage(6, 12, vec![local("b1")])]);
    assert_eq!(Nodes::new().generate(&mut o, &[1], 6, Some((2, "b1"))), None);
    assert_eq!(o.coverage(), vec![2, 0]);
    assert!(!o.is_servable());
}

#[test]
fn what_is_sent_is_what_the_route_has_not_had() {
    let mut g = Generation::from_prompt(&[7, 8], 5, None);
    assert_eq!(g.tokens(Sending::Step), vec![7, 8]);
    assert_eq!(g.tokens(Sending::Replay), vec![7, 8]);
    g.feed(9);
    assert_eq!(g.tokens(Sending::Step), vec![9]);
    assert_eq!(g.tokens(Sending::Replay), vec![7, 8, 9]);
    assert!(g.tokens(Sending::Prefill).is_empty());
    let mut g = Generation::from_embeddings(5, None);
    assert!(g.tokens(Sending::Step).is_empty());
    g.feed(3);
    g.feed(4);
    assert_eq!(g.tokens(Sending::Step), vec![4]);
    assert_eq!(g.tokens(Sending::Replay), vec![3, 4]);
}

#[test]
fn a_sweep_adds_spares_and_takes_nothing_away() {
    let mut o = orch(vec![
        stage(0, 4, vec![local("a"), local("b")]),
        stage(4, 8, vec![local("c")]),
        stage(8, 12, vec![local("d")]),
    ]);
    o.target_replication = 3;
    o.spare_endpoints = ["s", "c", "t", "u", "v"].iter().map(|e| e.to_string()).collect();
    let before: usize = o.stages.iter().map(|s| s.replicas.len()).sum();
    let mut recruited = 0;
    for s in 0..o.stages.len() {
        while let RepairStep::Recruit(endpoint) = o.repair(s) {
            if endpoint == "u" {
                break;
            }
            o.recruit(s, endpoint);
            recruited += 1;
        }
    }
    assert_eq!(recruited, 2, "one that cannot load the slice ends the rounds of its stage");
    assert_eq!(o.coverage(), vec![3, 2, 1]);
    let labels: Vec<String> = o.stages[0].replicas.iter().map(|r| r.label()).collect();
    assert_eq!(labels, vec!["a", "b", "s"]);
    let after: usize = o.stages.iter().map(|s| s.replicas.len()).sum();
    assert_eq!(after, before + recruited);
}

#[test]
fn a_failed_replica_is_passed_over_where_nothing_is_cached() {
    let mut s = stage(0, 6, vec![local("a"), local("b"), local("c")]);
    s.replicas[0].set_dead();
    assert_eq!(s.begin(), FailoverStep::Try(1));
    assert_eq!(s.run_with_failover(1, Outcome::Failed, false), FailoverStep::Try(2));
    assert_eq!(s.run_with_failover(2, Outcome::Failed, false), FailoverStep::Exhausted);
    assert_eq!(s.exhausted_message(), "all replicas dead for slice 0:6");
    assert_eq!(s.begin(), FailoverStep::Exhausted);
    assert_eq!(s.live_replicas(), 0);
}

#[test]
fn an_answer_leaves_its_times_and_its_version() {
    let mut s = stage(0, 6, vec![remote("http://a", 0)]);
    assert!(!s.accepts_bf16(), "a node of which nothing is known is fed the older format");
    let step = s.run_with_failover(
        0,
        Outcome::Answered { compute_ms: 30, peer_version: WIRE_VERSION, hop_ms: 100 },
        true,
    );
    assert_eq!(step, FailoverStep::Finished);
    assert_eq!((s.last_compute_ms, s.last_network_ms), (30, 70));
    assert!(s.accepts_bf16());
    s.run_with_failover(
        0,
        Outcome::Answered { compute_ms: 30, peer_version: WIRE_VERSION, hop_ms: 10 },
        true,
    );
    assert_eq!(s.last_network_ms, 0);
}

#[test]
fn a_broken_route_names_the_replica() {
    let mut s = stage(3, 9, vec![remote("http://a", 0)]);
    let step = s.run_with_failover(0, Outcome::Failed, true);
    assert_eq!(step, FailoverStep::Broken(RouteBroken { endpoint: "http://a-label".to_string() }));
    assert_eq!(s.broken_context(), "slice 3:9");
    let err = ForwardError::Broken {
        route: RouteBroken { endpoint: "x".to_string() },
        context: "slice 3:9".to_string(),
    };
    assert_eq!(route_broken(&err).unwrap().endpoint, "x");
    assert_eq!(
        err.message(),
        "slice 3:9: the route broke at x; the session must be replayed because the surviving replicas hold no KV cache for it"
    );
    assert!(route_broken(&ForwardError::Other("y".to_string())).is_none());
}

#[test]
fn a_step_is_sent_again_after_a_break_and_only_so_often() {
    let broken = ForwardError::Broken {
        route: RouteBroken { endpoint: "x".to_string() },
        context: "slice 3:9".to_string(),
    };
    let mut run = StepRun::begin(false);
    assert_eq!(run.forward_step(Some(&ForwardError::Other("y".to_string()))), StepAction::Fail);
    for replays in 1..=MAX_REPLAYS {
        assert_eq!(
            run.forward_step(Some(&broken)),
            StepAction::ClearAndSend(Sending::Replay)
        );
        assert_eq!(run.replays, replays);
    }
    assert_eq!(run.forward_step(Some(&broken)), StepAction::Fail);
    assert_eq!(run.forward_step(None), StepAction::Done);
}

#[test]
fn what_was_embedded_is_sent_ahead_of_the_tokens() {
    let broken = ForwardError::Broken {
        route: RouteBroken { endpoint: "x".to_string() },
        context: "slice 3:9".to_string(),
    };
    let mut run = StepRun::begin(true);
    assert_eq!(run.sending, Sending::Step);
    assert_eq!(run.top_k(), DECODE_TOP_K);
    assert_eq!(run.forward_step(Some(&broken)), StepAction::ClearAndSend(Sending::Prefill));
    assert_eq!(run.top_k(), 0);
    let mut failing = run;
    assert_eq!(failing.forward_step(Some(&broken)), StepAction::Fail);
    assert_eq!(run.forward_step(None), StepAction::Send(Sending::Replay));
    assert_eq!(run.top_k(), DECODE_TOP_K);
    assert_eq!(run.forward_step(None), StepAction::Done);
}

#[test]
fn a_free_spare_is_recruited_until_there_are_enough() {
    let mut o = orch(vec![stage(0, 6, vec![local("a")]), stage(6, 12, vec![local("b"), local("c")])]);
    assert_eq!(o.repair(0), RepairStep::NoSpare);
    o.spare_endpoints = vec!["b".to_string(), "s".to_string(), "t".to_string()];
    assert!(o.endpoint_in_use("b"));
    assert_eq!(o.repair(0), RepairStep::Recruit("s".to_string()));
    o.recruit(0, "s".to_string());
    assert_eq!(o.repair(0), RepairStep::Enough);
    assert_eq!(o.repair(1), RepairStep::Enough);
    assert_eq!(o.coverage(), vec![2, 2]);
    assert!(o.at_strength());
    assert_eq!(o.local_replicas(), vec![(0, 0), (0, 1), (1, 0), (1, 1)]);
}

#[test]
fn a_chain_runs_over_nodes_that_speak_the_current_wire() {
    let o = orch(vec![
        stage(0, 6, vec![remote("http://old", 0), remote("http://a", WIRE_VERSION)]),
        stage(6, 12, vec![remote("http://b", WIRE_VERSION)]),
    ]);
    let plan = match o.forward_tensor(true, DECODE_TOP_K) {
        ForwardPlan::Chained(p) => p,
        ForwardPlan::Staged(_) => panic!("the route can be chained"),
    };
    assert_eq!(plan.head, 1);
    assert_eq!(plan.endpoint, "http://a");
    assert_eq!((plan.start_layer, plan.end_layer, plan.top_k), (0, 6, 0));
    assert!(plan.accepts_bf16);
    assert_eq!(plan.rest.len(), 1);
    assert_eq!(plan.rest[0].compute_endpoint, "http://b");
    assert_eq!(plan.rest[0].top_k, DECODE_TOP_K);

    assert!(matches!(o.forward_tensor(false, 8), ForwardPlan::Staged(_)), "without a cache nothing is chained");
    let one = orch(vec![stage(0, 6, vec![remote("http://a", WIRE_VERSION)])]);
    assert!(one.forward_chained(8).is_none(), "one stage is no chain");
    let old = orch(vec![
        stage(0, 6, vec![remote("http://a", WIRE_VERSION)]),
        stage(6, 12, vec![remote("http://b", 0), local("c")]),
    ]);
    assert!(old.build_route(8).is_none());
}

#[test]
fn each_stage_is_asked_for_what_the_next_can_read() {
    let o = orch(vec![
        stage(0, 4, vec![local("a")]),
        stage(4, 8, vec![remote("http://old", 0)]),
        stage(8, 12, vec![local("c")]),
    ]);
    let ForwardPlan::Staged(tasks) = o.forward_tensor(true, 8) else {
        panic!("a local stage cannot be chained");
    };
    let formats: Vec<bool> = tasks.iter().map(|t| t.accepts_bf16).collect();
    let top: Vec<u32> = tasks.iter().map(|t| t.top_k).collect();
    assert_eq!(formats, vec![false, true, false]);
    assert_eq!(o.consumer_formats(), formats);
    assert_eq!(top, vec![0, 0, 8]);
}

#[test]
fn a_stalled_chain_marks_the_node_at_which_it_stalled() {
    let mut o = orch(vec![
        stage(0, 6, vec![remote("http://a", WIRE_VERSION)]),
        stage(6, 12, vec![remote("http://b", WIRE_VERSION), remote("http://c", WIRE_VERSION)]),
    ]);
    let err = o
        .finish_chained(
            0,
            "http://a",
            ChainOutcome::Failed {
                context: "compute failed".to_string(),
                cause: "compute failed: chain stalled at [http://b]: gone".to_string(),
            },
        )
        .unwrap();
    assert_eq!(route_broken(&err).unwrap().endpoint, "http://b");
    assert!(matches!(err, ForwardError::Broken { context, .. } if context == "compute failed"));
    assert_eq!(o.coverage(), vec![1, 1]);
    let gone =
        ChainOutcome::Failed { context: "gone".to_string(), cause: "gone".to_string() };
    let err = o.finish_chained(0, "http://a", gone).unwrap();
    assert_eq!(route_broken(&err).unwrap().endpoint, "http://a", "else it is the head");
    assert_eq!(o.coverage(), vec![0, 1]);
    assert!(!o.is_servable());
}

#[test]
fn a_chain_that_answered_leaves_its_times() {
    let mut o = orch(vec![
        stage(0, 6, vec![remote("http://a", WIRE_VERSION)]),
        stage(6, 12, vec![remote("http://b", WIRE_VERSION)]),
    ]);
    let none = o.finish_chained(
        0,
        "http://a",
        ChainOutcome::Answered { compute_ms: 40, peer_version: 7, elapsed_ms: 100 },
    );
    assert!(none.is_none());
    assert_eq!((o.last_forward_compute_ms, o.last_forward_network_ms), (40, 60));
    assert_eq!(o.stages[0].replicas[0].protocol_version(), 7);
}

#[test]
fn times_are_added_up_over_the_stages() {
    let mut o = orch(vec![stage(0, 6, vec![local("a")]), stage(6, 12, vec![local("b")])]);
    o.stages[0].last_compute_ms = 5;
    o.stages[0].last_network_ms = 1;
    o.stages[1].last_compute_ms = 7;
    assert!(o.times_fit());
    o.add_up_times();
    assert_eq!((o.last_forward_compute_ms, o.last_forward_network_ms), (12, 1));
    o.stages[1].last_compute_ms = u64::MAX;
    assert!(!o.times_fit());
}

#[test]
fn replicas_say_who_they_are() {
    let mut r = remote("http://a", 3);
    assert_eq!(r.label(), "http://a-label");
    assert_eq!(r.protocol_version(), 3);
    assert!(r.speaks_current_wire());
    r.learn_protocol_version(0);
    assert!(!r.speaks_current_wire());
    r.set_dead();
    assert!(!r.is_alive());
    let l = local("w");
    assert_eq!(l.label(), "w");
    assert_eq!(l.protocol_version(), WIRE_VERSION);
}

// --- routes ---

fn peer(ep: &str, start: u32, end: u32, total: u32) -> Peer {
    Peer {
        node_id: ep.as_bytes().to_vec(),
        daemon_endpoint: ep.to_string(),
        worker_endpoint: "http://w".to_string(),
        model_id: "m".to_string(),
        start_layer: start,
        end_layer: end,
        total_layers: total,
        last_seen_ms: 1,
        signature: Vec::new(),
        kx_public: vec![7; 32],
        reachable: true,
    }
}

fn registry(peers: Vec<Peer>) -> PeerRegistry {
    let mut r = PeerRegistry::new(1000);
    for p in peers {
        r.upsert(p);
    }
    r
}

fn error_of(r: Result<Orchestrator, RouteError>) -> RouteError {
    match r {
        Ok(_) => panic!("there is a route"),
        Err(e) => e,
    }
}

#[test]
fn a_route_goes_through_every_slice() {
    let mut hidden = peer("http://h:9000", 6, 12, 12);
    hidden.reachable = false;
    let mut broken = peer("http://x:9000", 0, 6, 12);
    broken.kx_public = vec![1];
    let reg = registry(vec![peer("http://a:9440", 0, 6, 12), hidden, broken]);
    assert!(can_route(&reg, "m", &Some("http://relay".to_string())));
    let o = build_from_registry("m", &reg, 2, vec!["s".to_string()], Some("http://relay".to_string())).unwrap();
    assert_eq!(o.stages.len(), 2);
    assert_eq!((o.stages[0].start_layer, o.stages[0].end_layer), (0, 6));
    assert_eq!(o.stages[0].replicas.len(), 1, "a key of another length is passed over");
    assert!(matches!(
        &o.stages[0].replicas[0],
        Replica::Remote { compute_endpoint, protocol_version: 0, .. } if compute_endpoint == "http://a:10440"
    ));
    assert!(matches!(
        &o.stages[1].replicas[0],
        Replica::Relayed { relay_endpoint, label, .. }
            if relay_endpoint == "http://relay" && label == "http://h:9000 (relayed)"
    ));
    assert!(o.chain_enabled);
    assert_eq!(o.coverage(), vec![1, 1]);
    assert_eq!(o.spare_endpoints, vec!["s".to_string()]);
}

#[test]
fn a_model_that_cannot_be_routed_says_why() {
    let reg = registry(vec![peer("http://a:1", 0, 6, 64)]);
    let e = error_of(build_from_registry("ghost", &reg, 2, vec![], None));
    assert!(matches!(e, RouteError::NoPeers));
    assert_eq!(e.message("ghost"), "no peers in registry serve model ghost");

    let e = error_of(build_from_registry("m", &reg, 2, vec![], None));
    assert_eq!(
        e.message("m"),
        "model m is incomplete: no peer serves layers 6:64 (of 64 total)"
    );

    let mut hidden = peer("http://a:1", 0, 6, 6);
    hidden.reachable = false;
    let reg = registry(vec![hidden]);
    let e = error_of(build_from_registry("m", &reg, 2, vec![], None));
    assert_eq!(e.message("m"), "no reachable replica for slice 0:6");
}

#[test]
fn the_port_to_compute_at_is_a_thousand_up() {
    assert_eq!(daemon_to_compute_endpoint("http://a:9440"), "http://a:10440");
    assert_eq!(daemon_to_compute_endpoint("http://a"), "http://a");
    assert_eq!(daemon_to_compute_endpoint("http://a:x"), "http://a:x");
    assert_eq!(daemon_to_compute_endpoint("http://a:70000"), "http://a:70000");
    let reg = registry(vec![peer("http://a:65000", 0, 6, 6)]);
    assert!(!can_route(&reg, "m", &None));
    assert!(can_route(&reg, "other", &None));
}

#[test]
fn a_port_is_looked_at_only_where_no_layer_is_missing() {
    let part = registry(vec![peer("http://a:65000", 0, 6, 12)]);
    assert!(can_route(&part, "m", &None));
    let e = error_of(build_from_registry("m", &part, 2, vec![], None));
    assert_eq!(
        e.message("m"),
        "model m is incomplete: no peer serves layers 6:12 (of 12 total)"
    );
}

#[test]
fn a_port_is_looked_at_only_up_to_a_slice_that_nobody_can_be_asked_for() {
    let mut hidden = peer("http://h:9000", 0, 6, 12);
    hidden.reachable = false;
    let reg = registry(vec![hidden, peer("http://b:65000", 6, 12, 12)]);
    assert!(can_route(&reg, "m", &None));
    let e = error_of(build_from_registry("m", &reg, 2, vec![], None));
    assert_eq!(e.message("m"), "no reachable replica for slice 0:6");
    assert!(!can_route(&reg, "m", &Some("http://relay".to_string())));
}

#[test]
fn a_relayed_replica_is_not_told_to_forget() {
    let mut a = local("a");
    a.set_dead();
    let o = orch(vec![
        stage(0, 6, vec![relayed("http://r"), a]),
        stage(6, 12, vec![remote("http://b", 0), relayed("http://s"), local("c")]),
    ]);
    assert_eq!(o.session_holders(), vec![(0, 1), (1, 0), (1, 2)]);
}

// --- answers ---

#[test]
fn an_answer_ends_at_its_token_or_its_length() {
    let mut g = Generation::from_prompt(&[1, 2], 3, Some(9));
    let d = g.feed(5);
    assert!(d.show && !d.finished);
    let d = g.feed(9);
    assert!(!d.show && d.finished);
    assert_eq!(g.ids, vec![1, 2, 5, 9], "the token that ends the answer is kept");

    let mut g = Generation::from_prompt(&[1], 2, None);
    assert!(!g.feed(5).finished);
    assert!(g.feed(9).finished);
    assert_eq!(g.ids, vec![1, 5, 9]);

    let mut g = Generation::from_prompt(&[1], 0, None);
    let d = g.feed(5);
    assert!(d.show && d.finished, "one token is always drawn");
}

#[test]
fn an_answer_to_an_embedded_prompt_keeps_only_what_was_drawn() {
    let mut g = Generation::from_embeddings(5, Some(9));
    g.feed(3);
    let d = g.feed(9);
    assert!(!d.show && d.finished);
    assert_eq!(g.ids, vec![3]);
    let mut g = Generation::from_embeddings(5, Some(9));
    let d = g.feed(9);
    assert!(d.show && d.finished);
    assert_eq!(g.ids, vec![9], "the first token is kept whatever it is");
}
