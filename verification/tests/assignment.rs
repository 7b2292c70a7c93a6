use diffuse_daemon::capacity::{analyze, assign_slice, can_assign, ModelCapacity, SliceCoverage};
use diffuse_daemon::registry::{now_ms, Peer, PeerRegistry};

fn peer(model: &str, ep: &str, start: u32, end: u32) -> Peer {
    Peer {
        node_id: vec![1],
        daemon_endpoint: ep.to_string(),
        worker_endpoint: format!("{}-w", ep),
        model_id: model.to_string(),
        start_layer: start,
        end_layer: end,
        total_layers: 0,
        last_seen_ms: now_ms(),
        signature: Vec::new(),
        kx_public: Vec::new(),
        reachable: true,
    }
}

#[test]
fn absent_model_bootstraps_from_start_bounded_by_capacity() {
    let r = PeerRegistry::new(600_000);
    let caps = analyze(&r);
    // A weak machine (can hold 3 layers) is first to host a 60-layer model.
    let a = assign_slice(&caps, "deepseek", 60, 3, 2).unwrap();
    assert_eq!(a.start, 0);
    assert_eq!(a.end, 3, "weak machine takes only what it can hold");
}

#[test]
fn weak_machine_fills_part_of_a_gap() {
    let mut r = PeerRegistry::new(600_000);
    // Model of 60 layers, only 0:20 is covered. Gap is 20:60.
    r.upsert(peer("deepseek", "http://a", 0, 20));
    let caps = analyze(&r);

    // Weak machine can hold 5 layers -> takes 20:25 (part of the gap).
    let a = assign_slice(&caps, "deepseek", 60, 5, 2).unwrap();
    assert_eq!(a.start, 20);
    assert_eq!(a.end, 25, "takes a 5-layer bite of the gap");
}

#[test]
fn strong_machine_fills_whole_gap() {
    let mut r = PeerRegistry::new(600_000);
    // 60-layer model, 0:50 covered, gap 50:60 (10 layers).
    r.upsert(peer("deepseek", "http://a", 0, 50));
    let caps = analyze(&r);

    // Strong machine can hold 40 layers -> fills the whole 10-layer gap.
    let a = assign_slice(&caps, "deepseek", 60, 40, 2).unwrap();
    assert_eq!(a.start, 50);
    assert_eq!(a.end, 60, "strong machine fills the entire remaining gap");
}

#[test]
fn zero_capacity_gets_no_assignment() {
    let r = PeerRegistry::new(600_000);
    let caps = analyze(&r);
    // A machine that cannot hold even one layer of this model.
    assert!(assign_slice(&caps, "deepseek", 60, 0, 2).is_none());
}

fn held(slices: Vec<(u32, u32, usize)>, total: u32) -> Vec<ModelCapacity> {
    let slices: Vec<SliceCoverage> = slices
        .into_iter()
        .map(|(start_layer, end_layer, replicas)| SliceCoverage { start_layer, end_layer, replicas })
        .collect();
    vec![ModelCapacity {
        model_id: "m".to_string(),
        total_layers: total,
        slices,
        servable: true,
        min_replicas: 1,
        weakest_slice: None,
    }]
}

#[test]
fn a_model_without_layers_is_not_assigned() {
    assert!(assign_slice(&[], "m", 0, 8, 2).is_none());
}

#[test]
fn a_fragile_slice_is_reinforced_by_a_machine_that_can_hold_it() {
    let caps = held(vec![(0, 12, 2), (12, 24, 1)], 24);
    assert!(can_assign(&caps, "m", 24));
    let a = assign_slice(&caps, "m", 24, 12, 2).unwrap();
    assert_eq!((a.start, a.end), (12, 24));
    assert_eq!(a.reason, "reinforce fragile slice 12:24 (1 replica)");
    assert!(assign_slice(&caps, "m", 24, 11, 2).is_none(), "a slice is not cut to reinforce it");
}

#[test]
fn where_nothing_is_fragile_redundancy_is_added() {
    let caps = held(vec![(0, 12, 2), (12, 24, 2)], 24);
    let a = assign_slice(&caps, "m", 24, 24, 2).unwrap();
    assert_eq!((a.start, a.end), (0, 12));
    assert_eq!(a.reason, "add redundancy");
}

#[test]
fn the_reasons_say_what_was_missing() {
    let a = assign_slice(&[], "m", 8, 100, 2).unwrap();
    assert_eq!((a.start, a.end), (0, 8));
    assert_eq!(a.reason, "bootstrap: first holder of this model");
    let caps = held(vec![(0, 4, 1), (6, 8, 1)], 8);
    let a = assign_slice(&caps, "m", 8, 100, 2).unwrap();
    assert_eq!((a.start, a.end), (4, 6));
    assert_eq!(a.reason, "fill coverage gap 4:6");
}

#[test]
fn a_slice_that_ends_before_it_begins_is_found_out() {
    let caps = held(vec![(9, 3, 1), (0, 8, 2)], 8);
    assert!(!can_assign(&caps, "m", 8));
    assert!(can_assign(&caps, "other", 8));
}
