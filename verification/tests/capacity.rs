use diffuse_daemon::capacity::{
    analyze, assign_slice, first_coverage_gap, first_coverage_gap_with_total, is_fully_covered,
    recommend_placement, Placement, SliceCoverage,
};
use diffuse_daemon::registry::{now_ms, Peer, PeerRegistry};

fn peer(model: &str, ep: &str, start: u32, end: u32) -> Peer {
    peer_with_total(model, ep, start, end, 0)
}

fn peer_with_total(model: &str, ep: &str, start: u32, end: u32, total: u32) -> Peer {
    Peer {
        node_id: ep.as_bytes().to_vec(),
        daemon_endpoint: ep.to_string(),
        worker_endpoint: format!("{}-w", ep),
        model_id: model.to_string(),
        start_layer: start,
        end_layer: end,
        total_layers: total,
        last_seen_ms: now_ms(),
        signature: Vec::new(),
        kx_public: Vec::new(),
        reachable: true,
    }
}

#[test]
fn robust_model_is_servable_and_robust() {
    let mut r = PeerRegistry::new(600_000);
    r.upsert(peer("big", "http://a1", 0, 12));
    r.upsert(peer("big", "http://a2", 0, 12));
    r.upsert(peer("big", "http://b1", 12, 24));
    r.upsert(peer("big", "http://b2", 12, 24));

    let caps = analyze(&r);
    let big = caps.iter().find(|c| c.model_id == "big").unwrap();

    assert!(big.servable, "big should be servable");
    assert_eq!(big.total_layers, 24);
    assert_eq!(big.min_replicas, 2);
    assert!(big.is_robust(2), "big should be robust at k=2");
    assert!(big.missing_slices().is_empty());
}

#[test]
fn model_with_missing_slice_is_not_servable() {
    let mut r = PeerRegistry::new(600_000);
    r.upsert(peer("broken", "http://a1", 0, 12));
    r.upsert(peer("broken", "http://a2", 0, 12));
    r.upsert(peer("broken", "http://c1", 24, 36));

    let caps = analyze(&r);
    let broken = caps.iter().find(|c| c.model_id == "broken").unwrap();

    assert_eq!(broken.total_layers, 36);
    assert!(!broken.servable, "broken has a gap at 12:24, not servable");
}

#[test]
fn partial_model_reports_true_total_and_is_incomplete() {
    let mut r = PeerRegistry::new(600_000);
    r.upsert(peer_with_total("big", "http://a1", 0, 6, 64));

    let caps = analyze(&r);
    let cap = caps.iter().find(|c| c.model_id == "big").unwrap();

    assert_eq!(cap.total_layers, 64, "total comes from the worker, not end_layer");
    assert!(!cap.servable, "0:6 of a 64-layer model is not servable");
    assert_eq!(
        cap.coverage_gaps(),
        vec![(6, 64)],
        "everything past layer 6 is missing"
    );
}

#[test]
fn falls_back_to_end_layer_when_total_is_unknown() {
    let mut r = PeerRegistry::new(600_000);
    r.upsert(peer("legacy", "http://a1", 0, 12));
    r.upsert(peer("legacy", "http://b1", 12, 24));

    let caps = analyze(&r);
    let cap = caps.iter().find(|c| c.model_id == "legacy").unwrap();

    assert_eq!(cap.total_layers, 24, "inferred from the highest end_layer");
    assert!(cap.servable, "fully covered under the inferred total");
    assert!(cap.coverage_gaps().is_empty());
}

#[test]
fn coverage_gaps_reports_interior_holes() {
    let mut r = PeerRegistry::new(600_000);
    r.upsert(peer_with_total("swiss", "http://a1", 0, 12, 36));
    r.upsert(peer_with_total("swiss", "http://c1", 24, 36, 36));

    let caps = analyze(&r);
    let cap = caps.iter().find(|c| c.model_id == "swiss").unwrap();

    assert_eq!(cap.total_layers, 36);
    assert!(!cap.servable);
    assert_eq!(cap.coverage_gaps(), vec![(12, 24)]);
}

#[test]
fn fragile_model_is_servable_but_not_robust() {
    let mut r = PeerRegistry::new(600_000);
    r.upsert(peer("fragile", "http://a1", 0, 12));
    r.upsert(peer("fragile", "http://a2", 0, 12));
    r.upsert(peer("fragile", "http://b1", 12, 24));

    let caps = analyze(&r);
    let f = caps.iter().find(|c| c.model_id == "fragile").unwrap();

    assert!(f.servable, "fragile is fully covered, so servable");
    assert_eq!(f.min_replicas, 1, "weakest slice has 1 replica");
    assert!(!f.is_robust(2), "not robust at k=2");
    assert_eq!(f.weakest_slice, Some((12, 24)), "12:24 is the weak point");
}

fn slice(start_layer: u32, end_layer: u32, replicas: usize) -> SliceCoverage {
    SliceCoverage { start_layer, end_layer, replicas }
}

#[test]
fn overlapping_slices_leave_no_gap() {
    let mut r = PeerRegistry::new(600_000);
    r.upsert(peer_with_total("m", "http://a", 0, 20, 32));
    r.upsert(peer_with_total("m", "http://b", 10, 32, 32));
    let caps = analyze(&r);
    assert!(caps[0].servable);
    assert!(caps[0].coverage_gaps().is_empty());
    assert_eq!(first_coverage_gap(&caps[0]), None);
}

#[test]
fn a_gap_is_where_no_slice_that_is_held_reaches() {
    let slices = vec![slice(0, 4, 1), slice(4, 8, 0), slice(8, 12, 1)];
    assert!(!is_fully_covered(&slices, 12));
    assert!(is_fully_covered(&slices, 4));
    assert!(is_fully_covered(&[slice(0, 12, 1)], 12));
    assert!(!is_fully_covered(&[slice(0, 12, 1)], 13));
}

#[test]
fn the_first_gap_depends_on_the_depth() {
    let mut r = PeerRegistry::new(600_000);
    r.upsert(peer_with_total("m", "http://a", 0, 6, 6));
    let caps = analyze(&r);
    assert_eq!(first_coverage_gap(&caps[0]), None);
    assert_eq!(first_coverage_gap_with_total(&caps[0], 10), Some((6, 10)));
}

#[test]
fn a_slice_behind_the_model_ends_no_hole_of_it() {
    let mut r = PeerRegistry::new(600_000);
    r.upsert(peer_with_total("m", "http://a", 0, 4, 10));
    r.upsert(peer_with_total("m", "http://stray", 12, 14, 0));
    let caps = analyze(&r);
    assert_eq!(caps[0].total_layers, 10);
    assert_eq!(caps[0].coverage_gaps(), vec![(4, 10)], "a hole lies in the model");
    assert_eq!(first_coverage_gap(&caps[0]), Some((4, 12)), "the next held slice begins at 12");
    assert_eq!(recommend_placement(&caps, "m", 2), Placement::FillMissing { start: 4, end: 12 });
    let a = assign_slice(&caps, "m", 10, 8, 2).unwrap();
    assert_eq!((a.start, a.end), (4, 12));
    assert_eq!(a.reason, "fill coverage gap 4:12");
    let a = assign_slice(&caps, "m", 10, 3, 2).unwrap();
    assert_eq!((a.start, a.end), (4, 7));
}

#[test]
fn models_and_slices_come_in_order() {
    let mut r = PeerRegistry::new(600_000);
    r.upsert(peer("zeta", "http://z", 0, 4));
    r.upsert(peer("alpha", "http://a2", 4, 8));
    r.upsert(peer("alpha", "http://a1", 0, 4));
    let caps = analyze(&r);
    let ids: Vec<&str> = caps.iter().map(|c| c.model_id.as_str()).collect();
    assert_eq!(ids, vec!["alpha", "zeta"]);
    let ranges: Vec<(u32, u32)> =
        caps[0].slices.iter().map(|s| (s.start_layer, s.end_layer)).collect();
    assert_eq!(ranges, vec![(0, 4), (4, 8)]);
}

#[test]
fn no_peers_make_no_models() {
    assert!(analyze(&PeerRegistry::new(1)).is_empty());
}
