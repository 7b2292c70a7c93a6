use diffuse_daemon::registry::{now_ms, Peer, PeerRegistry};

fn announced(node_id: u8, endpoint: &str, model: &str, last_seen_ms: u64) -> Peer {
    Peer {
        node_id: vec![node_id; 32],
        daemon_endpoint: endpoint.to_string(),
        worker_endpoint: "http://127.0.0.1:50051".to_string(),
        model_id: model.to_string(),
        start_layer: 0,
        end_layer: 24,
        total_layers: 0,
        last_seen_ms,
        signature: vec![1, 2, 3],
        kx_public: vec![9; 32],
        reachable: true,
    }
}

#[test]
fn two_nodes_sharing_an_endpoint_stay_distinct() {
    let mut reg = PeerRegistry::new(60_000);
    reg.upsert(announced(1, "http://0.0.0.0:9440", "model-a", now_ms()));
    reg.upsert(announced(2, "http://0.0.0.0:9440", "model-b", now_ms()));
    assert_eq!(reg.len(), 2);
    let models: Vec<String> = reg.all().into_iter().map(|p| p.model_id).collect();
    assert!(models.contains(&"model-a".to_string()));
    assert!(models.contains(&"model-b".to_string()));
}

#[test]
fn same_node_reannouncing_updates_in_place() {
    let mut reg = PeerRegistry::new(60_000);
    let t0 = now_ms();
    reg.upsert(announced(1, "http://1.2.3.4:9440", "model-a", t0));
    reg.upsert(announced(1, "http://1.2.3.4:9440", "model-a", t0 + 5_000));
    assert_eq!(reg.len(), 1);
    assert_eq!(reg.all()[0].last_seen_ms, t0 + 5_000);
}

#[test]
fn a_stale_record_does_not_rejuvenate_a_fresh_peer() {
    let mut reg = PeerRegistry::new(60_000);
    let t0 = now_ms();
    reg.upsert(announced(1, "http://1.2.3.4:9440", "model-a", t0));
    reg.upsert(announced(1, "http://1.2.3.4:9440", "model-a", t0 - 30_000));
    assert_eq!(reg.all()[0].last_seen_ms, t0);
}

#[test]
fn expired_peers_are_pruned() {
    let mut reg = PeerRegistry::new(60_000);
    reg.upsert(announced(1, "http://1.2.3.4:9440", "model-a", now_ms()));
    reg.upsert(announced(2, "http://5.6.7.8:9440", "model-b", now_ms() - 120_000));
    assert_eq!(reg.len(), 2);
    let removed = reg.prune();
    assert_eq!(removed, 1);
    assert_eq!(reg.len(), 1);
    assert_eq!(reg.all()[0].model_id, "model-a");
}

#[test]
fn a_departed_node_is_not_kept_alive_by_gossip_echo() {
    let mut reg = PeerRegistry::new(60_000);
    let departed = announced(1, "http://1.2.3.4:9440", "model-a", now_ms() - 120_000);
    reg.upsert(departed.clone());
    reg.merge(vec![departed.clone(), departed]);
    assert_eq!(reg.prune(), 1);
    assert!(reg.is_empty());
}

#[test]
fn peers_without_a_node_id_are_rejected() {
    let mut reg = PeerRegistry::new(60_000);
    let mut anonymous = announced(1, "http://1.2.3.4:9440", "model-a", now_ms());
    anonymous.node_id = Vec::new();
    reg.upsert(anonymous);
    assert!(reg.is_empty());
}

#[test]
fn replicas_are_selected_by_model_and_slice() {
    let mut reg = PeerRegistry::new(60_000);
    reg.upsert(announced(1, "http://1.1.1.1:9440", "model-a", now_ms()));
    reg.upsert(announced(2, "http://2.2.2.2:9440", "model-a", now_ms()));
    reg.upsert(announced(3, "http://3.3.3.3:9440", "model-b", now_ms()));
    assert_eq!(reg.replicas_for_slice("model-a", 0, 24).len(), 2);
    assert_eq!(reg.replicas_for_slice("model-b", 0, 24).len(), 1);
    assert_eq!(reg.replicas_for_slice("model-a", 0, 32).len(), 0);
}

#[test]
fn live_endpoints_are_deduplicated() {
    let mut reg = PeerRegistry::new(60_000);
    reg.upsert(announced(1, "http://0.0.0.0:9440", "model-a", now_ms()));
    reg.upsert(announced(2, "http://0.0.0.0:9440", "model-b", now_ms()));
    reg.upsert(announced(3, "http://9.9.9.9:9440", "model-c", now_ms()));
    assert_eq!(reg.live_endpoints().len(), 2);
}

fn peer(endpoint: &str, last_seen_ms: u64) -> Peer {
    Peer {
        node_id: endpoint.as_bytes().to_vec(),
        daemon_endpoint: endpoint.to_string(),
        worker_endpoint: format!("{}-worker", endpoint),
        model_id: "test-model".to_string(),
        start_layer: 0,
        end_layer: 12,
        total_layers: 0,
        last_seen_ms,
        signature: Vec::new(),
        kx_public: Vec::new(),
        reachable: true,
    }
}

#[test]
fn merge_combines_two_views() {
    let mut a = PeerRegistry::new(60_000);
    a.upsert(peer("http://node1", now_ms()));
    a.upsert(peer("http://node2", now_ms()));

    let incoming = vec![peer("http://node2", now_ms()), peer("http://node3", now_ms())];
    a.merge(incoming);

    assert_eq!(a.len(), 3, "should know node1, node2, node3 after merge");
}

#[test]
fn upsert_keeps_most_recent() {
    let mut r = PeerRegistry::new(60_000);
    r.upsert(peer("http://node1", 1000));
    r.upsert(peer("http://node1", 5000));

    let peers = r.all();
    assert_eq!(peers.len(), 1);
    assert_eq!(peers[0].last_seen_ms, 5000, "should keep the newer timestamp");
}

#[test]
fn prune_removes_stale_peers() {
    let mut r = PeerRegistry::new(10_000);
    let fresh = now_ms();
    let old = now_ms().saturating_sub(20_000);

    r.upsert(peer("http://fresh", fresh));
    r.upsert(peer("http://old", old));
    assert_eq!(r.len(), 2);

    let removed = r.prune();
    assert_eq!(removed, 1, "one stale peer should be pruned");
    assert_eq!(r.len(), 1);
    assert_eq!(r.live_endpoints(), vec!["http://fresh".to_string()]);
}

#[test]
fn replicas_for_slice_filters_correctly() {
    let mut r = PeerRegistry::new(60_000);

    let mut p_a1 = peer("http://a1", now_ms());
    p_a1.start_layer = 0;
    p_a1.end_layer = 12;
    r.upsert(p_a1);

    let mut p_a2 = peer("http://a2", now_ms());
    p_a2.start_layer = 0;
    p_a2.end_layer = 12;
    r.upsert(p_a2);

    let mut p_b1 = peer("http://b1", now_ms());
    p_b1.start_layer = 12;
    p_b1.end_layer = 24;
    r.upsert(p_b1);

    let stage_a = r.replicas_for_slice("test-model", 0, 12);
    assert_eq!(stage_a.len(), 2, "two replicas hold slice 0:12");

    let stage_b = r.replicas_for_slice("test-model", 12, 24);
    assert_eq!(stage_b.len(), 1, "one replica holds slice 12:24");

    let none = r.replicas_for_slice("other-model", 0, 12);
    assert_eq!(none.len(), 0, "no replica for a different model");
}

#[test]
fn nodes_that_share_an_id_count_as_one() {
    let mut r = PeerRegistry::new(60_000);
    let mut first = peer("http://a", 10);
    first.node_id = vec![1];
    let mut second = peer("http://b", 20);
    second.node_id = vec![1];
    r.upsert(first);
    r.upsert(second);
    assert_eq!(r.len(), 1);
    assert_eq!(r.all()[0].daemon_endpoint, "http://b");
}

#[test]
fn of_two_announcements_of_one_time_the_later_stays() {
    let mut r = PeerRegistry::new(60_000);
    let first = peer("http://a", 10);
    let mut second = peer("http://a", 10);
    second.model_id = "another".to_string();
    r.upsert(first);
    r.upsert(second);
    assert_eq!(r.all()[0].model_id, "another");
}

#[test]
fn an_announcement_merged_twice_changes_nothing_more() {
    let mut r = PeerRegistry::new(60_000);
    r.merge(vec![peer("http://a", 10), peer("http://b", 20)]);
    let once: Vec<u64> = r.all().iter().map(|p| p.last_seen_ms).collect();
    r.merge(vec![peer("http://a", 10), peer("http://b", 20)]);
    let twice: Vec<u64> = r.all().iter().map(|p| p.last_seen_ms).collect();
    assert_eq!(once, twice);
    assert_eq!(r.len(), 2);
}

#[test]
fn touching_sets_the_time_of_the_right_peers() {
    let mut r = PeerRegistry::new(60_000);
    r.upsert(peer("http://a", 10));
    r.upsert(peer("http://b", 20));
    r.touch_endpoint_at("http://a", 99);
    let at = |r: &PeerRegistry, e: &str| {
        r.all().iter().find(|p| p.daemon_endpoint == e).map(|p| p.last_seen_ms)
    };
    assert_eq!(at(&r, "http://a"), Some(99));
    assert_eq!(at(&r, "http://b"), Some(20));
    r.touch_node_at(b"http://b", 77);
    assert_eq!(at(&r, "http://b"), Some(77));
    r.touch_endpoint("http://nobody");
    r.touch_node(b"nobody");
    assert_eq!(at(&r, "http://a"), Some(99));
    assert_eq!(at(&r, "http://b"), Some(77));
}

#[test]
fn a_peer_is_pruned_only_once_it_is_older_than_the_patience() {
    let mut r = PeerRegistry::new(100);
    r.upsert(peer("http://edge", 900));
    assert_eq!(r.prune_at(1000), 0);
    assert_eq!(r.prune_at(1001), 1);
    assert!(r.is_empty());

    r.upsert(peer("http://early", 0));
    assert_eq!(r.prune_at(50), 0, "the patience reaches back before the start of time");
}

#[test]
fn a_removed_node_is_gone() {
    let mut r = PeerRegistry::new(60_000);
    r.upsert(peer("http://a", 10));
    r.upsert(peer("http://b", 10));
    assert!(r.remove_node(b"http://a"));
    assert!(!r.remove_node(b"http://a"));
    assert_eq!(r.live_endpoints(), vec!["http://b".to_string()]);
}

#[test]
fn endpoints_come_in_ascending_order() {
    let mut r = PeerRegistry::new(60_000);
    for e in ["http://c", "http://a", "http://b", "http://aa"] {
        r.upsert(peer(e, 10));
    }
    assert_eq!(r.live_endpoints(), vec!["http://a", "http://aa", "http://b", "http://c"]);
}

#[test]
fn the_signed_bytes_are_what_is_announced() {
    let mut p = peer("http://n", 7);
    p.node_id = vec![1, 2];
    p.kx_public = vec![9];
    let bytes = p.signable_bytes();
    let mut other = p.clone();
    other.last_seen_ms = 8;
    other.reachable = false;
    assert_eq!(other.signable_bytes(), bytes, "the time and the reachability are not signed");
    other.end_layer = 13;
    assert_ne!(other.signable_bytes(), bytes, "the layers are");
    assert!(bytes.windows(8).any(|w| w == b"http://n"));
}
