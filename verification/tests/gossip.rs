use diffuse_daemon::discovery::gossip_targets;
use diffuse_daemon::gossip::{
    absorb, announce, check_reachability, exchange, extract_port, info_to_peer, known_peers,
    merge_authentic, peer_is_authentic, peer_to_info,
};
use diffuse_daemon::identity::Identity;
use diffuse_daemon::registry::{now_ms, Peer, PeerRegistry};

fn signed_peer(key: &Identity, ep: &str, worker: &str, model: &str, start: u32, end: u32) -> Peer {
    announce(key, ep, worker, model, start, end, 0, now_ms(), true)
}

/// One exchange: `asking` sends what it knows to `asked`, and takes in the answer.
fn gossip_with(asked: &mut PeerRegistry, endpoint: &str, asking: &mut PeerRegistry) -> usize {
    let known = known_peers(asking);
    let answer = exchange(asked, &known);
    absorb(asking, &answer, endpoint, now_ms())
}

#[test]
fn two_daemons_converge_via_authenticated_gossip() {
    let mut reg_a = PeerRegistry::new(60_000);
    let mut reg_b = PeerRegistry::new(60_000);

    let key_a1 = Identity::generate();
    let key_a2 = Identity::generate();
    let key_b1 = Identity::generate();
    let key_b2 = Identity::generate();

    reg_a.upsert(signed_peer(&key_a1, "http://127.0.0.1:60001", "http://w1", "m", 0, 12));
    reg_a.upsert(signed_peer(&key_a2, "http://only-a-knows", "http://w2", "m", 0, 12));
    reg_b.upsert(signed_peer(&key_b1, "http://127.0.0.1:60002", "http://w3", "m", 12, 24));
    reg_b.upsert(signed_peer(&key_b2, "http://only-b-knows", "http://w4", "m", 12, 24));

    let accepted = gossip_with(&mut reg_b, "http://127.0.0.1:60002", &mut reg_a);

    assert!(accepted >= 2, "A should accept B's authentic peers");

    let eps = reg_a.live_endpoints();
    assert!(
        eps.iter().any(|e| e == "http://only-b-knows"),
        "A should now know what only B knew"
    );
    assert!(
        eps.iter().any(|e| e == "http://only-a-knows"),
        "A should still know its own peers"
    );
}

#[test]
fn unsigned_peer_is_rejected() {
    let mut reg_a = PeerRegistry::new(60_000);
    let mut reg_b = PeerRegistry::new(60_000);

    let forged = Peer {
        node_id: vec![4, 2, 4, 2],
        daemon_endpoint: "http://malicious".to_string(),
        worker_endpoint: "http://evil-worker".to_string(),
        model_id: "m".to_string(),
        start_layer: 0,
        end_layer: 12,
        total_layers: 0,
        last_seen_ms: now_ms(),
        signature: Vec::new(),
        kx_public: Vec::new(),
        reachable: true,
    };
    reg_b.upsert(forged);

    let accepted = gossip_with(&mut reg_b, "http://127.0.0.1:60012", &mut reg_a);

    assert_eq!(accepted, 0, "no unsigned peer should be accepted");
    assert!(
        !reg_a.live_endpoints().iter().any(|e| e == "http://malicious"),
        "the forged peer must never enter the registry"
    );
}

#[test]
fn tampered_peer_is_rejected() {
    let mut reg_a = PeerRegistry::new(60_000);
    let mut reg_b = PeerRegistry::new(60_000);

    let key = Identity::generate();
    let mut tampered = signed_peer(&key, "http://victim", "http://w", "m", 0, 12);
    tampered.end_layer = 24;
    reg_b.upsert(tampered);

    let accepted = gossip_with(&mut reg_b, "http://127.0.0.1:60013", &mut reg_a);

    assert_eq!(accepted, 0, "a peer whose data was tampered after signing must be rejected");
    assert!(
        !reg_a.live_endpoints().iter().any(|e| e == "http://victim"),
        "the tampered peer must not enter the registry"
    );
}

#[test]
fn three_nodes_fully_discover_via_transitivity() {
    let eps = ["http://127.0.0.1:60101", "http://127.0.0.1:60102", "http://127.0.0.1:60103"];
    let keys = [Identity::generate(), Identity::generate(), Identity::generate()];
    let mut regs: Vec<PeerRegistry> = Vec::new();
    for i in 0..3 {
        let mut r = PeerRegistry::new(600_000);
        let next = (i + 1) % 3;
        r.upsert(signed_peer(&keys[i], eps[i], &format!("{}-w", eps[i]), "m", 0, 12));
        r.upsert(signed_peer(&keys[next], eps[next], &format!("{}-w", eps[next]), "m", 0, 12));
        regs.push(r);
    }
    for _round in 0..3 {
        for i in 0..3 {
            for target in gossip_targets(&regs[i], eps[i], 4) {
                let Some(t) = eps.iter().position(|e| *e == target) else {
                    continue;
                };
                let mut asked = std::mem::replace(&mut regs[t], PeerRegistry::new(1));
                gossip_with(&mut asked, &target, &mut regs[i]);
                regs[t] = asked;
            }
        }
    }
    for (name, reg) in [("node1", &regs[0]), ("node2", &regs[1]), ("node3", &regs[2])] {
        let known = reg.live_endpoints();
        assert!(known.iter().any(|e| e == eps[0]), "{} should know node1", name);
        assert!(known.iter().any(|e| e == eps[1]), "{} should know node2", name);
        assert!(known.iter().any(|e| e == eps[2]), "{} should know node3", name);
    }
}

#[test]
fn an_announcement_is_authentic_until_it_is_changed() {
    let key = Identity::generate();
    let p = announce(&key, "http://d", "http://w", "m", 2, 5, 9, 77, false);
    assert!(peer_is_authentic(&p));
    assert_eq!(p.node_id, key.signing_public().to_vec());
    assert_eq!(p.kx_public, key.kx_public().to_vec());
    assert_eq!((p.start_layer, p.end_layer, p.total_layers), (2, 5, 9));
    assert_eq!((p.last_seen_ms, p.reachable), (77, false));
    let mut other = p.clone();
    other.kx_public = vec![0; 32];
    assert!(!peer_is_authentic(&other), "the key to exchange secrets with is signed");
    let mut other = p.clone();
    other.last_seen_ms = 78;
    assert!(peer_is_authentic(&other), "the time is not");
}

#[test]
fn what_goes_over_the_wire_comes_back() {
    let key = Identity::generate();
    let p = announce(&key, "http://d", "http://w", "m", 2, 5, 9, 77, true);
    let back = info_to_peer(&peer_to_info(&p));
    assert_eq!(back.node_id, p.node_id);
    assert_eq!(back.signature, p.signature);
    assert_eq!(back.signable_bytes(), p.signable_bytes());
    assert_eq!(back.total_layers, 9);
    assert!(back.reachable);
}

#[test]
fn only_the_authentic_are_counted() {
    let mut reg = PeerRegistry::new(60_000);
    let key = Identity::generate();
    let good = signed_peer(&key, "http://good", "http://w", "m", 0, 1);
    let mut bad = signed_peer(&Identity::generate(), "http://bad", "http://w", "m", 0, 1);
    bad.model_id = "other".to_string();
    assert_eq!(merge_authentic(&mut reg, vec![bad, good]), 1);
    assert_eq!(reg.live_endpoints(), vec!["http://good".to_string()]);
}

#[test]
fn a_round_leaves_out_the_node_and_keeps_to_its_fanout() {
    let mut reg = PeerRegistry::new(60_000);
    for e in ["http://c", "http://a", "http://b", "http://d"] {
        reg.upsert(signed_peer(&Identity::generate(), e, "http://w", "m", 0, 1));
    }
    assert_eq!(gossip_targets(&reg, "http://b", 2), vec!["http://a", "http://c"]);
    assert_eq!(gossip_targets(&reg, "http://b", 0), Vec::<String>::new());
}

#[test]
fn a_node_is_knocked_at_where_it_came_from() {
    assert_eq!(
        check_reachability("1.2.3.4", false, "http://0.0.0.0:10440"),
        Some("1.2.3.4:10440".to_string())
    );
    assert_eq!(
        check_reachability("::1", true, "http://0.0.0.0:10440"),
        Some("[::1]:10440".to_string())
    );
    assert_eq!(check_reachability("1.2.3.4", false, "http://nowhere"), None);
    assert_eq!(check_reachability("1.2.3.4", false, "http://x:0"), None);
    assert_eq!(check_reachability("1.2.3.4", false, "http://x:70000"), None);
}

#[test]
fn a_port_is_what_stands_behind_the_last_colon() {
    assert_eq!(extract_port("http://1.2.3.4:9440"), Some(9440));
    assert_eq!(extract_port("1.2.3.4:80"), Some(80));
    assert_eq!(extract_port("http://1.2.3.4"), None);
    assert_eq!(extract_port("x:+7"), Some(7));
    assert_eq!(extract_port("x:-7"), None);
    assert_eq!(extract_port("x:65536"), None);
}
