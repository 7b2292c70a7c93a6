use diffuse_daemon::commands::{
    answering, attachment_line, count_of, incomplete_model_message, model_to_query,
    not_ready_message, written_message, Answering, Attachment,
};
use diffuse_daemon::capacity::{ModelCapacity, SliceCoverage};
use diffuse_daemon::client_flow::halves;
use diffuse_daemon::config::{resolve_sentinels, DEFAULT_SENTINELS};
use diffuse_daemon::hosting::{
    advertised_ip, host_part, join, presume, probes, relay_sentinel, worker_port, Probe,
    Reachability,
};
use diffuse_daemon::identity::Identity;
use diffuse_daemon::worker::{
    gives_up, has_scheme, is_healthy, no_scheme_message, unreachable_message, venv_python, worker_answer,
};

fn texts(v: &[&str]) -> Vec<String> {
    v.iter().map(|s| s.to_string()).collect()
}

#[test]
fn the_port_of_the_worker() {
    assert_eq!(worker_port("http://127.0.0.1:50051"), 50051);
    assert_eq!(worker_port("http://127.0.0.1:7"), 7);
    assert_eq!(worker_port("http://127.0.0.1"), 50051);
    assert_eq!(worker_port("x:99999"), 50051);
    assert_eq!(host_part("1.2.3.4:9"), "1.2.3.4");
    assert_eq!(host_part("host"), "host");
    assert_eq!(host_part(":9"), "");
}

#[test]
fn a_node_presumes_where_it_listens() {
    let p = presume(&None, "0.0.0.0:9440", 9440);
    assert_eq!(p.ip, "0.0.0.0");
    assert_eq!(p.compute_endpoint, "http://0.0.0.0:10440");
    assert_eq!(p.daemon_endpoint, "http://0.0.0.0:9440");
    let p = presume(&Some("me.example:1".to_string()), "0.0.0.0:9440", 9440);
    assert_eq!(p.ip, "me.example");
    assert_eq!(p.daemon_endpoint, "http://me.example:1");
}

#[test]
fn the_first_sentinel_that_knocks_settles_it() {
    let mut r = Reachability::begin(3);
    assert!(!r.reachable);
    r.learn(Probe { ok: false, seen: None });
    r.learn(Probe { ok: false, seen: Some("5.5.5.5".to_string()) });
    r.learn(Probe { ok: true, seen: Some("6.6.6.6".to_string()) });
    assert!(r.reachable);
    assert_eq!(r.observed_ip, Some("5.5.5.5".to_string()), "the first address that was told stays");
    assert!(Reachability::begin(0).reachable, "with none to ask a node takes itself as reachable");
}

#[test]
fn a_node_tells_the_address_that_it_was_given_or_seen_at() {
    let seen = Some("5.5.5.5".to_string());
    assert_eq!(advertised_ip(&Some("a.b:9".to_string()), &seen, "0.0.0.0"), "a.b");
    assert_eq!(advertised_ip(&None, &seen, "0.0.0.0"), "5.5.5.5");
    assert_eq!(advertised_ip(&None, &None, "0.0.0.0"), "0.0.0.0");
}

#[test]
fn a_node_that_cannot_be_reached_relays_through_another() {
    let sentinels = texts(&["http://5.5.5.5:9440", "http://other:9440"]);
    let seen = Reachability { reachable: false, observed_ip: Some("5.5.5.5".to_string()) };
    let j = join(&None, &seen, "0.0.0.0", 9440, &sentinels);
    assert_eq!(j.daemon_endpoint, "http://5.5.5.5:9440");
    assert_eq!(j.compute_endpoint, "http://5.5.5.5:10440");
    assert_eq!(j.relay, Some("http://other:9440".to_string()));
    let seen = Reachability { reachable: true, observed_ip: None };
    let j = join(&None, &seen, "1.1.1.1", 9440, &sentinels);
    assert!(j.reachable && j.relay.is_none());
    assert_eq!(probes(&sentinels, "http://other:9440"), texts(&["http://5.5.5.5:9440"]));
    assert_eq!(relay_sentinel(&texts(&["a"]), "a"), None);
}

#[test]
fn sentinels_that_are_named_replace_the_known_ones() {
    assert_eq!(resolve_sentinels(&vec![]), texts(&["http://204.168.151.107:9440"]));
    assert_eq!(DEFAULT_SENTINELS.len(), 1);
    assert_eq!(resolve_sentinels(&texts(&["x", "y"])), texts(&["x", "y"]));
}

fn cap(id: &str, slices: Vec<(u32, u32)>, total: u32, servable: bool) -> ModelCapacity {
    ModelCapacity {
        model_id: id.to_string(),
        total_layers: total,
        slices: slices
            .into_iter()
            .map(|(a, b)| SliceCoverage { start_layer: a, end_layer: b, replicas: 1 })
            .collect(),
        servable,
        min_replicas: 1,
        weakest_slice: None,
    }
}

#[test]
fn an_incomplete_model_is_said_to_be_one() {
    assert_eq!(
        incomplete_model_message(&cap("m", vec![(2, 4), (6, 8)], 10, false)),
        "model m is incomplete: no peer serves layers 0:2, 4:6, 8:10 (of 10 total). Waiting for those slices to come online, or host one yourself with `diffuse join`."
    );
    assert_eq!(
        incomplete_model_message(&cap("m", vec![(0, 4)], 4, false)),
        "model m is present but not fully servable"
    );
}

#[test]
fn a_model_is_asked_only_where_it_can_answer() {
    let caps = vec![cap("a", vec![(0, 4)], 4, true), cap("b", vec![(0, 2)], 4, false)];
    assert_eq!(model_to_query(&caps, "a"), Ok(0));
    assert_eq!(model_to_query(&caps, "c"), Err("model c not found on the network".to_string()));
    assert!(model_to_query(&caps, "b").unwrap_err().contains("2:4"));
}

#[test]
fn how_a_query_is_answered() {
    assert_eq!(answering(true, true, "audio", false, 0), Answering::Diffusion);
    assert_eq!(answering(false, true, "audio", false, 0), Answering::Generative);
    assert_eq!(answering(false, true, "text", false, 0), Answering::Tokens);
    assert_eq!(answering(false, false, "", false, 2), Answering::Embeddings);
}

#[test]
fn what_is_said_along_the_way() {
    assert_eq!(written_message(2048, "image/png", "/x.png"), "2.0 KB of image/png written to /x.png");
    assert_eq!(count_of(1, "hop", "hops"), "1 hop");
    assert_eq!(count_of(0, "hop", "hops"), "0 hops");
    assert!(not_ready_message("worker", "gone").ends_with("Underlying error: gone"));
    let item = Attachment {
        kind: "image".to_string(),
        data: vec![0; 1536],
        mime: String::new(),
        label: "cat.png".to_string(),
    };
    assert_eq!(attachment_line(&item), "cat.png · 1.5 KB");
    assert_eq!(halves(25), ((0, 12), (12, 25)));
}

#[test]
fn what_the_worker_says() {
    assert_eq!(worker_answer(true, "profile", "x"), Ok(()));
    assert_eq!(worker_answer(false, "profile", "x"), Err("profile failed: x".to_string()));
    assert!(is_healthy(true, true));
    assert!(!is_healthy(true, false));
    assert!(gives_up(1000, 1000) && gives_up(1001, 1000) && !gives_up(999, 1000));
    assert!(has_scheme("https://x") && has_scheme("http://x") && !has_scheme("x:1"));
    assert_eq!(
        no_scheme_message("x:1"),
        "the worker address x:1 has no scheme; write it as http://x:1"
    );
    let msg = unreachable_message("http://127.0.0.1:59677", 1, "refused");
    assert!(msg.contains("59677"), "message names the port: {}", msg);
    assert!(
        msg.contains("could not reach the inference worker"),
        "message names the worker as the cause: {}",
        msg
    );
    assert_eq!(venv_python(false), texts(&[".venv", "bin", "python"]));
    assert_eq!(venv_python(true), texts(&[".venv", "Scripts", "python.exe"]));
}

#[test]
fn an_identity_is_its_keys() {
    let secret: [u8; 32] = [
        0x9d, 0x61, 0xb1, 0x9d, 0xef, 0xfd, 0x5a, 0x60, 0xba, 0x84, 0x4a, 0xf4, 0x92, 0xec, 0x2c,
        0xc4, 0x44, 0x49, 0xc5, 0x69, 0x7b, 0x32, 0x69, 0x19, 0x70, 0x3b, 0xac, 0x03, 0x1c, 0xae,
        0x7f, 0x60,
    ];
    let id = Identity::from_secrets(&secret, [4; 32]);
    assert_eq!(
        id.public_hex(),
        "d75a980182b10ab7d54bfed3c964073a0ee172f3daa62325af021a68f707511a"
    );
    assert_eq!(id.short_id(), "d75a980182b10ab7");
    assert_eq!(id.kx_public(), Identity::from_secrets(&[1; 32], [4; 32]).kx_public());
    assert_ne!(Identity::generate().signing_public(), Identity::generate().signing_public());
}
