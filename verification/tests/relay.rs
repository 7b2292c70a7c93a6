use diffuse_daemon::registry::{Peer, PeerRegistry};
use diffuse_daemon::relay::{
    hex_short, new_request_id, not_attached_message, request_id_at, AttachError, RelayState,
    REGISTER_MARKER,
};

fn peer(node: &[u8]) -> Peer {
    Peer {
        node_id: node.to_vec(),
        daemon_endpoint: "http://n".to_string(),
        worker_endpoint: "http://w".to_string(),
        model_id: "m".to_string(),
        start_layer: 0,
        end_layer: 1,
        total_layers: 1,
        last_seen_ms: 1,
        signature: Vec::new(),
        kx_public: Vec::new(),
        reachable: false,
    }
}

#[test]
fn the_first_message_must_be_a_registration() {
    let mut relay = RelayState::new();
    assert_eq!(relay.attach("hello", &[1], 5), Err(AttachError::NotARegistration));
    assert_eq!(relay.attach(REGISTER_MARKER, &[], 5), Err(AttachError::NotARegistration));
    assert_eq!(relay.attach("register", &[1], 5), Ok(()));
}

#[test]
fn a_request_goes_down_the_line_of_its_node_and_the_answer_to_its_waiter() {
    let mut relay = RelayState::new();
    relay.attach(REGISTER_MARKER, &[1], 5).unwrap();
    relay.attach(REGISTER_MARKER, &[2], 6).unwrap();
    assert_eq!(relay.relay_compute(&[2], "r1", 40), Some(6));
    assert_eq!(relay.relay_compute(&[1], "r2", 41), Some(5));
    assert_eq!(relay.relay_compute(&[3], "r3", 42), None);
    assert_eq!(relay.reply("r1", false), None, "a message without an answer is none");
    assert_eq!(relay.reply(REGISTER_MARKER, true), None, "the mark is no answer");
    assert_eq!(relay.reply("r1", true), Some(40));
    assert_eq!(relay.reply("r1", true), None, "an answer is given once");
    assert_eq!(relay.reply("r3", true), None, "nobody waits for what was not sent");
    relay.abandon("r2");
    assert_eq!(relay.reply("r2", true), None, "nobody waits any more");
}

#[test]
fn a_node_that_attaches_itself_again_gets_the_new_line() {
    let mut relay = RelayState::new();
    relay.attach(REGISTER_MARKER, &[1], 5).unwrap();
    relay.attach(REGISTER_MARKER, &[1], 9).unwrap();
    assert_eq!(relay.relay_compute(&[1], "r", 1), Some(9));
}

#[test]
fn a_detached_node_is_forgotten() {
    let mut relay = RelayState::new();
    let mut registry = PeerRegistry::new(1000);
    registry.upsert(peer(&[1]));
    registry.upsert(peer(&[2]));
    relay.attach(REGISTER_MARKER, &[1], 5).unwrap();
    assert!(relay.detach(&mut registry, &[1]));
    assert_eq!(registry.len(), 1);
    assert_eq!(relay.relay_compute(&[1], "r", 1), None);
    assert!(!relay.detach(&mut registry, &[1]));
}

#[test]
fn ids_are_written_in_base_sixteen() {
    assert_eq!(request_id_at(0), "0");
    assert_eq!(request_id_at(0x1f), "1f");
    assert_eq!(request_id_at(u128::MAX), "ffffffffffffffffffffffffffffffff");
    assert!(u128::from_str_radix(&new_request_id(), 16).unwrap() > 1_700_000_000_000_000_000);
    assert_eq!(hex_short(&[1, 0xab, 0xff, 0, 9]), "01abff00");
    assert_eq!(hex_short(&[7]), "07");
    assert_eq!(not_attached_message(&[0xde, 0xad, 0xbe, 0xef, 1]), "target deadbeef not attached");
}
