use diffuse_daemon::client_flow::{argmax_last_token, ClientSession, RemoteStage};
use diffuse_daemon::clock::{millis_of, nanos_now, nanos_of, secs_of};
use diffuse_daemon::compute::{
    open_request, refuse, seal_response, Draw, ResponseFault, Tensor,
};
use diffuse_daemon::generation::{Generation, Sending};
use diffuse_daemon::transport::KeyExchange;

fn session(host: &KeyExchange) -> ClientSession {
    ClientSession {
        client_kx: KeyExchange::from_secret([3; 32]),
        model_id: "m".to_string(),
        local_start: 0,
        local_end: 2,
        remote: RemoteStage {
            daemon_endpoint: "http://h".to_string(),
            host_kx_public: host.public_bytes(),
            start_layer: 2,
            end_layer: 24,
        },
    }
}

#[test]
fn only_what_the_first_layers_give_goes_to_the_node() {
    let host = KeyExchange::from_secret([9; 32]);
    let client = session(&host);
    let ids = client.local_input(&[11, 12]);
    assert_eq!(ids.activations.shape, vec![1, 2]);
    assert_eq!(ids.activations.dtype, "int64");
    assert!(ids.positions.is_none() && ids.memory.is_none() && ids.patch.is_none());

    let local = Tensor { shape: vec![1, 2, 2], dtype: "float32".to_string(), data: vec![5; 16] };
    let req = client.forward(local.clone(), "s").unwrap();
    assert_eq!((req.start_layer, req.end_layer, req.top_k), (2, 24, 0));
    assert_eq!((req.model_id.as_str(), req.session_id.as_str()), ("m", "s"));
    assert!(req.route.is_empty() && !req.accepts_bf16);
    assert_eq!(req.draw, Draw::default());
    assert_eq!(req.requester_kx_public, client.client_kx.public_bytes().to_vec());
    assert_ne!(req.encrypted_activations, local.data);
    let input = open_request(&host, &req).unwrap().input;
    assert_eq!(input.activations.shape, local.shape);
    assert_eq!(input.activations.data, local.data, "the node gets the output of the first layers");
    assert!(input.positions.is_none() && input.memory.is_none() && input.patch.is_none());
}

/// The layers of a client: each token as one number, at its place.
fn first_layers(ids: &Tensor) -> Tensor {
    let mut data = Vec::new();
    for id in ids.data.chunks(8) {
        data.extend_from_slice(&(id[0] as f32 * 0.5).to_le_bytes());
    }
    Tensor { shape: vec![1, ids.shape[1], 1], dtype: "float32".to_string(), data }
}

#[test]
fn client_generates_with_network_blind_to_prompt_and_output() {
    let host = KeyExchange::from_secret([9; 32]);
    let client = session(&host);
    let ids = [5i64, 6, 7];
    let mut g = Generation::from_prompt(&ids, 4, Some(0));
    let mut held: Vec<f32> = Vec::new();
    loop {
        let step = g.tokens(Sending::Step);
        let local = first_layers(&client.local_input(&step).activations);
        let req = client.forward(local, "priv-session").unwrap();
        for id in &step {
            let bytes = id.to_le_bytes();
            assert!(!req.encrypted_activations.windows(8).any(|w| w == bytes));
        }
        // The node goes on from what it holds of the session.
        let opened = open_request(&host, &req).unwrap();
        for v in opened.input.activations.data.chunks(4) {
            held.push(f32::from_le_bytes([v[0], v[1], v[2], v[3]]));
        }
        let best = 1 + (held.iter().sum::<f32>() as usize) % 7;
        let mut data = Vec::new();
        for i in 0..8 {
            data.extend_from_slice(&(if i == best { 1f32 } else { 0f32 }).to_le_bytes());
        }
        let out = Tensor { shape: vec![1, 1, 8], dtype: "float32".to_string(), data };
        let resp = seal_response(&opened.secret, &out, 1).unwrap();
        let next = argmax_last_token(&client.logits(&resp).unwrap()).unwrap();
        if g.feed(next).finished {
            break;
        }
    }
    assert!(g.ids.len() > ids.len(), "should generate new tokens");
    assert_eq!(g.ids, vec![5, 6, 7, 3, 4, 6, 2]);
}

#[test]
fn the_client_reads_what_the_node_gives() {
    let host = KeyExchange::from_secret([9; 32]);
    let client = session(&host);
    let local = Tensor { shape: vec![1, 1, 1], dtype: "float32".to_string(), data: vec![0; 4] };
    let opened = open_request(&host, &client.forward(local, "s").unwrap()).unwrap();
    let mut data = Vec::new();
    for v in [0.5f32, 2.5, 1.5] {
        data.extend_from_slice(&v.to_le_bytes());
    }
    let out = Tensor { shape: vec![1, 1, 3], dtype: "float32".to_string(), data };
    let resp = seal_response(&opened.secret, &out, 7).unwrap();
    let logits = client.logits(&resp).unwrap();
    assert_eq!(logits.shape, out.shape);
    assert_eq!(argmax_last_token(&logits), Ok(1));

    let mut other = session(&host);
    other.client_kx = KeyExchange::from_secret([4; 32]);
    assert!(matches!(other.logits(&resp), Err(ResponseFault::Unreadable(_))));
    assert!(matches!(client.logits(&refuse("no".to_string())), Err(ResponseFault::Failed)));
}

#[test]
fn time_is_counted_from_whole_seconds_and_what_is_beyond() {
    assert_eq!(nanos_of(None), 0);
    assert_eq!(nanos_of(Some((2, 5_000_001))), 2_005_000_001);
    assert_eq!(nanos_of(Some((u64::MAX, 999_999_999))), (1u128 << 64) * 1_000_000_000 - 1);
    assert_eq!(millis_of(2_005_000_001), 2005);
    assert_eq!(secs_of(2_005_000_001), 2);
    let n = nanos_now();
    assert!(n < (1u128 << 64) * 1_000_000_000 && nanos_now() > 0);
}
