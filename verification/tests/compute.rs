use diffuse_daemon::compute::{
    after_slice, argmax_last_row, arguments_to_bytes, bytes_to_arguments, bytes_to_tensor_pub,
    decode_patch, decode_positions, finish_chain, open_request, open_response, refuse, seal_request,
    seal_response, stalled, stalled_endpoint, tensor_to_bytes_pub, ChainStep, CodecError,
    ComputeError, ComputeRequest, ComputeResponse, Draw, Hop, LogitsError, Patch, ResponseFault,
    SliceInput, Tensor,
};
use diffuse_daemon::logits::{can_choose, can_count, ids_to_tensor, next_token, write_shape};
use diffuse_daemon::registry::WIRE_VERSION;
use diffuse_daemon::tensor::{arguments_from_bytes, tensor_from_bytes};
use diffuse_daemon::transport::{KeyExchange, TransportError};

fn tensor(shape: &[i64], dtype: &str, data: &[u8]) -> Tensor {
    Tensor { shape: shape.to_vec(), dtype: dtype.to_string(), data: data.to_vec() }
}

fn same(a: &Tensor, b: &Tensor) -> bool {
    a.shape == b.shape && a.dtype == b.dtype && a.data == b.data
}

fn plain(t: Tensor) -> SliceInput {
    SliceInput { activations: t, positions: None, memory: None, patch: None }
}

// --- the codec ---

#[test]
fn a_tensor_is_written_as_shape_type_and_data() {
    let t = tensor(&[1, -2], "ab", &[7, 8, 9]);
    let bytes = tensor_to_bytes_pub(&t);
    let mut expected = vec![2, 0, 0, 0];
    expected.extend_from_slice(&1i64.to_le_bytes());
    expected.extend_from_slice(&(-2i64).to_le_bytes());
    expected.extend_from_slice(&[2, 0, 0, 0]);
    expected.extend_from_slice(b"ab");
    expected.extend_from_slice(&[7, 8, 9]);
    assert_eq!(bytes, expected);
    assert!(same(&bytes_to_tensor_pub(&bytes).unwrap(), &t));
}

#[test]
fn bytes_that_end_too_early_are_no_tensor() {
    let bytes = tensor_to_bytes_pub(&tensor(&[3], "float32", &[1]));
    for n in 0..bytes.len() - 1 {
        assert_eq!(tensor_from_bytes(&bytes[..n]).unwrap_err(), CodecError::Truncated, "{}", n);
    }
    let short = tensor_from_bytes(&bytes[..bytes.len() - 1]).unwrap();
    assert!(short.data.is_empty(), "the data is whatever is left");
}

#[test]
fn a_type_that_is_no_text_is_told() {
    let mut bytes = vec![0, 0, 0, 0, 2, 0, 0, 0];
    bytes.extend_from_slice(&[0xff, 0xfe]);
    assert_eq!(tensor_from_bytes(&bytes).unwrap_err(), CodecError::NotUtf8);
    assert!(!CodecError::NotUtf8.message().is_empty());
    assert!(!CodecError::Truncated.message().is_empty());
}

#[test]
fn numbered_tensors_come_back() {
    let args = vec![(7u32, tensor(&[1], "a", &[1])), (0, tensor(&[], "", &[])), (7, tensor(&[2], "b", &[2, 3]))];
    let bytes = arguments_to_bytes(&args);
    let back = bytes_to_arguments(&bytes).unwrap();
    assert_eq!(back.len(), 3);
    for (x, y) in args.iter().zip(back.iter()) {
        assert_eq!(x.0, y.0);
        assert!(same(&x.1, &y.1));
    }
    assert_eq!(arguments_from_bytes(&bytes[..bytes.len() - 1]).unwrap_err(), CodecError::Truncated);
    assert!(arguments_from_bytes(&arguments_to_bytes(&[])).unwrap().is_empty());
}

// --- the next token ---

fn f32_logits(rows: i64, row: &[f32]) -> Tensor {
    let vocab = row.len() as i64;
    let mut data = vec![0u8; ((rows - 1) * vocab * 4) as usize];
    for v in row {
        data.extend_from_slice(&v.to_le_bytes());
    }
    tensor(&[1, rows, vocab], "float32", &data)
}

fn float_argmax(row: &[f32]) -> i64 {
    let mut best = f32::NEG_INFINITY;
    let mut at = 0;
    for (i, &v) in row.iter().enumerate() {
        if v > best {
            best = v;
            at = i;
        }
    }
    at as i64
}

#[test]
fn the_greatest_of_the_last_row_is_chosen() {
    let rows: Vec<Vec<f32>> = vec![
        vec![0.5, 2.5, 2.5, -1.0],
        vec![-3.0, -2.0, -9.0],
        vec![f32::NAN, -1.0, f32::NAN, 0.0],
        vec![f32::NAN, f32::NAN],
        vec![f32::NEG_INFINITY, f32::NEG_INFINITY],
        vec![-0.0, 0.0],
        vec![0.0, -0.0],
        vec![f32::INFINITY, f32::MAX],
        vec![f32::MIN_POSITIVE, 1e-45, 0.0],
        vec![-1e-45, -f32::MIN_POSITIVE],
        vec![],
    ];
    for row in rows {
        for n in 1..4 {
            assert_eq!(argmax_last_row(&f32_logits(n, &row)), Ok(float_argmax(&row)), "{:?}", row);
        }
    }
}

#[test]
fn short_floats_are_the_upper_half_of_long_ones() {
    let row: Vec<f32> = vec![-1.5, 3.0, 2.984375, f32::NAN, 3.0];
    let mut data = Vec::new();
    for v in &row {
        data.extend_from_slice(&((v.to_bits() >> 16) as u16).to_le_bytes());
    }
    let t = tensor(&[1, 1, 5], "bfloat16", &data);
    assert_eq!(argmax_last_row(&t), Ok(1));
}

#[test]
fn scores_that_cannot_be_read_are_told_apart() {
    let t = tensor(&[2, 2], "float32", &[]);
    assert_eq!(argmax_last_row(&t), Err(LogitsError::NotThreeDimensional));
    assert_eq!(
        LogitsError::NotThreeDimensional.message(&t),
        format!("expected 3D logits, got shape {:?}", t.shape)
    );
    let t = tensor(&[1, 2, 3], "float32", &[0; 20]);
    assert_eq!(argmax_last_row(&t), Err(LogitsError::TooShort));
    assert_eq!(
        LogitsError::TooShort.message(&t),
        format!("logits payload too short for shape {:?}", t.shape)
    );
    let t = tensor(&[1, 1, 3], "int8", &[0; 3]);
    assert_eq!(argmax_last_row(&t), Err(LogitsError::UnsupportedDtype));
    assert_eq!(LogitsError::UnsupportedDtype.message(&t), "unsupported logits dtype int8");
}

#[test]
fn the_first_of_the_candidates_is_taken() {
    let mut data = Vec::new();
    data.extend_from_slice(&(-7i64).to_le_bytes());
    data.extend_from_slice(&9i64.to_le_bytes());
    data.extend_from_slice(&[0; 8]);
    let t = tensor(&[2], "topk_i64_f32", &data);
    assert!(can_choose(&t));
    assert_eq!(next_token(&t), Ok(-7));
    let t = tensor(&[3], "topk_i64_f32", &data);
    assert_eq!(next_token(&t), Err(LogitsError::MalformedTopK));
    assert_eq!(
        LogitsError::MalformedTopK.message(&t),
        format!("malformed top-k payload: shape {:?}, {} bytes", t.shape, t.data.len())
    );
    assert_eq!(next_token(&tensor(&[], "topk_i64_f32", &data)), Err(LogitsError::MalformedTopK));
    assert!(!can_choose(&tensor(&[-1], "topk_i64_f32", &data)), "too many to be counted");
    assert!(!can_choose(&tensor(&[1, 0, 4], "float32", &data)), "no row to choose from");
    assert!(!can_count(&tensor(&[1, 0, 4], "topk_i64_f32", &data)));
    assert!(can_choose(&tensor(&[1, 0, 4], "topk_i64_f32", &data)));
    assert_eq!(next_token(&f32_logits(2, &[1.0, 4.0, 2.0])), Ok(1));
}

#[test]
fn ids_become_a_tensor_of_long_integers() {
    let t = ids_to_tensor(&[1, -2]);
    assert_eq!(t.shape, vec![1, 2]);
    assert_eq!(t.dtype, "int64");
    assert_eq!(t.data, [1i64.to_le_bytes(), (-2i64).to_le_bytes()].concat());
    assert_eq!(write_shape(&vec![]), format!("{:?}", Vec::<i64>::new()));
    assert_eq!(write_shape(&vec![1, -2, 30]), format!("{:?}", vec![1, -2, 30]));
}

// --- asking and answering ---

fn ask(client: &KeyExchange, host: &KeyExchange, input: &SliceInput, route: Vec<Hop>) -> ComputeRequest {
    seal_request(client, &host.public_bytes(), "m", 2, 5, "s", input, 8, route, true, draw()).unwrap()
}

fn draw() -> Draw {
    Draw {
        guidance_bits: 1.5f32.to_bits(),
        sample: true,
        temperature_bits: 0.7f32.to_bits(),
        top_p_bits: 0.9f32.to_bits(),
        seed: 42,
    }
}

#[test]
fn a_host_finds_what_a_client_sealed() {
    let client = KeyExchange::generate();
    let host = KeyExchange::generate();
    let t = tensor(&[1, 2], "float32", &[1, 2, 3, 4, 5, 6, 7, 8]);
    let input = SliceInput {
        activations: tensor(&[1, 2], "float32", &[1, 2, 3, 4, 5, 6, 7, 8]),
        positions: Some(tensor(&[3], "int64", &[9])),
        memory: None,
        patch: Some(Patch {
            offset: 4,
            sequence: 16,
            branch: "cond".to_string(),
            layout: "l".to_string(),
            arguments: vec![(3, tensor(&[1], "int32", &[0, 0, 0, 1]))],
        }),
    };
    let req = ask(&client, &host, &input, Vec::new());
    assert_eq!((req.start_layer, req.end_layer, req.top_k, req.accepts_bf16), (2, 5, 8, true));
    assert_eq!(req.draw, draw());
    assert!(req.encrypted_encoder_memory.is_empty());
    assert!(!req.encrypted_activations.windows(8).any(|w| w == &t.data[..]), "nothing is in the open");
    let opened = open_request(&host, &req).unwrap();
    assert!(same(&opened.input.activations, &t));
    assert_eq!(opened.input.positions.unwrap().data, vec![9]);
    assert!(opened.input.memory.is_none());
    let patch = opened.input.patch.unwrap();
    assert_eq!((patch.offset, patch.sequence), (4, 16));
    assert_eq!((patch.branch.as_str(), patch.layout.as_str()), ("cond", "l"));
    assert_eq!(patch.arguments[0].0, 3);

    let eve = KeyExchange::generate();
    assert!(matches!(
        open_request(&eve, &req),
        Err(ComputeError::Transport(TransportError::Rejected))
    ));
}

#[test]
fn a_request_with_a_bad_key_is_refused() {
    let host = KeyExchange::generate();
    let mut req = ask(&KeyExchange::generate(), &host, &plain(tensor(&[], "x", &[])), Vec::new());
    req.requester_kx_public = vec![1, 2, 3];
    match open_request(&host, &req) {
        Err(e) => {
            assert_eq!(e, ComputeError::BadKey);
            assert_eq!(e.message(), "bad kx public key");
        }
        Ok(_) => panic!("the key was taken"),
    }
}

#[test]
fn a_client_reads_what_a_host_answered() {
    let client = KeyExchange::generate();
    let host = KeyExchange::generate();
    let req = ask(&client, &host, &plain(tensor(&[1], "a", &[1])), Vec::new());
    let opened = open_request(&host, &req).unwrap();
    let resp = seal_response(&opened.secret, &tensor(&[2], "b", &[5, 6]), 33).unwrap();
    assert!(resp.ok);
    let secret = client.shared_secret(&host.public_bytes());
    let (out, ms, version) = open_response(&secret, &resp).unwrap();
    assert!(same(&out, &tensor(&[2], "b", &[5, 6])));
    assert_eq!((ms, version), (33, WIRE_VERSION));

    let refused = refuse("why".to_string());
    let fault = open_response(&secret, &refused).unwrap_err();
    assert_eq!(fault, ResponseFault::Failed);
    assert_eq!(fault.message("remote", &refused), "remote compute failed: why");

    let garbage = ComputeResponse {
        encrypted_activations: vec![0; 40],
        ok: true,
        error: String::new(),
        compute_ms: 0,
        protocol_version: 0,
    };
    assert!(matches!(open_response(&secret, &garbage), Err(ResponseFault::Unreadable(_))));
}

#[test]
fn what_is_not_there_is_not_looked_for() {
    let secret = [1u8; 32];
    assert!(decode_positions(&secret, &[]).unwrap().is_none());
    assert!(decode_positions(&secret, &[1, 2]).is_err());
    let mut req = ask(
        &KeyExchange::generate(),
        &KeyExchange::generate(),
        &plain(tensor(&[], "x", &[])),
        Vec::new(),
    );
    assert!(decode_patch(&secret, &req).unwrap().is_none());
    req.patch_sequence = 9;
    assert!(decode_patch(&secret, &req).unwrap().unwrap().arguments.is_empty());
}

fn hop(endpoint: &str, key: &KeyExchange, top_k: u32) -> Hop {
    Hop {
        compute_endpoint: endpoint.to_string(),
        kx_public: key.public_bytes().to_vec(),
        start_layer: 10,
        end_layer: 20,
        top_k,
        accepts_bf16: true,
    }
}

#[test]
fn a_chain_hands_on_and_brings_back() {
    let client = KeyExchange::generate();
    let a = KeyExchange::generate();
    let b = KeyExchange::generate();
    let req = ask(
        &client,
        &a,
        &plain(tensor(&[1], "x", &[1])),
        vec![hop("http://b", &b, 4)],
    );
    let at_a = open_request(&a, &req).unwrap();
    let Ok(ChainStep::Forward(fwd)) = after_slice(&a, &req, &at_a, &tensor(&[1], "x", &[2]), 10) else {
        panic!("the chain ends too early");
    };
    assert_eq!(fwd.endpoint, "http://b");
    assert_eq!((fwd.request.start_layer, fwd.request.end_layer, fwd.request.top_k), (10, 20, 4));
    assert!(fwd.request.route.is_empty());
    assert!(!fwd.request.accepts_bf16, "the last hop answers the client");
    assert_eq!(fwd.request.draw, draw());
    assert_eq!(fwd.request.session_id, "s");

    let at_b = open_request(&b, &fwd.request).unwrap();
    assert_eq!(at_b.input.activations.data, vec![2]);
    let Ok(ChainStep::Answer(from_b)) =
        after_slice(&b, &fwd.request, &at_b, &tensor(&[1], "x", &[3]), 7)
    else {
        panic!("the chain goes on too long");
    };
    let answer = finish_chain(&at_a.secret, &fwd.secret, &fwd.endpoint, &Ok(from_b), 10).unwrap();
    let (out, ms, _) = open_response(&client.shared_secret(&a.public_bytes()), &answer).unwrap();
    assert_eq!(out.data, vec![3]);
    assert_eq!(ms, 17);
}

#[test]
fn a_hop_with_a_bad_key_is_named() {
    let client = KeyExchange::generate();
    let a = KeyExchange::generate();
    let mut bad = hop("http://b", &a, 0);
    bad.kx_public = vec![1];
    let req = ask(&client, &a, &plain(tensor(&[1], "x", &[1])), vec![bad]);
    let opened = open_request(&a, &req).unwrap();
    match after_slice(&a, &req, &opened, &tensor(&[1], "x", &[2]), 10) {
        Err(e) => assert_eq!(e.message("http://b"), "hop http://b has a bad kx public key"),
        Ok(_) => panic!("the hop was taken"),
    }
}

#[test]
fn the_hop_at_which_a_chain_stalled_is_found_again() {
    let s = stalled("http://b:1", "it broke");
    assert_eq!(s, "chain stalled at [http://b:1]: it broke");
    assert_eq!(stalled_endpoint(&s), Some("http://b:1".to_string()));
    assert_eq!(stalled_endpoint(&format!("outer: {}", s)), Some("http://b:1".to_string()));
    assert_eq!(stalled_endpoint("something else"), None);
    assert_eq!(stalled_endpoint("chain stalled at [no end"), None);

    let secret = [1u8; 32];
    let e = finish_chain(&secret, &secret, "http://b:1", &Err("refused".to_string()), 0).unwrap_err();
    assert_eq!(e, "chain stalled at [http://b:1]: refused");
    let e = finish_chain(&secret, &secret, "http://b:1", &Ok(refuse("why".to_string())), 0).unwrap_err();
    assert_eq!(e, "chain stalled at [http://b:1]: why");
}
