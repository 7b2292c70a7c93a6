use diffuse_daemon::capacity::analyze;
use diffuse_daemon::registry::{now_ms, Peer, PeerRegistry};
use diffuse_daemon::serve::{
    bind_addr, chunk_json, completion, content_chunk, ensure_tokenizer, final_chunk, finish_reason,
    internal_error, is_loopback, model_list_data, resolve_servable_model, role_chunk,
    route_unavailable, send_stream_error, stream_end, unix_secs, ChatCompletionRequest,
    ChatMessageIn, Delta, Failing,
};

fn peer(model: &str, ep: &str, start: u32, end: u32, total: u32) -> Peer {
    Peer {
        node_id: ep.as_bytes().to_vec(),
        daemon_endpoint: ep.to_string(),
        worker_endpoint: format!("{}-w", ep),
        model_id: model.to_string(),
        start_layer: start,
        end_layer: end,
        total_layers: total,
        last_seen_ms: now_ms(),
        signature: Vec::new(),
        kx_public: Vec::new(),
        reachable: true,
    }
}

fn registry_with(peers: Vec<Peer>) -> PeerRegistry {
    let mut r = PeerRegistry::new(600_000);
    for p in peers {
        r.upsert(p);
    }
    r
}

#[test]
fn models_endpoint_lists_only_servable_models() {
    let reg = registry_with(vec![
        peer("full", "http://a", 0, 12, 12),
        peer("partial", "http://b", 0, 6, 64),
    ]);
    let caps = analyze(&reg);
    let data = model_list_data(&caps, 1000);

    assert_eq!(data.len(), 1);
    assert_eq!(data[0].id, "full");
    assert_eq!(data[0].object, "model");
    assert_eq!(data[0].owned_by, "diffuse");
    assert_eq!(data[0].created, 1000);
}

#[test]
fn absent_model_resolves_to_404() {
    let reg = registry_with(vec![peer("full", "http://a", 0, 12, 12)]);
    let caps = analyze(&reg);
    let err = resolve_servable_model(&caps, Some("ghost".to_string()), None).unwrap_err();

    assert_eq!(err.status, 404);
    assert_eq!(err.code, "model_not_found");
    assert_eq!(err.message, "model ghost is not present on the network");
    assert_eq!(err.error_type, "invalid_request_error");
}

#[test]
fn incomplete_model_resolves_to_503_naming_missing_slices() {
    let reg = registry_with(vec![peer("partial", "http://b", 0, 6, 64)]);
    let caps = analyze(&reg);
    let err = resolve_servable_model(&caps, Some("partial".to_string()), None).unwrap_err();

    assert_eq!(err.status, 503);
    assert_eq!(err.code, "model_incomplete");
    assert!(err.message.contains("6:64"), "message names the missing range: {}", err.message);
}

#[test]
fn servable_model_resolves_ok() {
    let reg = registry_with(vec![peer("full", "http://a", 0, 12, 12)]);
    let caps = analyze(&reg);
    let cap = resolve_servable_model(&caps, None, Some("full".to_string())).unwrap();

    assert_eq!(cap.model_id, "full");
    assert!(cap.servable);
}

#[test]
fn missing_model_without_default_is_400() {
    let reg = registry_with(vec![peer("full", "http://a", 0, 12, 12)]);
    let caps = analyze(&reg);
    let err = resolve_servable_model(&caps, None, None).unwrap_err();

    assert_eq!(err.status, 400);
    assert_eq!(err.code, "model_required");
}

#[test]
fn is_loopback_detects_local_and_external_hosts() {
    assert!(is_loopback("127.0.0.1"));
    assert!(is_loopback("localhost"));
    assert!(is_loopback("::1"));
    assert!(!is_loopback("0.0.0.0"));
    assert!(!is_loopback("192.168.1.10"));
}

#[test]
fn streaming_chunk_shape_matches_openai() {
    let chunk = chunk_json("chatcmpl-x", 1000, "full", Delta::Content("hi".to_string()), None);
    assert_eq!(chunk.object, "chat.completion.chunk");
    assert!(matches!(&chunk.delta, Delta::Content(said) if said == "hi"));
    assert!(chunk.finish_reason.is_none());
    assert_eq!(chunk.index, 0);
    assert_eq!((chunk.id.as_str(), chunk.created, chunk.model.as_str()), ("chatcmpl-x", 1000, "full"));
}

#[test]
fn incomplete_model_error_renders_503_with_openai_body() {
    let reg = registry_with(vec![peer("partial", "http://b", 0, 6, 64)]);
    let caps = analyze(&reg);
    let err = resolve_servable_model(&caps, Some("partial".to_string()), None).unwrap_err();

    assert_eq!(err.status, 503);
    assert_eq!(err.error_type, "service_unavailable");
    assert_eq!(err.code, "model_incomplete");
    assert!(err.message.contains("6:64"));
}

#[test]
fn a_request_that_names_a_model_overrides_the_default() {
    let reg = registry_with(vec![
        peer("full", "http://a", 0, 12, 12),
        peer("other", "http://b", 0, 4, 4),
    ]);
    let caps = analyze(&reg);
    let cap =
        resolve_servable_model(&caps, Some("other".to_string()), Some("full".to_string())).unwrap();
    assert_eq!(cap.model_id, "other");
    assert_eq!(cap.total_layers, 4);
}

#[test]
fn what_fails_on_the_way_has_its_own_code() {
    let e = route_unavailable("m", "why");
    assert_eq!((e.status, e.code), (503, "route_unavailable"));
    assert_eq!(e.message, "cannot route model m: why");
    let e = internal_error(Failing::Tokenizer, "why");
    assert_eq!((e.status, e.code), (500, "tokenizer_error"));
    assert_eq!(e.message, "tokenizer load failed: why");
    let e = internal_error(Failing::Encode, "why");
    assert_eq!((e.error_type, e.code), ("internal_error", "encode_error"));
    assert_eq!(e.message, "encode failed: why");
    let e = internal_error(Failing::Generation, "why");
    assert_eq!(e.code, "generation_error");
    assert_eq!(e.message, "generation failed: why");
}

#[test]
fn a_request_is_read_with_its_defaults() {
    let req = ChatCompletionRequest {
        model: None,
        messages: vec![
            ChatMessageIn { role: "system".to_string(), content: "be brief".to_string() },
            ChatMessageIn { role: "user".to_string(), content: "hello".to_string() },
        ],
        max_tokens: None,
        stream: None,
    };
    assert_eq!(req.most_tokens(), 512);
    assert!(!req.streams());
    assert_eq!(
        req.pairs(),
        vec![
            ("system".to_string(), "be brief".to_string()),
            ("user".to_string(), "hello".to_string())
        ]
    );
    let req = ChatCompletionRequest {
        model: None,
        messages: Vec::new(),
        max_tokens: Some(7),
        stream: Some(true),
    };
    assert_eq!(req.most_tokens(), 7);
    assert!(req.streams());
    assert!(req.pairs().is_empty());
}

#[test]
fn the_tokenizer_loads_a_model_once() {
    assert!(ensure_tokenizer(&None, "m"));
    assert!(ensure_tokenizer(&Some("other".to_string()), "m"));
    assert!(!ensure_tokenizer(&Some("m".to_string()), "m"));
}

#[test]
fn a_completion_counts_what_went_in_and_out() {
    let c = completion("id".to_string(), 5, "m".to_string(), 3, &[8, 9, 2], 2, "text".to_string());
    assert_eq!(c.object, "chat.completion");
    assert_eq!(c.role, "assistant");
    assert_eq!(c.finish_reason, "stop");
    assert_eq!(c.usage.prompt_tokens, 3);
    assert_eq!(c.usage.completion_tokens, 3);
    assert_eq!(c.usage.total_tokens, 6);
    assert_eq!(c.content, "text");
    let c = completion("id".to_string(), 5, "m".to_string(), 3, &[8, 9], 2, String::new());
    assert_eq!(c.finish_reason, "length");
}

#[test]
fn an_answer_without_tokens_ended_at_its_length() {
    assert_eq!(finish_reason(&[], 2), "length");
}

#[test]
fn the_pieces_of_a_stream_say_who_and_what_and_why() {
    let c = role_chunk("id", 1, "m");
    assert!(matches!(c.delta, Delta::Role("assistant")));
    assert!(c.finish_reason.is_none());
    let c = content_chunk("id", 1, "m", "bit".to_string());
    assert!(matches!(&c.delta, Delta::Content(s) if s == "bit"));
    let c = final_chunk("id", 1, "m", "length");
    assert!(matches!(c.delta, Delta::Empty));
    assert_eq!(c.finish_reason, Some("length"));
    let c = send_stream_error("id", 1, "m", "boom");
    assert!(matches!(&c.delta, Delta::Content(s) if s == "[error: boom]"));
    assert_eq!(c.finish_reason, Some("stop"));
}

#[test]
fn the_end_of_a_stream_leaves_out_what_ends_it() {
    let (ids, why) = stream_end(&[1, 2, 3, 9, 4, 9], 2, 9);
    assert_eq!(ids, Some(vec![3, 4]));
    assert_eq!(why, "stop");
    let (ids, why) = stream_end(&[1, 2], 2, 2);
    assert_eq!(ids, None);
    assert_eq!(why, "stop", "the last token of the prompt counts too");
    let (ids, why) = stream_end(&[1, 2, 5], 2, 9);
    assert_eq!(ids, Some(vec![5]));
    assert_eq!(why, "length");
}

#[test]
fn the_clock_has_passed_the_day_this_was_written() {
    assert!(unix_secs() > 1_700_000_000);
}

#[test]
fn the_address_to_listen_at() {
    assert_eq!(bind_addr("127.0.0.1", 8080), "127.0.0.1:8080");
}
