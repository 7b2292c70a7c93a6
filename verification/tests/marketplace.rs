use diffuse_daemon::capacity::{ModelCapacity, SliceCoverage};
use diffuse_daemon::marketplace::{
    account_line, build_listings, capacity_line, detail, model_row, need_of, title_line, truncate,
    Act, App, Found, Key, ModelCard, Need, Paint, Piece,
};
use diffuse_daemon::worker::WorkerProfile;

fn card(id: &str, params: u64, layers: u32, inputs: &[&str], support: &str) -> ModelCard {
    ModelCard {
        id: id.into(),
        architecture: "Qwen2ForCausalLM".into(),
        model_type: "qwen2".into(),
        params,
        downloads: 2_100_000,
        likes: 1432,
        gated: id.contains("meta-llama"),
        support: support.into(),
        note: "a plain decoder stack, splits cleanly".into(),
        layers,
        hidden_size: 3584,
        inputs: inputs.iter().map(|s| s.to_string()).collect(),
        outputs: vec!["text".into()],
    }
}

fn sample_cards() -> Vec<ModelCard> {
    vec![
        card("Qwen/Qwen2.5-0.5B-Instruct", 494_000_000, 24, &["text"], "ready"),
        card("HuggingFaceTB/SmolVLM-256M-Instruct", 256_000_000, 30, &["text", "image"], "ready"),
        card("Qwen/Qwen2-VL-2B-Instruct", 2_200_000_000, 28, &["text", "image", "video"], "ready"),
        card("mistralai/Voxtral-Mini-3B-2507", 4_680_000_000, 30, &["text", "audio"], "ready"),
        card("meta-llama/Llama-3.1-70B", 70_000_000_000, 80, &["text"], "ready"),
        card("openai/whisper-small", 244_000_000, 12, &["text"], "unsupported"),
    ]
}

fn sample_app() -> App {
    let mut app = App::new(
        Found {
            cards: sample_cards(),
            available_bytes: 12_000_000_000,
            device: "cpu".into(),
            authenticated: true,
            account: "unlikedone".into(),
        },
        &[],
    );
    app.step(2);
    app
}

fn text(pieces: &[Piece]) -> String {
    pieces.iter().map(|p| p.text.clone()).collect()
}

/// All that is shown, line by line.
fn screen(app: &App) -> String {
    let mut lines = vec![
        text(&title_line()),
        account_line(app.authenticated, &app.account).text,
        app.search_title().text,
        app.search_text().text,
        app.list_title(),
    ];
    for item in &app.listings {
        lines.push(text(&model_row(item)));
    }
    if let Some(item) = app.selected() {
        for line in detail(item, 40) {
            lines.push(text(&line));
        }
    }
    lines.push(app.status.clone());
    lines.join("\n")
}

#[test]
fn the_marketplace_shows_what_each_model_takes_and_whether_it_fits() {
    let app = sample_app();
    let screen = screen(&app);

    assert!(screen.contains("DIFFUSE"), "the banner must be there");
    assert!(screen.contains("unlikedone"), "a signed in account is named");
    assert!(screen.contains("live from hugging face"), "the list says where it came from");
    assert!(screen.contains("whole model"));
    assert!(screen.contains("as a slice"));
    assert!(screen.contains("cannot run"));
    assert!(screen.contains("image+video"), "video capability must show");
    assert!(screen.contains("audio"));
}

#[test]
fn an_anonymous_session_says_gated_models_are_hidden() {
    let mut app = sample_app();
    app.authenticated = false;
    app.account.clear();
    let screen = screen(&app);
    assert!(screen.contains("anonymous"), "{}", screen);
}

#[test]
fn searching_swaps_the_hint_for_what_is_typed() {
    let mut app = sample_app();
    app.editing = true;
    app.query = "qwen".into();
    let screen = screen(&app);
    assert!(screen.contains("searching hugging face"));
    assert!(screen.contains("qwen"));
}

fn float_listing(params: u64, layers: u32, available: u64) -> (bool, u32) {
    let needed = params.saturating_mul(2);
    let fits_whole = params > 0 && (needed as f64) * 1.3 <= available as f64;
    let per_layer = if layers > 0 && params > 0 { needed / layers as u64 } else { 0 };
    let usable = (available as f64 * 0.7) as u64;
    let holdable =
        if per_layer == 0 { layers } else { ((usable / per_layer.max(1)) as u32).min(layers) };
    (fits_whole, holdable)
}

#[test]
fn what_a_machine_holds_of_a_model() {
    for available in [0u64, 1, 1 << 30, 12_000_000_000, u64::MAX] {
        for (params, layers) in
            [(0u64, 12u32), (1, 0), (1, 3), (494_000_000, 24), (70_000_000_000, 80), (u64::MAX, 7), (3, 1)]
        {
            let items = build_listings(vec![card("m", params, layers, &[], "ready")], available, &[]);
            assert_eq!(
                (items[0].fits_whole, items[0].holdable_layers),
                float_listing(params, layers, available),
                "{} {} {}",
                params,
                layers,
                available
            );
        }
    }
}

fn cap(id: &str, slices: Vec<(u32, u32, usize)>, total: u32) -> ModelCapacity {
    ModelCapacity {
        model_id: id.to_string(),
        total_layers: total,
        slices: slices
            .into_iter()
            .map(|(a, b, n)| SliceCoverage { start_layer: a, end_layer: b, replicas: n })
            .collect(),
        servable: false,
        min_replicas: 0,
        weakest_slice: None,
    }
}

#[test]
fn what_the_network_holds_of_a_model() {
    let caps = vec![cap("a", vec![(0, 4, 1), (4, 8, 1)], 8), cap("b", vec![(0, 4, 0)], 8)];
    let cards = vec![
        card("a", 10, 8, &["text"], "ready"),
        card("b", 10, 8, &["text"], "ready"),
        card("c", 10, 8, &["text"], "ready"),
    ];
    let items = build_listings(cards, 1 << 30, &caps);
    let got: Vec<(usize, bool)> = items.iter().map(|i| (i.peers, i.servable)).collect();
    assert_eq!(got, vec![(2, true), (1, false), (0, false)]);
    let row = model_row(&items[0]);
    assert_eq!(row.last().unwrap().text, "  2 hosting");
    assert_eq!(row.last().unwrap().paint, Paint::Mint);
    assert_eq!(model_row(&items[1]).last().unwrap().paint, Paint::Gold);
    let lines: Vec<String> = detail(&items[0], 40).iter().map(|l| text(l)).collect();
    assert!(lines.contains(&"2 nodes serve it, you would add redundancy".to_string()));
    let lines: Vec<String> = detail(&items[1], 40).iter().map(|l| text(l)).collect();
    assert!(lines.contains(&"1 nodes hold parts, it is incomplete".to_string()));
    assert!(matches!(need_of(&caps, "a"), Need::Served));
    assert!(matches!(need_of(&caps, "b"), Need::Missing(s) if s == "0:8"));
    assert!(matches!(need_of(&caps, "c"), Need::Nobody));
}

#[test]
fn a_row_reads_in_columns() {
    let app = sample_app();
    assert_eq!(
        text(&model_row(&app.listings[2])),
        format!(" {:<32}{:>5.1}B {:<12}{:<12}{:>6}", "Qwen/Qwen2-VL-2B-Instruct", 2.2, "whole model", "image+video", "2.1M")
    );
    let gated = model_row(&app.listings[4]);
    assert!(gated.iter().any(|p| p.text == "  gated" && p.paint == Paint::Gold));
    let cannot = model_row(&app.listings[5]);
    assert!(!cannot[0].bold && cannot[0].paint == Paint::Faint);
    assert_eq!(cannot[2].paint, Paint::Coral);
}

#[test]
fn a_model_is_described_line_by_line() {
    let app = sample_app();
    let lines: Vec<String> = detail(&app.listings[4], 12).iter().map(|l| text(l)).collect();
    assert_eq!(lines[0], "meta-llama…");
    assert_eq!(lines[2], "architecture Qwen2ForCausalLM");
    assert_eq!(lines[3], "layers       80");
    assert_eq!(lines[4], "parameters   70.0B");
    assert_eq!(lines[5], "takes        text");
    assert_eq!(lines[7], "likes        1k");
    assert_eq!(lines[9], "this machine holds 4 of 80 layers");
    assert_eq!(lines[11], "a plain decoder stack, splits cleanly");
    assert_eq!(lines.len(), 12);
}

#[test]
fn long_names_are_cut() {
    assert_eq!(truncate("abc", 3), "abc");
    assert_eq!(truncate("abcd", 3), "ab…");
    assert_eq!(truncate("abcd", 0), "…");
    assert_eq!(truncate("ääää", 2), "ä…");
}

#[test]
fn the_list_is_followed_round() {
    let mut app = sample_app();
    assert_eq!(app.selected, Some(2));
    app.press(Key::Up, false);
    app.press(Key::Char('k'), false);
    app.press(Key::Up, false);
    assert_eq!(app.selected, Some(5));
    app.press(Key::Down, false);
    app.press(Key::Char('j'), false);
    assert_eq!(app.selected, Some(1));
    app.step(-8);
    assert_eq!(app.selected, Some((1isize - 8).rem_euclid(6) as usize));
    app.listings.clear();
    app.step(1);
    assert_eq!(app.selected, Some(5), "an empty list is left as it is");
}

#[test]
fn keys_type_while_something_is_searched() {
    let mut app = sample_app();
    app.status = "old".into();
    assert!(matches!(app.press(Key::Char('/'), false), Act::Stay));
    assert!(app.editing && app.status.is_empty());
    for c in "qwé".chars() {
        assert!(matches!(app.press(Key::Char(c), false), Act::Stay));
    }
    assert_eq!(app.query, "qwé");
    app.press(Key::Backspace, false);
    assert_eq!(app.query, "qw");
    app.press(Key::Down, false);
    assert_eq!(app.selected, Some(2), "the list does not move while something is typed");
    assert!(matches!(app.press(Key::Enter, false), Act::Search));
    assert!(!app.editing);
    assert_eq!(app.status, "searching hugging face...");
    app.search_failed("no network");
    assert_eq!(app.status, "search failed: no network");
    app.found(
        Found {
            cards: Vec::new(),
            available_bytes: 5,
            device: "gpu".into(),
            authenticated: false,
            account: String::new(),
        },
        &[],
    );
    assert_eq!(app.status, "nothing matches qw");
    assert_eq!(app.selected, None);
    assert_eq!((app.available_bytes, app.device.as_str()), (5, "gpu"));
    app.press(Key::Char('/'), false);
    app.press(Key::Char('x'), false);
    app.press(Key::Esc, false);
    assert!(!app.editing && app.query.is_empty());
    app.press(Key::Backspace, false);
    assert!(app.query.is_empty());
}

#[test]
fn a_model_that_can_run_is_hosted() {
    let mut app = sample_app();
    assert!(matches!(
        app.press(Key::Enter, false),
        Act::Host(id) if id == "Qwen/Qwen2-VL-2B-Instruct"
    ));
    app.selected = Some(5);
    assert!(matches!(app.press(Key::Enter, false), Act::Stay));
    assert_eq!(app.status, "openai/whisper-small: a plain decoder stack, splits cleanly");
    app.selected = None;
    assert!(matches!(app.press(Key::Enter, false), Act::Stay));
    assert!(matches!(app.press(Key::Char('c'), false), Act::Stay));
    assert!(matches!(app.press(Key::Char('c'), true), Act::Quit));
    assert!(matches!(app.press(Key::Char('q'), false), Act::Quit));
    assert!(matches!(app.press(Key::Esc, false), Act::Quit));
}

#[test]
fn what_a_machine_can_hold_is_said_in_percent() {
    let mut p = WorkerProfile {
        total_layers: 28,
        max_layers: 7,
        max_layers_if_holding_embedding: 6,
        avg_layer_bytes: 1,
        available_bytes: 1,
        device: "cpu".into(),
    };
    assert_eq!(capacity_line(&p), Some("7 layers (25% of the model)".to_string()));
    p.max_layers = 0;
    assert_eq!(capacity_line(&p), None);
    p.max_layers = 99;
    assert_eq!(capacity_line(&p.clone()), Some("99 layers (100% of the model)".to_string()));
}
