use diffuse_daemon::attachments::Attachment;
use diffuse_daemon::capacity::ModelCapacity;
use diffuse_daemon::chat::{
    model_label, print_chat_help, prompt_part, read_line, runs_generative, save_transcript,
    servable_models, Chat, ChatCommand, Stream,
};
use diffuse_daemon::sessions::{conversation_prefix, fresh_name, output_name};

#[test]
fn lines_are_commands_or_messages() {
    assert!(matches!(read_line("  \n"), ChatCommand::Nothing));
    assert!(matches!(read_line("/quit\n"), ChatCommand::Quit));
    assert!(matches!(read_line(" /exit "), ChatCommand::Quit));
    assert!(matches!(read_line("/reset"), ChatCommand::Reset));
    assert!(matches!(read_line("/files"), ChatCommand::Files));
    assert!(matches!(read_line("/detach"), ChatCommand::Detach));
    assert!(matches!(read_line("/clear"), ChatCommand::Clear));
    assert!(matches!(read_line("/help"), ChatCommand::Help));
    assert!(matches!(read_line("/stats"), ChatCommand::Stats));
    assert!(matches!(read_line("/save"), ChatCommand::Save(p) if p == "diffuse-chat.md"));
    assert!(matches!(read_line("/save  notes.md "), ChatCommand::Save(p) if p == "notes.md"));
    assert!(matches!(read_line("/saved"), ChatCommand::Save(p) if p == "d"));
    assert!(matches!(
        read_line("/image cat.png"),
        ChatCommand::Attach { command: "/image", path } if path == "cat.png"
    ));
    assert!(matches!(
        read_line("/attach"),
        ChatCommand::Attach { command: "/attach", path } if path.is_empty()
    ));
    assert!(matches!(read_line("  hello there\n"), ChatCommand::Say(s) if s == "hello there"));
    assert!(matches!(read_line("/unknown"), ChatCommand::Say(s) if s == "/unknown"));
}

fn item() -> Attachment {
    Attachment {
        kind: "image".to_string(),
        data: vec![1],
        mime: "image/png".to_string(),
        label: "cat.png".to_string(),
    }
}

#[test]
fn a_conversation_with_a_memory_sends_it_along() {
    let mut c = Chat::new(true, "p".to_string());
    assert_eq!(c.begin_turn(), "p-1");
    assert_eq!(c.messages("hi"), vec![("user".to_string(), "hi".to_string())]);
    c.attach(item());
    c.keep_words("hi", "  hello \n", 4);
    assert!(c.pending.is_empty());
    assert_eq!(c.total_tokens, 4);
    assert_eq!(c.begin_turn(), "p-2");
    assert_eq!(
        c.messages("and?"),
        vec![
            ("user".to_string(), "hi".to_string()),
            ("assistant".to_string(), "hello".to_string()),
            ("user".to_string(), "and?".to_string()),
        ]
    );
    c.attach(item());
    c.reset();
    assert!(c.history.is_empty() && c.pending.is_empty());
    assert_eq!(c.transcript.len(), 1, "what was said is still saved");
    assert_eq!((c.turn, c.total_tokens), (2, 4));
}

#[test]
fn a_conversation_without_a_memory_sends_the_message_alone() {
    let mut c = Chat::new(false, "p".to_string());
    c.keep_answer("draw", "1.0 KB of image/png written to x.png");
    assert!(c.history.is_empty());
    assert_eq!(c.messages("again").len(), 1);
    c.attach(item());
    c.detach();
    assert!(c.pending.is_empty());
    assert_eq!(
        save_transcript("m", &c.transcript),
        "# Diffuse chat · m\n\n**You:** draw\n\n**Diffuse:** 1.0 KB of image/png written to x.png\n\n"
    );
}

#[test]
fn the_pieces_that_are_shown_make_up_the_text() {
    let mut s = Stream::new();
    assert!(s.on_token(5, 9));
    assert!(!s.on_token(9, 9));
    assert_eq!(s.collected, vec![5]);
    let mut shown = String::new();
    for text in ["He", "Hel", "Hel", "Xel", "Hello ", "Hello, w", "Hello wörld"] {
        if let Some(d) = s.on_text(text) {
            shown.push_str(&d);
        }
    }
    assert_eq!(shown, "Hello wörld");
    assert_eq!(s.printed, "Hello wörld");
    assert_eq!(s.on_text("Hello"), None, "a shorter text shows nothing");
}

fn cap(id: &str, servable: bool, min_replicas: usize) -> ModelCapacity {
    ModelCapacity {
        model_id: id.to_string(),
        total_layers: 24,
        slices: Vec::new(),
        servable,
        min_replicas,
        weakest_slice: None,
    }
}

#[test]
fn only_what_can_be_served_is_offered() {
    let caps = vec![cap("a", true, 2), cap("b", false, 2), cap("c", true, 1)];
    assert_eq!(servable_models(&caps), vec!["a", "c"]);
    assert_eq!(model_label(&caps[0]), "a   ·   24 layers · robust");
    assert_eq!(model_label(&caps[2]), "c   ·   24 layers · fragile");
}

#[test]
fn a_session_of_the_worker_is_used_for_more_than_text() {
    assert!(runs_generative(true, "audio", false));
    assert!(runs_generative(true, "text", true));
    assert!(!runs_generative(true, "text", false));
    assert!(!runs_generative(false, "audio", true));
}

#[test]
fn the_answer_stands_behind_the_prompt() {
    assert_eq!(prompt_part(false, 3, 10), (3, 7));
    assert_eq!(prompt_part(true, 3, 10), (0, 10));
    assert_eq!(prompt_part(false, 3, 2), (3, 0));
}

#[test]
fn help_names_every_command() {
    let lines = print_chat_help();
    assert_eq!(lines.len(), 12);
    assert_eq!(
        lines[0],
        format!("  \x1b[38;2;245;220;130m{:<14}\x1b[39m  \x1b[38;2;128;140;158mshow this list\x1b[39m", "/help")
    );
}

#[test]
fn sessions_and_files_have_their_names() {
    assert_eq!(conversation_prefix(0xabc), "0000000000000abc");
    let name = fresh_name("query-");
    assert_eq!(name.len(), 42);
    assert!(name.starts_with("query-"));
    assert_ne!(fresh_name("query-"), fresh_name("query-"));
    assert_eq!(output_name("query-12345", "image/png"), "diffuse-query-12.png");
    assert_eq!(output_name("ab", "odd"), "diffuse-ab.odd");
}
