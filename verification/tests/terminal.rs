use diffuse_daemon::capacity::{ModelCapacity, SliceCoverage};
use diffuse_daemon::display::{
    countable, covered_layers, dots, render_network_state, status,
};
use diffuse_daemon::tui::{
    badge, divider, error, header, hud, human, lock, meter_text, note, ok, phase_done,
    render_banner, robot, role, section, spinner_ticks, step, sym, tint, warn, LiveMeter, ACCENT,
    FAINT, GOLD, MINT, MUTED, RED, TEXT, YELLOW,
};
use owo_colors::OwoColorize;

fn color(s: &str, c: (u8, u8, u8)) -> String {
    s.truecolor(c.0, c.1, c.2).to_string()
}

#[test]
fn marks_are_plain_where_they_must_be() {
    assert_eq!(sym(false, "◆", "*"), "◆");
    assert_eq!(sym(true, "◆", "*"), "*");
    assert_eq!((human(false), human(true)), ("●", "*"));
    assert_eq!((robot(false), robot(true)), ("◆", ">"));
    assert_eq!((lock(false), lock(true)), ("🔒", "*"));
    assert_eq!(spinner_ticks(true), vec!["|", "/", "-", "\\"]);
    assert_eq!(spinner_ticks(false).len(), 10);
}

#[test]
fn lines_are_coloured_as_the_terminal_takes_them() {
    assert_eq!(tint("x", (1, 20, 255)), "\x1b[38;2;1;20;255mx\x1b[39m");
    assert_eq!(badge("hi", MINT), color(" hi ", MINT));
    assert_eq!(note("hi"), format!("  {}", color("hi", MUTED)));
    assert_eq!(warn(false, "hi"), format!("  {} {}", color("⚠", YELLOW), color("hi", TEXT)));
    assert_eq!(error(true, "hi"), format!("  {} {}", color("x", RED), color("hi", TEXT)));
    assert_eq!(
        phase_done(false, "sealed", "detail"),
        format!("  {} {}{}", color("◆", MINT), color(&format!("{:<22}", "sealed"), TEXT), color("detail", MUTED))
    );
    assert_eq!(divider(true), format!("  {}", color(&"-".repeat(46), FAINT)));
    assert_eq!(
        header(false, "!", "title"),
        format!(
            "  !  {}  {}  {}",
            "DIFFUSE".truecolor(ACCENT.0, ACCENT.1, ACCENT.2).bold(),
            color("·", FAINT),
            color("title", TEXT)
        )
    );
    assert_eq!(
        section("#", "part"),
        format!("  # {}", "part".truecolor(ACCENT.0, ACCENT.1, ACCENT.2).bold())
    );
    assert_eq!(step("i", "label", ""), format!("  i {}", color("label", TEXT)));
    assert_eq!(
        ok(false, "label", "more"),
        format!("  {} {}{}", color("◆", MINT), color(&format!("{:<24}", "label"), TEXT), color("more", MUTED))
    );
    let who = format!("  {} {}", color("◆", GOLD), "me".truecolor(GOLD.0, GOLD.1, GOLD.2).bold());
    assert_eq!(role("◆", "me", GOLD, ""), who);
    assert_eq!(role("◆", "me", GOLD, "now"), format!("{}   {}", who, color("now", MUTED)));
}

#[test]
fn the_figures_of_an_answer() {
    assert_eq!(
        hud(true, 1, "3.5", 30),
        format!("  {}", color("* e2e - 1 hop - 3.5 tok/s - compute 30% - net 70%", FAINT))
    );
    assert_eq!(
        hud(false, 2, "3.5", 130),
        format!("  {}", color("🔒 e2e · 2 hops · 3.5 tok/s · compute 130% · net 0%", FAINT))
    );
    assert_eq!(
        meter_text(true, "3.5", 6),
        format!(
            "{} {}  {}  {}  {}",
            color("-", ACCENT),
            color("*", ACCENT),
            color("3.5 tok/s", MINT),
            color("-", FAINT),
            color("6 tokens", MUTED)
        )
    );
}

#[test]
fn the_meter_follows_the_cursor() {
    let mut m = LiveMeter::new(true, 10);
    assert_eq!(m.push("abc"), color("abc", GOLD));
    assert_eq!((m.rows, m.col), (1, 5));
    m.push("defgh");
    assert_eq!((m.rows, m.col), (2, 0), "a full row wraps");
    m.push("x\ny");
    assert_eq!((m.rows, m.col), (3, 1));
    assert_eq!(m.tick("s"), Some("\x1b7\x1b[3A\r\x1b[2K  s\x1b8".to_string()));
    assert_eq!(m.clear(), Some("\x1b7\x1b[3A\r\x1b[2K\x1b8".to_string()));
    let quiet = LiveMeter::new(false, 0);
    assert_eq!(quiet.width, 80);
    assert_eq!(quiet.tick("s"), None);
    assert_eq!(quiet.clear(), None);

    let mut whole = LiveMeter::new(true, 7);
    whole.push("one two\nthree four");
    let mut pieces = LiveMeter::new(true, 7);
    for piece in ["one", " two\nth", "ree", " four"] {
        pieces.push(piece);
    }
    assert_eq!((whole.rows, whole.col), (pieces.rows, pieces.col));
}

#[test]
fn the_banner_is_framed() {
    let lines = render_banner("1.2", "m");
    assert_eq!(lines.len(), 18);
    let frame = (70, 80, 100);
    assert_eq!(
        lines[0],
        format!("  {}{}{}", color("╭", frame), color(&"─".repeat(64), frame), color("╮", frame))
    );
    let s = "version 1.2";
    assert_eq!(
        lines[14],
        format!(
            "  {}{}{}{}{}",
            color("│", frame),
            " ".repeat(26),
            color(s, (150, 160, 180)),
            " ".repeat(27),
            color("│", frame)
        )
    );
}

fn cap(servable: bool, min_replicas: usize, slices: Vec<(u32, u32, usize)>, total: u32) -> ModelCapacity {
    ModelCapacity {
        model_id: "m".to_string(),
        total_layers: total,
        slices: slices
            .into_iter()
            .map(|(a, b, n)| SliceCoverage { start_layer: a, end_layer: b, replicas: n })
            .collect(),
        servable,
        min_replicas,
        weakest_slice: None,
    }
}

#[test]
fn the_state_of_a_model_in_a_word() {
    assert_eq!(status(&cap(true, 2, vec![], 0), 2), "ROBUST".bright_green().bold().to_string());
    assert_eq!(status(&cap(true, 1, vec![], 0), 2), "FRAGILE".yellow().bold().to_string());
    assert_eq!(status(&cap(false, 2, vec![], 0), 2), "INCOMPLETE".red().bold().to_string());
    assert_eq!(dots(0), "○○○".red().to_string());
    assert_eq!(dots(1), "●○○".yellow().to_string());
    assert_eq!(dots(5), "●●●".bright_green().to_string());
}

#[test]
fn the_state_of_the_network() {
    let caps = vec![cap(false, 1, vec![(0, 6, 1), (9, 12, 0)], 12)];
    assert!(countable(&caps));
    let lines = render_network_state(&caps, 3, 2);
    assert_eq!(lines[1], "  ◆ DIFFUSE NETWORK".bright_cyan().bold().to_string());
    assert_eq!(lines[2], format!("  {} {} nodes online", "●".bright_green(), "3".bright_white().bold()));
    assert_eq!(
        lines[4],
        format!("  {} {}  [{}]", "▸".bright_blue(), "m".bright_white().bold(), "INCOMPLETE".red().bold())
    );
    let bar = "█".repeat(12) + &"░".repeat(12);
    assert_eq!(
        lines[5],
        format!("      {} {}/{} layers", bar.yellow(), "6".bright_white(), "12".dimmed())
    );
    assert_eq!(
        lines[6],
        format!("        {}:{}  {} 1 replica(s)", "0".dimmed(), "6".dimmed(), "●○○".yellow())
    );
    assert_eq!(lines.len(), 9);
    let none = render_network_state(&[], 0, 2);
    assert_eq!(none[4], format!("  {}", "No models on the network yet.".dimmed()));
}

#[test]
fn layers_are_counted_slice_by_slice() {
    let c = cap(true, 1, vec![(0, 6, 1), (4, 8, 2), (8, 12, 0), (9, 3, 1)], 12);
    assert_eq!(covered_layers(&c.slices), Some(10));
    let huge = cap(true, 1, vec![(0, u32::MAX, 1), (0, 1, 1)], 12);
    assert_eq!(covered_layers(&huge.slices), None);
    assert!(!countable(&[huge]));
}
