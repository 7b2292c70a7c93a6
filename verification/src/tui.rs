//! What is shown on the terminal: the marks, the colours, and the lines.

use vstd::prelude::*;

use crate::text;

verus! {

pub const ACCENT: (u8, u8, u8) = (90, 210, 235);

pub const MINT: (u8, u8, u8) = (80, 220, 160);

pub const GOLD: (u8, u8, u8) = (245, 220, 130);

pub const VIOLET: (u8, u8, u8) = (176, 148, 250);

pub const TEXT: (u8, u8, u8) = (226, 232, 240);

pub const MUTED: (u8, u8, u8) = (128, 140, 158);

pub const FAINT: (u8, u8, u8) = (86, 98, 118);

pub const RED: (u8, u8, u8) = (236, 104, 116);

pub const YELLOW: (u8, u8, u8) = (240, 192, 96);

// ---------------------------------------------------------------------------
// Colours
// ---------------------------------------------------------------------------

/// A text in a colour, as a terminal takes it.
pub open spec fn tinted(s: Seq<char>, c: (u8, u8, u8)) -> Seq<char> {
    "\x1b[38;2;"@ + text::dec(c.0 as nat) + ";"@ + text::dec(c.1 as nat) + ";"@ + text::dec(
        c.2 as nat,
    ) + "m"@ + s + "\x1b[39m"@
}

/// Trusted: `truecolor` of `owo_colors::OwoColorize`, written out, puts the
/// sequence that sets the colour before a text, and the one that sets the default
/// colour behind it.
#[verifier::external_body]
fn owo_truecolor(s: &str, r: u8, g: u8, b: u8) -> (t: String)
    ensures
        t@ == tinted(s@, (r, g, b)),
{
    owo_colors::OwoColorize::truecolor(&s, r, g, b).to_string()
}

/// A text in a colour.
pub fn tint(s: &str, c: (u8, u8, u8)) -> (t: String)
    ensures
        t@ == tinted(s@, c),
{
    owo_truecolor(s, c.0, c.1, c.2)
}

/// A text in bold letters, as a terminal takes it.
pub open spec fn boldened(s: Seq<char>) -> Seq<char> {
    "\x1b[1m"@ + s + "\x1b[0m"@
}

/// Trusted: `bold` of `owo_colors::OwoColorize`, written out, puts the sequence
/// that sets bold letters before a text, and the one that resets all behind it.
#[verifier::external_body]
pub(crate) fn owo_bold(s: &str) -> (t: String)
    ensures
        t@ == boldened(s@),
{
    owo_colors::OwoColorize::bold(&s).to_string()
}

/// A text in bold letters of a colour.
pub fn tint_bold(s: &str, c: (u8, u8, u8)) -> (t: String)
    ensures
        t@ == boldened(tinted(s@, c)),
{
    owo_bold(tint(s, c).as_str())
}

// ---------------------------------------------------------------------------
// Marks
// ---------------------------------------------------------------------------

/// One of two marks: the plain one on a terminal that shows ASCII only.
pub fn sym(ascii_only: bool, fancy: &'static str, plain: &'static str) -> (r: &'static str)
    ensures
        r@ == if ascii_only {
            plain@
        } else {
            fancy@
        },
{
    if ascii_only {
        plain
    } else {
        fancy
    }
}

/// The mark of the one who asks.
pub fn human(ascii_only: bool) -> (r: &'static str)
    ensures
        r@ == if ascii_only {
            "*"@
        } else {
            "●"@
        },
{
    sym(ascii_only, "●", "*")
}

/// The mark of the model.
pub fn robot(ascii_only: bool) -> (r: &'static str)
    ensures
        r@ == if ascii_only {
            ">"@
        } else {
            "◆"@
        },
{
    sym(ascii_only, "◆", ">")
}

/// The mark of a lock.
pub open spec fn lock_mark(ascii_only: bool) -> Seq<char> {
    if ascii_only {
        "*"@
    } else {
        "🔒"@
    }
}

/// The mark of what is encrypted.
pub fn lock(ascii_only: bool) -> (r: &'static str)
    ensures
        r@ == lock_mark(ascii_only),
{
    sym(ascii_only, "🔒", "*")
}

/// The mark of a step that is done.
pub open spec fn done_mark(ascii_only: bool) -> Seq<char> {
    if ascii_only {
        "*"@
    } else {
        "◆"@
    }
}

/// The mark of a step that is done.
pub fn done_glyph(ascii_only: bool) -> (r: &'static str)
    ensures
        r@ == done_mark(ascii_only),
{
    sym(ascii_only, "◆", "*")
}

/// The mark between two parts of a line.
pub open spec fn dot_mark(ascii_only: bool) -> Seq<char> {
    if ascii_only {
        "-"@
    } else {
        "·"@
    }
}

/// The mark between two parts of a line.
pub fn dot(ascii_only: bool) -> (r: &'static str)
    ensures
        r@ == dot_mark(ascii_only),
{
    sym(ascii_only, "·", "-")
}

/// The mark that a rule across the screen is made of.
pub open spec fn rule_mark(ascii_only: bool) -> char {
    if ascii_only {
        '-'
    } else {
        '─'
    }
}

/// The mark that a rule across the screen is made of.
pub fn rule_glyph(ascii_only: bool) -> (r: char)
    ensures
        r == rule_mark(ascii_only),
{
    if ascii_only {
        '-'
    } else {
        '─'
    }
}

/// The marks of a spinner, in the order in which they are shown.
pub open spec fn spin_marks(ascii_only: bool) -> Seq<Seq<char>> {
    if ascii_only {
        seq!["|"@, "/"@, "-"@, "\\"@]
    } else {
        seq!["⠋"@, "⠙"@, "⠹"@, "⠸"@, "⠼"@, "⠴"@, "⠦"@, "⠧"@, "⠇"@, "⠏"@]
    }
}

/// The marks of a spinner, in the order in which they are shown.
pub fn spinner_ticks(ascii_only: bool) -> (r: Vec<&'static str>)
    ensures
        r@.len() == spin_marks(ascii_only).len(),
        forall|i: int| 0 <= i < r@.len() ==> (#[trigger] r@[i])@ == spin_marks(ascii_only)[i],
{
    if ascii_only {
        vec!["|", "/", "-", "\\"]
    } else {
        vec!["⠋", "⠙", "⠹", "⠸", "⠼", "⠴", "⠦", "⠧", "⠇", "⠏"]
    }
}

// ---------------------------------------------------------------------------
// Lines
// ---------------------------------------------------------------------------

/// A text with a space on either side, in a colour.
pub fn badge(text: &str, color: (u8, u8, u8)) -> (r: String)
    ensures
        r@ == tinted(" "@ + text@ + " "@, color),
{
    let mut padded: String = " ".to_string();
    padded.append(text);
    padded.append(" ");
    tint(padded.as_str(), color)
}

/// The line of a phase that is done.
pub fn phase_done(ascii_only: bool, label: &str, detail: &str) -> (r: String)
    ensures
        r@ == "  "@ + tinted(done_mark(ascii_only), MINT) + " "@ + tinted(
            text::pad_right(label@, 22),
            TEXT,
        ) + tinted(detail@, MUTED),
{
    let mut r: String = "  ".to_string();
    r.append(tint(done_glyph(ascii_only), MINT).as_str());
    r.append(" ");
    r.append(tint(text::padded_right(label, 22).as_str(), TEXT).as_str());
    r.append(tint(detail, MUTED).as_str());
    r
}

/// A rule across the screen.
pub fn divider(ascii_only: bool) -> (r: String)
    ensures
        r@ == "  "@ + tinted(text::repeated(rule_mark(ascii_only), 46), FAINT),
{
    let mut r: String = "  ".to_string();
    let line: String = text::repeat_char(rule_glyph(ascii_only), 46);
    r.append(tint(line.as_str(), FAINT).as_str());
    r
}

/// The line that says who speaks.
pub fn role(icon: &str, name: &str, accent: (u8, u8, u8), meta: &str) -> (r: String)
    ensures
        r@ == "  "@ + tinted(icon@, accent) + " "@ + boldened(tinted(name@, accent)) + (
        if meta@.len() == 0 {
            Seq::empty()
        } else {
            "   "@ + tinted(meta@, MUTED)
        }),
{
    let mut r: String = "  ".to_string();
    r.append(tint(icon, accent).as_str());
    r.append(" ");
    r.append(tint_bold(name, accent).as_str());
    if meta.is_empty() {
        assert(r@ + Seq::<char>::empty() =~= r@);
        return r;
    }
    let ghost head = r@;
    r.append("   ");
    r.append(tint(meta, MUTED).as_str());
    assert(r@ =~= head + ("   "@ + tinted(meta@, MUTED)));
    r
}

/// What is said while an answer comes: how fast it comes, as `rate` says it, and
/// how many tokens came.
pub fn meter_text(ascii_only: bool, rate: &str, tokens: usize) -> (r: String)
    ensures
        r@ == tinted(
            spin_marks(ascii_only)[tokens as int % spin_marks(ascii_only).len() as int],
            ACCENT,
        ) + " "@ + tinted(lock_mark(ascii_only), ACCENT) + "  "@ + tinted(
            rate@ + " tok/s"@,
            MINT,
        ) + "  "@ + tinted(dot_mark(ascii_only), FAINT) + "  "@ + tinted(
            text::dec(tokens as nat) + " tokens"@,
            MUTED,
        ),
{
    let frames: Vec<&'static str> = spinner_ticks(ascii_only);
    let k: usize = tokens % frames.len();
    assert(frames@[k as int]@ == spin_marks(ascii_only)[k as int]);
    let mut r: String = tint(frames[k], ACCENT);
    r.append(" ");
    r.append(tint(lock(ascii_only), ACCENT).as_str());
    r.append("  ");
    let mut speed: String = rate.to_string();
    speed.append(" tok/s");
    r.append(tint(speed.as_str(), MINT).as_str());
    r.append("  ");
    r.append(tint(dot(ascii_only), FAINT).as_str());
    r.append("  ");
    let mut count: String = text::decimal(tokens as u64);
    count.append(" tokens");
    r.append(tint(count.as_str(), MUTED).as_str());
    r
}

/// What a line says of an answer that came.
pub open spec fn hud_text(
    ascii_only: bool,
    hops: nat,
    rate: Seq<char>,
    compute_pct: nat,
) -> Seq<char> {
    let between = " "@ + dot_mark(ascii_only) + " "@;
    lock_mark(ascii_only) + " e2e"@ + between + text::dec(hops) + " "@ + (if hops == 1 {
        "hop"@
    } else {
        "hops"@
    }) + between + rate + " tok/s"@ + between + "compute "@ + text::dec(compute_pct) + "%"@
        + between + "net "@ + text::dec(
        if compute_pct <= 100 {
            (100 - compute_pct) as nat
        } else {
            0
        },
    ) + "%"@
}

/// The line behind an answer: over how many nodes it came, how fast, as `rate`
/// says it, and how much of the time went into computing and into the network.
pub fn hud(ascii_only: bool, hops: usize, rate: &str, compute_pct: u32) -> (r: String)
    ensures
        r@ == "  "@ + tinted(hud_text(ascii_only, hops as nat, rate@, compute_pct as nat), FAINT),
{
    let net: u32 = if compute_pct <= 100 {
        100 - compute_pct
    } else {
        0
    };
    let mut between: String = " ".to_string();
    between.append(dot(ascii_only));
    between.append(" ");
    let mut line: String = lock(ascii_only).to_string();
    line.append(" e2e");
    line.append(between.as_str());
    line.append(text::decimal(hops as u64).as_str());
    line.append(" ");
    line.append(
        if hops == 1 {
            "hop"
        } else {
            "hops"
        },
    );
    line.append(between.as_str());
    line.append(rate);
    line.append(" tok/s");
    line.append(between.as_str());
    line.append("compute ");
    line.append(text::decimal(compute_pct as u64).as_str());
    line.append("%");
    line.append(between.as_str());
    line.append("net ");
    line.append(text::decimal(net as u64).as_str());
    line.append("%");
    let mut r: String = "  ".to_string();
    r.append(tint(line.as_str(), FAINT).as_str());
    r
}

/// The line at the head of a command.
pub fn header(ascii_only: bool, icon: &str, title: &str) -> (r: String)
    ensures
        r@ == "  "@ + icon@ + "  "@ + boldened(tinted("DIFFUSE"@, ACCENT)) + "  "@ + tinted(
            dot_mark(ascii_only),
            FAINT,
        ) + "  "@ + tinted(title@, TEXT),
{
    let mut r: String = "  ".to_string();
    r.append(icon);
    r.append("  ");
    r.append(tint_bold("DIFFUSE", ACCENT).as_str());
    r.append("  ");
    r.append(tint(dot(ascii_only), FAINT).as_str());
    r.append("  ");
    r.append(tint(title, TEXT).as_str());
    r
}

/// The line at the head of a part of what is shown.
pub fn section(icon: &str, title: &str) -> (r: String)
    ensures
        r@ == "  "@ + icon@ + " "@ + boldened(tinted(title@, ACCENT)),
{
    let mut r: String = "  ".to_string();
    r.append(icon);
    r.append(" ");
    r.append(tint_bold(title, ACCENT).as_str());
    r
}

/// A line with a mark, a label, and what there is to say of it.
pub open spec fn step_text(icon: Seq<char>, label: Seq<char>, detail: Seq<char>) -> Seq<char> {
    if detail.len() == 0 {
        "  "@ + icon + " "@ + tinted(label, TEXT)
    } else {
        "  "@ + icon + " "@ + tinted(text::pad_right(label, 24), TEXT) + tinted(detail, MUTED)
    }
}

/// A line with a mark, a label, and what there is to say of it.
pub fn step(icon: &str, label: &str, detail: &str) -> (r: String)
    ensures
        r@ == step_text(icon@, label@, detail@),
{
    let mut r: String = "  ".to_string();
    r.append(icon);
    r.append(" ");
    if detail.is_empty() {
        r.append(tint(label, TEXT).as_str());
    } else {
        r.append(tint(text::padded_right(label, 24).as_str(), TEXT).as_str());
        r.append(tint(detail, MUTED).as_str());
    }
    r
}

/// The line of something that went well.
pub fn ok(ascii_only: bool, label: &str, detail: &str) -> (r: String)
    ensures
        r@ == step_text(tinted(done_mark(ascii_only), MINT), label@, detail@),
{
    step(tint(done_glyph(ascii_only), MINT).as_str(), label, detail)
}

/// A line of little weight.
pub fn note(text: &str) -> (r: String)
    ensures
        r@ == "  "@ + tinted(text@, MUTED),
{
    let mut r: String = "  ".to_string();
    r.append(tint(text, MUTED).as_str());
    r
}

/// The line of something to be aware of.
pub fn warn(ascii_only: bool, text: &str) -> (r: String)
    ensures
        r@ == "  "@ + tinted(
            if ascii_only {
                "!"@
            } else {
                "⚠"@
            },
            YELLOW,
        ) + " "@ + tinted(text@, TEXT),
{
    let mut r: String = "  ".to_string();
    r.append(tint(sym(ascii_only, "⚠", "!"), YELLOW).as_str());
    r.append(" ");
    r.append(tint(text, TEXT).as_str());
    r
}

/// The line of something that went wrong.
pub fn error(ascii_only: bool, text: &str) -> (r: String)
    ensures
        r@ == "  "@ + tinted(
            if ascii_only {
                "x"@
            } else {
                "✗"@
            },
            RED,
        ) + " "@ + tinted(text@, TEXT),
{
    let mut r: String = "  ".to_string();
    r.append(tint(sym(ascii_only, "✗", "x"), RED).as_str());
    r.append(" ");
    r.append(tint(text, TEXT).as_str());
    r
}

// ---------------------------------------------------------------------------
// The banner
// ---------------------------------------------------------------------------

/// A line of a banner: what stands in its middle, in which colour, and whether in
/// bold letters.
pub open spec fn banner_rows(version: Seq<char>, model: Seq<char>) -> Seq<
    (Seq<char>, (u8, u8, u8), bool),
> {
    let cyan = (90u8, 210u8, 235u8);
    let dim = (60u8, 150u8, 175u8);
    let red = (235u8, 70u8, 90u8);
    let soft = (150u8, 160u8, 180u8);
    seq![
        (""@, cyan, false),
        ("        ╭─────────────────╮        "@, dim, true),
        ("     ╭──┤  ◆   ◆   ◆   ◆  ├──╮     "@, dim, true),
        ("   ╭─┤  ╰─────────────────╯  ├─╮   "@, dim, true),
        ("   │ │  ·  D I F F U S E  ·  │ │   "@, cyan, true),
        ("   ╰─┤  ╭─────────────────╮  ├─╯   "@, dim, true),
        ("     ╰──┤  ◆   ◆   ◆   ◆  ├──╯     "@, dim, true),
        ("        ╰─────────────────╯        "@, dim, true),
        (""@, cyan, false),
        ("DECENTRALIZED PRIVATE INFERENCE"@, red, true),
        (""@, cyan, false),
        ("no servers · no surveillance · no logs"@, cyan, true),
        (""@, cyan, false),
        ("version "@ + version, soft, false),
        ("model   "@ + model, soft, false),
        (""@, cyan, false),
    ]
}

/// The width between the sides of the banner.
pub const BANNER_WIDTH: usize = 64;

/// The colour of the frame of the banner.
pub const FRAME: (u8, u8, u8) = (70, 80, 100);

/// A line of the banner: a text in the middle between two sides. Where the space
/// that is left over is odd, there is one more on the right.
pub open spec fn framed(s: Seq<char>, c: (u8, u8, u8), bold: bool) -> Seq<char> {
    let pad = if s.len() <= BANNER_WIDTH {
        (BANNER_WIDTH - s.len()) as nat
    } else {
        0
    };
    "  "@ + tinted("│"@, FRAME) + text::repeated(' ', pad / 2) + (if bold {
        boldened(tinted(s, c))
    } else {
        tinted(s, c)
    }) + text::repeated(' ', (pad - pad / 2) as nat) + tinted("│"@, FRAME)
}

/// A line of the banner.
fn banner_line(s: &str, c: (u8, u8, u8), bold: bool) -> (r: String)
    ensures
        r@ == framed(s@, c, bold),
{
    let len: usize = text::chars_of(s).len();
    let pad: usize = if len <= BANNER_WIDTH {
        BANNER_WIDTH - len
    } else {
        0
    };
    let left: usize = pad / 2;
    let mut r: String = "  ".to_string();
    r.append(tint("│", FRAME).as_str());
    r.append(text::repeat_char(' ', left).as_str());
    if bold {
        r.append(tint_bold(s, c).as_str());
    } else {
        r.append(tint(s, c).as_str());
    }
    r.append(text::repeat_char(' ', pad - left).as_str());
    r.append(tint("│", FRAME).as_str());
    r
}

/// The upper or the lower side of the banner.
pub open spec fn edge(left: Seq<char>, right: Seq<char>) -> Seq<char> {
    "  "@ + tinted(left, FRAME) + tinted(text::repeated('─', BANNER_WIDTH as nat), FRAME) + tinted(
        right,
        FRAME,
    )
}

fn banner_edge(left: &str, right: &str) -> (r: String)
    ensures
        r@ == edge(left@, right@),
{
    let mut r: String = "  ".to_string();
    r.append(tint(left, FRAME).as_str());
    r.append(tint(text::repeat_char('─', BANNER_WIDTH).as_str(), FRAME).as_str());
    r.append(tint(right, FRAME).as_str());
    r
}

/// The lines of the banner.
pub open spec fn banner_lines(version: Seq<char>, model: Seq<char>) -> Seq<Seq<char>> {
    seq![edge("╭"@, "╮"@)] + banner_rows(version, model).map_values(
        |row: (Seq<char>, (u8, u8, u8), bool)| framed(row.0, row.1, row.2),
    ) + seq![edge("╰"@, "╯"@)]
}

/// The lines of the banner at the head of a conversation with a model.
pub fn render_banner(version: &str, model: &str) -> (r: Vec<String>)
    ensures
        text::views(r@) == banner_lines(version@, model@),
{
    let cyan: (u8, u8, u8) = (90, 210, 235);
    let dim: (u8, u8, u8) = (60, 150, 175);
    let red: (u8, u8, u8) = (235, 70, 90);
    let soft: (u8, u8, u8) = (150, 160, 180);
    let mut v: String = "version ".to_string();
    v.append(version);
    let mut m: String = "model   ".to_string();
    m.append(model);
    let mut r: Vec<String> = Vec::new();
    r.push(banner_edge("╭", "╮"));
    r.push(banner_line("", cyan, false));
    r.push(banner_line("        ╭─────────────────╮        ", dim, true));
    r.push(banner_line("     ╭──┤  ◆   ◆   ◆   ◆  ├──╮     ", dim, true));
    r.push(banner_line("   ╭─┤  ╰─────────────────╯  ├─╮   ", dim, true));
    r.push(banner_line("   │ │  ·  D I F F U S E  ·  │ │   ", cyan, true));
    r.push(banner_line("   ╰─┤  ╭─────────────────╮  ├─╯   ", dim, true));
    r.push(banner_line("     ╰──┤  ◆   ◆   ◆   ◆  ├──╯     ", dim, true));
    r.push(banner_line("        ╰─────────────────╯        ", dim, true));
    r.push(banner_line("", cyan, false));
    r.push(banner_line("DECENTRALIZED PRIVATE INFERENCE", red, true));
    r.push(banner_line("", cyan, false));
    r.push(banner_line("no servers · no surveillance · no logs", cyan, true));
    r.push(banner_line("", cyan, false));
    r.push(banner_line(v.as_str(), soft, false));
    r.push(banner_line(m.as_str(), soft, false));
    r.push(banner_line("", cyan, false));
    r.push(banner_edge("╰", "╯"));
    assert(text::views(r@) =~= banner_lines(version@, model@));
    r
}

// ---------------------------------------------------------------------------
// The meter of an answer that comes
// ---------------------------------------------------------------------------

/// Where the cursor stands: how many rows below the meter, and in which column.
pub open spec fn moved(width: nat, at: (nat, nat), c: char) -> (nat, nat) {
    if c == '\n' {
        (at.0 + 1, 0)
    } else if at.1 + 1 >= width {
        (at.0 + 1, 0)
    } else {
        (at.0, at.1 + 1)
    }
}

/// Where the cursor stands once a text was written.
pub open spec fn walked(width: nat, at: (nat, nat), s: Seq<char>) -> (nat, nat)
    decreases s.len(),
{
    if s.len() == 0 {
        at
    } else {
        moved(width, walked(width, at, s.drop_last()), s.last())
    }
}

/// Writing two texts one behind the other moves the cursor as writing both at
/// once does.
pub proof fn pieces_move_as_the_whole(width: nat, at: (nat, nat), a: Seq<char>, b: Seq<char>)
    ensures
        walked(width, at, a + b) == walked(width, walked(width, at, a), b),
    decreases b.len(),
{
    if b.len() == 0 {
        assert(a + b =~= a);
    } else {
        assert((a + b).drop_last() =~= a + b.drop_last());
        pieces_move_as_the_whole(width, at, a, b.drop_last());
    }
}

/// A text moves the cursor by no more rows than it has characters, and the column
/// grows by no more than that.
proof fn a_walk_is_bounded(width: nat, at: (nat, nat), s: Seq<char>)
    ensures
        walked(width, at, s).0 <= at.0 + s.len(),
        walked(width, at, s).1 <= at.1 + s.len(),
    decreases s.len(),
{
    if s.len() > 0 {
        a_walk_is_bounded(width, at, s.drop_last());
    }
}

/// A line above an answer that is rewritten while the answer comes.
#[derive(Debug)]
pub struct LiveMeter {
    pub active: bool,
    pub width: usize,
    pub rows: usize,
    pub col: usize,
}

impl LiveMeter {
    /// A meter one row above the cursor, on a terminal of a width; one that does
    /// not tell its width counts as one of 80 columns. It is written only where
    /// there is a terminal.
    pub fn new(active: bool, width: usize) -> (m: Self)
        ensures
            m.active == active,
            m.width == if width == 0 {
                80
            } else {
                width
            },
            m.rows == 1,
            m.col == 2,
    {
        LiveMeter {
            active,
            width: if width == 0 {
                80
            } else {
                width
            },
            rows: 1,
            col: 2,
        }
    }

    /// Follows the cursor over a piece of the answer, and returns what is written
    /// of it.
    pub fn push(&mut self, raw: &str) -> (shown: String)
        requires
            old(self).rows + raw@.len() <= usize::MAX,
            old(self).col + raw@.len() <= usize::MAX,
        ensures
            shown@ == tinted(raw@, GOLD),
            final(self).active == old(self).active,
            final(self).width == old(self).width,
            (final(self).rows as nat, final(self).col as nat) == walked(
                old(self).width as nat,
                (old(self).rows as nat, old(self).col as nat),
                raw@,
            ),
    {
        let cs: Vec<char> = text::chars_of(raw);
        let ghost at = (self.rows as nat, self.col as nat);
        let mut i: usize = 0;
        assert(cs@.take(0).len() == 0);
        while i < cs.len()
            invariant
                i <= cs@.len(),
                cs@ == raw@,
                self.active == old(self).active,
                self.width == old(self).width,
                at == (old(self).rows as nat, old(self).col as nat),
                at.0 + raw@.len() <= usize::MAX,
                at.1 + raw@.len() <= usize::MAX,
                (self.rows as nat, self.col as nat) == walked(
                    self.width as nat,
                    at,
                    cs@.take(i as int),
                ),
            decreases cs@.len() - i,
        {
            proof {
                assert(cs@.take(i + 1).drop_last() =~= cs@.take(i as int));
                a_walk_is_bounded(self.width as nat, at, cs@.take(i as int));
            }
            if cs[i] == '\n' {
                self.rows += 1;
                self.col = 0;
            } else {
                self.col += 1;
                if self.col >= self.width {
                    self.rows += 1;
                    self.col = 0;
                }
            }
            i += 1;
        }
        assert(cs@.take(i as int) =~= raw@);
        tint(raw, GOLD)
    }

    /// What is written to show `status` in the meter: it goes up to its row,
    /// clears it, and comes back to the cursor.
    pub fn tick(&self, status: &str) -> (r: Option<String>)
        ensures
            match r {
                Some(s) => self.active && s@ == "\x1b7\x1b["@ + text::dec(self.rows as nat)
                    + "A\r\x1b[2K  "@ + status@ + "\x1b8"@,
                None => !self.active,
            },
    {
        if !self.active {
            return None;
        }
        let mut s: String = "\x1b7\x1b[".to_string();
        s.append(text::decimal(self.rows as u64).as_str());
        s.append("A\r\x1b[2K  ");
        s.append(status);
        s.append("\x1b8");
        Some(s)
    }

    /// What is written to clear the meter.
    pub fn clear(&self) -> (r: Option<String>)
        ensures
            match r {
                Some(s) => self.active && s@ == "\x1b7\x1b["@ + text::dec(self.rows as nat)
                    + "A\r\x1b[2K\x1b8"@,
                None => !self.active,
            },
    {
        if !self.active {
            return None;
        }
        let mut s: String = "\x1b7\x1b[".to_string();
        s.append(text::decimal(self.rows as u64).as_str());
        s.append("A\r\x1b[2K\x1b8");
        Some(s)
    }
}

/// A text without line breaks fills the rows one after the other: the cursor ends as many
/// columns on as the text has characters, and in a new row each time that one is full.
pub proof fn a_text_fills_the_rows(width: nat, at: (nat, nat), s: Seq<char>)
    requires
        width > 0,
        at.1 < width,
        forall|i: int| 0 <= i < s.len() ==> #[trigger] s[i] != '\n',
    ensures
        walked(width, at, s).1 < width,
        width * walked(width, at, s).0 + walked(width, at, s).1 == width * at.0 + at.1 + s.len(),
    decreases s.len(),
{
    if s.len() > 0 {
        let init = s.drop_last();
        assert forall|i: int| 0 <= i < init.len() implies #[trigger] init[i] != '\n' by {
            assert(init[i] == s[i]);
        }
        a_text_fills_the_rows(width, at, init);
        let (row, col) = walked(width, at, init);
        assert(s.last() == s[s.len() - 1]);
        assert(width * (row + 1) == width * row + width) by (nonlinear_arith);
    }
}

/// A line break leads to the first column of the next row.
pub proof fn a_line_break_leads_to_the_next_row(width: nat, at: (nat, nat), s: Seq<char>)
    ensures
        walked(width, at, s.push('\n')).0 == walked(width, at, s).0 + 1,
        walked(width, at, s.push('\n')).1 == 0,
        walked(width, at, Seq::empty()) == at,
{
    assert(s.push('\n').drop_last() =~= s);
}

/// A text in a colour is the text with something before it and behind it that depends on
/// the colour alone, and so is one in bold letters.
pub proof fn a_colour_only_adds(s: Seq<char>, t: Seq<char>, c: (u8, u8, u8))
    ensures
        text::has_part(tinted(s, c), s),
        text::has_part(boldened(s), s),
        tinted(s, c).len() - s.len() == tinted(t, c).len() - t.len(),
        boldened(s).len() - s.len() == boldened(t).len() - t.len(),
{
    let front = "\x1b[38;2;"@ + text::dec(c.0 as nat) + ";"@ + text::dec(c.1 as nat) + ";"@
        + text::dec(c.2 as nat) + "m"@;
    text::what_is_put_in_front_is_found(front, "\x1b[39m"@, s);
    text::what_is_put_in_front_is_found("\x1b[1m"@, "\x1b[0m"@, s);
}

/// All lines of the banner are equally wide, and each text stands in the middle: the space
/// to its right is as wide as the one to its left, or one wider.
pub proof fn the_banner_is_even(s: Seq<char>, t: Seq<char>, c: (u8, u8, u8), bold: bool)
    requires
        s.len() <= BANNER_WIDTH,
        t.len() <= BANNER_WIDTH,
    ensures
        framed(s, c, bold).len() == framed(t, c, bold).len(),
        exists|left: nat|
            framed(s, c, bold) == "  "@ + tinted("│"@, FRAME) + #[trigger] text::repeated(' ', left)
                + (if bold {
                boldened(tinted(s, c))
            } else {
                tinted(s, c)
            }) + text::repeated(' ', (BANNER_WIDTH - s.len() - left) as nat) + tinted("│"@, FRAME)
                && left <= BANNER_WIDTH - s.len() - left <= left + 1,
{
    a_colour_only_adds(s, t, c);
    a_colour_only_adds(tinted(s, c), tinted(t, c), c);
    let left = ((BANNER_WIDTH - s.len()) as nat) / 2;
    assert(text::repeated(' ', left).len() == left);
}

} // verus!
