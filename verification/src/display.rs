//! The state of the network, as it is shown on the terminal.

use vstd::prelude::*;

use crate::capacity::{ModelCapacity, SliceCoverage};
use crate::text;
use crate::tui::owo_bold;

verus! {

// ---------------------------------------------------------------------------
// Colours
// ---------------------------------------------------------------------------

/// A text in one of the colours of a terminal, by its number.
pub open spec fn colored(s: Seq<char>, code: nat) -> Seq<char> {
    "\x1b["@ + text::dec(code) + "m"@ + s + "\x1b[39m"@
}

/// A text in faint letters.
pub open spec fn faint(s: Seq<char>) -> Seq<char> {
    "\x1b[2m"@ + s + "\x1b[0m"@
}

/// Trusted: `red` of `owo_colors::OwoColorize`, written out: the sequence that sets
/// colour 31, the text, the sequence that sets the default colour.
#[verifier::external_body]
fn owo_red(s: &str) -> (t: String)
    ensures
        t@ == colored(s@, 31),
{
    owo_colors::OwoColorize::red(&s).to_string()
}

/// Trusted: `yellow` of `owo_colors::OwoColorize`, written out: the sequence that
/// sets colour 33, the text, the sequence that sets the default colour.
#[verifier::external_body]
fn owo_yellow(s: &str) -> (t: String)
    ensures
        t@ == colored(s@, 33),
{
    owo_colors::OwoColorize::yellow(&s).to_string()
}

/// Trusted: `bright_green` of `owo_colors::OwoColorize`, written out: the sequence
/// that sets colour 92, the text, the sequence that sets the default colour.
#[verifier::external_body]
fn owo_bright_green(s: &str) -> (t: String)
    ensures
        t@ == colored(s@, 92),
{
    owo_colors::OwoColorize::bright_green(&s).to_string()
}

/// Trusted: `bright_blue` of `owo_colors::OwoColorize`, written out: the sequence
/// that sets colour 94, the text, the sequence that sets the default colour.
#[verifier::external_body]
fn owo_bright_blue(s: &str) -> (t: String)
    ensures
        t@ == colored(s@, 94),
{
    owo_colors::OwoColorize::bright_blue(&s).to_string()
}

/// Trusted: `bright_cyan` of `owo_colors::OwoColorize`, written out: the sequence
/// that sets colour 96, the text, the sequence that sets the default colour.
#[verifier::external_body]
fn owo_bright_cyan(s: &str) -> (t: String)
    ensures
        t@ == colored(s@, 96),
{
    owo_colors::OwoColorize::bright_cyan(&s).to_string()
}

/// Trusted: `bright_white` of `owo_colors::OwoColorize`, written out: the sequence
/// that sets colour 97, the text, the sequence that sets the default colour.
#[verifier::external_body]
fn owo_bright_white(s: &str) -> (t: String)
    ensures
        t@ == colored(s@, 97),
{
    owo_colors::OwoColorize::bright_white(&s).to_string()
}

/// Trusted: `dimmed` of `owo_colors::OwoColorize`, written out: the sequence that
/// sets faint letters, the text, the sequence that resets all.
#[verifier::external_body]
fn owo_dimmed(s: &str) -> (t: String)
    ensures
        t@ == faint(s@),
{
    owo_colors::OwoColorize::dimmed(&s).to_string()
}

// ---------------------------------------------------------------------------
// A model
// ---------------------------------------------------------------------------

/// What is said of a model: whether it can be served, and whether it can lose a
/// node.
pub open spec fn status_text(cap: ModelCapacity, target: nat) -> Seq<char> {
    crate::tui::boldened(
        if cap.servable && cap.min_replicas >= target {
            colored("ROBUST"@, 92)
        } else if cap.servable {
            colored("FRAGILE"@, 33)
        } else {
            colored("INCOMPLETE"@, 31)
        },
    )
}

/// What is said of a model.
pub fn status(cap: &ModelCapacity, target_replication: usize) -> (s: String)
    ensures
        s@ == status_text(*cap, target_replication as nat),
{
    if cap.is_robust(target_replication) {
        owo_bold(owo_bright_green("ROBUST").as_str())
    } else if cap.servable {
        owo_bold(owo_yellow("FRAGILE").as_str())
    } else {
        owo_bold(owo_red("INCOMPLETE").as_str())
    }
}

/// How many layers a slice has, where a node holds it. One that ends before it
/// begins has none.
pub open spec fn layers_of(s: SliceCoverage) -> nat {
    if s.replicas > 0 && s.end_layer >= s.start_layer {
        (s.end_layer - s.start_layer) as nat
    } else {
        0
    }
}

/// How many layers the slices have that are held, each counted by itself.
pub open spec fn held_layers(slices: Seq<SliceCoverage>) -> nat
    decreases slices.len(),
{
    if slices.len() == 0 {
        0
    } else {
        held_layers(slices.drop_last()) + layers_of(slices.last())
    }
}

/// Slices that come first have no more layers than all.
proof fn first_slices_have_fewer(slices: Seq<SliceCoverage>, n: int)
    requires
        0 <= n <= slices.len(),
    ensures
        held_layers(slices.take(n)) <= held_layers(slices),
    decreases slices.len() - n,
{
    if n == slices.len() {
        assert(slices.take(n) =~= slices);
    } else {
        first_slices_have_fewer(slices, n + 1);
        assert(slices.take(n + 1).drop_last() =~= slices.take(n));
    }
}

/// How many layers the slices have that are held, where that fits the counter.
pub fn covered_layers(slices: &Vec<SliceCoverage>) -> (r: Option<u32>)
    ensures
        match r {
            Some(n) => n == held_layers(slices@),
            None => held_layers(slices@) > u32::MAX,
        },
{
    let mut n: u32 = 0;
    let mut i: usize = 0;
    assert(slices@.take(0).len() == 0);
    while i < slices.len()
        invariant
            i <= slices@.len(),
            n == held_layers(slices@.take(i as int)),
        decreases slices@.len() - i,
    {
        let s: SliceCoverage = slices[i];
        let here: u32 = if s.replicas > 0 && s.end_layer >= s.start_layer {
            s.end_layer - s.start_layer
        } else {
            0
        };
        proof {
            assert(slices@.take(i + 1).drop_last() =~= slices@.take(i as int));
            assert(slices@.take(i + 1).last() == s);
            first_slices_have_fewer(slices@, i + 1);
        }
        if here > u32::MAX - n {
            return None;
        }
        n += here;
        i += 1;
    }
    assert(slices@.take(i as int) =~= slices@);
    Some(n)
}

/// How many cells of a bar of `width` are filled: the share of `current` in
/// `total`, to the nearest cell, and half a cell counts as one.
pub open spec fn filled_cells(current: nat, total: nat, width: nat) -> nat {
    let n = (2 * width * current + total) / (2 * total);
    if n <= width {
        n
    } else {
        width
    }
}

/// A bar that shows how much of a model is held.
pub open spec fn bar_text(current: nat, total: nat, width: nat) -> Seq<char> {
    if total == 0 {
        text::repeated(' ', width)
    } else {
        let filled = filled_cells(current, total, width);
        let bar = text::repeated('█', filled) + text::repeated('░', (width - filled) as nat);
        if current >= total {
            colored(bar, 92)
        } else {
            colored(bar, 33)
        }
    }
}

/// A bar of 24 cells that shows how much of a model is held.
pub fn render_bar(current: u32, total: u32) -> (s: String)
    ensures
        s@ == bar_text(current as nat, total as nat, 24),
{
    if total == 0 {
        return text::repeat_char(' ', 24);
    }
    let n: u64 = (48 * (current as u64) + total as u64) / (2 * (total as u64));
    let filled: usize = if n <= 24 {
        n as usize
    } else {
        24
    };
    let mut bar: String = text::repeat_char('█', filled);
    bar.append(text::repeat_char('░', 24 - filled).as_str());
    if current >= total {
        owo_bright_green(bar.as_str())
    } else {
        owo_yellow(bar.as_str())
    }
}

/// Three dots for how often a slice is held: never, once, or more often.
pub open spec fn dots_text(replicas: nat) -> Seq<char> {
    if replicas == 0 {
        colored("○○○"@, 31)
    } else if replicas == 1 {
        colored("●○○"@, 33)
    } else {
        colored("●●●"@, 92)
    }
}

/// Three dots for how often a slice is held.
pub fn dots(replicas: usize) -> (s: String)
    ensures
        s@ == dots_text(replicas as nat),
{
    if replicas == 0 {
        owo_red("○○○")
    } else if replicas == 1 {
        owo_yellow("●○○")
    } else {
        owo_bright_green("●●●")
    }
}

/// The line of a slice.
pub open spec fn slice_text(s: SliceCoverage) -> Seq<char> {
    "        "@ + faint(text::dec(s.start_layer as nat)) + ":"@ + faint(
        text::dec(s.end_layer as nat),
    ) + "  "@ + dots_text(s.replicas as nat) + " "@ + text::dec(s.replicas as nat)
        + " replica(s)"@
}

fn slice_line(s: &SliceCoverage) -> (r: String)
    ensures
        r@ == slice_text(*s),
{
    let mut r: String = "        ".to_string();
    r.append(owo_dimmed(text::decimal(s.start_layer as u64).as_str()).as_str());
    r.append(":");
    r.append(owo_dimmed(text::decimal(s.end_layer as u64).as_str()).as_str());
    r.append("  ");
    r.append(dots(s.replicas).as_str());
    r.append(" ");
    r.append(text::decimal(s.replicas as u64).as_str());
    r.append(" replica(s)");
    r
}

/// The lines of a model: its name and what is said of it, how much of it is held,
/// and its slices.
pub open spec fn model_lines(cap: ModelCapacity, target: nat) -> Seq<Seq<char>> {
    let covered = held_layers(cap.slices@);
    seq![
        "  "@ + colored("▸"@, 94) + " "@ + crate::tui::boldened(colored(cap.model_id@, 97))
            + "  ["@ + status_text(cap, target) + "]"@,
        "      "@ + bar_text(covered, cap.total_layers as nat, 24) + " "@ + colored(
            text::dec(covered),
            97,
        ) + "/"@ + faint(text::dec(cap.total_layers as nat)) + " layers"@,
    ] + cap.slices@.map_values(|s: SliceCoverage| slice_text(s)) + seq![""@]
}

/// Adds the lines of a model to what is shown.
fn push_model(out: &mut Vec<String>, cap: &ModelCapacity, covered: u32, target: usize)
    requires
        covered == held_layers(cap.slices@),
    ensures
        text::views(final(out)@) == text::views(old(out)@) + model_lines(*cap, target as nat),
{
    let ghost before = text::views(out@);
    let mut head: String = "  ".to_string();
    head.append(owo_bright_blue("▸").as_str());
    head.append(" ");
    head.append(owo_bold(owo_bright_white(cap.model_id.as_str()).as_str()).as_str());
    head.append("  [");
    head.append(status(cap, target).as_str());
    head.append("]");
    let mut share: String = "      ".to_string();
    share.append(render_bar(covered, cap.total_layers).as_str());
    share.append(" ");
    share.append(owo_bright_white(text::decimal(covered as u64).as_str()).as_str());
    share.append("/");
    share.append(owo_dimmed(text::decimal(cap.total_layers as u64).as_str()).as_str());
    share.append(" layers");
    let ghost two = seq![head@, share@];
    out.push(head);
    out.push(share);
    let ghost slices = cap.slices@.map_values(|s: SliceCoverage| slice_text(s));
    let mut i: usize = 0;
    assert(text::views(out@) =~= before + two + slices.take(0));
    while i < cap.slices.len()
        invariant
            i <= cap.slices@.len(),
            slices == cap.slices@.map_values(|s: SliceCoverage| slice_text(s)),
            text::views(out@) == before + two + slices.take(i as int),
        decreases cap.slices@.len() - i,
    {
        let ghost sofar = text::views(out@);
        out.push(slice_line(&cap.slices[i]));
        proof {
            assert(text::views(out@) =~= sofar.push(slices[i as int]));
            assert(slices.take(i + 1) =~= slices.take(i as int).push(slices[i as int]));
            assert(text::views(out@) =~= before + two + slices.take(i + 1));
        }
        i += 1;
    }
    let ghost sofar = text::views(out@);
    out.push("".to_string());
    proof {
        assert(slices.take(i as int) =~= slices);
        assert(text::views(out@) =~= sofar.push(""@));
        assert(text::views(out@) =~= before + model_lines(*cap, target as nat));
    }
}

// ---------------------------------------------------------------------------
// The network
// ---------------------------------------------------------------------------

/// Whether the counter of layers is large enough for each of some models.
pub open spec fn can_count(caps: Seq<ModelCapacity>) -> bool {
    forall|i: int| 0 <= i < caps.len() ==> held_layers((#[trigger] caps[i]).slices@) <= u32::MAX
}

/// Whether the counter of layers is large enough for each of some models.
pub fn countable(caps: &[ModelCapacity]) -> (r: bool)
    ensures
        r == can_count(caps@),
{
    let mut i: usize = 0;
    while i < caps.len()
        invariant
            i <= caps@.len(),
            can_count(caps@.take(i as int)),
        decreases caps@.len() - i,
    {
        if covered_layers(&caps[i].slices).is_none() {
            assert(held_layers(caps@[i as int].slices@) > u32::MAX);
            return false;
        }
        proof {
            assert forall|j: int| 0 <= j < i + 1 implies held_layers(
                (#[trigger] caps@.take(i + 1)[j]).slices@,
            ) <= u32::MAX by {
                if j < i {
                    assert(caps@.take(i as int)[j] == caps@[j]);
                }
            }
        }
        i += 1;
    }
    assert(caps@.take(i as int) =~= caps@);
    true
}

/// The lines of some models, one model after the other.
pub open spec fn all_models(caps: Seq<ModelCapacity>, target: nat) -> Seq<Seq<char>>
    decreases caps.len(),
{
    if caps.len() == 0 {
        Seq::empty()
    } else {
        all_models(caps.drop_last(), target) + model_lines(caps.last(), target)
    }
}

/// The lines that show the state of the network.
pub open spec fn network_lines(
    caps: Seq<ModelCapacity>,
    node_count: nat,
    target: nat,
) -> Seq<Seq<char>> {
    seq![
        ""@,
        crate::tui::boldened(colored("  ◆ DIFFUSE NETWORK"@, 96)),
        "  "@ + colored("●"@, 92) + " "@ + crate::tui::boldened(
            colored(text::dec(node_count), 97),
        ) + " nodes online"@,
        ""@,
    ] + (if caps.len() == 0 {
        seq!["  "@ + faint("No models on the network yet."@), ""@]
    } else {
        all_models(caps, target)
    })
}

/// The lines that show the state of the network: how many nodes there are, and
/// what they hold of each model.
pub fn render_network_state(
    caps: &[ModelCapacity],
    node_count: usize,
    target_replication: usize,
) -> (r: Vec<String>)
    requires
        can_count(caps@),
    ensures
        text::views(r@) == network_lines(caps@, node_count as nat, target_replication as nat),
{
    let mut r: Vec<String> = Vec::new();
    r.push("".to_string());
    r.push(owo_bold(owo_bright_cyan("  ◆ DIFFUSE NETWORK").as_str()));
    let mut nodes: String = "  ".to_string();
    nodes.append(owo_bright_green("●").as_str());
    nodes.append(" ");
    nodes.append(
        owo_bold(owo_bright_white(text::decimal(node_count as u64).as_str()).as_str()).as_str(),
    );
    nodes.append(" nodes online");
    r.push(nodes);
    r.push("".to_string());
    let ghost head = text::views(r@);
    if caps.len() == 0 {
        let mut none: String = "  ".to_string();
        none.append(owo_dimmed("No models on the network yet.").as_str());
        r.push(none);
        r.push("".to_string());
        assert(text::views(r@) =~= network_lines(
            caps@,
            node_count as nat,
            target_replication as nat,
        ));
        return r;
    }
    let ghost target = target_replication as nat;
    let mut i: usize = 0;
    proof {
        assert(caps@.take(0).len() == 0);
        assert(head + all_models(caps@.take(0), target) =~= head);
    }
    while i < caps.len()
        invariant
            i <= caps@.len(),
            can_count(caps@),
            target == target_replication,
            text::views(r@) == head + all_models(caps@.take(i as int), target),
        decreases caps@.len() - i,
    {
        assert(held_layers(caps@[i as int].slices@) <= u32::MAX);
        proof {
            assert(caps@.take(i + 1).drop_last() =~= caps@.take(i as int));
            assert(caps@.take(i + 1).last() == caps@[i as int]);
        }
        if let Some(covered) = covered_layers(&caps[i].slices) {
            push_model(&mut r, &caps[i], covered, target_replication);
            assert(text::views(r@) =~= head + all_models(caps@.take(i + 1), target));
        }
        i += 1;
    }
    assert(caps@.take(i as int) =~= caps@);
    assert(text::views(r@) =~= network_lines(caps@, node_count as nat, target_replication as nat));
    r
}

/// A model is shown as held whole where the layers that are held are as many as
/// it has, and a bar is never filled beyond its width.
pub proof fn a_bar_shows_the_share(current: nat, total: nat, width: nat)
    requires
        total > 0,
    ensures
        filled_cells(current, total, width) <= width,
        current >= total ==> filled_cells(current, total, width) == width,
        current == 0 ==> filled_cells(current, total, width) == 0,
{
    let d = 2 * total;
    if current >= total {
        assert(2 * width * current + total >= width * d) by (nonlinear_arith)
            requires
                current >= total,
                d == 2 * total,
        ;
        assert((2 * width * current + total) / d >= width) by (nonlinear_arith)
            requires
                2 * width * current + total >= width * d,
                d > 0,
        ;
    }
    if current == 0 {
        assert(2 * width * current == 0) by (nonlinear_arith)
            requires
                current == 0,
        ;
        assert(total / d == 0) by (nonlinear_arith)
            requires
                d == 2 * total,
                total > 0,
        ;
    }
}

/// The cells of a bar that are filled are the share to the nearest cell: they are off by
/// half a cell at most, and more layers never fill fewer.
pub proof fn a_bar_is_off_by_half_a_cell(current: nat, more: nat, total: nat, width: nat)
    requires
        current <= more <= total,
        total > 0,
    ensures
        -(total as int) <= 2 * (filled_cells(current, total, width) * total) - 2 * (width * current)
            <= total,
        filled_cells(current, total, width) <= filled_cells(more, total, width),
{
    let n = (2 * width * current + total) / (2 * total);
    let m = (2 * width * more + total) / (2 * total);
    assert(2 * width * current == 2 * (width * current)) by (nonlinear_arith);
    assert(2 * width * more == 2 * (width * more)) by (nonlinear_arith);
    assert(width * current <= width * more && width * more <= width * total) by (nonlinear_arith)
        requires
            current <= more <= total,
    ;
    let x = 2 * (width * current) + total;
    let y = 2 * (width * more) + total;
    let d = 2 * total;
    assert(d * (x / d) + x % d == x && 0 <= x % d < d) by (nonlinear_arith)
        requires
            d > 0,
            x >= 0,
    ;
    assert(d * n == 2 * (n * total)) by (nonlinear_arith)
        requires
            d == 2 * total,
    ;
    assert(n <= m) by (nonlinear_arith)
        requires
            x <= y,
            d > 0,
            n == x / d,
            m == y / d,
    ;
    if n > width {
        assert((width + 1) * total <= n * total) by (nonlinear_arith)
            requires
                n >= width + 1,
        ;
        assert((width + 1) * total == width * total + total) by (nonlinear_arith);
        assert(2 * (n * total) <= 2 * (width * total) + total);
        assert(false);
    }
}

/// The layers of slices are counted one by one: those of two lists are those of both, and a
/// slice that nobody holds has none.
pub proof fn layers_add_up(a: Seq<SliceCoverage>, b: Seq<SliceCoverage>)
    ensures
        held_layers(a + b) == held_layers(a) + held_layers(b),
        a.len() == 1 && a[0].replicas == 0 ==> held_layers(a) == 0,
        a.len() == 1 && a[0].replicas > 0 && a[0].start_layer <= a[0].end_layer ==> held_layers(a)
            + a[0].start_layer == a[0].end_layer,
    decreases b.len(),
{
    if b.len() == 0 {
        assert(a + b =~= a);
        if a.len() == 1 {
            assert(held_layers(a.drop_last()) == 0);
        }
    } else {
        layers_add_up(a, b.drop_last());
        assert((a + b).drop_last() =~= a + b.drop_last());
        assert((a + b).last() == b.last());
    }
}

/// What is said of a model is that it is robust exactly where each slice of it is held often
/// enough, that it is fragile where it can be served but not that, and that it is
/// incomplete where it cannot be served.
pub proof fn a_status_says_what_holds(cap: ModelCapacity, other: ModelCapacity, target: nat)
    ensures
        crate::capacity::robust(cap, target) ==> text::has_part(
            status_text(cap, target),
            "ROBUST"@,
        ),
        cap.servable && !crate::capacity::robust(cap, target) ==> text::has_part(
            status_text(cap, target),
            "FRAGILE"@,
        ),
        !cap.servable ==> text::has_part(status_text(cap, target), "INCOMPLETE"@),
        status_text(cap, target) == status_text(other, target) ==> crate::capacity::robust(
            cap,
            target,
        ) == crate::capacity::robust(other, target) && cap.servable == other.servable,
{
    reveal_strlit("ROBUST");
    reveal_strlit("FRAGILE");
    reveal_strlit("INCOMPLETE");
    two_digits(92);
    two_digits(33);
    two_digits(31);
    what_is_coloured_is_there("ROBUST"@, 92);
    what_is_coloured_is_there("FRAGILE"@, 33);
    what_is_coloured_is_there("INCOMPLETE"@, 31);
}

/// A text that is coloured and bold still stands there, and gets longer by as much as any
/// other whose colour has as many digits.
proof fn what_is_coloured_is_there(s: Seq<char>, code: nat)
    ensures
        text::has_part(crate::tui::boldened(colored(s, code)), s),
        crate::tui::boldened(colored(s, code)).len() == "\x1b[1m"@.len() + "\x1b["@.len()
            + text::dec(code).len() + "m"@.len() + s.len() + "\x1b[39m"@.len()
            + "\x1b[0m"@.len(),
{
    let front = "\x1b[1m"@ + ("\x1b["@ + text::dec(code) + "m"@);
    let back = "\x1b[39m"@ + "\x1b[0m"@;
    text::what_is_put_in_front_is_found(front, back, s);
    assert(crate::tui::boldened(colored(s, code)) =~= front + s + back);
}

proof fn two_digits(n: nat)
    requires
        10 <= n < 100,
    ensures
        text::dec(n).len() == 2,
{
    reveal_with_fuel(text::numeral, 3);
}

/// A bar shows the cells that are filled and behind them the others, as many as it is wide,
/// and its colour tells whether all is held.
pub proof fn a_bar_shows_its_cells(current: nat, total: nat, width: nat)
    requires
        total > 0,
    ensures
        ({
            let filled = filled_cells(current, total, width);
            let cells = text::repeated('█', filled) + text::repeated('░', (width - filled) as nat);
            &&& cells.len() == width
            &&& current >= total ==> bar_text(current, total, width) == colored(cells, 92)
            &&& current < total ==> bar_text(current, total, width) == colored(cells, 33)
            &&& bar_text(current, 0, width).len() == width
        }),
{
    a_bar_shows_the_share(current, total, width);
}

/// All models are shown, one behind the other.
pub proof fn all_models_are_shown(a: Seq<ModelCapacity>, b: Seq<ModelCapacity>, target: nat)
    ensures
        all_models(a + b, target) == all_models(a, target) + all_models(b, target),
        a.len() == 1 ==> all_models(a, target) == model_lines(a[0], target),
    decreases b.len(),
{
    if b.len() == 0 {
        assert(a + b =~= a);
        assert(all_models(a, target) + all_models(b, target) =~= all_models(a, target));
        if a.len() == 1 {
            assert(all_models(a.drop_last(), target) =~= Seq::<Seq<char>>::empty());
            assert(all_models(a, target) =~= model_lines(a[0], target));
        }
    } else {
        all_models_are_shown(a, b.drop_last(), target);
        assert((a + b).drop_last() =~= a + b.drop_last());
        assert((a + b).last() == b.last());
        assert(all_models(a + b, target) =~= all_models(a, target) + all_models(b, target));
    }
}

} // verus!
