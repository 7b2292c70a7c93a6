//! Choosing a model to host: what there is, what this machine can hold of it, and
//! the list in which one is picked.

use vstd::prelude::*;

use crate::capacity::{position_of, ModelCapacity};
use crate::orchestrator::write_ranges;
use crate::text;
use crate::units;
use crate::worker::WorkerProfile;

pub use crate::units::{human_count, human_params};

verus! {

// ---------------------------------------------------------------------------
// Listings
// ---------------------------------------------------------------------------

/// Writes a number of bytes with one decimal, up to terabytes.
pub fn human_bytes(bytes: u64) -> (s: String)
    ensures
        s@ == units::size_text(bytes as nat, 4),
{
    units::human_size(bytes)
}

/// What is known of a model that can be downloaded.
#[derive(Debug)]
pub struct ModelCard {
    pub id: String,
    pub architecture: String,
    pub model_type: String,
    pub params: u64,
    pub downloads: u64,
    pub likes: u64,
    pub gated: bool,
    /// Whether the model can be split: anything but `unsupported` says that it can.
    pub support: String,
    pub note: String,
    pub layers: u32,
    pub hidden_size: u32,
    pub inputs: Vec<String>,
    pub outputs: Vec<String>,
}

/// A model in the list, and what this machine and the network make of it.
#[derive(Debug)]
pub struct Listing {
    pub card: ModelCard,
    pub fits_whole: bool,
    pub holdable_layers: u32,
    pub peers: usize,
    pub servable: bool,
}

impl Listing {
    /// Whether this machine can host a part of the model.
    pub open spec fn can_run(&self) -> bool {
        self.card.support@ != "unsupported"@ && self.holdable_layers > 0
    }

    /// Whether this machine can host a part of the model.
    pub fn runnable(&self) -> (r: bool)
        ensures
            r == self.can_run(),
    {
        !text::str_eq(self.card.support.as_str(), "unsupported") && self.holdable_layers > 0
    }
}

/// The bytes that a number of parameters takes: two each, as many as can be
/// counted.
pub open spec fn bytes_needed(params: u64) -> nat {
    if params * 2 <= u64::MAX {
        (params * 2) as nat
    } else {
        u64::MAX as nat
    }
}

/// How many layers of a model this machine can hold: as many as go into the part
/// of its memory that can be used, or all where it is not known how large they
/// are. The count of those that go in wraps at 32 bits.
pub open spec fn layers_held(params: u64, layers: u32, available: u64) -> nat {
    let per_layer = if layers > 0 && params > 0 {
        bytes_needed(params) / (layers as nat)
    } else {
        0
    };
    if per_layer == 0 {
        layers as nat
    } else {
        let n = (units::usable_part(available as nat) / per_layer) % 0x1_0000_0000;
        if n <= layers {
            n
        } else {
            layers as nat
        }
    }
}

/// Whether a listing is what this machine and the network make of a card.
pub open spec fn lists(
    item: Listing,
    card: ModelCard,
    available: u64,
    caps: Seq<ModelCapacity>,
) -> bool {
    &&& item.card == card
    &&& item.fits_whole == (card.params > 0 && units::fits_with_room(
        bytes_needed(card.params),
        available as nat,
    ))
    &&& item.holdable_layers == layers_held(card.params, card.layers, available)
    &&& match crate::capacity::find_model(caps, card.id@, 0) {
        Some(i) => item.peers == caps[i].slices@.len() && item.servable
            == (crate::capacity::unheld(caps[i].slices@).len() == 0),
        None => item.peers == 0 && !item.servable,
    }
}

/// What this machine and the network make of a card.
fn listing_of(card: ModelCard, available_bytes: u64, caps: &[ModelCapacity]) -> (item: Listing)
    ensures
        lists(item, card, available_bytes, caps@),
{
    let needed: u64 = if card.params <= u64::MAX / 2 {
        card.params * 2
    } else {
        u64::MAX
    };
    let fits_whole: bool = card.params > 0 && units::fits(needed, available_bytes);
    let per_layer: u64 = if card.layers > 0 && card.params > 0 {
        needed / (card.layers as u64)
    } else {
        0
    };
    let usable: u64 = units::usable(available_bytes);
    let holdable_layers: u32 = if per_layer == 0 {
        card.layers
    } else {
        let n: u64 = (usable / per_layer) % 0x1_0000_0000;
        if n <= card.layers as u64 {
            n as u32
        } else {
            card.layers
        }
    };
    match position_of(caps, card.id.as_str()) {
        Some(i) => {
            let peers: usize = caps[i].slices.len();
            let servable: bool = caps[i].missing_slices().len() == 0;
            Listing { card, fits_whole, holdable_layers, peers, servable }
        },
        None => Listing { card, fits_whole, holdable_layers, peers: 0, servable: false },
    }
}

/// Whether listings are what this machine and the network make of cards, in
/// their order.
pub open spec fn lists_all(
    items: Seq<Listing>,
    cards: Seq<ModelCard>,
    available: u64,
    caps: Seq<ModelCapacity>,
) -> bool {
    &&& items.len() == cards.len()
    &&& forall|i: int|
        0 <= i < cards.len() ==> lists(#[trigger] items[i], cards[i], available, caps)
}

/// What this machine and the network make of cards.
pub fn build_listings(cards: Vec<ModelCard>, available_bytes: u64, caps: &[ModelCapacity]) -> (r:
    Vec<Listing>)
    ensures
        lists_all(r@, cards@, available_bytes, caps@),
{
    let ghost all = cards@;
    let mut cards: Vec<ModelCard> = cards;
    let mut back: Vec<Listing> = Vec::new();
    while cards.len() > 0
        invariant
            cards@.len() + back@.len() == all.len(),
            cards@ == all.take(cards@.len() as int),
            forall|j: int|
                0 <= j < back@.len() ==> lists(
                    #[trigger] back@[j],
                    all[all.len() - 1 - j],
                    available_bytes,
                    caps@,
                ),
        decreases cards@.len(),
    {
        let ghost n = cards@.len();
        if let Some(card) = cards.pop() {
            assert(card == all[n - 1]);
            back.push(listing_of(card, available_bytes, caps));
            assert(cards@ =~= all.take(n - 1));
        }
    }
    let mut r: Vec<Listing> = Vec::new();
    let ghost from = back@;
    while back.len() > 0
        invariant
            back@.len() + r@.len() == all.len(),
            from.len() == all.len(),
            back@ == from.take(back@.len() as int),
            forall|j: int|
                0 <= j < from.len() ==> lists(
                    #[trigger] from[j],
                    all[all.len() - 1 - j],
                    available_bytes,
                    caps@,
                ),
            forall|i: int|
                0 <= i < r@.len() ==> lists(#[trigger] r@[i], all[i], available_bytes, caps@),
        decreases back@.len(),
    {
        let ghost n = back@.len();
        if let Some(item) = back.pop() {
            assert(item == from[n - 1]);
            assert(lists(from[n - 1], all[all.len() - n], available_bytes, caps@));
            r.push(item);
            assert(back@ =~= from.take(n - 1));
        }
    }
    r
}

/// A machine holds no more layers of a model than the model has.
pub proof fn no_more_layers_than_there_are(params: u64, layers: u32, available: u64)
    ensures
        layers_held(params, layers, available) <= layers,
{
}

// ---------------------------------------------------------------------------
// Lines
// ---------------------------------------------------------------------------

/// A text of at most `width` characters: one that is longer loses its end, and
/// shows that it did.
pub open spec fn cut(s: Seq<char>, width: nat) -> Seq<char> {
    if s.len() <= width {
        s
    } else {
        s.take(
            if width == 0 {
                0
            } else {
                width - 1
            },
        ).push('…')
    }
}

/// Shortens a text to at most `width` characters.
pub fn truncate(s: &str, width: usize) -> (r: String)
    ensures
        r@ == cut(s@, width as nat),
{
    let cs: Vec<char> = text::chars_of(s);
    if cs.len() <= width {
        return s.to_string();
    }
    let kept: usize = if width == 0 {
        0
    } else {
        width - 1
    };
    let mut r: String = text::slice_of(&cs, 0, kept);
    r.push('…');
    assert(r@ =~= cut(s@, width as nat));
    r
}

/// A text that was shortened fits, unless there was no room at all.
pub proof fn a_cut_text_fits(s: Seq<char>, width: nat)
    requires
        width > 0,
    ensures
        cut(s, width).len() <= width,
{
}

/// The colours of the list.
#[derive(Debug, PartialEq, Eq, Structural, Clone, Copy)]
pub enum Paint {
    Accent,
    Mint,
    Gold,
    Violet,
    Coral,
    Text,
    Muted,
    Faint,
}

/// A piece of a line, in a colour.
#[derive(Debug)]
pub struct Piece {
    pub text: String,
    pub paint: Paint,
    pub bold: bool,
}

/// What a [`Piece`] holds.
#[verifier::ext_equal]
pub struct PieceView {
    pub text: Seq<char>,
    pub paint: Paint,
    pub bold: bool,
}

impl View for Piece {
    type V = PieceView;

    open spec fn view(&self) -> PieceView {
        PieceView { text: self.text@, paint: self.paint, bold: self.bold }
    }
}

/// What pieces hold.
pub open spec fn piece_views(v: Seq<Piece>) -> Seq<PieceView> {
    Seq::new(v.len(), |i: int| v[i]@)
}

/// A piece in plain letters.
pub open spec fn plain(text: Seq<char>, paint: Paint) -> PieceView {
    PieceView { text, paint, bold: false }
}

fn piece(text: String, paint: Paint) -> (p: Piece)
    ensures
        p@ == plain(text@, paint),
{
    Piece { text, paint, bold: false }
}

/// The media that a model takes besides text.
pub open spec fn not_text() -> spec_fn(Seq<char>) -> bool {
    |m: Seq<char>| m != "text"@
}

/// The media that a model takes besides text, in one word.
pub open spec fn media_text(inputs: Seq<Seq<char>>) -> Seq<char> {
    text::joined(inputs.filter(not_text()), "+"@)
}

/// The media that a model takes besides text, in one word.
pub fn media(card: &ModelCard) -> (r: String)
    ensures
        r@ == media_text(text::views(card.inputs@)),
{
    let ghost all = text::views(card.inputs@);
    let ghost pred = not_text();
    let mut kept: Vec<String> = Vec::new();
    let mut i: usize = 0;
    proof {
        crate::lists::filter_ends(all, pred);
        assert(text::views(kept@) =~= Seq::<Seq<char>>::empty());
    }
    while i < card.inputs.len()
        invariant
            i <= card.inputs@.len(),
            all == text::views(card.inputs@),
            pred == not_text(),
            text::views(kept@) == all.take(i as int).filter(pred),
        decreases card.inputs@.len() - i,
    {
        let ghost before = text::views(kept@);
        proof {
            crate::lists::filter_step(all, pred, i as int);
            assert(all[i as int] == card.inputs@[i as int]@);
        }
        if !text::str_eq(card.inputs[i].as_str(), "text") {
            kept.push(card.inputs[i].clone());
            assert(text::views(kept@) =~= before.push(all[i as int]));
        }
        i += 1;
    }
    proof {
        crate::lists::filter_ends(all, pred);
    }
    text::join(&kept, "+")
}

/// What is said of how a machine can host a model.
pub open spec fn badge_of(item: Listing) -> (Seq<char>, Paint) {
    if !item.can_run() {
        ("cannot run"@, Paint::Coral)
    } else if item.fits_whole {
        ("whole model"@, Paint::Mint)
    } else {
        ("as a slice"@, Paint::Accent)
    }
}

/// The colour in which it is said that others host a model.
pub open spec fn hosting_paint(item: Listing) -> Paint {
    if item.servable {
        Paint::Mint
    } else {
        Paint::Gold
    }
}

/// The line of a model in the list.
pub open spec fn row_of(item: Listing) -> Seq<PieceView> {
    seq![
        PieceView {
            text: " "@ + text::pad_right(cut(item.card.id@, 32), 32),
            paint: if item.can_run() {
                Paint::Text
            } else {
                Paint::Faint
            },
            bold: item.can_run(),
        },
        plain(units::params_text(item.card.params as nat) + " "@, Paint::Text),
        plain(text::pad_right(badge_of(item).0, 12), badge_of(item).1),
        plain(text::pad_right(media_text(text::views(item.card.inputs@)), 12), Paint::Violet),
        plain(
            text::pad_left(units::count_text(item.card.downloads as nat), ' ', 6),
            Paint::Faint,
        ),
    ] + (if item.card.gated {
        seq![plain("  gated"@, Paint::Gold)]
    } else {
        Seq::empty()
    }) + (if item.peers > 0 {
        seq![plain("  "@ + text::dec(item.peers as nat) + " hosting"@, hosting_paint(item))]
    } else {
        Seq::empty()
    })
}

/// The line of a model in the list.
pub fn model_row(item: &Listing) -> (r: Vec<Piece>)
    ensures
        piece_views(r@) == row_of(*item),
{
    let runnable: bool = item.runnable();
    let mut r: Vec<Piece> = Vec::new();
    let mut name: String = " ".to_string();
    name.append(text::padded_right(truncate(item.card.id.as_str(), 32).as_str(), 32).as_str());
    r.push(
        Piece {
            text: name,
            paint: if runnable {
                Paint::Text
            } else {
                Paint::Faint
            },
            bold: runnable,
        },
    );
    let mut params: String = units::human_params(item.card.params);
    params.append(" ");
    r.push(piece(params, Paint::Text));
    let (badge, paint): (&'static str, Paint) = if !runnable {
        ("cannot run", Paint::Coral)
    } else if item.fits_whole {
        ("whole model", Paint::Mint)
    } else {
        ("as a slice", Paint::Accent)
    };
    r.push(piece(text::padded_right(badge, 12), paint));
    r.push(piece(text::padded_right(media(&item.card).as_str(), 12), Paint::Violet));
    r.push(
        piece(
            text::padded_left(units::human_count(item.card.downloads).as_str(), ' ', 6),
            Paint::Faint,
        ),
    );
    if item.card.gated {
        r.push(piece("  gated".to_string(), Paint::Gold));
    }
    if item.peers > 0 {
        let mut hosting: String = "  ".to_string();
        hosting.append(text::decimal(item.peers as u64).as_str());
        hosting.append(" hosting");
        r.push(
            piece(
                hosting,
                if item.servable {
                    Paint::Mint
                } else {
                    Paint::Gold
                },
            ),
        );
    }
    assert(piece_views(r@) =~= row_of(*item));
    r
}

/// What lines of pieces hold.
pub open spec fn line_views(v: Seq<Vec<Piece>>) -> Seq<Seq<PieceView>> {
    Seq::new(v.len(), |i: int| piece_views(v[i]@))
}

/// A line with a label and a value.
pub open spec fn labelled(label: Seq<char>, value: Seq<char>, paint: Paint) -> Seq<PieceView> {
    seq![plain(text::pad_right(label, 13), Paint::Muted), plain(value, paint)]
}

fn labelled_line(label: &str, value: String, paint: Paint) -> (r: Vec<Piece>)
    ensures
        piece_views(r@) == labelled(label@, value@, paint),
{
    let mut r: Vec<Piece> = Vec::new();
    let ghost v = value@;
    r.push(piece(text::padded_right(label, 13), Paint::Muted));
    r.push(piece(value, paint));
    assert(piece_views(r@) =~= labelled(label@, v, paint));
    r
}

/// A line of one piece.
pub open spec fn single(p: PieceView) -> Seq<PieceView> {
    seq![p]
}

fn single_line(p: Piece) -> (r: Vec<Piece>)
    ensures
        piece_views(r@) == single(p@),
{
    let mut r: Vec<Piece> = Vec::new();
    let ghost v = p@;
    r.push(p);
    assert(piece_views(r@) =~= single(v));
    r
}

/// The line that says how much of a model this machine holds.
pub open spec fn hold_line(item: Listing) -> Seq<PieceView> {
    if !item.can_run() {
        single(
            PieceView { text: "this machine cannot host it"@, paint: Paint::Coral, bold: true },
        )
    } else if item.fits_whole {
        seq![
            plain("this machine holds "@, Paint::Muted),
            PieceView { text: "the whole model"@, paint: Paint::Mint, bold: true },
        ]
    } else {
        seq![
            plain("this machine holds "@, Paint::Muted),
            PieceView {
                text: text::dec(item.holdable_layers as nat) + " of "@ + text::dec(
                    item.card.layers as nat,
                ) + " layers"@,
                paint: Paint::Accent,
                bold: true,
            },
        ]
    }
}

fn write_hold_line(item: &Listing) -> (r: Vec<Piece>)
    ensures
        piece_views(r@) == hold_line(*item),
{
    let mut r: Vec<Piece> = Vec::new();
    if !item.runnable() {
        return single_line(
            Piece {
                text: "this machine cannot host it".to_string(),
                paint: Paint::Coral,
                bold: true,
            },
        );
    }
    r.push(piece("this machine holds ".to_string(), Paint::Muted));
    if item.fits_whole {
        r.push(
            Piece { text: "the whole model".to_string(), paint: Paint::Mint, bold: true },
        );
    } else {
        let mut part: String = text::decimal(item.holdable_layers as u64);
        part.append(" of ");
        part.append(text::decimal(item.card.layers as u64).as_str());
        part.append(" layers");
        r.push(Piece { text: part, paint: Paint::Accent, bold: true });
    }
    assert(piece_views(r@) =~= hold_line(*item));
    r
}

/// What is said of the nodes that host a model.
pub open spec fn peers_text(item: Listing) -> Seq<char> {
    if item.servable {
        text::dec(item.peers as nat) + " nodes serve it, you would add redundancy"@
    } else {
        text::dec(item.peers as nat) + " nodes hold parts, it is incomplete"@
    }
}

/// Whether a text is a number of parameters without the white space around it.
pub open spec fn params_trimmed(params: u64, s: Seq<char>) -> bool {
    text::trims_to(units::params_text(params as nat), s)
}

/// The lines that describe a model, `params` being its number of parameters as it
/// is written, in a column of `width`.
pub open spec fn detail_of(item: Listing, width: nat, params: Seq<char>) -> Seq<Seq<PieceView>> {
    seq![
        single(
            PieceView {
                text: cut(
                    item.card.id@,
                    if width == 0 {
                        0
                    } else {
                        (width - 1) as nat
                    },
                ),
                paint: Paint::Text,
                bold: true,
            },
        ),
        Seq::empty(),
        labelled("architecture"@, item.card.architecture@, Paint::Text),
        labelled("layers"@, text::dec(item.card.layers as nat), Paint::Text),
        labelled("parameters"@, params, Paint::Text),
        labelled("takes"@, text::joined(text::views(item.card.inputs@), ", "@), Paint::Violet),
        labelled("returns"@, text::joined(text::views(item.card.outputs@), ", "@), Paint::Violet),
        labelled("likes"@, units::count_text(item.card.likes as nat), Paint::Faint),
        Seq::empty(),
        hold_line(item),
        Seq::empty(),
        single(plain(item.card.note@, Paint::Muted)),
    ] + (if item.peers > 0 {
        seq![Seq::empty(), single(plain(peers_text(item), hosting_paint(item)))]
    } else {
        Seq::empty()
    })
}

/// The lines that describe a model, in a column of `width`.
pub fn detail(item: &Listing, width: usize) -> (r: Vec<Vec<Piece>>)
    ensures
        exists|params: Seq<char>| #[trigger]
            params_trimmed(item.card.params, params) && line_views(r@) == detail_of(
                *item,
                width as nat,
                params,
            ),
{
    let room: usize = if width == 0 {
        0
    } else {
        width - 1
    };
    let params: String = text::trim(units::human_params(item.card.params).as_str());
    let ghost written = params@;
    assert(params_trimmed(item.card.params, written));
    let mut r: Vec<Vec<Piece>> = Vec::new();
    r.push(
        single_line(
            Piece {
                text: truncate(item.card.id.as_str(), room),
                paint: Paint::Text,
                bold: true,
            },
        ),
    );
    r.push(Vec::new());
    r.push(labelled_line("architecture", item.card.architecture.clone(), Paint::Text));
    r.push(labelled_line("layers", text::decimal(item.card.layers as u64), Paint::Text));
    r.push(labelled_line("parameters", params, Paint::Text));
    r.push(labelled_line("takes", text::join(&item.card.inputs, ", "), Paint::Violet));
    r.push(labelled_line("returns", text::join(&item.card.outputs, ", "), Paint::Violet));
    r.push(labelled_line("likes", units::human_count(item.card.likes), Paint::Faint));
    r.push(Vec::new());
    r.push(write_hold_line(item));
    r.push(Vec::new());
    r.push(single_line(piece(item.card.note.clone(), Paint::Muted)));
    let ghost head = line_views(r@);
    proof {
        assert(piece_views(r@[1]@) =~= Seq::<PieceView>::empty());
        assert(piece_views(r@[8]@) =~= Seq::<PieceView>::empty());
        assert(piece_views(r@[10]@) =~= Seq::<PieceView>::empty());
    }
    if item.peers > 0 {
        let mut said: String = text::decimal(item.peers as u64);
        if item.servable {
            said.append(" nodes serve it, you would add redundancy");
        } else {
            said.append(" nodes hold parts, it is incomplete");
        }
        r.push(Vec::new());
        assert(piece_views(r@[12]@) =~= Seq::<PieceView>::empty());
        r.push(
            single_line(
                piece(
                    said,
                    if item.servable {
                        Paint::Mint
                    } else {
                        Paint::Gold
                    },
                ),
            ),
        );
    }
    assert(line_views(r@) =~= detail_of(*item, width as nat, written));
    r
}

/// The line at the head of the list.
pub fn title_line() -> (r: Vec<Piece>)
    ensures
        piece_views(r@) == seq![
            plain("  ▞▞  "@, Paint::Accent),
            PieceView { text: "DIFFUSE"@, paint: Paint::Text, bold: true },
            plain("  marketplace"@, Paint::Muted),
        ],
{
    let mut r: Vec<Piece> = Vec::new();
    r.push(piece("  ▞▞  ".to_string(), Paint::Accent));
    r.push(Piece { text: "DIFFUSE".to_string(), paint: Paint::Text, bold: true });
    r.push(piece("  marketplace".to_string(), Paint::Muted));
    assert(piece_views(r@) =~= seq![
        plain("  ▞▞  "@, Paint::Accent),
        PieceView { text: "DIFFUSE"@, paint: Paint::Text, bold: true },
        plain("  marketplace"@, Paint::Muted),
    ]);
    r
}

/// What is said of the account with which models are looked for.
pub fn account_line(authenticated: bool, account: &str) -> (p: Piece)
    ensures
        p@ == if authenticated {
            plain(
                "signed in as "@ + (if account@.len() == 0 {
                    "hugging face"@
                } else {
                    account@
                }),
                Paint::Mint,
            )
        } else {
            plain("anonymous, gated models stay hidden"@, Paint::Gold)
        },
{
    if !authenticated {
        return piece("anonymous, gated models stay hidden".to_string(), Paint::Gold);
    }
    let mut s: String = "signed in as ".to_string();
    if account.is_empty() {
        s.append("hugging face");
    } else {
        s.append(account);
    }
    piece(s, Paint::Mint)
}

// ---------------------------------------------------------------------------
// The list
// ---------------------------------------------------------------------------

/// What a search found: the models, what the machine has, and for whom.
#[derive(Debug)]
pub struct Found {
    pub cards: Vec<ModelCard>,
    pub available_bytes: u64,
    pub device: String,
    pub authenticated: bool,
    pub account: String,
}

/// A key that was pressed.
#[derive(Debug, PartialEq, Eq, Structural, Clone, Copy)]
pub enum Key {
    Esc,
    Enter,
    Backspace,
    Up,
    Down,
    Char(char),
    Other,
}

/// What a key asks for beyond the list itself.
#[derive(Debug)]
pub enum Act {
    /// Nothing.
    Stay,
    /// To search for what was typed.
    Search,
    /// To leave the list.
    Quit,
    /// To host a model.
    Host(String),
}

/// The list in which a model is picked.
#[derive(Debug)]
pub struct App {
    pub query: String,
    pub listings: Vec<Listing>,
    pub selected: Option<usize>,
    pub available_bytes: u64,
    pub device: String,
    pub account: String,
    pub authenticated: bool,
    pub editing: bool,
    pub status: String,
}

/// The place that is picked in a new list: the first, where there is one.
pub open spec fn first_of(n: nat) -> Option<usize> {
    if n == 0 {
        None
    } else {
        Some(0)
    }
}

impl App {
    /// Whether nothing changed but what is typed, what is picked, and what is said.
    pub open spec fn same_models(&self, before: &App) -> bool {
        &&& self.listings == before.listings
        &&& self.available_bytes == before.available_bytes
        &&& self.device == before.device
        &&& self.account == before.account
        &&& self.authenticated == before.authenticated
    }

    /// The model that is picked.
    pub open spec fn picked(&self) -> Option<Listing> {
        match self.selected {
            Some(i) => if i < self.listings@.len() {
                Some(self.listings@[i as int])
            } else {
                None
            },
            None => None,
        }
    }

    /// The list of what was found, before anything was typed.
    pub fn new(found: Found, caps: &[ModelCapacity]) -> (app: Self)
        ensures
            app.query@ == ""@,
            lists_all(app.listings@, found.cards@, found.available_bytes, caps@),
            app.selected == first_of(found.cards@.len()),
            app.available_bytes == found.available_bytes,
            app.device == found.device,
            app.account == found.account,
            app.authenticated == found.authenticated,
            !app.editing,
            app.status@ == ""@,
    {
        let listings: Vec<Listing> = build_listings(found.cards, found.available_bytes, caps);
        let selected: Option<usize> = if listings.len() == 0 {
            None
        } else {
            Some(0)
        };
        App {
            query: "".to_string(),
            listings,
            selected,
            available_bytes: found.available_bytes,
            device: found.device,
            account: found.account,
            authenticated: found.authenticated,
            editing: false,
            status: "".to_string(),
        }
    }

    /// The model that is picked.
    pub fn selected(&self) -> (r: Option<&Listing>)
        ensures
            match r {
                Some(item) => self.picked() == Some(*item),
                None => self.picked() is None,
            },
    {
        match self.selected {
            Some(i) => if i < self.listings.len() {
                Some(&self.listings[i])
            } else {
                None
            },
            None => None,
        }
    }

    /// Picks the model `delta` places further down the list, which is followed
    /// round at either end.
    pub fn step(&mut self, delta: i32)
        ensures
            final(self).same_models(old(self)),
            final(self).query == old(self).query,
            final(self).editing == old(self).editing,
            final(self).status == old(self).status,
            final(self).selected == stepped(
                old(self).selected,
                delta as int,
                old(self).listings@.len() as int,
            ),
    {
        if self.listings.len() == 0 {
            return;
        }
        let len: i128 = self.listings.len() as i128;
        let current: i128 = match self.selected {
            Some(i) => i as i128,
            None => 0,
        };
        let ghost n = len as int;
        let ghost to = current + delta;
        let back: i128 = if delta < 0 {
            let m: i128 = -(delta as i128);
            let rest: i128 = m % len;
            proof {
                vstd::arithmetic::div_mod::lemma_fundamental_div_mod(m as int, n);
                vstd::arithmetic::div_mod::lemma_mod_bound(m as int, n);
                let k = m as int / n;
                assert(to + n * (k + 1) == current + (n - rest)) by (nonlinear_arith)
                    requires
                        to == current - m,
                        m == n * k + rest,
                ;
                vstd::arithmetic::div_mod::lemma_mod_multiples_vanish(k + 1, to, n);
            }
            current + (len - rest)
        } else {
            current + delta as i128
        };
        assert(back as int % n == to % n);
        let at: i128 = back % len;
        proof {
            vstd::arithmetic::div_mod::lemma_mod_bound(back as int, n);
        }
        self.selected = Some(at as usize);
    }

    /// Follows a key, and says what it asks for beyond the list itself.
    pub fn press(&mut self, key: Key, control: bool) -> (act: Act)
        ensures
            final(self).same_models(old(self)),
            if old(self).editing {
                types(*old(self), key, *final(self), act)
            } else {
                moves(*old(self), key, control, *final(self), act)
            },
    {
        if self.editing {
            self.on_editing_key(key)
        } else {
            self.on_list_key(key, control)
        }
    }

    fn on_editing_key(&mut self, key: Key) -> (act: Act)
        requires
            old(self).editing,
        ensures
            final(self).same_models(old(self)),
            types(*old(self), key, *final(self), act),
    {
        match key {
            Key::Esc => {
                self.editing = false;
                self.query = "".to_string();
                Act::Stay
            },
            Key::Enter => {
                self.editing = false;
                self.status = "searching hugging face...".to_string();
                Act::Search
            },
            Key::Backspace => {
                let cs: Vec<char> = text::chars_of(self.query.as_str());
                if cs.len() > 0 {
                    self.query = text::slice_of(&cs, 0, cs.len() - 1);
                    assert(self.query@ =~= cs@.drop_last());
                }
                Act::Stay
            },
            Key::Char(c) => {
                self.query.push(c);
                Act::Stay
            },
            _ => Act::Stay,
        }
    }

    fn on_list_key(&mut self, key: Key, control: bool) -> (act: Act)
        requires
            !old(self).editing,
        ensures
            final(self).same_models(old(self)),
            moves(*old(self), key, control, *final(self), act),
    {
        match key {
            Key::Esc => Act::Quit,
            Key::Down => {
                self.step(1);
                Act::Stay
            },
            Key::Up => {
                self.step(-1);
                Act::Stay
            },
            Key::Enter => {
                let said: Result<String, String> = match self.selected() {
                    None => {
                        return Act::Stay;
                    },
                    Some(item) => if item.runnable() {
                        Ok(item.card.id.clone())
                    } else {
                        let mut s: String = item.card.id.clone();
                        s.append(": ");
                        s.append(item.card.note.as_str());
                        Err(s)
                    },
                };
                match said {
                    Ok(id) => Act::Host(id),
                    Err(why) => {
                        self.status = why;
                        Act::Stay
                    },
                }
            },
            Key::Char(c) => {
                if c == 'q' || (c == 'c' && control) {
                    return Act::Quit;
                }
                if c == '/' {
                    self.editing = true;
                    self.query = "".to_string();
                    self.status = "".to_string();
                } else if c == 'j' {
                    self.step(1);
                } else if c == 'k' {
                    self.step(-1);
                }
                Act::Stay
            },
            _ => Act::Stay,
        }
    }

    /// Takes in what a search found.
    pub fn found(&mut self, found: Found, caps: &[ModelCapacity])
        ensures
            lists_all(final(self).listings@, found.cards@, found.available_bytes, caps@),
            final(self).selected == first_of(found.cards@.len()),
            final(self).available_bytes == found.available_bytes,
            final(self).device == found.device,
            final(self).account == found.account,
            final(self).authenticated == found.authenticated,
            final(self).query == old(self).query,
            final(self).editing == old(self).editing,
            final(self).status@ == if found.cards@.len() == 0 {
                "nothing matches "@ + old(self).query@
            } else {
                ""@
            },
    {
        self.available_bytes = found.available_bytes;
        self.device = found.device;
        self.authenticated = found.authenticated;
        self.account = found.account;
        self.listings = build_listings(found.cards, found.available_bytes, caps);
        if self.listings.len() == 0 {
            self.selected = None;
            let mut s: String = "nothing matches ".to_string();
            s.append(self.query.as_str());
            self.status = s;
        } else {
            self.selected = Some(0);
            self.status = "".to_string();
        }
    }

    /// Says that a search failed, and why.
    pub fn search_failed(&mut self, error: &str)
        ensures
            final(self).same_models(old(self)),
            final(self).query == old(self).query,
            final(self).selected == old(self).selected,
            final(self).editing == old(self).editing,
            final(self).status@ == "search failed: "@ + error@,
    {
        let mut s: String = "search failed: ".to_string();
        s.append(error);
        self.status = s;
    }

    /// What stands in the field for what is searched: what was typed, and a
    /// cursor while it is typed, or what is listed where nothing was.
    pub fn search_text(&self) -> (p: Piece)
        ensures
            p@ == if self.query@.len() == 0 && !self.editing {
                plain("most downloaded models"@, Paint::Faint)
            } else {
                plain(
                    self.query@ + (if self.editing {
                        "▏"@
                    } else {
                        ""@
                    }),
                    Paint::Text,
                )
            },
    {
        if self.query.as_str().is_empty() && !self.editing {
            return piece("most downloaded models".to_string(), Paint::Faint);
        }
        let mut s: String = self.query.clone();
        if self.editing {
            s.append("▏");
        } else {
            s.append("");
        }
        piece(s, Paint::Text)
    }

    /// What stands over the field for what is searched.
    pub fn search_title(&self) -> (p: Piece)
        ensures
            p@ == if self.editing {
                plain(" searching hugging face "@, Paint::Accent)
            } else {
                plain(" press / to search "@, Paint::Muted)
            },
    {
        if self.editing {
            piece(" searching hugging face ".to_string(), Paint::Accent)
        } else {
            piece(" press / to search ".to_string(), Paint::Muted)
        }
    }

    /// What stands over the list.
    pub fn list_title(&self) -> (s: String)
        ensures
            s@ == " "@ + text::dec(self.listings@.len()) + " models, live from hugging face "@,
    {
        let mut s: String = " ".to_string();
        s.append(text::decimal(self.listings.len() as u64).as_str());
        s.append(" models, live from hugging face ");
        s
    }
}

/// The place that is `delta` places further down a list of `len`, which is followed
/// round at either end. An empty list is left as it is.
pub open spec fn stepped(from: Option<usize>, delta: int, len: int) -> Option<usize> {
    if len == 0 {
        from
    } else {
        let current = match from {
            Some(i) => i as int,
            None => 0,
        };
        Some(((current + delta) % len) as usize)
    }
}

/// What a key does while something is typed.
pub open spec fn types(before: App, key: Key, after: App, act: Act) -> bool {
    &&& after.selected == before.selected
    &&& match key {
        Key::Esc => act is Stay && !after.editing && after.query@ == ""@ && after.status
            == before.status,
        Key::Enter => act is Search && !after.editing && after.query == before.query
            && after.status@ == "searching hugging face..."@,
        Key::Backspace => act is Stay && after.editing && after.status == before.status
            && after.query@ == (if before.query@.len() == 0 {
            before.query@
        } else {
            before.query@.drop_last()
        }),
        Key::Char(c) => act is Stay && after.editing && after.status == before.status
            && after.query@ == before.query@.push(c),
        _ => act is Stay && after == before,
    }
}

/// What a key does in the list.
pub open spec fn moves(before: App, key: Key, control: bool, after: App, act: Act) -> bool {
    if key == Key::Esc || key == Key::Char('q') || (key == Key::Char('c') && control) {
        act is Quit && after == before
    } else if key == Key::Char('/') {
        act is Stay && after.editing && after.query@ == ""@ && after.status@ == ""@
            && after.selected == before.selected
    } else if key == Key::Down || key == Key::Char('j') {
        steps(before, 1, after, act)
    } else if key == Key::Up || key == Key::Char('k') {
        steps(before, -1, after, act)
    } else if key == Key::Enter {
        match before.picked() {
            None => act is Stay && after == before,
            Some(item) => if item.can_run() {
                act matches Act::Host(id) && id@ == item.card.id@ && after == before
            } else {
                act is Stay && after.status@ == item.card.id@ + ": "@ + item.card.note@
                    && after.selected == before.selected && after.query == before.query
                    && after.editing == before.editing
            },
        }
    } else {
        act is Stay && after == before
    }
}

/// What it is to go up or down in the list.
pub open spec fn steps(before: App, delta: int, after: App, act: Act) -> bool {
    &&& act is Stay
    &&& after.selected == stepped(before.selected, delta, before.listings@.len() as int)
    &&& after.query == before.query
    &&& after.editing == before.editing
    &&& after.status == before.status
}

/// Going down and up again, or up and down, comes back to the same model.
pub proof fn a_step_is_undone(from: usize, len: int)
    requires
        from < len <= usize::MAX,
    ensures
        stepped(stepped(Some(from), 1, len), -1, len) == Some(from),
        stepped(stepped(Some(from), -1, len), 1, len) == Some(from),
{
    if from + 1 < len {
        vstd::arithmetic::div_mod::lemma_small_mod((from + 1) as nat, len as nat);
    } else {
        vstd::arithmetic::div_mod::lemma_mod_self_0(len);
        vstd::arithmetic::div_mod::lemma_mod_add_multiples_vanish(-1, len);
        vstd::arithmetic::div_mod::lemma_small_mod((len - 1) as nat, len as nat);
    }
    vstd::arithmetic::div_mod::lemma_small_mod(from as nat, len as nat);
    if from > 0 {
        vstd::arithmetic::div_mod::lemma_small_mod((from - 1) as nat, len as nat);
    } else {
        vstd::arithmetic::div_mod::lemma_mod_add_multiples_vanish(-1, len);
        vstd::arithmetic::div_mod::lemma_small_mod((len - 1) as nat, len as nat);
        vstd::arithmetic::div_mod::lemma_mod_self_0(len);
    }
}

/// A step stays in the list.
pub proof fn a_step_stays_in_the_list(from: Option<usize>, delta: int, len: int)
    requires
        0 < len <= usize::MAX,
    ensures
        stepped(from, delta, len) matches Some(i) && i < len,
{
    let current = match from {
        Some(i) => i as int,
        None => 0,
    };
    vstd::arithmetic::div_mod::lemma_mod_bound(current + delta, len);
}

// ---------------------------------------------------------------------------
// Before hosting
// ---------------------------------------------------------------------------

/// What is said of the model before it is hosted.
#[derive(Debug)]
pub enum Need {
    /// Nobody hosts it yet.
    Nobody,
    /// It can be served already.
    Served,
    /// Layers of it are missing: which.
    Missing(String),
}

/// What the network needs of a model.
pub open spec fn needs(caps: Seq<ModelCapacity>, model_id: Seq<char>, need: Need) -> bool {
    match crate::capacity::find_model(caps, model_id, 0) {
        None => need is Nobody,
        Some(i) => exists|gaps: Seq<(u32, u32)>|
            crate::capacity::ranges(gaps) == crate::capacity::gaps(
                caps[i].slices@,
                caps[i].total_layers as int,
            ) && (if gaps.len() == 0 {
                need is Served
            } else {
                need matches Need::Missing(s) && s@ == #[trigger] crate::orchestrator::ranges_text(
                    gaps,
                    ", "@,
                )
            }),
    }
}

/// What the network needs of a model.
pub fn need_of(caps: &[ModelCapacity], model_id: &str) -> (need: Need)
    ensures
        needs(caps@, model_id@, need),
{
    match position_of(caps, model_id) {
        None => Need::Nobody,
        Some(i) => {
            let gaps: Vec<(u32, u32)> = caps[i].coverage_gaps();
            let missing: String = write_ranges(&gaps, ", ");
            assert(missing@ == crate::orchestrator::ranges_text(gaps@, ", "@));
            if gaps.len() == 0 {
                Need::Served
            } else {
                Need::Missing(missing)
            }
        },
    }
}

/// What a machine can do for a model before it is asked whether to host it.
pub open spec fn profile_text(p: WorkerProfile) -> Seq<char> {
    text::dec(p.max_layers as nat) + " layers ("@ + text::dec(
        units::share_percent(p.max_layers as nat, p.total_layers as nat),
    ) + "% of the model)"@
}

/// How much of a model this machine can hold, or that it can hold none of it.
pub fn capacity_line(profile: &WorkerProfile) -> (r: Option<String>)
    ensures
        match r {
            Some(s) => profile.max_layers > 0 && s@ == profile_text(*profile),
            None => profile.max_layers == 0,
        },
{
    if profile.max_layers == 0 {
        return None;
    }
    let mut s: String = text::decimal(profile.max_layers as u64);
    s.append(" layers (");
    s.append(
        text::decimal(
            units::share_of_model(profile.max_layers, profile.total_layers),
        ).as_str(),
    );
    s.append("% of the model)");
    Some(s)
}

/// A machine takes as many layers as go into the part of its memory that can be used: those
/// that it holds fit, and one more would not, unless the model has no more.
pub proof fn as_many_layers_as_go_in(params: u64, layers: u32, available: u64)
    requires
        layers > 0,
        bytes_needed(params) >= layers,
        units::usable_part(available as nat) < 0x1_0000_0000 * (bytes_needed(params) / (
        layers as nat)),
    ensures
        ({
            let each = bytes_needed(params) / (layers as nat);
            let held = layers_held(params, layers, available);
            let room = units::usable_part(available as nat);
            held * each <= room && (held == layers || (held + 1) * each > room)
        }),
{
    let each = bytes_needed(params) / (layers as nat);
    let room = units::usable_part(available as nat);
    let need = bytes_needed(params);
    let n = layers as nat;
    assert(need / n >= 1) by (nonlinear_arith)
        requires
            need >= n,
            n > 0,
    ;
    let q = room / each;
    assert(q * each <= room && room < (q + 1) * each) by (nonlinear_arith)
        requires
            each > 0,
            q == room / each,
    ;
    assert(q < 0x1_0000_0000) by (nonlinear_arith)
        requires
            q * each <= room,
            room < 0x1_0000_0000 * each,
            each > 0,
    ;
    if q > n {
        assert(n * each <= q * each) by (nonlinear_arith)
            requires
                n <= q,
        ;
    }
}

/// Every parameter takes two bytes, as far as they can be counted.
pub proof fn a_parameter_takes_two_bytes(params: u64)
    requires
        params < u64::MAX / 2,
    ensures
        bytes_needed(0) == 0,
        bytes_needed((params + 1) as u64) == bytes_needed(params) + 2,
{
}

/// A text that is shortened keeps its beginning, all but the last character of what there is
/// room for, and shows at the end that it was; one that fits stays as it is.
pub proof fn a_cut_text_keeps_its_beginning(s: Seq<char>, width: nat)
    requires
        width > 0,
    ensures
        s.len() <= width ==> cut(s, width) == s,
        s.len() > width ==> cut(s, width).len() == width && cut(s, width).drop_last() == s.take(
            width - 1,
        ) && cut(s, width).last() == '…',
{
    if s.len() > width {
        assert(cut(s, width).drop_last() =~= s.take(width - 1));
    }
}

/// Down the list the models follow each other, and behind the last comes the first.
pub proof fn a_step_leads_to_the_neighbour(from: usize, len: int)
    requires
        from < len <= usize::MAX,
    ensures
        stepped(Some(from), 1, len) == Some(
            if from + 1 == len {
                0usize
            } else {
                (from + 1) as usize
            },
        ),
        stepped(Some(from), -1, len) == Some(
            if from == 0 {
                (len - 1) as usize
            } else {
                (from - 1) as usize
            },
        ),
{
    if from + 1 == len {
        assert((from + 1) % len == 0) by (nonlinear_arith)
            requires
                from + 1 == len,
        ;
    } else {
        assert((from + 1) % len == from + 1) by (nonlinear_arith)
            requires
                0 <= from + 1 < len,
        ;
    }
    if from == 0 {
        assert((-1int) % len == len - 1) by (nonlinear_arith)
            requires
                len >= 1,
        ;
    } else {
        assert((from - 1) % len == from - 1) by (nonlinear_arith)
            requires
                0 <= from - 1 < len,
        ;
    }
}

/// What was typed last is taken back by the key for that, and what stands there when it is
/// to be searched for is what was typed.
pub proof fn typing_can_be_taken_back(
    before: App,
    c: char,
    mid: App,
    after: App,
    first: Act,
    second: Act,
)
    requires
        types(before, Key::Char(c), mid, first),
        types(mid, Key::Backspace, after, second) || types(mid, Key::Enter, after, second),
    ensures
        first is Stay,
        mid.query@.len() == before.query@.len() + 1,
        mid.query@.last() == c,
        second is Stay ==> after.query@ == before.query@ && after.editing,
        second is Search ==> after.query@ == before.query@ + seq![c] && !after.editing,
        after.selected == before.selected,
        second is Stay || second is Search,
{
    assert(mid.query@.drop_last() =~= before.query@);
    assert(mid.query@ =~= before.query@ + seq![c]);
}

/// Only a model that this machine can host a part of is ever hosted from the list, and it is
/// the one that is picked there.
pub proof fn only_what_can_run_is_hosted(
    before: App,
    key: Key,
    control: bool,
    after: App,
    act: Act,
    id: String,
)
    requires
        moves(before, key, control, after, act),
        act == Act::Host(id),
    ensures
        key == Key::Enter,
        before.selected matches Some(i) && i < before.listings@.len()
            && before.listings@[i as int].card.id@ == id@
            && before.listings@[i as int].card.support@ != "unsupported"@
            && before.listings@[i as int].holdable_layers > 0,
        after == before,
{
}

/// That a model takes text is not said of it: it makes no difference among the media.
pub proof fn text_is_not_named_among_the_media(inputs: Seq<Seq<char>>, other: Seq<char>)
    requires
        other != "text"@,
    ensures
        media_text(inputs.push("text"@)) == media_text(inputs),
        media_text(seq![other]) == other,
        inputs.filter(not_text()).len() > 0 ==> media_text(inputs.push(other)) == media_text(inputs)
            + "+"@ + other,
{
    reveal(Seq::filter);
    let pred = not_text();
    assert(inputs.push("text"@).drop_last() =~= inputs);
    assert(inputs.push(other).drop_last() =~= inputs);
    assert(inputs.push(other).filter(pred) == inputs.filter(pred).push(other));
    assert(inputs.filter(pred).push(other).drop_last() =~= inputs.filter(pred));
    assert(seq![other].drop_last() =~= Seq::<Seq<char>>::empty());
    assert(seq![other].filter(pred) =~= seq![other]);
}

/// The keys for up and down, and the letters that stand for them, pick the neighbour in the
/// list and change nothing else; the slash begins a search with nothing typed; no other key
/// but the one that hosts changes anything.
pub proof fn keys_move_through_the_list(
    before: App,
    key: Key,
    control: bool,
    after: App,
    act: Act,
)
    requires
        moves(before, key, control, after, act),
        after.same_models(&before),
    ensures
        after.listings == before.listings,
        after.device == before.device && after.available_bytes == before.available_bytes,
        after.account == before.account && after.authenticated == before.authenticated,
        key == Key::Down || key == Key::Char('j') ==> act is Stay && after.selected == stepped(
            before.selected,
            1,
            before.listings@.len() as int,
        ),
        key == Key::Up || key == Key::Char('k') ==> act is Stay && after.selected == stepped(
            before.selected,
            -1,
            before.listings@.len() as int,
        ),
        key == Key::Down || key == Key::Up || key == Key::Char('j') || key == Key::Char('k')
            ==> after.query == before.query && after.editing == before.editing && after.status
            == before.status,
        key == Key::Char('/') ==> after.editing && after.query@.len() == 0 && after.selected
            == before.selected,
        act is Quit <==> key == Key::Esc || key == Key::Char('q') || (key == Key::Char('c')
            && control),
        !(act is Search),
{
    reveal_strlit("");
}

/// While something is typed only what is typed changes, never what is picked, and the list is
/// never left.
pub proof fn typing_picks_nothing(before: App, key: Key, after: App, act: Act)
    requires
        types(before, key, after, act),
    ensures
        after.selected == before.selected,
        act is Search <==> key == Key::Enter,
        !(act is Quit) && !(act is Host),
        key == Key::Esc ==> after.query@.len() == 0 && !after.editing,
        key == Key::Backspace && before.query@.len() == 0 ==> after.query@.len() == 0,
{
    reveal_strlit("");
}

/// Every card has its listing, in the same place. A model counts as one that can be served
/// just where it is known and each of its slices is held by a node.
pub proof fn every_card_is_listed(
    items: Seq<Listing>,
    cards: Seq<ModelCard>,
    available: u64,
    caps: Seq<ModelCapacity>,
    i: int,
)
    requires
        lists_all(items, cards, available, caps),
        0 <= i < cards.len(),
    ensures
        items.len() == cards.len(),
        items[i].card == cards[i],
        items[i].holdable_layers <= cards[i].layers,
        items[i].servable <==> (crate::capacity::find_model(caps, cards[i].id@, 0) matches Some(k)
            && forall|j: int|
            0 <= j < caps[k].slices@.len() ==> (#[trigger] caps[k].slices@[j]).replicas > 0),
        items[i].peers > 0 ==> exists|k: int|
            0 <= k < caps.len() && (#[trigger] caps[k]).model_id@ == cards[i].id@
                && caps[k].slices@.len() == items[i].peers,
        items[i].fits_whole ==> 5 * bytes_needed(cards[i].params) <= 4 * available,
{
    assert(lists(items[i], cards[i], available, caps));
    no_more_layers_than_there_are(cards[i].params, cards[i].layers, available);
    units::what_fits_leaves_room(bytes_needed(cards[i].params), available as nat);
    crate::capacity::a_found_model_is_the_one(caps, cards[i].id@, 0);
    if let Some(k) = crate::capacity::find_model(caps, cards[i].id@, 0) {
        let slices = caps[k].slices@;
        let none = |s: crate::capacity::SliceCoverage| s.replicas == 0;
        crate::capacity::what_nobody_holds_is_missing(slices);
        if crate::capacity::unheld(slices).len() == 0 {
            assert forall|j: int| 0 <= j < slices.len() implies (#[trigger] slices[j]).replicas
                > 0 by {
                if slices[j].replicas == 0 {
                    crate::lists::passing_is_left(slices, none, j);
                }
            }
        } else {
            crate::lists::filtered_was_there(slices, none, 0);
        }
    }
}

/// What is said of a model before it is hosted is that nobody hosts it exactly where it is not
/// known, that it is served exactly where some node holds each of its layers, and else which
/// layers are missing.
pub proof fn what_a_model_needs_is_said(caps: Seq<ModelCapacity>, model_id: Seq<char>, need: Need)
    requires
        needs(caps, model_id, need),
    ensures
        match crate::capacity::find_model(caps, model_id, 0) {
            None => need is Nobody && forall|i: int|
                0 <= i < caps.len() ==> (#[trigger] caps[i]).model_id@ != model_id,
            Some(i) => caps[i].total_layers > 0 ==> (need is Served
                <==> crate::capacity::fully_covered(
                caps[i].slices@,
                caps[i].total_layers as int,
            )) && (need is Missing <==> !crate::capacity::fully_covered(
                caps[i].slices@,
                caps[i].total_layers as int,
            )),
        },
{
    crate::capacity::a_found_model_is_the_one(caps, model_id, 0);
    if let Some(i) = crate::capacity::find_model(caps, model_id, 0) {
        let total = caps[i].total_layers as int;
        if total > 0 {
            crate::capacity::a_model_is_servable_without_gaps(caps[i].slices@, total);
            let gaps = choose|gaps: Seq<(u32, u32)>|
                crate::capacity::ranges(gaps) == crate::capacity::gaps(caps[i].slices@, total) && (
                if gaps.len() == 0 {
                    need is Served
                } else {
                    need matches Need::Missing(s) && s@
                        == #[trigger] crate::orchestrator::ranges_text(gaps, ", "@)
                });
            assert(crate::capacity::ranges(gaps).len() == gaps.len());
        }
    }
}

} // verus!
