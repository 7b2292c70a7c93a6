//! A conversation: what a line that was typed means, what is remembered from
//! turn to turn, and what of an answer is shown while it comes.

use vstd::prelude::*;

use crate::attachments::{split_attach_command, Attachment};
use crate::capacity::ModelCapacity;
use crate::sessions::turn_name;
use crate::text;
use crate::tui::{tint, GOLD, MUTED};

verus! {

// ---------------------------------------------------------------------------
// Lines
// ---------------------------------------------------------------------------

/// What a line that was typed means.
#[derive(Debug)]
pub enum ChatCommand {
    Nothing,
    Quit,
    Reset,
    /// Attach the file at a path, by a command that may say its kind.
    Attach { command: &'static str, path: String },
    Files,
    Detach,
    Clear,
    Help,
    Stats,
    /// Save the conversation to a file.
    Save(String),
    /// Anything else is said to the model.
    Say(String),
}

/// Whether a message is one of the commands that attach a file.
pub open spec fn attaches(msg: Seq<char>) -> bool {
    exists|i: int|
        0 <= i < crate::attachments::attach_commands().len() && crate::attachments::is_command(
            msg,
            #[trigger] crate::attachments::attach_commands()[i],
        )
}

/// What a message without white space around it means. The commands are tried in
/// this order.
pub open spec fn means(msg: Seq<char>, c: ChatCommand) -> bool {
    if msg.len() == 0 {
        c is Nothing
    } else if msg == "/quit"@ || msg == "/exit"@ {
        c is Quit
    } else if msg == "/reset"@ {
        c is Reset
    } else if attaches(msg) {
        c matches ChatCommand::Attach { command, path }
            && crate::attachments::attach_commands().contains(command@)
            && crate::attachments::argument_of(msg, command@, path@)
    } else if msg == "/files"@ {
        c is Files
    } else if msg == "/detach"@ {
        c is Detach
    } else if msg == "/clear"@ {
        c is Clear
    } else if msg == "/help"@ {
        c is Help
    } else if msg == "/stats"@ {
        c is Stats
    } else if text::has_prefix(msg, "/save"@) {
        c matches ChatCommand::Save(path) && saves_to(msg.skip("/save"@.len() as int), path@)
    } else {
        c matches ChatCommand::Say(said) && said@ == msg
    }
}

/// Where a conversation is saved, from what stands behind the command: there, or
/// in a file of a fixed name where nothing stands behind.
pub open spec fn saves_to(rest: Seq<char>, path: Seq<char>) -> bool {
    exists|trimmed: Seq<char>| #[trigger]
        text::trims_to(rest, trimmed) && path == if trimmed.len() == 0 {
            "diffuse-chat.md"@
        } else {
            trimmed
        }
}

/// What a line that was typed means.
pub fn read_line(input: &str) -> (c: ChatCommand)
    ensures
        exists|msg: Seq<char>| #[trigger] text::trims_to(input@, msg) && means(msg, c),
{
    let msg: String = text::trim(input);
    let m: &str = msg.as_str();
    let c: ChatCommand = command_of(m);
    assert(text::trims_to(input@, m@) && means(m@, c));
    c
}

fn command_of(m: &str) -> (c: ChatCommand)
    ensures
        means(m@, c),
{
    if m.is_empty() {
        return ChatCommand::Nothing;
    }
    if text::str_eq(m, "/quit") || text::str_eq(m, "/exit") {
        return ChatCommand::Quit;
    }
    if text::str_eq(m, "/reset") {
        return ChatCommand::Reset;
    }
    if let Some((command, path)) = split_attach_command(m) {
        proof {
            let cs = crate::attachments::attach_commands();
            let i = choose|i: int| 0 <= i < cs.len() && cs[i] == command@;
            assert(crate::attachments::is_command(m@, cs[i]));
        }
        return ChatCommand::Attach { command, path };
    }
    assert(!attaches(m@));
    if text::str_eq(m, "/files") {
        return ChatCommand::Files;
    }
    if text::str_eq(m, "/detach") {
        return ChatCommand::Detach;
    }
    if text::str_eq(m, "/clear") {
        return ChatCommand::Clear;
    }
    if text::str_eq(m, "/help") {
        return ChatCommand::Help;
    }
    if text::str_eq(m, "/stats") {
        return ChatCommand::Stats;
    }
    match text::strip_prefix(m, "/save") {
        Some(rest) => {
            let trimmed: String = text::trim(rest.as_str());
            assert(text::trims_to(rest@, trimmed@));
            if trimmed.as_str().is_empty() {
                ChatCommand::Save("diffuse-chat.md".to_string())
            } else {
                ChatCommand::Save(trimmed)
            }
        },
        None => ChatCommand::Say(m.to_string()),
    }
}

/// What can be typed besides a message, and what it does.
pub open spec fn help_items() -> Seq<(Seq<char>, Seq<char>)> {
    seq![
        ("/help"@, "show this list"@),
        ("/attach <file>"@, "attach a file, kind guessed from its extension"@),
        ("/image <file>"@, "attach a picture"@),
        ("/audio <file>"@, "attach a sound"@),
        ("/video <file>"@, "attach a clip"@),
        ("/files"@, "list what is attached to the next message"@),
        ("/detach"@, "drop the attachments"@),
        ("/reset"@, "clear conversation memory"@),
        ("/clear"@, "clear the screen"@),
        ("/stats"@, "session stats"@),
        ("/save [file]"@, "save the transcript as markdown"@),
        ("/quit"@, "leave the chat"@),
    ]
}

/// A line that says what a command does.
pub open spec fn help_text(item: (Seq<char>, Seq<char>)) -> Seq<char> {
    "  "@ + crate::tui::tinted(text::pad_right(item.0, 14), GOLD) + "  "@ + crate::tui::tinted(
        item.1,
        MUTED,
    )
}

fn help_line(command: &str, what: &str) -> (r: String)
    ensures
        r@ == help_text((command@, what@)),
{
    let mut r: String = "  ".to_string();
    r.append(tint(text::padded_right(command, 14).as_str(), GOLD).as_str());
    r.append("  ");
    r.append(tint(what, MUTED).as_str());
    r
}

/// The lines that say what can be typed besides a message.
pub fn print_chat_help() -> (r: Vec<String>)
    ensures
        text::views(r@) == help_items().map_values(|item: (Seq<char>, Seq<char>)| help_text(item)),
{
    let mut r: Vec<String> = Vec::new();
    r.push(help_line("/help", "show this list"));
    r.push(help_line("/attach <file>", "attach a file, kind guessed from its extension"));
    r.push(help_line("/image <file>", "attach a picture"));
    r.push(help_line("/audio <file>", "attach a sound"));
    r.push(help_line("/video <file>", "attach a clip"));
    r.push(help_line("/files", "list what is attached to the next message"));
    r.push(help_line("/detach", "drop the attachments"));
    r.push(help_line("/reset", "clear conversation memory"));
    r.push(help_line("/clear", "clear the screen"));
    r.push(help_line("/stats", "session stats"));
    r.push(help_line("/save [file]", "save the transcript as markdown"));
    r.push(help_line("/quit", "leave the chat"));
    assert(text::views(r@) =~= help_items().map_values(
        |item: (Seq<char>, Seq<char>)| help_text(item),
    ));
    r
}

// ---------------------------------------------------------------------------
// Memory
// ---------------------------------------------------------------------------

/// What pairs of texts hold.
pub open spec fn pair_views(v: Seq<(String, String)>) -> Seq<(Seq<char>, Seq<char>)> {
    Seq::new(v.len(), |i: int| (v[i].0@, v[i].1@))
}

/// A copy of pairs of texts.
fn copy_pairs(v: &Vec<(String, String)>) -> (r: Vec<(String, String)>)
    ensures
        pair_views(r@) == pair_views(v@),
{
    let mut r: Vec<(String, String)> = Vec::new();
    let ghost all = pair_views(v@);
    let mut i: usize = 0;
    while i < v.len()
        invariant
            i <= v@.len(),
            all == pair_views(v@),
            pair_views(r@) == all.take(i as int),
        decreases v@.len() - i,
    {
        let ghost before = pair_views(r@);
        r.push((v[i].0.clone(), v[i].1.clone()));
        proof {
            assert(pair_views(r@) =~= before.push(all[i as int]));
            assert(all.take(i + 1) =~= all.take(i as int).push(all[i as int]));
        }
        i += 1;
    }
    assert(all.take(i as int) =~= all);
    r
}

/// A conversation in progress.
#[derive(Debug)]
pub struct Chat {
    /// Whether what was said is sent along with the next message.
    pub memory: bool,
    /// What was said, by whom and what, as it is sent along.
    pub history: Vec<(String, String)>,
    /// What was said and answered, as it is saved.
    pub transcript: Vec<(String, String)>,
    /// The files that go along with the next message.
    pub pending: Vec<Attachment>,
    pub total_tokens: usize,
    pub turn: u64,
    pub session_prefix: String,
}

/// What a [`Chat`] holds.
#[verifier::ext_equal]
pub struct ChatView {
    pub memory: bool,
    pub history: Seq<(Seq<char>, Seq<char>)>,
    pub transcript: Seq<(Seq<char>, Seq<char>)>,
    pub pending: Seq<crate::attachments::AttachmentView>,
    pub total_tokens: nat,
    pub turn: nat,
    pub session_prefix: Seq<char>,
}

impl View for Chat {
    type V = ChatView;

    open spec fn view(&self) -> ChatView {
        ChatView {
            memory: self.memory,
            history: pair_views(self.history@),
            transcript: pair_views(self.transcript@),
            pending: crate::attachments::attachment_views(self.pending@),
            total_tokens: self.total_tokens as nat,
            turn: self.turn as nat,
            session_prefix: self.session_prefix@,
        }
    }
}

impl ChatView {
    /// The conversation after a message and its answer: both are saved, nothing
    /// is attached any more, and both are remembered where there is a memory.
    pub open spec fn answered(self, msg: Seq<char>, answer: Seq<char>) -> ChatView {
        ChatView {
            transcript: self.transcript.push((msg, answer)),
            pending: Seq::empty(),
            history: if self.memory {
                self.history.push(("user"@, msg)).push(("assistant"@, answer))
            } else {
                self.history
            },
            ..self
        }
    }

    /// The conversation after what was said, and what was attached, was forgotten.
    pub open spec fn forgotten(self) -> ChatView {
        ChatView { history: Seq::empty(), pending: Seq::empty(), ..self }
    }

    /// The conversation in its next turn.
    pub open spec fn begun(self) -> ChatView {
        ChatView { turn: self.turn + 1, ..self }
    }

    /// The name of the session of the turn.
    pub open spec fn session(self) -> Seq<char> {
        crate::sessions::turn_text(self.session_prefix, self.turn)
    }

    /// The conversation after so many tokens more came.
    pub open spec fn counted(self, tokens: nat) -> ChatView {
        ChatView { total_tokens: self.total_tokens + tokens, ..self }
    }

    /// The conversation with one file more attached to the next message.
    pub open spec fn attached(self, item: crate::attachments::AttachmentView) -> ChatView {
        ChatView { pending: self.pending.push(item), ..self }
    }

    /// The conversation after what was attached was dropped.
    pub open spec fn detached(self) -> ChatView {
        ChatView { pending: Seq::empty(), ..self }
    }

    /// The conversation after turns, each with what was said and what was answered.
    pub open spec fn after_turns(self, turns: Seq<(Seq<char>, Seq<char>)>) -> ChatView
        decreases turns.len(),
    {
        if turns.len() == 0 {
            self
        } else {
            self.after_turns(turns.drop_last()).answered(turns.last().0, turns.last().1)
        }
    }

    /// What is sent of the conversation with a message.
    pub open spec fn sent_with(self, msg: Seq<char>) -> Seq<(Seq<char>, Seq<char>)> {
        if self.memory {
            self.history.push(("user"@, msg))
        } else {
            seq![("user"@, msg)]
        }
    }
}

impl Chat {
    /// A conversation that begins.
    pub fn new(memory: bool, session_prefix: String) -> (c: Self)
        ensures
            c@ == (ChatView {
                memory,
                history: Seq::empty(),
                transcript: Seq::empty(),
                pending: Seq::empty(),
                total_tokens: 0,
                turn: 0,
                session_prefix: session_prefix@,
            }),
    {
        let c = Chat {
            memory,
            history: Vec::new(),
            transcript: Vec::new(),
            pending: Vec::new(),
            total_tokens: 0,
            turn: 0,
            session_prefix,
        };
        proof {
            assert(c@.history =~= Seq::<(Seq<char>, Seq<char>)>::empty());
            assert(c@.transcript =~= Seq::<(Seq<char>, Seq<char>)>::empty());
            assert(c@.pending =~= Seq::<crate::attachments::AttachmentView>::empty());
        }
        c
    }

    /// Forgets what was said, and what was attached.
    pub fn reset(&mut self)
        ensures
            final(self)@ == old(self)@.forgotten(),
    {
        self.history = Vec::new();
        self.pending = Vec::new();
        assert(self@.history =~= Seq::<(Seq<char>, Seq<char>)>::empty());
        assert(self@.pending =~= Seq::<crate::attachments::AttachmentView>::empty());
    }

    /// Attaches a file to the next message.
    pub fn attach(&mut self, item: Attachment)
        ensures
            final(self)@ == old(self)@.attached(item@),
    {
        let ghost before = self@.pending;
        let ghost one = item@;
        self.pending.push(item);
        assert(self@.pending =~= before.push(one));
    }

    /// Drops what was attached.
    pub fn detach(&mut self)
        ensures
            final(self)@ == old(self)@.detached(),
    {
        self.pending = Vec::new();
        assert(self@.pending =~= Seq::<crate::attachments::AttachmentView>::empty());
    }

    /// Begins the next turn, and names its session.
    pub fn begin_turn(&mut self) -> (session: String)
        requires
            old(self).turn < u64::MAX,
        ensures
            final(self)@ == old(self)@.begun(),
            session@ == final(self)@.session(),
    {
        self.turn += 1;
        turn_name(self.session_prefix.as_str(), self.turn)
    }

    /// What is sent of the conversation with a message.
    pub fn messages(&self, msg: &str) -> (r: Vec<(String, String)>)
        ensures
            pair_views(r@) == self@.sent_with(msg@),
    {
        let mut r: Vec<(String, String)> = if self.memory {
            copy_pairs(&self.history)
        } else {
            Vec::new()
        };
        let ghost before = pair_views(r@);
        r.push(("user".to_string(), msg.to_string()));
        assert(pair_views(r@) =~= before.push(("user"@, msg@)));
        assert(pair_views(r@) =~= self@.sent_with(msg@));
        r
    }

    /// Takes in the answer to a message, as it is to be kept.
    pub fn keep_answer(&mut self, msg: &str, answer: &str)
        ensures
            final(self)@ == old(self)@.answered(msg@, answer@),
    {
        let ghost before = self@;
        self.transcript.push((msg.to_string(), answer.to_string()));
        self.pending = Vec::new();
        proof {
            assert(self@.transcript =~= before.transcript.push((msg@, answer@)));
            assert(self@.pending =~= Seq::<crate::attachments::AttachmentView>::empty());
        }
        if self.memory {
            self.history.push(("user".to_string(), msg.to_string()));
            assert(self@.history =~= before.history.push(("user"@, msg@)));
            self.history.push(("assistant".to_string(), answer.to_string()));
            assert(self@.history =~= before.history.push(("user"@, msg@)).push(
                ("assistant"@, answer@),
            ));
        }
    }

    /// Takes in an answer in words of `new_tokens` tokens, without the white
    /// space around it.
    pub fn keep_words(&mut self, msg: &str, answer: &str, new_tokens: usize)
        requires
            old(self).total_tokens + new_tokens <= usize::MAX,
        ensures
            exists|trimmed: Seq<char>| #[trigger]
                text::trims_to(answer@, trimmed) && final(self)@ == old(self)@.counted(
                    new_tokens as nat,
                ).answered(msg@, trimmed),
    {
        let trimmed: String = text::trim(answer);
        assert(text::trims_to(answer@, trimmed@));
        self.total_tokens += new_tokens;
        self.keep_answer(msg, trimmed.as_str());
    }
}

/// A conversation as it is saved.
pub open spec fn transcript_text(
    model: Seq<char>,
    turns: Seq<(Seq<char>, Seq<char>)>,
) -> Seq<char>
    decreases turns.len(),
{
    if turns.len() == 0 {
        "# Diffuse chat · "@ + model + "\n\n"@
    } else {
        transcript_text(model, turns.drop_last()) + "**You:** "@ + turns.last().0 + "\n\n"@
            + "**Diffuse:** "@ + turns.last().1 + "\n\n"@
    }
}

/// A conversation as it is saved.
pub fn save_transcript(model: &str, transcript: &Vec<(String, String)>) -> (s: String)
    ensures
        s@ == transcript_text(model@, pair_views(transcript@)),
{
    let mut s: String = "# Diffuse chat · ".to_string();
    s.append(model);
    s.append("\n\n");
    let ghost turns = pair_views(transcript@);
    let mut i: usize = 0;
    assert(turns.take(0).len() == 0);
    while i < transcript.len()
        invariant
            i <= transcript@.len(),
            turns == pair_views(transcript@),
            s@ == transcript_text(model@, turns.take(i as int)),
        decreases transcript@.len() - i,
    {
        s.append("**You:** ");
        s.append(transcript[i].0.as_str());
        s.append("\n\n");
        s.append("**Diffuse:** ");
        s.append(transcript[i].1.as_str());
        s.append("\n\n");
        proof {
            assert(turns.take(i + 1).drop_last() =~= turns.take(i as int));
            assert(turns.take(i + 1).last() == turns[i as int]);
        }
        i += 1;
    }
    assert(turns.take(i as int) =~= turns);
    s
}

// ---------------------------------------------------------------------------
// An answer as it comes
// ---------------------------------------------------------------------------

/// An answer as it comes: the tokens so far, and the text that was shown of them.
#[derive(Debug)]
pub struct Stream {
    pub printed: String,
    pub collected: Vec<i64>,
}

/// Whether a text goes on where another ends: it begins with it, and is longer.
pub open spec fn goes_on(text: Seq<char>, printed: Seq<char>) -> bool {
    text::has_prefix(text, printed) && text.len() > printed.len()
}

/// The tokens of an answer with one more, unless that one ends it.
pub open spec fn with_token(collected: Seq<i64>, token: i64, eos: i64) -> Seq<i64> {
    if token == eos {
        collected
    } else {
        collected.push(token)
    }
}

impl Stream {
    /// An answer of which nothing came yet.
    pub fn new() -> (s: Self)
        ensures
            s.printed@ == Seq::<char>::empty(),
            s.collected@ == Seq::<i64>::empty(),
    {
        let printed: String = String::new();
        assert(printed@ =~= Seq::<char>::empty());
        Stream { printed, collected: Vec::new() }
    }

    /// Takes in a token, unless it is the one that ends the answer. Says whether
    /// the text is to be made out anew.
    pub fn on_token(&mut self, token: i64, eos: i64) -> (decode: bool)
        ensures
            decode == (token != eos),
            final(self).printed@ == old(self).printed@,
            final(self).collected@ == with_token(old(self).collected@, token, eos),
    {
        if token == eos {
            return false;
        }
        self.collected.push(token);
        true
    }

    /// What to show of a text that was made out anew: what is new of it, where it
    /// goes on where the text that was shown ends; else nothing.
    pub fn on_text(&mut self, now: &str) -> (delta: Option<String>)
        ensures
            final(self).collected@ == old(self).collected@,
            final(self).printed@ == printed_after(old(self).printed@, seq![now@]),
            match delta {
                Some(d) => goes_on(now@, old(self).printed@) && final(self).printed@ == now@
                    && now@ == old(self).printed@ + d@,
                None => !goes_on(now@, old(self).printed@) && final(self).printed@ == old(
                    self,
                ).printed@,
            },
    {
        proof {
            assert(seq![now@].drop_last() =~= Seq::<Seq<char>>::empty());
            assert(printed_after(self.printed@, seq![now@].drop_last()) == self.printed@);
        }
        match text::strip_prefix(now, self.printed.as_str()) {
            Some(rest) => {
                if rest.as_str().is_empty() {
                    assert(now@.len() == self.printed@.len());
                    return None;
                }
                assert(now@ =~= self.printed@ + rest@);
                self.printed = now.to_string();
                Some(rest)
            },
            None => None,
        }
    }
}

/// The text that was shown once each of some texts was made out in turn.
pub open spec fn printed_after(before: Seq<char>, texts: Seq<Seq<char>>) -> Seq<char>
    decreases texts.len(),
{
    if texts.len() == 0 {
        before
    } else {
        let printed = printed_after(before, texts.drop_last());
        if goes_on(texts.last(), printed) {
            texts.last()
        } else {
            printed
        }
    }
}

/// The pieces that were shown meanwhile, one behind the other.
pub open spec fn pieces_of(before: Seq<char>, texts: Seq<Seq<char>>) -> Seq<char>
    decreases texts.len(),
{
    if texts.len() == 0 {
        Seq::empty()
    } else {
        let printed = printed_after(before, texts.drop_last());
        let pieces = pieces_of(before, texts.drop_last());
        if goes_on(texts.last(), printed) {
            pieces + texts.last().skip(printed.len() as int)
        } else {
            pieces
        }
    }
}

/// The pieces that are shown of an answer make up the text that was shown:
/// nothing is shown twice, and nothing is left out.
pub proof fn the_pieces_make_the_text(before: Seq<char>, texts: Seq<Seq<char>>)
    ensures
        printed_after(before, texts) == before + pieces_of(before, texts),
    decreases texts.len(),
{
    if texts.len() > 0 {
        the_pieces_make_the_text(before, texts.drop_last());
        let printed = printed_after(before, texts.drop_last());
        if goes_on(texts.last(), printed) {
            assert(texts.last() =~= printed + texts.last().skip(printed.len() as int));
            assert(texts.last() =~= before + pieces_of(before, texts));
        }
    } else {
        assert(before + Seq::<char>::empty() =~= before);
    }
}

// ---------------------------------------------------------------------------
// Choosing a model
// ---------------------------------------------------------------------------

/// The ids of the models that can be served.
pub open spec fn servable_ids(caps: Seq<ModelCapacity>) -> Seq<Seq<char>>
    decreases caps.len(),
{
    if caps.len() == 0 {
        Seq::empty()
    } else if caps.last().servable {
        servable_ids(caps.drop_last()).push(caps.last().model_id@)
    } else {
        servable_ids(caps.drop_last())
    }
}

/// The ids of the models that can be served, in the order of the list.
pub fn servable_models(caps: &[ModelCapacity]) -> (r: Vec<String>)
    ensures
        text::views(r@) == servable_ids(caps@),
{
    let mut r: Vec<String> = Vec::new();
    let mut i: usize = 0;
    assert(text::views(r@) =~= servable_ids(caps@.take(0)));
    while i < caps.len()
        invariant
            i <= caps@.len(),
            text::views(r@) == servable_ids(caps@.take(i as int)),
        decreases caps@.len() - i,
    {
        let ghost before = text::views(r@);
        assert(caps@.take(i + 1).drop_last() =~= caps@.take(i as int));
        if caps[i].servable {
            r.push(caps[i].model_id.clone());
            assert(text::views(r@) =~= before.push(caps@[i as int].model_id@));
        }
        i += 1;
    }
    assert(caps@.take(i as int) =~= caps@);
    r
}

/// A model as it is offered for a choice.
pub fn model_label(cap: &ModelCapacity) -> (s: String)
    ensures
        s@ == cap.model_id@ + "   ·   "@ + text::dec(cap.total_layers as nat) + " layers · "@ + (
        if cap.servable && cap.min_replicas >= 2 {
            "robust"@
        } else {
            "fragile"@
        }),
{
    let mut s: String = cap.model_id.clone();
    s.append("   ·   ");
    s.append(text::decimal(cap.total_layers as u64).as_str());
    s.append(" layers · ");
    if cap.is_robust(2) {
        s.append("robust");
    } else {
        s.append("fragile");
    }
    s
}

/// Whether a session that the worker began is one for the route as a whole: it
/// has a first step, and it makes something else than text or keeps a memory of
/// the prompt. Other sessions are answered token by token.
pub fn runs_generative(has_first: bool, kind: &str, has_memory: bool) -> (r: bool)
    ensures
        r == (has_first && (kind@ != "text"@ || has_memory)),
{
    has_first && (!text::str_eq(kind, "text") || has_memory)
}

/// Where the answer stands in what came out: behind the prompt, or everywhere
/// where the prompt was embedded.
pub fn prompt_part(embedded: bool, prompt_tokens: usize, out_tokens: usize) -> (r: (usize, usize))
    ensures
        r.0 == if embedded {
            0
        } else {
            prompt_tokens
        },
        r.1 == if out_tokens >= r.0 {
            out_tokens - r.0
        } else {
            0
        },
{
    let prompt: usize = if embedded {
        0
    } else {
        prompt_tokens
    };
    let new_tokens: usize = if out_tokens >= prompt {
        out_tokens - prompt
    } else {
        0
    };
    (prompt, new_tokens)
}

// ---------------------------------------------------------------------------
// Laws
// ---------------------------------------------------------------------------

/// With a memory, all that was said since the last reset is sent along with a message, in
/// its order: before the message stand, for each turn, what was said and what was
/// answered, and nothing else.
pub proof fn all_turns_are_sent_along(
    c: ChatView,
    turns: Seq<(Seq<char>, Seq<char>)>,
    msg: Seq<char>,
)
    requires
        c.memory,
    ensures
        ({
            let sent = c.forgotten().after_turns(turns).sent_with(msg);
            &&& sent.len() == 2 * turns.len() + 1
            &&& forall|i: int|
                #![trigger turns[i]]
                0 <= i < turns.len() ==> sent[2 * i] == ("user"@, turns[i].0) && sent[2 * i + 1]
                    == ("assistant"@, turns[i].1)
            &&& sent.last() == ("user"@, msg)
        }),
    decreases turns.len(),
{
    turns_leave_the_settings(c.forgotten(), turns);
    if turns.len() > 0 {
        let init = turns.drop_last();
        all_turns_are_sent_along(c, init, msg);
        turns_leave_the_settings(c.forgotten(), init);
        let before = c.forgotten().after_turns(init);
        let sent = c.forgotten().after_turns(turns).sent_with(msg);
        let sent_before = before.sent_with(msg);
        assert forall|i: int| #![trigger turns[i]] 0 <= i < turns.len() implies sent[2 * i] == (
            "user"@,
            turns[i].0,
        ) && sent[2 * i + 1] == ("assistant"@, turns[i].1) by {
            if i < init.len() {
                assert(init[i] == turns[i]);
                assert(sent[2 * i] == sent_before[2 * i]);
                assert(sent[2 * i + 1] == sent_before[2 * i + 1]);
            }
        }
    }
}

proof fn turns_leave_the_settings(c: ChatView, turns: Seq<(Seq<char>, Seq<char>)>)
    ensures
        c.after_turns(turns).memory == c.memory,
        c.after_turns(turns).session_prefix == c.session_prefix,
        c.after_turns(turns).turn == c.turn,
        c.after_turns(turns).total_tokens == c.total_tokens,
        !c.memory ==> c.after_turns(turns).history == c.history,
    decreases turns.len(),
{
    if turns.len() > 0 {
        turns_leave_the_settings(c, turns.drop_last());
    }
}

/// A turn takes nothing out of the memory: what was remembered before it begins what is
/// remembered after it, which is longer by the message and its answer. Without a memory
/// it stays what it was.
pub proof fn a_turn_only_adds_to_the_memory(c: ChatView, msg: Seq<char>, answer: Seq<char>)
    ensures
        c.memory ==> c.answered(msg, answer).history.len() == c.history.len() + 2
            && c.answered(msg, answer).history.take(c.history.len() as int) == c.history,
        !c.memory ==> c.answered(msg, answer).history == c.history,
{
    assert(c.memory ==> c.answered(msg, answer).history.take(c.history.len() as int)
        =~= c.history);
}

/// Without a memory a message is sent alone, whatever was said before.
pub proof fn a_message_without_memory_is_sent_alone(
    c: ChatView,
    turns: Seq<(Seq<char>, Seq<char>)>,
    msg: Seq<char>,
)
    requires
        !c.memory,
    ensures
        c.after_turns(turns).sent_with(msg).len() == 1,
        c.after_turns(turns).sent_with(msg)[0] == ("user"@, msg),
{
    turns_leave_the_settings(c, turns);
}

/// Every turn is kept for saving, with or without a memory, and a reset takes none of
/// them away; what was attached goes along with one message only.
pub proof fn every_turn_is_kept_for_saving(c: ChatView, turns: Seq<(Seq<char>, Seq<char>)>)
    ensures
        c.after_turns(turns).transcript == c.transcript + turns,
        turns.len() > 0 ==> c.after_turns(turns).pending.len() == 0,
        c.forgotten().transcript == c.transcript,
        c.forgotten().history.len() == 0,
        c.forgotten().pending.len() == 0,
    decreases turns.len(),
{
    if turns.len() > 0 {
        every_turn_is_kept_for_saving(c, turns.drop_last());
        assert((c.transcript + turns.drop_last()).push(turns.last()) =~= c.transcript + turns);
    } else {
        assert(c.transcript + turns =~= c.transcript);
    }
}

/// What is attached goes along with the next message in the order in which it was
/// attached, until it is dropped; nothing that was said is touched.
pub proof fn what_is_attached_waits_for_the_next_message(
    c: ChatView,
    item: crate::attachments::AttachmentView,
)
    ensures
        c.attached(item).pending.len() == c.pending.len() + 1,
        c.attached(item).pending.take(c.pending.len() as int) == c.pending,
        c.attached(item).pending.last() == item,
        c.attached(item).history == c.history,
        c.attached(item).transcript == c.transcript,
        c.attached(item).detached().pending.len() == 0,
        c.detached().history == c.history,
        c.detached().transcript == c.transcript,
{
    assert(c.attached(item).pending.take(c.pending.len() as int) =~= c.pending);
}

/// Just the models that can be served are named, in the order of the list.
pub proof fn just_the_servable_are_named(caps: Seq<ModelCapacity>)
    ensures
        servable_ids(caps) == caps.filter(|c: ModelCapacity| c.servable).map_values(
            |c: ModelCapacity| c.model_id@,
        ),
        forall|id: Seq<char>| #[trigger]
            servable_ids(caps).contains(id) <==> exists|k: int|
                0 <= k < caps.len() && (#[trigger] caps[k]).servable && caps[k].model_id@ == id,
{
    let can = |c: ModelCapacity| c.servable;
    let name = |c: ModelCapacity| c.model_id@;
    servable_ids_are_filtered(caps);
    assert forall|id: Seq<char>| #[trigger] servable_ids(caps).contains(id) implies exists|k: int|
        0 <= k < caps.len() && (#[trigger] caps[k]).servable && caps[k].model_id@ == id by {
        let i = choose|i: int| 0 <= i < servable_ids(caps).len() && servable_ids(caps)[i] == id;
        crate::lists::filtered_was_there(caps, can, i);
    }
    assert forall|id: Seq<char>|
        (exists|k: int|
            0 <= k < caps.len() && (#[trigger] caps[k]).servable && caps[k].model_id@
                == id) implies #[trigger] servable_ids(caps).contains(id) by {
        let k = choose|k: int|
            0 <= k < caps.len() && (#[trigger] caps[k]).servable && caps[k].model_id@ == id;
        crate::lists::passing_is_left(caps, can, k);
        let i = choose|i: int| 0 <= i < caps.filter(can).len() && caps.filter(can)[i] == caps[k];
        assert(servable_ids(caps)[i] == id);
    }
}

proof fn servable_ids_are_filtered(caps: Seq<ModelCapacity>)
    ensures
        servable_ids(caps) == caps.filter(|c: ModelCapacity| c.servable).map_values(
            |c: ModelCapacity| c.model_id@,
        ),
    decreases caps.len(),
{
    reveal(Seq::filter);
    let can = |c: ModelCapacity| c.servable;
    let name = |c: ModelCapacity| c.model_id@;
    if caps.len() > 0 {
        servable_ids_are_filtered(caps.drop_last());
        if caps.last().servable {
            assert(caps.filter(can) == caps.drop_last().filter(can).push(caps.last()));
        }
    }
    assert(servable_ids(caps) =~= caps.filter(can).map_values(name));
}

/// The sessions of different turns of a conversation have different names, whatever is said
/// in between, and beginning a turn changes nothing else.
pub proof fn each_turn_has_its_own_session(
    c: ChatView,
    turns: Seq<(Seq<char>, Seq<char>)>,
    tokens: nat,
)
    ensures
        c.begun().session() != c.session(),
        c.after_turns(turns).counted(tokens).begun().session() == c.begun().session(),
        c.begun().turn == c.turn + 1,
        c.begun().history == c.history,
        c.begun().transcript == c.transcript,
        c.begun().pending == c.pending,
        c.begun().total_tokens == c.total_tokens,
        c.counted(tokens).total_tokens == c.total_tokens + tokens,
        c.counted(tokens).history == c.history && c.counted(tokens).transcript == c.transcript,
        c.after_turns(turns).total_tokens == c.total_tokens,
{
    if c.begun().session() == c.session() {
        crate::sessions::turns_have_different_names(c.session_prefix, c.turn + 1, c.turn);
    }
    turns_keep_the_session(c, turns);
}

proof fn turns_keep_the_session(c: ChatView, turns: Seq<(Seq<char>, Seq<char>)>)
    ensures
        c.after_turns(turns).turn == c.turn,
        c.after_turns(turns).session_prefix == c.session_prefix,
        c.after_turns(turns).total_tokens == c.total_tokens,
    decreases turns.len(),
{
    if turns.len() > 0 {
        turns_keep_the_session(c, turns.drop_last());
    }
}

/// Whatever does not begin with a slash is said to the model just as it is.
pub proof fn a_message_is_said_as_it_is(msg: Seq<char>, c: ChatCommand)
    requires
        msg.len() > 0,
        msg[0] != '/',
        means(msg, c),
    ensures
        c matches ChatCommand::Say(said) && said@ == msg,
{
    reveal_strlit("/quit");
    reveal_strlit("/exit");
    reveal_strlit("/reset");
    reveal_strlit("/files");
    reveal_strlit("/detach");
    reveal_strlit("/clear");
    reveal_strlit("/help");
    reveal_strlit("/stats");
    reveal_strlit("/save");
    reveal_strlit("/attach");
    reveal_strlit("/image");
    reveal_strlit("/audio");
    reveal_strlit("/video");
    no_prefix(msg, "/save"@);
    no_prefix(msg, "/attach"@);
    no_prefix(msg, "/image"@);
    no_prefix(msg, "/audio"@);
    no_prefix(msg, "/video"@);
    assert forall|i: int| 0 <= i < crate::attachments::attach_commands().len() implies
        !crate::attachments::is_command(
        msg,
        #[trigger] crate::attachments::attach_commands()[i],
    ) by {}
}

proof fn no_prefix(msg: Seq<char>, p: Seq<char>)
    requires
        msg.len() > 0,
        p.len() > 0,
        p[0] == '/',
        msg[0] != '/',
    ensures
        !text::has_prefix(msg, p),
        msg != p,
{
    if text::has_prefix(msg, p) {
        assert(msg.subrange(0, p.len() as int)[0] == msg[0]);
    }
}

/// A conversation is saved turn by turn: what was saved of the first turns stays as it is, and
/// behind it comes what was said, and then what was answered.
pub proof fn a_saved_conversation_goes_on(
    model: Seq<char>,
    turns: Seq<(Seq<char>, Seq<char>)>,
    said: Seq<char>,
    answer: Seq<char>,
)
    ensures
        text::has_prefix(
            transcript_text(model, turns.push((said, answer))),
            transcript_text(model, turns),
        ),
        transcript_text(model, turns.push((said, answer))).skip(
            transcript_text(model, turns).len() as int,
        ) == "**You:** "@ + said + "\n\n**Diffuse:** "@ + answer + "\n\n"@,
        text::has_part(transcript_text(model, Seq::empty()), model),
{
    let before = transcript_text(model, turns);
    let all = transcript_text(model, turns.push((said, answer)));
    assert(turns.push((said, answer)).drop_last() =~= turns);
    assert(turns.push((said, answer)).last() == (said, answer));
    assert(all.subrange(0, before.len() as int) =~= before);
    a_break_and_a_name();
    assert(all.skip(before.len() as int) =~= "**You:** "@ + said + ("\n\n"@ + "**Diffuse:** "@)
        + answer + "\n\n"@);
    text::what_is_put_in_front_is_found("# Diffuse chat · "@, "\n\n"@, model);
}

proof fn a_break_and_a_name()
    ensures
        "\n\n**Diffuse:** "@ == "\n\n"@ + "**Diffuse:** "@,
{
    reveal_strlit("\n\n**Diffuse:** ");
    reveal_strlit("\n\n");
    reveal_strlit("**Diffuse:** ");
    assert("\n\n**Diffuse:** "@ =~= "\n\n"@ + "**Diffuse:** "@);
}

/// Of a text that is made out anew something is shown exactly where it goes on behind what was
/// shown, and then it is what goes on.
pub proof fn what_goes_on_is_shown(printed: Seq<char>, more: Seq<char>, now: Seq<char>)
    ensures
        goes_on(printed + more, printed) <==> more.len() > 0,
        goes_on(now, printed) ==> now == printed + now.skip(printed.len() as int) && now.skip(
            printed.len() as int,
        ).len() > 0,
{
    text::what_is_put_in_front_is_found(printed, more, printed);
    if goes_on(now, printed) {
        text::what_is_put_in_front_is_found(printed, now, printed);
    }
}

/// The tokens that came of an answer, one after the other.
pub open spec fn collected_of(tokens: Seq<i64>, eos: i64) -> Seq<i64>
    decreases tokens.len(),
{
    if tokens.len() == 0 {
        Seq::empty()
    } else {
        with_token(collected_of(tokens.drop_last(), eos), tokens.last(), eos)
    }
}

/// All tokens that came make up the answer, in order, but those that end it: the same as are
/// made into text when the answer is whole.
pub proof fn what_came_is_what_is_spoken(prompt: Seq<i64>, tokens: Seq<i64>, eos: i64)
    ensures
        collected_of(tokens, eos) == crate::serve::spoken(
            prompt + tokens,
            prompt.len() as int,
            eos,
        ),
        collected_of(tokens, eos) == tokens.filter(|t: i64| t != eos),
    decreases tokens.len(),
{
    reveal(Seq::filter);
    let pred = |t: i64| t != eos;
    if tokens.len() == 0 {
        assert(prompt + tokens =~= prompt);
        crate::serve::what_is_spoken_grows_by_each_token(prompt, tokens, 0, eos);
    } else {
        let init = tokens.drop_last();
        what_came_is_what_is_spoken(prompt, init, eos);
        crate::serve::what_is_spoken_grows_by_each_token(prompt, init, tokens.last(), eos);
        assert((prompt + init).push(tokens.last()) =~= prompt + tokens);
    }
}

/// A conversation is saved where it is said, whatever white space stands around that, and else
/// in a file of a fixed name.
pub proof fn a_conversation_is_saved_where_it_is_said(
    rest: Seq<char>,
    path: Seq<char>,
    said: Seq<char>,
)
    requires
        saves_to(rest, path),
        text::trims_to(rest, said),
    ensures
        said.len() > 0 ==> path == said,
        said.len() == 0 ==> path == "diffuse-chat.md"@,
{
    let trimmed = choose|trimmed: Seq<char>| #[trigger]
        text::trims_to(rest, trimmed) && path == if trimmed.len() == 0 {
            "diffuse-chat.md"@
        } else {
            trimmed
        };
    text::trimming_gives_one_text(rest, trimmed, said);
}

/// Whatever is a command that attaches a file is taken as one, and nothing else is.
pub proof fn a_command_that_attaches_is_taken_as_one(msg: Seq<char>, c: ChatCommand)
    requires
        means(msg, c),
    ensures
        c is Attach <==> exists|i: int|
            0 <= i < crate::attachments::attach_commands().len() && crate::attachments::is_command(
                msg,
                #[trigger] crate::attachments::attach_commands()[i],
            ),
{
    reveal_strlit("/quit");
    reveal_strlit("/exit");
    reveal_strlit("/reset");
    reveal_strlit("/attach");
    reveal_strlit("/image");
    reveal_strlit("/audio");
    reveal_strlit("/video");
    if exists|i: int|
        0 <= i < crate::attachments::attach_commands().len() && crate::attachments::is_command(
            msg,
            #[trigger] crate::attachments::attach_commands()[i],
        ) {
        let i = choose|i: int|
            0 <= i < crate::attachments::attach_commands().len() && crate::attachments::is_command(
                msg,
                #[trigger] crate::attachments::attach_commands()[i],
            );
        let command = crate::attachments::attach_commands()[i];
        assert(command[1] == 'a' || command[1] == 'i' || command[1] == 'v');
        if msg != command {
            assert(msg.subrange(0, command.len() as int)[1] == msg[1]);
        }
        assert(msg[1] == command[1]);
        assert("/quit"@[1] == 'q' && "/exit"@[1] == 'e' && "/reset"@[1] == 'r');
    }
}

} // verus!
