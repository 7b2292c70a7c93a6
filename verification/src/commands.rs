//! What the commands say and decide, apart from the network and the terminal.

use vstd::prelude::*;

use crate::capacity::{position_of, ModelCapacity};
use crate::orchestrator::write_ranges;
use crate::text;
use crate::units;

pub use crate::attachments::{
    collect_attachments, forced_kind, kind_from_extension, read_attachment, split_attach_command,
    Attachment,
};
pub use crate::chat::save_transcript;
pub use crate::patches::{element_size, join_rows, slice_rows};
pub use crate::units::human_bytes;
pub use crate::worker::venv_python;

verus! {

/// What is said of a model that cannot be served.
pub open spec fn incomplete_text(cap: ModelCapacity, gaps: Seq<(u32, u32)>) -> Seq<char> {
    if gaps.len() == 0 {
        "model "@ + cap.model_id@ + " is present but not fully servable"@
    } else {
        "model "@ + cap.model_id@ + " is incomplete: no peer serves layers "@
            + crate::orchestrator::ranges_text(gaps, ", "@) + " (of "@ + text::dec(
            cap.total_layers as nat,
        )
            + " total). Waiting for those slices to come online, or host one yourself with `diffuse join`."@
    }
}

/// Whether a text is what is said of a model that cannot be served: it names the
/// layers that nobody holds.
pub open spec fn says_incomplete(cap: ModelCapacity, s: Seq<char>) -> bool {
    exists|gaps: Seq<(u32, u32)>|
        crate::capacity::ranges(gaps) == crate::capacity::gaps(
            cap.slices@,
            cap.total_layers as int,
        ) && s == #[trigger] incomplete_text(cap, gaps)
}

/// What is said of a model that cannot be served.
pub fn incomplete_model_message(cap: &ModelCapacity) -> (s: String)
    ensures
        says_incomplete(*cap, s@),
{
    let gaps: Vec<(u32, u32)> = cap.coverage_gaps();
    let mut s: String = "model ".to_string();
    s.append(cap.model_id.as_str());
    if gaps.len() == 0 {
        s.append(" is present but not fully servable");
    } else {
        s.append(" is incomplete: no peer serves layers ");
        s.append(write_ranges(&gaps, ", ").as_str());
        s.append(" (of ");
        s.append(text::decimal(cap.total_layers as u64).as_str());
        s.append(
            " total). Waiting for those slices to come online, or host one yourself with `diffuse join`.",
        );
    }
    assert(s@ == incomplete_text(*cap, gaps@));
    s
}

/// Finds the model that is asked for, or says why it cannot be asked: nobody
/// has it, or it cannot be served.
pub fn model_to_query(caps: &[ModelCapacity], model: &str) -> (r: Result<usize, String>)
    ensures
        match (r, crate::capacity::find_model(caps@, model@, 0)) {
            (Ok(i), Some(at)) => i == at && caps@[at].servable,
            (Err(e), Some(at)) => !caps@[at].servable && says_incomplete(caps@[at], e@),
            (Err(e), None) => e@ == "model "@ + model@ + " not found on the network"@,
            (Ok(_), None) => false,
        },
        r is Ok <==> crate::capacity::is_servable(caps@, model@),
        r matches Ok(i) ==> caps@[i as int].model_id@ == model@,
{
    match position_of(caps, model) {
        Some(i) => {
            proof {
                crate::capacity::a_found_model_is_the_one(caps@, model@, 0);
            }
            if caps[i].servable {
                Ok(i)
            } else {
                Err(incomplete_model_message(&caps[i]))
            }
        },
        None => {
            let mut s: String = "model ".to_string();
            s.append(model);
            s.append(" not found on the network");
            Err(s)
        },
    }
}

/// What is said where the worker of this machine does not become ready: what it
/// was started for, and why it could not be reached.
pub fn not_ready_message(what: &str, error: &str) -> (s: String)
    ensures
        s@ == "the local "@ + what@
            + " did not become ready within 30 seconds. It imports torch and transformers before opening its gRPC port, which can take longer on a loaded machine or a cold disk cache. This is a local worker startup problem, not a network issue. Underlying error: "@
            + error@,
{
    let mut s: String = "the local ".to_string();
    s.append(what);
    s.append(
        " did not become ready within 30 seconds. It imports torch and transformers before opening its gRPC port, which can take longer on a loaded machine or a cold disk cache. This is a local worker startup problem, not a network issue. Underlying error: ",
    );
    s.append(error);
    s
}

/// What is said of an answer that was written to a file.
pub fn written_message(bytes: u64, mime: &str, path: &str) -> (s: String)
    ensures
        s@ == units::bytes_text(bytes as nat) + " of "@ + mime@ + " written to "@ + path@,
{
    let mut s: String = units::human_bytes(bytes);
    s.append(" of ");
    s.append(mime);
    s.append(" written to ");
    s.append(path);
    s
}

/// How a file that goes along with a message is listed.
pub fn attachment_line(item: &Attachment) -> (s: String)
    ensures
        s@ == item.label@ + " · "@ + units::bytes_text(item.data@.len()),
{
    let mut s: String = item.label.clone();
    s.append(" · ");
    s.append(units::human_bytes(item.data.len() as u64).as_str());
    s
}

/// A number of things, with the word for one or for many of them.
pub fn count_of(n: usize, one: &str, many: &str) -> (s: String)
    ensures
        s@ == text::dec(n as nat) + " "@ + (if n == 1 {
            one@
        } else {
            many@
        }),
{
    let mut s: String = text::decimal(n as u64);
    s.append(" ");
    if n == 1 {
        s.append(one);
    } else {
        s.append(many);
    }
    s
}

/// How an answer is made that was asked for.
#[derive(Debug, PartialEq, Eq, Structural, Clone, Copy)]
pub enum Answering {
    /// By diffusion, a step of all layers at a time.
    Diffusion,
    /// By a session of the worker, which ends it by itself.
    Generative,
    /// Token by token, from the tokens of the prompt.
    Tokens,
    /// Token by token, from the hidden states of the prompt and of what is
    /// attached to it.
    Embeddings,
}

/// How the answer to a query is made.
pub open spec fn answered_by(
    diffuses: bool,
    has_first: bool,
    kind: Seq<char>,
    has_memory: bool,
    attached: nat,
) -> Answering {
    if diffuses {
        Answering::Diffusion
    } else if has_first && (kind != "text"@ || has_memory) {
        Answering::Generative
    } else if attached == 0 {
        Answering::Tokens
    } else {
        Answering::Embeddings
    }
}

/// How the answer to a query is made: by diffusion where the model is a pipeline
/// for that; else by a session of the worker where it began one that makes
/// something else than text or keeps a memory of the prompt; else token by token.
pub fn answering(
    diffuses: bool,
    has_first: bool,
    kind: &str,
    has_memory: bool,
    attached: usize,
) -> (r: Answering)
    ensures
        r == answered_by(diffuses, has_first, kind@, has_memory, attached as nat),
{
    if diffuses {
        Answering::Diffusion
    } else if crate::chat::runs_generative(has_first, kind, has_memory) {
        Answering::Generative
    } else if attached == 0 {
        Answering::Tokens
    } else {
        Answering::Embeddings
    }
}

// ---------------------------------------------------------------------------
// Laws
// ---------------------------------------------------------------------------
/// A model that diffuses always answers by diffusion, and no other does. A session of the
/// worker answers only where it was begun, and always where it makes something else than
/// text. What answers token by token does so out of the tokens of the prompt exactly where
/// nothing is attached to it.
pub proof fn an_answer_is_made_by_what_can_make_it(
    has_first: bool,
    kind: Seq<char>,
    has_memory: bool,
    attached: nat,
)
    ensures
        answered_by(true, has_first, kind, has_memory, attached) is Diffusion,
        !(answered_by(false, has_first, kind, has_memory, attached) is Diffusion),
        answered_by(false, has_first, kind, has_memory, attached) is Generative ==> has_first,
        has_first && kind != "text"@ ==> answered_by(
            false,
            has_first,
            kind,
            has_memory,
            attached,
        ) is Generative,
        has_first && has_memory ==> answered_by(
            false,
            has_first,
            kind,
            has_memory,
            attached,
        ) is Generative,
        !has_first || (kind == "text"@ && !has_memory) ==> (answered_by(
            false,
            has_first,
            kind,
            has_memory,
            attached,
        ) is Tokens <==> attached == 0) && (answered_by(
            false,
            has_first,
            kind,
            has_memory,
            attached,
        ) is Embeddings <==> attached > 0),
{
}

/// What is said of a model that cannot be served names the model, and each range of layers
/// that nobody holds.
pub proof fn what_is_missing_is_named(cap: ModelCapacity, gaps: Seq<(u32, u32)>)
    ensures
        text::has_part(incomplete_text(cap, gaps), cap.model_id@),
        gaps.len() > 0 ==> text::has_part(
            incomplete_text(cap, gaps),
            crate::orchestrator::ranges_text(gaps, ", "@),
        ),
{
    let id = cap.model_id@;
    let s = incomplete_text(cap, gaps);
    if gaps.len() == 0 {
        let tail = " is present but not fully servable"@;
        text::what_is_put_in_front_is_found("model "@, tail, id);
    } else {
        let a = " is incomplete: no peer serves layers "@;
        let named = crate::orchestrator::ranges_text(gaps, ", "@);
        let b = " (of "@;
        let total = text::dec(cap.total_layers as nat);
        let c =
            " total). Waiting for those slices to come online, or host one yourself with `diffuse join`."@;
        let front = "model "@ + id + a;
        text::what_is_put_in_front_is_found(front, b + total + c, named);
        assert(s =~= front + named + (b + total + c));
        text::what_is_put_in_front_is_found("model "@, a + named + (b + total + c), id);
        assert(s =~= "model "@ + id + (a + named + (b + total + c)));
    }
}

/// What is said of a model that cannot be served names just the layers that nobody holds.
pub proof fn what_is_said_names_the_holes(cap: ModelCapacity, s: Seq<char>)
    requires
        says_incomplete(cap, s),
    ensures
        text::has_part(s, cap.model_id@),
        crate::capacity::gaps(cap.slices@, cap.total_layers as int).len() > 0 ==> exists|
            gaps: Seq<(u32, u32)>,
        |
            crate::capacity::ranges(gaps) == crate::capacity::gaps(
                cap.slices@,
                cap.total_layers as int,
            ) && text::has_part(s, #[trigger] crate::orchestrator::ranges_text(gaps, ", "@)),
{
    let gaps = choose|gaps: Seq<(u32, u32)>|
        crate::capacity::ranges(gaps) == crate::capacity::gaps(
            cap.slices@,
            cap.total_layers as int,
        ) && s == #[trigger] incomplete_text(cap, gaps);
    what_is_missing_is_named(cap, gaps);
    assert(crate::capacity::ranges(gaps).len() == gaps.len());
}

} // verus!
