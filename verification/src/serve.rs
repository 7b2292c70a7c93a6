//! An interface for programs that talk to models over HTTP: what is asked, what
//! is answered, and what is refused.

use vstd::prelude::*;

use crate::capacity::{position_of, ModelCapacity};
use crate::clock::{nanos_now, secs_of};
use crate::commands::incomplete_model_message;
use crate::text;

verus! {

/// How many holders of each slice a route is built with.
pub const TARGET_REPLICATION: usize = 2;

/// How many tokens an answer has at most where the request does not say.
pub const DEFAULT_MAX_TOKENS: usize = 512;

/// The port of the worker that turns text into tokens.
pub const TOKENIZER_PORT: u16 = 50099;

/// Whether a host is this machine itself.
pub fn is_loopback(host: &str) -> (r: bool)
    ensures
        r == (host@ == "127.0.0.1"@ || host@ == "::1"@ || host@ == "localhost"@),
{
    text::str_eq(host, "127.0.0.1") || text::str_eq(host, "::1") || text::str_eq(host, "localhost")
}

/// The address to listen at.
pub fn bind_addr(host: &str, port: u16) -> (r: String)
    ensures
        r@ == host@ + ":"@ + text::dec(port as nat),
{
    let mut r: String = host.to_string();
    r.append(":");
    r.append(text::decimal(port as u64).as_str());
    r
}

/// The seconds since the start of 1970. Nothing is promised of the number: it is
/// whatever the clock of the machine says.
pub fn unix_secs() -> (s: u64) {
    secs_of(nanos_now())
}

// ---------------------------------------------------------------------------
// Refusals
// ---------------------------------------------------------------------------

/// Why a request is refused, and with which status.
#[derive(Debug)]
pub struct ApiError {
    pub status: u16,
    pub message: String,
    pub error_type: &'static str,
    pub code: &'static str,
}

/// What an [`ApiError`] holds.
#[verifier::ext_equal]
pub struct ApiErrorView {
    pub status: u16,
    pub message: Seq<char>,
    pub error_type: Seq<char>,
    pub code: Seq<char>,
}

impl View for ApiError {
    type V = ApiErrorView;

    open spec fn view(&self) -> ApiErrorView {
        ApiErrorView {
            status: self.status,
            message: self.message@,
            error_type: self.error_type@,
            code: self.code@,
        }
    }
}

/// A model for which no route was found, and why.
pub fn route_unavailable(model: &str, error: &str) -> (e: ApiError)
    ensures
        e@ == (ApiErrorView {
            status: 503,
            message: "cannot route model "@ + model@ + ": "@ + error@,
            error_type: "service_unavailable"@,
            code: "route_unavailable"@,
        }),
{
    let mut message: String = "cannot route model ".to_string();
    message.append(model);
    message.append(": ");
    message.append(error);
    ApiError { status: 503, message, error_type: "service_unavailable", code: "route_unavailable" }
}

/// A step of the answer that can fail on this machine.
#[derive(Debug, PartialEq, Eq, Structural, Clone, Copy)]
pub enum Failing {
    Tokenizer,
    Encode,
    Generation,
}

/// What is said of a step that failed.
pub open spec fn failed_text(step: Failing, error: Seq<char>) -> Seq<char> {
    (match step {
        Failing::Tokenizer => "tokenizer load failed: "@,
        Failing::Encode => "encode failed: "@,
        Failing::Generation => "generation failed: "@,
    }) + error
}

/// What is said of a step that failed.
pub fn failed_message(step: Failing, error: &str) -> (s: String)
    ensures
        s@ == failed_text(step, error@),
{
    let mut s: String = match step {
        Failing::Tokenizer => "tokenizer load failed: ".to_string(),
        Failing::Encode => "encode failed: ".to_string(),
        Failing::Generation => "generation failed: ".to_string(),
    };
    s.append(error);
    s
}

/// A step of the answer that failed on this machine, and why.
pub fn internal_error(step: Failing, error: &str) -> (e: ApiError)
    ensures
        e@ == (ApiErrorView {
            status: 500,
            message: failed_text(step, error@),
            error_type: "internal_error"@,
            code: match step {
                Failing::Tokenizer => "tokenizer_error"@,
                Failing::Encode => "encode_error"@,
                Failing::Generation => "generation_error"@,
            },
        }),
{
    let code: &'static str = match step {
        Failing::Tokenizer => "tokenizer_error",
        Failing::Encode => "encode_error",
        Failing::Generation => "generation_error",
    };
    ApiError { status: 500, message: failed_message(step, error), error_type: "internal_error", code }
}

// ---------------------------------------------------------------------------
// Models
// ---------------------------------------------------------------------------

/// A model as it is listed.
#[derive(Debug)]
pub struct ModelEntry {
    pub id: String,
    pub object: &'static str,
    pub created: u64,
    pub owned_by: &'static str,
}

/// What a [`ModelEntry`] holds.
#[verifier::ext_equal]
pub struct ModelEntryView {
    pub id: Seq<char>,
    pub object: Seq<char>,
    pub created: u64,
    pub owned_by: Seq<char>,
}

impl View for ModelEntry {
    type V = ModelEntryView;

    open spec fn view(&self) -> ModelEntryView {
        ModelEntryView {
            id: self.id@,
            object: self.object@,
            created: self.created,
            owned_by: self.owned_by@,
        }
    }
}

/// What entries hold.
pub open spec fn entry_views(v: Seq<ModelEntry>) -> Seq<ModelEntryView> {
    Seq::new(v.len(), |i: int| v[i]@)
}

/// A model as it is listed.
pub open spec fn entry_of(id: Seq<char>, created: u64) -> ModelEntryView {
    ModelEntryView { id, object: "model"@, created, owned_by: "diffuse"@ }
}

/// The models that can be served, as they are listed.
pub open spec fn listed(caps: Seq<ModelCapacity>, created: u64) -> Seq<ModelEntryView> {
    crate::chat::servable_ids(caps).map_values(|id: Seq<char>| entry_of(id, created))
}

/// Lists the models that can be served, in the order of `caps`.
pub fn model_list_data(caps: &[ModelCapacity], created: u64) -> (r: Vec<ModelEntry>)
    ensures
        entry_views(r@) == listed(caps@, created),
{
    let mut r: Vec<ModelEntry> = Vec::new();
    let ids: Vec<String> = crate::chat::servable_models(caps);
    let ghost all = listed(caps@, created);
    let mut i: usize = 0;
    while i < ids.len()
        invariant
            i <= ids@.len(),
            text::views(ids@) == crate::chat::servable_ids(caps@),
            all == listed(caps@, created),
            entry_views(r@) == all.take(i as int),
        decreases ids@.len() - i,
    {
        let ghost before = entry_views(r@);
        r.push(
            ModelEntry { id: ids[i].clone(), object: "model", created, owned_by: "diffuse" },
        );
        proof {
            assert(text::views(ids@)[i as int] == ids@[i as int]@);
            assert(entry_views(r@) =~= before.push(all[i as int]));
            assert(all.take(i + 1) =~= all.take(i as int).push(all[i as int]));
        }
        i += 1;
    }
    assert(text::views(ids@).len() == ids@.len());
    assert(all.take(i as int) =~= all);
    r
}

/// The model that a request is for: the one that it names, or else the default.
pub open spec fn wanted(requested: Option<String>, default: Option<String>) -> Option<Seq<char>> {
    match (requested, default) {
        (Some(m), _) => Some(m@),
        (None, Some(m)) => Some(m@),
        (None, None) => None,
    }
}

/// What is said of a request that names no model.
pub open spec fn model_required() -> ApiErrorView {
    ApiErrorView {
        status: 400,
        message: "no model specified and no default model configured"@,
        error_type: "invalid_request_error"@,
        code: "model_required"@,
    }
}

/// What is said of a model that nobody has.
pub open spec fn model_not_found(model: Seq<char>) -> ApiErrorView {
    ApiErrorView {
        status: 404,
        message: "model "@ + model + " is not present on the network"@,
        error_type: "invalid_request_error"@,
        code: "model_not_found"@,
    }
}

/// What comes of a request for a model: what the peers hold of it, where it can be served; or
/// else why it cannot be.
pub open spec fn resolves(
    r: Result<ModelCapacity, ApiError>,
    caps: Seq<ModelCapacity>,
    wanted: Option<Seq<char>>,
) -> bool {
    match wanted {
        None => r matches Err(e) && e@ == model_required(),
        Some(model) => match crate::capacity::find_model(caps, model, 0) {
            None => r matches Err(e) && e@ == model_not_found(model),
            Some(at) => if caps[at].servable {
                r matches Ok(cap) && cap.model_id@ == model && cap.total_layers
                    == caps[at].total_layers && cap.slices@ == caps[at].slices@ && cap.servable
                    && cap.min_replicas == caps[at].min_replicas && cap.weakest_slice
                    == caps[at].weakest_slice
            } else {
                r matches Err(e) && e.status == 503 && crate::commands::says_incomplete(
                    caps[at],
                    e.message@,
                ) && e.error_type@ == "service_unavailable"@ && e.code@ == "model_incomplete"@
            },
        },
    }
}

/// Finds the model that a request is for, or says why it cannot be served: none
/// is named, nobody has it, or layers of it are missing.
pub fn resolve_servable_model(
    caps: &[ModelCapacity],
    requested: Option<String>,
    default: Option<String>,
) -> (r: Result<ModelCapacity, ApiError>)
    ensures
        resolves(r, caps@, wanted(requested, default)),
{
    let model: String = match (requested, default) {
        (Some(m), _) => m,
        (None, Some(m)) => m,
        (None, None) => {
            return Err(
                ApiError {
                    status: 400,
                    message: "no model specified and no default model configured".to_string(),
                    error_type: "invalid_request_error",
                    code: "model_required",
                },
            );
        },
    };
    match position_of(caps, model.as_str()) {
        None => {
            let mut message: String = "model ".to_string();
            message.append(model.as_str());
            message.append(" is not present on the network");
            Err(
                ApiError {
                    status: 404,
                    message,
                    error_type: "invalid_request_error",
                    code: "model_not_found",
                },
            )
        },
        Some(i) => {
            if !caps[i].servable {
                return Err(
                    ApiError {
                        status: 503,
                        message: incomplete_model_message(&caps[i]),
                        error_type: "service_unavailable",
                        code: "model_incomplete",
                    },
                );
            }
            Ok(caps[i].clone())
        },
    }
}

// ---------------------------------------------------------------------------
// Requests
// ---------------------------------------------------------------------------

/// A message of a request, by whom and what.
#[derive(Debug)]
pub struct ChatMessageIn {
    pub role: String,
    pub content: String,
}

/// What a program asks.
#[derive(Debug)]
pub struct ChatCompletionRequest {
    pub model: Option<String>,
    pub messages: Vec<ChatMessageIn>,
    pub max_tokens: Option<usize>,
    pub stream: Option<bool>,
}

impl ChatCompletionRequest {
    /// The messages, by whom and what.
    pub fn pairs(&self) -> (r: Vec<(String, String)>)
        ensures
            r@.len() == self.messages@.len(),
            forall|i: int|
                0 <= i < r@.len() ==> (#[trigger] r@[i]).0@ == self.messages@[i].role@ && r@[i].1@
                    == self.messages@[i].content@,
    {
        let mut r: Vec<(String, String)> = Vec::new();
        let mut i: usize = 0;
        while i < self.messages.len()
            invariant
                i <= self.messages@.len(),
                r@.len() == i,
                forall|j: int|
                    0 <= j < r@.len() ==> (#[trigger] r@[j]).0@ == self.messages@[j].role@
                        && r@[j].1@ == self.messages@[j].content@,
            decreases self.messages@.len() - i,
        {
            r.push((self.messages[i].role.clone(), self.messages[i].content.clone()));
            i += 1;
        }
        r
    }

    /// How many tokens the answer has at most.
    pub fn most_tokens(&self) -> (n: usize)
        ensures
            n == match self.max_tokens {
                Some(n) => n,
                None => DEFAULT_MAX_TOKENS,
            },
    {
        match self.max_tokens {
            Some(n) => n,
            None => DEFAULT_MAX_TOKENS,
        }
    }

    /// Whether the answer is sent as it comes.
    pub fn streams(&self) -> (r: bool)
        ensures
            r == (self.stream == Some(true)),
    {
        match self.stream {
            Some(s) => s,
            None => false,
        }
    }
}

/// Whether the tokenizer has to load a model before it can be used for it.
pub fn ensure_tokenizer(loaded: &Option<String>, model: &str) -> (load: bool)
    ensures
        load == match *loaded {
            Some(m) => m@ != model@,
            None => true,
        },
{
    match loaded {
        Some(m) => !text::str_eq(m.as_str(), model),
        None => true,
    }
}

// ---------------------------------------------------------------------------
// Answers
// ---------------------------------------------------------------------------

/// How many tokens went in, and how many came out.
#[derive(Debug, PartialEq, Eq, Structural, Clone, Copy)]
pub struct Usage {
    pub prompt_tokens: usize,
    pub completion_tokens: usize,
    pub total_tokens: usize,
}

/// An answer that is sent whole.
#[derive(Debug)]
pub struct Completion {
    pub id: String,
    pub object: &'static str,
    pub created: u64,
    pub model: String,
    pub index: u32,
    pub role: &'static str,
    pub content: String,
    pub finish_reason: &'static str,
    pub usage: Usage,
}

/// Why an answer ended: at the token that ends it, or at its greatest length.
pub open spec fn reason(ids: Seq<i64>, eos: i64) -> Seq<char> {
    if ids.len() > 0 && ids.last() == eos {
        "stop"@
    } else {
        "length"@
    }
}

/// Why an answer ended.
pub fn finish_reason(ids: &[i64], eos: i64) -> (r: &'static str)
    ensures
        r@ == reason(ids@, eos),
{
    if ids.len() > 0 && ids[ids.len() - 1] == eos {
        "stop"
    } else {
        "length"
    }
}

/// How many tokens went in, and how many came out.
pub open spec fn usage_of(prompt_tokens: nat, ids: Seq<i64>) -> Usage {
    Usage {
        prompt_tokens: prompt_tokens as usize,
        completion_tokens: ids.len() as usize,
        total_tokens: (prompt_tokens + ids.len()) as usize,
    }
}

/// An answer that is sent whole. `ids` are its tokens without those of the prompt.
pub fn completion(
    id: String,
    created: u64,
    model: String,
    prompt_tokens: usize,
    ids: &[i64],
    eos: i64,
    content: String,
) -> (c: Completion)
    requires
        prompt_tokens + ids@.len() <= usize::MAX,
    ensures
        c.id@ == id@,
        c.object@ == "chat.completion"@,
        c.created == created,
        c.model@ == model@,
        c.index == 0,
        c.role@ == "assistant"@,
        c.content@ == content@,
        c.finish_reason@ == reason(ids@, eos),
        c.usage == usage_of(prompt_tokens as nat, ids@),
{
    Completion {
        id,
        object: "chat.completion",
        created,
        model,
        index: 0,
        role: "assistant",
        content,
        finish_reason: finish_reason(ids, eos),
        usage: Usage {
            prompt_tokens,
            completion_tokens: ids.len(),
            total_tokens: prompt_tokens + ids.len(),
        },
    }
}

/// What is new in a piece of an answer.
#[derive(Debug)]
pub enum Delta {
    /// Who speaks.
    Role(&'static str),
    /// What was said.
    Content(String),
    /// Nothing more.
    Empty,
}

/// A piece of an answer that is sent as it comes.
#[derive(Debug)]
pub struct Chunk {
    pub id: String,
    pub object: &'static str,
    pub created: u64,
    pub model: String,
    pub index: u32,
    pub delta: Delta,
    pub finish_reason: Option<&'static str>,
}

impl Chunk {
    /// Whether this is a piece of the answer `id` of a model.
    pub open spec fn belongs_to(&self, id: Seq<char>, created: u64, model: Seq<char>) -> bool {
        &&& self.id@ == id
        &&& self.object@ == "chat.completion.chunk"@
        &&& self.created == created
        &&& self.model@ == model
        &&& self.index == 0
    }
}

/// A piece of an answer.
pub fn chunk_json(
    id: &str,
    created: u64,
    model: &str,
    delta: Delta,
    finish_reason: Option<&'static str>,
) -> (c: Chunk)
    ensures
        c.belongs_to(id@, created, model@),
        c.delta == delta,
        c.finish_reason == finish_reason,
{
    Chunk {
        id: id.to_string(),
        object: "chat.completion.chunk",
        created,
        model: model.to_string(),
        index: 0,
        delta,
        finish_reason,
    }
}

/// The first piece of an answer: who speaks.
pub fn role_chunk(id: &str, created: u64, model: &str) -> (c: Chunk)
    ensures
        c.belongs_to(id@, created, model@),
        c.delta matches Delta::Role(who) && who@ == "assistant"@,
        c.finish_reason is None,
{
    chunk_json(id, created, model, Delta::Role("assistant"), None)
}

/// A piece of an answer that holds text.
pub fn content_chunk(id: &str, created: u64, model: &str, text: String) -> (c: Chunk)
    ensures
        c.belongs_to(id@, created, model@),
        c.delta matches Delta::Content(said) && said@ == text@,
        c.finish_reason is None,
{
    chunk_json(id, created, model, Delta::Content(text), None)
}

/// The last piece of an answer: why it ended.
pub fn final_chunk(id: &str, created: u64, model: &str, reason: &'static str) -> (c: Chunk)
    ensures
        c.belongs_to(id@, created, model@),
        c.delta is Empty,
        c.finish_reason matches Some(why) && why@ == reason@,
{
    chunk_json(id, created, model, Delta::Empty, Some(reason))
}

/// The piece that ends an answer that failed: what went wrong, in place of text.
pub fn send_stream_error(id: &str, created: u64, model: &str, message: &str) -> (c: Chunk)
    ensures
        c.belongs_to(id@, created, model@),
        c.delta matches Delta::Content(said) && said@ == "[error: "@ + message@ + "]"@,
        c.finish_reason matches Some(why) && why@ == "stop"@,
{
    let mut said: String = "[error: ".to_string();
    said.append(message);
    said.append("]");
    chunk_json(id, created, model, Delta::Content(said), Some("stop"))
}

/// Whether a token is another than the one that ends an answer.
pub open spec fn other_than(eos: i64) -> spec_fn(i64) -> bool {
    |t: i64| t != eos
}

/// The tokens of an answer that make up its text: those behind the prompt that
/// do not end it.
pub open spec fn spoken(out: Seq<i64>, prompt: int, eos: i64) -> Seq<i64> {
    out.skip(prompt).filter(other_than(eos))
}

/// What is left to do once all tokens of an answer came: which tokens to make the
/// whole text out of, where any came behind the prompt, and why the answer ended.
/// The answer ended at the token that ends it where that is the last of all,
/// those of the prompt among them.
pub fn stream_end(out: &[i64], prompt: usize, eos: i64) -> (r: (Option<Vec<i64>>, &'static str))
    ensures
        r.1@ == reason(out@, eos),
        match r.0 {
            Some(ids) => out@.len() > prompt && ids@ == spoken(out@, prompt as int, eos),
            None => out@.len() <= prompt,
        },
{
    let why: &'static str = finish_reason(out, eos);
    if out.len() <= prompt {
        return (None, why);
    }
    let ghost new = out@.skip(prompt as int);
    let ghost pred = other_than(eos);
    let mut ids: Vec<i64> = Vec::new();
    let mut i: usize = prompt;
    proof {
        crate::lists::filter_ends(new, pred);
    }
    while i < out.len()
        invariant
            prompt <= i <= out@.len(),
            new == out@.skip(prompt as int),
            pred == other_than(eos),
            ids@ == new.take(i - prompt).filter(pred),
        decreases out@.len() - i,
    {
        proof {
            crate::lists::filter_step(new, pred, i - prompt);
            assert(new[i - prompt] == out@[i as int]);
        }
        if out[i] != eos {
            ids.push(out[i]);
        }
        i += 1;
    }
    proof {
        crate::lists::filter_ends(new, pred);
        assert(new.take(i - prompt) =~= new);
    }
    (Some(ids), why)
}

// ---------------------------------------------------------------------------
// Laws
// ---------------------------------------------------------------------------
/// The tokens that went in and those that came out are counted once each: an answer that
/// is longer by one counts one more of those that came out, and one more of all.
pub proof fn every_token_is_counted_once(prompt: nat, ids: Seq<i64>, token: i64)
    requires
        prompt + ids.len() + 1 <= usize::MAX,
    ensures
        usage_of(prompt, ids).prompt_tokens == prompt,
        usage_of(prompt, Seq::empty()).completion_tokens == 0,
        usage_of(prompt, ids.push(token)).completion_tokens == usage_of(
            prompt,
            ids,
        ).completion_tokens + 1,
        usage_of(prompt, ids).total_tokens == usage_of(prompt, ids).prompt_tokens + usage_of(
            prompt,
            ids,
        ).completion_tokens,
{
}

/// The text of an answer is made of each token behind the prompt but those that end it, in
/// order: nothing of the prompt is part of it, a token that ends the answer adds nothing,
/// and any other adds itself.
pub proof fn what_is_spoken_grows_by_each_token(
    prompt: Seq<i64>,
    tokens: Seq<i64>,
    token: i64,
    eos: i64,
)
    ensures
        spoken(prompt, prompt.len() as int, eos) == Seq::<i64>::empty(),
        spoken((prompt + tokens).push(token), prompt.len() as int, eos) == if token == eos {
            spoken(prompt + tokens, prompt.len() as int, eos)
        } else {
            spoken(prompt + tokens, prompt.len() as int, eos).push(token)
        },
{
    reveal(Seq::filter);
    let n = prompt.len() as int;
    assert(prompt.skip(n) =~= Seq::<i64>::empty());
    let before = (prompt + tokens).skip(n);
    let after = (prompt + tokens).push(token).skip(n);
    assert(before =~= tokens);
    assert(after =~= tokens.push(token));
    assert(after.drop_last() =~= tokens);
    assert(after.last() == token);
}

/// An answer that ran its course says that it stopped exactly where the token that ends it
/// was drawn, and else that it reached its length.
pub proof fn an_answer_says_why_it_ended(
    g: crate::generation::GenerationView,
    tokens: Seq<i64>,
    eos: i64,
)
    requires
        g.sampled == 0,
        g.keep_eos,
        g.eos_id == Some(eos),
        g.lasts(tokens),
        tokens.len() > 0,
    ensures
        tokens.last() == eos ==> reason(g.after_all(tokens).ids, eos) == "stop"@,
        tokens.last() != eos ==> reason(g.after_all(tokens).ids, eos) == "length"@,
        reason(Seq::empty(), eos) == "length"@,
        "stop"@ != "length"@,
{
    crate::generation::an_answer_is_the_prompt_and_the_tokens(g, tokens);
    assert(g.after_all(tokens).ids.last() == tokens.last());
    reveal_strlit("stop");
    reveal_strlit("length");
    assert("stop"@.len() == 4 && "length"@.len() == 6);
}

/// The model that a request names is the one that it is for, whatever the default is; the
/// default is for requests that name none.
pub proof fn a_named_model_comes_before_the_default(
    named: String,
    default: String,
    any: Option<String>,
)
    ensures
        wanted(Some(named), any) == Some(named@),
        wanted(None, Some(default)) == Some(default@),
        wanted(None, None) is None,
{
}

/// Just the models that can be served are listed: each entry is one of them, and each of
/// them has an entry.
pub proof fn what_can_be_served_is_listed(caps: Seq<ModelCapacity>, created: u64, i: int)
    ensures
        0 <= i < listed(caps, created).len() ==> listed(caps, created)[i].created == created
            && exists|k: int|
            0 <= k < caps.len() && (#[trigger] caps[k]).servable && caps[k].model_id@ == listed(
                caps,
                created,
            )[i].id,
        0 <= i < caps.len() && caps[i].servable ==> exists|k: int|
            0 <= k < listed(caps, created).len() && (#[trigger] listed(caps, created)[k]).id
                == caps[i].model_id@,
{
    crate::chat::just_the_servable_are_named(caps);
    let ids = crate::chat::servable_ids(caps);
    if 0 <= i < listed(caps, created).len() {
        assert(listed(caps, created)[i].id == ids[i]);
        assert(ids.contains(ids[i]));
    }
    if 0 <= i < caps.len() && caps[i].servable {
        assert(ids.contains(caps[i].model_id@));
        let k = choose|k: int| 0 <= k < ids.len() && ids[k] == caps[i].model_id@;
        assert(listed(caps, created)[k].id == ids[k]);
    }
}

/// The pieces of one answer agree in all that says which answer they are of.
pub proof fn pieces_of_an_answer_agree(
    a: Chunk,
    b: Chunk,
    id: Seq<char>,
    created: u64,
    model: Seq<char>,
)
    requires
        a.belongs_to(id, created, model),
        b.belongs_to(id, created, model),
    ensures
        a.id@ == id && b.id@ == id,
        a.model@ == model && b.model@ == model,
        a.created == created && b.created == created,
        a.object@ == b.object@ && a.object@ == "chat.completion.chunk"@,
        a.index == b.index && a.index == 0,
{
}

/// A refusal tells whose fault it is: 4xx where the request is wrong, and 404 where it names a
/// model that nobody has, which it then names.
pub proof fn a_refusal_names_the_model(model: Seq<char>)
    ensures
        400 <= model_required().status < 500,
        model_not_found(model).status == 404,
        text::has_part(model_not_found(model).message, model),
        model_required().error_type == model_not_found(model).error_type,
{
    text::what_is_put_in_front_is_found("model "@, " is not present on the network"@, model);
}

/// A request is served exactly where it is for a model that is listed, and with that model. The
/// status of a refusal tells why: 400 where no model is wanted, 404 where nobody has it, and
/// 503 where layers of it are missing.
pub proof fn a_listed_model_is_served(
    r: Result<ModelCapacity, ApiError>,
    caps: Seq<ModelCapacity>,
    wanted: Option<Seq<char>>,
)
    requires
        resolves(r, caps, wanted),
    ensures
        r is Ok <==> (wanted matches Some(m) && crate::capacity::is_servable(caps, m)),
        r matches Ok(cap) ==> wanted == Some(cap.model_id@) && cap.servable && exists|i: int|
            0 <= i < caps.len() && (#[trigger] caps[i]).model_id@ == cap.model_id@
                && caps[i].slices@ == cap.slices@ && caps[i].total_layers == cap.total_layers,
        r matches Err(e) ==> match wanted {
            None => e.status == 400,
            Some(m) => if forall|i: int| 0 <= i < caps.len() ==> (#[trigger] caps[i]).model_id@ != m {
                e.status == 404 && text::has_part(e.message@, m)
            } else {
                e.status == 503 && text::has_part(e.message@, m)
            },
        },
{
    if let Some(m) = wanted {
        crate::capacity::a_found_model_is_the_one(caps, m, 0);
        a_refusal_names_the_model(m);
        if let Some(at) = crate::capacity::find_model(caps, m, 0) {
            assert(caps[at].model_id@ == m);
            if !caps[at].servable {
                crate::commands::what_is_said_names_the_holes(caps[at], r->Err_0.message@);
            }
        } else {
            assert(r->Err_0@.message == r->Err_0.message@);
            assert(r->Err_0@.status == r->Err_0.status);
        }
    } else {
        assert(r->Err_0@.status == r->Err_0.status);
    }
}

} // verus!
