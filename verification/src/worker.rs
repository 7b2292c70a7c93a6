//! What the inference worker of this machine answers.

use vstd::prelude::*;

use crate::text;

verus! {

/// What a machine can hold of a model.
#[derive(Debug)]
pub struct WorkerProfile {
    pub total_layers: u32,
    pub max_layers: u32,
    pub max_layers_if_holding_embedding: u32,
    pub avg_layer_bytes: u64,
    pub available_bytes: u64,
    pub device: String,
}

impl Clone for WorkerProfile {
    fn clone(&self) -> (r: Self)
        ensures
            r == *self,
    {
        WorkerProfile {
            total_layers: self.total_layers,
            max_layers: self.max_layers,
            max_layers_if_holding_embedding: self.max_layers_if_holding_embedding,
            avg_layer_bytes: self.avg_layer_bytes,
            available_bytes: self.available_bytes,
            device: self.device.clone(),
        }
    }
}

/// Whether the worker did what it was asked; else what it says, behind what it
/// was asked for.
pub fn worker_answer(ok: bool, what: &str, error: &str) -> (r: Result<(), String>)
    ensures
        match r {
            Ok(_) => ok,
            Err(s) => !ok && s@ == what@ + " failed: "@ + error@,
        },
{
    if ok {
        return Ok(());
    }
    let mut s: String = what.to_string();
    s.append(" failed: ");
    s.append(error);
    Err(s)
}

/// Whether the worker is well: it says so, and a slice is loaded.
pub fn is_healthy(ok: bool, slice_loaded: bool) -> (r: bool)
    ensures
        r == (ok && slice_loaded),
{
    ok && slice_loaded
}

/// Whether a worker that could not be reached for so long is given up.
pub fn gives_up(elapsed_ms: u64, patience_ms: u64) -> (r: bool)
    ensures
        r == (elapsed_ms >= patience_ms),
{
    elapsed_ms >= patience_ms
}

/// Whether an address of a worker begins with a scheme.
pub fn has_scheme(endpoint: &str) -> (r: bool)
    ensures
        r == (text::has_prefix(endpoint@, "http://"@) || text::has_prefix(
            endpoint@,
            "https://"@,
        )),
{
    text::starts_with(endpoint, "http://") || text::starts_with(endpoint, "https://")
}

/// Says that an address of a worker lacks a scheme.
pub fn no_scheme_message(endpoint: &str) -> (s: String)
    ensures
        s@ == "the worker address "@ + endpoint@ + " has no scheme; write it as http://"@
            + endpoint@,
{
    let mut s: String = "the worker address ".to_string();
    s.append(endpoint);
    s.append(" has no scheme; write it as http://");
    s.append(endpoint);
    s
}

/// Says that a worker could not be reached.
pub fn unreachable_message(endpoint: &str, seconds: u64, cause: &str) -> (s: String)
    ensures
        s@ == "could not reach the inference worker at "@ + endpoint@ + " after "@ + text::dec(
            seconds as nat,
        ) + " seconds (last error: "@ + cause@ + ")"@,
{
    let mut s: String = "could not reach the inference worker at ".to_string();
    s.append(endpoint);
    s.append(" after ");
    s.append(text::decimal(seconds).as_str());
    s.append(" seconds (last error: ");
    s.append(cause);
    s.append(")");
    s
}

/// Where the virtual environment of the worker keeps its interpreter, as the
/// names of the directories on the way and of the file: not the same on every
/// system.
pub open spec fn venv_path(windows: bool) -> Seq<Seq<char>> {
    if windows {
        seq![".venv"@, "Scripts"@, "python.exe"@]
    } else {
        seq![".venv"@, "bin"@, "python"@]
    }
}

/// Where the virtual environment of the worker keeps its interpreter.
pub fn venv_python(windows: bool) -> (r: Vec<String>)
    ensures
        text::views(r@) == venv_path(windows),
{
    let mut r: Vec<String> = Vec::new();
    r.push(".venv".to_string());
    if windows {
        r.push("Scripts".to_string());
        r.push("python.exe".to_string());
    } else {
        r.push("bin".to_string());
        r.push("python".to_string());
    }
    assert(text::views(r@) =~= venv_path(windows));
    r
}

} // verus!
