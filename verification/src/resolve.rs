//! The action resolver: turns a `GameAction` into either a response string or
//! a request towards an outside collaborator (the script engine, the
//! persistence gateway), which the surrounding server loop performs.

use vstd::prelude::*;
use crate::states::{GameAction, ActionV};

verus! {

/// What one dispatched command asks the surrounding server loop to do.
/// `Respond` is complete in itself; the other variants carry the outside work
/// the core cannot perform, and the loop feeds any result back through
/// [`script_result_response`] or the persistence functions.
pub enum Effect {
    /// Send this response to the client.
    Respond(String),
    /// Run the script stored under `path` against the session's scratchpad,
    /// then respond with [`script_result_response`] of its outcome.
    RunScript { path: String },
    /// Store `contents` under `path`, then send `response`.
    WriteScript { path: String, contents: String, response: String },
    /// Snapshot the world and the session, then respond with
    /// [`crate::resolve::save_response`] of the outcome.
    Save,
    /// Load the session persisted under `name` and feed it back through
    /// [`crate::dispatch::login_apply`].
    LoadSession { name: String },
}

/// Spec-level value of an [`Effect`].
pub enum EffectV {
    Respond(Seq<char>),
    RunScript { path: Seq<char> },
    WriteScript { path: Seq<char>, contents: Seq<char>, response: Seq<char> },
    Save,
    LoadSession { name: Seq<char> },
}

impl View for Effect {
    type V = EffectV;

    open spec fn view(&self) -> EffectV {
        match self {
            Effect::Respond(s) => EffectV::Respond(s@),
            Effect::RunScript { path } => EffectV::RunScript { path: path@ },
            Effect::WriteScript { path, contents, response } => EffectV::WriteScript {
                path: path@,
                contents: contents@,
                response: response@,
            },
            Effect::Save => EffectV::Save,
            Effect::LoadSession { name } => EffectV::LoadSession { name: name@ },
        }
    }
}

/// How each action resolves: no action is a fixed fallback, printed text is
/// returned verbatim, and a script reference becomes a request to run the
/// file `dyon/<ref>.dyon`.
pub open spec fn resolve_action_v(a: ActionV) -> EffectV {
    match a {
        ActionV::Unhandled => EffectV::Respond("Unhandled"@),
        ActionV::PrintText(t) => EffectV::Respond(t),
        ActionV::RunScript(r) => EffectV::RunScript { path: "dyon/"@ + r + ".dyon"@ },
    }
}

impl GameAction {
    /// Resolve this action by value: answer directly, or hand the script
    /// reference out as a request.
    pub fn handle(&self) -> (e: Effect)
        ensures
            e@ == resolve_action_v(self@),
    {
        match self {
            GameAction::Unhandled => Effect::Respond(String::from_str("Unhandled")),
            GameAction::PrintText(t) => Effect::Respond(t.clone()),
            GameAction::RunScript(r) => {
                let mut path = String::from_str("dyon/");
                path.append(r.as_str());
                path.append(".dyon");
                Effect::RunScript { path }
            },
        }
    }
}

/// The two-branch action grammar: `PrintText <text>` and `RunScript <name>`
/// with a non-empty argument; anything else is no action at all.
pub open spec fn parse_action_v(s: Seq<char>) -> ActionV {
    if crate::strutil::is_prefix("PrintText "@, s) && s.len() > "PrintText "@.len() {
        ActionV::PrintText(s.subrange("PrintText "@.len() as int, s.len() as int))
    } else if crate::strutil::is_prefix("RunScript "@, s) && s.len() > "RunScript "@.len() {
        ActionV::RunScript(s.subrange("RunScript "@.len() as int, s.len() as int))
    } else {
        ActionV::Unhandled
    }
}

impl GameAction {
    /// Parse an action body written in the builder's action grammar.
    pub fn parse_from_string(string: String) -> (r: GameAction)
        ensures
            r@ == parse_action_v(string@),
    {
        let s = string.as_str();
        match crate::parse::rest_arg_exec(s, "PrintText ") {
            Some(t) => {
                return GameAction::PrintText(t);
            },
            None => {},
        }
        match crate::parse::rest_arg_exec(s, "RunScript ") {
            Some(t) => {
                return GameAction::RunScript(t);
            },
            None => {},
        }
        GameAction::Unhandled
    }
}

/// What came back from running a script: a string, a value of another type,
/// or no result at all because the script failed to load or run.
pub enum ScriptOutcome {
    Failed,
    NonString,
    Returned(String),
}

/// The response owed for each script outcome.
pub open spec fn script_response_v(o: ScriptOutcome) -> Seq<char> {
    match o {
        ScriptOutcome::Failed => "Code error, script did not return a String"@,
        ScriptOutcome::NonString => "Script returned non-string type in home fn"@,
        ScriptOutcome::Returned(s) => s@,
    }
}

/// Turn a script outcome into the response for the requesting session; a
/// script failure never goes further than this string.
pub fn script_result_response(o: ScriptOutcome) -> (r: String)
    ensures
        r@ == script_response_v(o),
{
    match o {
        ScriptOutcome::Failed => String::from_str("Code error, script did not return a String"),
        ScriptOutcome::NonString => String::from_str(
            "Script returned non-string type in home fn",
        ),
        ScriptOutcome::Returned(s) => s,
    }
}

/// The response for the save command: a failed snapshot is reported to the
/// issuing builder, never fatal.
pub fn save_response(ok: bool) -> (r: String)
    ensures
        ok ==> r@ == "Nice save!"@,
        !ok ==> r@ == "Failed to save."@,
{
    if ok {
        String::from_str("Nice save!")
    } else {
        String::from_str("Failed to save.")
    }
}

} // verus!
