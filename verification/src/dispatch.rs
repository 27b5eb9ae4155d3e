//! The command dispatcher: the single entry point that takes one decoded
//! input line plus the session and the world and yields an [`Effect`].
//! A line starting with `\` is a builder command that edits the shared
//! world; anything else is a play command.

use vstd::prelude::*;
use crate::kvmap::kv_get;
use crate::states::{ServerState, ClientState, RoomV, SessionV};
use crate::resolve::{Effect, EffectV};
use crate::parse::{first_word, first_word_exec, rest_arg, rest_arg_exec};
use crate::command_handlers::{
    spec_add_link, spec_add_object, spec_describe_object, spec_add_action, spec_handle_touch,
    spec_look, spec_move, spec_upload_script, add_link, add_object, describe_object, add_action,
    handle_touch, look, move_into, upload_script,
};
use crate::strutil::str_eq;

verus! {

/// The static list of play commands.
pub open spec fn help_text() -> Seq<char> {
    "i - interacts with object: i {object} {action}\nlook - reads the object's display text: look {object}\nmove - moves through a link: move {link name}\nlogin - restores a session by name: login {name}\nhelp - you're here"@
}

/// One builder command routed by its first word. Unrecognized builder input
/// gets a fixed neutral response, never an error.
pub open spec fn spec_builder_command(
    input: Seq<char>,
    rooms: Seq<(Seq<char>, RoomV)>,
    cur: Seq<char>,
) -> (EffectV, Seq<(Seq<char>, RoomV)>) {
    let w = first_word(input);
    if w == "\\script"@ {
        (spec_upload_script(input), rooms)
    } else if w == "\\add"@ {
        let r = spec_add_object(input, rooms, cur);
        (EffectV::Respond(r.0), r.1)
    } else if w == "\\describe"@ {
        let r = spec_describe_object(input, rooms, cur);
        (EffectV::Respond(r.0), r.1)
    } else if w == "\\action"@ {
        let r = spec_add_action(input, rooms, cur);
        (EffectV::Respond(r.0), r.1)
    } else if w == "\\link"@ {
        let r = spec_add_link(input, rooms, cur);
        (EffectV::Respond(r.0), r.1)
    } else if w == "\\save"@ {
        (EffectV::Save, rooms)
    } else {
        (EffectV::Respond("Nice builder command."@), rooms)
    }
}

pub fn process_builder_command(
    input: &String,
    server_state: &mut ServerState,
    my_client: &ClientState,
) -> (e: Effect)
    requires
        old(server_state).wf(),
    ensures
        final(server_state).wf(),
        final(server_state)@.client_states == old(server_state)@.client_states,
        e@ == spec_builder_command(input@, old(server_state)@.rooms, my_client@.current_room).0,
        final(server_state)@.rooms == spec_builder_command(
            input@,
            old(server_state)@.rooms,
            my_client@.current_room,
        ).1,
{
    let w = first_word_exec(input.as_str());
    if str_eq(w.as_str(), "\\script") {
        return upload_script(input);
    }
    if str_eq(w.as_str(), "\\add") {
        let r = add_object(input, server_state, my_client);
        return Effect::Respond(r);
    }
    if str_eq(w.as_str(), "\\describe") {
        let r = describe_object(input, server_state, my_client);
        return Effect::Respond(r);
    }
    if str_eq(w.as_str(), "\\action") {
        let r = add_action(input, server_state, my_client);
        return Effect::Respond(r);
    }
    if str_eq(w.as_str(), "\\link") {
        let r = add_link(input, server_state, my_client);
        return Effect::Respond(r);
    }
    if str_eq(w.as_str(), "\\save") {
        return Effect::Save;
    }
    Effect::Respond(String::from_str("Nice builder command."))
}

/// One input line dispatched: builder commands go by prefix `\`, play
/// commands by their first word, and unrecognized input gets a fixed
/// neutral response.
pub open spec fn spec_client_command(
    input: Seq<char>,
    rooms: Seq<(Seq<char>, RoomV)>,
    session: SessionV,
) -> (EffectV, Seq<(Seq<char>, RoomV)>, SessionV) {
    if input.len() > 0 && input[0] == '\\' {
        let r = spec_builder_command(input, rooms, session.current_room);
        (r.0, r.1, session)
    } else {
        let w = first_word(input);
        if w == "i"@ {
            (spec_handle_touch(input, rooms, session.current_room), rooms, session)
        } else if w == "look"@ {
            (EffectV::Respond(spec_look(input, rooms, session.current_room)), rooms, session)
        } else if w == "move"@ {
            let r = spec_move(input, rooms, session.current_room);
            (EffectV::Respond(r.0), rooms, SessionV { current_room: r.1, ..session })
        } else if w == "login"@ {
            match rest_arg(input, "login "@) {
                Some(name) => (EffectV::LoadSession { name }, rooms, session),
                None => (EffectV::Respond("login <name>"@), rooms, session),
            }
        } else if w == "help"@ {
            (EffectV::Respond(help_text()), rooms, session)
        } else {
            (EffectV::Respond("The room is quiet."@), rooms, session)
        }
    }
}

pub fn process_client_command(
    input: &String,
    server_state: &mut ServerState,
    my_client: &mut ClientState,
) -> (e: Effect)
    requires
        old(server_state).wf(),
    ensures
        final(server_state).wf(),
        final(server_state)@.client_states == old(server_state)@.client_states,
        ({
            let r = spec_client_command(input@, old(server_state)@.rooms, old(my_client)@);
            e@ == r.0 && final(server_state)@.rooms == r.1 && final(my_client)@ == r.2
        }),
{
    let len = input.as_str().unicode_len();
    if len > 0 && input.as_str().get_char(0) == '\\' {
        return process_builder_command(input, server_state, my_client);
    }
    let w = first_word_exec(input.as_str());
    if str_eq(w.as_str(), "i") {
        return handle_touch(input, server_state, my_client);
    }
    if str_eq(w.as_str(), "look") {
        let r = look(input, server_state, my_client);
        return Effect::Respond(r);
    }
    if str_eq(w.as_str(), "move") {
        let r = move_into(input, server_state, my_client);
        proof {
            let sm = spec_move(input@, old(server_state)@.rooms, old(my_client)@.current_room);
            assert(my_client@ =~= (SessionV { current_room: sm.1, ..old(my_client)@ }));
        }
        return Effect::Respond(r);
    }
    if str_eq(w.as_str(), "login") {
        match rest_arg_exec(input.as_str(), "login ") {
            Some(name) => {
                return Effect::LoadSession { name };
            },
            None => {
                return Effect::Respond(String::from_str("login <name>"));
            },
        }
    }
    if str_eq(w.as_str(), "help") {
        return Effect::Respond(
            String::from_str(
                "i - interacts with object: i {object} {action}\nlook - reads the object's display text: look {object}\nmove - moves through a link: move {link name}\nlogin - restores a session by name: login {name}\nhelp - you're here",
            ),
        );
    }
    Effect::Respond(String::from_str("The room is quiet."))
}

/// How a login outcome lands in the session: a persisted record replaces the
/// session's restorable fields (the connection identity stays); with no
/// record the session is unchanged.
pub open spec fn spec_login_apply(session: SessionV, loaded: Option<SessionV>) -> (
    SessionV,
    Seq<char>,
) {
    match loaded {
        Some(l) => (
            SessionV {
                addr: session.addr,
                is_edit_mode: l.is_edit_mode,
                current_room: l.current_room,
                name: l.name,
                client_script_states: l.client_script_states,
            },
            "Session restored."@,
        ),
        None => (session, "No such session."@),
    }
}

/// Feed the result of a `LoadSession` effect back into the live session.
pub fn login_apply(client: &mut ClientState, loaded: Option<ClientState>) -> (r: String)
    ensures
        ({
            let l = match loaded {
                Some(c) => Some(c@),
                None => None::<SessionV>,
            };
            let s = spec_login_apply(old(client)@, l);
            final(client)@ == s.0 && r@ == s.1
        }),
{
    match loaded {
        Some(l) => {
            client.is_edit_mode = l.is_edit_mode;
            client.current_room = l.current_room;
            client.name = l.name;
            client.client_script_states = l.client_script_states;
            String::from_str("Session restored.")
        },
        None => String::from_str("No such session."),
    }
}

} // verus!
