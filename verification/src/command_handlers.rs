//! The command handlers: each takes one decoded input line plus the session
//! and the world, and produces a response (or, where outside work is needed,
//! an [`Effect`]). Every handler's behaviour is pinned down by a spec-level
//! transformer over the world view.

use vstd::prelude::*;
use crate::kvmap::{kv_get, kv_insert, lemma_kv_get_first, lemma_kv_get_none};
use crate::states::{
    ServerState, ClientState, GameObject, RoomV, ObjectV, SessionV, empty_room_v, room_wf,
    lemma_world_update,
};
use crate::resolve::{Effect, EffectV, resolve_action_v, parse_action_v};
use crate::parse::{
    arg_token, arg_token_exec, rest_arg, rest_arg_exec, describe_args, describe_args_exec,
    action_args, action_args_exec, touch_args, touch_args_exec,
};
use crate::strutil::str_eq;
use crate::states::GameAction;

verus! {

/// The view of a freshly added object: it shows its own name and has no
/// actions. Adding an object under an existing name replaces it with this
/// fresh one, so a second `\add` of the same name resets its action table —
/// the specified behaviour, not an accident.
pub open spec fn fresh_object_v(name: Seq<char>) -> ObjectV {
    ObjectV { name: name, display: name, actions: Seq::<(Seq<char>, crate::states::ActionV)>::empty() }
}

/// `\link <to place>`: append a link from the session's current room,
/// creating the target room first when it does not exist yet.
pub open spec fn spec_add_link(
    input: Seq<char>,
    rooms: Seq<(Seq<char>, RoomV)>,
    cur: Seq<char>,
) -> (Seq<char>, Seq<(Seq<char>, RoomV)>) {
    match arg_token(input, "\\link "@) {
        Some(arg) => match kv_get(rooms, cur) {
            Some(room) => {
                let rooms1 = if kv_get(rooms, arg) is Some {
                    rooms
                } else {
                    kv_insert(rooms, arg, empty_room_v(arg))
                };
                ("Added"@, kv_insert(rooms1, cur, RoomV { links: room.links.push(arg), ..room }))
            },
            None => ("Not in a room?"@, rooms),
        },
        None => ("\\link <to place>"@, rooms),
    }
}

pub fn add_link(input: &String, server_state: &mut ServerState, client: &ClientState) -> (r:
    String)
    requires
        old(server_state).wf(),
    ensures
        final(server_state).wf(),
        final(server_state)@.client_states == old(server_state)@.client_states,
        r@ == spec_add_link(input@, old(server_state)@.rooms, client@.current_room).0,
        final(server_state)@.rooms == spec_add_link(
            input@,
            old(server_state)@.rooms,
            client@.current_room,
        ).1,
{
    let arg = match arg_token_exec(input.as_str(), "\\link ") {
        Some(a) => a,
        None => {
            return String::from_str("\\link <to place>");
        },
    };
    let i = match server_state.rooms.index_of(client.current_room.as_str()) {
        Some(i) => i,
        None => {
            proof {
                lemma_kv_get_none(server_state@.rooms, client@.current_room);
            }
            return String::from_str("Not in a room?");
        },
    };
    proof {
        lemma_kv_get_first(server_state@.rooms, client@.current_room, i as int);
    }
    let ghost rooms0 = server_state@.rooms;
    let ghost room0 = rooms0[i as int].1;
    let ghost argv = arg@;
    server_state.new_room(&arg);
    let ghost rooms1 = server_state@.rooms;
    proof {
        if kv_get(rooms0, argv) is None {
            crate::kvmap::lemma_kv_get_none_keys(rooms0, argv);
            crate::kvmap::lemma_kv_insert_absent(rooms0, argv, empty_room_v(argv));
        }
        assert(rooms1[i as int] == rooms0[i as int]);
        assert(forall|j: int| 0 <= j < i ==> rooms1[j] == rooms0[j]);
        assert(server_state@.rooms.len() == server_state.rooms.entries@.len());
        assert(server_state.rooms.entries@[i as int].1@ == rooms1[i as int].1);
    }
    server_state.rooms.entries[i].1.push_link(arg);
    proof {
        let rv = RoomV { links: room0.links.push(argv), ..room0 };
        assert(server_state@.rooms =~= rooms1.update(i as int, (rooms1[i as int].0, rv)));
        lemma_world_update(rooms1, i as int, rv);
        assert(room_wf(rooms1[i as int].1));
        assert(room_wf(rv));
        assert(server_state@.rooms == kv_insert(rooms1, client@.current_room, rv));
    }
    String::from_str("Added")
}

/// `\add <object name>`: put a fresh object of that name into the current
/// room, replacing (and so resetting) any object already under the name.
pub open spec fn spec_add_object(
    input: Seq<char>,
    rooms: Seq<(Seq<char>, RoomV)>,
    cur: Seq<char>,
) -> (Seq<char>, Seq<(Seq<char>, RoomV)>) {
    match rest_arg(input, "\\add "@) {
        Some(name) => match kv_get(rooms, cur) {
            Some(room) => (
                "Added"@,
                kv_insert(
                    rooms,
                    cur,
                    RoomV { objects: kv_insert(room.objects, name, fresh_object_v(name)), ..room },
                ),
            ),
            None => ("Not in a room?"@, rooms),
        },
        None => ("\\add <object name>"@, rooms),
    }
}

pub fn add_object(input: &String, server_state: &mut ServerState, client: &ClientState) -> (r:
    String)
    requires
        old(server_state).wf(),
    ensures
        final(server_state).wf(),
        final(server_state)@.client_states == old(server_state)@.client_states,
        r@ == spec_add_object(input@, old(server_state)@.rooms, client@.current_room).0,
        final(server_state)@.rooms == spec_add_object(
            input@,
            old(server_state)@.rooms,
            client@.current_room,
        ).1,
{
    let name = match rest_arg_exec(input.as_str(), "\\add ") {
        Some(n) => n,
        None => {
            return String::from_str("\\add <object name>");
        },
    };
    let i = match server_state.rooms.index_of(client.current_room.as_str()) {
        Some(i) => i,
        None => {
            proof {
                lemma_kv_get_none(server_state@.rooms, client@.current_room);
            }
            return String::from_str("Not in a room?");
        },
    };
    proof {
        lemma_kv_get_first(server_state@.rooms, client@.current_room, i as int);
        assert(server_state@.rooms.len() == server_state.rooms.entries@.len());
        assert(server_state.rooms.entries@[i as int].1@ == server_state@.rooms[i as int].1);
    }
    let ghost rooms0 = server_state@.rooms;
    let ghost room0 = rooms0[i as int].1;
    let ghost nm = name@;
    let obj = GameObject::new(name.clone());
    let ghost objv = obj@;
    proof {
        assert(objv.actions =~= fresh_object_v(nm).actions);
        assert(objv =~= fresh_object_v(nm));
    }
    server_state.rooms.entries[i].1.insert_object(name, obj);
    proof {
        let rv = RoomV { objects: kv_insert(room0.objects, nm, objv), ..room0 };
        assert(server_state@.rooms =~= rooms0.update(i as int, (rooms0[i as int].0, rv)));
        lemma_world_update(rooms0, i as int, rv);
        assert(room_wf(rooms0[i as int].1));
        assert(server_state@.rooms == kv_insert(rooms0, client@.current_room, rv));
    }
    String::from_str("Added")
}

/// `\describe "<object name>" <description>`: set an existing object's
/// display text.
pub open spec fn spec_describe_object(
    input: Seq<char>,
    rooms: Seq<(Seq<char>, RoomV)>,
    cur: Seq<char>,
) -> (Seq<char>, Seq<(Seq<char>, RoomV)>) {
    match describe_args(input) {
        Some((name, desc)) => match kv_get(rooms, cur) {
            Some(room) => match kv_get(room.objects, name) {
                Some(o) => (
                    "Done"@,
                    kv_insert(
                        rooms,
                        cur,
                        RoomV {
                            objects: kv_insert(room.objects, name, ObjectV { display: desc, ..o }),
                            ..room
                        },
                    ),
                ),
                None => ("Not a valid object."@, rooms),
            },
            None => ("Not in a room?"@, rooms),
        },
        None => ("\\describe \"<object name>\" <description>"@, rooms),
    }
}

pub fn describe_object(input: &String, server_state: &mut ServerState, client: &ClientState) -> (r:
    String)
    requires
        old(server_state).wf(),
    ensures
        final(server_state).wf(),
        final(server_state)@.client_states == old(server_state)@.client_states,
        r@ == spec_describe_object(input@, old(server_state)@.rooms, client@.current_room).0,
        final(server_state)@.rooms == spec_describe_object(
            input@,
            old(server_state)@.rooms,
            client@.current_room,
        ).1,
{
    let (name, desc) = match describe_args_exec(input.as_str()) {
        Some(t) => t,
        None => {
            return String::from_str("\\describe \"<object name>\" <description>");
        },
    };
    let i = match server_state.rooms.index_of(client.current_room.as_str()) {
        Some(i) => i,
        None => {
            proof {
                lemma_kv_get_none(server_state@.rooms, client@.current_room);
            }
            return String::from_str("Not in a room?");
        },
    };
    proof {
        lemma_kv_get_first(server_state@.rooms, client@.current_room, i as int);
        assert(server_state@.rooms.len() == server_state.rooms.entries@.len());
        assert(server_state.rooms.entries@[i as int].1@ == server_state@.rooms[i as int].1);
    }
    let ghost rooms0 = server_state@.rooms;
    let ghost room0 = rooms0[i as int].1;
    let j = match server_state.rooms.entries[i].1.objects.index_of(name.as_str()) {
        Some(j) => j,
        None => {
            proof {
                lemma_kv_get_none(room0.objects, name@);
            }
            return String::from_str("Not a valid object.");
        },
    };
    proof {
        lemma_kv_get_first(room0.objects, name@, j as int);
        crate::kvmap::lemma_kv_insert_present(
            room0.objects,
            name@,
            ObjectV { display: desc@, ..room0.objects[j as int].1 },
            j as int,
        );
    }
    let ghost nm = name@;
    let ghost dv = desc@;
    server_state.rooms.entries[i].1.set_object_display(j, desc);
    proof {
        let ov = ObjectV { display: dv, ..room0.objects[j as int].1 };
        let rv = RoomV { objects: kv_insert(room0.objects, nm, ov), ..room0 };
        assert(room0.objects.update(j as int, (room0.objects[j as int].0, ov)) == kv_insert(
            room0.objects,
            nm,
            ov,
        ));
        assert(server_state@.rooms =~= rooms0.update(i as int, (rooms0[i as int].0, rv)));
        lemma_world_update(rooms0, i as int, rv);
        assert(room_wf(rooms0[i as int].1));
        assert(server_state@.rooms == kv_insert(rooms0, client@.current_room, rv));
    }
    String::from_str("Done")
}

/// `\action <object name>:<action name>:<action string>`: parse the body in
/// the action grammar and bind it under the action name on an existing
/// object.
pub open spec fn spec_add_action(
    input: Seq<char>,
    rooms: Seq<(Seq<char>, RoomV)>,
    cur: Seq<char>,
) -> (Seq<char>, Seq<(Seq<char>, RoomV)>) {
    match action_args(input) {
        Some((obj, act, body)) => match kv_get(rooms, cur) {
            Some(room) => match kv_get(room.objects, obj) {
                Some(o) => (
                    "Done"@,
                    kv_insert(
                        rooms,
                        cur,
                        RoomV {
                            objects: kv_insert(
                                room.objects,
                                obj,
                                ObjectV {
                                    actions: kv_insert(o.actions, act, parse_action_v(body)),
                                    ..o
                                },
                            ),
                            ..room
                        },
                    ),
                ),
                None => ("Not a valid object."@, rooms),
            },
            None => ("Not in a room?"@, rooms),
        },
        None => ("\\action <object name>:<action name>:<action string>"@, rooms),
    }
}

pub fn add_action(input: &String, server_state: &mut ServerState, client: &ClientState) -> (r:
    String)
    requires
        old(server_state).wf(),
    ensures
        final(server_state).wf(),
        final(server_state)@.client_states == old(server_state)@.client_states,
        r@ == spec_add_action(input@, old(server_state)@.rooms, client@.current_room).0,
        final(server_state)@.rooms == spec_add_action(
            input@,
            old(server_state)@.rooms,
            client@.current_room,
        ).1,
{
    let (obj_name, act_name, body) = match action_args_exec(input.as_str()) {
        Some(t) => t,
        None => {
            return String::from_str("\\action <object name>:<action name>:<action string>");
        },
    };
    let i = match server_state.rooms.index_of(client.current_room.as_str()) {
        Some(i) => i,
        None => {
            proof {
                lemma_kv_get_none(server_state@.rooms, client@.current_room);
            }
            return String::from_str("Not in a room?");
        },
    };
    proof {
        lemma_kv_get_first(server_state@.rooms, client@.current_room, i as int);
        assert(server_state@.rooms.len() == server_state.rooms.entries@.len());
        assert(server_state.rooms.entries@[i as int].1@ == server_state@.rooms[i as int].1);
    }
    let ghost rooms0 = server_state@.rooms;
    let ghost room0 = rooms0[i as int].1;
    let j = match server_state.rooms.entries[i].1.objects.index_of(obj_name.as_str()) {
        Some(j) => j,
        None => {
            proof {
                lemma_kv_get_none(room0.objects, obj_name@);
            }
            return String::from_str("Not a valid object.");
        },
    };
    proof {
        lemma_kv_get_first(room0.objects, obj_name@, j as int);
    }
    let ghost nm = obj_name@;
    let ghost av = act_name@;
    let ghost bv = body@;
    let action = GameAction::parse_from_string(body);
    let ghost actv = action@;
    proof {
        let ov = ObjectV {
            actions: kv_insert(room0.objects[j as int].1.actions, av, actv),
            ..room0.objects[j as int].1
        };
        crate::kvmap::lemma_kv_insert_present(room0.objects, nm, ov, j as int);
    }
    server_state.rooms.entries[i].1.insert_object_action(j, act_name, action);
    proof {
        let ov = ObjectV {
            actions: kv_insert(room0.objects[j as int].1.actions, av, actv),
            ..room0.objects[j as int].1
        };
        let rv = RoomV { objects: kv_insert(room0.objects, nm, ov), ..room0 };
        assert(server_state@.rooms =~= rooms0.update(i as int, (rooms0[i as int].0, rv)));
        lemma_world_update(rooms0, i as int, rv);
        assert(room_wf(rooms0[i as int].1));
        assert(server_state@.rooms == kv_insert(rooms0, client@.current_room, rv));
        assert(actv == parse_action_v(bv));
    }
    String::from_str("Done")
}

/// `i <object name> <action>`: resolve the named action of the named object
/// in the session's current room.
pub open spec fn spec_handle_touch(
    input: Seq<char>,
    rooms: Seq<(Seq<char>, RoomV)>,
    cur: Seq<char>,
) -> EffectV {
    match touch_args(input) {
        Some((obj, act)) => match kv_get(rooms, cur) {
            Some(room) => match kv_get(room.objects, obj) {
                Some(o) => match kv_get(o.actions, act) {
                    Some(a) => resolve_action_v(a),
                    None => EffectV::Respond("The object does not have that action"@),
                },
                None => EffectV::Respond("The object does not exist"@),
            },
            None => EffectV::Respond("You belong to an invalid room."@),
        },
        None => EffectV::Respond("i <object name> <action>"@),
    }
}

pub fn handle_touch(input: &String, server_state: &ServerState, my_client: &ClientState) -> (e:
    Effect)
    ensures
        e@ == spec_handle_touch(input@, server_state@.rooms, my_client@.current_room),
{
    let (obj_name, act_name) = match touch_args_exec(input.as_str()) {
        Some(t) => t,
        None => {
            return Effect::Respond(String::from_str("i <object name> <action>"));
        },
    };
    let room = match server_state.get_room(&my_client.current_room) {
        Some(r) => r,
        None => {
            return Effect::Respond(String::from_str("You belong to an invalid room."));
        },
    };
    let object = match room.objects.get(obj_name.as_str()) {
        Some(o) => o,
        None => {
            return Effect::Respond(String::from_str("The object does not exist"));
        },
    };
    let action = match object.actions.get(act_name.as_str()) {
        Some(a) => a,
        None => {
            return Effect::Respond(String::from_str("The object does not have that action"));
        },
    };
    action.handle()
}

/// The formatted list of a room's outgoing links.
pub open spec fn links_text(links: Seq<Seq<char>>) -> Seq<char>
    decreases links.len(),
{
    if links.len() == 0 {
        "\n@CLinks:\n"@
    } else {
        links_text(links.drop_last()) + "\n"@ + links.last() + "\n"@
    }
}

/// The formatted list of the names of a room's objects.
pub open spec fn objects_text(objects: Seq<(Seq<char>, ObjectV)>) -> Seq<char>
    decreases objects.len(),
{
    if objects.len() == 0 {
        "\n\n@CObjects:"@
    } else {
        objects_text(objects.drop_last()) + "\n"@ + objects.last().1.name + "\n"@
    }
}

/// `look` shows the current room's display text plus its objects and links;
/// `look <object name>` shows that object's display text.
pub open spec fn spec_look(
    input: Seq<char>,
    rooms: Seq<(Seq<char>, RoomV)>,
    cur: Seq<char>,
) -> Seq<char> {
    match kv_get(rooms, cur) {
        Some(room) => match rest_arg(input, "look "@) {
            Some(obj) => match kv_get(room.objects, obj) {
                Some(o) => o.display,
                None => "The object does not exist"@,
            },
            None => room.display + objects_text(room.objects) + links_text(room.links),
        },
        None => "You belong to an invalid room."@,
    }
}

pub fn look(input: &String, server_state: &ServerState, my_client: &ClientState) -> (r: String)
    ensures
        r@ == spec_look(input@, server_state@.rooms, my_client@.current_room),
{
    let room = match server_state.get_room(&my_client.current_room) {
        Some(r) => r,
        None => {
            return String::from_str("You belong to an invalid room.");
        },
    };
    match rest_arg_exec(input.as_str(), "look ") {
        Some(obj) => match room.objects.get(obj.as_str()) {
            Some(o) => o.display.clone(),
            None => String::from_str("The object does not exist"),
        },
        None => {
            let mut objs = String::from_str("\n\n@CObjects:");
            let n = room.objects.len();
            proof {
                assert(room@.objects.take(0) =~= Seq::<(Seq<char>, ObjectV)>::empty());
            }
            let mut i: usize = 0;
            while i < n
                invariant
                    i <= n,
                    n == room@.objects.len(),
                    objs@ == objects_text(room@.objects.take(i as int)),
                decreases n - i,
            {
                objs.append("\n");
                objs.append(room.objects.value_at(i).name.as_str());
                objs.append("\n");
                proof {
                    let t = room@.objects.take(i + 1);
                    assert(t.drop_last() =~= room@.objects.take(i as int));
                    assert(t.last() == room@.objects[i as int]);
                }
                i += 1;
            }
            proof {
                assert(room@.objects.take(n as int) =~= room@.objects);
            }
            let mut links = String::from_str("\n@CLinks:\n");
            let ln = room.links.len();
            proof {
                assert(room@.links.take(0) =~= Seq::<Seq<char>>::empty());
                assert(room@.links.len() == room.links@.len());
            }
            let mut k: usize = 0;
            while k < ln
                invariant
                    k <= ln,
                    ln == room.links@.len(),
                    ln == room@.links.len(),
                    forall|m: int| 0 <= m < ln ==> room@.links[m] == room.links@[m]@,
                    links@ == links_text(room@.links.take(k as int)),
                decreases ln - k,
            {
                links.append("\n");
                links.append(room.links[k].as_str());
                links.append("\n");
                proof {
                    let t = room@.links.take(k + 1);
                    assert(t.drop_last() =~= room@.links.take(k as int));
                    assert(t.last() == room@.links[k as int]);
                }
                k += 1;
            }
            proof {
                assert(room@.links.take(ln as int) =~= room@.links);
            }
            let mut out = room.display.clone();
            out.append(objs.as_str());
            out.append(links.as_str());
            out
        },
    }
}

/// `\script <name>:<contents>`: store script text under a name for later
/// `RunScript` references. `#n` stands for a newline in the contents (the
/// wire protocol is line-framed). A line without `\script <name>` is echoed
/// back; one without a `:` lacks the contents.
pub open spec fn spec_upload_script(input: Seq<char>) -> EffectV {
    let p = "\\script "@;
    if crate::strutil::is_prefix(p, input) {
        let rest = input.subrange(p.len() as int, input.len() as int);
        if rest.len() == 0 || rest[0] == ':' {
            EffectV::Respond(input)
        } else {
            match rest.index_of_first(':') {
                Some(i) => EffectV::WriteScript {
                    path: "dyon/"@ + rest.subrange(0, i) + ".dyon"@,
                    contents: crate::parse::unhash_newlines(
                        rest.subrange(i + 1, rest.len() as int),
                    ),
                    response: "Wrote script "@ + rest.subrange(0, i) + ".dyon"@,
                },
                None => EffectV::Respond("Must include script contents"@),
            }
        }
    } else {
        EffectV::Respond(input)
    }
}

pub fn upload_script(input: &String) -> (e: Effect)
    ensures
        e@ == spec_upload_script(input@),
{
    let s = input.as_str();
    let p = "\\script ";
    if !crate::strutil::str_starts_with(s, p) {
        return Effect::Respond(input.clone());
    }
    let plen = p.unicode_len();
    let len = s.unicode_len();
    let ghost rest = s@.subrange(plen as int, len as int);
    if plen == len {
        return Effect::Respond(input.clone());
    }
    if s.get_char(plen) == ':' {
        proof {
            assert(rest[0] == ':');
        }
        return Effect::Respond(input.clone());
    }
    proof {
        assert(rest[0] != ':');
    }
    match crate::strutil::find_char_from(s, ':', plen) {
        Some(i) => {
            proof {
                assert forall|j: int| 0 <= j < i - plen implies rest[j] != ':' by {
                    assert(rest[j] == s@[plen + j]);
                }
                assert(rest[i - plen] == s@[i as int]);
                crate::parse::lemma_first_index(rest, ':', i - plen);
            }
            let name = crate::strutil::substring_copy(s, plen, i);
            let raw = s.substring_char(i + 1, len);
            let contents = crate::parse::unhash_newlines_exec(raw);
            let mut path = String::from_str("dyon/");
            path.append(name.as_str());
            path.append(".dyon");
            let mut response = String::from_str("Wrote script ");
            response.append(name.as_str());
            response.append(".dyon");
            proof {
                assert(name@ =~= rest.subrange(0, i - plen));
                assert(raw@ =~= rest.subrange(i - plen + 1, rest.len() as int));
            }
            Effect::WriteScript { path, contents, response }
        },
        None => {
            proof {
                assert forall|j: int| 0 <= j < rest.len() implies rest[j] != ':' by {
                    assert(rest[j] == s@[plen + j]);
                }
                crate::parse::lemma_first_index_none(rest, ':');
            }
            Effect::Respond(String::from_str("Must include script contents"))
        },
    }
}

/// `move <link name>`: the session's current room becomes the named room
/// exactly when that name is among the current room's links; otherwise the
/// session stays where it is.
pub open spec fn spec_move(
    input: Seq<char>,
    rooms: Seq<(Seq<char>, RoomV)>,
    cur: Seq<char>,
) -> (Seq<char>, Seq<char>) {
    match kv_get(rooms, cur) {
        Some(room) => match arg_token(input, "move "@) {
            Some(arg) => if room.links.contains(arg) {
                ("You move into "@ + arg, arg)
            } else {
                ("That area does not exist here."@, cur)
            },
            None => ("move <link name>"@, cur),
        },
        None => ("You belong to an invalid room."@, cur),
    }
}

fn links_contain(links: &Vec<String>, arg: &str) -> (r: bool)
    ensures
        r == links@.map_values(|s: String| s@).contains(arg@),
{
    let ghost mapped = links@.map_values(|s: String| s@);
    let n = links.len();
    let mut i: usize = 0;
    while i < n
        invariant
            i <= n,
            n == links@.len(),
            mapped == links@.map_values(|s: String| s@),
            forall|j: int| 0 <= j < i ==> mapped[j] != arg@,
        decreases n - i,
    {
        if str_eq(links[i].as_str(), arg) {
            proof {
                assert(mapped[i as int] == arg@);
            }
            return true;
        }
        i += 1;
    }
    proof {
        if mapped.contains(arg@) {
            let j = choose|j: int| 0 <= j < mapped.len() && mapped[j] == arg@;
            assert(mapped[j] != arg@);
        }
    }
    false
}

pub fn move_into(input: &String, server_state: &ServerState, client: &mut ClientState) -> (r:
    String)
    ensures
        r@ == spec_move(input@, server_state@.rooms, old(client)@.current_room).0,
        final(client)@ == (SessionV {
            current_room: spec_move(input@, server_state@.rooms, old(client)@.current_room).1,
            ..old(client)@
        }),
{
    let room = match server_state.get_room(&client.current_room) {
        Some(r) => r,
        None => {
            proof {
                assert(client@ =~= (SessionV { current_room: client@.current_room, ..client@ }));
            }
            return String::from_str("You belong to an invalid room.");
        },
    };
    let arg = match arg_token_exec(input.as_str(), "move ") {
        Some(a) => a,
        None => {
            proof {
                assert(client@ =~= (SessionV { current_room: client@.current_room, ..client@ }));
            }
            return String::from_str("move <link name>");
        },
    };
    if links_contain(&room.links, arg.as_str()) {
        let mut resp = String::from_str("You move into ");
        resp.append(arg.as_str());
        client.current_room = arg;
        proof {
            assert(client@ =~= (SessionV { current_room: client@.current_room, ..old(client)@ }));
        }
        resp
    } else {
        proof {
            assert(client@ =~= (SessionV { current_room: client@.current_room, ..client@ }));
        }
        String::from_str("That area does not exist here.")
    }
}

} // verus!
