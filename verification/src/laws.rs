//! Laws of the command core, stated over the same spec-level transformers
//! that the handlers' contracts use, and proved once and for all.

use vstd::prelude::*;
use crate::kvmap::{kv_get, kv_insert, kv_distinct, lemma_kv_insert_get, lemma_kv_insert_distinct};
use crate::states::{RoomV, ObjectV, SessionV, empty_room_v, world_wf, room_wf};
use crate::resolve::{EffectV, resolve_action_v, parse_action_v};
use crate::command_handlers::{
    spec_add_link, spec_add_object, spec_describe_object, spec_add_action, spec_handle_touch,
    fresh_object_v,
};
use crate::parse::{arg_token, rest_arg, action_args, touch_args};
use crate::strutil::is_prefix;

verus! {

/// Lookup consistency: creating a room binds its id to the empty room when
/// the id was free, keeps the existing room when it was not, and leaves
/// every other id's lookup exactly as it was.
pub proof fn lemma_create_room_lookup(
    rooms: Seq<(Seq<char>, RoomV)>,
    addr: Seq<char>,
    other: Seq<char>,
)
    ensures
        ({
            let rooms1 = if kv_get(rooms, addr) is Some {
                rooms
            } else {
                kv_insert(rooms, addr, empty_room_v(addr))
            };
            &&& kv_get(rooms1, addr) == (if kv_get(rooms, addr) is Some {
                kv_get(rooms, addr)
            } else {
                Some(empty_room_v(addr))
            })
            &&& (other != addr ==> kv_get(rooms1, other) == kv_get(rooms, other))
        }),
{
    if kv_get(rooms, addr) is None {
        lemma_kv_insert_get(rooms, addr, empty_room_v(addr), addr);
        lemma_kv_insert_get(rooms, addr, empty_room_v(addr), other);
    }
}

/// Lookup consistency, the frame half: a room stays as it is until
/// explicitly mutated. World edits issued from a session standing in a
/// different room — and, for the link command, not linking towards the room
/// — leave that room's lookup unchanged.
pub proof fn lemma_lookup_frame(
    rooms: Seq<(Seq<char>, RoomV)>,
    addr: Seq<char>,
    input: Seq<char>,
    cur: Seq<char>,
)
    requires
        cur != addr,
    ensures
        kv_get(spec_add_object(input, rooms, cur).1, addr) == kv_get(rooms, addr),
        kv_get(spec_describe_object(input, rooms, cur).1, addr) == kv_get(rooms, addr),
        kv_get(spec_add_action(input, rooms, cur).1, addr) == kv_get(rooms, addr),
        (match arg_token(input, "\\link "@) {
            Some(a) => a != addr,
            None => true,
        }) ==> kv_get(spec_add_link(input, rooms, cur).1, addr) == kv_get(rooms, addr),
{
    match rest_arg(input, "\\add "@) {
        Some(name) => match kv_get(rooms, cur) {
            Some(room) => {
                lemma_kv_insert_get(
                    rooms,
                    cur,
                    RoomV {
                        objects: kv_insert(room.objects, name, fresh_object_v(name)),
                        ..room
                    },
                    addr,
                );
            },
            None => {},
        },
        None => {},
    }
    match crate::parse::describe_args(input) {
        Some((name, desc)) => match kv_get(rooms, cur) {
            Some(room) => match kv_get(room.objects, name) {
                Some(o) => {
                    lemma_kv_insert_get(
                        rooms,
                        cur,
                        RoomV {
                            objects: kv_insert(
                                room.objects,
                                name,
                                ObjectV { display: desc, ..o },
                            ),
                            ..room
                        },
                        addr,
                    );
                },
                None => {},
            },
            None => {},
        },
        None => {},
    }
    match action_args(input) {
        Some((obj, act, body)) => match kv_get(rooms, cur) {
            Some(room) => match kv_get(room.objects, obj) {
                Some(o) => {
                    lemma_kv_insert_get(
                        rooms,
                        cur,
                        RoomV {
                            objects: kv_insert(
                                room.objects,
                                obj,
                                ObjectV {
                                    actions: kv_insert(o.actions, act, parse_action_v(body)),
                                    ..o
                                },
                            ),
                            ..room
                        },
                        addr,
                    );
                },
                None => {},
            },
            None => {},
        },
        None => {},
    }
    match arg_token(input, "\\link "@) {
        Some(a) => {
            if a != addr {
                match kv_get(rooms, cur) {
                    Some(room) => {
                        let rooms1 = if kv_get(rooms, a) is Some {
                            rooms
                        } else {
                            kv_insert(rooms, a, empty_room_v(a))
                        };
                        if kv_get(rooms, a) is None {
                            lemma_kv_insert_get(rooms, a, empty_room_v(a), addr);
                        }
                        lemma_kv_insert_get(
                            rooms1,
                            cur,
                            RoomV { links: room.links.push(a), ..room },
                            addr,
                        );
                    },
                    None => {},
                }
            }
        },
        None => {},
    }
}

/// Idempotent object creation: after `\add` of a name — and equally after a
/// second `\add` of the same name — the session's room holds under that name
/// exactly the fresh object, with its name as display text and no actions.
/// Re-adding therefore resets the object's action table: that is the
/// specified behaviour, not an accident. With a well-formed world, no two
/// objects of the room share the name.
pub proof fn lemma_add_object_idempotent(
    input: Seq<char>,
    rooms: Seq<(Seq<char>, RoomV)>,
    cur: Seq<char>,
    name: Seq<char>,
)
    requires
        world_wf(rooms),
        rest_arg(input, "\\add "@) == Some(name),
        kv_get(rooms, cur) is Some,
    ensures
        ({
            let once = spec_add_object(input, rooms, cur).1;
            let twice = spec_add_object(input, once, cur).1;
            &&& kv_get(once, cur) is Some
            &&& kv_get(twice, cur) is Some
            &&& match kv_get(once, cur) {
                Some(room1) => kv_get(room1.objects, name) == Some(fresh_object_v(name))
                    && kv_distinct(room1.objects),
                None => false,
            }
            &&& match kv_get(twice, cur) {
                Some(room2) => kv_get(room2.objects, name) == Some(fresh_object_v(name))
                    && kv_distinct(room2.objects),
                None => false,
            }
        }),
{
    let room = match kv_get(rooms, cur) {
        Some(r) => r,
        None => empty_room_v(cur),
    };
    crate::kvmap::lemma_kv_get_is_entry(rooms, cur);
    assert(room_wf(room)) by {
        let i = choose|i: int| 0 <= i < rooms.len() && #[trigger] rooms[i] == (cur, room);
        assert(room_wf(rooms[i].1));
    }
    let room1 = RoomV { objects: kv_insert(room.objects, name, fresh_object_v(name)), ..room };
    lemma_kv_insert_get(rooms, cur, room1, cur);
    lemma_kv_insert_get(room.objects, name, fresh_object_v(name), name);
    lemma_kv_insert_distinct(room.objects, name, fresh_object_v(name));
    let once = spec_add_object(input, rooms, cur).1;
    let room2 = RoomV { objects: kv_insert(room1.objects, name, fresh_object_v(name)), ..room1 };
    lemma_kv_insert_get(once, cur, room2, cur);
    lemma_kv_insert_get(room1.objects, name, fresh_object_v(name), name);
    lemma_kv_insert_distinct(room1.objects, name, fresh_object_v(name));
}

/// Action round trip: after `\action <obj>:<act>:PrintText <text>` is issued
/// in a room that holds the object, interacting with `i <obj> <act>` from
/// the same room answers exactly the text.
pub proof fn lemma_action_round_trip(
    rooms: Seq<(Seq<char>, RoomV)>,
    cur: Seq<char>,
    edit_input: Seq<char>,
    play_input: Seq<char>,
    obj: Seq<char>,
    act: Seq<char>,
    text: Seq<char>,
)
    requires
        world_wf(rooms),
        action_args(edit_input) == Some((obj, act, "PrintText "@ + text)),
        text.len() > 0,
        touch_args(play_input) == Some((obj, act)),
        kv_get(rooms, cur) is Some,
        match kv_get(rooms, cur) {
            Some(room) => kv_get(room.objects, obj) is Some,
            None => false,
        },
    ensures
        spec_handle_touch(play_input, spec_add_action(edit_input, rooms, cur).1, cur)
            == EffectV::Respond(text),
{
    let body = "PrintText "@ + text;
    assert(parse_action_v(body) == crate::states::ActionV::PrintText(text)) by {
        assert(is_prefix("PrintText "@, body)) by {
            assert(body.subrange(0, "PrintText "@.len() as int) =~= "PrintText "@);
        }
        assert(body.len() > "PrintText "@.len());
        assert(body.subrange("PrintText "@.len() as int, body.len() as int) =~= text);
    }
    let room = match kv_get(rooms, cur) {
        Some(r) => r,
        None => empty_room_v(cur),
    };
    let o = match kv_get(room.objects, obj) {
        Some(x) => x,
        None => fresh_object_v(obj),
    };
    let o2 = ObjectV { actions: kv_insert(o.actions, act, parse_action_v(body)), ..o };
    let room2 = RoomV { objects: kv_insert(room.objects, obj, o2), ..room };
    lemma_kv_insert_get(rooms, cur, room2, cur);
    lemma_kv_insert_get(room.objects, obj, o2, obj);
    lemma_kv_insert_get(o.actions, act, parse_action_v(body), act);
    assert(spec_add_action(edit_input, rooms, cur).1 == kv_insert(rooms, cur, room2));
    assert(kv_get(kv_insert(rooms, cur, room2), cur) == Some(room2));
    assert(resolve_action_v(crate::states::ActionV::PrintText(text)) == EffectV::Respond(text));
}

/// Session isolation: two sessions' script scratchpads are disjoint pieces
/// of state. When a script run by each session stores a value — in either
/// order, as the shared interpreter serialises them — each session's lookup
/// afterwards sees only its own write, never the other session's key.
pub proof fn lemma_session_isolation(
    s1: SessionV,
    s2: SessionV,
    k1: Seq<char>,
    v1: Seq<char>,
    k2: Seq<char>,
    v2: Seq<char>,
    q: Seq<char>,
)
    ensures
        ({
            let s1p = SessionV {
                client_script_states: kv_insert(s1.client_script_states, k1, v1),
                ..s1
            };
            let s2p = SessionV {
                client_script_states: kv_insert(s2.client_script_states, k2, v2),
                ..s2
            };
            &&& kv_get(s1p.client_script_states, q) == (if q == k1 {
                Some(v1)
            } else {
                kv_get(s1.client_script_states, q)
            })
            &&& kv_get(s2p.client_script_states, q) == (if q == k2 {
                Some(v2)
            } else {
                kv_get(s2.client_script_states, q)
            })
        }),
{
    lemma_kv_insert_get(s1.client_script_states, k1, v1, q);
    lemma_kv_insert_get(s2.client_script_states, k2, v2, q);
}

} // verus!
