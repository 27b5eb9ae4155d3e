//! The persistence gateway's snapshot format, as verified logic: the world
//! and a session's restorable fields are framed into a character string, and
//! parsed back. Parsing an encoded snapshot returns exactly what was encoded
//! (a room's connected sessions are transient and are not persisted).
//!
//! The format: a string is its characters with `\` and `;` escaped by `\`,
//! ended by `;`. A list is its elements each led by `+`, ended by `.`.
//! An action is `n`, or `p`/`r` followed by its string. An object is its
//! name, display text and action table; a room its id, display text, link
//! list and object table; the world the list of its rooms keyed by id; a
//! session its edit flag (`0`/`1`), current room, name, and scratchpad.

use vstd::prelude::*;
use crate::states::{ActionV, ObjectV, RoomV, SessionV};
use crate::states::{GameAction, GameObject, Room, ClientState, ServerState};
use crate::kvmap::KvMap;

verus! {

// ---------- encoders ----------

pub open spec fn esc_char(c: char) -> Seq<char> {
    if c == '\\' || c == ';' {
        seq!['\\', c]
    } else {
        seq![c]
    }
}

pub open spec fn enc_str(t: Seq<char>) -> Seq<char>
    decreases t.len(),
{
    if t.len() == 0 {
        seq![';']
    } else {
        esc_char(t[0]) + enc_str(t.drop_first())
    }
}

pub open spec fn enc_action(a: ActionV) -> Seq<char> {
    match a {
        ActionV::Unhandled => seq!['n'],
        ActionV::PrintText(t) => seq!['p'] + enc_str(t),
        ActionV::RunScript(t) => seq!['r'] + enc_str(t),
    }
}

pub open spec fn enc_actions(s: Seq<(Seq<char>, ActionV)>) -> Seq<char>
    decreases s.len(),
{
    if s.len() == 0 {
        seq!['.']
    } else {
        seq!['+'] + enc_str(s[0].0) + enc_action(s[0].1) + enc_actions(s.drop_first())
    }
}

pub open spec fn enc_object(o: ObjectV) -> Seq<char> {
    enc_str(o.name) + enc_str(o.display) + enc_actions(o.actions)
}

pub open spec fn enc_objects(s: Seq<(Seq<char>, ObjectV)>) -> Seq<char>
    decreases s.len(),
{
    if s.len() == 0 {
        seq!['.']
    } else {
        seq!['+'] + enc_str(s[0].0) + enc_object(s[0].1) + enc_objects(s.drop_first())
    }
}

pub open spec fn enc_links(s: Seq<Seq<char>>) -> Seq<char>
    decreases s.len(),
{
    if s.len() == 0 {
        seq!['.']
    } else {
        seq!['+'] + enc_str(s[0]) + enc_links(s.drop_first())
    }
}

pub open spec fn enc_room(r: RoomV) -> Seq<char> {
    enc_str(r.addr) + enc_str(r.display) + enc_links(r.links) + enc_objects(r.objects)
}

pub open spec fn enc_rooms(s: Seq<(Seq<char>, RoomV)>) -> Seq<char>
    decreases s.len(),
{
    if s.len() == 0 {
        seq!['.']
    } else {
        seq!['+'] + enc_str(s[0].0) + enc_room(s[0].1) + enc_rooms(s.drop_first())
    }
}

pub open spec fn enc_bool(b: bool) -> Seq<char> {
    if b {
        seq!['1']
    } else {
        seq!['0']
    }
}

pub open spec fn enc_pairs(s: Seq<(Seq<char>, Seq<char>)>) -> Seq<char>
    decreases s.len(),
{
    if s.len() == 0 {
        seq!['.']
    } else {
        seq!['+'] + enc_str(s[0].0) + enc_str(s[0].1) + enc_pairs(s.drop_first())
    }
}

/// A session's persistable fields; the connection address is never persisted.
pub open spec fn enc_session(s: SessionV) -> Seq<char> {
    enc_bool(s.is_edit_mode) + enc_str(s.current_room) + enc_str(s.name) + enc_pairs(
        s.client_script_states,
    )
}

// ---------- decoders ----------
// Each returns the decoded value and how many characters it consumed.

pub open spec fn dec_str(s: Seq<char>) -> Option<(Seq<char>, int)>
    decreases s.len(),
{
    if s.len() == 0 {
        None
    } else if s[0] == ';' {
        Some((Seq::<char>::empty(), 1))
    } else if s[0] == '\\' {
        if s.len() >= 2 {
            match dec_str(s.subrange(2, s.len() as int)) {
                Some((t, n)) => Some((seq![s[1]] + t, n + 2)),
                None => None,
            }
        } else {
            None
        }
    } else {
        match dec_str(s.subrange(1, s.len() as int)) {
            Some((t, n)) => Some((seq![s[0]] + t, n + 1)),
            None => None,
        }
    }
}

pub open spec fn dec_action(s: Seq<char>) -> Option<(ActionV, int)> {
    if s.len() == 0 {
        None
    } else if s[0] == 'n' {
        Some((ActionV::Unhandled, 1))
    } else if s[0] == 'p' {
        match dec_str(s.subrange(1, s.len() as int)) {
            Some((t, n)) => Some((ActionV::PrintText(t), n + 1)),
            None => None,
        }
    } else if s[0] == 'r' {
        match dec_str(s.subrange(1, s.len() as int)) {
            Some((t, n)) => Some((ActionV::RunScript(t), n + 1)),
            None => None,
        }
    } else {
        None
    }
}

pub open spec fn dec_actions(s: Seq<char>) -> Option<(Seq<(Seq<char>, ActionV)>, int)>
    decreases s.len(),
{
    if s.len() == 0 {
        None
    } else if s[0] == '.' {
        Some((Seq::<(Seq<char>, ActionV)>::empty(), 1))
    } else if s[0] == '+' {
        match dec_str(s.subrange(1, s.len() as int)) {
            Some((k, n1)) => {
                let p1 = 1 + n1;
                if 1 <= p1 && p1 <= s.len() {
                    match dec_action(s.subrange(p1, s.len() as int)) {
                        Some((a, n2)) => {
                            let p2 = p1 + n2;
                            if p1 < p2 && p2 <= s.len() {
                                match dec_actions(s.subrange(p2, s.len() as int)) {
                                    Some((es, n3)) => Some((seq![(k, a)] + es, p2 + n3)),
                                    None => None,
                                }
                            } else {
                                None
                            }
                        },
                        None => None,
                    }
                } else {
                    None
                }
            },
            None => None,
        }
    } else {
        None
    }
}

pub open spec fn dec_object(s: Seq<char>) -> Option<(ObjectV, int)> {
    match dec_str(s) {
        Some((name, n1)) => {
            if 1 <= n1 && n1 <= s.len() {
                match dec_str(s.subrange(n1, s.len() as int)) {
                    Some((disp, n2)) => {
                        let p2 = n1 + n2;
                        if n1 < p2 && p2 <= s.len() {
                            match dec_actions(s.subrange(p2, s.len() as int)) {
                                Some((acts, n3)) => Some(
                                    (ObjectV { name, display: disp, actions: acts }, p2 + n3),
                                ),
                                None => None,
                            }
                        } else {
                            None
                        }
                    },
                    None => None,
                }
            } else {
                None
            }
        },
        None => None,
    }
}

pub open spec fn dec_objects(s: Seq<char>) -> Option<(Seq<(Seq<char>, ObjectV)>, int)>
    decreases s.len(),
{
    if s.len() == 0 {
        None
    } else if s[0] == '.' {
        Some((Seq::<(Seq<char>, ObjectV)>::empty(), 1))
    } else if s[0] == '+' {
        match dec_str(s.subrange(1, s.len() as int)) {
            Some((k, n1)) => {
                let p1 = 1 + n1;
                if 1 <= p1 && p1 <= s.len() {
                    match dec_object(s.subrange(p1, s.len() as int)) {
                        Some((o, n2)) => {
                            let p2 = p1 + n2;
                            if p1 < p2 && p2 <= s.len() {
                                match dec_objects(s.subrange(p2, s.len() as int)) {
                                    Some((es, n3)) => Some((seq![(k, o)] + es, p2 + n3)),
                                    None => None,
                                }
                            } else {
                                None
                            }
                        },
                        None => None,
                    }
                } else {
                    None
                }
            },
            None => None,
        }
    } else {
        None
    }
}

pub open spec fn dec_links(s: Seq<char>) -> Option<(Seq<Seq<char>>, int)>
    decreases s.len(),
{
    if s.len() == 0 {
        None
    } else if s[0] == '.' {
        Some((Seq::<Seq<char>>::empty(), 1))
    } else if s[0] == '+' {
        match dec_str(s.subrange(1, s.len() as int)) {
            Some((t, n1)) => {
                let p1 = 1 + n1;
                if 1 <= p1 && p1 <= s.len() {
                    match dec_links(s.subrange(p1, s.len() as int)) {
                        Some((ts, n2)) => Some((seq![t] + ts, p1 + n2)),
                        None => None,
                    }
                } else {
                    None
                }
            },
            None => None,
        }
    } else {
        None
    }
}

/// A parsed room: its connected-session set starts out empty.
pub open spec fn dec_room(s: Seq<char>) -> Option<(RoomV, int)> {
    match dec_str(s) {
        Some((addr, n1)) => {
            if 1 <= n1 && n1 <= s.len() {
                match dec_str(s.subrange(n1, s.len() as int)) {
                    Some((disp, n2)) => {
                        let p2 = n1 + n2;
                        if n1 < p2 && p2 <= s.len() {
                            match dec_links(s.subrange(p2, s.len() as int)) {
                                Some((ls, n3)) => {
                                    let p3 = p2 + n3;
                                    if p2 < p3 && p3 <= s.len() {
                                        match dec_objects(s.subrange(p3, s.len() as int)) {
                                            Some((os, n4)) => Some(
                                                (
                                                    RoomV {
                                                        addr,
                                                        display: disp,
                                                        clients: Seq::<u64>::empty(),
                                                        links: ls,
                                                        objects: os,
                                                    },
                                                    p3 + n4,
                                                ),
                                            ),
                                            None => None,
                                        }
                                    } else {
                                        None
                                    }
                                },
                                None => None,
                            }
                        } else {
                            None
                        }
                    },
                    None => None,
                }
            } else {
                None
            }
        },
        None => None,
    }
}

pub open spec fn dec_rooms(s: Seq<char>) -> Option<(Seq<(Seq<char>, RoomV)>, int)>
    decreases s.len(),
{
    if s.len() == 0 {
        None
    } else if s[0] == '.' {
        Some((Seq::<(Seq<char>, RoomV)>::empty(), 1))
    } else if s[0] == '+' {
        match dec_str(s.subrange(1, s.len() as int)) {
            Some((k, n1)) => {
                let p1 = 1 + n1;
                if 1 <= p1 && p1 <= s.len() {
                    match dec_room(s.subrange(p1, s.len() as int)) {
                        Some((r, n2)) => {
                            let p2 = p1 + n2;
                            if p1 < p2 && p2 <= s.len() {
                                match dec_rooms(s.subrange(p2, s.len() as int)) {
                                    Some((es, n3)) => Some((seq![(k, r)] + es, p2 + n3)),
                                    None => None,
                                }
                            } else {
                                None
                            }
                        },
                        None => None,
                    }
                } else {
                    None
                }
            },
            None => None,
        }
    } else {
        None
    }
}

pub open spec fn dec_bool(s: Seq<char>) -> Option<(bool, int)> {
    if s.len() == 0 {
        None
    } else if s[0] == '1' {
        Some((true, 1))
    } else if s[0] == '0' {
        Some((false, 1))
    } else {
        None
    }
}

pub open spec fn dec_pairs(s: Seq<char>) -> Option<(Seq<(Seq<char>, Seq<char>)>, int)>
    decreases s.len(),
{
    if s.len() == 0 {
        None
    } else if s[0] == '.' {
        Some((Seq::<(Seq<char>, Seq<char>)>::empty(), 1))
    } else if s[0] == '+' {
        match dec_str(s.subrange(1, s.len() as int)) {
            Some((k, n1)) => {
                let p1 = 1 + n1;
                if 1 <= p1 && p1 <= s.len() {
                    match dec_str(s.subrange(p1, s.len() as int)) {
                        Some((v, n2)) => {
                            let p2 = p1 + n2;
                            if p1 < p2 && p2 <= s.len() {
                                match dec_pairs(s.subrange(p2, s.len() as int)) {
                                    Some((es, n3)) => Some((seq![(k, v)] + es, p2 + n3)),
                                    None => None,
                                }
                            } else {
                                None
                            }
                        },
                        None => None,
                    }
                } else {
                    None
                }
            },
            None => None,
        }
    } else {
        None
    }
}

/// A parsed session is placed at no connection: the address was never
/// persisted.
pub open spec fn dec_session(s: Seq<char>) -> Option<(SessionV, int)> {
    match dec_bool(s) {
        Some((b, n0)) => {
            if 1 <= n0 && n0 <= s.len() {
                match dec_str(s.subrange(n0, s.len() as int)) {
                    Some((room, n1)) => {
                        let p1 = n0 + n1;
                        if n0 < p1 && p1 <= s.len() {
                            match dec_str(s.subrange(p1, s.len() as int)) {
                                Some((name, n2)) => {
                                    let p2 = p1 + n2;
                                    if p1 < p2 && p2 <= s.len() {
                                        match dec_pairs(s.subrange(p2, s.len() as int)) {
                                            Some((ps, n3)) => Some(
                                                (
                                                    SessionV {
                                                        addr: None,
                                                        is_edit_mode: b,
                                                        current_room: room,
                                                        name: name,
                                                        client_script_states: ps,
                                                    },
                                                    p2 + n3,
                                                ),
                                            ),
                                            None => None,
                                        }
                                    } else {
                                        None
                                    }
                                },
                                None => None,
                            }
                        } else {
                            None
                        }
                    },
                    None => None,
                }
            } else {
                None
            }
        },
        None => None,
    }
}

// ---------- round-trip lemmas ----------

pub proof fn lemma_enc_str_len(t: Seq<char>)
    ensures
        enc_str(t).len() >= 1,
    decreases t.len(),
{
    if t.len() > 0 {
        lemma_enc_str_len(t.drop_first());
    }
}

/// Parsing an encoded string gives the string back and stops right after it.
pub proof fn lemma_round_str(t: Seq<char>, rest: Seq<char>)
    ensures
        dec_str(enc_str(t) + rest) == Some((t, enc_str(t).len() as int)),
    decreases t.len(),
{
    let s = enc_str(t) + rest;
    if t.len() == 0 {
        assert(s[0] == ';');
        assert(s.subrange(1, s.len() as int) =~= rest);
    } else {
        let c = t[0];
        lemma_round_str(t.drop_first(), rest);
        lemma_enc_str_len(t.drop_first());
        if c == '\\' || c == ';' {
            assert(esc_char(c) =~= seq!['\\', c]);
            assert(s[0] == '\\');
            assert(s[1] == c);
            assert(s.len() >= 2);
            assert(s.subrange(2, s.len() as int) =~= enc_str(t.drop_first()) + rest);
            assert(seq![s[1]] + t.drop_first() =~= t);
        } else {
            assert(esc_char(c) =~= seq![c]);
            assert(s[0] == c);
            assert(c != ';' && c != '\\');
            assert(s.subrange(1, s.len() as int) =~= enc_str(t.drop_first()) + rest);
            assert(seq![s[0]] + t.drop_first() =~= t);
        }
    }
}

pub proof fn lemma_enc_action_len(a: ActionV)
    ensures
        enc_action(a).len() >= 1,
{
    match a {
        ActionV::Unhandled => {},
        ActionV::PrintText(t) => {
            lemma_enc_str_len(t);
        },
        ActionV::RunScript(t) => {
            lemma_enc_str_len(t);
        },
    }
}

pub proof fn lemma_round_action(a: ActionV, rest: Seq<char>)
    ensures
        dec_action(enc_action(a) + rest) == Some((a, enc_action(a).len() as int)),
{
    let s = enc_action(a) + rest;
    match a {
        ActionV::Unhandled => {
            assert(s[0] == 'n');
        },
        ActionV::PrintText(t) => {
            assert(s[0] == 'p');
            assert(s.subrange(1, s.len() as int) =~= enc_str(t) + rest);
            lemma_round_str(t, rest);
        },
        ActionV::RunScript(t) => {
            assert(s[0] == 'r');
            assert(s.subrange(1, s.len() as int) =~= enc_str(t) + rest);
            lemma_round_str(t, rest);
        },
    }
}

#[verifier::rlimit(100)]
pub proof fn lemma_round_actions(es: Seq<(Seq<char>, ActionV)>, rest: Seq<char>)
    ensures
        dec_actions(enc_actions(es) + rest) == Some((es, enc_actions(es).len() as int)),
    decreases es.len(),
{
    let s = enc_actions(es) + rest;
    if es.len() == 0 {
        assert(s[0] == '.');
        assert(dec_actions(s) == Some((Seq::<(Seq<char>, ActionV)>::empty(), 1int)));
        assert(es =~= Seq::<(Seq<char>, ActionV)>::empty());
    } else {
        let k = es[0].0;
        let a = es[0].1;
        let tail = es.drop_first();
        let ek = enc_str(k);
        let ea = enc_action(a);
        let et = enc_actions(tail);
        lemma_enc_str_len(k);
        lemma_enc_action_len(a);
        assert(enc_actions(es) =~= seq!['+'] + ek + ea + et);
        assert(s =~= seq!['+'] + (ek + (ea + (et + rest))));
        assert(s[0] == '+');
        assert(s.subrange(1, s.len() as int) =~= ek + (ea + (et + rest)));
        lemma_round_str(k, ea + (et + rest));
        assert(ek + (ea + (et + rest)) =~= enc_str(k) + (ea + (et + rest)));
        let n1 = ek.len() as int;
        let p1 = 1 + n1;
        assert(s.subrange(p1, s.len() as int) =~= ea + (et + rest));
        lemma_round_action(a, et + rest);
        let n2 = ea.len() as int;
        let p2 = p1 + n2;
        assert(s.subrange(p2, s.len() as int) =~= et + rest);
        lemma_round_actions(tail, rest);
        let n3 = et.len() as int;
        assert(dec_actions(s.subrange(p2, s.len() as int)) == Some((tail, n3)));
        assert(seq![(k, a)] + tail =~= es);
        assert(p2 + n3 == enc_actions(es).len());
    }
}

pub proof fn lemma_enc_actions_len(es: Seq<(Seq<char>, ActionV)>)
    ensures
        enc_actions(es).len() >= 1,
    decreases es.len(),
{
    if es.len() > 0 {
        lemma_enc_actions_len(es.drop_first());
    }
}

pub proof fn lemma_round_object(o: ObjectV, rest: Seq<char>)
    ensures
        dec_object(enc_object(o) + rest) == Some((o, enc_object(o).len() as int)),
{
    let s = enc_object(o) + rest;
    let en = enc_str(o.name);
    let ed = enc_str(o.display);
    let ea = enc_actions(o.actions);
    lemma_enc_str_len(o.name);
    lemma_enc_str_len(o.display);
    lemma_enc_actions_len(o.actions);
    assert(s =~= en + (ed + (ea + rest)));
    lemma_round_str(o.name, ed + (ea + rest));
    let n1 = en.len() as int;
    assert(s.subrange(n1, s.len() as int) =~= ed + (ea + rest));
    lemma_round_str(o.display, ea + rest);
    let p2 = n1 + ed.len() as int;
    assert(s.subrange(p2, s.len() as int) =~= ea + rest);
    lemma_round_actions(o.actions, rest);
    assert(dec_object(s) == Some((ObjectV { name: o.name, display: o.display, actions: o.actions },
    enc_object(o).len() as int)));
    assert(ObjectV { name: o.name, display: o.display, actions: o.actions } =~= o);
}

pub proof fn lemma_enc_object_len(o: ObjectV)
    ensures
        enc_object(o).len() >= 1,
{
    lemma_enc_str_len(o.name);
    lemma_enc_str_len(o.display);
    lemma_enc_actions_len(o.actions);
}

#[verifier::rlimit(100)]
#[verifier::spinoff_prover]
proof fn lemma_round_objects_step(es: Seq<(Seq<char>, ObjectV)>, rest: Seq<char>)
    requires
        es.len() > 0,
        dec_objects(enc_objects(es.drop_first()) + rest) == Some(
            (es.drop_first(), enc_objects(es.drop_first()).len() as int),
        ),
    ensures
        dec_objects(enc_objects(es) + rest) == Some((es, enc_objects(es).len() as int)),
{
    let s = enc_objects(es) + rest;
    {
        let k = es[0].0;
        let o = es[0].1;
        let tail = es.drop_first();
        let ek = enc_str(k);
        let eo = enc_object(o);
        let et = enc_objects(tail);
        lemma_enc_str_len(k);
        lemma_enc_object_len(o);
        let n1 = ek.len() as int;
        let p1 = 1 + n1;
        let n2 = eo.len() as int;
        let p2 = p1 + n2;
        let n3 = et.len() as int;
        let total = s.len() as int;
        assert(enc_objects(es) =~= seq!['+'] + ek + eo + et);
        assert(s =~= seq!['+'] + (ek + (eo + (et + rest))));
        assert(total == 1 + n1 + n2 + n3 + rest.len());
        assert(s[0] == '+');
        assert(s.subrange(1, total) =~= ek + (eo + (et + rest)));
        lemma_round_str(k, eo + (et + rest));
        assert(dec_str(s.subrange(1, total)) == Some((k, n1)));
        assert(1 <= p1 && p1 <= total);
        assert(s.subrange(p1, total) =~= eo + (et + rest));
        lemma_round_object(o, et + rest);
        assert(dec_object(s.subrange(p1, total)) == Some((o, n2)));
        assert(p1 < p2 && p2 <= total);
        assert(s.subrange(p2, total) =~= et + rest);
        assert(dec_objects(s.subrange(p2, total)) == Some((tail, n3)));
        assert(seq![(k, o)] + tail =~= es);
        assert(enc_objects(es).len() == p2 + n3);
        assert(dec_objects(s) == Some((seq![(k, o)] + tail, p2 + n3)));
    }
}

pub proof fn lemma_round_objects(es: Seq<(Seq<char>, ObjectV)>, rest: Seq<char>)
    ensures
        dec_objects(enc_objects(es) + rest) == Some((es, enc_objects(es).len() as int)),
    decreases es.len(),
{
    let s = enc_objects(es) + rest;
    if es.len() == 0 {
        assert(s[0] == '.');
        assert(es =~= Seq::<(Seq<char>, ObjectV)>::empty());
    } else {
        lemma_round_objects(es.drop_first(), rest);
        lemma_round_objects_step(es, rest);
    }
}

pub proof fn lemma_enc_objects_len(es: Seq<(Seq<char>, ObjectV)>)
    ensures
        enc_objects(es).len() >= 1,
    decreases es.len(),
{
    if es.len() > 0 {
        lemma_enc_objects_len(es.drop_first());
    }
}

#[verifier::rlimit(100)]
pub proof fn lemma_round_links(ls: Seq<Seq<char>>, rest: Seq<char>)
    ensures
        dec_links(enc_links(ls) + rest) == Some((ls, enc_links(ls).len() as int)),
    decreases ls.len(),
{
    let s = enc_links(ls) + rest;
    if ls.len() == 0 {
        assert(s[0] == '.');
        assert(ls =~= Seq::<Seq<char>>::empty());
    } else {
        let t = ls[0];
        let tail = ls.drop_first();
        let ek = enc_str(t);
        let et = enc_links(tail);
        lemma_enc_str_len(t);
        assert(enc_links(ls) =~= seq!['+'] + ek + et);
        assert(s =~= seq!['+'] + (ek + (et + rest)));
        assert(s[0] == '+');
        assert(s.subrange(1, s.len() as int) =~= ek + (et + rest));
        lemma_round_str(t, et + rest);
        let p1 = 1 + ek.len() as int;
        assert(s.subrange(p1, s.len() as int) =~= et + rest);
        lemma_round_links(tail, rest);
        assert(seq![t] + tail =~= ls);
        assert(p1 + et.len() == enc_links(ls).len());
    }
}

pub proof fn lemma_enc_links_len(ls: Seq<Seq<char>>)
    ensures
        enc_links(ls).len() >= 1,
    decreases ls.len(),
{
    if ls.len() > 0 {
        lemma_enc_links_len(ls.drop_first());
    }
}

/// A room comes back exactly, except that its transient connected-session
/// set is empty.
pub proof fn lemma_round_room(r: RoomV, rest: Seq<char>)
    ensures
        dec_room(enc_room(r) + rest) == Some(
            (RoomV { clients: Seq::<u64>::empty(), ..r }, enc_room(r).len() as int),
        ),
{
    let s = enc_room(r) + rest;
    let ea = enc_str(r.addr);
    let ed = enc_str(r.display);
    let el = enc_links(r.links);
    let eo = enc_objects(r.objects);
    lemma_enc_str_len(r.addr);
    lemma_enc_str_len(r.display);
    lemma_enc_links_len(r.links);
    lemma_enc_objects_len(r.objects);
    assert(s =~= ea + (ed + (el + (eo + rest))));
    lemma_round_str(r.addr, ed + (el + (eo + rest)));
    let n1 = ea.len() as int;
    assert(s.subrange(n1, s.len() as int) =~= ed + (el + (eo + rest)));
    lemma_round_str(r.display, el + (eo + rest));
    let p2 = n1 + ed.len() as int;
    assert(s.subrange(p2, s.len() as int) =~= el + (eo + rest));
    lemma_round_links(r.links, eo + rest);
    let p3 = p2 + el.len() as int;
    assert(s.subrange(p3, s.len() as int) =~= eo + rest);
    lemma_round_objects(r.objects, rest);
    assert(p3 + eo.len() == enc_room(r).len());
}

pub proof fn lemma_enc_room_len(r: RoomV)
    ensures
        enc_room(r).len() >= 1,
{
    lemma_enc_str_len(r.addr);
    lemma_enc_str_len(r.display);
    lemma_enc_links_len(r.links);
    lemma_enc_objects_len(r.objects);
}

/// The entries of `w` with every room's connected-session set cleared: what
/// a snapshot of `w` restores to.
pub open spec fn clear_clients(w: Seq<(Seq<char>, RoomV)>) -> Seq<(Seq<char>, RoomV)> {
    w.map_values(|p: (Seq<char>, RoomV)| (p.0, RoomV { clients: Seq::<u64>::empty(), ..p.1 }))
}

#[verifier::rlimit(100)]
#[verifier::spinoff_prover]
proof fn lemma_round_rooms_step(es: Seq<(Seq<char>, RoomV)>, rest: Seq<char>)
    requires
        es.len() > 0,
        dec_rooms(enc_rooms(es.drop_first()) + rest) == Some(
            (clear_clients(es.drop_first()), enc_rooms(es.drop_first()).len() as int),
        ),
    ensures
        dec_rooms(enc_rooms(es) + rest) == Some(
            (
                seq![(es[0].0, RoomV { clients: Seq::<u64>::empty(), ..es[0].1 })] + clear_clients(
                    es.drop_first(),
                ),
                enc_rooms(es).len() as int,
            ),
        ),
{
    let s = enc_rooms(es) + rest;
    let k = es[0].0;
    let r = es[0].1;
    let tail = es.drop_first();
    let ek = enc_str(k);
    let er = enc_room(r);
    let et = enc_rooms(tail);
    lemma_enc_str_len(k);
    lemma_enc_room_len(r);
    let n1 = ek.len() as int;
    let p1 = 1 + n1;
    let n2 = er.len() as int;
    let p2 = p1 + n2;
    let n3 = et.len() as int;
    let total = s.len() as int;
    let rc = RoomV { clients: Seq::<u64>::empty(), ..r };
    assert(enc_rooms(es) =~= seq!['+'] + ek + er + et);
    assert(s =~= seq!['+'] + (ek + (er + (et + rest))));
    assert(total == 1 + n1 + n2 + n3 + rest.len());
    assert(s[0] == '+');
    assert(s.subrange(1, total) =~= ek + (er + (et + rest)));
    lemma_round_str(k, er + (et + rest));
    assert(dec_str(s.subrange(1, total)) == Some((k, n1)));
    assert(1 <= p1 && p1 <= total);
    assert(s.subrange(p1, total) =~= er + (et + rest));
    lemma_round_room(r, et + rest);
    assert(dec_room(s.subrange(p1, total)) == Some((rc, n2)));
    assert(p1 < p2 && p2 <= total);
    assert(s.subrange(p2, total) =~= et + rest);
    assert(dec_rooms(s.subrange(p2, total)) == Some((clear_clients(tail), n3)));
    assert(enc_rooms(es).len() == p2 + n3);
    assert(dec_rooms(s) == Some((seq![(k, rc)] + clear_clients(tail), p2 + n3)));
}

pub proof fn lemma_round_rooms(es: Seq<(Seq<char>, RoomV)>, rest: Seq<char>)
    ensures
        dec_rooms(enc_rooms(es) + rest) == Some((clear_clients(es), enc_rooms(es).len() as int)),
    decreases es.len(),
{
    let s = enc_rooms(es) + rest;
    if es.len() == 0 {
        assert(s[0] == '.');
        assert(clear_clients(es) =~= Seq::<(Seq<char>, RoomV)>::empty());
    } else {
        lemma_round_rooms(es.drop_first(), rest);
        lemma_round_rooms_step(es, rest);
        let rc = RoomV { clients: Seq::<u64>::empty(), ..es[0].1 };
        assert(seq![(es[0].0, rc)] + clear_clients(es.drop_first()) =~= clear_clients(es));
    }
}

/// A session's persistable fields come back exactly; only the connection
/// address is gone.
#[verifier::rlimit(100)]
#[verifier::spinoff_prover]
pub proof fn lemma_round_session(v: SessionV, rest: Seq<char>)
    ensures
        dec_session(enc_session(v) + rest) == Some(
            (SessionV { addr: None, ..v }, enc_session(v).len() as int),
        ),
{
    let s = enc_session(v) + rest;
    let eb = enc_bool(v.is_edit_mode);
    let er = enc_str(v.current_room);
    let en = enc_str(v.name);
    let ep = enc_pairs(v.client_script_states);
    lemma_enc_str_len(v.current_room);
    lemma_enc_str_len(v.name);
    lemma_enc_pairs_len(v.client_script_states);
    assert(s =~= eb + (er + (en + (ep + rest))));
    assert(s[0] == eb[0]);
    assert(dec_bool(s) == Some((v.is_edit_mode, 1int)));
    assert(s.subrange(1, s.len() as int) =~= er + (en + (ep + rest)));
    lemma_round_str(v.current_room, en + (ep + rest));
    let p1 = 1 + er.len() as int;
    assert(s.subrange(p1, s.len() as int) =~= en + (ep + rest));
    lemma_round_str(v.name, ep + rest);
    let p2 = p1 + en.len() as int;
    assert(s.subrange(p2, s.len() as int) =~= ep + rest);
    lemma_round_pairs(v.client_script_states, rest);
    assert(p2 + ep.len() == enc_session(v).len());
}

#[verifier::rlimit(100)]
pub proof fn lemma_round_pairs(es: Seq<(Seq<char>, Seq<char>)>, rest: Seq<char>)
    ensures
        dec_pairs(enc_pairs(es) + rest) == Some((es, enc_pairs(es).len() as int)),
    decreases es.len(),
{
    let s = enc_pairs(es) + rest;
    if es.len() == 0 {
        assert(s[0] == '.');
        assert(es =~= Seq::<(Seq<char>, Seq<char>)>::empty());
    } else {
        let k = es[0].0;
        let v = es[0].1;
        let tail = es.drop_first();
        let ek = enc_str(k);
        let ev = enc_str(v);
        let et = enc_pairs(tail);
        lemma_enc_str_len(k);
        lemma_enc_str_len(v);
        assert(enc_pairs(es) =~= seq!['+'] + ek + ev + et);
        assert(s =~= seq!['+'] + (ek + (ev + (et + rest))));
        assert(s[0] == '+');
        assert(s.subrange(1, s.len() as int) =~= ek + (ev + (et + rest)));
        lemma_round_str(k, ev + (et + rest));
        let p1 = 1 + ek.len() as int;
        assert(s.subrange(p1, s.len() as int) =~= ev + (et + rest));
        lemma_round_str(v, et + rest);
        let p2 = p1 + ev.len() as int;
        assert(s.subrange(p2, s.len() as int) =~= et + rest);
        lemma_round_pairs(tail, rest);
        assert(seq![(k, v)] + tail =~= es);
        assert(p2 + et.len() == enc_pairs(es).len());
    }
}

pub proof fn lemma_enc_pairs_len(es: Seq<(Seq<char>, Seq<char>)>)
    ensures
        enc_pairs(es).len() >= 1,
    decreases es.len(),
{
    if es.len() > 0 {
        lemma_enc_pairs_len(es.drop_first());
    }
}

// ---------- executable encoders ----------

/// Append the encoding of the string `t` to `out`.
fn enc_str_exec(out: &mut String, t: &str)
    ensures
        final(out)@ == old(out)@ + enc_str(t@),
{
    let ghost base = old(out)@;
    let len = t.unicode_len();
    proof {
        assert(t@.subrange(0, len as int) =~= t@);
    }
    let mut i: usize = 0;
    while i < len
        invariant
            i <= len,
            len == t@.len(),
            base + enc_str(t@) == out@ + enc_str(t@.subrange(i as int, len as int)),
        decreases len - i,
    {
        let c = t.get_char(i);
        let ghost tail = t@.subrange(i as int, len as int);
        let ghost pre = out@;
        let piece = t.substring_char(i, i + 1);
        if c == '\\' || c == ';' {
            out.append("\\");
            out.append(piece);
            proof {
                reveal_strlit("\\");
                assert(piece@ =~= seq![c]);
                assert(tail[0] == c);
                assert(esc_char(c) =~= seq!['\\', c]);
                assert(out@ =~= pre + esc_char(tail[0]));
            }
        } else {
            out.append(piece);
            proof {
                assert(piece@ =~= seq![c]);
                assert(tail[0] == c);
                assert(esc_char(c) =~= seq![c]);
                assert(out@ =~= pre + esc_char(tail[0]));
            }
        }
        proof {
            assert(tail.drop_first() =~= t@.subrange(i + 1 as int, len as int));
            assert(enc_str(tail) == esc_char(tail[0]) + enc_str(tail.drop_first()));
            assert(pre + enc_str(tail) =~= out@ + enc_str(t@.subrange(i + 1 as int, len as int)));
        }
        i += 1;
    }
    proof {
        assert(t@.subrange(len as int, len as int) =~= Seq::<char>::empty());
    }
    out.append(";");
    proof {
        reveal_strlit(";");
        assert(";"@ =~= seq![';']);
        assert(enc_str(Seq::<char>::empty()) == seq![';']);
        assert(final(out)@ =~= base + enc_str(t@));
    }
}

fn enc_action_exec(out: &mut String, a: &GameAction)
    ensures
        final(out)@ == old(out)@ + enc_action(a@),
{
    match a {
        GameAction::Unhandled => {
            out.append("n");
            proof {
                reveal_strlit("n");
                assert("n"@ =~= seq!['n']);
            }
        },
        GameAction::PrintText(t) => {
            out.append("p");
            enc_str_exec(out, t.as_str());
            proof {
                reveal_strlit("p");
                assert("p"@ =~= seq!['p']);
                assert(final(out)@ =~= old(out)@ + (seq!['p'] + enc_str(t@)));
            }
        },
        GameAction::RunScript(t) => {
            out.append("r");
            enc_str_exec(out, t.as_str());
            proof {
                reveal_strlit("r");
                assert("r"@ =~= seq!['r']);
                assert(final(out)@ =~= old(out)@ + (seq!['r'] + enc_str(t@)));
            }
        },
    }
}

fn enc_actions_exec(out: &mut String, m: &KvMap<GameAction>)
    ensures
        final(out)@ == old(out)@ + enc_actions(m@),
{
    let ghost base = old(out)@;
    let n = m.len();
    proof {
        assert(m@.subrange(0, n as int) =~= m@);
    }
    let mut i: usize = 0;
    while i < n
        invariant
            i <= n,
            n == m@.len(),
            base + enc_actions(m@) == out@ + enc_actions(m@.subrange(i as int, n as int)),
        decreases n - i,
    {
        let ghost tail = m@.subrange(i as int, n as int);
        let ghost pre = out@;
        out.append("+");
        enc_str_exec(out, m.key_at(i).as_str());
        enc_action_exec(out, m.value_at(i));
        proof {
            reveal_strlit("+");
            assert("+"@ =~= seq!['+']);
            assert(tail[0] == m@[i as int]);
            assert(tail.drop_first() =~= m@.subrange(i + 1 as int, n as int));
            assert(enc_actions(tail) == seq!['+'] + enc_str(tail[0].0) + enc_action(tail[0].1)
                + enc_actions(tail.drop_first()));
            assert(out@ =~= pre + (seq!['+'] + enc_str(tail[0].0) + enc_action(tail[0].1)));
            assert(pre + enc_actions(tail) =~= out@ + enc_actions(
                m@.subrange(i + 1 as int, n as int),
            ));
        }
        i += 1;
    }
    proof {
        assert(m@.subrange(n as int, n as int) =~= Seq::<(Seq<char>, ActionV)>::empty());
    }
    out.append(".");
    proof {
        reveal_strlit(".");
        assert("."@ =~= seq!['.']);
        assert(enc_actions(Seq::<(Seq<char>, ActionV)>::empty()) == seq!['.']);
        assert(final(out)@ =~= base + enc_actions(m@));
    }
}

fn enc_object_exec(out: &mut String, o: &GameObject)
    ensures
        final(out)@ == old(out)@ + enc_object(o@),
{
    enc_str_exec(out, o.name.as_str());
    enc_str_exec(out, o.display.as_str());
    enc_actions_exec(out, &o.actions);
    proof {
        assert(final(out)@ =~= old(out)@ + (enc_str(o@.name) + enc_str(o@.display) + enc_actions(
            o@.actions,
        )));
    }
}

fn enc_objects_exec(out: &mut String, m: &KvMap<GameObject>)
    ensures
        final(out)@ == old(out)@ + enc_objects(m@),
{
    let ghost base = old(out)@;
    let n = m.len();
    proof {
        assert(m@.subrange(0, n as int) =~= m@);
    }
    let mut i: usize = 0;
    while i < n
        invariant
            i <= n,
            n == m@.len(),
            base + enc_objects(m@) == out@ + enc_objects(m@.subrange(i as int, n as int)),
        decreases n - i,
    {
        let ghost tail = m@.subrange(i as int, n as int);
        let ghost pre = out@;
        out.append("+");
        enc_str_exec(out, m.key_at(i).as_str());
        enc_object_exec(out, m.value_at(i));
        proof {
            reveal_strlit("+");
            assert("+"@ =~= seq!['+']);
            assert(tail[0] == m@[i as int]);
            assert(tail.drop_first() =~= m@.subrange(i + 1 as int, n as int));
            assert(enc_objects(tail) == seq!['+'] + enc_str(tail[0].0) + enc_object(tail[0].1)
                + enc_objects(tail.drop_first()));
            assert(out@ =~= pre + (seq!['+'] + enc_str(tail[0].0) + enc_object(tail[0].1)));
            assert(pre + enc_objects(tail) =~= out@ + enc_objects(
                m@.subrange(i + 1 as int, n as int),
            ));
        }
        i += 1;
    }
    proof {
        assert(m@.subrange(n as int, n as int) =~= Seq::<(Seq<char>, ObjectV)>::empty());
    }
    out.append(".");
    proof {
        reveal_strlit(".");
        assert("."@ =~= seq!['.']);
        assert(final(out)@ =~= base + enc_objects(m@));
    }
}

fn enc_links_exec(out: &mut String, links: &Vec<String>)
    ensures
        final(out)@ == old(out)@ + enc_links(links@.map_values(|s: String| s@)),
{
    let ghost base = old(out)@;
    let ghost lv = links@.map_values(|s: String| s@);
    let n = links.len();
    proof {
        assert(lv.subrange(0, n as int) =~= lv);
    }
    let mut i: usize = 0;
    while i < n
        invariant
            i <= n,
            n == links@.len(),
            n == lv.len(),
            lv == links@.map_values(|s: String| s@),
            base + enc_links(lv) == out@ + enc_links(lv.subrange(i as int, n as int)),
        decreases n - i,
    {
        let ghost tail = lv.subrange(i as int, n as int);
        let ghost pre = out@;
        out.append("+");
        enc_str_exec(out, links[i].as_str());
        proof {
            reveal_strlit("+");
            assert("+"@ =~= seq!['+']);
            assert(tail[0] == lv[i as int]);
            assert(lv[i as int] == links@[i as int]@);
            assert(tail.drop_first() =~= lv.subrange(i + 1 as int, n as int));
            assert(enc_links(tail) == seq!['+'] + enc_str(tail[0]) + enc_links(tail.drop_first()));
            assert(out@ =~= pre + (seq!['+'] + enc_str(tail[0])));
            assert(pre + enc_links(tail) =~= out@ + enc_links(lv.subrange(i + 1 as int, n as int)));
        }
        i += 1;
    }
    proof {
        assert(lv.subrange(n as int, n as int) =~= Seq::<Seq<char>>::empty());
    }
    out.append(".");
    proof {
        reveal_strlit(".");
        assert("."@ =~= seq!['.']);
        assert(final(out)@ =~= base + enc_links(lv));
    }
}

fn enc_room_exec(out: &mut String, r: &Room)
    ensures
        final(out)@ == old(out)@ + enc_room(r@),
{
    enc_str_exec(out, r.addr.as_str());
    enc_str_exec(out, r.display.as_str());
    enc_links_exec(out, &r.links);
    enc_objects_exec(out, &r.objects);
    proof {
        assert(final(out)@ =~= old(out)@ + (enc_str(r@.addr) + enc_str(r@.display) + enc_links(
            r@.links,
        ) + enc_objects(r@.objects)));
    }
}

fn enc_rooms_exec(out: &mut String, m: &KvMap<Room>)
    ensures
        final(out)@ == old(out)@ + enc_rooms(m@),
{
    let ghost base = old(out)@;
    let n = m.len();
    proof {
        assert(m@.subrange(0, n as int) =~= m@);
    }
    let mut i: usize = 0;
    while i < n
        invariant
            i <= n,
            n == m@.len(),
            base + enc_rooms(m@) == out@ + enc_rooms(m@.subrange(i as int, n as int)),
        decreases n - i,
    {
        let ghost tail = m@.subrange(i as int, n as int);
        let ghost pre = out@;
        out.append("+");
        enc_str_exec(out, m.key_at(i).as_str());
        enc_room_exec(out, m.value_at(i));
        proof {
            reveal_strlit("+");
            assert("+"@ =~= seq!['+']);
            assert(tail[0] == m@[i as int]);
            assert(tail.drop_first() =~= m@.subrange(i + 1 as int, n as int));
            assert(enc_rooms(tail) == seq!['+'] + enc_str(tail[0].0) + enc_room(tail[0].1)
                + enc_rooms(tail.drop_first()));
            assert(out@ =~= pre + (seq!['+'] + enc_str(tail[0].0) + enc_room(tail[0].1)));
            assert(pre + enc_rooms(tail) =~= out@ + enc_rooms(
                m@.subrange(i + 1 as int, n as int),
            ));
        }
        i += 1;
    }
    proof {
        assert(m@.subrange(n as int, n as int) =~= Seq::<(Seq<char>, RoomV)>::empty());
    }
    out.append(".");
    proof {
        reveal_strlit(".");
        assert("."@ =~= seq!['.']);
        assert(final(out)@ =~= base + enc_rooms(m@));
    }
}

fn enc_pairs_exec(out: &mut String, m: &KvMap<String>)
    ensures
        final(out)@ == old(out)@ + enc_pairs(m@),
{
    let ghost base = old(out)@;
    let n = m.len();
    proof {
        assert(m@.subrange(0, n as int) =~= m@);
    }
    let mut i: usize = 0;
    while i < n
        invariant
            i <= n,
            n == m@.len(),
            base + enc_pairs(m@) == out@ + enc_pairs(m@.subrange(i as int, n as int)),
        decreases n - i,
    {
        let ghost tail = m@.subrange(i as int, n as int);
        let ghost pre = out@;
        out.append("+");
        enc_str_exec(out, m.key_at(i).as_str());
        enc_str_exec(out, m.value_at(i).as_str());
        proof {
            reveal_strlit("+");
            assert("+"@ =~= seq!['+']);
            assert(tail[0] == m@[i as int]);
            assert(tail.drop_first() =~= m@.subrange(i + 1 as int, n as int));
            assert(enc_pairs(tail) == seq!['+'] + enc_str(tail[0].0) + enc_str(tail[0].1)
                + enc_pairs(tail.drop_first()));
            assert(out@ =~= pre + (seq!['+'] + enc_str(tail[0].0) + enc_str(tail[0].1)));
            assert(pre + enc_pairs(tail) =~= out@ + enc_pairs(
                m@.subrange(i + 1 as int, n as int),
            ));
        }
        i += 1;
    }
    proof {
        assert(m@.subrange(n as int, n as int) =~= Seq::<(Seq<char>, Seq<char>)>::empty());
    }
    out.append(".");
    proof {
        reveal_strlit(".");
        assert("."@ =~= seq!['.']);
        assert(final(out)@ =~= base + enc_pairs(m@));
    }
}

// ---------- executable decoders ----------

/// Prefixing `k` consumed characters and `a` decoded elements onto a
/// decoder's outcome.
pub open spec fn prepend_dec<T>(a: Seq<T>, k: int, o: Option<(Seq<T>, int)>) -> Option<
    (Seq<T>, int),
> {
    match o {
        Some((es, n)) => Some((a + es, k + n)),
        None => None,
    }
}

fn dec_str_exec(s: &str, pos: usize) -> (r: Option<(String, usize)>)
    requires
        pos <= s@.len(),
    ensures
        match r {
            Some(t) => pos < t.1 <= s@.len() && dec_str(s@.subrange(pos as int, s@.len() as int))
                == Some((t.0@, t.1 - pos)),
            None => dec_str(s@.subrange(pos as int, s@.len() as int)) is None,
        },
{
    let len = s.unicode_len();
    let mut acc = String::new();
    let mut i: usize = pos;
    proof {
        match dec_str(s@.subrange(pos as int, len as int)) {
            Some((t, n)) => {
                assert(Seq::<char>::empty() + t =~= t);
            },
            None => {},
        }
    }
    loop
        invariant
            pos <= i <= len,
            len == s@.len(),
            dec_str(s@.subrange(pos as int, len as int)) == prepend_dec(
                acc@,
                i - pos,
                dec_str(s@.subrange(i as int, len as int)),
            ),
        decreases len - i,
    {
        if i == len {
            proof {
                assert(s@.subrange(i as int, len as int) =~= Seq::<char>::empty());
            }
            return None;
        }
        let c = s.get_char(i);
        let ghost tail = s@.subrange(i as int, len as int);
        proof {
            assert(tail[0] == s@[i as int]);
        }
        if c == ';' {
            proof {
                assert(dec_str(tail) == Some((Seq::<char>::empty(), 1int)));
                assert(acc@ + Seq::<char>::empty() =~= acc@);
            }
            return Some((acc, i + 1));
        } else if c == '\\' {
            if i + 1 == len {
                proof {
                    assert(tail.len() < 2);
                }
                return None;
            }
            let ghost pre = acc@;
            let piece = s.substring_char(i + 1, i + 2);
            acc.append(piece);
            proof {
                assert(piece@ =~= seq![s@[i + 1]]);
                assert(tail.len() >= 2);
                assert(tail[1] == s@[i + 1]);
                assert(tail.subrange(2, tail.len() as int) =~= s@.subrange(
                    i + 2 as int,
                    len as int,
                ));
                match dec_str(s@.subrange(i + 2 as int, len as int)) {
                    Some((t, n)) => {
                        assert(dec_str(tail) == Some((seq![tail[1]] + t, n + 2)));
                        assert(pre + (seq![tail[1]] + t) =~= acc@ + t);
                    },
                    None => {
                        assert(dec_str(tail) is None);
                    },
                }
            }
            i += 2;
        } else {
            let ghost pre = acc@;
            let piece = s.substring_char(i, i + 1);
            acc.append(piece);
            proof {
                assert(piece@ =~= seq![s@[i as int]]);
                assert(tail[0] != ';' && tail[0] != '\\');
                assert(tail.subrange(1, tail.len() as int) =~= s@.subrange(
                    i + 1 as int,
                    len as int,
                ));
                match dec_str(s@.subrange(i + 1 as int, len as int)) {
                    Some((t, n)) => {
                        assert(dec_str(tail) == Some((seq![tail[0]] + t, n + 1)));
                        assert(pre + (seq![tail[0]] + t) =~= acc@ + t);
                    },
                    None => {
                        assert(dec_str(tail) is None);
                    },
                }
            }
            i += 1;
        }
    }
}

fn dec_action_exec(s: &str, pos: usize) -> (r: Option<(GameAction, usize)>)
    requires
        pos <= s@.len(),
    ensures
        match r {
            Some(t) => pos < t.1 <= s@.len() && dec_action(
                s@.subrange(pos as int, s@.len() as int),
            ) == Some((t.0@, t.1 - pos)),
            None => dec_action(s@.subrange(pos as int, s@.len() as int)) is None,
        },
{
    let len = s.unicode_len();
    if pos == len {
        proof {
            assert(s@.subrange(pos as int, len as int) =~= Seq::<char>::empty());
        }
        return None;
    }
    let c = s.get_char(pos);
    let ghost tail = s@.subrange(pos as int, len as int);
    proof {
        assert(tail[0] == s@[pos as int]);
        assert(tail.subrange(1, tail.len() as int) =~= s@.subrange(pos + 1 as int, len as int));
    }
    if c == 'n' {
        return Some((GameAction::Unhandled, pos + 1));
    }
    if c == 'p' {
        match dec_str_exec(s, pos + 1) {
            Some((t, q)) => {
                return Some((GameAction::PrintText(t), q));
            },
            None => {
                return None;
            },
        }
    }
    if c == 'r' {
        match dec_str_exec(s, pos + 1) {
            Some((t, q)) => {
                return Some((GameAction::RunScript(t), q));
            },
            None => {
                return None;
            },
        }
    }
    None
}

fn dec_actions_exec(s: &str, pos: usize) -> (r: Option<(KvMap<GameAction>, usize)>)
    requires
        pos <= s@.len(),
    ensures
        match r {
            Some(t) => pos < t.1 <= s@.len() && dec_actions(
                s@.subrange(pos as int, s@.len() as int),
            ) == Some((t.0@, t.1 - pos)),
            None => dec_actions(s@.subrange(pos as int, s@.len() as int)) is None,
        },
{
    let len = s.unicode_len();
    let mut entries: Vec<(String, GameAction)> = Vec::new();
    let mut i: usize = pos;
    proof {
        match dec_actions(s@.subrange(pos as int, len as int)) {
            Some((es, n)) => {
                assert(Seq::<(Seq<char>, ActionV)>::empty() + es =~= es);
            },
            None => {},
        }
        assert(entries@.map_values(|p: (String, GameAction)| (p.0@, p.1@)) =~= Seq::<
            (Seq<char>, ActionV),
        >::empty());
    }
    loop
        invariant
            pos <= i <= len,
            len == s@.len(),
            dec_actions(s@.subrange(pos as int, len as int)) == prepend_dec(
                entries@.map_values(|p: (String, GameAction)| (p.0@, p.1@)),
                i - pos,
                dec_actions(s@.subrange(i as int, len as int)),
            ),
        decreases len - i,
    {
        if i == len {
            proof {
                assert(s@.subrange(i as int, len as int) =~= Seq::<char>::empty());
            }
            return None;
        }
        let c = s.get_char(i);
        let ghost tail = s@.subrange(i as int, len as int);
        proof {
            assert(tail[0] == s@[i as int]);
        }
        if c == '.' {
            let m = KvMap { entries };
            proof {
                assert(dec_actions(tail) == Some((Seq::<(Seq<char>, ActionV)>::empty(), 1int)));
                assert(m@ + Seq::<(Seq<char>, ActionV)>::empty() =~= m@);
            }
            return Some((m, i + 1));
        }
        if c != '+' {
            return None;
        }
        proof {
            assert(tail.subrange(1, tail.len() as int) =~= s@.subrange(i + 1 as int, len as int));
        }
        let (key, q1) = match dec_str_exec(s, i + 1) {
            Some(t) => t,
            None => {
                return None;
            },
        };
        proof {
            assert(tail.subrange(q1 - i, tail.len() as int) =~= s@.subrange(
                q1 as int,
                len as int,
            ));
        }
        let (act, q2) = match dec_action_exec(s, q1) {
            Some(t) => t,
            None => {
                return None;
            },
        };
        let ghost pre = entries@.map_values(|p: (String, GameAction)| (p.0@, p.1@));
        let ghost kv = key@;
        let ghost av = act@;
        entries.push((key, act));
        proof {
            assert(tail.subrange(q2 - i, tail.len() as int) =~= s@.subrange(
                q2 as int,
                len as int,
            ));
            let now = entries@.map_values(|p: (String, GameAction)| (p.0@, p.1@));
            assert(now =~= pre.push((kv, av)));
            match dec_actions(s@.subrange(q2 as int, len as int)) {
                Some((es, n3)) => {
                    assert(dec_actions(tail) == Some((seq![(kv, av)] + es, (q2 - i) + n3)));
                    assert(pre + (seq![(kv, av)] + es) =~= now + es);
                },
                None => {
                    assert(dec_actions(tail) is None);
                },
            }
        }
        i = q2;
    }
}

fn dec_object_exec(s: &str, pos: usize) -> (r: Option<(GameObject, usize)>)
    requires
        pos <= s@.len(),
    ensures
        match r {
            Some(t) => pos < t.1 <= s@.len() && dec_object(
                s@.subrange(pos as int, s@.len() as int),
            ) == Some((t.0@, t.1 - pos)),
            None => dec_object(s@.subrange(pos as int, s@.len() as int)) is None,
        },
{
    let len = s.unicode_len();
    let ghost tail = s@.subrange(pos as int, len as int);
    let (name, q1) = match dec_str_exec(s, pos) {
        Some(t) => t,
        None => {
            return None;
        },
    };
    proof {
        assert(tail.subrange(q1 - pos, tail.len() as int) =~= s@.subrange(q1 as int, len as int));
    }
    let (display, q2) = match dec_str_exec(s, q1) {
        Some(t) => t,
        None => {
            return None;
        },
    };
    proof {
        assert(tail.subrange(q2 - pos, tail.len() as int) =~= s@.subrange(q2 as int, len as int));
    }
    let (actions, q3) = match dec_actions_exec(s, q2) {
        Some(t) => t,
        None => {
            return None;
        },
    };
    Some((GameObject { name, display, actions }, q3))
}

fn dec_links_exec(s: &str, pos: usize) -> (r: Option<(Vec<String>, usize)>)
    requires
        pos <= s@.len(),
    ensures
        match r {
            Some(t) => pos < t.1 <= s@.len() && dec_links(
                s@.subrange(pos as int, s@.len() as int),
            ) == Some((t.0@.map_values(|x: String| x@), t.1 - pos)),
            None => dec_links(s@.subrange(pos as int, s@.len() as int)) is None,
        },
{
    let len = s.unicode_len();
    let mut items: Vec<String> = Vec::new();
    let mut i: usize = pos;
    proof {
        match dec_links(s@.subrange(pos as int, len as int)) {
            Some((es, n)) => {
                assert(Seq::<Seq<char>>::empty() + es =~= es);
            },
            None => {},
        }
        assert(items@.map_values(|x: String| x@) =~= Seq::<Seq<char>>::empty());
    }
    loop
        invariant
            pos <= i <= len,
            len == s@.len(),
            dec_links(s@.subrange(pos as int, len as int)) == prepend_dec(
                items@.map_values(|x: String| x@),
                i - pos,
                dec_links(s@.subrange(i as int, len as int)),
            ),
        decreases len - i,
    {
        if i == len {
            proof {
                assert(s@.subrange(i as int, len as int) =~= Seq::<char>::empty());
            }
            return None;
        }
        let c = s.get_char(i);
        let ghost tail = s@.subrange(i as int, len as int);
        proof {
            assert(tail[0] == s@[i as int]);
        }
        if c == '.' {
            proof {
                assert(dec_links(tail) == Some((Seq::<Seq<char>>::empty(), 1int)));
                assert(items@.map_values(|x: String| x@) + Seq::<Seq<char>>::empty()
                    =~= items@.map_values(|x: String| x@));
            }
            return Some((items, i + 1));
        }
        if c != '+' {
            return None;
        }
        proof {
            assert(tail.subrange(1, tail.len() as int) =~= s@.subrange(i + 1 as int, len as int));
        }
        let (t, q1) = match dec_str_exec(s, i + 1) {
            Some(t) => t,
            None => {
                return None;
            },
        };
        let ghost pre = items@.map_values(|x: String| x@);
        let ghost tv = t@;
        items.push(t);
        proof {
            assert(tail.subrange(q1 - i, tail.len() as int) =~= s@.subrange(
                q1 as int,
                len as int,
            ));
            let now = items@.map_values(|x: String| x@);
            assert(now =~= pre.push(tv));
            match dec_links(s@.subrange(q1 as int, len as int)) {
                Some((es, n2)) => {
                    assert(dec_links(tail) == Some((seq![tv] + es, (q1 - i) + n2)));
                    assert(pre + (seq![tv] + es) =~= now + es);
                },
                None => {
                    assert(dec_links(tail) is None);
                },
            }
        }
        i = q1;
    }
}

fn dec_room_exec(s: &str, pos: usize) -> (r: Option<(Room, usize)>)
    requires
        pos <= s@.len(),
    ensures
        match r {
            Some(t) => pos < t.1 <= s@.len() && dec_room(s@.subrange(pos as int, s@.len() as int))
                == Some((t.0@, t.1 - pos)),
            None => dec_room(s@.subrange(pos as int, s@.len() as int)) is None,
        },
{
    let len = s.unicode_len();
    let ghost tail = s@.subrange(pos as int, len as int);
    let (addr, q1) = match dec_str_exec(s, pos) {
        Some(t) => t,
        None => {
            return None;
        },
    };
    proof {
        assert(tail.subrange(q1 - pos, tail.len() as int) =~= s@.subrange(q1 as int, len as int));
    }
    let (display, q2) = match dec_str_exec(s, q1) {
        Some(t) => t,
        None => {
            return None;
        },
    };
    proof {
        assert(tail.subrange(q2 - pos, tail.len() as int) =~= s@.subrange(q2 as int, len as int));
    }
    let (links, q3) = match dec_links_exec(s, q2) {
        Some(t) => t,
        None => {
            return None;
        },
    };
    proof {
        assert(tail.subrange(q3 - pos, tail.len() as int) =~= s@.subrange(q3 as int, len as int));
    }
    let (objects, q4) = match dec_objects_exec(s, q3) {
        Some(t) => t,
        None => {
            return None;
        },
    };
    let room = Room { addr, display, clients: Vec::new(), links, objects };
    proof {
        assert(room@ =~= (match dec_room(tail) {
            Some((rv, n)) => rv,
            None => room@,
        }));
    }
    Some((room, q4))
}

#[verifier::rlimit(100)]
#[verifier::spinoff_prover]
fn dec_objects_exec(s: &str, pos: usize) -> (r: Option<(KvMap<GameObject>, usize)>)
    requires
        pos <= s@.len(),
    ensures
        match r {
            Some(t) => pos < t.1 <= s@.len() && dec_objects(
                s@.subrange(pos as int, s@.len() as int),
            ) == Some((t.0@, t.1 - pos)),
            None => dec_objects(s@.subrange(pos as int, s@.len() as int)) is None,
        },
{
    let len = s.unicode_len();
    let mut entries: Vec<(String, GameObject)> = Vec::new();
    let mut i: usize = pos;
    proof {
        match dec_objects(s@.subrange(pos as int, len as int)) {
            Some((es, n)) => {
                assert(Seq::<(Seq<char>, ObjectV)>::empty() + es =~= es);
            },
            None => {},
        }
        assert(entries@.map_values(|p: (String, GameObject)| (p.0@, p.1@)) =~= Seq::<
            (Seq<char>, ObjectV),
        >::empty());
    }
    loop
        invariant
            pos <= i <= len,
            len == s@.len(),
            dec_objects(s@.subrange(pos as int, len as int)) == prepend_dec(
                entries@.map_values(|p: (String, GameObject)| (p.0@, p.1@)),
                i - pos,
                dec_objects(s@.subrange(i as int, len as int)),
            ),
        decreases len - i,
    {
        if i == len {
            proof {
                assert(s@.subrange(i as int, len as int) =~= Seq::<char>::empty());
            }
            return None;
        }
        let c = s.get_char(i);
        let ghost tail = s@.subrange(i as int, len as int);
        proof {
            assert(tail[0] == s@[i as int]);
        }
        if c == '.' {
            let m = KvMap { entries };
            proof {
                assert(dec_objects(tail) == Some((Seq::<(Seq<char>, ObjectV)>::empty(), 1int)));
                assert(m@ + Seq::<(Seq<char>, ObjectV)>::empty() =~= m@);
            }
            return Some((m, i + 1));
        }
        if c != '+' {
            return None;
        }
        proof {
            assert(tail.subrange(1, tail.len() as int) =~= s@.subrange(i + 1 as int, len as int));
        }
        let (key, q1) = match dec_str_exec(s, i + 1) {
            Some(t) => t,
            None => {
                return None;
            },
        };
        proof {
            assert(tail.subrange(q1 - i, tail.len() as int) =~= s@.subrange(
                q1 as int,
                len as int,
            ));
        }
        let (obj, q2) = match dec_object_exec(s, q1) {
            Some(t) => t,
            None => {
                return None;
            },
        };
        let ghost pre = entries@.map_values(|p: (String, GameObject)| (p.0@, p.1@));
        let ghost kv = key@;
        let ghost ov = obj@;
        entries.push((key, obj));
        proof {
            assert(tail.subrange(q2 - i, tail.len() as int) =~= s@.subrange(
                q2 as int,
                len as int,
            ));
            let now = entries@.map_values(|p: (String, GameObject)| (p.0@, p.1@));
            assert(now =~= pre.push((kv, ov)));
            match dec_objects(s@.subrange(q2 as int, len as int)) {
                Some((es, n3)) => {
                    assert(dec_objects(tail) == Some((seq![(kv, ov)] + es, (q2 - i) + n3)));
                    assert(pre + (seq![(kv, ov)] + es) =~= now + es);
                },
                None => {
                    assert(dec_objects(tail) is None);
                },
            }
        }
        i = q2;
    }
}

#[verifier::rlimit(100)]
#[verifier::spinoff_prover]
fn dec_rooms_exec(s: &str, pos: usize) -> (r: Option<(KvMap<Room>, usize)>)
    requires
        pos <= s@.len(),
    ensures
        match r {
            Some(t) => pos < t.1 <= s@.len() && dec_rooms(
                s@.subrange(pos as int, s@.len() as int),
            ) == Some((t.0@, t.1 - pos)),
            None => dec_rooms(s@.subrange(pos as int, s@.len() as int)) is None,
        },
{
    let len = s.unicode_len();
    let mut entries: Vec<(String, Room)> = Vec::new();
    let mut i: usize = pos;
    proof {
        match dec_rooms(s@.subrange(pos as int, len as int)) {
            Some((es, n)) => {
                assert(Seq::<(Seq<char>, RoomV)>::empty() + es =~= es);
            },
            None => {},
        }
        assert(entries@.map_values(|p: (String, Room)| (p.0@, p.1@)) =~= Seq::<
            (Seq<char>, RoomV),
        >::empty());
    }
    loop
        invariant
            pos <= i <= len,
            len == s@.len(),
            dec_rooms(s@.subrange(pos as int, len as int)) == prepend_dec(
                entries@.map_values(|p: (String, Room)| (p.0@, p.1@)),
                i - pos,
                dec_rooms(s@.subrange(i as int, len as int)),
            ),
        decreases len - i,
    {
        if i == len {
            proof {
                assert(s@.subrange(i as int, len as int) =~= Seq::<char>::empty());
            }
            return None;
        }
        let c = s.get_char(i);
        let ghost tail = s@.subrange(i as int, len as int);
        proof {
            assert(tail[0] == s@[i as int]);
        }
        if c == '.' {
            let m = KvMap { entries };
            proof {
                assert(dec_rooms(tail) == Some((Seq::<(Seq<char>, RoomV)>::empty(), 1int)));
                assert(m@ + Seq::<(Seq<char>, RoomV)>::empty() =~= m@);
            }
            return Some((m, i + 1));
        }
        if c != '+' {
            return None;
        }
        proof {
            assert(tail.subrange(1, tail.len() as int) =~= s@.subrange(i + 1 as int, len as int));
        }
        let (key, q1) = match dec_str_exec(s, i + 1) {
            Some(t) => t,
            None => {
                return None;
            },
        };
        proof {
            assert(tail.subrange(q1 - i, tail.len() as int) =~= s@.subrange(
                q1 as int,
                len as int,
            ));
        }
        let (room, q2) = match dec_room_exec(s, q1) {
            Some(t) => t,
            None => {
                return None;
            },
        };
        let ghost pre = entries@.map_values(|p: (String, Room)| (p.0@, p.1@));
        let ghost kv = key@;
        let ghost rv = room@;
        entries.push((key, room));
        proof {
            assert(tail.subrange(q2 - i, tail.len() as int) =~= s@.subrange(
                q2 as int,
                len as int,
            ));
            let now = entries@.map_values(|p: (String, Room)| (p.0@, p.1@));
            assert(now =~= pre.push((kv, rv)));
            match dec_rooms(s@.subrange(q2 as int, len as int)) {
                Some((es, n3)) => {
                    assert(dec_rooms(tail) == Some((seq![(kv, rv)] + es, (q2 - i) + n3)));
                    assert(pre + (seq![(kv, rv)] + es) =~= now + es);
                },
                None => {
                    assert(dec_rooms(tail) is None);
                },
            }
        }
        i = q2;
    }
}

fn dec_pairs_exec(s: &str, pos: usize) -> (r: Option<(KvMap<String>, usize)>)
    requires
        pos <= s@.len(),
    ensures
        match r {
            Some(t) => pos < t.1 <= s@.len() && dec_pairs(
                s@.subrange(pos as int, s@.len() as int),
            ) == Some((t.0@, t.1 - pos)),
            None => dec_pairs(s@.subrange(pos as int, s@.len() as int)) is None,
        },
{
    let len = s.unicode_len();
    let mut entries: Vec<(String, String)> = Vec::new();
    let mut i: usize = pos;
    proof {
        match dec_pairs(s@.subrange(pos as int, len as int)) {
            Some((es, n)) => {
                assert(Seq::<(Seq<char>, Seq<char>)>::empty() + es =~= es);
            },
            None => {},
        }
        assert(entries@.map_values(|p: (String, String)| (p.0@, p.1@)) =~= Seq::<
            (Seq<char>, Seq<char>),
        >::empty());
    }
    loop
        invariant
            pos <= i <= len,
            len == s@.len(),
            dec_pairs(s@.subrange(pos as int, len as int)) == prepend_dec(
                entries@.map_values(|p: (String, String)| (p.0@, p.1@)),
                i - pos,
                dec_pairs(s@.subrange(i as int, len as int)),
            ),
        decreases len - i,
    {
        if i == len {
            proof {
                assert(s@.subrange(i as int, len as int) =~= Seq::<char>::empty());
            }
            return None;
        }
        let c = s.get_char(i);
        let ghost tail = s@.subrange(i as int, len as int);
        proof {
            assert(tail[0] == s@[i as int]);
        }
        if c == '.' {
            let m = KvMap { entries };
            proof {
                assert(dec_pairs(tail) == Some((Seq::<(Seq<char>, Seq<char>)>::empty(), 1int)));
                assert(m@ + Seq::<(Seq<char>, Seq<char>)>::empty() =~= m@);
            }
            return Some((m, i + 1));
        }
        if c != '+' {
            return None;
        }
        proof {
            assert(tail.subrange(1, tail.len() as int) =~= s@.subrange(i + 1 as int, len as int));
        }
        let (key, q1) = match dec_str_exec(s, i + 1) {
            Some(t) => t,
            None => {
                return None;
            },
        };
        proof {
            assert(tail.subrange(q1 - i, tail.len() as int) =~= s@.subrange(
                q1 as int,
                len as int,
            ));
        }
        let (val, q2) = match dec_str_exec(s, q1) {
            Some(t) => t,
            None => {
                return None;
            },
        };
        let ghost pre = entries@.map_values(|p: (String, String)| (p.0@, p.1@));
        let ghost kv = key@;
        let ghost vv = val@;
        entries.push((key, val));
        proof {
            assert(tail.subrange(q2 - i, tail.len() as int) =~= s@.subrange(
                q2 as int,
                len as int,
            ));
            let now = entries@.map_values(|p: (String, String)| (p.0@, p.1@));
            assert(now =~= pre.push((kv, vv)));
            match dec_pairs(s@.subrange(q2 as int, len as int)) {
                Some((es, n3)) => {
                    assert(dec_pairs(tail) == Some((seq![(kv, vv)] + es, (q2 - i) + n3)));
                    assert(pre + (seq![(kv, vv)] + es) =~= now + es);
                },
                None => {
                    assert(dec_pairs(tail) is None);
                },
            }
        }
        i = q2;
    }
}

// ---------- well-formedness checks on parsed data ----------

fn room_wf_check(room: &Room) -> (r: bool)
    ensures
        r == crate::states::room_wf(room@),
{
    if !room.objects.distinct_keys() {
        return false;
    }
    let n = room.objects.len();
    let mut i: usize = 0;
    while i < n
        invariant
            i <= n,
            n == room@.objects.len(),
            crate::kvmap::kv_distinct(room@.objects),
            forall|j: int| 0 <= j < i ==> crate::states::object_wf(#[trigger] room@.objects[j].1),
        decreases n - i,
    {
        if !room.objects.value_at(i).actions.distinct_keys() {
            return false;
        }
        i += 1;
    }
    true
}

fn world_wf_check(rooms: &KvMap<Room>) -> (r: bool)
    ensures
        r == crate::states::world_wf(rooms@),
{
    if !rooms.distinct_keys() {
        return false;
    }
    let n = rooms.len();
    let mut i: usize = 0;
    while i < n
        invariant
            i <= n,
            n == rooms@.len(),
            crate::kvmap::kv_distinct(rooms@),
            forall|j: int| 0 <= j < i ==> crate::states::room_wf(#[trigger] rooms@[j].1),
        decreases n - i,
    {
        if !room_wf_check(rooms.value_at(i)) {
            return false;
        }
        i += 1;
    }
    true
}

// ---------- what loading computes ----------

/// What loading a durable world record yields: the parsed mapping when the
/// record is one whole well-formed non-empty snapshot, else the seed world.
pub open spec fn spec_load_world(data: Seq<char>) -> Seq<(Seq<char>, RoomV)> {
    match dec_rooms(data) {
        Some((w, n)) => if n == data.len() && w.len() > 0 && crate::states::world_wf(w) {
            w
        } else {
            crate::states::seed_world()
        },
        None => crate::states::seed_world(),
    }
}

/// What loading a session record yields: the parsed session when the record
/// is one whole snapshot with a well-formed scratchpad.
pub open spec fn spec_load_session(data: Seq<char>) -> Option<SessionV> {
    match dec_session(data) {
        Some((v, n)) => if n == data.len() && crate::kvmap::kv_distinct(v.client_script_states) {
            Some(v)
        } else {
            None
        },
        None => None,
    }
}

impl ServerState {
    /// Restore a store from a durable record: its parsed rooms if the record
    /// is a whole well-formed snapshot of at least one room, else the seed
    /// world. Either way no session is live yet.
    pub fn load(data: &str) -> (r: ServerState)
        ensures
            r@.client_states == Seq::<u64>::empty(),
            r@.rooms == spec_load_world(data@),
            r.wf(),
    {
        let len = data.unicode_len();
        proof {
            assert(data@.subrange(0, len as int) =~= data@);
        }
        match dec_rooms_exec(data, 0) {
            Some((rooms, q)) => {
                if q == len && rooms.len() > 0 && world_wf_check(&rooms) {
                    ServerState { client_states: Vec::new(), rooms }
                } else {
                    ServerState::new()
                }
            },
            None => ServerState::new(),
        }
    }

    /// Restore a session's persisted fields from its record; `None` when the
    /// record does not parse. The session comes back without a connection.
    pub fn load_client(&self, data: &str) -> (r: Option<ClientState>)
        ensures
            match r {
                Some(c) => spec_load_session(data@) == Some(c@) && crate::states::session_wf(c@),
                None => spec_load_session(data@) is None,
            },
    {
        let len = data.unicode_len();
        proof {
            assert(data@.subrange(0, len as int) =~= data@);
        }
        if len == 0 {
            return None;
        }
        let c0 = data.get_char(0);
        let is_edit_mode = if c0 == '1' {
            true
        } else if c0 == '0' {
            false
        } else {
            return None;
        };
        proof {
            assert(dec_bool(data@) == Some((is_edit_mode, 1int)));
            assert(data@.subrange(1, len as int) =~= data@.subrange(1, data@.len() as int));
        }
        let (current_room, q1) = match dec_str_exec(data, 1) {
            Some(t) => t,
            None => {
                return None;
            },
        };
        let (name, q2) = match dec_str_exec(data, q1) {
            Some(t) => t,
            None => {
                return None;
            },
        };
        let (states, q3) = match dec_pairs_exec(data, q2) {
            Some(t) => t,
            None => {
                return None;
            },
        };
        if q3 != len {
            return None;
        }
        if !states.distinct_keys() {
            return None;
        }
        let c = ClientState {
            addr: None,
            is_edit_mode,
            current_room,
            name,
            client_script_states: states,
        };
        proof {
            assert(c@ =~= (match dec_session(data@) {
                Some((v, n)) => v,
                None => c@,
            }));
        }
        Some(c)
    }

    /// Snapshot the full room mapping into the durable record the gateway
    /// stores; the surrounding loop writes it out. By
    /// [`lemma_world_round_trip`], [`Self::load`] of this record restores
    /// the mapping.
    pub fn save(&self) -> (r: String)
        ensures
            r@ == enc_rooms(self@.rooms),
    {
        let mut out = String::new();
        enc_rooms_exec(&mut out, &self.rooms);
        out
    }

    /// Snapshot one session's persistable fields, keyed outside by its name.
    pub fn save_client(&self, client_state: &ClientState) -> (r: String)
        ensures
            r@ == enc_session(client_state@),
    {
        let mut out = String::new();
        if client_state.is_edit_mode {
            out.append("1");
            proof {
                reveal_strlit("1");
                assert("1"@ =~= seq!['1']);
            }
        } else {
            out.append("0");
            proof {
                reveal_strlit("0");
                assert("0"@ =~= seq!['0']);
            }
        }
        enc_str_exec(&mut out, client_state.current_room.as_str());
        enc_str_exec(&mut out, client_state.name.as_str());
        enc_pairs_exec(&mut out, &client_state.client_script_states);
        proof {
            assert(out@ =~= enc_bool(client_state@.is_edit_mode) + enc_str(
                client_state@.current_room,
            ) + enc_str(client_state@.name) + enc_pairs(client_state@.client_script_states));
        }
        out
    }
}

// ---------- persistence round trip ----------

/// Persistence round trip for the world: loading a saved snapshot of a
/// well-formed, non-empty world reproduces the same mapping — the same room
/// ids, bound to rooms with the same display text, links, objects and
/// actions. Only the transient connected-session sets come back empty. (An
/// empty world would instead load as the seed world, exactly as a fresh
/// store starts.)
pub proof fn lemma_world_round_trip(w: Seq<(Seq<char>, RoomV)>)
    requires
        crate::states::world_wf(w),
        w.len() > 0,
    ensures
        spec_load_world(enc_rooms(w)) == clear_clients(w),
{
    lemma_round_rooms(w, Seq::<char>::empty());
    assert(enc_rooms(w) + Seq::<char>::empty() =~= enc_rooms(w));
    let cw = clear_clients(w);
    assert(cw.len() == w.len());
    assert(crate::states::world_wf(cw)) by {
        assert(forall|i: int| 0 <= i < cw.len() ==> #[trigger] cw[i] == (
        w[i].0,
        RoomV { clients: Seq::<u64>::empty(), ..w[i].1 },
        ));
        assert forall|i: int, j: int| 0 <= i < j < cw.len() implies cw[i].0 != cw[j].0 by {
            assert(cw[i].0 == w[i].0 && cw[j].0 == w[j].0);
        }
        assert forall|i: int| 0 <= i < cw.len() implies crate::states::room_wf(
            #[trigger] cw[i].1,
        ) by {
            assert(cw[i].1.objects == w[i].1.objects);
            assert(crate::states::room_wf(w[i].1));
        }
    }
}

/// Persistence round trip for a session: loading a saved session record
/// restores the edit flag, current room, name and script scratchpad; only
/// the connection address is gone, since it is never persisted.
pub proof fn lemma_session_round_trip(v: SessionV)
    requires
        crate::states::session_wf(v),
    ensures
        spec_load_session(enc_session(v)) == Some(SessionV { addr: None, ..v }),
{
    lemma_round_session(v, Seq::<char>::empty());
    assert(enc_session(v) + Seq::<char>::empty() =~= enc_session(v));
}

} // verus!
