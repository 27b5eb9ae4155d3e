//! The world model: actions, objects, rooms, sessions, and the server state
//! that owns the room registry and the live-session registry.

use vstd::prelude::*;
use crate::kvmap::{KvMap, kv_get, kv_insert, kv_distinct};

verus! {

/// Behaviour bound to one (object, action name) pair.
pub enum GameAction {
    Unhandled,
    PrintText(String),
    RunScript(String),
}

/// Spec-level value of a [`GameAction`].
pub enum ActionV {
    Unhandled,
    PrintText(Seq<char>),
    RunScript(Seq<char>),
}

impl View for GameAction {
    type V = ActionV;

    open spec fn view(&self) -> ActionV {
        match self {
            GameAction::Unhandled => ActionV::Unhandled,
            GameAction::PrintText(t) => ActionV::PrintText(t@),
            GameAction::RunScript(t) => ActionV::RunScript(t@),
        }
    }
}

/// A named, interactable entity inside a room.
pub struct GameObject {
    pub display: String,
    pub name: String,
    pub actions: KvMap<GameAction>,
}

/// Spec-level value of a [`GameObject`].
#[verifier::ext_equal]
pub struct ObjectV {
    pub display: Seq<char>,
    pub name: Seq<char>,
    pub actions: Seq<(Seq<char>, ActionV)>,
}

impl View for GameObject {
    type V = ObjectV;

    open spec fn view(&self) -> ObjectV {
        ObjectV { display: self.display@, name: self.name@, actions: self.actions@ }
    }
}

pub open spec fn object_wf(o: ObjectV) -> bool {
    kv_distinct(o.actions)
}

impl GameObject {
    /// A fresh object: its display text starts out as its name, and it has no
    /// actions yet.
    pub fn new(name: String) -> (r: Self)
        ensures
            r@.name == name@,
            r@.display == name@,
            r@.actions.len() == 0,
            object_wf(r@),
    {
        let display = name.clone();
        GameObject { name, display, actions: KvMap::new() }
    }
}

/// A node in the world graph: holds objects, outgoing links, and the ids of
/// the sessions connected to it.
pub struct Room {
    pub addr: String,
    pub display: String,
    pub clients: Vec<u64>,
    pub links: Vec<String>,
    pub objects: KvMap<GameObject>,
}

/// Spec-level value of a [`Room`].
#[verifier::ext_equal]
pub struct RoomV {
    pub addr: Seq<char>,
    pub display: Seq<char>,
    pub clients: Seq<u64>,
    pub links: Seq<Seq<char>>,
    pub objects: Seq<(Seq<char>, ObjectV)>,
}

impl View for Room {
    type V = RoomV;

    open spec fn view(&self) -> RoomV {
        RoomV {
            addr: self.addr@,
            display: self.display@,
            clients: self.clients@,
            links: self.links@.map_values(|s: String| s@),
            objects: self.objects@,
        }
    }
}

pub open spec fn room_wf(r: RoomV) -> bool {
    kv_distinct(r.objects) && forall|i: int|
        0 <= i < r.objects.len() ==> object_wf(#[trigger] r.objects[i].1)
}

/// The view of an empty room with the given id.
pub open spec fn empty_room_v(addr: Seq<char>) -> RoomV {
    RoomV {
        addr,
        display: Seq::<char>::empty(),
        clients: Seq::<u64>::empty(),
        links: Seq::<Seq<char>>::empty(),
        objects: Seq::<(Seq<char>, ObjectV)>::empty(),
    }
}

impl Room {
    /// An empty room with the given id.
    pub fn new(addr: String) -> (r: Self)
        ensures
            r@ == empty_room_v(addr@),
            room_wf(r@),
    {
        let r = Room {
            addr,
            display: String::new(),
            clients: Vec::new(),
            links: Vec::new(),
            objects: KvMap::new(),
        };
        proof {
            assert(r@.links =~= Seq::<Seq<char>>::empty());
            assert(r@ =~= empty_room_v(r.addr@));
        }
        r
    }

    /// Append a directed link towards `link`.
    pub fn push_link(&mut self, link: String)
        ensures
            final(self)@ == (RoomV { links: old(self)@.links.push(link@), ..old(self)@ }),
    {
        self.links.push(link);
        proof {
            assert(final(self)@.links =~= old(self)@.links.push(link@));
        }
    }

    /// Bind `name` to `obj` in this room's object table.
    pub fn insert_object(&mut self, name: String, obj: GameObject)
        ensures
            final(self)@ == (RoomV {
                objects: kv_insert(old(self)@.objects, name@, obj@),
                ..old(self)@
            }),
            room_wf(old(self)@) && object_wf(obj@) ==> room_wf(final(self)@),
    {
        self.objects.insert(name, obj);
        proof {
            if room_wf(old(self)@) && object_wf(obj@) {
                crate::kvmap::lemma_kv_insert_distinct(old(self)@.objects, name@, obj@);
                crate::kvmap::lemma_kv_insert_keys(old(self)@.objects, name@, obj@);
                let t = kv_insert(old(self)@.objects, name@, obj@);
                assert forall|i: int| 0 <= i < t.len() implies object_wf(#[trigger] t[i].1) by {
                    lemma_kv_insert_value_from(old(self)@.objects, name@, obj@, i);
                }
            }
        }
    }
}

impl Room {
    /// Set the display text of the object at position `j`.
    pub fn set_object_display(&mut self, j: usize, desc: String)
        requires
            j < old(self)@.objects.len(),
        ensures
            final(self)@ == (RoomV {
                objects: old(self)@.objects.update(
                    j as int,
                    (
                        old(self)@.objects[j as int].0,
                        ObjectV { display: desc@, ..old(self)@.objects[j as int].1 },
                    ),
                ),
                ..old(self)@
            }),
            room_wf(old(self)@) ==> room_wf(final(self)@),
    {
        proof {
            assert(old(self)@.objects.len() == old(self).objects.entries@.len());
        }
        self.objects.entries[j].1.display = desc;
        proof {
            assert(self@.objects =~= old(self)@.objects.update(
                j as int,
                (
                    old(self)@.objects[j as int].0,
                    ObjectV { display: desc@, ..old(self)@.objects[j as int].1 },
                ),
            ));
            assert(self@ =~= (RoomV { objects: self@.objects, ..old(self)@ }));
            if room_wf(old(self)@) {
                let t = self@.objects;
                assert(forall|m: int| 0 <= m < t.len() ==> t[m].0 == old(self)@.objects[m].0);
                assert forall|m: int| 0 <= m < t.len() implies object_wf(#[trigger] t[m].1) by {
                    if m != j {
                        assert(t[m].1 == old(self)@.objects[m].1);
                    }
                }
            }
        }
    }

    /// Bind `act_name` to `act` in the action table of the object at `j`.
    pub fn insert_object_action(&mut self, j: usize, act_name: String, act: GameAction)
        requires
            j < old(self)@.objects.len(),
        ensures
            final(self)@ == (RoomV {
                objects: old(self)@.objects.update(
                    j as int,
                    (
                        old(self)@.objects[j as int].0,
                        ObjectV {
                            actions: kv_insert(
                                old(self)@.objects[j as int].1.actions,
                                act_name@,
                                act@,
                            ),
                            ..old(self)@.objects[j as int].1
                        },
                    ),
                ),
                ..old(self)@
            }),
            room_wf(old(self)@) ==> room_wf(final(self)@),
    {
        proof {
            assert(old(self)@.objects.len() == old(self).objects.entries@.len());
            if room_wf(old(self)@) {
                crate::kvmap::lemma_kv_insert_distinct(
                    old(self)@.objects[j as int].1.actions,
                    act_name@,
                    act@,
                );
            }
        }
        self.objects.entries[j].1.actions.insert(act_name, act);
        proof {
            assert(self@.objects =~= old(self)@.objects.update(
                j as int,
                (
                    old(self)@.objects[j as int].0,
                    ObjectV {
                        actions: kv_insert(
                            old(self)@.objects[j as int].1.actions,
                            act_name@,
                            act@,
                        ),
                        ..old(self)@.objects[j as int].1
                    },
                ),
            ));
            assert(self@ =~= (RoomV { objects: self@.objects, ..old(self)@ }));
            if room_wf(old(self)@) {
                let t = self@.objects;
                assert(forall|m: int| 0 <= m < t.len() ==> t[m].0 == old(self)@.objects[m].0);
                assert forall|m: int| 0 <= m < t.len() implies object_wf(#[trigger] t[m].1) by {
                    if m != j {
                        assert(t[m].1 == old(self)@.objects[m].1);
                    }
                }
            }
        }
    }
}

/// Replacing the room at position `i` by value is the same as `kv_insert`
/// under that room's own key, and preserves a well-formed world when the new
/// room is well-formed.
pub proof fn lemma_world_update(rooms: Seq<(Seq<char>, RoomV)>, i: int, rv: RoomV)
    requires
        kv_distinct(rooms),
        0 <= i < rooms.len(),
    ensures
        kv_insert(rooms, rooms[i].0, rv) == rooms.update(i, (rooms[i].0, rv)),
        world_wf(rooms) && room_wf(rv) ==> world_wf(kv_insert(rooms, rooms[i].0, rv)),
{
    crate::kvmap::lemma_kv_insert_present(rooms, rooms[i].0, rv, i);
    if world_wf(rooms) && room_wf(rv) {
        let t = rooms.update(i, (rooms[i].0, rv));
        assert(forall|m: int| 0 <= m < t.len() ==> t[m].0 == rooms[m].0);
        assert forall|m: int| 0 <= m < t.len() implies room_wf(#[trigger] t[m].1) by {
            if m != i {
                assert(t[m].1 == rooms[m].1);
            }
        }
    }
}

/// Every value in `kv_insert(s, k, v)` is `v` or comes from `s`.
pub proof fn lemma_kv_insert_value_from<T>(s: Seq<(Seq<char>, T)>, k: Seq<char>, v: T, i: int)
    requires
        0 <= i < kv_insert(s, k, v).len(),
    ensures
        kv_insert(s, k, v)[i].1 == v || exists|j: int|
            0 <= j < s.len() && #[trigger] s[j].1 == kv_insert(s, k, v)[i].1,
    decreases s.len(),
{
    if s.len() == 0 {
    } else if s[0].0 == k {
        if i > 0 {
            assert(kv_insert(s, k, v)[i] == s.drop_first()[i - 1]);
            assert(s[i].1 == kv_insert(s, k, v)[i].1);
        }
    } else {
        if i == 0 {
            assert(s[0].1 == kv_insert(s, k, v)[0].1);
        } else {
            lemma_kv_insert_value_from(s.drop_first(), k, v, i - 1);
            assert(kv_insert(s, k, v)[i] == kv_insert(s.drop_first(), k, v)[i - 1]);
            if kv_insert(s.drop_first(), k, v)[i - 1].1 != v {
                let j = choose|j: int| 0 <= j < s.drop_first().len() && #[trigger] s.drop_first()[
                    j].1 == kv_insert(s.drop_first(), k, v)[i - 1].1;
                assert(s[j + 1].1 == kv_insert(s, k, v)[i].1);
            }
        }
    }
}

/// Server-side state of one connected (or restored) player.
pub struct ClientState {
    /// Connection identity, if this session is live; never persisted.
    pub addr: Option<u64>,
    pub is_edit_mode: bool,
    pub current_room: String,
    pub name: String,
    /// Private key/value scratchpad read and written by scripted actions.
    pub client_script_states: KvMap<String>,
}

/// Spec-level value of a [`ClientState`].
#[verifier::ext_equal]
pub struct SessionV {
    pub addr: Option<u64>,
    pub is_edit_mode: bool,
    pub current_room: Seq<char>,
    pub name: Seq<char>,
    pub client_script_states: Seq<(Seq<char>, Seq<char>)>,
}

impl View for ClientState {
    type V = SessionV;

    open spec fn view(&self) -> SessionV {
        SessionV {
            addr: self.addr,
            is_edit_mode: self.is_edit_mode,
            current_room: self.current_room@,
            name: self.name@,
            client_script_states: self.client_script_states@,
        }
    }
}

pub open spec fn session_wf(s: SessionV) -> bool {
    kv_distinct(s.client_script_states)
}

impl ClientState {
    /// A fresh session: not in edit mode, placed in the default room `nexus`,
    /// with an empty name and an empty script scratchpad.
    pub fn new(addr: Option<u64>) -> (r: Self)
        ensures
            r@.addr == addr,
            !r@.is_edit_mode,
            r@.current_room == "nexus"@,
            r@.name == Seq::<char>::empty(),
            r@.client_script_states == Seq::<(Seq<char>, Seq<char>)>::empty(),
            session_wf(r@),
    {
        ClientState {
            addr,
            is_edit_mode: false,
            current_room: String::from_str("nexus"),
            name: String::new(),
            client_script_states: KvMap::new(),
        }
    }

    /// Script capability: look a key up in this session's scratchpad.
    pub fn get_state(&self, k: &str) -> (r: Option<&String>)
        ensures
            match r {
                Some(v) => kv_get(self@.client_script_states, k@) == Some(v@),
                None => kv_get(self@.client_script_states, k@) is None,
            },
    {
        self.client_script_states.get(k)
    }

    /// Script capability: bind a key in this session's scratchpad. Only the
    /// scratchpad changes; no other session is touched.
    pub fn set_state(&mut self, k: String, v: String)
        ensures
            final(self)@ == (SessionV {
                client_script_states: kv_insert(old(self)@.client_script_states, k@, v@),
                ..old(self)@
            }),
            session_wf(old(self)@) ==> session_wf(final(self)@),
    {
        self.client_script_states.insert(k, v);
    }
}

/// The concurrent core's shared state: the room registry and the ids of the
/// live sessions.
pub struct ServerState {
    pub client_states: Vec<u64>,
    pub rooms: KvMap<Room>,
}

/// Spec-level value of a [`ServerState`].
#[verifier::ext_equal]
pub struct ServerV {
    pub client_states: Seq<u64>,
    pub rooms: Seq<(Seq<char>, RoomV)>,
}

impl View for ServerState {
    type V = ServerV;

    open spec fn view(&self) -> ServerV {
        ServerV { client_states: self.client_states@, rooms: self.rooms@ }
    }
}

pub open spec fn world_wf(w: Seq<(Seq<char>, RoomV)>) -> bool {
    kv_distinct(w) && forall|i: int| 0 <= i < w.len() ==> room_wf(#[trigger] w[i].1)
}

/// The one hard-coded piece of world content: the object `sign` in the
/// default room, whose `read` action greets a new player.
pub open spec fn seed_sign_v() -> ObjectV {
    ObjectV {
        display: "Just a sign, I wonder what it says{@Cread}."@,
        name: "sign"@,
        actions: seq![
            (
                "read"@,
                ActionV::PrintText("Good job, you learned how to interact with objects!"@),
            ),
        ],
    }
}

/// The default room `nexus`, holding only the seed sign.
pub open spec fn seed_room_v() -> RoomV {
    RoomV {
        addr: "nexus"@,
        display: "The room is quiet... Except for a [@Csign]."@,
        clients: Seq::<u64>::empty(),
        links: Seq::<Seq<char>>::empty(),
        objects: seq![("sign"@, seed_sign_v())],
    }
}

/// The world a fresh store is seeded with: exactly the room `nexus`.
pub open spec fn seed_world() -> Seq<(Seq<char>, RoomV)> {
    seq![("nexus"@, seed_room_v())]
}

impl ServerState {
    pub open spec fn wf(&self) -> bool {
        world_wf(self@.rooms)
    }

    /// A fresh store: no live sessions, and the seed world.
    pub fn new() -> (r: Self)
        ensures
            r@.client_states == Seq::<u64>::empty(),
            r@.rooms == seed_world(),
            r.wf(),
    {
        let mut sign = GameObject::new(String::from_str("sign"));
        sign.display = String::from_str("Just a sign, I wonder what it says{@Cread}.");
        sign.actions.insert(
            String::from_str("read"),
            GameAction::PrintText(
                String::from_str("Good job, you learned how to interact with objects!"),
            ),
        );
        proof {
            assert(sign@.actions =~= seed_sign_v().actions);
            assert(sign@ =~~= seed_sign_v());
        }
        let mut room = Room::new(String::from_str("nexus"));
        room.display = String::from_str("The room is quiet... Except for a [@Csign].");
        room.insert_object(String::from_str("sign"), sign);
        proof {
            assert(room@.objects =~~= seed_room_v().objects);
            assert(room@ =~~= seed_room_v());
        }
        let mut rooms: KvMap<Room> = KvMap::new();
        rooms.insert(String::from_str("nexus"), room);
        let r = ServerState { client_states: Vec::new(), rooms };
        proof {
            assert(r@.rooms =~~= seed_world());
            assert(r.wf()) by {
                assert(forall|i: int| 0 <= i < r@.rooms.len() ==> r@.rooms[i] == ("nexus"@,
                seed_room_v()));
                assert(room_wf(seed_room_v()));
            }
        }
        r
    }

    /// Non-blocking lookup of a room by id; `None` is a normal outcome.
    pub fn get_room<'a>(&'a self, addr: &String) -> (r: Option<&'a Room>)
        ensures
            match r {
                Some(room) => kv_get(self@.rooms, addr@) == Some(room@),
                None => kv_get(self@.rooms, addr@) is None,
            },
    {
        self.rooms.get(addr.as_str())
    }

    /// Create an empty room under `addr` unless that id is already taken; the
    /// existing room is then left as it is.
    pub fn new_room(&mut self, addr: &String)
        ensures
            final(self)@.client_states == old(self)@.client_states,
            final(self)@.rooms == if kv_get(old(self)@.rooms, addr@) is Some {
                old(self)@.rooms
            } else {
                kv_insert(old(self)@.rooms, addr@, empty_room_v(addr@))
            },
            kv_get(final(self)@.rooms, addr@) is Some,
            old(self).wf() ==> final(self).wf(),
    {
        if self.rooms.contains_key(addr.as_str()) {
            return ;
        }
        let room = Room::new(addr.clone());
        proof {
            crate::kvmap::lemma_kv_insert_get(old(self)@.rooms, addr@, room@, addr@);
            if old(self).wf() {
                crate::kvmap::lemma_kv_insert_distinct(old(self)@.rooms, addr@, room@);
                let t = kv_insert(old(self)@.rooms, addr@, room@);
                assert forall|i: int| 0 <= i < t.len() implies room_wf(#[trigger] t[i].1) by {
                    lemma_kv_insert_value_from(old(self)@.rooms, addr@, room@, i);
                }
            }
        }
        self.rooms.insert(addr.clone(), room);
    }

    /// Add a session id to the live set at connect time.
    pub fn register(&mut self, id: u64)
        ensures
            final(self)@ == (ServerV {
                client_states: old(self)@.client_states.push(id),
                ..old(self)@
            }),
    {
        self.client_states.push(id);
    }

    /// Remove a session id from the live set; safe to call twice.
    pub fn unregister(&mut self, id: u64)
        ensures
            final(self)@ == (ServerV {
                client_states: old(self)@.client_states.filter(|x: u64| x != id),
                ..old(self)@
            }),
            !final(self)@.client_states.contains(id),
    {
        let n = self.client_states.len();
        let mut kept: Vec<u64> = Vec::new();
        let mut i: usize = 0;
        while i < n
            invariant
                i <= n,
                n == self.client_states@.len(),
                kept@ == self.client_states@.take(i as int).filter(|x: u64| x != id),
            decreases n - i,
        {
            let ghost pre = kept@;
            let v = self.client_states[i];
            if v != id {
                kept.push(v);
            }
            proof {
                let f = |x: u64| x != id;
                let t = self.client_states@.take(i as int);
                let t1 = self.client_states@.take(i + 1 as int);
                assert(t1 =~= t + seq![v]);
                Seq::<u64>::filter_distributes_over_add(t, seq![v], f);
                assert(seq![v].drop_last() =~= Seq::<u64>::empty());
                reveal_with_fuel(Seq::filter, 2);
                if v != id {
                    assert(seq![v].filter(f) =~= seq![v]);
                    assert(kept@ =~= t1.filter(f));
                } else {
                    assert(seq![v].filter(f) =~= Seq::<u64>::empty());
                    assert(kept@ =~= t1.filter(f));
                }
            }
            i += 1;
        }
        proof {
            assert(self.client_states@.take(n as int) =~= self.client_states@);
            let res = self.client_states@.filter(|x: u64| x != id);
            if res.contains(id) {
                let j = choose|j: int| 0 <= j < res.len() && res[j] == id;
                Seq::<u64>::lemma_filter_pred(self.client_states@, |x: u64| x != id, j);
            }
        }
        self.client_states = kept;
    }
}

} // verus!
