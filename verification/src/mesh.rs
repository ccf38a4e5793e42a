//! The mesh chat relay: rooms of users who exchange signalling messages
//! directly, the server only passing each message on to the user it names.
//! Users are held by handles (integers) that the server maps to their
//! connections.
use vstd::prelude::*;

use crate::ids::{is_lower_hex, new_short_id};
use crate::table::{
    assoc_insert, assoc_keys, assoc_remove, has_key, key_index, lemma_insert, lemma_insert_insert,
    lemma_insert_same, lemma_key_index, lemma_remove, lemma_remove_after_insert, lookup,
    unique_keys, Table,
};

verus! {

/// The users of one room as the contracts see them: user id and handle, in
/// the order they joined.
pub type Users = Seq<(Seq<char>, u64)>;

/// The whole state as the contracts see it: each room id with its users.
pub type Rooms = Seq<(Seq<char>, Seq<(Seq<char>, u64)>)>;

/// The users of room `id`, or none when there is no such room.
pub open spec fn room_users(s: Rooms, id: Seq<char>) -> Users {
    match lookup(s, id) {
        Some(u) => u,
        None => Seq::empty(),
    }
}

/// The handles of all users in `users`, in order.
pub open spec fn all_handles(users: Users) -> Seq<u64> {
    users.map_values(|e: (Seq<char>, u64)| e.1)
}

/// Whether a user entry belongs to someone other than `uid`.
pub open spec fn other_than(uid: Seq<char>) -> spec_fn((Seq<char>, u64)) -> bool {
    |e: (Seq<char>, u64)| e.0 != uid
}

/// The handles of the users in `users` other than `uid`, in order.
pub open spec fn handles_except(users: Users, uid: Seq<char>) -> Seq<u64> {
    all_handles(users.filter(other_than(uid)))
}

/// The state after `uid` joins room `id` with connection `handle`: the room
/// is created when missing, and the user is added to it (replacing an earlier
/// user of the same id).
pub open spec fn joined(s: Rooms, id: Seq<char>, uid: Seq<char>, handle: u64) -> Rooms {
    assoc_insert(s, id, assoc_insert(room_users(s, id), uid, handle))
}

/// The state after `uid` leaves room `id`: the user is removed, and the room
/// with it when no user is left.
pub open spec fn left(s: Rooms, id: Seq<char>, uid: Seq<char>) -> Rooms {
    if !has_key(s, id) {
        s
    } else if assoc_remove(room_users(s, id), uid).len() == 0 {
        assoc_remove(s, id)
    } else {
        assoc_insert(s, id, assoc_remove(room_users(s, id), uid))
    }
}

/// The validity of a state: room ids are unique, and user ids within each room.
pub open spec fn rooms_wf(s: Rooms) -> bool {
    &&& unique_keys(s)
    &&& forall|i: int| 0 <= i < s.len() ==> unique_keys(#[trigger] s[i].1)
}

/// What `serde_json` reads from a text message: `None` when the text is not
/// JSON; otherwise the `"to"` member when the message is an object whose
/// `"to"` is a string.
pub uninterp spec fn json_target(text: Seq<char>) -> Option<Option<Seq<char>>>;

/// The message text re-serialised by `serde_json` with its `"from"` member set
/// to `uid`; `None` when the text is not a JSON object or `null`.
pub uninterp spec fn json_stamped(text: Seq<char>, uid: Seq<char>) -> Option<Seq<char>>;

/// `serde_json::from_str::<Value>` on the message, then `Value::get("to")`:
/// whether the text parses, and the `"to"` member when it is a string.  The
/// result depends on the text alone; it is named, not described.
#[verifier::external_body]
fn read_json_target(text: &str) -> (r: Option<Option<String>>)
    ensures
        parsed_view(r) == json_target(text@),
{
    match serde_json::from_str::<serde_json::Value>(text) {
        Err(_) => None,
        Ok(v) => match v.get("to") {
            Some(serde_json::Value::String(t)) => Some(Some(t.clone())),
            _ => Some(None),
        },
    }
}

/// `serde_json::from_str::<Value>` on the message, then `v["from"] = uid` and
/// `to_string`.  Indexing a value that is neither an object nor `null` that
/// way panics in `serde_json`, so those values (and unparsable text) give
/// `None` here.  The text produced is named, not described.
#[verifier::external_body]
fn stamp_json_sender(text: &str, uid: &str) -> (r: Option<String>)
    ensures
        stamped_view(r) == json_stamped(text@, uid@),
{
    match serde_json::from_str::<serde_json::Value>(text) {
        Ok(mut v) => match v {
            serde_json::Value::Object(_) | serde_json::Value::Null => {
                v["from"] = serde_json::Value::String(uid.to_owned());
                Some(v.to_string())
            },
            _ => None,
        },
        Err(_) => None,
    }
}

/// What the server does with a text message from a user.
pub enum RelayAction {
    /// Nothing: the text is not JSON, names no target, or names a user who is
    /// not in the room.
    Ignore,
    /// Send `text` (the message stamped with its sender) to the connection
    /// `handle`.
    Deliver { handle: u64, text: String },
    /// The message is JSON but neither an object nor `null`; its sender's
    /// session ends.
    Abort,
}

/// What a user who joins is told, and whom the server tells about it.
pub struct JoinPlan {
    /// The users who were in the room before, in room order.
    pub existing: Vec<String>,
    /// The connections of the other users now in the room.
    pub notify: Vec<u64>,
}

/// Whom the server tells that a user left, and whether the room went away.
pub struct LeavePlan {
    /// The connections of the users still in the room.
    pub notify: Vec<u64>,
    /// Whether the room was empty afterwards and was removed.
    pub room_removed: bool,
}

/// What the server does with a message, as the contracts see it.
pub enum Routing {
    Ignore,
    Deliver { handle: u64, text: Seq<char> },
    Abort,
}

/// Whether action `a` is the routing `r`.
pub open spec fn acts_as(a: RelayAction, r: Routing) -> bool {
    match r {
        Routing::Ignore => a is Ignore,
        Routing::Abort => a is Abort,
        Routing::Deliver { handle, text } => a matches RelayAction::Deliver { handle: h, text: t }
            && h == handle && t@ == text,
    }
}

/// How a message is routed in state `s`, room `id`: `parsed` is `None` for
/// text that is not JSON, else the `"to"` member if it is a string; `stamped`
/// is the message with its sender stamped in, `None` when that fails.  Text
/// that is not JSON is ignored; JSON that cannot be stamped ends the sender's
/// session; otherwise the stamped text goes to the named user if that user is
/// in the room.
pub open spec fn routing(
    s: Rooms,
    id: Seq<char>,
    parsed: Option<Option<Seq<char>>>,
    stamped: Option<Seq<char>>,
) -> Routing {
    match parsed {
        None => Routing::Ignore,
        Some(to) => match stamped {
            None => Routing::Abort,
            Some(msg) => match to {
                None => Routing::Ignore,
                Some(t) => match lookup(room_users(s, id), t) {
                    None => Routing::Ignore,
                    Some(h) => Routing::Deliver { handle: h, text: msg },
                },
            },
        },
    }
}

/// The texts of a parse result.
pub open spec fn parsed_view(p: Option<Option<String>>) -> Option<Option<Seq<char>>> {
    match p {
        None => None,
        Some(None) => Some(None),
        Some(Some(t)) => Some(Some(t@)),
    }
}

/// The text of a stamping result.
pub open spec fn stamped_view(m: Option<String>) -> Option<Seq<char>> {
    match m {
        None => None,
        Some(t) => Some(t@),
    }
}

/// One chat room: the users connected to it.
pub struct MeshRoom {
    users: Table<u64>,
}

impl MeshRoom {
    /// The users, in the order they joined.
    pub closed spec fn users_view(&self) -> Users {
        self.users@
    }

    /// An empty room.
    pub fn new() -> (r: MeshRoom)
        ensures
            r.users_view() == Seq::<(Seq<char>, u64)>::empty(),
            unique_keys(r.users_view()),
    {
        MeshRoom { users: Table::new() }
    }

    fn handles_except_exec(&self, uid: &str) -> (hs: Vec<u64>)
        ensures
            hs@ == handles_except(self.users_view(), uid@),
    {
        let ghost s = self.users_view();
        let ghost p = other_than(uid@);
        let me = uid.to_owned();
        let mut hs: Vec<u64> = Vec::new();
        let n = self.users.len();
        let mut i: usize = 0;
        assert(s.take(0).filter(p) =~= Seq::<(Seq<char>, u64)>::empty());
        while i < n
            invariant
                n == s.len(),
                i <= n,
                me@ == uid@,
                s == self.users@,
                p == other_than(uid@),
                hs@ == all_handles(s.take(i as int).filter(p)),
            decreases n - i,
        {
            proof {
                assert(s.take(i as int + 1) =~= s.take(i as int).push(s[i as int]));
                s.take(i as int).lemma_filter_push(s[i as int], p);
            }
            if *self.users.key_at(i) != me {
                let ghost before = hs@;
                hs.push(*self.users.value_at(i));
                assert(hs@ =~= all_handles(s.take(i as int + 1).filter(p)));
            }
            i += 1;
        }
        assert(s.take(n as int) =~= s);
        hs
    }

    fn all_handles_exec(&self) -> (hs: Vec<u64>)
        ensures
            hs@ == all_handles(self.users_view()),
    {
        let mut hs: Vec<u64> = Vec::new();
        let n = self.users.len();
        let mut i: usize = 0;
        while i < n
            invariant
                n == self.users@.len(),
                i <= n,
                hs@ == all_handles(self.users@.take(i as int)),
            decreases n - i,
        {
            hs.push(*self.users.value_at(i));
            assert(self.users@.take(i as int + 1) =~= self.users@.take(i as int).push(
                self.users@[i as int],
            ));
            assert(hs@ =~= all_handles(self.users@.take(i as int + 1)));
            i += 1;
        }
        assert(self.users@.take(n as int) =~= self.users@);
        hs
    }
}

/// The contracts' view of a table of rooms.
pub open spec fn rooms_of(a: Seq<(Seq<char>, MeshRoom)>) -> Rooms {
    a.map_values(|e: (Seq<char>, MeshRoom)| (e.0, e.1.users_view()))
}

/// Every room of the relay, keyed by room id.
pub struct MeshState {
    rooms: Table<MeshRoom>,
}

impl View for MeshState {
    type V = Rooms;

    closed spec fn view(&self) -> Rooms {
        rooms_of(self.rooms@)
    }
}

impl MeshState {
    proof fn lemma_view(&self)
        ensures
            self@.len() == self.rooms@.len(),
            forall|i: int|
                0 <= i < self.rooms@.len() ==> #[trigger] self@[i] == (
                self.rooms@[i].0,
                self.rooms@[i].1.users_view(),
            ),
            unique_keys(self.rooms@) == unique_keys(self@),
    {
        let a = self.rooms@;
        let b = self@;
        assert(unique_keys(a) ==> unique_keys(b)) by {
            if unique_keys(a) {
                assert forall|i: int, j: int|
                    #![trigger b[i], b[j]]
                    0 <= i < b.len() && 0 <= j < b.len() && i != j implies b[i].0 != b[j].0 by {
                    assert(a[i].0 == b[i].0 && a[j].0 == b[j].0);
                }
            }
        }
        assert(unique_keys(b) ==> unique_keys(a)) by {
            if unique_keys(b) {
                assert forall|i: int, j: int|
                    #![trigger a[i], a[j]]
                    0 <= i < a.len() && 0 <= j < a.len() && i != j implies a[i].0 != a[j].0 by {
                    assert(a[i].0 == b[i].0 && a[j].0 == b[j].0);
                }
            }
        }
    }

    /// The state's invariant.
    pub open spec fn wf(&self) -> bool {
        rooms_wf(self@)
    }

    /// A relay without rooms.
    pub fn new() -> (s: MeshState)
        ensures
            s@ == Seq::<(Seq<char>, Seq<(Seq<char>, u64)>)>::empty(),
            s.wf(),
    {
        let s = MeshState { rooms: Table::new() };
        assert(s@ =~= Seq::<(Seq<char>, Seq<(Seq<char>, u64)>)>::empty());
        s
    }

    /// The room `id`, created empty when missing; the state afterwards is the
    /// old one with `id` bound to the room as the caller leaves it.
    fn room_mut(&mut self, id: &str) -> (r: &mut MeshRoom)
        requires
            old(self).wf(),
        ensures
            r.users_view() == room_users(old(self)@, id@),
            final(self)@ == assoc_insert(old(self)@, id@, final(r).users_view()),
    {
        proof {
            old(self).lemma_view();
        }
        let i = match self.rooms.find(id) {
            Some(i) => {
                proof {
                    lemma_key_index(old(self).rooms@, i as int);
                    lemma_key_index(old(self)@, i as int);
                }
                i
            },
            None => {
                assert(!has_key(old(self)@, id@)) by {
                    if has_key(old(self)@, id@) {
                        let a = key_index(old(self)@, id@);
                        assert(old(self).rooms@[a].0 == id@);
                    }
                }
                self.rooms.insert(id, MeshRoom::new());
                self.rooms.len() - 1
            },
        };
        let ghost mid = self.rooms@;
        proof {
            assert forall|v: MeshRoom|
                #[trigger] rooms_of(mid.update(i as int, (mid[i as int].0, v))) == assoc_insert(
                    old(self)@,
                    id@,
                    v.users_view(),
                ) by {
                assert(rooms_of(mid.update(i as int, (mid[i as int].0, v))) =~= assoc_insert(
                    old(self)@,
                    id@,
                    v.users_view(),
                ));
            }
        }
        self.rooms.value_at_mut(i)
    }

    /// Opens an empty room under id `id`; a room that had that id is replaced
    /// by the empty one.
    pub fn open_room(&mut self, id: &str)
        requires
            old(self).wf(),
        ensures
            final(self)@ == assoc_insert(old(self)@, id@, Seq::<(Seq<char>, u64)>::empty()),
            final(self).wf(),
    {
        proof {
            old(self).lemma_view();
            lemma_insert(old(self)@, id@, Seq::<(Seq<char>, u64)>::empty());
        }
        let ghost before = self.rooms@;
        self.rooms.insert(id, MeshRoom::new());
        proof {
            if has_key(before, id@) {
                let a = key_index(before, id@);
                lemma_key_index(before, a);
                lemma_key_index(old(self)@, a);
            } else {
                assert(!has_key(old(self)@, id@)) by {
                    if has_key(old(self)@, id@) {
                        let a = key_index(old(self)@, id@);
                        assert(before[a].0 == id@);
                    }
                }
            }
            assert(self@ =~= assoc_insert(old(self)@, id@, Seq::<(Seq<char>, u64)>::empty()));
            self.lemma_view();
            let s = self@;
            assert forall|i: int| 0 <= i < s.len() implies unique_keys(#[trigger] s[i].1) by {
                if s[i].0 != id@ {
                    lemma_key_index(s, i);
                    lemma_key_index(old(self)@, key_index(old(self)@, s[i].0));
                } else {
                    lemma_key_index(s, i);
                }
            }
        }
    }

    /// A new room under a fresh random short id, which is returned.  A room
    /// that happened to have that id is replaced by the empty one.
    pub fn create_room(&mut self) -> (id: String)
        requires
            old(self).wf(),
        ensures
            id@.len() == 8,
            forall|i: int| 0 <= i < 8 ==> is_lower_hex(#[trigger] id@[i]),
            final(self)@ == assoc_insert(old(self)@, id@, Seq::<(Seq<char>, u64)>::empty()),
            final(self).wf(),
    {
        let id = new_short_id();
        self.open_room(&id);
        id
    }

    /// User `uid` joins room `id` over connection `handle` (the room is created
    /// if needed).  The plan lists the users who were there before and the
    /// connections of everyone else now in the room.
    pub fn join(&mut self, id: &str, uid: &str, handle: u64) -> (plan: JoinPlan)
        requires
            old(self).wf(),
        ensures
            plan.existing@.map_values(|s: String| s@) == assoc_keys(room_users(old(self)@, id@)),
            plan.notify@ == handles_except(
                assoc_insert(room_users(old(self)@, id@), uid@, handle),
                uid@,
            ),
            final(self)@ == joined(old(self)@, id@, uid@, handle),
            final(self).wf(),
    {
        proof {
            lemma_rooms_wf_lookup(old(self)@, id@);
            lemma_insert(room_users(old(self)@, id@), uid@, handle);
            lemma_joined_wf(old(self)@, id@, uid@, handle);
        }
        let room = self.room_mut(id);
        let existing = room.users.keys();
        room.users.insert(uid, handle);
        let notify = room.handles_except_exec(uid);
        JoinPlan { existing, notify }
    }

    /// What to do with a message to user `to` in room `id`, given what was read
    /// of it: `parsed` is whether the text was JSON and, if so, its `"to"`
    /// member when that is a string; `stamped` is the message text stamped
    /// with its sender, or `None` when the JSON could not take a `"from"`
    /// member.
    pub fn route(&self, id: &str, parsed: Option<Option<String>>, stamped: Option<String>) -> (a:
        RelayAction)
        requires
            self.wf(),
        ensures
            acts_as(a, routing(self@, id@, parsed_view(parsed), stamped_view(stamped))),
    {
        let to = match parsed {
            None => {
                return RelayAction::Ignore;
            },
            Some(to) => to,
        };
        let msg = match stamped {
            None => {
                return RelayAction::Abort;
            },
            Some(m) => m,
        };
        let target = match to {
            None => {
                return RelayAction::Ignore;
            },
            Some(t) => t,
        };
        proof {
            self.lemma_view();
        }
        match self.rooms.find(id) {
            None => {
                assert(!has_key(self@, id@)) by {
                    if has_key(self@, id@) {
                        let k = key_index(self@, id@);
                        assert(self.rooms@[k].0 == id@);
                    }
                }
                RelayAction::Ignore
            },
            Some(i) => {
                proof {
                    lemma_key_index(self@, i as int);
                }
                let room = self.rooms.value_at(i);
                proof {
                    assert(unique_keys(self@[i as int].1));
                }
                match room.users.get(target.as_str()) {
                    Some(h) => RelayAction::Deliver { handle: *h, text: msg },
                    None => RelayAction::Ignore,
                }
            },
        }
    }

    /// What to do with text message `text` sent by `from` in room `id`: deliver
    /// it, stamped with its sender, to the user named in its `"to"` member when
    /// that user is in the room.
    pub fn relay(&self, id: &str, from: &str, text: &str) -> (a: RelayAction)
        requires
            self.wf(),
        ensures
            acts_as(a, routing(self@, id@, json_target(text@), json_stamped(text@, from@))),
    {
        let parsed = read_json_target(text);
        let stamped = stamp_json_sender(text, from);
        self.route(id, parsed, stamped)
    }

    /// User `uid` leaves room `id`.  The plan lists the connections of the users
    /// still in the room; the room is removed once nobody is left.
    pub fn leave(&mut self, id: &str, uid: &str) -> (plan: LeavePlan)
        requires
            old(self).wf(),
        ensures
            final(self)@ == left(old(self)@, id@, uid@),
            plan.notify@ == all_handles(assoc_remove(room_users(old(self)@, id@), uid@)),
            plan.room_removed == (has_key(old(self)@, id@) && assoc_remove(
                room_users(old(self)@, id@),
                uid@,
            ).len() == 0),
            final(self).wf(),
    {
        proof {
            old(self).lemma_view();
            lemma_rooms_wf_lookup(old(self)@, id@);
            lemma_remove(room_users(old(self)@, id@), uid@);
            lemma_left_wf(old(self)@, id@, uid@);
        }
        if !self.rooms.contains_key(id) {
            proof {
                lemma_has_key_view(old(self).rooms@, id@);
            }
            return LeavePlan { notify: Vec::new(), room_removed: false };
        }
        proof {
            lemma_has_key_view(old(self).rooms@, id@);
        }
        let ghost u1 = assoc_remove(room_users(old(self)@, id@), uid@);
        let room = self.room_mut(id);
        room.users.remove(uid);
        let notify = room.all_handles_exec();
        let empty = room.users.is_empty();
        assert(room.users_view() == u1);
        assert(empty == (u1.len() == 0));
        assert(self@ == assoc_insert(old(self)@, id@, u1));
        if empty {
            let ghost mid = self.rooms@;
            proof {
                self.lemma_view();
                lemma_insert(old(self)@, id@, u1);
            }
            self.rooms.remove(id);
            proof {
                lemma_assoc_remove_view(mid, rooms_of(mid), id@);
                lemma_remove_after_insert(old(self)@, id@, u1);
            }
        }
        LeavePlan { notify, room_removed: empty }
    }
}

proof fn lemma_has_key_view(a: Seq<(Seq<char>, MeshRoom)>, id: Seq<char>)
    ensures
        has_key(rooms_of(a), id) == has_key(a, id),
{
    let v = rooms_of(a);
    if has_key(a, id) {
        let k = key_index(a, id);
        assert(v[k].0 == id);
    }
    if has_key(v, id) {
        let k = key_index(v, id);
        assert(a[k].0 == id);
    }
}

/// The users that `lookup` finds for a room are themselves without repeats.
pub proof fn lemma_rooms_wf_lookup(s: Rooms, id: Seq<char>)
    requires
        rooms_wf(s),
    ensures
        unique_keys(room_users(s, id)),
{
    if has_key(s, id) {
        let k = key_index(s, id);
        assert(unique_keys(s[k].1));
    }
}

proof fn lemma_joined_wf(s: Rooms, id: Seq<char>, uid: Seq<char>, handle: u64)
    requires
        rooms_wf(s),
    ensures
        rooms_wf(joined(s, id, uid, handle)),
{
    lemma_rooms_wf_lookup(s, id);
    let u = assoc_insert(room_users(s, id), uid, handle);
    lemma_insert(room_users(s, id), uid, handle);
    lemma_insert(s, id, u);
    let t = joined(s, id, uid, handle);
    assert forall|i: int| 0 <= i < t.len() implies unique_keys(#[trigger] t[i].1) by {
        lemma_key_index(t, i);
        if t[i].0 != id {
            let k = key_index(s, t[i].0);
            lemma_key_index(s, k);
        }
    }
}

proof fn lemma_left_wf(s: Rooms, id: Seq<char>, uid: Seq<char>)
    requires
        rooms_wf(s),
    ensures
        rooms_wf(left(s, id, uid)),
{
    lemma_rooms_wf_lookup(s, id);
    let u = assoc_remove(room_users(s, id), uid);
    lemma_remove(room_users(s, id), uid);
    lemma_remove(s, id);
    lemma_insert(s, id, u);
    let t = left(s, id, uid);
    assert forall|i: int| 0 <= i < t.len() implies unique_keys(#[trigger] t[i].1) by {
        lemma_key_index(t, i);
        if t[i].0 != id {
            let k = key_index(s, t[i].0);
            lemma_key_index(s, k);
        }
    }
}

proof fn lemma_assoc_remove_view(a: Seq<(Seq<char>, MeshRoom)>, v: Rooms, id: Seq<char>)
    requires
        v == rooms_of(a),
        unique_keys(a),
    ensures
        rooms_of(assoc_remove(a, id)) == assoc_remove(v, id),
{
    if has_key(a, id) {
        let k = key_index(a, id);
        lemma_key_index(a, k);
        assert(v[k].0 == id);
        assert(unique_keys(v)) by {
            assert forall|i: int, j: int|
                #![trigger v[i], v[j]]
                0 <= i < v.len() && 0 <= j < v.len() && i != j implies v[i].0 != v[j].0 by {
                assert(a[i].0 == v[i].0 && a[j].0 == v[j].0);
            }
        }
        lemma_key_index(v, k);
        assert(rooms_of(assoc_remove(a, id)) =~= assoc_remove(v, id));
    } else {
        assert(!has_key(v, id)) by {
            if has_key(v, id) {
                let k = key_index(v, id);
                assert(a[k].0 == id);
            }
        }
    }
}

/// A user who joins a room and then leaves it again leaves the relay as it
/// was, provided the user was not in the room before and the room was not an
/// empty one (an empty room goes away when its only visitor leaves).
pub proof fn law_join_then_leave_restores(s: Rooms, id: Seq<char>, uid: Seq<char>, handle: u64)
    requires
        rooms_wf(s),
        !has_key(room_users(s, id), uid),
        has_key(s, id) ==> room_users(s, id).len() > 0,
    ensures
        left(joined(s, id, uid, handle), id, uid) == s,
{
    let u0 = room_users(s, id);
    lemma_rooms_wf_lookup(s, id);
    let u1 = assoc_insert(u0, uid, handle);
    lemma_insert(u0, uid, handle);
    lemma_insert(s, id, u1);
    let j = joined(s, id, uid, handle);
    assert(room_users(j, id) == u1);
    lemma_remove_after_insert(u0, uid, handle);
    lemma_remove(u0, uid);
    assert(assoc_remove(u1, uid) == u0);
    if has_key(s, id) {
        lemma_insert_insert(s, id, u1, u0);
        lemma_insert_same(s, id, u0);
    } else {
        lemma_remove_after_insert(s, id, u1);
        lemma_remove(s, id);
    }
}

/// Once a user has left a room, no message can reach that user there; the
/// room survives exactly when somebody is still in it; other rooms are
/// untouched.
pub proof fn law_leave(s: Rooms, id: Seq<char>, uid: Seq<char>)
    requires
        rooms_wf(s),
    ensures
        lookup(room_users(left(s, id, uid), id), uid) is None,
        has_key(left(s, id, uid), id) == (has_key(s, id) && assoc_remove(
            room_users(s, id),
            uid,
        ).len() > 0),
        forall|id2: Seq<char>| id2 != id ==> #[trigger] lookup(left(s, id, uid), id2) == lookup(s, id2),
{
    lemma_rooms_wf_lookup(s, id);
    let u = assoc_remove(room_users(s, id), uid);
    lemma_remove(room_users(s, id), uid);
    lemma_remove(s, id);
    lemma_insert(s, id, u);
}

/// A newcomer to a room is announced to every user already in it.
pub proof fn law_join_announces_to_all(s: Rooms, id: Seq<char>, uid: Seq<char>, handle: u64)
    requires
        rooms_wf(s),
        !has_key(room_users(s, id), uid),
    ensures
        handles_except(assoc_insert(room_users(s, id), uid, handle), uid) == all_handles(
            room_users(s, id),
        ),
{
    let u0 = room_users(s, id);
    assert(assoc_insert(u0, uid, handle) == u0.push((uid, handle)));
    assert forall|i: int| 0 <= i < u0.len() implies #[trigger] u0[i].0 != uid by {
        if u0[i].0 == uid {
            assert(has_key(u0, uid));
        }
    }
    lemma_filter_all(u0, other_than(uid));
    u0.lemma_filter_push((uid, handle), other_than(uid));
}

/// A message that names a user of the room goes to that user's connection,
/// carrying the stamped text; a message that names nobody in the room is
/// ignored.  A user who has just joined is reached at the connection it
/// joined with.
pub proof fn law_route_to_named_user(
    s: Rooms,
    id: Seq<char>,
    t: Seq<char>,
    m: Seq<char>,
    i: int,
    uid: Seq<char>,
    h: u64,
)
    requires
        rooms_wf(s),
    ensures
        0 <= i < room_users(s, id).len() && room_users(s, id)[i].0 == t ==> routing(
            s,
            id,
            Some(Some(t)),
            Some(m),
        ) == (Routing::Deliver { handle: room_users(s, id)[i].1, text: m }),
        (forall|k: int| 0 <= k < room_users(s, id).len() ==> (#[trigger] room_users(s, id)[k]).0
            != t) ==> routing(s, id, Some(Some(t)), Some(m)) == Routing::Ignore,
        routing(joined(s, id, uid, h), id, Some(Some(uid)), Some(m)) == (Routing::Deliver {
            handle: h,
            text: m,
        }),
{
    let u = room_users(s, id);
    lemma_rooms_wf_lookup(s, id);
    if 0 <= i < u.len() && u[i].0 == t {
        lemma_key_index(u, i);
    }
    if forall|k: int| 0 <= k < u.len() ==> (#[trigger] u[k]).0 != t {
        if has_key(u, t) {
            let k = key_index(u, t);
            assert(u[k].0 == t);
        }
    }
    let u1 = assoc_insert(u, uid, h);
    lemma_insert(u, uid, h);
    lemma_insert(s, id, u1);
}

/// Leaving removes only the leaver: every other user of the room is still
/// reached at the same connection as before.
pub proof fn law_leave_keeps_others(s: Rooms, id: Seq<char>, uid: Seq<char>, u2: Seq<char>)
    requires
        rooms_wf(s),
        u2 != uid,
    ensures
        lookup(room_users(left(s, id, uid), id), u2) == lookup(room_users(s, id), u2),
{
    lemma_rooms_wf_lookup(s, id);
    let u = assoc_remove(room_users(s, id), uid);
    lemma_remove(room_users(s, id), uid);
    lemma_remove(s, id);
    lemma_insert(s, id, u);
    if has_key(s, id) && u.len() == 0 {
        if has_key(u, u2) {
            let k = key_index(u, u2);
            assert(u[k].0 == u2);
        }
    }
}

proof fn lemma_filter_all<A>(s: Seq<A>, p: spec_fn(A) -> bool)
    requires
        forall|i: int| 0 <= i < s.len() ==> #[trigger] p(s[i]),
    ensures
        s.filter(p) == s,
    decreases s.len(),
{
    if s.len() > 0 {
        lemma_filter_all(s.drop_last(), p);
        assert(s.drop_last().push(s.last()) =~= s);
        s.drop_last().lemma_filter_push(s.last(), p);
    } else {
        assert(s.filter(p) =~= s);
    }
}

} // verus!
