//! The forwarding unit's rooms: which peers are connected to a room, and which
//! relay tracks each of them publishes.  Peers and relay tracks are held by
//! handles (integers) that the server maps to its connection objects.
use vstd::prelude::*;

use crate::table::{
    assoc_insert, assoc_keys, assoc_remove, has_key, key_index, lemma_insert, lemma_key_index,
    lemma_remove, lookup, unique_keys, Table,
};

verus! {

/// The kind of a media track a browser sends.
#[derive(Clone, Copy, Debug, PartialEq, Eq)]
pub enum MediaKind {
    Audio,
    Video,
    Unspecified,
}

/// A relay track: the handle under which the server keeps the track object,
/// and the track's id as the browser sees it (`"audio-<uid>"`, `"video-<uid>"`).
pub struct RelayTrack {
    pub handle: u64,
    pub id: String,
}

/// The label of a media kind, if it is one that gets relayed.
pub open spec fn kind_label(kind: MediaKind) -> Option<Seq<char>> {
    match kind {
        MediaKind::Audio => Some(seq!['a', 'u', 'd', 'i', 'o']),
        MediaKind::Video => Some(seq!['v', 'i', 'd', 'e', 'o']),
        MediaKind::Unspecified => None,
    }
}

/// The text after the first hyphen of `s` (empty when there is none): where
/// a browser reads the owner of a relay track from the track's id.
pub open spec fn after_first_hyphen(s: Seq<char>) -> Seq<char>
    decreases s.len(),
{
    if s.len() == 0 {
        s
    } else if s[0] == '-' {
        s.drop_first()
    } else {
        after_first_hyphen(s.drop_first())
    }
}

proof fn lemma_after_first_hyphen(p: Seq<char>, u: Seq<char>)
    requires
        forall|i: int| 0 <= i < p.len() ==> p[i] != '-',
    ensures
        after_first_hyphen(p + seq!['-'] + u) == u,
    decreases p.len(),
{
    let s = p + seq!['-'] + u;
    if p.len() == 0 {
        assert(s.drop_first() =~= u);
    } else {
        assert(s.drop_first() =~= p.drop_first() + seq!['-'] + u);
        lemma_after_first_hyphen(p.drop_first(), u);
    }
}

/// The id of the relay track that carries `uid`'s media of the given kind:
/// the kind's label, a hyphen, and the user id, so that the owner can be read
/// back as what follows the first hyphen.
pub fn relay_track_id(kind: MediaKind, uid: &str) -> (id: Option<String>)
    ensures
        match kind_label(kind) {
            Some(label) => id is Some && id->0@ == label + seq!['-'] + uid@,
            None => id is None,
        },
        id matches Some(t) ==> after_first_hyphen(t@) == uid@,
{
    let label = match kind {
        MediaKind::Audio => "audio-",
        MediaKind::Video => "video-",
        MediaKind::Unspecified => {
            return None;
        },
    };
    proof {
        reveal_strlit("audio-");
        reveal_strlit("video-");
    }
    let id = String::from_str(label).concat(uid);
    assert(kind_label(kind).unwrap() + seq!['-'] =~= label@);
    proof {
        lemma_after_first_hyphen(kind_label(kind).unwrap(), uid@);
    }
    Some(id)
}

/// The stream id of user `uid`: `"user-"` followed by the user id.
pub open spec fn stream_id_of(uid: Seq<char>) -> Seq<char> {
    seq!['u', 's', 'e', 'r', '-'] + uid
}

/// The id of the stream that groups all of `uid`'s relay tracks: `"user-<uid>"`.
pub fn relay_stream_id(uid: &str) -> (id: String)
    ensures
        id@ == stream_id_of(uid@),
{
    proof {
        reveal_strlit("user-");
    }
    let id = String::from_str("user-").concat(uid);
    assert(seq!['u', 's', 'e', 'r', '-'] =~= "user-"@);
    id
}

/// A browser groups tracks by stream id, and two users' streams are never
/// grouped together: the stream ids of two users are equal exactly when the
/// users are.
pub proof fn law_stream_ids_group_by_user(a: Seq<char>, b: Seq<char>)
    ensures
        (stream_id_of(a) == stream_id_of(b)) == (a == b),
{
    if stream_id_of(a) == stream_id_of(b) {
        assert(a =~= stream_id_of(a).subrange(5, stream_id_of(a).len() as int));
        assert(b =~= stream_id_of(b).subrange(5, stream_id_of(b).len() as int));
    }
}

/// A relay track id names one kind of media and one owner: two relayed kinds
/// and owners give the same id only when both kinds and both owners agree.
pub proof fn law_track_ids_distinct(k1: MediaKind, u1: Seq<char>, k2: MediaKind, u2: Seq<char>)
    requires
        kind_label(k1) is Some,
        kind_label(k2) is Some,
    ensures
        (kind_label(k1).unwrap() + seq!['-'] + u1 == kind_label(k2).unwrap() + seq!['-'] + u2) == (
        k1 == k2 && u1 == u2),
{
    let l1 = kind_label(k1).unwrap();
    let l2 = kind_label(k2).unwrap();
    let s1 = l1 + seq!['-'] + u1;
    let s2 = l2 + seq!['-'] + u2;
    if s1 == s2 {
        lemma_after_first_hyphen(l1, u1);
        lemma_after_first_hyphen(l2, u2);
        assert(s1[0] == l1[0] && s2[0] == l2[0]);
    }
}

/// The handles of the relay tracks in `tracks` that belong to users other than
/// `exclude`, user by user in table order, each user's tracks in the order
/// they were added.
pub open spec fn relay_handles_except(
    tracks: Seq<(Seq<char>, Seq<RelayTrack>)>,
    exclude: Seq<char>,
) -> Seq<u64> {
    tracks.filter(published_by_other(exclude)).flat_map(handles_of_entry())
}

/// Whether a publisher entry belongs to someone other than `uid`.
pub open spec fn published_by_other(uid: Seq<char>) -> spec_fn(
    (Seq<char>, Seq<RelayTrack>),
) -> bool {
    |e: (Seq<char>, Seq<RelayTrack>)| e.0 != uid
}

/// The handles of a publisher's relay tracks, in order.
pub open spec fn handles_of_entry() -> spec_fn((Seq<char>, Seq<RelayTrack>)) -> Seq<u64> {
    |e: (Seq<char>, Seq<RelayTrack>)| e.1.map_values(|t: RelayTrack| t.handle)
}

/// Whether `h` is the handle of a relay track that some user other than
/// `exclude` publishes in `tracks`.
pub open spec fn offered(tracks: Seq<(Seq<char>, Seq<RelayTrack>)>, exclude: Seq<char>, h: u64) -> bool {
    exists|i: int, j: int|
        #![trigger tracks[i].1[j]]
        0 <= i < tracks.len() && tracks[i].0 != exclude && 0 <= j < tracks[i].1.len()
            && tracks[i].1[j].handle == h
}

/// The peers of `peers` other than `uid`, in table order.
pub open spec fn peers_except_spec(peers: Seq<(Seq<char>, u64)>, uid: Seq<char>) -> Seq<
    (Seq<char>, u64),
> {
    peers.filter(not_user(uid))
}

/// Whether a peer entry belongs to someone other than `uid`.
pub open spec fn not_user(uid: Seq<char>) -> spec_fn((Seq<char>, u64)) -> bool {
    |e: (Seq<char>, u64)| e.0 != uid
}

/// A new track is fanned out to every peer of the room but its publisher:
/// no peer in `peers_except_spec(peers, uid)` has user id `uid`, every one of
/// them is a peer of the room, and every peer of the room other than `uid`
/// is among them.
pub proof fn law_peers_except(peers: Seq<(Seq<char>, u64)>, uid: Seq<char>)
    ensures
        forall|i: int|
            0 <= i < peers_except_spec(peers, uid).len() ==> (#[trigger] peers_except_spec(
                peers,
                uid,
            )[i]).0 != uid && peers.contains(peers_except_spec(peers, uid)[i]),
        forall|j: int|
            0 <= j < peers.len() && (#[trigger] peers[j]).0 != uid ==> peers_except_spec(
                peers,
                uid,
            ).contains(peers[j]),
{
    let p = not_user(uid);
    let r = peers.filter(p);
    assert(r == peers_except_spec(peers, uid));
    assert forall|i: int| 0 <= i < r.len() implies (#[trigger] r[i]).0 != uid && peers.contains(
        r[i],
    ) by {
        peers.lemma_filter_pred(p, i);
        assert(r.contains(r[i]));
        peers.lemma_filter_contains_rev(p, r[i]);
    }
    assert forall|j: int| 0 <= j < peers.len() && (#[trigger] peers[j]).0 != uid implies r.contains(
        peers[j],
    ) by {
        peers.lemma_filter_contains(p, j);
    }
}

/// The relay tracks `lookup` finds for `uid`, or none.
pub open spec fn tracks_of(tracks: Seq<(Seq<char>, Seq<RelayTrack>)>, uid: Seq<char>) -> Seq<
    RelayTrack,
> {
    match lookup(tracks, uid) {
        Some(l) => l,
        None => Seq::empty(),
    }
}

/// Shared state of one room.
pub struct Room {
    peers: Table<u64>,
    tracks: Table<Vec<RelayTrack>>,
}

impl Room {
    /// The connected peers: user id and peer handle, in the order they joined.
    pub closed spec fn peers_view(&self) -> Seq<(Seq<char>, u64)> {
        self.peers@
    }

    /// The relay tracks published by each user, users in the order their
    /// first track came.
    pub closed spec fn tracks_view(&self) -> Seq<(Seq<char>, Seq<RelayTrack>)> {
        self.tracks@.map_values(|e: (Seq<char>, Vec<RelayTrack>)| (e.0, e.1@))
    }

    /// The room's invariant: no user occurs twice among peers, nor among
    /// track publishers.
    pub open spec fn wf(&self) -> bool {
        unique_keys(self.peers_view()) && unique_keys(self.tracks_view())
    }

    proof fn lemma_tracks_wf(&self)
        ensures
            self.tracks.wf() == unique_keys(self.tracks_view()),
            self.tracks_view().len() == self.tracks@.len(),
            forall|i: int|
                0 <= i < self.tracks@.len() ==> #[trigger] self.tracks_view()[i] == (
                self.tracks@[i].0,
                self.tracks@[i].1@,
            ),
    {
        let a = self.tracks@;
        let b = self.tracks_view();
        assert(unique_keys(a) ==> unique_keys(b)) by {
            if unique_keys(a) {
                assert forall|i: int, j: int|
                    #![trigger b[i], b[j]]
                    0 <= i < b.len() && 0 <= j < b.len() && i != j implies b[i].0 != b[j].0 by {
                    assert(a[i].0 == b[i].0 && a[j].0 == b[j].0);
                }
            }
        }
        assert(unique_keys(b) ==> unique_keys(a)) by {
            if unique_keys(b) {
                assert forall|i: int, j: int|
                    #![trigger a[i], a[j]]
                    0 <= i < a.len() && 0 <= j < a.len() && i != j implies a[i].0 != a[j].0 by {
                    assert(a[i].0 == b[i].0 && a[j].0 == b[j].0);
                }
            }
        }
    }

    /// An empty room.
    pub fn new() -> (r: Room)
        ensures
            r.peers_view() == Seq::<(Seq<char>, u64)>::empty(),
            r.tracks_view() == Seq::<(Seq<char>, Seq<RelayTrack>)>::empty(),
            r.wf(),
    {
        let r = Room { peers: Table::new(), tracks: Table::new() };
        assert(r.tracks_view() =~= Seq::<(Seq<char>, Seq<RelayTrack>)>::empty());
        r
    }

    /// All relay tracks except those belonging to `exclude`.
    pub fn relay_tracks_except(&self, exclude: &str) -> (hs: Vec<u64>)
        requires
            self.wf(),
        ensures
            hs@ == relay_handles_except(self.tracks_view(), exclude@),
    {
        let ghost t = self.tracks_view();
        let ghost p = published_by_other(exclude@);
        let ghost f = handles_of_entry();
        proof {
            self.lemma_tracks_wf();
        }
        let ex = exclude.to_owned();
        let mut hs: Vec<u64> = Vec::new();
        let n = self.tracks.len();
        let mut i: usize = 0;
        assert(t.take(0).filter(p) =~= Seq::<(Seq<char>, Seq<RelayTrack>)>::empty());
        while i < n
            invariant
                n == t.len(),
                i <= n,
                ex@ == exclude@,
                t == self.tracks_view(),
                forall|k: int|
                    0 <= k < self.tracks@.len() ==> #[trigger] t[k] == (
                    self.tracks@[k].0,
                    self.tracks@[k].1@,
                ),
                n == self.tracks@.len(),
                p == published_by_other(exclude@),
                f == handles_of_entry(),
                hs@ == t.take(i as int).filter(p).flat_map(f),
            decreases n - i,
        {
            let ghost before = hs@;
            proof {
                assert(t.take(i as int + 1) =~= t.take(i as int).push(t[i as int]));
                t.take(i as int).lemma_filter_push(t[i as int], p);
            }
            if *self.tracks.key_at(i) != ex {
                let list = self.tracks.value_at(i);
                let m = list.len();
                let mut j: usize = 0;
                while j < m
                    invariant
                        j <= m,
                        m == list@.len(),
                        hs@ == before + list@.take(j as int).map_values(|t: RelayTrack| t.handle),
                    decreases m - j,
                {
                    hs.push(list[j].handle);
                    assert(list@.take(j as int + 1) =~= list@.take(j as int).push(list@[j as int]));
                    assert(hs@ =~= before + list@.take(j as int + 1).map_values(
                        |t: RelayTrack| t.handle,
                    ));
                    j += 1;
                }
                proof {
                    assert(list@.take(m as int) =~= list@);
                    t.take(i as int).filter(p).lemma_flat_map_push(f, t[i as int]);
                }
            }
            i += 1;
        }
        assert(t.take(n as int) =~= t);
        hs
    }

    /// Removes `uid` as a peer and as a track publisher.
    pub fn remove(&mut self, uid: &str)
        requires
            old(self).wf(),
        ensures
            final(self).peers_view() == assoc_remove(old(self).peers_view(), uid@),
            final(self).tracks_view() == assoc_remove(old(self).tracks_view(), uid@),
            final(self).wf(),
    {
        proof {
            old(self).lemma_tracks_wf();
            lemma_remove(old(self).peers_view(), uid@);
            lemma_remove(old(self).tracks_view(), uid@);
        }
        self.peers.remove(uid);
        let ghost before = self.tracks@;
        match self.tracks.find(uid) {
            Some(i) => {
                proof {
                    lemma_key_index(old(self).tracks@, i as int);
                    lemma_key_index(old(self).tracks_view(), i as int);
                }
                self.tracks.remove(uid);
                assert(self.tracks_view() =~= assoc_remove(old(self).tracks_view(), uid@));
            },
            None => {
                self.tracks.remove(uid);
                assert(!has_key(old(self).tracks_view(), uid@)) by {
                    if has_key(old(self).tracks_view(), uid@) {
                        let a = key_index(old(self).tracks_view(), uid@);
                        assert(before[a].0 == uid@);
                    }
                }
                assert(self.tracks_view() =~= assoc_remove(old(self).tracks_view(), uid@));
            },
        }
        proof {
            self.lemma_tracks_wf();
        }
    }

    /// Registers `uid` as a connected peer with the given handle, replacing an
    /// earlier registration under the same user id.
    pub fn insert_peer(&mut self, uid: &str, handle: u64)
        requires
            old(self).wf(),
        ensures
            final(self).peers_view() == assoc_insert(old(self).peers_view(), uid@, handle),
            final(self).tracks_view() == old(self).tracks_view(),
            final(self).wf(),
    {
        self.peers.insert(uid, handle);
    }

    /// Adds a relay track published by `uid`, after the ones it already has.
    pub fn add_relay_track(&mut self, uid: &str, track: RelayTrack)
        requires
            old(self).wf(),
        ensures
            final(self).tracks_view() == assoc_insert(
                old(self).tracks_view(),
                uid@,
                tracks_of(old(self).tracks_view(), uid@).push(track),
            ),
            final(self).peers_view() == old(self).peers_view(),
            final(self).wf(),
    {
        proof {
            old(self).lemma_tracks_wf();
            lemma_insert(
                old(self).tracks_view(),
                uid@,
                tracks_of(old(self).tracks_view(), uid@).push(track),
            );
        }
        match self.tracks.find(uid) {
            Some(i) => {
                proof {
                    lemma_key_index(old(self).tracks_view(), i as int);
                }
                let list = self.tracks.value_at_mut(i);
                list.push(track);
                assert(self.tracks_view() =~= assoc_insert(
                    old(self).tracks_view(),
                    uid@,
                    tracks_of(old(self).tracks_view(), uid@).push(track),
                ));
            },
            None => {
                let ghost before = self.tracks@;
                assert(!has_key(old(self).tracks_view(), uid@)) by {
                    if has_key(old(self).tracks_view(), uid@) {
                        let a = key_index(old(self).tracks_view(), uid@);
                        assert(before[a].0 == uid@);
                    }
                }
                let mut list: Vec<RelayTrack> = Vec::new();
                list.push(track);
                self.tracks.insert(uid, list);
                assert(self.tracks_view() =~= assoc_insert(
                    old(self).tracks_view(),
                    uid@,
                    tracks_of(old(self).tracks_view(), uid@).push(track),
                ));
            },
        }
        proof {
            self.lemma_tracks_wf();
        }
    }

    /// The peers other than `uid`, with their handles, in table order.
    pub fn peers_except(&self, uid: &str) -> (ps: Vec<(String, u64)>)
        requires
            self.wf(),
        ensures
            ps@.map_values(|p: (String, u64)| (p.0@, p.1)) == peers_except_spec(
                self.peers_view(),
                uid@,
            ),
    {
        let ghost s = self.peers_view();
        let ghost p = not_user(uid@);
        let me = uid.to_owned();
        let mut ps: Vec<(String, u64)> = Vec::new();
        let n = self.peers.len();
        let mut i: usize = 0;
        assert(s.take(0).filter(p) =~= Seq::<(Seq<char>, u64)>::empty());
        while i < n
            invariant
                n == s.len(),
                i <= n,
                me@ == uid@,
                s == self.peers@,
                p == not_user(uid@),
                ps@.map_values(|p: (String, u64)| (p.0@, p.1)) == s.take(i as int).filter(p),
            decreases n - i,
        {
            proof {
                assert(s.take(i as int + 1) =~= s.take(i as int).push(s[i as int]));
                s.take(i as int).lemma_filter_push(s[i as int], p);
            }
            let k = self.peers.key_at(i);
            if *k != me {
                let ghost before = ps@;
                ps.push((k.clone(), *self.peers.value_at(i)));
                assert(ps@.map_values(|p: (String, u64)| (p.0@, p.1)) =~= before.map_values(
                    |p: (String, u64)| (p.0@, p.1),
                ).push(s[i as int]));
            }
            i += 1;
        }
        assert(s.take(n as int) =~= s);
        ps
    }

    /// The handle of peer `uid`, if it is connected.
    pub fn peer(&self, uid: &str) -> (h: Option<u64>)
        requires
            self.wf(),
        ensures
            h == lookup(self.peers_view(), uid@),
    {
        match self.peers.get(uid) {
            Some(h) => Some(*h),
            None => None,
        }
    }

    /// The user ids of the connected peers, in table order.
    pub fn peer_ids(&self) -> (ids: Vec<String>)
        ensures
            ids@.map_values(|s: String| s@) == assoc_keys(self.peers_view()),
    {
        self.peers.keys()
    }

    /// The ids of the relay tracks that `uid` publishes, in the order they were
    /// added.
    pub fn track_ids(&self, uid: &str) -> (ids: Vec<String>)
        requires
            self.wf(),
        ensures
            ids@.map_values(|s: String| s@) == tracks_of(self.tracks_view(), uid@).map_values(
                |t: RelayTrack| t.id@,
            ),
    {
        proof {
            self.lemma_tracks_wf();
        }
        let mut ids: Vec<String> = Vec::new();
        match self.tracks.find(uid) {
            Some(i) => {
                proof {
                    lemma_key_index(self.tracks_view(), i as int);
                }
                let list = self.tracks.value_at(i);
                let m = list.len();
                let mut j: usize = 0;
                while j < m
                    invariant
                        j <= m,
                        m == list@.len(),
                        ids@.len() == j,
                        forall|q: int| 0 <= q < j ==> #[trigger] ids@[q]@ == list@[q].id@,
                    decreases m - j,
                {
                    ids.push(list[j].id.clone());
                    j += 1;
                }
                assert(ids@.map_values(|s: String| s@) =~= tracks_of(
                    self.tracks_view(),
                    uid@,
                ).map_values(|t: RelayTrack| t.id@));
            },
            None => {
                let ghost before = self.tracks@;
                assert(!has_key(self.tracks_view(), uid@)) by {
                    if has_key(self.tracks_view(), uid@) {
                        let a = key_index(self.tracks_view(), uid@);
                        assert(before[a].0 == uid@);
                    }
                }
                assert(ids@.map_values(|s: String| s@) =~= tracks_of(
                    self.tracks_view(),
                    uid@,
                ).map_values(|t: RelayTrack| t.id@));
            },
        }
        ids
    }
}

/// Global state: every room, keyed by room id.
pub struct AppState {
    rooms: Table<Room>,
}

impl AppState {
    /// The rooms, keyed by room id, in the order they were created.
    pub closed spec fn rooms_view(&self) -> Seq<(Seq<char>, Room)> {
        self.rooms@
    }

    /// The state's invariant: room ids are unique and every room is well formed.
    pub open spec fn wf(&self) -> bool {
        &&& unique_keys(self.rooms_view())
        &&& forall|i: int|
            0 <= i < self.rooms_view().len() ==> (#[trigger] self.rooms_view()[i]).1.wf()
    }

    /// A state without rooms.
    pub fn new() -> (s: AppState)
        ensures
            s.rooms_view() == Seq::<(Seq<char>, Room)>::empty(),
            s.wf(),
    {
        AppState { rooms: Table::new() }
    }

    /// The rooms table, to be read.
    pub fn rooms(&self) -> (t: &Table<Room>)
        ensures
            t@ == self.rooms_view(),
    {
        &self.rooms
    }

    /// The room with id `id`, created empty when there is none yet.  Changes
    /// made through the returned reference land in the state.
    pub fn get_or_create(&mut self, id: &str) -> (r: &mut Room)
        requires
            old(self).wf(),
        ensures
            has_key(old(self).rooms_view(), id@) ==> *r == lookup(
                old(self).rooms_view(),
                id@,
            ).unwrap(),
            !has_key(old(self).rooms_view(), id@) ==> r.peers_view().len() == 0
                && r.tracks_view().len() == 0,
            r.wf(),
            final(self).rooms_view() == assoc_insert(old(self).rooms_view(), id@, *final(r)),
            final(r).wf() ==> final(self).wf(),
    {
        let i = match self.rooms.find(id) {
            Some(i) => {
                proof {
                    lemma_key_index(old(self).rooms_view(), i as int);
                }
                i
            },
            None => {
                self.rooms.insert(id, Room::new());
                self.rooms.len() - 1
            },
        };
        let ghost mid = self.rooms@;
        proof {
            lemma_insert(old(self).rooms_view(), id@, mid[i as int].1);
            assert forall|v: Room|
                #[trigger] mid.update(i as int, (mid[i as int].0, v)) == assoc_insert(
                    old(self).rooms_view(),
                    id@,
                    v,
                ) by {
                assert(mid.update(i as int, (mid[i as int].0, v)) =~= assoc_insert(
                    old(self).rooms_view(),
                    id@,
                    v,
                ));
            }
        }
        self.rooms.value_at_mut(i)
    }
}

proof fn lemma_relay_push(t: Seq<(Seq<char>, Seq<RelayTrack>)>, x: Seq<char>, e: (Seq<char>, Seq<RelayTrack>))
    ensures
        relay_handles_except(t.push(e), x) == relay_handles_except(t, x) + (if e.0 != x {
            e.1.map_values(|r: RelayTrack| r.handle)
        } else {
            Seq::<u64>::empty()
        }),
{
    t.lemma_filter_push(e, published_by_other(x));
    t.filter(published_by_other(x)).lemma_flat_map_push(handles_of_entry(), e);
    if e.0 == x {
        assert(relay_handles_except(t, x) + Seq::<u64>::empty() =~= relay_handles_except(t, x));
    }
}

/// `relay_tracks_except` offers exactly the tracks of the other users: a
/// handle is in its result if and only if some user other than the excluded
/// one publishes a relay track with that handle.
pub proof fn law_relay_tracks_except(t: Seq<(Seq<char>, Seq<RelayTrack>)>, exclude: Seq<char>, h: u64)
    ensures
        relay_handles_except(t, exclude).contains(h) == offered(t, exclude, h),
    decreases t.len(),
{
    if t.len() == 0 {
        assert(t.filter(published_by_other(exclude)) =~= Seq::<(Seq<char>, Seq<RelayTrack>)>::empty());
        assert(relay_handles_except(t, exclude) =~= Seq::<u64>::empty());
    } else {
        let t0 = t.drop_last();
        let e = t.last();
        assert(t0.push(e) =~= t);
        law_relay_tracks_except(t0, exclude, h);
        lemma_relay_push(t0, exclude, e);
        let a = relay_handles_except(t0, exclude);
        let b = if e.0 != exclude {
            e.1.map_values(|r: RelayTrack| r.handle)
        } else {
            Seq::<u64>::empty()
        };
        let r = relay_handles_except(t, exclude);
        assert(r == a + b);
        if r.contains(h) {
            let k = choose|k: int| 0 <= k < r.len() && r[k] == h;
            if k < a.len() {
                assert(a[k] == h);
                assert(offered(t0, exclude, h));
                let (i, j) = choose|i: int, j: int|
                    #![trigger t0[i].1[j]]
                    0 <= i < t0.len() && t0[i].0 != exclude && 0 <= j < t0[i].1.len()
                        && t0[i].1[j].handle == h;
                assert(t[i] == t0[i]);
                assert(t[i].1[j].handle == h);
            } else {
                let j = k - a.len();
                assert(b[j] == h);
                assert(e.0 != exclude);
                let i = t.len() - 1;
                assert(t[i].1[j].handle == h);
            }
        }
        if offered(t, exclude, h) {
            let (i, j) = choose|i: int, j: int|
                #![trigger t[i].1[j]]
                0 <= i < t.len() && t[i].0 != exclude && 0 <= j < t[i].1.len() && t[i].1[j].handle
                    == h;
            if i < t.len() - 1 {
                assert(t0[i].1[j].handle == h);
                assert(offered(t0, exclude, h));
                let k = choose|k: int| 0 <= k < a.len() && a[k] == h;
                assert(r[k] == h);
            } else {
                assert(b[j] == h);
                assert(r[a.len() + j] == h);
            }
        }
    }
}

proof fn lemma_filter_update_rejected<A>(s: Seq<A>, i: int, e: A, p: spec_fn(A) -> bool)
    requires
        0 <= i < s.len(),
        !p(s[i]),
        !p(e),
    ensures
        s.update(i, e).filter(p) == s.filter(p),
    decreases s.len(),
{
    let u = s.update(i, e);
    if i == s.len() - 1 {
        assert(s.drop_last().push(s.last()) =~= s);
        assert(s.drop_last().push(e) =~= u);
        s.drop_last().lemma_filter_push(s.last(), p);
        s.drop_last().lemma_filter_push(e, p);
    } else {
        lemma_filter_update_rejected(s.drop_last(), i, e, p);
        assert(s.drop_last().push(s.last()) =~= s);
        assert(s.drop_last().update(i, e).push(s.last()) =~= u);
        s.drop_last().lemma_filter_push(s.last(), p);
        s.drop_last().update(i, e).lemma_filter_push(s.last(), p);
    }
}

/// A relay track just added by `uid` is offered to every other user, and what
/// `uid` itself is offered does not change.
pub proof fn law_new_track_reaches_others(
    t: Seq<(Seq<char>, Seq<RelayTrack>)>,
    uid: Seq<char>,
    track: RelayTrack,
    other: Seq<char>,
)
    requires
        unique_keys(t),
        other != uid,
    ensures
        relay_handles_except(assoc_insert(t, uid, tracks_of(t, uid).push(track)), other).contains(
            track.handle,
        ),
        relay_handles_except(assoc_insert(t, uid, tracks_of(t, uid).push(track)), uid)
            == relay_handles_except(t, uid),
{
    let l = tracks_of(t, uid).push(track);
    let t2 = assoc_insert(t, uid, l);
    lemma_insert(t, uid, l);
    let i = key_index(t2, uid);
    assert(t2[i].0 == uid);
    assert(t2[i].1 == l);
    assert(t2[i].1[l.len() - 1].handle == track.handle);
    assert(offered(t2, other, track.handle));
    law_relay_tracks_except(t2, other, track.handle);
    if has_key(t, uid) {
        let k = key_index(t, uid);
        lemma_filter_update_rejected(t, k, (uid, l), published_by_other(uid));
    } else {
        t.lemma_filter_push((uid, l), published_by_other(uid));
    }
}

/// Once `uid` is removed, every track still offered to anyone belongs to a
/// user other than `uid`.
pub proof fn law_removed_publisher_not_offered(
    t: Seq<(Seq<char>, Seq<RelayTrack>)>,
    uid: Seq<char>,
    exclude: Seq<char>,
    h: u64,
)
    requires
        unique_keys(t),
    ensures
        relay_handles_except(assoc_remove(t, uid), exclude).contains(h) ==> exists|i: int, j: int|
            #![trigger t[i].1[j]]
            0 <= i < t.len() && t[i].0 != uid && t[i].0 != exclude && 0 <= j < t[i].1.len()
                && t[i].1[j].handle == h,
{
    let r = assoc_remove(t, uid);
    law_relay_tracks_except(r, exclude, h);
    lemma_remove(t, uid);
    if relay_handles_except(r, exclude).contains(h) {
        let (i, j) = choose|i: int, j: int|
            #![trigger r[i].1[j]]
            0 <= i < r.len() && r[i].0 != exclude && 0 <= j < r[i].1.len() && r[i].1[j].handle
                == h;
        assert(r[i].0 != uid) by {
            if r[i].0 == uid {
                assert(has_key(r, uid));
            }
        }
        if has_key(t, uid) {
            let k = key_index(t, uid);
            let i2 = if i < k { i } else { i + 1 };
            assert(r[i] == t[i2]);
            assert(t[i2].1[j].handle == h);
        } else {
            assert(t[i].1[j].handle == h);
        }
    }
}

} // verus!
