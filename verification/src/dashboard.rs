//! The terminal dashboard: one screen of text listing every room, its peers
//! (sorted by user id), what media each peer publishes, its connection state,
//! and the upload rate seen since the previous screen.
use vstd::prelude::*;

use vstd::seq_lib::lemma_concat_associative;

use crate::order::{lemma_text_lt_total, lemma_text_lt_transitive, text_less, text_lt};
use crate::rate::{fmt_rate, rate_text};
use crate::table::{assoc_insert, lemma_insert, lookup, unique_keys, Table};
use crate::text::{decimal, pad_right, write_decimal, write_padded};

verus! {

/// What the dashboard shows of one peer, as sampled by the server.
pub struct PeerSample {
    /// The peer's user id.
    pub uid: String,
    /// Total RTP payload bytes received from the peer so far.
    pub bytes_up: u64,
    /// The peer connection's state, in lowercase (`"connected"`, ...).
    pub connection_state: String,
    /// The ids of the relay tracks the peer publishes.
    pub track_ids: Vec<String>,
}

/// One room as sampled for the dashboard.
pub struct RoomSample {
    pub id: String,
    pub peers: Vec<PeerSample>,
}

// ----- peer order -------------------------------------------------------------

/// No two peers share a user id.
pub open spec fn distinct_uids(ps: Seq<PeerSample>) -> bool {
    forall|i: int, j: int|
        #![trigger ps[i], ps[j]]
        0 <= i < ps.len() && 0 <= j < ps.len() && i != j ==> ps[i].uid@ != ps[j].uid@
}

/// Whether position `i` holds a peer whose user id no other comes before.
pub open spec fn is_min_uid(ps: Seq<PeerSample>, i: int) -> bool {
    &&& 0 <= i < ps.len()
    &&& forall|j: int| 0 <= j < ps.len() ==> !text_lt(#[trigger] ps[j].uid@, ps[i].uid@)
}

/// The position of the peer with the smallest user id.
pub open spec fn min_uid_index(ps: Seq<PeerSample>) -> int {
    if exists|i: int| is_min_uid(ps, i) {
        choose|i: int| is_min_uid(ps, i)
    } else {
        0
    }
}

/// The peers in ascending order of user id.
pub open spec fn sorted_by_uid(ps: Seq<PeerSample>) -> Seq<PeerSample>
    decreases ps.len(),
{
    if ps.len() == 0 {
        Seq::empty()
    } else {
        seq![ps[min_uid_index(ps)]] + sorted_by_uid(ps.remove(min_uid_index(ps)))
    }
}

proof fn lemma_min_unique(ps: Seq<PeerSample>, i: int)
    requires
        distinct_uids(ps),
        is_min_uid(ps, i),
    ensures
        min_uid_index(ps) == i,
{
    let k = min_uid_index(ps);
    assert(is_min_uid(ps, k));
    if k != i {
        assert(!text_lt(ps[k].uid@, ps[i].uid@));
        assert(!text_lt(ps[i].uid@, ps[k].uid@));
        lemma_text_lt_total(ps[k].uid@, ps[i].uid@);
    }
}

proof fn lemma_min_exists(ps: Seq<PeerSample>)
    requires
        ps.len() > 0,
    ensures
        exists|i: int| is_min_uid(ps, i),
    decreases ps.len(),
{
    let n = ps.len() - 1;
    let last = ps[n];
    crate::order::lemma_text_lt_irreflexive(last.uid@);
    if n == 0 {
        assert(is_min_uid(ps, 0));
    } else {
        let q = ps.drop_last();
        lemma_min_exists(q);
        let k = choose|i: int| is_min_uid(q, i);
        assert(q[k] == ps[k]);
        if text_lt(last.uid@, ps[k].uid@) {
            assert forall|j: int| 0 <= j < ps.len() implies !text_lt(
                #[trigger] ps[j].uid@,
                ps[n].uid@,
            ) by {
                if j < n && text_lt(ps[j].uid@, last.uid@) {
                    assert(q[j] == ps[j]);
                    lemma_text_lt_transitive(ps[j].uid@, last.uid@, ps[k].uid@);
                    assert(!text_lt(q[j].uid@, q[k].uid@));
                }
            }
            assert(is_min_uid(ps, n));
        } else {
            assert forall|j: int| 0 <= j < ps.len() implies !text_lt(
                #[trigger] ps[j].uid@,
                ps[k].uid@,
            ) by {
                if j < n {
                    assert(q[j] == ps[j]);
                    assert(!text_lt(q[j].uid@, q[k].uid@));
                }
            }
            assert(is_min_uid(ps, k));
        }
    }
}

/// The dashboard lists a room's peers in ascending order of user id, each of
/// them exactly once: the listing is as long as the room, its user ids
/// strictly ascend, and it holds every peer of the room and no other.
pub proof fn law_peers_in_uid_order(ps: Seq<PeerSample>)
    requires
        distinct_uids(ps),
    ensures
        sorted_by_uid(ps).len() == ps.len(),
        forall|i: int, j: int|
            #![trigger sorted_by_uid(ps)[i], sorted_by_uid(ps)[j]]
            0 <= i < j < ps.len() ==> text_lt(
                sorted_by_uid(ps)[i].uid@,
                sorted_by_uid(ps)[j].uid@,
            ),
        forall|i: int| 0 <= i < ps.len() ==> sorted_by_uid(ps).contains(#[trigger] ps[i]),
        forall|i: int| 0 <= i < ps.len() ==> ps.contains(#[trigger] sorted_by_uid(ps)[i]),
    decreases ps.len(),
{
    if ps.len() > 0 {
        lemma_min_exists(ps);
        let m = min_uid_index(ps);
        assert(is_min_uid(ps, m));
        let r = ps.remove(m);
        assert(distinct_uids(r)) by {
            assert forall|a: int, b: int|
                #![trigger r[a], r[b]]
                0 <= a < r.len() && 0 <= b < r.len() && a != b implies r[a].uid@ != r[b].uid@ by {
                let a2 = if a < m { a } else { a + 1 };
                let b2 = if b < m { b } else { b + 1 };
                assert(r[a] == ps[a2] && r[b] == ps[b2]);
            }
        }
        law_peers_in_uid_order(r);
        let t = sorted_by_uid(r);
        let s = sorted_by_uid(ps);
        assert(s == seq![ps[m]] + t);
        assert forall|i: int| 0 <= i < t.len() implies exists|y: int|
            0 <= y < ps.len() && y != m && #[trigger] t[i] == ps[y] by {
            assert(r.contains(t[i]));
            let x = choose|x: int| 0 <= x < r.len() && r[x] == t[i];
            let y = if x < m { x } else { x + 1 };
            assert(r[x] == ps[y]);
        }
        assert forall|i: int, j: int|
            #![trigger s[i], s[j]]
            0 <= i < j < ps.len() implies text_lt(s[i].uid@, s[j].uid@) by {
            if i == 0 {
                assert(s[j] == t[j - 1]);
                let y = choose|y: int| 0 <= y < ps.len() && y != m && t[j - 1] == ps[y];
                assert(!text_lt(ps[y].uid@, ps[m].uid@));
                assert(ps[y].uid@ != ps[m].uid@);
                lemma_text_lt_total(ps[y].uid@, ps[m].uid@);
            } else {
                assert(s[i] == t[i - 1] && s[j] == t[j - 1]);
            }
        }
        assert forall|i: int| 0 <= i < ps.len() implies s.contains(#[trigger] ps[i]) by {
            if i == m {
                assert(s[0] == ps[i]);
            } else {
                let x = if i < m { i } else { i - 1 };
                assert(r[x] == ps[i]);
                assert(t.contains(r[x]));
                let k = choose|k: int| 0 <= k < t.len() && t[k] == r[x];
                assert(s[k + 1] == ps[i]);
            }
        }
        assert forall|i: int| 0 <= i < ps.len() implies ps.contains(#[trigger] s[i]) by {
            if i == 0 {
                assert(ps[m] == s[i]);
            } else {
                assert(s[i] == t[i - 1]);
                let y = choose|y: int| 0 <= y < ps.len() && y != m && t[i - 1] == ps[y];
                assert(ps[y] == s[i]);
            }
        }
    }
}

fn min_uid_position(ps: &Vec<PeerSample>, rest: &Vec<usize>) -> (k: usize)
    requires
        rest@.len() > 0,
        forall|q: int| 0 <= q < rest@.len() ==> #[trigger] rest@[q] < ps@.len(),
    ensures
        is_min_uid(rest@.map_values(|i: usize| ps@[i as int]), k as int),
{
    let ghost s = rest@.map_values(|i: usize| ps@[i as int]);
    let mut best: usize = 0;
    let mut j: usize = 1;
    proof {
        crate::order::lemma_text_lt_irreflexive(s[0].uid@);
    }
    while j < rest.len()
        invariant
            s == rest@.map_values(|i: usize| ps@[i as int]),
            forall|q: int| 0 <= q < rest@.len() ==> #[trigger] rest@[q] < ps@.len(),
            0 < j <= rest@.len(),
            best < j,
            forall|q: int| 0 <= q < j ==> !text_lt(#[trigger] s[q].uid@, s[best as int].uid@),
        decreases rest@.len() - j,
    {
        if text_less(ps[rest[j]].uid.as_str(), ps[rest[best]].uid.as_str()) {
            proof {
                assert forall|q: int| 0 <= q < j + 1 implies !text_lt(
                    #[trigger] s[q].uid@,
                    s[j as int].uid@,
                ) by {
                    if q < j && text_lt(s[q].uid@, s[j as int].uid@) {
                        lemma_text_lt_transitive(s[q].uid@, s[j as int].uid@, s[best as int].uid@);
                    }
                    if q == j {
                        crate::order::lemma_text_lt_irreflexive(s[q].uid@);
                    }
                }
            }
            best = j;
        }
        j += 1;
    }
    best
}

/// The positions of the peers in ascending order of user id.
pub fn uid_order(ps: &Vec<PeerSample>) -> (order: Vec<usize>)
    requires
        distinct_uids(ps@),
    ensures
        order@.len() == ps@.len(),
        forall|q: int| 0 <= q < order@.len() ==> #[trigger] order@[q] < ps@.len(),
        order@.map_values(|i: usize| ps@[i as int]) == sorted_by_uid(ps@),
{
    let mut rest: Vec<usize> = Vec::new();
    let mut i: usize = 0;
    while i < ps.len()
        invariant
            i <= ps@.len(),
            rest@.len() == i,
            forall|q: int| 0 <= q < i ==> #[trigger] rest@[q] == q,
        decreases ps@.len() - i,
    {
        rest.push(i);
        i += 1;
    }
    assert(rest@.map_values(|i: usize| ps@[i as int]) =~= ps@);
    let mut order: Vec<usize> = Vec::new();
    while rest.len() > 0
        invariant
            forall|q: int| 0 <= q < rest@.len() ==> #[trigger] rest@[q] < ps@.len(),
            forall|q: int| 0 <= q < order@.len() ==> #[trigger] order@[q] < ps@.len(),
            distinct_uids(rest@.map_values(|i: usize| ps@[i as int])),
            order@.map_values(|i: usize| ps@[i as int]) + sorted_by_uid(
                rest@.map_values(|i: usize| ps@[i as int]),
            ) == sorted_by_uid(ps@),
            order@.len() + rest@.len() == ps@.len(),
        decreases rest@.len(),
    {
        let ghost s = rest@.map_values(|i: usize| ps@[i as int]);
        let k = min_uid_position(ps, &rest);
        proof {
            lemma_min_unique(s, k as int);
        }
        let idx = rest.remove(k);
        order.push(idx);
        proof {
            let s2 = rest@.map_values(|i: usize| ps@[i as int]);
            assert(s2 =~= s.remove(k as int));
            assert(distinct_uids(s2)) by {
                assert forall|a: int, b: int|
                    #![trigger s2[a], s2[b]]
                    0 <= a < s2.len() && 0 <= b < s2.len() && a != b implies s2[a].uid@
                    != s2[b].uid@ by {
                    let a2 = if a < k { a } else { a + 1 };
                    let b2 = if b < k { b } else { b + 1 };
                    assert(s2[a] == s[a2] && s2[b] == s[b2]);
                }
            }
            assert(order@.map_values(|i: usize| ps@[i as int]) + sorted_by_uid(s2) =~= (
            order@.drop_last().map_values(|i: usize| ps@[i as int]) + sorted_by_uid(s)));
        }
    }
    assert(sorted_by_uid(rest@.map_values(|i: usize| ps@[i as int])) =~= Seq::<
        PeerSample,
    >::empty());
    assert(order@.map_values(|i: usize| ps@[i as int]) =~= sorted_by_uid(ps@));
    order
}

// ----- screen text ------------------------------------------------------------

/// ANSI: back to normal text.
pub open spec fn reset() -> Seq<char> {
    "\x1B[0m"@
}

/// ANSI: bold.
pub open spec fn bold() -> Seq<char> {
    "\x1B[1m"@
}

/// ANSI: dim.
pub open spec fn dim() -> Seq<char> {
    "\x1B[2m"@
}

/// ANSI: green.
pub open spec fn green() -> Seq<char> {
    "\x1B[32m"@
}

/// ANSI: yellow.
pub open spec fn yellow() -> Seq<char> {
    "\x1B[33m"@
}

/// ANSI: cyan.
pub open spec fn cyan() -> Seq<char> {
    "\x1B[36m"@
}

/// The horizontal rule between the dashboard's sections.
pub open spec fn rule() -> Seq<char> {
    "────────────────────────────────────────────────"@
}

/// Whether `s` starts with `p`.
pub open spec fn has_prefix(s: Seq<char>, p: Seq<char>) -> bool {
    p.len() <= s.len() && s.subrange(0, p.len() as int) == p
}

/// Whether some id in `ids` starts with `p`.
pub open spec fn any_prefixed(ids: Seq<Seq<char>>, p: Seq<char>) -> bool {
    exists|i: int| 0 <= i < ids.len() && has_prefix(#[trigger] ids[i], p)
}

/// The texts of a list of strings.
pub open spec fn texts(v: Seq<String>) -> Seq<Seq<char>> {
    v.map_values(|s: String| s@)
}

/// The media column: which kinds of relay track a peer publishes, judged by
/// the track ids' prefixes.
pub open spec fn media_text(ids: Seq<Seq<char>>) -> Seq<char> {
    let a = any_prefixed(ids, "audio"@);
    let v = any_prefixed(ids, "video"@);
    if a && v {
        green() + "a+v"@ + reset()
    } else if a {
        yellow() + "aud"@ + reset()
    } else if v {
        yellow() + "vid"@ + reset()
    } else {
        dim() + " — "@ + reset()
    }
}

/// Green for a peer that uploads, dim for one that does not.
pub open spec fn rate_color(bps: u64) -> Seq<char> {
    if bps > 0 {
        green()
    } else {
        dim()
    }
}

/// Green for a connected peer, dim otherwise.
pub open spec fn state_color(state: Seq<char>) -> Seq<char> {
    if state == "connected"@ {
        green()
    } else {
        dim()
    }
}

/// The start of a peer's line: a dim bullet and the user id in bold.
pub open spec fn peer_name_text(p: PeerSample) -> Seq<char> {
    "    "@ + dim() + "·"@ + reset() + " "@ + bold() + p.uid@ + reset() + "  "@
}

/// A peer's rate column: an arrow and the rate, padded to 12 characters.
pub open spec fn peer_rate_text(bps: u64) -> Seq<char> {
    "  "@ + rate_color(bps) + "↑ "@ + pad_right(rate_text(bps as nat), 12) + reset() + "  "@
}

/// The end of a peer's line: its connection state.
pub open spec fn peer_state_text(p: PeerSample) -> Seq<char> {
    state_color(p.connection_state@) + p.connection_state@ + reset() + "\n"@
}

/// The dashboard line of one peer uploading `bps` bytes per second.
pub open spec fn peer_line(p: PeerSample, bps: u64) -> Seq<char> {
    peer_name_text(p) + media_text(texts(p.track_ids@)) + peer_rate_text(bps) + peer_state_text(p)
}

/// The lines of the first `n` peers of `sp`, with their rates `rs`.
pub open spec fn peer_lines(sp: Seq<PeerSample>, rs: Seq<u64>, n: nat) -> Seq<char>
    decreases n,
{
    if n == 0 {
        Seq::empty()
    } else {
        peer_lines(sp, rs, (n - 1) as nat) + peer_line(sp[n - 1], rs[n - 1])
    }
}

/// The room's total rate: green with its text when positive, else a dim zero.
pub open spec fn room_rate_text(bps: u64) -> Seq<char> {
    if bps > 0 {
        green() + "↑ "@ + rate_text(bps as nat) + reset()
    } else {
        dim() + "↑ 0 kbps"@ + reset()
    }
}

/// The heading line of a room.
pub open spec fn room_heading(rid: Seq<char>, npeers: nat, bps: u64) -> Seq<char> {
    "\n  "@ + cyan() + bold() + rid + reset() + "  "@ + dim() + "("@ + decimal(npeers) + " peer)  "@
        + reset() + room_rate_text(bps) + "\n"@
}

/// The key under which the previous byte count of peer `uid` in room `rid` is
/// kept: `"<rid>/<uid>"`.
pub open spec fn peer_key(rid: Seq<char>, uid: Seq<char>) -> Seq<char> {
    rid + "/"@ + uid
}

/// The rate of a peer whose counter reads `now`: the growth since the count
/// kept under `key` (zero when there is none, and zero when the counter went
/// down).
pub open spec fn rate_of(book: Seq<(Seq<char>, u64)>, key: Seq<char>, now: u64) -> u64 {
    let prev = match lookup(book, key) {
        Some(v) => v,
        None => now,
    };
    if now >= prev {
        (now - prev) as u64
    } else {
        0
    }
}

/// The rates of the first `n` peers of `sp` in room `rid`, and the book of
/// byte counts after recording theirs.
pub open spec fn room_rates(
    rid: Seq<char>,
    sp: Seq<PeerSample>,
    book: Seq<(Seq<char>, u64)>,
    n: nat,
) -> (Seq<u64>, Seq<(Seq<char>, u64)>)
    decreases n,
{
    if n == 0 {
        (Seq::empty(), book)
    } else {
        let (rs, b) = room_rates(rid, sp, book, (n - 1) as nat);
        let key = peer_key(rid, sp[n - 1].uid@);
        (rs.push(rate_of(b, key, sp[n - 1].bytes_up)), assoc_insert(b, key, sp[n - 1].bytes_up))
    }
}

/// The sum of a list of rates.
pub open spec fn total(rs: Seq<u64>) -> nat
    decreases rs.len(),
{
    if rs.len() == 0 {
        0
    } else {
        total(rs.drop_last()) + rs.last() as nat
    }
}

/// The text of one room, and the book afterwards.
pub open spec fn room_text(r: RoomSample, book: Seq<(Seq<char>, u64)>) -> (
    Seq<char>,
    Seq<(Seq<char>, u64)>,
) {
    let sp = sorted_by_uid(r.peers@);
    let (rs, b) = room_rates(r.id@, sp, book, sp.len());
    (room_heading(r.id@, sp.len(), total(rs) as u64) + peer_lines(sp, rs, sp.len()), b)
}

/// The text of the first `n` rooms, and the book afterwards.
pub open spec fn rooms_text(rooms: Seq<RoomSample>, book: Seq<(Seq<char>, u64)>, n: nat) -> (
    Seq<char>,
    Seq<(Seq<char>, u64)>,
)
    decreases n,
{
    if n == 0 {
        (Seq::empty(), book)
    } else {
        let (t, b) = rooms_text(rooms, book, (n - 1) as nat);
        (t + room_text(rooms[n - 1], b).0, room_text(rooms[n - 1], b).1)
    }
}

/// Whether the first `n` rooms' total rates stay within what `fmt_rate` takes.
pub open spec fn rooms_fit(rooms: Seq<RoomSample>, book: Seq<(Seq<char>, u64)>, n: nat) -> bool
    decreases n,
{
    if n == 0 {
        true
    } else {
        let b = rooms_text(rooms, book, (n - 1) as nat).1;
        let sp = sorted_by_uid(rooms[n - 1].peers@);
        &&& rooms_fit(rooms, book, (n - 1) as nat)
        &&& total(room_rates(rooms[n - 1].id@, sp, b, sp.len()).0) <= u64::MAX / 8
    }
}

/// The number of peers in the first `n` rooms.
pub open spec fn peer_count(rooms: Seq<RoomSample>, n: nat) -> nat
    decreases n,
{
    if n == 0 {
        0
    } else {
        peer_count(rooms, (n - 1) as nat) + rooms[n - 1].peers@.len()
    }
}

/// The first lines of the screen: title and address, and a rule.
pub open spec fn screen_title(port: Seq<char>) -> Seq<char> {
    "\x1B[2J\x1B[H"@ + bold() + "rchat"@ + reset() + "  "@ + dim() + "http://localhost:"@ + port
        + reset() + "\n"@ + dim() + rule() + reset() + "\n"@
}

/// The counts line of the screen, and a rule.
pub open spec fn screen_counts(nrooms: nat, npeers: nat) -> Seq<char> {
    "  rooms "@ + bold() + decimal(nrooms) + reset() + "   peers "@ + bold() + decimal(npeers)
        + reset() + "\n"@ + dim() + rule() + reset() + "\n"@
}

/// The top of the screen: title, address, room and peer counts.
pub open spec fn screen_head(port: Seq<char>, nrooms: nat, npeers: nat) -> Seq<char> {
    screen_title(port) + screen_counts(nrooms, npeers)
}

/// The note shown when there is no room.
pub open spec fn no_rooms_note() -> Seq<char> {
    dim() + "  (no active rooms)"@ + reset() + "\n"@
}

/// The bottom of the screen.
pub open spec fn screen_foot() -> Seq<char> {
    "\n"@ + dim() + rule() + "\n  logs → stderr  ·  Ctrl-C to quit"@ + reset() + "\n"@
}

/// The whole screen for the given rooms, as drawn with byte counts `book`
/// from the previous screen.
pub open spec fn screen(rooms: Seq<RoomSample>, port: Seq<char>, book: Seq<(Seq<char>, u64)>) -> Seq<
    char,
> {
    screen_head(port, rooms.len(), peer_count(rooms, rooms.len())) + (if rooms.len() == 0 {
        no_rooms_note()
    } else {
        Seq::empty()
    }) + rooms_text(rooms, book, rooms.len()).0 + screen_foot()
}

// ----- lemmas ---------------------------------------------------------------------

proof fn lemma_rates_prefix(
    rid: Seq<char>,
    sp: Seq<PeerSample>,
    book: Seq<(Seq<char>, u64)>,
    k: nat,
    n: nat,
)
    requires
        k <= n,
    ensures
        room_rates(rid, sp, book, n).0.len() == n,
        total(room_rates(rid, sp, book, k).0) <= total(room_rates(rid, sp, book, n).0),
        forall|i: int|
            0 <= i < k ==> #[trigger] room_rates(rid, sp, book, k).0[i] == room_rates(
                rid,
                sp,
                book,
                n,
            ).0[i],
    decreases n,
{
    if n > 0 {
        if k < n {
            lemma_rates_prefix(rid, sp, book, k, (n - 1) as nat);
            let rs = room_rates(rid, sp, book, n).0;
            assert(rs.drop_last() == room_rates(rid, sp, book, (n - 1) as nat).0);
        } else {
            lemma_rates_prefix(rid, sp, book, (n - 1) as nat, (n - 1) as nat);
        }
    }
}

proof fn lemma_total_bounds(rs: Seq<u64>)
    ensures
        forall|i: int| 0 <= i < rs.len() ==> #[trigger] rs[i] <= total(rs),
    decreases rs.len(),
{
    if rs.len() > 0 {
        lemma_total_bounds(rs.drop_last());
        assert forall|i: int| 0 <= i < rs.len() implies #[trigger] rs[i] <= total(rs) by {
            if i < rs.len() - 1 {
                assert(rs[i] == rs.drop_last()[i]);
            }
        }
    }
}

proof fn lemma_peer_count_mono(rooms: Seq<RoomSample>, k: nat, n: nat)
    requires
        k <= n,
    ensures
        peer_count(rooms, k) <= peer_count(rooms, n),
    decreases n,
{
    if k < n {
        lemma_peer_count_mono(rooms, k, (n - 1) as nat);
    }
}

proof fn lemma_fit_prefix(rooms: Seq<RoomSample>, book: Seq<(Seq<char>, u64)>, k: nat, n: nat)
    requires
        k <= n,
        rooms_fit(rooms, book, n),
    ensures
        rooms_fit(rooms, book, k),
    decreases n,
{
    if k < n {
        lemma_fit_prefix(rooms, book, k, (n - 1) as nat);
    }
}

// ----- executable rendering -----------------------------------------------------

/// The byte counts seen on the previous screen, keyed by `"<room>/<user>"`.
pub struct RateBook {
    prev: Table<u64>,
}

impl RateBook {
    /// The kept counts, in the order their keys were first seen.
    pub closed spec fn view(&self) -> Seq<(Seq<char>, u64)> {
        self.prev@
    }

    /// The book's invariant: no key occurs twice.
    pub open spec fn wf(&self) -> bool {
        unique_keys(self.view())
    }

    /// A copy of the book.
    pub fn copy(&self) -> (b: RateBook)
        ensures
            b.view() == self.view(),
    {
        RateBook { prev: self.prev.copy() }
    }

    /// An empty book.
    pub fn new() -> (b: RateBook)
        ensures
            b.view() == Seq::<(Seq<char>, u64)>::empty(),
            b.wf(),
    {
        RateBook { prev: Table::new() }
    }
}

/// Whether `s` starts with `p`.
pub fn starts_with(s: &str, p: &str) -> (b: bool)
    ensures
        b == has_prefix(s@, p@),
{
    let n = s.unicode_len();
    let m = p.unicode_len();
    if m > n {
        return false;
    }
    let mut i: usize = 0;
    while i < m
        invariant
            n == s@.len(),
            m == p@.len(),
            m <= n,
            i <= m,
            forall|j: int| 0 <= j < i ==> s@[j] == p@[j],
        decreases m - i,
    {
        if s.get_char(i) != p.get_char(i) {
            assert(s@.subrange(0, m as int)[i as int] != p@[i as int]);
            return false;
        }
        i += 1;
    }
    assert(s@.subrange(0, m as int) =~= p@);
    true
}

/// Whether some id starts with `p`.
fn any_starts_with(ids: &Vec<String>, p: &str) -> (b: bool)
    ensures
        b == any_prefixed(texts(ids@), p@),
{
    let mut i: usize = 0;
    while i < ids.len()
        invariant
            i <= ids@.len(),
            forall|j: int| 0 <= j < i ==> !has_prefix(#[trigger] texts(ids@)[j], p@),
        decreases ids@.len() - i,
    {
        if starts_with(ids[i].as_str(), p) {
            assert(has_prefix(texts(ids@)[i as int], p@));
            return true;
        }
        i += 1;
    }
    false
}

/// Appends the media column for a peer publishing tracks with these ids.
fn write_media(out: &mut String, ids: &Vec<String>)
    ensures
        final(out)@ == old(out)@ + media_text(texts(ids@)),
{
    let a = any_starts_with(ids, "audio");
    let v = any_starts_with(ids, "video");
    if a && v {
        out.append("\x1B[32m");
        out.append("a+v");
        out.append("\x1B[0m");
    } else if a {
        out.append("\x1B[33m");
        out.append("aud");
        out.append("\x1B[0m");
    } else if v {
        out.append("\x1B[33m");
        out.append("vid");
        out.append("\x1B[0m");
    } else {
        out.append("\x1B[2m");
        out.append(" — ");
        out.append("\x1B[0m");
    }
    assert(final(out)@ =~= old(out)@ + media_text(texts(ids@)));
}

/// Appends the part of a peer's line before its media column.
fn write_peer_name(out: &mut String, p: &PeerSample)
    ensures
        final(out)@ == old(out)@ + peer_name_text(*p),
{
    out.append("    ");
    out.append("\x1B[2m");
    out.append("·");
    out.append("\x1B[0m");
    out.append(" ");
    out.append("\x1B[1m");
    out.append(p.uid.as_str());
    out.append("\x1B[0m");
    out.append("  ");
    assert(final(out)@ =~= old(out)@ + peer_name_text(*p));
}

/// Appends the rate column of a peer uploading `bps` bytes per second.
fn write_peer_rate(out: &mut String, bps: u64)
    requires
        bps <= u64::MAX / 8,
    ensures
        final(out)@ == old(out)@ + peer_rate_text(bps),
{
    out.append("  ");
    if bps > 0 {
        out.append("\x1B[32m");
    } else {
        out.append("\x1B[2m");
    }
    out.append("↑ ");
    let rate = fmt_rate(bps);
    write_padded(out, rate.as_str(), 12);
    out.append("\x1B[0m");
    out.append("  ");
    assert(final(out)@ =~= old(out)@ + peer_rate_text(bps));
}

/// Appends the connection-state column and the end of a peer's line.
fn write_peer_state(out: &mut String, p: &PeerSample)
    ensures
        final(out)@ == old(out)@ + peer_state_text(*p),
{
    let connected = String::from_str("connected");
    if p.connection_state == connected {
        out.append("\x1B[32m");
    } else {
        out.append("\x1B[2m");
    }
    out.append(p.connection_state.as_str());
    out.append("\x1B[0m");
    out.append("\n");
    assert(final(out)@ =~= old(out)@ + peer_state_text(*p));
}

/// Appends the line of peer `p` uploading `bps` bytes per second.
fn write_peer_line(out: &mut String, p: &PeerSample, bps: u64)
    requires
        bps <= u64::MAX / 8,
    ensures
        final(out)@ == old(out)@ + peer_line(*p, bps),
{
    let ghost o0 = out@;
    write_peer_name(out, p);
    let ghost o1 = out@;
    write_media(out, &p.track_ids);
    let ghost o2 = out@;
    write_peer_rate(out, bps);
    let ghost o3 = out@;
    write_peer_state(out, p);
    proof {
        let n = peer_name_text(*p);
        let m = media_text(texts(p.track_ids@));
        let r = peer_rate_text(bps);
        let t = peer_state_text(*p);
        lemma_concat_associative(o0, n, m);
        lemma_concat_associative(o0, n + m, r);
        lemma_concat_associative(o0, n + m + r, t);
    }
}

/// Records the byte counts of room `r`'s peers, visited in the order `order`
/// (ascending user id), and returns their rates with their sum.
fn record_room_rates(r: &RoomSample, order: &Vec<usize>, book: &mut RateBook) -> (res: (
    Vec<u64>,
    u128,
))
    requires
        old(book).wf(),
        order@.len() == r.peers@.len(),
        forall|q: int| 0 <= q < order@.len() ==> #[trigger] order@[q] < r.peers@.len(),
        order@.map_values(|i: usize| r.peers@[i as int]) == sorted_by_uid(r.peers@),
    ensures
        res.0@ == room_rates(r.id@, sorted_by_uid(r.peers@), old(book).view(), order@.len() as nat).0,
        final(book).view() == room_rates(
            r.id@,
            sorted_by_uid(r.peers@),
            old(book).view(),
            order@.len() as nat,
        ).1,
        res.1 == total(res.0@),
        final(book).wf(),
{
    let ghost sp = sorted_by_uid(r.peers@);
    let ghost b0 = book.view();
    let n = order.len();
    let mut rates: Vec<u64> = Vec::new();
    let mut sum: u128 = 0;
    let mut k: usize = 0;
    while k < n
        invariant
            n == order@.len(),
            n == sp.len(),
            forall|q: int| 0 <= q < order@.len() ==> #[trigger] order@[q] < r.peers@.len(),
            order@.map_values(|i: usize| r.peers@[i as int]) == sp,
            k <= n,
            rates@ == room_rates(r.id@, sp, b0, k as nat).0,
            book.view() == room_rates(r.id@, sp, b0, k as nat).1,
            book.wf(),
            sum == total(rates@),
            sum <= k * 0xffff_ffff_ffff_ffff,
        decreases n - k,
    {
        let p = &r.peers[order[k]];
        assert(*p == sp[k as int]);
        let key = String::from_str(r.id.as_str()).concat("/").concat(p.uid.as_str());
        let now = p.bytes_up;
        let prev_val = match book.prev.get(key.as_str()) {
            Some(v) => *v,
            None => now,
        };
        let bps = now.saturating_sub(prev_val);
        let ghost before = rates@;
        proof {
            assert(key@ == peer_key(r.id@, sp[k as int].uid@));
            assert(bps == rate_of(book.view(), key@, now));
            lemma_insert(book.view(), key@, now);
            assert(room_rates(r.id@, sp, b0, (k + 1) as nat).0 == before.push(bps));
            assert(before.push(bps).drop_last() =~= before);
            assert(total(before.push(bps)) == total(before) + bps);
        }
        book.prev.insert(key.as_str(), now);
        sum = sum + bps as u128;
        rates.push(bps);
        k += 1;
    }
    (rates, sum)
}

/// Appends the heading line of room `rid` with `npeers` peers uploading
/// `bps` bytes per second in all.
fn write_room_heading(out: &mut String, rid: &str, npeers: u64, bps: u64)
    requires
        bps <= u64::MAX / 8,
    ensures
        final(out)@ == old(out)@ + room_heading(rid@, npeers as nat, bps),
{
    out.append("\n  ");
    out.append("\x1B[36m");
    out.append("\x1B[1m");
    out.append(rid);
    out.append("\x1B[0m");
    out.append("  ");
    out.append("\x1B[2m");
    out.append("(");
    write_decimal(out, npeers);
    out.append(" peer)  ");
    out.append("\x1B[0m");
    if bps > 0 {
        out.append("\x1B[32m");
        out.append("↑ ");
        let text = fmt_rate(bps);
        out.append(text.as_str());
        out.append("\x1B[0m");
    } else {
        out.append("\x1B[2m");
        out.append("↑ 0 kbps");
        out.append("\x1B[0m");
    }
    out.append("\n");
    assert(final(out)@ =~= old(out)@ + room_heading(rid@, npeers as nat, bps));
}

/// Appends the text of room `r`, recording its peers' byte counts in `book`.
fn write_room(out: &mut String, r: &RoomSample, book: &mut RateBook)
    requires
        old(book).wf(),
        distinct_uids(r.peers@),
        total(
            room_rates(
                r.id@,
                sorted_by_uid(r.peers@),
                old(book).view(),
                sorted_by_uid(r.peers@).len(),
            ).0,
        ) <= u64::MAX / 8,
    ensures
        final(out)@ == old(out)@ + room_text(*r, old(book).view()).0,
        final(book).view() == room_text(*r, old(book).view()).1,
        final(book).wf(),
{
    let ghost sp = sorted_by_uid(r.peers@);
    let ghost b0 = book.view();
    let order = uid_order(&r.peers);
    let n = order.len();
    let (rates, sum) = record_room_rates(r, &order, book);
    proof {
        lemma_rates_prefix(r.id@, sp, b0, n as nat, n as nat);
    }
    let room_bps = sum as u64;
    write_room_heading(out, r.id.as_str(), n as u64, room_bps);
    let ghost head = out@;
    proof {
        lemma_total_bounds(rates@);
    }
    let mut k: usize = 0;
    while k < n
        invariant
            n == order@.len(),
            n == sp.len(),
            n == rates@.len(),
            forall|q: int| 0 <= q < order@.len() ==> #[trigger] order@[q] < r.peers@.len(),
            order@.map_values(|i: usize| r.peers@[i as int]) == sp,
            k <= n,
            forall|i: int| 0 <= i < rates@.len() ==> #[trigger] rates@[i] <= u64::MAX / 8,
            out@ == head + peer_lines(sp, rates@, k as nat),
        decreases n - k,
    {
        let p = &r.peers[order[k]];
        assert(*p == sp[k as int]);
        write_peer_line(out, p, rates[k]);
        k += 1;
    }
    assert(final(out)@ =~= old(out)@ + room_text(*r, b0).0);
}

fn write_title(out: &mut String, port: &str)
    ensures
        final(out)@ == old(out)@ + screen_title(port@),
{
    out.append("\x1B[2J\x1B[H");
    out.append("\x1B[1m");
    out.append("rchat");
    out.append("\x1B[0m");
    out.append("  ");
    out.append("\x1B[2m");
    out.append("http://localhost:");
    out.append(port);
    out.append("\x1B[0m");
    out.append("\n");
    out.append("\x1B[2m");
    out.append("────────────────────────────────────────────────");
    out.append("\x1B[0m");
    out.append("\n");
    assert(final(out)@ =~= old(out)@ + screen_title(port@));
}

fn write_counts(out: &mut String, nrooms: u64, npeers: u64)
    ensures
        final(out)@ == old(out)@ + screen_counts(nrooms as nat, npeers as nat),
{
    out.append("  rooms ");
    out.append("\x1B[1m");
    write_decimal(out, nrooms);
    out.append("\x1B[0m");
    out.append("   peers ");
    out.append("\x1B[1m");
    write_decimal(out, npeers);
    out.append("\x1B[0m");
    out.append("\n");
    out.append("\x1B[2m");
    out.append("────────────────────────────────────────────────");
    out.append("\x1B[0m");
    out.append("\n");
    assert(final(out)@ =~= old(out)@ + screen_counts(nrooms as nat, npeers as nat));
}

/// The whole dashboard screen for `rooms` (in the server's room order),
/// listening on `port`.  `book` holds each peer's byte count from the
/// previous screen and is updated to this one's; a peer's rate is the growth
/// of its count since then.
pub fn render_dashboard(rooms: &Vec<RoomSample>, port: &str, book: &mut RateBook) -> (out: String)
    requires
        old(book).wf(),
        forall|i: int| 0 <= i < rooms@.len() ==> distinct_uids(#[trigger] rooms@[i].peers@),
        peer_count(rooms@, rooms@.len()) <= usize::MAX,
        rooms_fit(rooms@, old(book).view(), rooms@.len()),
    ensures
        out@ == screen(rooms@, port@, old(book).view()),
        final(book).view() == rooms_text(rooms@, old(book).view(), rooms@.len()).1,
        final(book).wf(),
{
    let ghost b0 = book.view();
    let nrooms = rooms.len();
    let mut npeers: usize = 0;
    let mut i: usize = 0;
    while i < nrooms
        invariant
            nrooms == rooms@.len(),
            i <= nrooms,
            npeers == peer_count(rooms@, i as nat),
            peer_count(rooms@, nrooms as nat) <= usize::MAX,
        decreases nrooms - i,
    {
        proof {
            lemma_peer_count_mono(rooms@, (i + 1) as nat, nrooms as nat);
        }
        npeers = npeers + rooms[i].peers.len();
        i += 1;
    }
    let mut body = String::new();
    let mut i: usize = 0;
    assert(body@ =~= rooms_text(rooms@, b0, 0).0);
    while i < nrooms
        invariant
            nrooms == rooms@.len(),
            i <= nrooms,
            forall|j: int| 0 <= j < rooms@.len() ==> distinct_uids(#[trigger] rooms@[j].peers@),
            rooms_fit(rooms@, b0, nrooms as nat),
            body@ == rooms_text(rooms@, b0, i as nat).0,
            book.view() == rooms_text(rooms@, b0, i as nat).1,
            book.wf(),
        decreases nrooms - i,
    {
        proof {
            lemma_fit_prefix(rooms@, b0, (i + 1) as nat, nrooms as nat);
        }
        write_room(&mut body, &rooms[i], book);
        i += 1;
    }
    let mut out = String::new();
    write_title(&mut out, port);
    let ghost o1 = out@;
    write_counts(&mut out, nrooms as u64, npeers as u64);
    let ghost o2 = out@;
    let ghost note = if nrooms == 0 {
        no_rooms_note()
    } else {
        Seq::empty()
    };
    if nrooms == 0 {
        write_no_rooms(&mut out);
    }
    let ghost o3 = out@;
    out.append(body.as_str());
    let ghost o4 = out@;
    write_foot(&mut out);
    proof {
        let t = screen_title(port@);
        let c = screen_counts(nrooms as nat, npeers as nat);
        assert(o1 =~= t);
        assert(o3 =~= o2 + note);
        lemma_concat_associative(t, c, note);
    }
    out
}

fn write_no_rooms(out: &mut String)
    ensures
        final(out)@ == old(out)@ + no_rooms_note(),
{
    out.append("\x1B[2m");
    out.append("  (no active rooms)");
    out.append("\x1B[0m");
    out.append("\n");
    assert(final(out)@ =~= old(out)@ + no_rooms_note());
}

fn write_foot(out: &mut String)
    ensures
        final(out)@ == old(out)@ + screen_foot(),
{
    out.append("\n");
    out.append("\x1B[2m");
    out.append("────────────────────────────────────────────────");
    out.append("\n  logs → stderr  ·  Ctrl-C to quit");
    out.append("\x1B[0m");
    out.append("\n");
    assert(final(out)@ =~= old(out)@ + screen_foot());
}

/// Whether no two peers share a user id.
fn peers_distinct(ps: &Vec<PeerSample>) -> (b: bool)
    ensures
        b == distinct_uids(ps@),
{
    let n = ps.len();
    let mut i: usize = 0;
    while i < n
        invariant
            n == ps@.len(),
            i <= n,
            forall|a: int, c: int|
                #![trigger ps@[a], ps@[c]]
                0 <= a < i && 0 <= c < n && a != c ==> ps@[a].uid@ != ps@[c].uid@,
        decreases n - i,
    {
        let mut j: usize = 0;
        while j < n
            invariant
                n == ps@.len(),
                i < n,
                j <= n,
                forall|c: int|
                    #![trigger ps@[c]]
                    0 <= c < j && c != i ==> ps@[i as int].uid@ != ps@[c].uid@,
            decreases n - j,
        {
            if j != i && ps[i].uid == ps[j].uid {
                return false;
            }
            j += 1;
        }
        i += 1;
    }
    true
}

/// Whether `render_dashboard` accepts `rooms` with `book`: user ids are
/// distinct within every room, the peers can be counted in a `usize`, and no
/// room's total upload rate is too large for `fmt_rate`.
pub fn can_render(rooms: &Vec<RoomSample>, book: &RateBook) -> (b: bool)
    requires
        book.wf(),
    ensures
        b == ((forall|i: int| 0 <= i < rooms@.len() ==> distinct_uids(#[trigger] rooms@[i].peers@))
            && peer_count(rooms@, rooms@.len()) <= usize::MAX && rooms_fit(
            rooms@,
            book.view(),
            rooms@.len(),
        )),
{
    let nrooms = rooms.len();
    let mut i: usize = 0;
    while i < nrooms
        invariant
            nrooms == rooms@.len(),
            i <= nrooms,
            forall|j: int| 0 <= j < i ==> distinct_uids(#[trigger] rooms@[j].peers@),
        decreases nrooms - i,
    {
        if !peers_distinct(&rooms[i].peers) {
            return false;
        }
        i += 1;
    }
    let mut count: u128 = 0;
    let mut i: usize = 0;
    while i < nrooms
        invariant
            nrooms == rooms@.len(),
            i <= nrooms,
            count == peer_count(rooms@, i as nat),
            count <= i * 0xffff_ffff_ffff_ffff,
        decreases nrooms - i,
    {
        count = count + rooms[i].peers.len() as u128;
        i += 1;
    }
    if count > usize::MAX as u128 {
        return false;
    }
    let ghost b0 = book.view();
    let mut scratch = book.copy();
    let mut i: usize = 0;
    while i < nrooms
        invariant
            nrooms == rooms@.len(),
            i <= nrooms,
            forall|j: int| 0 <= j < rooms@.len() ==> distinct_uids(#[trigger] rooms@[j].peers@),
            scratch.view() == rooms_text(rooms@, b0, i as nat).1,
            scratch.wf(),
            rooms_fit(rooms@, b0, i as nat),
            b0 == book.view(),
        decreases nrooms - i,
    {
        let order = uid_order(&rooms[i].peers);
        let (_rates, sum) = record_room_rates(&rooms[i], &order, &mut scratch);
        if sum > (u64::MAX / 8) as u128 {
            proof {
                let sp = sorted_by_uid(rooms@[i as int].peers@);
                assert(sp.len() == order@.len());
                lemma_fit_prefix_false(rooms@, b0, (i + 1) as nat, nrooms as nat);
            }
            return false;
        }
        i += 1;
    }
    true
}

/// A peer's rate is what its byte counter grew since the previous screen: a
/// peer seen for the first time shows zero, and so does one whose counter did
/// not move since it was recorded.
pub proof fn law_rate_since_previous(
    book: Seq<(Seq<char>, u64)>,
    key: Seq<char>,
    prev: u64,
    now: u64,
)
    requires
        unique_keys(book),
    ensures
        lookup(book, key) == Some(prev) && now >= prev ==> rate_of(book, key, now) == now - prev,
        lookup(book, key) is None ==> rate_of(book, key, now) == 0,
        rate_of(assoc_insert(book, key, now), key, now) == 0,
{
    lemma_insert(book, key, now);
}

/// The media column tells what a peer sends by its track ids: "aud" in
/// yellow exactly when some id starts with "audio" and none with "video",
/// "vid" in yellow for the converse, "a+v" in green when both kinds are
/// there, and a dim dash when neither is.
pub proof fn law_media_column(ids: Seq<Seq<char>>)
    ensures
        ({
            let audio = exists|i: int|
                0 <= i < ids.len() && 5 <= ids[i].len() && #[trigger] ids[i].subrange(0, 5)
                    == seq!['a', 'u', 'd', 'i', 'o'];
            let video = exists|i: int|
                0 <= i < ids.len() && 5 <= ids[i].len() && #[trigger] ids[i].subrange(0, 5)
                    == seq!['v', 'i', 'd', 'e', 'o'];
            &&& (audio && !video) ==> media_text(ids) == "\x1B[33maud\x1B[0m"@
            &&& (video && !audio) ==> media_text(ids) == "\x1B[33mvid\x1B[0m"@
            &&& (audio && video) ==> media_text(ids) == "\x1B[32ma+v\x1B[0m"@
            &&& (!audio && !video) ==> media_text(ids) == "\x1B[2m — \x1B[0m"@
        }),
{
    reveal_strlit("audio");
    reveal_strlit("video");
    reveal_strlit("aud");
    reveal_strlit("vid");
    reveal_strlit("a+v");
    reveal_strlit(" — ");
    reveal_strlit("\x1B[0m");
    reveal_strlit("\x1B[2m");
    reveal_strlit("\x1B[32m");
    reveal_strlit("\x1B[33m");
    reveal_strlit("\x1B[33maud\x1B[0m");
    reveal_strlit("\x1B[33mvid\x1B[0m");
    reveal_strlit("\x1B[32ma+v\x1B[0m");
    reveal_strlit("\x1B[2m — \x1B[0m");
    assert("audio"@ =~= seq!['a', 'u', 'd', 'i', 'o']);
    assert("video"@ =~= seq!['v', 'i', 'd', 'e', 'o']);
    assert(yellow() + "aud"@ + reset() =~= "\x1B[33maud\x1B[0m"@);
    assert(yellow() + "vid"@ + reset() =~= "\x1B[33mvid\x1B[0m"@);
    assert(green() + "a+v"@ + reset() =~= "\x1B[32ma+v\x1B[0m"@);
    assert(dim() + " — "@ + reset() =~= "\x1B[2m — \x1B[0m"@);
    assert(any_prefixed(ids, "audio"@) == exists|i: int|
        0 <= i < ids.len() && 5 <= ids[i].len() && #[trigger] ids[i].subrange(0, 5) == seq![
            'a',
            'u',
            'd',
            'i',
            'o',
        ]);
    assert(any_prefixed(ids, "video"@) == exists|i: int|
        0 <= i < ids.len() && 5 <= ids[i].len() && #[trigger] ids[i].subrange(0, 5) == seq![
            'v',
            'i',
            'd',
            'e',
            'o',
        ]);
}

proof fn lemma_fit_prefix_false(rooms: Seq<RoomSample>, book: Seq<(Seq<char>, u64)>, k: nat, n: nat)
    requires
        k <= n,
        !rooms_fit(rooms, book, k),
    ensures
        !rooms_fit(rooms, book, n),
{
    if rooms_fit(rooms, book, n) {
        lemma_fit_prefix(rooms, book, k, n);
    }
}

} // verus!
