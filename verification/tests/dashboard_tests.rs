use std::collections::HashMap;

use rchat::dashboard::{
    can_render, render_dashboard, starts_with, uid_order, PeerSample, RateBook, RoomSample,
};

const R: &str = "\x1B[0m";
const B: &str = "\x1B[1m";
const D: &str = "\x1B[2m";
const G: &str = "\x1B[32m";
const Y: &str = "\x1B[33m";
const C: &str = "\x1B[36m";
const SEP: &str = "────────────────────────────────────────────────";

fn expected_rate(bps: u64) -> String {
    let kbps = bps * 8 / 1000;
    if kbps >= 1000 { format!("{:.1} Mbps", kbps as f64 / 1000.0) } else { format!("{kbps} kbps") }
}

/// The screen as the dashboard draws it, written out directly.
fn expected_screen(rooms: &[RoomSample], port: &str, prev: &mut HashMap<String, u64>) -> String {
    let total_peers: usize = rooms.iter().map(|r| r.peers.len()).sum();
    let mut out = "\x1B[2J\x1B[H".to_string();
    out += &format!("{B}rchat{R}  {D}http://localhost:{port}{R}\n");
    out += &format!("{D}{SEP}{R}\n");
    out += &format!("  rooms {B}{}{R}   peers {B}{total_peers}{R}\n", rooms.len());
    out += &format!("{D}{SEP}{R}\n");
    if rooms.is_empty() {
        out += &format!("{D}  (no active rooms){R}\n");
    }
    for room in rooms {
        let rid = &room.id;
        let mut peers: Vec<&PeerSample> = room.peers.iter().collect();
        peers.sort_by(|a, b| a.uid.cmp(&b.uid));
        let mut room_bps: u64 = 0;
        let mut peer_rates: Vec<u64> = Vec::new();
        for p in &peers {
            let key = format!("{rid}/{}", p.uid);
            let now = p.bytes_up;
            let prev_val = prev.get(&key).copied().unwrap_or(now);
            let bps = now.saturating_sub(prev_val);
            prev.insert(key, now);
            room_bps += bps;
            peer_rates.push(bps);
        }
        let room_rate = if room_bps > 0 {
            format!("{G}↑ {}{R}", expected_rate(room_bps))
        } else {
            format!("{D}↑ 0 kbps{R}")
        };
        out += &format!("\n  {C}{B}{rid}{R}  {D}({} peer)  {R}{room_rate}\n", peers.len());
        for (p, bps) in peers.iter().zip(peer_rates.iter()) {
            let cs = &p.connection_state;
            let cs_col = if cs == "connected" { G } else { D };
            let (mut has_a, mut has_v) = (false, false);
            for t in &p.track_ids {
                if t.starts_with("audio") { has_a = true; }
                if t.starts_with("video") { has_v = true; }
            }
            let media = match (has_a, has_v) {
                (true, true) => format!("{G}a+v{R}"),
                (true, false) => format!("{Y}aud{R}"),
                (false, true) => format!("{Y}vid{R}"),
                _ => format!("{D} — {R}"),
            };
            let rate_col = if *bps > 0 { G } else { D };
            out += &format!(
                "    {D}·{R} {B}{}{R}  {media}  {rate_col}↑ {:<12}{R}  {cs_col}{cs}{R}\n",
                p.uid,
                expected_rate(*bps),
            );
        }
    }
    out += &format!("\n{D}{SEP}\n  logs → stderr  ·  Ctrl-C to quit{R}\n");
    out
}

fn peer(uid: &str, bytes: u64, state: &str, tracks: &[&str]) -> PeerSample {
    PeerSample {
        uid: uid.to_string(),
        bytes_up: bytes,
        connection_state: state.to_string(),
        track_ids: tracks.iter().map(|t| t.to_string()).collect(),
    }
}

fn sample(bytes: [u64; 3]) -> Vec<RoomSample> {
    vec![
        RoomSample {
            id: "r1".to_string(),
            peers: vec![
                peer("zed", bytes[0], "connected", &["audio-zed", "video-zed"]),
                peer("amy", bytes[1], "checking", &["video-amy"]),
            ],
        },
        RoomSample { id: "r2".to_string(), peers: vec![peer("bo", bytes[2], "new", &[])] },
    ]
}

#[test]
fn dashboard_without_rooms() {
    let rooms: Vec<RoomSample> = Vec::new();
    let mut book = RateBook::new();
    let mut prev = HashMap::new();
    assert!(can_render(&rooms, &book));
    let screen = render_dashboard(&rooms, "3000", &mut book);
    assert_eq!(screen, expected_screen(&rooms, "3000", &mut prev));
    assert!(screen.contains("(no active rooms)"));
}

#[test]
fn dashboard_matches_the_direct_rendering_over_three_screens() {
    let mut book = RateBook::new();
    let mut prev = HashMap::new();
    for bytes in [[100, 5, 0], [200_100, 5, 7], [200_050, 130_005, 2_000_000_007]] {
        let rooms = sample(bytes);
        assert!(can_render(&rooms, &book));
        let got = render_dashboard(&rooms, "8080", &mut book);
        let want = expected_screen(&rooms, "8080", &mut prev);
        assert_eq!(got, want);
    }
}

#[test]
fn first_screen_shows_no_rate_and_a_repeat_shows_zero() {
    let mut book = RateBook::new();
    let rooms = sample([1000, 2000, 3000]);
    let first = render_dashboard(&rooms, "1", &mut book);
    assert!(first.contains("↑ 0 kbps"));
    assert!(!first.contains("Mbps"));
    let second = render_dashboard(&rooms, "1", &mut book);
    assert_eq!(first, second);
    let third = render_dashboard(&sample([1000 + 250_000, 2000, 3000]), "1", &mut book);
    assert!(third.contains("2.0 Mbps"));
}

#[test]
fn peers_are_listed_by_user_id() {
    let rooms = sample([0, 0, 0]);
    let order = uid_order(&rooms[0].peers);
    assert_eq!(order, vec![1, 0]);
    let mut book = RateBook::new();
    let screen = render_dashboard(&rooms, "1", &mut book);
    assert!(screen.find("amy").unwrap() < screen.find("zed").unwrap());
    assert!(screen.contains(&format!("{G}a+v{R}")));
    assert!(screen.contains(&format!("{Y}vid{R}")));
    assert!(screen.contains(&format!("{D} — {R}")));
}

#[test]
fn can_render_refuses_repeated_ids_and_huge_rates() {
    let book = RateBook::new();
    let dup = vec![RoomSample {
        id: "r".to_string(),
        peers: vec![peer("a", 0, "new", &[]), peer("a", 0, "new", &[])],
    }];
    assert!(!can_render(&dup, &book));
    let mut book = RateBook::new();
    let rooms = vec![RoomSample { id: "r".to_string(), peers: vec![peer("a", 0, "new", &[]), peer("b", 0, "new", &[])] }];
    render_dashboard(&rooms, "1", &mut book);
    let big = vec![RoomSample {
        id: "r".to_string(),
        peers: vec![peer("a", u64::MAX / 8, "new", &[]), peer("b", 1, "new", &[])],
    }];
    assert!(!can_render(&big, &book));
    let fine = vec![RoomSample {
        id: "r".to_string(),
        peers: vec![peer("a", u64::MAX / 8, "new", &[]), peer("b", 0, "new", &[])],
    }];
    assert!(can_render(&fine, &book));
}

#[test]
fn prefix_test() {
    assert!(starts_with("audio-x", "audio"));
    assert!(!starts_with("aud", "audio"));
    assert!(!starts_with("video-x", "audio"));
    assert!(starts_with("anything", ""));
}
