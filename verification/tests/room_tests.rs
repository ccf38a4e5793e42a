use rchat::room::{relay_stream_id, relay_track_id, AppState, MediaKind, RelayTrack, Room};

fn track(handle: u64, kind: MediaKind, uid: &str) -> RelayTrack {
    RelayTrack { handle, id: relay_track_id(kind, uid).unwrap() }
}

#[test]
fn relay_ids_encode_kind_and_owner() {
    assert_eq!(relay_track_id(MediaKind::Audio, "ab12cd34").as_deref(), Some("audio-ab12cd34"));
    assert_eq!(relay_track_id(MediaKind::Video, "u").as_deref(), Some("video-u"));
    assert_eq!(relay_track_id(MediaKind::Unspecified, "u"), None);
    assert_eq!(relay_stream_id("ab12cd34"), "user-ab12cd34");
}

#[test]
fn relay_tracks_except_skips_only_the_excluded_user() {
    let mut room = Room::new();
    room.add_relay_track("alice", track(1, MediaKind::Audio, "alice"));
    room.add_relay_track("bob", track(2, MediaKind::Audio, "bob"));
    room.add_relay_track("alice", track(3, MediaKind::Video, "alice"));
    room.add_relay_track("carol", track(4, MediaKind::Video, "carol"));
    assert_eq!(room.relay_tracks_except("bob"), vec![1, 3, 4]);
    assert_eq!(room.relay_tracks_except("alice"), vec![2, 4]);
    assert_eq!(room.relay_tracks_except("dave"), vec![1, 3, 2, 4]);
    assert_eq!(room.track_ids("alice"), vec!["audio-alice".to_string(), "video-alice".to_string()]);
    assert!(room.track_ids("dave").is_empty());
}

#[test]
fn new_track_is_offered_to_others_but_not_back_to_its_publisher() {
    let mut room = Room::new();
    room.add_relay_track("bob", track(2, MediaKind::Audio, "bob"));
    let before = room.relay_tracks_except("alice");
    room.add_relay_track("alice", track(9, MediaKind::Video, "alice"));
    assert_eq!(room.relay_tracks_except("alice"), before);
    assert!(room.relay_tracks_except("bob").contains(&9));
    assert!(room.relay_tracks_except("carol").contains(&9));
}

#[test]
fn remove_drops_peer_and_its_tracks() {
    let mut room = Room::new();
    room.insert_peer("alice", 10);
    room.insert_peer("bob", 11);
    room.add_relay_track("alice", track(1, MediaKind::Audio, "alice"));
    room.add_relay_track("bob", track(2, MediaKind::Audio, "bob"));
    room.remove("alice");
    assert_eq!(room.peer("alice"), None);
    assert_eq!(room.peer("bob"), Some(11));
    assert_eq!(room.peer_ids(), vec!["bob".to_string()]);
    assert_eq!(room.relay_tracks_except("carol"), vec![2]);
    assert!(!room.relay_tracks_except("bob").contains(&1));
    room.remove("nobody");
    assert_eq!(room.peer_ids(), vec!["bob".to_string()]);
}

#[test]
fn peers_except_lists_the_others_in_join_order() {
    let mut room = Room::new();
    room.insert_peer("a", 1);
    room.insert_peer("b", 2);
    room.insert_peer("c", 3);
    room.insert_peer("a", 4);
    assert_eq!(room.peers_except("b"), vec![("a".to_string(), 4), ("c".to_string(), 3)]);
    assert_eq!(room.peers_except("zz").len(), 3);
}

#[test]
fn get_or_create_creates_once_and_keeps_changes() {
    let mut state = AppState::new();
    state.get_or_create("r1").insert_peer("alice", 7);
    state.get_or_create("r2");
    assert_eq!(state.get_or_create("r1").peer("alice"), Some(7));
    assert_eq!(state.rooms().len(), 2);
    assert_eq!(state.rooms().keys(), vec!["r1".to_string(), "r2".to_string()]);
    assert_eq!(state.get_or_create("r2").peer_ids().len(), 0);
}

#[test]
fn track_id_owner_is_what_follows_the_first_hyphen() {
    let id = relay_track_id(MediaKind::Video, "ab-cd").unwrap();
    assert_eq!(id, "video-ab-cd");
    let (kind, owner) = id.split_once('-').unwrap();
    assert_eq!(kind, "video");
    assert_eq!(owner, "ab-cd");
    assert_ne!(relay_track_id(MediaKind::Audio, "x"), relay_track_id(MediaKind::Video, "x"));
    assert_ne!(relay_stream_id("a"), relay_stream_id("b"));
    assert_eq!(relay_stream_id("a-b"), "user-a-b");
}
