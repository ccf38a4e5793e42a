use rchat::mesh::{MeshState, RelayAction};

fn deliver(a: RelayAction) -> Option<(u64, serde_json::Value)> {
    match a {
        RelayAction::Deliver { handle, text } => Some((handle, serde_json::from_str(&text).unwrap())),
        _ => None,
    }
}

#[test]
fn create_room_gives_a_short_id() {
    let mut s = MeshState::new();
    let id = s.create_room();
    assert_eq!(id.len(), 8);
    let plan = s.join(&id, "u1", 1);
    assert!(plan.existing.is_empty());
}

#[test]
fn join_reports_existing_users_and_notifies_others() {
    let mut s = MeshState::new();
    let p1 = s.join("room", "alice", 1);
    assert!(p1.existing.is_empty());
    assert!(p1.notify.is_empty());
    let p2 = s.join("room", "bob", 2);
    assert_eq!(p2.existing, vec!["alice".to_string()]);
    assert_eq!(p2.notify, vec![1]);
    let p3 = s.join("room", "carol", 3);
    assert_eq!(p3.existing, vec!["alice".to_string(), "bob".to_string()]);
    assert_eq!(p3.notify, vec![1, 2]);
    let other = s.join("other", "dave", 4);
    assert!(other.existing.is_empty());
}

#[test]
fn relay_delivers_to_the_named_user_with_sender_stamped() {
    let mut s = MeshState::new();
    s.join("room", "alice", 1);
    s.join("room", "bob", 2);
    let (h, v) = deliver(s.relay("room", "alice", r#"{"to":"bob","type":"offer","sdp":"x"}"#)).unwrap();
    assert_eq!(h, 2);
    assert_eq!(v["from"], "alice");
    assert_eq!(v["to"], "bob");
    assert_eq!(v["sdp"], "x");
    let (_, v) = deliver(s.relay("room", "bob", r#"{"to":"alice","from":"mallory"}"#)).unwrap();
    assert_eq!(v["from"], "bob");
}

#[test]
fn relay_serialises_like_serde_json() {
    let mut s = MeshState::new();
    s.join("room", "alice", 1);
    s.join("room", "bob", 2);
    let text = r#"{"type":"ice","to":"bob","candidate":{"a":1}}"#;
    let mut v: serde_json::Value = serde_json::from_str(text).unwrap();
    v["from"] = serde_json::Value::String("alice".to_string());
    match s.relay("room", "alice", text) {
        RelayAction::Deliver { handle, text } => {
            assert_eq!(handle, 2);
            assert_eq!(text, v.to_string());
        }
        _ => panic!("expected a delivery"),
    }
}

#[test]
fn relay_ignores_what_it_cannot_route() {
    let mut s = MeshState::new();
    s.join("room", "alice", 1);
    s.join("room", "bob", 2);
    s.join("elsewhere", "carol", 3);
    assert!(matches!(s.relay("room", "alice", "not json"), RelayAction::Ignore));
    assert!(matches!(s.relay("room", "alice", r#"{"type":"x"}"#), RelayAction::Ignore));
    assert!(matches!(s.relay("room", "alice", r#"{"to":5}"#), RelayAction::Ignore));
    assert!(matches!(s.relay("room", "alice", r#"{"to":"carol"}"#), RelayAction::Ignore));
    assert!(matches!(s.relay("room", "alice", "null"), RelayAction::Ignore));
    assert!(matches!(s.relay("nowhere", "alice", r#"{"to":"bob"}"#), RelayAction::Ignore));
}

#[test]
fn relay_aborts_on_json_that_is_not_an_object() {
    let mut s = MeshState::new();
    s.join("room", "alice", 1);
    assert!(matches!(s.relay("room", "alice", "[1,2]"), RelayAction::Abort));
    assert!(matches!(s.relay("room", "alice", "5"), RelayAction::Abort));
    assert!(matches!(s.relay("room", "alice", r#""text""#), RelayAction::Abort));
}

#[test]
fn leave_notifies_the_rest_and_drops_empty_rooms() {
    let mut s = MeshState::new();
    s.join("room", "alice", 1);
    s.join("room", "bob", 2);
    let l1 = s.leave("room", "alice");
    assert_eq!(l1.notify, vec![2]);
    assert!(!l1.room_removed);
    assert!(matches!(s.relay("room", "bob", r#"{"to":"alice"}"#), RelayAction::Ignore));
    let l2 = s.leave("room", "bob");
    assert!(l2.notify.is_empty());
    assert!(l2.room_removed);
    let again = s.leave("room", "bob");
    assert!(again.notify.is_empty());
    assert!(!again.room_removed);
    let fresh = s.join("room", "carol", 3);
    assert!(fresh.existing.is_empty());
}

#[test]
fn join_then_leave_restores_the_room() {
    let mut s = MeshState::new();
    s.join("room", "alice", 1);
    s.join("room", "bob", 2);
    let j = s.join("room", "carol", 3);
    assert_eq!(j.notify, vec![1, 2]);
    s.leave("room", "carol");
    let probe = s.join("room", "dave", 4);
    assert_eq!(probe.existing, vec!["alice".to_string(), "bob".to_string()]);
}

#[test]
fn route_follows_what_was_read_of_the_message() {
    let mut s = MeshState::new();
    s.join("room", "alice", 1);
    s.join("room", "bob", 2);
    let stamped = || Some("{\"from\":\"alice\",\"to\":\"bob\"}".to_string());
    match s.route("room", Some(Some("bob".to_string())), stamped()) {
        RelayAction::Deliver { handle, text } => {
            assert_eq!(handle, 2);
            assert_eq!(text, "{\"from\":\"alice\",\"to\":\"bob\"}");
        }
        _ => panic!("expected a delivery"),
    }
    assert!(matches!(s.route("room", None, stamped()), RelayAction::Ignore));
    assert!(matches!(s.route("room", Some(Some("bob".to_string())), None), RelayAction::Abort));
    assert!(matches!(s.route("room", Some(None), None), RelayAction::Abort));
    assert!(matches!(s.route("room", Some(None), stamped()), RelayAction::Ignore));
    assert!(matches!(s.route("room", Some(Some("carol".to_string())), stamped()), RelayAction::Ignore));
    assert!(matches!(s.route("elsewhere", Some(Some("bob".to_string())), stamped()), RelayAction::Ignore));
}

#[test]
fn open_room_replaces_a_room_with_an_empty_one() {
    let mut s = MeshState::new();
    s.join("room", "alice", 1);
    s.open_room("room");
    let plan = s.join("room", "bob", 2);
    assert!(plan.existing.is_empty());
    assert!(plan.notify.is_empty());
}
