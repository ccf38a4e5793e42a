use rchat::signal::{ClientMsg, IceCandidateInit, ServerMsg};

#[test]
fn signal_values_carry_their_fields() {
    let c = IceCandidateInit {
        candidate: "candidate:1 1 udp 1 10.0.0.1 5000 typ host".to_string(),
        sdp_mid: Some("0".to_string()),
        sdp_mline_index: Some(0),
        username_fragment: None,
    };
    let copy = c.clone();
    assert_eq!(copy.sdp_mline_index, Some(0));
    match (ClientMsg::IceCandidate { candidate: c }) {
        ClientMsg::IceCandidate { candidate } => assert_eq!(candidate.sdp_mid.as_deref(), Some("0")),
        _ => panic!("wrong variant"),
    }
    match (ServerMsg::YouAre { user_id: "u1".to_string() }) {
        ServerMsg::YouAre { user_id } => assert_eq!(user_id, "u1"),
        _ => panic!("wrong variant"),
    }
}
