//! Signalling messages exchanged with the browser over the WebSocket.  Their
//! JSON form is `{"type": "<kind>", ...}` with camelCase member names; the
//! server writes and reads that form, these are the values.
use vstd::prelude::*;

verus! {

/// An ICE candidate, with the member names browsers use.
#[derive(Clone, Debug)]
pub struct IceCandidateInit {
    pub candidate: String,
    pub sdp_mid: Option<String>,
    pub sdp_mline_index: Option<u16>,
    pub username_fragment: Option<String>,
}

/// Messages sent from browser to server.
#[derive(Debug)]
pub enum ClientMsg {
    Offer { sdp: String },
    Answer { sdp: String },
    IceCandidate { candidate: IceCandidateInit },
}

/// Messages sent from server to browser.
#[derive(Debug)]
pub enum ServerMsg {
    YouAre { user_id: String },
    Answer { sdp: String },
    Offer { sdp: String },
    UserLeft { user_id: String },
    IceCandidate { candidate: IceCandidateInit },
}

} // verus!
