//! Room and signalling logic of a small WebRTC conferencing server.
pub mod dashboard;
pub mod ids;
pub mod mesh;
pub mod order;
pub mod rate;
pub mod room;
pub mod signal;
pub mod table;
pub mod text;
