//! Routing core of a self-hosted WebSocket relay: connection parameters,
//! session routing state, inbound admission and configuration parsing.

pub mod text;
pub mod assoc;
pub mod protocol;
pub mod json;
pub mod peer;
pub mod config;
pub mod session;
pub mod channel;
pub mod ingress;
pub mod laws;

