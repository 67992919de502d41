//! A multi-room chat library: a binary wire codec for protocol messages,
//! the server-side dispatcher that routes them over a registry of
//! connections and groups, and the client-side controller state.
pub mod chatclient;
pub mod chatserver;
pub mod message;
