//! An event-driven WebSocket handshake server core.
//!
//! The library holds the verified logic of the server: the handshake key
//! derivation, an incremental parser for the HTTP upgrade request, the
//! per-connection state machine, and the dispatcher's decision logic over
//! the connection table. Sockets, the poller and logging live outside the
//! library, which only consumes plain byte chunks and events and hands back
//! response bytes and interest sets.

pub mod bytes;
pub mod client;
pub mod headers;
pub mod http;
pub mod keys;
pub mod server;
