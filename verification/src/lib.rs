//! A single-process relay: it accepts many concurrent client connections
//! over a stream transport and broadcasts every complete, length-prefixed
//! frame received from any client to all currently connected clients.
//!
//! The crate holds the verified core: the frame codec, the per-connection
//! state machine (framing, partial-read and partial-write continuations,
//! the outbound queue), the connection table (token lifecycle), and the
//! reactor's dispatch, fan-out and sweep rules. The driver that owns the
//! sockets and the readiness source feeds bytes and readiness events in
//! and performs the socket calls the core decides on.

pub mod codec;
pub mod connection;
pub mod server;
pub mod table;
