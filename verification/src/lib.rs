//! A minimal request/response message service, verified.
//!
//! The library holds everything about the service that is pure logic:
//! the binary wire format for requests and responses (`wire`, `messages`),
//! the request dispatcher (`handler`), and the state machines that drive
//! the per-connection serve loop and the listener's accept loop
//! (`handler`, `lifecycle`). The surrounding process — sockets, threads,
//! the shared atomic flag — performs I/O and feeds these functions plain
//! values.

pub mod wire;
pub mod messages;
pub mod handler;
pub mod lifecycle;
