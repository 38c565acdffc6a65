//! Verified core of a client/server netcode game: connection bookkeeping,
//! input sequencing and ordering, reconciliation buffers, ping estimation and
//! the decisions that the server and client loops take on each packet.
//!
//! Floating-point physics, rendering, sockets and serialization live in the
//! application crate under `app/`; this library holds the integer and
//! bookkeeping logic that they drive.

pub mod clock;
pub mod sorting;
pub mod shared;
pub mod server;
pub mod client;
