//! Server-side logic: client registry, per-connection input buffers, packet
//! handling decisions and input scheduling across physics substeps.

pub mod client;
pub mod client_manager;
pub mod entity;
pub mod network;
pub mod packets;
pub mod utils;
