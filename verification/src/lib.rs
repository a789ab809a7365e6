//! Overlay-networking core: a binary frame codec, per-peer transports with
//! bounded outbound queues, and the shared connection/routing state that
//! binds local application sockets to remote (peer, channel) routes.
//!
//! All socket, TLS and runtime plumbing lives outside this crate; the logic
//! here is stated in contracts and verified.

pub mod byte_buffer;
pub mod codec;
pub mod state;
pub mod transport;
