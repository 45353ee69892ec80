//! Verified core of a real-time multiplayer position-synchronization layer.
//!
//! An authoritative server receives movement commands from many clients over
//! an unreliable datagram transport, advances a shared world state at a fixed
//! tick rate, and broadcasts per-recipient snapshots back; each client keeps a
//! time-stamped table of remote players for display extrapolation.
//!
//! This crate holds the transport-independent core: the wire codec
//! ([`command`]), the server's per-tick state machine ([`server`]), and the
//! client's snapshot store ([`client`]). Sockets, clocks and rendering live
//! outside; callers hand in received bytes and current times as plain values.

pub mod client;
pub mod command;
pub mod packet;
pub mod player_state;
pub mod server;
pub mod shadow_cache;
