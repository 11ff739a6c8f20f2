//! Encrypted voice chat for small groups, without a server: the wire format, packet encryption,
//! key exchange, replay protection, jitter buffering, latency measurement, and the state of a
//! session at a node.
//!
//! Nothing here touches a socket, a device or a clock. Packets, samples and times are handed in,
//! and what is to be sent, decoded or played is handed back. Times are in nanoseconds on a clock
//! that never goes back, whatever it started from.
pub mod addr;
pub mod audio;
pub mod bytes;
pub mod codec;
pub mod counters;
pub mod crypto;
pub mod dsp;
pub mod error;
pub mod events;
pub mod find;
pub mod handshake;
pub mod input;
pub mod jitter;
pub mod key_exchange;
pub mod latency;
pub mod laws;
pub mod net;
pub mod outgoing;
pub mod packet;
pub mod peer;
pub mod receiving;
pub mod sending;
pub mod session;
pub mod vad;
