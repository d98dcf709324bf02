//! A verified core for a TCP publish/subscribe broker.
//!
//! The crate covers the three coupled pieces of such a broker:
//! the length-delimited wire codec (restartable, incremental decoding),
//! the per-connection read/write state machine, and the routing core
//! (subscription map, fan-out dispatcher, and the reference-counted
//! table of pending outbound events).
//!
//! Socket handling itself is left to the embedding program; every
//! function here works on plain bytes and values and carries a proved
//! contract.

pub mod client;
pub mod codec;
pub mod message;
pub mod parser;
pub mod pending_event;
pub mod server;
pub mod subscriptions;

use vstd::prelude::*;

verus! {

/// The largest frame the wire format allows: one type byte, one
/// name-length byte, up to 255 name bytes, two payload-length bytes,
/// and up to 65535 payload bytes.
pub const MAX_PACKET_SIZE: usize = 1 + 1 + 255 + 2 + 65535;

} // verus!
