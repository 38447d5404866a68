//! Server-side core of a real-time event-messaging protocol: the wire packet
//! codec, per-connection packet reassembly and dispatch, the payload
//! attachment transform, and the connection/room registry.

use vstd::prelude::*;

pub mod attach;
pub mod json;
pub mod packet;
pub mod server;
pub mod socket;
pub mod value;

verus! {

/// Version of the wire protocol this crate implements.
pub const PROTOCOL_VERSION: usize = 4;

} // verus!
