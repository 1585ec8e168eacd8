//! A manager-side SNMP (v1/v2c) client library.
//!
//! The crate models the BER wire format of SNMP messages — tagged values,
//! variable bindings, operation PDUs and the outer message envelope — and the
//! request/response bookkeeping of a manager talking to an agent.  Encoding
//! and decoding are verified against a byte-exact specification of the wire
//! grammar; the datagram transport itself is left to the caller, who hands
//! received bytes in and sends produced bytes out.

pub mod ber;
pub mod client;
pub mod pdu;
pub mod types;

use vstd::prelude::*;

verus! {

/// Conventional agent management port.
pub const SNMP_PORT: u16 = 161;

/// Largest datagram the client expects; a longer reply is a hard failure.
pub const MAX_DATAGRAM_SIZE: usize = 1500;

} // verus!

pub use ber::DecodeError;
pub use client::{Client, ResponseError, WalkStep};
pub use pdu::{Message, Pdu, PduTag};
pub use types::{ObjectIdentifier, TimeTicks, Value, VarBinding, Version};
