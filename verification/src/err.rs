//! Error taxonomy of the protocol core.
//!
//! Every error is fatal to the connection; nothing is retried inside the
//! core.

use vstd::prelude::*;

verus! {

/// Why a decode or send operation failed.
#[derive(Debug, Clone, Copy, PartialEq, Eq, Structural)]
pub enum ProtoError {
    /// The input held fewer bytes than the operation needed.
    TransportError,
    /// Negative length, VarInt longer than 10 bytes, bad boolean byte,
    /// tag id out of range, or an unknown (state, packet id) pair.
    MalformedFrame,
    /// A decoded enumeration value fell outside its allowed set.
    FieldOutOfRange,
    /// An attempt to send a packet that is illegal in the current state.
    ProtocolViolation,
}

} // verus!
