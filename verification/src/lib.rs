//! Wire-level protocol engine for a block-world multiplayer game server.
//!
//! The crate decodes and encodes length-prefixed framed packets, advances a
//! per-connection protocol state machine through the handshake, login,
//! configuration and play phases, and reads and writes the game's binary
//! tag-tree format (NBT) used inside several packet payloads.
//!
//! All multi-byte integers on the wire are big-endian; variable-length
//! integers (VarInt) use 7 payload bits per byte with a continuation bit.
//! Strings travel as raw UTF-8 bytes (`Vec<u8>`); the application layer is
//! responsible for any character-level interpretation.

pub mod err;
pub mod nbt;
pub mod prim;
pub mod proto;
pub mod server;
pub mod stream;

pub use err::ProtoError;
