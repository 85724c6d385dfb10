//! Client-side D-Bus wire protocol: binary marshaling and unmarshaling of
//! messages, the type-signature system, strict name grammars, and the
//! SASL-style authentication handshake that precedes message framing.
//!
//! Transport I/O and bus-address discovery are outside this crate; the codec
//! works over in-memory byte buffers.

pub mod dbus_writer;
pub mod message;
pub mod names;
pub mod protocol;
pub mod reader;
pub mod type_system;
pub mod wire;
