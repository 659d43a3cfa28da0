//! Encoding and decoding of the MessagePack payloads exchanged with a watch.

pub mod error;
pub mod format;
pub mod messages;
pub mod msgpack;
pub mod roundtrip;
pub mod schema;
pub mod wire;

pub use error::{Fault, MsgpackError, Result};
