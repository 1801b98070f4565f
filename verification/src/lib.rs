//! Variable-length integers in the base-128 continuation-bit format
//! ("varint") popularised by Protocol Buffers.
//!
//! - [`wire`] says what the format is: which bytes spell which value, and
//!   which bytes the encoder gives for a value.
//! - [`parser`] holds the decoding state machine, [`reading`] a read that
//!   can wait for its source, and [`read`] the reads of a source that is
//!   read in one go.
//! - [`buf`] reads from a buffer in memory without taking more from it than
//!   a whole value.
//! - [`write`] encodes a value and writes it to a sink.
//!
//! The functions are verified against their contracts: each does what its
//! `ensures` says on every input that its `requires` admits, and does not
//! panic. What is believed and not proved is what the contracts in [`write`]
//! and [`buf`] say of the calls into `arrayvec` and `bytes`.

pub mod buf;
pub mod error;
pub mod parser;
pub mod read;
pub mod reading;
pub mod wire;
pub mod write;

pub use buf::BufVarInt;
pub use error::Error;
pub use read::ReadVarInt;
pub use write::{write_u64_varint, write_usize_varint};
