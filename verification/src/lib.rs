//! A length-prefixed, binary, packet-oriented wire protocol: a read/write
//! byte buffer with typed field accessors, and the framing layer that turns
//! arbitrarily chunked input into a sequence of complete packets.

pub mod buffer;
pub mod connection;
