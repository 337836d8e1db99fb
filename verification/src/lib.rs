//! A DNS wire-format codec over a fixed 512-byte buffer, and the decisions
//! of an iterative resolver built on it.
//!
//! The codec reads and writes messages bit for bit: `buffer` holds the
//! bytes and the cursor, `name` says what names mean on the wire, `header`,
//! `question`, `record` and `packet` build messages out of them, and
//! `roundtrip` shows that what is written is read back. The resolver in
//! `resolver` and the request handling in `handler` decide without touching
//! the network: they are told what arrived and say what is to be sent.

pub mod error;
pub mod wire;
pub mod name;
pub mod buffer;
pub mod enums;
pub mod header;
pub mod question;
pub mod record;
pub mod packet;
pub mod roundtrip;
pub mod resolver;
pub mod handler;
