//! An in-memory key-value server core speaking a Redis-style wire protocol:
//! the value model, the wire codec, the command interpreter, the expiring
//! table and the per-connection request handling.

pub mod value;
pub mod codec;
pub mod round_trip;
pub mod command;
pub mod store;
pub mod worker;
