//! A small in-memory key-value server core: the wire codec, the command
//! dispatcher over the store, and the append-only command log with replay.
//!
//! Every function here is verified against a mathematical model of the data:
//! a [`value::Value`] for each [`value::RespValue`], a `Seq<u8>` for bytes on
//! the wire, and a `Map` from key to value for the store.

pub mod aof;
pub mod command;
pub mod decimal;
pub mod decode;
pub mod encode;
pub mod laws;
pub mod round_trip;
pub mod store;
pub mod value;

pub use aof::Aof;
pub use command::{handle_resp, Command};
pub use decode::{read_resp, ProtocolError};
pub use encode::marshal;
pub use store::{State, Store};
pub use value::{RespValue, Value};
