//! A minimal in-memory key-value store speaking a subset of the Redis
//! serialization protocol (RESP): the frame codec, the command vocabulary,
//! and the shared state store with per-entry expiry and pub/sub fan-out.
//! Connections, sockets and the task runtime live outside; this crate holds
//! the protocol and the state, with their behaviour stated in contracts.

use vstd::prelude::*;

pub mod clients;
pub mod cmd;
pub mod connection;
pub mod db;
pub mod decimal;
pub mod frame;
pub mod parse;
pub mod server;

pub use cmd::Command;
pub use frame::Frame;

verus! {

/// Default port that a redis server listens on, used if no port is
/// specified.
pub const DEFAULT_PORT: u16 = 6379;

} // verus!
