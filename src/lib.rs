//! A small Redis-compatible server core: the RESP frame codec, command parsing,
//! the key/value store with expiry, and the pub/sub bookkeeping.
use vstd::prelude::*;

pub mod frame;
pub mod parse;
pub mod text;
pub mod db;
pub mod cmd;
pub mod client;
pub mod connection;
pub mod server;
pub mod pubsub;

verus! {

/// Port the server listens on when none is given.
pub const DEFAULT_PORT: u16 = 6379;

} // verus!
