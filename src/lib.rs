//! An in-memory key-value server engine speaking the RESP wire protocol:
//! codec, keyspace with expirations, streams, transactions, replication
//! bookkeeping and snapshot loading, each with machine-checked contracts.
use vstd::prelude::*;

pub mod assoc;
pub mod codec;
pub mod commands;
pub mod db;
pub mod decimal;
pub mod entry_id;
pub mod glob;
pub mod handshake;
pub mod info;
pub mod keyspace;
pub mod laws;
pub mod rdb;
pub mod replication;
pub mod resp;
pub mod server;
pub mod session;
pub mod stream;
pub mod text;

verus! {

} // verus!
