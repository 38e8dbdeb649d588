//! Core library for a small proof-of-work blockchain node: the data model
//! (assets, transactions, blocks), the wallet with its fund accounting, the
//! compute node's partition round, the storage node's block log, the
//! column-family key-value store, and the database upgrade engine.

pub mod codec;
pub mod compute;
pub mod crypto;
pub mod kv;
pub mod order;
pub mod storage;
pub mod transaction;
pub mod transport;
pub mod upgrade;
pub mod user;
pub mod utxo;
pub mod wallet;

use vstd::prelude::*;

verus! {

/// Outcome of handling one request or event, as reported on the event stream.
pub struct Response {
    pub success: bool,
    pub reason: String,
}

} // verus!
