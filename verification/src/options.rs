//! What the relay is configured with.

use crate::types::Address;
use vstd::prelude::*;

verus! {

/// Transaction Scheduler Server options.
#[derive(Debug, Clone, PartialEq)]
pub struct Options {
    /// Chain id
    pub chain_id: u64,
    /// Maximal gas of a transaction
    pub max_gas: u64,
    /// Minimal gas price
    pub min_gas_price: u64,
    /// Min number of blocks in future to schedule for.
    pub min_schedule_block: u64,
    /// Max number of blocks in future to schedule for.
    pub max_schedule_block: u64,
    /// Min number of seconds in future to schedule for.
    pub min_schedule_seconds: u64,
    /// Max number of seconds in future to schedule for.
    pub max_schedule_seconds: u64,
    /// Whether a transaction's nonce has to be the sender's next one; where
    /// not, a later one will do.
    pub strict_nonce: bool,
    /// How many scheduled transactions one sender may have in a store.
    pub max_txs_per_sender: usize,
    /// Address of the contract that certifies senders, if senders have to be
    /// certified.
    pub certifier: Option<Address>,
    /// How many blocks before its block a transaction is submitted.
    pub submit_earlier: u64,
    /// JSON-RPC Listening address, as interface and port
    pub rpc_listen_address: String,
    /// JSON-RPC Server threads
    pub rpc_server_threads: usize,
    /// Transactions processing threads
    pub processing_threads: usize,
}

} // verus!
