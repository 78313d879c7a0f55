//! Scheduled-transaction relay: signed transactions are verified on submission,
//! stored under a block number or a timestamp, and handed out for broadcast once
//! that condition is met.

use vstd::prelude::*;

pub mod blockchain;
mod clock;
pub mod config;
pub mod database;
pub mod decode;
pub mod endian;
pub mod errors;
pub mod options;
pub mod record;
pub mod senders;
pub mod server;
pub mod submitter;
pub mod text;
pub mod types;
pub mod uint;
pub mod verification;

verus! {

/// Type of the transport to instantiate.
#[derive(Debug, Clone)]
pub enum TransportType {
    /// IPC (local) transport
    Ipc(String),
    /// HTTP transport (can be remote)
    Http(String),
}

impl TransportType {
    /// True for a transport that reaches a node on this machine.
    pub fn is_local(&self) -> (local: bool)
        ensures
            local == (self is Ipc),
    {
        match self {
            TransportType::Ipc(_) => true,
            TransportType::Http(_) => false,
        }
    }
}

} // verus!
