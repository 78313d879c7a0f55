//! The configuration file, as it is read, and the options made of it.

use crate::options::Options;
use crate::text::{decimal_text, digits_of};
use crate::types::Address;
use vstd::prelude::*;

verus! {

/// The configuration file.
#[derive(Debug)]
pub struct Config {
    pub rpc: Rpc,
    pub verification: Verification,
    pub nodes: Nodes,
}

/// The server's own settings.
#[derive(Debug)]
pub struct Rpc {
    pub interface: String,
    pub port: u16,
    pub server_threads: usize,
    pub processing_threads: usize,
    pub db_path: String,
    pub submit_earlier: u64,
}

/// What transactions are held to.
#[derive(Debug)]
pub struct Verification {
    pub chain_id: u64,
    pub max_gas: u64,
    pub min_gas_price: u64,
    pub min_schedule_block: u64,
    pub max_schedule_block: u64,
    pub min_schedule_seconds: u64,
    pub max_schedule_seconds: u64,
    pub strict_nonce: bool,
    pub max_txs_per_sender: usize,
    pub certifier: Option<String>,
}

/// The nodes that the relay talks to: one to ask about the chain, and those
/// that transactions are submitted to.
#[derive(Debug)]
pub struct Nodes {
    pub blockchain: String,
    pub transactions: Vec<String>,
}

/// What is wrong with a configuration.
#[derive(Debug, Clone, Copy, PartialEq, Eq)]
pub enum Error {
    /// The certifier's address is no address.
    InvalidCertifier,
}

/// The address that `ethcore_bigint` reads from a text, where it reads one.
pub uninterp spec fn parsed_address(text: Seq<char>) -> Option<Seq<u8>>;

/// `ethcore_bigint`'s `FromStr` for `H160`: an address written in
/// hexadecimal digits. Trusted: the result is named, not spelled out.
#[verifier::external_body]
fn parse_address(text: &str) -> (address: Option<Address>)
    ensures
        match address {
            Some(address) => parsed_address(text@) == Some(address@),
            None => parsed_address(text@) is None,
        },
{
    match text.parse::<ethcore_bigint::hash::H160>() {
        Ok(hash) => Some(Address(hash.0)),
        Err(_) => None,
    }
}

impl Config {
    /// The address that the server listens on: interface, colon, port.
    pub open spec fn listen_address(self) -> Seq<char> {
        self.rpc.interface@ + seq![':'] + digits_of(self.rpc.port as nat)
    }

    /// The options that the configuration asks for, given the address of
    /// the certifier as it was read from the configuration's text.
    pub fn options_with(&self, certifier: Option<Address>) -> (options: Options)
        ensures
            options.chain_id == self.verification.chain_id,
            options.max_gas == self.verification.max_gas,
            options.min_gas_price == self.verification.min_gas_price,
            options.min_schedule_block == self.verification.min_schedule_block,
            options.max_schedule_block == self.verification.max_schedule_block,
            options.min_schedule_seconds == self.verification.min_schedule_seconds,
            options.max_schedule_seconds == self.verification.max_schedule_seconds,
            options.strict_nonce == self.verification.strict_nonce,
            options.max_txs_per_sender == self.verification.max_txs_per_sender,
            options.certifier == certifier,
            options.submit_earlier == self.rpc.submit_earlier,
            options.rpc_listen_address@ == self.listen_address(),
            options.rpc_server_threads == self.rpc.server_threads,
            options.processing_threads == self.rpc.processing_threads,
    {
        let mut address = String::from_str(self.rpc.interface.as_str());
        proof {
            reveal_strlit(":");
            assert(":"@ =~= seq![':']);
        }
        address.append(":");
        address.append(decimal_text(self.rpc.port as u128).as_str());
        Options {
            chain_id: self.verification.chain_id,
            max_gas: self.verification.max_gas,
            min_gas_price: self.verification.min_gas_price,
            min_schedule_block: self.verification.min_schedule_block,
            max_schedule_block: self.verification.max_schedule_block,
            min_schedule_seconds: self.verification.min_schedule_seconds,
            max_schedule_seconds: self.verification.max_schedule_seconds,
            strict_nonce: self.verification.strict_nonce,
            max_txs_per_sender: self.verification.max_txs_per_sender,
            certifier,
            submit_earlier: self.rpc.submit_earlier,
            rpc_listen_address: address,
            rpc_server_threads: self.rpc.server_threads,
            processing_threads: self.rpc.processing_threads,
        }
    }

    /// The options that the configuration asks for. A certifier whose
    /// address cannot be read is refused.
    pub fn options(&self) -> (options: Result<Options, Error>)
        ensures
            match options {
                Ok(options) => {
                    &&& options.chain_id == self.verification.chain_id
                    &&& options.max_gas == self.verification.max_gas
                    &&& options.min_gas_price == self.verification.min_gas_price
                    &&& options.min_schedule_block == self.verification.min_schedule_block
                    &&& options.max_schedule_block == self.verification.max_schedule_block
                    &&& options.min_schedule_seconds == self.verification.min_schedule_seconds
                    &&& options.max_schedule_seconds == self.verification.max_schedule_seconds
                    &&& options.strict_nonce == self.verification.strict_nonce
                    &&& options.max_txs_per_sender == self.verification.max_txs_per_sender
                    &&& options.submit_earlier == self.rpc.submit_earlier
                    &&& options.rpc_listen_address@ == self.listen_address()
                    &&& options.rpc_server_threads == self.rpc.server_threads
                    &&& options.processing_threads == self.rpc.processing_threads
                    &&& match self.verification.certifier {
                        None => options.certifier is None,
                        Some(text) => options.certifier matches Some(address) && parsed_address(
                            text@,
                        ) == Some(address@),
                    }
                },
                Err(error) => {
                    &&& error == Error::InvalidCertifier
                    &&& self.verification.certifier matches Some(text) && parsed_address(text@)
                        is None
                },
            },
    {
        let certifier = match &self.verification.certifier {
            None => None,
            Some(text) => match parse_address(text.as_str()) {
                Some(address) => Some(address),
                None => {
                    return Err(Error::InvalidCertifier);
                },
            },
        };
        Ok(self.options_with(certifier))
    }
}

} // verus!
