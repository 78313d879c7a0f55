//! What the JSON-RPC server does with a request, once it has been read:
//! `scheduleTransaction` stores a verified transaction and answers with its
//! handle, `cancel` takes a stored transaction back out.

use crate::database::buckets::{first_with, without_record};
use crate::database::{Database, Error, Removed, Written};
use crate::errors;
use crate::record::{frame, framable, records};
use crate::text::{decimal_text, digits_of};
use crate::types::{Condition, Transaction, TransactionId, TransactionIdView};
use crate::uint::U256;
use crate::options::Options;
use crate::verification;
use crate::verification::{Bound, ErrorView, Verifier, VerifierMode, VerifierView};
use vstd::prelude::*;

verus! {

/// How a number compares with the limit of the schedule window that it
/// lies beyond, in words and numbers.
pub open spec fn comparison(bound: Bound) -> Seq<char> {
    match bound {
        Bound::TooLow { number, limit } => "low: "@ + digits_of(number as nat) + " <= "@
            + digits_of(limit as nat),
        Bound::TooHigh { number, limit } => "high: "@ + digits_of(number as nat) + " > "@
            + digits_of(limit as nat),
    }
}

/// Puts behind `text` how a number compares with the limit that it lies
/// beyond.
fn append_comparison(text: &mut String, bound: Bound)
    ensures
        final(text)@ == old(text)@ + comparison(bound),
{
    let ghost before = text@;
    match bound {
        Bound::TooLow { number, limit } => {
            text.append("low: ");
            text.append(decimal_text(number as u128).as_str());
            text.append(" <= ");
            text.append(decimal_text(limit).as_str());
            assert(text@ =~= before + comparison(bound));
        },
        Bound::TooHigh { number, limit } => {
            text.append("high: ");
            text.append(decimal_text(number as u128).as_str());
            text.append(" > ");
            text.append(decimal_text(limit).as_str());
            assert(text@ =~= before + comparison(bound));
        },
    }
}

/// What was required and what was got, in numbers.
pub open spec fn amounts(required: nat, got: nat) -> Seq<char> {
    " (required: "@ + digits_of(required) + ", got: "@ + digits_of(got) + ")"@
}

/// Puts behind `text` what was required and what was got.
fn append_amounts(text: &mut String, required: U256, got: U256)
    ensures
        final(text)@ == old(text)@ + amounts(required@, got@),
{
    let ghost before = text@;
    text.append(" (required: ");
    text.append(required.decimal().as_str());
    text.append(", got: ");
    text.append(got.decimal().as_str());
    text.append(")");
    assert(text@ =~= before + amounts(required@, got@));
}

/// What a rejection is called when it is reported to a client.
pub open spec fn description(error: ErrorView) -> Seq<char> {
    match error {
        ErrorView::InvalidRlp(text) => text,
        ErrorView::InvalidTransaction(text) => text,
        ErrorView::InvalidBlockNumber(bound) => "Block number is too "@ + comparison(bound),
        ErrorView::InvalidTimestamp(bound) => "Timestamp is too "@ + comparison(bound),
        ErrorView::GasTooLow(required) => "Gas is too low. Required: "@ + digits_of(required),
        ErrorView::GasTooHigh(maximal) => "Gas is too high. Maximal: "@ + digits_of(maximal),
        ErrorView::GasPriceTooLow(required) => "Gas price is too low. Required: "@ + digits_of(
            required,
        ) + " wei"@,
        ErrorView::SenderQuotaExceeded => "Sender already scheduled."@,
        ErrorView::NotCertified => "Sender is not certified."@,
        ErrorView::InsufficientBalance { required, got } => "Insufficient balance"@ + amounts(
            required,
            got,
        ),
        ErrorView::InvalidNonce { required, got } => "Invalid nonce"@ + amounts(required, got),
    }
}

/// The heading under which a rejection is reported to a client.
pub open spec fn heading(error: ErrorView) -> Seq<char> {
    match error {
        ErrorView::InvalidRlp(_) => "Invalid RLP."@,
        ErrorView::InvalidBlockNumber(_) => "Invalid block number."@,
        ErrorView::InvalidTimestamp(_) => "Invalid timestamp."@,
        _ => "Invalid Transaction."@,
    }
}

/// Reports a rejected transaction to the client: every rejection is a fault
/// of the request's parameters.
pub fn report(error: verification::Error) -> (reported: errors::Error)
    ensures
        reported.code == errors::ErrorCode::InvalidParams,
        reported.message@ == heading(error@),
        reported.data matches Some(text) && text@ == description(error@),
{
    match error {
        verification::Error::InvalidRlp(text) => errors::rlp(text),
        verification::Error::InvalidTransaction(text) => errors::transaction(text),
        verification::Error::InvalidBlockNumber(bound) => {
            let mut text = String::from_str("Block number is too ");
            append_comparison(&mut text, bound);
            errors::block(text)
        },
        verification::Error::InvalidTimestamp(bound) => {
            let mut text = String::from_str("Timestamp is too ");
            append_comparison(&mut text, bound);
            errors::timestamp(text)
        },
        verification::Error::GasTooLow(required) => {
            let mut text = String::from_str("Gas is too low. Required: ");
            text.append(decimal_text(required).as_str());
            errors::transaction(text)
        },
        verification::Error::GasTooHigh(maximal) => {
            let mut text = String::from_str("Gas is too high. Maximal: ");
            text.append(decimal_text(maximal as u128).as_str());
            errors::transaction(text)
        },
        verification::Error::GasPriceTooLow(required) => {
            let mut text = String::from_str("Gas price is too low. Required: ");
            text.append(decimal_text(required as u128).as_str());
            text.append(" wei");
            errors::transaction(text)
        },
        verification::Error::SenderQuotaExceeded => errors::transaction(
            String::from_str("Sender already scheduled."),
        ),
        verification::Error::NotCertified => errors::transaction(
            String::from_str("Sender is not certified."),
        ),
        verification::Error::InsufficientBalance { required, got } => {
            let mut text = String::from_str("Insufficient balance");
            append_amounts(&mut text, required, got);
            errors::transaction(text)
        },
        verification::Error::InvalidNonce { required, got } => {
            let mut text = String::from_str("Invalid nonce");
            append_amounts(&mut text, required, got);
            errors::transaction(text)
        },
    }
}

/// The two verifiers of a server: one for block numbers, one for times.
#[derive(Debug)]
pub struct Verifiers {
    block: Verifier,
    timestamp: Verifier,
}

impl Verifiers {
    /// The verifiers that hold transactions to these options; both sides
    /// are given their own.
    pub fn new(block: Options, timestamp: Options) -> (verifiers: Self)
        ensures
            forall|number: u64| #[trigger]
                verifiers.side(Condition::Number(number))@ == (VerifierView {
                    options: block,
                    mode: VerifierMode::Block,
                }),
            forall|time: u64| #[trigger]
                verifiers.side(Condition::Timestamp(time))@ == (VerifierView {
                    options: timestamp,
                    mode: VerifierMode::Timestamp,
                }),
    {
        Verifiers {
            block: Verifier::new_block(block),
            timestamp: Verifier::new_timestamp(timestamp),
        }
    }

    /// The verifier that a condition belongs to.
    pub closed spec fn side(self, condition: Condition) -> Verifier {
        match condition {
            Condition::Number(_) => self.block,
            Condition::Timestamp(_) => self.timestamp,
        }
    }

    /// The verifier that a condition belongs to: that of block numbers for
    /// a block number, that of times for a time.
    pub fn of(&self, condition: &Condition) -> (verifier: &Verifier)
        ensures
            *verifier == self.side(*condition),
    {
        match condition {
            Condition::Number(_) => &self.block,
            Condition::Timestamp(_) => &self.timestamp,
        }
    }
}

/// The answer to a `scheduleTransaction` request that was granted.
#[derive(Debug)]
pub struct Receipt {
    /// The handle of the scheduled transaction, 41 bytes.
    pub id: Vec<u8>,
    /// What is to be written to the store's files.
    pub written: Written,
}

/// Stores a verified transaction under its condition, in the store of block
/// numbers or in that of times, and makes its handle.
///
/// A sender whose quota is used up is reported as a fault of the
/// transaction, any other refusal of the store as a failure of the relay;
/// neither store changes then.
pub fn schedule_transaction(
    block_db: &mut Database,
    timestamp_db: &mut Database,
    condition: &Condition,
    transaction: Transaction,
) -> (answer: Result<Receipt, errors::Error>)
    requires
        old(block_db)@.wf(),
        old(timestamp_db)@.wf(),
    ensures
        final(block_db)@.wf(),
        final(timestamp_db)@.wf(),
        condition is Timestamp ==> *final(block_db) == *old(block_db),
        condition is Number ==> *final(timestamp_db) == *old(timestamp_db),
        ({
            let before = if condition is Timestamp {
                old(timestamp_db)@
            } else {
                old(block_db)@
            };
            let after = if condition is Timestamp {
                final(timestamp_db)@
            } else {
                final(block_db)@
            };
            let num = match *condition {
                Condition::Number(n) => n,
                Condition::Timestamp(t) => t,
            };
            let allowed = before.senders.count(transaction@.sender) < before.max_txs_per_sender;
            match answer {
                Ok(receipt) => {
                    &&& allowed
                    &&& framable(transaction@)
                    &&& receipt.id@ == (TransactionIdView {
                        is_timestamp: condition is Timestamp,
                        num,
                        hash: transaction@.hash,
                    }).to_bytes()
                    &&& receipt.written.number == num
                    &&& receipt.written.created == !before.holds(num)
                    &&& receipt.written.bytes@ == frame(transaction@)
                    &&& after.blocks == before.inserted(num, transaction@)
                    &&& after.senders.count(transaction@.sender) == before.senders.count(
                        transaction@.sender,
                    ) + 1
                    &&& after.max_txs_per_sender == before.max_txs_per_sender
                },
                Err(reported) => {
                    &&& *final(block_db) == *old(block_db)
                    &&& *final(timestamp_db) == *old(timestamp_db)
                    &&& !allowed || !framable(transaction@)
                    &&& !allowed ==> reported.code == errors::ErrorCode::InvalidParams
                        && reported.message@ == "Invalid Transaction."@ && (reported.data matches Some(
                        text,
                    ) && text@ == "Sender already scheduled."@)
                    &&& allowed ==> reported.code == errors::ErrorCode::InternalError
                        && reported.message@ == "Internal Error"@ && (reported.data matches Some(
                        text,
                    ) && text@ == "Transaction is too large to store."@)
                },
            }
        }),
{
    let hash = *transaction.hash();
    let is_timestamp = condition.is_timestamp();
    let num = condition.num();
    let written = if is_timestamp {
        timestamp_db.insert(num, transaction)
    } else {
        block_db.insert(num, transaction)
    };
    match written {
        Err(Error::SenderQuotaExceeded) => Err(
            errors::transaction(String::from_str("Sender already scheduled.")),
        ),
        Err(_) => Err(errors::internal(String::from_str("Transaction is too large to store."))),
        Ok(written) => {
            let id = TransactionId { is_timestamp, num, hash }.to_bytes();
            Ok(Receipt { id, written })
        },
    }
}

/// What a `cancel` request that was granted took out of which store.
#[derive(Debug)]
pub struct Cancelled {
    /// Whether the transaction was scheduled for a time; for a block
    /// otherwise.
    pub is_timestamp: bool,
    /// The transaction, and what is to be written to the store's files.
    pub removed: Removed,
}

/// Takes the transaction that the handle `id` names out of its store.
///
/// Bytes that are no handle, and a handle that names no stored transaction,
/// are reported as faults of the request; neither store changes then.
pub fn cancel(block_db: &mut Database, timestamp_db: &mut Database, id: &[u8]) -> (answer: Result<
    Cancelled,
    errors::Error,
>)
    requires
        old(block_db)@.wf(),
        old(timestamp_db)@.wf(),
    ensures
        final(block_db)@.wf(),
        final(timestamp_db)@.wf(),
        match TransactionIdView::from_bytes(id@) {
            None => {
                &&& *final(block_db) == *old(block_db)
                &&& *final(timestamp_db) == *old(timestamp_db)
                &&& answer matches Err(reported) && reported.code
                    == errors::ErrorCode::InvalidParams && reported.message@
                    == "Invalid Transaction."@ && (reported.data matches Some(text) && text@
                    == "Invalid id"@)
            },
            Some(handle) => {
                let before = if handle.is_timestamp {
                    old(timestamp_db)@
                } else {
                    old(block_db)@
                };
                let after = if handle.is_timestamp {
                    final(timestamp_db)@
                } else {
                    final(block_db)@
                };
                let place = before.position(handle.num);
                let stored = before.blocks[place].transactions();
                let at = first_with(stored, handle.hash);
                &&& handle.is_timestamp ==> *final(block_db) == *old(block_db)
                &&& !handle.is_timestamp ==> *final(timestamp_db) == *old(timestamp_db)
                &&& match answer {
                    Ok(Cancelled { is_timestamp, removed }) => {
                        &&& is_timestamp == handle.is_timestamp
                        &&& before.holds(handle.num)
                        &&& 0 <= at < stored.len()
                        &&& removed.transaction@ == stored[at]
                        &&& removed.number == handle.num
                        &&& records(removed.content@) == Some(stored.remove(at))
                        &&& removed.retired == (stored.len() == 1)
                        &&& after.blocks == without_record(
                            before.blocks,
                            handle.num,
                            removed.content@,
                        )
                        &&& after.senders.count(stored[at].sender) == before.senders.count(
                            stored[at].sender,
                        ) - 1
                    },
                    Err(reported) => {
                        &&& *final(block_db) == *old(block_db)
                        &&& *final(timestamp_db) == *old(timestamp_db)
                        &&& !before.holds(handle.num) || at == stored.len()
                        &&& reported.code == errors::ErrorCode::InvalidParams
                        &&& reported.message@ == "Invalid Transaction."@
                        &&& reported.data matches Some(text) && text@ == "Not found"@
                    },
                }
            },
        },
{
    let id = match TransactionId::from_bytes(id) {
        Some(id) => id,
        None => {
            return Err(errors::transaction(String::from_str("Invalid id")));
        },
    };
    let removed = if id.is_timestamp {
        timestamp_db.remove(&id.num, &id.hash)
    } else {
        block_db.remove(&id.num, &id.hash)
    };
    match removed {
        None => Err(errors::transaction(String::from_str("Not found"))),
        Some(removed) => Ok(Cancelled { is_timestamp: id.is_timestamp, removed }),
    }
}

} // verus!
