use transaction_scheduler::database::{Database, IteratorMode, TransactionsIterator};
use transaction_scheduler::errors;
use transaction_scheduler::errors::ErrorCode;
use transaction_scheduler::options::Options;
use transaction_scheduler::server::{cancel, report, schedule_transaction, Verifiers};
use transaction_scheduler::verification::VerifierMode;
use transaction_scheduler::types::{Address, Condition, Transaction, TransactionId, H256};
use transaction_scheduler::uint::U256;
use transaction_scheduler::verification::{Bound, Error};

fn server_tx(sender: u8, hash: u8) -> Transaction {
    Transaction::new(Address([sender; 20]), H256([hash; 32]), vec![sender, hash])
}

fn invalid(message: &str, data: &str) -> errors::Error {
    errors::Error {
        code: ErrorCode::InvalidParams,
        message: message.to_string(),
        data: Some(data.to_string()),
    }
}

#[test]
fn a_scheduled_transaction_is_stored_on_its_side_and_gets_its_handle() {
    let mut blocks = Database::open(&Vec::new(), 1);
    let mut times = Database::open(&Vec::new(), 1);
    let receipt =
        schedule_transaction(&mut blocks, &mut times, &Condition::Number(10), server_tx(1, 0xa)).unwrap();
    let mut id = vec![0u8, 10, 0, 0, 0, 0, 0, 0, 0];
    id.extend_from_slice(&[0xa; 32]);
    assert_eq!(receipt.id, id);
    assert!(receipt.written.created);
    assert_eq!(receipt.written.number, 10);
    assert_eq!(Some(receipt.written.bytes), blocks.content(10));
    assert_eq!(times.len(), 0);

    let receipt =
        schedule_transaction(&mut blocks, &mut times, &Condition::Timestamp(1_500_000_000), server_tx(1, 0xb))
            .unwrap();
    let mut id = vec![1u8, 0x00, 0x2f, 0x68, 0x59, 0, 0, 0, 0];
    id.extend_from_slice(&[0xb; 32]);
    assert_eq!(receipt.id, id);
    assert_eq!(blocks.numbers(), vec![10]);
    assert_eq!(times.numbers(), vec![1_500_000_000]);
}

#[test]
fn a_used_up_quota_is_a_fault_of_the_transaction() {
    let mut blocks = Database::open(&Vec::new(), 1);
    let mut times = Database::open(&Vec::new(), 1);
    schedule_transaction(&mut blocks, &mut times, &Condition::Number(10), server_tx(1, 0xa)).unwrap();
    let refused =
        schedule_transaction(&mut blocks, &mut times, &Condition::Number(11), server_tx(1, 0xd)).unwrap_err();
    assert_eq!(refused, invalid("Invalid Transaction.", "Sender already scheduled."));
    assert_eq!(refused.code.code(), -32602);
    assert_eq!(blocks.numbers(), vec![10]);
    // the two stores count apart
    schedule_transaction(&mut blocks, &mut times, &Condition::Timestamp(11), server_tx(1, 0xd)).unwrap();
}

#[test]
fn cancel_removes_by_handle() {
    let mut blocks = Database::open(&Vec::new(), 2);
    let mut times = Database::open(&Vec::new(), 2);
    let scheduled =
        schedule_transaction(&mut blocks, &mut times, &Condition::Number(10), server_tx(1, 0xa)).unwrap();
    let timed =
        schedule_transaction(&mut blocks, &mut times, &Condition::Timestamp(10), server_tx(1, 0xa)).unwrap();

    let cancelled = cancel(&mut blocks, &mut times, &scheduled.id).unwrap();
    assert!(!cancelled.is_timestamp);
    assert_eq!(cancelled.removed.transaction, server_tx(1, 0xa));
    assert_eq!(cancelled.removed.number, 10);
    assert!(cancelled.removed.retired);
    assert!(blocks.drain(10).is_none());
    // the time side still holds its own
    assert_eq!(times.numbers(), vec![10]);
    assert_eq!(cancel(&mut blocks, &mut times, &scheduled.id).unwrap_err(), invalid("Invalid Transaction.", "Not found"));
    assert!(cancel(&mut blocks, &mut times, &timed.id).unwrap().is_timestamp);
    assert_eq!(times.len(), 0);
}

#[test]
fn cancel_reports_what_is_no_handle_or_names_nothing() {
    let mut blocks = Database::open(&Vec::new(), 2);
    let mut times = Database::open(&Vec::new(), 2);
    schedule_transaction(&mut blocks, &mut times, &Condition::Number(10), server_tx(1, 0xa)).unwrap();
    for bad in [vec![], vec![0u8; 40], vec![0u8; 42]] {
        assert_eq!(cancel(&mut blocks, &mut times, &bad).unwrap_err(), invalid("Invalid Transaction.", "Invalid id"));
    }
    let other_hash = TransactionId { is_timestamp: false, num: 10, hash: H256([0xb; 32]) }.to_bytes();
    let other_number = TransactionId { is_timestamp: false, num: 11, hash: H256([0xa; 32]) }.to_bytes();
    let other_side = TransactionId { is_timestamp: true, num: 10, hash: H256([0xa; 32]) }.to_bytes();
    for id in [other_hash, other_number, other_side] {
        assert_eq!(cancel(&mut blocks, &mut times, &id).unwrap_err(), invalid("Invalid Transaction.", "Not found"));
    }
    let content = blocks.content(10).unwrap();
    let mut it = TransactionsIterator::from_file(content, IteratorMode::ReadOnly);
    assert_eq!(it.next(), Some(server_tx(1, 0xa)));
}

#[test]
fn rejections_are_reported_as_invalid_params() {
    let cases = vec![
        (Error::InvalidRlp("RlpIsTooShort".to_string()), "Invalid RLP.", "RlpIsTooShort".to_string()),
        (Error::InvalidTransaction("Invalid chain id.".to_string()), "Invalid Transaction.", "Invalid chain id.".to_string()),
        (
            Error::InvalidBlockNumber(Bound::TooLow { number: 102, limit: 102 }),
            "Invalid block number.",
            "Block number is too low: 102 <= 102".to_string(),
        ),
        (
            Error::InvalidBlockNumber(Bound::TooHigh { number: 1101, limit: 1100 }),
            "Invalid block number.",
            "Block number is too high: 1101 > 1100".to_string(),
        ),
        (
            Error::InvalidTimestamp(Bound::TooLow { number: 0, limit: 18446744073709551616 }),
            "Invalid timestamp.",
            "Timestamp is too low: 0 <= 18446744073709551616".to_string(),
        ),
        (
            Error::InvalidTimestamp(Bound::TooHigh { number: u64::MAX, limit: 1_500_003_600 }),
            "Invalid timestamp.",
            "Timestamp is too high: 18446744073709551615 > 1500003600".to_string(),
        ),
        (Error::GasTooLow(21_068), "Invalid Transaction.", "Gas is too low. Required: 21068".to_string()),
        (Error::GasTooHigh(1_000_000), "Invalid Transaction.", "Gas is too high. Maximal: 1000000".to_string()),
        (Error::GasPriceTooLow(0), "Invalid Transaction.", "Gas price is too low. Required: 0 wei".to_string()),
        (Error::SenderQuotaExceeded, "Invalid Transaction.", "Sender already scheduled.".to_string()),
        (Error::NotCertified, "Invalid Transaction.", "Sender is not certified.".to_string()),
        (
            Error::InsufficientBalance { required: U256::from_u64(210_100), got: U256::from_u64(0) },
            "Invalid Transaction.",
            "Insufficient balance (required: 210100, got: 0)".to_string(),
        ),
        (
            Error::InsufficientBalance { required: U256([u64::MAX; 4]), got: U256([0, 1, 0, 0]) },
            "Invalid Transaction.",
            "Insufficient balance (required: 115792089237316195423570985008687907853269984665640564039457584007913129639935, got: 18446744073709551616)".to_string(),
        ),
        (
            Error::InvalidNonce { required: U256::from_u64(6), got: U256::from_u64(5) },
            "Invalid Transaction.",
            "Invalid nonce (required: 6, got: 5)".to_string(),
        ),
    ];
    for (error, message, data) in cases {
        assert_eq!(report(error), invalid(message, &data));
    }
}

#[test]
fn errors_carry_their_code_and_message() {
    assert_eq!(errors::rlp("x".to_string()), invalid("Invalid RLP.", "x"));
    assert_eq!(errors::transaction("x".to_string()), invalid("Invalid Transaction.", "x"));
    assert_eq!(errors::block("x".to_string()), invalid("Invalid block number.", "x"));
    assert_eq!(errors::timestamp("x".to_string()), invalid("Invalid timestamp.", "x"));
    let internal = errors::internal("disk full".to_string());
    assert_eq!(internal.code, ErrorCode::InternalError);
    assert_eq!(internal.code.code(), -32603);
    assert_eq!(internal.message, "Internal Error");
    assert_eq!(internal.data, Some("disk full".to_string()));
    assert_eq!(ErrorCode::InvalidParams.code(), -32602);
}

#[test]
fn a_condition_goes_to_the_verifier_of_its_side() {
    let options = |chain_id: u64| Options {
        chain_id,
        max_gas: 0,
        min_gas_price: 0,
        min_schedule_block: 0,
        max_schedule_block: 0,
        min_schedule_seconds: 0,
        max_schedule_seconds: 0,
        strict_nonce: false,
        max_txs_per_sender: 0,
        certifier: None,
        submit_earlier: 0,
        rpc_listen_address: String::new(),
        rpc_server_threads: 0,
        processing_threads: 0,
    };
    let verifiers = Verifiers::new(options(1), options(2));
    let block = verifiers.of(&Condition::Number(5));
    assert_eq!(block.mode(), VerifierMode::Block);
    assert_eq!(block.options().chain_id, 1);
    let time = verifiers.of(&Condition::Timestamp(5));
    assert_eq!(time.mode(), VerifierMode::Timestamp);
    assert_eq!(time.options().chain_id, 2);
}
