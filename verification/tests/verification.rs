use transaction_scheduler::blockchain::Blockchain;
use transaction_scheduler::database::Database;
use transaction_scheduler::options::Options;
use transaction_scheduler::types::{Action, Address, SignedTransaction, Transaction, H256};
use transaction_scheduler::uint::U256;
use transaction_scheduler::verification::{
    check_window, minimal_gas, verify_economics, verify_transaction, Bound, Decoded, Error, Step,
    Verifier, VerifierMode,
};

fn options() -> Options {
    Options {
        chain_id: 1,
        max_gas: 1_000_000,
        min_gas_price: 10,
        min_schedule_block: 2,
        max_schedule_block: 1000,
        min_schedule_seconds: 20,
        max_schedule_seconds: 3600,
        strict_nonce: true,
        max_txs_per_sender: 1,
        certifier: None,
        submit_earlier: 0,
        rpc_listen_address: "127.0.0.1:3001".to_string(),
        rpc_server_threads: 1,
        processing_threads: 1,
    }
}

fn signed(sender: u8) -> SignedTransaction {
    SignedTransaction {
        nonce: U256::from_u64(5),
        gas_price: U256::from_u64(10),
        gas: U256::from_u64(21_000),
        action: Action::Call(Address([0x35; 20])),
        value: U256::from_u64(100),
        data: Vec::new(),
        chain_id: Some(1),
        sender: Address([sender; 20]),
        hash: H256([sender; 32]),
        rlp: vec![0xf8, sender],
    }
}

fn stored(tx: &SignedTransaction) -> Transaction {
    Transaction::new(tx.sender, tx.hash, tx.rlp.clone())
}

/// The block-side verifier, block 100 as the latest block, and an empty store.
fn at_block_100(options: Options) -> (Verifier, Blockchain, Database) {
    let mut blockchain = Blockchain::new(options.certifier);
    blockchain.update_latest_block(100);
    let database = Database::open(&Vec::new(), options.max_txs_per_sender);
    (Verifier::new_block(options), blockchain, database)
}

fn rejected(step: Step) -> Error {
    match step {
        Step::Rejected(error) => error,
        other => panic!("not rejected: {:?}", other),
    }
}

fn low(number: u64, limit: u128) -> Bound {
    Bound::TooLow { number, limit }
}

fn high(number: u64, limit: u128) -> Bound {
    Bound::TooHigh { number, limit }
}

#[test]
fn the_schedule_window_is_open_below_and_closed_above() {
    let (verifier, blockchain, _) = at_block_100(options());
    assert_eq!(verifier.verify_block_number(&blockchain, 102), Err(Error::InvalidBlockNumber(low(102, 102))));
    assert_eq!(verifier.verify_block_number(&blockchain, 103), Ok(()));
    assert_eq!(verifier.verify_block_number(&blockchain, 1100), Ok(()));
    assert_eq!(verifier.verify_block_number(&blockchain, 1101), Err(Error::InvalidBlockNumber(high(1101, 1100))));
    assert_eq!(verifier.verify_block_number(&blockchain, 0), Err(Error::InvalidBlockNumber(low(0, 102))));
    assert_eq!(
        verifier.verify_block_number(&blockchain, u64::MAX),
        Err(Error::InvalidBlockNumber(high(u64::MAX, 1100)))
    );
    assert!(verifier.schedule(&blockchain, 103).is_ok());
    assert_eq!(verifier.schedule(&blockchain, 102).unwrap_err(), Error::InvalidBlockNumber(low(102, 102)));
    assert_eq!(verifier.mode(), VerifierMode::Block);
    assert_eq!(verifier.options(), &options());
}

#[test]
fn the_window_is_reckoned_without_wrapping() {
    assert_eq!(check_window(100, 2, 1000, 102), Some(low(102, 102)));
    assert_eq!(check_window(100, 2, 1000, 103), None);
    assert_eq!(check_window(100, 2, 1000, 1100), None);
    assert_eq!(check_window(100, 2, 1000, 1101), Some(high(1101, 1100)));
    // sums above what 64 bits hold
    assert_eq!(check_window(u64::MAX, 1, 5, u64::MAX), Some(low(u64::MAX, u64::MAX as u128 + 1)));
    assert_eq!(check_window(u64::MAX - 1, 0, u64::MAX, u64::MAX), None);
    assert_eq!(check_window(5, u64::MAX, u64::MAX, u64::MAX), Some(low(u64::MAX, u64::MAX as u128 + 5)));
    // an empty window
    assert_eq!(check_window(10, 5, 5, 15), Some(low(15, 15)));
    assert_eq!(check_window(10, 5, 5, 16), Some(high(16, 15)));
    assert_eq!(check_window(0, 0, 0, 0), Some(low(0, 0)));
}

#[test]
fn times_are_checked_against_the_clock() {
    let verifier = Verifier::new_timestamp(options());
    assert_eq!(verifier.mode(), VerifierMode::Timestamp);
    assert_eq!(verifier.check_timestamp(1000, 1020), Err(Error::InvalidTimestamp(low(1020, 1020))));
    assert_eq!(verifier.check_timestamp(1000, 1021), Ok(()));
    assert_eq!(verifier.check_timestamp(1000, 4600), Ok(()));
    assert_eq!(verifier.check_timestamp(1000, 4601), Err(Error::InvalidTimestamp(high(4601, 4600))));
    // by the wall clock: the epoch is long past, the end of time is far away
    let now = std::time::SystemTime::now().duration_since(std::time::UNIX_EPOCH).unwrap().as_secs();
    let too_low = |verified: Result<(), Error>, time: u64| match verified {
        Err(Error::InvalidTimestamp(Bound::TooLow { number, limit })) => {
            assert_eq!(number, time);
            assert!(limit >= now as u128 + 20 && limit <= now as u128 + 80);
        }
        other => panic!("not too low: {:?}", other),
    };
    let too_high = |verified: Result<(), Error>, time: u64| match verified {
        Err(Error::InvalidTimestamp(Bound::TooHigh { number, limit })) => {
            assert_eq!(number, time);
            assert!(limit >= now as u128 + 3600 && limit <= now as u128 + 3660);
        }
        other => panic!("not too high: {:?}", other),
    };
    too_low(verifier.verify_timestamp(0), 0);
    too_low(verifier.verify_timestamp(now.saturating_sub(5)), now.saturating_sub(5));
    assert_eq!(verifier.verify_timestamp(now + 1800), Ok(()));
    too_high(verifier.verify_timestamp(now + 7200), now + 7200);
    too_high(verifier.verify_timestamp(u64::MAX), u64::MAX);
    let blockchain = Blockchain::new(None);
    assert!(verifier.schedule(&blockchain, now + 1800).is_ok());
    too_low(verifier.schedule(&blockchain, 1).map(|_| ()), 1);
    too_high(verifier.schedule(&blockchain, now + 7200).map(|_| ()), now + 7200);
}

#[test]
fn minimal_gas_counts_zero_and_other_bytes() {
    let mut tx = signed(1);
    assert_eq!(minimal_gas(&tx), 21_000);
    tx.data = vec![0, 0, 0, 1, 2, 0xff];
    assert_eq!(minimal_gas(&tx), 21_000 + 3 * 4 + 3 * 68);
    tx.action = Action::Create;
    assert_eq!(minimal_gas(&tx), 53_000 + 3 * 4 + 3 * 68);
    tx.data = vec![0; 1000];
    assert_eq!(minimal_gas(&tx), 57_000);
    tx.data = vec![7; 1000];
    assert_eq!(minimal_gas(&tx), 121_000);
}

#[test]
fn a_transaction_is_held_to_chain_gas_and_price() {
    let options = options();
    assert_eq!(verify_transaction(Decoded::Valid(signed(1)), &options), Ok(signed(1)));
    assert_eq!(
        verify_transaction(Decoded::InvalidRlp("RlpIsTooShort".to_string()), &options),
        Err(Error::InvalidRlp("RlpIsTooShort".to_string()))
    );
    assert_eq!(
        verify_transaction(Decoded::InvalidSignature("Invalid EC signature".to_string()), &options),
        Err(Error::InvalidTransaction("Invalid EC signature".to_string()))
    );
    let mut tx = signed(1);
    tx.chain_id = Some(2);
    assert_eq!(
        verify_transaction(Decoded::Valid(tx), &options),
        Err(Error::InvalidTransaction("Invalid chain id.".to_string()))
    );
    // signed for no chain in particular
    let mut tx = signed(1);
    tx.chain_id = None;
    assert_eq!(verify_transaction(Decoded::Valid(tx.clone()), &options), Ok(tx));
    let mut tx = signed(1);
    tx.gas = U256::from_u64(20_999);
    assert_eq!(verify_transaction(Decoded::Valid(tx), &options), Err(Error::GasTooLow(21_000)));
    let mut tx = signed(1);
    tx.data = vec![1];
    assert_eq!(verify_transaction(Decoded::Valid(tx), &options), Err(Error::GasTooLow(21_068)));
    let mut tx = signed(1);
    tx.gas = U256::from_u64(1_000_000);
    assert_eq!(verify_transaction(Decoded::Valid(tx.clone()), &options), Ok(tx));
    let mut tx = signed(1);
    tx.gas = U256::from_u64(1_000_001);
    assert_eq!(verify_transaction(Decoded::Valid(tx), &options), Err(Error::GasTooHigh(1_000_000)));
    let mut tx = signed(1);
    tx.gas = U256([0, 1, 0, 0]);
    assert_eq!(verify_transaction(Decoded::Valid(tx), &options), Err(Error::GasTooHigh(1_000_000)));
    let mut tx = signed(1);
    tx.gas_price = U256::from_u64(9);
    assert_eq!(verify_transaction(Decoded::Valid(tx), &options), Err(Error::GasPriceTooLow(10)));
    // the first fault is the one reported
    let mut tx = signed(1);
    tx.chain_id = Some(3);
    tx.gas = U256::zero();
    tx.gas_price = U256::zero();
    assert_eq!(
        verify_transaction(Decoded::Valid(tx), &options),
        Err(Error::InvalidTransaction("Invalid chain id.".to_string()))
    );
}

#[test]
fn the_balance_has_to_cover_value_and_gas() {
    let tx = signed(1);
    // 100 + 21000 * 10
    let required = U256::from_u64(210_100);
    assert_eq!(verify_economics(&tx, required, U256::from_u64(5), true), Ok(()));
    assert_eq!(
        verify_economics(&tx, U256::from_u64(210_099), U256::from_u64(5), true),
        Err(Error::InsufficientBalance { required, got: U256::from_u64(210_099) })
    );
    // what does not fit 256 bits counts as the largest number
    let max = U256([u64::MAX; 4]);
    let mut huge = signed(1);
    huge.gas = U256([0, 0, 1, 0]);
    huge.gas_price = U256([0, 0, 1, 0]);
    assert_eq!(verify_economics(&huge, max, U256::from_u64(5), true), Ok(()));
    assert_eq!(
        verify_economics(&huge, U256([u64::MAX - 1, u64::MAX, u64::MAX, u64::MAX]), U256::from_u64(5), true),
        Err(Error::InsufficientBalance { required: max, got: U256([u64::MAX - 1, u64::MAX, u64::MAX, u64::MAX]) })
    );
    let mut rich = signed(1);
    rich.value = max;
    assert_eq!(verify_economics(&rich, max, U256::from_u64(5), true), Ok(()));
}

#[test]
fn the_nonce_is_held_strictly_or_not() {
    let tx = signed(1);
    let balance = U256::from_u64(1_000_000);
    for (nonce, strict, loose) in [(4u64, false, true), (5, true, true), (6, false, false)] {
        let fault = Err(Error::InvalidNonce { required: U256::from_u64(nonce), got: U256::from_u64(5) });
        assert_eq!(verify_economics(&tx, balance, U256::from_u64(nonce), true), if strict { Ok(()) } else { fault.clone() });
        assert_eq!(verify_economics(&tx, balance, U256::from_u64(nonce), false), if loose { Ok(()) } else { fault });
    }
    // a balance that is too low is reported before the nonce
    assert_eq!(
        verify_economics(&tx, U256::zero(), U256::from_u64(9), true),
        Err(Error::InsufficientBalance { required: U256::from_u64(210_100), got: U256::zero() })
    );
}

#[test]
fn without_a_certifier_only_balance_and_nonce_are_asked_for() {
    let (verifier, mut blockchain, database) = at_block_100(options());
    let scheduled = verifier.schedule(&blockchain, 150).unwrap();
    let pending = match verifier.verify_decoded(scheduled, Decoded::Valid(signed(1)), &blockchain, &database) {
        Step::AskBalanceAndNonce(pending) => pending,
        other => panic!("unexpected step: {:?}", other),
    };
    assert_eq!(pending.sender(), &Address([1; 20]));
    match verifier.funded(pending, Ok((U256::from_u64(210_100), U256::from_u64(5))), &mut blockchain) {
        Step::Accepted(num, transaction) => {
            assert_eq!(num, 150);
            assert_eq!(transaction, stored(&signed(1)));
        }
        other => panic!("unexpected step: {:?}", other),
    }
    // what the chain answered is remembered for this block
    assert_eq!(blockchain.balance_and_nonce(&Address([1; 20])), Some((U256::from_u64(210_100), U256::from_u64(5))));
    let scheduled = verifier.schedule(&blockchain, 151).unwrap();
    match verifier.verify_decoded(scheduled, Decoded::Valid(signed(1)), &blockchain, &database) {
        Step::Accepted(num, _) => assert_eq!(num, 151),
        other => panic!("unexpected step: {:?}", other),
    }
}

#[test]
fn a_certifier_is_asked_before_the_chain() {
    let mut with_certifier = options();
    with_certifier.certifier = Some(Address([0xce; 20]));
    let (verifier, mut blockchain, database) = at_block_100(with_certifier);
    let scheduled = verifier.schedule(&blockchain, 150).unwrap();
    let pending = match verifier.verify_decoded(scheduled, Decoded::Valid(signed(1)), &blockchain, &database) {
        Step::AskCertification(pending) => pending,
        other => panic!("unexpected step: {:?}", other),
    };
    let pending = match verifier.certified(pending, Ok(true), &mut blockchain) {
        Step::AskBalanceAndNonce(pending) => pending,
        other => panic!("unexpected step: {:?}", other),
    };
    assert_eq!(blockchain.is_certified(&Address([1; 20])), Some(true));
    let step = verifier.funded(pending, Ok((U256::from_u64(1), U256::from_u64(5))), &mut blockchain);
    assert_eq!(
        rejected(step),
        Error::InsufficientBalance { required: U256::from_u64(210_100), got: U256::from_u64(1) }
    );

    // a sender that is not certified
    let scheduled = verifier.schedule(&blockchain, 150).unwrap();
    let pending = match verifier.verify_decoded(scheduled, Decoded::Valid(signed(2)), &blockchain, &database) {
        Step::AskCertification(pending) => pending,
        other => panic!("unexpected step: {:?}", other),
    };
    assert_eq!(rejected(verifier.certified(pending, Ok(false), &mut blockchain)), Error::NotCertified);
    assert_eq!(blockchain.is_certified(&Address([2; 20])), Some(false));
    let scheduled = verifier.schedule(&blockchain, 150).unwrap();
    let step = verifier.verify_decoded(scheduled, Decoded::Valid(signed(2)), &blockchain, &database);
    assert_eq!(rejected(step), Error::NotCertified);
}

#[test]
fn a_failure_of_the_chain_rejects_the_transaction() {
    let mut with_certifier = options();
    with_certifier.certifier = Some(Address([0xce; 20]));
    let (verifier, mut blockchain, database) = at_block_100(with_certifier);
    let scheduled = verifier.schedule(&blockchain, 150).unwrap();
    let pending = match verifier.verify_decoded(scheduled, Decoded::Valid(signed(1)), &blockchain, &database) {
        Step::AskCertification(pending) => pending,
        other => panic!("unexpected step: {:?}", other),
    };
    let step = verifier.certified(pending, Err("connection refused".to_string()), &mut blockchain);
    assert_eq!(rejected(step), Error::InvalidTransaction("connection refused".to_string()));
    assert_eq!(blockchain.is_certified(&Address([1; 20])), None);

    blockchain.remember_certification(Address([1; 20]), true);
    let scheduled = verifier.schedule(&blockchain, 150).unwrap();
    let pending = match verifier.verify_decoded(scheduled, Decoded::Valid(signed(1)), &blockchain, &database) {
        Step::AskBalanceAndNonce(pending) => pending,
        other => panic!("unexpected step: {:?}", other),
    };
    let step = verifier.funded(pending, Err("timeout".to_string()), &mut blockchain);
    assert_eq!(rejected(step), Error::InvalidTransaction("timeout".to_string()));
    assert_eq!(blockchain.balance_and_nonce(&Address([1; 20])), None);
}

#[test]
fn the_checks_come_in_their_order() {
    let (verifier, blockchain, mut database) = at_block_100(options());
    database.insert(150, stored(&signed(1))).unwrap();
    // decoding before everything else
    let scheduled = verifier.schedule(&blockchain, 150).unwrap();
    let step = verifier.verify_decoded(scheduled, Decoded::InvalidRlp("bad".to_string()), &blockchain, &database);
    assert_eq!(rejected(step), Error::InvalidRlp("bad".to_string()));
    // the transaction itself before the quota
    let mut cheap = signed(1);
    cheap.gas_price = U256::from_u64(1);
    let scheduled = verifier.schedule(&blockchain, 150).unwrap();
    let step = verifier.verify_decoded(scheduled, Decoded::Valid(cheap), &blockchain, &database);
    assert_eq!(rejected(step), Error::GasPriceTooLow(10));
    // the quota before the chain is asked
    let scheduled = verifier.schedule(&blockchain, 150).unwrap();
    let step = verifier.verify_decoded(scheduled, Decoded::Valid(signed(1)), &blockchain, &database);
    assert_eq!(rejected(step), Error::SenderQuotaExceeded);
    // another sender goes on
    let scheduled = verifier.schedule(&blockchain, 150).unwrap();
    match verifier.verify_decoded(scheduled, Decoded::Valid(signed(2)), &blockchain, &database) {
        Step::AskBalanceAndNonce(pending) => assert_eq!(pending.sender(), &Address([2; 20])),
        other => panic!("unexpected step: {:?}", other),
    }
}

#[test]
fn an_answer_for_an_earlier_block_is_used_but_not_remembered() {
    let (verifier, mut blockchain, database) = at_block_100(options());
    let scheduled = verifier.schedule(&blockchain, 150).unwrap();
    let pending = match verifier.verify_decoded(scheduled, Decoded::Valid(signed(1)), &blockchain, &database) {
        Step::AskBalanceAndNonce(pending) => pending,
        other => panic!("unexpected step: {:?}", other),
    };
    blockchain.update_latest_block(101);
    match verifier.funded(pending, Ok((U256::from_u64(210_100), U256::from_u64(5))), &mut blockchain) {
        Step::Accepted(num, _) => assert_eq!(num, 150),
        other => panic!("unexpected step: {:?}", other),
    }
    assert_eq!(blockchain.balance_and_nonce(&Address([1; 20])), None);
}

#[test]
fn a_request_is_decoded_and_verified() {
    let mut opts = options();
    opts.min_gas_price = 20_000_000_000;
    opts.max_txs_per_sender = 2;
    let (verifier, mut blockchain, database) = at_block_100(opts);
    let raw: Vec<u8> = {
        let text = "f864808504a817c800825208943535353535353535353535353535353535353535808025a0044852b2a670ade5407e78fb2863c51de9fcb96542a07186fe3aeda6bb8a116da0044852b2a670ade5407e78fb2863c51de9fcb96542a07186fe3aeda6bb8a116d";
        (0..text.len() / 2).map(|i| u8::from_str_radix(&text[2 * i..2 * i + 2], 16).unwrap()).collect()
    };
    let sender = Address([
        0xf0, 0xf6, 0xf1, 0x8b, 0xca, 0x1b, 0x28, 0xcd, 0x68, 0xe4, 0x35, 0x74, 0x52, 0x94, 0x7e, 0x02, 0x12,
        0x41, 0xe9, 0xce,
    ]);
    let scheduled = verifier.schedule(&blockchain, 150).unwrap();
    let pending = match verifier.verify(scheduled, &raw, &blockchain, &database) {
        Step::AskBalanceAndNonce(pending) => pending,
        other => panic!("unexpected step: {:?}", other),
    };
    assert_eq!(pending.sender(), &sender);
    // gas 21000 at a price of 20000000000, value 0, nonce 0
    let cost = U256::from_u64(420_000_000_000_000);
    match verifier.funded(pending, Ok((cost, U256::zero())), &mut blockchain) {
        Step::Accepted(num, transaction) => {
            assert_eq!(num, 150);
            assert_eq!(transaction.sender(), &sender);
            assert_eq!(transaction.rlp(), &raw[..]);
        }
        other => panic!("unexpected step: {:?}", other),
    }
    // what is no transaction is rejected as such
    let scheduled = verifier.schedule(&blockchain, 150).unwrap();
    let step = verifier.verify(scheduled, &raw[..50], &blockchain, &database);
    assert!(matches!(rejected(step), Error::InvalidRlp(_)));
    let scheduled = verifier.schedule(&blockchain, 150).unwrap();
    let mut forged = raw.clone();
    forged[40] ^= 1;
    let step = verifier.verify(scheduled, &forged, &blockchain, &database);
    match step {
        Step::Rejected(Error::InvalidTransaction(_)) | Step::AskBalanceAndNonce(_) => {}
        other => panic!("unexpected step: {:?}", other),
    }
}
