use transaction_scheduler::blockchain::{Blockchain, Cache, Updater};
use transaction_scheduler::database::Database;
use transaction_scheduler::options::Options;
use transaction_scheduler::types::{Action, Address, SignedTransaction, H256};
use transaction_scheduler::uint::U256;
use transaction_scheduler::verification::{Decoded, Step, Verifier};

#[test]
fn a_new_state_knows_nothing() {
    let blockchain = Blockchain::new(Some(Address([1; 20])));
    assert_eq!(blockchain.latest_block(), 0);
    assert_eq!(blockchain.certifier(), Some(Address([1; 20])));
    assert_eq!(blockchain.balance_and_nonce(&Address([2; 20])), None);
    assert_eq!(blockchain.is_certified(&Address([2; 20])), None);
    let open = Blockchain::new(None);
    assert_eq!(open.certifier(), None);
    assert_eq!(open.is_certified(&Address([2; 20])), Some(true));
}

#[test]
fn what_was_asked_is_remembered_per_sender() {
    let mut blockchain = Blockchain::new(Some(Address([1; 20])));
    let one = Address([1; 20]);
    let two = Address([2; 20]);
    blockchain.remember_balance_and_nonce(one, U256::from_u64(100), U256::from_u64(5));
    blockchain.remember_certification(two, false);
    assert_eq!(blockchain.balance_and_nonce(&one), Some((U256::from_u64(100), U256::from_u64(5))));
    assert_eq!(blockchain.balance_and_nonce(&two), None);
    assert_eq!(blockchain.is_certified(&one), None);
    assert_eq!(blockchain.is_certified(&two), Some(false));
    // the last answer counts
    blockchain.remember_balance_and_nonce(one, U256::from_u64(7), U256::from_u64(6));
    blockchain.remember_certification(two, true);
    assert_eq!(blockchain.balance_and_nonce(&one), Some((U256::from_u64(7), U256::from_u64(6))));
    assert_eq!(blockchain.is_certified(&two), Some(true));
}

#[test]
fn a_new_block_forgets_every_sender() {
    let mut blockchain = Blockchain::new(Some(Address([9; 20])));
    blockchain.update_latest_block(50);
    for sender in 0u8..5 {
        blockchain.remember_balance_and_nonce(Address([sender; 20]), U256::from_u64(100), U256::from_u64(5));
        blockchain.remember_certification(Address([sender; 20]), true);
    }
    blockchain.update_latest_block(51);
    assert_eq!(blockchain.latest_block(), 51);
    assert_eq!(blockchain.certifier(), Some(Address([9; 20])));
    for sender in 0u8..5 {
        assert_eq!(blockchain.balance_and_nonce(&Address([sender; 20])), None);
        assert_eq!(blockchain.is_certified(&Address([sender; 20])), None);
    }
}

#[test]
fn after_a_new_block_the_chain_is_asked_again() {
    let sender = Address([1; 20]);
    let options = Options {
        chain_id: 1,
        max_gas: 100_000,
        min_gas_price: 1,
        min_schedule_block: 0,
        max_schedule_block: 100,
        min_schedule_seconds: 0,
        max_schedule_seconds: 100,
        strict_nonce: true,
        max_txs_per_sender: 5,
        certifier: None,
        submit_earlier: 0,
        rpc_listen_address: String::new(),
        rpc_server_threads: 1,
        processing_threads: 1,
    };
    let tx = SignedTransaction {
        nonce: U256::from_u64(5),
        gas_price: U256::from_u64(1),
        gas: U256::from_u64(21_000),
        action: Action::Call(Address([3; 20])),
        value: U256::zero(),
        data: Vec::new(),
        chain_id: None,
        sender,
        hash: H256([1; 32]),
        rlp: vec![1],
    };
    let verifier = Verifier::new_block(options);
    let database = Database::open(&Vec::new(), 5);
    let mut blockchain = Blockchain::new(None);
    let mut updater = Updater::new();
    assert_eq!(updater.observe(&mut blockchain, 50), Some(50));
    blockchain.remember_balance_and_nonce(sender, U256::from_u64(100), U256::from_u64(5));
    // under block 50 the remembered balance decides: 100 is too little for 21000 gas
    let scheduled = verifier.schedule(&blockchain, 60).unwrap();
    assert!(matches!(
        verifier.verify_decoded(scheduled, Decoded::Valid(tx.clone()), &blockchain, &database),
        Step::Rejected(_)
    ));
    // the same block again changes nothing
    assert_eq!(updater.observe(&mut blockchain, 50), None);
    assert_eq!(blockchain.balance_and_nonce(&sender), Some((U256::from_u64(100), U256::from_u64(5))));
    // block 51 is announced, and the chain has to be asked
    assert_eq!(updater.observe(&mut blockchain, 51), Some(51));
    assert_eq!(blockchain.latest_block(), 51);
    let scheduled = verifier.schedule(&blockchain, 60).unwrap();
    assert!(matches!(
        verifier.verify_decoded(scheduled, Decoded::Valid(tx), &blockchain, &database),
        Step::AskBalanceAndNonce(_)
    ));
    // a block number that goes back is a new block, too
    assert_eq!(updater.observe(&mut blockchain, 50), Some(50));
    assert_eq!(blockchain.latest_block(), 50);
}

#[test]
fn a_cache_gives_the_last_value_of_an_address() {
    let mut cache: Cache<u32> = Cache::new();
    assert_eq!(cache.get(&Address([1; 20])), None);
    cache.insert(Address([1; 20]), 10);
    cache.insert(Address([2; 20]), 20);
    cache.insert(Address([1; 20]), 11);
    assert_eq!(cache.get(&Address([1; 20])), Some(11));
    assert_eq!(cache.get(&Address([2; 20])), Some(20));
    assert_eq!(cache.get(&Address([3; 20])), None);
    cache.clear();
    assert_eq!(cache.get(&Address([1; 20])), None);
    assert_eq!(cache.get(&Address([2; 20])), None);
}
