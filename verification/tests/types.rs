use transaction_scheduler::record;
use transaction_scheduler::types::{
    Action, Address, Condition, SignedTransaction, Transaction, TransactionId, H256,
};
use transaction_scheduler::uint::U256;
use transaction_scheduler::TransportType;

fn id_bytes(kind: u8, num: [u8; 8], hash: u8) -> Vec<u8> {
    let mut bytes = vec![kind];
    bytes.extend_from_slice(&num);
    bytes.extend_from_slice(&[hash; 32]);
    bytes
}

#[test]
fn a_handle_is_kind_number_and_hash() {
    let id = TransactionId { is_timestamp: false, num: 0x0102030405060708, hash: H256([0xee; 32]) };
    assert_eq!(id.to_bytes(), id_bytes(0, [8, 7, 6, 5, 4, 3, 2, 1], 0xee));
    let id = TransactionId { is_timestamp: true, num: 10, hash: H256([1; 32]) };
    assert_eq!(id.to_bytes(), id_bytes(1, [10, 0, 0, 0, 0, 0, 0, 0], 1));
    assert_eq!(id.to_bytes().len(), TransactionId::LEN);
}

#[test]
fn a_handle_is_read_from_41_bytes_only() {
    let id = TransactionId::from_bytes(&id_bytes(0, [0, 1, 0, 0, 0, 0, 0, 0], 7)).unwrap();
    assert!(!id.is_timestamp);
    assert_eq!(id.num, 256);
    assert_eq!(id.hash, H256([7; 32]));
    // any kind but 0 is a time
    for kind in [1u8, 2, 255] {
        let id = TransactionId::from_bytes(&id_bytes(kind, [0xff; 8], 7)).unwrap();
        assert!(id.is_timestamp);
        assert_eq!(id.num, u64::MAX);
    }
    let mut long = id_bytes(0, [0; 8], 7);
    long.push(0);
    assert!(TransactionId::from_bytes(&long).is_none());
    long.truncate(40);
    assert!(TransactionId::from_bytes(&long).is_none());
    assert!(TransactionId::from_bytes(&[]).is_none());
}

#[test]
fn a_handle_written_and_read_is_the_same_handle() {
    for is_timestamp in [false, true] {
        for num in [0u64, 1, 255, 256, 0x0123456789abcdef, u64::MAX] {
            let mut hash = [0u8; 32];
            for (i, byte) in hash.iter_mut().enumerate() {
                *byte = (i as u8).wrapping_mul(7).wrapping_add(num as u8);
            }
            let id = TransactionId { is_timestamp, num, hash: H256(hash) };
            let back = TransactionId::from_bytes(&id.to_bytes()).unwrap();
            assert_eq!(back.is_timestamp, is_timestamp);
            assert_eq!(back.num, num);
            assert_eq!(back.hash, H256(hash));
        }
    }
}

#[test]
fn a_record_is_length_sender_hash_and_bytes() {
    let tx = Transaction::new(Address([0x11; 20]), H256([0x22; 32]), vec![0xa, 0xb, 0xc]);
    let mut expected = vec![3, 0, 0, 0];
    expected.extend_from_slice(&[0x11; 20]);
    expected.extend_from_slice(&[0x22; 32]);
    expected.extend_from_slice(&[0xa, 0xb, 0xc]);
    assert_eq!(record::encode(&tx), Some(expected));
    let long = Transaction::new(Address([1; 20]), H256([2; 32]), vec![9; 0x0102]);
    assert_eq!(&record::encode(&long).unwrap()[..4], &[2, 1, 0, 0]);
    let empty = Transaction::new(Address([1; 20]), H256([2; 32]), Vec::new());
    assert_eq!(record::encode(&empty).unwrap().len(), record::PREFIX);
}

#[test]
fn a_record_that_was_written_is_read_back_byte_for_byte() {
    for len in [0usize, 1, 55, 56, 57, 255, 256, 1000] {
        let rlp: Vec<u8> = (0..len).map(|i| (i * 31 % 251) as u8).collect();
        let tx = Transaction::new(Address([len as u8; 20]), H256([!(len as u8); 32]), rlp.clone());
        let mut bytes = record::encode(&tx).unwrap();
        assert_eq!(record::decode(&bytes), Some((tx.clone(), 56 + len)));
        // whatever follows the record
        bytes.extend_from_slice(&[0xff; 7]);
        let (back, used) = record::decode(&bytes).unwrap();
        assert_eq!(used, 56 + len);
        assert_eq!(back.sender(), &Address([len as u8; 20]));
        assert_eq!(back.hash(), &H256([!(len as u8); 32]));
        assert_eq!(back.rlp(), &rlp[..]);
    }
}

#[test]
fn a_record_that_ends_early_is_not_read() {
    let tx = Transaction::new(Address([1; 20]), H256([2; 32]), vec![1, 2, 3]);
    let bytes = record::encode(&tx).unwrap();
    for cut in 0..bytes.len() {
        assert_eq!(record::decode(&bytes[..cut]), None);
    }
    assert_eq!(record::count(&bytes), Some(1));
    assert_eq!(record::count(&[]), Some(0));
    assert_eq!(record::count(&bytes[..bytes.len() - 1]), None);
    let mut twice = bytes.clone();
    twice.extend_from_slice(&bytes);
    assert_eq!(record::count(&twice), Some(2));
    twice.push(0);
    assert_eq!(record::count(&twice), None);
    // a length that is larger than what follows
    let mut lying = bytes.clone();
    lying[1] = 1;
    assert_eq!(record::decode(&lying), None);
}

#[test]
fn a_transaction_holds_what_it_was_made_of() {
    let tx = Transaction::new(Address([1; 20]), H256([2; 32]), vec![3, 4]);
    assert_eq!(tx.sender(), &Address([1; 20]));
    assert_eq!(tx.hash(), &H256([2; 32]));
    assert_eq!(tx.rlp(), &[3, 4]);
    assert_eq!(tx.duplicate(), tx);
    let signed = SignedTransaction {
        nonce: U256::from_u64(1),
        gas_price: U256::from_u64(2),
        gas: U256::from_u64(3),
        action: Action::Call(Address([9; 20])),
        value: U256::from_u64(4),
        data: vec![5],
        chain_id: Some(1),
        sender: Address([1; 20]),
        hash: H256([2; 32]),
        rlp: vec![3, 4],
    };
    assert_eq!(Transaction::from(signed), tx);
}

#[test]
fn addresses_and_hashes_are_their_bytes() {
    let bytes: Vec<u8> = (0u8..40).collect();
    let address = Address::from_slice(&bytes);
    assert_eq!(address.0.to_vec(), &bytes[..20]);
    assert!(address.is(&Address::from_slice(&bytes[..20])));
    assert!(!address.is(&Address::from_slice(&bytes[1..])));
    let hash = H256::from_slice(&bytes);
    assert_eq!(hash.0.to_vec(), &bytes[..32]);
    assert!(hash.is(&H256::from_slice(&bytes[..32])));
    let mut other = hash;
    other.0[31] ^= 1;
    assert!(!hash.is(&other));
    assert_eq!(Address::LEN, 20);
    assert_eq!(H256::LEN, 32);
}

#[test]
fn a_condition_gives_its_side_and_its_key() {
    assert!(!Condition::Number(7).is_timestamp());
    assert!(Condition::Timestamp(7).is_timestamp());
    assert_eq!(Condition::Number(7).num(), 7);
    assert_eq!(Condition::Timestamp(u64::MAX).num(), u64::MAX);
    assert!(TransportType::Ipc("/tmp/node.ipc".to_string()).is_local());
    assert!(!TransportType::Http("http://localhost:8545".to_string()).is_local());
}

#[test]
fn numbers_of_256_bits_compare_and_saturate() {
    let max = U256([u64::MAX; 4]);
    let one = U256::from_u64(1);
    let two_64 = U256([0, 1, 0, 0]);
    assert_eq!(U256::zero(), U256([0; 4]));
    assert_eq!(U256::from_u128(0x0001_0000_0000_0000_0002), U256([2, 1, 0, 0]));
    assert_eq!(U256::from_u128(u128::MAX), U256([u64::MAX, u64::MAX, 0, 0]));
    assert!(one.lt(&two_64));
    assert!(!two_64.lt(&one));
    assert!(!one.lt(&one));
    assert!(U256([u64::MAX, 0, 0, 0]).lt(&two_64));
    assert!(U256([u64::MAX, u64::MAX, u64::MAX, 0]).lt(&U256([0, 0, 0, 1])));
    assert!(one.is(&U256([1, 0, 0, 0])));
    assert!(!one.is(&U256([1, 0, 0, 1])));
    // sums and products, carried across words
    assert_eq!(U256::from_u64(u64::MAX).saturating_add(one), two_64);
    assert_eq!(U256::from_u64(3).saturating_add(U256::from_u64(4)), U256::from_u64(7));
    assert_eq!(max.saturating_add(one), max);
    assert_eq!(max.saturating_add(U256::zero()), max);
    assert_eq!(U256::from_u64(6).saturating_mul(U256::from_u64(7)), U256::from_u64(42));
    assert_eq!(
        U256::from_u64(u64::MAX).saturating_mul(U256::from_u64(u64::MAX)),
        U256([1, u64::MAX - 1, 0, 0])
    );
    assert_eq!(two_64.saturating_mul(U256([0, 0, 0, 1])), max);
    assert_eq!(U256([0, 0, 1, 0]).saturating_mul(U256([0, 0, 1, 0])), max);
    assert_eq!(max.saturating_mul(one), max);
    assert_eq!(max.saturating_mul(U256::zero()), U256::zero());
    // in decimal digits
    assert_eq!(U256::zero().decimal(), "0");
    assert_eq!(U256::from_u64(1_000_000_007).decimal(), "1000000007");
    assert_eq!(two_64.decimal(), "18446744073709551616");
    assert_eq!(
        max.decimal(),
        "115792089237316195423570985008687907853269984665640564039457584007913129639935"
    );
}
