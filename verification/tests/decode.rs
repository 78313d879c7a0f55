use transaction_scheduler::decode::{
    assemble, check_fields, decode, minimal_bytes, number, read_fields, recovery, small_number,
};
use transaction_scheduler::types::{Action, Address, H256};
use transaction_scheduler::uint::U256;
use transaction_scheduler::verification::Decoded;

fn raw(text: &str) -> Vec<u8> {
    let digits: Vec<u8> = text
        .bytes()
        .map(|b| match b {
            b'0'..=b'9' => b - b'0',
            b'a'..=b'f' => b - b'a' + 10,
            _ => panic!("not a hex digit"),
        })
        .collect();
    digits.chunks(2).map(|pair| pair[0] * 16 + pair[1]).collect()
}

fn address(text: &str) -> Address {
    let mut bytes = [0u8; 20];
    bytes.copy_from_slice(&raw(text));
    Address(bytes)
}

fn hash(text: &str) -> H256 {
    let mut bytes = [0u8; 32];
    bytes.copy_from_slice(&raw(text));
    H256(bytes)
}

/// The list of these byte strings, each shorter than 56 bytes, as a list of at most 255 bytes.
fn list(items: &[Vec<u8>]) -> Vec<u8> {
    let mut body = Vec::new();
    for item in items {
        if item.len() == 1 && item[0] < 0x80 {
            body.push(item[0]);
        } else {
            body.push(0x80 + item.len() as u8);
            body.extend_from_slice(item);
        }
    }
    let mut out = if body.len() < 56 { vec![0xc0 + body.len() as u8] } else { vec![0xf8, body.len() as u8] };
    out.extend_from_slice(&body);
    out
}

/// The nine fields of a transaction that pays address 0x35..35, with a signature of this kind.
fn fields(v: u64, r: Vec<u8>, s: Vec<u8>) -> Vec<Vec<u8>> {
    vec![vec![], vec![4, 0xa8], vec![0x52, 0x08], vec![0x35; 20], vec![], vec![], minimal_bytes(v), r, s]
}

fn invalid_rlp(decoded: Decoded) -> String {
    match decoded {
        Decoded::InvalidRlp(text) => text,
        other => panic!("decoded: {:?}", other),
    }
}

fn invalid_signature(decoded: Decoded) -> String {
    match decoded {
        Decoded::InvalidSignature(text) => text,
        other => panic!("decoded: {:?}", other),
    }
}

#[test]
fn signed_transactions_are_decoded_with_their_senders() {
    let cases = [
        (
            "f864808504a817c800825208943535353535353535353535353535353535353535808025a0044852b2a670ade5407e78fb2863c51de9fcb96542a07186fe3aeda6bb8a116da0044852b2a670ade5407e78fb2863c51de9fcb96542a07186fe3aeda6bb8a116d",
            "f0f6f18bca1b28cd68e4357452947e021241e9ce",
            "b1e2188bc490908a78184e4818dca53684167507417fdb4c09c2d64d32a9896a",
            (0u64, 0x04a817c800u64, 0x5208u64, 0u64),
        ),
        (
            "f864018504a817c80182a410943535353535353535353535353535353535353535018025a0489efdaa54c0f20c7adf612882df0950f5a951637e0307cdcb4c672f298b8bcaa0489efdaa54c0f20c7adf612882df0950f5a951637e0307cdcb4c672f298b8bc6",
            "23ef145a395ea3fa3deb533b8a9e1b4c6c25d112",
            "e62703f43b6f10d42b520941898bf710ebb66dba9df81702702b6d9bf23fef1b",
            (1, 0x04a817c801, 0xa410, 1),
        ),
        (
            "f864028504a817c80282f618943535353535353535353535353535353535353535088025a02d7c5bef027816a800da1736444fb58a807ef4c9603b7848673f7e3a68eb14a5a02d7c5bef027816a800da1736444fb58a807ef4c9603b7848673f7e3a68eb14a5",
            "2e485e0c23b4c3c542628a5f672eeab0ad4888be",
            "1f621d7d8804723ab6fec606e504cc893ad4fe4a545d45f499caaf16a61d86dd",
            (2, 0x04a817c802, 0xf618, 8),
        ),
        (
            "f865038504a817c803830148209435353535353535353535353535353535353535351b8025a02a80e1ef1d7842f27f2e6be0972bb708b9a135c38860dbe73c27c3486c34f4e0a02a80e1ef1d7842f27f2e6be0972bb708b9a135c38860dbe73c27c3486c34f4de",
            "82a88539669a3fd524d669e858935de5e5410cf0",
            "99b6455776b1988840d0074c23772cb6b323eb32c5011e4a3a1d06d27b2eb425",
            (3, 0x04a817c803, 0x014820, 27),
        ),
    ];
    for (text, sender, digest, (nonce, gas_price, gas, value)) in cases {
        let bytes = raw(text);
        let tx = match decode(&bytes) {
            Decoded::Valid(tx) => tx,
            other => panic!("decoded: {:?}", other),
        };
        assert_eq!(tx.sender, address(sender));
        assert_eq!(tx.hash, hash(digest));
        assert_eq!(tx.rlp, bytes);
        assert_eq!(tx.nonce, U256::from_u64(nonce));
        assert_eq!(tx.gas_price, U256::from_u64(gas_price));
        assert_eq!(tx.gas, U256::from_u64(gas));
        assert_eq!(tx.value, U256::from_u64(value));
        assert_eq!(tx.action, Action::Call(Address([0x35; 20])));
        assert_eq!(tx.data, Vec::<u8>::new());
        assert_eq!(tx.chain_id, Some(1));
    }
}

#[test]
fn what_is_no_list_of_nine_byte_strings_is_no_transaction() {
    assert_eq!(invalid_rlp(decode(&[])), "RlpExpectedToBeList");
    assert_eq!(invalid_rlp(decode(&[0x83, 1, 2, 3])), "RlpExpectedToBeList");
    assert_eq!(invalid_rlp(decode(&[0xc0])), "RlpIncorrectListLen");
    let eight = list(&fields(37, vec![1], vec![1])[..8]);
    assert_eq!(invalid_rlp(decode(&eight)), "RlpIncorrectListLen");
    let mut ten = fields(37, vec![1], vec![1]);
    ten.push(vec![]);
    assert_eq!(invalid_rlp(decode(&list(&ten))), "RlpIncorrectListLen");
    // bytes behind the list, and a list that ends early
    let mut behind = list(&fields(37, vec![1], vec![1]));
    behind.push(0);
    assert_eq!(invalid_rlp(decode(&behind)), "RlpInconsistentLengthAndData");
    behind.truncate(behind.len() - 2);
    assert_eq!(invalid_rlp(decode(&behind)), "RlpInconsistentLengthAndData");
    assert_eq!(invalid_rlp(decode(&[0xc0, 0xc0])), "RlpInconsistentLengthAndData");
    // a list where a byte string belongs
    let mut nested = vec![0xc9u8];
    nested.extend_from_slice(&[0x80, 0x80, 0x80, 0xc0, 0x80, 0x80, 0x80, 0x80, 0x80]);
    assert_eq!(invalid_rlp(decode(&nested)), "RlpExpectedToBeData");
}

#[test]
fn the_fields_of_a_transaction_have_their_form() {
    let good = fields(37, vec![1], vec![1]);
    let with = |index: usize, field: Vec<u8>| {
        let mut changed = good.clone();
        changed[index] = field;
        decode(&list(&changed))
    };
    // numbers of more than 32 bytes, and `v` of more than 8
    for index in [0usize, 1, 2, 4, 7, 8] {
        assert_eq!(invalid_rlp(with(index, vec![1; 33])), "RlpIsTooBig");
        assert_eq!(invalid_rlp(with(index, vec![0, 1])), "RlpInvalidIndirection");
    }
    assert_eq!(invalid_rlp(with(6, vec![1; 9])), "RlpIsTooBig");
    assert_eq!(invalid_rlp(with(6, vec![0, 37])), "RlpInvalidIndirection");
    // a recipient that is no address
    assert_eq!(invalid_rlp(with(3, vec![0x35; 19])), "RlpInvalidLength");
    assert_eq!(invalid_rlp(with(3, vec![0x35; 21])), "RlpInvalidLength");
    // the first fault is the one that is told
    let mut twice = good.clone();
    twice[1] = vec![0, 1];
    twice[3] = vec![1];
    assert_eq!(invalid_rlp(decode(&list(&twice))), "RlpInvalidIndirection");
}

#[test]
fn a_signature_that_gives_no_sender_is_told() {
    let r = raw("044852b2a670ade5407e78fb2863c51de9fcb96542a07186fe3aeda6bb8a116d");
    // no key signs with r and s zero
    assert_eq!(invalid_signature(decode(&list(&fields(37, vec![], vec![])))), "Invalid EC signature");
    // a `v` that no signature has
    for v in [0u64, 1, 26, 29, 34] {
        assert_eq!(invalid_signature(decode(&list(&fields(v, r.clone(), r.clone())))), "Invalid EC signature");
    }
    // an `s` above half of the order of the curve
    let high = raw("7fffffffffffffffffffffffffffffff5d576e7357a4501ddfe92f46681b20a1");
    assert_eq!(invalid_signature(decode(&list(&fields(37, r.clone(), high)))), "Invalid EC signature");
    let highest = vec![0xff; 32];
    assert_eq!(invalid_signature(decode(&list(&fields(28, r.clone(), highest)))), "Invalid EC signature");
}

#[test]
fn the_chain_is_told_by_v() {
    let r = raw("044852b2a670ade5407e78fb2863c51de9fcb96542a07186fe3aeda6bb8a116d");
    let half = raw("7fffffffffffffffffffffffffffffff5d576e7357a4501ddfe92f46681b20a0");
    for (v, chain_id) in [(27u64, None), (28, None), (35, Some(0u64)), (37, Some(1)), (38, Some(1)), (1000, Some(482))] {
        for s in [r.clone(), half.clone()] {
            // whoever the sender is: the signature is one
            match decode(&list(&fields(v, r.clone(), s))) {
                Decoded::Valid(tx) => {
                    assert_eq!(tx.chain_id, chain_id);
                    assert_eq!(tx.action, Action::Call(Address([0x35; 20])));
                    assert_eq!(tx.gas, U256::from_u64(0x5208));
                }
                Decoded::InvalidSignature(_) => {}
                other => panic!("decoded: {:?}", other),
            }
        }
    }
    // the same signature under another chain id gives another sender, if any
    let one = decode(&list(&fields(37, r.clone(), r.clone())));
    let two = decode(&list(&fields(39, r.clone(), r.clone())));
    match (one, two) {
        (Decoded::Valid(one), Decoded::Valid(two)) => {
            assert_ne!(one.sender, two.sender);
            assert_ne!(one.hash, two.hash);
        }
        (Decoded::Valid(_), _) => {}
        other => panic!("decoded: {:?}", other),
    }
}

#[test]
fn a_transaction_that_makes_a_contract_has_no_recipient() {
    let r = raw("044852b2a670ade5407e78fb2863c51de9fcb96542a07186fe3aeda6bb8a116d");
    let mut creating = fields(27, r.clone(), r.clone());
    creating[3] = vec![];
    creating[5] = vec![0x60, 0x00];
    match decode(&list(&creating)) {
        Decoded::Valid(tx) => {
            assert_eq!(tx.action, Action::Create);
            assert_eq!(tx.data, vec![0x60, 0x00]);
            assert_eq!(tx.chain_id, None);
        }
        Decoded::InvalidSignature(_) => {}
        other => panic!("decoded: {:?}", other),
    }
}

#[test]
fn numbers_are_read_most_significant_byte_first() {
    assert_eq!(number(&[]), U256::zero());
    assert_eq!(number(&[7]), U256::from_u64(7));
    assert_eq!(number(&[1, 0]), U256::from_u64(256));
    assert_eq!(number(&[1, 2, 3, 4, 5, 6, 7, 8, 9]), U256([0x0203040506070809, 1, 0, 0]));
    let mut bytes = [0u8; 32];
    for (i, byte) in bytes.iter_mut().enumerate() {
        *byte = i as u8 + 1;
    }
    assert_eq!(
        number(&bytes),
        U256([0x191a1b1c1d1e1f20, 0x1112131415161718, 0x090a0b0c0d0e0f10, 0x0102030405060708])
    );
    assert_eq!(number(&[0xff; 32]), U256([u64::MAX; 4]));
    assert_eq!(small_number(&[]), 0);
    assert_eq!(small_number(&[0x25]), 37);
    assert_eq!(small_number(&[1, 0]), 256);
    assert_eq!(small_number(&[0xff; 8]), u64::MAX);
    assert_eq!(minimal_bytes(0), Vec::<u8>::new());
    assert_eq!(minimal_bytes(1), vec![1]);
    assert_eq!(minimal_bytes(255), vec![255]);
    assert_eq!(minimal_bytes(256), vec![1, 0]);
    assert_eq!(minimal_bytes(0x0102030405060708), vec![1, 2, 3, 4, 5, 6, 7, 8]);
    assert_eq!(minimal_bytes(u64::MAX), vec![0xff; 8]);
    for n in [0u64, 1, 127, 128, 255, 256, 65535, 65536, u64::MAX] {
        assert_eq!(small_number(&minimal_bytes(n)), n);
    }
}

#[test]
fn the_key_to_recover_is_told_by_v_and_s() {
    let r = vec![1u8; 32];
    let half = raw("7fffffffffffffffffffffffffffffff5d576e7357a4501ddfe92f46681b20a0");
    let above = raw("7fffffffffffffffffffffffffffffff5d576e7357a4501ddfe92f46681b20a1");
    for (v, id) in [(27u64, Some(0)), (28, Some(1)), (35, Some(0)), (36, Some(1)), (37, Some(0)), (38, Some(1)), (1001, Some(0))] {
        assert_eq!(recovery(&fields(v, r.clone(), vec![1])), id);
        assert_eq!(recovery(&fields(v, r.clone(), half.clone())), id);
        assert_eq!(recovery(&fields(v, r.clone(), above.clone())), None);
        assert_eq!(recovery(&fields(v, r.clone(), vec![])), id);
    }
    for v in [0u64, 1, 26, 29, 30, 34] {
        assert_eq!(recovery(&fields(v, r.clone(), vec![1])), None);
    }
}

#[test]
fn a_transaction_is_put_together_from_its_fields() {
    let mut given = fields(38, vec![1], vec![2]);
    given[0] = vec![9];
    given[4] = vec![1, 0, 0];
    given[5] = vec![0xde, 0xad];
    let tx = assemble(&given, Address([7; 20]), H256([8; 32]), vec![1, 2, 3]);
    assert_eq!(tx.nonce, U256::from_u64(9));
    assert_eq!(tx.gas_price, U256::from_u64(0x04a8));
    assert_eq!(tx.gas, U256::from_u64(0x5208));
    assert_eq!(tx.action, Action::Call(Address([0x35; 20])));
    assert_eq!(tx.value, U256::from_u64(65536));
    assert_eq!(tx.data, vec![0xde, 0xad]);
    assert_eq!(tx.chain_id, Some(1));
    assert_eq!(tx.sender, Address([7; 20]));
    assert_eq!(tx.hash, H256([8; 32]));
    assert_eq!(tx.rlp, vec![1, 2, 3]);
    given[3] = vec![];
    given[6] = vec![27];
    let tx = assemble(&given, Address([7; 20]), H256([8; 32]), vec![]);
    assert_eq!(tx.action, Action::Create);
    assert_eq!(tx.chain_id, None);
}

#[test]
fn the_fields_are_checked_in_their_order() {
    let good = fields(37, vec![1], vec![1]);
    assert_eq!(check_fields(&good), None);
    assert_eq!(read_fields(&list(&good)), Ok(good.clone()));
    let mut bad = good.clone();
    bad[8] = vec![0];
    assert_eq!(check_fields(&bad), Some("RlpInvalidIndirection".to_string()));
    bad[6] = vec![1; 9];
    assert_eq!(check_fields(&bad), Some("RlpIsTooBig".to_string()));
    bad[3] = vec![1; 5];
    assert_eq!(check_fields(&bad), Some("RlpInvalidLength".to_string()));
    assert_eq!(read_fields(&list(&bad)), Err("RlpInvalidLength".to_string()));
    // data may be anything
    let mut data = good.clone();
    data[5] = vec![0; 40];
    assert_eq!(check_fields(&data), None);
}
