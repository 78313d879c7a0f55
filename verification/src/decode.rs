//! Decoding of transactions.
//!
//! A transaction arrives as the RLP encoding of a list of nine byte strings:
//! nonce, gas price, gas, recipient, value, data, and the signature's `v`, `r`
//! and `s`. The list is taken apart by `rlp`; the hash of the transaction and
//! the sender that the signature gives are computed by `web3`. What lies
//! between is decided here: what the nine fields have to look like, which
//! chain the transaction was signed for, and what exactly was signed.

use crate::types::{Action, Address, SignedTransaction, H256};
use crate::uint::U256;
use crate::verification::Decoded;
use vstd::prelude::*;

verus! {

/// The number of items of the list that `raw` encodes, as `rlp` counts them;
/// none where `raw` encodes no list.
pub uninterp spec fn item_count(raw: Seq<u8>) -> Option<nat>;

/// The lengths of the header and of the payload of the item at the front of
/// `raw`, as `rlp` reads them; none where `raw` does not hold the whole item.
pub uninterp spec fn payload_of(raw: Seq<u8>) -> Option<(nat, nat)>;

/// The byte string that is the item at `index` of the list that `raw`
/// encodes, as `rlp` reads it; none where there is no such item or it is no
/// byte string.
pub uninterp spec fn bytes_at(raw: Seq<u8>, index: nat) -> Option<Seq<u8>>;

/// The byte strings that were put into a stream of `rlp`.
pub uninterp spec fn appended(stream: rlp::RlpStream) -> Seq<Seq<u8>>;

/// The number of items that a stream of `rlp` was made for.
pub uninterp spec fn expected(stream: rlp::RlpStream) -> nat;

/// The encoding that `rlp` gives a list of byte strings.
pub uninterp spec fn list_of(items: Seq<Seq<u8>>) -> Seq<u8>;

/// The Keccak-256 hash of `bytes`, as `web3` computes it.
pub uninterp spec fn keccak256(bytes: Seq<u8>) -> Seq<u8>;

/// The address of the key that signed `message` with `signature`, as `web3`
/// recovers it; none where the signature gives no key.
pub uninterp spec fn recovered(message: Seq<u8>, signature: Seq<u8>, recovery_id: i32) -> Option<
    Seq<u8>,
>;

/// `rlp::RlpStream`: a stream that the items of a list are put into, one
/// after the other, to be encoded. Nothing is seen of what it holds.
#[verifier::external_type_specification]
#[verifier::external_body]
pub struct ExRlpStream(rlp::RlpStream);

/// `rlp::Rlp::item_count` on `raw`. Trusted: the result is named, not spelled
/// out.
#[verifier::external_body]
fn rlp_item_count(raw: &[u8]) -> (count: Option<usize>)
    ensures
        match count {
            Some(count) => item_count(raw@) == Some(count as nat),
            None => item_count(raw@) is None,
        },
{
    match rlp::Rlp::new(raw).item_count() {
        Ok(count) => Some(count),
        Err(_) => None,
    }
}

/// `rlp::Rlp::payload_info` on `raw`: the lengths of the header and of the
/// payload of the item at the front. Trusted: the result is named, not
/// spelled out; an item that is read lies within `raw`.
#[verifier::external_body]
fn rlp_payload(raw: &[u8]) -> (lengths: Option<(usize, usize)>)
    ensures
        match lengths {
            Some(lengths) => payload_of(raw@) == Some((lengths.0 as nat, lengths.1 as nat))
                && lengths.0 + lengths.1 <= raw@.len(),
            None => payload_of(raw@) is None,
        },
{
    match rlp::Rlp::new(raw).payload_info() {
        Ok(info) => Some((info.header_len, info.value_len)),
        Err(_) => None,
    }
}

/// `rlp::Rlp::val_at` on `raw`, for a byte string. Trusted: the result is
/// named, not spelled out.
#[verifier::external_body]
fn rlp_bytes_at(raw: &[u8], index: usize) -> (bytes: Option<Vec<u8>>)
    ensures
        match bytes {
            Some(bytes) => bytes_at(raw@, index as nat) == Some(bytes@),
            None => bytes_at(raw@, index as nat) is None,
        },
{
    match rlp::Rlp::new(raw).val_at::<Vec<u8>>(index) {
        Ok(bytes) => Some(bytes),
        Err(_) => None,
    }
}

/// `rlp::RlpStream::new_list`: a stream for a list of `len` items, none of
/// which has been put in. Trusted.
#[verifier::external_body]
fn stream_new_list(len: usize) -> (stream: rlp::RlpStream)
    ensures
        appended(stream) == Seq::<Seq<u8>>::empty(),
        expected(stream) == len,
{
    rlp::RlpStream::new_list(len)
}

/// `rlp::RlpStream::append` of a byte string: it is put behind those that
/// the stream holds. Trusted; the outside function panics on more items
/// than the stream was made for.
#[verifier::external_body]
fn stream_append(stream: &mut rlp::RlpStream, item: &Vec<u8>)
    requires
        appended(*old(stream)).len() < expected(*old(stream)),
    ensures
        appended(*final(stream)) == appended(*old(stream)).push(item@),
        expected(*final(stream)) == expected(*old(stream)),
{
    stream.append(item);
}

/// `rlp::RlpStream::out`: the encoding of the list of the items that were
/// put in. Trusted: the result is named, not spelled out; the outside
/// function panics while items are missing.
#[verifier::external_body]
fn stream_out(stream: rlp::RlpStream) -> (encoded: Vec<u8>)
    requires
        appended(stream).len() == expected(stream),
    ensures
        encoded@ == list_of(appended(stream)),
{
    stream.out().to_vec()
}

/// `web3::signing::keccak256`. Trusted: the result is named, not spelled out.
#[verifier::external_body]
fn keccak(bytes: &[u8]) -> (hash: H256)
    ensures
        hash@ == keccak256(bytes@),
{
    H256(web3::signing::keccak256(bytes))
}

/// `web3::signing::recover`. Trusted: the result is named, not spelled out.
#[verifier::external_body]
fn recover(message: &H256, signature: &[u8], recovery_id: i32) -> (sender: Option<Address>)
    ensures
        match sender {
            Some(sender) => recovered(message@, signature@, recovery_id) == Some(sender@),
            None => recovered(message@, signature@, recovery_id) is None,
        },
{
    match web3::signing::recover(&message.0, signature, recovery_id) {
        Ok(sender) => Some(Address(sender.0)),
        Err(_) => None,
    }
}

/// The powers of 256.
pub open spec fn pow256(n: nat) -> nat
    decreases n,
{
    if n == 0 {
        1
    } else {
        256 * pow256((n - 1) as nat)
    }
}

/// The number that bytes write, the most significant byte first.
pub open spec fn be_value(bytes: Seq<u8>) -> nat
    decreases bytes.len(),
{
    if bytes.len() == 0 {
        0
    } else {
        be_value(bytes.drop_last()) * 256 + bytes.last() as nat
    }
}

/// The bytes that write a number, the most significant byte first and no
/// zero byte before it.
pub open spec fn minimal(n: nat) -> Seq<u8>
    decreases n,
{
    if n == 0 {
        Seq::empty()
    } else {
        minimal(n / 256).push((n % 256) as u8)
    }
}

/// Bytes write a number below the power of 256 of their count.
pub proof fn lemma_be_value_bound(bytes: Seq<u8>)
    ensures
        be_value(bytes) < pow256(bytes.len()),
    decreases bytes.len(),
{
    if bytes.len() > 0 {
        lemma_be_value_bound(bytes.drop_last());
    }
}

/// The powers of 256 grow.
pub proof fn lemma_pow256_grows(low: nat, high: nat)
    requires
        low <= high,
    ensures
        pow256(low) <= pow256(high),
        pow256(low) >= 1,
    decreases high,
{
    if low < high {
        lemma_pow256_grows(low, (high - 1) as nat);
    } else if low > 0 {
        lemma_pow256_grows((low - 1) as nat, (low - 1) as nat);
    }
}

/// The seventh and the thirty-first power of 256.
pub proof fn lemma_pow256_values()
    ensures
        pow256(7) == 0x100_0000_0000_0000,
        pow256(8) == 0x1_0000_0000_0000_0000,
        pow256(31) == 0x100_0000_0000_0000_0000_0000_0000_0000_0000_0000_0000_0000_0000_0000_0000_0000nat,
{
    reveal_with_fuel(pow256, 9);
    assert(pow256(7) == 0x100_0000_0000_0000);
    assert(pow256(8) == 0x1_0000_0000_0000_0000);
    lemma_pow256_sum(8, 8);
    assert(pow256(16) == 0x1_0000_0000_0000_0000_0000_0000_0000_0000nat) by {
        assert(0x1_0000_0000_0000_0000nat * 0x1_0000_0000_0000_0000nat
            == 0x1_0000_0000_0000_0000_0000_0000_0000_0000nat);
    }
    lemma_pow256_sum(16, 8);
    assert(pow256(24) == 0x1_0000_0000_0000_0000_0000_0000_0000_0000_0000_0000_0000_0000nat) by {
        assert(0x1_0000_0000_0000_0000_0000_0000_0000_0000nat * 0x1_0000_0000_0000_0000nat
            == 0x1_0000_0000_0000_0000_0000_0000_0000_0000_0000_0000_0000_0000nat);
    }
    lemma_pow256_sum(24, 7);
    assert(0x1_0000_0000_0000_0000_0000_0000_0000_0000_0000_0000_0000_0000nat
        * 0x100_0000_0000_0000nat
        == 0x100_0000_0000_0000_0000_0000_0000_0000_0000_0000_0000_0000_0000_0000_0000_0000nat);
}

/// The power of a sum is the product of the powers.
pub proof fn lemma_pow256_sum(a: nat, b: nat)
    ensures
        pow256(a + b) == pow256(a) * pow256(b),
    decreases b,
{
    if b > 0 {
        lemma_pow256_sum(a, (b - 1) as nat);
        assert(pow256(a + b) == 256 * pow256((a + b - 1) as nat));
        assert(256 * (pow256(a) * pow256((b - 1) as nat)) == pow256(a) * (256 * pow256(
            (b - 1) as nat,
        ))) by (nonlinear_arith);
    } else {
        assert(pow256(a) * 1 == pow256(a)) by (nonlinear_arith);
    }
}

/// One more byte behind a number of at most 31 bytes.
fn shift_in(number: U256, byte: u8) -> (out: U256)
    requires
        number@ < 0x100_0000_0000_0000_0000_0000_0000_0000_0000_0000_0000_0000_0000_0000_0000_0000nat,
    ensures
        out@ == number@ * 256 + byte,
{
    let w0 = number.0[0];
    let w1 = number.0[1];
    let w2 = number.0[2];
    let w3 = number.0[3];
    assert(w3 < 0x100_0000_0000_0000);
    let n0 = (w0 % 0x100_0000_0000_0000) * 256 + byte as u64;
    let n1 = (w1 % 0x100_0000_0000_0000) * 256 + w0 / 0x100_0000_0000_0000;
    let n2 = (w2 % 0x100_0000_0000_0000) * 256 + w1 / 0x100_0000_0000_0000;
    let n3 = w3 * 256 + w2 / 0x100_0000_0000_0000;
    let out = U256([n0, n1, n2, n3]);
    proof {
        let (q0, r0) = (w0 as int / 0x100_0000_0000_0000, w0 as int % 0x100_0000_0000_0000);
        let (q1, r1) = (w1 as int / 0x100_0000_0000_0000, w1 as int % 0x100_0000_0000_0000);
        let (q2, r2) = (w2 as int / 0x100_0000_0000_0000, w2 as int % 0x100_0000_0000_0000);
        assert(w0 == q0 * 0x100_0000_0000_0000 + r0);
        assert(w1 == q1 * 0x100_0000_0000_0000 + r1);
        assert(w2 == q2 * 0x100_0000_0000_0000 + r2);
        assert(n0 == r0 * 256 + byte);
        assert(n1 == r1 * 256 + q0);
        assert(n2 == r2 * 256 + q1);
        assert(n3 == w3 * 256 + q2);
        assert(out.0@[0] == n0 && out.0@[1] == n1 && out.0@[2] == n2 && out.0@[3] == n3);
    }
    out
}

/// The number that at most 32 bytes write, the most significant byte first.
pub fn number(bytes: &[u8]) -> (out: U256)
    requires
        bytes@.len() <= 32,
    ensures
        out@ == be_value(bytes@),
{
    let mut out = U256::zero();
    let mut i: usize = 0;
    assert(bytes@.take(0) =~= Seq::<u8>::empty());
    while i < bytes.len()
        invariant
            i <= bytes@.len() <= 32,
            out@ == be_value(bytes@.take(i as int)),
        decreases bytes@.len() - i,
    {
        proof {
            lemma_be_value_bound(bytes@.take(i as int));
            lemma_pow256_grows(i as nat, 31);
            lemma_pow256_values();
            assert(bytes@.take(i + 1).drop_last() =~= bytes@.take(i as int));
            assert(bytes@.take(i + 1).last() == bytes@[i as int]);
        }
        out = shift_in(out, bytes[i]);
        i += 1;
    }
    assert(bytes@.take(bytes@.len() as int) =~= bytes@);
    out
}

/// The number that at most 8 bytes write, the most significant byte first.
pub fn small_number(bytes: &[u8]) -> (out: u64)
    requires
        bytes@.len() <= 8,
    ensures
        out == be_value(bytes@),
{
    let mut out: u64 = 0;
    let mut i: usize = 0;
    assert(bytes@.take(0) =~= Seq::<u8>::empty());
    while i < bytes.len()
        invariant
            i <= bytes@.len() <= 8,
            out == be_value(bytes@.take(i as int)),
        decreases bytes@.len() - i,
    {
        proof {
            lemma_be_value_bound(bytes@.take(i as int));
            lemma_pow256_grows(i as nat, 7);
            lemma_pow256_values();
            assert(bytes@.take(i + 1).drop_last() =~= bytes@.take(i as int));
            assert(bytes@.take(i + 1).last() == bytes@[i as int]);
        }
        out = out * 256 + bytes[i] as u64;
        i += 1;
    }
    assert(bytes@.take(bytes@.len() as int) =~= bytes@);
    out
}

/// The bytes that write `n`, the most significant byte first and no zero
/// byte before it.
pub fn minimal_bytes(n: u64) -> (out: Vec<u8>)
    ensures
        out@ == minimal(n as nat),
{
    let mut low_first: Vec<u8> = Vec::new();
    let mut left = n;
    while left > 0
        invariant
            minimal(n as nat) == minimal(left as nat) + Seq::new(
                low_first@.len(),
                |i: int| low_first@[low_first@.len() - 1 - i],
            ),
        decreases left,
    {
        let ghost before = low_first@;
        let ghost held = left;
        low_first.push((left % 256) as u8);
        left = left / 256;
        proof {
            let turned = Seq::new(before.len(), |i: int| before[before.len() - 1 - i]);
            let now = Seq::new(low_first@.len(), |i: int| low_first@[low_first@.len() - 1 - i]);
            assert(now =~= seq![(held % 256) as u8] + turned);
            assert(minimal(held as nat) == minimal(left as nat).push((held % 256) as u8));
            assert(minimal(left as nat).push((held % 256) as u8) + turned =~= minimal(
                left as nat,
            ) + now);
        }
    }
    let mut out: Vec<u8> = Vec::new();
    let mut i: usize = low_first.len();
    let ghost turned = Seq::new(low_first@.len(), |i: int| low_first@[low_first@.len() - 1 - i]);
    while i > 0
        invariant
            i <= low_first@.len(),
            turned == Seq::new(low_first@.len(), |i: int| low_first@[low_first@.len() - 1 - i]),
            out@ == turned.take(low_first@.len() - i),
        decreases i,
    {
        i -= 1;
        out.push(low_first[i]);
        proof {
            assert(out@ =~= turned.take(low_first@.len() - i));
        }
    }
    proof {
        assert(turned.take(low_first@.len() as int) =~= turned);
        assert(minimal(0) =~= Seq::<u8>::empty());
        assert(Seq::<u8>::empty() + turned =~= turned);
    }
    out
}

/// The byte strings that vectors hold.
pub open spec fn views(fields: Seq<Vec<u8>>) -> Seq<Seq<u8>> {
    Seq::new(fields.len(), |i: int| fields[i]@)
}

/// What is wrong with the field at `index` of a transaction, if anything.
/// The recipient is an address of 20 bytes, or empty; the data is any byte
/// string; `v` is a number of at most 8 bytes; every other field is a number
/// of at most 32 bytes. A number is written without a zero byte before it.
pub open spec fn field_fault(index: int, field: Seq<u8>) -> Option<Seq<char>> {
    if index == 3 {
        if field.len() == 0 || field.len() == 20 {
            None
        } else {
            Some("RlpInvalidLength"@)
        }
    } else if index == 5 {
        None
    } else if field.len() > (if index == 6 {
        8nat
    } else {
        32nat
    }) {
        Some("RlpIsTooBig"@)
    } else if field.len() > 0 && field[0] == 0 {
        Some("RlpInvalidIndirection"@)
    } else {
        None
    }
}

/// What is wrong with the first field from `from` on that has a fault.
pub open spec fn fields_fault(fields: Seq<Seq<u8>>, from: int) -> Option<Seq<char>>
    decreases fields.len() - from,
{
    if from < 0 || from >= fields.len() {
        None
    } else if field_fault(from, fields[from]) is Some {
        field_fault(from, fields[from])
    } else {
        fields_fault(fields, from + 1)
    }
}

/// The nine fields of the transaction that `raw` encodes, where it encodes
/// a list of nine byte strings.
pub open spec fn fields_of(raw: Seq<u8>) -> Seq<Seq<u8>> {
    Seq::new(9, |i: int| bytes_at(raw, i as nat)->0)
}

/// Whether `raw` is one whole item and nothing more.
pub open spec fn whole(raw: Seq<u8>) -> bool {
    payload_of(raw) matches Some(lengths) && lengths.0 + lengths.1 == raw.len()
}

/// Why `raw` is no encoded transaction, if it is none: it has to encode a
/// list of nine byte strings without a fault in a field, and hold nothing
/// behind the list.
pub open spec fn rlp_fault(raw: Seq<u8>) -> Option<Seq<char>> {
    if item_count(raw) is None {
        Some("RlpExpectedToBeList"@)
    } else if !whole(raw) {
        Some("RlpInconsistentLengthAndData"@)
    } else if item_count(raw)->0 != 9 {
        Some("RlpIncorrectListLen"@)
    } else if exists|i: int| 0 <= i < 9 && #[trigger] bytes_at(raw, i as nat) is None {
        Some("RlpExpectedToBeData"@)
    } else {
        fields_fault(fields_of(raw), 0)
    }
}

/// The id of the chain that a transaction with this `v` was signed for:
/// from 35 on `v` holds the id.
pub open spec fn chain_of(v: nat) -> Option<u64> {
    if v >= 35 {
        Some(((v - 35) / 2) as u64)
    } else {
        None
    }
}

/// Which of the two keys that a signature may come from `v` points to;
/// none for a `v` that a signature cannot have.
pub open spec fn recovery_of(v: nat) -> Option<i32> {
    if v == 27 || v == 28 {
        Some((v - 27) as i32)
    } else if v >= 35 {
        Some(((v - 35) % 2) as i32)
    } else {
        None
    }
}

/// Half of the order of the curve: the highest `s` of a signature.
pub open spec fn half_order() -> nat {
    0x7fff_ffff_ffff_ffff_ffff_ffff_ffff_ffff_5d57_6e73_57a4_501d_dfe9_2f46_681b_20a0nat
}

/// A number of at most 32 bytes as 32 bytes, zero bytes before it.
pub open spec fn padded(bytes: Seq<u8>) -> Seq<u8> {
    Seq::new((32 - bytes.len()) as nat, |i: int| 0u8) + bytes
}

/// The fields that are signed: the first six fields of the transaction, and
/// for a transaction that was signed for a chain the id of the chain and
/// two empty fields.
pub open spec fn signed_items(fields: Seq<Seq<u8>>) -> Seq<Seq<u8>> {
    match chain_of(be_value(fields[6])) {
        Some(id) => fields.take(6) + seq![minimal(id as nat), Seq::empty(), Seq::empty()],
        None => fields.take(6),
    }
}

/// The signature of a transaction: the 32 bytes of `r`, then those of `s`.
pub open spec fn signature_of(fields: Seq<Seq<u8>>) -> Seq<u8> {
    padded(fields[7]) + padded(fields[8])
}

/// Whether the signature of a transaction can be one: `v` points to a key,
/// and `s` is not above half of the order of the curve.
pub open spec fn signable(fields: Seq<Seq<u8>>) -> bool {
    recovery_of(be_value(fields[6])) is Some && be_value(fields[8]) <= half_order()
}

/// The sender of a transaction: the address of the key that signed the hash
/// of the encoded list of the signed fields; none where the signature
/// cannot be one, or gives no key.
pub open spec fn sender_of(fields: Seq<Seq<u8>>) -> Option<Seq<u8>> {
    if signable(fields) {
        recovered(
            keccak256(list_of(signed_items(fields))),
            signature_of(fields),
            recovery_of(be_value(fields[6]))->0,
        )
    } else {
        None
    }
}

/// A decoded transaction holds what the fields of the encoded one say.
pub open spec fn holds(fields: Seq<Seq<u8>>, tx: SignedTransaction) -> bool {
    &&& tx.nonce@ == be_value(fields[0])
    &&& tx.gas_price@ == be_value(fields[1])
    &&& tx.gas@ == be_value(fields[2])
    &&& match tx.action {
        Action::Create => fields[3].len() == 0,
        Action::Call(to) => to@ == fields[3],
    }
    &&& tx.value@ == be_value(fields[4])
    &&& tx.data@ == fields[5]
    &&& tx.chain_id == chain_of(be_value(fields[6]))
}

/// A decoded transaction holds what the fields of the encoded one say, the
/// sender that its signature gives, the hash of its bytes, and the bytes.
pub open spec fn describes(raw: Seq<u8>, tx: SignedTransaction) -> bool {
    &&& holds(fields_of(raw), tx)
    &&& Some(tx.sender@) == sender_of(fields_of(raw))
    &&& tx.hash@ == keccak256(raw)
    &&& tx.rlp@ == raw
}

/// What is wrong with the fields of a transaction, if anything: the first
/// fault of a field.
pub fn check_fields(fields: &Vec<Vec<u8>>) -> (fault: Option<String>)
    ensures
        match fault {
            Some(text) => fields_fault(views(fields@), 0) == Some(text@),
            None => fields_fault(views(fields@), 0) is None,
        },
{
    let mut i: usize = 0;
    while i < fields.len()
        invariant
            i <= fields@.len(),
            fields_fault(views(fields@), 0) == fields_fault(views(fields@), i as int),
        decreases fields@.len() - i,
    {
        let field = &fields[i];
        assert(views(fields@)[i as int] == field@);
        if i == 3 {
            if field.len() != 0 && field.len() != 20 {
                return Some(String::from_str("RlpInvalidLength"));
            }
        } else if i != 5 {
            let most: usize = if i == 6 {
                8
            } else {
                32
            };
            if field.len() > most {
                return Some(String::from_str("RlpIsTooBig"));
            }
            if field.len() > 0 && field[0] == 0 {
                return Some(String::from_str("RlpInvalidIndirection"));
            }
        }
        i += 1;
    }
    None
}

/// The nine fields of the transaction that `raw` encodes, or why `raw` is
/// no encoded transaction.
pub fn read_fields(raw: &[u8]) -> (read: Result<Vec<Vec<u8>>, String>)
    ensures
        match read {
            Ok(fields) => rlp_fault(raw@) is None && views(fields@) == fields_of(raw@),
            Err(text) => rlp_fault(raw@) == Some(text@),
        },
{
    let count = match rlp_item_count(raw) {
        None => {
            return Err(String::from_str("RlpExpectedToBeList"));
        },
        Some(count) => count,
    };
    let lengths = rlp_payload(raw);
    match lengths {
        None => {
            return Err(String::from_str("RlpInconsistentLengthAndData"));
        },
        Some(lengths) => {
            if lengths.0 != raw.len() - lengths.1 {
                return Err(String::from_str("RlpInconsistentLengthAndData"));
            }
        },
    }
    if count != 9 {
        return Err(String::from_str("RlpIncorrectListLen"));
    }
    let mut fields: Vec<Vec<u8>> = Vec::new();
    let mut i: usize = 0;
    while i < 9
        invariant
            i <= 9,
            fields@.len() == i,
            item_count(raw@) == Some(9nat),
            whole(raw@),
            forall|j: int| 0 <= j < i ==> bytes_at(raw@, j as nat) == Some(#[trigger] fields@[j]@),
        decreases 9 - i,
    {
        match rlp_bytes_at(raw, i) {
            None => {
                proof {
                    let at = i as int;
                    assert(0 <= at < 9 && bytes_at(raw@, at as nat) is None);
                }
                return Err(String::from_str("RlpExpectedToBeData"));
            },
            Some(bytes) => {
                fields.push(bytes);
            },
        }
        i += 1;
    }
    proof {
        assert(views(fields@) =~= fields_of(raw@));
        assert(!exists|i: int| 0 <= i < 9 && #[trigger] bytes_at(raw@, i as nat) is None) by {
            assert forall|i: int| 0 <= i < 9 implies !(#[trigger] bytes_at(raw@, i as nat)
                is None) by {
                assert(bytes_at(raw@, i as nat) == Some(fields@[i]@));
            }
        }
    }
    match check_fields(&fields) {
        Some(text) => Err(text),
        None => Ok(fields),
    }
}

/// A number of at most 32 bytes as 32 bytes, put behind `out`.
fn push_padded(out: &mut Vec<u8>, bytes: &[u8])
    requires
        bytes@.len() <= 32,
    ensures
        final(out)@ == old(out)@ + padded(bytes@),
{
    let mut i: usize = bytes.len();
    let ghost zeros = (32 - bytes@.len()) as nat;
    while i < 32
        invariant
            bytes@.len() <= i <= 32,
            out@ == old(out)@ + Seq::new((i - bytes@.len()) as nat, |j: int| 0u8),
        decreases 32 - i,
    {
        out.push(0u8);
        i += 1;
        assert(out@ =~= old(out)@ + Seq::new((i - bytes@.len()) as nat, |j: int| 0u8));
    }
    crate::record::append(out, bytes);
    assert(out@ =~= old(out)@ + padded(bytes@));
}

/// The encoded list of the fields that are signed.
fn signed_list(fields: &Vec<Vec<u8>>) -> (encoded: Vec<u8>)
    requires
        fields@.len() == 9,
        fields@[6]@.len() <= 8,
    ensures
        encoded@ == list_of(signed_items(views(fields@))),
{
    let v = small_number(fields[6].as_slice());
    assert(views(fields@)[6] == fields@[6]@);
    let with_chain = v >= 35;
    let len: usize = if with_chain {
        9
    } else {
        6
    };
    let mut stream = stream_new_list(len);
    let mut i: usize = 0;
    assert(views(fields@).take(0) =~= Seq::<Seq<u8>>::empty());
    while i < 6
        invariant
            i <= 6,
            fields@.len() == 9,
            expected(stream) == len,
            len >= 6,
            appended(stream) == views(fields@).take(i as int),
        decreases 6 - i,
    {
        stream_append(&mut stream, &fields[i]);
        i += 1;
        assert(appended(stream) =~= views(fields@).take(i as int));
    }
    if with_chain {
        let id = minimal_bytes((v - 35) / 2);
        let empty: Vec<u8> = Vec::new();
        stream_append(&mut stream, &id);
        stream_append(&mut stream, &empty);
        stream_append(&mut stream, &empty);
        assert(appended(stream) =~= signed_items(views(fields@)));
    }
    stream_out(stream)
}

/// What decoding `raw` comes to: why `raw` is no encoded transaction; or
/// that its signature gives no sender; or the transaction that it encodes.
pub open spec fn decodes(raw: Seq<u8>, decoded: Decoded) -> bool {
    match decoded {
        Decoded::InvalidRlp(text) => rlp_fault(raw) == Some(text@),
        Decoded::InvalidSignature(text) => {
            &&& rlp_fault(raw) is None
            &&& sender_of(fields_of(raw)) is None
            &&& text@ == "Invalid EC signature"@
        },
        Decoded::Valid(tx) => rlp_fault(raw) is None && describes(raw, tx),
    }
}

/// Which of the two keys that the signature may come from is to be
/// recovered; none where the signature cannot be one. See [`signable`].
pub fn recovery(fields: &Vec<Vec<u8>>) -> (id: Option<i32>)
    requires
        fields@.len() == 9,
        fields_fault(views(fields@), 0) is None,
    ensures
        id == if signable(views(fields@)) {
            recovery_of(be_value(fields@[6]@))
        } else {
            None
        },
{
    proof {
        lemma_fields_ok(views(fields@), 0);
        assert(field_fault(6, views(fields@)[6]) is None);
        assert(field_fault(8, views(fields@)[8]) is None);
        assert(views(fields@)[6] == fields@[6]@);
        assert(views(fields@)[8] == fields@[8]@);
    }
    let v = small_number(fields[6].as_slice());
    let id: i32 = if v == 27 || v == 28 {
        (v - 27) as i32
    } else if v >= 35 {
        ((v - 35) % 2) as i32
    } else {
        return None;
    };
    let half = U256(
        [0xdfe9_2f46_681b_20a0, 0x5d57_6e73_57a4_501d, 0xffff_ffff_ffff_ffff, 0x7fff_ffff_ffff_ffff],
    );
    assert(half@ == half_order());
    if half.lt(&number(fields[8].as_slice())) {
        return None;
    }
    Some(id)
}

/// The transaction that the fields describe, with its sender, its hash and
/// its bytes.
pub fn assemble(fields: &Vec<Vec<u8>>, sender: Address, hash: H256, rlp: Vec<u8>) -> (tx:
    SignedTransaction)
    requires
        fields@.len() == 9,
        fields_fault(views(fields@), 0) is None,
    ensures
        holds(views(fields@), tx),
        tx.sender == sender,
        tx.hash == hash,
        tx.rlp == rlp,
{
    proof {
        lemma_fields_ok(views(fields@), 0);
        assert(field_fault(0, views(fields@)[0]) is None);
        assert(field_fault(1, views(fields@)[1]) is None);
        assert(field_fault(2, views(fields@)[2]) is None);
        assert(field_fault(3, views(fields@)[3]) is None);
        assert(field_fault(4, views(fields@)[4]) is None);
        assert(field_fault(6, views(fields@)[6]) is None);
        assert(views(fields@)[0] == fields@[0]@);
        assert(views(fields@)[1] == fields@[1]@);
        assert(views(fields@)[2] == fields@[2]@);
        assert(views(fields@)[3] == fields@[3]@);
        assert(views(fields@)[4] == fields@[4]@);
        assert(views(fields@)[5] == fields@[5]@);
        assert(views(fields@)[6] == fields@[6]@);
    }
    let v = small_number(fields[6].as_slice());
    let action = if fields[3].len() == 0 {
        Action::Create
    } else {
        let to = Address::from_slice(fields[3].as_slice());
        assert(fields@[3]@.subrange(0, 20) =~= fields@[3]@);
        Action::Call(to)
    };
    let chain_id = if v >= 35 {
        Some((v - 35) / 2)
    } else {
        None
    };
    SignedTransaction {
        nonce: number(fields[0].as_slice()),
        gas_price: number(fields[1].as_slice()),
        gas: number(fields[2].as_slice()),
        action,
        value: number(fields[4].as_slice()),
        data: crate::types::copy_bytes(fields[5].as_slice()),
        chain_id,
        sender,
        hash,
        rlp,
    }
}

/// Decodes a transaction from its bytes and recovers its sender; says why
/// where the bytes are no encoded transaction, or the signature gives no
/// sender.
pub fn decode(raw: &[u8]) -> (decoded: Decoded)
    ensures
        decodes(raw@, decoded),
{
    let fields = match read_fields(raw) {
        Err(text) => {
            return Decoded::InvalidRlp(text);
        },
        Ok(fields) => fields,
    };
    proof {
        lemma_fields_ok(views(fields@), 0);
        assert(field_fault(6, views(fields@)[6]) is None);
        assert(field_fault(7, views(fields@)[7]) is None);
        assert(field_fault(8, views(fields@)[8]) is None);
        assert(views(fields@)[6] == fields@[6]@);
        assert(views(fields@)[7] == fields@[7]@);
        assert(views(fields@)[8] == fields@[8]@);
    }
    let id = match recovery(&fields) {
        None => {
            return Decoded::InvalidSignature(String::from_str("Invalid EC signature"));
        },
        Some(id) => id,
    };
    let message = keccak(signed_list(&fields).as_slice());
    let mut signature: Vec<u8> = Vec::new();
    push_padded(&mut signature, fields[7].as_slice());
    push_padded(&mut signature, fields[8].as_slice());
    let sender = match recover(&message, signature.as_slice(), id) {
        None => {
            return Decoded::InvalidSignature(String::from_str("Invalid EC signature"));
        },
        Some(sender) => sender,
    };
    Decoded::Valid(assemble(&fields, sender, keccak(raw), crate::types::copy_bytes(raw)))
}

/// Fields without a fault from `from` on have no fault one by one.
pub proof fn lemma_fields_ok(fields: Seq<Seq<u8>>, from: int)
    requires
        0 <= from,
        fields_fault(fields, from) is None,
    ensures
        forall|i: int| from <= i < fields.len() ==> field_fault(i, #[trigger] fields[i]) is None,
    decreases fields.len() - from,
{
    if from < fields.len() {
        lemma_fields_ok(fields, from + 1);
    }
}

} // verus!
