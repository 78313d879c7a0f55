//! The values that travel through the relay: addresses, hashes, conditions,
//! transactions and the handles given out for them.

use crate::endian;
use crate::endian::{lemma_u64_value, lemma_u64_value_front, u64_bytes, u64_value};
use crate::uint::U256;
use vstd::prelude::*;
use vstd::slice::slice_subrange;

verus! {

/// Height of a block of the chain.
pub type BlockNumber = u64;

/// Account identifier: 20 bytes.
#[derive(Debug, Clone, Copy, PartialEq, Eq, Hash)]
pub struct Address(pub [u8; 20]);

/// Content hash: 32 bytes.
#[derive(Debug, Clone, Copy, PartialEq, Eq, Hash)]
pub struct H256(pub [u8; 32]);

impl View for Address {
    type V = Seq<u8>;

    open spec fn view(&self) -> Seq<u8> {
        self.0@
    }
}

impl View for H256 {
    type V = Seq<u8>;

    open spec fn view(&self) -> Seq<u8> {
        self.0@
    }
}

impl Address {
    /// Number of bytes of an address.
    pub const LEN: usize = 20;

    /// The address whose bytes are the first 20 bytes of `bytes`.
    pub fn from_slice(bytes: &[u8]) -> (address: Address)
        requires
            bytes@.len() >= 20,
        ensures
            address@ == bytes@.subrange(0, 20),
    {
        let mut out = [0u8; 20];
        let mut i: usize = 0;
        while i < 20
            invariant
                i <= 20,
                bytes@.len() >= 20,
                forall|j: int| 0 <= j < i ==> out@[j] == bytes@[j],
            decreases 20 - i,
        {
            out[i] = bytes[i];
            i += 1;
        }
        assert(out@ =~= bytes@.subrange(0, 20));
        Address(out)
    }

    /// Whether two addresses hold the same bytes.
    pub fn is(&self, other: &Address) -> (same: bool)
        ensures
            same == (self@ == other@),
    {
        let mut i: usize = 0;
        while i < 20
            invariant
                i <= 20,
                forall|j: int| 0 <= j < i ==> self.0@[j] == other.0@[j],
            decreases 20 - i,
        {
            if self.0[i] != other.0[i] {
                return false;
            }
            i += 1;
        }
        assert(self.0@ =~= other.0@);
        true
    }
}

impl H256 {
    /// Number of bytes of a hash.
    pub const LEN: usize = 32;

    /// The hash whose bytes are the first 32 bytes of `bytes`.
    pub fn from_slice(bytes: &[u8]) -> (hash: H256)
        requires
            bytes@.len() >= 32,
        ensures
            hash@ == bytes@.subrange(0, 32),
    {
        let mut out = [0u8; 32];
        let mut i: usize = 0;
        while i < 32
            invariant
                i <= 32,
                bytes@.len() >= 32,
                forall|j: int| 0 <= j < i ==> out@[j] == bytes@[j],
            decreases 32 - i,
        {
            out[i] = bytes[i];
            i += 1;
        }
        assert(out@ =~= bytes@.subrange(0, 32));
        H256(out)
    }

    /// Whether two hashes hold the same bytes.
    pub fn is(&self, other: &H256) -> (same: bool)
        ensures
            same == (self@ == other@),
    {
        let mut i: usize = 0;
        while i < 32
            invariant
                i <= 32,
                forall|j: int| 0 <= j < i ==> self.0@[j] == other.0@[j],
            decreases 32 - i,
        {
            if self.0[i] != other.0[i] {
                return false;
            }
            i += 1;
        }
        assert(self.0@ =~= other.0@);
        true
    }
}

/// A copy of `bytes`.
pub fn copy_bytes(bytes: &[u8]) -> (out: Vec<u8>)
    ensures
        out@ == bytes@,
{
    let mut out: Vec<u8> = Vec::with_capacity(bytes.len());
    let mut i: usize = 0;
    while i < bytes.len()
        invariant
            i <= bytes@.len(),
            out@ == bytes@.subrange(0, i as int),
        decreases bytes@.len() - i,
    {
        out.push(bytes[i]);
        i += 1;
        assert(out@ =~= bytes@.subrange(0, i as int));
    }
    assert(bytes@.subrange(0, bytes@.len() as int) =~= bytes@);
    out
}

/// When a scheduled transaction is due.
#[derive(Debug, Clone)]
pub enum Condition {
    /// At the block of this number.
    Number(BlockNumber),
    /// At this time, in seconds since the epoch.
    Timestamp(u64),
}

impl Condition {
    /// Whether the condition is a time; a block number otherwise.
    pub fn is_timestamp(&self) -> (timed: bool)
        ensures
            timed == (self is Timestamp),
    {
        match self {
            Condition::Number(_) => false,
            Condition::Timestamp(_) => true,
        }
    }

    /// The block number or the time that the condition names: the key under
    /// which the transaction is stored.
    pub fn num(&self) -> (num: u64)
        ensures
            num == match *self {
                Condition::Number(n) => n,
                Condition::Timestamp(t) => t,
            },
    {
        match self {
            Condition::Number(n) => *n,
            Condition::Timestamp(t) => *t,
        }
    }
}

/// A signed transaction as the relay keeps it: who sent it, its hash, and the
/// exact bytes to broadcast.
#[derive(Debug, Clone, PartialEq)]
pub struct Transaction {
    sender: Address,
    hash: H256,
    rlp: Vec<u8>,
}

/// What a [`Transaction`] holds, as sequences of bytes.
pub struct TransactionView {
    pub sender: Seq<u8>,
    pub hash: Seq<u8>,
    pub rlp: Seq<u8>,
}

impl View for Transaction {
    type V = TransactionView;

    closed spec fn view(&self) -> TransactionView {
        TransactionView { sender: self.sender@, hash: self.hash@, rlp: self.rlp@ }
    }
}

impl Transaction {
    /// The transaction of this sender, with this hash and these bytes.
    pub fn new(sender: Address, hash: H256, rlp: Vec<u8>) -> (transaction: Self)
        ensures
            transaction@ == (TransactionView { sender: sender@, hash: hash@, rlp: rlp@ }),
    {
        Transaction { sender, hash, rlp }
    }

    /// Who sent the transaction.
    pub fn sender(&self) -> (sender: &Address)
        ensures
            sender@ == self@.sender,
    {
        &self.sender
    }

    /// The hash of the transaction.
    pub fn hash(&self) -> (hash: &H256)
        ensures
            hash@ == self@.hash,
    {
        &self.hash
    }

    /// The encoded transaction: the bytes to broadcast.
    pub fn rlp(&self) -> (rlp: &[u8])
        ensures
            rlp@ == self@.rlp,
    {
        self.rlp.as_slice()
    }

    /// What is kept of a decoded transaction: sender, hash and bytes.
    pub closed spec fn of(transaction: SignedTransaction) -> Transaction {
        Transaction { sender: transaction.sender, hash: transaction.hash, rlp: transaction.rlp }
    }

    /// What is kept of a decoded transaction holds its sender, hash and bytes.
    pub proof fn lemma_of(transaction: SignedTransaction)
        ensures
            Transaction::of(transaction)@ == (TransactionView {
                sender: transaction.sender@,
                hash: transaction.hash@,
                rlp: transaction.rlp@,
            }),
    {
    }

    /// A second transaction with the same sender, hash and bytes.
    pub fn duplicate(&self) -> (copy: Transaction)
        ensures
            copy@ == self@,
    {
        Transaction { sender: self.sender, hash: self.hash, rlp: copy_bytes(self.rlp.as_slice()) }
    }

    /// The sender and the hash are 20 and 32 bytes long.
    pub proof fn lemma_lengths(&self)
        ensures
            self@.sender.len() == 20,
            self@.hash.len() == 32,
    {
    }
}

/// What a transaction does: it makes a contract, or it calls an address.
#[derive(Debug, Clone, Copy, PartialEq, Eq)]
pub enum Action {
    /// Make a contract.
    Create,
    /// Call the contract, or pay the account, at this address.
    Call(Address),
}

/// A transaction that was decoded, with the sender that its signature gives.
#[derive(Debug, Clone, PartialEq)]
pub struct SignedTransaction {
    /// Nonce.
    pub nonce: U256,
    /// Gas price.
    pub gas_price: U256,
    /// Gas paid up front for transaction execution.
    pub gas: U256,
    /// Action, can be either call or contract create.
    pub action: Action,
    /// Transfered value.
    pub value: U256,
    /// Transaction data.
    pub data: Vec<u8>,
    /// The id of the chain that the transaction was signed for, if it was
    /// signed for one.
    pub chain_id: Option<u64>,
    /// The sender, as recovered from the signature.
    pub sender: Address,
    /// The hash of the transaction.
    pub hash: H256,
    /// The encoded transaction: the bytes to broadcast.
    pub rlp: Vec<u8>,
}

impl From<SignedTransaction> for Transaction {
    fn from(transaction: SignedTransaction) -> (stored: Self)
    {
        Transaction { sender: transaction.sender, hash: transaction.hash, rlp: transaction.rlp }
    }
}

impl vstd::std_specs::convert::FromSpecImpl<SignedTransaction> for Transaction {
    open spec fn obeys_from_spec() -> bool {
        true
    }

    open spec fn from_spec(transaction: SignedTransaction) -> Transaction {
        Transaction::of(transaction)
    }
}

/// Handle given out for a scheduled transaction.
pub struct TransactionId {
    pub is_timestamp: bool,
    pub num: u64,
    pub hash: H256,
}

/// What a [`TransactionId`] holds, the hash as a sequence of bytes.
pub struct TransactionIdView {
    pub is_timestamp: bool,
    pub num: u64,
    pub hash: Seq<u8>,
}

impl View for TransactionId {
    type V = TransactionIdView;

    open spec fn view(&self) -> TransactionIdView {
        TransactionIdView { is_timestamp: self.is_timestamp, num: self.num, hash: self.hash@ }
    }
}

impl TransactionIdView {
    /// The 41 bytes of a handle: the kind (0 for a block number, 1 for a time),
    /// the number in little-endian order, the hash.
    pub open spec fn to_bytes(self) -> Seq<u8> {
        seq![if self.is_timestamp { 1u8 } else { 0u8 }] + u64_bytes(self.num)
            + self.hash
    }

    /// The handle that 41 bytes stand for; none for any other length. A kind
    /// other than 0 is a time.
    pub open spec fn from_bytes(bytes: Seq<u8>) -> Option<TransactionIdView> {
        if bytes.len() != 41 {
            None
        } else {
            Some(
                TransactionIdView {
                    is_timestamp: bytes[0] > 0,
                    num: u64_value(bytes.subrange(1, 9)),
                    hash: bytes.subrange(9, 41),
                },
            )
        }
    }
}

impl TransactionId {
    /// Number of bytes of a handle.
    pub const LEN: usize = 41;

    /// Reads a handle from its 41 bytes; none for any other number of bytes.
    pub fn from_bytes(bytes: &[u8]) -> (id: Option<Self>)
        ensures
            match id {
                Some(id) => TransactionIdView::from_bytes(bytes@) == Some(id@),
                None => TransactionIdView::from_bytes(bytes@) is None,
            },
    {
        if bytes.len() != 41 {
            return None;
        }
        let num = endian::read_u64(slice_subrange(bytes, 1, 41));
        let hash = H256::from_slice(slice_subrange(bytes, 9, 41));
        proof {
            assert(bytes@.subrange(1, 41).take(8) =~= bytes@.subrange(1, 9).take(8));
            lemma_u64_value_front(bytes@.subrange(1, 41), bytes@.subrange(1, 9));
        }
        assert(bytes@.subrange(9, 41).subrange(0, 32) =~= bytes@.subrange(9, 41));
        Some(TransactionId { is_timestamp: bytes[0] > 0, num, hash })
    }

    /// The 41 bytes of the handle.
    pub fn to_bytes(&self) -> (bytes: Vec<u8>)
        ensures
            bytes@ == self@.to_bytes(),
    {
        let mut bytes: Vec<u8> = Vec::with_capacity(41);
        bytes.push(if self.is_timestamp { 1u8 } else { 0u8 });
        let mut i: usize = 0;
        while i < 8
            invariant
                i <= 8,
                bytes@.len() == 1 + i,
                bytes@[0] == (if self.is_timestamp { 1u8 } else { 0u8 }),
            decreases 8 - i,
        {
            bytes.push(0u8);
            i += 1;
        }
        endian::write_u64(&mut bytes, 1, self.num);
        proof {
            lemma_u64_value(self.num);
        }
        let ghost head = bytes@;
        let mut j: usize = 0;
        while j < 32
            invariant
                j <= 32,
                head.len() == 9,
                bytes@ == head + self.hash@.subrange(0, j as int),
            decreases 32 - j,
        {
            bytes.push(self.hash.0[j]);
            j += 1;
            assert(bytes@ =~= head + self.hash@.subrange(0, j as int));
        }
        assert(self.hash@.subrange(0, 32) =~= self.hash@);
        assert(head =~= seq![if self.is_timestamp { 1u8 } else { 0u8 }] + u64_bytes(self.num));
        bytes
    }

    /// A handle written out and read back is the same handle.
    pub proof fn lemma_round_trip(id: TransactionIdView)
        requires
            id.hash.len() == 32,
        ensures
            TransactionIdView::from_bytes(id.to_bytes()) == Some(id),
    {
        lemma_u64_value(id.num);
        let bytes = id.to_bytes();
        assert(bytes.subrange(1, 9) =~= u64_bytes(id.num));
        assert(bytes.subrange(9, 41) =~= id.hash);
    }
}

} // verus!
