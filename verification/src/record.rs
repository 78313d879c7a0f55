//! Framing of stored transactions. A record is the length of the transaction's
//! bytes as a little-endian `u32`, the 20 bytes of the sender, the 32 bytes of
//! the hash, and the transaction's bytes. A bucket is a run of such records.

use crate::endian;
use crate::endian::{lemma_u32_bytes, lemma_u32_value, lemma_u32_value_front, u32_bytes, u32_value};
use crate::types::{copy_bytes, Address, Transaction, TransactionView, H256};
use vstd::prelude::*;
use vstd::slice::slice_subrange;

verus! {

/// Bytes of a record before the transaction's own bytes.
pub const PREFIX: usize = 56;

/// A transaction that fits a record: a sender of 20 bytes, a hash of 32, and
/// bytes whose number a `u32` can hold.
pub open spec fn framable(tx: TransactionView) -> bool {
    &&& tx.sender.len() == 20
    &&& tx.hash.len() == 32
    &&& tx.rlp.len() <= u32::MAX
}

/// The record of a transaction.
pub open spec fn frame(tx: TransactionView) -> Seq<u8> {
    u32_bytes(tx.rlp.len() as u32) + tx.sender + tx.hash + tx.rlp
}

/// A record that was read: the transaction it holds and the number of bytes
/// that it takes.
pub struct Record {
    pub tx: TransactionView,
    pub used: int,
}

/// The record at the front of `bytes`, or none where `bytes` ends before the
/// record does.
pub open spec fn first(bytes: Seq<u8>) -> Option<Record> {
    if bytes.len() < 56 {
        None
    } else {
        let n = u32_value(bytes) as int;
        if bytes.len() < 56 + n {
            None
        } else {
            Some(
                Record {
                    tx: TransactionView {
                        sender: bytes.subrange(4, 24),
                        hash: bytes.subrange(24, 56),
                        rlp: bytes.subrange(56, 56 + n),
                    },
                    used: 56 + n,
                },
            )
        }
    }
}

/// The records that `bytes` is made of, in order, or none where `bytes` is
/// not a run of whole records.
pub open spec fn records(bytes: Seq<u8>) -> Option<Seq<TransactionView>>
    decreases bytes.len(),
{
    if bytes.len() == 0 {
        Some(Seq::empty())
    } else {
        match first(bytes) {
            None => None,
            Some(read) => match records(bytes.skip(read.used)) {
                None => None,
                Some(rest) => Some(seq![read.tx] + rest),
            },
        }
    }
}

/// The records of several transactions, one after the other.
pub open spec fn frame_all(txs: Seq<TransactionView>) -> Seq<u8>
    decreases txs.len(),
{
    if txs.len() == 0 {
        Seq::empty()
    } else {
        frame(txs[0]) + frame_all(txs.skip(1))
    }
}

/// Reading a freshly written record gives back the sender, the hash and the
/// bytes of the transaction, whatever follows the record.
pub proof fn lemma_frame_first(tx: TransactionView, rest: Seq<u8>)
    requires
        framable(tx),
    ensures
        frame(tx).len() == 56 + tx.rlp.len(),
        first(frame(tx) + rest) == Some(Record { tx, used: 56 + tx.rlp.len() as int }),
{
    let n = tx.rlp.len() as u32;
    lemma_u32_value(n);
    let bytes = frame(tx) + rest;
    assert(bytes.take(4) =~= u32_bytes(n).take(4));
    lemma_u32_value_front(bytes, u32_bytes(n));
    assert(bytes.subrange(4, 24) =~= tx.sender);
    assert(bytes.subrange(24, 56) =~= tx.hash);
    assert(bytes.subrange(56, 56 + n) =~= tx.rlp);
}

/// A record that was read takes at least the 56 bytes of its prefix, holds a
/// transaction that fits a record, and is the record of that transaction.
pub proof fn lemma_first_frame(bytes: Seq<u8>)
    requires
        first(bytes) is Some,
    ensures
        framable(first(bytes)->0.tx),
        first(bytes)->0.used == 56 + first(bytes)->0.tx.rlp.len(),
        first(bytes)->0.used <= bytes.len(),
        frame(first(bytes)->0.tx) == bytes.take(first(bytes)->0.used),
{
    let read = first(bytes)->0;
    let head = bytes.subrange(0, 4);
    lemma_u32_bytes(head);
    assert(head.take(4) =~= bytes.take(4));
    lemma_u32_value_front(head, bytes);
    assert(frame(read.tx) =~= bytes.take(read.used));
}

/// What stands behind a whole record does not change what is read at the front.
pub proof fn lemma_first_prefix(head: Seq<u8>, tail: Seq<u8>)
    requires
        first(head) is Some,
    ensures
        first(head + tail) == first(head),
{
    let n = u32_value(head) as int;
    assert((head + tail).take(4) =~= head.take(4));
    lemma_u32_value_front(head + tail, head);
    assert((head + tail).subrange(4, 24) =~= head.subrange(4, 24));
    assert((head + tail).subrange(24, 56) =~= head.subrange(24, 56));
    assert((head + tail).subrange(56, 56 + n) =~= head.subrange(56, 56 + n));
}

/// Two runs of records, one after the other, are a run of records: those of
/// the first, then those of the second.
pub proof fn lemma_records_concat(head: Seq<u8>, tail: Seq<u8>)
    requires
        records(head) is Some,
        records(tail) is Some,
    ensures
        records(head + tail) == Some(records(head)->0 + records(tail)->0),
    decreases head.len(),
{
    if head.len() == 0 {
        assert(head + tail =~= tail);
        assert(records(head)->0 + records(tail)->0 =~= records(tail)->0);
    } else {
        let tx = first(head)->0.tx;
        let used = first(head)->0.used;
        lemma_first_frame(head);
        lemma_first_prefix(head, tail);
        lemma_records_concat(head.skip(used), tail);
        assert((head + tail).skip(used) =~= head.skip(used) + tail);
        let rest = records(head.skip(used))->0;
        assert(seq![tx] + (rest + records(tail)->0) =~= (seq![tx] + rest) + records(tail)->0);
    }
}

/// A run of records that is not empty starts with a whole record, the first
/// of its transactions; what follows that record holds the others.
pub proof fn lemma_records_step(bytes: Seq<u8>)
    requires
        records(bytes) is Some,
        bytes.len() > 0,
    ensures
        first(bytes) is Some,
        56 <= first(bytes)->0.used <= bytes.len(),
        records(bytes)->0.len() > 0,
        records(bytes)->0[0] == first(bytes)->0.tx,
        records(bytes.skip(first(bytes)->0.used)) == Some(records(bytes)->0.skip(1)),
{
    lemma_first_frame(bytes);
    let rest = records(bytes.skip(first(bytes)->0.used))->0;
    assert((seq![first(bytes)->0.tx] + rest).skip(1) =~= rest);
}

/// The record of one transaction is a run of exactly that record.
pub proof fn lemma_records_frame(tx: TransactionView)
    requires
        framable(tx),
    ensures
        records(frame(tx)) == Some(seq![tx]),
{
    lemma_frame_first(tx, Seq::empty());
    assert(frame(tx) + Seq::<u8>::empty() =~= frame(tx));
    let used = 56 + tx.rlp.len() as int;
    assert(frame(tx).skip(used) =~= Seq::<u8>::empty());
    assert(records(frame(tx).skip(used)) == Some(Seq::<TransactionView>::empty()));
    assert(seq![tx] + Seq::<TransactionView>::empty() =~= seq![tx]);
}

/// Every transaction of a run of records fits a record.
pub proof fn lemma_records_framable(bytes: Seq<u8>, at: int)
    requires
        records(bytes) is Some,
        0 <= at < records(bytes)->0.len(),
    ensures
        framable(records(bytes)->0[at]),
    decreases at,
{
    lemma_records_step(bytes);
    lemma_first_frame(bytes);
    if at > 0 {
        let rest = bytes.skip(first(bytes)->0.used);
        lemma_records_framable(rest, at - 1);
        assert(records(bytes)->0.skip(1)[at - 1] == records(bytes)->0[at]);
    }
}

/// A run of records is made of the records of its transactions.
pub proof fn lemma_records_frame_all(bytes: Seq<u8>)
    requires
        records(bytes) is Some,
    ensures
        frame_all(records(bytes)->0) == bytes,
    decreases bytes.len(),
{
    if bytes.len() == 0 {
        assert(frame_all(records(bytes)->0) =~= bytes);
    } else {
        lemma_records_step(bytes);
        lemma_first_frame(bytes);
        let used = first(bytes)->0.used;
        let all = records(bytes)->0;
        lemma_records_frame_all(bytes.skip(used));
        assert(frame_all(all) == frame(all[0]) + frame_all(all.skip(1)));
        assert(bytes.take(used) + bytes.skip(used) =~= bytes);
    }
}

/// The record of `tx`, or none where its bytes are more than a `u32` counts.
pub fn encode(tx: &Transaction) -> (out: Option<Vec<u8>>)
    ensures
        match out {
            Some(bytes) => framable(tx@) && bytes@ == frame(tx@),
            None => !framable(tx@),
        },
{
    proof {
        tx.lemma_lengths();
    }
    let rlp = tx.rlp();
    if rlp.len() > u32::MAX as usize {
        return None;
    }
    let mut out: Vec<u8> = Vec::new();
    out.push(0u8);
    out.push(0u8);
    out.push(0u8);
    out.push(0u8);
    endian::write_u32(&mut out, 0, rlp.len() as u32);
    assert(out@ =~= u32_bytes(rlp@.len() as u32));
    append(&mut out, tx.sender().0.as_slice());
    append(&mut out, tx.hash().0.as_slice());
    append(&mut out, rlp);
    Some(out)
}

/// The record at the front of `bytes` as a transaction, and the number of
/// bytes it takes; none where `bytes` ends before the record does.
pub fn decode(bytes: &[u8]) -> (out: Option<(Transaction, usize)>)
    ensures
        match out {
            Some((tx, used)) => first(bytes@) == Some(Record { tx: tx@, used: used as int }),
            None => first(bytes@) is None,
        },
{
    if bytes.len() < 56 {
        return None;
    }
    let n = endian::read_u32(bytes);
    if ((bytes.len() - 56) as u64) < n as u64 {
        return None;
    }
    let end: usize = 56 + n as usize;
    let sender = Address::from_slice(slice_subrange(bytes, 4, 24));
    let hash = H256::from_slice(slice_subrange(bytes, 24, 56));
    let rlp = copy_bytes(slice_subrange(bytes, 56, end));
    assert(bytes@.subrange(4, 24).subrange(0, 20) =~= bytes@.subrange(4, 24));
    assert(bytes@.subrange(24, 56).subrange(0, 32) =~= bytes@.subrange(24, 56));
    Some((Transaction::new(sender, hash, rlp), end))
}

/// The number of records in `bytes`, or none where `bytes` is not a run of
/// whole records.
pub fn count(bytes: &[u8]) -> (n: Option<usize>)
    ensures
        match n {
            Some(n) => records(bytes@) is Some && records(bytes@)->0.len() == n,
            None => records(bytes@) is None,
        },
{
    let mut at: usize = 0;
    let mut seen: usize = 0;
    assert(bytes@.skip(0) =~= bytes@);
    while at < bytes.len()
        invariant
            at <= bytes@.len(),
            seen <= at,
            records(bytes@) is Some <==> records(bytes@.skip(at as int)) is Some,
            records(bytes@) is Some ==> records(bytes@)->0.len() == seen + records(
                bytes@.skip(at as int),
            )->0.len(),
        decreases bytes@.len() - at,
    {
        let ghost here = bytes@.skip(at as int);
        match decode(slice_subrange(bytes, at, bytes.len())) {
            None => {
                assert(bytes@.subrange(at as int, bytes@.len() as int) =~= here);
                return None;
            },
            Some((_, used)) => {
                proof {
                    assert(bytes@.subrange(at as int, bytes@.len() as int) =~= here);
                    lemma_first_frame(here);
                    assert(here.skip(used as int) =~= bytes@.skip(at + used));
                }
                at = at + used;
                seen = seen + 1;
            },
        }
    }
    assert(bytes@.skip(at as int) =~= Seq::<u8>::empty());
    Some(seen)
}

/// Puts a copy of `more` behind what `out` holds.
pub fn append(out: &mut Vec<u8>, more: &[u8])
    ensures
        final(out)@ == old(out)@ + more@,
{
    let mut i: usize = 0;
    while i < more.len()
        invariant
            i <= more@.len(),
            out@ == old(out)@ + more@.subrange(0, i as int),
        decreases more@.len() - i,
    {
        out.push(more[i]);
        i += 1;
        assert(out@ =~= old(out)@ + more@.subrange(0, i as int));
    }
    assert(more@.subrange(0, more@.len() as int) =~= more@);
}

} // verus!
