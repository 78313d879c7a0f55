//! One bucket: the transactions scheduled for one block, or for one time.

use super::buckets::{
    first_with, lemma_first_with, lemma_sent_by_bound, lemma_sent_by_split, lemma_take_next,
    sent_by, BucketView,
};
use super::iterator::{IteratorMode, IteratorView, TransactionsIterator};
use super::Error;
use crate::record;
use crate::record::{first, frame, framable, records};
use crate::senders::Senders;
use crate::types::{BlockNumber, Transaction, TransactionView, H256};
use vstd::prelude::*;
use vstd::slice::slice_subrange;

verus! {

/// A set of transactions to execute at a particular block: the bytes of one
/// bucket file.
#[derive(Debug)]
pub struct BlockDatabase {
    number: BlockNumber,
    content: Vec<u8>,
}

impl View for BlockDatabase {
    type V = BucketView;

    closed spec fn view(&self) -> BucketView {
        BucketView { number: self.number, content: self.content@ }
    }
}

impl BlockDatabase {
    /// Opens a bucket from the bytes of its file and counts its senders in
    /// `senders`. Bytes that are not a run of whole records are refused, and
    /// so is a bucket whose records would carry a count past `usize::MAX`;
    /// `senders` is then left as it was.
    pub fn open(number: BlockNumber, content: Vec<u8>, senders: &mut Senders) -> (opened: Result<
        Self,
        Error,
    >)
        requires
            old(senders).wf(),
        ensures
            final(senders).wf(),
            match opened {
                Ok(bucket) => {
                    &&& bucket@ == (BucketView { number, content: content@ })
                    &&& bucket@.wf()
                    &&& countable(*old(senders), bucket@.transactions())
                    &&& forall|sender: Seq<u8>|
                        final(senders).count(sender) == old(senders).count(sender) + sent_by(
                            bucket@.transactions(),
                            sender,
                        )
                    &&& final(senders).total() == old(senders).total()
                        + bucket@.transactions().len()
                },
                Err(error) => {
                    &&& *final(senders) == *old(senders)
                    &&& error == Error::Malformed <==> records(content@) is None
                    &&& error == Error::TooManyRecords <==> records(content@) is Some
                        && !countable(*old(senders), records(content@)->0)
                    &&& error == Error::Malformed || error == Error::TooManyRecords
                },
            },
    {
        let n = match record::count(content.as_slice()) {
            None => {
                return Err(Error::Malformed);
            },
            Some(n) => n,
        };
        let ghost txs = records(content@)->0;
        let mut own = Senders::new();
        proof {
            assert forall|sender: Seq<u8>| #[trigger]
                own.count(sender) + sent_by(txs, sender) <= usize::MAX by {
                lemma_sent_by_bound(txs, sender);
            }
        }
        hold(&mut own, content.as_slice());
        if !senders.fits(&own) {
            return Err(Error::TooManyRecords);
        }
        hold(senders, content.as_slice());
        Ok(BlockDatabase { number, content })
    }

    /// Creates a new, empty bucket.
    pub fn new(number: BlockNumber) -> (bucket: Self)
        ensures
            bucket@ == (BucketView { number, content: Seq::empty() }),
            bucket@.wf(),
            bucket@.transactions() == Seq::<TransactionView>::empty(),
    {
        BlockDatabase { number, content: Vec::new() }
    }

    /// The number of the block (or the time) that the bucket is for.
    pub fn number(&self) -> (number: BlockNumber)
        ensures
            number == self@.number,
    {
        self.number
    }

    /// The bytes of the bucket's file.
    pub fn content(&self) -> (content: &[u8])
        ensures
            content@ == self@.content,
    {
        self.content.as_slice()
    }

    /// Inserts a new transaction to the bucket: its record is put behind the
    /// others. Returns the record, which is what the bucket's file grows by.
    /// A transaction too large for a record is refused.
    pub fn insert(&mut self, transaction: &Transaction) -> (written: Result<Vec<u8>, Error>)
        ensures
            match written {
                Ok(bytes) => {
                    &&& framable(transaction@)
                    &&& bytes@ == frame(transaction@)
                    &&& final(self)@ == (BucketView {
                        number: old(self)@.number,
                        content: old(self)@.content + frame(transaction@),
                    })
                    &&& old(self)@.wf() ==> final(self)@.wf() && final(self)@.transactions()
                        == old(self)@.transactions().push(transaction@)
                },
                Err(error) => {
                    &&& error == Error::RecordTooLarge
                    &&& !framable(transaction@)
                    &&& final(self)@ == old(self)@
                },
            },
    {
        match record::encode(transaction) {
            None => Err(Error::RecordTooLarge),
            Some(bytes) => {
                record::append(&mut self.content, bytes.as_slice());
                proof {
                    if old(self)@.wf() {
                        record::lemma_records_frame(transaction@);
                        record::lemma_records_concat(old(self)@.content, frame(transaction@));
                        assert(old(self)@.transactions() + seq![transaction@]
                            =~= old(self)@.transactions().push(transaction@));
                    }
                }
                Ok(bytes)
            },
        }
    }

    /// Gives the bucket other bytes.
    pub(crate) fn rewrite(&mut self, content: Vec<u8>)
        ensures
            final(self)@ == (BucketView { number: old(self)@.number, content: content@ }),
    {
        self.content = content;
    }

    /// Puts `bytes` behind what the bucket holds.
    pub(crate) fn put(&mut self, bytes: &[u8])
        ensures
            final(self)@ == (BucketView {
                number: old(self)@.number,
                content: old(self)@.content + bytes@,
            }),
    {
        record::append(&mut self.content, bytes);
    }

    /// Hands the bucket's bytes out for reading its transactions; the
    /// bucket's file is to be retired when they have all been read.
    pub fn drain(self) -> (it: TransactionsIterator)
        ensures
            it@ == (IteratorView {
                content: self@.content,
                position: 0,
                drained: seq![self@.number],
                read_only: false,
            }),
    {
        let mut numbers: Vec<BlockNumber> = Vec::new();
        numbers.push(self.number);
        TransactionsIterator::from_file(self.content, IteratorMode::Drain(numbers))
    }
}

/// Every sender can be counted with its transactions among `txs` on top of
/// what `senders` counts for it, within `usize`.
pub open spec fn countable(senders: Senders, txs: Seq<TransactionView>) -> bool {
    forall|sender: Seq<u8>| #[trigger]
        senders.count(sender) + sent_by(txs, sender) <= usize::MAX
}

/// Counts every sender of the records in `bytes` once more for each of its
/// records.
pub(crate) fn hold(senders: &mut Senders, bytes: &[u8])
    requires
        old(senders).wf(),
        records(bytes@) is Some,
        forall|sender: Seq<u8>| #[trigger]
            old(senders).count(sender) + sent_by(records(bytes@)->0, sender) <= usize::MAX,
    ensures
        final(senders).wf(),
        forall|sender: Seq<u8>| #[trigger]
            final(senders).count(sender) == old(senders).count(sender) + sent_by(
                records(bytes@)->0,
                sender,
            ),
        final(senders).total() == old(senders).total() + records(bytes@)->0.len(),
{
    let ghost txs = records(bytes@)->0;
    let ghost before = *senders;
    let mut at: usize = 0;
    let ghost mut seen: int = 0;
    proof {
        assert(bytes@.skip(0) =~= bytes@);
        assert(txs.skip(0) =~= txs);
        assert(txs.take(0) =~= Seq::<TransactionView>::empty());
    }
    while at < bytes.len()
        invariant
            senders.wf(),
            at <= bytes@.len(),
            0 <= seen <= txs.len(),
            records(bytes@) == Some(txs),
            records(bytes@.skip(at as int)) == Some(txs.skip(seen)),
            forall|sender: Seq<u8>| #[trigger]
                before.count(sender) + sent_by(txs, sender) <= usize::MAX,
            forall|sender: Seq<u8>| #[trigger]
                senders.count(sender) == before.count(sender) + sent_by(txs.take(seen), sender),
            senders.total() == before.total() + seen,
        decreases bytes@.len() - at,
    {
        let ghost here = bytes@.skip(at as int);
        proof {
            assert(bytes@.subrange(at as int, bytes@.len() as int) =~= here);
            record::lemma_records_step(here);
        }
        match record::decode(slice_subrange(bytes, at, bytes.len())) {
            None => {
                assert(false);
            },
            Some((tx, used)) => {
                proof {
                    assert(here.skip(used as int) =~= bytes@.skip(at + used));
                    assert(txs.skip(seen).skip(1) =~= txs.skip(seen + 1));
                    assert(txs[seen] == tx@);
                    lemma_take_next(txs, seen);
                    lemma_sent_by_split(txs, seen, tx@.sender);
                    assert(before.count(tx@.sender) + sent_by(txs, tx@.sender) <= usize::MAX);
                    assert(senders.count(tx@.sender) == before.count(tx@.sender) + sent_by(
                        txs.take(seen),
                        tx@.sender,
                    ));
                }
                let ghost held = *senders;
                senders.increment(tx.sender());
                proof {
                    assert forall|sender: Seq<u8>| #[trigger]
                        senders.count(sender) == before.count(sender) + sent_by(
                            txs.take(seen + 1),
                            sender,
                        ) by {
                        assert(held.count(sender) == before.count(sender) + sent_by(
                            txs.take(seen),
                            sender,
                        ));
                    }
                    seen = seen + 1;
                }
                at = at + used;
            },
        }
    }
    proof {
        assert(bytes@.skip(at as int) =~= Seq::<u8>::empty());
        assert(txs.skip(seen).len() == 0);
        assert(txs.take(seen) =~= txs);
    }
}

/// Looks for the first record in `bytes` whose transaction has the hash
/// `hash`: where the record starts, where it ends, and the transaction.
pub(crate) fn locate(bytes: &[u8], hash: &H256) -> (found: Option<(usize, usize, Transaction)>)
    requires
        records(bytes@) is Some,
    ensures
        match found {
            Some((start, end, tx)) => {
                let at = first_with(records(bytes@)->0, hash@);
                &&& 0 <= at < records(bytes@)->0.len()
                &&& tx@ == records(bytes@)->0[at]
                &&& tx@.hash == hash@
                &&& start <= end <= bytes@.len()
                &&& records(bytes@.take(start as int)) == Some(records(bytes@)->0.take(at))
                &&& records(bytes@.skip(end as int)) == Some(records(bytes@)->0.skip(at + 1))
            },
            None => first_with(records(bytes@)->0, hash@) == records(bytes@)->0.len(),
        },
{
    let ghost txs = records(bytes@)->0;
    let mut at: usize = 0;
    let ghost mut seen: int = 0;
    proof {
        assert(bytes@.skip(0) =~= bytes@);
        assert(bytes@.take(0) =~= Seq::<u8>::empty());
        assert(txs.skip(0) =~= txs);
        assert(txs.take(0) =~= Seq::<TransactionView>::empty());
    }
    while at < bytes.len()
        invariant
            at <= bytes@.len(),
            0 <= seen <= txs.len(),
            records(bytes@) == Some(txs),
            records(bytes@.skip(at as int)) == Some(txs.skip(seen)),
            records(bytes@.take(at as int)) == Some(txs.take(seen)),
            forall|j: int| 0 <= j < seen ==> (#[trigger] txs[j]).hash != hash@,
        decreases bytes@.len() - at,
    {
        let ghost here = bytes@.skip(at as int);
        proof {
            assert(bytes@.subrange(at as int, bytes@.len() as int) =~= here);
            record::lemma_records_step(here);
        }
        match record::decode(slice_subrange(bytes, at, bytes.len())) {
            None => {
                assert(false);
            },
            Some((tx, used)) => {
                proof {
                    assert(here.skip(used as int) =~= bytes@.skip(at + used));
                    assert(txs.skip(seen).skip(1) =~= txs.skip(seen + 1));
                    assert(txs[seen] == tx@);
                }
                if tx.hash().is(hash) {
                    proof {
                        lemma_first_with(txs, hash@, seen);
                    }
                    return Some((at, at + used, tx));
                }
                proof {
                    record::lemma_first_frame(here);
                    record::lemma_records_frame(tx@);
                    record::lemma_records_concat(bytes@.take(at as int), frame(tx@));
                    assert(bytes@.take(at + used) =~= bytes@.take(at as int) + here.take(
                        used as int,
                    ));
                    assert(txs.take(seen + 1) =~= txs.take(seen) + seq![tx@]);
                    seen = seen + 1;
                }
                at = at + used;
            },
        }
    }
    proof {
        assert(bytes@.skip(at as int) =~= Seq::<u8>::empty());
        assert(txs.skip(seen).len() == 0);
        lemma_first_with(txs, hash@, seen);
    }
    None
}

} // verus!
