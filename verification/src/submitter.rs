//! Submission of due transactions.
//!
//! With every new block the transactions that have become due leave the two
//! stores, those scheduled for a block first, and every one of them goes to
//! each of the nodes that the relay submits to.

use crate::clock::now_seconds;
use crate::database::buckets::{
    contents, lemma_below_split, lemma_contents_records, lemma_drained, numbers, sent_by,
    transactions,
};
use crate::database::iterator::IteratorView;
use crate::database::{read_off, Database, DatabaseView, TransactionsIterator};
use crate::record::records;
use crate::types::{BlockNumber, Transaction, TransactionView};
use vstd::prelude::*;

verus! {

/// The highest block number whose transactions are submitted when `block`
/// is the latest block: `submit_earlier` blocks ahead, as far as block
/// numbers go.
pub open spec fn spec_threshold(block: BlockNumber, submit_earlier: u64) -> BlockNumber {
    if block + submit_earlier > u64::MAX {
        u64::MAX
    } else {
        (block + submit_earlier) as u64
    }
}

/// The highest block number whose transactions are submitted when `block`
/// is the latest block.
#[verifier::when_used_as_spec(spec_threshold)]
pub fn threshold(block: BlockNumber, submit_earlier: u64) -> (highest: BlockNumber)
    ensures
        highest == spec_threshold(block, submit_earlier),
{
    if block > u64::MAX - submit_earlier {
        u64::MAX
    } else {
        block + submit_earlier
    }
}

/// As many copies of a transaction as there are nodes to submit it to.
pub fn copies(transaction: &Transaction, sinks: usize) -> (batch: Vec<Transaction>)
    ensures
        batch@.len() == sinks,
        forall|i: int| 0 <= i < sinks ==> (#[trigger] batch@[i])@ == transaction@,
{
    let mut batch: Vec<Transaction> = Vec::new();
    let mut i: usize = 0;
    while i < sinks
        invariant
            i <= sinks,
            batch@.len() == i,
            forall|j: int| 0 <= j < i ==> (#[trigger] batch@[j])@ == transaction@,
        decreases sinks - i,
    {
        batch.push(transaction.duplicate());
        i += 1;
    }
    batch
}

/// A [`Submitter`] as a plain value.
pub struct SubmitterView {
    /// The due transactions that were scheduled for a block.
    pub blocks: Option<IteratorView>,
    /// The due transactions that were scheduled for a time.
    pub times: Option<IteratorView>,
    /// The number of nodes that every transaction goes to.
    pub sinks: usize,
}

impl SubmitterView {
    /// The transaction that is submitted next: the next one scheduled for a
    /// block, or, when there is none, the next one scheduled for a time.
    pub open spec fn upcoming(self) -> Option<TransactionView> {
        if self.blocks is Some && self.blocks->0.upcoming() is Some {
            self.blocks->0.upcoming()
        } else if self.times is Some {
            self.times->0.upcoming()
        } else {
            None
        }
    }

    /// Whether the transaction that is submitted next was scheduled for a
    /// block.
    pub open spec fn from_blocks(self) -> bool {
        self.blocks is Some && self.blocks->0.upcoming() is Some
    }

    /// The submitter after the next transaction has been taken.
    pub open spec fn advanced(self) -> SubmitterView {
        SubmitterView {
            blocks: match self.blocks {
                Some(it) => Some(it.advanced()),
                None => None,
            },
            times: if self.blocks is Some && self.blocks->0.upcoming() is Some {
                self.times
            } else {
                match self.times {
                    Some(it) => Some(it.advanced()),
                    None => None,
                }
            },
            sinks: self.sinks,
        }
    }
}

/// Submits next transaction from the iterators to all sinks.
#[derive(Debug)]
pub struct Submitter {
    blocks: Option<TransactionsIterator>,
    times: Option<TransactionsIterator>,
    sinks: usize,
}

impl View for Submitter {
    type V = SubmitterView;

    closed spec fn view(&self) -> SubmitterView {
        SubmitterView {
            blocks: match self.blocks {
                Some(it) => Some(it@),
                None => None,
            },
            times: match self.times {
                Some(it) => Some(it@),
                None => None,
            },
            sinks: self.sinks,
        }
    }
}

impl Submitter {
    /// A submitter of the transactions that two drained iterators read, for
    /// `sinks` nodes.
    pub fn new(
        sinks: usize,
        blocks: Option<TransactionsIterator>,
        times: Option<TransactionsIterator>,
    ) -> (submitter: Self)
        ensures
            submitter@ == (SubmitterView {
                blocks: match blocks {
                    Some(it) => Some(it@),
                    None => None,
                },
                times: match times {
                    Some(it) => Some(it@),
                    None => None,
                },
                sinks,
            }),
    {
        Submitter { blocks, times, sinks }
    }

    /// The next transaction to submit, once for every node; none when all
    /// have been submitted. The transaction is counted off its sender in the
    /// store that it was drained from.
    pub fn poll(&mut self, block_db: &mut Database, timestamp_db: &mut Database) -> (batch: Option<
        Vec<Transaction>,
    >)
        requires
            old(block_db)@.wf(),
            old(timestamp_db)@.wf(),
        ensures
            final(block_db)@.wf(),
            final(timestamp_db)@.wf(),
            final(self)@ == old(self)@.advanced(),
            match batch {
                Some(batch) => {
                    &&& old(self)@.upcoming() is Some
                    &&& batch@.len() == old(self)@.sinks
                    &&& forall|i: int|
                        0 <= i < batch@.len() ==> Some((#[trigger] batch@[i])@) == old(
                            self,
                        )@.upcoming()
                    &&& if old(self)@.from_blocks() {
                        &&& *final(timestamp_db) == *old(timestamp_db)
                        &&& read_off(
                            old(block_db)@,
                            final(block_db)@,
                            old(self)@.upcoming()->0.sender,
                            old(block_db)@.counts_off(
                                old(self)@.upcoming()->0.sender,
                                old(self)@.blocks->0.read_only,
                            ),
                        )
                    } else {
                        &&& *final(block_db) == *old(block_db)
                        &&& read_off(
                            old(timestamp_db)@,
                            final(timestamp_db)@,
                            old(self)@.upcoming()->0.sender,
                            old(timestamp_db)@.counts_off(
                                old(self)@.upcoming()->0.sender,
                                old(self)@.times->0.read_only,
                            ),
                        )
                    }
                },
                None => {
                    &&& old(self)@.upcoming() is None
                    &&& *final(block_db) == *old(block_db)
                    &&& *final(timestamp_db) == *old(timestamp_db)
                },
            },
    {
        let from_blocks = match &mut self.blocks {
            Some(it) => block_db.next(it),
            None => None,
        };
        match from_blocks {
            Some(transaction) => Some(copies(&transaction, self.sinks)),
            None => {
                let from_times = match &mut self.times {
                    Some(it) => timestamp_db.next(it),
                    None => None,
                };
                match from_times {
                    Some(transaction) => Some(copies(&transaction, self.sinks)),
                    None => None,
                }
            },
        }
    }

    /// The numbers of the block buckets whose files are to be retired now;
    /// see [`TransactionsIterator::retired`].
    pub fn retired_blocks(&self) -> (retired: Vec<BlockNumber>)
        ensures
            retired@ == match self@.blocks {
                Some(it) => if it.position == it.content.len() {
                    it.drained
                } else {
                    Seq::empty()
                },
                None => Seq::empty(),
            },
    {
        match &self.blocks {
            Some(it) => it.retired(),
            None => Vec::new(),
        }
    }

    /// The numbers of the time buckets whose files are to be retired now.
    pub fn retired_times(&self) -> (retired: Vec<u64>)
        ensures
            retired@ == match self@.times {
                Some(it) => if it.position == it.content.len() {
                    it.drained
                } else {
                    Seq::empty()
                },
                None => Seq::empty(),
            },
    {
        match &self.times {
            Some(it) => it.retired(),
            None => Vec::new(),
        }
    }
}

/// What [`run_at`] does to two stores and hands out, given the stores before
/// and after: the buckets that are due have left each store, their
/// transactions are unread, and the submitter reads their bytes, bucket
/// after bucket.
pub open spec fn dispatched(
    blocks_before: DatabaseView,
    blocks_after: DatabaseView,
    times_before: DatabaseView,
    times_after: DatabaseView,
    submitter: SubmitterView,
    highest: BlockNumber,
    now: u64,
    sinks: usize,
) -> bool {
    let due_blocks = blocks_before.blocks.take(blocks_before.due(highest));
    let due_times = times_before.blocks.take(times_before.due(now));
    &&& blocks_after.blocks == blocks_before.blocks.skip(blocks_before.due(highest))
    &&& times_after.blocks == times_before.blocks.skip(times_before.due(now))
    &&& blocks_after.senders == blocks_before.senders
    &&& times_after.senders == times_before.senders
    &&& forall|sender: Seq<u8>| #[trigger]
        blocks_after.outstanding.count(sender) == blocks_before.outstanding.count(sender)
            + sent_by(transactions(due_blocks), sender)
    &&& forall|sender: Seq<u8>| #[trigger]
        times_after.outstanding.count(sender) == times_before.outstanding.count(sender) + sent_by(
            transactions(due_times),
            sender,
        )
    &&& submitter.sinks == sinks
    &&& submitter.blocks == if due_blocks.len() == 0 {
        None
    } else {
        Some(
            IteratorView {
                content: contents(due_blocks),
                position: 0,
                drained: numbers(due_blocks),
                read_only: false,
            },
        )
    }
    &&& submitter.times == if due_times.len() == 0 {
        None
    } else {
        Some(
            IteratorView {
                content: contents(due_times),
                position: 0,
                drained: numbers(due_times),
                read_only: false,
            },
        )
    }
    &&& records(contents(due_blocks)) == Some(transactions(due_blocks))
    &&& records(contents(due_times)) == Some(transactions(due_times))
}

/// Takes the transactions that are due out of both stores when `block` has
/// become the latest block and the wall clock shows `now`: from the store of
/// block numbers those up to `submit_earlier` blocks ahead, from the store
/// of times those up to `now`.
pub fn run_at(
    block_db: &mut Database,
    timestamp_db: &mut Database,
    block: BlockNumber,
    submit_earlier: u64,
    now: u64,
    sinks: usize,
) -> (submitter: Submitter)
    requires
        old(block_db)@.wf(),
        old(timestamp_db)@.wf(),
    ensures
        final(block_db)@.wf(),
        final(timestamp_db)@.wf(),
        final(block_db)@.max_txs_per_sender == old(block_db)@.max_txs_per_sender,
        final(timestamp_db)@.max_txs_per_sender == old(timestamp_db)@.max_txs_per_sender,
        dispatched(
            old(block_db)@,
            final(block_db)@,
            old(timestamp_db)@,
            final(timestamp_db)@,
            submitter@,
            spec_threshold(block, submit_earlier),
            now,
            sinks,
        ),
{
    let highest = threshold(block, submit_earlier);
    proof {
        lemma_below_split(old(block_db)@.blocks, highest + 1);
        lemma_below_split(old(timestamp_db)@.blocks, now + 1);
        lemma_drained(old(block_db)@.blocks, old(block_db)@.due(highest));
        lemma_drained(
            old(timestamp_db)@.blocks,
            old(timestamp_db)@.due(now),
        );
        lemma_contents_records(
            old(block_db)@.blocks.take(old(block_db)@.due(highest)),
        );
        lemma_contents_records(
            old(timestamp_db)@.blocks.take(old(timestamp_db)@.due(now)),
        );
    }
    let blocks = block_db.drain(highest);
    let times = timestamp_db.drain(now);
    Submitter::new(sinks, blocks, times)
}

/// What [`run_at`] does when `block` has become the latest block, by the
/// wall clock, whatever it shows.
pub fn run(
    block_db: &mut Database,
    timestamp_db: &mut Database,
    block: BlockNumber,
    submit_earlier: u64,
    sinks: usize,
) -> (submitter: Submitter)
    requires
        old(block_db)@.wf(),
        old(timestamp_db)@.wf(),
    ensures
        final(block_db)@.wf(),
        final(timestamp_db)@.wf(),
        final(block_db)@.max_txs_per_sender == old(block_db)@.max_txs_per_sender,
        final(timestamp_db)@.max_txs_per_sender == old(timestamp_db)@.max_txs_per_sender,
        exists|now: u64| #[trigger]
            dispatched(
                old(block_db)@,
                final(block_db)@,
                old(timestamp_db)@,
                final(timestamp_db)@,
                submitter@,
                spec_threshold(block, submit_earlier),
                now,
                sinks,
            ),
{
    let now = now_seconds();
    let submitter = run_at(block_db, timestamp_db, block, submit_earlier, now, sinks);
    proof {
        assert(dispatched(
            old(block_db)@,
            block_db@,
            old(timestamp_db)@,
            timestamp_db@,
            submitter@,
            spec_threshold(block, submit_earlier),
            now,
            sinks,
        ));
    }
    submitter
}

} // verus!
