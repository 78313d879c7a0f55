//! Transactions storage.
//!
//! A store keeps scheduled transactions in buckets, one bucket for each block
//! number (or time) that a transaction waits for. A bucket holds the bytes of
//! its file: a run of records. Beside the buckets the store counts the stored
//! transactions of every sender, and admits no more than a fixed number of
//! them. The store itself touches no file: each change says what is to be
//! written, and the caller writes it.

pub mod block;
pub mod buckets;
pub mod files;
pub mod iterator;

pub use self::block::BlockDatabase;
pub use self::files::{bucket_file_name, file_number, StoredFile};
pub use self::iterator::{IteratorMode, TransactionsIterator};

use self::block::{countable, hold, locate};
use self::buckets::{
    all_wf, ascending, below, contents, first_with, holds, lemma_below, lemma_below_split,
    lemma_bucket_added, lemma_contents_records, lemma_drained, lemma_inserted,
    lemma_removed, lemma_sent_by_concat, lemma_sent_by_split, lemma_split, numbers, sent_by,
    transactions, with_record, without_record, BucketView,
};
use self::files::{files_of, lemma_reopened, opened, with_file, FileView};
use self::iterator::IteratorView;
use crate::record;
use crate::record::{frame, frame_all, framable, records};
use crate::senders::Senders;
use crate::types::{Address, BlockNumber, Transaction, TransactionView, H256};
use vstd::prelude::*;
use vstd::slice::slice_subrange;

verus! {

/// Why a store refuses a transaction or a file.
#[derive(Debug, Clone, Copy, PartialEq, Eq)]
pub enum Error {
    /// The sender already has as many stored transactions as it may have.
    SenderQuotaExceeded,
    /// The transaction's bytes are more than a record can hold.
    RecordTooLarge,
    /// The bytes are not a run of whole records.
    Malformed,
    /// Loading the records would carry a sender's count past what the
    /// machine can count.
    TooManyRecords,
}

/// The store `after` is the store `before` with `off` transactions of
/// `sender` counted off that had left the store unread. Nothing else differs.
pub open spec fn read_off(before: DatabaseView, after: DatabaseView, sender: Seq<u8>, off: int)
    -> bool {
    &&& after.blocks == before.blocks
    &&& after.max_txs_per_sender == before.max_txs_per_sender
    &&& after.senders.count(sender) == before.senders.count(sender) - off
    &&& after.outstanding.count(sender) == before.outstanding.count(sender) - off
    &&& after.senders.total() == before.senders.total() - off
    &&& after.outstanding.total() == before.outstanding.total() - off
    &&& forall|other: Seq<u8>|
        other != sender ==> after.senders.count(other) == before.senders.count(other)
            && after.outstanding.count(other) == before.outstanding.count(other)
}

/// What has to be written to a bucket's file after a transaction was stored.
#[derive(Debug)]
pub struct Written {
    /// The number of the bucket.
    pub number: BlockNumber,
    /// Whether the bucket is new, and its file with it.
    pub created: bool,
    /// The record to put behind what the file holds.
    pub bytes: Vec<u8>,
}

/// What a transaction that was taken out of the store leaves behind.
#[derive(Debug)]
pub struct Removed {
    /// The transaction.
    pub transaction: Transaction,
    /// The number of its bucket.
    pub number: BlockNumber,
    /// What the bucket's file holds without the transaction.
    pub content: Vec<u8>,
    /// Whether the bucket left the store with its last transaction; its
    /// file is then to be retired.
    pub retired: bool,
}

/// A store as a plain value.
pub struct DatabaseView {
    /// How many live transactions each sender has: those in the buckets,
    /// and those that have left the store with their bucket but have not
    /// been read from it yet.
    pub senders: Senders,
    /// How many of its transactions have left the store but have not been
    /// read yet, for each sender.
    pub outstanding: Senders,
    /// The buckets, in ascending order of their numbers.
    pub blocks: Seq<BucketView>,
    /// How many stored transactions a sender may have.
    pub max_txs_per_sender: usize,
}

impl DatabaseView {
    /// The buckets stand in ascending order, each holds a run of whole
    /// records, and every sender is counted with as many transactions as the
    /// buckets hold of it and as have left the store unread.
    pub open spec fn wf(self) -> bool {
        &&& self.senders.wf()
        &&& self.outstanding.wf()
        &&& ascending(self.blocks)
        &&& all_wf(self.blocks)
        &&& forall|sender: Seq<u8>| #[trigger]
            self.senders.count(sender) == sent_by(transactions(self.blocks), sender)
                + self.outstanding.count(sender)
        &&& self.senders.total() == transactions(self.blocks).len() + self.outstanding.total()
    }

    /// No transaction has left the store unread.
    pub open spec fn settled(self) -> bool {
        self.outstanding.total() == 0
    }

    /// How many transactions are counted off `sender` when one of its
    /// transactions is read from an iterator: one, where the iterator drains
    /// and a transaction of the sender has left the store unread.
    pub open spec fn counts_off(self, sender: Seq<u8>, read_only: bool) -> int {
        if !read_only && self.outstanding.count(sender) > 0 {
            1
        } else {
            0
        }
    }

    /// Where the bucket of `number` stands, or would stand.
    pub open spec fn position(self, number: u64) -> int {
        below(self.blocks, number as int) as int
    }

    /// Whether there is a bucket of `number`.
    pub open spec fn holds(self, number: u64) -> bool {
        holds(self.blocks, number)
    }

    /// How many buckets are due at `number`: those with that number or a
    /// lower one.
    pub open spec fn due(self, number: u64) -> int {
        below(self.blocks, number + 1) as int
    }

    /// The buckets after `tx` has been stored under `number`: its record
    /// stands behind the others of that bucket, or in a new bucket where
    /// there was none.
    pub open spec fn inserted(self, number: u64, tx: TransactionView) -> Seq<BucketView> {
        with_record(self.blocks, number, tx)
    }
}

/// A storage for scheduled transactions.
/// Each block has a separate instance of `BlockDatabase`.
///
/// The database should store only valid transactions.
#[derive(Debug)]
pub struct Database {
    senders: Senders,
    outstanding: Senders,
    blocks: Vec<BlockDatabase>,
    max_txs_per_sender: usize,
}

impl View for Database {
    type V = DatabaseView;

    closed spec fn view(&self) -> DatabaseView {
        DatabaseView {
            senders: self.senders,
            outstanding: self.outstanding,
            blocks: Seq::new(self.blocks@.len(), |i: int| self.blocks@[i]@),
            max_txs_per_sender: self.max_txs_per_sender,
        }
    }
}

impl Database {
    /// An empty store.
    pub fn new(max_txs_per_sender: usize) -> (db: Self)
        ensures
            db@.wf(),
            db@.settled(),
            db@.blocks == Seq::<BucketView>::empty(),
            db@.max_txs_per_sender == max_txs_per_sender,
            forall|sender: Seq<u8>| db@.senders.count(sender) == 0,
    {
        let db = Database {
            senders: Senders::new(),
            outstanding: Senders::new(),
            blocks: Vec::new(),
            max_txs_per_sender,
        };
        proof {
            assert(db@.blocks =~= Seq::<BucketView>::empty());
            assert forall|sender: Seq<u8>| #[trigger]
                db@.senders.count(sender) == sent_by(transactions(db@.blocks), sender)
                    + db@.outstanding.count(sender) by {}
        }
        db
    }

    /// Open and load the store that `files` hold: the files of a store's
    /// directory, with their names.
    ///
    /// A file is taken in as a bucket where its name is that of a bucket
    /// file, no bucket of that number was taken in before it, and its bytes
    /// are a run of whole records; its senders are then counted. Every other
    /// file is passed over.
    pub fn open(files: &Vec<StoredFile>, max_txs_per_sender: usize) -> (db: Self)
        ensures
            db@.wf(),
            db@.settled(),
            db@.max_txs_per_sender == max_txs_per_sender,
            db@.blocks == opened(Seq::new(files@.len(), |i: int| files@[i]@)),
            forall|sender: Seq<u8>|
                db@.senders.count(sender) == sent_by(transactions(db@.blocks), sender),
    {
        let ghost all = Seq::new(files@.len(), |i: int| files@[i]@);
        let mut db = Database::new(max_txs_per_sender);
        let mut i: usize = 0;
        proof {
            assert(all.take(0) =~= Seq::<FileView>::empty());
        }
        while i < files.len()
            invariant
                i <= files@.len(),
                all == Seq::new(files@.len(), |i: int| files@[i]@),
                db@.wf(),
                db@.settled(),
                db@.max_txs_per_sender == max_txs_per_sender,
                db@.blocks == opened(all.take(i as int)),
            decreases files@.len() - i,
        {
            proof {
                assert(all.take(i + 1).drop_last() =~= all.take(i as int));
                assert(all.take(i + 1).last() == files@[i as int]@);
            }
            db.load(&files[i]);
            i += 1;
        }
        proof {
            assert(all.take(all.len() as int) =~= all);
            lemma_counts(db@);
        }
        db
    }

    /// Takes the bucket of one file in, if it is to be taken in.
    fn load(&mut self, file: &StoredFile)
        requires
            old(self)@.wf(),
            old(self)@.settled(),
        ensures
            final(self)@.wf(),
            final(self)@.settled(),
            final(self)@.max_txs_per_sender == old(self)@.max_txs_per_sender,
            final(self)@.blocks == with_file(old(self)@.blocks, file@),
    {
        let ghost before = self@;
        let number = match file_number(file.name.as_str()) {
            None => {
                return ;
            },
            Some(number) => number,
        };
        let at = self.split(number, false);
        if at < self.blocks.len() && self.blocks[at].number() == number {
            return ;
        }
        let content = crate::types::copy_bytes(file.content.as_slice());
        proof {
            assert forall|sender: Seq<u8>|
                before.senders.count(sender) == sent_by(transactions(before.blocks), sender) by {
                before.outstanding.lemma_bounded(sender);
                assert(#[trigger] before.senders.count(sender) == sent_by(
                    transactions(before.blocks),
                    sender,
                ) + before.outstanding.count(sender));
            }
            if records(content@) is Some {
                let txs = records(content@)->0;
                assert(countable(before.senders, txs) <==> (forall|sender: Seq<u8>| #[trigger]
                    sent_by(transactions(before.blocks), sender) + sent_by(txs, sender)
                        <= usize::MAX)) by {
                    assert forall|sender: Seq<u8>|
                        before.senders.count(sender) + sent_by(txs, sender) == sent_by(
                            transactions(before.blocks),
                            sender,
                        ) + sent_by(txs, sender) by {}
                    if countable(before.senders, txs) {
                        assert forall|sender: Seq<u8>| #[trigger]
                            sent_by(transactions(before.blocks), sender) + sent_by(txs, sender)
                                <= usize::MAX by {
                            assert(before.senders.count(sender) + sent_by(txs, sender)
                                <= usize::MAX);
                        }
                    }
                    if forall|sender: Seq<u8>| #[trigger]
                        sent_by(transactions(before.blocks), sender) + sent_by(txs, sender)
                            <= usize::MAX {
                        assert forall|sender: Seq<u8>| #[trigger]
                            before.senders.count(sender) + sent_by(txs, sender)
                                <= usize::MAX by {
                            assert(sent_by(transactions(before.blocks), sender) + sent_by(
                                txs,
                                sender,
                            ) <= usize::MAX);
                        }
                    }
                }
            }
        }
        match BlockDatabase::open(number, content, &mut self.senders) {
            Err(_) => {},
            Ok(bucket) => {
                proof {
                    lemma_bucket_added(before.blocks, bucket@);
                }
                self.blocks.insert(at, bucket);
                proof {
                    let after = self@;
                    assert(after.blocks =~= with_file(before.blocks, file@));
                    assert forall|sender: Seq<u8>| #[trigger]
                        after.senders.count(sender) == sent_by(
                            transactions(after.blocks),
                            sender,
                        ) + after.outstanding.count(sender) by {
                        assert(before.senders.count(sender) == sent_by(
                            transactions(before.blocks),
                            sender,
                        ) + before.outstanding.count(sender));
                    }
                }
            },
        }
    }

    /// How many of the buckets have a number below `number`, or, with
    /// `inclusive`, not above it.
    fn split(&self, number: BlockNumber, inclusive: bool) -> (at: usize)
        requires
            self@.wf(),
        ensures
            at == below(
                self@.blocks,
                if inclusive {
                    number + 1
                } else {
                    number as int
                },
            ),
            at <= self.blocks@.len(),
    {
        let ghost bound = if inclusive {
            number + 1
        } else {
            number as int
        };
        let mut at: usize = 0;
        while at < self.blocks.len() && (self.blocks[at].number() < number || (inclusive
            && self.blocks[at].number() == number))
            invariant
                at <= self.blocks@.len(),
                self@.blocks.len() == self.blocks@.len(),
                bound == if inclusive {
                    number + 1
                } else {
                    number as int
                },
                forall|i: int| 0 <= i < at ==> (#[trigger] self@.blocks[i]).number < bound,
            decreases self.blocks@.len() - at,
        {
            at += 1;
        }
        proof {
            assert forall|i: int| at <= i < self@.blocks.len() implies (
            #[trigger] self@.blocks[i]).number >= bound by {
                if i > at {
                    assert(self@.blocks[at as int].number < self@.blocks[i].number);
                }
            }
            lemma_below(self@.blocks, bound, at as int);
        }
        at
    }

    /// How many stored transactions `sender` has.
    pub fn count(&self, sender: &Address) -> (n: usize)
        requires
            self@.wf(),
        ensures
            n == self@.senders.count(sender@),
            n == sent_by(transactions(self@.blocks), sender@) + self@.outstanding.count(sender@),
    {
        self.senders.get(sender)
    }

    /// Whether no transaction has left the store unread.
    pub fn settled(&self) -> (settled: bool)
        requires
            self@.wf(),
        ensures
            settled == self@.settled(),
    {
        self.outstanding.is_empty()
    }

    /// How many buckets the store holds.
    pub fn len(&self) -> (n: usize)
        ensures
            n == self@.blocks.len(),
    {
        self.blocks.len()
    }

    /// The numbers of the buckets, in ascending order.
    pub fn numbers(&self) -> (listed: Vec<BlockNumber>)
        ensures
            listed@ == numbers(self@.blocks),
    {
        let mut listed: Vec<BlockNumber> = Vec::new();
        let mut i: usize = 0;
        while i < self.blocks.len()
            invariant
                i <= self.blocks@.len(),
                self@.blocks.len() == self.blocks@.len(),
                listed@ == numbers(self@.blocks).take(i as int),
            decreases self.blocks@.len() - i,
        {
            listed.push(self.blocks[i].number());
            i += 1;
            proof {
                assert(listed@ =~= numbers(self@.blocks).take(i as int));
            }
        }
        proof {
            assert(numbers(self@.blocks).take(self@.blocks.len() as int) =~= numbers(
                self@.blocks,
            ));
        }
        listed
    }

    /// What the file of the bucket of `number` holds; none where there is
    /// no such bucket.
    pub fn content(&self, number: BlockNumber) -> (content: Option<Vec<u8>>)
        requires
            self@.wf(),
        ensures
            match content {
                Some(content) => self@.holds(number) && content@ == self@.blocks[self@.position(
                    number,
                )].content,
                None => !self@.holds(number),
            },
    {
        let at = self.split(number, false);
        if at < self.blocks.len() && self.blocks[at].number() == number {
            Some(crate::types::copy_bytes(self.blocks[at].content()))
        } else {
            None
        }
    }

    /// Whether `sender` may have one more transaction stored.
    pub fn sender_allowed(&self, sender: &Address) -> (allowed: bool)
        requires
            self@.wf(),
        ensures
            allowed == (self@.senders.count(sender@) < self@.max_txs_per_sender),
    {
        self.senders.get(sender) < self.max_txs_per_sender
    }

    /// Returns true if there are any transactions scheduled for given block
    /// or an earlier one: the lowest bucket's number is not above `block_number`.
    pub fn has(&self, block_number: &BlockNumber) -> (due: bool)
        requires
            self@.wf(),
        ensures
            due == (self@.blocks.len() > 0 && self@.blocks[0].number <= *block_number),
            due == (self@.due(*block_number) > 0),
    {
        proof {
            lemma_below_split(self@.blocks, *block_number + 1);
        }
        self.blocks.len() > 0 && self.blocks[0].number() <= *block_number
    }

    /// Inserts new transactions to the store.
    ///
    /// A sender that already has as many stored transactions as it may have
    /// is refused, and so is a transaction too large for a record; the store
    /// is then unchanged. Otherwise the sender is counted once more and the
    /// transaction's record is put behind the others of the bucket of
    /// `block_number`, which is made if there is none.
    pub fn insert(&mut self, block_number: BlockNumber, transaction: Transaction) -> (written:
        Result<Written, Error>)
        requires
            old(self)@.wf(),
        ensures
            final(self)@.wf(),
            final(self)@.max_txs_per_sender == old(self)@.max_txs_per_sender,
            match written {
                Ok(written) => {
                    &&& old(self)@.senders.count(transaction@.sender) < old(
                        self,
                    )@.max_txs_per_sender
                    &&& framable(transaction@)
                    &&& written.number == block_number
                    &&& written.created == !old(self)@.holds(block_number)
                    &&& written.bytes@ == frame(transaction@)
                    &&& final(self)@.blocks == old(self)@.inserted(block_number, transaction@)
                    &&& final(self)@.holds(block_number)
                    &&& final(self)@.outstanding == old(self)@.outstanding
                    &&& final(self)@.senders.count(transaction@.sender) == old(
                        self,
                    )@.senders.count(transaction@.sender) + 1
                    &&& forall|other: Seq<u8>|
                        other != transaction@.sender ==> final(self)@.senders.count(other) == old(
                            self,
                        )@.senders.count(other)
                },
                Err(error) => {
                    &&& *final(self) == *old(self)
                    &&& error == Error::SenderQuotaExceeded <==> old(self)@.senders.count(
                        transaction@.sender,
                    ) >= old(self)@.max_txs_per_sender
                    &&& error == Error::RecordTooLarge <==> old(self)@.senders.count(
                        transaction@.sender,
                    ) < old(self)@.max_txs_per_sender && !framable(transaction@)
                    &&& error == Error::SenderQuotaExceeded || error == Error::RecordTooLarge
                },
            },
    {
        if !self.sender_allowed(transaction.sender()) {
            return Err(Error::SenderQuotaExceeded);
        }
        let bytes = match record::encode(&transaction) {
            None => {
                return Err(Error::RecordTooLarge);
            },
            Some(bytes) => bytes,
        };
        let ghost before = self@;
        let ghost tx = transaction@;
        let at = self.split(block_number, false);
        proof {
            lemma_below_split(before.blocks, block_number as int);
        }
        let present = at < self.blocks.len() && self.blocks[at].number() == block_number;
        if present {
            self.blocks[at].put(bytes.as_slice());
        } else {
            let mut bucket = BlockDatabase::new(block_number);
            bucket.put(bytes.as_slice());
            self.blocks.insert(at, bucket);
        }
        self.senders.increment(transaction.sender());
        proof {
            let after = self@;
            assert(after.blocks =~= before.inserted(block_number, tx));
            lemma_inserted(before.blocks, block_number, tx);
            assert forall|sender: Seq<u8>| #[trigger]
                after.senders.count(sender) == sent_by(transactions(after.blocks), sender)
                    + after.outstanding.count(sender) by {
                assert(before.senders.count(sender) == sent_by(
                    transactions(before.blocks),
                    sender,
                ) + before.outstanding.count(sender));
            }
        }
        Ok(Written { number: block_number, created: !present, bytes })
    }

    /// Takes the transaction with the hash `hash` out of the bucket of
    /// `block_number`: the first one, where several have that hash. Its
    /// sender is counted once less, and a bucket that held nothing else
    /// leaves the store. None, and no change, where there is no such bucket
    /// or no such transaction in it.
    pub fn remove(&mut self, block_number: &BlockNumber, hash: &H256) -> (removed: Option<Removed>)
        requires
            old(self)@.wf(),
        ensures
            final(self)@.wf(),
            final(self)@.max_txs_per_sender == old(self)@.max_txs_per_sender,
            match removed {
                Some(removed) => {
                    let place = old(self)@.position(*block_number);
                    let stored = old(self)@.blocks[place].transactions();
                    let at = first_with(stored, hash@);
                    &&& old(self)@.holds(*block_number)
                    &&& 0 <= at < stored.len()
                    &&& removed.transaction@ == stored[at]
                    &&& removed.transaction@.hash == hash@
                    &&& removed.number == *block_number
                    &&& records(removed.content@) == Some(stored.remove(at))
                    &&& removed.retired == (stored.len() == 1)
                    &&& final(self)@.blocks == without_record(
                        old(self)@.blocks,
                        *block_number,
                        removed.content@,
                    )
                    &&& final(self)@.outstanding == old(self)@.outstanding
                    &&& forall|sender: Seq<u8>| #[trigger]
                        final(self)@.senders.count(sender) == old(self)@.senders.count(sender)
                            - if stored[at].sender == sender {
                            1int
                        } else {
                            0int
                        }
                },
                None => {
                    &&& *final(self) == *old(self)
                    &&& !old(self)@.holds(*block_number) || first_with(
                        old(self)@.blocks[old(self)@.position(*block_number)].transactions(),
                        hash@,
                    ) == old(self)@.blocks[old(self)@.position(
                        *block_number,
                    )].transactions().len()
                },
            },
    {
        let ghost before = self@;
        let place = self.split(*block_number, false);
        proof {
            lemma_below_split(before.blocks, *block_number as int);
        }
        if !(place < self.blocks.len() && self.blocks[place].number() == *block_number) {
            return None;
        }
        let ghost stored = before.blocks[place as int].transactions();
        let (start, end, transaction) = match locate(self.blocks[place].content(), hash) {
            None => {
                return None;
            },
            Some(found) => found,
        };
        let ghost at = first_with(stored, hash@);
        let mut content = crate::types::copy_bytes(
            slice_subrange(self.blocks[place].content(), 0, start),
        );
        let old_len = self.blocks[place].content().len();
        record::append(&mut content, slice_subrange(self.blocks[place].content(), end, old_len));
        let copy = crate::types::copy_bytes(content.as_slice());
        proof {
            let bytes = before.blocks[place as int].content;
            assert(bytes.subrange(0, start as int) =~= bytes.take(start as int));
            assert(bytes.subrange(end as int, bytes.len() as int) =~= bytes.skip(end as int));
            record::lemma_records_concat(bytes.take(start as int), bytes.skip(end as int));
            assert(stored.take(at) + stored.skip(at + 1) =~= stored.remove(at));
            lemma_removed(before.blocks, place as int, at, content@);
            lemma_sent_by_split(transactions(before.blocks), 0, stored[at].sender);
            lemma_split(before.blocks, place as int);
            lemma_sent_by_split(stored, at, stored[at].sender);
            lemma_sent_by_concat(
                transactions(before.blocks.take(place as int)) + stored,
                transactions(before.blocks.skip(place + 1)),
                stored[at].sender,
            );
            lemma_sent_by_concat(
                transactions(before.blocks.take(place as int)),
                stored,
                stored[at].sender,
            );
            assert(before.senders.count(stored[at].sender) == sent_by(
                transactions(before.blocks),
                stored[at].sender,
            ) + before.outstanding.count(stored[at].sender));
        }
        let retired = content.len() == 0;
        if retired {
            self.blocks.remove(place);
        } else {
            self.blocks[place].rewrite(content);
        }
        let ghost held = self.senders;
        self.senders.decrement(transaction.sender());
        proof {
            let after = self@;
            assert(after.blocks =~= without_record(before.blocks, *block_number, copy@));
            assert forall|sender: Seq<u8>| #[trigger]
                after.senders.count(sender) == sent_by(transactions(after.blocks), sender)
                    + after.outstanding.count(sender) by {
                assert(held.count(sender) == sent_by(transactions(before.blocks), sender)
                    + before.outstanding.count(sender));
            }
            assert forall|sender: Seq<u8>| #[trigger]
                after.senders.count(sender) == before.senders.count(sender) - if stored[at].sender
                    == sender {
                    1int
                } else {
                    0int
                } by {
                assert(held.count(sender) == before.senders.count(sender));
            }
        }
        Some(Removed { transaction, number: *block_number, content: copy, retired })
    }

    /// Drains transactions scheduled for submission up to given block number.
    ///
    /// The buckets with that number or a lower one leave the store. Their
    /// bytes come back in one iterator, bucket after bucket in ascending
    /// order; none where no bucket is due. Their senders stay counted until
    /// the transactions are read from the iterator with [`Database::next`].
    pub fn drain(&mut self, block_number: BlockNumber) -> (it: Option<TransactionsIterator>)
        requires
            old(self)@.wf(),
        ensures
            final(self)@.wf(),
            final(self)@.max_txs_per_sender == old(self)@.max_txs_per_sender,
            final(self)@.senders == old(self)@.senders,
            0 <= old(self)@.due(block_number) <= old(self)@.blocks.len(),
            final(self)@.blocks == old(self)@.blocks.skip(old(self)@.due(block_number)),
            forall|i: int|
                0 <= i < final(self)@.blocks.len() ==> (#[trigger] final(self)@.blocks[i]).number
                    > block_number,
            forall|i: int|
                0 <= i < old(self)@.due(block_number) ==> (#[trigger] old(self)@.blocks[i]).number
                    <= block_number,
            forall|sender: Seq<u8>| #[trigger]
                final(self)@.outstanding.count(sender) == old(self)@.outstanding.count(sender)
                    + sent_by(
                    transactions(old(self)@.blocks.take(old(self)@.due(block_number))),
                    sender,
                ),
            match it {
                Some(it) => {
                    &&& old(self)@.due(block_number) > 0
                    &&& it@ == (IteratorView {
                        content: contents(old(self)@.blocks.take(old(self)@.due(block_number))),
                        position: 0,
                        drained: numbers(old(self)@.blocks.take(old(self)@.due(block_number))),
                        read_only: false,
                    })
                    &&& records(it@.content) == Some(
                        transactions(old(self)@.blocks.take(old(self)@.due(block_number))),
                    )
                },
                None => old(self)@.due(block_number) == 0 && *final(self) == *old(self),
            },
    {
        let ghost before = self@;
        let due = self.split(block_number, true);
        proof {
            lemma_below_split(before.blocks, block_number + 1);
            lemma_drained(before.blocks, due as int);
        }
        if due == 0 {
            proof {
                assert(before.blocks.skip(0) =~= before.blocks);
                assert(before.blocks.take(0) =~= Seq::<BucketView>::empty());
                assert(transactions(before.blocks.take(0)) =~= Seq::<TransactionView>::empty());
                assert forall|sender: Seq<u8>| #[trigger]
                    self@.outstanding.count(sender) == before.outstanding.count(sender) + sent_by(
                        transactions(before.blocks.take(0)),
                        sender,
                    ) by {}
            }
            return None;
        }
        let mut kept = self.blocks.split_off(due);
        std::mem::swap(&mut self.blocks, &mut kept);
        let drained = kept;
        let ghost gone = before.blocks.take(due as int);
        proof {
            assert(self@.blocks =~= before.blocks.skip(due as int));
            assert(Seq::new(drained@.len(), |i: int| drained@[i]@) =~= gone);
        }
        let mut content: Vec<u8> = Vec::new();
        let mut listed: Vec<BlockNumber> = Vec::new();
        let mut i: usize = 0;
        proof {
            assert(gone.take(0) =~= Seq::<BucketView>::empty());
            assert(content@ =~= contents(gone.take(0)));
            assert(listed@ =~= numbers(gone.take(0)));
        }
        while i < drained.len()
            invariant
                i <= drained@.len(),
                gone.len() == drained@.len(),
                forall|j: int| 0 <= j < gone.len() ==> gone[j] == (#[trigger] drained@[j])@,
                content@ == contents(gone.take(i as int)),
                listed@ == numbers(gone.take(i as int)),
            decreases drained@.len() - i,
        {
            record::append(&mut content, drained[i].content());
            listed.push(drained[i].number());
            proof {
                assert(gone.take(i + 1).drop_last() =~= gone.take(i as int));
                assert(gone.take(i + 1).last() == gone[i as int]);
                assert(listed@ =~= numbers(gone.take(i + 1)));
            }
            i += 1;
        }
        proof {
            assert(gone.take(gone.len() as int) =~= gone);
            lemma_contents_records(gone);
            assert forall|sender: Seq<u8>| #[trigger]
                self.outstanding.count(sender) + sent_by(transactions(gone), sender)
                    <= usize::MAX by {
                assert(before.senders.count(sender) == sent_by(
                    transactions(before.blocks),
                    sender,
                ) + before.outstanding.count(sender));
                lemma_sent_by_concat(
                    transactions(gone),
                    transactions(before.blocks.skip(due as int)),
                    sender,
                );
                before.senders.lemma_bounded(sender);
            }
        }
        let ghost held = self.outstanding;
        hold(&mut self.outstanding, content.as_slice());
        proof {
            let after = self@;
            assert(after.blocks =~= before.blocks.skip(due as int));
            assert forall|sender: Seq<u8>| #[trigger]
                after.senders.count(sender) == sent_by(transactions(after.blocks), sender)
                    + after.outstanding.count(sender) by {
                assert(before.senders.count(sender) == sent_by(
                    transactions(before.blocks),
                    sender,
                ) + held.count(sender));
                assert(after.outstanding.count(sender) == held.count(sender) + sent_by(
                    transactions(gone),
                    sender,
                ));
                lemma_sent_by_concat(
                    transactions(gone),
                    transactions(before.blocks.skip(due as int)),
                    sender,
                );
            }
            assert forall|sender: Seq<u8>| #[trigger]
                after.outstanding.count(sender) == before.outstanding.count(sender) + sent_by(
                    transactions(gone),
                    sender,
                ) by {
                assert(after.outstanding.count(sender) == held.count(sender) + sent_by(
                    transactions(gone),
                    sender,
                ));
            }
        }
        Some(TransactionsIterator::from_file(content, IteratorMode::Drain(listed)))
    }

    /// Reads the next transaction from an iterator. A transaction that had
    /// left this store unread, and is read from an iterator that drains, is
    /// counted off its sender.
    pub fn next(&mut self, it: &mut TransactionsIterator) -> (tx: Option<Transaction>)
        requires
            old(self)@.wf(),
        ensures
            final(self)@.wf(),
            final(it)@ == old(it)@.advanced(),
            match tx {
                Some(tx) => {
                    &&& old(it)@.upcoming() == Some(tx@)
                    &&& read_off(
                        old(self)@,
                        final(self)@,
                        tx@.sender,
                        old(self)@.counts_off(tx@.sender, old(it)@.read_only),
                    )
                },
                None => old(it)@.upcoming() is None && *final(self) == *old(self),
            },
    {
        let ghost before = self@;
        let draining = it.draining();
        let tx = match it.next() {
            None => {
                return None;
            },
            Some(tx) => tx,
        };
        if draining && self.outstanding.get(tx.sender()) > 0 {
            proof {
                assert(before.senders.count(tx@.sender) == sent_by(
                    transactions(before.blocks),
                    tx@.sender,
                ) + before.outstanding.count(tx@.sender));
            }
            self.senders.decrement(tx.sender());
            self.outstanding.decrement(tx.sender());
            proof {
                let after = self@;
                assert(after.blocks =~= before.blocks);
                assert forall|sender: Seq<u8>| #[trigger]
                    after.senders.count(sender) == sent_by(transactions(after.blocks), sender)
                        + after.outstanding.count(sender) by {
                    assert(before.senders.count(sender) == sent_by(
                        transactions(before.blocks),
                        sender,
                    ) + before.outstanding.count(sender));
                }
            }
        } else {
            proof {
                assert(self@.blocks =~= before.blocks);
            }
        }
        Some(tx)
    }
}

/// In every well-formed store that no transaction has left unread, the
/// counts of all senders together are the number of transactions that the
/// buckets hold, and each sender's count is the number of its transactions
/// there. The bytes of the bucket files are the records of exactly those
/// transactions, each of which fits a record.
pub proof fn lemma_counts(db: DatabaseView)
    requires
        db.wf(),
        db.settled(),
    ensures
        db.senders.total() == transactions(db.blocks).len(),
        forall|sender: Seq<u8>|
            db.senders.count(sender) == sent_by(transactions(db.blocks), sender),
        records(contents(db.blocks)) == Some(transactions(db.blocks)),
        contents(db.blocks) == frame_all(transactions(db.blocks)),
        forall|i: int|
            0 <= i < transactions(db.blocks).len() ==> framable(
                #[trigger] transactions(db.blocks)[i],
            ),
{
    lemma_contents_records(db.blocks);
    record::lemma_records_frame_all(contents(db.blocks));
    assert forall|i: int| 0 <= i < transactions(db.blocks).len() implies framable(
        #[trigger] transactions(db.blocks)[i],
    ) by {
        record::lemma_records_framable(contents(db.blocks), i);
    }
    assert forall|sender: Seq<u8>|
        db.senders.count(sender) == sent_by(transactions(db.blocks), sender) by {
        db.outstanding.lemma_bounded(sender);
        assert(#[trigger] db.senders.count(sender) == sent_by(transactions(db.blocks), sender)
            + db.outstanding.count(sender));
    }
}

/// A store that is opened on the bucket files of a well-formed store that
/// no transaction has left unread, in whatever order the files come, holds
/// the same buckets, and so counts every sender as that store did. Its own
/// bucket files are the same files: opening once more gives the same again.
pub proof fn lemma_reopen(db: DatabaseView, files: Seq<FileView>, again: DatabaseView)
    requires
        db.wf(),
        db.settled(),
        files_of(files, db.blocks),
        again.wf(),
        again.settled(),
        again.blocks == opened(files),
    ensures
        again.blocks == db.blocks,
        forall|sender: Seq<u8>| again.senders.count(sender) == db.senders.count(sender),
        again.senders.total() == db.senders.total(),
        files_of(files, again.blocks),
{
    lemma_counts(db);
    assert forall|sender: Seq<u8>| #[trigger]
        sent_by(transactions(db.blocks), sender) <= usize::MAX by {
        db.senders.lemma_bounded(sender);
    }
    lemma_reopened(files, db.blocks);
    lemma_counts(again);
}

/// What is stored under a number is due at that number and at every later
/// one: a store that holds a bucket of `number` has a bucket due at `at`.
pub proof fn lemma_stored_is_due(db: DatabaseView, number: u64, at: u64)
    requires
        db.wf(),
        db.holds(number),
        number <= at,
    ensures
        db.due(at) > 0,
        db.blocks[0].number <= at,
{
    lemma_below_split(db.blocks, number as int);
    lemma_below_split(db.blocks, at + 1);
    let place = db.position(number);
    if db.due(at) <= place {
        assert(db.blocks[place].number >= at + 1);
    }
    if place > 0 {
        assert(db.blocks[0].number < db.blocks[place].number);
    }
}

} // verus!
