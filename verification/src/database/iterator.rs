//! Reading the transactions of bucket files.

use crate::record;
use crate::record::first;
use crate::types::{BlockNumber, Transaction, TransactionView};
use vstd::prelude::*;
use vstd::slice::slice_subrange;

verus! {

/// Iteration mode
#[derive(Debug)]
pub enum IteratorMode {
    /// The transactions leave the store: the files of the buckets with these
    /// numbers are to be retired once the iterator has been read to its end.
    Drain(Vec<BlockNumber>),
    /// Only read transactions.
    ReadOnly,
}

impl IteratorMode {
    /// The numbers of the buckets to retire; none in read-only mode.
    pub open spec fn drained(self) -> Seq<u64> {
        match self {
            IteratorMode::Drain(numbers) => numbers@,
            IteratorMode::ReadOnly => Seq::empty(),
        }
    }

    /// Takes over the buckets that `other` drains, if both modes drain.
    fn join(&mut self, other: IteratorMode)
        ensures
            (*final(self) is ReadOnly) == (*old(self) is ReadOnly),
            final(self).drained() == if !(*old(self) is ReadOnly) && !(other is ReadOnly) {
                old(self).drained() + other.drained()
            } else {
                old(self).drained()
            },
    {
        match self {
            IteratorMode::Drain(numbers) => {
                match other {
                    IteratorMode::Drain(mut more) => {
                        numbers.append(&mut more);
                    },
                    IteratorMode::ReadOnly => {},
                }
            },
            IteratorMode::ReadOnly => {},
        }
    }
}

/// A [`TransactionsIterator`] as a plain value.
pub struct IteratorView {
    /// The bytes that the iterator reads.
    pub content: Seq<u8>,
    /// How many of them it has read.
    pub position: nat,
    /// The numbers of the buckets that it drains; empty when it only reads.
    pub drained: Seq<u64>,
    /// Whether it only reads.
    pub read_only: bool,
}

impl IteratorView {
    /// The bytes that have not been read.
    pub open spec fn rest(self) -> Seq<u8> {
        self.content.skip(self.position as int)
    }

    /// The transaction that is read next: that of the record at the front
    /// of the bytes that have not been read, if there is a whole record.
    pub open spec fn upcoming(self) -> Option<TransactionView> {
        match first(self.rest()) {
            Some(read) => Some(read.tx),
            None => None,
        }
    }

    /// The iterator after the next transaction has been read: behind its
    /// record, or, where there is no whole record, at the end of the bytes.
    pub open spec fn advanced(self) -> IteratorView {
        IteratorView {
            position: match first(self.rest()) {
                Some(read) => (self.position + read.used) as nat,
                None => self.content.len(),
            },
            ..self
        }
    }
}

/// Transactions iterator: reads the records of one or more buckets, one
/// record at a time.
#[derive(Debug)]
pub struct TransactionsIterator {
    content: Vec<u8>,
    position: usize,
    mode: IteratorMode,
}

impl View for TransactionsIterator {
    type V = IteratorView;

    closed spec fn view(&self) -> IteratorView {
        IteratorView {
            content: self.content@,
            position: if self.position <= self.content@.len() {
                self.position as nat
            } else {
                self.content@.len()
            },
            drained: self.mode.drained(),
            read_only: self.mode is ReadOnly,
        }
    }
}

impl TransactionsIterator {
    /// The iterator never stands behind the end of its bytes.
    pub proof fn lemma_within(&self)
        ensures
            self@.position <= self@.content.len(),
    {
    }

    /// Iterate over the transactions in the bytes of a bucket file.
    pub fn from_file(content: Vec<u8>, mode: IteratorMode) -> (it: Self)
        ensures
            it@ == (IteratorView {
                content: content@,
                position: 0,
                drained: mode.drained(),
                read_only: mode is ReadOnly,
            }),
    {
        TransactionsIterator { content, position: 0, mode }
    }

    /// Join two iterators together: the bytes of `other` come behind those of
    /// this one. The buckets that `other` drains are retired with this one's
    /// if both iterators drain.
    pub fn append(&mut self, other: Self)
        ensures
            final(self)@ == (IteratorView {
                content: old(self)@.content + other@.content,
                position: old(self)@.position,
                drained: if !old(self)@.read_only && !other@.read_only {
                    old(self)@.drained + other@.drained
                } else {
                    old(self)@.drained
                },
                read_only: old(self)@.read_only,
            }),
    {
        let TransactionsIterator { content, position: _, mode } = other;
        if self.position > self.content.len() {
            self.position = self.content.len();
        }
        self.mode.join(mode);
        record::append(&mut self.content, content.as_slice());
    }

    /// The next transaction, or none at the end of the bytes. Where the bytes
    /// that are left do not hold a whole record, reading stops for good: the
    /// iterator moves to the end and returns none.
    ///
    /// No store learns of what is read here: transactions that were drained
    /// from a store are read through that store, which counts them off
    /// their senders.
    pub fn next(&mut self) -> (tx: Option<Transaction>)
        ensures
            final(self)@ == old(self)@.advanced(),
            match tx {
                Some(tx) => old(self)@.upcoming() == Some(tx@),
                None => old(self)@.upcoming() is None,
            },
            final(self)@.content == old(self)@.content,
            final(self)@.drained == old(self)@.drained,
            final(self)@.read_only == old(self)@.read_only,
            old(self)@.position <= old(self)@.content.len(),
            match tx {
                Some(tx) => {
                    &&& first(old(self)@.rest()) is Some
                    &&& tx@ == first(old(self)@.rest())->0.tx
                    &&& final(self)@.position == old(self)@.position + first(
                        old(self)@.rest(),
                    )->0.used
                },
                None => {
                    &&& first(old(self)@.rest()) is None
                    &&& final(self)@.position == old(self)@.content.len()
                },
            },
    {
        let len = self.content.len();
        if self.position >= len {
            assert(self@.rest().len() == 0);
            self.position = len;
            return None;
        }
        let rest = slice_subrange(self.content.as_slice(), self.position, len);
        assert(rest@ =~= self@.rest());
        match record::decode(rest) {
            Some((tx, used)) => {
                proof {
                    record::lemma_first_frame(rest@);
                }
                self.position = self.position + used;
                Some(tx)
            },
            None => {
                self.position = len;
                None
            },
        }
    }

    /// Whether the transactions that are read leave their store.
    pub fn draining(&self) -> (draining: bool)
        ensures
            draining == !self@.read_only,
    {
        match self.mode {
            IteratorMode::Drain(_) => true,
            IteratorMode::ReadOnly => false,
        }
    }

    /// Whether every byte has been read.
    pub fn finished(&self) -> (done: bool)
        ensures
            done == (self@.position == self@.content.len()),
    {
        self.position >= self.content.len()
    }

    /// The numbers of the buckets whose files are to be retired now: those
    /// that the iterator drains, once it has been read to its end; none before
    /// that, and none for an iterator that only reads.
    pub fn retired(&self) -> (numbers: Vec<BlockNumber>)
        ensures
            numbers@ == if self@.position == self@.content.len() {
                self@.drained
            } else {
                Seq::empty()
            },
    {
        let mut out: Vec<BlockNumber> = Vec::new();
        if self.position >= self.content.len() {
            match &self.mode {
                IteratorMode::Drain(numbers) => {
                    let mut i: usize = 0;
                    while i < numbers.len()
                        invariant
                            i <= numbers@.len(),
                            out@ == numbers@.take(i as int),
                        decreases numbers@.len() - i,
                    {
                        out.push(numbers[i]);
                        i += 1;
                        assert(out@ =~= numbers@.take(i as int));
                    }
                    assert(numbers@.take(numbers@.len() as int) =~= numbers@);
                },
                IteratorMode::ReadOnly => {},
            }
        }
        out
    }
}

} // verus!
