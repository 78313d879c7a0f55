//! How many stored transactions each sender has.

use crate::types::Address;
use vstd::prelude::*;

verus! {

/// One sender and the number of its stored transactions.
#[derive(Debug)]
pub struct Entry {
    pub sender: Address,
    pub count: usize,
}

/// The number that `entries` holds for `sender`: the sum over its entries.
pub open spec fn count_of(entries: Seq<Entry>, sender: Seq<u8>) -> nat
    decreases entries.len(),
{
    if entries.len() == 0 {
        0
    } else {
        count_of(entries.drop_last(), sender) + if entries.last().sender@ == sender {
            entries.last().count as nat
        } else {
            0
        }
    }
}

/// The sum of all numbers that `entries` holds.
pub open spec fn total_of(entries: Seq<Entry>) -> nat
    decreases entries.len(),
{
    if entries.len() == 0 {
        0
    } else {
        total_of(entries.drop_last()) + entries.last().count as nat
    }
}

/// No sender stands twice in `entries`.
pub open spec fn distinct(entries: Seq<Entry>) -> bool {
    forall|i: int, j: int|
        0 <= i < j < entries.len() ==> (#[trigger] entries[i]).sender@ != (
        #[trigger] entries[j]).sender@
}

/// No entry of `entries` is for `sender`.
pub open spec fn absent(entries: Seq<Entry>, sender: Seq<u8>) -> bool {
    forall|i: int| 0 <= i < entries.len() ==> (#[trigger] entries[i]).sender@ != sender
}

/// The numbers of two runs of entries, one after the other.
pub proof fn lemma_concat(front: Seq<Entry>, back: Seq<Entry>, sender: Seq<u8>)
    ensures
        count_of(front + back, sender) == count_of(front, sender) + count_of(back, sender),
        total_of(front + back) == total_of(front) + total_of(back),
    decreases back.len(),
{
    if back.len() == 0 {
        assert(front + back =~= front);
    } else {
        assert((front + back).drop_last() =~= front + back.drop_last());
        lemma_concat(front, back.drop_last(), sender);
    }
}

/// Entries hold nothing for a sender that has no entry.
pub proof fn lemma_absent(entries: Seq<Entry>, sender: Seq<u8>)
    requires
        absent(entries, sender),
    ensures
        count_of(entries, sender) == 0,
    decreases entries.len(),
{
    if entries.len() > 0 {
        assert(entries.last() == entries[entries.len() - 1]);
        lemma_absent(entries.drop_last(), sender);
    }
}

/// The numbers of a single entry.
pub proof fn lemma_one(entry: Entry, sender: Seq<u8>)
    ensures
        count_of(seq![entry], sender) == if entry.sender@ == sender {
            entry.count as nat
        } else {
            0
        },
        total_of(seq![entry]) == entry.count,
{
    assert(seq![entry].drop_last() =~= Seq::<Entry>::empty());
    assert(count_of(Seq::<Entry>::empty(), sender) == 0);
    assert(total_of(Seq::<Entry>::empty()) == 0);
    assert(seq![entry].last() == entry);
}

/// Splitting `entries` around the entry at `at`.
pub proof fn lemma_split(entries: Seq<Entry>, at: int, sender: Seq<u8>)
    requires
        0 <= at < entries.len(),
    ensures
        count_of(entries, sender) == count_of(entries.take(at), sender) + count_of(
            entries.skip(at + 1),
            sender,
        ) + if entries[at].sender@ == sender {
            entries[at].count as nat
        } else {
            0
        },
        total_of(entries) == total_of(entries.take(at)) + total_of(entries.skip(at + 1))
            + entries[at].count,
{
    let front = entries.take(at);
    let back = entries.skip(at + 1);
    assert(entries =~= (front + seq![entries[at]]) + back);
    lemma_concat(front + seq![entries[at]], back, sender);
    lemma_concat(front, seq![entries[at]], sender);
    lemma_one(entries[at], sender);
}

/// Where no sender stands twice, the number for the sender of an entry is
/// that entry's.
pub proof fn lemma_found(entries: Seq<Entry>, at: int)
    requires
        distinct(entries),
        0 <= at < entries.len(),
    ensures
        count_of(entries, entries[at].sender@) == entries[at].count,
{
    let sender = entries[at].sender@;
    lemma_split(entries, at, sender);
    assert forall|i: int| 0 <= i < entries.take(at).len() implies (#[trigger] entries.take(
        at,
    )[i]).sender@ != sender by {
        assert(entries.take(at)[i] == entries[i]);
    }
    assert forall|i: int| 0 <= i < entries.skip(at + 1).len() implies (#[trigger] entries.skip(
        at + 1,
    )[i]).sender@ != sender by {
        assert(entries.skip(at + 1)[i] == entries[at + 1 + i]);
    }
    lemma_absent(entries.take(at), sender);
    lemma_absent(entries.skip(at + 1), sender);
}

/// The number for one sender is part of the sum of all numbers.
pub proof fn lemma_count_in_total(entries: Seq<Entry>, sender: Seq<u8>)
    ensures
        count_of(entries, sender) <= total_of(entries),
    decreases entries.len(),
{
    if entries.len() > 0 {
        lemma_count_in_total(entries.drop_last(), sender);
    }
}

/// The per-sender counters of a store.
#[derive(Debug)]
pub struct Senders {
    entries: Vec<Entry>,
}

impl Senders {
    /// No sender stands twice, and no entry holds zero.
    pub closed spec fn wf(&self) -> bool {
        &&& distinct(self.entries@)
        &&& forall|i: int| 0 <= i < self.entries@.len() ==> (#[trigger] self.entries@[i]).count > 0
    }

    /// The number of stored transactions of `sender`; zero for one that has none.
    pub closed spec fn count(&self, sender: Seq<u8>) -> nat {
        count_of(self.entries@, sender)
    }

    /// The number of stored transactions of all senders together.
    pub closed spec fn total(&self) -> nat {
        total_of(self.entries@)
    }

    /// The number of senders that have a stored transaction.
    pub closed spec fn spec_len(&self) -> nat {
        self.entries@.len()
    }

    /// Counters in which every sender has zero.
    pub fn new() -> (senders: Senders)
        ensures
            senders.wf(),
            senders.total() == 0,
            senders.spec_len() == 0,
            forall|sender: Seq<u8>| senders.count(sender) == 0,
    {
        Senders { entries: Vec::new() }
    }

    /// No sender is counted beyond what `usize` holds, nor beyond the counts
    /// of all senders together.
    pub proof fn lemma_bounded(&self, sender: Seq<u8>)
        requires
            self.wf(),
        ensures
            self.count(sender) <= usize::MAX,
            self.count(sender) <= self.total(),
    {
        lemma_count_in_total(self.entries@, sender);
        if !absent(self.entries@, sender) {
            let at = choose|i: int|
                0 <= i < self.entries@.len() && (#[trigger] self.entries@[i]).sender@ == sender;
            lemma_found(self.entries@, at);
        } else {
            lemma_absent(self.entries@, sender);
        }
    }

    /// Whether no sender has a stored transaction.
    pub fn is_empty(&self) -> (empty: bool)
        requires
            self.wf(),
        ensures
            empty == (self.total() == 0),
            empty == (self.spec_len() == 0),
            empty ==> forall|sender: Seq<u8>| self.count(sender) == 0,
    {
        proof {
            if self.entries@.len() > 0 {
                lemma_split(self.entries@, 0, self.entries@[0].sender@);
            } else {
                assert forall|sender: Seq<u8>| self.count(sender) == 0 by {
                    lemma_absent(self.entries@, sender);
                }
            }
        }
        self.entries.len() == 0
    }

    /// Whether every sender can be counted with what `other` counts for it
    /// on top, within `usize`.
    pub fn fits(&self, other: &Senders) -> (fits: bool)
        requires
            self.wf(),
            other.wf(),
        ensures
            fits == forall|sender: Seq<u8>| #[trigger]
                self.count(sender) + other.count(sender) <= usize::MAX,
    {
        let mut i: usize = 0;
        while i < other.entries.len()
            invariant
                i <= other.entries@.len(),
                self.wf(),
                other.wf(),
                forall|j: int|
                    0 <= j < i ==> self.count((#[trigger] other.entries@[j]).sender@)
                        + other.entries@[j].count <= usize::MAX,
            decreases other.entries@.len() - i,
        {
            let entry = &other.entries[i];
            if self.get(&entry.sender) > usize::MAX - entry.count {
                proof {
                    lemma_found(other.entries@, i as int);
                    assert(self.count(entry.sender@) + other.count(entry.sender@) > usize::MAX);
                }
                return false;
            }
            i += 1;
        }
        proof {
            assert forall|sender: Seq<u8>| #[trigger]
                self.count(sender) + other.count(sender) <= usize::MAX by {
                self.lemma_bounded(sender);
                if absent(other.entries@, sender) {
                    lemma_absent(other.entries@, sender);
                } else {
                    let at = choose|k: int|
                        0 <= k < other.entries@.len() && (#[trigger] other.entries@[k]).sender@
                            == sender;
                    lemma_found(other.entries@, at);
                }
            }
        }
        true
    }

    /// Where `sender` stands in the entries, if it does.
    fn position(&self, sender: &Address) -> (at: Option<usize>)
        ensures
            match at {
                Some(at) => at < self.entries@.len() && self.entries@[at as int].sender@
                    == sender@,
                None => absent(self.entries@, sender@),
            },
    {
        let mut i: usize = 0;
        while i < self.entries.len()
            invariant
                i <= self.entries@.len(),
                forall|j: int| 0 <= j < i ==> (#[trigger] self.entries@[j]).sender@ != sender@,
            decreases self.entries@.len() - i,
        {
            if self.entries[i].sender.is(sender) {
                return Some(i);
            }
            i += 1;
        }
        None
    }

    /// The number of senders that have a stored transaction.
    pub fn len(&self) -> (n: usize)
        ensures
            n == self.spec_len(),
    {
        self.entries.len()
    }

    /// The number of stored transactions of `sender`.
    pub fn get(&self, sender: &Address) -> (n: usize)
        requires
            self.wf(),
        ensures
            n == self.count(sender@),
    {
        match self.position(sender) {
            Some(at) => {
                proof {
                    lemma_found(self.entries@, at as int);
                }
                self.entries[at].count
            },
            None => {
                proof {
                    lemma_absent(self.entries@, sender@);
                }
                0
            },
        }
    }

    /// One more stored transaction of `sender`.
    pub fn increment(&mut self, sender: &Address)
        requires
            old(self).wf(),
            old(self).count(sender@) < usize::MAX,
        ensures
            final(self).wf(),
            final(self).count(sender@) == old(self).count(sender@) + 1,
            forall|other: Seq<u8>|
                other != sender@ ==> final(self).count(other) == old(self).count(other),
            final(self).total() == old(self).total() + 1,
    {
        let ghost before = self.entries@;
        match self.position(sender) {
            Some(at) => {
                proof {
                    lemma_found(before, at as int);
                }
                let count = self.entries[at].count;
                self.entries[at] = Entry { sender: *sender, count: count + 1 };
                proof {
                    let after = self.entries@;
                    assert(after.take(at as int) =~= before.take(at as int));
                    assert(after.skip(at + 1) =~= before.skip(at + 1));
                    assert forall|other: Seq<u8>| true implies count_of(after, other) == count_of(
                        before,
                        other,
                    ) + if other == sender@ {
                        1nat
                    } else {
                        0nat
                    } by {
                        lemma_split(before, at as int, other);
                        lemma_split(after, at as int, other);
                    }
                    lemma_split(before, at as int, sender@);
                    lemma_split(after, at as int, sender@);
                    assert forall|i: int, j: int| 0 <= i < j < after.len() implies (
                    #[trigger] after[i]).sender@ != (#[trigger] after[j]).sender@ by {
                        assert(after[i].sender@ == before[i].sender@);
                        assert(after[j].sender@ == before[j].sender@);
                    }
                    assert forall|i: int| 0 <= i < after.len() implies (#[trigger] after[i]).count
                        > 0 by {
                        if i != at {
                            assert(after[i] == before[i]);
                        }
                    }
                }
            },
            None => {
                let entry = Entry { sender: *sender, count: 1 };
                self.entries.push(entry);
                proof {
                    let after = self.entries@;
                    assert(after.drop_last() =~= before);
                    lemma_absent(before, sender@);
                    assert forall|i: int, j: int| 0 <= i < j < after.len() implies (
                    #[trigger] after[i]).sender@ != (#[trigger] after[j]).sender@ by {
                        assert(after[i] == before[i]);
                        if j < before.len() {
                            assert(after[j] == before[j]);
                        }
                    }
                    assert forall|i: int| 0 <= i < after.len() implies (#[trigger] after[i]).count
                        > 0 by {
                        if i < before.len() {
                            assert(after[i] == before[i]);
                        }
                    }
                }
            },
        }
    }

    /// One stored transaction of `sender` fewer; a sender that has none stays
    /// at zero. The entry of a sender that reaches zero is removed.
    pub fn decrement(&mut self, sender: &Address)
        requires
            old(self).wf(),
        ensures
            final(self).wf(),
            final(self).count(sender@) == if old(self).count(sender@) > 0 {
                old(self).count(sender@) - 1
            } else {
                0
            },
            forall|other: Seq<u8>|
                other != sender@ ==> final(self).count(other) == old(self).count(other),
            final(self).total() == if old(self).count(sender@) > 0 {
                old(self).total() - 1
            } else {
                old(self).total() as int
            },
            final(self).spec_len() == if old(self).count(sender@) == 1 {
                old(self).spec_len() - 1
            } else {
                old(self).spec_len() as int
            },
    {
        let ghost before = self.entries@;
        match self.position(sender) {
            Some(at) => {
                proof {
                    lemma_found(before, at as int);
                }
                let count = self.entries[at].count;
                if count > 1 {
                    self.entries[at] = Entry { sender: *sender, count: count - 1 };
                    proof {
                        let after = self.entries@;
                        assert(after.take(at as int) =~= before.take(at as int));
                        assert(after.skip(at + 1) =~= before.skip(at + 1));
                        assert forall|other: Seq<u8>| true implies count_of(after, other)
                            == count_of(before, other) - if other == sender@ {
                            1int
                        } else {
                            0int
                        } by {
                            lemma_split(before, at as int, other);
                            lemma_split(after, at as int, other);
                        }
                        lemma_split(before, at as int, sender@);
                        lemma_split(after, at as int, sender@);
                        assert forall|i: int, j: int| 0 <= i < j < after.len() implies (
                        #[trigger] after[i]).sender@ != (#[trigger] after[j]).sender@ by {
                            assert(after[i].sender@ == before[i].sender@);
                            assert(after[j].sender@ == before[j].sender@);
                        }
                        assert forall|i: int| 0 <= i < after.len() implies (
                        #[trigger] after[i]).count > 0 by {
                            if i != at {
                                assert(after[i] == before[i]);
                            }
                        }
                    }
                } else {
                    self.entries.remove(at);
                    proof {
                        let after = self.entries@;
                        assert(after =~= before.take(at as int) + before.skip(at + 1));
                        assert forall|other: Seq<u8>| true implies count_of(after, other)
                            == count_of(before, other) - if other == sender@ {
                            1int
                        } else {
                            0int
                        } by {
                            lemma_split(before, at as int, other);
                            lemma_concat(before.take(at as int), before.skip(at + 1), other);
                        }
                        lemma_split(before, at as int, sender@);
                        lemma_concat(before.take(at as int), before.skip(at + 1), sender@);
                        assert forall|i: int, j: int| 0 <= i < j < after.len() implies (
                        #[trigger] after[i]).sender@ != (#[trigger] after[j]).sender@ by {
                            let bi = if i < at { i } else { i + 1 };
                            let bj = if j < at { j } else { j + 1 };
                            assert(after[i] == before[bi]);
                            assert(after[j] == before[bj]);
                        }
                        assert forall|i: int| 0 <= i < after.len() implies (
                        #[trigger] after[i]).count > 0 by {
                            let bi = if i < at { i } else { i + 1 };
                            assert(after[i] == before[bi]);
                        }
                    }
                }
            },
            None => {
                proof {
                    lemma_absent(before, sender@);
                }
            },
        }
    }
}

} // verus!
