//! Buckets as plain values, and what holds of runs of them.
//!
//! A store keeps its buckets in ascending order of their numbers. What the
//! buckets hold together is described here: their bytes, their transactions,
//! and how many of those a sender sent.

use crate::record;
use crate::record::{frame, framable, records};
use crate::types::TransactionView;
use vstd::prelude::*;

verus! {

/// A bucket as a plain value: its number and the bytes of its file.
pub struct BucketView {
    pub number: u64,
    pub content: Seq<u8>,
}

impl BucketView {
    /// The bytes are a run of whole records.
    pub open spec fn wf(self) -> bool {
        records(self.content) is Some
    }

    /// The transactions of the bucket, in the order in which they were stored.
    pub open spec fn transactions(self) -> Seq<TransactionView> {
        records(self.content)->0
    }
}

/// The buckets stand in strictly ascending order of their numbers.
pub open spec fn ascending(blocks: Seq<BucketView>) -> bool {
    forall|i: int, j: int|
        0 <= i < j < blocks.len() ==> (#[trigger] blocks[i]).number < (#[trigger] blocks[j]).number
}

/// Every bucket holds a run of whole records.
pub open spec fn all_wf(blocks: Seq<BucketView>) -> bool {
    forall|i: int| 0 <= i < blocks.len() ==> (#[trigger] blocks[i]).wf()
}

/// The bytes of the buckets, one bucket after the other.
pub open spec fn contents(blocks: Seq<BucketView>) -> Seq<u8>
    decreases blocks.len(),
{
    if blocks.len() == 0 {
        Seq::empty()
    } else {
        contents(blocks.drop_last()) + blocks.last().content
    }
}

/// The numbers of the buckets, in their order.
pub open spec fn numbers(blocks: Seq<BucketView>) -> Seq<u64> {
    Seq::new(blocks.len(), |i: int| blocks[i].number)
}

/// The transactions of the buckets, bucket by bucket, each in stored order.
pub open spec fn transactions(blocks: Seq<BucketView>) -> Seq<TransactionView>
    decreases blocks.len(),
{
    if blocks.len() == 0 {
        Seq::empty()
    } else {
        transactions(blocks.drop_last()) + blocks.last().transactions()
    }
}

/// How many of `txs` were sent by `sender`.
pub open spec fn sent_by(txs: Seq<TransactionView>, sender: Seq<u8>) -> nat
    decreases txs.len(),
{
    if txs.len() == 0 {
        0
    } else {
        sent_by(txs.drop_last(), sender) + if txs.last().sender == sender {
            1nat
        } else {
            0nat
        }
    }
}

/// What a sender sent of two runs of transactions, one after the other.
pub proof fn lemma_sent_by_concat(
    front: Seq<TransactionView>,
    back: Seq<TransactionView>,
    sender: Seq<u8>,
)
    ensures
        sent_by(front + back, sender) == sent_by(front, sender) + sent_by(back, sender),
    decreases back.len(),
{
    if back.len() == 0 {
        assert(front + back =~= front);
    } else {
        assert((front + back).drop_last() =~= front + back.drop_last());
        lemma_sent_by_concat(front, back.drop_last(), sender);
    }
}

/// What a sender sent of a single transaction.
pub proof fn lemma_sent_by_one(tx: TransactionView, sender: Seq<u8>)
    ensures
        sent_by(seq![tx], sender) == if tx.sender == sender {
            1nat
        } else {
            0nat
        },
{
    assert(seq![tx].drop_last() =~= Seq::<TransactionView>::empty());
    assert(sent_by(Seq::<TransactionView>::empty(), sender) == 0);
    assert(seq![tx].last() == tx);
}

/// A sender sent no more transactions than there are.
pub proof fn lemma_sent_by_bound(txs: Seq<TransactionView>, sender: Seq<u8>)
    ensures
        sent_by(txs, sender) <= txs.len(),
    decreases txs.len(),
{
    if txs.len() > 0 {
        lemma_sent_by_bound(txs.drop_last(), sender);
    }
}

/// The transactions and the bytes of two runs of buckets, one after the
/// other.
pub proof fn lemma_concat(front: Seq<BucketView>, back: Seq<BucketView>)
    ensures
        transactions(front + back) == transactions(front) + transactions(back),
        contents(front + back) == contents(front) + contents(back),
    decreases back.len(),
{
    if back.len() == 0 {
        assert(front + back =~= front);
        assert(transactions(front) + transactions(back) =~= transactions(front));
        assert(contents(front) + contents(back) =~= contents(front));
    } else {
        assert((front + back).drop_last() =~= front + back.drop_last());
        assert((front + back).last() == back.last());
        lemma_concat(front, back.drop_last());
        assert((transactions(front) + transactions(back.drop_last()))
            + back.last().transactions() =~= transactions(front) + (transactions(
            back.drop_last(),
        ) + back.last().transactions()));
        assert((contents(front) + contents(back.drop_last())) + back.last().content
            =~= contents(front) + (contents(back.drop_last()) + back.last().content));
    }
}

/// The transactions and the bytes of a single bucket.
pub proof fn lemma_one(bucket: BucketView)
    ensures
        transactions(seq![bucket]) == bucket.transactions(),
        contents(seq![bucket]) == bucket.content,
{
    assert(seq![bucket].drop_last() =~= Seq::<BucketView>::empty());
    assert(transactions(Seq::<BucketView>::empty()) =~= Seq::<TransactionView>::empty());
    assert(contents(Seq::<BucketView>::empty()) =~= Seq::<u8>::empty());
    assert(seq![bucket].last() == bucket);
    assert(Seq::<TransactionView>::empty() + bucket.transactions() =~= bucket.transactions());
    assert(Seq::<u8>::empty() + bucket.content =~= bucket.content);
}

/// The transactions of the buckets around the bucket at `at`.
pub proof fn lemma_split(blocks: Seq<BucketView>, at: int)
    requires
        0 <= at < blocks.len(),
    ensures
        transactions(blocks) == transactions(blocks.take(at)) + blocks[at].transactions()
            + transactions(blocks.skip(at + 1)),
{
    let front = blocks.take(at);
    let back = blocks.skip(at + 1);
    assert(blocks =~= (front + seq![blocks[at]]) + back);
    lemma_concat(front + seq![blocks[at]], back);
    lemma_concat(front, seq![blocks[at]]);
    lemma_one(blocks[at]);
}

/// The bytes of well-formed buckets, put together, are a run of records:
/// the transactions of the buckets.
pub proof fn lemma_contents_records(blocks: Seq<BucketView>)
    requires
        all_wf(blocks),
    ensures
        records(contents(blocks)) == Some(transactions(blocks)),
    decreases blocks.len(),
{
    if blocks.len() > 0 {
        assert(blocks.last() == blocks[blocks.len() - 1]);
        assert forall|i: int| 0 <= i < blocks.drop_last().len() implies (
        #[trigger] blocks.drop_last()[i]).wf() by {
            assert(blocks.drop_last()[i] == blocks[i]);
        }
        lemma_contents_records(blocks.drop_last());
        record::lemma_records_concat(contents(blocks.drop_last()), blocks.last().content);
    }
}

/// Counting one more of `txs` for each sender.
pub proof fn lemma_take_next(txs: Seq<TransactionView>, seen: int)
    requires
        0 <= seen < txs.len(),
    ensures
        forall|sender: Seq<u8>|
            sent_by(txs.take(seen + 1), sender) == sent_by(txs.take(seen), sender) + if txs[seen].sender
                == sender {
                1nat
            } else {
                0nat
            },
{
    assert(txs.take(seen + 1).drop_last() =~= txs.take(seen));
    assert(txs.take(seen + 1).last() == txs[seen]);
}

/// How many of the buckets have a number below `bound`.
pub open spec fn below(blocks: Seq<BucketView>, bound: int) -> nat
    decreases blocks.len(),
{
    if blocks.len() == 0 {
        0
    } else {
        below(blocks.drop_last(), bound) + if blocks.last().number < bound {
            1nat
        } else {
            0nat
        }
    }
}

/// In buckets that stand in ascending order, those below a bound are the
/// first ones: `split` of them, where the bucket at `split` is the first that
/// is not below.
pub proof fn lemma_below(blocks: Seq<BucketView>, bound: int, split: int)
    requires
        0 <= split <= blocks.len(),
        forall|i: int| 0 <= i < split ==> (#[trigger] blocks[i]).number < bound,
        forall|i: int| split <= i < blocks.len() ==> (#[trigger] blocks[i]).number >= bound,
    ensures
        below(blocks, bound) == split,
    decreases blocks.len(),
{
    if blocks.len() > 0 {
        let front = blocks.drop_last();
        assert(blocks.last() == blocks[blocks.len() - 1]);
        assert forall|i: int| 0 <= i < front.len() implies (#[trigger] front[i]) == blocks[i] by {}
        if split == blocks.len() {
            lemma_below(front, bound, split - 1);
        } else {
            assert forall|i: int| split <= i < front.len() implies (#[trigger] front[i]).number
                >= bound by {
                assert(front[i] == blocks[i]);
            }
            assert forall|i: int| 0 <= i < split implies (#[trigger] front[i]).number < bound by {
                assert(front[i] == blocks[i]);
            }
            lemma_below(front, bound, split);
        }
    }
}

/// What [`lemma_below`] says, the other way round: where the buckets stand
/// in ascending order, those before the split are below the bound and the
/// others are not.
pub proof fn lemma_below_split(blocks: Seq<BucketView>, bound: int)
    requires
        ascending(blocks),
    ensures
        below(blocks, bound) <= blocks.len(),
        forall|i: int| 0 <= i < below(blocks, bound) ==> (#[trigger] blocks[i]).number < bound,
        forall|i: int|
            below(blocks, bound) <= i < blocks.len() ==> (#[trigger] blocks[i]).number >= bound,
    decreases blocks.len(),
{
    if blocks.len() > 0 {
        let front = blocks.drop_last();
        let last = blocks.last();
        assert(last == blocks[blocks.len() - 1]);
        assert forall|i: int, j: int| 0 <= i < j < front.len() implies (#[trigger] front[i]).number
            < (#[trigger] front[j]).number by {
            assert(front[i] == blocks[i]);
            assert(front[j] == blocks[j]);
        }
        lemma_below_split(front, bound);
        let split = below(front, bound);
        assert forall|i: int| 0 <= i < front.len() implies (#[trigger] front[i]) == blocks[i] by {}
        if last.number < bound {
            // every bucket before the last one is below the last one
            assert forall|i: int| 0 <= i < front.len() implies (#[trigger] blocks[i]).number
                < bound by {
                assert(blocks[i].number < blocks[blocks.len() - 1].number);
            }
            if split < front.len() {
                assert(front[split as int].number >= bound);
                assert(blocks[split as int].number < bound);
            }
        } else {
            assert forall|i: int| 0 <= i < split implies (#[trigger] blocks[i]).number < bound by {
                assert(front[i].number < bound);
            }
            assert forall|i: int| split <= i < blocks.len() implies (#[trigger] blocks[i]).number
                >= bound by {
                if i < front.len() {
                    assert(front[i].number >= bound);
                }
            }
        }
    }
}

/// One transaction more among others: its sender has one more, every other
/// sender as many as before.
pub proof fn lemma_sent_by_insert(
    front: Seq<TransactionView>,
    tx: TransactionView,
    back: Seq<TransactionView>,
    sender: Seq<u8>,
)
    ensures
        sent_by(front + seq![tx] + back, sender) == sent_by(front + back, sender) + if tx.sender
            == sender {
            1nat
        } else {
            0nat
        },
{
    lemma_sent_by_concat(front + seq![tx], back, sender);
    lemma_sent_by_concat(front, seq![tx], sender);
    lemma_sent_by_concat(front, back, sender);
    lemma_sent_by_one(tx, sender);
}

/// The buckets after a transaction has been stored under `number`; see
/// [`DatabaseView::inserted`].
pub open spec fn with_record(blocks: Seq<BucketView>, number: u64, tx: TransactionView) -> Seq<
    BucketView,
> {
    let at = below(blocks, number as int) as int;
    if at < blocks.len() && blocks[at].number == number {
        blocks.update(at, BucketView { number, content: blocks[at].content + frame(tx) })
    } else {
        blocks.insert(at, BucketView { number, content: frame(tx) })
    }
}

/// Storing a transaction keeps the buckets in order and well formed, and
/// adds that one transaction to those that the buckets hold.
pub proof fn lemma_inserted(blocks: Seq<BucketView>, number: u64, tx: TransactionView)
    requires
        ascending(blocks),
        all_wf(blocks),
        framable(tx),
    ensures
        ascending(with_record(blocks, number, tx)),
        all_wf(with_record(blocks, number, tx)),
        below(with_record(blocks, number, tx), number as int) == below(blocks, number as int),
        below(blocks, number as int) < with_record(blocks, number, tx).len(),
        with_record(blocks, number, tx)[below(blocks, number as int) as int].number == number,
        transactions(with_record(blocks, number, tx)).len() == transactions(blocks).len() + 1,
        forall|sender: Seq<u8>|
            sent_by(transactions(with_record(blocks, number, tx)), sender) == sent_by(
                transactions(blocks),
                sender,
            ) + if tx.sender == sender {
                1nat
            } else {
                0nat
            },
{
    lemma_below_split(blocks, number as int);
    let at = below(blocks, number as int) as int;
    if at < blocks.len() && blocks[at].number == number {
        lemma_inserted_behind(blocks, at, tx);
    } else {
        lemma_inserted_between(blocks, at, number, tx);
    }
}

proof fn lemma_inserted_behind(blocks: Seq<BucketView>, at: int, tx: TransactionView)
    requires
        ascending(blocks),
        all_wf(blocks),
        framable(tx),
        0 <= at < blocks.len(),
        at == below(blocks, blocks[at].number as int),
    ensures
        ({
            let number = blocks[at].number;
            let after = blocks.update(
                at,
                BucketView { number, content: blocks[at].content + frame(tx) },
            );
            &&& ascending(after)
            &&& all_wf(after)
            &&& below(after, number as int) == at
            &&& transactions(after).len() == transactions(blocks).len() + 1
            &&& forall|sender: Seq<u8>|
                sent_by(transactions(after), sender) == sent_by(transactions(blocks), sender)
                    + if tx.sender == sender {
                    1nat
                } else {
                    0nat
                }
        }),
{
    let number = blocks[at].number;
    let after = blocks.update(at, BucketView { number, content: blocks[at].content + frame(tx) });
    let front = blocks.take(at);
    let back = blocks.skip(at + 1);
    let stored = blocks[at].transactions();
    assert(after.take(at) =~= front);
    assert(after.skip(at + 1) =~= back);
    lemma_split(blocks, at);
    lemma_split(after, at);
    record::lemma_records_frame(tx);
    record::lemma_records_concat(blocks[at].content, frame(tx));
    assert(after[at].transactions() == stored + seq![tx]);
    assert(transactions(after) =~= (transactions(front) + stored) + seq![tx] + transactions(back));
    assert(transactions(blocks) =~= (transactions(front) + stored) + transactions(back));
    assert forall|sender: Seq<u8>|
        sent_by(transactions(after), sender) == sent_by(transactions(blocks), sender)
            + if tx.sender == sender {
            1nat
        } else {
            0nat
        } by {
        lemma_sent_by_insert(transactions(front) + stored, tx, transactions(back), sender);
    }
    assert forall|i: int| 0 <= i < after.len() implies (#[trigger] after[i]).wf() by {
        if i != at {
            assert(after[i] == blocks[i]);
        }
    }
    assert forall|i: int, j: int| 0 <= i < j < after.len() implies (#[trigger] after[i]).number < (
    #[trigger] after[j]).number by {
        assert(after[i].number == blocks[i].number);
        assert(after[j].number == blocks[j].number);
    }
    lemma_below_split(blocks, number as int);
    assert forall|i: int| 0 <= i < at implies (#[trigger] after[i]).number < number by {
        assert(after[i] == blocks[i]);
    }
    assert forall|i: int| at <= i < after.len() implies (#[trigger] after[i]).number >= number by {
        assert(after[i].number == blocks[i].number);
    }
    lemma_below(after, number as int, at);
}

proof fn lemma_inserted_between(
    blocks: Seq<BucketView>,
    at: int,
    number: u64,
    tx: TransactionView,
)
    requires
        ascending(blocks),
        all_wf(blocks),
        framable(tx),
        at == below(blocks, number as int),
        !(at < blocks.len() && blocks[at].number == number),
    ensures
        ({
            let after = blocks.insert(at, BucketView { number, content: frame(tx) });
            &&& ascending(after)
            &&& all_wf(after)
            &&& below(after, number as int) == at
            &&& transactions(after).len() == transactions(blocks).len() + 1
            &&& forall|sender: Seq<u8>|
                sent_by(transactions(after), sender) == sent_by(transactions(blocks), sender)
                    + if tx.sender == sender {
                    1nat
                } else {
                    0nat
                }
        }),
{
    let bucket = BucketView { number, content: frame(tx) };
    record::lemma_records_frame(tx);
    lemma_bucket_added(blocks, bucket);
    assert forall|sender: Seq<u8>|
        sent_by(bucket.transactions(), sender) == if tx.sender == sender {
            1nat
        } else {
            0nat
        } by {
        lemma_sent_by_one(tx, sender);
    }
}

/// The transactions before and from a place, counted apart.
pub proof fn lemma_sent_by_split(txs: Seq<TransactionView>, at: int, sender: Seq<u8>)
    requires
        0 <= at <= txs.len(),
    ensures
        sent_by(txs, sender) == sent_by(txs.take(at), sender) + sent_by(txs.skip(at), sender),
        at < txs.len() && txs[at].sender == sender ==> sent_by(txs.skip(at), sender) >= 1,
{
    assert(txs =~= txs.take(at) + txs.skip(at));
    lemma_sent_by_concat(txs.take(at), txs.skip(at), sender);
    if at < txs.len() {
        let tail = txs.skip(at);
        assert(tail =~= seq![txs[at]] + tail.skip(1));
        lemma_sent_by_concat(seq![txs[at]], tail.skip(1), sender);
        lemma_sent_by_one(txs[at], sender);
    }
}

/// Where the first of `txs` with the hash `hash` stands; the number of
/// `txs` where none has it.
pub open spec fn first_with(txs: Seq<TransactionView>, hash: Seq<u8>) -> int
    decreases txs.len(),
{
    if txs.len() == 0 {
        0
    } else if txs[0].hash == hash {
        0
    } else {
        1 + first_with(txs.skip(1), hash)
    }
}

/// The place before which no transaction has the hash, and at which one has
/// it or the transactions end, is the place of the first with that hash.
pub proof fn lemma_first_with(txs: Seq<TransactionView>, hash: Seq<u8>, at: int)
    requires
        0 <= at <= txs.len(),
        forall|j: int| 0 <= j < at ==> (#[trigger] txs[j]).hash != hash,
        at < txs.len() ==> txs[at].hash == hash,
    ensures
        first_with(txs, hash) == at,
    decreases txs.len(),
{
    if txs.len() > 0 && at > 0 {
        assert(txs[0].hash != hash);
        assert forall|j: int| 0 <= j < at - 1 implies (#[trigger] txs.skip(1)[j]).hash != hash by {
            assert(txs.skip(1)[j] == txs[j + 1]);
        }
        lemma_first_with(txs.skip(1), hash, at - 1);
    }
}

/// The buckets after the transaction at `at` has left the bucket of
/// `number`, whose file then holds `content`: the bucket leaves with its
/// last transaction.
pub open spec fn without_record(blocks: Seq<BucketView>, number: u64, content: Seq<u8>) -> Seq<
    BucketView,
> {
    let place = below(blocks, number as int) as int;
    if content.len() == 0 {
        blocks.remove(place)
    } else {
        blocks.update(place, BucketView { number, content })
    }
}

/// Taking one transaction out of a bucket keeps the buckets in order and
/// well formed, and takes that one transaction from those that they hold.
pub proof fn lemma_removed(blocks: Seq<BucketView>, place: int, at: int, content: Seq<u8>)
    requires
        ascending(blocks),
        all_wf(blocks),
        0 <= place < blocks.len(),
        0 <= at < blocks[place].transactions().len(),
        records(content) == Some(blocks[place].transactions().remove(at)),
    ensures
        place == below(blocks, blocks[place].number as int),
        ascending(without_record(blocks, blocks[place].number, content)),
        all_wf(without_record(blocks, blocks[place].number, content)),
        transactions(without_record(blocks, blocks[place].number, content)).len()
            == transactions(blocks).len() - 1,
        forall|sender: Seq<u8>|
            sent_by(transactions(without_record(blocks, blocks[place].number, content)), sender)
                == sent_by(transactions(blocks), sender) - if blocks[place].transactions()[at].sender
                == sender {
                1int
            } else {
                0int
            },
        content.len() == 0 <==> blocks[place].transactions().len() == 1,
{
    let number = blocks[place].number;
    let stored = blocks[place].transactions();
    let tx = stored[at];
    let front = blocks.take(place);
    let back = blocks.skip(place + 1);
    assert forall|i: int| 0 <= i < place implies (#[trigger] blocks[i]).number < number by {}
    assert forall|i: int| place <= i < blocks.len() implies (#[trigger] blocks[i]).number
        >= number by {
        if i > place {
            assert(blocks[place].number < blocks[i].number);
        }
    }
    lemma_below(blocks, number as int, place);
    lemma_split(blocks, place);
    if content.len() > 0 {
        assert(records(content)->0.len() > 0);
    } else {
        assert(records(content)->0.len() == 0);
    }
    let left = stored.take(at);
    let right = stored.skip(at + 1);
    assert(stored =~= left + seq![tx] + right);
    assert(stored.remove(at) =~= left + right);
    let after = without_record(blocks, number, content);
    if content.len() == 0 {
        assert(after =~= front + back);
        lemma_concat(front, back);
        assert(left + right =~= Seq::<TransactionView>::empty());
        assert(transactions(after) =~= (transactions(front) + left) + (right + transactions(
            back,
        )));
        lemma_drained(blocks, place);
        lemma_drained(blocks, place + 1);
        assert forall|i: int, j: int| 0 <= i < j < after.len() implies (#[trigger] after[i]).number
            < (#[trigger] after[j]).number by {
            let bi = if i < place { i } else { i + 1 };
            let bj = if j < place { j } else { j + 1 };
            assert(after[i] == blocks[bi]);
            assert(after[j] == blocks[bj]);
        }
        assert forall|i: int| 0 <= i < after.len() implies (#[trigger] after[i]).wf() by {
            let bi = if i < place { i } else { i + 1 };
            assert(after[i] == blocks[bi]);
        }
    } else {
        assert(after.take(place) =~= front);
        assert(after.skip(place + 1) =~= back);
        lemma_split(after, place);
        assert(after[place].transactions() == left + right);
        assert(transactions(after) =~= (transactions(front) + left) + (right + transactions(
            back,
        )));
        assert forall|i: int, j: int| 0 <= i < j < after.len() implies (#[trigger] after[i]).number
            < (#[trigger] after[j]).number by {
            assert(after[i].number == blocks[i].number);
            assert(after[j].number == blocks[j].number);
        }
        assert forall|i: int| 0 <= i < after.len() implies (#[trigger] after[i]).wf() by {
            if i != place {
                assert(after[i] == blocks[i]);
            }
        }
    }
    assert(transactions(blocks) =~= (transactions(front) + left) + seq![tx] + (right
        + transactions(back)));
    assert forall|sender: Seq<u8>|
        sent_by(transactions(after), sender) == sent_by(transactions(blocks), sender) - if tx.sender
            == sender {
            1int
        } else {
            0int
        } by {
        lemma_sent_by_insert(
            transactions(front) + left,
            tx,
            right + transactions(back),
            sender,
        );
    }
}

/// Whether there is a bucket of `number` among `blocks`.
pub open spec fn holds(blocks: Seq<BucketView>, number: u64) -> bool {
    below(blocks, number as int) < blocks.len() && blocks[below(blocks, number as int) as int].number
        == number
}

/// A bucket more, at its place among the others: the buckets stay in order
/// and well formed, and hold its transactions beside those they held.
pub proof fn lemma_bucket_added(blocks: Seq<BucketView>, bucket: BucketView)
    requires
        ascending(blocks),
        all_wf(blocks),
        bucket.wf(),
        !holds(blocks, bucket.number),
    ensures
        ({
            let at = below(blocks, bucket.number as int) as int;
            let after = blocks.insert(at, bucket);
            &&& at <= blocks.len()
            &&& ascending(after)
            &&& all_wf(after)
            &&& below(after, bucket.number as int) == at
            &&& transactions(after).len() == transactions(blocks).len()
                + bucket.transactions().len()
            &&& forall|sender: Seq<u8>|
                sent_by(transactions(after), sender) == sent_by(transactions(blocks), sender)
                    + sent_by(bucket.transactions(), sender)
        }),
{
    let number = bucket.number;
    lemma_below_split(blocks, number as int);
    let at = below(blocks, number as int) as int;
    let after = blocks.insert(at, bucket);
    let front = blocks.take(at);
    let back = blocks.skip(at);
    assert(after.take(at) =~= front);
    assert(after.skip(at + 1) =~= back);
    assert(blocks =~= front + back);
    lemma_concat(front, back);
    lemma_split(after, at);
    assert(transactions(after) =~= transactions(front) + bucket.transactions() + transactions(
        back,
    ));
    assert forall|sender: Seq<u8>|
        sent_by(transactions(after), sender) == sent_by(transactions(blocks), sender) + sent_by(
            bucket.transactions(),
            sender,
        ) by {
        lemma_sent_by_concat(transactions(front) + bucket.transactions(), transactions(back), sender);
        lemma_sent_by_concat(transactions(front), bucket.transactions(), sender);
        lemma_sent_by_concat(transactions(front), transactions(back), sender);
    }
    assert forall|i: int| 0 <= i < after.len() implies (#[trigger] after[i]).wf() by {
        if i < at {
            assert(after[i] == blocks[i]);
        } else if i > at {
            assert(after[i] == blocks[i - 1]);
        }
    }
    assert forall|i: int| 0 <= i < at implies (#[trigger] after[i]).number < number by {
        assert(after[i] == blocks[i]);
    }
    assert forall|i: int| at < i < after.len() implies (#[trigger] after[i]).number > number by {
        assert(after[i] == blocks[i - 1]);
        assert(blocks[i - 1].number >= number);
        if i - 1 > at {
            assert(blocks[at].number < blocks[i - 1].number);
        }
    }
    assert forall|i: int, j: int| 0 <= i < j < after.len() implies (#[trigger] after[i]).number < (
    #[trigger] after[j]).number by {
        if i < at && j > at {
            assert(after[i].number < number);
            assert(after[j].number > number);
        } else if i < at && j < at {
            assert(after[i] == blocks[i]);
            assert(after[j] == blocks[j]);
        } else if i > at {
            assert(after[i] == blocks[i - 1]);
            assert(after[j] == blocks[j - 1]);
        } else if i == at {
            assert(after[j].number > number);
        } else {
            assert(after[i].number < number);
        }
    }
    assert forall|i: int| at <= i < after.len() implies (#[trigger] after[i]).number >= number by {
        if i > at {
            assert(after[i].number > number);
        }
    }
    lemma_below(after, number as int, at);
}

/// Every bucket of `part` is a bucket of `whole`.
#[verifier::opaque]
pub open spec fn within(part: Seq<BucketView>, whole: Seq<BucketView>) -> bool {
    forall|i: int| 0 <= i < part.len() ==> whole.contains(#[trigger] part[i])
}

/// Where the bucket at `at` of `part` stands in `whole`.
pub proof fn lemma_within_at(part: Seq<BucketView>, whole: Seq<BucketView>, at: int) -> (found:
    int)
    requires
        within(part, whole),
        0 <= at < part.len(),
    ensures
        0 <= found < whole.len(),
        whole[found] == part[at],
{
    reveal(within);
    assert(whole.contains(part[at]));
    choose|j: int| 0 <= j < whole.len() && whole[j] == part[at]
}

/// Every bucket of `part` is a bucket of `whole`, said bucket by bucket.
pub proof fn lemma_within(part: Seq<BucketView>, whole: Seq<BucketView>)
    requires
        forall|i: int| 0 <= i < part.len() ==> whole.contains(#[trigger] part[i]),
    ensures
        within(part, whole),
{
    reveal(within);
}

/// The part of a run of buckets before its last bucket stands in order, too.
proof fn lemma_front(blocks: Seq<BucketView>)
    requires
        ascending(blocks),
        blocks.len() > 0,
    ensures
        ascending(blocks.drop_last()),
        forall|i: int|
            0 <= i < blocks.len() - 1 ==> (#[trigger] blocks[i]).number < blocks.last().number,
{
    let front = blocks.drop_last();
    assert forall|i: int, j: int| 0 <= i < j < front.len() implies (#[trigger] front[i]).number < (
    #[trigger] front[j]).number by {
        assert(front[i] == blocks[i]);
        assert(front[j] == blocks[j]);
    }
    assert forall|i: int| 0 <= i < blocks.len() - 1 implies (#[trigger] blocks[i]).number
        < blocks.last().number by {
        assert(blocks[i].number < blocks[blocks.len() - 1].number);
    }
}

/// Buckets of `whole` that all have a lower number than its last bucket are
/// buckets of what stands before that one.
proof fn lemma_within_front(part: Seq<BucketView>, whole: Seq<BucketView>)
    requires
        within(part, whole),
        whole.len() > 0,
        forall|i: int| 0 <= i < part.len() ==> (#[trigger] part[i]).number < whole.last().number,
    ensures
        within(part, whole.drop_last()),
{
    let front = whole.drop_last();
    assert forall|i: int| 0 <= i < part.len() implies front.contains(#[trigger] part[i]) by {
        let at = lemma_within_at(part, whole, i);
        assert(whole.last() == whole[whole.len() - 1]);
        assert(front[at] == whole[at]);
    }
    lemma_within(part, front);
}

/// Buckets in ascending order that are all among others in ascending order
/// hold no more transactions of a sender than those.
pub proof fn lemma_within_fewer(part: Seq<BucketView>, whole: Seq<BucketView>, sender: Seq<u8>)
    requires
        ascending(part),
        ascending(whole),
        within(part, whole),
    ensures
        sent_by(transactions(part), sender) <= sent_by(transactions(whole), sender),
    decreases whole.len(),
{
    if part.len() == 0 {
    } else if whole.len() == 0 {
        let found = lemma_within_at(part, whole, 0);
    } else {
        let last = part.len() - 1;
        let end = whole.len() - 1;
        lemma_front(whole);
        lemma_front(part);
        let found = lemma_within_at(part, whole, last);
        assert(part.last() == part[last]);
        assert(whole.last() == whole[end]);
        lemma_sent_by_concat(
            transactions(whole.drop_last()),
            whole.last().transactions(),
            sender,
        );
        if found == end {
            let rest = part.drop_last();
            assert forall|i: int| 0 <= i < rest.len() implies whole.contains(
                #[trigger] rest[i],
            ) by {
                let at = lemma_within_at(part, whole, i);
                assert(rest[i] == part[i]);
            }
            lemma_within(rest, whole);
            assert forall|i: int| 0 <= i < rest.len() implies (#[trigger] rest[i]).number
                < whole.last().number by {
                assert(rest[i] == part[i]);
            }
            lemma_within_front(rest, whole);
            lemma_within_fewer(rest, whole.drop_last(), sender);
            lemma_sent_by_concat(transactions(rest), part.last().transactions(), sender);
        } else {
            assert forall|i: int| 0 <= i < part.len() implies (#[trigger] part[i]).number
                < whole.last().number by {
                assert(whole[found].number < whole[end].number);
            }
            lemma_within_front(part, whole);
            lemma_within_fewer(part, whole.drop_last(), sender);
        }
    }
}

/// Buckets in ascending order are told by which buckets they are: two such
/// runs with the same buckets are the same run.
pub proof fn lemma_same_buckets(left: Seq<BucketView>, right: Seq<BucketView>)
    requires
        ascending(left),
        ascending(right),
        within(left, right),
        within(right, left),
    ensures
        left == right,
    decreases right.len(),
{
    if right.len() == 0 {
        if left.len() > 0 {
            let found = lemma_within_at(left, right, 0);
        }
        assert(left =~= right);
    } else if left.len() == 0 {
        let found = lemma_within_at(right, left, 0);
    } else {
        let l = left.len() - 1;
        let r = right.len() - 1;
        lemma_front(left);
        lemma_front(right);
        assert(left.last() == left[l]);
        assert(right.last() == right[r]);
        let lr = lemma_within_at(right, left, r);
        let rl = lemma_within_at(left, right, l);
        assert(left[l] == right[r]);
        let lf = left.drop_last();
        let rf = right.drop_last();
        assert forall|i: int| 0 <= i < lf.len() implies right.contains(#[trigger] lf[i]) by {
            let at = lemma_within_at(left, right, i);
            assert(lf[i] == left[i]);
        }
        lemma_within(lf, right);
        assert forall|i: int| 0 <= i < lf.len() implies (#[trigger] lf[i]).number
            < right.last().number by {
            assert(lf[i] == left[i]);
        }
        lemma_within_front(lf, right);
        assert forall|i: int| 0 <= i < rf.len() implies left.contains(#[trigger] rf[i]) by {
            let at = lemma_within_at(right, left, i);
            assert(rf[i] == right[i]);
        }
        lemma_within(rf, left);
        assert forall|i: int| 0 <= i < rf.len() implies (#[trigger] rf[i]).number
            < left.last().number by {
            assert(rf[i] == right[i]);
        }
        lemma_within_front(rf, left);
        lemma_same_buckets(lf, rf);
        assert(left =~= lf.push(left[l]));
        assert(right =~= rf.push(right[r]));
    }
}

/// The buckets before a place and those from it on: both parts stand in
/// order and are well formed where the whole is, and the transactions of the
/// whole are those of the first part, then those of the second.
pub proof fn lemma_drained(blocks: Seq<BucketView>, at: int)
    requires
        ascending(blocks),
        all_wf(blocks),
        0 <= at <= blocks.len(),
    ensures
        ascending(blocks.take(at)),
        all_wf(blocks.take(at)),
        ascending(blocks.skip(at)),
        all_wf(blocks.skip(at)),
        transactions(blocks) == transactions(blocks.take(at)) + transactions(blocks.skip(at)),
        contents(blocks) == contents(blocks.take(at)) + contents(blocks.skip(at)),
{
    let front = blocks.take(at);
    let back = blocks.skip(at);
    assert(blocks =~= front + back);
    lemma_concat(front, back);
    assert forall|i: int, j: int| 0 <= i < j < front.len() implies (#[trigger] front[i]).number < (
    #[trigger] front[j]).number by {
        assert(front[i] == blocks[i]);
        assert(front[j] == blocks[j]);
    }
    assert forall|i: int, j: int| 0 <= i < j < back.len() implies (#[trigger] back[i]).number < (
    #[trigger] back[j]).number by {
        assert(back[i] == blocks[i + at]);
        assert(back[j] == blocks[j + at]);
    }
    assert forall|i: int| 0 <= i < front.len() implies (#[trigger] front[i]).wf() by {
        assert(front[i] == blocks[i]);
    }
    assert forall|i: int| 0 <= i < back.len() implies (#[trigger] back[i]).wf() by {
        assert(back[i] == blocks[i + at]);
    }
}

} // verus!
