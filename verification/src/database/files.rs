//! The files of a store's directory: how they are named, which of them a
//! store takes in when it is opened, and that a store comes back from its
//! own files as it was.

use super::buckets::{
    all_wf, ascending, below, holds, lemma_bucket_added, lemma_same_buckets, lemma_within,
    lemma_within_at, lemma_within_fewer, sent_by, transactions, within, BucketView,
};
use crate::record::records;
use crate::text::{decimal, decimal_text, digits_of, is_digit, lemma_decimal_grows, lemma_digits_of};
use crate::types::BlockNumber;
use vstd::prelude::*;

verus! {

/// The digits of a bucket file's name: what stands before `.txs`, without a
/// leading `+`.
pub open spec fn name_digits(name: Seq<char>) -> Seq<char> {
    let stem = name.take(name.len() - 4);
    if stem.len() > 0 && stem[0] == '+' {
        stem.skip(1)
    } else {
        stem
    }
}

/// The number of the bucket that a file of this name holds: the name is a
/// number that `u64` can hold, written in decimal digits with or without a
/// `+` before them, and `.txs` behind it. None for any other name.
pub open spec fn bucket_number(name: Seq<char>) -> Option<u64> {
    let digits = name_digits(name);
    if name.len() > 4 && name.skip(name.len() - 4) == seq!['.', 't', 'x', 's'] && digits.len() > 0
        && (forall|i: int| 0 <= i < digits.len() ==> is_digit(#[trigger] digits[i])) && decimal(
        digits,
    ) <= u64::MAX {
        Some(decimal(digits) as u64)
    } else {
        None
    }
}

/// A file found in a store's directory.
#[derive(Debug)]
pub struct StoredFile {
    /// The file's name, without the directory.
    pub name: String,
    /// What the file holds.
    pub content: Vec<u8>,
}

/// A [`StoredFile`] as a plain value.
pub struct FileView {
    pub name: Seq<char>,
    pub content: Seq<u8>,
}

impl View for StoredFile {
    type V = FileView;

    open spec fn view(&self) -> FileView {
        FileView { name: self.name@, content: self.content@ }
    }
}

/// Whether a store that holds `blocks` takes the bucket of `file` in: the
/// name gives a number that no bucket has yet, the bytes are a run of whole
/// records, and counting them keeps every sender's count within `usize`.
pub open spec fn loads(blocks: Seq<BucketView>, file: FileView) -> bool {
    &&& bucket_number(file.name) is Some
    &&& !holds(blocks, bucket_number(file.name)->0)
    &&& records(file.content) is Some
    &&& forall|sender: Seq<u8>| #[trigger]
        sent_by(transactions(blocks), sender) + sent_by(records(file.content)->0, sender)
            <= usize::MAX
}

/// The buckets with that of `file` among them, if the store takes it in.
pub open spec fn with_file(blocks: Seq<BucketView>, file: FileView) -> Seq<BucketView> {
    if loads(blocks, file) {
        blocks.insert(
            below(blocks, bucket_number(file.name)->0 as int) as int,
            BucketView { number: bucket_number(file.name)->0, content: file.content },
        )
    } else {
        blocks
    }
}

/// The buckets of a store that was opened on `files`, taken one after the
/// other.
pub open spec fn opened(files: Seq<FileView>) -> Seq<BucketView>
    decreases files.len(),
{
    if files.len() == 0 {
        Seq::empty()
    } else {
        with_file(opened(files.drop_last()), files.last())
    }
}

/// Reads the number of a bucket from the name of its file.
pub fn file_number(name: &str) -> (number: Option<BlockNumber>)
    ensures
        number == bucket_number(name@),
{
    let len = name.unicode_len();
    if len <= 4 {
        return None;
    }
    let stem = len - 4;
    if name.get_char(stem) != '.' || name.get_char(stem + 1) != 't' || name.get_char(stem + 2)
        != 'x' || name.get_char(stem + 3) != 's' {
        assert(name@.skip(name@.len() - 4)[0] == name@[stem as int]);
        assert(name@.skip(name@.len() - 4)[1] == name@[stem + 1]);
        assert(name@.skip(name@.len() - 4)[2] == name@[stem + 2]);
        assert(name@.skip(name@.len() - 4)[3] == name@[stem + 3]);
        return None;
    }
    assert(name@.skip(name@.len() - 4) =~= seq!['.', 't', 'x', 's']);
    let start: usize = if name.get_char(0) == '+' {
        1
    } else {
        0
    };
    let ghost digits = name_digits(name@);
    assert(name@.take(name@.len() - 4)[0] == name@[0]);
    assert(digits.len() == stem - start);
    if start == stem {
        return None;
    }
    let mut value: u64 = 0;
    let mut i: usize = start;
    assert(digits.take(0) =~= Seq::<char>::empty());
    while i < stem
        invariant
            start <= i <= stem,
            stem + 4 == name@.len(),
            start <= 1,
            digits == name_digits(name@),
            digits.len() == stem - start,
            forall|j: int| 0 <= j < digits.len() ==> digits[j] == name@[start + j],
            forall|j: int| 0 <= j < i - start ==> is_digit(#[trigger] digits[j]),
            value == decimal(digits.take(i - start)),
        decreases stem - i,
    {
        let c = name.get_char(i);
        assert(digits[i - start] == c);
        if c < '0' || c > '9' {
            return None;
        }
        let d = (c as u64) - ('0' as u64);
        proof {
            assert(digits.take(i - start + 1).drop_last() =~= digits.take(i - start));
            assert(digits.take(i - start + 1).last() == c);
        }
        if value > (u64::MAX - d) / 10 {
            proof {
                if forall|j: int| 0 <= j < digits.len() ==> is_digit(#[trigger] digits[j]) {
                    lemma_decimal_grows(digits, i - start + 1);
                }
            }
            return None;
        }
        value = value * 10 + d;
        i += 1;
    }
    assert(digits.take(digits.len() as int) =~= digits);
    Some(value)
}

/// The name of the file of the bucket of `number`: the number in decimal
/// digits, then `.txs`.
pub open spec fn file_name(number: u64) -> Seq<char> {
    digits_of(number as nat) + seq!['.', 't', 'x', 's']
}

/// The name that a bucket's file is given is read back as that bucket's number.
pub proof fn lemma_file_name(number: u64)
    ensures
        bucket_number(file_name(number)) == Some(number),
{
    lemma_digits_of(number as nat);
    let digits = digits_of(number as nat);
    let name = file_name(number);
    assert(name.skip(name.len() - 4) =~= seq!['.', 't', 'x', 's']);
    assert(name.take(name.len() - 4) =~= digits);
    assert(is_digit(digits[0]));
    assert(name_digits(name) =~= digits);
}

/// The file that holds a bucket.
pub open spec fn file_of(bucket: BucketView) -> FileView {
    FileView { name: file_name(bucket.number), content: bucket.content }
}

/// The bucket that a file holds, going by its name.
pub open spec fn bucket_of(file: FileView) -> BucketView {
    BucketView { number: bucket_number(file.name)->0, content: file.content }
}

/// The buckets that the first `seen` of `files` hold.
pub open spec fn taken(files: Seq<FileView>, seen: int) -> Seq<BucketView> {
    Seq::new(seen as nat, |i: int| bucket_of(files[i]))
}

/// No sender has more transactions in the buckets than `usize` counts.
pub open spec fn counted(blocks: Seq<BucketView>) -> bool {
    forall|sender: Seq<u8>| #[trigger] sent_by(transactions(blocks), sender) <= usize::MAX
}

/// `files` are the bucket files of `blocks`, in any order: no two files have
/// one name, every file holds a bucket of `blocks` under its name, and every
/// bucket has its file.
pub open spec fn files_of(files: Seq<FileView>, blocks: Seq<BucketView>) -> bool {
    &&& forall|i: int, j: int|
        0 <= i < j < files.len() ==> (#[trigger] files[i]).name != (#[trigger] files[j]).name
    &&& forall|i: int|
        0 <= i < files.len() ==> (#[trigger] files[i]) == file_of(bucket_of(files[i]))
            && blocks.contains(bucket_of(files[i]))
    &&& forall|j: int|
        0 <= j < blocks.len() ==> files.contains(file_of(#[trigger] blocks[j]))
}

/// A bucket is the bucket of its file.
pub proof fn lemma_bucket_of(bucket: BucketView)
    ensures
        bucket_number(file_of(bucket).name) == Some(bucket.number),
        bucket_of(file_of(bucket)) == bucket,
{
    lemma_file_name(bucket.number);
}

/// Taking in the file of a bucket of a store, among buckets of that store
/// that hold none of its number.
proof fn lemma_reopen_step(prior: Seq<BucketView>, blocks: Seq<BucketView>, file: FileView)
    requires
        ascending(blocks),
        all_wf(blocks),
        counted(blocks),
        ascending(prior),
        all_wf(prior),
        within(prior, blocks),
        bucket_number(file.name) is Some,
        blocks.contains(bucket_of(file)),
        !holds(prior, bucket_of(file).number),
    ensures
        loads(prior, file),
        with_file(prior, file) == prior.insert(
            below(prior, bucket_of(file).number as int) as int,
            bucket_of(file),
        ),
        below(prior, bucket_of(file).number as int) <= prior.len(),
        ascending(with_file(prior, file)),
        all_wf(with_file(prior, file)),
        within(with_file(prior, file), blocks),
{
    let bucket = bucket_of(file);
    let found = choose|j: int| 0 <= j < blocks.len() && blocks[j] == bucket;
    assert(blocks[found].wf());
    lemma_bucket_added(prior, bucket);
    let at = below(prior, bucket.number as int) as int;
    let next = prior.insert(at, bucket);
    assert forall|k: int| 0 <= k < next.len() implies blocks.contains(#[trigger] next[k]) by {
        if k < at {
            let j = lemma_within_at(prior, blocks, k);
        } else if k > at {
            let j = lemma_within_at(prior, blocks, k - 1);
        }
    }
    lemma_within(next, blocks);
    assert forall|sender: Seq<u8>| #[trigger]
        sent_by(transactions(prior), sender) + sent_by(records(file.content)->0, sender)
            <= usize::MAX by {
        lemma_within_fewer(next, blocks, sender);
        assert(sent_by(transactions(blocks), sender) <= usize::MAX);
    }
}

/// Opening the first `seen` of the bucket files of a store: every one of
/// them is taken in, at its place among the buckets taken in before it.
proof fn lemma_reopen_part(files: Seq<FileView>, blocks: Seq<BucketView>, seen: int)
    requires
        ascending(blocks),
        all_wf(blocks),
        counted(blocks),
        files_of(files, blocks),
        0 <= seen <= files.len(),
    ensures
        ascending(opened(files.take(seen))),
        all_wf(opened(files.take(seen))),
        within(opened(files.take(seen)), blocks),
        within(opened(files.take(seen)), taken(files, seen)),
        seen > 0 ==> opened(files.take(seen)) == opened(files.take(seen - 1)).insert(
            below(opened(files.take(seen - 1)), bucket_of(files[seen - 1]).number as int) as int,
            bucket_of(files[seen - 1]),
        ) && below(opened(files.take(seen - 1)), bucket_of(files[seen - 1]).number as int)
            <= opened(files.take(seen - 1)).len(),
    decreases seen,
{
    if seen == 0 {
        assert(files.take(0) =~= Seq::<FileView>::empty());
        let none = opened(files.take(0));
        assert forall|i: int| 0 <= i < none.len() implies blocks.contains(#[trigger] none[i]) by {}
        lemma_within(none, blocks);
        assert forall|i: int| 0 <= i < none.len() implies taken(files, 0).contains(
            #[trigger] none[i],
        ) by {}
        lemma_within(none, taken(files, 0));
    } else {
        lemma_reopen_part(files, blocks, seen - 1);
        let prior = opened(files.take(seen - 1));
        let before = taken(files, seen - 1);
        let now = taken(files, seen);
        let file = files[seen - 1];
        assert(files.take(seen).drop_last() =~= files.take(seen - 1));
        assert(files.take(seen).last() == file);
        assert(opened(files.take(seen)) == with_file(prior, file));
        lemma_bucket_of(bucket_of(file));
        if holds(prior, bucket_of(file).number) {
            let place = below(prior, bucket_of(file).number as int) as int;
            let earlier = lemma_within_at(prior, before, place);
            lemma_bucket_of(bucket_of(files[earlier]));
            assert(files[earlier].name == file.name);
            assert(false);
        }
        lemma_reopen_step(prior, blocks, file);
        let at = below(prior, bucket_of(file).number as int) as int;
        let next = with_file(prior, file);
        assert forall|k: int| 0 <= k < next.len() implies now.contains(#[trigger] next[k]) by {
            if k == at {
                assert(now[seen - 1] == next[k]);
            } else {
                let p = if k < at { k } else { k - 1 };
                let i = lemma_within_at(prior, before, p);
                assert(now[i] == next[k]);
            }
        }
        lemma_within(next, now);
    }
}

/// Every one of the first `seen` bucket files of a store has its bucket
/// among those of the store that was opened on them.
proof fn lemma_reopen_all(files: Seq<FileView>, blocks: Seq<BucketView>, seen: int)
    requires
        ascending(blocks),
        all_wf(blocks),
        counted(blocks),
        files_of(files, blocks),
        0 <= seen <= files.len(),
    ensures
        within(taken(files, seen), opened(files.take(seen))),
    decreases seen,
{
    let now = taken(files, seen);
    let next = opened(files.take(seen));
    if seen == 0 {
        assert forall|i: int| 0 <= i < now.len() implies next.contains(#[trigger] now[i]) by {}
        lemma_within(now, next);
    } else {
        lemma_reopen_all(files, blocks, seen - 1);
        let before = taken(files, seen - 1);
        let prior = opened(files.take(seen - 1));
        lemma_reopen_insert(files, blocks, seen);
        let at = below(prior, bucket_of(files[seen - 1]).number as int) as int;
        assert forall|i: int| 0 <= i < now.len() implies next.contains(#[trigger] now[i]) by {
            if i < seen - 1 {
                assert(now[i] == before[i]);
                let k = lemma_within_at(before, prior, i);
                if k < at {
                    assert(next[k] == prior[k]);
                } else {
                    assert(next[k + 1] == prior[k]);
                }
            } else {
                assert(next[at] == now[i]);
            }
        }
        lemma_within(now, next);
    }
}

/// What [`lemma_reopen_part`] says of the place of the bucket taken in last.
proof fn lemma_reopen_insert(files: Seq<FileView>, blocks: Seq<BucketView>, seen: int)
    requires
        ascending(blocks),
        all_wf(blocks),
        counted(blocks),
        files_of(files, blocks),
        0 < seen <= files.len(),
    ensures
        opened(files.take(seen)) == opened(files.take(seen - 1)).insert(
            below(opened(files.take(seen - 1)), bucket_of(files[seen - 1]).number as int) as int,
            bucket_of(files[seen - 1]),
        ),
        below(opened(files.take(seen - 1)), bucket_of(files[seen - 1]).number as int) <= opened(
            files.take(seen - 1),
        ).len(),
{
    lemma_reopen_part(files, blocks, seen);
}

/// Every bucket of a store is among those of the store that was opened on
/// its bucket files.
proof fn lemma_reopen_covers(files: Seq<FileView>, blocks: Seq<BucketView>)
    requires
        ascending(blocks),
        all_wf(blocks),
        counted(blocks),
        files_of(files, blocks),
    ensures
        within(blocks, opened(files.take(files.len() as int))),
{
    let all = files.len() as int;
    let got = opened(files.take(all));
    lemma_reopen_all(files, blocks, all);
    assert forall|j: int| 0 <= j < blocks.len() implies got.contains(#[trigger] blocks[j]) by {
        assert(files.contains(file_of(blocks[j])));
        let i = choose|i: int| 0 <= i < files.len() && files[i] == file_of(blocks[j]);
        lemma_bucket_of(blocks[j]);
        assert(taken(files, all)[i] == blocks[j]);
        let k = lemma_within_at(taken(files, all), got, i);
    }
    lemma_within(blocks, got);
}

/// The name of the file that holds the bucket of `number`.
pub fn bucket_file_name(number: BlockNumber) -> (name: String)
    ensures
        name@ == file_name(number),
{
    let mut name = decimal_text(number as u128);
    proof {
        reveal_strlit(".txs");
        assert(".txs"@ =~= seq!['.', 't', 'x', 's']);
    }
    name.append(".txs");
    name
}

/// Opening a store on the bucket files of buckets that stand in order and
/// are well formed, in whatever order the files come, gives those buckets,
/// where no sender has more transactions in them than `usize` counts, as
/// is so in every store.
pub proof fn lemma_reopened(files: Seq<FileView>, blocks: Seq<BucketView>)
    requires
        ascending(blocks),
        all_wf(blocks),
        counted(blocks),
        files_of(files, blocks),
    ensures
        opened(files) == blocks,
{
    let all = files.len() as int;
    lemma_reopen_part(files, blocks, all);
    lemma_reopen_covers(files, blocks);
    assert(files.take(all) =~= files);
    lemma_same_buckets(opened(files), blocks);
}

} // verus!
