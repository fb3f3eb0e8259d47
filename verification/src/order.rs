//! The canonical order of records: ascending by name, records of one name in
//! the order in which they stood.

use vstd::prelude::*;
use crate::record::Record;

verus! {

/// No record stands before one of a smaller name.
pub open spec fn is_sorted_by_name<R: Record>(records: Seq<R>) -> bool {
    forall|i: int, j: int|
        0 <= i <= j < records.len() ==> records[i].spec_name() <= records[j].spec_name()
}

/// `sorted` with `record` put behind the last record whose name is not greater.
pub open spec fn insert_by_name<R: Record>(sorted: Seq<R>, record: R) -> Seq<R>
    decreases sorted.len(),
{
    if sorted.len() == 0 || sorted.last().spec_name() <= record.spec_name() {
        sorted.push(record)
    } else {
        insert_by_name(sorted.drop_last(), record).push(sorted.last())
    }
}

/// `records` in canonical order.
pub open spec fn sorted_by_name<R: Record>(records: Seq<R>) -> Seq<R>
    decreases records.len(),
{
    if records.len() == 0 {
        records
    } else {
        insert_by_name(sorted_by_name(records.drop_last()), records.last())
    }
}

/// Inserting keeps the length, the records and the order.
pub proof fn lemma_insert_by_name<R: Record>(sorted: Seq<R>, record: R)
    requires
        is_sorted_by_name(sorted),
    ensures
        insert_by_name(sorted, record).len() == sorted.len() + 1,
        insert_by_name(sorted, record).to_multiset() == sorted.to_multiset().insert(record),
        is_sorted_by_name(insert_by_name(sorted, record)),
    decreases sorted.len(),
{
    broadcast use vstd::seq_lib::group_to_multiset_ensures;

    let out = insert_by_name(sorted, record);
    if sorted.len() == 0 || sorted.last().spec_name() <= record.spec_name() {
        assert forall|i: int, j: int| 0 <= i <= j < out.len() implies out[i].spec_name()
            <= out[j].spec_name() by {
            if j == sorted.len() && i < j {
                assert(sorted[i].spec_name() <= sorted.last().spec_name());
            }
        }
    } else {
        let front = sorted.drop_last();
        let inner = insert_by_name(front, record);
        assert(is_sorted_by_name(front));
        lemma_insert_by_name(front, record);
        assert(sorted =~= front.push(sorted.last()));
        assert(out.to_multiset() =~= sorted.to_multiset().insert(record));
        assert forall|i: int, j: int| 0 <= i <= j < out.len() implies out[i].spec_name()
            <= out[j].spec_name() by {
            if j == inner.len() && i < j {
                // every record of `inner` is `record` or a record of `front`
                assert(inner.to_multiset().count(inner[i]) > 0);
                if inner[i] != record {
                    assert(front.to_multiset().count(inner[i]) > 0);
                    let k = choose|k: int| 0 <= k < front.len() && front[k] == inner[i];
                    assert(sorted[k].spec_name() <= sorted.last().spec_name());
                }
            }
        }
    }
}

/// The canonical order holds the records it was given, each as often as it
/// came, and none stands before one of a smaller name.
pub proof fn lemma_sorted_by_name<R: Record>(records: Seq<R>)
    ensures
        sorted_by_name(records).len() == records.len(),
        sorted_by_name(records).to_multiset() == records.to_multiset(),
        is_sorted_by_name(sorted_by_name(records)),
    decreases records.len(),
{
    broadcast use vstd::seq_lib::group_to_multiset_ensures;

    if records.len() > 0 {
        let front = records.drop_last();
        lemma_sorted_by_name(front);
        lemma_insert_by_name(sorted_by_name(front), records.last());
        assert(records =~= front.push(records.last()));
    }
}

/// The records of `records` that have the name `name`, in their order.
pub open spec fn named<R: Record>(records: Seq<R>, name: u64) -> Seq<R>
    decreases records.len(),
{
    if records.len() == 0 {
        records
    } else if records.last().spec_name() == name {
        named(records.drop_last(), name).push(records.last())
    } else {
        named(records.drop_last(), name)
    }
}

/// An inserted record comes behind the records of its name and leaves the
/// records of every other name as they stood.
pub proof fn lemma_insert_by_name_named<R: Record>(sorted: Seq<R>, record: R, name: u64)
    ensures
        named(insert_by_name(sorted, record), name) == if record.spec_name() == name {
            named(sorted, name).push(record)
        } else {
            named(sorted, name)
        },
    decreases sorted.len(),
{
    if sorted.len() == 0 || sorted.last().spec_name() <= record.spec_name() {
        assert(sorted.push(record).drop_last() =~= sorted);
    } else {
        let inner = insert_by_name(sorted.drop_last(), record);
        lemma_insert_by_name_named(sorted.drop_last(), record, name);
        assert(inner.push(sorted.last()).drop_last() =~= inner);
    }
}

/// The canonical order keeps the records of one name in the order in which
/// they stood.
pub proof fn lemma_sorted_by_name_named<R: Record>(records: Seq<R>, name: u64)
    ensures
        named(sorted_by_name(records), name) == named(records, name),
    decreases records.len(),
{
    if records.len() > 0 {
        lemma_sorted_by_name_named(records.drop_last(), name);
        lemma_insert_by_name_named(sorted_by_name(records.drop_last()), records.last(), name);
    }
}

/// Records that are in order already are their own canonical order.
pub proof fn lemma_sorted_by_name_fixes_sorted<R: Record>(records: Seq<R>)
    requires
        is_sorted_by_name(records),
    ensures
        sorted_by_name(records) == records,
    decreases records.len(),
{
    if records.len() > 0 {
        let front = records.drop_last();
        assert(is_sorted_by_name(front));
        lemma_sorted_by_name_fixes_sorted(front);
        if front.len() > 0 {
            assert(records[front.len() - 1].spec_name() <= records[front.len() as int].spec_name());
        }
        assert(front.push(records.last()) =~= records);
    }
}

/// Sorting twice is sorting once.
pub proof fn lemma_sorted_by_name_idempotent<R: Record>(records: Seq<R>)
    ensures
        sorted_by_name(sorted_by_name(records)) == sorted_by_name(records),
{
    lemma_sorted_by_name(records);
    lemma_sorted_by_name_fixes_sorted(sorted_by_name(records));
}

/// Two runs merged from the back: of the two last records the one of the
/// greater name comes last, and of two of one name the one of `b`.
pub open spec fn merge_by_name<R: Record>(a: Seq<R>, b: Seq<R>) -> Seq<R>
    decreases a.len() + b.len(),
{
    if a.len() == 0 {
        b
    } else if b.len() == 0 {
        a
    } else if a.last().spec_name() > b.last().spec_name() {
        merge_by_name(a.drop_last(), b).push(a.last())
    } else {
        merge_by_name(a, b.drop_last()).push(b.last())
    }
}

/// Inserting into the merged runs is inserting into the second run first.
proof fn lemma_merge_insert<R: Record>(a: Seq<R>, b: Seq<R>, record: R)
    ensures
        insert_by_name(merge_by_name(a, b), record) == merge_by_name(
            a,
            insert_by_name(b, record),
        ),
    decreases a.len() + b.len(),
{
    let name = record.spec_name();
    if a.len() == 0 {
    } else if b.len() == 0 {
        assert(insert_by_name(b, record) =~= seq![record]);
        assert(seq![record].drop_last() =~= b);
        if a.last().spec_name() > name {
            lemma_merge_insert(a.drop_last(), b, record);
            assert(merge_by_name(a.drop_last(), b) =~= a.drop_last());
        }
    } else if a.last().spec_name() > b.last().spec_name() {
        let merged = merge_by_name(a.drop_last(), b);
        assert(merged.push(a.last()).drop_last() =~= merged);
        if a.last().spec_name() > name {
            lemma_merge_insert(a.drop_last(), b, record);
            if b.last().spec_name() > name {
                assert(insert_by_name(b, record).last() == b.last());
            }
        } else {
            assert(b.push(record).drop_last() =~= b);
        }
    } else {
        let merged = merge_by_name(a, b.drop_last());
        assert(merged.push(b.last()).drop_last() =~= merged);
        if b.last().spec_name() > name {
            lemma_merge_insert(a, b.drop_last(), record);
            let inserted = insert_by_name(b.drop_last(), record);
            assert(inserted.push(b.last()).drop_last() =~= inserted);
        } else {
            assert(b.push(record).drop_last() =~= b);
        }
    }
}

/// The canonical order of two runs, one behind the other, is the merge of
/// their canonical orders.
pub proof fn lemma_sorted_by_name_of_runs<R: Record>(a: Seq<R>, b: Seq<R>)
    ensures
        sorted_by_name(a + b) == merge_by_name(sorted_by_name(a), sorted_by_name(b)),
    decreases b.len(),
{
    if b.len() == 0 {
        assert(a + b =~= a);
    } else {
        lemma_sorted_by_name_of_runs(a, b.drop_last());
        assert((a + b).drop_last() =~= a + b.drop_last());
        lemma_merge_insert(sorted_by_name(a), sorted_by_name(b.drop_last()), b.last());
    }
}

/// Merges two runs.
fn merge<R: Record>(a: &Vec<R>, b: &Vec<R>) -> (out: Vec<R>)
    requires
        a@.len() + b@.len() <= usize::MAX,
    ensures
        out@ == merge_by_name(a@, b@),
{
    let total: usize = a.len() + b.len();
    let mut out: Vec<R> = Vec::with_capacity(total);
    if total == 0 {
        return out;
    }
    let filler: R = if a.len() > 0 {
        a[0]
    } else {
        b[0]
    };
    while out.len() < total
        invariant
            out@.len() <= total,
        decreases total - out@.len(),
    {
        out.push(filler);
    }
    let mut i: usize = a.len();
    let mut j: usize = b.len();
    let mut k: usize = total;
    assert(a@.take(i as int) =~= a@ && b@.take(j as int) =~= b@);
    assert(merge_by_name(a@, b@) + out@.skip(k as int) =~= merge_by_name(a@, b@));
    while k > 0
        invariant
            i <= a@.len(),
            j <= b@.len(),
            k == i + j,
            out@.len() == total,
            total == a@.len() + b@.len(),
            merge_by_name(a@.take(i as int), b@.take(j as int)) + out@.skip(k as int)
                == merge_by_name(a@, b@),
        decreases k,
    {
        let ghost left = a@.take(i as int);
        let ghost right = b@.take(j as int);
        let ghost tail = out@.skip(k as int);
        let take_left: bool = if i == 0 {
            false
        } else if j == 0 {
            true
        } else {
            a[i - 1].name() > b[j - 1].name()
        };
        let record: R = if take_left {
            a[i - 1]
        } else {
            b[j - 1]
        };
        out[k - 1] = record;
        proof {
            assert(out@.skip(k - 1) =~= seq![record] + tail);
            if take_left {
                assert(left.drop_last() =~= a@.take(i - 1));
                let rest = merge_by_name(left.drop_last(), right);
                assert(merge_by_name(left, right) =~= rest.push(record));
                assert(rest.push(record) + tail =~= rest + (seq![record] + tail));
            } else {
                assert(right.drop_last() =~= b@.take(j - 1));
                let rest = merge_by_name(left, right.drop_last());
                assert(merge_by_name(left, right) =~= rest.push(record));
                assert(rest.push(record) + tail =~= rest + (seq![record] + tail));
            }
        }
        if take_left {
            i -= 1;
        } else {
            j -= 1;
        }
        k -= 1;
    }
    assert(out@.skip(0) =~= out@);
    out
}

/// `records[lo..hi]` in canonical order.
fn sort_range<R: Record>(records: &Vec<R>, lo: usize, hi: usize) -> (out: Vec<R>)
    requires
        lo <= hi <= records@.len(),
    ensures
        out@ == sorted_by_name(records@.subrange(lo as int, hi as int)),
    decreases hi - lo,
{
    let ghost run = records@.subrange(lo as int, hi as int);
    if hi - lo == 0 {
        Vec::new()
    } else if hi - lo == 1 {
        let mut out: Vec<R> = Vec::with_capacity(1);
        out.push(records[lo]);
        assert(sorted_by_name(run.drop_last()) =~= Seq::<R>::empty());
        assert(out@ =~= sorted_by_name(run));
        out
    } else {
        let mid: usize = lo + (hi - lo) / 2;
        let left: Vec<R> = sort_range(records, lo, mid);
        let right: Vec<R> = sort_range(records, mid, hi);
        proof {
            let a = records@.subrange(lo as int, mid as int);
            let b = records@.subrange(mid as int, hi as int);
            assert(a + b =~= run);
            lemma_sorted_by_name_of_runs(a, b);
            lemma_sorted_by_name(a);
            lemma_sorted_by_name(b);
        }
        merge(&left, &right)
    }
}

/// The records in canonical order; `records` itself stays as it is.
pub fn sort_by_name<R: Record>(records: &Vec<R>) -> (out: Vec<R>)
    ensures
        out@ == sorted_by_name(records@),
{
    assert(records@.subrange(0, records@.len() as int) =~= records@);
    sort_range(records, 0, records.len())
}

} // verus!
