//! Counts and sizes of the keys of each label set over one cycle.

use vstd::prelude::*;
use crate::config::Rule;
use crate::keys::{classify, label_set_view, CacheKeyRecord, LabelParser, LabelSet, LabelSetView};

verus! {

/// How many keys of one cycle have a label set, and their total size.
#[derive(Debug)]
pub struct LabelCounts {
    pub labels: LabelSet,
    pub count: i64,
    pub size: i64,
}

pub open spec fn entry_labels(e: LabelCounts) -> LabelSetView {
    label_set_view(e.labels@)
}

/// The sum of the sizes of `records`.
pub open spec fn total_size(records: Seq<CacheKeyRecord>) -> int
    decreases records.len(),
{
    if records.len() == 0 {
        0
    } else {
        total_size(records.drop_last()) + records.last().size
    }
}

/// How many of `records` have a key that `rules` classify as `labels`.
pub open spec fn count_of(rules: Seq<Rule>, records: Seq<CacheKeyRecord>, labels: LabelSetView) -> int
    decreases records.len(),
{
    if records.len() == 0 {
        0
    } else {
        count_of(rules, records.drop_last(), labels) + if classify(rules, records.last().key@)
            == labels {
            1int
        } else {
            0int
        }
    }
}

/// The total size of those of `records` whose key `rules` classify as `labels`.
pub open spec fn size_of(rules: Seq<Rule>, records: Seq<CacheKeyRecord>, labels: LabelSetView) -> int
    decreases records.len(),
{
    if records.len() == 0 {
        0
    } else {
        size_of(rules, records.drop_last(), labels) + if classify(rules, records.last().key@)
            == labels {
            records.last().size as int
        } else {
            0int
        }
    }
}

pub open spec fn has_entry(entries: Seq<LabelCounts>, labels: LabelSetView) -> bool {
    exists|i: int| 0 <= i < entries.len() && entry_labels(#[trigger] entries[i]) == labels
}

/// No two entries have the same label set.
pub open spec fn distinct_labels(entries: Seq<LabelCounts>) -> bool {
    forall|i: int, j: int|
        0 <= i < j < entries.len() ==> entry_labels(#[trigger] entries[i]) != entry_labels(
            #[trigger] entries[j],
        )
}

/// Every record's label set has an entry.
pub open spec fn covers(entries: Seq<LabelCounts>, rules: Seq<Rule>, records: Seq<CacheKeyRecord>) -> bool {
    forall|k: int|
        0 <= k < records.len() ==> has_entry(entries, classify(rules, (#[trigger] records[k]).key@))
}

/// `entries` is the aggregate of `records` under `rules`: one entry for each
/// label set that some record has, none for another, each with the number and
/// the total size of the records that have it. The order is unspecified.
pub open spec fn is_aggregate_of(
    entries: Seq<LabelCounts>,
    rules: Seq<Rule>,
    records: Seq<CacheKeyRecord>,
) -> bool {
    &&& distinct_labels(entries)
    &&& forall|i: int|
        0 <= i < entries.len() ==> {
            &&& (#[trigger] entries[i]).count == count_of(rules, records, entry_labels(entries[i]))
            &&& entries[i].size == size_of(rules, records, entry_labels(entries[i]))
            &&& entries[i].count > 0
        }
    &&& covers(entries, rules, records)
}

/// The sum of the counts of `entries`.
pub open spec fn sum_counts(entries: Seq<LabelCounts>) -> int
    decreases entries.len(),
{
    if entries.len() == 0 {
        0
    } else {
        sum_counts(entries.drop_last()) + entries.last().count
    }
}

/// The sum of the sizes of `entries`.
pub open spec fn sum_sizes(entries: Seq<LabelCounts>) -> int
    decreases entries.len(),
{
    if entries.len() == 0 {
        0
    } else {
        sum_sizes(entries.drop_last()) + entries.last().size
    }
}

/// Aggregating loses and duplicates no record: the counts of an aggregate add
/// up to the number of records, and its sizes to the records' total size.
pub proof fn lemma_aggregate_totals(
    entries: Seq<LabelCounts>,
    rules: Seq<Rule>,
    records: Seq<CacheKeyRecord>,
)
    requires
        is_aggregate_of(entries, rules, records),
    ensures
        sum_counts(entries) == records.len(),
        sum_sizes(entries) == total_size(records),
{
    lemma_sums_are_tallies(entries, rules, records);
    lemma_tallies_cover_records(entries, rules, records);
}

/// The sum over `entries` of the count of their label sets in `records`.
spec fn count_tally(entries: Seq<LabelCounts>, rules: Seq<Rule>, records: Seq<CacheKeyRecord>) -> int
    decreases entries.len(),
{
    if entries.len() == 0 {
        0
    } else {
        count_tally(entries.drop_last(), rules, records) + count_of(
            rules,
            records,
            entry_labels(entries.last()),
        )
    }
}

/// The sum over `entries` of the size of their label sets in `records`.
spec fn size_tally(entries: Seq<LabelCounts>, rules: Seq<Rule>, records: Seq<CacheKeyRecord>) -> int
    decreases entries.len(),
{
    if entries.len() == 0 {
        0
    } else {
        size_tally(entries.drop_last(), rules, records) + size_of(
            rules,
            records,
            entry_labels(entries.last()),
        )
    }
}

/// `w` for each entry labelled `labels`.
spec fn weight_with(entries: Seq<LabelCounts>, labels: LabelSetView, w: int) -> int
    decreases entries.len(),
{
    if entries.len() == 0 {
        0
    } else {
        weight_with(entries.drop_last(), labels, w) + if entry_labels(entries.last()) == labels {
            w
        } else {
            0
        }
    }
}

proof fn lemma_sums_are_tallies(
    entries: Seq<LabelCounts>,
    rules: Seq<Rule>,
    records: Seq<CacheKeyRecord>,
)
    requires
        forall|i: int|
            0 <= i < entries.len() ==> {
                &&& (#[trigger] entries[i]).count == count_of(rules, records, entry_labels(entries[i]))
                &&& entries[i].size == size_of(rules, records, entry_labels(entries[i]))
            },
    ensures
        sum_counts(entries) == count_tally(entries, rules, records),
        sum_sizes(entries) == size_tally(entries, rules, records),
    decreases entries.len(),
{
    if entries.len() > 0 {
        let before = entries.drop_last();
        assert forall|i: int| 0 <= i < before.len() implies {
            &&& (#[trigger] before[i]).count == count_of(rules, records, entry_labels(before[i]))
            &&& before[i].size == size_of(rules, records, entry_labels(before[i]))
        } by {
            assert(before[i] == entries[i]);
        }
        lemma_sums_are_tallies(before, rules, records);
        assert(entries.last() == entries[entries.len() - 1]);
    }
}

proof fn lemma_tally_step(entries: Seq<LabelCounts>, rules: Seq<Rule>, records: Seq<CacheKeyRecord>)
    requires
        records.len() > 0,
    ensures
        count_tally(entries, rules, records) == count_tally(entries, rules, records.drop_last())
            + weight_with(entries, classify(rules, records.last().key@), 1),
        size_tally(entries, rules, records) == size_tally(entries, rules, records.drop_last())
            + weight_with(entries, classify(rules, records.last().key@), records.last().size as int),
    decreases entries.len(),
{
    if entries.len() > 0 {
        lemma_tally_step(entries.drop_last(), rules, records);
    }
}

proof fn lemma_weight_absent(entries: Seq<LabelCounts>, labels: LabelSetView, w: int)
    requires
        !has_entry(entries, labels),
    ensures
        weight_with(entries, labels, w) == 0,
    decreases entries.len(),
{
    if entries.len() > 0 {
        let before = entries.drop_last();
        assert(!has_entry(before, labels)) by {
            if has_entry(before, labels) {
                let i = choose|i: int| 0 <= i < before.len() && entry_labels(#[trigger] before[i]) == labels;
                assert(entries[i] == before[i]);
            }
        }
        lemma_weight_absent(before, labels, w);
        assert(entries[entries.len() - 1] == entries.last());
    }
}

proof fn lemma_weight_present(entries: Seq<LabelCounts>, labels: LabelSetView, w: int)
    requires
        distinct_labels(entries),
        has_entry(entries, labels),
    ensures
        weight_with(entries, labels, w) == w,
    decreases entries.len(),
{
    let before = entries.drop_last();
    let n = entries.len() - 1;
    assert(distinct_labels(before)) by {
        assert forall|i: int, j: int| 0 <= i < j < before.len() implies entry_labels(
            #[trigger] before[i],
        ) != entry_labels(#[trigger] before[j]) by {
            assert(before[i] == entries[i] && before[j] == entries[j]);
        }
    }
    assert(entries.last() == entries[n]);
    if entry_labels(entries.last()) == labels {
        assert(!has_entry(before, labels)) by {
            if has_entry(before, labels) {
                let i = choose|i: int| 0 <= i < before.len() && entry_labels(#[trigger] before[i]) == labels;
                assert(entries[i] == before[i]);
            }
        }
        lemma_weight_absent(before, labels, w);
    } else {
        let i = choose|i: int| 0 <= i < entries.len() && entry_labels(#[trigger] entries[i]) == labels;
        assert(before[i] == entries[i]);
        lemma_weight_present(before, labels, w);
    }
}

proof fn lemma_tallies_cover_records(
    entries: Seq<LabelCounts>,
    rules: Seq<Rule>,
    records: Seq<CacheKeyRecord>,
)
    requires
        distinct_labels(entries),
        covers(entries, rules, records),
    ensures
        count_tally(entries, rules, records) == records.len(),
        size_tally(entries, rules, records) == total_size(records),
    decreases records.len(),
{
    if records.len() == 0 {
        lemma_tally_empty(entries, rules, records);
    } else {
        let before = records.drop_last();
        assert(covers(entries, rules, before)) by {
            assert forall|k: int| 0 <= k < before.len() implies has_entry(
                entries,
                classify(rules, (#[trigger] before[k]).key@),
            ) by {
                assert(before[k] == records[k]);
            }
        }
        lemma_tallies_cover_records(entries, rules, before);
        lemma_tally_step(entries, rules, records);
        let last = records.last();
        assert(last == records[records.len() - 1]);
        lemma_weight_present(entries, classify(rules, last.key@), 1);
        lemma_weight_present(entries, classify(rules, last.key@), last.size as int);
    }
}

proof fn lemma_tally_empty(entries: Seq<LabelCounts>, rules: Seq<Rule>, records: Seq<CacheKeyRecord>)
    requires
        records.len() == 0,
    ensures
        count_tally(entries, rules, records) == 0,
        size_tally(entries, rules, records) == 0,
    decreases entries.len(),
{
    if entries.len() > 0 {
        lemma_tally_empty(entries.drop_last(), rules, records);
    }
}

proof fn lemma_total_size_prefix(records: Seq<CacheKeyRecord>, i: int)
    requires
        0 <= i <= records.len(),
    ensures
        0 <= total_size(records.take(i)) <= total_size(records),
    decreases records.len(),
{
    if i == records.len() {
        assert(records.take(i) == records);
        lemma_total_size_nonneg(records);
    } else {
        let before = records.drop_last();
        lemma_total_size_prefix(before, i);
        assert(before.take(i) == records.take(i));
    }
}

proof fn lemma_total_size_nonneg(records: Seq<CacheKeyRecord>)
    ensures
        total_size(records) >= 0,
    decreases records.len(),
{
    if records.len() > 0 {
        lemma_total_size_nonneg(records.drop_last());
    }
}

pub(crate) proof fn lemma_absent_counts_zero(rules: Seq<Rule>, records: Seq<CacheKeyRecord>, labels: LabelSetView)
    requires
        forall|k: int| 0 <= k < records.len() ==> classify(rules, (#[trigger] records[k]).key@) != labels,
    ensures
        count_of(rules, records, labels) == 0,
        size_of(rules, records, labels) == 0,
    decreases records.len(),
{
    if records.len() > 0 {
        let before = records.drop_last();
        assert forall|k: int| 0 <= k < before.len() implies classify(
            rules,
            (#[trigger] before[k]).key@,
        ) != labels by {
            assert(before[k] == records[k]);
        }
        lemma_absent_counts_zero(rules, before, labels);
        assert(classify(rules, records[records.len() - 1].key@) != labels);
    }
}

/// Whether two label sets are equal, pair by pair and in order.
fn same_labels(a: &LabelSet, b: &LabelSet) -> (r: bool)
    ensures
        r == (label_set_view(a@) == label_set_view(b@)),
{
    if a.len() != b.len() {
        assert(label_set_view(a@).len() != label_set_view(b@).len());
        return false;
    }
    let mut i: usize = 0;
    while i < a.len()
        invariant
            a@.len() == b@.len(),
            i <= a@.len(),
            forall|j: int| 0 <= j < i ==> label_set_view(a@)[j] == label_set_view(b@)[j],
        decreases a@.len() - i,
    {
        if a[i].0 != b[i].0 || a[i].1 != b[i].1 {
            assert(label_set_view(a@)[i as int] != label_set_view(b@)[i as int]);
            return false;
        }
        i += 1;
    }
    assert(label_set_view(a@) =~= label_set_view(b@));
    true
}

/// The index of the entry for `labels`, if there is one.
pub(crate) fn find_entry(entries: &Vec<LabelCounts>, labels: &LabelSet) -> (r: Option<usize>)
    ensures
        r matches Some(i) ==> i < entries@.len() && entry_labels(entries@[i as int])
            == label_set_view(labels@),
        r is None ==> !has_entry(entries@, label_set_view(labels@)),
{
    let mut i: usize = 0;
    while i < entries.len()
        invariant
            i <= entries@.len(),
            forall|j: int|
                0 <= j < i ==> entry_labels(#[trigger] entries@[j]) != label_set_view(labels@),
        decreases entries@.len() - i,
    {
        if same_labels(&entries[i].labels, labels) {
            return Some(i);
        }
        i += 1;
    }
    None
}

/// The total size of `records`, or `None` when it exceeds `i64::MAX`.
fn checked_total_size(records: &Vec<CacheKeyRecord>) -> (r: Option<i64>)
    ensures
        r is None <==> total_size(records@) > i64::MAX,
        r matches Some(t) ==> t == total_size(records@),
{
    let mut total: i64 = 0;
    let mut i: usize = 0;
    while i < records.len()
        invariant
            i <= records@.len(),
            total == total_size(records@.take(i as int)),
            0 <= total,
        decreases records@.len() - i,
    {
        let size = records[i].size;
        assert(records@.take(i + 1).drop_last() == records@.take(i as int));
        proof {
            lemma_total_size_prefix(records@, i + 1);
        }
        if size > (i64::MAX - total) as u64 {
            return None;
        }
        total = total + size as i64;
        i += 1;
    }
    assert(records@.take(records@.len() as int) == records@);
    Some(total)
}

/// Classifies every record with `parser` and sums, per label set, the number
/// of records and their sizes. `None` when a count or a size would not fit
/// in an `i64`.
pub fn aggregate(parser: &LabelParser, records: &Vec<CacheKeyRecord>) -> (r: Option<
    Vec<LabelCounts>,
>)
    ensures
        r is None <==> (records@.len() > i64::MAX || total_size(records@) > i64::MAX),
        r matches Some(entries) ==> is_aggregate_of(entries@, parser.rules(), records@),
{
    if records.len() as u64 > i64::MAX as u64 {
        return None;
    }
    let total = match checked_total_size(records) {
        Some(t) => t,
        None => {
            return None;
        },
    };
    let ghost rules = parser.rules();
    let mut entries: Vec<LabelCounts> = Vec::new();
    let mut i: usize = 0;
    while i < records.len()
        invariant
            i <= records@.len() <= i64::MAX,
            total == total_size(records@),
            rules == parser.rules(),
            is_aggregate_of(entries@, rules, records@.take(i as int)),
            forall|j: int|
                0 <= j < entries@.len() ==> (#[trigger] entries@[j]).count <= i && 0
                    <= entries@[j].size <= total_size(records@.take(i as int)),
        decreases records@.len() - i,
    {
        let record = &records[i];
        let labels = parser.extract(record);
        let ghost ls = label_set_view(labels@);
        let ghost seen = records@.take(i as int);
        let ghost now = records@.take(i + 1);
        assert(now.drop_last() == seen);
        assert(now.last() == record);
        proof {
            lemma_total_size_prefix(records@, i as int);
            lemma_total_size_prefix(records@, i + 1);
        }
        assert(total_size(now) == total_size(seen) + record.size);
        assert forall|l: LabelSetView| #[trigger] count_of(rules, now, l) == count_of(rules, seen, l)
            + if ls == l { 1int } else { 0int } && size_of(rules, now, l) == size_of(rules, seen, l)
            + if ls == l { record.size as int } else { 0int } by {}
        let ghost old_entries = entries@;
        match find_entry(&entries, &labels) {
            Some(idx) => {
                let count = entries[idx].count;
                let size = entries[idx].size;
                assert(old_entries[idx as int].size <= total_size(seen));
                assert(old_entries[idx as int].count <= i);
                entries[idx].count = count + 1;
                entries[idx].size = size + record.size as i64;
                assert forall|j: int| 0 <= j < entries@.len() && j != idx implies entry_labels(
                    #[trigger] entries@[j],
                ) != ls by {
                    assert(entries@[j] == old_entries[j]);
                    if j < idx {
                        assert(entry_labels(old_entries[j]) != entry_labels(old_entries[idx as int]));
                    } else {
                        assert(entry_labels(old_entries[idx as int]) != entry_labels(old_entries[j]));
                    }
                }
                assert forall|j: int| 0 <= j < entries@.len() implies {
                    &&& (#[trigger] entries@[j]).count == count_of(rules, now, entry_labels(entries@[j]))
                    &&& entries@[j].size == size_of(rules, now, entry_labels(entries@[j]))
                    &&& entries@[j].count > 0
                    &&& entries@[j].count <= i + 1
                    &&& 0 <= entries@[j].size <= total_size(now)
                } by {
                    if j != idx {
                        assert(entries@[j] == old_entries[j]);
                    } else {
                        let l = entry_labels(old_entries[j]);
                        assert(l == ls);
                        assert(entry_labels(entries@[j]) == l);
                        assert(count_of(rules, now, l) == count_of(rules, seen, l) + 1);
                        assert(size_of(rules, now, l) == size_of(rules, seen, l) + record.size);
                    }
                }
                assert forall|a: int, b: int| 0 <= a < b < entries@.len() implies entry_labels(
                    #[trigger] entries@[a],
                ) != entry_labels(#[trigger] entries@[b]) by {
                    assert(entry_labels(entries@[a]) == entry_labels(old_entries[a]));
                    assert(entry_labels(entries@[b]) == entry_labels(old_entries[b]));
                }
                assert forall|k: int| 0 <= k < now.len() implies has_entry(
                    entries@,
                    classify(rules, (#[trigger] now[k]).key@),
                ) by {
                    if k < i {
                        assert(now[k] == seen[k]);
                        let w = choose|w: int|
                            0 <= w < old_entries.len() && entry_labels(#[trigger] old_entries[w])
                                == classify(rules, seen[k].key@);
                        assert(entry_labels(entries@[w]) == entry_labels(old_entries[w]));
                    } else {
                        assert(entry_labels(entries@[idx as int]) == ls);
                    }
                }
            },
            None => {
                proof {
                    assert forall|k: int| 0 <= k < seen.len() implies classify(
                        rules,
                        (#[trigger] seen[k]).key@,
                    ) != ls by {
                        assert(has_entry(old_entries, classify(rules, seen[k].key@)));
                    }
                    lemma_absent_counts_zero(rules, seen, ls);
                }
                entries.push(LabelCounts { labels, count: 1, size: record.size as i64 });
                assert forall|j: int| 0 <= j < old_entries.len() implies entry_labels(
                    #[trigger] entries@[j],
                ) != ls by {
                    assert(entries@[j] == old_entries[j]);
                }
                assert forall|j: int| 0 <= j < entries@.len() implies {
                    &&& (#[trigger] entries@[j]).count == count_of(rules, now, entry_labels(entries@[j]))
                    &&& entries@[j].size == size_of(rules, now, entry_labels(entries@[j]))
                    &&& entries@[j].count > 0
                    &&& entries@[j].count <= i + 1
                    &&& 0 <= entries@[j].size <= total_size(now)
                } by {
                    if j < old_entries.len() {
                        assert(entries@[j] == old_entries[j]);
                    }
                }
                assert forall|a: int, b: int| 0 <= a < b < entries@.len() implies entry_labels(
                    #[trigger] entries@[a],
                ) != entry_labels(#[trigger] entries@[b]) by {
                    assert(entries@[a] == old_entries[a]);
                    if b < old_entries.len() {
                        assert(entries@[b] == old_entries[b]);
                    }
                }
                assert forall|k: int| 0 <= k < now.len() implies has_entry(
                    entries@,
                    classify(rules, (#[trigger] now[k]).key@),
                ) by {
                    if k < i {
                        assert(now[k] == seen[k]);
                        let w = choose|w: int|
                            0 <= w < old_entries.len() && entry_labels(#[trigger] old_entries[w])
                                == classify(rules, seen[k].key@);
                        assert(entries@[w] == old_entries[w]);
                    } else {
                        assert(entry_labels(entries@[old_entries.len() as int]) == ls);
                    }
                }
            },
        }
        i += 1;
    }
    assert(records@.take(records@.len() as int) == records@);
    Some(entries)
}

} // verus!
