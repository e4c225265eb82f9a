//! Cycle-to-cycle reconciliation of the published label sets.

use vstd::prelude::*;
use crate::aggregate::{
    aggregate, count_of, entry_labels, has_entry, is_aggregate_of, lemma_absent_counts_zero, size_of,
    total_size, LabelCounts,
};
use crate::config::Rule;
use crate::keys::{classify, label_set_view, CacheKeyRecord, LabelParser, LabelSet, LabelSetView};

verus! {

/// The label sets of `entries`, in order.
pub open spec fn current_keys(entries: Seq<LabelCounts>) -> Seq<LabelSetView> {
    entries.map_values(|e: LabelCounts| entry_labels(e))
}

/// The label sets of `previous` that no entry of `current` has, in the order
/// of `previous`.
pub open spec fn stale(previous: Seq<LabelSetView>, current: Seq<LabelCounts>) -> Seq<LabelSetView>
    decreases previous.len(),
{
    if previous.len() == 0 {
        seq![]
    } else {
        let rest = stale(previous.drop_last(), current);
        if has_entry(current, previous.last()) {
            rest
        } else {
            rest.push(previous.last())
        }
    }
}

pub open spec fn label_sets_view(sets: Seq<LabelSet>) -> Seq<LabelSetView> {
    sets.map_values(|s: LabelSet| label_set_view(s@))
}

/// A label set is stale exactly when it was published and the current
/// aggregate has no entry for it.
pub proof fn lemma_stale_contains(
    previous: Seq<LabelSetView>,
    current: Seq<LabelCounts>,
    labels: LabelSetView,
)
    ensures
        stale(previous, current).contains(labels) <==> (previous.contains(labels) && !has_entry(
            current,
            labels,
        )),
    decreases previous.len(),
{
    if previous.len() > 0 {
        let before = previous.drop_last();
        let last = previous.last();
        lemma_stale_contains(before, current, labels);
        let rest = stale(before, current);
        let all = stale(previous, current);
        assert(last == previous[previous.len() - 1]);
        if all.contains(labels) {
            let i = choose|i: int| 0 <= i < all.len() && all[i] == labels;
            if i < rest.len() {
                assert(all[i] == rest[i]);
                let j = choose|j: int| 0 <= j < before.len() && before[j] == labels;
                assert(previous[j] == labels);
            } else {
                assert(labels == last);
            }
        }
        if previous.contains(labels) && !has_entry(current, labels) {
            let i = choose|i: int| 0 <= i < previous.len() && previous[i] == labels;
            if i < before.len() {
                assert(before[i] == labels);
                let j = choose|j: int| 0 <= j < rest.len() && rest[j] == labels;
                assert(all[j] == labels);
            } else {
                assert(all[rest.len() as int] == labels);
            }
        }
    }
}

/// The universe after a cycle holds a label set exactly when the cycle's
/// aggregate has an entry for it.
pub proof fn lemma_current_keys_contains(current: Seq<LabelCounts>, labels: LabelSetView)
    ensures
        current_keys(current).contains(labels) <==> has_entry(current, labels),
{
    if has_entry(current, labels) {
        let i = choose|i: int| 0 <= i < current.len() && entry_labels(#[trigger] current[i]) == labels;
        assert(current_keys(current)[i] == labels);
    }
    if current_keys(current).contains(labels) {
        let i = choose|i: int| 0 <= i < current.len() && current_keys(current)[i] == labels;
        assert(entry_labels(current[i]) == labels);
    }
}

/// No label set is both deleted and written in the same cycle.
pub proof fn lemma_deleted_never_upserted(
    previous: Seq<LabelSetView>,
    current: Seq<LabelCounts>,
    labels: LabelSetView,
)
    requires
        stale(previous, current).contains(labels),
    ensures
        !has_entry(current, labels),
        !current_keys(current).contains(labels),
{
    lemma_stale_contains(previous, current, labels);
    lemma_current_keys_contains(current, labels);
}

/// A label set published in the last cycle that no key of this cycle has is
/// deleted, and it is not in the universe after this cycle.
pub proof fn lemma_vanished_label_set_is_deleted(
    previous: Seq<LabelSetView>,
    current: Seq<LabelCounts>,
    rules: Seq<Rule>,
    records: Seq<CacheKeyRecord>,
    labels: LabelSetView,
)
    requires
        previous.contains(labels),
        is_aggregate_of(current, rules, records),
        forall|k: int| 0 <= k < records.len() ==> classify(rules, (#[trigger] records[k]).key@) != labels,
    ensures
        stale(previous, current).contains(labels),
        !current_keys(current).contains(labels),
{
    lemma_absent_counts_zero(rules, records, labels);
    if has_entry(current, labels) {
        let i = choose|i: int| 0 <= i < current.len() && entry_labels(#[trigger] current[i]) == labels;
        assert(current[i].count > 0);
    }
    lemma_stale_contains(previous, current, labels);
    lemma_current_keys_contains(current, labels);
}

/// A label set that some key of this cycle has is not deleted, stays in the
/// universe, and is written with this cycle's count and size.
pub proof fn lemma_surviving_label_set_is_updated(
    previous: Seq<LabelSetView>,
    current: Seq<LabelCounts>,
    rules: Seq<Rule>,
    records: Seq<CacheKeyRecord>,
    k: int,
)
    requires
        is_aggregate_of(current, rules, records),
        0 <= k < records.len(),
    ensures
        !stale(previous, current).contains(classify(rules, records[k].key@)),
        current_keys(current).contains(classify(rules, records[k].key@)),
        exists|i: int|
            0 <= i < current.len() && entry_labels(#[trigger] current[i]) == classify(
                rules,
                records[k].key@,
            ) && current[i].count == count_of(rules, records, classify(rules, records[k].key@))
                && current[i].size == size_of(rules, records, classify(rules, records[k].key@)),
{
    let labels = classify(rules, records[k].key@);
    assert(has_entry(current, labels));
    lemma_stale_contains(previous, current, labels);
    lemma_current_keys_contains(current, labels);
}

/// What one successful cycle publishes: every current entry is written, and
/// every label set in `delete` is removed.
#[derive(Debug)]
pub struct CyclePlan {
    pub upsert: Vec<LabelCounts>,
    pub delete: Vec<LabelSet>,
}

/// What the refresh loop does at the end of a cycle.
#[derive(Debug)]
pub enum CycleAction {
    /// The cycle failed: count the failure and publish nothing.
    RecordFailure,
    /// The cycle succeeded: publish the plan and count the success.
    Publish(CyclePlan),
}

/// Owns the label sets that had a published series at the end of the last
/// completed cycle.
#[derive(Debug)]
pub struct Reconciler {
    universe: Vec<LabelSet>,
}

fn clone_label_set(labels: &LabelSet) -> (r: LabelSet)
    ensures
        label_set_view(r@) == label_set_view(labels@),
{
    let mut r: LabelSet = Vec::new();
    let mut i: usize = 0;
    while i < labels.len()
        invariant
            i <= labels@.len(),
            r@.len() == i,
            label_set_view(r@) == label_set_view(labels@.take(i as int)),
        decreases labels@.len() - i,
    {
        let ghost before = r@;
        r.push((labels[i].0.clone(), labels[i].1.clone()));
        assert forall|k: int| 0 <= k < i implies #[trigger] label_set_view(r@)[k] == label_set_view(
            labels@.take(i + 1),
        )[k] by {
            assert(r@[k] == before[k]);
            assert(label_set_view(before)[k] == label_set_view(labels@.take(i as int))[k]);
        }
        assert(label_set_view(r@) =~= label_set_view(labels@.take(i + 1)));
        i += 1;
    }
    assert(labels@.take(labels@.len() as int) == labels@);
    r
}

impl Reconciler {
    /// The label sets published as of the last completed cycle.
    pub closed spec fn previous_universe(&self) -> Seq<LabelSetView> {
        label_sets_view(self.universe@)
    }

    /// A reconciler before the first cycle: nothing is published yet.
    pub fn new() -> (r: Self)
        ensures
            r.previous_universe() == Seq::<LabelSetView>::empty(),
    {
        let r = Reconciler { universe: Vec::new() };
        assert(r.previous_universe() =~= Seq::<LabelSetView>::empty());
        r
    }

    /// The label sets published as of the last completed cycle.
    pub fn universe(&self) -> (r: &Vec<LabelSet>)
        ensures
            label_sets_view(r@) == self.previous_universe(),
    {
        &self.universe
    }

    /// Ends a cycle whose aggregate is `current`: the label sets published
    /// before that `current` lacks are to be deleted, every entry of `current`
    /// is to be written, and the universe becomes the label sets of `current`.
    pub fn reconcile(&mut self, current: Vec<LabelCounts>) -> (plan: CyclePlan)
        ensures
            plan.upsert@ == current@,
            label_sets_view(plan.delete@) == stale(old(self).previous_universe(), current@),
            final(self).previous_universe() == current_keys(current@),
    {
        let ghost previous = self.previous_universe();
        let mut delete: Vec<LabelSet> = Vec::new();
        let mut i: usize = 0;
        while i < self.universe.len()
            invariant
                i <= self.universe@.len(),
                previous == label_sets_view(self.universe@),
                label_sets_view(delete@) == stale(previous.take(i as int), current@),
            decreases self.universe@.len() - i,
        {
            let labels = &self.universe[i];
            assert(previous.take(i + 1).drop_last() == previous.take(i as int));
            assert(previous.take(i + 1).last() == label_set_view(labels@));
            match crate::aggregate::find_entry(&current, labels) {
                Some(_) => {},
                None => {
                    let ghost before = delete@;
                    delete.push(clone_label_set(labels));
                    assert(label_sets_view(delete@) =~= label_sets_view(before).push(
                        label_set_view(labels@),
                    ));
                },
            }
            i += 1;
        }
        assert(previous.take(previous.len() as int) == previous);
        let mut universe: Vec<LabelSet> = Vec::new();
        let mut j: usize = 0;
        while j < current.len()
            invariant
                j <= current@.len(),
                universe@.len() == j,
                label_sets_view(universe@) == current_keys(current@.take(j as int)),
            decreases current@.len() - j,
        {
            let ghost before = universe@;
            universe.push(clone_label_set(&current[j].labels));
            assert forall|k: int| 0 <= k < j implies #[trigger] label_sets_view(universe@)[k]
                == current_keys(current@.take(j + 1))[k] by {
                assert(universe@[k] == before[k]);
                assert(label_sets_view(before)[k] == current_keys(current@.take(j as int))[k]);
            }
            assert(label_sets_view(universe@) =~= current_keys(current@.take(j + 1)));
            j += 1;
        }
        assert(current@.take(current@.len() as int) == current@);
        self.universe = universe;
        CyclePlan { upsert: current, delete }
    }

    /// Decides one refresh cycle from what the fetch returned (`None`: the
    /// connection or the fetch failed). A failed cycle, or one whose counts
    /// or sizes would overflow, publishes nothing and leaves the universe as
    /// it was; otherwise the records are aggregated with `parser` and
    /// reconciled.
    pub fn cycle(&mut self, parser: &LabelParser, fetched: Option<&Vec<CacheKeyRecord>>) -> (r:
        CycleAction)
        ensures
            fetched is None ==> r is RecordFailure,
            r is RecordFailure ==> *final(self) == *old(self),
            r is RecordFailure ==> final(self).previous_universe() == old(self).previous_universe(),
            fetched matches Some(records) ==> (r is RecordFailure <==> (records@.len() > i64::MAX
                || total_size(records@) > i64::MAX)),
            fetched matches Some(records) ==> (r matches CycleAction::Publish(plan) ==> {
                &&& is_aggregate_of(plan.upsert@, parser.rules(), records@)
                &&& label_sets_view(plan.delete@) == stale(
                    old(self).previous_universe(),
                    plan.upsert@,
                )
                &&& final(self).previous_universe() == current_keys(plan.upsert@)
            }),
    {
        match fetched {
            None => CycleAction::RecordFailure,
            Some(records) => match aggregate(parser, records) {
                None => CycleAction::RecordFailure,
                Some(current) => CycleAction::Publish(self.reconcile(current)),
            },
        }
    }
}

} // verus!
