//! Classification of one cache key into an ordered label set.

use vstd::prelude::*;
use crate::config::{captures_expand, regex_expansion, regex_finds, Rule, RuleGroup};

verus! {

/// What the cache server reports of one key.
#[derive(Debug)]
pub struct CacheKeyRecord {
    pub key: String,
    pub size: u64,
}

/// A label set: `(name, value)` pairs, at most one per name, in the order in
/// which the rules produced them.
pub type LabelSet = Vec<(String, String)>;

/// The model of a label set.
pub type LabelSetView = Seq<(Seq<char>, Seq<char>)>;

pub open spec fn label_set_view(labels: Seq<(String, String)>) -> LabelSetView {
    labels.map_values(|l: (String, String)| (l.0@, l.1@))
}

pub open spec fn label_names(labels: LabelSetView) -> Seq<Seq<char>> {
    labels.map_values(|l: (Seq<char>, Seq<char>)| l.0)
}

/// The labels that `rules` give `key`: rules are tried in order; a rule whose
/// label name was already produced is skipped, otherwise a rule whose pattern
/// matches adds its name with its expanded value.
pub open spec fn classify(rules: Seq<Rule>, key: Seq<char>) -> LabelSetView
    decreases rules.len(),
{
    if rules.len() == 0 {
        seq![]
    } else {
        let before = classify(rules.drop_last(), key);
        let rule = rules.last();
        if label_names(before).contains(rule.label_name@) || !regex_finds(rule.pattern@, key) {
            before
        } else {
            before.push((rule.label_name@, regex_expansion(rule.pattern@, key, rule.label_value@)))
        }
    }
}

/// A key that no rule's pattern matches gets the empty label set.
pub proof fn lemma_unmatched_key_has_no_labels(rules: Seq<Rule>, key: Seq<char>)
    requires
        forall|i: int| 0 <= i < rules.len() ==> !regex_finds(#[trigger] rules[i].pattern@, key),
    ensures
        classify(rules, key) == Seq::<(Seq<char>, Seq<char>)>::empty(),
    decreases rules.len(),
{
    if rules.len() > 0 {
        let before = rules.drop_last();
        assert forall|i: int| 0 <= i < before.len() implies !regex_finds(
            #[trigger] before[i].pattern@,
            key,
        ) by {
            assert(before[i] == rules[i]);
        }
        lemma_unmatched_key_has_no_labels(before, key);
        assert(!regex_finds(rules[rules.len() - 1].pattern@, key));
    }
}

/// A label set holds at most one label of each name.
pub proof fn lemma_label_names_distinct(rules: Seq<Rule>, key: Seq<char>)
    ensures
        label_names(classify(rules, key)).no_duplicates(),
    decreases rules.len(),
{
    if rules.len() > 0 {
        let before = classify(rules.drop_last(), key);
        lemma_label_names_distinct(rules.drop_last(), key);
        let rule = rules.last();
        if !label_names(before).contains(rule.label_name@) && regex_finds(rule.pattern@, key) {
            let after = before.push(
                (rule.label_name@, regex_expansion(rule.pattern@, key, rule.label_value@)),
            );
            assert(label_names(after) == label_names(before).push(rule.label_name@));
        }
    }
}

/// Labels produced by the first rules stay in the label set of all rules.
proof fn lemma_classify_keeps_labels(rules: Seq<Rule>, key: Seq<char>, k: int)
    requires
        0 <= k <= rules.len(),
    ensures
        forall|l: (Seq<char>, Seq<char>)|
            classify(rules.take(k), key).contains(l) ==> #[trigger] classify(rules, key).contains(l),
    decreases rules.len() - k,
{
    if k == rules.len() {
        assert(rules.take(k) == rules);
    } else {
        lemma_classify_keeps_labels(rules, key, k + 1);
        let small = classify(rules.take(k), key);
        let big = classify(rules.take(k + 1), key);
        assert(rules.take(k + 1).drop_last() == rules.take(k));
        assert forall|l: (Seq<char>, Seq<char>)| small.contains(l) implies big.contains(l) by {
            let i = choose|i: int| 0 <= i < small.len() && small[i] == l;
            if big != small {
                assert(big[i] == small[i]);
            }
        }
    }
}

/// Every label is named after a rule whose pattern matches the key.
proof fn lemma_labels_come_from_matching_rules(rules: Seq<Rule>, key: Seq<char>)
    ensures
        forall|n: Seq<char>|
            #[trigger] label_names(classify(rules, key)).contains(n) ==> exists|j: int|
                0 <= j < rules.len() && rules[j].label_name@ == n && regex_finds(
                    #[trigger] rules[j].pattern@,
                    key,
                ),
    decreases rules.len(),
{
    if rules.len() > 0 {
        let before_rules = rules.drop_last();
        lemma_labels_come_from_matching_rules(before_rules, key);
        let before = classify(before_rules, key);
        let all = classify(rules, key);
        let rule = rules.last();
        assert forall|n: Seq<char>| #[trigger] label_names(all).contains(n) implies exists|j: int|
            0 <= j < rules.len() && rules[j].label_name@ == n && regex_finds(
                #[trigger] rules[j].pattern@,
                key,
            ) by {
            let i = choose|i: int| 0 <= i < label_names(all).len() && label_names(all)[i] == n;
            if i < before.len() {
                assert(all[i] == before[i]);
                assert(label_names(before)[i] == n);
                assert(label_names(before).contains(n));
                let j = choose|j: int|
                    0 <= j < before_rules.len() && before_rules[j].label_name@ == n && regex_finds(
                        #[trigger] before_rules[j].pattern@,
                        key,
                    );
                assert(rules[j] == before_rules[j]);
            } else {
                let last = rules.len() - 1;
                assert(rules[last] == rule);
                assert(all != before);
                assert(regex_finds(rules[last].pattern@, key));
                assert(all[i].0 == rule.label_name@);
                assert(rules[last].label_name@ == n);
            }
        }
    }
}

/// First match per name wins: when rule `i` matches the key and no earlier
/// rule of the same label name does, the key's label of that name is rule
/// `i`'s expanded value; later rules of that name never override it.
pub proof fn lemma_first_match_wins(rules: Seq<Rule>, key: Seq<char>, i: int)
    requires
        0 <= i < rules.len(),
        regex_finds(rules[i].pattern@, key),
        forall|j: int|
            0 <= j < i && (#[trigger] rules[j]).label_name@ == rules[i].label_name@ ==> !regex_finds(
                rules[j].pattern@,
                key,
            ),
    ensures
        classify(rules, key).contains(
            (rules[i].label_name@, regex_expansion(rules[i].pattern@, key, rules[i].label_value@)),
        ),
        label_names(classify(rules, key)).no_duplicates(),
{
    let first = rules.take(i);
    let name = rules[i].label_name@;
    lemma_labels_come_from_matching_rules(first, key);
    if label_names(classify(first, key)).contains(name) {
        let j = choose|j: int|
            0 <= j < first.len() && first[j].label_name@ == name && regex_finds(
                #[trigger] first[j].pattern@,
                key,
            );
        assert(first[j] == rules[j]);
    }
    assert(rules.take(i + 1).drop_last() == first);
    assert(rules.take(i + 1).last() == rules[i]);
    let pair = (name, regex_expansion(rules[i].pattern@, key, rules[i].label_value@));
    let with = classify(rules.take(i + 1), key);
    assert(with == classify(first, key).push(pair));
    assert(with[with.len() - 1] == pair);
    lemma_classify_keeps_labels(rules, key, i + 1);
    lemma_label_names_distinct(rules, key);
}

/// Whether some label of `labels` is named `name`.
fn has_label_name(labels: &LabelSet, name: &String) -> (r: bool)
    ensures
        r == label_names(label_set_view(labels@)).contains(name@),
{
    let ghost names = label_names(label_set_view(labels@));
    let mut i: usize = 0;
    while i < labels.len()
        invariant
            i <= labels@.len(),
            names == label_names(label_set_view(labels@)),
            forall|j: int| 0 <= j < i ==> names[j] != name@,
        decreases labels@.len() - i,
    {
        if labels[i].0 == *name {
            assert(names[i as int] == name@);
            return true;
        }
        i += 1;
    }
    assert(!names.contains(name@));
    false
}

/// Applies the rules of one group to keys.
#[derive(Debug)]
pub struct LabelParser<'a> {
    config: &'a RuleGroup,
}

impl<'a> LabelParser<'a> {
    /// The rules this parser applies, in order.
    pub closed spec fn rules(&self) -> Seq<Rule> {
        self.config.rules@
    }

    pub fn new(config: &'a RuleGroup) -> (r: Self)
        ensures
            r.rules() == config.rules@,
    {
        LabelParser { config }
    }

    /// The label set of `meta.key` under this parser's rules; empty when no
    /// rule matches.
    pub fn extract(&self, meta: &CacheKeyRecord) -> (r: LabelSet)
        ensures
            label_set_view(r@) == classify(self.rules(), meta.key@),
    {
        let rules = &self.config.rules;
        let key = meta.key.as_str();
        let mut labels: LabelSet = Vec::new();
        let mut i: usize = 0;
        while i < rules.len()
            invariant
                i <= rules@.len(),
                rules@ == self.rules(),
                key@ == meta.key@,
                label_set_view(labels@) == classify(rules@.take(i as int), key@),
            decreases rules@.len() - i,
        {
            let rule = &rules[i];
            assert(rules@.take(i + 1).drop_last() == rules@.take(i as int));
            assert(rules@.take(i + 1).last() == rule);
            if !has_label_name(&labels, &rule.label_name) {
                let found = captures_expand(&rule.pattern, key, rule.label_value.as_str());
                match found {
                    Some(value) => {
                        let ghost before = labels@;
                        labels.push((rule.label_name.clone(), value));
                        assert(label_set_view(labels@) == label_set_view(before).push(
                            (rule.label_name@, value@),
                        ));
                    },
                    None => {},
                }
            }
            i += 1;
        }
        assert(rules@.take(rules@.len() as int) == rules@);
        labels
    }
}

} // verus!
