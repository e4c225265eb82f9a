use mkey_exporter::config::{Rule, RuleGroup, RulePattern};
use mkey_exporter::keys::{CacheKeyRecord, LabelParser};
use mkey_exporter::reconcile::{CycleAction, CyclePlan, Reconciler};

fn group() -> RuleGroup {
    RuleGroup {
        name: "test".to_owned(),
        rules: vec![Rule {
            pattern: RulePattern::new(r"^(\w+):").unwrap(),
            label_name: "type".to_owned(),
            label_value: "$1".to_owned(),
        }],
    }
}

fn record(key: &str, size: u64) -> CacheKeyRecord {
    CacheKeyRecord {
        key: key.to_owned(),
        size,
    }
}

fn set(value: &str) -> Vec<(String, String)> {
    vec![("type".to_owned(), value.to_owned())]
}

fn publish(action: CycleAction) -> CyclePlan {
    match action {
        CycleAction::Publish(plan) => plan,
        CycleAction::RecordFailure => panic!("cycle failed"),
    }
}

#[test]
fn vanished_label_set_is_deleted() {
    let g = group();
    let parser = LabelParser::new(&g);
    let mut rec = Reconciler::new();
    let first = publish(rec.cycle(&parser, Some(&vec![record("user:1", 1), record("cart:1", 2)])));
    assert!(first.delete.is_empty());
    assert_eq!(2, first.upsert.len());

    let second = publish(rec.cycle(&parser, Some(&vec![record("user:2", 3)])));
    assert_eq!(vec![set("cart")], second.delete);
    assert_eq!(1, second.upsert.len());
    assert_eq!(vec![set("user")], *rec.universe());
}

#[test]
fn surviving_label_set_gets_new_values() {
    let g = group();
    let parser = LabelParser::new(&g);
    let mut rec = Reconciler::new();
    publish(rec.cycle(&parser, Some(&vec![record("user:1", 1)])));
    let second = publish(rec.cycle(&parser, Some(&vec![record("user:1", 4), record("user:2", 6)])));
    assert!(second.delete.is_empty());
    assert_eq!(1, second.upsert.len());
    assert_eq!(set("user"), second.upsert[0].labels);
    assert_eq!((2, 10), (second.upsert[0].count, second.upsert[0].size));
}

#[test]
fn failed_fetch_changes_nothing() {
    let g = group();
    let parser = LabelParser::new(&g);
    let mut rec = Reconciler::new();
    publish(rec.cycle(&parser, Some(&vec![record("user:1", 1), record("cart:1", 2)])));
    let before = rec.universe().clone();
    assert!(matches!(rec.cycle(&parser, None), CycleAction::RecordFailure));
    assert_eq!(before, *rec.universe());
}

#[test]
fn overflowing_cycle_changes_nothing() {
    let g = group();
    let parser = LabelParser::new(&g);
    let mut rec = Reconciler::new();
    publish(rec.cycle(&parser, Some(&vec![record("user:1", 1)])));
    let huge = vec![record("user:1", u64::MAX)];
    assert!(matches!(rec.cycle(&parser, Some(&huge)), CycleAction::RecordFailure));
    assert_eq!(vec![set("user")], *rec.universe());
}

#[test]
fn new_reconciler_has_empty_universe() {
    let rec = Reconciler::new();
    assert!(rec.universe().is_empty());
}

#[test]
fn empty_cycle_deletes_everything() {
    let g = group();
    let parser = LabelParser::new(&g);
    let mut rec = Reconciler::new();
    publish(rec.cycle(&parser, Some(&vec![record("user:1", 1), record("zzz", 2)])));
    let second = publish(rec.cycle(&parser, Some(&Vec::new())));
    assert_eq!(2, second.delete.len());
    assert!(second.upsert.is_empty());
    assert!(rec.universe().is_empty());
}
