use mkey_exporter::aggregate::{aggregate, LabelCounts};
use mkey_exporter::config::{Rule, RuleGroup, RulePattern};
use mkey_exporter::keys::{CacheKeyRecord, LabelParser};

fn group() -> RuleGroup {
    RuleGroup {
        name: "test".to_owned(),
        rules: vec![Rule {
            pattern: RulePattern::new(r"^(\w+):").unwrap(),
            label_name: "type".to_owned(),
            label_value: "$1".to_owned(),
        }],
    }
}

fn record(key: &str, size: u64) -> CacheKeyRecord {
    CacheKeyRecord {
        key: key.to_owned(),
        size,
    }
}

fn find<'a>(entries: &'a [LabelCounts], value: Option<&str>) -> &'a LabelCounts {
    entries
        .iter()
        .find(|e| match value {
            Some(v) => e.labels == vec![("type".to_owned(), v.to_owned())],
            None => e.labels.is_empty(),
        })
        .unwrap()
}

#[test]
fn counts_and_sizes_per_label_set() {
    let g = group();
    let parser = LabelParser::new(&g);
    let records = vec![
        record("user:1", 10),
        record("cart:2", 5),
        record("user:3", 7),
        record("nolabel", 100),
        record("other", 1),
    ];
    let entries = aggregate(&parser, &records).unwrap();
    assert_eq!(3, entries.len());
    let user = find(&entries, Some("user"));
    assert_eq!((2, 17), (user.count, user.size));
    let cart = find(&entries, Some("cart"));
    assert_eq!((1, 5), (cart.count, cart.size));
    let none = find(&entries, None);
    assert_eq!((2, 101), (none.count, none.size));
}

#[test]
fn totals_match_the_batch() {
    let g = group();
    let parser = LabelParser::new(&g);
    let records = vec![
        record("a:1", 3),
        record("b:1", 4),
        record("a:2", 5),
        record("zzz", 6),
        record("b:9", 0),
    ];
    let entries = aggregate(&parser, &records).unwrap();
    let count: i64 = entries.iter().map(|e| e.count).sum();
    let size: i64 = entries.iter().map(|e| e.size).sum();
    assert_eq!(5, count);
    assert_eq!(18, size);
}

#[test]
fn empty_batch_has_no_entries() {
    let g = group();
    let parser = LabelParser::new(&g);
    let entries = aggregate(&parser, &Vec::new()).unwrap();
    assert!(entries.is_empty());
}

#[test]
fn size_overflow_is_refused() {
    let g = group();
    let parser = LabelParser::new(&g);
    let records = vec![record("a:1", i64::MAX as u64), record("b:1", 1)];
    assert!(aggregate(&parser, &records).is_none());
    let big = vec![record("a:1", u64::MAX)];
    assert!(aggregate(&parser, &big).is_none());
}

#[test]
fn largest_total_size_fits() {
    let g = group();
    let parser = LabelParser::new(&g);
    let records = vec![record("a:1", i64::MAX as u64 - 1), record("a:2", 1)];
    let entries = aggregate(&parser, &records).unwrap();
    assert_eq!(1, entries.len());
    assert_eq!((2, i64::MAX), (entries[0].count, entries[0].size));
}
