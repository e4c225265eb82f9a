use mkey_exporter::config::{Rule, RuleGroup, RulePattern};
use mkey_exporter::keys::{CacheKeyRecord, LabelParser};

fn new_meta(key: &str) -> CacheKeyRecord {
    CacheKeyRecord {
        key: key.to_owned(),
        size: 0,
    }
}

fn user_rule() -> Rule {
    Rule {
        pattern: RulePattern::new(r"\w+:([\w-]+):").unwrap(),
        label_name: "user".to_owned(),
        label_value: "u$1".to_owned(),
    }
}

fn type_rule() -> Rule {
    Rule {
        pattern: RulePattern::new(r"([\w-]+):\w+:").unwrap(),
        label_name: "type".to_owned(),
        label_value: "$1".to_owned(),
    }
}

fn specific_type_rules() -> Vec<Rule> {
    vec![
        Rule {
            pattern: RulePattern::new(r"u-c:\w+:").unwrap(),
            label_name: "type".to_owned(),
            label_value: "cart".to_owned(),
        },
        Rule {
            pattern: RulePattern::new(r"u-p:\w+:").unwrap(),
            label_name: "type".to_owned(),
            label_value: "profile".to_owned(),
        },
        Rule {
            pattern: RulePattern::new(r"([\w-]+):\w+:").unwrap(),
            label_name: "type".to_owned(),
            label_value: "unknown".to_owned(),
        },
    ]
}

fn pair(name: &str, value: &str) -> (String, String) {
    (name.to_owned(), value.to_owned())
}

#[test]
fn test_extract_single_label() {
    let meta = new_meta("u-p:12345:something");
    let group = RuleGroup {
        name: "test".to_owned(),
        rules: vec![user_rule()],
    };

    let parser = LabelParser::new(&group);
    let labels = parser.extract(&meta);

    assert_eq!(vec![("user".to_owned(), "u12345".to_owned())], labels);
}

#[test]
fn test_extract_multiple_labels() {
    let meta = new_meta("u-p:12345:something");
    let group = RuleGroup {
        name: "test".to_owned(),
        rules: vec![user_rule(), type_rule()],
    };

    let parser = LabelParser::new(&group);
    let labels = parser.extract(&meta);

    assert_eq!(
        vec![
            ("user".to_owned(), "u12345".to_owned()),
            ("type".to_owned(), "u-p".to_owned()),
        ],
        labels
    );
}

#[test]
fn test_extract_multiple_labels_precedence() {
    let meta1 = new_meta("u-p:123:something");
    let meta2 = new_meta("u-c:456:something");
    let meta3 = new_meta("u-v:789:something");

    let mut rules = Vec::new();
    rules.push(user_rule());
    rules.extend(specific_type_rules());

    let group = RuleGroup {
        name: "test".to_owned(),
        rules,
    };

    let parser = LabelParser::new(&group);
    let labels1 = parser.extract(&meta1);
    let labels2 = parser.extract(&meta2);
    let labels3 = parser.extract(&meta3);

    assert_eq!(
        vec![
            ("user".to_owned(), "u123".to_owned()),
            ("type".to_owned(), "profile".to_owned()),
        ],
        labels1
    );
    assert_eq!(
        vec![
            ("user".to_owned(), "u456".to_owned()),
            ("type".to_owned(), "cart".to_owned()),
        ],
        labels2
    );
    assert_eq!(
        vec![
            ("user".to_owned(), "u789".to_owned()),
            ("type".to_owned(), "unknown".to_owned()),
        ],
        labels3
    );
}

#[test]
fn type_rules_alone_take_the_first_match_per_name() {
    let group = RuleGroup {
        name: "types".to_owned(),
        rules: specific_type_rules(),
    };
    let parser = LabelParser::new(&group);
    assert_eq!(vec![pair("type", "profile")], parser.extract(&new_meta("u-p:123:x")));
    assert_eq!(vec![pair("type", "unknown")], parser.extract(&new_meta("u-v:789:x")));
}

#[test]
fn key_matching_no_rule_has_no_labels() {
    let group = RuleGroup {
        name: "test".to_owned(),
        rules: vec![user_rule(), type_rule()],
    };
    let parser = LabelParser::new(&group);
    assert!(parser.extract(&new_meta("plainkey")).is_empty());
    assert!(parser.extract(&new_meta("")).is_empty());
}

#[test]
fn empty_group_gives_no_labels() {
    let group = RuleGroup {
        name: "empty".to_owned(),
        rules: Vec::new(),
    };
    let parser = LabelParser::new(&group);
    assert!(parser.extract(&new_meta("u-p:1:x")).is_empty());
}

#[test]
fn constant_template_with_empty_pattern_labels_every_key() {
    let group = RuleGroup {
        name: "all".to_owned(),
        rules: vec![Rule {
            pattern: RulePattern::new("").unwrap(),
            label_name: "all".to_owned(),
            label_value: "yes".to_owned(),
        }],
    };
    let parser = LabelParser::new(&group);
    assert_eq!(vec![pair("all", "yes")], parser.extract(&new_meta("anything")));
}

#[test]
fn expansion_replaces_the_group_reference() {
    let group = RuleGroup {
        name: "test".to_owned(),
        rules: vec![type_rule()],
    };
    let parser = LabelParser::new(&group);
    let labels = parser.extract(&new_meta("order:42:item"));
    assert_eq!(vec![pair("type", "order")], labels);
    assert_ne!("$1", labels[0].1);
}

#[test]
fn invalid_pattern_is_refused() {
    let err = RulePattern::new("foo(bar").unwrap_err();
    assert_eq!("foo(bar", err.pattern);
}

#[test]
fn pattern_keeps_its_source() {
    let p = RulePattern::new(r"^(\w+):").unwrap();
    assert_eq!(r"^(\w+):", p.as_str());
}
