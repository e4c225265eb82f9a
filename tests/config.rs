use mkey_exporter::config::{ConfigError, Rule};
use mkey_exporter::template::template_refs_valid;

fn template_error(pattern: &str, value: &str) -> bool {
    matches!(Rule::new(pattern, "l", value), Err(ConfigError::Template { .. }))
}

#[test]
fn rule_with_valid_references_loads() {
    let rule = Rule::new(r"\w+:([\w-]+):", "user", "u$1").unwrap();
    assert_eq!(r"\w+:([\w-]+):", rule.pattern.as_str());
    assert_eq!("user", rule.label_name);
    assert_eq!("u$1", rule.label_value);
    assert!(Rule::new(r"(?<kind>\w+):", "type", "${kind}").is_ok());
    assert!(Rule::new(r"(?<kind>\w+):", "type", "$kind-x").is_ok());
    assert!(Rule::new(r"(\w+):", "type", "${1}a").is_ok());
    assert!(Rule::new(r"\w+:", "type", "$0").is_ok());
}

#[test]
fn constant_and_empty_templates_load() {
    assert!(Rule::new(r"u-c:\w+:", "type", "cart").is_ok());
    assert!(Rule::new("", "all", "").is_ok());
    assert!(Rule::new("x", "cost", "$$5").is_ok());
    assert!(Rule::new("x", "cost", "5$").is_ok());
    assert!(Rule::new("x", "cost", "${unclosed").is_ok());
}

#[test]
fn reference_to_missing_group_is_refused() {
    assert!(template_error(r"(\w+):", "$2"));
    assert!(template_error(r"\w+:", "u$1"));
    assert!(template_error(r"(?<kind>\w+):", "$type"));
    assert!(template_error(r"(\w+):", "$1a"));
    assert!(template_error(r"(\w+):", "${}"));
    assert!(template_error(r"(\w+):", "$99999999999999999999999"));
}

#[test]
fn invalid_pattern_is_a_pattern_error() {
    match Rule::new("foo(bar", "l", "v") {
        Err(ConfigError::Pattern(e)) => assert_eq!("foo(bar", e.pattern),
        _ => panic!("expected a pattern error"),
    }
}

#[test]
fn template_check_on_given_groups() {
    let names = vec![None, Some("kind".to_owned()), None];
    assert!(template_refs_valid("$1 $2 ${kind} $$3", 3, &names));
    assert!(!template_refs_valid("$3", 3, &names));
    assert!(!template_refs_valid("${other}", 3, &names));
    assert!(template_refs_valid("no references", 0, &Vec::new()));
}
