//! Rules that turn a cache key into labels.

use vstd::prelude::*;
use crate::template::{names_view, template_ok, template_refs_valid};

verus! {

#[verifier::external_type_specification]
#[verifier::external_body]
pub struct ExRegex(regex::Regex);

#[verifier::external_type_specification]
#[verifier::external_body]
pub struct ExRegexError(regex::Error);

/// Whether `regex::Regex::new` compiles `pattern` (valid syntax, within the
/// default size limit).
pub uninterp spec fn regex_accepts(pattern: Seq<char>) -> bool;

/// Whether the regex compiled from `pattern` matches somewhere in `haystack`.
pub uninterp spec fn regex_finds(pattern: Seq<char>, haystack: Seq<char>) -> bool;

/// The text that `template` expands to against the first match of the regex
/// compiled from `pattern` in `haystack`, `$n` / `$name` replaced by groups.
pub uninterp spec fn regex_expansion(
    pattern: Seq<char>,
    haystack: Seq<char>,
    template: Seq<char>,
) -> Seq<char>;

/// How many capture groups the regex compiled from `pattern` has, the
/// implicit group of the whole match included.
pub uninterp spec fn regex_group_count(pattern: Seq<char>) -> nat;

/// The names of the capture groups of the regex compiled from `pattern`, in
/// order; `None` for an unnamed group.
pub uninterp spec fn regex_group_names(pattern: Seq<char>) -> Seq<Option<Seq<char>>>;

/// A template without any `$` holds no group reference.
pub open spec fn is_constant_template(template: Seq<char>) -> bool {
    !template.contains('$')
}

/// Relies on `regex::Regex::new`: it returns `Ok` exactly for the patterns it
/// accepts, which depends on the pattern alone.
#[verifier::external_body]
fn compile(pattern: &str) -> (r: Result<regex::Regex, regex::Error>)
    ensures
        r is Ok <==> regex_accepts(pattern@),
{
    regex::Regex::new(pattern)
}

/// A compiled regular expression together with the text it was compiled from.
/// The only way to build one is `RulePattern::new`, so `regex` is always the
/// compilation of `source`.
#[derive(Debug)]
pub struct RulePattern {
    regex: regex::Regex,
    source: String,
}

impl View for RulePattern {
    type V = Seq<char>;

    closed spec fn view(&self) -> Seq<char> {
        self.source@
    }
}

/// A pattern that `regex` refused, with the text of the pattern.
#[derive(Debug)]
pub struct PatternError {
    pub pattern: String,
    pub cause: regex::Error,
}

impl RulePattern {
    /// Compiles `pattern`; fails exactly when the regex engine refuses it.
    pub fn new(pattern: &str) -> (r: Result<RulePattern, PatternError>)
        ensures
            r is Ok <==> regex_accepts(pattern@),
            r matches Ok(p) ==> p@ == pattern@,
            r matches Err(e) ==> e.pattern@ == pattern@,
    {
        match compile(pattern) {
            Ok(regex) => Ok(RulePattern { regex, source: String::from_str(pattern) }),
            Err(cause) => Err(PatternError { pattern: String::from_str(pattern), cause }),
        }
    }

    /// The text this pattern was compiled from.
    pub fn as_str(&self) -> (r: &str)
        ensures
            r@ == self@,
    {
        self.source.as_str()
    }
}

/// Relies on `regex::Regex::captures` and `regex::Captures::expand`: the regex
/// is the compilation of `p@`, so whether it matches `key` and what `template`
/// expands to depend on `p@`, `key` and `template` alone; a template without
/// `$` is copied as it is.
#[verifier::external_body]
pub(crate) fn captures_expand(p: &RulePattern, key: &str, template: &str) -> (r: Option<String>)
    ensures
        r is Some <==> regex_finds(p@, key@),
        r matches Some(v) ==> v@ == regex_expansion(p@, key@, template@),
        r matches Some(v) ==> (is_constant_template(template@) ==> v@ == template@),
{
    match p.regex.captures(key) {
        Some(c) => {
            let mut value = String::new();
            c.expand(template, &mut value);
            Some(value)
        },
        None => None,
    }
}

/// Relies on `regex::Regex::captures_len`: the number of groups of the regex
/// compiled from `p@`, which is never zero.
#[verifier::external_body]
fn group_count(p: &RulePattern) -> (r: usize)
    ensures
        r == regex_group_count(p@),
        r > 0,
{
    p.regex.captures_len()
}

/// Relies on `regex::Regex::capture_names`: the names of the groups of the
/// regex compiled from `p@`, one item per group.
#[verifier::external_body]
fn group_names(p: &RulePattern) -> (r: Vec<Option<String>>)
    ensures
        names_view(r@) == regex_group_names(p@),
{
    p.regex.capture_names().map(|n| n.map(|s| s.to_string())).collect()
}

/// Why a rule could not be loaded.
#[derive(Debug)]
pub enum ConfigError {
    /// The pattern does not compile.
    Pattern(PatternError),
    /// The label value refers to a group that the pattern does not have.
    Template { label_name: String, label_value: String },
}

/// Whether a rule with this pattern and label value can be loaded.
pub open spec fn rule_ok(pattern: Seq<char>, label_value: Seq<char>) -> bool {
    regex_accepts(pattern) && template_ok(
        label_value,
        regex_group_count(pattern),
        regex_group_names(pattern),
    )
}

/// One rule: when `pattern` matches a key, the key gets the label
/// `label_name` with `label_value` expanded against the match.
#[derive(Debug)]
pub struct Rule {
    pub pattern: RulePattern,
    pub label_name: String,
    pub label_value: String,
}

impl Rule {
    /// Loads a rule: compiles `pattern` and checks that every group that
    /// `label_value` refers to exists in it.
    pub fn new(pattern: &str, label_name: &str, label_value: &str) -> (r: Result<Rule, ConfigError>)
        ensures
            r is Ok <==> rule_ok(pattern@, label_value@),
            r matches Ok(rule) ==> rule.pattern@ == pattern@ && rule.label_name@ == label_name@
                && rule.label_value@ == label_value@,
            r matches Err(ConfigError::Pattern(e)) ==> !regex_accepts(pattern@) && e.pattern@
                == pattern@,
            r matches Err(ConfigError::Template { label_name: n, label_value: v }) ==> regex_accepts(
                pattern@,
            ) && n@ == label_name@ && v@ == label_value@,
    {
        let compiled = match RulePattern::new(pattern) {
            Ok(p) => p,
            Err(e) => {
                return Err(ConfigError::Pattern(e));
            },
        };
        let groups = group_count(&compiled);
        let names = group_names(&compiled);
        if !template_refs_valid(label_value, groups, &names) {
            return Err(
                ConfigError::Template {
                    label_name: String::from_str(label_name),
                    label_value: String::from_str(label_value),
                },
            );
        }
        Ok(
            Rule {
                pattern: compiled,
                label_name: String::from_str(label_name),
                label_value: String::from_str(label_value),
            },
        )
    }
}

/// A named, ordered list of rules; earlier rules take precedence.
#[derive(Debug)]
pub struct RuleGroup {
    pub name: String,
    pub rules: Vec<Rule>,
}

} // verus!
