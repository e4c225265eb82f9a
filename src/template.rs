//! Group references in label value templates, and their check against the
//! groups of a pattern.
//!
//! A template refers to a group by `$ref` (`ref` the longest run of
//! `[0-9A-Za-z_]`) or by `${ref}` (`ref` anything up to the next `}`); `$$`
//! is a literal `$`, and a `$` that starts neither form is literal too. A
//! reference of digits only is a group index, any other a group name.

use vstd::prelude::*;

verus! {

pub open spec fn is_name_char(c: char) -> bool {
    ('0' <= c && c <= '9') || ('a' <= c && c <= 'z') || ('A' <= c && c <= 'Z') || c == '_'
}

/// How many name characters `t` holds from position `i` on, up to the first
/// other character.
pub open spec fn name_run(t: Seq<char>, i: int) -> nat
    decreases t.len() - i,
{
    if 0 <= i < t.len() && is_name_char(t[i]) {
        1 + name_run(t, i + 1)
    } else {
        0
    }
}

/// A run of name characters ends within the text.
pub proof fn lemma_name_run_bound(t: Seq<char>, i: int)
    requires
        0 <= i,
    ensures
        i + name_run(t, i) <= t.len() || name_run(t, i) == 0,
    decreases t.len() - i,
{
    if 0 <= i < t.len() && is_name_char(t[i]) {
        lemma_name_run_bound(t, i + 1);
    }
}

/// How many characters `t` holds from position `i` on before the first `}`
/// (or the end).
pub open spec fn brace_len(t: Seq<char>, i: int) -> nat
    decreases t.len() - i,
{
    if 0 <= i < t.len() && t[i] != '}' {
        1 + brace_len(t, i + 1)
    } else {
        0
    }
}

pub open spec fn all_digits(r: Seq<char>) -> bool {
    forall|k: int| 0 <= k < r.len() ==> '0' <= #[trigger] r[k] && r[k] <= '9'
}

pub open spec fn digit_value(c: char) -> nat {
    (c as nat - '0' as nat) as nat
}

/// The number that a run of decimal digits writes.
pub open spec fn digits_value(r: Seq<char>) -> nat
    decreases r.len(),
{
    if r.len() == 0 {
        0
    } else {
        digits_value(r.drop_last()) * 10 + digit_value(r.last())
    }
}

/// Whether reference `r` names a group of a pattern with `groups` groups
/// named `names`.
pub open spec fn reference_ok(r: Seq<char>, groups: nat, names: Seq<Option<Seq<char>>>) -> bool {
    if r.len() > 0 && all_digits(r) {
        digits_value(r) < groups
    } else {
        names.contains(Some(r))
    }
}

/// Whether every reference of `t` from position `i` on names a group.
pub open spec fn template_ok_from(
    t: Seq<char>,
    i: int,
    groups: nat,
    names: Seq<Option<Seq<char>>>,
) -> bool
    decreases t.len() - i,
{
    if i < 0 || i >= t.len() {
        true
    } else if t[i] != '$' {
        template_ok_from(t, i + 1, groups, names)
    } else if i + 1 < t.len() && t[i + 1] == '$' {
        template_ok_from(t, i + 2, groups, names)
    } else if i + 1 < t.len() && t[i + 1] == '{' {
        let end = i + 2 + brace_len(t, i + 2);
        if end < t.len() {
            reference_ok(t.subrange(i + 2, end), groups, names) && template_ok_from(
                t,
                end + 1,
                groups,
                names,
            )
        } else {
            template_ok_from(t, i + 1, groups, names)
        }
    } else {
        let n = name_run(t, i + 1);
        proof {
            lemma_name_run_bound(t, i + 1);
        }
        if n > 0 {
            reference_ok(t.subrange(i + 1, i + 1 + n), groups, names) && template_ok_from(
                t,
                i + 1 + n,
                groups,
                names,
            )
        } else {
            template_ok_from(t, i + 1, groups, names)
        }
    }
}

/// Whether every group reference of template `t` names one of the `groups`
/// groups of a pattern, whose names are `names`.
pub open spec fn template_ok(t: Seq<char>, groups: nat, names: Seq<Option<Seq<char>>>) -> bool {
    template_ok_from(t, 0, groups, names)
}

pub open spec fn names_view(names: Seq<Option<String>>) -> Seq<Option<Seq<char>>> {
    names.map_values(
        |n: Option<String>|
            match n {
                Some(s) => Some(s@),
                None => None,
            },
    )
}

fn is_name_char_exec(c: char) -> (r: bool)
    ensures
        r == is_name_char(c),
{
    ('0' <= c && c <= '9') || ('a' <= c && c <= 'z') || ('A' <= c && c <= 'Z') || c == '_'
}

fn name_run_exec(t: &str, len: usize, i: usize) -> (n: usize)
    requires
        len == t@.len(),
        i <= len,
    ensures
        n == name_run(t@, i as int),
        i + n <= len,
{
    let mut j = i;
    while j < len && is_name_char_exec(t.get_char(j))
        invariant
            i <= j <= len,
            len == t@.len(),
            name_run(t@, i as int) == (j - i) + name_run(t@, j as int),
        decreases len - j,
    {
        j += 1;
    }
    j - i
}

fn brace_len_exec(t: &str, len: usize, i: usize) -> (n: usize)
    requires
        len == t@.len(),
        i <= len,
    ensures
        n == brace_len(t@, i as int),
        i + n <= len,
{
    let mut j = i;
    while j < len && t.get_char(j) != '}'
        invariant
            i <= j <= len,
            len == t@.len(),
            brace_len(t@, i as int) == (j - i) + brace_len(t@, j as int),
        decreases len - j,
    {
        j += 1;
    }
    j - i
}

proof fn lemma_digits_value_grows(r: Seq<char>, k: int)
    requires
        0 <= k <= r.len(),
    ensures
        digits_value(r.take(k)) <= digits_value(r),
    decreases r.len() - k,
{
    if k < r.len() {
        lemma_digits_value_grows(r, k + 1);
        assert(r.take(k + 1).drop_last() == r.take(k));
    } else {
        assert(r.take(k) == r);
    }
}

/// Whether the reference `t[start..end]` names a group.
fn reference_ok_exec(t: &str, start: usize, end: usize, groups: usize, names: &Vec<Option<String>>) -> (r: bool)
    requires
        start <= end <= t@.len(),
    ensures
        r == reference_ok(t@.subrange(start as int, end as int), groups as nat, names_view(names@)),
{
    let ghost text = t@.subrange(start as int, end as int);
    let mut digits = start < end;
    let mut k = start;
    while k < end
        invariant
            start <= k <= end <= t@.len(),
            text == t@.subrange(start as int, end as int),
            digits == (start < end && forall|m: int| 0 <= m < k - start ==> '0' <= #[trigger] text[m] && text[m] <= '9'),
        decreases end - k,
    {
        let c = t.get_char(k);
        assert(c == text[k - start]);
        if !('0' <= c && c <= '9') {
            digits = false;
        }
        k += 1;
    }
    assert(digits == (text.len() > 0 && all_digits(text)));
    if digits {
        if groups == 0 {
            return false;
        }
        let mut value: usize = 0;
        let mut k = start;
        while k < end
            invariant
                start <= k <= end <= t@.len(),
                text == t@.subrange(start as int, end as int),
                all_digits(text),
                value == digits_value(text.take(k - start)),
                value < groups,
            decreases end - k,
        {
            let c = t.get_char(k);
            assert(c == text[k - start]);
            assert(text.take(k - start + 1).drop_last() == text.take(k - start));
            assert(text.take(k - start + 1).last() == c);
            let d = (c as u32 - '0' as u32) as usize;
            assert(d == digit_value(c));
            if d >= groups || value > (groups - d - 1) / 10 {
                assert(value * 10 + d >= groups) by (nonlinear_arith)
                    requires
                        d >= groups || value > (groups - d - 1) / 10,
                ;
                proof {
                    lemma_digits_value_grows(text, k - start + 1);
                }
                return false;
            }
            assert(value * 10 + d < groups) by (nonlinear_arith)
                requires
                    d < groups,
                    value <= (groups - d - 1) / 10,
            ;
            value = value * 10 + d;
            k += 1;
        }
        assert(text.take(end - start) == text);
        true
    } else {
        let name = String::from_str(t.substring_char(start, end));
        let ghost view = names_view(names@);
        let mut j: usize = 0;
        while j < names.len()
            invariant
                j <= names@.len(),
                view == names_view(names@),
                name@ == text,
                text == t@.subrange(start as int, end as int),
                !(text.len() > 0 && all_digits(text)),
                forall|m: int| 0 <= m < j ==> view[m] != Some(text),
            decreases names@.len() - j,
        {
            match &names[j] {
                Some(n) => {
                    if *n == name {
                        assert(view.len() == names@.len());
                        assert(view[j as int] == Some(text));
                        assert(view.contains(Some(text)));
                        return true;
                    }
                },
                None => {},
            }
            j += 1;
        }
        false
    }
}

/// Whether every group reference of `t` names one of the `groups` groups,
/// named `names`, of a pattern.
pub fn template_refs_valid(t: &str, groups: usize, names: &Vec<Option<String>>) -> (r: bool)
    ensures
        r == template_ok(t@, groups as nat, names_view(names@)),
{
    let len = t.unicode_len();
    let ghost tv = t@;
    let ghost g = groups as nat;
    let ghost nv = names_view(names@);
    let mut i: usize = 0;
    while i < len
        invariant
            i <= len == tv.len(),
            tv == t@,
            g == groups as nat,
            nv == names_view(names@),
            template_ok(tv, g, nv) == template_ok_from(tv, i as int, g, nv),
        decreases len - i,
    {
        if t.get_char(i) != '$' {
            i += 1;
        } else if i + 1 < len && t.get_char(i + 1) == '$' {
            i += 2;
        } else if i + 1 < len && t.get_char(i + 1) == '{' {
            let n = brace_len_exec(t, len, i + 2);
            let end = i + 2 + n;
            if end < len {
                if !reference_ok_exec(t, i + 2, end, groups, names) {
                    assert(!template_ok_from(tv, i as int, g, nv));
                    return false;
                }
                i = end + 1;
            } else {
                i += 1;
            }
        } else {
            let n = if i + 1 < len { name_run_exec(t, len, i + 1) } else { 0 };
            if n > 0 {
                if !reference_ok_exec(t, i + 1, i + 1 + n, groups, names) {
                    assert(!template_ok_from(tv, i as int, g, nv));
                    return false;
                }
                i = i + 1 + n;
            } else {
                i += 1;
            }
        }
    }
    true
}

} // verus!
