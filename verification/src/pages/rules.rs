//! The Frozen & pins page: each rule as the user reads it, and what the page
//! says while the lists cannot be read.
use vstd::prelude::*;

use crate::commands::Privilege;
use crate::parse::prompt::first_ws;
use crate::runner::{describe, described, ran_and_answered, Status};
use crate::text::{
    chars_of, ends_with, is_whitespace, is_ws, owned, str_ends_with, string_of, trim, trim_span,
    word_end_from,
};

verus! {

/// A rule as the page shows it: `@repo PATTERN` is the pattern, limited to
/// one repository; any other rule is shown as it is.
pub open spec fn rule_parts_of(rule: Seq<char>) -> (Seq<char>, Option<Seq<char>>) {
    if rule.len() > 0 && rule[0] == '@' {
        let r = rule.drop_first();
        match first_ws(r) {
            Some(k) => (trim(r.subrange(k + 1, r.len() as int)), Some(r.subrange(0, k))),
            None => (rule, None),
        }
    } else {
        (rule, None)
    }
}

pub fn rule_parts(rule: &str) -> (r: (String, Option<String>))
    ensures
        (r.0@, match r.1 {
            Some(s) => Some(s@),
            None => None,
        }) == rule_parts_of(rule@),
{
    let v = chars_of(rule);
    let n = v.len();
    if n == 0 || v[0] != '@' {
        assert(v@.subrange(0, n as int) =~= v@);
        return (string_of(v.as_slice(), 0, n), None);
    }
    let ghost r = rule@.drop_first();
    let mut w: usize = 1;
    while w < n && !is_whitespace(v[w])
        invariant
            1 <= w <= n == v@.len(),
            v@ == rule@,
            r == rule@.drop_first(),
            word_end_from(r, 0) == word_end_from(r, w - 1),
        decreases n - w,
    {
        assert(r[w - 1] == v@[w as int]);
        w = w + 1;
    }
    proof {
        if w < n {
            assert(r[w - 1] == v@[w as int]);
        }
        assert(word_end_from(r, w - 1) == w - 1);
    }
    if w == n {
        assert(v@.subrange(0, n as int) =~= v@);
        return (string_of(v.as_slice(), 0, n), None);
    }
    let (a, b) = trim_span(v.as_slice(), w + 1, n);
    assert(r.subrange(w as int, r.len() as int) =~= v@.subrange(w + 1, n as int));
    assert(r.subrange(0, w - 1) =~= v@.subrange(1, w as int));
    (string_of(v.as_slice(), a, b), Some(string_of(v.as_slice(), 1, w)))
}

/// A rule that ends in `/` freezes a whole series.
pub fn is_series(title: &str) -> (r: bool)
    ensures
        r == ends_with(title@, "/"@),
{
    str_ends_with(title, "/")
}

/// What the page says before the lists are read, or after reading them
/// failed.
pub open spec fn locked_text_of(error: Option<Seq<char>>) -> Seq<char> {
    match error {
        Some(e) => e + "."@,
        None => "slacker shows frozen rules and pins only to root, so reading them asks for your password."@,
    }
}

pub fn locked_text(error: Option<&str>) -> (r: String)
    ensures
        r@ == locked_text_of(
            match error {
                Some(e) => Some(e@),
                None => None,
            },
        ),
{
    match error {
        Some(e) => {
            let mut t = owned(e);
            t.append(".");
            t
        },
        None => owned(
            "slacker shows frozen rules and pins only to root, so reading them asks for your password.",
        ),
    }
}

/// Why the pins could not be read, when `pin` did not answer.
pub open spec fn pin_error_of(status: Status) -> Option<Seq<char>> {
    if ran_and_answered(status) {
        None
    } else {
        Some(described(status, Privilege::Root))
    }
}

pub fn pin_error(status: &Status) -> (r: Option<String>)
    ensures
        match r {
            Some(s) => pin_error_of(*status) == Some(s@),
            None => pin_error_of(*status) is None,
        },
{
    if status.answered() {
        None
    } else {
        Some(describe(status, Privilege::Root))
    }
}

} // verus!
