//! The Changelog page: a ChangeLog can be tens of thousands of lines, so
//! the page stops filling at a cap and says so.
use vstd::prelude::*;

use crate::text::{chars_of, join, joined, line_spans, lines, push_string, span_texts, string_of, strs};

verus! {

/// How many lines of a ChangeLog the page shows at most.
pub const MAX_LINES: usize = 5000;

/// What a further chunk of output adds when `shown` lines are on the page:
/// nothing once the cap is reached, else as many of its lines as still fit,
/// joined, and the new number of lines shown.
pub open spec fn chunk_of(shown: nat, text: Seq<char>) -> Option<(Seq<char>, nat)> {
    if shown >= MAX_LINES {
        None
    } else {
        let ls = lines(text);
        let room = (MAX_LINES - shown) as nat;
        let take = if ls.len() < room {
            ls.len()
        } else {
            room
        };
        Some((joined(ls.take(take as int), "\n"@), shown + take))
    }
}

pub fn take_chunk(shown: usize, text: &str) -> (r: Option<(String, usize)>)
    ensures
        match r {
            Some((t, n)) => chunk_of(shown as nat, text@) == Some((t@, n as nat)) && n <= MAX_LINES,
            None => chunk_of(shown as nat, text@) is None,
        },
{
    if shown >= MAX_LINES {
        return None;
    }
    let v = chars_of(text);
    let spans = line_spans(v.as_slice());
    let ghost ls = lines(text@);
    assert(span_texts(v@, spans@) == ls);
    let room = MAX_LINES - shown;
    let take = if spans.len() < room {
        spans.len()
    } else {
        room
    };
    let mut picked: Vec<String> = Vec::new();
    let mut k: usize = 0;
    while k < take
        invariant
            k <= take <= spans@.len(),
            crate::text::spans_in(v@, spans@),
            span_texts(v@, spans@) == ls,
            strs(picked@) == ls.take(k as int),
        decreases take - k,
    {
        let (a, b) = spans[k];
        assert(ls[k as int] == v@.subrange(a as int, b as int));
        push_string(&mut picked, string_of(v.as_slice(), a, b));
        assert(ls.take(k + 1) =~= ls.take(k as int).push(ls[k as int]));
        k = k + 1;
    }
    Some((join(&picked, "\n"), shown + take))
}

} // verus!
