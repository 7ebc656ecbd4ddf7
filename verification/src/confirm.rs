//! Decisions around root actions. slacker runs without `--yes`, so it asks
//! its own questions — the plan and "Proceed? [y/N]", the package picker, a
//! conflict choice — and they are put to the user in the window that shows
//! its output.
use vstd::prelude::*;

use crate::runner::Status;
use crate::text::{
    chars_of, dec, owned, push_string, span_texts, spans_in, split, split_spans, string_of, strs,
    usize_text,
};

verus! {

/// Whether a finished root action may have changed installed packages:
/// anything except a dismissed or refused authorization, or a failure to
/// start at all.
pub fn may_have_changed(status: &Status) -> (b: bool)
    ensures
        b == !(match *status {
            Status::Exited(c) => c == 126 || c == 127,
            Status::SpawnFailed(_) => true,
            Status::Signaled => false,
        }),
{
    match status {
        Status::Exited(c) => !(*c == 126 || *c == 127),
        Status::SpawnFailed(_) => false,
        Status::Signaled => true,
    }
}

/// What `char::to_uppercase` yields for `c`: the Unicode uppercase mapping,
/// one to three characters.
pub uninterp spec fn uppercase(c: char) -> Seq<char>;

/// `char::to_uppercase`, collected. Its documentation gives the ASCII case
/// exactly: `a`..=`z` map to `A`..=`Z` and every other ASCII character to
/// itself. Beyond ASCII only the name is stated, and that the mapping yields
/// at least one character.
#[verifier::external_body]
fn to_uppercase(c: char) -> (r: String)
    ensures
        r@ == uppercase(c),
        r@.len() >= 1,
        'a' <= c <= 'z' ==> r@ == seq![((c as u32) - 32) as char],
        (c as u32) < 128 && !('a' <= c <= 'z') ==> r@ == seq![c],
{
    c.to_uppercase().collect()
}

/// `s` with its first character in upper case.
pub open spec fn capitalised(s: Seq<char>) -> Seq<char> {
    if s.len() == 0 {
        Seq::empty()
    } else {
        uppercase(s[0]) + s.drop_first()
    }
}

/// An option label as a button reads: its first character in upper case.
pub fn capitalise(s: &str) -> (r: String)
    ensures
        r@ == capitalised(s@),
{
    let v = chars_of(s);
    if v.len() == 0 {
        return string_of(v.as_slice(), 0, 0);
    }
    let mut r = to_uppercase(v[0]);
    let rest = string_of(v.as_slice(), 1, v.len());
    r.append(rest.as_str());
    assert(v@.subrange(1, v@.len() as int) =~= s@.drop_first());
    r
}

/// Finished lines kept for recognising a question: the options and the
/// numbered items sit just above it.
pub const CONTEXT_LINES: usize = 400;

/// The most recent `CONTEXT_LINES` of `ls`, or all of them when there are
/// fewer.
pub open spec fn recent(ls: Seq<Seq<char>>) -> Seq<Seq<char>> {
    if ls.len() > CONTEXT_LINES {
        ls.subrange(ls.len() - CONTEXT_LINES, ls.len() as int)
    } else {
        ls
    }
}

/// Adds the lines of a finished chunk of output to the context above a
/// question, keeping only the most recent ones.
pub fn keep_context(lines: &mut Vec<String>, text: &str)
    ensures
        strs(final(lines)@) == recent(strs(old(lines)@) + split(text@, seq!['\n'])),
        final(lines)@.len() <= CONTEXT_LINES,
{
    let v = chars_of(text);
    let nl = vec!['\n'];
    assert(nl@ =~= seq!['\n']);
    assert(v@.subrange(0, v@.len() as int) =~= v@);
    let spans = split_spans(v.as_slice(), 0, v.len(), nl.as_slice(), 0);
    let ghost pieces = span_texts(v@, spans@);
    let ghost all = strs(old(lines)@) + pieces;
    let ghost start = if all.len() > CONTEXT_LINES {
        all.len() - CONTEXT_LINES
    } else {
        0
    };
    // Only what ends up among the last lines is kept.
    let n = spans.len();
    let skip = if n > CONTEXT_LINES {
        n - CONTEXT_LINES
    } else {
        0
    };
    let mut joined: Vec<String> = Vec::new();
    let mut k: usize = 0;
    while k < lines.len()
        invariant
            k <= lines@.len(),
            lines@ == old(lines)@,
            strs(joined@) == strs(lines@).take(k as int),
        decreases lines.len() - k,
    {
        push_string(&mut joined, lines[k].clone());
        assert(strs(lines@).take(k + 1) =~= strs(lines@).take(k as int).push(lines@[k as int]@));
        k = k + 1;
    }
    assert(strs(lines@).take(k as int) =~= strs(lines@));
    let mut j: usize = skip;
    let ghost head = strs(joined@);
    while j < n
        invariant
            skip <= j <= n == spans@.len(),
            spans_in(v@, spans@),
            pieces == span_texts(v@, spans@),
            strs(joined@) == head + pieces.subrange(skip as int, j as int),
        decreases n - j,
    {
        let (a, b) = spans[j];
        assert(pieces[j as int] == v@.subrange(a as int, b as int));
        push_string(&mut joined, string_of(v.as_slice(), a, b));
        assert(pieces.subrange(skip as int, j + 1) =~= pieces.subrange(skip as int, j as int).push(
            pieces[j as int],
        ));
        assert(strs(joined@) =~= head + pieces.subrange(skip as int, j + 1));
        j = j + 1;
    }
    let m = joined.len();
    let drop = if m > CONTEXT_LINES {
        m - CONTEXT_LINES
    } else {
        0
    };
    let mut kept: Vec<String> = Vec::new();
    let mut i: usize = drop;
    while i < m
        invariant
            drop <= i <= m == joined@.len(),
            strs(kept@) == strs(joined@).subrange(drop as int, i as int),
        decreases m - i,
    {
        push_string(&mut kept, joined[i].clone());
        assert(strs(joined@).subrange(drop as int, i + 1) =~= strs(joined@).subrange(
            drop as int,
            i as int,
        ).push(joined@[i as int]@));
        i = i + 1;
    }
    proof {
        let jv = head + pieces.subrange(skip as int, n as int);
        assert(strs(joined@) == jv);
        let all2 = head + pieces;
        assert(all2 == all);
        // the pieces skipped at the front are older than the last lines kept
        assert(strs(kept@) =~= recent(all));
    }
    *lines = kept;
}

/// How a finished action is marked: done, done with news, refused
/// authorization (nothing was run), or a failure.
#[derive(Clone, Copy, Debug, PartialEq, Eq, Structural)]
pub enum Outcome {
    Done,
    Notice,
    Dismissed,
    Failed,
}

pub open spec fn outcome_of(code: Option<i32>) -> Outcome {
    match code {
        Some(c) => if c == 0 {
            Outcome::Done
        } else if c == 20 || c == 50 || c == 100 {
            Outcome::Notice
        } else if c == 126 {
            Outcome::Dismissed
        } else {
            Outcome::Failed
        },
        None => Outcome::Failed,
    }
}

pub fn outcome(code: Option<i32>) -> (r: Outcome)
    ensures
        r == outcome_of(code),
{
    match code {
        Some(c) => if c == 0 {
            Outcome::Done
        } else if c == 20 || c == 50 || c == 100 {
            Outcome::Notice
        } else if c == 126 {
            Outcome::Dismissed
        } else {
            Outcome::Failed
        },
        None => Outcome::Failed,
    }
}

/// The button that sends a pick: all of the items, or how many of them.
pub open spec fn continue_label_of(chosen: nat, total: nat) -> Seq<char> {
    if chosen == total {
        "Continue with All"@
    } else {
        "Continue with "@ + dec(chosen) + " of "@ + dec(total)
    }
}

pub fn continue_label(chosen: usize, total: usize) -> (r: String)
    ensures
        r@ == continue_label_of(chosen as nat, total as nat),
{
    if chosen == total {
        owned("Continue with All")
    } else {
        let mut t = owned("Continue with ");
        t.append(usize_text(chosen).as_str());
        t.append(" of ");
        t.append(usize_text(total).as_str());
        t
    }
}

/// The pick may be sent only with at least one item chosen.
pub fn can_continue(chosen: usize) -> (b: bool)
    ensures
        b == (chosen > 0),
{
    chosen > 0
}

/// How a root action is confirmed.
#[derive(Clone, Copy, PartialEq, Eq, Structural, Debug)]
pub enum Confirmation {
    /// slacker shows its plan and asks before it writes: the action runs at
    /// once and its question is the confirmation.
    SlackerAsks,
    /// The window asks first; for a destructive action, Enter cancels.
    AskFirst { cancel_by_default: bool },
}

pub fn confirmation(confirms: bool, destructive: bool) -> (r: Confirmation)
    ensures
        r == (if confirms {
            Confirmation::SlackerAsks
        } else {
            Confirmation::AskFirst { cancel_by_default: destructive }
        }),
{
    if confirms {
        Confirmation::SlackerAsks
    } else {
        Confirmation::AskFirst { cancel_by_default: destructive }
    }
}

/// Whether to offer a way out of an unknown unfinished line: only while
/// answers are still being sent, no question is on screen, and no output
/// came after that line (`seen` is the output count when it came, `latest`
/// the count now).
pub fn offer_way_out(seen: u64, latest: u64, answering: bool, asking: bool) -> (b: bool)
    ensures
        b == (seen == latest && answering && !asking),
{
    seen == latest && answering && !asking
}

} // verus!
