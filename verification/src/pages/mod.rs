//! What each page says about what slacker reported: the counts, the
//! headlines, and the tone of each badge. The pages only lay it out.
use vstd::prelude::*;

pub mod changelog;
pub mod history;
pub mod mirrors;
pub mod overview;
pub mod packages;
pub mod repositories;
pub mod rules;
pub mod search;
pub mod updates;

use crate::commands::Privilege;
use crate::runner::{describe, described, Status};
use crate::text::{join, joined, push_string, same_text, strs};

verus! {

/// The colour of a badge.
#[derive(Clone, Copy, Debug, PartialEq, Eq, Structural)]
pub enum Tone {
    Neutral,
    Accent,
    Success,
    Warning,
    Error,
    Purple,
}

/// How the summary at the top of a page looks.
#[derive(Clone, Copy, Debug, PartialEq, Eq, Structural)]
pub enum Look {
    Good,
    Attention,
    Bad,
}

/// How many elements of `s` satisfy `p`.
pub open spec fn count<T>(s: Seq<T>, p: spec_fn(T) -> bool) -> nat
    decreases s.len(),
{
    if s.len() == 0 {
        0
    } else {
        count(s.drop_last(), p) + if p(s.last()) {
            1nat
        } else {
            0nat
        }
    }
}

pub proof fn lemma_count_step<T>(s: Seq<T>, p: spec_fn(T) -> bool, k: int)
    requires
        0 <= k < s.len(),
    ensures
        count(s.take(k + 1), p) == count(s.take(k), p) + if p(s[k]) {
            1nat
        } else {
            0nat
        },
        count(s.take(k + 1), p) <= k + 1,
    decreases k,
{
    assert(s.take(k + 1).drop_last() =~= s.take(k));
    assert(s.take(k + 1).last() == s[k]);
    if k > 0 {
        lemma_count_step(s, p, k - 1);
    } else {
        assert(s.take(0).len() == 0);
    }
}

pub proof fn lemma_count_all<T>(s: Seq<T>, p: spec_fn(T) -> bool)
    ensures
        count(s.take(s.len() as int), p) == count(s, p),
        count(s, p) <= s.len(),
{
    assert(s.take(s.len() as int) =~= s);
    if s.len() > 0 {
        lemma_count_step(s, p, s.len() - 1);
    }
}

/// What a page says when a command gave it nothing to list: the messages
/// slacker printed, if any, else how the command ended.
pub open spec fn explanation(messages: Seq<Seq<char>>, status: Status) -> Seq<char> {
    if messages.len() == 0 {
        described(status, Privilege::User)
    } else {
        joined(messages, "\n"@)
    }
}

pub fn explain(messages: &Vec<String>, status: &Status) -> (r: String)
    ensures
        r@ == explanation(strs(messages@), *status),
{
    if messages.len() == 0 {
        describe(status, Privilege::User)
    } else {
        join(messages, "\n")
    }
}

/// Lines shown as slacker printed them, the first list then the second,
/// one per line; nothing when both are empty.
pub open spec fn other_of(a: Seq<Seq<char>>, b: Seq<Seq<char>>) -> Option<Seq<char>> {
    if a.len() == 0 && b.len() == 0 {
        None
    } else {
        Some(joined(a + b, "\n"@))
    }
}

pub fn other_lines(a: &Vec<String>, b: &Vec<String>) -> (r: Option<String>)
    ensures
        match r {
            Some(s) => other_of(strs(a@), strs(b@)) == Some(s@),
            None => other_of(strs(a@), strs(b@)) is None,
        },
{
    if a.len() == 0 && b.len() == 0 {
        return None;
    }
    let mut all: Vec<String> = Vec::new();
    let mut k: usize = 0;
    while k < a.len()
        invariant
            k <= a@.len(),
            strs(all@) == strs(a@).take(k as int),
        decreases a.len() - k,
    {
        push_string(&mut all, a[k].clone());
        assert(strs(a@).take(k + 1) =~= strs(a@).take(k as int).push(a@[k as int]@));
        k = k + 1;
    }
    assert(strs(a@).take(k as int) =~= strs(a@));
    let mut j: usize = 0;
    while j < b.len()
        invariant
            j <= b@.len(),
            strs(all@) == strs(a@) + strs(b@).take(j as int),
        decreases b.len() - j,
    {
        push_string(&mut all, b[j].clone());
        assert(strs(b@).take(j + 1) =~= strs(b@).take(j as int).push(b@[j as int]@));
        assert(strs(all@) =~= strs(a@) + strs(b@).take(j + 1));
        j = j + 1;
    }
    assert(strs(b@).take(j as int) =~= strs(b@));
    Some(join(&all, "\n"))
}

/// The repository a package is pinned to, as `slacker pin` listed the
/// pins; when a package is listed twice the later line counts.
pub open spec fn pinned_repo_of(pins: Seq<(Seq<char>, Seq<char>)>, package: Seq<char>) -> Option<
    Seq<char>,
>
    decreases pins.len(),
{
    if pins.len() == 0 {
        None
    } else if pins.last().0 == package {
        Some(pins.last().1)
    } else {
        pinned_repo_of(pins.drop_last(), package)
    }
}

pub fn pinned_repo(pins: &Vec<(String, String)>, package: &str) -> (r: Option<String>)
    ensures
        match r {
            Some(s) => pinned_repo_of(
                pins@.map_values(|p: (String, String)| (p.0@, p.1@)),
                package@,
            ) == Some(s@),
            None => pinned_repo_of(
                pins@.map_values(|p: (String, String)| (p.0@, p.1@)),
                package@,
            ) is None,
        },
{
    let ghost ps = pins@.map_values(|p: (String, String)| (p.0@, p.1@));
    let mut k = pins.len();
    assert(ps.take(k as int) =~= ps);
    while k > 0
        invariant
            k <= pins@.len() == ps.len(),
            ps == pins@.map_values(|p: (String, String)| (p.0@, p.1@)),
            pinned_repo_of(ps, package@) == pinned_repo_of(ps.take(k as int), package@),
        decreases k,
    {
        let ghost t = ps.take(k as int);
        assert(t.last() == ps[k - 1]);
        assert(t.drop_last() =~= ps.take(k - 1));
        assert(ps[k - 1] == (pins@[k - 1].0@, pins@[k - 1].1@));
        if same_text(pins[k - 1].0.as_str(), package) {
            return Some(pins[k - 1].1.clone());
        }
        k = k - 1;
    }
    None
}

} // verus!
