//! The Installed page: the installed packages in name order, narrowed by a
//! filter, with what can be done to each.
use vstd::prelude::*;

use crate::parse::history::{Event, EventV};
use crate::parse::repos::{Repo, Repos, ReposV};
use crate::runner::{ran_and_answered, Status};
use crate::text::{
    chars_of, contains, dec, find_span, lemma_text_less_irreflexive, lemma_text_less_total,
    lemma_text_less_transitive, less_than, lowercase, owned, push_string, strs, text_less,
    to_lowercase, usize_text,
};

verus! {

/// Rows shown at once; the filter narrows the rest down.
pub const SHOWN: usize = 200;

/// What the list is sorted by: each package name in lower case.
pub open spec fn name_keys(events: Seq<EventV>) -> Seq<Seq<char>> {
    events.map_values(|e: EventV| lowercase(e.name))
}

/// Entry `i` is listed before entry `j`: its key sorts first, or the keys
/// are equal and it came first.
pub open spec fn before(keys: Seq<Seq<char>>, i: int, j: int) -> bool {
    text_less(keys[i], keys[j]) || (keys[i] == keys[j] && i < j)
}

/// `order` lists every index of `keys` once, in the order of `before`.
pub open spec fn sorted_order(keys: Seq<Seq<char>>, order: Seq<usize>) -> bool {
    &&& order.len() == keys.len()
    &&& forall|i: int| 0 <= i < order.len() ==> order[i] < keys.len()
    &&& forall|i: int, j: int|
        #![trigger order[i], order[j]]
        0 <= i < j < order.len() ==> before(keys, order[i] as int, order[j] as int)
}

proof fn lemma_before_transitive(keys: Seq<Seq<char>>, a: int, b: int, c: int)
    requires
        before(keys, a, b),
        before(keys, b, c),
    ensures
        before(keys, a, c),
{
    if text_less(keys[a], keys[b]) && text_less(keys[b], keys[c]) {
        lemma_text_less_transitive(keys[a], keys[b], keys[c]);
    }
}

/// The order in which the page lists `events`: by name, ignoring case, and
/// in their own order where the names differ only in case.
pub fn name_order(events: &Vec<Event>) -> (order: Vec<usize>)
    ensures
        sorted_order(name_keys(events@.map_values(|e: Event| e@)), order@),
{
    let ghost keys = name_keys(events@.map_values(|e: Event| e@));
    let mut lower: Vec<Vec<char>> = Vec::new();
    let mut k: usize = 0;
    while k < events.len()
        invariant
            k <= events@.len(),
            keys == name_keys(events@.map_values(|e: Event| e@)),
            lower@.len() == k,
            forall|i: int| 0 <= i < k ==> #[trigger] lower@[i]@ == keys[i],
        decreases events.len() - k,
    {
        let l = to_lowercase(events[k].name.as_str());
        lower.push(chars_of(l.as_str()));
        k = k + 1;
    }
    let mut order: Vec<usize> = Vec::new();
    let mut i: usize = 0;
    while i < events.len()
        invariant
            i <= events@.len() == keys.len() == lower@.len(),
            forall|m: int| 0 <= m < keys.len() ==> #[trigger] lower@[m]@ == keys[m],
            order@.len() == i,
            forall|m: int| 0 <= m < order@.len() ==> order@[m] < i,
            forall|m: int, n: int|
                #![trigger order@[m], order@[n]]
                0 <= m < n < order@.len() ==> before(keys, order@[m] as int, order@[n] as int),
        decreases events.len() - i,
    {
        // Everything from `p` on sorts after entry `i`.
        let mut p = order.len();
        while p > 0 && less_than(&lower[i], &lower[order[p - 1]])
            invariant
                p <= order@.len(),
                i < keys.len() == lower@.len(),
                forall|m: int| 0 <= m < keys.len() ==> #[trigger] lower@[m]@ == keys[m],
                forall|m: int| 0 <= m < order@.len() ==> order@[m] < i,
                forall|m: int| p <= m < order@.len() ==> text_less(keys[i as int], #[trigger] keys[order@[m] as int]),
            decreases p,
        {
            p = p - 1;
        }
        let ghost old_order = order@;
        proof {
            if p > 0 {
                let e = old_order[p - 1] as int;
                lemma_text_less_total(keys[i as int], keys[e]);
                assert(before(keys, e, i as int));
            }
        }
        order.insert(p, i);
        proof {
            let o = order@;
            assert(o == old_order.insert(p as int, i));
            assert forall|m: int, n: int|
                #![trigger o[m], o[n]]
                0 <= m < n < o.len() implies before(keys, o[m] as int, o[n] as int) by {
                if m < p as int && n < p as int {
                    assert(o[m] == old_order[m] && o[n] == old_order[n]);
                } else if m < p as int && n == p as int {
                    let e = old_order[p - 1] as int;
                    if m < p - 1 {
                        assert(before(keys, old_order[m] as int, e));
                        lemma_before_transitive(keys, old_order[m] as int, e, i as int);
                    }
                } else if m < p as int {
                    assert(o[m] == old_order[m] && o[n] == old_order[n - 1]);
                } else if m == p as int {
                    assert(o[n] == old_order[n - 1]);
                    assert(text_less(keys[i as int], keys[old_order[n - 1] as int]));
                } else {
                    assert(o[m] == old_order[m - 1] && o[n] == old_order[n - 1]);
                }
            }
        }
        i = i + 1;
    }
    order
}

/// Whether the filter text occurs in the package's name, ignoring case.
pub open spec fn name_matches(e: EventV, filter: Seq<char>) -> bool {
    contains(lowercase(e.name), lowercase(filter))
}

/// The indices of `events[..n]` whose names match, in order.
pub open spec fn matching_upto(events: Seq<EventV>, filter: Seq<char>, n: int) -> Seq<usize>
    decreases n,
{
    if n <= 0 {
        Seq::empty()
    } else if name_matches(events[n - 1], filter) {
        matching_upto(events, filter, n - 1).push((n - 1) as usize)
    } else {
        matching_upto(events, filter, n - 1)
    }
}

/// The entries the filter leaves, by index, in list order.
pub fn matching(events: &Vec<Event>, filter: &str) -> (r: Vec<usize>)
    ensures
        r@ == matching_upto(events@.map_values(|e: Event| e@), filter@, events@.len() as int),
{
    let ghost ev = events@.map_values(|e: Event| e@);
    let needle_text = to_lowercase(filter);
    let needle = chars_of(needle_text.as_str());
    let mut out: Vec<usize> = Vec::new();
    let mut k: usize = 0;
    while k < events.len()
        invariant
            k <= events@.len() == ev.len(),
            ev == events@.map_values(|e: Event| e@),
            needle@ == lowercase(filter@),
            out@ == matching_upto(ev, filter@, k as int),
        decreases events.len() - k,
    {
        let name = to_lowercase(events[k].name.as_str());
        let v = chars_of(name.as_str());
        assert(v@.subrange(0, v@.len() as int) =~= v@);
        assert(ev[k as int].name == events@[k as int].name@);
        if find_span(v.as_slice(), 0, v.len(), needle.as_slice()).is_some() {
            out.push(k);
        }
        k = k + 1;
    }
    out
}

/// The line above the list: how many packages there are, or how many the
/// filter leaves.
pub open spec fn count_line_of(total: nat, matched: nat, filter: Seq<char>) -> Seq<char> {
    if lowercase(filter).len() == 0 {
        dec(total) + " packages installed"@
    } else {
        dec(matched) + " of "@ + dec(total) + " packages match"@
    }
}

pub fn count_line(total: usize, matched: usize, filter: &str) -> (r: String)
    ensures
        r@ == count_line_of(total as nat, matched as nat, filter@),
{
    let needle = to_lowercase(filter);
    if needle.as_str().unicode_len() == 0 {
        let mut t = usize_text(total);
        t.append(" packages installed");
        t
    } else {
        let mut t = usize_text(matched);
        t.append(" of ");
        t.append(usize_text(total).as_str());
        t.append(" packages match");
        t
    }
}

/// The names of the configured repositories, when `list-repos` answered
/// with at least one; otherwise they are not known.
pub open spec fn known_repos_of(status: Status, r: ReposV) -> Option<Seq<Seq<char>>> {
    if ran_and_answered(status) && r.repos.len() > 0 {
        Some(r.repos.map_values(|x: crate::parse::repos::RepoV| x.name))
    } else {
        None
    }
}

pub fn known_repos(status: &Status, parsed: &Repos) -> (r: Option<Vec<String>>)
    ensures
        match r {
            Some(v) => known_repos_of(*status, parsed@) == Some(strs(v@)),
            None => known_repos_of(*status, parsed@) is None,
        },
{
    if !(status.answered() && parsed.repos.len() > 0) {
        return None;
    }
    let ghost rs = parsed@.repos;
    let mut names: Vec<String> = Vec::new();
    let mut k: usize = 0;
    while k < parsed.repos.len()
        invariant
            k <= parsed.repos@.len() == rs.len(),
            rs == parsed@.repos,
            strs(names@) == rs.map_values(|x: crate::parse::repos::RepoV| x.name).take(k as int),
        decreases parsed.repos.len() - k,
    {
        push_string(&mut names, parsed.repos[k].name.clone());
        assert(rs[k as int].name == parsed.repos@[k as int].name@);
        assert(rs.map_values(|x: crate::parse::repos::RepoV| x.name).take(k + 1) =~= rs.map_values(
            |x: crate::parse::repos::RepoV| x.name,
        ).take(k as int).push(rs[k as int].name));
        k = k + 1;
    }
    assert(rs.map_values(|x: crate::parse::repos::RepoV| x.name).take(k as int) =~= rs.map_values(
        |x: crate::parse::repos::RepoV| x.name,
    ));
    Some(names)
}

/// A package can be reinstalled from here when a configured repository
/// serves it (`history` labels it with that repository); an SBo or local
/// build cannot. While the repositories are not known the action is kept
/// and slacker answers.
pub open spec fn reinstallable(known: Option<Seq<Seq<char>>>, source: Seq<char>) -> bool {
    match known {
        None => true,
        Some(names) => names.contains(source),
    }
}

/// The texts of a list that may not be known.
pub open spec fn known_texts(known: Option<Vec<String>>) -> Option<Seq<Seq<char>>> {
    match known {
        Some(v) => Some(strs(v@)),
        None => None,
    }
}

pub fn can_reinstall(known: &Option<Vec<String>>, source: &str) -> (r: bool)
    ensures
        r == reinstallable(known_texts(*known), source@),
{
    match known {
        None => true,
        Some(names) => {
            assert(known_texts(*known) == Some(strs(names@)));
            let mut k: usize = 0;
            while k < names.len()
                invariant
                    k <= names@.len(),
                    known_texts(*known) == Some(strs(names@)),
                    forall|m: int| 0 <= m < k ==> strs(names@)[m] != source@,
                decreases names.len() - k,
            {
                if crate::text::same_text(names[k].as_str(), source) {
                    assert(strs(names@)[k as int] == source@);
                    assert(strs(names@).contains(source@));
                    return true;
                }
                k = k + 1;
            }
            assert(!strs(names@).contains(source@));
            false
        },
    }
}

/// How many rows of `matched` are shown, and whether the rest is left to
/// the filter.
pub fn shown(matched: usize) -> (r: (usize, bool))
    ensures
        r.0 == (if matched > SHOWN {
            SHOWN
        } else {
            matched
        }),
        r.1 == (matched > SHOWN),
{
    if matched > SHOWN {
        (SHOWN, true)
    } else {
        (matched, false)
    }
}

} // verus!
