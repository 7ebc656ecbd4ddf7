//! The History page: the most recent package changes, grouped by day.
use vstd::prelude::*;

use crate::parse::history::{event_of, history_of, history_spec, stamp_shape, EventV, HistoryV, Kind};
use crate::text::{
    boundary_index, byte_index, byte_len, chars_of, lemma_boundary_at, lemma_boundary_found,
    lemma_boundary_prefix, lemma_byte_len_step, lemma_byte_len_strict, lines, same_text,
    string_of, strs,
};

verus! {

/// The day (the first ten bytes) and the time (from byte eleven) of a time
/// stamp such as `2026-09-14 22:10`; nothing when those offsets do not fall
/// between characters.
pub open spec fn stamp_parts(when: Seq<char>) -> Option<(Seq<char>, Seq<char>)> {
    match (boundary_index(when, 10), boundary_index(when, 11)) {
        (Some(a), Some(b)) => if a <= b {
            Some((when.subrange(0, a), when.subrange(b, when.len() as int)))
        } else {
            None
        },
        _ => None,
    }
}

pub fn split_stamp(when: &str) -> (r: Option<(String, String)>)
    ensures
        match r {
            Some((d, t)) => stamp_parts(when@) == Some((d@, t@)),
            None => stamp_parts(when@) is None,
        },
{
    let v = chars_of(when);
    let n = v.len();
    assert(v@.subrange(0, n as int) =~= v@);
    let a = match byte_index(v.as_slice(), 0, n, 10) {
        Some(a) => a,
        None => return None,
    };
    let b = match byte_index(v.as_slice(), 0, n, 11) {
        Some(b) => b,
        None => return None,
    };
    if a > b {
        return None;
    }
    Some((string_of(v.as_slice(), 0, a), string_of(v.as_slice(), b, n)))
}

proof fn lemma_event_stamp(line: Seq<char>)
    requires
        event_of(line) is Some,
    ensures
        stamp_parts(event_of(line)->0.when) is Some,
{
    let k = boundary_index(line, 16)->0;
    lemma_boundary_found(line, 0, 16);
    lemma_boundary_found(line, 0, 10);
    let j = boundary_index(line, 10)->0;
    assert(stamp_shape(line));
    assert(j < line.len() && line[j] == ' ');
    // the day ends before the end of the time stamp
    if j >= k {
        if j > k {
            lemma_byte_len_strict(line, k, j);
        }
        assert(false);
    }
    lemma_byte_len_step(line, j);
    lemma_boundary_at(line, 0, j + 1);
    assert(boundary_index(line, 11) == Some(j + 1));
    let when = line.subrange(0, k);
    assert(when =~= line.take(k));
    lemma_boundary_prefix(line, k, 0, 10);
    lemma_boundary_prefix(line, k, 0, 11);
}

proof fn lemma_history_stamps(ls: Seq<Seq<char>>)
    ensures
        forall|i: int|
            0 <= i < history_of(ls).events.len() ==> stamp_parts(
                (#[trigger] history_of(ls).events[i]).when,
            ) is Some,
    decreases ls.len(),
{
    if ls.len() > 0 {
        lemma_history_stamps(ls.drop_last());
        let prev = history_of(ls.drop_last());
        let line = ls.last();
        if event_of(line) is Some {
            lemma_event_stamp(line);
        }
        assert forall|i: int| 0 <= i < history_of(ls).events.len() implies stamp_parts(
            (#[trigger] history_of(ls).events[i]).when,
        ) is Some by {
            if i < prev.events.len() {
                assert(history_of(ls).events[i] == prev.events[i]);
            }
        }
    }
}

/// Every change the history parser reads has a day and a time: the page
/// can always group it by day.
pub proof fn parsed_stamps_split(text: Seq<char>)
    ensures
        forall|i: int|
            0 <= i < history_spec(text).events.len() ==> stamp_parts(
                (#[trigger] history_spec(text).events[i]).when,
            ) is Some,
{
    lemma_history_stamps(lines(text));
}

/// The runs of equal consecutive days among `days[..n]`, as index ranges:
/// a day that comes back after another one starts a run of its own.
pub open spec fn day_runs(days: Seq<Seq<char>>, n: int) -> Seq<(usize, usize)>
    decreases n,
{
    if n <= 0 {
        Seq::empty()
    } else {
        let prev = day_runs(days, n - 1);
        if prev.len() > 0 && days[prev.last().0 as int] == days[n - 1] {
            prev.update(prev.len() - 1, (prev.last().0, n as usize))
        } else {
            prev.push(((n - 1) as usize, n as usize))
        }
    }
}

proof fn lemma_day_runs(days: Seq<Seq<char>>, n: int)
    requires
        0 <= n <= days.len() <= usize::MAX,
    ensures
        forall|i: int| 0 <= i < day_runs(days, n).len() ==> (#[trigger] day_runs(days, n)[i]).0 < n,
        n > 0 ==> day_runs(days, n).len() > 0 && day_runs(days, n).last().1 == n,
    decreases n,
{
    if n > 0 {
        lemma_day_runs(days, n - 1);
        let prev = day_runs(days, n - 1);
        let cur = day_runs(days, n);
        if prev.len() > 0 && days[prev.last().0 as int] == days[n - 1] {
            assert(prev.last() == prev[prev.len() - 1]);
            assert(cur[cur.len() - 1] == (prev.last().0, n as usize));
            assert forall|i: int| 0 <= i < cur.len() implies (#[trigger] cur[i]).0 < n by {
                if i < prev.len() - 1 {
                    assert(cur[i] == prev[i]);
                } else {
                    assert(cur[i].0 == prev[prev.len() - 1].0);
                }
            }
        } else {
            assert forall|i: int| 0 <= i < cur.len() implies (#[trigger] cur[i]).0 < n by {
                if i < prev.len() {
                    assert(cur[i] == prev[i]);
                }
            }
        }
    }
}

pub fn day_groups(days: &Vec<String>) -> (r: Vec<(usize, usize)>)
    ensures
        r@ == day_runs(strs(days@), days@.len() as int),
{
    let ghost ds = strs(days@);
    let mut out: Vec<(usize, usize)> = Vec::new();
    let mut k: usize = 0;
    while k < days.len()
        invariant
            k <= days@.len() == ds.len(),
            ds == strs(days@),
            out@ == day_runs(ds, k as int),
        decreases days.len() - k,
    {
        proof {
            lemma_day_runs(ds, k as int);
        }
        let m = out.len();
        if m > 0 && same_text(days[out[m - 1].0].as_str(), days[k].as_str()) {
            let start = out[m - 1].0;
            out.set(m - 1, (start, k + 1));
        } else {
            out.push((k, k + 1));
        }
        k = k + 1;
    }
    out
}

/// The word a change is shown with.
pub fn verb(kind: Kind) -> (r: &'static str)
    ensures
        r@ == (match kind {
            Kind::Installed => "Installed"@,
            Kind::Removed => "Removed"@,
            Kind::Upgraded => "Upgraded"@,
            Kind::Reinstalled => "Reinstalled"@,
        }),
{
    match kind {
        Kind::Installed => "Installed",
        Kind::Removed => "Removed",
        Kind::Upgraded => "Upgraded",
        Kind::Reinstalled => "Reinstalled",
    }
}

} // verus!
