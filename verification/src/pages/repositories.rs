//! The Repositories page: the table `list-repos` printed, with a badge for
//! everything worth noticing about each repository.
use vstd::prelude::*;

use crate::pages::{count, lemma_count_all, lemma_count_step, Tone};
use crate::parse::repos::{Repo, RepoState, RepoV, Repos, ReposV};
use crate::text::{dec, owned, same_text, u32_text};

verus! {

pub open spec fn is_flagged(r: RepoV) -> bool {
    r.state != RepoState::Normal
}

/// How many repositories are frozen or unreachable.
pub fn flagged_count(r: &Repos) -> (n: usize)
    ensures
        n == count(r@.repos, |x: RepoV| is_flagged(x)),
{
    let ghost rs = r@.repos;
    let ghost p = |x: RepoV| is_flagged(x);
    let mut n: usize = 0;
    let mut k: usize = 0;
    while k < r.repos.len()
        invariant
            k <= r.repos@.len() == rs.len(),
            rs == r@.repos,
            p == (|x: RepoV| is_flagged(x)),
            n == count(rs.take(k as int), p),
            n <= k,
        decreases r.repos.len() - k,
    {
        proof {
            lemma_count_step(rs, p, k as int);
        }
        assert(rs[k as int] == r.repos@[k as int]@);
        if r.repos[k].state != RepoState::Normal {
            n = n + 1;
        }
        k = k + 1;
    }
    proof {
        lemma_count_all(rs, p);
    }
    n
}

/// The highest priority of any repository; the repositories that have it
/// are marked as the ones that win.
pub fn top_priority(r: &Repos) -> (t: Option<i32>)
    ensures
        r@.repos.len() == 0 ==> t is None,
        t matches Some(p) ==> (exists|i: int| 0 <= i < r@.repos.len() && r@.repos[i].priority == p)
            && forall|i: int| 0 <= i < r@.repos.len() ==> r@.repos[i].priority <= p,
        r@.repos.len() > 0 ==> t is Some,
{
    let mut best: Option<i32> = None;
    let mut k: usize = 0;
    while k < r.repos.len()
        invariant
            k <= r.repos@.len(),
            k == 0 <==> best is None,
            best matches Some(p) ==> (exists|i: int| 0 <= i < k && r@.repos[i].priority == p)
                && forall|i: int| 0 <= i < k ==> r@.repos[i].priority <= p,
        decreases r.repos.len() - k,
    {
        let p = r.repos[k].priority;
        assert(r@.repos[k as int].priority == p);
        best = match best {
            None => Some(p),
            Some(b) => if p > b {
                Some(p)
            } else {
                Some(b)
            },
        };
        k = k + 1;
    }
    best
}

/// The badges of one repository, in order: its state when it is not the
/// normal one, each of its flags, then how its packages are verified.
pub open spec fn badges_of(r: RepoV) -> Seq<(Seq<char>, Tone)> {
    let state = match r.state {
        RepoState::Frozen => seq![("frozen"@, Tone::Error)],
        RepoState::Unreachable => seq![("unreachable"@, Tone::Warning)],
        RepoState::Normal => Seq::empty(),
    };
    let flags = r.flags.map_values(|f: Seq<char>| (f, flag_tone_of(f)));
    let verify = if r.verify == "all"@ {
        ("verified"@, Tone::Success)
    } else if r.verify == "none"@ {
        ("not verified"@, Tone::Error)
    } else {
        ("verify "@ + r.verify, Tone::Warning)
    };
    state + flags + seq![verify]
}

pub open spec fn flag_tone_of(f: Seq<char>) -> Tone {
    if f == "official"@ {
        Tone::Accent
    } else if f == "insecure"@ {
        Tone::Warning
    } else {
        Tone::Neutral
    }
}

fn flag_tone(f: &str) -> (t: Tone)
    ensures
        t == flag_tone_of(f@),
{
    if same_text(f, "official") {
        Tone::Accent
    } else if same_text(f, "insecure") {
        Tone::Warning
    } else {
        Tone::Neutral
    }
}

pub fn badges(repo: &Repo) -> (r: Vec<(String, Tone)>)
    ensures
        r@.map_values(|b: (String, Tone)| (b.0@, b.1)) == badges_of(repo@),
{
    let ghost target = badges_of(repo@);
    let mut out: Vec<(String, Tone)> = Vec::new();
    match repo.state {
        RepoState::Frozen => out.push((owned("frozen"), Tone::Error)),
        RepoState::Unreachable => out.push((owned("unreachable"), Tone::Warning)),
        RepoState::Normal => {},
    }
    let ghost state = out@.map_values(|b: (String, Tone)| (b.0@, b.1));
    assert(state =~= match repo@.state {
        RepoState::Frozen => seq![("frozen"@, Tone::Error)],
        RepoState::Unreachable => seq![("unreachable"@, Tone::Warning)],
        RepoState::Normal => Seq::<(Seq<char>, Tone)>::empty(),
    });
    let ghost flags = repo@.flags.map_values(|f: Seq<char>| (f, flag_tone_of(f)));
    let mut k: usize = 0;
    while k < repo.flags.len()
        invariant
            k <= repo.flags@.len(),
            flags == repo@.flags.map_values(|f: Seq<char>| (f, flag_tone_of(f))),
            out@.map_values(|b: (String, Tone)| (b.0@, b.1)) == state + flags.take(k as int),
        decreases repo.flags.len() - k,
    {
        let f = repo.flags[k].clone();
        let t = flag_tone(f.as_str());
        let ghost before = out@.map_values(|b: (String, Tone)| (b.0@, b.1));
        out.push((f, t));
        assert(repo@.flags[k as int] == repo.flags@[k as int]@);
        assert(flags.take(k + 1) =~= flags.take(k as int).push(flags[k as int]));
        assert(out@.map_values(|b: (String, Tone)| (b.0@, b.1)) =~= before.push(flags[k as int]));
        k = k + 1;
    }
    assert(flags.take(k as int) =~= flags);
    let ghost before = out@.map_values(|b: (String, Tone)| (b.0@, b.1));
    let v = if same_text(repo.verify.as_str(), "all") {
        (owned("verified"), Tone::Success)
    } else if same_text(repo.verify.as_str(), "none") {
        (owned("not verified"), Tone::Error)
    } else {
        let mut t = owned("verify ");
        t.append(repo.verify.as_str());
        (t, Tone::Warning)
    };
    let ghost vv = (v.0@, v.1);
    out.push(v);
    assert(out@.map_values(|b: (String, Tone)| (b.0@, b.1)) =~= before.push(vv));
    assert(before.push(vv) =~= state + flags + seq![vv]);
    assert(out@.map_values(|b: (String, Tone)| (b.0@, b.1)) =~= target);
    out
}

/// How many installed packages a repository serves, or that its metadata
/// is missing.
pub open spec fn installed_text_of(n: Option<u32>) -> Seq<char> {
    match n {
        Some(n) => dec(n as nat) + " installed"@,
        None => "no metadata"@,
    }
}

pub fn installed_text(n: Option<u32>) -> (r: String)
    ensures
        r@ == installed_text_of(n),
{
    match n {
        Some(n) => {
            let mut t = u32_text(n);
            t.append(" installed");
            t
        },
        None => owned("no metadata"),
    }
}

/// The rows of the Notes group: packages under other build tags first,
/// then every note slacker printed, each with an empty subtitle.
pub open spec fn notes_of(r: ReposV) -> Seq<(Seq<char>, Seq<char>)> {
    (match r.other_tags {
        Some(o) => seq![("Installed under other build tags"@, o)],
        None => Seq::empty(),
    }) + r.notes.map_values(|n: Seq<char>| (n, Seq::<char>::empty()))
}

pub fn notes(r: &Repos) -> (out: Vec<(String, String)>)
    ensures
        out@.map_values(|x: (String, String)| (x.0@, x.1@)) == notes_of(r@),
{
    let mut out: Vec<(String, String)> = Vec::new();
    match &r.other_tags {
        Some(o) => out.push((owned("Installed under other build tags"), o.clone())),
        None => {},
    }
    let ghost head = out@.map_values(|x: (String, String)| (x.0@, x.1@));
    let ghost ns = r@.notes.map_values(|n: Seq<char>| (n, Seq::<char>::empty()));
    proof {
        reveal_strlit("");
    }
    let mut k: usize = 0;
    while k < r.notes.len()
        invariant
            k <= r.notes@.len(),
            ns == r@.notes.map_values(|n: Seq<char>| (n, Seq::<char>::empty())),
            ""@ == Seq::<char>::empty(),
            out@.map_values(|x: (String, String)| (x.0@, x.1@)) == head + ns.take(k as int),
        decreases r.notes.len() - k,
    {
        let ghost before = out@.map_values(|x: (String, String)| (x.0@, x.1@));
        out.push((r.notes[k].clone(), owned("")));
        assert(r@.notes[k as int] == r.notes@[k as int]@);
        assert(ns.take(k + 1) =~= ns.take(k as int).push(ns[k as int]));
        assert(out@.map_values(|x: (String, String)| (x.0@, x.1@)) =~= before.push(ns[k as int]));
        k = k + 1;
    }
    assert(ns.take(k as int) =~= ns);
    out
}

} // verus!
