//! Which slacker binary is used. A normal user's PATH on Slackware has no
//! sbin directories, so absolute paths are used, and the choice is
//! explained. What is on disk and in the environment is looked up by the
//! caller; the choice made from it is here.
use vstd::prelude::*;

use crate::text::{join_strings, joined, owned, push_string, strs};

verus! {

/// Searched in this order. The polkit policy has one action per path.
pub const CANDIDATES: [&'static str; 4] = [
    "/usr/bin/slacker",
    "/usr/sbin/slacker",
    "/usr/local/bin/slacker",
    "/usr/local/sbin/slacker",
];

pub const ENV_OVERRIDE: &'static str = "SLACKER_BIN";

/// The binary chosen, whether it is there, and what the user should know
/// about the choice.
pub struct Resolved {
    pub path: String,
    pub found: bool,
    pub notes: Vec<String>,
}

pub struct ResolvedV {
    pub path: Seq<char>,
    pub found: bool,
    pub notes: Seq<Seq<char>>,
}

impl View for Resolved {
    type V = ResolvedV;

    open spec fn view(&self) -> ResolvedV {
        ResolvedV { path: self.path@, found: self.found, notes: strs(self.notes@) }
    }
}

/// The `k`-th candidate path.
pub open spec fn candidate(k: int) -> Seq<char> {
    if k == 0 {
        "/usr/bin/slacker"@
    } else if k == 1 {
        "/usr/sbin/slacker"@
    } else if k == 2 {
        "/usr/local/bin/slacker"@
    } else {
        "/usr/local/sbin/slacker"@
    }
}

fn candidate_exec(k: usize) -> (r: &'static str)
    requires
        k < 4,
    ensures
        r@ == candidate(k as int),
{
    if k == 0 {
        CANDIDATES[0]
    } else if k == 1 {
        CANDIDATES[1]
    } else if k == 2 {
        CANDIDATES[2]
    } else {
        CANDIDATES[3]
    }
}

/// The candidates whose flag in `present` is set, from the `k`-th on, in
/// order.
pub open spec fn present_from(present: Seq<bool>, k: int) -> Seq<Seq<char>>
    decreases 4 - k,
{
    if k < 0 || k >= 4 {
        Seq::empty()
    } else if present[k] {
        seq![candidate(k)] + present_from(present, k + 1)
    } else {
        present_from(present, k + 1)
    }
}

pub open spec fn all_candidates() -> Seq<Seq<char>> {
    seq![candidate(0), candidate(1), candidate(2), candidate(3)]
}

/// The choice among the candidates, given which of them are executable
/// files (`present[k]` for `CANDIDATES[k]`): the first present one, with a
/// note naming the others when there are several; the first candidate,
/// marked as not found, when none is.
pub open spec fn chosen_candidate(present: Seq<bool>) -> ResolvedV {
    let found = present_from(present, 0);
    if found.len() == 0 {
        ResolvedV {
            path: candidate(0),
            found: false,
            notes: seq![
                "slacker was not found in "@ + joined(all_candidates(), ", "@) + ". Set "@
                    + ENV_OVERRIDE@ + " to its full path."@,
            ],
        }
    } else if found.len() == 1 {
        ResolvedV { path: found[0], found: true, notes: Seq::empty() }
    } else {
        ResolvedV {
            path: found[0],
            found: true,
            notes: seq![
                "Also found "@ + joined(found.drop_first(), ", "@) + ". Check that "@ + found[0]
                    + " is the build you expect, or set "@ + ENV_OVERRIDE@ + "."@,
            ],
        }
    }
}

/// A path is absolute when it starts at the root.
pub open spec fn is_absolute(path: Seq<char>) -> bool {
    path.len() > 0 && path[0] == '/'
}

/// The choice when `SLACKER_BIN` is set to `path`; `executable` says
/// whether an executable file is there. A relative path is refused before
/// anything is looked at.
pub open spec fn chosen_override(path: Seq<char>, executable: bool) -> ResolvedV {
    let using = "Using "@ + ENV_OVERRIDE@ + "."@;
    if !is_absolute(path) {
        ResolvedV {
            path,
            found: false,
            notes: seq![using, ENV_OVERRIDE@ + " must be an absolute path."@],
        }
    } else if !executable {
        ResolvedV {
            path,
            found: false,
            notes: seq![using, path + " is not an executable file."@],
        }
    } else {
        ResolvedV { path, found: true, notes: seq![using] }
    }
}

pub fn from_override(path: String, executable: bool) -> (r: Resolved)
    ensures
        r@ == chosen_override(path@, executable),
{
    let mut notes: Vec<String> = Vec::new();
    let mut using = owned("Using ");
    using.append(ENV_OVERRIDE);
    using.append(".");
    push_string(&mut notes, using);
    let ghost n0 = strs(notes@);
    let absolute = path.as_str().unicode_len() > 0 && path.as_str().get_char(0) == '/';
    assert(absolute == is_absolute(path@));
    if !absolute {
        let mut m = owned(ENV_OVERRIDE);
        m.append(" must be an absolute path.");
        push_string(&mut notes, m);
        let r = Resolved { path, found: false, notes };
        assert(r@.notes =~= chosen_override(path@, executable).notes);
        return r;
    }
    if !executable {
        let mut m = path.clone();
        m.append(" is not an executable file.");
        push_string(&mut notes, m);
    }
    let r = Resolved { path, found: executable, notes };
    assert(r@.notes =~= chosen_override(r@.path, executable).notes);
    r
}

pub fn from_candidates(present: &[bool]) -> (r: Resolved)
    requires
        present@.len() == CANDIDATES@.len(),
    ensures
        r@ == chosen_candidate(present@),
{
    let mut found: Vec<String> = Vec::new();
    let mut k: usize = 4;
    while k > 0
        invariant
            k <= 4 == present@.len(),
            strs(found@) == present_from(present@, k as int),
        decreases k,
    {
        k = k - 1;
        if present[k] {
            let mut next: Vec<String> = Vec::new();
            push_string(&mut next, owned(candidate_exec(k)));
            let mut m: usize = 0;
            while m < found.len()
                invariant
                    m <= found@.len(),
                    strs(next@) == seq![candidate(k as int)] + strs(found@).take(m as int),
                decreases found.len() - m,
            {
                push_string(&mut next, found[m].clone());
                assert(strs(found@).take(m + 1) =~= strs(found@).take(m as int).push(
                    found@[m as int]@,
                ));
                assert(strs(next@) =~= seq![candidate(k as int)] + strs(found@).take(m + 1));
                m = m + 1;
            }
            assert(strs(found@).take(m as int) =~= strs(found@));
            found = next;
        }
    }
    let ghost fs = strs(found@);
    if found.len() == 0 {
        let mut all: Vec<String> = Vec::new();
        let mut j: usize = 0;
        while j < 4
            invariant
                j <= 4,
                strs(all@) == all_candidates().take(j as int),
            decreases 4 - j,
        {
            push_string(&mut all, owned(candidate_exec(j)));
            assert(all_candidates().take(j + 1) =~= all_candidates().take(j as int).push(
                candidate(j as int),
            ));
            j = j + 1;
        }
        assert(all_candidates().take(4) =~= all_candidates());
        let list = join_strings(&all, 0, ", ");
        assert(strs(all@).subrange(0, 4) =~= all_candidates());
        let mut m = owned("slacker was not found in ");
        m.append(list.as_str());
        m.append(". Set ");
        m.append(ENV_OVERRIDE);
        m.append(" to its full path.");
        let mut notes: Vec<String> = Vec::new();
        push_string(&mut notes, m);
        let r = Resolved { path: owned(candidate_exec(0)), found: false, notes };
        assert(r@.notes =~= chosen_candidate(present@).notes);
        return r;
    }
    let first = found[0].clone();
    assert(first@ == fs[0]);
    if found.len() == 1 {
        let r = Resolved { path: first, found: true, notes: Vec::new() };
        assert(r@.notes =~= Seq::<Seq<char>>::empty());
        return r;
    }
    let others = join_strings(&found, 1, ", ");
    assert(fs.subrange(1, fs.len() as int) =~= fs.drop_first());
    let mut m = owned("Also found ");
    m.append(others.as_str());
    m.append(". Check that ");
    m.append(first.as_str());
    m.append(" is the build you expect, or set ");
    m.append(ENV_OVERRIDE);
    m.append(".");
    let mut notes: Vec<String> = Vec::new();
    push_string(&mut notes, m);
    let r = Resolved { path: first, found: true, notes };
    assert(r@.notes =~= chosen_candidate(present@).notes);
    r
}

} // verus!
