//! `slacker list-repos`: the repository table, the build-tag table and the
//! totals under them.
use vstd::prelude::*;

use crate::parse::search::strings_of_spans;
use crate::text::{
    chars_of, line_spans, lines, parse_i32, parse_i32_span, parse_u32, parse_u32_span,
    push_string, span_eq, span_starts_with, span_texts, spans_in, split, split_spans, splitn,
    starts_with, string_of, strs, trim, trim_span, find, find_span,
};

verus! {

#[derive(Debug, Clone, PartialEq, Eq, Structural)]
pub enum RepoState {
    Normal,
    /// `[FROZEN]`: hard quarantine (bad metadata or signature).
    Frozen,
    /// `[unreachable — retrying]`: soft quarantine.
    Unreachable,
}

#[derive(Debug, Clone, PartialEq)]
pub struct Repo {
    pub priority: i32,
    pub name: String,
    /// None when slacker prints `?` (no metadata for this repo yet).
    pub installed: Option<u32>,
    pub verify: String,
    pub url: String,
    /// `official`, `immutable`, `subtree`, `credentials=NAME`, `insecure`.
    pub flags: Vec<String>,
    pub state: RepoState,
}

#[derive(Debug, Clone, PartialEq)]
pub struct TagRule {
    pub priority: i32,
    pub name: String,
    pub tag: String,
    pub installed: u32,
    /// `(declared, no installed package)`
    pub unused: bool,
}

#[derive(Debug, Default)]
pub struct Repos {
    pub repos: Vec<Repo>,
    pub tags: Vec<TagRule>,
    pub total_installed: Option<u32>,
    /// `Installed under other build tags: N [tag=n, ...]`
    pub other_tags: Option<String>,
    /// e.g. `no metadata yet for: ...`
    pub notes: Vec<String>,
    pub unrecognized: Vec<String>,
}

/// Which table the lines being read belong to.
#[derive(PartialEq, Eq, Structural)]
pub enum Section {
    /// Outside both tables.
    Neither,
    Repos,
    Tags,
}

pub struct RepoV {
    pub priority: i32,
    pub name: Seq<char>,
    pub installed: Option<u32>,
    pub verify: Seq<char>,
    pub url: Seq<char>,
    pub flags: Seq<Seq<char>>,
    pub state: RepoState,
}

pub struct TagRuleV {
    pub priority: i32,
    pub name: Seq<char>,
    pub tag: Seq<char>,
    pub installed: u32,
    pub unused: bool,
}

pub struct ReposV {
    pub repos: Seq<RepoV>,
    pub tags: Seq<TagRuleV>,
    pub total_installed: Option<u32>,
    pub other_tags: Option<Seq<char>>,
    pub notes: Seq<Seq<char>>,
    pub unrecognized: Seq<Seq<char>>,
}

impl View for Repo {
    type V = RepoV;

    open spec fn view(&self) -> RepoV {
        RepoV {
            priority: self.priority,
            name: self.name@,
            installed: self.installed,
            verify: self.verify@,
            url: self.url@,
            flags: strs(self.flags@),
            state: self.state,
        }
    }
}

impl View for TagRule {
    type V = TagRuleV;

    open spec fn view(&self) -> TagRuleV {
        TagRuleV {
            priority: self.priority,
            name: self.name@,
            tag: self.tag@,
            installed: self.installed,
            unused: self.unused,
        }
    }
}

pub open spec fn opt_text(o: Option<String>) -> Option<Seq<char>> {
    match o {
        Some(s) => Some(s@),
        None => None,
    }
}

impl View for Repos {
    type V = ReposV;

    open spec fn view(&self) -> ReposV {
        ReposV {
            repos: self.repos@.map_values(|r: Repo| r@),
            tags: self.tags@.map_values(|t: TagRule| t@),
            total_installed: self.total_installed,
            other_tags: opt_text(self.other_tags),
            notes: strs(self.notes@),
            unrecognized: strs(self.unrecognized@),
        }
    }
}

/// The cell separator of both tables.
pub open spec fn bar() -> Seq<char> {
    " | "@
}

/// What the pieces after a repository's cells say, read one piece at a
/// time: (url, flags, state, every piece understood).
pub open spec fn repo_tail_of(pieces: Seq<Seq<char>>) -> (
    Option<Seq<char>>,
    Seq<Seq<char>>,
    RepoState,
    bool,
)
    decreases pieces.len(),
{
    if pieces.len() == 0 {
        (None, Seq::empty(), RepoState::Normal, true)
    } else {
        let (url, flags, state, ok) = repo_tail_of(pieces.drop_last());
        let p = trim(pieces.last());
        if p.len() == 0 {
            (url, flags, state, ok)
        } else if url is None {
            (Some(p), flags, state, ok)
        } else if !ok {
            (url, flags, state, ok)
        } else if p == "[FROZEN]"@ {
            (url, flags, RepoState::Frozen, ok)
        } else if starts_with(p, "[unreachable"@) {
            (url, flags, RepoState::Unreachable, ok)
        } else if p.len() >= 2 && p[0] == '(' && p[p.len() - 1] == ')' {
            (url, flags.push(p.subrange(1, p.len() - 1)), state, ok)
        } else {
            (url, flags, state, false)
        }
    }
}

/// A row of the repository table, `PRI | NAME | N | VERIFY | URL  (flag)...`.
pub open spec fn repo_of(t: Seq<char>) -> Option<RepoV> {
    let cells = splitn(t, bar(), 5);
    if cells.len() != 5 {
        None
    } else {
        let inst = trim(cells[2]);
        let (url, flags, state, ok) = repo_tail_of(split(cells[4], "  "@));
        match (parse_i32(trim(cells[0])), url) {
            (Some(priority), Some(u)) => {
                if !ok {
                    None
                } else if inst == "?"@ {
                    Some(
                        RepoV {
                            priority,
                            name: trim(cells[1]),
                            installed: None,
                            verify: trim(cells[3]),
                            url: u,
                            flags,
                            state,
                        },
                    )
                } else {
                    match parse_u32(inst) {
                        Some(n) => Some(
                            RepoV {
                                priority,
                                name: trim(cells[1]),
                                installed: Some(n),
                                verify: trim(cells[3]),
                                url: u,
                                flags,
                                state,
                            },
                        ),
                        None => None,
                    }
                }
            },
            _ => None,
        }
    }
}

pub open spec fn unused_note() -> Seq<char> {
    "(declared, no installed package)"@
}

/// A row of the build-tag table, `PRI | NAME | TAG | N[  (declared, ...)]`.
pub open spec fn tag_of(t: Seq<char>) -> Option<TagRuleV> {
    let cells = splitn(t, bar(), 4);
    if cells.len() != 4 {
        None
    } else {
        let last = trim(cells[3]);
        let (count, unused, ok) = match find(last, "  "@) {
            Some(i) => (
                last.subrange(0, i),
                true,
                trim(last.subrange(i + 2, last.len() as int)) == unused_note(),
            ),
            None => (last, false, true),
        };
        match (parse_i32(trim(cells[0])), parse_u32(trim(count))) {
            (Some(priority), Some(n)) => if ok {
                Some(
                    TagRuleV {
                        priority,
                        name: trim(cells[1]),
                        tag: trim(cells[2]),
                        installed: n,
                        unused,
                    },
                )
            } else {
                None
            },
            _ => None,
        }
    }
}

pub open spec fn repos_step(st: (ReposV, Section), line: Seq<char>) -> (ReposV, Section) {
    let (r, section) = st;
    let t = trim(line);
    let total = "Total installed packages: "@;
    let other = "Installed under other build tags: "@;
    if t.len() == 0 {
        st
    } else if t == "Configured repositories (highest priority first):"@ {
        (r, Section::Repos)
    } else if t == "Build-tag priorities:"@ {
        (r, Section::Tags)
    } else if starts_with(t, total) {
        (
            ReposV {
                total_installed: parse_u32(t.subrange(total.len() as int, t.len() as int)),
                ..r
            },
            Section::Neither,
        )
    } else if starts_with(t, other) {
        (ReposV { other_tags: Some(t.subrange(other.len() as int, t.len() as int)), ..r }, section)
    } else if starts_with(t, "no metadata yet for: "@) {
        (ReposV { notes: r.notes.push(t), ..r }, section)
    } else if starts_with(t, "Pri |"@) || starts_with(t, "-----+"@) {
        st
    } else {
        let unrec = (ReposV { unrecognized: r.unrecognized.push(line), ..r }, section);
        match section {
            Section::Repos => match repo_of(t) {
                Some(x) => (ReposV { repos: r.repos.push(x), ..r }, section),
                None => unrec,
            },
            Section::Tags => match tag_of(t) {
                Some(x) => (ReposV { tags: r.tags.push(x), ..r }, section),
                None => unrec,
            },
            Section::Neither => unrec,
        }
    }
}

pub open spec fn repos_of(ls: Seq<Seq<char>>) -> (ReposV, Section)
    decreases ls.len(),
{
    if ls.len() == 0 {
        (
            ReposV {
                repos: Seq::empty(),
                tags: Seq::empty(),
                total_installed: None,
                other_tags: None,
                notes: Seq::empty(),
                unrecognized: Seq::empty(),
            },
            Section::Neither,
        )
    } else {
        repos_step(repos_of(ls.drop_last()), ls.last())
    }
}

/// The tables and totals of `slacker list-repos` output.
pub open spec fn repos_spec(text: Seq<char>) -> ReposV {
    repos_of(lines(text)).0
}

/// A piece that marks a repository's state: `[FROZEN]` or `[unreachable ...]`.
pub open spec fn is_state_marker(p: Seq<char>) -> bool {
    trim(p) == "[FROZEN]"@ || starts_with(trim(p), "[unreachable"@)
}

/// A repository's state comes from a marker among the pieces after its URL:
/// it is frozen only where a piece reads `[FROZEN]`, unreachable only where
/// a piece starts `[unreachable`, and normal where no piece marks a state.
pub proof fn repo_state_follows_its_marker(ps: Seq<Seq<char>>)
    ensures
        repo_tail_of(ps).2 == RepoState::Frozen ==> exists|i: int|
            0 <= i < ps.len() && trim(#[trigger] ps[i]) == "[FROZEN]"@,
        repo_tail_of(ps).2 == RepoState::Unreachable ==> exists|i: int|
            0 <= i < ps.len() && starts_with(trim(#[trigger] ps[i]), "[unreachable"@),
        (forall|i: int| 0 <= i < ps.len() ==> !is_state_marker(#[trigger] ps[i]))
            ==> repo_tail_of(ps).2 == RepoState::Normal,
    decreases ps.len(),
{
    if ps.len() > 0 {
        let pl = ps.drop_last();
        repo_state_follows_its_marker(pl);
        assert forall|i: int| 0 <= i < pl.len() implies pl[i] == ps[i] by {}
        let n = ps.len() - 1;
        if repo_tail_of(ps).2 == RepoState::Frozen && repo_tail_of(pl).2 != RepoState::Frozen {
            assert(trim(ps[n]) == "[FROZEN]"@);
        }
        if repo_tail_of(ps).2 == RepoState::Unreachable && repo_tail_of(pl).2
            != RepoState::Unreachable {
            assert(starts_with(trim(ps[n]), "[unreachable"@));
        }
        if forall|i: int| 0 <= i < ps.len() ==> !is_state_marker(#[trigger] ps[i]) {
            assert(!is_state_marker(ps[n]));
        }
    }
}

/// A marker after a repository's URL sets its state and keeps everything
/// else: `[FROZEN]` freezes it, `[unreachable ...]` marks it unreachable.
pub proof fn a_marker_sets_the_state(ps: Seq<Seq<char>>, p: Seq<char>)
    requires
        repo_tail_of(ps).0 is Some,
        repo_tail_of(ps).3,
    ensures
        trim(p) == "[FROZEN]"@ ==> repo_tail_of(ps.push(p)) == (
            repo_tail_of(ps).0,
            repo_tail_of(ps).1,
            RepoState::Frozen,
            true,
        ),
        starts_with(trim(p), "[unreachable"@) ==> repo_tail_of(ps.push(p)) == (
            repo_tail_of(ps).0,
            repo_tail_of(ps).1,
            RepoState::Unreachable,
            true,
        ),
{
    reveal_strlit("[FROZEN]");
    reveal_strlit("[unreachable");
    let q = ps.push(p);
    assert(q.drop_last() =~= ps);
    if starts_with(trim(p), "[unreachable"@) {
        assert(trim(p) != "[FROZEN]"@) by {
            assert(trim(p).subrange(0, 12)[1] == trim(p)[1]);
        }
    }
}

/// The pieces of a split are stretches of the text.
proof fn lemma_split_pieces(s: Seq<char>, p: Seq<char>, i: int)
    requires
        0 <= i <= s.len(),
    ensures
        forall|k: int|
            0 <= k < crate::text::split_from(s, p, i).len() ==> exists|a: int, b: int|
                0 <= a <= b <= s.len() && #[trigger] crate::text::split_from(s, p, i)[k]
                    == s.subrange(a, b),
    decreases s.len() + 1 - i,
{
    if p.len() > 0 {
        crate::text::lemma_find_from(s, p, i);
        if let Some(k) = crate::text::find_from(s, p, i) {
            lemma_split_pieces(s, p, k + p.len());
            let rest = crate::text::split_from(s, p, k + p.len());
            let all = crate::text::split_from(s, p, i);
            assert forall|m: int| 0 <= m < all.len() implies exists|a: int, b: int|
                0 <= a <= b <= s.len() && #[trigger] all[m] == s.subrange(a, b) by {
                if m == 0 {
                    assert(all[0] == s.subrange(i, k));
                } else {
                    assert(all[m] == rest[m - 1]);
                }
            }
        } else {
            assert(crate::text::split_from(s, p, i)[0] == s.subrange(i, s.len() as int));
        }
    } else {
        assert(crate::text::split_from(s, p, i)[0] == s.subrange(i, s.len() as int));
    }
}

/// The cells of a `splitn` are stretches of the text.
proof fn lemma_splitn_pieces(s: Seq<char>, p: Seq<char>, i: int, n: nat)
    requires
        0 <= i <= s.len(),
    ensures
        forall|k: int|
            0 <= k < crate::text::splitn_from(s, p, i, n).len() ==> exists|a: int, b: int|
                0 <= a <= b <= s.len() && #[trigger] crate::text::splitn_from(s, p, i, n)[k]
                    == s.subrange(a, b),
    decreases n,
{
    let all = crate::text::splitn_from(s, p, i, n);
    if n <= 1 || p.len() == 0 {
        assert(all[0] == s.subrange(i, s.len() as int));
    } else {
        crate::text::lemma_find_from(s, p, i);
        if let Some(k) = crate::text::find_from(s, p, i) {
            lemma_splitn_pieces(s, p, k + p.len(), (n - 1) as nat);
            let rest = crate::text::splitn_from(s, p, k + p.len(), (n - 1) as nat);
            assert forall|m: int| 0 <= m < all.len() implies exists|a: int, b: int|
                0 <= a <= b <= s.len() && #[trigger] all[m] == s.subrange(a, b) by {
                if m == 0 {
                    assert(all[0] == s.subrange(i, k));
                } else {
                    assert(all[m] == rest[m - 1]);
                }
            }
        } else {
            assert(all[0] == s.subrange(i, s.len() as int));
        }
    }
}

/// Text found in a stretch of `s` is found in `s`.
proof fn lemma_contains_within(s: Seq<char>, a: int, b: int, w: Seq<char>)
    requires
        0 <= a <= b <= s.len(),
        w.len() > 0,
        crate::text::matches_at(s.subrange(a, b), w, 0),
    ensures
        crate::text::contains(s, w),
{
    assert(s.subrange(a, a + w.len()) =~= s.subrange(a, b).subrange(0, w.len() as int));
    assert(crate::text::matches_at(s, w, a));
    crate::text::lemma_find_from(s, w, 0);
}

/// The marker a row's state comes from is printed on the row: a frozen
/// repository's row reads `[FROZEN]` and an unreachable one's reads
/// `[unreachable`.
pub proof fn repo_rows_show_their_state(t: Seq<char>)
    ensures
        repo_of(t) matches Some(r) ==> {
            &&& r.state == RepoState::Frozen ==> crate::text::contains(t, "[FROZEN]"@)
            &&& r.state == RepoState::Unreachable ==> crate::text::contains(t, "[unreachable"@)
        },
{
    reveal_strlit("[FROZEN]");
    reveal_strlit("[unreachable");
    if let Some(r) = repo_of(t) {
        let cells = splitn(t, bar(), 5);
        lemma_splitn_pieces(t, bar(), 0, 5);
        let (a4, b4) = choose|a: int, b: int| 0 <= a <= b <= t.len() && cells[4] == t.subrange(a, b);
        let c4 = cells[4];
        let ps = split(c4, "  "@);
        lemma_split_pieces(c4, "  "@, 0);
        repo_state_follows_its_marker(ps);
        if r.state != RepoState::Normal {
            let i = if r.state == RepoState::Frozen {
                choose|i: int| 0 <= i < ps.len() && trim(#[trigger] ps[i]) == "[FROZEN]"@
            } else {
                choose|i: int| 0 <= i < ps.len() && starts_with(trim(#[trigger] ps[i]), "[unreachable"@)
            };
            let (a, b) = choose|a: int, b: int| 0 <= a <= b <= c4.len() && ps[i] == c4.subrange(a, b);
            let x = ps[i];
            crate::text::lemma_lead_bounds(x, 0);
            let ts = crate::text::trim_start(x);
            crate::text::lemma_trail_bounds(ts, ts.len() as int);
            let la = crate::text::lead_from(x, 0);
            let lb = la + crate::text::trail_from(ts, ts.len() as int);
            assert(trim(x) =~= x.subrange(la, lb));
            let w = if r.state == RepoState::Frozen {
                "[FROZEN]"@
            } else {
                "[unreachable"@
            };
            if r.state == RepoState::Frozen {
                assert(trim(x) == w);
                assert(trim(x).subrange(0, w.len() as int) =~= w);
            } else {
                assert(starts_with(trim(x), w));
            }
            assert(crate::text::matches_at(trim(x), w, 0));
            let s0 = a4 + a + la;
            let s1 = a4 + a + lb;
            assert(t.subrange(s0, s1) =~= trim(x));
            lemma_contains_within(t, s0, s1, w);
        }
    }
}

/// `r` was read from `line`, and its state is printed on it.
pub open spec fn repo_read_from(r: RepoV, line: Seq<char>) -> bool {
    &&& repo_of(trim(line)) == Some(r)
    &&& r.state == RepoState::Frozen ==> crate::text::contains(trim(line), "[FROZEN]"@)
    &&& r.state == RepoState::Unreachable ==> crate::text::contains(trim(line), "[unreachable"@)
}

proof fn lemma_repos_from_lines(ls: Seq<Seq<char>>)
    ensures
        forall|i: int|
            0 <= i < repos_of(ls).0.repos.len() ==> exists|k: int|
                0 <= k < ls.len() && repo_read_from(#[trigger] repos_of(ls).0.repos[i], ls[k]),
    decreases ls.len(),
{
    if ls.len() > 0 {
        let pl = ls.drop_last();
        lemma_repos_from_lines(pl);
        let line = ls.last();
        repo_rows_show_their_state(trim(line));
        let s = repos_of(pl).0;
        let n = repos_of(ls).0;
        assert forall|i: int| 0 <= i < n.repos.len() implies exists|k: int|
            0 <= k < ls.len() && repo_read_from(#[trigger] n.repos[i], ls[k]) by {
            if i < s.repos.len() {
                assert(n.repos[i] == s.repos[i]);
                let k = choose|k: int| 0 <= k < pl.len() && repo_read_from(s.repos[i], pl[k]);
                assert(ls[k] == pl[k]);
            } else {
                assert(ls[ls.len() - 1] == line);
                assert(repo_read_from(n.repos[i], ls[ls.len() - 1]));
            }
        }
    }
}

/// Every repository `slacker list-repos` is read into comes from one of its
/// rows, and a frozen or unreachable one from a row that says so.
pub proof fn listed_repos_show_their_state(text: Seq<char>)
    ensures
        forall|i: int|
            0 <= i < repos_spec(text).repos.len() ==> exists|k: int|
                0 <= k < lines(text).len() && repo_read_from(
                    #[trigger] repos_spec(text).repos[i],
                    lines(text)[k],
                ),
{
    lemma_repos_from_lines(lines(text));
}

fn repo_exec(v: &[char], a: usize, b: usize) -> (r: Option<Repo>)
    requires
        a <= b <= v@.len(),
    ensures
        r matches Some(x) ==> repo_of(v@.subrange(a as int, b as int)) == Some(x@),
        r is None ==> repo_of(v@.subrange(a as int, b as int)) is None,
{
    let sep = chars_of(" | ");
    let two = chars_of("  ");
    proof {
        reveal_strlit(" | ");
        reveal_strlit("  ");
    }
    let cells = split_spans(v, a, b, sep.as_slice(), 5);
    if cells.len() != 5 {
        return None;
    }
    let ghost cv = span_texts(v@, cells@);
    let (c0a, c0b) = cells[0];
    let (c1a, c1b) = cells[1];
    let (c2a, c2b) = cells[2];
    let (c3a, c3b) = cells[3];
    let (c4a, c4b) = cells[4];
    assert(cv[0] == v@.subrange(c0a as int, c0b as int));
    assert(cv[1] == v@.subrange(c1a as int, c1b as int));
    assert(cv[2] == v@.subrange(c2a as int, c2b as int));
    assert(cv[3] == v@.subrange(c3a as int, c3b as int));
    assert(cv[4] == v@.subrange(c4a as int, c4b as int));
    let (pa, pb) = trim_span(v, c0a, c0b);
    let priority = match parse_i32_span(v, pa, pb) {
        Some(p) => p,
        None => return None,
    };
    let (na, nb) = trim_span(v, c1a, c1b);
    let (ia, ib) = trim_span(v, c2a, c2b);
    let (va, vb) = trim_span(v, c3a, c3b);
    let pieces = split_spans(v, c4a, c4b, two.as_slice(), 0);
    let ghost pv = span_texts(v@, pieces@);
    let mut url: Option<(usize, usize)> = None;
    let mut flags: Vec<String> = Vec::new();
    let mut state = RepoState::Normal;
    let frozen = chars_of("[FROZEN]");
    let unreach = chars_of("[unreachable");
    let mut k: usize = 0;
    proof {
        assert(pv.take(0) =~= Seq::<Seq<char>>::empty());
        assert(strs(flags@) =~= Seq::<Seq<char>>::empty());
    }
    while k < pieces.len()
        invariant
            a <= b <= v@.len(),
            cv == span_texts(v@, cells@),
            cv == splitn(v@.subrange(a as int, b as int), bar(), 5),
            cv.len() == 5,
            two@ == "  "@,
            pv == split(cv[4], "  "@),
            k <= pieces@.len(),
            spans_in(v@, pieces@),
            pv == span_texts(v@, pieces@),
            frozen@ == "[FROZEN]"@,
            unreach@ == "[unreachable"@,
            url matches Some(u) ==> u.0 <= u.1 <= v@.len(),
            ({
                let (u, f, s, ok) = repo_tail_of(pv.take(k as int));
                &&& ok
                &&& f == strs(flags@)
                &&& s == state
                &&& (u is None <==> url is None)
                &&& (url matches Some(x) ==> u == Some(v@.subrange(x.0 as int, x.1 as int)))
            }),
        decreases pieces.len() - k,
    {
        let (x, y) = pieces[k];
        assert(pv[k as int] == v@.subrange(x as int, y as int));
        assert(pv.take(k + 1).drop_last() =~= pv.take(k as int));
        let (ta, tb) = trim_span(v, x, y);
        let ghost p = v@.subrange(ta as int, tb as int);
        proof {
            if ta < tb {
                assert(p[0] == v@[ta as int]);
                assert(p[p.len() - 1] == v@[tb - 1]);
                if tb - ta >= 2 {
                    assert(p.subrange(1, p.len() - 1) =~= v@.subrange(ta + 1, tb - 1));
                }
            }
        }
        if ta == tb {
        } else if url.is_none() {
            url = Some((ta, tb));
        } else if span_eq(v, ta, tb, frozen.as_slice()) {
            state = RepoState::Frozen;
        } else if span_starts_with(v, ta, tb, unreach.as_slice()) {
            state = RepoState::Unreachable;
        } else if tb - ta >= 2 && v[ta] == '(' && v[tb - 1] == ')' {
            push_string(&mut flags, string_of(v, ta + 1, tb - 1));
        } else {
            proof {
                assert(!repo_tail_of(pv.take(k + 1)).3);
                lemma_repo_tail_fails(pv, k + 1);
                assert(pv.take(pv.len() as int) =~= pv);
            }
            return None;
        }
        k = k + 1;
    }
    assert(pv.take(k as int) =~= pv);
    let (ua, ub) = match url {
        Some(u) => u,
        None => return None,
    };
    let star = vec!['?'];
    proof {
        reveal_strlit("?");
        assert(star@ =~= "?"@);
    }
    let installed = if span_eq(v, ia, ib, star.as_slice()) {
        None
    } else {
        match parse_u32_span(v, ia, ib) {
            Some(n) => Some(n),
            None => return None,
        }
    };
    let r = Repo {
        priority,
        name: string_of(v, na, nb),
        installed,
        verify: string_of(v, va, vb),
        url: string_of(v, ua, ub),
        flags,
        state,
    };
    Some(r)
}

/// Once a piece is not understood, no later piece changes that.
proof fn lemma_repo_tail_fails(pv: Seq<Seq<char>>, k: int)
    requires
        0 <= k <= pv.len(),
        !repo_tail_of(pv.take(k)).3,
        repo_tail_of(pv.take(k)).0 is Some,
    ensures
        !repo_tail_of(pv.take(pv.len() as int)).3,
        repo_tail_of(pv.take(pv.len() as int)).0 is Some,
    decreases pv.len() - k,
{
    if k < pv.len() {
        assert(pv.take(k + 1).drop_last() =~= pv.take(k));
        lemma_repo_tail_fails(pv, k + 1);
    }
}

fn tag_exec(v: &[char], a: usize, b: usize) -> (r: Option<TagRule>)
    requires
        a <= b <= v@.len(),
    ensures
        r matches Some(x) ==> tag_of(v@.subrange(a as int, b as int)) == Some(x@),
        r is None ==> tag_of(v@.subrange(a as int, b as int)) is None,
{
    let sep = chars_of(" | ");
    let two = chars_of("  ");
    let note = chars_of("(declared, no installed package)");
    proof {
        reveal_strlit(" | ");
        reveal_strlit("  ");
    }
    let cells = split_spans(v, a, b, sep.as_slice(), 4);
    if cells.len() != 4 {
        return None;
    }
    let ghost cv = span_texts(v@, cells@);
    let (c0a, c0b) = cells[0];
    let (c1a, c1b) = cells[1];
    let (c2a, c2b) = cells[2];
    let (c3a, c3b) = cells[3];
    assert(cv[0] == v@.subrange(c0a as int, c0b as int));
    assert(cv[1] == v@.subrange(c1a as int, c1b as int));
    assert(cv[2] == v@.subrange(c2a as int, c2b as int));
    assert(cv[3] == v@.subrange(c3a as int, c3b as int));
    let (la, lb) = trim_span(v, c3a, c3b);
    let ghost last = v@.subrange(la as int, lb as int);
    let (ca, cb, unused) = match find_span(v, la, lb, two.as_slice()) {
        Some(i) => {
            let (ra, rb) = trim_span(v, i + 2, lb);
            assert(last.subrange(0, i - la) =~= v@.subrange(la as int, i as int));
            assert(last.subrange(i - la + 2, last.len() as int) =~= v@.subrange(i + 2, lb as int));
            if !span_eq(v, ra, rb, note.as_slice()) {
                return None;
            }
            (la, i, true)
        },
        None => (la, lb, false),
    };
    let (pa, pb) = trim_span(v, c0a, c0b);
    let priority = match parse_i32_span(v, pa, pb) {
        Some(p) => p,
        None => return None,
    };
    let (xa, xb) = trim_span(v, ca, cb);
    let installed = match parse_u32_span(v, xa, xb) {
        Some(n) => n,
        None => return None,
    };
    let (na, nb) = trim_span(v, c1a, c1b);
    let (ta, tb) = trim_span(v, c2a, c2b);
    Some(TagRule { priority, name: string_of(v, na, nb), tag: string_of(v, ta, tb), installed, unused })
}

/// Reads `slacker list-repos` output. Rows of the two tables are read in
/// their sections; header and rule lines are skipped; the totals and notes
/// under the tables are kept; any other line is kept verbatim as
/// unrecognised.
pub fn parse(text: &str) -> (out: Repos)
    ensures
        out@ == repos_spec(text@),
{
    let v = chars_of(text);
    let spans = line_spans(v.as_slice());
    let h_repos = chars_of("Configured repositories (highest priority first):");
    let h_tags = chars_of("Build-tag priorities:");
    let total = chars_of("Total installed packages: ");
    let other = chars_of("Installed under other build tags: ");
    let no_meta = chars_of("no metadata yet for: ");
    let hdr = chars_of("Pri |");
    let rule = chars_of("-----+");
    let mut out = Repos {
        repos: Vec::new(),
        tags: Vec::new(),
        total_installed: None,
        other_tags: None,
        notes: Vec::new(),
        unrecognized: Vec::new(),
    };
    let mut section = Section::Neither;
    let ghost ls = span_texts(v@, spans@);
    let mut k: usize = 0;
    proof {
        assert(ls.take(0) =~= Seq::<Seq<char>>::empty());
        assert(out@.repos =~= Seq::<RepoV>::empty());
        assert(out@.tags =~= Seq::<TagRuleV>::empty());
        assert(out@.notes =~= Seq::<Seq<char>>::empty());
        assert(out@.unrecognized =~= Seq::<Seq<char>>::empty());
    }
    while k < spans.len()
        invariant
            k <= spans@.len(),
            v@ == text@,
            spans_in(v@, spans@),
            ls == span_texts(v@, spans@),
            ls == lines(text@),
            h_repos@ == "Configured repositories (highest priority first):"@,
            h_tags@ == "Build-tag priorities:"@,
            total@ == "Total installed packages: "@,
            other@ == "Installed under other build tags: "@,
            no_meta@ == "no metadata yet for: "@,
            hdr@ == "Pri |"@,
            rule@ == "-----+"@,
            (out@, section) == repos_of(ls.take(k as int)),
        decreases spans.len() - k,
    {
        let (a, b) = spans[k];
        assert(ls[k as int] == v@.subrange(a as int, b as int));
        assert(ls.take(k + 1).drop_last() =~= ls.take(k as int));
        let ghost prev = out@;
        let ghost line = v@.subrange(a as int, b as int);
        let (ta, tb) = trim_span(v.as_slice(), a, b);
        let ghost t = v@.subrange(ta as int, tb as int);
        if ta == tb {
        } else if span_eq(v.as_slice(), ta, tb, h_repos.as_slice()) {
            section = Section::Repos;
        } else if span_eq(v.as_slice(), ta, tb, h_tags.as_slice()) {
            section = Section::Tags;
        } else if span_starts_with(v.as_slice(), ta, tb, total.as_slice()) {
            section = Section::Neither;
            let n = parse_u32_span(v.as_slice(), ta + total.len(), tb);
            assert(t.subrange(total@.len() as int, t.len() as int) =~= v@.subrange(
                ta + total@.len(),
                tb as int,
            ));
            out.total_installed = n;
        } else if span_starts_with(v.as_slice(), ta, tb, other.as_slice()) {
            assert(t.subrange(other@.len() as int, t.len() as int) =~= v@.subrange(
                ta + other@.len(),
                tb as int,
            ));
            out.other_tags = Some(string_of(v.as_slice(), ta + other.len(), tb));
        } else if span_starts_with(v.as_slice(), ta, tb, no_meta.as_slice()) {
            push_string(&mut out.notes, string_of(v.as_slice(), ta, tb));
        } else if span_starts_with(v.as_slice(), ta, tb, hdr.as_slice()) || span_starts_with(
            v.as_slice(),
            ta,
            tb,
            rule.as_slice(),
        ) {
        } else {
            let mut done = false;
            match section {
                Section::Repos => {
                    match repo_exec(v.as_slice(), ta, tb) {
                        Some(x) => {
                            let ghost xv = x@;
                            out.repos.push(x);
                            assert(out@.repos =~= prev.repos.push(xv));
                            done = true;
                        },
                        None => {},
                    }
                },
                Section::Tags => {
                    match tag_exec(v.as_slice(), ta, tb) {
                        Some(x) => {
                            let ghost xv = x@;
                            out.tags.push(x);
                            assert(out@.tags =~= prev.tags.push(xv));
                            done = true;
                        },
                        None => {},
                    }
                },
                Section::Neither => {},
            }
            if !done {
                push_string(&mut out.unrecognized, string_of(v.as_slice(), a, b));
            }
        }
        k = k + 1;
    }
    assert(ls.take(k as int) =~= ls);
    out
}

} // verus!
