//! `slacker check-updates`: one row per repository, `  NAME  STATE`, then
//! summary and warning lines.
use vstd::prelude::*;

use crate::parse::rules::span_has_char;
use crate::parse::two_spaces;
use crate::text::{
    chars_of, contains, ends_with, line_spans, lines, push_string, span_ends_with,
    span_starts_with, span_texts, spans_in, starts_with, string_of, strs, trim, trim_end,
    trim_end_span, trim_span,
};

verus! {

#[derive(Debug, Clone, Copy, PartialEq, Eq, Structural)]
pub enum State {
    UpToDate,
    Pending,
    Unknown,
    Unreachable,
}

#[derive(Debug, Default)]
pub struct Updates {
    pub repos: Vec<(String, State)>,
    /// Summary and warning lines, in order.
    pub notes: Vec<String>,
}

pub struct UpdatesV {
    pub repos: Seq<(Seq<char>, State)>,
    pub notes: Seq<Seq<char>>,
}

impl View for Updates {
    type V = UpdatesV;

    open spec fn view(&self) -> UpdatesV {
        UpdatesV {
            repos: self.repos@.map_values(|r: (String, State)| (r.0@, r.1)),
            notes: strs(self.notes@),
        }
    }
}

/// The words slacker prints for each state, in the order they are tried.
pub open spec fn state_word(k: int) -> Seq<char> {
    if k == 0 {
        "up-to-date"@
    } else if k == 1 {
        "updates pending"@
    } else if k == 2 {
        "unknown (run update first)"@
    } else {
        "unreachable (check its URL)"@
    }
}

pub open spec fn state_at(k: int) -> State {
    if k == 0 {
        State::UpToDate
    } else if k == 1 {
        State::Pending
    } else if k == 2 {
        State::Unknown
    } else {
        State::Unreachable
    }
}

/// `l` read as `NAME  WORD` for the state words from the `k`-th on: the
/// name is what is left before the word, without trailing space; it must be
/// one non-empty word.
pub open spec fn state_row_from(l: Seq<char>, k: int) -> Option<(Seq<char>, State)>
    decreases 4 - k,
{
    if k < 0 || k >= 4 {
        None
    } else {
        let w = state_word(k);
        let name = trim_end(l.subrange(0, l.len() - w.len()));
        if ends_with(l, w) && name.len() > 0 && !contains(name, seq![' ']) {
            Some((name, state_at(k)))
        } else {
            state_row_from(l, k + 1)
        }
    }
}

pub open spec fn row_of(line: Seq<char>) -> Option<(Seq<char>, State)> {
    if starts_with(line, two_spaces()) {
        state_row_from(line.subrange(2, line.len() as int), 0)
    } else {
        None
    }
}

pub open spec fn updates_step(u: UpdatesV, line: Seq<char>) -> UpdatesV {
    if trim(line).len() == 0 {
        u
    } else {
        match row_of(line) {
            Some(r) => UpdatesV { repos: u.repos.push(r), ..u },
            None => UpdatesV { notes: u.notes.push(trim(line)), ..u },
        }
    }
}

pub open spec fn updates_of(ls: Seq<Seq<char>>) -> UpdatesV
    decreases ls.len(),
{
    if ls.len() == 0 {
        UpdatesV { repos: Seq::empty(), notes: Seq::empty() }
    } else {
        updates_step(updates_of(ls.drop_last()), ls.last())
    }
}

/// The repository states and the other lines of `slacker check-updates`.
pub open spec fn updates_spec(text: Seq<char>) -> UpdatesV {
    updates_of(lines(text))
}

proof fn lemma_state_row_found(l: Seq<char>, k: int)
    requires
        0 <= k,
    ensures
        state_row_from(l, k) matches Some((name, st)) ==> exists|m: int|
            k <= m < 4 && ends_with(l, #[trigger] state_word(m)) && st == state_at(m) && name
                == trim_end(l.subrange(0, l.len() - state_word(m).len())),
    decreases 4 - k,
{
    if k < 4 {
        lemma_state_row_found(l, k + 1);
    }
}

/// Text ends with at most one of the state words.
proof fn lemma_one_state_word(s: Seq<char>)
    ensures
        ends_with(s, "up-to-date"@) ==> !ends_with(s, "updates pending"@) && !ends_with(
            s,
            "unknown (run update first)"@,
        ) && !ends_with(s, "unreachable (check its URL)"@),
        ends_with(s, "updates pending"@) ==> !ends_with(s, "unknown (run update first)"@)
            && !ends_with(s, "unreachable (check its URL)"@),
        ends_with(s, "unknown (run update first)"@) ==> !ends_with(
            s,
            "unreachable (check its URL)"@,
        ),
{
    reveal_strlit("up-to-date");
    reveal_strlit("updates pending");
    reveal_strlit("unknown (run update first)");
    reveal_strlit("unreachable (check its URL)");
    let n = s.len() as int;
    assert forall|w: Seq<char>| #[trigger] ends_with(s, w) && w.len() >= 2 implies s[n - 1]
        == w[w.len() - 1] && s[n - 2] == w[w.len() - 2] by {
        assert(s.subrange(n - w.len(), n)[w.len() - 1] == s[n - 1]);
        assert(s.subrange(n - w.len(), n)[w.len() - 2] == s[n - 2]);
    }
}

/// A check-updates row reads as the state its last words name: `up-to-date`
/// is up to date, `updates pending` is pending, `unknown (run update
/// first)` is unknown and `unreachable (check its URL)` is unreachable; the
/// repository's name is what comes before, up to the padding.
pub proof fn update_rows_read_the_state_word(line: Seq<char>)
    ensures
        row_of(line) matches Some((name, st)) ==> {
            &&& st == State::UpToDate <==> ends_with(line, "up-to-date"@)
            &&& st == State::Pending <==> ends_with(line, "updates pending"@)
            &&& st == State::Unknown <==> ends_with(line, "unknown (run update first)"@)
            &&& st == State::Unreachable <==> ends_with(line, "unreachable (check its URL)"@)
            &&& starts_with(line.subrange(2, line.len() as int), name)
        },
{
    if let Some((name, st)) = row_of(line) {
        let l = line.subrange(2, line.len() as int);
        lemma_state_row_found(l, 0);
        let m = choose|m: int|
            0 <= m < 4 && ends_with(l, #[trigger] state_word(m)) && st == state_at(m) && name
                == trim_end(l.subrange(0, l.len() - state_word(m).len()));
        let w = state_word(m);
        assert(line.subrange(line.len() - w.len(), line.len() as int) =~= l.subrange(
            l.len() - w.len(),
            l.len() as int,
        ));
        assert(ends_with(line, w));
        lemma_one_state_word(line);
        crate::text::lemma_trail_bounds(l.subrange(0, l.len() - w.len()), l.len() - w.len());
        assert(l.subrange(0, name.len() as int) =~= name);
    }
}

/// `st` is the state the last words of `line` name.
pub open spec fn names_state(line: Seq<char>, st: State) -> bool {
    &&& st == State::UpToDate <==> ends_with(line, "up-to-date"@)
    &&& st == State::Pending <==> ends_with(line, "updates pending"@)
    &&& st == State::Unknown <==> ends_with(line, "unknown (run update first)"@)
    &&& st == State::Unreachable <==> ends_with(line, "unreachable (check its URL)"@)
}

proof fn lemma_repos_from_lines(ls: Seq<Seq<char>>)
    ensures
        forall|i: int|
            0 <= i < updates_of(ls).repos.len() ==> exists|k: int|
                0 <= k < ls.len() && row_of(ls[k]) == Some(#[trigger] updates_of(ls).repos[i])
                    && names_state(ls[k], updates_of(ls).repos[i].1),
    decreases ls.len(),
{
    if ls.len() > 0 {
        let pl = ls.drop_last();
        lemma_repos_from_lines(pl);
        let line = ls.last();
        update_rows_read_the_state_word(line);
        let u = updates_of(pl);
        let n = updates_of(ls);
        assert forall|i: int| 0 <= i < n.repos.len() implies exists|k: int|
            0 <= k < ls.len() && row_of(ls[k]) == Some(#[trigger] n.repos[i]) && names_state(
                ls[k],
                n.repos[i].1,
            ) by {
            if i < u.repos.len() {
                assert(n.repos[i] == u.repos[i]);
                let k = choose|k: int|
                    0 <= k < pl.len() && row_of(pl[k]) == Some(u.repos[i]) && names_state(
                        pl[k],
                        u.repos[i].1,
                    );
                assert(ls[k] == pl[k]);
            } else {
                assert(ls[ls.len() - 1] == line);
            }
        }
    }
}

/// Every repository `slacker check-updates` is read into comes from one of
/// its rows, with the state that row's words name: a row ending in
/// `updates pending` is pending and one ending in `up-to-date` is up to
/// date.
pub proof fn update_states_follow_their_words(text: Seq<char>)
    ensures
        forall|i: int|
            0 <= i < updates_spec(text).repos.len() ==> exists|k: int|
                0 <= k < lines(text).len() && row_of(lines(text)[k]) == Some(
                    #[trigger] updates_spec(text).repos[i],
                ) && names_state(lines(text)[k], updates_spec(text).repos[i].1),
{
    lemma_repos_from_lines(lines(text));
}

/// A row written as slacker writes it, `  NAME  WORD` with any padding
/// between, reads back as that name with the state the word names.
pub proof fn update_rows_read_back(name: Seq<char>, gap: nat)
    requires
        name.len() > 0,
        forall|i: int| 0 <= i < name.len() ==> !crate::text::is_ws(#[trigger] name[i]),
        gap >= 1,
    ensures
        row_of(seq![' ', ' '] + name + Seq::new(gap, |i: int| ' ') + "up-to-date"@) == Some(
            (name, State::UpToDate),
        ),
        row_of(seq![' ', ' '] + name + Seq::new(gap, |i: int| ' ') + "updates pending"@) == Some(
            (name, State::Pending),
        ),
        row_of(seq![' ', ' '] + name + Seq::new(gap, |i: int| ' ') + "unknown (run update first)"@)
            == Some((name, State::Unknown)),
        row_of(seq![' ', ' '] + name + Seq::new(gap, |i: int| ' ') + "unreachable (check its URL)"@)
            == Some((name, State::Unreachable)),
{
    lemma_reads_back(name, gap, 0);
    lemma_reads_back(name, gap, 1);
    lemma_reads_back(name, gap, 2);
    lemma_reads_back(name, gap, 3);
}

proof fn lemma_reads_back(name: Seq<char>, gap: nat, k: int)
    requires
        name.len() > 0,
        forall|i: int| 0 <= i < name.len() ==> !crate::text::is_ws(#[trigger] name[i]),
        gap >= 1,
        0 <= k < 4,
    ensures
        row_of(seq![' ', ' '] + name + Seq::new(gap, |i: int| ' ') + state_word(k)) == Some(
            (name, state_at(k)),
        ),
{
    let pad = Seq::new(gap, |i: int| ' ');
    let w = state_word(k);
    let line = seq![' ', ' '] + name + pad + w;
    let l = line.subrange(2, line.len() as int);
    assert(l =~= name + pad + w);
    assert(starts_with(line, two_spaces())) by {
        assert(line.subrange(0, 2) =~= two_spaces());
    }
    assert(ends_with(l, w)) by {
        assert(l.subrange(l.len() - w.len(), l.len() as int) =~= w);
    }
    lemma_one_state_word(l);
    let before = l.subrange(0, l.len() - w.len());
    assert(before =~= name + pad);
    crate::text::lemma_trail_bounds(before, before.len() as int);
    lemma_trail_pad(name, pad);
    assert(trim_end(before) =~= name);
    assert(!contains(name, seq![' '])) by {
        crate::text::lemma_find_from(name, seq![' '], 0);
        if let Some(j) = crate::text::find(name, seq![' ']) {
            assert(name.subrange(j, j + 1)[0] == name[j]);
        }
    }
    reveal_strlit("up-to-date");
    reveal_strlit("updates pending");
    reveal_strlit("unknown (run update first)");
    reveal_strlit("unreachable (check its URL)");
    assert(state_row_from(l, k) == Some((name, state_at(k))));
    if k >= 3 {
        assert(!ends_with(l, state_word(2)));
        assert(state_row_from(l, 2) == state_row_from(l, 3));
    }
    if k >= 2 {
        assert(!ends_with(l, state_word(1)));
        assert(state_row_from(l, 1) == state_row_from(l, 2));
    }
    if k >= 1 {
        assert(!ends_with(l, state_word(0)));
        assert(state_row_from(l, 0) == state_row_from(l, 1));
    }
}

/// Trailing spaces after a name with no white space are exactly the padding.
proof fn lemma_trail_pad(name: Seq<char>, pad: Seq<char>)
    requires
        name.len() > 0,
        forall|i: int| 0 <= i < name.len() ==> !crate::text::is_ws(#[trigger] name[i]),
        forall|i: int| 0 <= i < pad.len() ==> #[trigger] pad[i] == ' ',
    ensures
        crate::text::trail_from(name + pad, (name + pad).len() as int) == name.len(),
    decreases pad.len(),
{
    let s = name + pad;
    if pad.len() > 0 {
        let p2 = pad.drop_last();
        lemma_trail_pad(name, p2);
        assert(s.drop_last() =~= name + p2);
        lemma_trail_prefix(s, s.len() - 1);
    } else {
        assert(s =~= name);
        assert(!crate::text::is_ws(s[s.len() - 1]));
    }
}

/// Trimming trailing white space of `s[..j]` looks only at `s[..j]`.
proof fn lemma_trail_prefix(s: Seq<char>, j: int)
    requires
        0 < j < s.len(),
        crate::text::is_ws(s[j]),
    ensures
        crate::text::trail_from(s, j + 1) == crate::text::trail_from(s.subrange(0, j), j),
{
    lemma_trail_same(s, s.subrange(0, j), j);
}

proof fn lemma_trail_same(s: Seq<char>, t: Seq<char>, j: int)
    requires
        0 <= j <= t.len(),
        j < s.len(),
        t.len() <= s.len(),
        t == s.subrange(0, t.len() as int),
    ensures
        crate::text::trail_from(s, j) == crate::text::trail_from(t, j),
    decreases j,
{
    if j > 0 {
        assert(t[j - 1] == s[j - 1]);
        lemma_trail_same(s, t, j - 1);
    }
}

fn state_word_exec(k: usize) -> (w: Vec<char>)
    requires
        k < 4,
    ensures
        w@ == state_word(k as int),
{
    if k == 0 {
        chars_of("up-to-date")
    } else if k == 1 {
        chars_of("updates pending")
    } else if k == 2 {
        chars_of("unknown (run update first)")
    } else {
        chars_of("unreachable (check its URL)")
    }
}

fn state_at_exec(k: usize) -> (s: State)
    requires
        k < 4,
    ensures
        s == state_at(k as int),
{
    if k == 0 {
        State::UpToDate
    } else if k == 1 {
        State::Pending
    } else if k == 2 {
        State::Unknown
    } else {
        State::Unreachable
    }
}

fn row_exec(v: &[char], a: usize, b: usize) -> (r: Option<(String, State)>)
    requires
        a <= b <= v@.len(),
    ensures
        r matches Some(x) ==> row_of(v@.subrange(a as int, b as int)) == Some((x.0@, x.1)),
        r is None ==> row_of(v@.subrange(a as int, b as int)) is None,
{
    let ghost line = v@.subrange(a as int, b as int);
    let sep = chars_of("  ");
    proof {
        reveal_strlit("  ");
        assert(sep@ =~= two_spaces());
    }
    if !span_starts_with(v, a, b, sep.as_slice()) {
        return None;
    }
    let ghost l = line.subrange(2, line.len() as int);
    assert(l =~= v@.subrange(a + 2, b as int));
    let mut k: usize = 0;
    while k < 4
        invariant
            a + 2 <= b <= v@.len(),
            l == v@.subrange(a + 2, b as int),
            line == v@.subrange(a as int, b as int),
            starts_with(line, two_spaces()),
            l == line.subrange(2, line.len() as int),
            k <= 4,
            state_row_from(l, 0) == state_row_from(l, k as int),
        decreases 4 - k,
    {
        let w = state_word_exec(k);
        if span_ends_with(v, a + 2, b, w.as_slice()) {
            let e = trim_end_span(v, a + 2, b - w.len());
            proof {
                assert(l.subrange(0, l.len() - w@.len()) =~= v@.subrange(a + 2, b - w@.len()));
            }
            if e > a + 2 && !span_has_char(v, a + 2, e, ' ') {
                proof {
                    let name = trim_end(l.subrange(0, l.len() - w@.len()));
                    assert(name == v@.subrange(a + 2, e as int));
                    assert(state_row_from(l, k as int) == Some((name, state_at(k as int))));
                }
                let name = string_of(v, a + 2, e);
                let st = state_at_exec(k);
                assert(row_of(line) == Some((name@, st)));
                return Some((name, st));
            }
        }
        k = k + 1;
    }
    None
}

/// Reads `slacker check-updates` output: each line is a repository row or
/// kept trimmed as a note; blank lines are skipped.
pub fn parse(text: &str) -> (out: Updates)
    ensures
        out@ == updates_spec(text@),
{
    let v = chars_of(text);
    let spans = line_spans(v.as_slice());
    let mut out = Updates { repos: Vec::new(), notes: Vec::new() };
    let ghost ls = span_texts(v@, spans@);
    let mut k: usize = 0;
    proof {
        assert(ls.take(0) =~= Seq::<Seq<char>>::empty());
        assert(out@.repos =~= Seq::<(Seq<char>, State)>::empty());
        assert(out@.notes =~= Seq::<Seq<char>>::empty());
    }
    while k < spans.len()
        invariant
            k <= spans@.len(),
            v@ == text@,
            spans_in(v@, spans@),
            ls == span_texts(v@, spans@),
            ls == lines(text@),
            out@ == updates_of(ls.take(k as int)),
        decreases spans.len() - k,
    {
        let (a, b) = spans[k];
        assert(ls[k as int] == v@.subrange(a as int, b as int));
        assert(ls.take(k + 1).drop_last() =~= ls.take(k as int));
        let ghost prev = out@;
        let (ta, tb) = trim_span(v.as_slice(), a, b);
        if ta < tb {
            match row_exec(v.as_slice(), a, b) {
                Some(r) => {
                    let ghost rv = (r.0@, r.1);
                    out.repos.push(r);
                    assert(out@.repos =~= prev.repos.push(rv));
                },
                None => {
                    push_string(&mut out.notes, string_of(v.as_slice(), ta, tb));
                },
            }
        }
        k = k + 1;
    }
    assert(ls.take(k as int) =~= ls);
    out
}

} // verus!
