//! Parsers for slacker's human-readable output.
//!
//! Each parser follows the exact formats slacker prints. A line a parser does
//! not recognise is never guessed at: it is kept verbatim, and the page shows
//! it as-is next to whatever was understood.
use vstd::prelude::*;

pub mod history;
pub mod mirrors;
pub mod prompt;
pub mod repos;
pub mod rules;
pub mod search;
pub mod status;
pub mod updates;

use crate::text::{
    chars_of, find, find_span, is_ws, lemma_find_from, lemma_lead_bounds, lemma_trail_bounds,
    lead_from, matches_at, span_texts, spans_in, trim, trim_end, trim_span, trim_start,
    trim_start_span,
};

verus! {

/// The column separator slacker uses between padded fields.
pub open spec fn two_spaces() -> Seq<char> {
    seq![' ', ' ']
}

/// The columns of text that is already trimmed at the start.
pub open spec fn columns_rest(r: Seq<char>) -> Seq<Seq<char>>
    decreases r.len(),
    via columns_rest_decreases
{
    if r.len() == 0 {
        Seq::empty()
    } else {
        match find(r, two_spaces()) {
            Some(i) => seq![r.subrange(0, i)] + columns_rest(
                trim_start(r.subrange(i, r.len() as int)),
            ),
            None => seq![r],
        }
    }
}

#[via_fn]
proof fn columns_rest_decreases(r: Seq<char>) {
    lemma_columns_progress(r);
}

/// After a separator the rest is shorter than the text it was cut from.
pub proof fn lemma_columns_progress(r: Seq<char>)
    ensures
        r.len() > 0 ==> (find(r, two_spaces()) matches Some(i) ==> trim_start(
            r.subrange(i, r.len() as int),
        ).len() < r.len()),
{
    if r.len() > 0 {
        lemma_find_from(r, two_spaces(), 0);
        if let Some(i) = find(r, two_spaces()) {
            let t = r.subrange(i, r.len() as int);
            lemma_lead_bounds(t, 0);
            if i == 0 {
                assert(t[0] == ' ');
                assert(t[1] == ' ') by {
                    assert(r.subrange(0, 2)[1] == ' ');
                }
                assert(lead_from(t, 0) == lead_from(t, 1));
                assert(lead_from(t, 1) == lead_from(t, 2));
                lemma_lead_bounds(t, 2);
            }
        }
    }
}

/// The columns of `s`: the trimmed text split at runs of two or more spaces.
pub open spec fn columns(s: Seq<char>) -> Seq<Seq<char>> {
    columns_rest(trim(s))
}

/// One column as slacker pads them: not empty, not starting with white
/// space, and holding no run of two spaces.
pub open spec fn is_column(c: Seq<char>) -> bool {
    c.len() > 0 && !is_ws(c[0]) && find(c, two_spaces()) is None
}

proof fn lemma_columns_rest_shape(r: Seq<char>)
    requires
        r.len() == 0 || !is_ws(r[0]),
    ensures
        forall|k: int| 0 <= k < columns_rest(r).len() ==> is_column(#[trigger] columns_rest(r)[k]),
    decreases r.len(),
{
    if r.len() > 0 {
        lemma_find_from(r, two_spaces(), 0);
        match find(r, two_spaces()) {
            Some(i) => {
                let c = r.subrange(0, i);
                let t = r.subrange(i, r.len() as int);
                let rest = trim_start(t);
                if i == 0 {
                    assert(r.subrange(0, 2)[0] == r[0]);
                    assert(false);
                }
                lemma_lead_bounds(t, 0);
                lemma_columns_progress(r);
                lemma_columns_rest_shape(rest);
                lemma_find_from(c, two_spaces(), 0);
                if find(c, two_spaces()) is Some {
                    let m = find(c, two_spaces())->0;
                    assert(c.subrange(m, m + 2) =~= r.subrange(m, m + 2));
                    assert(matches_at(r, two_spaces(), m));
                }
                assert(c[0] == r[0]);
                assert(is_column(c));
                assert forall|k: int| 0 <= k < columns_rest(r).len() implies is_column(
                    #[trigger] columns_rest(r)[k],
                ) by {
                    if k > 0 {
                        assert(columns_rest(r)[k] == columns_rest(rest)[k - 1]);
                    }
                }
            },
            None => {
                assert(columns_rest(r) == seq![r]);
            },
        }
    }
}

/// Every column is a real one: never empty, never starting with white space,
/// never holding the two-space separator.
pub proof fn lemma_columns_shape(s: Seq<char>)
    ensures
        forall|k: int| 0 <= k < columns(s).len() ==> is_column(#[trigger] columns(s)[k]),
{
    let t = trim_start(s);
    lemma_lead_bounds(s, 0);
    lemma_trail_bounds(t, t.len() as int);
    if trim(s).len() > 0 {
        assert(trim(s)[0] == t[0]);
        assert(t[0] == s[lead_from(s, 0)]);
    }
    lemma_columns_rest_shape(trim(s));
}

/// A run of white space between two columns: it starts with two spaces.
pub open spec fn is_separator(w: Seq<char>) -> bool {
    &&& w.len() >= 2
    &&& w[0] == ' ' && w[1] == ' '
    &&& forall|k: int| 0 <= k < w.len() ==> is_ws(#[trigger] w[k])
}

/// The columns with the separators between them, in order.
pub open spec fn joined_columns(cols: Seq<Seq<char>>, seps: Seq<Seq<char>>) -> Seq<char>
    decreases cols.len(),
{
    if cols.len() == 0 {
        Seq::empty()
    } else if cols.len() == 1 || seps.len() == 0 {
        cols[0]
    } else {
        cols[0] + seps[0] + joined_columns(cols.drop_first(), seps.drop_first())
    }
}

/// `r` is the columns put back together, a separator between each two.
pub open spec fn rebuilds(cols: Seq<Seq<char>>, r: Seq<char>) -> bool {
    exists|seps: Seq<Seq<char>>|
        seps.len() + 1 == cols.len() && (forall|k: int| 0 <= k < seps.len() ==> is_separator(
            #[trigger] seps[k],
        )) && joined_columns(cols, seps) == r
}

/// `c` does not end in a space.
pub open spec fn ends_without_space(c: Seq<char>) -> bool {
    c.len() == 0 || c.last() != ' '
}

proof fn lemma_columns_rest_rebuild(r: Seq<char>)
    requires
        r.len() == 0 || (!is_ws(r[0]) && !is_ws(r.last())),
    ensures
        columns_rest(r).len() == 0 <==> r.len() == 0,
        r.len() > 0 ==> rebuilds(columns_rest(r), r),
        forall|k: int| 0 <= k < columns_rest(r).len() ==> ends_without_space(
            #[trigger] columns_rest(r)[k],
        ),
    decreases r.len(),
{
    if r.len() > 0 {
        lemma_find_from(r, two_spaces(), 0);
        match find(r, two_spaces()) {
            Some(i) => {
                let c = r.subrange(0, i);
                let t = r.subrange(i, r.len() as int);
                let l = lead_from(t, 0);
                let w = t.subrange(0, l);
                let rest = trim_start(t);
                assert(r.subrange(i, i + 2)[0] == r[i]);
                assert(r.subrange(i, i + 2)[1] == r[i + 1]);
                if i == 0 {
                    assert(false);
                }
                lemma_lead_bounds(t, 0);
                assert(lead_from(t, 0) == lead_from(t, 1));
                assert(lead_from(t, 1) == lead_from(t, 2));
                lemma_lead_bounds(t, 2);
                if l == t.len() {
                    assert(is_ws(t[t.len() - 1]));
                    assert(t[t.len() - 1] == r.last());
                }
                assert(rest.len() > 0);
                assert(rest[0] == t[l]);
                assert(rest.last() == r.last());
                lemma_columns_progress(r);
                lemma_columns_rest_rebuild(rest);
                let cols = columns_rest(r);
                let rc = columns_rest(rest);
                assert(cols == seq![c] + rc);
                let seps2 = choose|seps: Seq<Seq<char>>|
                    seps.len() + 1 == rc.len() && (forall|k: int| 0 <= k < seps.len() ==> is_separator(
                        #[trigger] seps[k],
                    )) && joined_columns(rc, seps) == rest;
                let seps = seq![w] + seps2;
                assert(is_separator(w)) by {
                    assert forall|k: int| 0 <= k < w.len() implies is_ws(#[trigger] w[k]) by {
                        assert(w[k] == t[k]);
                    }
                }
                assert forall|k: int| 0 <= k < seps.len() implies is_separator(#[trigger] seps[k]) by {
                    if k > 0 {
                        assert(seps[k] == seps2[k - 1]);
                    }
                }
                assert(cols.drop_first() =~= rc);
                assert(seps.drop_first() =~= seps2);
                assert(r =~= c + w + rest);
                assert(joined_columns(cols, seps) == r);
                if r[i - 1] == ' ' {
                    assert(r.subrange(i - 1, i + 1) =~= two_spaces());
                    assert(matches_at(r, two_spaces(), i - 1));
                }
                assert forall|k: int| 0 <= k < cols.len() implies ends_without_space(
                    #[trigger] cols[k],
                ) by {
                    if k > 0 {
                        assert(cols[k] == rc[k - 1]);
                    }
                }
            },
            None => {
                let cols = columns_rest(r);
                assert(cols == seq![r]);
                assert(joined_columns(cols, Seq::<Seq<char>>::empty()) == r);
            },
        }
    }
}

/// The columns give back the trimmed line: joined with the runs of white
/// space between them, each starting with two spaces, they are the line
/// without its leading and trailing white space. No column ends in a space,
/// and there are none exactly when the trimmed line is empty.
pub proof fn columns_rebuild_the_trimmed_line(s: Seq<char>)
    ensures
        columns(s).len() == 0 <==> trim(s).len() == 0,
        trim(s).len() > 0 ==> rebuilds(columns(s), trim(s)),
        forall|k: int| 0 <= k < columns(s).len() ==> ends_without_space(#[trigger] columns(s)[k]),
{
    let t = trim_start(s);
    lemma_lead_bounds(s, 0);
    lemma_trail_bounds(t, t.len() as int);
    let u = trim(s);
    if u.len() > 0 {
        assert(u[0] == t[0]);
        assert(t[0] == s[lead_from(s, 0)]);
        assert(u.last() == t[crate::text::trail_from(t, t.len() as int) - 1]);
    }
    lemma_columns_rest_rebuild(u);
}

/// The spans of the columns of `v[a..b]`.
pub fn column_spans(v: &[char], a: usize, b: usize) -> (r: Vec<(usize, usize)>)
    requires
        a <= b <= v@.len(),
    ensures
        spans_in(v@, r@),
        span_texts(v@, r@) == columns(v@.subrange(a as int, b as int)),
{
    let sep = chars_of("  ");
    proof {
        reveal_strlit("  ");
        assert(sep@ =~= two_spaces());
    }
    let (mut ra, rb) = trim_span(v, a, b);
    let mut out: Vec<(usize, usize)> = Vec::new();
    proof {
        let t = trim(v@.subrange(a as int, b as int));
        assert(t == trim_end(trim_start(v@.subrange(a as int, b as int))));
        lemma_lead_bounds(v@.subrange(ra as int, rb as int), 0);
    }
    while ra < rb
        invariant
            a <= ra <= rb <= b <= v@.len(),
            sep@ == two_spaces(),
            spans_in(v@, out@),
            span_texts(v@, out@) + columns_rest(v@.subrange(ra as int, rb as int)) == columns(
                v@.subrange(a as int, b as int),
            ),
        decreases rb - ra,
    {
        let ghost r = v@.subrange(ra as int, rb as int);
        let ghost before = span_texts(v@, out@);
        match find_span(v, ra, rb, sep.as_slice()) {
            Some(i) => {
                out.push((ra, i));
                let next = trim_start_span(v, i, rb);
                proof {
                    assert(r.subrange(0, i - ra) =~= v@.subrange(ra as int, i as int));
                    assert(span_texts(v@, out@) =~= before.push(r.subrange(0, i - ra)));
                    assert(r.subrange(i - ra, r.len() as int) =~= v@.subrange(i as int, rb as int));
                    assert(columns_rest(r) == seq![r.subrange(0, i - ra)] + columns_rest(
                        v@.subrange(next as int, rb as int),
                    ));
                    assert(span_texts(v@, out@) + columns_rest(v@.subrange(next as int, rb as int))
                        =~= before + columns_rest(r));
                    lemma_columns_progress(r);
                }
                // a run of two spaces is always skipped
                assert(next > ra) by {
                    if next == ra {
                        assert(r.subrange(0, 2)[0] == r[0]);
                    }
                };
                ra = next;
            },
            None => {
                out.push((ra, rb));
                proof {
                    assert(span_texts(v@, out@) =~= before.push(r));
                    assert(columns_rest(r) == seq![r]);
                    assert(columns_rest(v@.subrange(rb as int, rb as int)) =~= Seq::<
                        Seq<char>,
                    >::empty());
                    assert(span_texts(v@, out@) + columns_rest(v@.subrange(rb as int, rb as int))
                        =~= before + columns_rest(r));
                }
                ra = rb;
            },
        }
    }
    proof {
        assert(columns_rest(v@.subrange(ra as int, rb as int)) =~= Seq::<Seq<char>>::empty());
        assert(span_texts(v@, out@) + Seq::<Seq<char>>::empty() =~= span_texts(v@, out@));
    }
    out
}

/// Splits on runs of two or more spaces, the column separator slacker uses
/// between padded fields.
pub fn split_columns(s: &str) -> (r: Vec<&str>)
    ensures
        r@.map_values(|x: &str| x@) == columns(s@),
        forall|k: int| 0 <= k < r@.len() ==> is_column(#[trigger] r@[k]@),
        forall|k: int| 0 <= k < r@.len() ==> ends_without_space(#[trigger] r@[k]@),
        r@.len() == 0 <==> trim(s@).len() == 0,
        trim(s@).len() > 0 ==> rebuilds(r@.map_values(|x: &str| x@), trim(s@)),
{
    proof {
        lemma_columns_shape(s@);
        columns_rebuild_the_trimmed_line(s@);
    }
    let v = chars_of(s);
    let spans = column_spans(v.as_slice(), 0, v.len());
    let mut out: Vec<&str> = Vec::new();
    let mut k: usize = 0;
    assert(v@.subrange(0, v@.len() as int) =~= s@);
    while k < spans.len()
        invariant
            k <= spans@.len(),
            v@ == s@,
            spans_in(v@, spans@),
            span_texts(v@, spans@) == columns(s@),
            out@.map_values(|x: &str| x@) == span_texts(v@, spans@).take(k as int),
        decreases spans.len() - k,
    {
        let (x, y) = spans[k];
        assert(spans@[k as int] == (x, y));
        let piece = s.substring_char(x, y);
        let ghost before = out@.map_values(|x: &str| x@);
        out.push(piece);
        assert(out@.map_values(|x: &str| x@) =~= before.push(v@.subrange(x as int, y as int)));
        assert(span_texts(v@, spans@).take(k + 1) =~= span_texts(v@, spans@).take(k as int).push(
            span_texts(v@, spans@)[k as int],
        ));
        k = k + 1;
    }
    assert(span_texts(v@, spans@).take(k as int) =~= span_texts(v@, spans@));
    assert forall|k: int| 0 <= k < out@.len() implies is_column(#[trigger] out@[k]@)
        && ends_without_space(out@[k]@) by {
        assert(out@.map_values(|x: &str| x@)[k] == out@[k]@);
    }
    out
}

/// `idx` says where in `ls` each line of `kept` was printed: at strictly
/// increasing positions, each line exactly as it stands there.
pub open spec fn kept_at(kept: Seq<Seq<char>>, ls: Seq<Seq<char>>, idx: Seq<int>) -> bool {
    &&& idx.len() == kept.len()
    &&& forall|i: int| 0 <= i < idx.len() ==> 0 <= #[trigger] idx[i] < ls.len() && ls[idx[i]] == kept[i]
    &&& forall|i: int, j: int| 0 <= i < j < idx.len() ==> #[trigger] idx[i] < #[trigger] idx[j]
}

/// The lines of `kept` are lines of `ls`, as they were printed and in the
/// order they were printed.
pub open spec fn kept_verbatim(kept: Seq<Seq<char>>, ls: Seq<Seq<char>>) -> bool {
    exists|idx: Seq<int>| kept_at(kept, ls, idx)
}

proof fn lemma_kept_step(prev: Seq<Seq<char>>, next: Seq<Seq<char>>, ls: Seq<Seq<char>>)
    requires
        ls.len() > 0,
        kept_verbatim(prev, ls.drop_last()),
        next == prev || next == prev.push(ls.last()),
    ensures
        kept_verbatim(next, ls),
{
    let idx = choose|idx: Seq<int>| kept_at(prev, ls.drop_last(), idx);
    assert forall|i: int| 0 <= i < idx.len() implies ls[idx[i]] == ls.drop_last()[idx[i]] by {}
    if next == prev {
        assert(kept_at(next, ls, idx));
    } else {
        let idx2 = idx.push(ls.len() - 1);
        assert forall|i: int| 0 <= i < idx2.len() implies 0 <= #[trigger] idx2[i] < ls.len()
            && ls[idx2[i]] == next[i] by {
            if i < idx.len() {
                assert(idx2[i] == idx[i]);
                assert(next[i] == prev[i]);
            }
        }
        assert forall|i: int, j: int| 0 <= i < j < idx2.len() implies #[trigger] idx2[i]
            < #[trigger] idx2[j] by {
            assert(idx2[i] == idx[i]);
            if j < idx.len() {
                assert(idx2[j] == idx[j]);
            }
        }
        assert(kept_at(next, ls, idx2));
    }
}

/// Nothing kept from no lines.
proof fn lemma_kept_empty(ls: Seq<Seq<char>>)
    ensures
        kept_verbatim(Seq::empty(), ls),
{
    assert(kept_at(Seq::empty(), ls, Seq::<int>::empty()));
}

proof fn lemma_frozen_kept(ls: Seq<Seq<char>>)
    ensures
        kept_verbatim(rules::frozen_of(ls).0.unrecognized, ls),
    decreases ls.len(),
{
    if ls.len() == 0 {
        lemma_kept_empty(ls);
    }
    if ls.len() > 0 {
        lemma_frozen_kept(ls.drop_last());
        lemma_kept_step(
            rules::frozen_of(ls.drop_last()).0.unrecognized,
            rules::frozen_of(ls).0.unrecognized,
            ls,
        );
    }
}

proof fn lemma_pins_kept(ls: Seq<Seq<char>>)
    ensures
        kept_verbatim(rules::pins_of(ls).0.unrecognized, ls),
    decreases ls.len(),
{
    if ls.len() == 0 {
        lemma_kept_empty(ls);
    }
    if ls.len() > 0 {
        lemma_pins_kept(ls.drop_last());
        lemma_kept_step(rules::pins_of(ls.drop_last()).0.unrecognized, rules::pins_of(ls).0.unrecognized, ls);
    }
}

proof fn lemma_mirrors_kept(ls: Seq<Seq<char>>)
    ensures
        kept_verbatim(mirrors::mirrors_of(ls).0.unrecognized, ls),
    decreases ls.len(),
{
    if ls.len() == 0 {
        lemma_kept_empty(ls);
    }
    if ls.len() > 0 {
        lemma_mirrors_kept(ls.drop_last());
        lemma_kept_step(
            mirrors::mirrors_of(ls.drop_last()).0.unrecognized,
            mirrors::mirrors_of(ls).0.unrecognized,
            ls,
        );
    }
}

proof fn lemma_repos_kept(ls: Seq<Seq<char>>)
    ensures
        kept_verbatim(repos::repos_of(ls).0.unrecognized, ls),
    decreases ls.len(),
{
    if ls.len() == 0 {
        lemma_kept_empty(ls);
    }
    if ls.len() > 0 {
        lemma_repos_kept(ls.drop_last());
        lemma_kept_step(repos::repos_of(ls.drop_last()).0.unrecognized, repos::repos_of(ls).0.unrecognized, ls);
    }
}

proof fn lemma_status_kept(ls: Seq<Seq<char>>)
    ensures
        kept_verbatim(status::status_of(ls).unrecognized, ls),
    decreases ls.len(),
{
    if ls.len() == 0 {
        lemma_kept_empty(ls);
    }
    if ls.len() > 0 {
        lemma_status_kept(ls.drop_last());
        lemma_kept_step(status::status_of(ls.drop_last()).unrecognized, status::status_of(ls).unrecognized, ls);
    }
}

/// A line a parser does not recognise is never guessed at: what it keeps as
/// unrecognised are lines of the output, exactly as slacker printed them, in
/// the order it printed them.
pub proof fn unrecognised_lines_are_kept_verbatim(text: Seq<char>)
    ensures
        kept_verbatim(rules::frozen_spec(text).unrecognized, crate::text::lines(text)),
        kept_verbatim(rules::pins_spec(text).unrecognized, crate::text::lines(text)),
        kept_verbatim(mirrors::mirrors_spec(text).unrecognized, crate::text::lines(text)),
        kept_verbatim(repos::repos_spec(text).unrecognized, crate::text::lines(text)),
        kept_verbatim(status::status_spec(text).unrecognized, crate::text::lines(text)),
{
    let ls = crate::text::lines(text);
    lemma_frozen_kept(ls);
    lemma_pins_kept(ls);
    lemma_mirrors_kept(ls);
    lemma_repos_kept(ls);
    lemma_status_kept(ls);
}

} // verus!
