//! The Doctor page: `slacker --version` and `slacker status`, laid out as a
//! headline and one group per section.
use vstd::prelude::*;

use crate::pages::{count, lemma_count_all, lemma_count_step, other_lines, other_of, Look};
use crate::parse::status::{ItemKind, Mark, Row, RowV, SectionV, Status, StatusV, VerdictV};
use crate::text::{
    chars_of, dec, join, joined, line_spans, lines, owned, push_string, span_texts, string_of,
    strs, to_uppercase_text, trim, trim_span, uppercase_text, usize_text,
};

verus! {

pub open spec fn needs_attention(r: RowV) -> bool {
    r.mark == Mark::Bad || r.mark == Mark::Warn
}

pub open spec fn is_bad(r: RowV) -> bool {
    r.mark == Mark::Bad
}

/// The description of a section: how many of its rows need attention.
pub open spec fn attention_of(rows: Seq<RowV>) -> Seq<char> {
    let n = count(rows, |r: RowV| needs_attention(r));
    if n == 0 {
        Seq::empty()
    } else if n == 1 {
        "1 item needs attention"@
    } else {
        dec(n) + " items need attention"@
    }
}

pub fn attention(rows: &Vec<Row>) -> (r: String)
    ensures
        r@ == attention_of(rows@.map_values(|x: Row| x@)),
{
    let ghost rs = rows@.map_values(|x: Row| x@);
    let ghost p = |r: RowV| needs_attention(r);
    let mut n: usize = 0;
    let mut k: usize = 0;
    while k < rows.len()
        invariant
            k <= rows@.len() == rs.len(),
            rs == rows@.map_values(|x: Row| x@),
            p == (|r: RowV| needs_attention(r)),
            n == count(rs.take(k as int), p),
            n <= k,
        decreases rows.len() - k,
    {
        proof {
            lemma_count_step(rs, p, k as int);
        }
        let m = rows[k].mark;
        assert(rs[k as int].mark == m);
        assert(p(rs[k as int]) == (m == Mark::Bad || m == Mark::Warn));
        if m == Mark::Bad || m == Mark::Warn {
            n = n + 1;
        }
        k = k + 1;
    }
    proof {
        lemma_count_all(rs, p);
    }
    if n == 0 {
        proof {
            reveal_strlit("");
        }
        owned("")
    } else if n == 1 {
        owned("1 item needs attention")
    } else {
        let mut t = usize_text(n);
        t.append(" items need attention");
        t
    }
}

/// Each further line of a row, after a newline.
pub open spec fn extra_lines(extra: Seq<Seq<char>>) -> Seq<char>
    decreases extra.len(),
{
    if extra.len() == 0 {
        Seq::empty()
    } else {
        extra_lines(extra.drop_last()) + seq!['\n'] + extra.last()
    }
}

/// The title of a row (an em space for the unlabelled follow-up row, which
/// a row cannot show empty) and its subtitle: the detail and every further
/// line.
pub open spec fn row_text_of(r: RowV) -> (Seq<char>, Seq<char>) {
    (
        if r.label.len() == 0 {
            seq!['\u{2003}']
        } else {
            r.label
        },
        r.detail + extra_lines(r.extra),
    )
}

pub fn row_text(row: &Row) -> (r: (String, String))
    ensures
        (r.0@, r.1@) == row_text_of(row@),
{
    let title = if row.label.as_str().unicode_len() == 0 {
        let t = owned("\u{2003}");
        proof {
            reveal_strlit("\u{2003}");
        }
        t
    } else {
        row.label.clone()
    };
    let mut sub = row.detail.clone();
    let ghost ex = strs(row.extra@);
    let mut k: usize = 0;
    while k < row.extra.len()
        invariant
            k <= row.extra@.len(),
            ex == strs(row.extra@),
            sub@ == row@.detail + extra_lines(ex.take(k as int)),
        decreases row.extra.len() - k,
    {
        let ghost before = sub@;
        sub.append("\n");
        sub.append(row.extra[k].as_str());
        proof {
            reveal_strlit("\n");
            let t = ex.take(k + 1);
            assert(t.drop_last() =~= ex.take(k as int));
            assert(t.last() == row.extra@[k as int]@);
            assert(sub@ =~= row@.detail + extra_lines(t));
        }
        k = k + 1;
    }
    assert(ex.take(k as int) =~= ex);
    (title, sub)
}

/// What the report printed that has no place in a section: its messages,
/// then the lines that were not recognised, one per line; nothing when
/// there are none.
pub open spec fn other_output_of(report: StatusV) -> Option<Seq<char>> {
    other_of(report.messages, report.unrecognized)
}

pub fn other_output(report: &Status) -> (r: Option<String>)
    ensures
        match r {
            Some(s) => other_output_of(report@) == Some(s@),
            None => other_output_of(report@) is None,
        },
{
    other_lines(&report.messages, &report.unrecognized)
}

/// How many rows of all sections are marked bad.
pub open spec fn bad_rows(sections: Seq<SectionV>) -> nat
    decreases sections.len(),
{
    if sections.len() == 0 {
        0
    } else {
        bad_rows(sections.drop_last()) + count(sections.last().rows, |r: RowV| is_bad(r))
    }
}

/// The headline of the page: the verdict slacker printed (or that it did
/// not finish), its steps numbered for the chips, and its other lines.
pub struct Hero {
    pub look: Look,
    pub headline: String,
    pub steps: Vec<String>,
    pub others: Vec<(ItemKind, String)>,
}

pub struct HeroV {
    pub look: Look,
    pub headline: Seq<char>,
    pub steps: Seq<Seq<char>>,
    pub others: Seq<(ItemKind, Seq<char>)>,
}

impl View for Hero {
    type V = HeroV;

    open spec fn view(&self) -> HeroV {
        HeroV {
            look: self.look,
            headline: self.headline@,
            steps: strs(self.steps@),
            others: self.others@.map_values(|i: (ItemKind, String)| (i.0, i.1@)),
        }
    }
}

/// The numbered steps among `items[..n]`: `"1  first"`, `"2  second"`, ...
pub open spec fn numbered_steps(items: Seq<(ItemKind, Seq<char>)>, n: int) -> Seq<Seq<char>>
    decreases n,
{
    if n <= 0 {
        Seq::empty()
    } else {
        let prev = numbered_steps(items, n - 1);
        if items[n - 1].0 == ItemKind::Step {
            prev.push(dec((prev.len() + 1) as nat) + "  "@ + items[n - 1].1)
        } else {
            prev
        }
    }
}

/// The lines among `items[..n]` that are not steps, in order.
pub open spec fn other_items(items: Seq<(ItemKind, Seq<char>)>, n: int) -> Seq<
    (ItemKind, Seq<char>),
>
    decreases n,
{
    if n <= 0 {
        Seq::empty()
    } else {
        let prev = other_items(items, n - 1);
        if items[n - 1].0 == ItemKind::Step {
            prev
        } else {
            prev.push(items[n - 1])
        }
    }
}

pub open spec fn hero_of(report: StatusV) -> HeroV {
    let (good, headline, items) = match report.verdict {
        Some(v) => (v.all_good, v.headline, v.items),
        None => (false, "slacker did not finish its report"@, Seq::empty()),
    };
    let problems = bad_rows(report.sections);
    HeroV {
        look: if good {
            Look::Good
        } else if problems > 0 {
            Look::Bad
        } else {
            Look::Attention
        },
        headline,
        steps: numbered_steps(items, items.len() as int),
        others: other_items(items, items.len() as int),
    }
}

fn any_bad(report: &Status) -> (r: bool)
    ensures
        r == (bad_rows(report@.sections) > 0),
{
    let ghost ss = report@.sections;
    let mut k: usize = 0;
    while k < report.sections.len()
        invariant
            k <= report.sections@.len() == ss.len(),
            ss == report@.sections,
            bad_rows(ss.take(k as int)) == 0,
        decreases report.sections.len() - k,
    {
        let rows = &report.sections[k].rows;
        let ghost rs = ss[k as int].rows;
        assert(rs == rows@.map_values(|x: Row| x@));
        let ghost p = |r: RowV| is_bad(r);
        let mut j: usize = 0;
        while j < rows.len()
            invariant
                j <= rows@.len() == rs.len(),
                k < ss.len(),
                ss == report@.sections,
                rs == ss[k as int].rows,
                bad_rows(ss.take(k as int)) == 0,
                rs == rows@.map_values(|x: Row| x@),
                p == (|r: RowV| is_bad(r)),
                count(rs.take(j as int), p) == 0,
            decreases rows.len() - j,
        {
            proof {
                lemma_count_step(rs, p, j as int);
            }
            assert(rs[j as int].mark == rows[j as int].mark);
            if rows[j].mark == Mark::Bad {
                proof {
                    assert(ss.take(k + 1).drop_last() =~= ss.take(k as int));
                    assert(ss.take(k + 1).last() == ss[k as int]);
                    lemma_count_prefix(rs, p, j + 1);
                }
                proof {
                    lemma_bad_rows_prefix(ss, k + 1);
                }
                return true;
            }
            j = j + 1;
        }
        proof {
            lemma_count_all(rs, p);
            assert(ss.take(k + 1).drop_last() =~= ss.take(k as int));
            assert(ss.take(k + 1).last() == ss[k as int]);
        }
        k = k + 1;
    }
    assert(ss.take(k as int) =~= ss);
    false
}

proof fn lemma_count_prefix(s: Seq<RowV>, p: spec_fn(RowV) -> bool, j: int)
    requires
        0 <= j <= s.len(),
    ensures
        count(s.take(j), p) <= count(s, p),
    decreases s.len() - j,
{
    if j < s.len() {
        lemma_count_prefix(s, p, j + 1);
        lemma_count_step(s, p, j);
    } else {
        assert(s.take(j) =~= s);
    }
}

proof fn lemma_bad_rows_prefix(ss: Seq<SectionV>, k: int)
    requires
        0 <= k <= ss.len(),
    ensures
        bad_rows(ss.take(k)) <= bad_rows(ss),
    decreases ss.len() - k,
{
    if k < ss.len() {
        lemma_bad_rows_prefix(ss, k + 1);
        assert(ss.take(k + 1).drop_last() =~= ss.take(k));
    } else {
        assert(ss.take(k) =~= ss);
    }
}

pub fn hero(report: &Status) -> (r: Hero)
    ensures
        r@ == hero_of(report@),
{
    let problems = any_bad(report);
    let (good, headline) = match &report.verdict {
        Some(v) => (v.all_good, v.headline.clone()),
        None => (false, owned("slacker did not finish its report")),
    };
    let ghost items = match report@.verdict {
        Some(v) => v.items,
        None => Seq::<(ItemKind, Seq<char>)>::empty(),
    };
    let mut steps: Vec<String> = Vec::new();
    let mut others: Vec<(ItemKind, String)> = Vec::new();
    match &report.verdict {
        Some(v) => {
            let mut k: usize = 0;
            while k < v.items.len()
                invariant
                    k <= v.items@.len(),
                    items == crate::parse::status::item_texts(v.items@),
                    strs(steps@) == numbered_steps(items, k as int),
                    others@.map_values(|i: (ItemKind, String)| (i.0, i.1@)) == other_items(
                        items,
                        k as int,
                    ),
                    steps@.len() <= k,
                decreases v.items.len() - k,
            {
                let kind = v.items[k].0;
                assert(items[k as int] == (kind, v.items@[k as int].1@));
                if kind == ItemKind::Step {
                    let mut chip = usize_text(steps.len() + 1);
                    chip.append("  ");
                    chip.append(v.items[k].1.as_str());
                    proof {
                        reveal_strlit("  ");
                    }
                    push_string(&mut steps, chip);
                } else {
                    let ghost before = others@.map_values(|i: (ItemKind, String)| (i.0, i.1@));
                    others.push((kind, v.items[k].1.clone()));
                    assert(others@.map_values(|i: (ItemKind, String)| (i.0, i.1@)) =~= before.push(
                        items[k as int],
                    ));
                }
                k = k + 1;
            }
            assert(items.len() == v.items@.len());
        },
        None => {
            assert(others@.map_values(|i: (ItemKind, String)| (i.0, i.1@)) =~= Seq::<
                (ItemKind, Seq<char>),
            >::empty());
        },
    }
    let look = if good {
        Look::Good
    } else if problems {
        Look::Bad
    } else {
        Look::Attention
    };
    let r = Hero { look, headline, steps, others };
    assert(r@.look == hero_of(report@).look);
    assert(r@.headline == hero_of(report@).headline);
    assert(r@.steps == hero_of(report@).steps);
    assert(r@.others == hero_of(report@).others);
    r
}

/// The version slacker reports: the first line of `--version`, trimmed;
/// empty when it printed nothing.
pub open spec fn version_of(text: Seq<char>) -> Seq<char> {
    if lines(text).len() == 0 {
        Seq::empty()
    } else {
        trim(lines(text)[0])
    }
}

pub fn version_line(text: &str) -> (r: String)
    ensures
        r@ == version_of(text@),
{
    let v = chars_of(text);
    let spans = line_spans(v.as_slice());
    assert(span_texts(v@, spans@).len() == spans@.len());
    if spans.len() == 0 {
        proof {
            reveal_strlit("");
        }
        return owned("");
    }
    let (a, b) = spans[0];
    assert(span_texts(v@, spans@)[0] == v@.subrange(a as int, b as int));
    let (x, y) = trim_span(v.as_slice(), a, b);
    string_of(v.as_slice(), x, y)
}

/// The caption above the headline: the version line in capitals.
pub fn version_caption(version: &str) -> (r: String)
    ensures
        r@ == uppercase_text(version@),
{
    to_uppercase_text(version)
}

} // verus!
