//! Questions slacker asks on its stdin, recognised from the exact formats it
//! prints. slacker prints a question without a newline, flushes, and waits,
//! so only the last, unfinished line of output can be one; the lines above
//! it carry the options or the numbered items.
//!
//! The four shapes:
//! - `... [y/N]`: a yes/no confirmation
//! - `Choice [c/r/a]:` after `[x]word  text` lines: a conflict choice
//! - `Enter numbers to VERB ...`: the package picker
//! - `N repo(s) to update. ...`: the repositories to update
//!
//! Anything else is not guessed at: the caller treats it as unknown.
use vstd::prelude::*;

use crate::text::{
    alphanumeric, chars_of, contains, dec, ends_with, find, find_span, is_alphanumeric,
    is_whitespace, is_ws, lead_from, lemma_dec_reads_back, lemma_parse_dec, parse_i32,
    parse_i32_span, parse_u32, parse_u32_span,
    push_dec, span_ends_with, span_eq, span_starts_with, span_texts, spans_in, split,
    split_spans, starts_with, string_from, string_of, trim, trim_span, trim_start,
    trim_start_span, word_spans, words,
};

verus! {

/// One answer to a `Choice [..]:` question.
#[derive(Debug, Clone, PartialEq)]
pub struct Opt {
    /// What to send, e.g. `c`.
    pub key: String,
    /// The word slacker prints, brackets removed: `[c]ontinue` -> `continue`.
    pub label: String,
    /// The explanation printed next to it.
    pub detail: String,
    /// slacker marks the answer an empty line gives with "(default)".
    pub default: bool,
}

/// One line of a numbered list.
#[derive(Debug, Clone, PartialEq)]
pub struct Item {
    pub number: u32,
    pub text: String,
}

#[derive(Debug, Clone, PartialEq)]
pub enum Question {
    /// `Proceed with installation? [y/N]`. The capital letter is the answer
    /// an empty line (or end of input) gives.
    YesNo { text: String, default_yes: bool },
    /// Named options, one key each.
    Choice { heading: Option<String>, options: Vec<Opt> },
    /// Pick some of a numbered list, all of it, or none.
    Pick {
        heading: String,
        items: Vec<Item>,
        /// What to send for "all of them".
        all: &'static str,
        /// What to send for "none".
        none: &'static str,
    },
}

pub struct OptV {
    pub key: Seq<char>,
    pub label: Seq<char>,
    pub detail: Seq<char>,
    pub default: bool,
}

pub struct ItemV {
    pub number: u32,
    pub text: Seq<char>,
}

pub enum QuestionV {
    YesNo { text: Seq<char>, default_yes: bool },
    Choice { heading: Option<Seq<char>>, options: Seq<OptV> },
    Pick { heading: Seq<char>, items: Seq<ItemV>, all: Seq<char>, none: Seq<char> },
}

impl View for Opt {
    type V = OptV;

    open spec fn view(&self) -> OptV {
        OptV { key: self.key@, label: self.label@, detail: self.detail@, default: self.default }
    }
}

impl View for Item {
    type V = ItemV;

    open spec fn view(&self) -> ItemV {
        ItemV { number: self.number, text: self.text@ }
    }
}

impl View for Question {
    type V = QuestionV;

    open spec fn view(&self) -> QuestionV {
        match self {
            Question::YesNo { text, default_yes } => QuestionV::YesNo {
                text: text@,
                default_yes: *default_yes,
            },
            Question::Choice { heading, options } => QuestionV::Choice {
                heading: match heading {
                    Some(h) => Some(h@),
                    None => None,
                },
                options: options@.map_values(|o: Opt| o@),
            },
            Question::Pick { heading, items, all, none } => QuestionV::Pick {
                heading: heading@,
                items: items@.map_values(|i: Item| i@),
                all: all@,
                none: none@,
            },
        }
    }
}

// ---------------------------------------------------------------------------
// Answers
// ---------------------------------------------------------------------------

/// The numbers, in decimal, separated by single spaces.
pub open spec fn join_dec(c: Seq<u32>) -> Seq<char>
    decreases c.len(),
{
    if c.len() == 0 {
        Seq::empty()
    } else if c.len() == 1 {
        dec(c[0] as nat)
    } else {
        join_dec(c.drop_last()) + seq![' '] + dec(c.last() as nat)
    }
}

/// The answer to a `Pick` for the chosen numbers: the `none` answer for
/// nothing, the `all` answer when as many are chosen as there are items,
/// else the numbers separated by spaces. Other questions have no such
/// answer.
pub open spec fn pick_answer_spec(q: QuestionV, chosen: Seq<u32>) -> Option<Seq<char>> {
    match q {
        QuestionV::Pick { items, all, none, .. } => Some(
            if chosen.len() == 0 {
                none
            } else if chosen.len() == items.len() {
                all
            } else {
                join_dec(chosen)
            },
        ),
        _ => None,
    }
}

proof fn lemma_join_dec_front(c: Seq<u32>)
    requires
        c.len() >= 2,
    ensures
        join_dec(c) == dec(c[0] as nat) + seq![' '] + join_dec(c.drop_first()),
    decreases c.len(),
{
    let init = c.drop_last();
    let tail = c.drop_first();
    assert(tail.drop_last() =~= init.drop_first());
    assert(tail.last() == c.last());
    if c.len() == 2 {
        assert(join_dec(init) == dec(c[0] as nat));
        assert(join_dec(tail) == dec(c[1] as nat));
    } else {
        lemma_join_dec_front(init);
        assert(init[0] == c[0]);
        assert(join_dec(c) =~= dec(c[0] as nat) + seq![' '] + join_dec(tail));
    }
}

proof fn lemma_join_dec_splits(c: Seq<u32>)
    requires
        c.len() > 0,
    ensures
        split(join_dec(c), seq![' ']) == c.map_values(|n: u32| dec(n as nat)),
    decreases c.len(),
{
    lemma_dec_reads_back(c[0] as nat);
    if c.len() == 1 {
        crate::text::lemma_split_whole(dec(c[0] as nat), ' ');
        assert(c.map_values(|n: u32| dec(n as nat)) =~= seq![dec(c[0] as nat)]);
    } else {
        lemma_join_dec_front(c);
        crate::text::lemma_split_first(dec(c[0] as nat), ' ', join_dec(c.drop_first()));
        lemma_join_dec_splits(c.drop_first());
        assert(c.map_values(|n: u32| dec(n as nat)) =~= seq![dec(c[0] as nat)]
            + c.drop_first().map_values(|n: u32| dec(n as nat)));
    }
}

/// The answer to a pick of some of the items reads back as the numbers
/// chosen: slacker splits it at spaces and parses each piece as a number.
pub proof fn pick_answer_reads_back(q: QuestionV, chosen: Seq<u32>)
    requires
        q is Pick,
        chosen.len() > 0,
        chosen.len() != q->items.len(),
    ensures
        pick_answer_spec(q, chosen) matches Some(answer) && split(answer, seq![' ']).map_values(
            |w: Seq<char>| parse_u32(w),
        ) == chosen.map_values(|n: u32| Some(n)),
{
    lemma_join_dec_splits(chosen);
    let words = split(join_dec(chosen), seq![' ']);
    assert forall|i: int| 0 <= i < chosen.len() implies #[trigger] parse_u32(words[i]) == Some(
        chosen[i],
    ) by {
        assert(words[i] == dec(chosen[i] as nat));
        lemma_parse_dec(chosen[i]);
    }
    assert(words.map_values(|w: Seq<char>| parse_u32(w)) =~= chosen.map_values(|n: u32| Some(n)));
}

impl Question {
    /// The answer to send for a subset of a `Pick`, in slacker's own syntax
    /// (numbers separated by spaces).
    pub fn pick_answer(&self, chosen: &[u32]) -> (r: Option<String>)
        ensures
            match r {
                Some(s) => pick_answer_spec(self@, chosen@) == Some(s@),
                None => pick_answer_spec(self@, chosen@) is None,
            },
    {
        match self {
            Question::Pick { items, all, none, .. } => {
                if chosen.len() == 0 {
                    Some(crate::text::owned(none))
                } else if chosen.len() == items.len() {
                    Some(crate::text::owned(all))
                } else {
                    let mut out: Vec<char> = Vec::new();
                    let mut k: usize = 0;
                    assert(chosen@.take(0) =~= Seq::<u32>::empty());
                    while k < chosen.len()
                        invariant
                            k <= chosen@.len(),
                            out@ == join_dec(chosen@.take(k as int)),
                        decreases chosen.len() - k,
                    {
                        let ghost before = out@;
                        if k > 0 {
                            out.push(' ');
                        }
                        push_dec(&mut out, chosen[k] as u64);
                        proof {
                            let t = chosen@.take(k + 1);
                            assert(t.drop_last() =~= chosen@.take(k as int));
                            assert(t.last() == chosen@[k as int]);
                            if k == 0 {
                                assert(out@ =~= join_dec(t));
                            } else {
                                assert(out@ =~= join_dec(t));
                            }
                        }
                        k = k + 1;
                    }
                    assert(chosen@.take(k as int) =~= chosen@);
                    Some(string_from(&out))
                }
            },
            _ => None,
        }
    }
}

// ---------------------------------------------------------------------------
// Yes / no
// ---------------------------------------------------------------------------

pub open spec fn yes_no_spec(p: Seq<char>) -> Option<QuestionV> {
    let (t, found, default_yes) = if ends_with(p, "[y/N]"@) {
        (p.subrange(0, p.len() - 5), true, false)
    } else if ends_with(p, "[Y/n]"@) {
        (p.subrange(0, p.len() - 5), true, true)
    } else {
        (p, false, false)
    };
    if found && trim(t).len() > 0 {
        Some(QuestionV::YesNo { text: trim(t), default_yes })
    } else {
        None
    }
}

fn yes_no(v: &[char], a: usize, b: usize) -> (r: Option<Question>)
    requires
        a <= b <= v@.len(),
    ensures
        match r {
            Some(q) => yes_no_spec(v@.subrange(a as int, b as int)) == Some(q@),
            None => yes_no_spec(v@.subrange(a as int, b as int)) is None,
        },
{
    let ghost p = v@.subrange(a as int, b as int);
    proof {
        reveal_strlit("[y/N]");
        reveal_strlit("[Y/n]");
    }
    let (e, default_yes) = if span_ends_with(v, a, b, chars_of("[y/N]").as_slice()) {
        (b - 5, false)
    } else if span_ends_with(v, a, b, chars_of("[Y/n]").as_slice()) {
        (b - 5, true)
    } else {
        return None;
    };
    assert(p.subrange(0, p.len() - 5) =~= v@.subrange(a as int, e as int));
    let (ta, tb) = trim_span(v, a, e);
    if ta == tb {
        return None;
    }
    Some(Question::YesNo { text: string_of(v, ta, tb), default_yes })
}

// ---------------------------------------------------------------------------
// Choice
// ---------------------------------------------------------------------------

/// The first white-space character of `s`, if any.
pub open spec fn first_ws(s: Seq<char>) -> Option<int> {
    let e = crate::text::word_end_from(s, 0);
    if e < s.len() {
        Some(e)
    } else {
        None
    }
}

/// The pieces of `s` split at `p`, joined back without it.
pub open spec fn concat(pieces: Seq<Seq<char>>) -> Seq<char>
    decreases pieces.len(),
{
    if pieces.len() == 0 {
        Seq::empty()
    } else {
        concat(pieces.drop_last()) + pieces.last()
    }
}

/// `str::replace(p, "")`: every occurrence of `p` removed.
pub open spec fn remove_all(s: Seq<char>, p: Seq<char>) -> Seq<char> {
    concat(split(s, p))
}

/// An option line: one word holding a single bracketed key (`[c]ontinue`,
/// `skip-[a]ll`, `a[b]ort`), then its explanation.
pub open spec fn option_of(line: Seq<char>) -> Option<OptV> {
    let t = trim_start(line);
    match first_ws(t) {
        None => None,
        Some(w) => {
            let token = t.subrange(0, w);
            let rest = t.subrange(w + 1, t.len() as int);
            match find(token, seq!['[']) {
                None => None,
                Some(open) => match find(token.subrange(open, token.len() as int), seq![']']) {
                    None => None,
                    Some(c) => {
                        let close = open + c;
                        let key = token.subrange(open + 1, close);
                        let detail = trim(rest);
                        if key.len() != 1 || !alphanumeric(key[0]) || detail.len() == 0 {
                            None
                        } else {
                            Some(
                                OptV {
                                    key,
                                    label: token.subrange(0, open) + key + token.subrange(
                                        close + 1,
                                        token.len() as int,
                                    ),
                                    detail: trim(remove_all(detail, "(default)"@)),
                                    default: contains(detail, "(default)"@),
                                },
                            )
                        }
                    },
                },
            }
        },
    }
}

/// Reads the lines above a choice upwards from line `j - 1`: option lines
/// are collected (bottom first), blank lines before the first option are
/// skipped, a blank line after one ends the block, and the first other line
/// is the heading.
pub open spec fn choice_scan(bs: Seq<Seq<char>>, j: int, found: Seq<OptV>) -> (
    Seq<OptV>,
    Option<Seq<char>>,
)
    decreases j,
{
    if j <= 0 || j > bs.len() {
        (found, None)
    } else {
        let line = bs[j - 1];
        if trim(line).len() == 0 {
            if found.len() == 0 {
                choice_scan(bs, j - 1, found)
            } else {
                (found, None)
            }
        } else {
            match option_of(line) {
                Some(o) => choice_scan(bs, j - 1, found.push(o)),
                None => (found, Some(trim(line))),
            }
        }
    }
}

/// The first option in `found`, from the `i`-th on, with key `k`.
pub open spec fn opt_for(found: Seq<OptV>, k: Seq<char>, i: int) -> OptV
    decreases found.len() - i,
{
    if i < 0 || i >= found.len() {
        OptV { key: k, label: k, detail: Seq::empty(), default: false }
    } else if found[i].key == k {
        found[i]
    } else {
        opt_for(found, k, i + 1)
    }
}

pub open spec fn choice_keys(p: Seq<char>) -> Option<Seq<Seq<char>>> {
    let pre = "Choice ["@;
    if starts_with(p, pre) && ends_with(p.subrange(pre.len() as int, p.len() as int), "]:"@) {
        Some(split(p.subrange(pre.len() as int, p.len() - 2), seq!['/']))
    } else {
        None
    }
}

pub open spec fn choice_spec(bs: Seq<Seq<char>>, p: Seq<char>) -> Option<QuestionV> {
    match choice_keys(p) {
        None => None,
        Some(keys) => if exists|i: int| 0 <= i < keys.len() && #[trigger] keys[i].len() != 1 {
            None
        } else {
            let (found, heading) = choice_scan(bs, bs.len() as int, Seq::empty());
            Some(
                QuestionV::Choice {
                    heading,
                    options: keys.map_values(|k: Seq<char>| opt_for(found, k, 0)),
                },
            )
        },
    }
}

fn option_exec(line: &str) -> (r: Option<Opt>)
    ensures
        match r {
            Some(o) => option_of(line@) == Some(o@),
            None => option_of(line@) is None,
        },
{
    let v = chars_of(line);
    let n = v.len();
    assert(v@.subrange(0, n as int) =~= line@);
    let s = trim_start_span(v.as_slice(), 0, n);
    let ghost t = v@.subrange(s as int, n as int);
    let mut w = s;
    while w < n && !is_whitespace(v[w])
        invariant
            s <= w <= n == v@.len(),
            t == v@.subrange(s as int, n as int),
            crate::text::word_end_from(t, 0) == crate::text::word_end_from(t, w - s),
        decreases n - w,
    {
        assert(t[w - s] == v@[w as int]);
        w = w + 1;
    }
    proof {
        if w < n {
            assert(t[w - s] == v@[w as int]);
        }
        assert(crate::text::word_end_from(t, w - s) == w - s);
    }
    assert(t.len() == n - s);
    if w == n {
        return None;
    }
    assert(first_ws(t) == Some(w - s));
    let ghost token = t.subrange(0, w - s);
    assert(token =~= v@.subrange(s as int, w as int));
    let ob = vec!['['];
    let cb = vec![']'];
    assert(ob@ =~= seq!['[']);
    assert(cb@ =~= seq![']']);
    let open = match find_span(v.as_slice(), s, w, ob.as_slice()) {
        Some(o) => o,
        None => return None,
    };
    assert(token.subrange(open - s, token.len() as int) =~= v@.subrange(open as int, w as int));
    let close = match find_span(v.as_slice(), open, w, cb.as_slice()) {
        Some(c) => c,
        None => return None,
    };
    let (da, db) = trim_span(v.as_slice(), w + 1, n);
    assert(t.subrange(w - s + 1, t.len() as int) =~= v@.subrange(w + 1, n as int));
    proof {
        assert(find(token, seq!['[']) == Some(open - s));
        assert(find(token.subrange(open - s, token.len() as int), seq![']']) == Some(close - open));
        crate::text::lemma_find_from(v@.subrange(open as int, w as int), cb@, 0);
        assert(v@.subrange(open as int, w as int)[0] == v@[open as int]);
        crate::text::lemma_find_from(v@.subrange(s as int, w as int), ob@, 0);
        assert(v@.subrange(open as int, w as int).subrange(0, 1) =~= seq![v@[open as int]]);
        assert(close > open);
        assert(token.subrange(open - s + 1, close - s).len() == close - open - 1);
    }
    if close != open + 2 || !is_alphanumeric(v[open + 1]) || da == db {
        proof {
            if close == open + 2 {
                assert(token.subrange(open - s + 1, close - s)[0] == v@[open + 1]);
            }
        }
        return None;
    }
    let ghost key = token.subrange(open - s + 1, close - s);
    assert(key =~= v@.subrange(open + 1, close as int));
    assert(key[0] == v@[open + 1]);
    // the label: the token with the two brackets taken out
    let mut label: Vec<char> = Vec::new();
    let mut i = s;
    while i < w
        invariant
            s <= i <= w,
            s <= open,
            open + 2 == close,
            close < w,
            w < n == v@.len(),
            label@ == if i <= open {
                v@.subrange(s as int, i as int)
            } else if i <= close + 1 {
                v@.subrange(s as int, open as int) + v@.subrange(open + 1, if i <= close {
                    i as int
                } else {
                    close as int
                })
            } else {
                v@.subrange(s as int, open as int) + v@.subrange(open + 1, close as int)
                    + v@.subrange(close + 1, i as int)
            },
        decreases w - i,
    {
        if i != open && i != close {
            label.push(v[i]);
        }
        proof {
            if i + 1 <= open {
                assert(label@ =~= v@.subrange(s as int, i + 1));
            } else if i + 1 <= close + 1 {
                assert(label@ =~= v@.subrange(s as int, open as int) + v@.subrange(
                    open + 1,
                    if i + 1 <= close {
                        i + 1
                    } else {
                        close as int
                    },
                ));
            } else {
                assert(label@ =~= v@.subrange(s as int, open as int) + v@.subrange(
                    open + 1,
                    close as int,
                ) + v@.subrange(close + 1, i + 1));
            }
        }
        i = i + 1;
    }
    proof {
        assert(token.subrange(0, open - s) =~= v@.subrange(s as int, open as int));
        assert(token.subrange(close - s + 1, token.len() as int) =~= v@.subrange(
            close + 1,
            w as int,
        ));
    }
    let dflt = chars_of("(default)");
    let is_default = find_span(v.as_slice(), da, db, dflt.as_slice()).is_some();
    proof {
        reveal_strlit("(default)");
    }
    let pieces = split_spans(v.as_slice(), da, db, dflt.as_slice(), 0);
    let mut cleaned: Vec<char> = Vec::new();
    let mut k: usize = 0;
    let ghost pv = span_texts(v@, pieces@);
    assert(pv.take(0) =~= Seq::<Seq<char>>::empty());
    while k < pieces.len()
        invariant
            k <= pieces@.len(),
            spans_in(v@, pieces@),
            pv == span_texts(v@, pieces@),
            cleaned@ == concat(pv.take(k as int)),
        decreases pieces.len() - k,
    {
        let (x, y) = pieces[k];
        assert(pv[k as int] == v@.subrange(x as int, y as int));
        let mut m = x;
        let ghost c0 = cleaned@;
        while m < y
            invariant
                x <= m <= y <= v@.len(),
                cleaned@ == c0 + v@.subrange(x as int, m as int),
            decreases y - m,
        {
            cleaned.push(v[m]);
            assert(cleaned@ =~= c0 + v@.subrange(x as int, m + 1));
            m = m + 1;
        }
        assert(pv.take(k + 1).drop_last() =~= pv.take(k as int));
        k = k + 1;
    }
    assert(pv.take(k as int) =~= pv);
    let (ca, cb2) = trim_span(cleaned.as_slice(), 0, cleaned.len());
    assert(cleaned@.subrange(0, cleaned@.len() as int) =~= cleaned@);
    let o = Opt {
        key: string_of(v.as_slice(), open + 1, close),
        label: string_from(&label),
        detail: string_of(cleaned.as_slice(), ca, cb2),
        default: is_default,
    };
    Some(o)
}

/// The option lines above a choice, bottom first, and its heading.
fn scan_options(before: &[&str]) -> (r: (Vec<Opt>, Option<String>))
    ensures
        choice_scan(before@.map_values(|s: &str| s@), before@.len() as int, Seq::empty()) == (
            r.0@.map_values(|o: Opt| o@),
            match r.1 {
                Some(h) => Some(h@),
                None => None,
            },
        ),
{
    let ghost bs = before@.map_values(|s: &str| s@);
    let mut found: Vec<Opt> = Vec::new();
    let mut j = before.len();
    let ghost target = choice_scan(bs, bs.len() as int, Seq::empty());
    assert(found@.map_values(|o: Opt| o@) =~= Seq::<OptV>::empty());
    loop
        invariant
            j <= before@.len(),
            bs == before@.map_values(|s: &str| s@),
            target == choice_scan(bs, bs.len() as int, Seq::empty()),
            target == choice_scan(bs, j as int, found@.map_values(|o: Opt| o@)),
        decreases j,
    {
        if j == 0 {
            return (found, None);
        }
        let line = before[j - 1];
        assert(bs[j - 1] == line@);
        let lv = chars_of(line);
        assert(lv@.subrange(0, lv@.len() as int) =~= lv@);
        let (ta, tb) = trim_span(lv.as_slice(), 0, lv.len());
        if ta == tb {
            if found.len() == 0 {
                j = j - 1;
                continue;
            }
            return (found, None);
        }
        match option_exec(line) {
            Some(o) => {
                let ghost ov = o@;
                let ghost fv = found@.map_values(|o: Opt| o@);
                found.push(o);
                assert(found@.map_values(|o: Opt| o@) =~= fv.push(ov));
                j = j - 1;
            },
            None => {
                return (found, Some(string_of(lv.as_slice(), ta, tb)));
            },
        }
    }
}

/// The first option in `found` with the key `v[x..y]`, or one made from the
/// key alone.
fn lookup_opt(found: &Vec<Opt>, v: &[char], x: usize, y: usize) -> (o: Opt)
    requires
        x <= y <= v@.len(),
    ensures
        o@ == opt_for(found@.map_values(|o: Opt| o@), v@.subrange(x as int, y as int), 0),
{
    let ghost fv = found@.map_values(|o: Opt| o@);
    let ghost key = v@.subrange(x as int, y as int);
    let mut m: usize = 0;
    while m < found.len()
        invariant
            m <= found@.len(),
            fv == found@.map_values(|o: Opt| o@),
            x <= y <= v@.len(),
            key == v@.subrange(x as int, y as int),
            opt_for(fv, key, 0) == opt_for(fv, key, m as int),
        decreases found.len() - m,
    {
        let fk = chars_of(found[m].key.as_str());
        assert(fv[m as int].key == found@[m as int].key@);
        if span_eq(v, x, y, fk.as_slice()) {
            let o = Opt {
                key: found[m].key.clone(),
                label: found[m].label.clone(),
                detail: found[m].detail.clone(),
                default: found[m].default,
            };
            assert(o@ == fv[m as int]);
            return o;
        }
        m = m + 1;
    }
    let o = Opt {
        key: string_of(v, x, y),
        label: string_of(v, x, y),
        detail: String::new(),
        default: false,
    };
    assert(o@.detail == Seq::<char>::empty());
    o
}

fn choice(before: &[&str], v: &[char], a: usize, b: usize) -> (r: Option<Question>)
    requires
        a <= b <= v@.len(),
    ensures
        match r {
            Some(q) => choice_spec(before@.map_values(|s: &str| s@), v@.subrange(a as int, b as int))
                == Some(q@),
            None => choice_spec(before@.map_values(|s: &str| s@), v@.subrange(a as int, b as int))
                is None,
        },
{
    let ghost p = v@.subrange(a as int, b as int);
    let ghost bs = before@.map_values(|s: &str| s@);
    let pre = chars_of("Choice [");
    let post = chars_of("]:");
    proof {
        reveal_strlit("Choice [");
        reveal_strlit("]:");
    }
    if !span_starts_with(v, a, b, pre.as_slice()) {
        return None;
    }
    assert(p.subrange(8, p.len() as int) =~= v@.subrange(a + 8, b as int));
    if !span_ends_with(v, a + 8, b, post.as_slice()) {
        return None;
    }
    let slash = vec!['/'];
    assert(slash@ =~= seq!['/']);
    assert(p.subrange(8, p.len() - 2) =~= v@.subrange(a + 8, b - 2));
    let keys = split_spans(v, a + 8, b - 2, slash.as_slice(), 0);
    let ghost kv = span_texts(v@, keys@);
    assert(choice_keys(p) == Some(kv));
    let mut i: usize = 0;
    while i < keys.len()
        invariant
            i <= keys@.len(),
            spans_in(v@, keys@),
            kv == span_texts(v@, keys@),
            a <= b <= v@.len(),
            p == v@.subrange(a as int, b as int),
            choice_keys(p) == Some(kv),
            forall|m: int| 0 <= m < i ==> #[trigger] kv[m].len() == 1,
        decreases keys.len() - i,
    {
        let (x, y) = keys[i];
        assert(kv[i as int] == v@.subrange(x as int, y as int));
        if y - x != 1 {
            assert(kv[i as int].len() != 1);
            return None;
        }
        i = i + 1;
    }
    let (found, heading) = scan_options(before);
    let ghost fv = found@.map_values(|o: Opt| o@);
    // one option per key, as printed above or made from the key alone
    let mut options: Vec<Opt> = Vec::new();
    let mut k: usize = 0;
    while k < keys.len()
        invariant
            k <= keys@.len(),
            spans_in(v@, keys@),
            kv == span_texts(v@, keys@),
            fv == found@.map_values(|o: Opt| o@),
            options@.map_values(|o: Opt| o@) == kv.take(k as int).map_values(
                |key: Seq<char>| opt_for(fv, key, 0),
            ),
        decreases keys.len() - k,
    {
        let (x, y) = keys[k];
        assert(kv[k as int] == v@.subrange(x as int, y as int));
        let ghost key = v@.subrange(x as int, y as int);
        let o = lookup_opt(&found, v, x, y);
        let ghost ob = options@.map_values(|o: Opt| o@);
        let ghost ovv = o@;
        options.push(o);
        assert(options@.map_values(|o: Opt| o@) =~= ob.push(ovv));
        assert(kv.take(k + 1).map_values(|key: Seq<char>| opt_for(fv, key, 0)) =~= kv.take(
            k as int,
        ).map_values(|key: Seq<char>| opt_for(fv, key, 0)).push(opt_for(fv, key, 0)));
        k = k + 1;
    }
    assert(kv.take(k as int) =~= kv);
    Some(Question::Choice { heading, options })
}

// ---------------------------------------------------------------------------
// Numbered lists
// ---------------------------------------------------------------------------

/// The items in the opposite order.
pub open spec fn rev<A>(s: Seq<A>) -> Seq<A> {
    Seq::new(s.len(), |i: int| s[s.len() - 1 - i])
}

/// `N) text`: a numbered line of the package picker.
pub open spec fn numbered_of(t: Seq<char>) -> Option<ItemV> {
    match find(t, ") "@) {
        Some(i) => match parse_u32(t.subrange(0, i)) {
            Some(n) => Some(ItemV { number: n, text: trim(t.subrange(i + 2, t.len() as int)) }),
            None => None,
        },
        None => None,
    }
}

/// Reads the lines above the picker upwards from line `j - 1`: numbered
/// lines are items (prepended, so they stay in printed order), blank lines
/// are skipped, and the first other line is the heading.
pub open spec fn pick_scan(bs: Seq<Seq<char>>, j: int, items: Seq<ItemV>) -> (
    Seq<ItemV>,
    Seq<char>,
)
    decreases j,
{
    if j <= 0 || j > bs.len() {
        (items, Seq::empty())
    } else {
        let t = trim(bs[j - 1]);
        if t.len() == 0 {
            pick_scan(bs, j - 1, items)
        } else {
            match numbered_of(t) {
                Some(it) => pick_scan(bs, j - 1, seq![it] + items),
                None => (items, t),
            }
        }
    }
}

pub open spec fn package_pick_spec(bs: Seq<Seq<char>>, p: Seq<char>) -> Option<QuestionV> {
    if !(starts_with(p, "Enter numbers to "@) && ends_with(p, "[n] to cancel:"@)) {
        None
    } else {
        let (items, heading) = pick_scan(bs, bs.len() as int, Seq::empty());
        if items.len() == 0 {
            None
        } else {
            Some(QuestionV::Pick { heading, items, all: ""@, none: "n"@ })
        }
    }
}

/// The words joined with single spaces.
pub open spec fn join_words(ws: Seq<Seq<char>>) -> Seq<char>
    decreases ws.len(),
{
    if ws.len() == 0 {
        Seq::empty()
    } else if ws.len() == 1 {
        ws[0]
    } else {
        join_words(ws.drop_last()) + seq![' '] + ws.last()
    }
}

pub open spec fn all_dashes(t: Seq<char>) -> bool {
    forall|i: int| 0 <= i < t.len() ==> t[i] == '-'
}

/// A row of the table above the repository picker, `N  NAME  PRI  STATUS`;
/// rows of repositories that are current print `-` and are not items.
pub open spec fn repo_row_of(t: Seq<char>) -> Option<ItemV> {
    let f = words(t);
    if f.len() < 3 {
        None
    } else {
        match (parse_u32(f[0]), parse_i32(f[2])) {
            (Some(n), Some(_)) => Some(
                ItemV {
                    number: n,
                    text: f[1] + " \u{2014} "@ + join_words(f.subrange(3, f.len() as int)),
                },
            ),
            _ => None,
        }
    }
}

/// Reads the table above the repository picker upwards from line `j - 1`,
/// up to the rule under its header.
pub open spec fn repo_scan(bs: Seq<Seq<char>>, j: int, items: Seq<ItemV>) -> Seq<ItemV>
    decreases j,
{
    if j <= 0 || j > bs.len() {
        items
    } else {
        let t = trim(bs[j - 1]);
        if t.len() == 0 {
            repo_scan(bs, j - 1, items)
        } else if all_dashes(t) {
            items
        } else {
            match repo_row_of(t) {
                Some(it) => repo_scan(bs, j - 1, seq![it] + items),
                None => repo_scan(bs, j - 1, items),
            }
        }
    }
}

pub open spec fn repo_pick_spec(bs: Seq<Seq<char>>, p: Seq<char>) -> Option<QuestionV> {
    let marker = "repo(s) to update."@;
    if !(contains(p, marker) && ends_with(p, "[n]one? [a]:"@)) {
        None
    } else {
        let i = find(p, marker)->0;
        let heading = trim(p.subrange(0, i) + "repo(s) to update"@);
        let items = repo_scan(bs, bs.len() as int, Seq::empty());
        if items.len() == 0 {
            None
        } else {
            Some(QuestionV::Pick { heading, items, all: "a"@, none: "n"@ })
        }
    }
}

/// The items pushed bottom first, in printed order.
fn reversed(pushed: Vec<Item>) -> (r: Vec<Item>)
    ensures
        r@.map_values(|i: Item| i@) == rev(pushed@.map_values(|i: Item| i@)),
{
    let ghost pv = pushed@.map_values(|i: Item| i@);
    let mut src = pushed;
    let mut out: Vec<Item> = Vec::new();
    let ghost n = pv.len();
    assert(out@.map_values(|i: Item| i@) =~= rev(pv).take(0));
    while src.len() > 0
        invariant
            src@.len() <= n,
            n == pv.len(),
            src@.map_values(|i: Item| i@) == pv.take(src@.len() as int),
            out@.map_values(|i: Item| i@) == rev(pv).take(n - src@.len()),
        decreases src.len(),
    {
        let ghost before = out@.map_values(|i: Item| i@);
        let ghost sb = src@.map_values(|i: Item| i@);
        let it = src.pop().unwrap();
        assert(sb[sb.len() - 1] == it@);
        let ghost iv = it@;
        out.push(it);
        assert(out@.map_values(|i: Item| i@) =~= before.push(iv));
        assert(src@.map_values(|i: Item| i@) =~= pv.take(src@.len() as int));
        assert(rev(pv).take(n - src@.len()) =~= rev(pv).take(n - src@.len() - 1).push(
            pv[src@.len() as int],
        ));
    }
    assert(rev(pv).take(n as int) =~= rev(pv));
    out
}

proof fn lemma_rev_push<A>(s: Seq<A>, x: A)
    ensures
        rev(s.push(x)) == seq![x] + rev(s),
{
    assert(rev(s.push(x)) =~= seq![x] + rev(s));
}

fn numbered_exec(v: &[char], a: usize, b: usize) -> (r: Option<Item>)
    requires
        a <= b <= v@.len(),
    ensures
        match r {
            Some(it) => numbered_of(v@.subrange(a as int, b as int)) == Some(it@),
            None => numbered_of(v@.subrange(a as int, b as int)) is None,
        },
{
    let ghost t = v@.subrange(a as int, b as int);
    proof {
        reveal_strlit(") ");
    }
    let i = match find_span(v, a, b, chars_of(") ").as_slice()) {
        Some(i) => i,
        None => return None,
    };
    assert(t.subrange(0, i - a) =~= v@.subrange(a as int, i as int));
    assert(t.subrange(i - a + 2, t.len() as int) =~= v@.subrange(i + 2, b as int));
    let n = match parse_u32_span(v, a, i) {
        Some(n) => n,
        None => return None,
    };
    let (x, y) = trim_span(v, i + 2, b);
    Some(Item { number: n, text: string_of(v, x, y) })
}

/// The numbered lines above the picker, bottom first, and its heading.
fn scan_numbered(before: &[&str]) -> (r: (Vec<Item>, String))
    ensures
        pick_scan(before@.map_values(|s: &str| s@), before@.len() as int, Seq::empty()) == (
            rev(r.0@.map_values(|i: Item| i@)),
            r.1@,
        ),
{
    let ghost bs = before@.map_values(|s: &str| s@);
    let mut found: Vec<Item> = Vec::new();
    let mut j = before.len();
    let ghost target = pick_scan(bs, bs.len() as int, Seq::empty());
    assert(rev(found@.map_values(|i: Item| i@)) =~= Seq::<ItemV>::empty());
    loop
        invariant
            j <= before@.len(),
            bs == before@.map_values(|s: &str| s@),
            target == pick_scan(bs, bs.len() as int, Seq::empty()),
            target == pick_scan(bs, j as int, rev(found@.map_values(|i: Item| i@))),
        decreases j,
    {
        if j == 0 {
            return (found, String::new());
        }
        let line = before[j - 1];
        assert(bs[j - 1] == line@);
        let lv = chars_of(line);
        assert(lv@.subrange(0, lv@.len() as int) =~= lv@);
        let (ta, tb) = trim_span(lv.as_slice(), 0, lv.len());
        if ta == tb {
            j = j - 1;
            continue;
        }
        match numbered_exec(lv.as_slice(), ta, tb) {
            Some(it) => {
                let ghost iv = it@;
                let ghost fv = found@.map_values(|i: Item| i@);
                found.push(it);
                assert(found@.map_values(|i: Item| i@) =~= fv.push(iv));
                proof {
                    lemma_rev_push(fv, iv);
                }
                j = j - 1;
            },
            None => {
                return (found, string_of(lv.as_slice(), ta, tb));
            },
        }
    }
}

fn package_pick(before: &[&str], v: &[char], a: usize, b: usize) -> (r: Option<Question>)
    requires
        a <= b <= v@.len(),
    ensures
        match r {
            Some(q) => package_pick_spec(
                before@.map_values(|s: &str| s@),
                v@.subrange(a as int, b as int),
            ) == Some(q@),
            None => package_pick_spec(
                before@.map_values(|s: &str| s@),
                v@.subrange(a as int, b as int),
            ) is None,
        },
{
    if !(span_starts_with(v, a, b, chars_of("Enter numbers to ").as_slice()) && span_ends_with(
        v,
        a,
        b,
        chars_of("[n] to cancel:").as_slice(),
    )) {
        return None;
    }
    let (pushed, heading) = scan_numbered(before);
    if pushed.len() == 0 {
        assert(rev(pushed@.map_values(|i: Item| i@)).len() == 0);
        return None;
    }
    let items = reversed(pushed);
    proof {
        reveal_strlit("");
        reveal_strlit("n");
    }
    Some(Question::Pick { heading, items, all: "", none: "n" })
}

fn join_words_exec(v: &[char], spans: &Vec<(usize, usize)>, from: usize) -> (r: Vec<char>)
    requires
        spans_in(v@, spans@),
        from <= spans@.len(),
    ensures
        r@ == join_words(span_texts(v@, spans@).subrange(from as int, spans@.len() as int)),
{
    let ghost ws = span_texts(v@, spans@).subrange(from as int, spans@.len() as int);
    let mut out: Vec<char> = Vec::new();
    let mut k = from;
    assert(ws.take(0) =~= Seq::<Seq<char>>::empty());
    while k < spans.len()
        invariant
            from <= k <= spans@.len(),
            spans_in(v@, spans@),
            ws == span_texts(v@, spans@).subrange(from as int, spans@.len() as int),
            out@ == join_words(ws.take(k - from)),
        decreases spans.len() - k,
    {
        let (x, y) = spans[k];
        assert(ws[k - from] == v@.subrange(x as int, y as int));
        let ghost o0 = out@;
        if k > from {
            out.push(' ');
        }
        let ghost o1 = out@;
        let mut m = x;
        while m < y
            invariant
                x <= m <= y <= v@.len(),
                out@ == o1 + v@.subrange(x as int, m as int),
            decreases y - m,
        {
            out.push(v[m]);
            assert(out@ =~= o1 + v@.subrange(x as int, m + 1));
            m = m + 1;
        }
        proof {
            let t = ws.take(k + 1 - from);
            assert(t.drop_last() =~= ws.take(k - from));
            assert(t.last() == v@.subrange(x as int, y as int));
            if k == from {
                assert(out@ =~= join_words(t));
            } else {
                assert(out@ =~= join_words(t));
            }
        }
        k = k + 1;
    }
    assert(ws.take(k - from) =~= ws);
    out
}

fn repo_row_exec(v: &[char], a: usize, b: usize) -> (r: Option<Item>)
    requires
        a <= b <= v@.len(),
    ensures
        match r {
            Some(it) => repo_row_of(v@.subrange(a as int, b as int)) == Some(it@),
            None => repo_row_of(v@.subrange(a as int, b as int)) is None,
        },
{
    let ws = word_spans(v, a, b);
    let ghost f = span_texts(v@, ws@);
    if ws.len() < 3 {
        return None;
    }
    let (x0, y0) = ws[0];
    let (x1, y1) = ws[1];
    let (x2, y2) = ws[2];
    assert(f[0] == v@.subrange(x0 as int, y0 as int));
    assert(f[1] == v@.subrange(x1 as int, y1 as int));
    assert(f[2] == v@.subrange(x2 as int, y2 as int));
    let n = match parse_u32_span(v, x0, y0) {
        Some(n) => n,
        None => return None,
    };
    if parse_i32_span(v, x2, y2).is_none() {
        return None;
    }
    let mut text: Vec<char> = Vec::new();
    let mut m = x1;
    while m < y1
        invariant
            x1 <= m <= y1 <= v@.len(),
            text@ == v@.subrange(x1 as int, m as int),
        decreases y1 - m,
    {
        text.push(v[m]);
        assert(text@ =~= v@.subrange(x1 as int, m + 1));
        m = m + 1;
    }
    text.push(' ');
    text.push('\u{2014}');
    text.push(' ');
    let rest = join_words_exec(v, &ws, 3);
    let mut k: usize = 0;
    let ghost t0 = text@;
    while k < rest.len()
        invariant
            k <= rest@.len(),
            text@ == t0 + rest@.subrange(0, k as int),
        decreases rest.len() - k,
    {
        text.push(rest[k]);
        assert(text@ =~= t0 + rest@.subrange(0, k + 1));
        k = k + 1;
    }
    proof {
        reveal_strlit(" \u{2014} ");
        assert(text@ =~= f[1] + " \u{2014} "@ + join_words(f.subrange(3, f.len() as int)));
    }
    Some(Item { number: n, text: string_from(&text) })
}

fn span_all_dashes(v: &[char], a: usize, b: usize) -> (r: bool)
    requires
        a <= b <= v@.len(),
    ensures
        r == all_dashes(v@.subrange(a as int, b as int)),
{
    let mut i = a;
    while i < b
        invariant
            a <= i <= b <= v@.len(),
            forall|k: int| a <= k < i ==> v@[k] == '-',
        decreases b - i,
    {
        if v[i] != '-' {
            assert(v@.subrange(a as int, b as int)[i - a] == v@[i as int]);
            return false;
        }
        i = i + 1;
    }
    assert forall|k: int| 0 <= k < b - a implies v@.subrange(a as int, b as int)[k] == '-' by {
        assert(v@.subrange(a as int, b as int)[k] == v@[a + k]);
    }
    true
}

/// The table rows above the repository picker, bottom first.
fn scan_repo_rows(before: &[&str]) -> (r: Vec<Item>)
    ensures
        repo_scan(before@.map_values(|s: &str| s@), before@.len() as int, Seq::empty()) == rev(
            r@.map_values(|i: Item| i@),
        ),
{
    let ghost bs = before@.map_values(|s: &str| s@);
    let mut found: Vec<Item> = Vec::new();
    let mut j = before.len();
    let ghost target = repo_scan(bs, bs.len() as int, Seq::empty());
    assert(rev(found@.map_values(|i: Item| i@)) =~= Seq::<ItemV>::empty());
    loop
        invariant
            j <= before@.len(),
            bs == before@.map_values(|s: &str| s@),
            target == repo_scan(bs, bs.len() as int, Seq::empty()),
            target == repo_scan(bs, j as int, rev(found@.map_values(|i: Item| i@))),
        decreases j,
    {
        if j == 0 {
            return found;
        }
        let line = before[j - 1];
        assert(bs[j - 1] == line@);
        let lv = chars_of(line);
        assert(lv@.subrange(0, lv@.len() as int) =~= lv@);
        let (ta, tb) = trim_span(lv.as_slice(), 0, lv.len());
        if ta == tb {
            j = j - 1;
            continue;
        }
        if span_all_dashes(lv.as_slice(), ta, tb) {
            return found;
        }
        match repo_row_exec(lv.as_slice(), ta, tb) {
            Some(it) => {
                let ghost iv = it@;
                let ghost fv = found@.map_values(|i: Item| i@);
                found.push(it);
                assert(found@.map_values(|i: Item| i@) =~= fv.push(iv));
                proof {
                    lemma_rev_push(fv, iv);
                }
            },
            None => {},
        }
        j = j - 1;
    }
}

fn repo_pick(before: &[&str], v: &[char], a: usize, b: usize) -> (r: Option<Question>)
    requires
        a <= b <= v@.len(),
    ensures
        match r {
            Some(q) => repo_pick_spec(before@.map_values(|s: &str| s@), v@.subrange(a as int, b as int))
                == Some(q@),
            None => repo_pick_spec(before@.map_values(|s: &str| s@), v@.subrange(a as int, b as int))
                is None,
        },
{
    let ghost p = v@.subrange(a as int, b as int);
    let marker = chars_of("repo(s) to update.");
    let i = match find_span(v, a, b, marker.as_slice()) {
        Some(i) => i,
        None => return None,
    };
    if !span_ends_with(v, a, b, chars_of("[n]one? [a]:").as_slice()) {
        return None;
    }
    let mut h: Vec<char> = Vec::new();
    let mut m = a;
    while m < i
        invariant
            a <= m <= i <= v@.len(),
            h@ == v@.subrange(a as int, m as int),
        decreases i - m,
    {
        h.push(v[m]);
        assert(h@ =~= v@.subrange(a as int, m + 1));
        m = m + 1;
    }
    let tail = chars_of("repo(s) to update");
    let mut k: usize = 0;
    let ghost h0 = h@;
    while k < tail.len()
        invariant
            k <= tail@.len(),
            h@ == h0 + tail@.subrange(0, k as int),
        decreases tail.len() - k,
    {
        h.push(tail[k]);
        assert(h@ =~= h0 + tail@.subrange(0, k + 1));
        k = k + 1;
    }
    assert(tail@.subrange(0, tail@.len() as int) =~= tail@);
    assert(p.subrange(0, i - a) =~= v@.subrange(a as int, i as int));
    let (ha, hb) = trim_span(h.as_slice(), 0, h.len());
    assert(h@.subrange(0, h@.len() as int) =~= h@);
    let pushed = scan_repo_rows(before);
    if pushed.len() == 0 {
        assert(rev(pushed@.map_values(|i: Item| i@)).len() == 0);
        return None;
    }
    let items = reversed(pushed);
    proof {
        reveal_strlit("a");
        reveal_strlit("n");
    }
    Some(Question::Pick { heading: string_of(h.as_slice(), ha, hb), items, all: "a", none: "n" })
}

// ---------------------------------------------------------------------------
// Detection
// ---------------------------------------------------------------------------

/// The question slacker is waiting on, given the finished lines printed
/// before the unfinished one (oldest first) and the unfinished line.
pub open spec fn detect_spec(bs: Seq<Seq<char>>, partial: Seq<char>) -> Option<QuestionV> {
    let p = trim(partial);
    if p.len() == 0 {
        None
    } else if yes_no_spec(p) is Some {
        yes_no_spec(p)
    } else if choice_spec(bs, p) is Some {
        choice_spec(bs, p)
    } else if package_pick_spec(bs, p) is Some {
        package_pick_spec(bs, p)
    } else {
        repo_pick_spec(bs, p)
    }
}

/// The first option found with key `k` is the one for `k`; with none, the
/// key is its own label, with no detail and no default.
proof fn lemma_opt_for(found: Seq<OptV>, k: Seq<char>, i: int)
    requires
        0 <= i,
    ensures
        opt_for(found, k, i).key == k,
        (forall|j: int| i <= j < found.len() ==> #[trigger] found[j].key != k) ==> opt_for(found, k, i)
            == (OptV { key: k, label: k, detail: Seq::empty(), default: false }),
    decreases found.len() - i,
{
    if i < found.len() && found[i].key != k {
        lemma_opt_for(found, k, i + 1);
    }
}

/// A `Choice [k1/k2/...]:` prompt is a choice answered with its own keys, in
/// order: each key gets the option line above the prompt that carries it,
/// and a key with no such line is offered under its own name, with no
/// detail and not as the default.
pub proof fn choice_offers_the_prompts_keys(
    bs: Seq<Seq<char>>,
    partial: Seq<char>,
    keys: Seq<Seq<char>>,
)
    requires
        keys.len() >= 1,
        forall|i: int| 0 <= i < keys.len() ==> #[trigger] keys[i].len() == 1 && keys[i][0] != '/',
        trim(partial) == "Choice ["@ + crate::output::join_with(keys, '/') + "]:"@,
    ensures
        ({
            let found = choice_scan(bs, bs.len() as int, Seq::empty()).0;
            &&& detect_spec(bs, partial) matches Some(QuestionV::Choice { heading, options })
            &&& heading == choice_scan(bs, bs.len() as int, Seq::empty()).1
            &&& options.len() == keys.len()
            &&& forall|i: int| 0 <= i < keys.len() ==> (#[trigger] options[i]).key == keys[i]
            &&& forall|i: int|
                0 <= i < keys.len() && (forall|j: int| 0 <= j < found.len() ==> found[j].key
                    != keys[i]) ==> #[trigger] options[i] == (OptV {
                    key: keys[i],
                    label: keys[i],
                    detail: Seq::empty(),
                    default: false,
                })
        }),
{
    reveal_strlit("Choice [");
    reveal_strlit("]:");
    reveal_strlit("[y/N]");
    reveal_strlit("[Y/n]");
    let p = trim(partial);
    let j = crate::output::join_with(keys, '/');
    let pre = "Choice ["@;
    assert(p.len() == 8 + j.len() + 2);
    assert(p.subrange(0, 8) =~= pre);
    assert(p.subrange(8, p.len() as int).subrange(j.len() as int, j.len() + 2int) =~= "]:"@);
    assert(p.subrange(8, p.len() - 2) =~= j);
    assert(p[p.len() - 1] == ':');
    assert(!ends_with(p, "[y/N]"@)) by {
        if ends_with(p, "[y/N]"@) {
            assert(p.subrange(p.len() - 5, p.len() as int)[4] == p[p.len() - 1]);
        }
    }
    assert(!ends_with(p, "[Y/n]"@)) by {
        if ends_with(p, "[Y/n]"@) {
            assert(p.subrange(p.len() - 5, p.len() as int)[4] == p[p.len() - 1]);
        }
    }
    assert(yes_no_spec(p) is None);
    assert forall|k: int| 0 <= k < keys.len() implies crate::output::lacks(#[trigger] keys[k], '/') by {
        assert(keys[k].len() == 1);
    }
    crate::output::lemma_split_join(keys, '/');
    assert(choice_keys(p) == Some(keys));
    let found = choice_scan(bs, bs.len() as int, Seq::empty()).0;
    let options = keys.map_values(|k: Seq<char>| opt_for(found, k, 0));
    assert forall|i: int| 0 <= i < keys.len() implies (#[trigger] options[i]).key == keys[i] && ((
    forall|j: int| 0 <= j < found.len() ==> found[j].key != keys[i]) ==> options[i] == (OptV {
        key: keys[i],
        label: keys[i],
        detail: Seq::empty(),
        default: false,
    })) by {
        lemma_opt_for(found, keys[i], 0);
    }
}

/// Recognises the question slacker is waiting on, if any. `before` holds the
/// finished lines printed before the unfinished one, oldest first.
pub fn detect(before: &[&str], partial: &str) -> (r: Option<Question>)
    ensures
        match r {
            Some(q) => detect_spec(before@.map_values(|s: &str| s@), partial@) == Some(q@),
            None => detect_spec(before@.map_values(|s: &str| s@), partial@) is None,
        },
{
    let v = chars_of(partial);
    assert(v@.subrange(0, v@.len() as int) =~= partial@);
    let (a, b) = trim_span(v.as_slice(), 0, v.len());
    if a == b {
        return None;
    }
    let vs = v.as_slice();
    match yes_no(vs, a, b) {
        Some(q) => return Some(q),
        None => {},
    }
    match choice(before, vs, a, b) {
        Some(q) => return Some(q),
        None => {},
    }
    match package_pick(before, vs, a, b) {
        Some(q) => return Some(q),
        None => {},
    }
    repo_pick(before, vs, a, b)
}

} // verus!
