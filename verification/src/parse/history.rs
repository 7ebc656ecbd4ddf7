//! `slacker history`: one line per event,
//! `YYYY-MM-DD HH:MM  {sym} {label:<11}  {name:<w}  {detail}  [{source}]`.
use vstd::prelude::*;

use crate::parse::{column_spans, columns, two_spaces};
use crate::text::{
    boundary_index, byte_index, byte_len, byte_len_at_least, char_at_byte, chars_of, line_spans,
    lines, push_string, span_eq, span_starts_with, span_texts, spans_in, string_of, strs, trim,
    trim_span,
};

verus! {

#[derive(Debug, Clone, Copy, PartialEq, Eq, Structural)]
pub enum Kind {
    Installed,
    Reinstalled,
    Upgraded,
    Removed,
}

#[derive(Debug, Clone, PartialEq)]
pub struct Event {
    pub when: String,
    pub kind: Kind,
    pub name: String,
    pub detail: String,
    pub source: String,
}

#[derive(Debug, Default)]
pub struct History {
    pub events: Vec<Event>,
    pub messages: Vec<String>,
}

pub struct EventV {
    pub when: Seq<char>,
    pub kind: Kind,
    pub name: Seq<char>,
    pub detail: Seq<char>,
    pub source: Seq<char>,
}

pub struct HistoryV {
    pub events: Seq<EventV>,
    pub messages: Seq<Seq<char>>,
}

impl View for Event {
    type V = EventV;

    open spec fn view(&self) -> EventV {
        EventV {
            when: self.when@,
            kind: self.kind,
            name: self.name@,
            detail: self.detail@,
            source: self.source@,
        }
    }
}

impl View for History {
    type V = HistoryV;

    open spec fn view(&self) -> HistoryV {
        HistoryV { events: self.events@.map_values(|e: Event| e@), messages: strs(self.messages@) }
    }
}

/// The kind an event's symbol and label name.
pub open spec fn kind_of(sym: char, label: Seq<char>) -> Option<Kind> {
    if sym == '+' && label == "installed"@ {
        Some(Kind::Installed)
    } else if sym == '\u{21BB}' && label == "reinstalled"@ {
        Some(Kind::Reinstalled)
    } else if sym == '\u{2191}' && label == "upgraded"@ {
        Some(Kind::Upgraded)
    } else if sym == '\u{2212}' && label == "removed"@ {
        Some(Kind::Removed)
    } else {
        None
    }
}

/// The date and time fill the first 16 bytes, with `-`, `-`, ` ` and `:` at
/// byte offsets 4, 7, 10 and 13.
pub open spec fn stamp_shape(line: Seq<char>) -> bool {
    &&& char_at_byte(line, 4) == Some('-')
    &&& char_at_byte(line, 7) == Some('-')
    &&& char_at_byte(line, 10) == Some(' ')
    &&& char_at_byte(line, 13) == Some(':')
}

/// One history line read as an event, if it has the event shape.
pub open spec fn event_of(line: Seq<char>) -> Option<EventV> {
    if byte_len(line) < 18 {
        None
    } else {
        match boundary_index(line, 16) {
            None => None,
            Some(k) => {
                let rest = line.subrange(k, line.len() as int);
                if !stamp_shape(line) || rest.len() < 4 || rest.subrange(0, 2) != two_spaces()
                    || rest[3] != ' ' {
                    None
                } else {
                    let cols = columns(rest.subrange(4, rest.len() as int));
                    if cols.len() != 4 {
                        None
                    } else {
                        match kind_of(rest[2], cols[0]) {
                            None => None,
                            Some(kind) => {
                                let src = cols[3];
                                if src.len() >= 2 && src[0] == '[' && src[src.len() - 1] == ']' {
                                    Some(
                                        EventV {
                                            when: line.subrange(0, k),
                                            kind,
                                            name: cols[1],
                                            detail: cols[2],
                                            source: src.subrange(1, src.len() - 1),
                                        },
                                    )
                                } else {
                                    None
                                }
                            },
                        }
                    }
                }
            },
        }
    }
}

/// What one line adds: nothing when blank, else an event or a message.
pub open spec fn history_step(h: HistoryV, line: Seq<char>) -> HistoryV {
    if trim(line).len() == 0 {
        h
    } else {
        match event_of(line) {
            Some(e) => HistoryV { events: h.events.push(e), ..h },
            None => HistoryV { messages: h.messages.push(trim(line)), ..h },
        }
    }
}

pub open spec fn history_of(ls: Seq<Seq<char>>) -> HistoryV
    decreases ls.len(),
{
    if ls.len() == 0 {
        HistoryV { events: Seq::empty(), messages: Seq::empty() }
    } else {
        history_step(history_of(ls.drop_last()), ls.last())
    }
}

/// The events and other lines of `slacker history` output.
pub open spec fn history_spec(text: Seq<char>) -> HistoryV {
    history_of(lines(text))
}

fn kind_exec(sym: char, v: &[char], a: usize, b: usize) -> (r: Option<Kind>)
    requires
        a <= b <= v@.len(),
    ensures
        r == kind_of(sym, v@.subrange(a as int, b as int)),
{
    if sym == '+' && span_eq(v, a, b, chars_of("installed").as_slice()) {
        Some(Kind::Installed)
    } else if sym == '\u{21BB}' && span_eq(v, a, b, chars_of("reinstalled").as_slice()) {
        Some(Kind::Reinstalled)
    } else if sym == '\u{2191}' && span_eq(v, a, b, chars_of("upgraded").as_slice()) {
        Some(Kind::Upgraded)
    } else if sym == '\u{2212}' && span_eq(v, a, b, chars_of("removed").as_slice()) {
        Some(Kind::Removed)
    } else {
        None
    }
}

/// Whether the character at byte offset `n` of `v[a..b]` is `c`.
fn char_at_byte_is(v: &[char], a: usize, b: usize, n: usize, c: char) -> (r: bool)
    requires
        a <= b <= v@.len(),
    ensures
        r == (char_at_byte(v@.subrange(a as int, b as int), n as int) == Some(c)),
{
    match byte_index(v, a, b, n) {
        Some(i) => {
            if i < b {
                v[i] == c
            } else {
                false
            }
        },
        None => false,
    }
}

fn event_exec(v: &[char], a: usize, b: usize) -> (r: Option<Event>)
    requires
        a <= b <= v@.len(),
    ensures
        r matches Some(e) ==> event_of(v@.subrange(a as int, b as int)) == Some(e@),
        r is None ==> event_of(v@.subrange(a as int, b as int)) is None,
{
    let ghost line = v@.subrange(a as int, b as int);
    if !byte_len_at_least(v, a, b, 18) {
        return None;
    }
    let k = match byte_index(v, a, b, 16) {
        Some(k) => k,
        None => return None,
    };
    let ghost rest = line.subrange(k - a, line.len() as int);
    proof {
        assert(rest =~= v@.subrange(k as int, b as int));
    }
    if !(char_at_byte_is(v, a, b, 4, '-') && char_at_byte_is(v, a, b, 7, '-') && char_at_byte_is(
        v,
        a,
        b,
        10,
        ' ',
    ) && char_at_byte_is(v, a, b, 13, ':')) {
        return None;
    }
    if b - k < 4 {
        return None;
    }
    let sep = chars_of("  ");
    proof {
        reveal_strlit("  ");
        assert(sep@ =~= two_spaces());
        assert(rest.subrange(0, 2) =~= v@.subrange(k as int, k + 2));
    }
    if !span_eq(v, k, k + 2, sep.as_slice()) || v[k + 3] != ' ' {
        return None;
    }
    let sym = v[k + 2];
    let cols = column_spans(v, k + 4, b);
    proof {
        assert(rest.subrange(4, rest.len() as int) =~= v@.subrange(k + 4, b as int));
    }
    if cols.len() != 4 {
        return None;
    }
    let (c0a, c0b) = cols[0];
    let (c1a, c1b) = cols[1];
    let (c2a, c2b) = cols[2];
    let (sa, sb) = cols[3];
    proof {
        assert(span_texts(v@, cols@)[0] == v@.subrange(c0a as int, c0b as int));
        assert(span_texts(v@, cols@)[1] == v@.subrange(c1a as int, c1b as int));
        assert(span_texts(v@, cols@)[2] == v@.subrange(c2a as int, c2b as int));
        assert(span_texts(v@, cols@)[3] == v@.subrange(sa as int, sb as int));
    }
    let kind = match kind_exec(sym, v, c0a, c0b) {
        Some(kd) => kd,
        None => return None,
    };
    if !(sb - sa >= 2 && v[sa] == '[' && v[sb - 1] == ']') {
        return None;
    }
    let e = Event {
        when: string_of(v, a, k),
        kind,
        name: string_of(v, c1a, c1b),
        detail: string_of(v, c2a, c2b),
        source: string_of(v, sa + 1, sb - 1),
    };
    proof {
        assert(line.subrange(0, k - a) =~= v@.subrange(a as int, k as int));
        let src = v@.subrange(sa as int, sb as int);
        assert(src.subrange(1, src.len() - 1) =~= v@.subrange(sa + 1, sb - 1));
    }
    Some(e)
}

/// Reads `slacker history` output: each line is an event, or kept trimmed
/// as a message (`No matching package history.`); blank lines are skipped.
pub fn parse(text: &str) -> (out: History)
    ensures
        out@ == history_spec(text@),
{
    let v = chars_of(text);
    let spans = line_spans(v.as_slice());
    let mut out = History { events: Vec::new(), messages: Vec::new() };
    let ghost ls = span_texts(v@, spans@);
    let mut k: usize = 0;
    proof {
        assert(ls.take(0) =~= Seq::<Seq<char>>::empty());
        assert(out@.events =~= Seq::<EventV>::empty());
        assert(out@.messages =~= Seq::<Seq<char>>::empty());
    }
    while k < spans.len()
        invariant
            k <= spans@.len(),
            v@ == text@,
            spans_in(v@, spans@),
            ls == span_texts(v@, spans@),
            ls == lines(text@),
            out@ == history_of(ls.take(k as int)),
        decreases spans.len() - k,
    {
        let (a, b) = spans[k];
        assert(ls[k as int] == v@.subrange(a as int, b as int));
        assert(ls.take(k + 1).drop_last() =~= ls.take(k as int));
        let ghost prev = out@;
        let (ta, tb) = trim_span(v.as_slice(), a, b);
        if ta < tb {
            match event_exec(v.as_slice(), a, b) {
                Some(e) => {
                    let ghost ev = e@;
                    out.events.push(e);
                    assert(out@.events =~= prev.events.push(ev));
                },
                None => {
                    push_string(&mut out.messages, string_of(v.as_slice(), ta, tb));
                },
            }
        }
        k = k + 1;
    }
    assert(ls.take(k as int) =~= ls);
    out
}

} // verus!
