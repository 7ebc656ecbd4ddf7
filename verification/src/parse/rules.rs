//! `slacker frozen` and `slacker pin` without arguments: the current freeze
//! rules and the current pins.
use vstd::prelude::*;

use crate::parse::two_spaces;
use crate::text::{
    chars_of, contains, find, find_span, line_spans, lines, push_string, span_eq,
    span_starts_with, span_texts, spans_in, starts_with, string_of, strs, trim, trim_end,
    trim_end_span, trim_span,
};

verus! {

#[derive(Debug, Default, PartialEq)]
pub struct Frozen {
    pub rules: Vec<String>,
    pub unrecognized: Vec<String>,
}

#[derive(Debug, Default, PartialEq)]
pub struct Pins {
    /// (package, repo)
    pub pins: Vec<(String, String)>,
    pub unrecognized: Vec<String>,
}

pub struct FrozenV {
    pub rules: Seq<Seq<char>>,
    pub unrecognized: Seq<Seq<char>>,
}

pub struct PinsV {
    pub pins: Seq<(Seq<char>, Seq<char>)>,
    pub unrecognized: Seq<Seq<char>>,
}

impl View for Frozen {
    type V = FrozenV;

    open spec fn view(&self) -> FrozenV {
        FrozenV { rules: strs(self.rules@), unrecognized: strs(self.unrecognized@) }
    }
}

pub open spec fn pair_texts(v: Seq<(String, String)>) -> Seq<(Seq<char>, Seq<char>)> {
    v.map_values(|p: (String, String)| (p.0@, p.1@))
}

impl View for Pins {
    type V = PinsV;

    open spec fn view(&self) -> PinsV {
        PinsV { pins: pair_texts(self.pins@), unrecognized: strs(self.unrecognized@) }
    }
}

/// One line of `slacker frozen`, given whether the list has begun.
pub open spec fn frozen_step(st: (FrozenV, bool), line: Seq<char>) -> (FrozenV, bool) {
    let (f, in_list) = st;
    let t = trim(line);
    if t.len() == 0 || t == "No frozen rules set."@ || starts_with(t, "to add a rule:"@) {
        st
    } else if t == "Current frozen rules:"@ {
        (f, true)
    } else if in_list && starts_with(line, two_spaces()) {
        (
            FrozenV { rules: f.rules.push(trim_end(line.subrange(2, line.len() as int))), ..f },
            in_list,
        )
    } else {
        (FrozenV { unrecognized: f.unrecognized.push(line), ..f }, in_list)
    }
}

pub open spec fn frozen_of(ls: Seq<Seq<char>>) -> (FrozenV, bool)
    decreases ls.len(),
{
    if ls.len() == 0 {
        (FrozenV { rules: Seq::empty(), unrecognized: Seq::empty() }, false)
    } else {
        frozen_step(frozen_of(ls.drop_last()), ls.last())
    }
}

/// The freeze rules listed by `slacker frozen`; other lines kept verbatim.
pub open spec fn frozen_spec(text: Seq<char>) -> FrozenV {
    frozen_of(lines(text)).0
}

/// A listed pin, `  package -> repo`, as (package, repo).
pub open spec fn pin_of(line: Seq<char>) -> Option<(Seq<char>, Seq<char>)> {
    if !starts_with(line, two_spaces()) {
        None
    } else {
        let l = line.subrange(2, line.len() as int);
        match find(l, " -> "@) {
            None => None,
            Some(i) => {
                let p = trim(l.subrange(0, i));
                let r = trim(l.subrange(i + 4, l.len() as int));
                if p.len() > 0 && r.len() > 0 && !contains(p, seq![' ']) && !contains(r, seq![' ']) {
                    Some((p, r))
                } else {
                    None
                }
            },
        }
    }
}

pub open spec fn pins_step(st: (PinsV, bool), line: Seq<char>) -> (PinsV, bool) {
    let (f, in_list) = st;
    let t = trim(line);
    if t.len() == 0 || t == "No pins set."@ || starts_with(t, "to add a pin:"@) {
        st
    } else if t == "Current pins (package -> repo):"@ {
        (f, true)
    } else {
        match (if in_list { pin_of(line) } else { None }) {
            Some(p) => (PinsV { pins: f.pins.push(p), ..f }, in_list),
            None => (PinsV { unrecognized: f.unrecognized.push(line), ..f }, in_list),
        }
    }
}

pub open spec fn pins_of(ls: Seq<Seq<char>>) -> (PinsV, bool)
    decreases ls.len(),
{
    if ls.len() == 0 {
        (PinsV { pins: Seq::empty(), unrecognized: Seq::empty() }, false)
    } else {
        pins_step(pins_of(ls.drop_last()), ls.last())
    }
}

/// The pins listed by `slacker pin`; other lines kept verbatim.
pub open spec fn pins_spec(text: Seq<char>) -> PinsV {
    pins_of(lines(text)).0
}

/// Whether `v[a..b]` contains the character `c`.
pub fn span_has_char(v: &[char], a: usize, b: usize, c: char) -> (r: bool)
    requires
        a <= b <= v@.len(),
    ensures
        r == contains(v@.subrange(a as int, b as int), seq![c]),
{
    let p = vec![c];
    assert(p@ =~= seq![c]);
    find_span(v, a, b, p.as_slice()).is_some()
}

/// Reads `slacker frozen` output.
pub fn parse_frozen(text: &str) -> (out: Frozen)
    ensures
        out@ == frozen_spec(text@),
{
    let v = chars_of(text);
    let spans = line_spans(v.as_slice());
    let none_set = chars_of("No frozen rules set.");
    let to_add = chars_of("to add a rule:");
    let header = chars_of("Current frozen rules:");
    let sep = chars_of("  ");
    proof {
        reveal_strlit("  ");
        assert(sep@ =~= two_spaces());
    }
    let mut out = Frozen { rules: Vec::new(), unrecognized: Vec::new() };
    let mut in_list = false;
    let ghost ls = span_texts(v@, spans@);
    let mut k: usize = 0;
    proof {
        assert(ls.take(0) =~= Seq::<Seq<char>>::empty());
        assert(out@.rules =~= Seq::<Seq<char>>::empty());
        assert(out@.unrecognized =~= Seq::<Seq<char>>::empty());
    }
    while k < spans.len()
        invariant
            k <= spans@.len(),
            v@ == text@,
            spans_in(v@, spans@),
            ls == span_texts(v@, spans@),
            ls == lines(text@),
            none_set@ == "No frozen rules set."@,
            to_add@ == "to add a rule:"@,
            header@ == "Current frozen rules:"@,
            sep@ == two_spaces(),
            (out@, in_list) == frozen_of(ls.take(k as int)),
        decreases spans.len() - k,
    {
        let (a, b) = spans[k];
        assert(ls[k as int] == v@.subrange(a as int, b as int));
        assert(ls.take(k + 1).drop_last() =~= ls.take(k as int));
        let ghost line = v@.subrange(a as int, b as int);
        let (ta, tb) = trim_span(v.as_slice(), a, b);
        if ta == tb || span_eq(v.as_slice(), ta, tb, none_set.as_slice()) || span_starts_with(
            v.as_slice(),
            ta,
            tb,
            to_add.as_slice(),
        ) {
        } else if span_eq(v.as_slice(), ta, tb, header.as_slice()) {
            in_list = true;
        } else if in_list && span_starts_with(v.as_slice(), a, b, sep.as_slice()) {
            let e = trim_end_span(v.as_slice(), a + 2, b);
            proof {
                assert(line.subrange(2, line.len() as int) =~= v@.subrange(a + 2, b as int));
            }
            push_string(&mut out.rules, string_of(v.as_slice(), a + 2, e));
        } else {
            push_string(&mut out.unrecognized, string_of(v.as_slice(), a, b));
        }
        k = k + 1;
    }
    assert(ls.take(k as int) =~= ls);
    out
}

/// Reads `slacker pin` output.
pub fn parse_pins(text: &str) -> (out: Pins)
    ensures
        out@ == pins_spec(text@),
{
    let v = chars_of(text);
    let spans = line_spans(v.as_slice());
    let none_set = chars_of("No pins set.");
    let to_add = chars_of("to add a pin:");
    let header = chars_of("Current pins (package -> repo):");
    let arrow = chars_of(" -> ");
    let sep = chars_of("  ");
    proof {
        reveal_strlit("  ");
        reveal_strlit(" -> ");
        assert(sep@ =~= two_spaces());
    }
    let mut out = Pins { pins: Vec::new(), unrecognized: Vec::new() };
    let mut in_list = false;
    let ghost ls = span_texts(v@, spans@);
    let mut k: usize = 0;
    proof {
        assert(ls.take(0) =~= Seq::<Seq<char>>::empty());
        assert(out@.pins =~= Seq::<(Seq<char>, Seq<char>)>::empty());
        assert(out@.unrecognized =~= Seq::<Seq<char>>::empty());
    }
    while k < spans.len()
        invariant
            k <= spans@.len(),
            v@ == text@,
            spans_in(v@, spans@),
            ls == span_texts(v@, spans@),
            ls == lines(text@),
            none_set@ == "No pins set."@,
            to_add@ == "to add a pin:"@,
            header@ == "Current pins (package -> repo):"@,
            arrow@ == " -> "@,
            arrow@.len() == 4,
            sep@ == two_spaces(),
            (out@, in_list) == pins_of(ls.take(k as int)),
        decreases spans.len() - k,
    {
        let (a, b) = spans[k];
        assert(ls[k as int] == v@.subrange(a as int, b as int));
        assert(ls.take(k + 1).drop_last() =~= ls.take(k as int));
        let ghost line = v@.subrange(a as int, b as int);
        let ghost prev = out@;
        let (ta, tb) = trim_span(v.as_slice(), a, b);
        if ta == tb || span_eq(v.as_slice(), ta, tb, none_set.as_slice()) || span_starts_with(
            v.as_slice(),
            ta,
            tb,
            to_add.as_slice(),
        ) {
        } else if span_eq(v.as_slice(), ta, tb, header.as_slice()) {
            in_list = true;
        } else {
            let mut pin: Option<(String, String)> = None;
            if in_list && span_starts_with(v.as_slice(), a, b, sep.as_slice()) {
                proof {
                    assert(line.subrange(2, line.len() as int) =~= v@.subrange(a + 2, b as int));
                }
                match find_span(v.as_slice(), a + 2, b, arrow.as_slice()) {
                    Some(i) => {
                        let (pa, pb) = trim_span(v.as_slice(), a + 2, i);
                        let (ra, rb) = trim_span(v.as_slice(), i + 4, b);
                        proof {
                            let l = line.subrange(2, line.len() as int);
                            assert(l.subrange(0, i - a - 2) =~= v@.subrange(a + 2, i as int));
                            assert(l.subrange(i - a - 2 + 4, l.len() as int) =~= v@.subrange(
                                i + 4,
                                b as int,
                            ));
                        }
                        if pa < pb && ra < rb && !span_has_char(v.as_slice(), pa, pb, ' ')
                            && !span_has_char(v.as_slice(), ra, rb, ' ') {
                            pin = Some(
                                (string_of(v.as_slice(), pa, pb), string_of(v.as_slice(), ra, rb)),
                            );
                        }
                    },
                    None => {},
                }
            }
            match pin {
                Some(p) => {
                    let ghost pv = (p.0@, p.1@);
                    out.pins.push(p);
                    assert(out@.pins =~= prev.pins.push(pv));
                },
                None => {
                    push_string(&mut out.unrecognized, string_of(v.as_slice(), a, b));
                },
            }
        }
        k = k + 1;
    }
    assert(ls.take(k as int) =~= ls);
    out
}

} // verus!
