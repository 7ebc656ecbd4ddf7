//! `slacker find-mirror`: the ranked mirrors and slacker's proposals for the
//! `mirrors` file. Read-only: slacker only suggests; changing the mirror
//! stays a manual edit.
//!
//! Ranked rows: `"  {:>2}. {:<3} {:>7} {:<13} {url}[ (yours)]"`.
use vstd::prelude::*;

use crate::parse::rules::span_has_char;
use crate::parse::two_spaces;
use crate::text::{
    chars_of, contains, dec, ends_with, find, find_span, is_ascii_seq, line_spans, lines,
    parse_u32, parse_u32_span, push_string, span_ends_with, span_eq, span_starts_with,
    span_texts, spans_in, starts_with, string_from, string_of, strs, trim, trim_end,
    trim_end_span, trim_span,
};

verus! {

#[derive(Debug, Clone, PartialEq)]
pub enum Freshness {
    InSync,
    /// e.g. "1d 23h"
    Behind(String),
    /// upstream could not be reached
    Unknown,
}

#[derive(Debug, Clone, PartialEq)]
pub struct Mirror {
    pub rank: u32,
    pub country: String,
    pub latency_ms: u32,
    pub freshness: Freshness,
    pub url: String,
    /// The host of the mirror currently configured.
    pub yours: bool,
}

#[derive(Debug, Default)]
pub struct FindMirror {
    /// `Some(date)` when freshness was checked against upstream.
    pub validated: Option<String>,
    pub upstream_unreachable: bool,
    /// "(50 of 64 reachable)"
    pub reachable: Option<(u32, u32)>,
    pub ranked: Vec<Mirror>,
    /// Lines to put in the `mirrors` file, fastest first.
    pub suggested: Vec<String>,
    pub unrecognized: Vec<String>,
}

pub enum FreshnessV {
    InSync,
    Behind(Seq<char>),
    Unknown,
}

pub struct MirrorV {
    pub rank: u32,
    pub country: Seq<char>,
    pub latency_ms: u32,
    pub freshness: FreshnessV,
    pub url: Seq<char>,
    pub yours: bool,
}

pub struct FindMirrorV {
    pub validated: Option<Seq<char>>,
    pub upstream_unreachable: bool,
    pub reachable: Option<(u32, u32)>,
    pub ranked: Seq<MirrorV>,
    pub suggested: Seq<Seq<char>>,
    pub unrecognized: Seq<Seq<char>>,
}

impl View for Freshness {
    type V = FreshnessV;

    open spec fn view(&self) -> FreshnessV {
        match self {
            Freshness::InSync => FreshnessV::InSync,
            Freshness::Behind(s) => FreshnessV::Behind(s@),
            Freshness::Unknown => FreshnessV::Unknown,
        }
    }
}

impl View for Mirror {
    type V = MirrorV;

    open spec fn view(&self) -> MirrorV {
        MirrorV {
            rank: self.rank,
            country: self.country@,
            latency_ms: self.latency_ms,
            freshness: self.freshness@,
            url: self.url@,
            yours: self.yours,
        }
    }
}

impl View for FindMirror {
    type V = FindMirrorV;

    open spec fn view(&self) -> FindMirrorV {
        FindMirrorV {
            validated: match self.validated {
                Some(s) => Some(s@),
                None => None,
            },
            upstream_unreachable: self.upstream_unreachable,
            reachable: self.reachable,
            ranked: self.ranked@.map_values(|m: Mirror| m@),
            suggested: strs(self.suggested@),
            unrecognized: strs(self.unrecognized@),
        }
    }
}

pub open spec fn is_url_spec(s: Seq<char>) -> bool {
    starts_with(s, "https://"@) || starts_with(s, "http://"@) || starts_with(s, "file://"@)
}

/// The earliest position at which a URL scheme occurs in `s`.
pub open spec fn url_start(s: Seq<char>) -> Option<int> {
    let a = find(s, "https://"@);
    let b = find(s, "http://"@);
    let c = find(s, "file://"@);
    let ab = match (a, b) {
        (Some(x), Some(y)) => Some(if x <= y { x } else { y }),
        (Some(x), None) => Some(x),
        (None, y) => y,
    };
    match (ab, c) {
        (Some(x), Some(y)) => Some(if x <= y { x } else { y }),
        (Some(x), None) => Some(x),
        (None, y) => y,
    }
}

/// A ranked row: rank, country, latency, freshness, URL and the `(yours)`
/// mark.
pub open spec fn row_of(line: Seq<char>) -> Option<MirrorV> {
    if !starts_with(line, two_spaces()) {
        None
    } else {
        let r0 = line.subrange(2, line.len() as int);
        match find(r0, ". "@) {
            None => None,
            Some(d) => {
                let rest = r0.subrange(d + 2, r0.len() as int);
                match parse_u32(trim(r0.subrange(0, d))) {
                    None => None,
                    Some(rank) => {
                        if !is_ascii_seq(rest) || rest.len() < 12 || rest[3] != ' ' {
                            None
                        } else {
                            let country = trim(rest.subrange(0, 3));
                            let r1 = rest.subrange(4, rest.len() as int);
                            let latency = trim(r1.subrange(0, 7));
                            if !ends_with(latency, "ms"@) || r1[7] != ' ' {
                                None
                            } else {
                                match parse_u32(latency.subrange(0, latency.len() - 2)) {
                                    None => None,
                                    Some(latency_ms) => {
                                        let r2 = r1.subrange(8, r1.len() as int);
                                        match url_start(r2) {
                                            None => None,
                                            Some(at) => {
                                                let fresh = trim(r2.subrange(0, at));
                                                let url0 = trim(r2.subrange(at, r2.len() as int));
                                                let yours = ends_with(url0, "(yours)"@);
                                                let url = if yours {
                                                    trim_end(url0.subrange(0, url0.len() - 7))
                                                } else {
                                                    url0
                                                };
                                                let freshness = if fresh == "in sync"@ {
                                                    Some(FreshnessV::InSync)
                                                } else if fresh == "?"@ {
                                                    Some(FreshnessV::Unknown)
                                                } else if ends_with(fresh, " behind"@) {
                                                    Some(
                                                        FreshnessV::Behind(
                                                            fresh.subrange(0, fresh.len() - 7),
                                                        ),
                                                    )
                                                } else {
                                                    None
                                                };
                                                match freshness {
                                                    Some(fr) => if contains(url, seq![' ']) {
                                                        None
                                                    } else {
                                                        Some(
                                                            MirrorV {
                                                                rank,
                                                                country,
                                                                latency_ms,
                                                                freshness: fr,
                                                                url,
                                                                yours,
                                                            },
                                                        )
                                                    },
                                                    None => None,
                                                }
                                            },
                                        }
                                    },
                                }
                            }
                        }
                    },
                }
            },
        }
    }
}

/// Lines slacker prints that carry nothing to read.
pub open spec fn is_chatter(t: Seq<char>) -> bool {
    ||| t.len() == 0
    ||| t == "Finding the fastest up-to-date Slackware mirror"@
    ||| (starts_with(t, "probing "@) && ends_with(t, "mirrors in parallel ..."@))
    ||| t == "(slacker will not change your mirror automatically)"@
    ||| t == "to use it, make this the single active line in your `mirrors` file:"@
}

pub open spec fn validated_prefix() -> Seq<char> {
    "\u{2713} freshness validated against upstream "@
}

/// `(50 of 64 reachable)` in a `Top ...` line.
pub open spec fn reachable_of(t: Seq<char>) -> Option<(u32, u32)> {
    match find(t, seq!['(']) {
        None => None,
        Some(i) => {
            let r = t.subrange(i + 1, t.len() as int);
            if !ends_with(r, " reachable)"@) {
                None
            } else {
                let r2 = r.subrange(0, r.len() - 11);
                match find(r2, " of "@) {
                    None => None,
                    Some(j) => match (
                        parse_u32(r2.subrange(0, j)),
                        parse_u32(r2.subrange(j + 4, r2.len() as int)),
                    ) {
                        (Some(x), Some(y)) => Some((x, y)),
                        _ => None,
                    },
                }
            }
        },
    }
}

/// The date in `✓ freshness validated against upstream (DATE)`.
pub open spec fn validated_of(rest: Seq<char>) -> Seq<char> {
    match find(rest, seq!['(']) {
        Some(i) => {
            let d = rest.subrange(i + 1, rest.len() as int);
            if ends_with(d, seq![')']) {
                d.subrange(0, d.len() - 1)
            } else {
                rest
            }
        },
        None => rest,
    }
}

pub open spec fn mirrors_step(st: (FindMirrorV, bool), line: Seq<char>) -> (FindMirrorV, bool) {
    let (f, in_sugg) = st;
    let t = trim(line);
    if is_chatter(t) {
        st
    } else if starts_with(t, validated_prefix()) {
        (
            FindMirrorV {
                validated: Some(
                    validated_of(t.subrange(validated_prefix().len() as int, t.len() as int)),
                ),
                ..f
            },
            in_sugg,
        )
    } else if starts_with(t, "upstream unreachable"@) {
        (FindMirrorV { upstream_unreachable: true, ..f }, in_sugg)
    } else if starts_with(t, "Top "@) && contains(t, " mirrors: ("@) {
        (FindMirrorV { reachable: reachable_of(t), ..f }, in_sugg)
    } else if (starts_with(t, "Fastest "@) && ends_with(t, "in your `mirrors` file:"@))
        || starts_with(t, "Fastest: "@) {
        (f, true)
    } else if in_sugg && starts_with(line, "    "@) && is_url_spec(t) && !contains(t, seq![' ']) {
        (FindMirrorV { suggested: f.suggested.push(t), ..f }, in_sugg)
    } else {
        match row_of(line) {
            Some(m) => (FindMirrorV { ranked: f.ranked.push(m), ..f }, in_sugg),
            None => (FindMirrorV { unrecognized: f.unrecognized.push(line), ..f }, in_sugg),
        }
    }
}

pub open spec fn mirrors_of(ls: Seq<Seq<char>>) -> (FindMirrorV, bool)
    decreases ls.len(),
{
    if ls.len() == 0 {
        (
            FindMirrorV {
                validated: None,
                upstream_unreachable: false,
                reachable: None,
                ranked: Seq::empty(),
                suggested: Seq::empty(),
                unrecognized: Seq::empty(),
            },
            false,
        )
    } else {
        mirrors_step(mirrors_of(ls.drop_last()), ls.last())
    }
}

/// What `slacker find-mirror` printed, read line by line.
pub open spec fn mirrors_spec(text: Seq<char>) -> FindMirrorV {
    mirrors_of(lines(text)).0
}

/// Whether `v[a..b]` is made of ASCII characters only.
pub fn span_is_ascii(v: &[char], a: usize, b: usize) -> (r: bool)
    requires
        a <= b <= v@.len(),
    ensures
        r == is_ascii_seq(v@.subrange(a as int, b as int)),
{
    let mut i = a;
    while i < b
        invariant
            a <= i <= b <= v@.len(),
            forall|k: int| a <= k < i ==> v@[k] <= '\u{7F}',
        decreases b - i,
    {
        if v[i] > '\u{7F}' {
            assert(v@.subrange(a as int, b as int)[i - a] == v@[i as int]);
            return false;
        }
        i = i + 1;
    }
    assert forall|k: int| 0 <= k < b - a implies v@.subrange(a as int, b as int)[k] <= '\u{7F}' by {
        assert(v@.subrange(a as int, b as int)[k] == v@[a + k]);
    }
    true
}

fn min_opt(x: Option<usize>, y: Option<usize>) -> (r: Option<usize>)
    ensures
        r == match (x, y) {
            (Some(p), Some(q)) => Some(if p <= q { p } else { q }),
            (Some(p), None) => Some(p),
            (None, q) => q,
        },
{
    match (x, y) {
        (Some(p), Some(q)) => Some(if p <= q { p } else { q }),
        (Some(p), None) => Some(p),
        (None, q) => q,
    }
}

/// Where the URL starts in `v[a..b]`, as an index into `v`.
fn url_start_exec(v: &[char], a: usize, b: usize) -> (r: Option<usize>)
    requires
        a <= b <= v@.len(),
    ensures
        r matches Some(k) ==> a <= k <= b && url_start(v@.subrange(a as int, b as int)) == Some(
            k - a,
        ),
        r is None ==> url_start(v@.subrange(a as int, b as int)) is None,
{
    let x = find_span(v, a, b, chars_of("https://").as_slice());
    let y = find_span(v, a, b, chars_of("http://").as_slice());
    let z = find_span(v, a, b, chars_of("file://").as_slice());
    let xy = min_opt(x, y);
    min_opt(xy, z)
}

fn row_exec(v: &[char], a: usize, b: usize) -> (r: Option<Mirror>)
    requires
        a <= b <= v@.len(),
    ensures
        r matches Some(m) ==> row_of(v@.subrange(a as int, b as int)) == Some(m@),
        r is None ==> row_of(v@.subrange(a as int, b as int)) is None,
{
    let ghost line = v@.subrange(a as int, b as int);
    let two = chars_of("  ");
    proof {
        reveal_strlit("  ");
        reveal_strlit(". ");
        assert(two@ =~= two_spaces());
    }
    if !span_starts_with(v, a, b, two.as_slice()) {
        return None;
    }
    let ghost r0 = line.subrange(2, line.len() as int);
    assert(r0 =~= v@.subrange(a + 2, b as int));
    let d = match find_span(v, a + 2, b, chars_of(". ").as_slice()) {
        Some(d) => d,
        None => return None,
    };
    let ghost rest = r0.subrange(d - a - 2 + 2, r0.len() as int);
    assert(rest =~= v@.subrange(d + 2, b as int));
    let (ka, kb) = trim_span(v, a + 2, d);
    assert(r0.subrange(0, d - a - 2) =~= v@.subrange(a + 2, d as int));
    let rank = match parse_u32_span(v, ka, kb) {
        Some(n) => n,
        None => return None,
    };
    let s = d + 2;
    if !span_is_ascii(v, s, b) || b - s < 12 || v[s + 3] != ' ' {
        proof {
            if b - s >= 12 {
                assert(rest[3] == v@[s + 3]);
            }
        }
        return None;
    }
    assert(rest[3] == v@[s + 3]);
    let (ca, cb) = trim_span(v, s, s + 3);
    assert(rest.subrange(0, 3) =~= v@.subrange(s as int, s + 3));
    let ghost r1 = rest.subrange(4, rest.len() as int);
    assert(r1 =~= v@.subrange(s + 4, b as int));
    let (la, lb) = trim_span(v, s + 4, s + 11);
    assert(r1.subrange(0, 7) =~= v@.subrange(s + 4, s + 11));
    let ms = chars_of("ms");
    proof {
        reveal_strlit("ms");
    }
    if !span_ends_with(v, la, lb, ms.as_slice()) || v[s + 11] != ' ' {
        proof {
            assert(r1[7] == v@[s + 11]);
        }
        return None;
    }
    assert(r1[7] == v@[s + 11]);
    assert(v@.subrange(la as int, lb as int).subrange(0, lb - la - 2) =~= v@.subrange(
        la as int,
        lb - 2,
    ));
    let latency_ms = match parse_u32_span(v, la, lb - 2) {
        Some(n) => n,
        None => return None,
    };
    let ghost r2 = r1.subrange(8, r1.len() as int);
    assert(r2 =~= v@.subrange(s + 12, b as int));
    let at = match url_start_exec(v, s + 12, b) {
        Some(at) => at,
        None => return None,
    };
    let (fa, fb) = trim_span(v, s + 12, at);
    assert(r2.subrange(0, at - s - 12) =~= v@.subrange(s + 12, at as int));
    let (ua, ub0) = trim_span(v, at, b);
    assert(r2.subrange(at - s - 12, r2.len() as int) =~= v@.subrange(at as int, b as int));
    let yours_m = chars_of("(yours)");
    proof {
        reveal_strlit("(yours)");
    }
    let yours = span_ends_with(v, ua, ub0, yours_m.as_slice());
    let ub = if yours {
        let e = trim_end_span(v, ua, ub0 - 7);
        assert(v@.subrange(ua as int, ub0 as int).subrange(0, ub0 - ua - 7) =~= v@.subrange(
            ua as int,
            ub0 - 7,
        ));
        e
    } else {
        ub0
    };
    let behind = chars_of(" behind");
    proof {
        reveal_strlit(" behind");
        reveal_strlit("?");
    }
    let q = vec!['?'];
    assert(q@ =~= "?"@);
    let freshness = if span_eq(v, fa, fb, chars_of("in sync").as_slice()) {
        Freshness::InSync
    } else if span_eq(v, fa, fb, q.as_slice()) {
        Freshness::Unknown
    } else if span_ends_with(v, fa, fb, behind.as_slice()) {
        assert(v@.subrange(fa as int, fb as int).subrange(0, fb - fa - 7) =~= v@.subrange(
            fa as int,
            fb - 7,
        ));
        Freshness::Behind(string_of(v, fa, fb - 7))
    } else {
        return None;
    };
    if span_has_char(v, ua, ub, ' ') {
        return None;
    }
    let m = Mirror {
        rank,
        country: string_of(v, ca, cb),
        latency_ms,
        freshness,
        url: string_of(v, ua, ub),
        yours,
    };
    Some(m)
}

/// Whether `s` starts with a URL scheme slacker's mirror lists use.
pub fn is_url(s: &str) -> (r: bool)
    ensures
        r == is_url_spec(s@),
{
    let v = chars_of(s);
    assert(v@.subrange(0, v@.len() as int) =~= v@);
    is_url_span(v.as_slice(), 0, v.len())
}

fn reachable_exec(v: &[char], a: usize, b: usize) -> (r: Option<(u32, u32)>)
    requires
        a <= b <= v@.len(),
    ensures
        r == reachable_of(v@.subrange(a as int, b as int)),
{
    let ghost t = v@.subrange(a as int, b as int);
    let open = vec!['('];
    assert(open@ =~= seq!['(']);
    let i = match find_span(v, a, b, open.as_slice()) {
        Some(i) => i,
        None => return None,
    };
    assert(t.subrange(i - a + 1, t.len() as int) =~= v@.subrange(i + 1, b as int));
    let tail = chars_of(" reachable)");
    proof {
        reveal_strlit(" reachable)");
        reveal_strlit(" of ");
    }
    if !span_ends_with(v, i + 1, b, tail.as_slice()) {
        return None;
    }
    let e = b - 11;
    assert(v@.subrange(i + 1, b as int).subrange(0, b - i - 1 - 11) =~= v@.subrange(
        i + 1,
        e as int,
    ));
    let j = match find_span(v, i + 1, e, chars_of(" of ").as_slice()) {
        Some(j) => j,
        None => return None,
    };
    let ghost r2 = v@.subrange(i + 1, e as int);
    assert(r2.subrange(0, j - i - 1) =~= v@.subrange(i + 1, j as int));
    assert(r2.subrange(j - i - 1 + 4, r2.len() as int) =~= v@.subrange(j + 4, e as int));
    let x = parse_u32_span(v, i + 1, j);
    let y = parse_u32_span(v, j + 4, e);
    match (x, y) {
        (Some(x), Some(y)) => Some((x, y)),
        _ => None,
    }
}

fn validated_exec(v: &[char], a: usize, b: usize) -> (r: String)
    requires
        a <= b <= v@.len(),
    ensures
        r@ == validated_of(v@.subrange(a as int, b as int)),
{
    let ghost rest = v@.subrange(a as int, b as int);
    let open = vec!['('];
    assert(open@ =~= seq!['(']);
    let close = vec![')'];
    assert(close@ =~= seq![')']);
    match find_span(v, a, b, open.as_slice()) {
        Some(i) => {
            assert(rest.subrange(i - a + 1, rest.len() as int) =~= v@.subrange(i + 1, b as int));
            if span_ends_with(v, i + 1, b, close.as_slice()) {
                assert(v@.subrange(i + 1, b as int).subrange(0, b - i - 2) =~= v@.subrange(
                    i + 1,
                    b - 1,
                ));
                string_of(v, i + 1, b - 1)
            } else {
                string_of(v, a, b)
            }
        },
        None => string_of(v, a, b),
    }
}

/// Reads `slacker find-mirror` output.
pub fn parse(text: &str) -> (out: FindMirror)
    ensures
        out@ == mirrors_spec(text@),
{
    let v = chars_of(text);
    let spans = line_spans(v.as_slice());
    let finding = chars_of("Finding the fastest up-to-date Slackware mirror");
    let probing = chars_of("probing ");
    let parallel = chars_of("mirrors in parallel ...");
    let will_not = chars_of("(slacker will not change your mirror automatically)");
    let to_use = chars_of("to use it, make this the single active line in your `mirrors` file:");
    let validated = chars_of("\u{2713} freshness validated against upstream ");
    let unreachable = chars_of("upstream unreachable");
    let top = chars_of("Top ");
    let mirrors_open = chars_of(" mirrors: (");
    let fastest = chars_of("Fastest ");
    let in_file = chars_of("in your `mirrors` file:");
    let fastest_colon = chars_of("Fastest: ");
    let indent = chars_of("    ");
    let mut out = FindMirror {
        validated: None,
        upstream_unreachable: false,
        reachable: None,
        ranked: Vec::new(),
        suggested: Vec::new(),
        unrecognized: Vec::new(),
    };
    let mut in_sugg = false;
    let ghost ls = span_texts(v@, spans@);
    let mut k: usize = 0;
    proof {
        assert(ls.take(0) =~= Seq::<Seq<char>>::empty());
        assert(out@.ranked =~= Seq::<MirrorV>::empty());
        assert(out@.suggested =~= Seq::<Seq<char>>::empty());
        assert(out@.unrecognized =~= Seq::<Seq<char>>::empty());
    }
    while k < spans.len()
        invariant
            k <= spans@.len(),
            v@ == text@,
            spans_in(v@, spans@),
            ls == span_texts(v@, spans@),
            ls == lines(text@),
            finding@ == "Finding the fastest up-to-date Slackware mirror"@,
            probing@ == "probing "@,
            parallel@ == "mirrors in parallel ..."@,
            will_not@ == "(slacker will not change your mirror automatically)"@,
            to_use@ == "to use it, make this the single active line in your `mirrors` file:"@,
            validated@ == validated_prefix(),
            unreachable@ == "upstream unreachable"@,
            top@ == "Top "@,
            mirrors_open@ == " mirrors: ("@,
            fastest@ == "Fastest "@,
            in_file@ == "in your `mirrors` file:"@,
            fastest_colon@ == "Fastest: "@,
            indent@ == "    "@,
            (out@, in_sugg) == mirrors_of(ls.take(k as int)),
        decreases spans.len() - k,
    {
        let (a, b) = spans[k];
        assert(ls[k as int] == v@.subrange(a as int, b as int));
        assert(ls.take(k + 1).drop_last() =~= ls.take(k as int));
        let ghost prev = out@;
        let (ta, tb) = trim_span(v.as_slice(), a, b);
        let ghost t = v@.subrange(ta as int, tb as int);
        let vs = v.as_slice();
        if ta == tb || span_eq(vs, ta, tb, finding.as_slice()) || (span_starts_with(
            vs,
            ta,
            tb,
            probing.as_slice(),
        ) && span_ends_with(vs, ta, tb, parallel.as_slice())) || span_eq(
            vs,
            ta,
            tb,
            will_not.as_slice(),
        ) || span_eq(vs, ta, tb, to_use.as_slice()) {
        } else if span_starts_with(vs, ta, tb, validated.as_slice()) {
            let d = validated_exec(vs, ta + validated.len(), tb);
            assert(t.subrange(validated@.len() as int, t.len() as int) =~= v@.subrange(
                ta + validated@.len(),
                tb as int,
            ));
            out.validated = Some(d);
        } else if span_starts_with(vs, ta, tb, unreachable.as_slice()) {
            out.upstream_unreachable = true;
        } else if span_starts_with(vs, ta, tb, top.as_slice()) && find_span(
            vs,
            ta,
            tb,
            mirrors_open.as_slice(),
        ).is_some() {
            out.reachable = reachable_exec(vs, ta, tb);
        } else if (span_starts_with(vs, ta, tb, fastest.as_slice()) && span_ends_with(
            vs,
            ta,
            tb,
            in_file.as_slice(),
        )) || span_starts_with(vs, ta, tb, fastest_colon.as_slice()) {
            in_sugg = true;
        } else if in_sugg && span_starts_with(vs, a, b, indent.as_slice()) && is_url_span(vs, ta, tb)
            && !span_has_char(vs, ta, tb, ' ') {
            push_string(&mut out.suggested, string_of(vs, ta, tb));
        } else {
            match row_exec(vs, a, b) {
                Some(m) => {
                    let ghost mv = m@;
                    out.ranked.push(m);
                    assert(out@.ranked =~= prev.ranked.push(mv));
                },
                None => {
                    push_string(&mut out.unrecognized, string_of(vs, a, b));
                },
            }
        }
        k = k + 1;
    }
    assert(ls.take(k as int) =~= ls);
    out
}

fn is_url_span(v: &[char], a: usize, b: usize) -> (r: bool)
    requires
        a <= b <= v@.len(),
    ensures
        r == is_url_spec(v@.subrange(a as int, b as int)),
{
    span_starts_with(v, a, b, chars_of("https://").as_slice()) || span_starts_with(
        v,
        a,
        b,
        chars_of("http://").as_slice(),
    ) || span_starts_with(v, a, b, chars_of("file://").as_slice())
}

/// A stretch of `s` that is `w` shows that `s` contains `w`.
proof fn lemma_found_at(s: Seq<char>, a: int, w: Seq<char>)
    requires
        0 <= a,
        a + w.len() <= s.len(),
        s.subrange(a, a + w.len()) == w,
    ensures
        contains(s, w),
{
    assert(crate::text::matches_at(s, w, a));
    crate::text::lemma_find_from(s, w, 0);
}

/// The trimmed text is a stretch of the text.
proof fn lemma_trim_is_stretch(x: Seq<char>) -> (a: int)
    ensures
        0 <= a,
        a + trim(x).len() <= x.len(),
        x.subrange(a, a + trim(x).len()) == trim(x),
{
    crate::text::lemma_lead_bounds(x, 0);
    let ts = crate::text::trim_start(x);
    crate::text::lemma_trail_bounds(ts, ts.len() as int);
    let la = crate::text::lead_from(x, 0);
    assert(x.subrange(la, la + trim(x).len()) =~= trim(x));
    la
}

/// A mirror's freshness is what its row prints: an in-sync mirror's row
/// reads `in sync`, one whose freshness is unknown reads `?`, and one that
/// is behind reads how far behind, then ` behind`.
pub proof fn mirror_rows_show_their_freshness(line: Seq<char>)
    ensures
        row_of(line) matches Some(m) ==> match m.freshness {
            FreshnessV::InSync => contains(line, "in sync"@),
            FreshnessV::Unknown => contains(line, "?"@),
            FreshnessV::Behind(d) => contains(line, d + " behind"@),
        },
{
    reveal_strlit("in sync");
    reveal_strlit("?");
    reveal_strlit(" behind");
    reveal_strlit(". ");
    if let Some(m) = row_of(line) {
        let r0 = line.subrange(2, line.len() as int);
        crate::text::lemma_find_from(r0, ". "@, 0);
        let d = find(r0, ". "@)->0;
        let rest = r0.subrange(d + 2, r0.len() as int);
        let r1 = rest.subrange(4, rest.len() as int);
        let r2 = r1.subrange(8, r1.len() as int);
        let o = 2 + d + 2 + 4 + 8;
        assert(line.len() >= 2);
        assert(0 <= d && d + 2 <= r0.len());
        assert(rest.len() >= 12);
        assert(r2 =~= line.subrange(o, line.len() as int));
        let at = url_start(r2)->0;
        assert(0 <= at <= r2.len()) by {
            crate::text::lemma_find_from(r2, "https://"@, 0);
            crate::text::lemma_find_from(r2, "http://"@, 0);
            crate::text::lemma_find_from(r2, "file://"@, 0);
        }
        let head = r2.subrange(0, at);
        let fresh = trim(head);
        let a = lemma_trim_is_stretch(head);
        assert(line.subrange(o + a, o + a + fresh.len()) =~= head.subrange(a, a + fresh.len()));
        lemma_found_at(line, o + a, fresh);
        if fresh != "in sync"@ && fresh != "?"@ {
            assert(fresh =~= fresh.subrange(0, fresh.len() - 7) + " behind"@);
        }
    }
}

/// `n` spaces.
pub open spec fn pad(n: nat) -> Seq<char> {
    Seq::new(n, |i: int| ' ')
}

proof fn lemma_lead_over_pad(x: Seq<char>, a: int, i: int)
    requires
        0 <= i <= a < x.len(),
        forall|j: int| 0 <= j < a ==> x[j] == ' ',
        !crate::text::is_ws(x[a]),
    ensures
        crate::text::lead_from(x, i) == a,
    decreases a - i,
{
    if i < a {
        assert(x[i] == ' ');
        lemma_lead_over_pad(x, a, i + 1);
    }
}

proof fn lemma_trail_over_pad(y: Seq<char>, e: int, j: int)
    requires
        0 < e <= j <= y.len(),
        forall|k: int| e <= k < y.len() ==> y[k] == ' ',
        !crate::text::is_ws(y[e - 1]),
    ensures
        crate::text::trail_from(y, j) == e,
    decreases j - e,
{
    if j > e {
        assert(y[j - 1] == ' ');
        lemma_trail_over_pad(y, e, j - 1);
    }
}

/// Padding on either side of a word is what trimming removes.
proof fn lemma_trim_padded(a: nat, w: Seq<char>, b: nat)
    requires
        w.len() > 0,
        !crate::text::is_ws(w[0]),
        !crate::text::is_ws(w[w.len() - 1]),
    ensures
        trim(pad(a) + w + pad(b)) == w,
{
    let x = pad(a) + w + pad(b);
    assert forall|j: int| 0 <= j < a implies x[j] == ' ' by {}
    assert(x[a as int] == w[0]);
    lemma_lead_over_pad(x, a as int, 0);
    let ts = crate::text::trim_start(x);
    assert(ts =~= w + pad(b));
    assert forall|k: int| w.len() <= k < ts.len() implies ts[k] == ' ' by {}
    assert(ts[w.len() - 1] == w[w.len() - 1]);
    lemma_trail_over_pad(ts, w.len() as int, ts.len() as int);
    assert(trim(x) =~= w);
}

/// A pattern that holds a `:` and no space cannot start in text without a
/// `:` that is followed by a run of spaces.
proof fn lemma_no_scheme_before(r2: Seq<char>, f: int, at: int, p: Seq<char>, ci: int)
    requires
        0 <= f < at <= r2.len(),
        forall|j: int| 0 <= j < f ==> r2[j] != ':',
        forall|j: int| f <= j < at ==> r2[j] == ' ',
        0 <= ci < p.len(),
        p[ci] == ':',
        forall|j: int| 0 <= j < p.len() ==> p[j] != ' ',
    ensures
        forall|m: int| 0 <= m < at ==> !crate::text::matches_at(r2, p, m),
{
    assert forall|m: int| 0 <= m < at implies !crate::text::matches_at(r2, p, m) by {
        if crate::text::matches_at(r2, p, m) {
            let s = r2.subrange(m, m + p.len());
            if m >= f {
                assert(s[0] == r2[m]);
            } else if m + ci < f {
                assert(s[ci] == r2[m + ci]);
            } else {
                assert(s[f - m] == r2[f]);
            }
        }
    }
}

/// Where a URL starts after a freshness word and padding.
proof fn lemma_url_start_at(r2: Seq<char>, f: int, at: int)
    requires
        0 <= f < at <= r2.len(),
        forall|j: int| 0 <= j < f ==> r2[j] != ':',
        forall|j: int| f <= j < at ==> r2[j] == ' ',
        is_url_spec(r2.subrange(at, r2.len() as int)),
    ensures
        url_start(r2) == Some(at),
{
    reveal_strlit("https://");
    reveal_strlit("http://");
    reveal_strlit("file://");
    let p1 = "https://"@;
    let p2 = "http://"@;
    let p3 = "file://"@;
    lemma_no_scheme_before(r2, f, at, p1, 5);
    lemma_no_scheme_before(r2, f, at, p2, 4);
    lemma_no_scheme_before(r2, f, at, p3, 4);
    crate::text::lemma_find_from(r2, p1, 0);
    crate::text::lemma_find_from(r2, p2, 0);
    crate::text::lemma_find_from(r2, p3, 0);
    let u = r2.subrange(at, r2.len() as int);
    if starts_with(u, p1) {
        assert(r2.subrange(at, at + 8) =~= u.subrange(0, 8));
        crate::text::lemma_find_unique(r2, p1, 0, at);
    } else if starts_with(u, p2) {
        assert(r2.subrange(at, at + 7) =~= u.subrange(0, 7));
        crate::text::lemma_find_unique(r2, p2, 0, at);
    } else {
        assert(r2.subrange(at, at + 7) =~= u.subrange(0, 7));
        crate::text::lemma_find_unique(r2, p3, 0, at);
    }
}

/// A ranked row as slacker prints it: the rank after any padding, a dot,
/// the country padded to three columns, the latency right-aligned in seven
/// columns ending in `ms`, the freshness, padding, and the URL.
pub open spec fn mirror_row(
    rank_pad: nat,
    rank: u32,
    country: Seq<char>,
    latency: u32,
    fresh: Seq<char>,
    gap: nat,
    url: Seq<char>,
) -> Seq<char> {
    seq![' ', ' '] + pad(rank_pad) + dec(rank as nat) + seq!['.', ' '] + country + pad(
        (3 - country.len()) as nat,
    ) + seq![' '] + pad((5 - dec(latency as nat).len()) as nat) + dec(latency as nat) + seq![
        'm',
        's',
    ] + seq![' '] + fresh + pad(gap) + url
}

/// The parts of a row are ones slacker prints: a country code of one to
/// three letters, a latency of at most five digits, a freshness word and a
/// URL with no white space in them.
pub open spec fn row_parts_ok(country: Seq<char>, latency: u32, fresh: Seq<char>, gap: nat, url: Seq<char>) -> bool {
    &&& 1 <= country.len() <= 3
    &&& forall|i: int| 0 <= i < country.len() ==> (#[trigger] country[i]) <= '\u{7F}' && !crate::text::is_ws(country[i])
    &&& dec(latency as nat).len() <= 5
    &&& fresh.len() > 0
    &&& forall|i: int| 0 <= i < fresh.len() ==> (#[trigger] fresh[i]) <= '\u{7F}' && fresh[i] != ':'
    &&& !crate::text::is_ws(fresh[0]) && !crate::text::is_ws(fresh[fresh.len() - 1])
    &&& gap >= 1
    &&& forall|i: int| 0 <= i < url.len() ==> (#[trigger] url[i]) <= '\u{7F}' && !crate::text::is_ws(url[i])
    &&& is_url_spec(url)
    &&& !ends_with(url, "(yours)"@)
}

proof fn lemma_dec_plain(n: nat)
    ensures
        dec(n).len() > 0,
        forall|i: int| 0 <= i < dec(n).len() ==> (#[trigger] dec(n)[i]) <= '\u{7F}' && !crate::text::is_ws(dec(n)[i])
            && dec(n)[i] != '.',
{
    crate::text::lemma_dec_reads_back(n);
    assert forall|i: int| 0 <= i < dec(n).len() implies (#[trigger] dec(n)[i]) <= '\u{7F}'
        && !crate::text::is_ws(dec(n)[i]) && dec(n)[i] != '.' by {
        assert(crate::text::is_digit(dec(n)[i]));
    }
}

proof fn lemma_row_rank(rank_pad: nat, dr: Seq<char>, rest: Seq<char>)
    requires
        dr.len() > 0,
        forall|i: int| 0 <= i < dr.len() ==> !crate::text::is_ws(#[trigger] dr[i]) && dr[i] != '.',
    ensures
        ({
            let r0 = pad(rank_pad) + dr + seq!['.', ' '] + rest;
            let d = (rank_pad + dr.len()) as int;
            &&& find(r0, ". "@) == Some(d)
            &&& trim(r0.subrange(0, d)) == dr
            &&& r0.subrange(d + 2, r0.len() as int) == rest
        }),
{
    reveal_strlit(". ");
    let r0 = pad(rank_pad) + dr + seq!['.', ' '] + rest;
    let d = (rank_pad + dr.len()) as int;
    assert(r0.subrange(d, d + 2) =~= ". "@);
    assert forall|m: int| 0 <= m < d implies !crate::text::matches_at(r0, ". "@, m) by {
        if crate::text::matches_at(r0, ". "@, m) {
            assert(r0.subrange(m, m + 2)[0] == r0[m]);
            if m >= rank_pad {
                assert(r0[m] == dr[m - rank_pad]);
            }
        }
    }
    crate::text::lemma_find_unique(r0, ". "@, 0, d);
    assert(r0.subrange(0, d) =~= pad(rank_pad) + dr + pad(0));
    lemma_trim_padded(rank_pad, dr, 0);
    assert(r0.subrange(d + 2, r0.len() as int) =~= rest);
}

proof fn lemma_row_columns(country: Seq<char>, dl: Seq<char>, r2: Seq<char>)
    requires
        1 <= country.len() <= 3,
        forall|i: int| 0 <= i < country.len() ==> (#[trigger] country[i]) <= '\u{7F}' && !crate::text::is_ws(country[i]),
        1 <= dl.len() <= 5,
        forall|i: int| 0 <= i < dl.len() ==> (#[trigger] dl[i]) <= '\u{7F}' && !crate::text::is_ws(dl[i]),
        is_ascii_seq(r2),
    ensures
        ({
            let rest = country + pad((3 - country.len()) as nat) + seq![' '] + pad((5 - dl.len()) as nat)
                + dl + seq!['m', 's'] + seq![' '] + r2;
            let r1 = rest.subrange(4, rest.len() as int);
            let latency = trim(r1.subrange(0, 7));
            &&& is_ascii_seq(rest)
            &&& rest.len() >= 12
            &&& rest[3] == ' '
            &&& trim(rest.subrange(0, 3)) == country
            &&& ends_with(latency, "ms"@)
            &&& latency.subrange(0, latency.len() - 2) == dl
            &&& r1[7] == ' '
            &&& r1.subrange(8, r1.len() as int) == r2
        }),
{
    reveal_strlit("ms");
    let cpad = pad((3 - country.len()) as nat);
    let lpad = pad((5 - dl.len()) as nat);
    let rest = country + cpad + seq![' '] + lpad + dl + seq!['m', 's'] + seq![' '] + r2;
    assert(is_ascii_seq(rest)) by {
        assert forall|i: int| 0 <= i < rest.len() implies rest[i] <= '\u{7F}' by {
            let a = country.len() + cpad.len() + 1 + lpad.len();
            if i < country.len() {
            } else if i >= a + dl.len() + 3 {
                assert(rest[i] == r2[i - a - dl.len() - 3]);
            } else if a <= i < a + dl.len() {
                assert(rest[i] == dl[i - a]);
            }
        }
    }
    assert(rest[3] == ' ');
    assert(rest.subrange(0, 3) =~= pad(0) + country + cpad);
    lemma_trim_padded(0, country, (3 - country.len()) as nat);
    let r1 = rest.subrange(4, rest.len() as int);
    let lat = dl + seq!['m', 's'];
    assert(r1.subrange(0, 7) =~= lpad + lat + pad(0));
    lemma_trim_padded((5 - dl.len()) as nat, lat, 0);
    assert(lat.subrange(lat.len() - 2, lat.len() as int) =~= "ms"@);
    assert(lat.subrange(0, lat.len() - 2) =~= dl);
    assert(r1[7] == ' ');
    assert(r1.subrange(8, r1.len() as int) =~= r2);
}

proof fn lemma_row_tail(fresh: Seq<char>, gap: nat, url: Seq<char>)
    requires
        fresh.len() > 0,
        forall|i: int| 0 <= i < fresh.len() ==> (#[trigger] fresh[i]) <= '\u{7F}' && fresh[i] != ':',
        !crate::text::is_ws(fresh[0]) && !crate::text::is_ws(fresh[fresh.len() - 1]),
        gap >= 1,
        forall|i: int| 0 <= i < url.len() ==> (#[trigger] url[i]) <= '\u{7F}' && !crate::text::is_ws(url[i]),
        is_url_spec(url),
    ensures
        ({
            let r2 = fresh + pad(gap) + url;
            let at = (fresh.len() + gap) as int;
            &&& is_ascii_seq(r2)
            &&& url_start(r2) == Some(at)
            &&& trim(r2.subrange(0, at)) == fresh
            &&& trim(r2.subrange(at, r2.len() as int)) == url
            &&& !contains(url, seq![' '])
        }),
{
    let r2 = fresh + pad(gap) + url;
    let at = (fresh.len() + gap) as int;
    assert(is_ascii_seq(r2)) by {
        assert forall|i: int| 0 <= i < r2.len() implies r2[i] <= '\u{7F}' by {
            if i >= at {
                assert(r2[i] == url[i - at]);
            } else if i < fresh.len() {
                assert(r2[i] == fresh[i]);
            }
        }
    }
    assert(r2.subrange(at, r2.len() as int) =~= url);
    assert forall|j: int| 0 <= j < fresh.len() implies r2[j] != ':' by {
        assert(r2[j] == fresh[j]);
    }
    lemma_url_start_at(r2, fresh.len() as int, at);
    assert(r2.subrange(0, at) =~= pad(0) + fresh + pad(gap));
    lemma_trim_padded(0, fresh, gap);
    assert(pad(0) + url + pad(0) =~= url);
    if url.len() > 0 {
        lemma_trim_padded(0, url, 0);
    }
    crate::text::lemma_find_from(url, seq![' '], 0);
    if let Some(j) = find(url, seq![' ']) {
        assert(url.subrange(j, j + 1)[0] == url[j]);
    }
}

#[verifier::rlimit(40)]
proof fn lemma_mirror_row(
    rank_pad: nat,
    rank: u32,
    country: Seq<char>,
    latency: u32,
    fresh: Seq<char>,
    gap: nat,
    url: Seq<char>,
)
    requires
        row_parts_ok(country, latency, fresh, gap, url),
    ensures
        ({
            let fr = if fresh == "in sync"@ {
                Some(FreshnessV::InSync)
            } else if fresh == "?"@ {
                Some(FreshnessV::Unknown)
            } else if ends_with(fresh, " behind"@) {
                Some(FreshnessV::Behind(fresh.subrange(0, fresh.len() - 7)))
            } else {
                None
            };
            row_of(mirror_row(rank_pad, rank, country, latency, fresh, gap, url)) == match fr {
                Some(f) => Some(
                    MirrorV { rank, country, latency_ms: latency, freshness: f, url, yours: false },
                ),
                None => None,
            }
        }),
{
    let line = mirror_row(rank_pad, rank, country, latency, fresh, gap, url);
    let dr = dec(rank as nat);
    let dl = dec(latency as nat);
    lemma_dec_plain(rank as nat);
    lemma_dec_plain(latency as nat);
    crate::text::lemma_parse_dec(rank);
    crate::text::lemma_parse_dec(latency);
    let r2 = fresh + pad(gap) + url;
    lemma_row_tail(fresh, gap, url);
    lemma_row_columns(country, dl, r2);
    let rest = country + pad((3 - country.len()) as nat) + seq![' '] + pad((5 - dl.len()) as nat)
        + dl + seq!['m', 's'] + seq![' '] + r2;
    lemma_row_rank(rank_pad, dr, rest);
    let r0 = pad(rank_pad) + dr + seq!['.', ' '] + rest;
    assert(line =~= seq![' ', ' '] + r0);
    assert(line.subrange(0, 2) =~= two_spaces());
    assert(line.subrange(2, line.len() as int) =~= r0);
}

/// A ranked row as slacker prints it reads back as the mirror it describes:
/// its rank, country, latency and URL, and the freshness its freshness
/// column names: `in sync` is in sync, `?` is unknown, and `D behind` is
/// behind by `D`.
pub proof fn mirror_rows_read_back(
    rank_pad: nat,
    rank: u32,
    country: Seq<char>,
    latency: u32,
    behind: Seq<char>,
    gap: nat,
    url: Seq<char>,
)
    requires
        row_parts_ok(country, latency, "in sync"@, gap, url),
        behind.len() > 0,
        !crate::text::is_ws(behind[0]),
        forall|i: int| 0 <= i < behind.len() ==> (#[trigger] behind[i]) <= '\u{7F}' && behind[i] != ':',
    ensures
        row_of(mirror_row(rank_pad, rank, country, latency, "in sync"@, gap, url)) == Some(
            MirrorV { rank, country, latency_ms: latency, freshness: FreshnessV::InSync, url, yours: false },
        ),
        row_of(mirror_row(rank_pad, rank, country, latency, "?"@, gap, url)) == Some(
            MirrorV { rank, country, latency_ms: latency, freshness: FreshnessV::Unknown, url, yours: false },
        ),
        row_of(mirror_row(rank_pad, rank, country, latency, behind + " behind"@, gap, url)) == Some(
            MirrorV {
                rank,
                country,
                latency_ms: latency,
                freshness: FreshnessV::Behind(behind),
                url,
                yours: false,
            },
        ),
{
    reveal_strlit("in sync");
    reveal_strlit("?");
    reveal_strlit(" behind");
    lemma_mirror_row(rank_pad, rank, country, latency, "in sync"@, gap, url);
    lemma_mirror_row(rank_pad, rank, country, latency, "?"@, gap, url);
    let fb = behind + " behind"@;
    assert(fb.len() == behind.len() + 7);
    assert(fb[0] == behind[0]);
    assert(fb[fb.len() - 1] == 'd');
    assert forall|i: int| 0 <= i < fb.len() implies (#[trigger] fb[i]) <= '\u{7F}' && fb[i] != ':' by {
        if i < behind.len() {
            assert(fb[i] == behind[i]);
        }
    }
    assert(fb != "in sync"@) by {
        assert(fb[fb.len() - 1] != "in sync"@[6]);
    }
    assert(fb != "?"@);
    assert(fb.subrange(fb.len() - 7, fb.len() as int) =~= " behind"@);
    assert(fb.subrange(0, fb.len() - 7) =~= behind);
    lemma_mirror_row(rank_pad, rank, country, latency, fb, gap, url);
}

/// What the page offers as lines for the `mirrors` file.
#[derive(Debug, PartialEq)]
pub enum Suggestions {
    /// Mirrors slacker found in sync with upstream, fastest first.
    InSync(Vec<String>),
    /// Upstream could not be reached: slacker's own proposals, unchecked.
    Unchecked(Vec<String>),
    /// Freshness was checked and none of the ranked mirrors is in sync.
    NoneInSync,
}

pub enum SuggestionsV {
    InSync(Seq<Seq<char>>),
    Unchecked(Seq<Seq<char>>),
    NoneInSync,
}

impl View for Suggestions {
    type V = SuggestionsV;

    open spec fn view(&self) -> SuggestionsV {
        match self {
            Suggestions::InSync(v) => SuggestionsV::InSync(strs(v@)),
            Suggestions::Unchecked(v) => SuggestionsV::Unchecked(strs(v@)),
            Suggestions::NoneInSync => SuggestionsV::NoneInSync,
        }
    }
}

/// A mirror's base URL as the start of a `mirrors` line: trailing slashes
/// dropped, then one slash.
pub open spec fn base_of(url: Seq<char>) -> Seq<char> {
    crate::text::trim_end_char(url, '/').push('/')
}

/// The release part of `line` after the base of the first mirror, from the
/// `j`-th on, whose base it starts with (and is longer than).
pub open spec fn suffix_in(line: Seq<char>, ranked: Seq<MirrorV>, j: int) -> Option<Seq<char>>
    decreases ranked.len() - j,
{
    if j < 0 || j >= ranked.len() {
        None
    } else {
        let b = base_of(ranked[j].url);
        if starts_with(line, b) && line.len() > b.len() {
            Some(line.subrange(b.len() as int, line.len() as int))
        } else {
            suffix_in(line, ranked, j + 1)
        }
    }
}

/// The release part of the first of slacker's proposals, from the `i`-th on,
/// that extends a ranked mirror's base.
pub open spec fn suffix_from(sugg: Seq<Seq<char>>, ranked: Seq<MirrorV>, i: int) -> Option<
    Seq<char>,
>
    decreases sugg.len() - i,
{
    if i < 0 || i >= sugg.len() {
        None
    } else {
        match suffix_in(sugg[i], ranked, 0) {
            Some(s) => Some(s),
            None => suffix_from(sugg, ranked, i + 1),
        }
    }
}

/// The lines for the in-sync mirrors among the first `n` ranked, at most
/// `limit` of them.
pub open spec fn sync_lines(ranked: Seq<MirrorV>, n: int, suffix: Seq<char>, limit: nat) -> Seq<
    Seq<char>,
>
    decreases n,
{
    if n <= 0 {
        Seq::empty()
    } else {
        let prev = sync_lines(ranked, n - 1, suffix, limit);
        if ranked[n - 1].freshness is InSync && prev.len() < limit {
            prev.push(base_of(ranked[n - 1].url) + suffix)
        } else {
            prev
        }
    }
}

/// What the page suggests for the `mirrors` file.
pub open spec fn suggestions_spec(f: FindMirrorV, limit: nat) -> SuggestionsV {
    if f.validated is None {
        SuggestionsV::Unchecked(f.suggested)
    } else {
        match suffix_from(f.suggested, f.ranked, 0) {
            None => SuggestionsV::NoneInSync,
            Some(suffix) => {
                let lines = sync_lines(f.ranked, f.ranked.len() as int, suffix, limit);
                if lines.len() == 0 {
                    SuggestionsV::NoneInSync
                } else {
                    SuggestionsV::InSync(lines)
                }
            },
        }
    }
}

proof fn lemma_sync_lines(ranked: Seq<MirrorV>, n: int, suffix: Seq<char>, limit: nat)
    requires
        n <= ranked.len(),
    ensures
        sync_lines(ranked, n, suffix, limit).len() <= limit,
        forall|i: int|
            #![trigger sync_lines(ranked, n, suffix, limit)[i]]
            0 <= i < sync_lines(ranked, n, suffix, limit).len() ==> exists|j: int|
                0 <= j < n && ranked[j].freshness is InSync && sync_lines(ranked, n, suffix, limit)[i]
                    == base_of(ranked[j].url) + suffix,
    decreases n,
{
    if n > 0 {
        lemma_sync_lines(ranked, n - 1, suffix, limit);
        let prev = sync_lines(ranked, n - 1, suffix, limit);
        let cur = sync_lines(ranked, n, suffix, limit);
        assert forall|i: int| 0 <= i < cur.len() implies exists|j: int|
            0 <= j < n && ranked[j].freshness is InSync && #[trigger] cur[i] == base_of(ranked[j].url)
                + suffix by {
            if i < prev.len() {
                assert(cur[i] == prev[i]);
                let j = choose|j: int|
                    0 <= j < n - 1 && ranked[j].freshness is InSync && prev[i] == base_of(
                        ranked[j].url,
                    ) + suffix;
                assert(0 <= j < n && ranked[j].freshness is InSync);
            } else {
                assert(cur[i] == base_of(ranked[n - 1].url) + suffix);
            }
        }
    }
}

/// Mirrors behind upstream are never suggested. When freshness was checked,
/// each suggested line is the base of a ranked mirror that is in sync,
/// followed by the release part of slacker's own proposals, and there are
/// at most `limit` of them. Without a freshness check slacker's own
/// proposals are passed on, marked as unchecked.
pub proof fn stale_mirrors_are_never_suggested(f: FindMirrorV, limit: nat)
    ensures
        suggestions_spec(f, limit) matches SuggestionsV::InSync(lines) ==> {
            &&& f.validated is Some
            &&& lines.len() <= limit
            &&& forall|i: int|
                #![trigger lines[i]]
                0 <= i < lines.len() ==> exists|j: int|
                    0 <= j < f.ranked.len() && f.ranked[j].freshness is InSync && lines[i]
                        == base_of(f.ranked[j].url) + suffix_from(f.suggested, f.ranked, 0)->0
        },
        suggestions_spec(f, limit) is Unchecked <==> f.validated is None,
{
    if f.validated is Some {
        if let Some(sfx) = suffix_from(f.suggested, f.ranked, 0) {
            let n = f.ranked.len() as int;
            lemma_sync_lines(f.ranked, n, sfx, limit);
            let lines = sync_lines(f.ranked, n, sfx, limit);
            assert forall|i: int| 0 <= i < lines.len() implies exists|j: int|
                0 <= j < f.ranked.len() && f.ranked[j].freshness is InSync && #[trigger] lines[i]
                    == base_of(f.ranked[j].url) + sfx by {
                let j = choose|j: int|
                    0 <= j < n && f.ranked[j].freshness is InSync && lines[i] == base_of(
                        f.ranked[j].url,
                    ) + sfx;
                assert(0 <= j < f.ranked.len());
            }
        }
    }
}

/// The ranked mirrors among the first `n` that are in sync, in rank order.
pub open spec fn in_sync_mirrors(ranked: Seq<MirrorV>, n: int) -> Seq<MirrorV>
    decreases n,
{
    if n <= 0 {
        Seq::empty()
    } else {
        let prev = in_sync_mirrors(ranked, n - 1);
        if ranked[n - 1].freshness is InSync {
            prev.push(ranked[n - 1])
        } else {
            prev
        }
    }
}

pub open spec fn min_nat(a: nat, b: nat) -> nat {
    if a <= b {
        a
    } else {
        b
    }
}

proof fn lemma_sync_lines_are_first(ranked: Seq<MirrorV>, n: int, suffix: Seq<char>, limit: nat)
    requires
        0 <= n <= ranked.len(),
    ensures
        ({
            let ms = in_sync_mirrors(ranked, n);
            let lines = sync_lines(ranked, n, suffix, limit);
            &&& lines.len() == min_nat(limit, ms.len())
            &&& forall|i: int| 0 <= i < lines.len() ==> #[trigger] lines[i] == base_of(ms[i].url) + suffix
            &&& forall|i: int| 0 <= i < ms.len() ==> (#[trigger] ms[i]).freshness is InSync
        }),
    decreases n,
{
    if n > 0 {
        lemma_sync_lines_are_first(ranked, n - 1, suffix, limit);
        let pm = in_sync_mirrors(ranked, n - 1);
        let ms = in_sync_mirrors(ranked, n);
        let prev = sync_lines(ranked, n - 1, suffix, limit);
        let lines = sync_lines(ranked, n, suffix, limit);
        assert forall|i: int| 0 <= i < lines.len() implies #[trigger] lines[i] == base_of(ms[i].url)
            + suffix by {
            if i < prev.len() {
                assert(lines[i] == prev[i]);
                assert(ms[i] == pm[i]);
            }
        }
        assert forall|i: int| 0 <= i < ms.len() implies (#[trigger] ms[i]).freshness is InSync by {
            if i < pm.len() {
                assert(ms[i] == pm[i]);
            }
        }
    }
}

/// When freshness was checked, what is offered is the in-sync mirrors in
/// rank order, the first `limit` of them: each line is a mirror's base URL
/// followed by the release part of slacker's own proposals, so a mirror
/// that is behind is never offered. None is offered only when no mirror is
/// in sync, when the limit is zero, or when no proposal extends a ranked
/// mirror's URL; slacker's own proposals come back unchecked only when
/// freshness was not checked.
pub proof fn suggestions_are_the_first_in_sync_mirrors(f: FindMirrorV, limit: nat)
    ensures
        ({
            let ms = in_sync_mirrors(f.ranked, f.ranked.len() as int);
            let sfx = suffix_from(f.suggested, f.ranked, 0);
            &&& suggestions_spec(f, limit) is Unchecked <==> f.validated is None
            &&& forall|i: int| 0 <= i < ms.len() ==> (#[trigger] ms[i]).freshness is InSync
            &&& suggestions_spec(f, limit) matches SuggestionsV::InSync(lines) ==> {
                &&& sfx is Some
                &&& lines.len() == min_nat(limit, ms.len())
                &&& lines.len() >= 1
                &&& forall|i: int|
                    0 <= i < lines.len() ==> #[trigger] lines[i] == base_of(ms[i].url) + sfx->0
            }
            &&& suggestions_spec(f, limit) is NoneInSync <==> (f.validated is Some && (sfx is None
                || limit == 0 || ms.len() == 0))
        }),
{
    let n = f.ranked.len() as int;
    match suffix_from(f.suggested, f.ranked, 0) {
        Some(s) => lemma_sync_lines_are_first(f.ranked, n, s, limit),
        None => lemma_sync_lines_are_first(f.ranked, n, Seq::empty(), limit),
    }
}

fn base_exec(url: &String) -> (r: Vec<char>)
    ensures
        r@ == base_of(url@),
{
    let u = chars_of(url.as_str());
    let mut b = crate::text::trim_end_char_vec(&u, '/');
    b.push('/');
    b
}

fn suffix_in_exec(line: &Vec<char>, ranked: &Vec<Mirror>) -> (r: Option<Vec<char>>)
    ensures
        r matches Some(x) ==> suffix_in(line@, ranked@.map_values(|m: Mirror| m@), 0) == Some(
            x@,
        ),
        r is None ==> suffix_in(line@, ranked@.map_values(|m: Mirror| m@), 0) is None,
{
    let ghost rv = ranked@.map_values(|m: Mirror| m@);
    let mut j: usize = 0;
    while j < ranked.len()
        invariant
            j <= ranked@.len(),
            rv == ranked@.map_values(|m: Mirror| m@),
            suffix_in(line@, rv, 0) == suffix_in(line@, rv, j as int),
        decreases ranked.len() - j,
    {
        let b = base_exec(&ranked[j].url);
        assert(rv[j as int].url == ranked@[j as int].url@);
        assert(line@.subrange(0, line@.len() as int) =~= line@);
        if span_starts_with(line.as_slice(), 0, line.len(), b.as_slice()) && line.len() > b.len() {
            let mut out: Vec<char> = Vec::new();
            let mut k = b.len();
            while k < line.len()
                invariant
                    b@.len() <= k <= line@.len(),
                    out@ == line@.subrange(b@.len() as int, k as int),
                decreases line.len() - k,
            {
                out.push(line[k]);
                assert(out@ =~= line@.subrange(b@.len() as int, k + 1));
                k = k + 1;
            }
            return Some(out);
        }
        j = j + 1;
    }
    None
}

fn suffix_from_exec(f: &FindMirror) -> (r: Option<Vec<char>>)
    ensures
        r matches Some(x) ==> suffix_from(f@.suggested, f@.ranked, 0) == Some(x@),
        r is None ==> suffix_from(f@.suggested, f@.ranked, 0) is None,
{
    let ghost fv = f@;
    let mut i: usize = 0;
    while i < f.suggested.len()
        invariant
            i <= f.suggested@.len(),
            fv == f@,
            suffix_from(fv.suggested, fv.ranked, 0) == suffix_from(fv.suggested, fv.ranked, i as int),
        decreases f.suggested.len() - i,
    {
        let line = chars_of(f.suggested[i].as_str());
        assert(fv.suggested[i as int] == f.suggested@[i as int]@);
        match suffix_in_exec(&line, &f.ranked) {
            Some(s) => {
                return Some(s);
            },
            None => {},
        }
        i = i + 1;
    }
    None
}

/// slacker proposes the fastest mirrors even when they are behind upstream.
/// A mirror days behind must not be offered, so when freshness was checked
/// only in-sync mirrors are suggested. The release/arch part of the line
/// (`slackware64-current/`) is taken from slacker's own proposals, never
/// worked out here.
pub fn suggestions(f: &FindMirror, limit: usize) -> (r: Suggestions)
    ensures
        r@ == suggestions_spec(f@, limit as nat),
{
    let ghost fv = f@;
    if f.validated.is_none() {
        let mut copy: Vec<String> = Vec::new();
        let mut k: usize = 0;
        while k < f.suggested.len()
            invariant
                k <= f.suggested@.len(),
                strs(copy@) == strs(f.suggested@).take(k as int),
            decreases f.suggested.len() - k,
        {
            push_string(&mut copy, f.suggested[k].clone());
            assert(strs(f.suggested@).take(k + 1) =~= strs(f.suggested@).take(k as int).push(
                f.suggested@[k as int]@,
            ));
            k = k + 1;
        }
        assert(strs(f.suggested@).take(k as int) =~= strs(f.suggested@));
        return Suggestions::Unchecked(copy);
    }
    let suffix = match suffix_from_exec(f) {
        Some(s) => s,
        None => return Suggestions::NoneInSync,
    };
    assert(suffix_from(fv.suggested, fv.ranked, 0) == Some(suffix@));
    let mut lines: Vec<String> = Vec::new();
    let mut n: usize = 0;
    while n < f.ranked.len()
        invariant
            n <= f.ranked@.len(),
            fv == f@,
            strs(lines@) == sync_lines(fv.ranked, n as int, suffix@, limit as nat),
            lines@.len() <= limit,
        decreases f.ranked.len() - n,
    {
        let m = &f.ranked[n];
        assert(fv.ranked[n as int] == m@);
        let in_sync = match m.freshness {
            Freshness::InSync => true,
            _ => false,
        };
        if in_sync && lines.len() < limit {
            let mut b = base_exec(&m.url);
            let mut k: usize = 0;
            let ghost b0 = b@;
            while k < suffix.len()
                invariant
                    k <= suffix@.len(),
                    b@ == b0 + suffix@.subrange(0, k as int),
                decreases suffix.len() - k,
            {
                b.push(suffix[k]);
                assert(b@ =~= b0 + suffix@.subrange(0, k + 1));
                k = k + 1;
            }
            assert(b@ =~= b0 + suffix@);
            push_string(&mut lines, string_from(&b));
        }
        n = n + 1;
    }
    if lines.len() == 0 {
        Suggestions::NoneInSync
    } else {
        Suggestions::InSync(lines)
    }
}

} // verus!
