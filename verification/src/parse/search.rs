//! `slacker search NAME`: one line per hit,
//! `[label] {installed|uninstalled:<11} name-version  summary[ [blacklisted]][  (also: repo name-ver, ...)]`.
//! Anything else is slacker explaining why there was no hit.
use vstd::prelude::*;

use crate::parse::rules::span_has_char;
use crate::text::{
    boundary_index, byte_index, byte_len, byte_len_at_least, chars_of, contains, ends_with, find,
    is_ascii_seq,
    find_span, line_spans, lines, push_string, rfind, rfind_span, span_ends_with, span_eq,
    span_starts_with, span_texts, spans_in, split, split_spans, starts_with, string_of, strs,
    trim, trim_end, trim_end_span, trim_span,
};

verus! {

#[derive(Debug, Clone, PartialEq)]
pub struct Hit {
    /// Repo name, build tag, or `official`.
    pub source: String,
    pub installed: bool,
    pub name: String,
    pub version: String,
    pub summary: String,
    pub blacklisted: bool,
    /// Other repos shipping the name, as `repo name-version`.
    pub also: Vec<String>,
}

#[derive(Debug, Default)]
pub struct Search {
    pub hits: Vec<Hit>,
    /// Lines that are not hits: slacker's explanation when nothing matched.
    pub messages: Vec<String>,
}

pub struct HitV {
    pub source: Seq<char>,
    pub installed: bool,
    pub name: Seq<char>,
    pub version: Seq<char>,
    pub summary: Seq<char>,
    pub blacklisted: bool,
    pub also: Seq<Seq<char>>,
}

pub struct SearchV {
    pub hits: Seq<HitV>,
    pub messages: Seq<Seq<char>>,
}

impl View for Hit {
    type V = HitV;

    open spec fn view(&self) -> HitV {
        HitV {
            source: self.source@,
            installed: self.installed,
            name: self.name@,
            version: self.version@,
            summary: self.summary@,
            blacklisted: self.blacklisted,
            also: strs(self.also@),
        }
    }
}

impl View for Search {
    type V = SearchV;

    open spec fn view(&self) -> SearchV {
        SearchV { hits: self.hits@.map_values(|h: Hit| h@), messages: strs(self.messages@) }
    }
}

pub open spec fn also_marker() -> Seq<char> {
    "  (also: "@
}

pub open spec fn also_start() -> Seq<char> {
    "(also: "@
}

/// The summary part of a hit: the `(also: ...)` list and the `[blacklisted]`
/// mark taken off its end. Returns (summary, blacklisted, also).
pub open spec fn tail_parts(tail0: Seq<char>) -> (Seq<char>, bool, Seq<Seq<char>>) {
    let tail = trim_end(tail0);
    let (tail2, also) = if ends_with(tail, seq![')']) {
        match rfind(tail, also_marker()) {
            Some(i) => (
                tail.subrange(0, i),
                split(tail.subrange(i + also_marker().len(), tail.len() - 1), ", "@),
            ),
            None => if starts_with(tail, also_start()) {
                (Seq::empty(), split(tail.subrange(also_start().len() as int, tail.len() - 1), ", "@))
            } else {
                (tail, Seq::empty())
            },
        }
    } else {
        (tail, Seq::empty())
    };
    let bl = "[blacklisted]"@;
    if ends_with(tail2, bl) {
        (trim(trim_end(tail2.subrange(0, tail2.len() - bl.len()))), true, also)
    } else {
        (trim(tail2), false, also)
    }
}

/// One line read as a hit, if it has the hit shape.
pub open spec fn hit_of(line: Seq<char>) -> Option<HitV> {
    if !starts_with(line, seq!['[']) {
        None
    } else {
        let r0 = line.subrange(1, line.len() as int);
        match find(r0, "] "@) {
            None => None,
            Some(j) => {
                let source = r0.subrange(0, j);
                let rest = r0.subrange(j + 2, r0.len() as int);
                if byte_len(rest) < 12 {
                    None
                } else {
                    match boundary_index(rest, 11) {
                        None => None,
                        Some(k) => {
                            let word = trim_end(rest.subrange(0, k));
                            let r2 = rest.subrange(k, rest.len() as int);
                            if !(word == "installed"@ || word == "uninstalled"@) || !starts_with(
                                r2,
                                seq![' '],
                            ) {
                                None
                            } else {
                                let r3 = r2.subrange(1, r2.len() as int);
                                let (namever, tail) = match find(r3, "  "@) {
                                    Some(m) => (r3.subrange(0, m), r3.subrange(m + 2, r3.len() as int)),
                                    None => (trim_end(r3), Seq::empty()),
                                };
                                match rfind(namever, seq!['-']) {
                                    None => None,
                                    Some(d) => {
                                        let name = namever.subrange(0, d);
                                        let version = namever.subrange(d + 1, namever.len() as int);
                                        if name.len() == 0 || version.len() == 0 || contains(
                                            namever,
                                            seq![' '],
                                        ) {
                                            None
                                        } else {
                                            let (summary, blacklisted, also) = tail_parts(tail);
                                            Some(
                                                HitV {
                                                    source,
                                                    installed: word == "installed"@,
                                                    name,
                                                    version,
                                                    summary,
                                                    blacklisted,
                                                    also,
                                                },
                                            )
                                        }
                                    },
                                }
                            }
                        },
                    }
                }
            },
        }
    }
}

pub open spec fn search_step(s: SearchV, line: Seq<char>) -> SearchV {
    if trim(line).len() == 0 {
        s
    } else {
        match hit_of(line) {
            Some(h) => SearchV { hits: s.hits.push(h), ..s },
            None => SearchV { messages: s.messages.push(trim(line)), ..s },
        }
    }
}

pub open spec fn search_of(ls: Seq<Seq<char>>) -> SearchV
    decreases ls.len(),
{
    if ls.len() == 0 {
        SearchV { hits: Seq::empty(), messages: Seq::empty() }
    } else {
        search_step(search_of(ls.drop_last()), ls.last())
    }
}

/// The hits and other lines of `slacker search` output.
pub open spec fn search_spec(text: Seq<char>) -> SearchV {
    search_of(lines(text))
}

/// `installed` is the state the word after `[source] ` on `line` names:
/// `installed` for an installed package, `uninstalled` for one that is not.
pub open spec fn names_installed(line: Seq<char>, source: Seq<char>, installed: bool) -> bool {
    let rest = line.subrange(source.len() + 3int, line.len() as int);
    &&& starts_with(line, seq!['['] + source + "] "@)
    &&& installed <==> starts_with(rest, "installed"@)
    &&& !installed <==> starts_with(rest, "uninstalled"@)
}

/// A hit is installed exactly when its state word reads `installed`, and
/// not installed exactly when it reads `uninstalled`.
pub proof fn hits_read_their_state_word(line: Seq<char>)
    ensures
        hit_of(line) matches Some(h) ==> names_installed(line, h.source, h.installed),
{
    reveal_strlit("installed");
    reveal_strlit("uninstalled");
    reveal_strlit("] ");
    if let Some(h) = hit_of(line) {
        let r0 = line.subrange(1, line.len() as int);
        crate::text::lemma_find_from(r0, "] "@, 0);
        let j = find(r0, "] "@)->0;
        let rest = r0.subrange(j + 2, r0.len() as int);
        assert(rest =~= line.subrange(h.source.len() + 3int, line.len() as int));
        assert(line.subrange(0, h.source.len() + 3int) =~= seq!['['] + h.source + "] "@) by {
            assert(r0.subrange(j, j + 2) =~= "] "@);
        }
        crate::text::lemma_boundary_found(rest, 0, 11);
        let k = boundary_index(rest, 11)->0;
        let pre = rest.subrange(0, k);
        let word = trim_end(pre);
        crate::text::lemma_trail_bounds(pre, pre.len() as int);
        assert(rest.subrange(0, word.len() as int) =~= word);
        assert(word[0] == rest.subrange(0, word.len() as int)[0]);
        if word == "installed"@ {
            assert(rest[0] == 'i');
            assert(!starts_with(rest, "uninstalled"@)) by {
                if starts_with(rest, "uninstalled"@) {
                    assert(rest.subrange(0, 11)[0] == rest[0]);
                }
            }
        } else {
            assert(rest[0] == 'u');
            assert(!starts_with(rest, "installed"@)) by {
                if starts_with(rest, "installed"@) {
                    assert(rest.subrange(0, 9)[0] == rest[0]);
                }
            }
        }
    }
}

/// `n` spaces.
pub open spec fn spaces(n: nat) -> Seq<char> {
    Seq::new(n, |i: int| ' ')
}

/// A hit line as slacker prints it, without a summary: the source in
/// brackets, the state word padded to eleven columns, and `name-version`.
pub open spec fn hit_line(source: Seq<char>, word: Seq<char>, name: Seq<char>, version: Seq<char>) -> Seq<char> {
    seq!['['] + source + seq![']', ' '] + word + spaces((11 - word.len()) as nat) + seq![' '] + name
        + seq!['-'] + version
}

proof fn lemma_ascii_byte_len(s: Seq<char>)
    requires
        is_ascii_seq(s),
    ensures
        byte_len(s) == s.len(),
    decreases s.len(),
{
    if s.len() > 0 {
        assert(is_ascii_seq(s.drop_last()));
        lemma_ascii_byte_len(s.drop_last());
    }
}

proof fn lemma_trail_spaces(y: Seq<char>, e: int, j: int)
    requires
        0 < e <= j <= y.len(),
        forall|k: int| e <= k < y.len() ==> y[k] == ' ',
        !crate::text::is_ws(y[e - 1]),
    ensures
        crate::text::trail_from(y, j) == e,
    decreases j - e,
{
    if j > e {
        assert(y[j - 1] == ' ');
        lemma_trail_spaces(y, e, j - 1);
    }
}

pub open spec fn plain_word(s: Seq<char>, c: char) -> bool {
    &&& s.len() > 0
    &&& forall|i: int| 0 <= i < s.len() ==> (#[trigger] s[i]) <= '\u{7F}' && !crate::text::is_ws(s[i]) && s[i] != c
}

#[verifier::rlimit(40)]
proof fn lemma_hit_line(source: Seq<char>, word: Seq<char>, name: Seq<char>, version: Seq<char>)
    requires
        word == "installed"@ || word == "uninstalled"@,
        forall|i: int| 0 <= i < source.len() ==> #[trigger] source[i] != ']',
        plain_word(name, ' '),
        plain_word(version, '-'),
    ensures
        hit_of(hit_line(source, word, name, version)) matches Some(h) && h.source == source
            && h.installed == (word == "installed"@) && h.name == name && h.version == version,
{
    reveal_strlit("installed");
    reveal_strlit("uninstalled");
    reveal_strlit("] ");
    reveal_strlit("  ");
    let line = hit_line(source, word, name, version);
    let nv = name + seq!['-'] + version;
    let rest = word + spaces((11 - word.len()) as nat) + seq![' '] + nv;
    let r0 = source + seq![']', ' '] + rest;
    assert(line =~= seq!['['] + r0);
    assert(line.subrange(0, 1) =~= seq!['[']);
    assert(line.subrange(1, line.len() as int) =~= r0);
    let j = source.len() as int;
    assert(r0.subrange(j, j + 2) =~= "] "@);
    assert forall|m: int| 0 <= m < j implies !crate::text::matches_at(r0, "] "@, m) by {
        if crate::text::matches_at(r0, "] "@, m) {
            assert(r0.subrange(m, m + 2)[0] == r0[m]);
            assert(r0[m] == source[m]);
        }
    }
    crate::text::lemma_find_unique(r0, "] "@, 0, j);
    assert(r0.subrange(0, j) =~= source);
    assert(r0.subrange(j + 2, r0.len() as int) =~= rest);
    // the state word, padded to eleven columns
    assert(is_ascii_seq(rest)) by {
        assert forall|i: int| 0 <= i < rest.len() implies rest[i] <= '\u{7F}' by {
            if i >= 12 {
                let k = i - 12;
                if k < name.len() {
                    assert(rest[i] == name[k]);
                } else if k > name.len() {
                    assert(rest[i] == version[k - name.len() - 1]);
                }
            }
        }
    }
    lemma_ascii_byte_len(rest);
    assert(is_ascii_seq(rest.take(11)));
    lemma_ascii_byte_len(rest.take(11));
    crate::text::lemma_boundary_at(rest, 0, 11);
    let pre = rest.subrange(0, 11);
    assert(pre =~= word + spaces((11 - word.len()) as nat));
    assert(pre[word.len() - 1] == word[word.len() - 1]);
    lemma_trail_spaces(pre, word.len() as int, 11);
    assert(trim_end(pre) =~= word);
    let r2 = rest.subrange(11, rest.len() as int);
    assert(r2 =~= seq![' '] + nv);
    assert(starts_with(r2, seq![' '])) by {
        assert(r2.subrange(0, 1) =~= seq![' ']);
    }
    let r3 = r2.subrange(1, r2.len() as int);
    assert(r3 =~= nv);
    // one word: no run of two spaces, nothing to trim
    assert forall|i: int| 0 <= i < nv.len() implies !crate::text::is_ws(#[trigger] nv[i]) && (i
        != name.len() ==> nv[i] != '-' || i < name.len()) by {
        if i < name.len() {
            assert(nv[i] == name[i]);
        } else if i > name.len() {
            assert(nv[i] == version[i - name.len() - 1]);
        }
    }
    crate::text::lemma_find_from(nv, "  "@, 0);
    if let Some(m) = find(nv, "  "@) {
        assert(nv.subrange(m, m + 2)[0] == nv[m]);
    }
    crate::text::lemma_trail_bounds(nv, nv.len() as int);
    assert(trim_end(nv) =~= nv);
    // the last dash separates name and version
    let dash = seq!['-'];
    let k = name.len() as int;
    assert(nv.subrange(k, k + 1) =~= dash);
    assert(crate::text::matches_at(nv, dash, k));
    assert(dash.len() == 1);
    crate::text::lemma_rfind_from(nv, dash, nv.len() - 1);
    if let Some(q) = rfind(nv, dash) {
        if q > k {
            assert(nv.subrange(q, q + 1)[0] == nv[q]);
            assert(nv[q] == version[q - k - 1]);
        }
    }
    assert(rfind(nv, dash) == Some(k));
    assert(nv.subrange(0, k) =~= name);
    assert(nv.subrange(k + 1, nv.len() as int) =~= version);
    crate::text::lemma_find_from(nv, seq![' '], 0);
    if let Some(m) = find(nv, seq![' ']) {
        assert(nv.subrange(m, m + 1)[0] == nv[m]);
    }
}

/// A hit line as slacker prints it reads back as that hit: its source,
/// name and version, installed when its state word is `installed` and not
/// installed when it is `uninstalled`.
pub proof fn hit_lines_read_back(source: Seq<char>, name: Seq<char>, version: Seq<char>)
    requires
        forall|i: int| 0 <= i < source.len() ==> #[trigger] source[i] != ']',
        plain_word(name, ' '),
        plain_word(version, '-'),
    ensures
        hit_of(hit_line(source, "installed"@, name, version)) matches Some(h) && h.installed
            && h.source == source && h.name == name && h.version == version,
        hit_of(hit_line(source, "uninstalled"@, name, version)) matches Some(h) && !h.installed
            && h.source == source && h.name == name && h.version == version,
{
    reveal_strlit("installed");
    reveal_strlit("uninstalled");
    lemma_hit_line(source, "installed"@, name, version);
    lemma_hit_line(source, "uninstalled"@, name, version);
}

proof fn lemma_hits_from_lines(ls: Seq<Seq<char>>)
    ensures
        forall|i: int|
            0 <= i < search_of(ls).hits.len() ==> exists|k: int|
                0 <= k < ls.len() && hit_of(ls[k]) == Some(#[trigger] search_of(ls).hits[i])
                    && names_installed(ls[k], search_of(ls).hits[i].source, search_of(ls).hits[i].installed),
    decreases ls.len(),
{
    if ls.len() > 0 {
        let pl = ls.drop_last();
        lemma_hits_from_lines(pl);
        let line = ls.last();
        hits_read_their_state_word(line);
        let s = search_of(pl);
        let n = search_of(ls);
        assert forall|i: int| 0 <= i < n.hits.len() implies exists|k: int|
            0 <= k < ls.len() && hit_of(ls[k]) == Some(#[trigger] n.hits[i]) && names_installed(
                ls[k],
                n.hits[i].source,
                n.hits[i].installed,
            ) by {
            if i < s.hits.len() {
                assert(n.hits[i] == s.hits[i]);
                let k = choose|k: int|
                    0 <= k < pl.len() && hit_of(pl[k]) == Some(s.hits[i]) && names_installed(
                        pl[k],
                        s.hits[i].source,
                        s.hits[i].installed,
                    );
                assert(ls[k] == pl[k]);
            } else {
                assert(ls[ls.len() - 1] == line);
            }
        }
    }
}

/// Every hit `slacker search` is read into comes from one of its lines, and
/// is installed exactly when that line's state word is `installed`.
pub proof fn search_hits_follow_their_state_word(text: Seq<char>)
    ensures
        forall|i: int|
            0 <= i < search_spec(text).hits.len() ==> exists|k: int|
                0 <= k < lines(text).len() && hit_of(lines(text)[k]) == Some(
                    #[trigger] search_spec(text).hits[i],
                ) && names_installed(
                    lines(text)[k],
                    search_spec(text).hits[i].source,
                    search_spec(text).hits[i].installed,
                ),
{
    lemma_hits_from_lines(lines(text));
}

/// The strings of the given spans.
pub fn strings_of_spans(v: &[char], spans: &Vec<(usize, usize)>) -> (r: Vec<String>)
    requires
        spans_in(v@, spans@),
    ensures
        strs(r@) == span_texts(v@, spans@),
{
    let mut out: Vec<String> = Vec::new();
    let mut k: usize = 0;
    while k < spans.len()
        invariant
            k <= spans@.len(),
            spans_in(v@, spans@),
            strs(out@) == span_texts(v@, spans@).take(k as int),
        decreases spans.len() - k,
    {
        let (x, y) = spans[k];
        assert(spans@[k as int] == (x, y));
        push_string(&mut out, string_of(v, x, y));
        assert(span_texts(v@, spans@).take(k + 1) =~= span_texts(v@, spans@).take(k as int).push(
            v@.subrange(x as int, y as int),
        ));
        k = k + 1;
    }
    assert(span_texts(v@, spans@).take(k as int) =~= span_texts(v@, spans@));
    out
}

fn tail_exec(v: &[char], a: usize, b: usize) -> (r: (String, bool, Vec<String>))
    requires
        a <= b <= v@.len(),
    ensures
        tail_parts(v@.subrange(a as int, b as int)) == (r.0@, r.1, strs(r.2@)),
{
    let ghost tail0 = v@.subrange(a as int, b as int);
    let te = trim_end_span(v, a, b);
    let ghost tail = v@.subrange(a as int, te as int);
    let marker = chars_of("  (also: ");
    let start = chars_of("(also: ");
    let comma = chars_of(", ");
    let blm = chars_of("[blacklisted]");
    proof {
        reveal_strlit("  (also: ");
        reveal_strlit("(also: ");
        reveal_strlit(", ");
        reveal_strlit("[blacklisted]");
    }
    let close = vec![')'];
    assert(close@ =~= seq![')']);
    let mut t2 = te;
    let mut also: Vec<String> = Vec::new();
    let ghost also_v: Seq<Seq<char>> = Seq::empty();
    assert(strs(also@) =~= also_v);
    if span_ends_with(v, a, te, close.as_slice()) {
        match rfind_span(v, a, te, marker.as_slice()) {
            Some(i) => {
                proof {
                    assert(marker@.len() == 9);
                    assert(v@.subrange(a as int, te as int).subrange(
                        te - a - 1,
                        te - a,
                    ) =~= seq![')']);
                    assert(v@[te - 1] == ')');
                    if i + 9 == te {
                        crate::text::lemma_rfind_from(
                            tail,
                            marker@,
                            tail.len() - marker@.len(),
                        );
                        assert(tail.subrange(i - a, i - a + 9)[8] == v@[te - 1]);
                        assert(marker@[8] == ' ');
                    }
                }
                let ls = split_spans(v, i + 9, te - 1, comma.as_slice(), 0);
                also = strings_of_spans(v, &ls);
                proof {
                    assert(tail.subrange(i - a + 9, tail.len() - 1) =~= v@.subrange(i + 9, te - 1));
                    also_v = split(tail.subrange(i - a + 9, tail.len() - 1), ", "@);
                }
                t2 = i;
            },
            None => {
                if span_starts_with(v, a, te, start.as_slice()) {
                    proof {
                        assert(start@.len() == 7);
                        assert(v@.subrange(a as int, te as int).subrange(
                            te - a - 1,
                            te - a,
                        ) =~= seq![')']);
                        assert(v@[te - 1] == ')');
                        if a + 7 == te {
                            assert(tail.subrange(0, 7)[6] == v@[te - 1]);
                            assert(start@[6] == ' ');
                        }
                    }
                    let ls = split_spans(v, a + 7, te - 1, comma.as_slice(), 0);
                    also = strings_of_spans(v, &ls);
                    proof {
                        assert(tail.subrange(7, tail.len() - 1) =~= v@.subrange(a + 7, te - 1));
                        also_v = split(tail.subrange(7, tail.len() - 1), ", "@);
                    }
                    t2 = a;
                }
            },
        }
    }
    let ghost tail2 = v@.subrange(a as int, t2 as int);
    proof {
        assert(tail.subrange(0, t2 - a) =~= tail2);
        if t2 == a {
            assert(tail2 =~= Seq::<char>::empty());
        }
        if t2 == te {
            assert(tail2 =~= tail);
        }
    }
    if span_ends_with(v, a, t2, blm.as_slice()) {
        let e = trim_end_span(v, a, t2 - 13);
        let (x, y) = trim_span(v, a, e);
        proof {
            assert(tail2.subrange(0, tail2.len() - 13) =~= v@.subrange(a as int, t2 - 13));
        }
        (string_of(v, x, y), true, also)
    } else {
        let (x, y) = trim_span(v, a, t2);
        (string_of(v, x, y), false, also)
    }
}

#[verifier::spinoff_prover]
#[verifier::rlimit(40)]
fn hit_exec(v: &[char], a: usize, b: usize) -> (r: Option<Hit>)
    requires
        a <= b <= v@.len(),
    ensures
        r matches Some(h) ==> hit_of(v@.subrange(a as int, b as int)) == Some(h@),
        r is None ==> hit_of(v@.subrange(a as int, b as int)) is None,
{
    let ghost line = v@.subrange(a as int, b as int);
    let open = vec!['['];
    assert(open@ =~= seq!['[']);
    if !span_starts_with(v, a, b, open.as_slice()) {
        return None;
    }
    let ghost r0 = line.subrange(1, line.len() as int);
    assert(r0 =~= v@.subrange(a + 1, b as int));
    let close = chars_of("] ");
    proof {
        reveal_strlit("] ");
    }
    let j = match find_span(v, a + 1, b, close.as_slice()) {
        Some(j) => j,
        None => return None,
    };
    let ghost rest = r0.subrange(j - a - 1 + 2, r0.len() as int);
    assert(rest =~= v@.subrange(j + 2, b as int));
    assert(r0.subrange(0, j - a - 1) =~= v@.subrange(a + 1, j as int));
    if !byte_len_at_least(v, j + 2, b, 12) {
        return None;
    }
    let k = match byte_index(v, j + 2, b, 11) {
        Some(k) => k,
        None => return None,
    };
    let we = trim_end_span(v, j + 2, k);
    assert(rest.subrange(0, k - j - 2) =~= v@.subrange(j + 2, k as int));
    let inst = chars_of("installed");
    let uninst = chars_of("uninstalled");
    let is_inst = span_eq(v, j + 2, we, inst.as_slice());
    let is_uninst = span_eq(v, j + 2, we, uninst.as_slice());
    let ghost r2 = rest.subrange(k - j - 2, rest.len() as int);
    assert(r2 =~= v@.subrange(k as int, b as int));
    let sp = vec![' '];
    assert(sp@ =~= seq![' ']);
    if !(is_inst || is_uninst) || !span_starts_with(v, k, b, sp.as_slice()) {
        return None;
    }
    let ghost r3 = r2.subrange(1, r2.len() as int);
    assert(r3 =~= v@.subrange(k + 1, b as int));
    let two = chars_of("  ");
    proof {
        reveal_strlit("  ");
    }
    let (na, nb, ta, tb) = match find_span(v, k + 1, b, two.as_slice()) {
        Some(m) => {
            assert(r3.subrange(0, m - k - 1) =~= v@.subrange(k + 1, m as int));
            assert(r3.subrange(m - k - 1 + 2, r3.len() as int) =~= v@.subrange(m + 2, b as int));
            (k + 1, m, m + 2, b)
        },
        None => {
            let e = trim_end_span(v, k + 1, b);
            assert(v@.subrange(b as int, b as int) =~= Seq::<char>::empty());
            (k + 1, e, b, b)
        },
    };
    let dash = vec!['-'];
    assert(dash@ =~= seq!['-']);
    let d = match rfind_span(v, na, nb, dash.as_slice()) {
        Some(d) => d,
        None => return None,
    };
    let ghost namever = v@.subrange(na as int, nb as int);
    assert(namever.subrange(0, d - na) =~= v@.subrange(na as int, d as int));
    assert(namever.subrange(d - na + 1, namever.len() as int) =~= v@.subrange(d + 1, nb as int));
    if d == na || d + 1 == nb || span_has_char(v, na, nb, ' ') {
        return None;
    }
    let (summary, blacklisted, also) = tail_exec(v, ta, tb);
    let h = Hit {
        source: string_of(v, a + 1, j),
        installed: is_inst,
        name: string_of(v, na, d),
        version: string_of(v, d + 1, nb),
        summary,
        blacklisted,
        also,
    };
    Some(h)
}

/// Reads `slacker search` output: each line is a hit, or kept trimmed as a
/// message; blank lines are skipped.
pub fn parse(text: &str) -> (out: Search)
    ensures
        out@ == search_spec(text@),
{
    let v = chars_of(text);
    let spans = line_spans(v.as_slice());
    let mut out = Search { hits: Vec::new(), messages: Vec::new() };
    let ghost ls = span_texts(v@, spans@);
    let mut k: usize = 0;
    proof {
        assert(ls.take(0) =~= Seq::<Seq<char>>::empty());
        assert(out@.hits =~= Seq::<HitV>::empty());
        assert(out@.messages =~= Seq::<Seq<char>>::empty());
    }
    while k < spans.len()
        invariant
            k <= spans@.len(),
            v@ == text@,
            spans_in(v@, spans@),
            ls == span_texts(v@, spans@),
            ls == lines(text@),
            out@ == search_of(ls.take(k as int)),
        decreases spans.len() - k,
    {
        let (a, b) = spans[k];
        assert(ls[k as int] == v@.subrange(a as int, b as int));
        assert(ls.take(k + 1).drop_last() =~= ls.take(k as int));
        let ghost prev = out@;
        let (ta, tb) = trim_span(v.as_slice(), a, b);
        if ta < tb {
            match hit_exec(v.as_slice(), a, b) {
                Some(h) => {
                    let ghost hv = h@;
                    out.hits.push(h);
                    assert(out@.hits =~= prev.hits.push(hv));
                },
                None => {
                    push_string(&mut out.messages, string_of(v.as_slice(), ta, tb));
                },
            }
        }
        k = k + 1;
    }
    assert(ls.take(k as int) =~= ls);
    out
}

/// The summary without the repeated name: `emacs (GNU Emacs)` for `emacs`
/// gives `GNU Emacs`.
pub open spec fn short_summary_spec(name: Seq<char>, summary: Seq<char>) -> Seq<char> {
    if starts_with(summary, name) {
        let r1 = summary.subrange(name.len() as int, summary.len() as int);
        if starts_with(r1, " ("@) {
            let r2 = r1.subrange(2, r1.len() as int);
            if ends_with(r2, seq![')']) {
                r2.subrange(0, r2.len() - 1)
            } else {
                summary
            }
        } else {
            summary
        }
    } else {
        summary
    }
}

/// PACKAGES.TXT summaries repeat the name: `emacs (GNU Emacs)`. Returns the
/// part in parentheses when that is the shape, otherwise the summary itself.
pub fn short_summary<'a>(name: &str, summary: &'a str) -> (r: &'a str)
    ensures
        r@ == short_summary_spec(name@, summary@),
{
    let n = chars_of(name);
    let s = chars_of(summary);
    let open = chars_of(" (");
    proof {
        reveal_strlit(" (");
    }
    let close = vec![')'];
    assert(close@ =~= seq![')']);
    assert(s@.subrange(0, s@.len() as int) =~= s@);
    if span_starts_with(s.as_slice(), 0, s.len(), n.as_slice()) {
        let r1 = n.len();
        assert(s@.subrange(r1 as int, s@.len() as int) == s@.subrange(0, s@.len() as int).subrange(
            r1 as int,
            s@.len() as int,
        ));
        if span_starts_with(s.as_slice(), r1, s.len(), open.as_slice()) {
            let r2 = r1 + 2;
            proof {
                let t1 = s@.subrange(r1 as int, s@.len() as int);
                assert(t1.subrange(2, t1.len() as int) =~= s@.subrange(r2 as int, s@.len() as int));
            }
            if span_ends_with(s.as_slice(), r2, s.len(), close.as_slice()) {
                let r = summary.substring_char(r2, s.len() - 1);
                proof {
                    let t2 = s@.subrange(r2 as int, s@.len() as int);
                    assert(t2.subrange(0, t2.len() - 1) =~= s@.subrange(r2 as int, s@.len() - 1));
                }
                return r;
            }
        }
    }
    summary
}

} // verus!
