//! Text primitives over sequences of characters: the pieces of `str` that the
//! parsers use (trimming, searching, splitting, numbers), each with a
//! mathematical definition over `Seq<char>`.
//!
//! Executable code works on a slice of characters and a span `[a, b)` of it,
//! so a line is never copied until a field of a result is built from it.
use vstd::prelude::*;

verus! {

// ---------------------------------------------------------------------------
// Character classes
// ---------------------------------------------------------------------------

/// Unicode `White_Space`, the set `char::is_whitespace` accepts.
pub open spec fn is_ws(c: char) -> bool {
    ||| c == '\t' || c == '\n' || c == '\u{0B}' || c == '\u{0C}' || c == '\r' || c == ' '
    ||| c == '\u{85}' || c == '\u{A0}' || c == '\u{1680}'
    ||| ('\u{2000}' <= c && c <= '\u{200A}')
    ||| c == '\u{2028}' || c == '\u{2029}' || c == '\u{202F}' || c == '\u{205F}' || c == '\u{3000}'
}

/// Unicode general category `Cc`, the set `char::is_control` accepts.
pub open spec fn is_ctrl(c: char) -> bool {
    c <= '\u{1F}' || ('\u{7F}' <= c && c <= '\u{9F}')
}

pub open spec fn is_digit(c: char) -> bool {
    '0' <= c && c <= '9'
}

pub open spec fn digit_value(c: char) -> nat {
    (c as int - '0' as int) as nat
}

/// Whether `c` is a Unicode white-space character.
pub fn is_whitespace(c: char) -> (b: bool)
    ensures
        b == is_ws(c),
{
    c == '\t' || c == '\n' || c == '\u{0B}' || c == '\u{0C}' || c == '\r' || c == ' ' || c
        == '\u{85}' || c == '\u{A0}' || c == '\u{1680}' || ('\u{2000}' <= c && c <= '\u{200A}')
        || c == '\u{2028}' || c == '\u{2029}' || c == '\u{202F}' || c == '\u{205F}' || c
        == '\u{3000}'
}

/// Whether `c` is a control character.
pub fn is_control(c: char) -> (b: bool)
    ensures
        b == is_ctrl(c),
{
    c <= '\u{1F}' || ('\u{7F}' <= c && c <= '\u{9F}')
}

/// The number of bytes `c` takes in UTF-8.
pub open spec fn utf8_width(c: char) -> nat {
    if c <= '\u{7F}' {
        1
    } else if c <= '\u{7FF}' {
        2
    } else if c <= '\u{FFFF}' {
        3
    } else {
        4
    }
}

/// The number of bytes `s` takes in UTF-8 (what `str::len` returns).
pub open spec fn byte_len(s: Seq<char>) -> nat
    decreases s.len(),
{
    if s.len() == 0 {
        0
    } else {
        byte_len(s.drop_last()) + utf8_width(s.last())
    }
}

pub fn char_width(c: char) -> (w: usize)
    ensures
        w == utf8_width(c),
{
    if c <= '\u{7F}' {
        1
    } else if c <= '\u{7FF}' {
        2
    } else if c <= '\u{FFFF}' {
        3
    } else {
        4
    }
}

pub open spec fn is_ascii_seq(s: Seq<char>) -> bool {
    forall|i: int| 0 <= i < s.len() ==> s[i] <= '\u{7F}'
}

// ---------------------------------------------------------------------------
// Conversions
// ---------------------------------------------------------------------------

/// The characters of `s`, in order.
pub fn chars_of(s: &str) -> (v: Vec<char>)
    ensures
        v@ == s@,
{
    let mut v: Vec<char> = Vec::new();
    for c in it: s.chars()
        invariant
            v@ == it.seq().take(it.index() as int),
            it.seq() == s@,
    {
        v.push(c);
    }
    v
}

/// `String` from the characters `v[a..b]` (`FromIterator<&char>` for `String`).
#[verifier::external_body]
pub(crate) fn string_of(v: &[char], a: usize, b: usize) -> (s: String)
    requires
        a <= b <= v@.len(),
    ensures
        s@ == v@.subrange(a as int, b as int),
{
    v[a..b].iter().collect()
}

/// `String` from a whole sequence of characters.
pub fn string_from(v: &Vec<char>) -> (s: String)
    ensures
        s@ == v@,
{
    let s = string_of(v.as_slice(), 0, v.len());
    assert(v@.subrange(0, v@.len() as int) =~= v@);
    s
}

/// A `String` holding the text of `s`.
pub fn owned(s: &str) -> (r: String)
    ensures
        r@ == s@,
{
    s.to_owned()
}

// ---------------------------------------------------------------------------
// Trimming
// ---------------------------------------------------------------------------

/// The index of the first character at or after `i` that is not white space.
pub open spec fn lead_from(s: Seq<char>, i: int) -> int
    decreases s.len() - i,
{
    if 0 <= i < s.len() && is_ws(s[i]) {
        lead_from(s, i + 1)
    } else {
        i
    }
}

/// The end of `s[..j]` once trailing white space is dropped.
pub open spec fn trail_from(s: Seq<char>, j: int) -> int
    decreases j,
{
    if 0 < j <= s.len() && is_ws(s[j - 1]) {
        trail_from(s, j - 1)
    } else {
        j
    }
}

pub open spec fn trim_start(s: Seq<char>) -> Seq<char> {
    s.subrange(lead_from(s, 0), s.len() as int)
}

pub open spec fn trim_end(s: Seq<char>) -> Seq<char> {
    s.subrange(0, trail_from(s, s.len() as int))
}

/// `str::trim`: white space dropped at both ends.
pub open spec fn trim(s: Seq<char>) -> Seq<char> {
    trim_end(trim_start(s))
}

pub proof fn lemma_lead_bounds(s: Seq<char>, i: int)
    requires
        0 <= i <= s.len(),
    ensures
        i <= lead_from(s, i) <= s.len(),
        lead_from(s, i) < s.len() ==> !is_ws(s[lead_from(s, i)]),
        forall|k: int| i <= k < lead_from(s, i) ==> is_ws(s[k]),
    decreases s.len() - i,
{
    if i < s.len() && is_ws(s[i]) {
        lemma_lead_bounds(s, i + 1);
    }
}

pub proof fn lemma_trail_bounds(s: Seq<char>, j: int)
    requires
        0 <= j <= s.len(),
    ensures
        0 <= trail_from(s, j) <= j,
        trail_from(s, j) > 0 ==> !is_ws(s[trail_from(s, j) - 1]),
        forall|k: int| trail_from(s, j) <= k < j ==> is_ws(s[k]),
    decreases j,
{
    if 0 < j && is_ws(s[j - 1]) {
        lemma_trail_bounds(s, j - 1);
    }
}

/// The span of `v[a..b]` without its leading white space.
pub fn trim_start_span(v: &[char], a: usize, b: usize) -> (r: usize)
    requires
        a <= b <= v@.len(),
    ensures
        a <= r <= b,
        v@.subrange(r as int, b as int) == trim_start(v@.subrange(a as int, b as int)),
        r - a == lead_from(v@.subrange(a as int, b as int), 0),
{
    let ghost s = v@.subrange(a as int, b as int);
    let mut i = a;
    while i < b && is_whitespace(v[i])
        invariant
            a <= i <= b <= v@.len(),
            s == v@.subrange(a as int, b as int),
            lead_from(s, 0) == lead_from(s, i - a),
        decreases b - i,
    {
        assert(s[i - a] == v@[i as int]);
        i = i + 1;
    }
    proof {
        if i < b {
            assert(s[i - a] == v@[i as int]);
        }
        assert(lead_from(s, i - a) == i - a);
        assert(v@.subrange(i as int, b as int) =~= s.subrange(i - a, s.len() as int));
    }
    i
}

/// The span of `v[a..b]` without its trailing white space.
pub fn trim_end_span(v: &[char], a: usize, b: usize) -> (r: usize)
    requires
        a <= b <= v@.len(),
    ensures
        a <= r <= b,
        v@.subrange(a as int, r as int) == trim_end(v@.subrange(a as int, b as int)),
{
    let ghost s = v@.subrange(a as int, b as int);
    let mut j = b;
    while j > a && is_whitespace(v[j - 1])
        invariant
            a <= j <= b <= v@.len(),
            s == v@.subrange(a as int, b as int),
            trail_from(s, s.len() as int) == trail_from(s, j - a),
        decreases j,
    {
        assert(s[j - a - 1] == v@[j - 1]);
        j = j - 1;
    }
    proof {
        if j > a {
            assert(s[j - a - 1] == v@[j - 1]);
        }
        assert(trail_from(s, j - a) == j - a);
        assert(v@.subrange(a as int, j as int) =~= s.subrange(0, j - a));
    }
    j
}

/// The span of `v[a..b]` trimmed at both ends.
pub fn trim_span(v: &[char], a: usize, b: usize) -> (r: (usize, usize))
    requires
        a <= b <= v@.len(),
    ensures
        a <= r.0 <= r.1 <= b,
        v@.subrange(r.0 as int, r.1 as int) == trim(v@.subrange(a as int, b as int)),
{
    let a2 = trim_start_span(v, a, b);
    let b2 = trim_end_span(v, a2, b);
    (a2, b2)
}

// ---------------------------------------------------------------------------
// Comparing and searching
// ---------------------------------------------------------------------------

pub open spec fn starts_with(s: Seq<char>, p: Seq<char>) -> bool {
    p.len() <= s.len() && s.subrange(0, p.len() as int) == p
}

pub open spec fn ends_with(s: Seq<char>, p: Seq<char>) -> bool {
    p.len() <= s.len() && s.subrange(s.len() - p.len(), s.len() as int) == p
}

/// `p` occurs in `s` starting at index `i`.
pub open spec fn matches_at(s: Seq<char>, p: Seq<char>, i: int) -> bool {
    0 <= i && i + p.len() <= s.len() && s.subrange(i, i + p.len()) == p
}

/// The first occurrence of `p` in `s` at or after `i`.
pub open spec fn find_from(s: Seq<char>, p: Seq<char>, i: int) -> Option<int>
    decreases s.len() + 1 - i,
{
    if i < 0 || i + p.len() > s.len() {
        None
    } else if matches_at(s, p, i) {
        Some(i)
    } else {
        find_from(s, p, i + 1)
    }
}

/// `str::find`: the start of the first occurrence of `p`.
pub open spec fn find(s: Seq<char>, p: Seq<char>) -> Option<int> {
    find_from(s, p, 0)
}

/// The last occurrence of `p` in `s` starting at or before `j`.
pub open spec fn rfind_from(s: Seq<char>, p: Seq<char>, j: int) -> Option<int>
    decreases j + 1,
{
    if j < 0 {
        None
    } else if matches_at(s, p, j) {
        Some(j)
    } else {
        rfind_from(s, p, j - 1)
    }
}

/// `str::rfind`: the start of the last occurrence of `p`.
pub open spec fn rfind(s: Seq<char>, p: Seq<char>) -> Option<int> {
    rfind_from(s, p, s.len() - p.len())
}

pub open spec fn contains(s: Seq<char>, p: Seq<char>) -> bool {
    find(s, p) is Some
}

pub proof fn lemma_find_from(s: Seq<char>, p: Seq<char>, i: int)
    requires
        0 <= i,
    ensures
        find_from(s, p, i) matches Some(k) ==> i <= k && matches_at(s, p, k) && forall|m: int|
            i <= m < k ==> !matches_at(s, p, m),
        find_from(s, p, i) is None ==> forall|m: int| i <= m ==> !matches_at(s, p, m),
    decreases s.len() + 1 - i,
{
    if i + p.len() > s.len() {
    } else if matches_at(s, p, i) {
    } else {
        lemma_find_from(s, p, i + 1);
    }
}

pub proof fn lemma_rfind_from(s: Seq<char>, p: Seq<char>, j: int)
    ensures
        rfind_from(s, p, j) matches Some(k) ==> k <= j && matches_at(s, p, k) && forall|m: int|
            k < m <= j ==> !matches_at(s, p, m),
        rfind_from(s, p, j) is None ==> forall|m: int| m <= j ==> !matches_at(s, p, m),
    decreases j + 1,
{
    if j < 0 {
    } else if matches_at(s, p, j) {
    } else {
        lemma_rfind_from(s, p, j - 1);
    }
}

/// Whether `v[i..i + p.len()]` is `p`.
pub fn match_at(v: &[char], i: usize, b: usize, p: &[char]) -> (r: bool)
    requires
        i <= b <= v@.len(),
    ensures
        r == (p@.len() <= b - i && v@.subrange(i as int, i + p@.len()) == p@),
{
    if p.len() > b - i {
        return false;
    }
    let mut k: usize = 0;
    while k < p.len()
        invariant
            i <= b <= v@.len(),
            p@.len() <= b - i,
            k <= p@.len(),
            forall|m: int| 0 <= m < k ==> v@[i + m] == p@[m],
        decreases p.len() - k,
    {
        if v[i + k] != p[k] {
            proof {
                assert(v@.subrange(i as int, i + p@.len())[k as int] != p@[k as int]);
            }
            return false;
        }
        k = k + 1;
    }
    assert(v@.subrange(i as int, i + p@.len()) =~= p@);
    true
}

/// Whether `v[a..b]` equals `p`.
pub fn span_eq(v: &[char], a: usize, b: usize, p: &[char]) -> (r: bool)
    requires
        a <= b <= v@.len(),
    ensures
        r == (v@.subrange(a as int, b as int) == p@),
{
    if b - a != p.len() {
        return false;
    }
    match_at(v, a, b, p)
}

/// Whether `v[a..b]` starts with `p`.
pub fn span_starts_with(v: &[char], a: usize, b: usize, p: &[char]) -> (r: bool)
    requires
        a <= b <= v@.len(),
    ensures
        r == starts_with(v@.subrange(a as int, b as int), p@),
{
    let r = match_at(v, a, b, p);
    proof {
        let s = v@.subrange(a as int, b as int);
        if p@.len() <= s.len() {
            assert(s.subrange(0, p@.len() as int) =~= v@.subrange(a as int, a + p@.len()));
        }
    }
    r
}

/// Whether `v[a..b]` ends with `p`.
pub fn span_ends_with(v: &[char], a: usize, b: usize, p: &[char]) -> (r: bool)
    requires
        a <= b <= v@.len(),
    ensures
        r == ends_with(v@.subrange(a as int, b as int), p@),
{
    if p.len() > b - a {
        return false;
    }
    let r = match_at(v, b - p.len(), b, p);
    proof {
        let s = v@.subrange(a as int, b as int);
        assert(s.subrange(s.len() - p@.len(), s.len() as int) =~= v@.subrange(
            b - p@.len(),
            b as int,
        ));
    }
    r
}

/// The first occurrence of `p` in `v[a..b]`, as an index into `v`.
pub fn find_span(v: &[char], a: usize, b: usize, p: &[char]) -> (r: Option<usize>)
    requires
        a <= b <= v@.len(),
    ensures
        r matches Some(k) ==> find(v@.subrange(a as int, b as int), p@) == Some(k - a),
        r is None ==> find(v@.subrange(a as int, b as int), p@) is None,
        r matches Some(k) ==> a <= k && k + p@.len() <= b,
{
    let ghost s = v@.subrange(a as int, b as int);
    if p.len() > b - a {
        return None;
    }
    if p.len() == 0 {
        assert(s.subrange(0, 0) =~= p@);
        assert(matches_at(s, p@, 0));
        return Some(a);
    }
    let mut i = a;
    while i <= b - p.len()
        invariant
            a <= i,
            a <= b <= v@.len(),
            1 <= p@.len() <= b - a,
            i <= b - p@.len() + 1,
            s == v@.subrange(a as int, b as int),
            find(s, p@) == find_from(s, p@, i - a),
        decreases b - i,
    {
        let m = match_at(v, i, b, p);
        proof {
            assert(s.subrange(i - a, i - a + p@.len()) =~= v@.subrange(i as int, i + p@.len()));
        }
        if m {
            return Some(i);
        }
        i = i + 1;
    }
    None
}

/// The last occurrence of `p` in `v[a..b]`, as an index into `v`.
pub fn rfind_span(v: &[char], a: usize, b: usize, p: &[char]) -> (r: Option<usize>)
    requires
        a <= b <= v@.len(),
    ensures
        r matches Some(k) ==> rfind(v@.subrange(a as int, b as int), p@) == Some(k - a),
        r is None ==> rfind(v@.subrange(a as int, b as int), p@) is None,
        r matches Some(k) ==> a <= k && k + p@.len() <= b,
{
    let ghost s = v@.subrange(a as int, b as int);
    if p.len() > b - a {
        return None;
    }
    let mut j = b - p.len();
    loop
        invariant
            a <= j <= b - p@.len(),
            a <= b <= v@.len(),
            p@.len() <= b - a,
            s == v@.subrange(a as int, b as int),
            rfind(s, p@) == rfind_from(s, p@, j - a),
        decreases j,
    {
        let m = match_at(v, j, b, p);
        proof {
            assert(s.subrange(j - a, j - a + p@.len()) =~= v@.subrange(j as int, j + p@.len()));
        }
        if m {
            return Some(j);
        }
        if j == a {
            assert(rfind_from(s, p@, -1) is None);
            return None;
        }
        j = j - 1;
    }
}

// ---------------------------------------------------------------------------
// Lines
// ---------------------------------------------------------------------------

/// The index of the first `'\n'` at or after `i`, or the length of `s`.
pub open spec fn line_end(s: Seq<char>, i: int) -> int
    decreases s.len() - i,
{
    if i < 0 || i >= s.len() {
        s.len() as int
    } else if s[i] == '\n' {
        i
    } else {
        line_end(s, i + 1)
    }
}

pub proof fn lemma_line_end(s: Seq<char>, i: int)
    requires
        0 <= i <= s.len(),
    ensures
        i <= line_end(s, i) <= s.len(),
        line_end(s, i) < s.len() ==> s[line_end(s, i)] == '\n',
        forall|k: int| i <= k < line_end(s, i) ==> s[k] != '\n',
    decreases s.len() - i,
{
    if i < s.len() && s[i] != '\n' {
        lemma_line_end(s, i + 1);
    }
}

/// The text of the line that starts at `i`: up to the next newline, without
/// the newline and without a carriage return just before it.
pub open spec fn line_at(s: Seq<char>, i: int) -> Seq<char> {
    let e = line_end(s, i);
    if e < s.len() && e > i && s[e - 1] == '\r' {
        s.subrange(i, e - 1)
    } else {
        s.subrange(i, e)
    }
}

/// The lines of `s[i..]`, as `str::lines` yields them.
pub open spec fn lines_from(s: Seq<char>, i: int) -> Seq<Seq<char>>
    decreases s.len() + 1 - i,
    via lines_from_decreases
{
    if i < 0 || i >= s.len() {
        Seq::empty()
    } else {
        seq![line_at(s, i)] + lines_from(s, line_end(s, i) + 1)
    }
}

#[via_fn]
proof fn lines_from_decreases(s: Seq<char>, i: int) {
    if 0 <= i < s.len() {
        lemma_line_end(s, i);
    }
}

/// `str::lines`: `s` split at each `'\n'`, a `'\r'` before it dropped, and no
/// empty last line after a final newline.
pub open spec fn lines(s: Seq<char>) -> Seq<Seq<char>> {
    lines_from(s, 0)
}

/// The text of each span.
pub open spec fn span_texts(v: Seq<char>, spans: Seq<(usize, usize)>) -> Seq<Seq<char>> {
    spans.map_values(|p: (usize, usize)| v.subrange(p.0 as int, p.1 as int))
}

pub open spec fn spans_in(v: Seq<char>, spans: Seq<(usize, usize)>) -> bool {
    forall|k: int| 0 <= k < spans.len() ==> (#[trigger] spans[k]).0 <= spans[k].1 <= v.len()
}

/// The spans of the lines of `v`.
pub fn line_spans(v: &[char]) -> (r: Vec<(usize, usize)>)
    ensures
        spans_in(v@, r@),
        span_texts(v@, r@) == lines(v@),
{
    let mut out: Vec<(usize, usize)> = Vec::new();
    let mut i: usize = 0;
    let n = v.len();
    while i < n
        invariant
            n == v@.len(),
            i <= n,
            spans_in(v@, out@),
            span_texts(v@, out@) + lines_from(v@, i as int) == lines(v@),
        decreases n - i,
    {
        let mut e = i;
        while e < n && v[e] != '\n'
            invariant
                i <= e <= n,
                n == v@.len(),
                line_end(v@, i as int) == line_end(v@, e as int),
            decreases n - e,
        {
            e = e + 1;
        }
        let ghost before = span_texts(v@, out@);
        let end = if e < n && e > i && v[e - 1] == '\r' {
            e - 1
        } else {
            e
        };
        proof {
            lemma_line_end(v@, i as int);
            assert(line_end(v@, e as int) == e);
        }
        out.push((i, end));
        proof {
            assert(span_texts(v@, out@) =~= before.push(line_at(v@, i as int)));
            assert(lines_from(v@, i as int) == seq![line_at(v@, i as int)] + lines_from(
                v@,
                e + 1,
            ));
            assert(span_texts(v@, out@) + lines_from(v@, e + 1) =~= before + lines_from(
                v@,
                i as int,
            ));
        }
        if e == n {
            proof {
                assert(lines_from(v@, e + 1) =~= Seq::<Seq<char>>::empty());
            }
            i = n;
        } else {
            i = e + 1;
        }
    }
    proof {
        assert(span_texts(v@, out@) + lines_from(v@, i as int) =~= span_texts(v@, out@));
    }
    out
}

// ---------------------------------------------------------------------------
// Numbers
// ---------------------------------------------------------------------------

/// The value of a string of decimal digits.
pub open spec fn digits_val(s: Seq<char>) -> nat
    decreases s.len(),
{
    if s.len() == 0 {
        0
    } else {
        digits_val(s.drop_last()) * 10 + digit_value(s.last())
    }
}

pub open spec fn all_digits(s: Seq<char>) -> bool {
    forall|i: int| 0 <= i < s.len() ==> is_digit(#[trigger] s[i])
}

/// The digits of an unsigned number, after an optional `+`.
pub open spec fn unsigned_body(s: Seq<char>) -> Seq<char> {
    if s.len() > 0 && s[0] == '+' {
        s.drop_first()
    } else {
        s
    }
}

/// `str::parse::<u32>`: an optional `+`, then at least one ASCII digit and
/// nothing else, with a value that fits.
pub open spec fn parse_u32(s: Seq<char>) -> Option<u32> {
    let d = unsigned_body(s);
    if d.len() > 0 && all_digits(d) && digits_val(d) <= u32::MAX {
        Some(digits_val(d) as u32)
    } else {
        None
    }
}

/// `str::parse::<i32>`: an optional `+` or `-`, then at least one ASCII digit
/// and nothing else, with a value that fits.
pub open spec fn parse_i32(s: Seq<char>) -> Option<i32> {
    if s.len() > 0 && s[0] == '-' {
        let d = s.drop_first();
        if d.len() > 0 && all_digits(d) && digits_val(d) <= 0x8000_0000 {
            Some((0 - digits_val(d)) as i32)
        } else {
            None
        }
    } else {
        let d = unsigned_body(s);
        if d.len() > 0 && all_digits(d) && digits_val(d) <= i32::MAX {
            Some(digits_val(d) as i32)
        } else {
            None
        }
    }
}

pub fn digit_of(c: char) -> (d: u32)
    requires
        is_digit(c),
    ensures
        d == digit_value(c),
        d < 10,
{
    (c as u32) - ('0' as u32)
}

/// The value of the digits `v[a..b]`, or `None` if one is not a digit or the
/// value exceeds `max`.
fn digits_span(v: &[char], a: usize, b: usize, max: u64) -> (r: Option<u64>)
    requires
        a <= b <= v@.len(),
        max <= u32::MAX + 1,
    ensures
        r matches Some(x) ==> all_digits(v@.subrange(a as int, b as int)) && x == digits_val(
            v@.subrange(a as int, b as int),
        ) && x <= max,
        r is None ==> !(all_digits(v@.subrange(a as int, b as int)) && digits_val(
            v@.subrange(a as int, b as int),
        ) <= max),
{
    let ghost d = v@.subrange(a as int, b as int);
    let mut val: u64 = 0;
    let mut over = false;
    let mut i = a;
    while i < b
        invariant
            a <= i <= b <= v@.len(),
            d == v@.subrange(a as int, b as int),
            max <= u32::MAX + 1,
            all_digits(d.subrange(0, i - a)),
            !over ==> val == digits_val(d.subrange(0, i - a)) && val <= max,
            over ==> digits_val(d.subrange(0, i - a)) > max,
        decreases b - i,
    {
        let c = v[i];
        assert(d.subrange(0, i + 1 - a).drop_last() =~= d.subrange(0, i - a));
        if !('0' <= c && c <= '9') {
            proof {
                assert(d[i - a] == c);
            }
            return None;
        }
        let dv = digit_of(c);
        assert(d.subrange(0, i + 1 - a).last() == c);
        if !over {
            let nv = val * 10 + dv as u64;
            if nv > max {
                over = true;
            } else {
                val = nv;
            }
        }
        assert(all_digits(d.subrange(0, i + 1 - a)));
        i = i + 1;
    }
    assert(d.subrange(0, b - a) =~= d);
    if over {
        None
    } else {
        Some(val)
    }
}

/// `str::parse::<u32>` of `v[a..b]`.
pub fn parse_u32_span(v: &[char], a: usize, b: usize) -> (r: Option<u32>)
    requires
        a <= b <= v@.len(),
    ensures
        r == parse_u32(v@.subrange(a as int, b as int)),
{
    let ghost s = v@.subrange(a as int, b as int);
    let mut start = a;
    if a < b && v[a] == '+' {
        start = a + 1;
    }
    assert(unsigned_body(s) =~= v@.subrange(start as int, b as int));
    if start == b {
        return None;
    }
    match digits_span(v, start, b, 0xFFFF_FFFF) {
        Some(x) => Some(x as u32),
        None => None,
    }
}

/// `str::parse::<i32>` of `v[a..b]`.
pub fn parse_i32_span(v: &[char], a: usize, b: usize) -> (r: Option<i32>)
    requires
        a <= b <= v@.len(),
    ensures
        r == parse_i32(v@.subrange(a as int, b as int)),
{
    let ghost s = v@.subrange(a as int, b as int);
    if a < b && v[a] == '-' {
        assert(s.drop_first() =~= v@.subrange(a + 1, b as int));
        if a + 1 == b {
            return None;
        }
        match digits_span(v, a + 1, b, 0x8000_0000) {
            Some(x) => {
                if x == 0x8000_0000 {
                    Some(i32::MIN)
                } else {
                    Some(0 - (x as i32))
                }
            },
            None => None,
        }
    } else {
        let mut start = a;
        if a < b && v[a] == '+' {
            start = a + 1;
        }
        assert(unsigned_body(s) =~= v@.subrange(start as int, b as int));
        if start == b {
            return None;
        }
        match digits_span(v, start, b, 0x7FFF_FFFF) {
            Some(x) => Some(x as i32),
            None => None,
        }
    }
}

pub open spec fn digit_char(d: nat) -> char {
    if d == 0 {
        '0'
    } else if d == 1 {
        '1'
    } else if d == 2 {
        '2'
    } else if d == 3 {
        '3'
    } else if d == 4 {
        '4'
    } else if d == 5 {
        '5'
    } else if d == 6 {
        '6'
    } else if d == 7 {
        '7'
    } else if d == 8 {
        '8'
    } else {
        '9'
    }
}

/// The decimal digits of `n`, without leading zeros (`"0"` for zero).
pub open spec fn dec(n: nat) -> Seq<char>
    decreases n,
{
    if n < 10 {
        seq![digit_char(n)]
    } else {
        dec(n / 10).push(digit_char(n % 10))
    }
}

/// How `i32`'s `Display` writes `n`.
pub open spec fn dec_i32(n: i32) -> Seq<char> {
    if n < 0 {
        seq!['-'] + dec((0 - n) as nat)
    } else {
        dec(n as nat)
    }
}

fn digit_char_exec(d: u64) -> (c: char)
    requires
        d < 10,
    ensures
        c == digit_char(d as nat),
{
    if d == 0 {
        '0'
    } else if d == 1 {
        '1'
    } else if d == 2 {
        '2'
    } else if d == 3 {
        '3'
    } else if d == 4 {
        '4'
    } else if d == 5 {
        '5'
    } else if d == 6 {
        '6'
    } else if d == 7 {
        '7'
    } else if d == 8 {
        '8'
    } else {
        '9'
    }
}

/// Appends the decimal digits of `n`.
pub fn push_dec(out: &mut Vec<char>, n: u64)
    ensures
        final(out)@ == old(out)@ + dec(n as nat),
    decreases n,
{
    if n >= 10 {
        push_dec(out, n / 10);
    }
    let c = digit_char_exec(n % 10);
    out.push(c);
    proof {
        if n >= 10 {
            assert(final(out)@ =~= old(out)@ + dec(n as nat));
        } else {
            assert(final(out)@ =~= old(out)@ + dec(n as nat));
        }
    }
}

/// `u32`'s `Display`: the decimal digits of `n`.
pub fn u32_text(n: u32) -> (s: String)
    ensures
        s@ == dec(n as nat),
{
    let mut v: Vec<char> = Vec::new();
    push_dec(&mut v, n as u64);
    assert(v@ =~= dec(n as nat));
    string_from(&v)
}

/// `i32`'s `Display`: a minus sign for negative numbers, then the digits.
pub fn i32_text(n: i32) -> (s: String)
    ensures
        s@ == dec_i32(n),
{
    let mut v: Vec<char> = Vec::new();
    if n < 0 {
        v.push('-');
        let m: u64 = (0 - (n as i64)) as u64;
        push_dec(&mut v, m);
    } else {
        push_dec(&mut v, n as u64);
    }
    assert(v@ =~= dec_i32(n));
    string_from(&v)
}

// ---------------------------------------------------------------------------
// Byte offsets
// ---------------------------------------------------------------------------

pub proof fn lemma_byte_len_step(s: Seq<char>, k: int)
    requires
        0 <= k < s.len(),
    ensures
        byte_len(s.take(k + 1)) == byte_len(s.take(k)) + utf8_width(s[k]),
{
    assert(s.take(k + 1).drop_last() =~= s.take(k));
}

pub proof fn lemma_byte_len_mono(s: Seq<char>, i: int, j: int)
    requires
        0 <= i <= j <= s.len(),
    ensures
        byte_len(s.take(i)) <= byte_len(s.take(j)),
    decreases j - i,
{
    if i < j {
        lemma_byte_len_mono(s, i, j - 1);
        lemma_byte_len_step(s, j - 1);
    }
}

/// The character index at which byte offset `n` falls between two
/// characters, searching from index `k`.
pub open spec fn boundary_from(s: Seq<char>, k: int, n: int) -> Option<int>
    decreases s.len() + 1 - k,
{
    if k < 0 || k > s.len() {
        None
    } else if byte_len(s.take(k)) == n {
        Some(k)
    } else if byte_len(s.take(k)) > n {
        None
    } else {
        boundary_from(s, k + 1, n)
    }
}

/// The index of the character that starts at byte offset `n`, or the length
/// of `s` when `n` is its byte length; `None` when `n` falls inside a
/// character or past the end (`str::is_char_boundary` is false).
pub open spec fn boundary_index(s: Seq<char>, n: int) -> Option<int> {
    boundary_from(s, 0, n)
}

pub proof fn lemma_byte_len_strict(s: Seq<char>, i: int, j: int)
    requires
        0 <= i < j <= s.len(),
    ensures
        byte_len(s.take(i)) < byte_len(s.take(j)),
    decreases j - i,
{
    lemma_byte_len_step(s, j - 1);
    if i < j - 1 {
        lemma_byte_len_strict(s, i, j - 1);
    }
}

/// Where a boundary is found, the bytes before it are `n`.
pub proof fn lemma_boundary_found(s: Seq<char>, k: int, n: int)
    requires
        0 <= k,
    ensures
        boundary_from(s, k, n) matches Some(j) ==> k <= j <= s.len() && byte_len(s.take(j)) == n,
    decreases s.len() + 1 - k,
{
    if k <= s.len() && byte_len(s.take(k)) < n {
        lemma_boundary_found(s, k + 1, n);
    }
}

/// A character index whose prefix takes `n` bytes is where byte offset `n`
/// falls between two characters.
pub proof fn lemma_boundary_at(s: Seq<char>, k: int, j: int)
    requires
        0 <= k <= j <= s.len(),
    ensures
        boundary_from(s, k, byte_len(s.take(j)) as int) == Some(j),
    decreases j - k,
{
    if k < j {
        lemma_byte_len_strict(s, k, j);
        lemma_boundary_at(s, k + 1, j);
    }
}

/// A boundary at or before `m` is found the same way in `s[..m]`.
pub proof fn lemma_boundary_prefix(s: Seq<char>, m: int, k: int, n: int)
    requires
        0 <= k,
        0 <= m <= s.len(),
        boundary_from(s, k, n) matches Some(j) && j <= m,
    ensures
        boundary_from(s.take(m), k, n) == boundary_from(s, k, n),
    decreases s.len() + 1 - k,
{
    let p = s.take(m);
    lemma_boundary_found(s, k, n);
    if k <= m {
        assert(p.take(k) =~= s.take(k));
        if byte_len(s.take(k)) < n {
            lemma_boundary_prefix(s, m, k + 1, n);
        }
    }
}

/// The character that starts at byte offset `n`. Comparing it with an ASCII
/// character is the same as comparing the byte at offset `n`, since no byte
/// of a longer UTF-8 sequence is ASCII.
pub open spec fn char_at_byte(s: Seq<char>, n: int) -> Option<char> {
    match boundary_index(s, n) {
        Some(k) => if k < s.len() {
            Some(s[k])
        } else {
            None
        },
        None => None,
    }
}

/// Where byte offset `n` of `v[a..b]` falls, as an index into `v`.
pub fn byte_index(v: &[char], a: usize, b: usize, n: usize) -> (r: Option<usize>)
    requires
        a <= b <= v@.len(),
    ensures
        r matches Some(i) ==> a <= i <= b && boundary_index(v@.subrange(a as int, b as int), n as int)
            == Some(i - a),
        r is None ==> boundary_index(v@.subrange(a as int, b as int), n as int) is None,
{
    let ghost s = v@.subrange(a as int, b as int);
    let mut i = a;
    let mut acc: usize = 0;
    assert(s.take(0) =~= Seq::<char>::empty());
    loop
        invariant
            a <= i <= b <= v@.len(),
            s == v@.subrange(a as int, b as int),
            acc == byte_len(s.take(i - a)),
            acc <= n,
            boundary_index(s, n as int) == boundary_from(s, i - a, n as int),
        decreases b - i,
    {
        if acc == n {
            return Some(i);
        }
        if i == b {
            assert(boundary_from(s, i - a + 1, n as int) is None);
            return None;
        }
        let w = char_width(v[i]);
        proof {
            lemma_byte_len_step(s, i - a);
            assert(s[i - a] == v@[i as int]);
        }
        if w > n - acc {
            proof {
                assert(boundary_from(s, i - a + 1, n as int) is None);
            }
            return None;
        }
        acc = acc + w;
        i = i + 1;
    }
}

/// Whether `v[a..b]` takes at least `n` bytes in UTF-8.
pub fn byte_len_at_least(v: &[char], a: usize, b: usize, n: usize) -> (r: bool)
    requires
        a <= b <= v@.len(),
    ensures
        r == (byte_len(v@.subrange(a as int, b as int)) >= n),
{
    let ghost s = v@.subrange(a as int, b as int);
    let mut i = a;
    let mut acc: usize = 0;
    assert(s.take(0) =~= Seq::<char>::empty());
    while i < b && acc < n
        invariant
            a <= i <= b <= v@.len(),
            s == v@.subrange(a as int, b as int),
            acc == byte_len(s.take(i - a)),
        decreases b - i,
    {
        proof {
            lemma_byte_len_step(s, i - a);
            assert(s[i - a] == v@[i as int]);
        }
        let w = char_width(v[i]);
        if w >= n - acc {
            proof {
                lemma_byte_len_mono(s, i - a + 1, s.len() as int);
                assert(s.take(s.len() as int) =~= s);
            }
            return true;
        }
        acc = acc + w;
        i = i + 1;
    }
    proof {
        lemma_byte_len_mono(s, i - a, s.len() as int);
        assert(s.take(s.len() as int) =~= s);
    }
    acc >= n
}

// ---------------------------------------------------------------------------
// Lists of strings
// ---------------------------------------------------------------------------

/// The texts of a list of strings.
pub open spec fn strs(v: Seq<String>) -> Seq<Seq<char>> {
    v.map_values(|x: String| x@)
}

/// Appends `s` to `v`.
pub fn push_string(v: &mut Vec<String>, s: String)
    ensures
        strs(final(v)@) == strs(old(v)@).push(s@),
        final(v)@.len() == old(v)@.len() + 1,
{
    v.push(s);
    assert(strs(final(v)@) =~= strs(old(v)@).push(s@));
}

/// The pieces joined with `sep` between them.
pub open spec fn joined(ws: Seq<Seq<char>>, sep: Seq<char>) -> Seq<char>
    decreases ws.len(),
{
    if ws.len() == 0 {
        Seq::empty()
    } else if ws.len() == 1 {
        ws[0]
    } else {
        joined(ws.drop_last(), sep) + sep + ws.last()
    }
}

pub fn join_strings(ws: &Vec<String>, from: usize, sep: &str) -> (r: String)
    requires
        from <= ws@.len(),
    ensures
        r@ == joined(strs(ws@).subrange(from as int, ws@.len() as int), sep@),
{
    let ghost all = strs(ws@).subrange(from as int, ws@.len() as int);
    let mut out = owned("");
    proof {
        reveal_strlit("");
    }
    let mut k = from;
    assert(all.take(0) =~= Seq::<Seq<char>>::empty());
    while k < ws.len()
        invariant
            from <= k <= ws@.len(),
            all == strs(ws@).subrange(from as int, ws@.len() as int),
            out@ == joined(all.take(k - from), sep@),
        decreases ws.len() - k,
    {
        let ghost o0 = out@;
        if k > from {
            out.append(sep);
        }
        out.append(ws[k].as_str());
        proof {
            let t = all.take(k + 1 - from);
            assert(t.drop_last() =~= all.take(k - from));
            assert(t.last() == ws@[k as int]@);
            if k == from {
                assert(o0 =~= Seq::<char>::empty());
                assert(out@ =~= joined(t, sep@));
            } else {
                assert(out@ =~= joined(t, sep@));
            }
        }
        k = k + 1;
    }
    assert(all.take(k - from) =~= all);
    out
}

/// `ws` joined with `sep` (`slice::join`).
pub fn join(ws: &Vec<String>, sep: &str) -> (r: String)
    ensures
        r@ == joined(strs(ws@), sep@),
{
    let r = join_strings(ws, 0, sep);
    assert(strs(ws@).subrange(0, ws@.len() as int) =~= strs(ws@));
    r
}

/// `usize`'s `Display`: the decimal digits of `n`.
pub fn usize_text(n: usize) -> (s: String)
    ensures
        s@ == dec(n as nat),
{
    let mut v: Vec<char> = Vec::new();
    push_dec(&mut v, n as u64);
    assert(v@ =~= dec(n as nat));
    string_from(&v)
}

/// Whether the two texts are the same (`==` on `str`).
pub fn same_text(a: &str, b: &str) -> (r: bool)
    ensures
        r == (a@ == b@),
{
    let n = a.unicode_len();
    if n != b.unicode_len() {
        return false;
    }
    let mut i: usize = 0;
    while i < n
        invariant
            i <= n == a@.len() == b@.len(),
            forall|k: int| 0 <= k < i ==> a@[k] == b@[k],
        decreases n - i,
    {
        if a.get_char(i) != b.get_char(i) {
            return false;
        }
        i = i + 1;
    }
    assert(a@ =~= b@);
    true
}

/// Whether `s` starts with `p` (`str::starts_with`).
pub fn str_starts_with(s: &str, p: &str) -> (r: bool)
    ensures
        r == starts_with(s@, p@),
{
    let v = chars_of(s);
    let w = chars_of(p);
    assert(v@.subrange(0, v@.len() as int) =~= v@);
    span_starts_with(v.as_slice(), 0, v.len(), w.as_slice())
}

/// Whether `s` ends with `p` (`str::ends_with`).
pub fn str_ends_with(s: &str, p: &str) -> (r: bool)
    ensures
        r == ends_with(s@, p@),
{
    let v = chars_of(s);
    let w = chars_of(p);
    assert(v@.subrange(0, v@.len() as int) =~= v@);
    span_ends_with(v.as_slice(), 0, v.len(), w.as_slice())
}

/// The text of `s` trimmed at both ends (`str::trim`).
pub fn trimmed(s: &str) -> (r: String)
    ensures
        r@ == trim(s@),
{
    let v = chars_of(s);
    assert(v@.subrange(0, v@.len() as int) =~= v@);
    let (a, b) = trim_span(v.as_slice(), 0, v.len());
    string_of(v.as_slice(), a, b)
}

// ---------------------------------------------------------------------------
// Splitting
// ---------------------------------------------------------------------------

/// `s[i..]` split at each occurrence of the non-empty `p`, left to right.
pub open spec fn split_from(s: Seq<char>, p: Seq<char>, i: int) -> Seq<Seq<char>>
    decreases s.len() + 1 - i,
    via split_from_decreases
{
    if p.len() == 0 || i < 0 || i > s.len() {
        seq![s.subrange(i, s.len() as int)]
    } else {
        match find_from(s, p, i) {
            Some(k) => seq![s.subrange(i, k)] + split_from(s, p, k + p.len()),
            None => seq![s.subrange(i, s.len() as int)],
        }
    }
}

#[via_fn]
proof fn split_from_decreases(s: Seq<char>, p: Seq<char>, i: int) {
    if 0 <= i {
        lemma_find_from(s, p, i);
    }
}

/// `str::split` with a non-empty pattern.
pub open spec fn split(s: Seq<char>, p: Seq<char>) -> Seq<Seq<char>> {
    split_from(s, p, 0)
}

/// `s[i..]` split at the first `n - 1` occurrences of `p`.
pub open spec fn splitn_from(s: Seq<char>, p: Seq<char>, i: int, n: nat) -> Seq<Seq<char>>
    decreases n,
{
    if n <= 1 || p.len() == 0 || i < 0 || i > s.len() {
        seq![s.subrange(i, s.len() as int)]
    } else {
        match find_from(s, p, i) {
            Some(k) => seq![s.subrange(i, k)] + splitn_from(s, p, k + p.len(), (n - 1) as nat),
            None => seq![s.subrange(i, s.len() as int)],
        }
    }
}

/// `str::splitn` with a non-empty pattern.
pub open spec fn splitn(s: Seq<char>, p: Seq<char>, n: nat) -> Seq<Seq<char>> {
    splitn_from(s, p, 0, n)
}

/// The spans of `v[a..b]` split at the non-empty `p`, at most `n` pieces
/// (`n == 0` for no limit).
pub fn split_spans(v: &[char], a: usize, b: usize, p: &[char], n: usize) -> (r: Vec<(usize, usize)>)
    requires
        a <= b <= v@.len(),
        p@.len() > 0,
    ensures
        spans_in(v@, r@),
        n == 0 ==> span_texts(v@, r@) == split(v@.subrange(a as int, b as int), p@),
        n > 0 ==> span_texts(v@, r@) == splitn(v@.subrange(a as int, b as int), p@, n as nat),
{
    let ghost s = v@.subrange(a as int, b as int);
    let mut out: Vec<(usize, usize)> = Vec::new();
    let mut i = a;
    let mut left = n;
    loop
        invariant
            a <= i <= b <= v@.len(),
            s == v@.subrange(a as int, b as int),
            p@.len() > 0,
            spans_in(v@, out@),
            n == 0 ==> left == 0 && span_texts(v@, out@) + split_from(s, p@, i - a) == split(
                s,
                p@,
            ),
            n > 0 ==> left > 0 && span_texts(v@, out@) + splitn_from(s, p@, i - a, left as nat)
                == splitn(s, p@, n as nat),
        decreases b - i, left,
    {
        let ghost before = span_texts(v@, out@);
        let found = if left == 1 {
            None
        } else {
            find_span(v, i, b, p)
        };
        proof {
            assert(s.subrange(i - a, s.len() as int) =~= v@.subrange(i as int, b as int));
            crate::text::lemma_find_shift(s, v@.subrange(i as int, b as int), p@, i - a);
        }
        match found {
            Some(k) => {
                out.push((i, k));
                proof {
                    assert(s.subrange(i - a, k - a) =~= v@.subrange(i as int, k as int));
                    assert(span_texts(v@, out@) =~= before.push(v@.subrange(i as int, k as int)));
                    if n == 0 {
                        assert(span_texts(v@, out@) + split_from(s, p@, k + p@.len() - a) =~= before
                            + split_from(s, p@, i - a));
                    } else {
                        assert(span_texts(v@, out@) + splitn_from(
                            s,
                            p@,
                            k + p@.len() - a,
                            (left - 1) as nat,
                        ) =~= before + splitn_from(s, p@, i - a, left as nat));
                    }
                }
                i = k + p.len();
                if left > 0 {
                    left = left - 1;
                }
            },
            None => {
                out.push((i, b));
                proof {
                    assert(span_texts(v@, out@) =~= before.push(v@.subrange(i as int, b as int)));
                    if n == 0 {
                        assert(split_from(s, p@, i - a) == seq![s.subrange(i - a, s.len() as int)]);
                        assert(span_texts(v@, out@) =~= before + split_from(s, p@, i - a));
                    } else {
                        assert(splitn_from(s, p@, i - a, left as nat) == seq![
                            s.subrange(i - a, s.len() as int),
                        ]);
                        assert(span_texts(v@, out@) =~= before + splitn_from(s, p@, i - a, left as nat));
                    }
                }
                return out;
            },
        }
    }
}

/// Searching a suffix of `s` finds what searching `s` from that point finds.
pub proof fn lemma_find_shift(s: Seq<char>, t: Seq<char>, p: Seq<char>, i: int)
    requires
        0 <= i <= s.len(),
        t == s.subrange(i, s.len() as int),
    ensures
        find(t, p) matches Some(k) ==> find_from(s, p, i) == Some(k + i),
        find(t, p) is None ==> find_from(s, p, i) is None,
{
    lemma_find_from(t, p, 0);
    lemma_find_from(s, p, i);
    assert forall|m: int| 0 <= m implies matches_at(t, p, m) == matches_at(s, p, m + i) by {
        if m + p.len() <= t.len() {
            assert(t.subrange(m, m + p.len()) =~= s.subrange(m + i, m + i + p.len()));
        }
    }
    if let Some(k) = find(t, p) {
        assert forall|m: int| i <= m < k + i implies !matches_at(s, p, m) by {
            assert(matches_at(t, p, m - i) == matches_at(s, p, m - i + i));
        }
        assert(matches_at(t, p, k) == matches_at(s, p, k + i));
        lemma_find_unique(s, p, i, k + i);
    } else {
        if let Some(k2) = find_from(s, p, i) {
            assert(matches_at(t, p, k2 - i));
        }
    }
}

/// Splitting a suffix of `s` gives what splitting `s` from that point gives.
pub proof fn lemma_split_shift(s: Seq<char>, t: Seq<char>, p: Seq<char>, i: int, j: int)
    requires
        p.len() > 0,
        0 <= i <= s.len(),
        t == s.subrange(i, s.len() as int),
        0 <= j <= t.len(),
    ensures
        split_from(t, p, j) == split_from(s, p, i + j),
    decreases t.len() + 1 - j,
{
    let u = t.subrange(j, t.len() as int);
    assert(u =~= s.subrange(i + j, s.len() as int));
    lemma_find_shift(t, u, p, j);
    lemma_find_shift(s, u, p, i + j);
    lemma_find_from(t, p, j);
    match find_from(t, p, j) {
        Some(k) => {
            assert(find_from(s, p, i + j) == Some(k + i));
            lemma_split_shift(s, t, p, i, k + p.len());
            assert(t.subrange(j, k) =~= s.subrange(i + j, i + k));
        },
        None => {
            assert(t.subrange(j, t.len() as int) =~= s.subrange(i + j, s.len() as int));
        },
    }
}

/// Text without `c`, then `c`, then more: the first piece of a split at
/// `c` is the text before it.
pub proof fn lemma_split_first(w: Seq<char>, c: char, rest: Seq<char>)
    requires
        forall|i: int| 0 <= i < w.len() ==> w[i] != c,
    ensures
        split(w + seq![c] + rest, seq![c]) == seq![w] + split(rest, seq![c]),
{
    let s = w + seq![c] + rest;
    let p = seq![c];
    let n = w.len() as int;
    assert(s.subrange(n, n + 1) =~= p);
    assert forall|m: int| 0 <= m < w.len() implies !matches_at(s, p, m) by {
        assert(s.subrange(m, m + 1)[0] == w[m]);
    }
    lemma_find_unique(s, p, 0, w.len() as int);
    let t = s.subrange(n + 1, s.len() as int);
    assert(t =~= rest);
    lemma_split_shift(s, t, p, n + 1, 0);
    assert(s.subrange(0, w.len() as int) =~= w);
}

/// Text without `c` is one piece when split at `c`.
pub proof fn lemma_split_whole(w: Seq<char>, c: char)
    requires
        forall|i: int| 0 <= i < w.len() ==> w[i] != c,
    ensures
        split(w, seq![c]) == seq![w],
{
    let p = seq![c];
    lemma_find_from(w, p, 0);
    if let Some(k) = find(w, p) {
        assert(w.subrange(k, k + 1)[0] == w[k]);
    }
    assert(w.subrange(0, w.len() as int) =~= w);
}

/// The decimal digits of `n` read back as `n`.
pub proof fn lemma_dec_reads_back(n: nat)
    ensures
        dec(n).len() > 0,
        all_digits(dec(n)),
        digits_val(dec(n)) == n,
        forall|i: int| 0 <= i < dec(n).len() ==> dec(n)[i] != ' ' && dec(n)[i] != '+',
    decreases n,
{
    if n < 10 {
        assert(digit_value(digit_char(n)) == n);
        assert(dec(n).drop_last() =~= Seq::<char>::empty());
        assert(digits_val(dec(n).drop_last()) == 0);
        assert(dec(n).last() == digit_char(n));
        assert(digits_val(dec(n)) == n);
    } else {
        lemma_dec_reads_back(n / 10);
        let d = dec(n);
        assert(d.drop_last() =~= dec(n / 10));
        assert(d.last() == digit_char(n % 10));
        assert(digit_value(digit_char(n % 10)) == n % 10);
        assert((n / 10) * 10 + n % 10 == n) by (nonlinear_arith);
        assert(digits_val(d) == digits_val(dec(n / 10)) * 10 + digit_value(d.last()));
        assert(digits_val(d) == n);
        assert forall|i: int| 0 <= i < d.len() implies is_digit(#[trigger] d[i]) by {
            if i < d.len() - 1 {
                assert(d[i] == dec(n / 10)[i]);
            }
        }
    }
}

/// `parse::<u32>` reads the decimal digits of a number back as that number.
pub proof fn lemma_parse_dec(n: u32)
    ensures
        parse_u32(dec(n as nat)) == Some(n),
{
    lemma_dec_reads_back(n as nat);
    assert(unsigned_body(dec(n as nat)) == dec(n as nat));
}

/// The first match at or after `i` is the one with no match between.
pub proof fn lemma_find_unique(s: Seq<char>, p: Seq<char>, i: int, k: int)
    requires
        0 <= i <= k,
        matches_at(s, p, k),
        forall|m: int| i <= m < k ==> !matches_at(s, p, m),
    ensures
        find_from(s, p, i) == Some(k),
    decreases k - i,
{
    if i < k {
        lemma_find_unique(s, p, i + 1, k);
    }
}

/// The end of `s[..j]` once trailing copies of `c` are dropped.
pub open spec fn trail_char_from(s: Seq<char>, j: int, c: char) -> int
    decreases j,
{
    if 0 < j <= s.len() && s[j - 1] == c {
        trail_char_from(s, j - 1, c)
    } else {
        j
    }
}

/// `str::trim_end_matches(c)`.
pub open spec fn trim_end_char(s: Seq<char>, c: char) -> Seq<char> {
    s.subrange(0, trail_char_from(s, s.len() as int, c))
}

pub proof fn lemma_trail_char_bounds(s: Seq<char>, j: int, c: char)
    requires
        0 <= j <= s.len(),
    ensures
        0 <= trail_char_from(s, j, c) <= j,
    decreases j,
{
    if 0 < j && s[j - 1] == c {
        lemma_trail_char_bounds(s, j - 1, c);
    }
}

/// The characters of `s` without trailing copies of `c`.
pub fn trim_end_char_vec(s: &Vec<char>, c: char) -> (r: Vec<char>)
    ensures
        r@ == trim_end_char(s@, c),
{
    let mut j = s.len();
    while j > 0 && s[j - 1] == c
        invariant
            j <= s@.len(),
            trail_char_from(s@, s@.len() as int, c) == trail_char_from(s@, j as int, c),
        decreases j,
    {
        j = j - 1;
    }
    let mut r: Vec<char> = Vec::new();
    let mut k: usize = 0;
    while k < j
        invariant
            k <= j <= s@.len(),
            r@ == s@.subrange(0, k as int),
        decreases j - k,
    {
        r.push(s[k]);
        assert(r@ =~= s@.subrange(0, k + 1));
        k = k + 1;
    }
    r
}

// ---------------------------------------------------------------------------
// Words
// ---------------------------------------------------------------------------

/// The end of the run of non-white-space characters starting at `i`.
pub open spec fn word_end_from(s: Seq<char>, i: int) -> int
    decreases s.len() - i,
{
    if 0 <= i < s.len() && !is_ws(s[i]) {
        word_end_from(s, i + 1)
    } else {
        i
    }
}

pub proof fn lemma_word_end(s: Seq<char>, i: int)
    requires
        0 <= i <= s.len(),
    ensures
        i <= word_end_from(s, i) <= s.len(),
        word_end_from(s, i) < s.len() ==> is_ws(s[word_end_from(s, i)]),
        forall|k: int| i <= k < word_end_from(s, i) ==> !is_ws(s[k]),
    decreases s.len() - i,
{
    if i < s.len() && !is_ws(s[i]) {
        lemma_word_end(s, i + 1);
    }
}

/// The words of `s[i..]` (`str::split_whitespace`).
pub open spec fn words_from(s: Seq<char>, i: int) -> Seq<Seq<char>>
    decreases s.len() + 1 - i,
    via words_from_decreases
{
    if i < 0 || i > s.len() {
        Seq::empty()
    } else {
        let j = lead_from(s, i);
        if j >= s.len() {
            Seq::empty()
        } else {
            seq![s.subrange(j, word_end_from(s, j))] + words_from(s, word_end_from(s, j))
        }
    }
}

#[via_fn]
proof fn words_from_decreases(s: Seq<char>, i: int) {
    if 0 <= i <= s.len() {
        lemma_lead_bounds(s, i);
        let j = lead_from(s, i);
        if j < s.len() {
            lemma_word_end(s, j);
        }
    }
}

pub open spec fn words(s: Seq<char>) -> Seq<Seq<char>> {
    words_from(s, 0)
}

/// The spans of the words of `v[a..b]`.
pub fn word_spans(v: &[char], a: usize, b: usize) -> (r: Vec<(usize, usize)>)
    requires
        a <= b <= v@.len(),
    ensures
        spans_in(v@, r@),
        span_texts(v@, r@) == words(v@.subrange(a as int, b as int)),
{
    let ghost s = v@.subrange(a as int, b as int);
    let mut out: Vec<(usize, usize)> = Vec::new();
    let mut i = a;
    loop
        invariant
            a <= i <= b <= v@.len(),
            s == v@.subrange(a as int, b as int),
            spans_in(v@, out@),
            span_texts(v@, out@) + words_from(s, i - a) == words(s),
        decreases b - i,
    {
        let ghost before = span_texts(v@, out@);
        let j = trim_start_span(v, i, b);
        proof {
            let t = v@.subrange(i as int, b as int);
            lemma_lead_shift(s, i - a);
            lemma_lead_bounds(s, i - a);
            assert(t =~= s.subrange(i - a, s.len() as int));
        }
        proof {
            assert(j - a == lead_from(s, i - a));
        }
        if j == b {
            proof {
                assert(words_from(s, i - a) =~= Seq::<Seq<char>>::empty());
                assert(span_texts(v@, out@) + Seq::<Seq<char>>::empty() =~= span_texts(v@, out@));
            }
            return out;
        }
        let mut e = j;
        while e < b && !is_whitespace(v[e])
            invariant
                j <= e <= b <= v@.len(),
                a <= j,
                s == v@.subrange(a as int, b as int),
                word_end_from(s, j - a) == word_end_from(s, e - a),
            decreases b - e,
        {
            assert(s[e - a] == v@[e as int]);
            e = e + 1;
        }
        proof {
            if e < b {
                assert(s[e - a] == v@[e as int]);
            }
            assert(word_end_from(s, e - a) == e - a);
            lemma_word_end(s, j - a);
        }
        out.push((j, e));
        proof {
            assert(s.subrange(j - a, e - a) =~= v@.subrange(j as int, e as int));
            assert(span_texts(v@, out@) =~= before.push(v@.subrange(j as int, e as int)));
            assert(span_texts(v@, out@) + words_from(s, e - a) =~= before + words_from(s, i - a));
        }
        i = e;
    }
}

/// Trimming the start of a suffix is searching from its start.
pub proof fn lemma_lead_shift(s: Seq<char>, i: int)
    requires
        0 <= i <= s.len(),
    ensures
        lead_from(s.subrange(i, s.len() as int), 0) + i == lead_from(s, i),
    decreases s.len() - i,
{
    let t = s.subrange(i, s.len() as int);
    lemma_lead_shift_from(s, t, i, 0);
}

proof fn lemma_lead_shift_from(s: Seq<char>, t: Seq<char>, i: int, m: int)
    requires
        0 <= i <= s.len(),
        t == s.subrange(i, s.len() as int),
        0 <= m <= t.len(),
    ensures
        lead_from(t, m) + i == lead_from(s, i + m),
    decreases t.len() - m,
{
    if m < t.len() {
        assert(t[m] == s[i + m]);
        lemma_lead_shift_from(s, t, i, m + 1);
    }
}

// ---------------------------------------------------------------------------
// Ordering of texts
// ---------------------------------------------------------------------------

/// `a` sorts before `b`, character by character (the order of `String`).
pub open spec fn text_less(a: Seq<char>, b: Seq<char>) -> bool
    decreases a.len(),
{
    if a.len() == 0 {
        b.len() > 0
    } else if b.len() == 0 {
        false
    } else if a[0] != b[0] {
        a[0] < b[0]
    } else {
        text_less(a.drop_first(), b.drop_first())
    }
}

pub proof fn lemma_text_less_irreflexive(a: Seq<char>)
    ensures
        !text_less(a, a),
    decreases a.len(),
{
    if a.len() > 0 {
        lemma_text_less_irreflexive(a.drop_first());
    }
}

pub proof fn lemma_text_less_transitive(a: Seq<char>, b: Seq<char>, c: Seq<char>)
    requires
        text_less(a, b),
        text_less(b, c),
    ensures
        text_less(a, c),
    decreases a.len(),
{
    if a.len() > 0 && b.len() > 0 && c.len() > 0 && a[0] == b[0] && b[0] == c[0] {
        lemma_text_less_transitive(a.drop_first(), b.drop_first(), c.drop_first());
    }
}

pub proof fn lemma_text_less_total(a: Seq<char>, b: Seq<char>)
    ensures
        a == b || text_less(a, b) || text_less(b, a),
    decreases a.len(),
{
    if a.len() > 0 && b.len() > 0 && a[0] == b[0] {
        lemma_text_less_total(a.drop_first(), b.drop_first());
        if a.drop_first() == b.drop_first() {
            assert(a =~= seq![a[0]] + a.drop_first());
            assert(b =~= seq![b[0]] + b.drop_first());
        }
    } else if a.len() == 0 && b.len() == 0 {
        assert(a =~= b);
    }
}

/// Whether `a` sorts before `b`.
pub fn less_than(a: &Vec<char>, b: &Vec<char>) -> (r: bool)
    ensures
        r == text_less(a@, b@),
{
    let mut i: usize = 0;
    assert(a@.subrange(0, a@.len() as int) =~= a@);
    assert(b@.subrange(0, b@.len() as int) =~= b@);
    while i < a.len() && i < b.len() && a[i] == b[i]
        invariant
            i <= a@.len(),
            i <= b@.len(),
            text_less(a@, b@) == text_less(a@.subrange(i as int, a@.len() as int), b@.subrange(
                i as int,
                b@.len() as int,
            )),
        decreases a.len() - i,
    {
        let ghost x = a@.subrange(i as int, a@.len() as int);
        let ghost y = b@.subrange(i as int, b@.len() as int);
        assert(x[0] == a@[i as int] && y[0] == b@[i as int]);
        assert(x.drop_first() =~= a@.subrange(i + 1, a@.len() as int));
        assert(y.drop_first() =~= b@.subrange(i + 1, b@.len() as int));
        i = i + 1;
    }
    let ghost x = a@.subrange(i as int, a@.len() as int);
    let ghost y = b@.subrange(i as int, b@.len() as int);
    if i == a.len() {
        i < b.len()
    } else if i == b.len() {
        false
    } else {
        assert(x[0] == a@[i as int] && y[0] == b@[i as int]);
        a[i] < b[i]
    }
}

/// What `str::to_lowercase` makes of a text: each character's Unicode
/// lower-case mapping.
pub uninterp spec fn lowercase(s: Seq<char>) -> Seq<char>;

/// `str::to_lowercase`. The documentation gives ASCII exactly: `A`..=`Z`
/// become `a`..=`z` and every other ASCII character stays; for other text
/// only the name is stated, since one character may map to several.
#[verifier::external_body]
pub(crate) fn to_lowercase(s: &str) -> (r: String)
    ensures
        r@ == lowercase(s@),
        is_ascii_seq(s@) ==> r@.len() == s@.len() && forall|i: int|
            0 <= i < s@.len() ==> #[trigger] r@[i] == (if 'A' <= s@[i] <= 'Z' {
                ((s@[i] as u32) + 32) as char
            } else {
                s@[i]
            }),
{
    s.to_lowercase()
}

/// What `str::to_uppercase` makes of `s`: each character by the Unicode
/// upper-case mapping.
pub uninterp spec fn uppercase_text(s: Seq<char>) -> Seq<char>;

/// `str::to_uppercase`. The documentation gives ASCII exactly: `a`..=`z`
/// become `A`..=`Z` and every other ASCII character stays; for other text
/// only the name is stated, since one character may map to several.
#[verifier::external_body]
pub(crate) fn to_uppercase_text(s: &str) -> (r: String)
    ensures
        r@ == uppercase_text(s@),
        is_ascii_seq(s@) ==> r@.len() == s@.len() && forall|i: int|
            0 <= i < s@.len() ==> #[trigger] r@[i] == (if 'a' <= s@[i] <= 'z' {
                ((s@[i] as u32) - 32) as char
            } else {
                s@[i]
            }),
{
    s.to_uppercase()
}

// ---------------------------------------------------------------------------
// Character properties from std
// ---------------------------------------------------------------------------

/// `char::is_alphanumeric`: Unicode `Alphabetic` or `Numeric`.
pub uninterp spec fn alphanumeric(c: char) -> bool;

/// Whether `c` is alphanumeric (`char::is_alphanumeric`, which is true for
/// the characters that are Unicode Alphabetic or Numeric). On ASCII that is
/// exactly the letters and digits; beyond ASCII the Unicode tables decide,
/// and the contract says no more than the name.
#[verifier::external_body]
pub(crate) fn is_alphanumeric(c: char) -> (b: bool)
    ensures
        b == alphanumeric(c),
        c <= '\u{7F}' ==> (b <==> (('a' <= c && c <= 'z') || ('A' <= c && c <= 'Z') || ('0' <= c
            && c <= '9'))),
{
    c.is_alphanumeric()
}

} // verus!
