//! Cleaning of raw command output, and the rule for where a piece of output
//! goes in a log that is redrawn like a terminal.
use vstd::prelude::*;

use crate::text::{
    chars_of, find, find_from, find_span, rfind, rfind_span, span_texts, spans_in, split,
    split_from, split_spans, string_from, trim_end_char, trim_end_char_vec,
};

verus! {

/// How a piece of output relates to what came before it.
#[derive(Clone, Copy, PartialEq, Eq, Structural, Debug)]
pub enum Chunk {
    /// One or more finished lines.
    Line,
    /// A line still being redrawn in place: slacker's download counter
    /// prints with a carriage return and no newline, so without this the
    /// window would show nothing at all for the length of a transfer.
    Progress,
}

/// Where a chunk of output goes.
#[derive(Clone, Copy, PartialEq, Eq, Structural, Debug)]
pub enum Write {
    /// Start a new line.
    New,
    /// Overwrite the line the command is redrawing.
    OverLast,
}

/// Output goes on a new line unless the last line is one the command was
/// still redrawing — a further redraw replaces it, and so does the finished
/// line, which otherwise would appear twice.
pub fn write_for(redrawing: bool, _kind: Chunk) -> (w: Write)
    ensures
        w == (if redrawing {
            Write::OverLast
        } else {
            Write::New
        }),
{
    if redrawing {
        Write::OverLast
    } else {
        Write::New
    }
}

/// What a feed remembers between pushes: whether the last line written is
/// one the command is still redrawing.
#[derive(Clone, Copy, PartialEq, Eq, Structural, Debug)]
pub struct FeedState {
    pub redrawing: bool,
}

impl FeedState {
    /// A feed that has written nothing yet.
    pub fn new() -> (s: Self)
        ensures
            !s.redrawing,
    {
        FeedState { redrawing: false }
    }

    /// Where a chunk of output goes (see [`write_for`]); afterwards the feed
    /// is redrawing exactly when the chunk was a redraw.
    pub fn push(&mut self, kind: Chunk) -> (w: Write)
        ensures
            w == (if old(self).redrawing {
                Write::OverLast
            } else {
                Write::New
            }),
            final(self).redrawing == (kind == Chunk::Progress),
    {
        let w = write_for(self.redrawing, kind);
        self.redrawing = kind == Chunk::Progress;
        w
    }

    /// A line of the window's own ends whatever was being redrawn.
    pub fn line(&mut self)
        ensures
            !final(self).redrawing,
    {
        self.redrawing = false;
    }
}

/// Where the last line of `doc` starts.
pub open spec fn last_line_start(doc: Seq<char>) -> int {
    match rfind(doc, seq!['\n']) {
        Some(k) => k + 1,
        None => 0,
    }
}

/// The text of a feed after `text` is written as `w` says: over the last
/// line, or as a line of its own after what is there.
pub open spec fn written(doc: Seq<char>, w: Write, text: Seq<char>) -> Seq<char> {
    match w {
        Write::OverLast => doc.take(last_line_start(doc)) + text,
        Write::New => if doc.len() > 0 {
            doc + seq!['\n'] + text
        } else {
            text
        },
    }
}

/// A feed's text, and whether it is redrawing, after `chunks` are pushed in
/// order into an empty feed.
pub open spec fn feed_after(chunks: Seq<(Seq<char>, Chunk)>) -> (Seq<char>, bool)
    decreases chunks.len(),
{
    if chunks.len() == 0 {
        (Seq::empty(), false)
    } else {
        let (doc, redrawing) = feed_after(chunks.drop_last());
        let w = if redrawing {
            Write::OverLast
        } else {
            Write::New
        };
        (written(doc, w, chunks.last().0), chunks.last().1 == Chunk::Progress)
    }
}

/// The lines a terminal would show for `chunks`: each chunk is a line of
/// its own, except that a chunk after a redraw takes the redraw's place.
pub open spec fn shown_entries(chunks: Seq<(Seq<char>, Chunk)>) -> Seq<Seq<char>>
    decreases chunks.len(),
{
    if chunks.len() == 0 {
        Seq::empty()
    } else {
        let prev = shown_entries(chunks.drop_last());
        if chunks.len() >= 2 && chunks[chunks.len() - 2].1 == Chunk::Progress {
            prev.drop_last().push(chunks.last().0)
        } else {
            prev.push(chunks.last().0)
        }
    }
}

proof fn lemma_join_len(ws: Seq<Seq<char>>, c: char)
    requires
        ws.len() > 0,
    ensures
        join_with(ws, c).len() >= ws.last().len(),
{
}

/// A feed shows output the way a terminal would: a redraw replaces the
/// redraw before it, a finished line replaces the last redraw, and any other
/// line is added after what is there. (Each chunk holds some text, and a
/// redraw is a single line.)
pub proof fn feed_shows_each_redraw_once(chunks: Seq<(Seq<char>, Chunk)>)
    requires
        forall|i: int| 0 <= i < chunks.len() ==> (#[trigger] chunks[i]).0.len() > 0,
        forall|i: int|
            0 <= i < chunks.len() && (#[trigger] chunks[i]).1 == Chunk::Progress ==> lacks(
                chunks[i].0,
                '\n',
            ),
    ensures
        feed_after(chunks).0 == join_with(shown_entries(chunks), '\n'),
        feed_after(chunks).1 == (chunks.len() > 0 && chunks.last().1 == Chunk::Progress),
        chunks.len() > 0 ==> shown_entries(chunks).len() > 0 && shown_entries(chunks).last()
            == chunks.last().0,
    decreases chunks.len(),
{
    let n = chunks.len() as int;
    if n > 0 {
        let prev = chunks.drop_last();
        assert forall|i: int| 0 <= i < prev.len() implies (#[trigger] prev[i]).0.len() > 0 by {
            assert(prev[i] == chunks[i]);
        }
        assert forall|i: int|
            0 <= i < prev.len() && (#[trigger] prev[i]).1 == Chunk::Progress implies lacks(
            prev[i].0,
            '\n',
        ) by {
            assert(prev[i] == chunks[i]);
        }
        feed_shows_each_redraw_once(prev);
        let (doc, redrawing) = feed_after(prev);
        let e = shown_entries(prev);
        let t = chunks.last().0;
        assert(t.len() > 0) by {
            assert(chunks[n - 1].0.len() > 0);
        }
        if n >= 2 {
            assert(prev.last() == chunks[n - 2]);
            assert(e.last() == chunks[n - 2].0);
        }
        if redrawing {
            // the last entry is the redraw, a single line
            let last = e.last();
            assert(lacks(last, '\n')) by {
                assert(chunks[n - 2].1 == Chunk::Progress);
            }
            let cr = seq!['\n'];
            crate::text::lemma_rfind_from(doc, cr, doc.len() - 1);
            if e.len() == 1 {
                assert(doc == last);
                if let Some(k) = rfind(doc, cr) {
                    assert(doc.subrange(k, k + 1)[0] == doc[k]);
                }
                assert(doc.take(0) + t =~= t);
                assert(e.drop_last().push(t) =~= seq![t]);
            } else {
                let init = e.drop_last();
                let head = join_with(init, '\n');
                let m = head.len() as int;
                assert(doc == head + cr + last);
                assert(doc.subrange(m, m + 1) =~= cr);
                assert(crate::text::matches_at(doc, cr, m));
                if let Some(k) = rfind(doc, cr) {
                    if k > m {
                        assert(doc.subrange(k, k + 1)[0] == doc[k]);
                        assert(doc[k] == last[k - m - 1]);
                    }
                }
                assert(last_line_start(doc) == m + 1);
                assert(doc.take(m + 1) =~= head + cr);
                assert(e.drop_last().push(t).drop_last() =~= init);
            }
        } else {
            if n >= 2 {
                lemma_join_len(e, '\n');
                assert(e.push(t).drop_last() =~= e);
            } else {
                assert(e.push(t) =~= seq![t]);
            }
        }
    }
}

/// How many lines to drop from the front to keep at most `max_lines`.
pub fn overflow(line_count: i32, max_lines: i32) -> (r: i32)
    requires
        line_count - max_lines <= i32::MAX,
        line_count - max_lines >= i32::MIN,
    ensures
        r == (if line_count > max_lines {
            line_count - max_lines
        } else {
            0
        }),
{
    if line_count > max_lines {
        line_count - max_lines
    } else {
        0
    }
}

// ---------------------------------------------------------------------------
// Escape sequences
// ---------------------------------------------------------------------------

pub open spec fn esc() -> char {
    '\u{1b}'
}

/// Past the end of a CSI sequence whose parameters start at `j`: after the
/// first character in `0x40..=0x7e`, or the end of the text.
pub open spec fn csi_end(s: Seq<char>, j: int) -> int
    decreases s.len() - j,
{
    if j < 0 || j >= s.len() {
        s.len() as int
    } else if '\u{40}' <= s[j] && s[j] <= '\u{7e}' {
        j + 1
    } else {
        csi_end(s, j + 1)
    }
}

/// Past the end of an OSC sequence whose body starts at `j`: after a BEL or
/// after `ESC \`, or the end of the text.
pub open spec fn osc_end(s: Seq<char>, j: int) -> int
    decreases s.len() - j,
{
    if j < 0 || j >= s.len() {
        s.len() as int
    } else if s[j] == '\u{7}' {
        j + 1
    } else if s[j] == esc() && j + 1 < s.len() && s[j + 1] == '\\' {
        j + 2
    } else {
        osc_end(s, j + 1)
    }
}

pub proof fn lemma_csi_end(s: Seq<char>, j: int)
    requires
        0 <= j,
    ensures
        j <= csi_end(s, j) <= s.len() || (j > s.len() && csi_end(s, j) == s.len()),
        csi_end(s, j) > j || j >= s.len(),
    decreases s.len() - j,
{
    if j < s.len() && !('\u{40}' <= s[j] && s[j] <= '\u{7e}') {
        lemma_csi_end(s, j + 1);
    }
}

pub proof fn lemma_osc_end(s: Seq<char>, j: int)
    requires
        0 <= j,
    ensures
        j <= osc_end(s, j) <= s.len() || (j > s.len() && osc_end(s, j) == s.len()),
        osc_end(s, j) > j || j >= s.len(),
    decreases s.len() - j,
{
    if j < s.len() && s[j] != '\u{7}' && !(s[j] == esc() && j + 1 < s.len() && s[j + 1] == '\\') {
        lemma_osc_end(s, j + 1);
    }
}

/// `s[i..]` without ANSI escape sequences: CSI (`ESC [ ... final`), OSC
/// (`ESC ] ... BEL` or `ESC ] ... ESC \`) and any other two-character
/// escape; an escape character at the very end is dropped.
pub open spec fn strip_from(s: Seq<char>, i: int) -> Seq<char>
    decreases s.len() - i,
    via strip_from_decreases
{
    if i < 0 || i >= s.len() {
        Seq::empty()
    } else if s[i] != esc() {
        seq![s[i]] + strip_from(s, i + 1)
    } else if i + 1 >= s.len() {
        Seq::empty()
    } else if s[i + 1] == '[' {
        strip_from(s, csi_end(s, i + 2))
    } else if s[i + 1] == ']' {
        strip_from(s, osc_end(s, i + 2))
    } else {
        strip_from(s, i + 2)
    }
}

#[via_fn]
proof fn strip_from_decreases(s: Seq<char>, i: int) {
    if 0 <= i < s.len() {
        lemma_csi_end(s, i + 2);
        lemma_osc_end(s, i + 2);
    }
}

pub open spec fn strip_ansi_spec(s: Seq<char>) -> Seq<char> {
    strip_from(s, 0)
}

/// Where the OSC sequence whose body starts at `j` ends.
fn osc_scan(v: &[char], j: usize) -> (e: usize)
    requires
        j <= v@.len(),
    ensures
        e == osc_end(v@, j as int),
{
    let n = v.len();
    let mut k = j;
    while k < n
        invariant
            j <= k <= n == v@.len(),
            osc_end(v@, j as int) == osc_end(v@, k as int),
        decreases n - k,
    {
        if v[k] == '\u{7}' {
            return k + 1;
        }
        if v[k] == '\u{1b}' && k + 1 < n && v[k + 1] == '\\' {
            return k + 2;
        }
        k = k + 1;
    }
    n
}

/// The text without ANSI escape sequences.
pub fn strip_ansi(v: &[char]) -> (r: Vec<char>)
    ensures
        r@ == strip_ansi_spec(v@),
{
    let n = v.len();
    let mut out: Vec<char> = Vec::new();
    let mut i: usize = 0;
    while i < n
        invariant
            i <= n == v@.len(),
            out@ + strip_from(v@, i as int) == strip_ansi_spec(v@),
        decreases n - i,
    {
        let c = v[i];
        if c != '\u{1b}' {
            let ghost o = out@;
            out.push(c);
            assert(out@ + strip_from(v@, i + 1) =~= o + strip_from(v@, i as int));
            i = i + 1;
        } else if i + 1 >= n {
            assert(strip_from(v@, i as int) =~= Seq::<char>::empty());
            assert(out@ + Seq::<char>::empty() =~= out@);
            proof {
                assert(strip_from(v@, n as int) =~= Seq::<char>::empty());
                assert(out@ + strip_from(v@, n as int) =~= out@);
            }
            i = n;
        } else if v[i + 1] == '[' {
            let mut j = i + 2;
            while j < n && !('\u{40}' <= v[j] && v[j] <= '\u{7e}')
                invariant
                    i + 2 <= j <= n == v@.len(),
                    csi_end(v@, i + 2) == csi_end(v@, j as int),
                decreases n - j,
            {
                j = j + 1;
            }
            let e = if j < n {
                j + 1
            } else {
                n
            };
            assert(csi_end(v@, j as int) == e);
            proof {
                lemma_csi_end(v@, i + 2);
            }
            i = e;
        } else if v[i + 1] == ']' {
            proof {
                lemma_osc_end(v@, i + 2);
            }
            i = osc_scan(v, i + 2);
        } else {
            i = i + 2;
        }
    }
    assert(strip_from(v@, i as int) =~= Seq::<char>::empty());
    assert(out@ + Seq::<char>::empty() =~= out@);
    out
}

// ---------------------------------------------------------------------------
// Cleaning
// ---------------------------------------------------------------------------

/// How a line of raw output shows on a terminal: trailing carriage returns
/// dropped, then only what was drawn after the last remaining one.
pub open spec fn shown_line(line: Seq<char>) -> Seq<char> {
    let l = trim_end_char(line, '\r');
    match rfind(l, seq!['\r']) {
        Some(k) => l.subrange(k + 1, l.len() as int),
        None => l,
    }
}

/// The pieces joined with `c` between them.
pub open spec fn join_with(ws: Seq<Seq<char>>, c: char) -> Seq<char>
    decreases ws.len(),
{
    if ws.len() == 0 {
        Seq::empty()
    } else if ws.len() == 1 {
        ws[0]
    } else {
        join_with(ws.drop_last(), c) + seq![c] + ws.last()
    }
}

/// Display text for decoded output: escape sequences removed, each line
/// reduced to what a terminal shows, lines joined with newlines, and no
/// trailing newline.
pub open spec fn cleaned(text: Seq<char>) -> Seq<char> {
    let plain = strip_ansi_spec(text);
    trim_end_char(
        join_with(split(plain, seq!['\n']).map_values(|l: Seq<char>| shown_line(l)), '\n'),
        '\n',
    )
}

/// `s` does not end in `c`.
pub open spec fn ends_without(s: Seq<char>, c: char) -> bool {
    s.len() == 0 || s.last() != c
}

/// `c` does not occur in `s`.
pub open spec fn lacks(s: Seq<char>, c: char) -> bool {
    forall|k: int| 0 <= k < s.len() ==> s[k] != c
}

proof fn lemma_strip_lacks_esc(s: Seq<char>, i: int)
    requires
        0 <= i,
    ensures
        lacks(strip_from(s, i), esc()),
    decreases s.len() - i,
{
    if i < s.len() {
        if s[i] != esc() {
            lemma_strip_lacks_esc(s, i + 1);
            let rest = strip_from(s, i + 1);
            assert forall|k: int| 0 <= k < (seq![s[i]] + rest).len() implies (seq![s[i]]
                + rest)[k] != esc() by {
                if k > 0 {
                    assert((seq![s[i]] + rest)[k] == rest[k - 1]);
                }
            }
        } else if i + 1 >= s.len() {
        } else if s[i + 1] == '[' {
            lemma_csi_end(s, i + 2);
            lemma_strip_lacks_esc(s, csi_end(s, i + 2));
        } else if s[i + 1] == ']' {
            lemma_osc_end(s, i + 2);
            lemma_strip_lacks_esc(s, osc_end(s, i + 2));
        } else {
            lemma_strip_lacks_esc(s, i + 2);
        }
    }
}

proof fn lemma_split_lacks(s: Seq<char>, p: Seq<char>, i: int, c: char)
    requires
        0 <= i <= s.len(),
        lacks(s, c),
    ensures
        forall|k: int| 0 <= k < split_from(s, p, i).len() ==> lacks(#[trigger] split_from(s, p, i)[k], c),
    decreases s.len() + 1 - i,
{
    if p.len() > 0 {
        crate::text::lemma_find_from(s, p, i);
        match find_from(s, p, i) {
            Some(k) => {
                lemma_split_lacks(s, p, k + p.len(), c);
                let head = s.subrange(i, k);
                let rest = split_from(s, p, k + p.len());
                assert forall|m: int| 0 <= m < (seq![head] + rest).len() implies lacks(
                    #[trigger] (seq![head] + rest)[m],
                    c,
                ) by {
                    if m > 0 {
                        assert((seq![head] + rest)[m] == rest[m - 1]);
                    } else {
                        assert forall|j: int| 0 <= j < head.len() implies head[j] != c by {
                            assert(head[j] == s[i + j]);
                        }
                    }
                }
            },
            None => {
                let t = s.subrange(i, s.len() as int);
                assert forall|j: int| 0 <= j < t.len() implies t[j] != c by {
                    assert(t[j] == s[i + j]);
                }
            },
        }
    } else {
        let t = s.subrange(i, s.len() as int);
        assert forall|j: int| 0 <= j < t.len() implies t[j] != c by {
            assert(t[j] == s[i + j]);
        }
    }
}

proof fn lemma_shown_line_plain(line: Seq<char>)
    ensures
        lacks(shown_line(line), '\r'),
        lacks(line, esc()) ==> lacks(shown_line(line), esc()),
{
    let l = trim_end_char(line, '\r');
    crate::text::lemma_trail_char_bounds(line, line.len() as int, '\r');
    let cr = seq!['\r'];
    crate::text::lemma_rfind_from(l, cr, l.len() - 1);
    match rfind(l, cr) {
        Some(k) => {
            let t = l.subrange(k + 1, l.len() as int);
            assert forall|j: int| 0 <= j < t.len() implies t[j] != '\r' by {
                assert(t[j] == l[k + 1 + j]);
                if l[k + 1 + j] == '\r' {
                    assert(l.subrange(k + 1 + j, k + 2 + j) =~= cr);
                    assert(crate::text::matches_at(l, cr, k + 1 + j));
                }
            }
            assert forall|j: int| 0 <= j < t.len() && lacks(line, esc()) implies t[j] != esc() by {
                assert(t[j] == line[k + 1 + j]);
            }
        },
        None => {
            assert forall|j: int| 0 <= j < l.len() implies l[j] != '\r' by {
                if l[j] == '\r' {
                    assert(l.subrange(j, j + 1) =~= cr);
                    assert(crate::text::matches_at(l, cr, j));
                }
            }
            assert forall|j: int| 0 <= j < l.len() && lacks(line, esc()) implies l[j] != esc() by {
                assert(l[j] == line[j]);
            }
        },
    }
}

proof fn lemma_join_lacks(ws: Seq<Seq<char>>, sep: char, c: char)
    requires
        sep != c,
        forall|k: int| 0 <= k < ws.len() ==> lacks(#[trigger] ws[k], c),
    ensures
        lacks(join_with(ws, sep), c),
    decreases ws.len(),
{
    if ws.len() > 1 {
        let init = ws.drop_last();
        assert forall|k: int| 0 <= k < init.len() implies lacks(#[trigger] init[k], c) by {
            assert(init[k] == ws[k]);
        }
        lemma_join_lacks(init, sep, c);
        let a = join_with(init, sep);
        let last = ws[ws.len() - 1];
        assert(lacks(last, c));
        assert forall|j: int| 0 <= j < (a + seq![sep] + last).len() implies (a + seq![sep]
            + last)[j] != c by {
            if j > a.len() {
                assert((a + seq![sep] + last)[j] == last[j - a.len() - 1]);
            } else if j < a.len() {
                assert((a + seq![sep] + last)[j] == a[j]);
            }
        }
    } else if ws.len() == 1 {
        assert(lacks(ws[0], c));
    }
}

/// Display text is plain: no escape character survives cleaning, and no
/// carriage return — every redraw is reduced to what it left on screen.
pub proof fn lemma_cleaned_is_plain(text: Seq<char>)
    ensures
        lacks(cleaned(text), esc()),
        lacks(cleaned(text), '\r'),
        ends_without(cleaned(text), '\n'),
{
    let plain = strip_ansi_spec(text);
    lemma_strip_lacks_esc(text, 0);
    let pieces = split(plain, seq!['\n']);
    lemma_split_lacks(plain, seq!['\n'], 0, esc());
    let shown = pieces.map_values(|l: Seq<char>| shown_line(l));
    assert forall|k: int| 0 <= k < shown.len() implies lacks(#[trigger] shown[k], esc()) && lacks(
        shown[k],
        '\r',
    ) by {
        lemma_shown_line_plain(pieces[k]);
    }
    let joined = join_with(shown, '\n');
    lemma_join_lacks(shown, '\n', esc());
    lemma_join_lacks(shown, '\n', '\r');
    lemma_trim_end_char(joined, '\n');
}

/// Trimming trailing copies of `c` keeps a prefix that does not end in `c`.
proof fn lemma_trim_end_char(s: Seq<char>, c: char)
    ensures
        trim_end_char(s, c) == s.subrange(0, trim_end_char(s, c).len() as int),
        trim_end_char(s, c).len() <= s.len(),
        ends_without(trim_end_char(s, c), c),
        forall|d: char| lacks(s, d) ==> lacks(#[trigger] trim_end_char(s, c), d),
        s.len() > 0 && s.last() != c ==> trim_end_char(s, c) == s,
{
    crate::text::lemma_trail_char_bounds(s, s.len() as int, c);
    lemma_trail_stops(s, s.len() as int, c);
    let t = trim_end_char(s, c);
    assert forall|d: char| lacks(s, d) implies lacks(#[trigger] trim_end_char(s, c), d) by {
        assert forall|j: int| 0 <= j < t.len() implies t[j] != d by {
            assert(t[j] == s[j]);
        }
    }
    if s.len() > 0 && s.last() != c {
        assert(t =~= s);
    }
}

proof fn lemma_trail_stops(s: Seq<char>, j: int, c: char)
    requires
        0 <= j <= s.len(),
    ensures
        crate::text::trail_char_from(s, j, c) == 0 || s[crate::text::trail_char_from(s, j, c) - 1]
            != c,
    decreases j,
{
    if 0 < j && s[j - 1] == c {
        lemma_trail_stops(s, j - 1, c);
    }
}

/// Text that holds no escape character and no carriage return is shown as
/// it is, without its trailing newlines.
pub proof fn lemma_plain_text_is_kept(text: Seq<char>)
    requires
        lacks(text, esc()),
        lacks(text, '\r'),
    ensures
        cleaned(text) == trim_end_char(text, '\n'),
{
    lemma_strip_plain(text, 0);
    assert(text.subrange(0, text.len() as int) =~= text);
    let pieces = split(text, seq!['\n']);
    lemma_split_lacks(text, seq!['\n'], 0, '\r');
    let shown = pieces.map_values(|l: Seq<char>| shown_line(l));
    assert forall|k: int| 0 <= k < pieces.len() implies shown[k] == pieces[k] by {
        lemma_shown_line_keeps(pieces[k]);
    }
    assert(shown =~= pieces);
    lemma_join_split(text, '\n', 0);
}

proof fn lemma_strip_plain(s: Seq<char>, i: int)
    requires
        lacks(s, esc()),
        0 <= i <= s.len(),
    ensures
        strip_from(s, i) == s.subrange(i, s.len() as int),
    decreases s.len() - i,
{
    if i < s.len() {
        lemma_strip_plain(s, i + 1);
        assert(s.subrange(i, s.len() as int) =~= seq![s[i]] + s.subrange(i + 1, s.len() as int));
    } else {
        assert(s.subrange(i, s.len() as int) =~= Seq::<char>::empty());
    }
}

proof fn lemma_shown_line_keeps(l: Seq<char>)
    requires
        lacks(l, '\r'),
    ensures
        shown_line(l) == l,
{
    crate::text::lemma_trail_char_bounds(l, l.len() as int, '\r');
    if l.len() > 0 {
        lemma_trim_end_char(l, '\r');
    } else {
        assert(trim_end_char(l, '\r') =~= l);
    }
    let cr = seq!['\r'];
    crate::text::lemma_rfind_from(l, cr, l.len() - 1);
    if let Some(k) = rfind(l, cr) {
        assert(l.subrange(k, k + 1)[0] == l[k]);
    }
}

/// Joining a piece in front of other pieces puts the separator between.
proof fn lemma_join_front(a: Seq<char>, ws: Seq<Seq<char>>, c: char)
    requires
        ws.len() >= 1,
    ensures
        join_with(seq![a] + ws, c) == a + seq![c] + join_with(ws, c),
    decreases ws.len(),
{
    let all = seq![a] + ws;
    assert(all.last() == ws.last());
    if ws.len() == 1 {
        assert(all.drop_last() =~= seq![a]);
        assert(join_with(seq![a], c) == a);
        assert(join_with(ws, c) == ws[0]);
    } else {
        assert(all.drop_last() =~= seq![a] + ws.drop_last());
        lemma_join_front(a, ws.drop_last(), c);
        assert(join_with(all, c) =~= a + seq![c] + join_with(ws, c));
    }
}

/// Splitting at `c` and joining with `c` gives the text back.
proof fn lemma_join_split(s: Seq<char>, c: char, i: int)
    requires
        0 <= i <= s.len(),
    ensures
        join_with(split_from(s, seq![c], i), c) == s.subrange(i, s.len() as int),
    decreases s.len() + 1 - i,
{
    let p = seq![c];
    crate::text::lemma_find_from(s, p, i);
    match find_from(s, p, i) {
        Some(k) => {
            lemma_join_split(s, c, k + 1);
            let rest = split_from(s, p, k + 1);
            assert(rest.len() >= 1);
            lemma_join_front(s.subrange(i, k), rest, c);
            assert(s.subrange(k, k + 1)[0] == s[k]);
            assert(s.subrange(i, s.len() as int) =~= s.subrange(i, k) + seq![c] + s.subrange(
                k + 1,
                s.len() as int,
            ));
        },
        None => {},
    }
}

/// Pieces that do not hold `c`, joined with `c`, split at `c` into the same
/// pieces.
pub proof fn lemma_split_join(ws: Seq<Seq<char>>, c: char)
    requires
        ws.len() >= 1,
        forall|k: int| 0 <= k < ws.len() ==> lacks(#[trigger] ws[k], c),
    ensures
        split(join_with(ws, c), seq![c]) == ws,
    decreases ws.len(),
{
    if ws.len() == 1 {
        assert(lacks(ws[0], c));
        crate::text::lemma_split_whole(ws[0], c);
    } else {
        let rest = ws.drop_first();
        assert forall|k: int| 0 <= k < rest.len() implies lacks(#[trigger] rest[k], c) by {
            assert(rest[k] == ws[k + 1]);
        }
        lemma_split_join(rest, c);
        assert(seq![ws[0]] + rest =~= ws);
        lemma_join_front(ws[0], rest, c);
        assert(lacks(ws[0], c));
        crate::text::lemma_split_first(ws[0], c, join_with(rest, c));
        assert(seq![ws[0]] + rest =~= ws);
    }
}

fn shown_line_exec(v: &[char], a: usize, b: usize) -> (r: Vec<char>)
    requires
        a <= b <= v@.len(),
    ensures
        r@ == shown_line(v@.subrange(a as int, b as int)),
{
    let ghost line = v@.subrange(a as int, b as int);
    let mut e = b;
    while e > a && v[e - 1] == '\r'
        invariant
            a <= e <= b <= v@.len(),
            line == v@.subrange(a as int, b as int),
            crate::text::trail_char_from(line, line.len() as int, '\r')
                == crate::text::trail_char_from(line, e - a, '\r'),
        decreases e,
    {
        assert(line[e - a - 1] == v@[e - 1]);
        e = e - 1;
    }
    proof {
        if e > a {
            assert(line[e - a - 1] == v@[e - 1]);
        }
        assert(crate::text::trail_char_from(line, e - a, '\r') == e - a);
        assert(trim_end_char(line, '\r') =~= v@.subrange(a as int, e as int));
    }
    let cr = vec!['\r'];
    assert(cr@ =~= seq!['\r']);
    let s = match rfind_span(v, a, e, cr.as_slice()) {
        Some(k) => k + 1,
        None => a,
    };
    proof {
        let l = v@.subrange(a as int, e as int);
        if s > a {
            assert(l.subrange(s - a, l.len() as int) =~= v@.subrange(s as int, e as int));
        }
    }
    let mut out: Vec<char> = Vec::new();
    let mut k = s;
    while k < e
        invariant
            s <= k <= e <= v@.len(),
            out@ == v@.subrange(s as int, k as int),
        decreases e - k,
    {
        out.push(v[k]);
        assert(out@ =~= v@.subrange(s as int, k + 1));
        k = k + 1;
    }
    out
}

/// Display text for output that is already decoded: see [`cleaned`].
pub fn clean_text(text: &str) -> (r: String)
    ensures
        r@ == cleaned(text@),
        lacks(r@, esc()),
        lacks(r@, '\r'),
        ends_without(r@, '\n'),
        lacks(text@, esc()) && lacks(text@, '\r') ==> r@ == trim_end_char(text@, '\n'),
{
    proof {
        lemma_cleaned_is_plain(text@);
        if lacks(text@, esc()) && lacks(text@, '\r') {
            lemma_plain_text_is_kept(text@);
        }
    }
    let joined = joined_lines(text);
    let shown_text = trim_end_char_vec(&joined, '\n');
    string_from(&shown_text)
}

/// The lines of `text`, escape sequences removed and each reduced to what a
/// terminal shows, joined with newlines.
fn joined_lines(text: &str) -> (out: Vec<char>)
    ensures
        out@ == join_with(
            split(strip_ansi_spec(text@), seq!['\n']).map_values(|l: Seq<char>| shown_line(l)),
            '\n',
        ),
{
    let raw = chars_of(text);
    let plain = strip_ansi(raw.as_slice());
    let n = plain.len();
    assert(plain@ =~= plain@.subrange(0, n as int));
    let nl = vec!['\n'];
    assert(nl@ =~= seq!['\n']);
    let pieces = split_spans(plain.as_slice(), 0, n, nl.as_slice(), 0);
    let ghost pv = span_texts(plain@, pieces@);
    let ghost shown = pv.map_values(|l: Seq<char>| shown_line(l));
    let mut out: Vec<char> = Vec::new();
    let mut k: usize = 0;
    assert(shown.take(0) =~= Seq::<Seq<char>>::empty());
    while k < pieces.len()
        invariant
            k <= pieces@.len(),
            spans_in(plain@, pieces@),
            pv == span_texts(plain@, pieces@),
            shown == pv.map_values(|l: Seq<char>| shown_line(l)),
            out@ == join_with(shown.take(k as int), '\n'),
        decreases pieces.len() - k,
    {
        let (x, y) = pieces[k];
        assert(pv[k as int] == plain@.subrange(x as int, y as int));
        let line = shown_line_exec(plain.as_slice(), x, y);
        let ghost o0 = out@;
        if k > 0 {
            out.push('\n');
        }
        let ghost o1 = out@;
        let mut m: usize = 0;
        while m < line.len()
            invariant
                m <= line@.len(),
                out@ == o1 + line@.subrange(0, m as int),
            decreases line.len() - m,
        {
            out.push(line[m]);
            assert(out@ =~= o1 + line@.subrange(0, m + 1));
            m = m + 1;
        }
        proof {
            let t = shown.take(k + 1);
            assert(t.drop_last() =~= shown.take(k as int));
            assert(t.last() == line@);
            assert(line@.subrange(0, line@.len() as int) =~= line@);
            if k == 0 {
                assert(out@ =~= join_with(t, '\n'));
            } else {
                assert(out@ =~= join_with(t, '\n'));
            }
        }
        k = k + 1;
    }
    assert(shown.take(k as int) =~= shown);
    out
}

/// The text that `String::from_utf8_lossy` makes of `bytes`: invalid
/// sequences become U+FFFD.
pub uninterp spec fn utf8_lossy(bytes: Seq<u8>) -> Seq<char>;

/// `String::from_utf8_lossy`. Its documentation promises that valid UTF-8
/// comes back as the same text; how invalid sequences are replaced is left
/// to the name.
#[verifier::external_body]
fn decode_lossy(raw: &[u8]) -> (s: String)
    ensures
        s@ == utf8_lossy(raw@),
        vstd::utf8::valid_utf8(raw@) ==> s@ == vstd::utf8::decode_utf8(raw@),
{
    String::from_utf8_lossy(raw).into_owned()
}

/// Turns raw bytes into display text: lossy UTF-8, ANSI escape sequences
/// removed, and carriage-return redraws (progress lines) reduced to the
/// last state, the way a terminal would show them. No trailing newline.
pub fn clean(raw: &[u8]) -> (r: String)
    ensures
        r@ == cleaned(utf8_lossy(raw@)),
        vstd::utf8::valid_utf8(raw@) ==> r@ == cleaned(vstd::utf8::decode_utf8(raw@)),
        lacks(r@, esc()),
        lacks(r@, '\r'),
        ends_without(r@, '\n'),
        vstd::utf8::valid_utf8(raw@) && lacks(vstd::utf8::decode_utf8(raw@), esc()) && lacks(
            vstd::utf8::decode_utf8(raw@),
            '\r',
        ) ==> r@ == trim_end_char(vstd::utf8::decode_utf8(raw@), '\n'),
{
    let text = decode_lossy(raw);
    clean_text(text.as_str())
}

} // verus!
