//! `slacker status`: sections of rows `"  {mark} {label:<10} {detail}"`,
//! continuation lines, and the verdict with its steps, notes and hints.
//!
//! Labels longer than ten characters are followed by a single space, so the
//! end of a label cannot be found from the text alone; the fixed set below
//! is matched longest first. A continuation line (13 spaces) belongs to the
//! row above it. The verdict follows the last section: a line that is not
//! indented, then `  → step`, `  ! note` and `  · hint` lines.
use vstd::prelude::*;

use crate::parse::two_spaces;
use crate::text::{
    chars_of, line_spans, lines, push_string, span_eq, span_starts_with, span_texts, spans_in,
    starts_with, string_of, strs, trim, trim_end, trim_end_span, trim_span, trim_start,
    trim_start_span,
};

verus! {

#[derive(Debug, Clone, Copy, PartialEq, Eq, Structural)]
pub enum Mark {
    Pass,
    Bad,
    Warn,
    Info,
}

pub open spec fn mark_of(c: char) -> Option<Mark> {
    if c == '\u{2713}' {
        Some(Mark::Pass)
    } else if c == '\u{2717}' {
        Some(Mark::Bad)
    } else if c == '!' {
        Some(Mark::Warn)
    } else if c == '\u{00B7}' {
        Some(Mark::Info)
    } else {
        None
    }
}

impl Mark {
    /// The mark a row starts with: `✓`, `✗`, `!` or `·`.
    pub fn from_char(c: char) -> (r: Option<Mark>)
        ensures
            r == mark_of(c),
            r == Some(Mark::Pass) <==> c == '\u{2713}',
            r == Some(Mark::Bad) <==> c == '\u{2717}',
            r == Some(Mark::Warn) <==> c == '!',
            r == Some(Mark::Info) <==> c == '\u{00B7}',
    {
        if c == '\u{2713}' {
            Some(Mark::Pass)
        } else if c == '\u{2717}' {
            Some(Mark::Bad)
        } else if c == '!' {
            Some(Mark::Warn)
        } else if c == '\u{00B7}' {
            Some(Mark::Info)
        } else {
            None
        }
    }
}

/// Every label `status` prints, plus the empty one.
pub const LABELS: [&'static str; 34] = [
    "Pkgtools",
    "Tools",
    "Locate DB",
    "Config dir",
    "Config",
    "Mirror",
    "Freshness",
    "Repos",
    "Cache",
    "Tag rules",
    "Verify",
    "Transport",
    "Credentials",
    "Repo release",
    "Repo arch",
    "Repo trust",
    "GPG keys",
    "Metadata",
    "Blacklist",
    "Pins",
    "Tag prio",
    "Configs",
    "Integrity",
    "Symlinks",
    "Writable",
    "Ownership",
    "Admin dir",
    "Packages",
    "By source",
    "Connection",
    "Reachable",
    "Updates",
    "All repos",
    "Stock-db",
];

pub const SECTIONS: [&'static str; 4] = ["Environment", "Setup", "Installed", "Online"];

/// The `k`-th label, longest first (labels of equal length in the order of
/// `LABELS`).
pub open spec fn label_spec(k: int) -> Seq<char> {
    if k == 0 {
        "Repo release"@
    } else if k == 1 {
        "Credentials"@
    } else if k == 2 {
        "Config dir"@
    } else if k == 3 {
        "Repo trust"@
    } else if k == 4 {
        "Connection"@
    } else if k == 5 {
        "Locate DB"@
    } else if k == 6 {
        "Freshness"@
    } else if k == 7 {
        "Tag rules"@
    } else if k == 8 {
        "Transport"@
    } else if k == 9 {
        "Repo arch"@
    } else if k == 10 {
        "Blacklist"@
    } else if k == 11 {
        "Integrity"@
    } else if k == 12 {
        "Ownership"@
    } else if k == 13 {
        "Admin dir"@
    } else if k == 14 {
        "By source"@
    } else if k == 15 {
        "Reachable"@
    } else if k == 16 {
        "All repos"@
    } else if k == 17 {
        "Pkgtools"@
    } else if k == 18 {
        "GPG keys"@
    } else if k == 19 {
        "Metadata"@
    } else if k == 20 {
        "Tag prio"@
    } else if k == 21 {
        "Symlinks"@
    } else if k == 22 {
        "Writable"@
    } else if k == 23 {
        "Packages"@
    } else if k == 24 {
        "Stock-db"@
    } else if k == 25 {
        "Configs"@
    } else if k == 26 {
        "Updates"@
    } else if k == 27 {
        "Config"@
    } else if k == 28 {
        "Mirror"@
    } else if k == 29 {
        "Verify"@
    } else if k == 30 {
        "Tools"@
    } else if k == 31 {
        "Repos"@
    } else if k == 32 {
        "Cache"@
    } else {
        "Pins"@
    }
}

fn label_exec(k: usize) -> (l: &'static str)
    requires
        k < 34,
    ensures
        l@ == label_spec(k as int),
{
    if k == 0 {
        "Repo release"
    } else if k == 1 {
        "Credentials"
    } else if k == 2 {
        "Config dir"
    } else if k == 3 {
        "Repo trust"
    } else if k == 4 {
        "Connection"
    } else if k == 5 {
        "Locate DB"
    } else if k == 6 {
        "Freshness"
    } else if k == 7 {
        "Tag rules"
    } else if k == 8 {
        "Transport"
    } else if k == 9 {
        "Repo arch"
    } else if k == 10 {
        "Blacklist"
    } else if k == 11 {
        "Integrity"
    } else if k == 12 {
        "Ownership"
    } else if k == 13 {
        "Admin dir"
    } else if k == 14 {
        "By source"
    } else if k == 15 {
        "Reachable"
    } else if k == 16 {
        "All repos"
    } else if k == 17 {
        "Pkgtools"
    } else if k == 18 {
        "GPG keys"
    } else if k == 19 {
        "Metadata"
    } else if k == 20 {
        "Tag prio"
    } else if k == 21 {
        "Symlinks"
    } else if k == 22 {
        "Writable"
    } else if k == 23 {
        "Packages"
    } else if k == 24 {
        "Stock-db"
    } else if k == 25 {
        "Configs"
    } else if k == 26 {
        "Updates"
    } else if k == 27 {
        "Config"
    } else if k == 28 {
        "Mirror"
    } else if k == 29 {
        "Verify"
    } else if k == 30 {
        "Tools"
    } else if k == 31 {
        "Repos"
    } else if k == 32 {
        "Cache"
    } else {
        "Pins"
    }
}

/// Each label is at least as long as the one tried after it.
proof fn lemma_label_step(k: int)
    requires
        0 <= k < 33,
    ensures
        label_spec(k).len() >= label_spec(k + 1).len(),
{
    reveal_strlit("Repo release");
    reveal_strlit("Credentials");
    reveal_strlit("Config dir");
    reveal_strlit("Repo trust");
    reveal_strlit("Connection");
    reveal_strlit("Locate DB");
    reveal_strlit("Freshness");
    reveal_strlit("Tag rules");
    reveal_strlit("Transport");
    reveal_strlit("Repo arch");
    reveal_strlit("Blacklist");
    reveal_strlit("Integrity");
    reveal_strlit("Ownership");
    reveal_strlit("Admin dir");
    reveal_strlit("By source");
    reveal_strlit("Reachable");
    reveal_strlit("All repos");
    reveal_strlit("Pkgtools");
    reveal_strlit("GPG keys");
    reveal_strlit("Metadata");
    reveal_strlit("Tag prio");
    reveal_strlit("Symlinks");
    reveal_strlit("Writable");
    reveal_strlit("Packages");
    reveal_strlit("Stock-db");
    reveal_strlit("Configs");
    reveal_strlit("Updates");
    reveal_strlit("Config");
    reveal_strlit("Mirror");
    reveal_strlit("Verify");
    reveal_strlit("Tools");
    reveal_strlit("Repos");
    reveal_strlit("Cache");
    reveal_strlit("Pins");
}

/// The labels are tried longest first.
proof fn lemma_labels_longest_first(i: int, j: int)
    requires
        0 <= i <= j < 34,
    ensures
        label_spec(i).len() >= label_spec(j).len(),
    decreases j - i,
{
    if i < j {
        lemma_label_step(i);
        lemma_labels_longest_first(i + 1, j);
    }
}

pub open spec fn label_matches(rest: Seq<char>, l: Seq<char>) -> bool {
    starts_with(rest, l) && (rest.len() == l.len() || rest[l.len() as int] == ' ')
}

pub open spec fn eleven_spaces() -> Seq<char> {
    Seq::new(11, |i: int| ' ')
}

/// The label a row's text starts with, tried longest first, and the detail
/// after it; the unlabelled row (eleven spaces) gives an empty label.
pub open spec fn match_label_from(rest: Seq<char>, k: int) -> Option<(Seq<char>, Seq<char>)>
    decreases 34 - k,
{
    if k < 0 || k >= 34 {
        if starts_with(rest, eleven_spaces()) {
            Some((Seq::empty(), trim_start(rest.subrange(11, rest.len() as int))))
        } else {
            None
        }
    } else if label_matches(rest, label_spec(k)) {
        Some(
            (
                label_spec(k),
                trim_start(rest.subrange(label_spec(k).len() as int, rest.len() as int)),
            ),
        )
    } else {
        match_label_from(rest, k + 1)
    }
}

pub open spec fn match_label_spec(rest: Seq<char>) -> Option<(Seq<char>, Seq<char>)> {
    match_label_from(rest, 0)
}

proof fn lemma_label_found(rest: Seq<char>, k: int, m: int)
    requires
        0 <= k <= m < 34,
        label_matches(rest, label_spec(m)),
    ensures
        match_label_from(rest, k) matches Some((l, _)) && label_matches(rest, l) && l.len()
            >= label_spec(m).len(),
    decreases m - k,
{
    if label_matches(rest, label_spec(k)) {
        lemma_labels_longest_first(k, m);
    } else {
        lemma_label_found(rest, k + 1, m);
    }
}

/// Labels that begin like another label do not collide: when a row's text
/// starts with a label (as a whole word), the label found is one it starts
/// with, and none it starts with is longer.
pub proof fn longest_label_wins(rest: Seq<char>, m: int)
    requires
        0 <= m < 34,
        label_matches(rest, label_spec(m)),
    ensures
        match_label_spec(rest) matches Some((l, _)) && label_matches(rest, l) && l.len()
            >= label_spec(m).len(),
{
    lemma_label_found(rest, 0, m);
}

/// Splits a row's text into its label and detail.
pub fn match_label(rest: &str) -> (r: Option<(&'static str, &str)>)
    ensures
        r matches Some(x) ==> match_label_spec(rest@) == Some((x.0@, x.1@)),
        r is None ==> match_label_spec(rest@) is None,
{
    let v = chars_of(rest);
    let n = v.len();
    assert(v@.subrange(0, n as int) =~= v@);
    let mut k: usize = 0;
    while k < 34
        invariant
            k <= 34,
            v@ == rest@,
            n == v@.len(),
            v@.subrange(0, n as int) == rest@,
            match_label_spec(rest@) == match_label_from(rest@, k as int),
        decreases 34 - k,
    {
        let l = label_exec(k);
        let lv = chars_of(l);
        proof {
            if lv@.len() < n {
                assert(rest@[lv@.len() as int] == v@[lv@.len() as int]);
            }
        }
        if span_starts_with(v.as_slice(), 0, n, lv.as_slice()) {
            let m = lv.len();
            if m == n || v[m] == ' ' {
                let s = trim_start_span(v.as_slice(), m, n);
                let d = rest.substring_char(s, n);
                assert(rest@.subrange(m as int, n as int) =~= v@.subrange(m as int, n as int));
                return Some((l, d));
            }
        }
        k = k + 1;
    }
    let sp = chars_of("           ");
    proof {
        reveal_strlit("           ");
        assert(sp@ =~= eleven_spaces());
    }
    if span_starts_with(v.as_slice(), 0, n, sp.as_slice()) {
        let s = trim_start_span(v.as_slice(), 11, n);
        let d = rest.substring_char(s, n);
        assert(Seq::<char>::empty() == ""@) by {
            reveal_strlit("");
        }
        return Some(("", d));
    }
    None
}

#[derive(Debug, Clone, Copy, PartialEq, Eq, Structural)]
pub enum ItemKind {
    Step,
    Note,
    Hint,
}

#[derive(Debug, Clone, PartialEq)]
pub struct Row {
    pub mark: Mark,
    /// Empty for the unlabelled follow-up row.
    pub label: String,
    pub detail: String,
    pub extra: Vec<String>,
}

#[derive(Debug, Clone, PartialEq)]
pub struct Section {
    pub title: String,
    pub rows: Vec<Row>,
}

#[derive(Debug, Clone, PartialEq)]
pub struct Verdict {
    pub headline: String,
    /// Printed as `✓ slacker is set up correctly.`
    pub all_good: bool,
    pub items: Vec<(ItemKind, String)>,
}

#[derive(Debug, Default)]
pub struct Status {
    pub sections: Vec<Section>,
    pub verdict: Option<Verdict>,
    /// Lines outside sections that slacker prints on early exits.
    pub messages: Vec<String>,
    pub unrecognized: Vec<String>,
}

pub struct RowV {
    pub mark: Mark,
    pub label: Seq<char>,
    pub detail: Seq<char>,
    pub extra: Seq<Seq<char>>,
}

pub struct SectionV {
    pub title: Seq<char>,
    pub rows: Seq<RowV>,
}

pub struct VerdictV {
    pub headline: Seq<char>,
    pub all_good: bool,
    pub items: Seq<(ItemKind, Seq<char>)>,
}

pub struct StatusV {
    pub sections: Seq<SectionV>,
    pub verdict: Option<VerdictV>,
    pub messages: Seq<Seq<char>>,
    pub unrecognized: Seq<Seq<char>>,
}

impl View for Row {
    type V = RowV;

    open spec fn view(&self) -> RowV {
        RowV {
            mark: self.mark,
            label: self.label@,
            detail: self.detail@,
            extra: strs(self.extra@),
        }
    }
}

impl View for Section {
    type V = SectionV;

    open spec fn view(&self) -> SectionV {
        SectionV { title: self.title@, rows: self.rows@.map_values(|r: Row| r@) }
    }
}

pub open spec fn item_texts(v: Seq<(ItemKind, String)>) -> Seq<(ItemKind, Seq<char>)> {
    v.map_values(|i: (ItemKind, String)| (i.0, i.1@))
}

impl View for Verdict {
    type V = VerdictV;

    open spec fn view(&self) -> VerdictV {
        VerdictV { headline: self.headline@, all_good: self.all_good, items: item_texts(self.items@) }
    }
}

impl View for Status {
    type V = StatusV;

    open spec fn view(&self) -> StatusV {
        StatusV {
            sections: self.sections@.map_values(|s: Section| s@),
            verdict: match self.verdict {
                Some(v) => Some(v@),
                None => None,
            },
            messages: strs(self.messages@),
            unrecognized: strs(self.unrecognized@),
        }
    }
}

pub open spec fn is_section_title(t: Seq<char>) -> bool {
    t == "Environment"@ || t == "Setup"@ || t == "Installed"@ || t == "Online"@
}

pub open spec fn item_kind_of(c: char) -> Option<ItemKind> {
    if c == '\u{2192}' {
        Some(ItemKind::Step)
    } else if c == '!' {
        Some(ItemKind::Note)
    } else if c == '\u{00B7}' {
        Some(ItemKind::Hint)
    } else {
        None
    }
}

/// A verdict line, `  → step`, `  ! note` or `  · hint`.
pub open spec fn item_of(line: Seq<char>) -> Option<(ItemKind, Seq<char>)> {
    if starts_with(line, two_spaces()) && line.len() >= 4 && line[3] == ' ' {
        match item_kind_of(line[2]) {
            Some(k) => Some((k, line.subrange(4, line.len() as int))),
            None => None,
        }
    } else {
        None
    }
}

/// A row, `  {mark} {label} {detail}`.
pub open spec fn row_of(line: Seq<char>) -> Option<RowV> {
    if starts_with(line, two_spaces()) && line.len() >= 4 && line[3] == ' ' {
        match (mark_of(line[2]), match_label_spec(line.subrange(4, line.len() as int))) {
            (Some(mark), Some((label, detail))) => Some(
                RowV { mark, label, detail, extra: Seq::empty() },
            ),
            _ => None,
        }
    } else {
        None
    }
}

pub open spec fn thirteen_spaces() -> Seq<char> {
    Seq::new(13, |i: int| ' ')
}

pub open spec fn status_step(s: StatusV, line: Seq<char>) -> StatusV {
    let unrec = StatusV { unrecognized: s.unrecognized.push(line), ..s };
    if trim(line).len() == 0 {
        s
    } else if !starts_with(line, seq![' ']) {
        let te = trim_end(line);
        if is_section_title(te) {
            StatusV { sections: s.sections.push(SectionV { title: te, rows: Seq::empty() }), ..s }
        } else if s.sections.len() > 0 && s.verdict is None {
            let good = starts_with(line, "\u{2713} "@);
            let head = if good {
                line.subrange(2, line.len() as int)
            } else {
                line
            };
            StatusV {
                verdict: Some(VerdictV { headline: trim_end(head), all_good: good, items: Seq::empty() }),
                ..s
            }
        } else {
            StatusV { messages: s.messages.push(te), ..s }
        }
    } else if s.verdict is Some {
        let v = s.verdict->0;
        match item_of(line) {
            Some(i) => StatusV { verdict: Some(VerdictV { items: v.items.push(i), ..v }), ..s },
            None => unrec,
        }
    } else if s.sections.len() == 0 {
        unrec
    } else {
        let last = s.sections.len() - 1;
        let sec = s.sections[last];
        if starts_with(line, thirteen_spaces()) {
            if sec.rows.len() == 0 {
                unrec
            } else {
                let rl = sec.rows.len() - 1;
                let row = sec.rows[rl];
                let row2 = RowV { extra: row.extra.push(trim(line)), ..row };
                StatusV {
                    sections: s.sections.update(
                        last,
                        SectionV { rows: sec.rows.update(rl, row2), ..sec },
                    ),
                    ..s
                }
            }
        } else {
            match row_of(line) {
                Some(r) => StatusV {
                    sections: s.sections.update(last, SectionV { rows: sec.rows.push(r), ..sec }),
                    ..s
                },
                None => unrec,
            }
        }
    }
}

pub open spec fn status_of(ls: Seq<Seq<char>>) -> StatusV
    decreases ls.len(),
{
    if ls.len() == 0 {
        StatusV {
            sections: Seq::empty(),
            verdict: None,
            messages: Seq::empty(),
            unrecognized: Seq::empty(),
        }
    } else {
        status_step(status_of(ls.drop_last()), ls.last())
    }
}

/// What `slacker status` printed, read line by line.
pub open spec fn status_spec(text: Seq<char>) -> StatusV {
    status_of(lines(text))
}

/// One of the fixed row labels, or the empty label of an unlabelled row.
pub open spec fn is_known_label(l: Seq<char>) -> bool {
    l.len() == 0 || exists|k: int| 0 <= k < 34 && #[trigger] label_spec(k) == l
}

/// What every reading of `slacker status` keeps to: sections carry one of
/// the fixed titles, rows one of the fixed labels, and a verdict only
/// follows a section.
pub open spec fn status_shape(s: StatusV) -> bool {
    &&& forall|i: int| 0 <= i < s.sections.len() ==> is_section_title(#[trigger] s.sections[i].title)
    &&& forall|i: int, j: int|
        0 <= i < s.sections.len() && 0 <= j < s.sections[i].rows.len() ==> is_known_label(
            #[trigger] s.sections[i].rows[j].label,
        )
    &&& s.verdict is Some ==> s.sections.len() > 0
}

proof fn lemma_label_known(rest: Seq<char>, k: int)
    requires
        0 <= k,
    ensures
        match_label_from(rest, k) matches Some((l, _)) ==> is_known_label(l),
    decreases 34 - k,
{
    if k < 34 && !label_matches(rest, label_spec(k)) {
        lemma_label_known(rest, k + 1);
    }
}

proof fn lemma_status_step_shape(s: StatusV, line: Seq<char>)
    requires
        status_shape(s),
    ensures
        status_shape(status_step(s, line)),
{
    let n = status_step(s, line);
    if trim(line).len() > 0 && starts_with(line, seq![' ']) && s.verdict is None
        && s.sections.len() > 0 {
        let last = s.sections.len() - 1;
        let sec = s.sections[last];
        if !starts_with(line, thirteen_spaces()) {
            if row_of(line) is Some {
                lemma_label_known(line.subrange(4, line.len() as int), 0);
            }
        }
        assert forall|i: int| 0 <= i < n.sections.len() implies is_section_title(
            #[trigger] n.sections[i].title,
        ) by {
            assert(n.sections[i].title == s.sections[i].title);
        }
        assert forall|i: int, j: int|
            0 <= i < n.sections.len() && 0 <= j < n.sections[i].rows.len() implies is_known_label(
            #[trigger] n.sections[i].rows[j].label,
        ) by {
            if i != last || j < sec.rows.len() {
                if i == last && starts_with(line, thirteen_spaces()) && sec.rows.len() > 0 {
                    let rl = sec.rows.len() - 1;
                    if j != rl {
                        assert(n.sections[i].rows[j] == s.sections[i].rows[j]);
                    } else {
                        assert(n.sections[i].rows[j].label == s.sections[i].rows[j].label);
                    }
                } else {
                    assert(n.sections[i].rows[j] == s.sections[i].rows[j]);
                }
            }
        }
    } else {
        assert forall|i: int| 0 <= i < n.sections.len() implies is_section_title(
            #[trigger] n.sections[i].title,
        ) by {
            if i < s.sections.len() {
                assert(n.sections[i] == s.sections[i]);
            }
        }
        assert forall|i: int, j: int|
            0 <= i < n.sections.len() && 0 <= j < n.sections[i].rows.len() implies is_known_label(
            #[trigger] n.sections[i].rows[j].label,
        ) by {
            if i < s.sections.len() {
                assert(n.sections[i] == s.sections[i]);
            }
        }
    }
}

proof fn lemma_status_of_shape(ls: Seq<Seq<char>>)
    ensures
        status_shape(status_of(ls)),
    decreases ls.len(),
{
    if ls.len() > 0 {
        lemma_status_of_shape(ls.drop_last());
        lemma_status_step_shape(status_of(ls.drop_last()), ls.last());
    }
}

/// A row's mark is the one its mark character names: `✓` passes, `✗` is
/// bad, `!` is a warning, and only `·` is information.
pub proof fn row_marks_follow_their_character(line: Seq<char>)
    ensures
        row_of(line) matches Some(r) ==> {
            &&& line.len() >= 4
            &&& (r.mark == Mark::Pass <==> line[2] == '\u{2713}')
            &&& (r.mark == Mark::Bad <==> line[2] == '\u{2717}')
            &&& (r.mark == Mark::Warn <==> line[2] == '!')
            &&& (r.mark == Mark::Info <==> line[2] == '\u{00B7}')
        },
{
}

/// A row whose text after the mark has a label is read with the mark its
/// character names: `✓` passes, `✗` is bad, `!` is a warning and `·` is
/// information.
pub proof fn marked_rows_read_back(rest: Seq<char>)
    requires
        match_label_spec(rest) is Some,
    ensures
        ({
            let (label, detail) = match_label_spec(rest)->0;
            let row = |mark: Mark| RowV { mark, label, detail, extra: Seq::empty() };
            &&& row_of(seq![' ', ' ', '\u{2713}', ' '] + rest) == Some(row(Mark::Pass))
            &&& row_of(seq![' ', ' ', '\u{2717}', ' '] + rest) == Some(row(Mark::Bad))
            &&& row_of(seq![' ', ' ', '!', ' '] + rest) == Some(row(Mark::Warn))
            &&& row_of(seq![' ', ' ', '\u{00B7}', ' '] + rest) == Some(row(Mark::Info))
        }),
{
    lemma_marked_line('\u{2713}', rest);
    lemma_marked_line('\u{2717}', rest);
    lemma_marked_line('!', rest);
    lemma_marked_line('\u{00B7}', rest);
}

proof fn lemma_marked_line(c: char, rest: Seq<char>)
    ensures
        ({
            let line = seq![' ', ' ', c, ' '] + rest;
            &&& starts_with(line, two_spaces())
            &&& line.len() >= 4
            &&& line.subrange(4, line.len() as int) == rest
            &&& line[2] == c
            &&& line[3] == ' '
        }),
{
    let line = seq![' ', ' ', c, ' '] + rest;
    assert(line.subrange(0, 2) =~= two_spaces());
    assert(line.subrange(4, line.len() as int) =~= rest);
}

/// `r` was read from `line`: the line's mark character names its mark, and
/// its label and detail are the ones on the line.
pub open spec fn read_from(r: RowV, line: Seq<char>) -> bool {
    &&& row_of(line) matches Some(r0) && r0.label == r.label && r0.detail == r.detail
    &&& line.len() >= 4
    &&& (r.mark == Mark::Pass <==> line[2] == '\u{2713}')
    &&& (r.mark == Mark::Bad <==> line[2] == '\u{2717}')
    &&& (r.mark == Mark::Warn <==> line[2] == '!')
    &&& (r.mark == Mark::Info <==> line[2] == '\u{00B7}')
}

pub open spec fn rows_from_lines(s: StatusV, ls: Seq<Seq<char>>) -> bool {
    forall|i: int, j: int|
        0 <= i < s.sections.len() && 0 <= j < s.sections[i].rows.len() ==> exists|k: int|
            0 <= k < ls.len() && read_from(#[trigger] s.sections[i].rows[j], ls[k])
}

proof fn lemma_rows_from_lines(ls: Seq<Seq<char>>)
    ensures
        rows_from_lines(status_of(ls), ls),
    decreases ls.len(),
{
    if ls.len() > 0 {
        let pl = ls.drop_last();
        lemma_rows_from_lines(pl);
        let s = status_of(pl);
        let line = ls.last();
        let n = status_of(ls);
        assert(n == status_step(s, line));
        row_marks_follow_their_character(line);
        assert forall|i: int, j: int|
            0 <= i < n.sections.len() && 0 <= j < n.sections[i].rows.len() implies exists|k: int|
            0 <= k < ls.len() && read_from(#[trigger] n.sections[i].rows[j], ls[k]) by {
            let r = n.sections[i].rows[j];
            if 0 <= i < s.sections.len() && 0 <= j < s.sections[i].rows.len() && r.mark
                == s.sections[i].rows[j].mark && r.label == s.sections[i].rows[j].label && r.detail
                == s.sections[i].rows[j].detail {
                let k = choose|k: int| 0 <= k < pl.len() && read_from(s.sections[i].rows[j], pl[k]);
                assert(ls[k] == pl[k]);
                assert(read_from(r, ls[k]));
            } else {
                // the row is new: it was read from this line
                let last = s.sections.len() - 1;
                if trim(line).len() == 0 {
                } else if !starts_with(line, seq![' ']) {
                    if is_section_title(trim_end(line)) {
                        if i < s.sections.len() {
                            assert(n.sections[i] == s.sections[i]);
                        }
                    }
                } else if s.verdict is Some {
                } else if s.sections.len() == 0 {
                } else if starts_with(line, thirteen_spaces()) {
                    if s.sections[last].rows.len() > 0 {
                        if i == last {
                            let rl = s.sections[last].rows.len() - 1;
                            if j != rl {
                                assert(n.sections[i].rows[j] == s.sections[i].rows[j]);
                            }
                        } else {
                            assert(n.sections[i] == s.sections[i]);
                        }
                    }
                } else {
                    if i != last {
                        assert(n.sections[i] == s.sections[i]);
                    } else if j < s.sections[last].rows.len() {
                        assert(n.sections[i].rows[j] == s.sections[i].rows[j]);
                    }
                }
                assert(read_from(r, ls[ls.len() - 1]));
            }
        }
    }
}

/// Every row `slacker status` is read into carries the mark, label and
/// detail of a line it printed: `!` rows are warnings, `·` rows are
/// information, `✓` rows pass and `✗` rows are bad.
pub proof fn status_rows_keep_their_marks(text: Seq<char>)
    ensures
        rows_from_lines(status_spec(text), lines(text)),
{
    lemma_rows_from_lines(lines(text));
}

/// Whatever `slacker status` printed, including junk, the reading has only
/// the fixed section titles, only the fixed row labels (or the empty label
/// of an unlabelled row), and a verdict only after some section.
pub proof fn status_holds_only_known_titles_and_labels(text: Seq<char>)
    ensures
        status_shape(status_spec(text)),
{
    lemma_status_of_shape(lines(text));
}

fn is_section_exec(v: &[char], a: usize, b: usize) -> (r: bool)
    requires
        a <= b <= v@.len(),
    ensures
        r == is_section_title(v@.subrange(a as int, b as int)),
{
    span_eq(v, a, b, chars_of("Environment").as_slice()) || span_eq(
        v,
        a,
        b,
        chars_of("Setup").as_slice(),
    ) || span_eq(v, a, b, chars_of("Installed").as_slice()) || span_eq(
        v,
        a,
        b,
        chars_of("Online").as_slice(),
    )
}

fn item_exec(v: &[char], a: usize, b: usize) -> (r: Option<(ItemKind, String)>)
    requires
        a <= b <= v@.len(),
    ensures
        r matches Some(x) ==> item_of(v@.subrange(a as int, b as int)) == Some((x.0, x.1@)),
        r is None ==> item_of(v@.subrange(a as int, b as int)) is None,
{
    let ghost line = v@.subrange(a as int, b as int);
    if b - a >= 4 && v[a] == ' ' && v[a + 1] == ' ' && v[a + 3] == ' ' {
        assert(line.subrange(0, 2) =~= two_spaces());
        assert(line[2] == v@[a + 2]);
        assert(line[3] == v@[a + 3]);
        let c = v[a + 2];
        let kind = if c == '\u{2192}' {
            ItemKind::Step
        } else if c == '!' {
            ItemKind::Note
        } else if c == '\u{00B7}' {
            ItemKind::Hint
        } else {
            return None;
        };
        assert(line.subrange(4, line.len() as int) =~= v@.subrange(a + 4, b as int));
        Some((kind, string_of(v, a + 4, b)))
    } else {
        proof {
            if b - a >= 4 && starts_with(line, two_spaces()) {
                assert(line.subrange(0, 2)[0] == v@[a as int]);
                assert(line.subrange(0, 2)[1] == v@[a + 1]);
                assert(line[3] == v@[a + 3]);
            }
        }
        None
    }
}

fn row_exec(v: &[char], a: usize, b: usize) -> (r: Option<Row>)
    requires
        a <= b <= v@.len(),
    ensures
        r matches Some(x) ==> row_of(v@.subrange(a as int, b as int)) == Some(x@),
        r is None ==> row_of(v@.subrange(a as int, b as int)) is None,
{
    let ghost line = v@.subrange(a as int, b as int);
    if b - a >= 4 && v[a] == ' ' && v[a + 1] == ' ' && v[a + 3] == ' ' {
        assert(line.subrange(0, 2) =~= two_spaces());
        assert(line[2] == v@[a + 2]);
        assert(line[3] == v@[a + 3]);
        let mark = match Mark::from_char(v[a + 2]) {
            Some(m) => m,
            None => return None,
        };
        let rest = string_of(v, a + 4, b);
        assert(line.subrange(4, line.len() as int) =~= v@.subrange(a + 4, b as int));
        match match_label(rest.as_str()) {
            Some((l, d)) => {
                let r = Row { mark, label: crate::text::owned(l), detail: crate::text::owned(d), extra: Vec::new() };
                assert(strs(r.extra@) =~= Seq::<Seq<char>>::empty());
                Some(r)
            },
            None => None,
        }
    } else {
        proof {
            if b - a >= 4 && starts_with(line, two_spaces()) {
                assert(line.subrange(0, 2)[0] == v@[a as int]);
                assert(line.subrange(0, 2)[1] == v@[a + 1]);
                assert(line[3] == v@[a + 3]);
            }
        }
        None
    }
}

/// Reads `slacker status` output. Section titles open sections; rows and
/// continuation lines go to the last one; the first other unindented line
/// after a section is the verdict, whose items follow it; any other
/// unindented line is a message; any indented line that fits nowhere is kept
/// verbatim as unrecognised.
#[verifier::rlimit(30)]
pub fn parse(text: &str) -> (out: Status)
    ensures
        out@ == status_spec(text@),
{
    let v = chars_of(text);
    let spans = line_spans(v.as_slice());
    let check = chars_of("\u{2713} ");
    let cont = chars_of("             ");
    proof {
        reveal_strlit("             ");
        assert(cont@ =~= thirteen_spaces());
    }
    let sp = vec![' '];
    assert(sp@ =~= seq![' ']);
    let mut out = Status {
        sections: Vec::new(),
        verdict: None,
        messages: Vec::new(),
        unrecognized: Vec::new(),
    };
    let ghost ls = span_texts(v@, spans@);
    let mut k: usize = 0;
    proof {
        assert(ls.take(0) =~= Seq::<Seq<char>>::empty());
        assert(out@.sections =~= Seq::<SectionV>::empty());
        assert(out@.messages =~= Seq::<Seq<char>>::empty());
        assert(out@.unrecognized =~= Seq::<Seq<char>>::empty());
    }
    while k < spans.len()
        invariant
            k <= spans@.len(),
            v@ == text@,
            spans_in(v@, spans@),
            ls == span_texts(v@, spans@),
            ls == lines(text@),
            check@ == "\u{2713} "@,
            cont@ == thirteen_spaces(),
            sp@ == seq![' '],
            out@ == status_of(ls.take(k as int)),
        decreases spans.len() - k,
    {
        let (a, b) = spans[k];
        assert(ls[k as int] == v@.subrange(a as int, b as int));
        assert(ls.take(k + 1).drop_last() =~= ls.take(k as int));
        let ghost prev = out@;
        let ghost line = v@.subrange(a as int, b as int);
        step(&mut out, v.as_slice(), a, b, check.as_slice(), cont.as_slice(), sp.as_slice());
        k = k + 1;
    }
    assert(ls.take(k as int) =~= ls);
    out
}

#[verifier::rlimit(40)]
fn step(out: &mut Status, v: &[char], a: usize, b: usize, check: &[char], cont: &[char], sp: &[char])
    requires
        a <= b <= v@.len(),
        check@ == "\u{2713} "@,
        cont@ == thirteen_spaces(),
        sp@ == seq![' '],
    ensures
        final(out)@ == status_step(old(out)@, v@.subrange(a as int, b as int)),
{
    let ghost line = v@.subrange(a as int, b as int);
    let ghost s = old(out)@;
    let (ta, tb) = trim_span(v, a, b);
    if ta == tb {
        return;
    }
    if !span_starts_with(v, a, b, sp) {
        let te = trim_end_span(v, a, b);
        if is_section_exec(v, a, te) {
            let sec = Section { title: string_of(v, a, te), rows: Vec::new() };
            let ghost sv = sec@;
            assert(sv.rows =~= Seq::<RowV>::empty());
            out.sections.push(sec);
            assert(out@.sections =~= s.sections.push(sv));
        } else if out.sections.len() > 0 && out.verdict.is_none() {
            let good = span_starts_with(v, a, b, check);
            proof {
                reveal_strlit("\u{2713} ");
                assert(check@.len() == 2);
            }
            let hs = if good {
                a + 2
            } else {
                a
            };
            proof {
                reveal_strlit("\u{2713} ");
                if good {
                    assert(line.subrange(2, line.len() as int) =~= v@.subrange(a + 2, b as int));
                }
            }
            let he = trim_end_span(v, hs, b);
            let vd = Verdict { headline: string_of(v, hs, he), all_good: good, items: Vec::new() };
            assert(item_texts(vd.items@) =~= Seq::<(ItemKind, Seq<char>)>::empty());
            out.verdict = Some(vd);
        } else {
            push_string(&mut out.messages, string_of(v, a, te));
        }
        return;
    }
    if out.verdict.is_some() {
        match item_exec(v, a, b) {
            Some(i) => {
                let mut vd = match out.verdict.take() {
                    Some(x) => x,
                    None => {
                        return;
                    },
                };
                let ghost iv = (i.0, i.1@);
                let ghost before = vd@;
                vd.items.push(i);
                assert(item_texts(vd.items@) =~= before.items.push(iv));
                out.verdict = Some(vd);
            },
            None => {
                push_string(&mut out.unrecognized, string_of(v, a, b));
            },
        }
        return;
    }
    if out.sections.len() == 0 {
        push_string(&mut out.unrecognized, string_of(v, a, b));
        return;
    }
    if span_starts_with(v, a, b, cont) {
        let last = out.sections.len() - 1;
        if out.sections[last].rows.len() == 0 {
            push_string(&mut out.unrecognized, string_of(v, a, b));
            return;
        }
        let mut sec = match out.sections.pop() {
            Some(x) => x,
            None => {
                return;
            },
        };
        let ghost secv = sec@;
        let mut row = match sec.rows.pop() {
            Some(x) => x,
            None => {
                return;
            },
        };
        let ghost rowv = row@;
        push_string(&mut row.extra, string_of(v, ta, tb));
        let ghost row2 = row@;
        sec.rows.push(row);
        assert(sec@.rows =~= secv.rows.update(secv.rows.len() - 1, row2));
        let ghost sec2 = sec@;
        out.sections.push(sec);
        assert(out@.sections =~= s.sections.update(s.sections.len() - 1, sec2));
        return;
    }
    match row_exec(v, a, b) {
        Some(r) => {
            let mut sec = match out.sections.pop() {
                Some(x) => x,
                None => {
                    return;
                },
            };
            let ghost secv = sec@;
            let ghost rv = r@;
            sec.rows.push(r);
            assert(sec@.rows =~= secv.rows.push(rv));
            let ghost sec2 = sec@;
            out.sections.push(sec);
            assert(out@.sections =~= s.sections.update(s.sections.len() - 1, sec2));
        },
        None => {
            push_string(&mut out.unrecognized, string_of(v, a, b));
        },
    }
}

} // verus!
