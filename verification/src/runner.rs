//! What the command runner decides: the command line it starts, how it cuts
//! a stream of output into finished lines and the line still being drawn,
//! and what it says about the way a command ended.
//!
//! Commands run one at a time, in the order they were asked for: slacker
//! takes its own lock for changes, and queueing means a page refresh never
//! collides with an install.
use std::collections::VecDeque;
use vstd::prelude::*;

use crate::commands::{Privilege, Spec};
use crate::output::Chunk;
use crate::text::{dec_i32, i32_text, owned, push_string, strs, trim};

verus! {

pub const PKEXEC: &'static str = "/usr/bin/pkexec";

/// How many lines of the shared command log are kept.
pub const LOG_MAX_LINES: i32 = 4000;

/// How a command ended.
#[derive(Clone, Debug)]
pub enum Status {
    Exited(i32),
    Signaled,
    SpawnFailed(String),
}

/// The exit codes with which slacker ran and answered: 0 ok, 20 nothing
/// found, 50 upgraded itself, 100 updates pending (slackpkg-compatible).
pub open spec fn answer_code(c: i32) -> bool {
    c == 0 || c == 20 || c == 50 || c == 100
}

/// slacker ran and answered.
pub open spec fn ran_and_answered(s: Status) -> bool {
    s matches Status::Exited(c) && answer_code(c)
}

impl Status {
    /// slacker ran and answered: 0 ok, 20 nothing found, 50 upgraded
    /// itself, 100 updates pending (slackpkg-compatible codes).
    pub fn answered(&self) -> (b: bool)
        ensures
            b == ran_and_answered(*self),
    {
        match self {
            Status::Exited(c) => *c == 0 || *c == 20 || *c == 50 || *c == 100,
            _ => false,
        }
    }

    pub fn code(&self) -> (r: Option<i32>)
        ensures
            r == (match *self {
                Status::Exited(c) => Some(c),
                _ => None,
            }),
    {
        match self {
            Status::Exited(c) => Some(*c),
            _ => None,
        }
    }
}

/// The words shown for a finished command.
pub open spec fn described(status: Status, privilege: Privilege) -> Seq<char> {
    match status {
        Status::Exited(n) => {
            if n == 0 {
                "Finished"@
            } else if n == 20 {
                "Nothing found"@
            } else if n == 50 {
                "slacker upgraded itself; run the same action again"@
            } else if n == 100 {
                "Updates are pending"@
            } else if n == 126 && privilege == Privilege::Root {
                "Authentication was dismissed; nothing was run"@
            } else if n == 127 && privilege == Privilege::Root {
                "Not authorized, or pkexec could not start slacker"@
            } else {
                "slacker exited with status "@ + dec_i32(n)
            }
        },
        Status::Signaled => "Stopped by a signal"@,
        Status::SpawnFailed(e) => "Could not start: "@ + e@,
    }
}

pub fn describe(status: &Status, privilege: Privilege) -> (r: String)
    ensures
        r@ == described(*status, privilege),
{
    match status {
        Status::Exited(n) => {
            let n = *n;
            if n == 0 {
                owned("Finished")
            } else if n == 20 {
                owned("Nothing found")
            } else if n == 50 {
                owned("slacker upgraded itself; run the same action again")
            } else if n == 100 {
                owned("Updates are pending")
            } else if n == 126 && privilege == Privilege::Root {
                owned("Authentication was dismissed; nothing was run")
            } else if n == 127 && privilege == Privilege::Root {
                owned("Not authorized, or pkexec could not start slacker")
            } else {
                let mut s = owned("slacker exited with status ");
                let d = i32_text(n);
                s.append(d.as_str());
                s
            }
        },
        Status::Signaled => owned("Stopped by a signal"),
        Status::SpawnFailed(e) => {
            let mut s = owned("Could not start: ");
            s.append(e.as_str());
            s
        },
    }
}

/// The command line that runs `spec` with the slacker binary at `slacker`:
/// through pkexec when it needs root.
pub open spec fn argv_of(slacker: Seq<char>, spec: crate::commands::SpecV) -> Seq<Seq<char>> {
    (if spec.privilege == Privilege::Root {
        seq![PKEXEC@]
    } else {
        Seq::empty()
    }) + seq![slacker] + spec.args
}

pub fn argv(slacker: &str, spec: &Spec) -> (r: Vec<String>)
    ensures
        strs(r@) == argv_of(slacker@, spec@),
{
    let mut argv: Vec<String> = Vec::new();
    if spec.privilege == Privilege::Root {
        push_string(&mut argv, owned(PKEXEC));
    }
    push_string(&mut argv, owned(slacker));
    let ghost head = strs(argv@);
    let mut k: usize = 0;
    while k < spec.args.len()
        invariant
            k <= spec.args@.len(),
            strs(argv@) == head + strs(spec.args@).take(k as int),
        decreases spec.args.len() - k,
    {
        push_string(&mut argv, spec.args[k].clone());
        assert(strs(spec.args@).take(k + 1) =~= strs(spec.args@).take(k as int).push(
            spec.args@[k as int]@,
        ));
        assert(strs(argv@) =~= head + strs(spec.args@).take(k + 1));
        k = k + 1;
    }
    assert(strs(spec.args@).take(k as int) =~= strs(spec.args@));
    argv
}

/// Adds newly read `bytes` to the unfinished line in `pending`. When the
/// result holds a newline, what runs up to and including the last one is
/// returned as finished lines and `pending` keeps the rest; otherwise
/// nothing is returned and `pending` keeps it all.
pub open spec fn no_newline(s: Seq<u8>) -> bool {
    forall|j: int| 0 <= j < s.len() ==> s[j] != 10u8
}

/// One read: `pending` and the new `bytes` become the finished lines
/// `complete` (everything up to and including the last newline, when there
/// is one) and the unfinished rest `after`.
pub open spec fn took(pending: Seq<u8>, bytes: Seq<u8>, complete: Option<Seq<u8>>, after: Seq<u8>) -> bool {
    let all = pending + bytes;
    match complete {
        Some(c) => {
            &&& c + after == all
            &&& c.len() > 0
            &&& c.last() == 10u8
            &&& no_newline(after)
        },
        None => {
            &&& after == all
            &&& no_newline(all)
        },
    }
}

pub fn take_complete(pending: &mut Vec<u8>, bytes: &[u8]) -> (complete: Option<Vec<u8>>)
    ensures
        took(
            old(pending)@,
            bytes@,
            match complete {
                Some(c) => Some(c@),
                None => None,
            },
            final(pending)@,
        ),
{
    let mut k: usize = 0;
    while k < bytes.len()
        invariant
            k <= bytes@.len(),
            pending@ == old(pending)@ + bytes@.take(k as int),
        decreases bytes.len() - k,
    {
        pending.push(bytes[k]);
        assert(bytes@.take(k + 1) =~= bytes@.take(k as int).push(bytes@[k as int]));
        k = k + 1;
    }
    assert(bytes@.take(k as int) =~= bytes@);
    let ghost all = pending@;
    let n = pending.len();
    let mut e = n;
    while e > 0 && pending[e - 1] != 10u8
        invariant
            e <= n == pending@.len(),
            pending@ == all,
            forall|j: int| e <= j < n ==> all[j] != 10u8,
        decreases e,
    {
        e = e - 1;
    }
    if e == 0 {
        return None;
    }
    let mut head: Vec<u8> = Vec::new();
    let mut rest: Vec<u8> = Vec::new();
    let mut i: usize = 0;
    while i < n
        invariant
            0 < e <= n == all.len(),
            pending@ == all,
            i <= n,
            i <= e ==> head@ == all.take(i as int) && rest@.len() == 0,
            i > e ==> head@ == all.take(e as int) && rest@ == all.subrange(e as int, i as int),
        decreases n - i,
    {
        if i < e {
            head.push(pending[i]);
            assert(all.take(i + 1) =~= all.take(i as int).push(all[i as int]));
        } else {
            rest.push(pending[i]);
            assert(all.subrange(e as int, i + 1) =~= all.subrange(e as int, i as int).push(
                all[i as int],
            ));
        }
        i = i + 1;
    }
    assert(head@ == all.take(e as int));
    assert(rest@ =~= all.subrange(e as int, n as int));
    assert(head@ + rest@ =~= all);
    *pending = rest;
    Some(head)
}

/// All the bytes of a run of reads, in order.
pub open spec fn all_read(reads: Seq<Seq<u8>>) -> Seq<u8>
    decreases reads.len(),
{
    if reads.len() == 0 {
        Seq::empty()
    } else {
        all_read(reads.drop_last()) + reads.last()
    }
}

/// The finished lines handed out over a run of reads, in order.
pub open spec fn handed_out(pieces: Seq<Option<Seq<u8>>>) -> Seq<u8>
    decreases pieces.len(),
{
    if pieces.len() == 0 {
        Seq::empty()
    } else {
        handed_out(pieces.drop_last()) + match pieces.last() {
            Some(c) => c,
            None => Seq::empty(),
        }
    }
}

/// Over a whole run of reads, starting with nothing pending: the finished
/// pieces handed out, followed by what is still pending, are exactly the
/// bytes read, in order; each piece handed out is non-empty and ends in a
/// newline, and what is left pending holds none.
pub proof fn chunking_loses_nothing(
    reads: Seq<Seq<u8>>,
    pendings: Seq<Seq<u8>>,
    pieces: Seq<Option<Seq<u8>>>,
)
    requires
        pendings.len() == reads.len() + 1,
        pieces.len() == reads.len(),
        pendings[0].len() == 0,
        forall|i: int| 0 <= i < reads.len() ==> took(pendings[i], reads[i], pieces[i], pendings[i + 1]),
    ensures
        handed_out(pieces) + pendings.last() == all_read(reads),
        forall|i: int| 0 <= i < pieces.len() ==> (#[trigger] pieces[i] matches Some(c) ==> c.len() > 0
            && c.last() == 10u8),
        no_newline(pendings.last()),
    decreases reads.len(),
{
    let n = reads.len() as int;
    if n == 0 {
        assert(handed_out(pieces) + pendings.last() =~= all_read(reads));
    } else {
        let r2 = reads.drop_last();
        let p2 = pendings.drop_last();
        let q2 = pieces.drop_last();
        assert forall|i: int| 0 <= i < r2.len() implies took(p2[i], r2[i], q2[i], p2[i + 1]) by {
            assert(took(pendings[i], reads[i], pieces[i], pendings[i + 1]));
        }
        chunking_loses_nothing(r2, p2, q2);
        assert(took(pendings[n - 1], reads[n - 1], pieces[n - 1], pendings[n]));
        assert(p2.last() == pendings[n - 1]);
        let h = handed_out(q2);
        let piece = match pieces[n - 1] {
            Some(c) => c,
            None => Seq::<u8>::empty(),
        };
        assert(handed_out(pieces) == h + piece);
        assert(all_read(reads) == all_read(r2) + reads[n - 1]);
        assert(piece + pendings[n] =~= pendings[n - 1] + reads[n - 1]);
        assert(h + pendings[n - 1] == all_read(r2));
        assert((h + piece) + pendings[n] =~= h + (piece + pendings[n]));
        assert(h + (pendings[n - 1] + reads[n - 1]) =~= (h + pendings[n - 1]) + reads[n - 1]);
        assert(handed_out(pieces) + pendings.last() =~= all_read(reads));
        assert forall|i: int| 0 <= i < pieces.len() implies (#[trigger] pieces[i] matches Some(c)
            ==> c.len() > 0 && c.last() == 10u8) by {
            if i < n - 1 {
                assert(pieces[i] == q2[i]);
            }
        }
    }
}

/// Whether a cleaned chunk of output is shown at all: a redraw that is
/// blank after trimming is not.
pub fn worth_showing(text: &str, kind: Chunk) -> (b: bool)
    ensures
        b == !(kind == Chunk::Progress && trim(text@).len() == 0),
{
    if kind == Chunk::Line {
        return true;
    }
    let v = crate::text::chars_of(text);
    let (a, b) = crate::text::trim_span(v.as_slice(), 0, v.len());
    assert(v@.subrange(0, v@.len() as int) =~= v@);
    a < b
}

/// What a captured command has kept after one more chunk of its output: a
/// redraw is never part of the finished output a parser reads; a finished
/// chunk is kept with a newline after it.
pub open spec fn capture_step(text: Seq<char>, chunk: Seq<char>, kind: Chunk) -> Seq<char> {
    if kind == Chunk::Progress {
        text
    } else {
        text + chunk + seq!['\n']
    }
}

/// What a capture holds after `chunks` arrive one by one, in order.
pub open spec fn captured_after(text: Seq<char>, chunks: Seq<(Seq<char>, Chunk)>) -> Seq<char>
    decreases chunks.len(),
{
    if chunks.len() == 0 {
        text
    } else {
        captured_after(capture_step(text, chunks[0].0, chunks[0].1), chunks.drop_first())
    }
}

/// The finished chunks of `chunks`, in order, each followed by a newline;
/// nothing of a redraw.
pub open spec fn finished_lines(chunks: Seq<(Seq<char>, Chunk)>) -> Seq<char>
    decreases chunks.len(),
{
    if chunks.len() == 0 {
        Seq::empty()
    } else {
        (if chunks[0].1 == Chunk::Line {
            chunks[0].0 + seq!['\n']
        } else {
            Seq::empty()
        }) + finished_lines(chunks.drop_first())
    }
}

/// Over a whole capture, what is kept is what was there before followed by
/// each finished chunk and a newline, in the order they came; no redraw is
/// ever part of it.
pub proof fn captures_keep_finished_lines(text: Seq<char>, chunks: Seq<(Seq<char>, Chunk)>)
    ensures
        captured_after(text, chunks) == text + finished_lines(chunks),
    decreases chunks.len(),
{
    if chunks.len() > 0 {
        let next = capture_step(text, chunks[0].0, chunks[0].1);
        captures_keep_finished_lines(next, chunks.drop_first());
        assert(captured_after(text, chunks) =~= text + finished_lines(chunks));
    } else {
        assert(text + finished_lines(chunks) =~= text);
    }
}

/// What a captured command keeps of one chunk of its output: see
/// [`capture_step`].
pub fn capture_chunk(text: &mut String, chunk: &str, kind: Chunk)
    ensures
        final(text)@ == capture_step(old(text)@, chunk@, kind),
{
    if kind == Chunk::Progress {
        return;
    }
    text.append(chunk);
    text.append("\n");
    proof {
        reveal_strlit("\n");
    }
}

/// The commands waiting to run, and whether one is running.
pub struct Queue<T> {
    waiting: VecDeque<T>,
    busy: bool,
}

pub struct QueueV<T> {
    pub waiting: Seq<T>,
    pub busy: bool,
}

impl<T> View for Queue<T> {
    type V = QueueV<T>;

    closed spec fn view(&self) -> QueueV<T> {
        QueueV { waiting: self.waiting@, busy: self.busy }
    }
}

/// Asking for a command: it waits behind the others, and starts at once
/// when nothing is running.
pub open spec fn push_spec<T>(q: QueueV<T>, job: T) -> (QueueV<T>, bool) {
    (QueueV { waiting: q.waiting.push(job), busy: q.busy }, !q.busy)
}

/// When the runner is free: the oldest waiting command starts, or, with
/// none waiting, the runner is idle.
pub open spec fn next_spec<T>(q: QueueV<T>) -> (QueueV<T>, Option<T>) {
    if q.waiting.len() == 0 {
        (QueueV { waiting: q.waiting, busy: false }, None)
    } else {
        (QueueV { waiting: q.waiting.drop_first(), busy: true }, Some(q.waiting[0]))
    }
}

impl<T> Queue<T> {
    pub fn new() -> (q: Queue<T>)
        ensures
            q@.waiting == Seq::<T>::empty(),
            !q@.busy,
    {
        Queue { waiting: VecDeque::new(), busy: false }
    }

    /// Queues a command; says whether the runner is to take the next one now.
    pub fn push(&mut self, job: T) -> (start: bool)
        ensures
            (final(self)@, start) == push_spec(old(self)@, job),
    {
        self.waiting.push_back(job);
        !self.busy
    }

    /// The command to run now, if any; the runner is busy exactly while it
    /// has one.
    pub fn next(&mut self) -> (job: Option<T>)
        ensures
            (final(self)@, job) == next_spec(old(self)@),
    {
        match self.waiting.pop_front() {
            Some(j) => {
                self.busy = true;
                Some(j)
            },
            None => {
                self.busy = false;
                None
            },
        }
    }

    pub fn is_busy(&self) -> (b: bool)
        ensures
            b == self@.busy,
    {
        self.busy
    }
}

/// Commands run one at a time, in the order they were asked for: asked for
/// while the runner is idle, the first starts at once and the second waits;
/// when the first is done the second runs, and then the runner is idle.
pub proof fn commands_run_in_order<T>(a: T, b: T)
    ensures
        ({
            let q0 = QueueV { waiting: Seq::<T>::empty(), busy: false };
            let (q1, start_a) = push_spec(q0, a);
            let (q2, first) = next_spec(q1);
            let (q3, start_b) = push_spec(q2, b);
            let (q4, second) = next_spec(q3);
            let (q5, third) = next_spec(q4);
            &&& start_a && first == Some(a)
            &&& !start_b && second == Some(b)
            &&& third is None && !q5.busy
        }),
{
    let q0 = QueueV { waiting: Seq::<T>::empty(), busy: false };
    let q1 = push_spec(q0, a).0;
    assert(q1.waiting =~= seq![a]);
    let q2 = next_spec(q1).0;
    assert(q2.waiting =~= Seq::<T>::empty());
    let q3 = push_spec(q2, b).0;
    assert(q3.waiting =~= seq![b]);
    let q4 = next_spec(q3).0;
    assert(q4.waiting =~= Seq::<T>::empty());
}

} // verus!
