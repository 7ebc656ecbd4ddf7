//! The Updates page: what `check-updates` says, in one headline.
use vstd::prelude::*;

use crate::commands::Privilege;
use crate::pages::{count, lemma_count_all, lemma_count_step, Look, Tone};
use crate::parse::updates::{State, Updates, UpdatesV};
use crate::runner::{describe, described, ran_and_answered, Status};
use crate::text::{dec, owned, starts_with, str_starts_with, usize_text};

verus! {

pub open spec fn is_pending(r: (Seq<char>, State)) -> bool {
    r.1 == State::Pending
}

pub open spec fn is_broken(r: (Seq<char>, State)) -> bool {
    r.1 == State::Unknown || r.1 == State::Unreachable
}

/// The headline of the page, and whether it is about news to fetch.
pub struct Summary {
    pub look: Look,
    pub news: bool,
    pub title: String,
    pub detail: String,
}

pub struct SummaryV {
    pub look: Look,
    pub news: bool,
    pub title: Seq<char>,
    pub detail: Seq<char>,
}

impl View for Summary {
    type V = SummaryV;

    open spec fn view(&self) -> SummaryV {
        SummaryV { look: self.look, news: self.news, title: self.title@, detail: self.detail@ }
    }
}

/// The headline for a finished `check-updates`: a failure when slacker did
/// not answer, else news to fetch first, then repositories that could not be
/// checked, else all current.
pub open spec fn summary_of(status: Status, u: UpdatesV) -> SummaryV {
    let pending = count(u.repos, |r: (Seq<char>, State)| is_pending(r));
    let broken = count(u.repos, |r: (Seq<char>, State)| is_broken(r));
    if !ran_and_answered(status) {
        SummaryV {
            look: Look::Bad,
            news: false,
            title: "Could not check for updates"@,
            detail: described(status, Privilege::User),
        }
    } else if pending > 0 {
        SummaryV {
            look: Look::Attention,
            news: true,
            title: if pending == 1 {
                "1 repository has published new data"@
            } else {
                dec(pending) + " repositories have published new data"@
            },
            detail: "Update the package lists (step 1), then steps 2 and 3."@,
        }
    } else if broken > 0 {
        SummaryV {
            look: Look::Attention,
            news: false,
            title: "Some repositories could not be checked"@,
            detail: dec(broken) + " of "@ + dec(u.repos.len()) + " need attention."@,
        }
    } else {
        SummaryV {
            look: Look::Good,
            news: false,
            title: "The package lists are current"@,
            detail: dec(u.repos.len())
                + " repositories checked. This says nothing about installed packages: steps 2 and 3 show what is still pending."@,
        }
    }
}

pub fn summary(status: &Status, parsed: &Updates) -> (r: Summary)
    ensures
        r@ == summary_of(*status, parsed@),
{
    let ghost rs = parsed@.repos;
    let ghost pp = |r: (Seq<char>, State)| is_pending(r);
    let ghost bp = |r: (Seq<char>, State)| is_broken(r);
    let mut pending: usize = 0;
    let mut broken: usize = 0;
    let mut k: usize = 0;
    while k < parsed.repos.len()
        invariant
            k <= parsed.repos@.len() == rs.len(),
            rs == parsed@.repos,
            pp == (|r: (Seq<char>, State)| is_pending(r)),
            bp == (|r: (Seq<char>, State)| is_broken(r)),
            pending == count(rs.take(k as int), pp),
            broken == count(rs.take(k as int), bp),
            pending <= k,
            broken <= k,
        decreases parsed.repos.len() - k,
    {
        proof {
            lemma_count_step(rs, pp, k as int);
            lemma_count_step(rs, bp, k as int);
        }
        let st = parsed.repos[k].1;
        assert(rs[k as int].1 == st);
        assert(pp(rs[k as int]) == (st == State::Pending));
        assert(bp(rs[k as int]) == (st == State::Unknown || st == State::Unreachable));
        if st == State::Pending {
            pending = pending + 1;
        }
        if st == State::Unknown || st == State::Unreachable {
            broken = broken + 1;
        }
        k = k + 1;
    }
    proof {
        lemma_count_all(rs, pp);
        lemma_count_all(rs, bp);
    }
    let n = parsed.repos.len();
    if !status.answered() {
        Summary {
            look: Look::Bad,
            news: false,
            title: owned("Could not check for updates"),
            detail: describe(status, Privilege::User),
        }
    } else if pending > 0 {
        let title = if pending == 1 {
            owned("1 repository has published new data")
        } else {
            let mut t = usize_text(pending);
            t.append(" repositories have published new data");
            t
        };
        Summary {
            look: Look::Attention,
            news: true,
            title,
            detail: owned("Update the package lists (step 1), then steps 2 and 3."),
        }
    } else if broken > 0 {
        let mut d = usize_text(broken);
        d.append(" of ");
        d.append(usize_text(n).as_str());
        d.append(" need attention.");
        Summary {
            look: Look::Attention,
            news: false,
            title: owned("Some repositories could not be checked"),
            detail: d,
        }
    } else {
        let mut d = usize_text(n);
        d.append(
            " repositories checked. This says nothing about installed packages: steps 2 and 3 show what is still pending.",
        );
        Summary {
            look: Look::Good,
            news: false,
            title: owned("The package lists are current"),
            detail: d,
        }
    }
}

/// The words and tone of the badge for one repository's state.
pub fn state_pill(state: State) -> (r: (&'static str, Tone))
    ensures
        r.0@ == (match state {
            State::UpToDate => "list is current"@,
            State::Pending => "new data to fetch"@,
            State::Unknown => "unknown, run update first"@,
            State::Unreachable => "unreachable, check its URL"@,
        }),
        r.1 == (match state {
            State::UpToDate => Tone::Success,
            State::Pending => Tone::Accent,
            State::Unknown => Tone::Neutral,
            State::Unreachable => Tone::Error,
        }),
{
    match state {
        State::UpToDate => ("list is current", Tone::Success),
        State::Pending => ("new data to fetch", Tone::Accent),
        State::Unknown => ("unknown, run update first", Tone::Neutral),
        State::Unreachable => ("unreachable, check its URL", Tone::Error),
    }
}

/// A note that slacker printed as a warning.
pub fn is_warning(note: &str) -> (r: bool)
    ensures
        r == starts_with(note@, "WARNING"@),
{
    str_starts_with(note, "WARNING")
}

} // verus!
