//! The Mirrors page: the ranking `find-mirror` printed, described.
use vstd::prelude::*;

use crate::pages::{count, lemma_count_all, lemma_count_step, Tone};
use crate::parse::mirrors::{FindMirror, FindMirrorV, Freshness, FreshnessV, MirrorV};
use crate::text::{chars_of, find, find_span, owned, string_of, to_uppercase_text, uppercase_text};

verus! {

/// The host part of a mirror URL: what follows `://`, up to the next `/`
/// (or a further `://`); the whole URL when it has no `://`.
pub open spec fn host_of(url: Seq<char>) -> Seq<char> {
    match find(url, "://"@) {
        None => url,
        Some(k) => {
            let rest = url.subrange(k + 3, url.len() as int);
            let piece = match find(rest, "://"@) {
                Some(m) => rest.subrange(0, m),
                None => rest,
            };
            match find(piece, seq!['/']) {
                Some(j) => piece.subrange(0, j),
                None => piece,
            }
        },
    }
}

pub fn host(url: &str) -> (r: String)
    ensures
        r@ == host_of(url@),
{
    let v = chars_of(url);
    let sep = chars_of("://");
    let slash = vec!['/'];
    proof {
        reveal_strlit("://");
    }
    assert(v@.subrange(0, v@.len() as int) =~= v@);
    let n = v.len();
    let k = match find_span(v.as_slice(), 0, n, sep.as_slice()) {
        None => {
            return string_of(v.as_slice(), 0, n);
        },
        Some(k) => k,
    };
    let a = k + 3;
    let ghost rest = v@.subrange(a as int, n as int);
    let b = match find_span(v.as_slice(), a, n, sep.as_slice()) {
        Some(m) => m,
        None => n,
    };
    let ghost piece = v@.subrange(a as int, b as int);
    assert(piece =~= match find(rest, "://"@) {
        Some(m) => rest.subrange(0, m),
        None => rest,
    });
    assert(slash@ =~= seq!['/']);
    let c = match find_span(v.as_slice(), a, b, slash.as_slice()) {
        Some(j) => j,
        None => b,
    };
    assert(v@.subrange(a as int, c as int) =~= match find(piece, seq!['/']) {
        Some(j) => piece.subrange(0, j),
        None => piece,
    });
    string_of(v.as_slice(), a, c)
}

/// The badge for a mirror's freshness.
pub open spec fn freshness_pill_of(f: FreshnessV) -> (Seq<char>, Tone) {
    match f {
        FreshnessV::InSync => ("in sync"@, Tone::Success),
        FreshnessV::Behind(lag) => (lag + " behind"@, Tone::Warning),
        FreshnessV::Unknown => ("freshness unknown"@, Tone::Neutral),
    }
}

pub fn freshness_pill(f: &Freshness) -> (r: (String, Tone))
    ensures
        (r.0@, r.1) == freshness_pill_of(f@),
{
    match f {
        Freshness::InSync => (owned("in sync"), Tone::Success),
        Freshness::Behind(lag) => {
            let mut t = lag.clone();
            t.append(" behind");
            (t, Tone::Warning)
        },
        Freshness::Unknown => (owned("freshness unknown"), Tone::Neutral),
    }
}

pub open spec fn is_in_sync(m: MirrorV) -> bool {
    m.freshness is InSync
}

/// How many of the ranked mirrors are in sync with upstream.
pub fn in_sync_count(f: &FindMirror) -> (r: usize)
    ensures
        r == count(f@.ranked, |m: MirrorV| is_in_sync(m)),
{
    let ghost rs = f@.ranked;
    let ghost p = |m: MirrorV| is_in_sync(m);
    let mut n: usize = 0;
    let mut k: usize = 0;
    while k < f.ranked.len()
        invariant
            k <= f.ranked@.len() == rs.len(),
            rs == f@.ranked,
            p == (|m: MirrorV| is_in_sync(m)),
            n == count(rs.take(k as int), p),
            n <= k,
        decreases f.ranked.len() - k,
    {
        proof {
            lemma_count_step(rs, p, k as int);
        }
        assert(rs[k as int] == f.ranked@[k as int]@);
        let in_sync = match f.ranked[k].freshness {
            Freshness::InSync => true,
            _ => false,
        };
        if in_sync {
            n = n + 1;
        }
        k = k + 1;
    }
    proof {
        lemma_count_all(rs, p);
    }
    n
}

/// What the ranking was checked against.
pub open spec fn ranking_note_of(f: FindMirrorV) -> Seq<char> {
    match f.validated {
        Some(date) => "Freshness checked against upstream ("@ + date + ")"@,
        None => if f.upstream_unreachable {
            "Upstream was unreachable: ranked by speed only, freshness unknown"@
        } else {
            Seq::empty()
        },
    }
}

pub fn ranking_note(f: &FindMirror) -> (r: String)
    ensures
        r@ == ranking_note_of(f@),
{
    match &f.validated {
        Some(date) => {
            let mut t = owned("Freshness checked against upstream (");
            t.append(date.as_str());
            t.append(")");
            t
        },
        None => if f.upstream_unreachable {
            owned("Upstream was unreachable: ranked by speed only, freshness unknown")
        } else {
            proof {
                reveal_strlit("");
            }
            owned("")
        },
    }
}

/// The pill a mirror's country code gets, in capitals; none when slacker
/// printed no country.
pub fn country_pill(country: &str) -> (r: Option<String>)
    ensures
        r matches Some(s) ==> country@.len() > 0 && s@ == uppercase_text(country@),
        r is None ==> country@.len() == 0,
{
    if country.unicode_len() == 0 {
        None
    } else {
        Some(to_uppercase_text(country))
    }
}

} // verus!
