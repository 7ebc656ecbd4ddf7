//! The Search page: one row per hit, with what it says under the name and
//! the action it offers.
use vstd::prelude::*;

use crate::parse::search::{short_summary, short_summary_spec, Hit, HitV};
use crate::text::{join, joined, owned, strs};

verus! {

/// What a hit offers.
#[derive(Clone, Copy, Debug, PartialEq, Eq, Structural)]
pub enum HitAction {
    Install,
    Remove,
}

/// An installed package can be removed; one that is not can be installed
/// unless it is frozen, which offers nothing.
pub open spec fn action_of(h: HitV) -> Option<HitAction> {
    if h.installed {
        Some(HitAction::Remove)
    } else if !h.blacklisted {
        Some(HitAction::Install)
    } else {
        None
    }
}

pub fn hit_action(hit: &Hit) -> (r: Option<HitAction>)
    ensures
        r == action_of(hit@),
{
    if hit.installed {
        Some(HitAction::Remove)
    } else if !hit.blacklisted {
        Some(HitAction::Install)
    } else {
        None
    }
}

/// What a hit says under its name: the short summary, then, on a line of
/// its own, the other repositories that ship it.
pub open spec fn subtitle_of(h: HitV) -> Seq<char> {
    let s = short_summary_spec(h.name, h.summary);
    if h.also.len() == 0 {
        s
    } else {
        (if s.len() == 0 {
            s
        } else {
            s + seq!['\n']
        }) + "Also in: "@ + joined(h.also, ", "@)
    }
}

pub fn hit_subtitle(hit: &Hit) -> (r: String)
    ensures
        r@ == subtitle_of(hit@),
{
    let mut s = owned(short_summary(hit.name.as_str(), hit.summary.as_str()));
    if hit.also.len() > 0 {
        if s.as_str().unicode_len() > 0 {
            s.append("\n");
            proof {
                reveal_strlit("\n");
            }
        }
        s.append("Also in: ");
        s.append(join(&hit.also, ", ").as_str());
    }
    s
}

} // verus!
