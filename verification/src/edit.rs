//! What the dialogs that add and change rules decide: when their button
//! may be pressed, what they say about the text typed, and which numbers a
//! priority may take.
use vstd::prelude::*;

use crate::text::{dec_i32, i32_text, join, joined, owned, push_string, same_text, strs, trim, trimmed};

verus! {

/// What a dialog shows for the text typed so far: whether its button may
/// be pressed (the text passes its check, and what else it needs is there),
/// and the reason the text is refused, except while the field is blank.
pub open spec fn feedback_of(check: Result<Seq<char>, Seq<char>>, text: Seq<char>, ready: bool) -> (
    bool,
    Option<Seq<char>>,
) {
    (
        check is Ok && ready,
        match check {
            Err(m) => if trim(text).len() == 0 {
                None
            } else {
                Some(m)
            },
            Ok(_) => None,
        },
    )
}

pub fn feedback(check: &Result<String, String>, text: &str, ready: bool) -> (r: (
    bool,
    Option<String>,
))
    ensures
        (r.0, match r.1 {
            Some(m) => Some(m@),
            None => None,
        }) == feedback_of(
            match check {
                Ok(s) => Ok(s@),
                Err(e) => Err(e@),
            },
            text@,
            ready,
        ),
{
    match check {
        Ok(_) => (ready, None),
        Err(m) => {
            let t = trimmed(text);
            if t.as_str().unicode_len() == 0 {
                (false, None)
            } else {
                (false, Some(m.clone()))
            }
        },
    }
}

/// The priorities the other repositories hold, as `PRIORITY NAME`.
pub open spec fn others_of(taken: Seq<(i32, Seq<char>)>, name: Seq<char>) -> Seq<Seq<char>>
    decreases taken.len(),
{
    if taken.len() == 0 {
        Seq::empty()
    } else {
        let prev = others_of(taken.drop_last(), name);
        let (p, n) = taken.last();
        if n == name {
            prev
        } else {
            prev.push(dec_i32(p) + " "@ + n)
        }
    }
}

/// The hint under the number field: which priorities are in use by the
/// other repositories; nothing when there are none.
pub open spec fn in_use_of(taken: Seq<(i32, Seq<char>)>, name: Seq<char>) -> Option<Seq<char>> {
    let others = others_of(taken, name);
    if others.len() == 0 {
        None
    } else {
        Some("In use: "@ + joined(others, ", "@))
    }
}

pub fn in_use(taken: &Vec<(i32, String)>, name: &str) -> (r: Option<String>)
    ensures
        match r {
            Some(s) => in_use_of(taken@.map_values(|t: (i32, String)| (t.0, t.1@)), name@) == Some(
                s@,
            ),
            None => in_use_of(taken@.map_values(|t: (i32, String)| (t.0, t.1@)), name@) is None,
        },
{
    let ghost ts = taken@.map_values(|t: (i32, String)| (t.0, t.1@));
    let mut others: Vec<String> = Vec::new();
    let mut k: usize = 0;
    proof {
        reveal_strlit(" ");
    }
    while k < taken.len()
        invariant
            k <= taken@.len() == ts.len(),
            ts == taken@.map_values(|t: (i32, String)| (t.0, t.1@)),
            " "@ == seq![' '],
            strs(others@) == others_of(ts.take(k as int), name@),
        decreases taken.len() - k,
    {
        assert(ts.take(k + 1).drop_last() =~= ts.take(k as int));
        assert(ts.take(k + 1).last() == (taken@[k as int].0, taken@[k as int].1@));
        if !same_text(taken[k].1.as_str(), name) {
            let mut t = i32_text(taken[k].0);
            t.append(" ");
            t.append(taken[k].1.as_str());
            push_string(&mut others, t);
        }
        k = k + 1;
    }
    assert(ts.take(k as int) =~= ts);
    if others.len() == 0 {
        return None;
    }
    let mut s = owned("In use: ");
    s.append(join(&others, ", ").as_str());
    Some(s)
}

/// The number the field starts at: the current priority, or zero for a
/// negative one, since only priorities from zero up are offered.
pub fn initial_priority(current: i32) -> (r: i32)
    ensures
        r == (if current < 0 {
            0
        } else {
            current
        }),
{
    if current < 0 {
        0
    } else {
        current
    }
}

/// The priority to set from the number in the field, when it is one that
/// can be set.
pub fn chosen_priority(value: i32) -> (r: Option<u32>)
    ensures
        r == (if value >= 0 {
            Some(value as u32)
        } else {
            None
        }),
{
    if value >= 0 {
        Some(value as u32)
    } else {
        None
    }
}

/// The priority dialog's button works only once the number differs from
/// the current priority.
pub fn priority_changed(value: i32, current: i32) -> (b: bool)
    ensures
        b == (value != current),
{
    value != current
}

} // verus!
