//! Navigation between the pages of the main window: each page loads its
//! data the first time it is shown, and after anything changes the
//! installed system the pages that show system state load again.
use vstd::prelude::*;

verus! {

/// Which page is shown, and which pages have loaded their data.
pub struct Navigation {
    pub current: usize,
    pub loaded: Vec<bool>,
}

pub struct NavigationV {
    pub current: int,
    pub loaded: Seq<bool>,
}

impl View for Navigation {
    type V = NavigationV;

    open spec fn view(&self) -> NavigationV {
        NavigationV { current: self.current as int, loaded: self.loaded@ }
    }
}

impl NavigationV {
    /// The page shown is one of the pages.
    pub open spec fn valid(self) -> bool {
        0 <= self.current < self.loaded.len()
    }
}

/// Showing page `k`: it becomes the current page and counts as loaded. Its
/// data is loaded now when it had not been, or every time for a page whose
/// loading only takes the focus.
pub open spec fn show_spec(nav: NavigationV, k: int, always: bool) -> (NavigationV, bool) {
    (NavigationV { current: k, loaded: nav.loaded.update(k, true) }, always || !nav.loaded[k])
}

/// After a change to the installed system: the page shown loads again when
/// it shows system state, and the other such pages count as not loaded, so
/// they load when next shown.
pub open spec fn changed_spec(nav: NavigationV, reloads: Seq<bool>) -> (NavigationV, bool) {
    (
        NavigationV {
            current: nav.current,
            loaded: Seq::new(
                nav.loaded.len(),
                |i: int| if i != nav.current && reloads[i] {
                    false
                } else {
                    nav.loaded[i]
                },
            ),
        },
        reloads[nav.current],
    )
}

impl Navigation {
    /// `pages` pages, none loaded; the first is shown.
    pub fn new(pages: usize) -> (r: Navigation)
        requires
            pages > 0,
        ensures
            r@.valid(),
            r@.current == 0,
            r@.loaded == Seq::new(pages as nat, |i: int| false),
    {
        let mut loaded: Vec<bool> = Vec::new();
        let mut k: usize = 0;
        while k < pages
            invariant
                k <= pages,
                loaded@ == Seq::new(k as nat, |i: int| false),
            decreases pages - k,
        {
            loaded.push(false);
            assert(loaded@ =~= Seq::new((k + 1) as nat, |i: int| false));
            k = k + 1;
        }
        Navigation { current: 0, loaded }
    }

    /// Shows page `k`; says whether its data is to be loaded now.
    pub fn show(&mut self, k: usize, always: bool) -> (load: bool)
        requires
            k < old(self)@.loaded.len(),
        ensures
            (final(self)@, load) == show_spec(old(self)@, k as int, always),
            final(self)@.valid(),
    {
        let first = !self.loaded[k];
        self.loaded.set(k, true);
        self.current = k;
        always || first
    }

    /// Records a change to the installed system; `reloads[i]` says whether
    /// page `i` shows system state. Says whether the page shown is to load
    /// again now.
    pub fn system_changed(&mut self, reloads: &[bool]) -> (load: bool)
        requires
            old(self)@.valid(),
            reloads@.len() == old(self)@.loaded.len(),
        ensures
            (final(self)@, load) == changed_spec(old(self)@, reloads@),
            final(self)@.valid(),
    {
        let ghost before = self@;
        let mut k: usize = 0;
        while k < self.loaded.len()
            invariant
                k <= self.loaded@.len() == before.loaded.len() == reloads@.len(),
                self.current == before.current,
                0 <= before.current < before.loaded.len(),
                forall|i: int|
                    0 <= i < self.loaded@.len() ==> #[trigger] self.loaded@[i] == if i < k
                        && i != before.current && reloads@[i] {
                        false
                    } else {
                        before.loaded[i]
                    },
            decreases self.loaded.len() - k,
        {
            if k != self.current && reloads[k] {
                self.loaded.set(k, false);
            }
            k = k + 1;
        }
        assert(self@.loaded =~= changed_spec(before, reloads@).0.loaded);
        reloads[self.current]
    }
}

/// A page is loaded once: shown again without a change in between, it
/// does not load again (unless it loads every time it is shown).
pub proof fn shown_pages_load_once(nav: NavigationV, k: int, j: int)
    requires
        nav.valid(),
        0 <= k < nav.loaded.len(),
        0 <= j < nav.loaded.len(),
    ensures
        !show_spec(show_spec(show_spec(nav, k, false).0, j, false).0, k, false).1,
{
}

/// After a change, a page that shows system state and is not the one on
/// screen loads again the next time it is shown, and the page on screen
/// loads at once when it shows system state; a page that does not show
/// system state keeps what it has.
pub proof fn changes_reach_every_page(nav: NavigationV, reloads: Seq<bool>, k: int)
    requires
        nav.valid(),
        reloads.len() == nav.loaded.len(),
        0 <= k < nav.loaded.len(),
    ensures
        k != nav.current && reloads[k] ==> show_spec(changed_spec(nav, reloads).0, k, false).1,
        k == nav.current ==> changed_spec(nav, reloads).1 == reloads[k],
        !reloads[k] ==> changed_spec(nav, reloads).0.loaded[k] == nav.loaded[k],
{
}

} // verus!
