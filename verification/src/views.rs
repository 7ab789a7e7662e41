//! The tabs of the terminal client.

use vstd::prelude::*;

verus! {

/// The tabs.
#[derive(Clone, Copy, PartialEq, Eq, Debug, Structural)]
pub enum View {
    Live,
    Rules,
    Stats,
}

/// The tab after another.
pub open spec fn tab_after(view: View) -> View {
    match view {
        View::Live => View::Rules,
        View::Rules => View::Stats,
        View::Stats => View::Live,
    }
}

/// Going on from tab to tab leads through all of them and back.
pub proof fn lemma_tabs_go_round(view: View)
    ensures
        tab_after(tab_after(tab_after(view))) == view,
        tab_after(view) != view,
        tab_after(View::Live) is Rules,
{
}

} // verus!
