//! Inner attribute state recognised on a struct while expanding derive-like
//! annotations, reduced to the two flags the expansion cares about.

use vstd::prelude::*;

verus! {

/// What a struct's own attributes said about it: nothing at all, that it was
/// already expanded on an earlier pass, or that a `From` implementation is
/// requested.
#[derive(PartialEq, Eq, Structural)]
pub enum InnerAttr {
    Nothing,
    AlreadyExpanded,
    ImplFrom,
}

impl InnerAttr {
    /// Reduces the attribute state to the pair
    /// `(already expanded, needs an impl of From)`.
    pub fn parse(self) -> (r: (bool, bool))
        ensures
            r == match self {
                InnerAttr::Nothing => (false, false),
                InnerAttr::AlreadyExpanded => (true, false),
                InnerAttr::ImplFrom => (false, true),
            },
    {
        match self {
            InnerAttr::Nothing => (false, false),
            InnerAttr::AlreadyExpanded => (true, false),
            InnerAttr::ImplFrom => (false, true),
        }
    }
}

} // verus!
