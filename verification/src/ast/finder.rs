//! The generic finder: a fixed-size scoreboard of searches over a tree.

use vstd::prelude::*;

verus! {

/// A placeholder finder which does not perform any specific search.
/// It is what a default [`Finder`] carries.
pub struct EmptyFinder;

/// Records, for `N` simultaneous searches driven by the loaded implementor
/// `finder`, which of them have succeeded so far.
pub struct Finder<'a, T, const N: usize> {
    /// Which of the `N` searches succeeded.
    pub found: [bool; N],
    /// The loaded implementor that drives the searches.
    pub finder: &'a T,
}

/// Loads an implementor into a fresh [`Finder`], turning a default one into
/// one that knows what to look for.
pub trait ToFind<'a, T, const N: usize> {
    fn to_find(self, finder: &'a T) -> Finder<'a, T, N>;
}

impl<'a, T, const N: usize> Finder<'a, T, N> {
    /// Reset the `found` array to all `false` values.
    pub fn reset(&mut self)
        ensures
            final(self).found@ =~= Seq::new(N as nat, |i: int| false),
            final(self).finder == old(self).finder,
    {
        self.found = [false; N];
    }
}

impl Default for Finder<'_, EmptyFinder, 1> {
    /// A finder with a single, not yet successful search and no implementor.
    fn default() -> (r: Self)
        ensures
            r.found@ =~= seq![false],
    {
        Finder { found: [false], finder: &EmptyFinder }
    }
}

} // verus!
