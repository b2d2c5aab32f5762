//! The generic mutator: a fixed-size scoreboard of mutations over a tree.

use vstd::prelude::*;

verus! {

/// A placeholder mutator which does not perform any specific mutation.
/// It is what a default [`Mutator`] carries.
pub struct EmptyMutator;

/// Records, for `N` simultaneous mutations driven by the loaded implementor
/// `mutator`, which of them have been applied so far.
pub struct Mutator<'a, T, const N: usize> {
    /// Which of the `N` mutations succeeded.
    pub mutated: [bool; N],
    /// The loaded implementor that drives the mutations.
    pub mutator: &'a T,
}

/// Loads an implementor into a fresh [`Mutator`], turning a default one into
/// one that knows what to change.
pub trait ToMutate<'a, T, const N: usize> {
    fn to_mutate(self, mutator: &'a T) -> Mutator<'a, T, N>;
}

impl<'a, T, const N: usize> Mutator<'a, T, N> {
    /// Reset the `mutated` array to all `false` values.
    pub fn reset(&mut self)
        ensures
            final(self).mutated@ =~= Seq::new(N as nat, |i: int| false),
            final(self).mutator == old(self).mutator,
    {
        self.mutated = [false; N];
    }
}

impl Default for Mutator<'_, EmptyMutator, 1> {
    /// A mutator with a single, not yet applied mutation and no implementor.
    fn default() -> (r: Self)
        ensures
            r.mutated@ =~= seq![false],
    {
        Mutator { mutated: [false], mutator: &EmptyMutator }
    }
}

} // verus!
