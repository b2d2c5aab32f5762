//! Generic scaffolding for targeted searches and mutations over a parsed
//! tree: a [`finder::Finder`] records which of `N` simultaneous searches
//! succeeded, a [`mutator::Mutator`] records which of `N` mutations did.

pub mod finder;
pub mod mutator;
