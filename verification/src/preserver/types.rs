//! The user-facing directive type [`Preserver`] and the lexical nesting
//! oracle [`DelimitersCount`].

use crate::text::occ;
use vstd::prelude::*;

verus! {

/// A preservation directive: a lookup prefix that claims a source line (and
/// with it the block that line opens), plus at most one nested directive for
/// the inside of that block. The chain of nested directives forms a path of
/// increasing specificity.
#[derive(Debug, PartialEq)]
pub struct Preserver {
    lookup: String,
    inner: Option<Box<Preserver>>,
}

impl Clone for Preserver {
    /// The clone carries the same chain of lookups.
    fn clone(&self) -> (r: Self)
        ensures
            r@ == self@,
        decreases *self,
    {
        let r = Preserver {
            lookup: self.lookup.clone(),
            inner: match &self.inner {
                None => None,
                Some(b) => Some(Box::new((**b).clone())),
            },
        };
        proof {
            assert(chain_of(r) =~= chain_of(*self));
        }
        r
    }
}

/// The chain of lookups of a directive, outermost first. It always has at
/// least one element.
pub closed spec fn chain_of(p: Preserver) -> Seq<Seq<char>>
    decreases p,
{
    match p.inner {
        Option::None => seq![p.lookup@],
        Option::Some(b) => seq![p.lookup@] + chain_of(*b),
    }
}

impl View for Preserver {
    type V = Seq<Seq<char>>;

    closed spec fn view(&self) -> Seq<Seq<char>> {
        chain_of(*self)
    }
}

impl Preserver {
    /// Creates a new preserver using the provided lookup.
    pub fn new(lookup: &str) -> (r: Self)
        ensures
            r@ =~= seq![lookup@],
    {
        Preserver { lookup: lookup.to_owned(), inner: None }
    }

    /// Add inner preservers, in order to preserve just an inner block of a
    /// preserved block, keeping the outer block itself preserved. The inner
    /// preservers are chained in the order the slice gives them; an earlier
    /// chain below the root is replaced, and an empty slice changes nothing.
    pub fn add_inners(&mut self, lookups: &[&str])
        ensures
            lookups@.len() == 0 ==> final (self)@ == old(self)@,
            lookups@.len() > 0 ==> final (self)@ =~= seq![old(self)@[0]] + lookups@.map_values(
                |s: &str| s@,
            ),
    {
        if lookups.len() > 0 {
            let chain = Self::build_chain(lookups, 0);
            proof {
                assert(lookups@.skip(0) =~= lookups@);
            }
            self.inner = Some(Box::new(chain));
        }
    }

    /// Builds the chain for `lookups[i..]`, innermost last.
    fn build_chain(lookups: &[&str], i: usize) -> (r: Preserver)
        requires
            i < lookups@.len(),
        ensures
            r@ =~= lookups@.skip(i as int).map_values(|s: &str| s@),
        decreases lookups@.len() - i,
    {
        let mut p = Preserver::new(lookups[i]);
        if i + 1 < lookups.len() {
            let rest = Self::build_chain(lookups, i + 1);
            proof {
                assert(seq![lookups@[i as int]@] + lookups@.skip(i as int + 1).map_values(
                    |s: &str| s@,
                ) =~= lookups@.skip(i as int).map_values(|s: &str| s@));
            }
            p.inner = Some(Box::new(rest));
        } else {
            proof {
                assert(seq![lookups@[i as int]@] =~= lookups@.skip(i as int).map_values(
                    |s: &str| s@,
                ));
            }
        }
        p
    }

    /// Gets the lookup for a `Preserver`.
    pub fn lookup(&self) -> (r: &str)
        ensures
            r@ == self@[0],
    {
        self.lookup.as_str()
    }

    /// Gets the outermost inner preserver for a `Preserver`, if any.
    pub fn get_inner(&self) -> (r: Option<&Preserver>)
        ensures
            match r {
                Option::None => self@.len() == 1,
                Option::Some(p) => self@.len() > 1 && p@ == self@.drop_first(),
            },
    {
        match &self.inner {
            None => {
                proof {
                    assert(chain_of(*self) =~= seq![self.lookup@]);
                }
                None
            },
            Some(b) => {
                proof {
                    assert(chain_of(*self) =~= seq![self.lookup@] + chain_of(**b));
                    assert(chain_of(*self).drop_first() =~= chain_of(**b));
                }
                Some(&**b)
            },
        }
    }
}

/// Saturating addition of a mathematical count onto a 64-bit tally.
pub open spec fn sat_add_u64(a: u64, b: nat) -> u64 {
    if a + b > u64::MAX {
        u64::MAX
    } else {
        (a + b) as u64
    }
}

/// A running tally of the three bracket pair kinds seen so far: open and
/// close counts for `{}`, `()` and `[]`, in that order. Counting is purely
/// lexical; brackets inside string literals or comments count too.
#[derive(Debug, Clone, Copy)]
pub struct DelimitersCount {
    /// Open and close counts for `{}`, `()` and `[]`, in that order.
    pub counts: [u64; 6],
}

impl DelimitersCount {
    /// A tally with all six counters at zero.
    pub fn new() -> (r: Self)
        ensures
            r.counts@ =~= seq![0u64, 0u64, 0u64, 0u64, 0u64, 0u64],
    {
        DelimitersCount { counts: [0, 0, 0, 0, 0, 0] }
    }

    /// True iff every open count equals its close count: the operational
    /// definition of "currently outside every tracked block".
    pub fn is_complete(&self) -> (r: bool)
        ensures
            r == (self.counts@[0] == self.counts@[1] && self.counts@[2] == self.counts@[3]
                && self.counts@[4] == self.counts@[5]),
    {
        self.counts[0] == self.counts[1] && self.counts[2] == self.counts[3] && self.counts[4]
            == self.counts[5]
    }

    /// As `count`, for a line held as a vector of characters.
    pub(crate) fn count_vec(&mut self, line: &Vec<char>)
        ensures
            final (self).counts@ =~= seq![
                sat_add_u64(old(self).counts@[0], occ(line@, '{')),
                sat_add_u64(old(self).counts@[1], occ(line@, '}')),
                sat_add_u64(old(self).counts@[2], occ(line@, '(')),
                sat_add_u64(old(self).counts@[3], occ(line@, ')')),
                sat_add_u64(old(self).counts@[4], occ(line@, '[')),
                sat_add_u64(old(self).counts@[5], occ(line@, ']')),
            ],
    {
        let o0 = count_char_vec(line, '{');
        let o1 = count_char_vec(line, '}');
        let o2 = count_char_vec(line, '(');
        let o3 = count_char_vec(line, ')');
        let o4 = count_char_vec(line, '[');
        let o5 = count_char_vec(line, ']');
        self.counts = [
            sat_add(self.counts[0], o0),
            sat_add(self.counts[1], o1),
            sat_add(self.counts[2], o2),
            sat_add(self.counts[3], o3),
            sat_add(self.counts[4], o4),
            sat_add(self.counts[5], o5),
        ];
    }

    /// Adds the delimiter occurrences of `line` to the tally; each counter
    /// saturates at its maximum instead of overflowing.
    pub fn count(&mut self, line: &str)
        ensures
            final (self).counts@ =~= seq![
                sat_add_u64(old(self).counts@[0], occ(line@, '{')),
                sat_add_u64(old(self).counts@[1], occ(line@, '}')),
                sat_add_u64(old(self).counts@[2], occ(line@, '(')),
                sat_add_u64(old(self).counts@[3], occ(line@, ')')),
                sat_add_u64(old(self).counts@[4], occ(line@, '[')),
                sat_add_u64(old(self).counts@[5], occ(line@, ']')),
            ],
    {
        let o0 = count_char(line, '{');
        let o1 = count_char(line, '}');
        let o2 = count_char(line, '(');
        let o3 = count_char(line, ')');
        let o4 = count_char(line, '[');
        let o5 = count_char(line, ']');
        self.counts = [
            sat_add(self.counts[0], o0),
            sat_add(self.counts[1], o1),
            sat_add(self.counts[2], o2),
            sat_add(self.counts[3], o3),
            sat_add(self.counts[4], o4),
            sat_add(self.counts[5], o5),
        ];
    }
}

/// How often `c` occurs in `line`.
fn count_char(line: &str, c: char) -> (r: usize)
    ensures
        r == occ(line@, c),
{
    let n = line.unicode_len();
    let mut i: usize = 0;
    let mut cnt: usize = 0;
    while i < n
        invariant
            0 <= i <= n,
            n == line@.len(),
            cnt == occ(line@.take(i as int), c),
            cnt <= i,
        decreases n - i,
    {
        let ch = line.get_char(i);
        proof {
            assert(line@.take(i as int + 1).drop_last() =~= line@.take(i as int));
            assert(line@.take(i as int + 1).last() == line@[i as int]);
        }
        if ch == c {
            cnt = cnt + 1;
        }
        i = i + 1;
    }
    proof {
        assert(line@.take(n as int) =~= line@);
    }
    cnt
}

/// How often `c` occurs among the characters of `line`.
fn count_char_vec(line: &Vec<char>, c: char) -> (r: usize)
    ensures
        r == occ(line@, c),
{
    let n = line.len();
    let mut i: usize = 0;
    let mut cnt: usize = 0;
    while i < n
        invariant
            0 <= i <= n,
            n == line@.len(),
            cnt == occ(line@.take(i as int), c),
            cnt <= i,
        decreases n - i,
    {
        proof {
            assert(line@.take(i as int + 1).drop_last() =~= line@.take(i as int));
            assert(line@.take(i as int + 1).last() == line@[i as int]);
        }
        if line[i] == c {
            cnt = cnt + 1;
        }
        i = i + 1;
    }
    proof {
        assert(line@.take(n as int) =~= line@);
    }
    cnt
}

/// Saturating add of a usize count onto a u64 counter.
fn sat_add(a: u64, b: usize) -> (r: u64)
    ensures
        r == sat_add_u64(a, b as nat),
{
    let b64 = b as u64;
    if a <= u64::MAX - b64 {
        a + b64
    } else {
        u64::MAX
    }
}

} // verus!
