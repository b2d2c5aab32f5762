//! The mathematical model of the preservation transform: what the
//! placeholder-encoded text of a source is, line by line, for a given list of
//! directive chains.
//!
//! A directive is modelled as its chain of lookups, outermost first; a list
//! of directives as a sequence of such chains. The transform walks the lines
//! of the source with a running delimiter tally and emits, for every line,
//! either the line itself (claimed or inside an unclaimed block), a
//! doc-comment marker carrying the line (dropped), or a marker paired with a
//! dummy declaration (dropped inside a block).

use crate::text::cat_range;
use crate::text::join_nl;
use crate::text::lemma_mu_mono;
use crate::text::lemma_mu_split_le;
use crate::text::mu;
use crate::text::occ;
use crate::text::split_nl;
use crate::text::starts_with_seq;
use crate::text::trim_start_spec;
use vstd::prelude::*;

verus! {

/// All three delimiter pairs of `acc` are balanced: the operational meaning
/// of "outside every tracked block" after consuming the text `acc`.
pub open spec fn balanced(acc: Seq<char>) -> bool {
    occ(acc, '{') == occ(acc, '}') && occ(acc, '(') == occ(acc, ')') && occ(acc, '[') == occ(
        acc,
        ']',
    )
}

/// The marker prefix a dropped line is wrapped with.
pub open spec fn tempdoc_seq() -> Seq<char> {
    seq!['/', '/', '/', 'T', 'E', 'M', 'P', '_', 'D', 'O', 'C']
}

/// The dummy declaration line (with its newline) that anchors a dropped line
/// inside a block, and that terminates every scope.
pub open spec fn marker_line_seq() -> Seq<char> {
    seq![
        't',
        'y',
        'p',
        'e',
        ' ',
        't',
        'e',
        'm',
        'p',
        '_',
        'm',
        'a',
        'r',
        'k',
        'e',
        'r',
        ' ',
        '=',
        ' ',
        '(',
        ')',
        ';',
        '\n',
    ]
}

pub open spec fn nl_seq() -> Seq<char> {
    seq!['\n']
}

/// A trimmed line that is a plain (non-doc) line comment or a global
/// attribute: the kinds that are dropped even inside an unclaimed block.
pub open spec fn is_dropped_comment(t: Seq<char>) -> bool {
    (starts_with_seq(t, seq!['/', '/']) && !starts_with_seq(t, seq!['/', '/', '/'])
        && !starts_with_seq(t, seq!['/', '/', '!'])) || starts_with_seq(t, seq!['#', '!', '['])
}

/// The index of the first chain whose outermost lookup is a prefix of the
/// trimmed line `t`, if any.
pub open spec fn match_idx(chains: Seq<Seq<Seq<char>>>, t: Seq<char>) -> Option<int>
    decreases chains.len(),
{
    if chains.len() == 0 {
        Option::None
    } else if starts_with_seq(t, chains[0][0]) {
        Option::Some(0int)
    } else {
        match match_idx(chains.drop_first(), t) {
            Option::Some(k) => Option::Some(k + 1),
            Option::None => Option::None,
        }
    }
}

pub proof fn lemma_match_idx_some(chains: Seq<Seq<Seq<char>>>, t: Seq<char>, k: int)
    requires
        0 <= k < chains.len(),
        starts_with_seq(t, chains[k][0]),
        forall|x: int| 0 <= x < k ==> !starts_with_seq(t, chains[x][0]),
    ensures
        match_idx(chains, t) == Option::Some(k),
    decreases k,
{
    if k > 0 {
        let d = chains.drop_first();
        assert(forall|x: int| 0 <= x < k - 1 ==> d[x] == chains[x + 1]);
        lemma_match_idx_some(d, t, k - 1);
    }
}

pub proof fn lemma_match_idx_range(chains: Seq<Seq<Seq<char>>>, t: Seq<char>)
    ensures
        match match_idx(chains, t) {
            Option::Some(k) => 0 <= k < chains.len() && starts_with_seq(t, chains[k][0]),
            Option::None => true,
        },
    decreases chains.len(),
{
    if chains.len() > 0 && !starts_with_seq(t, chains[0][0]) {
        lemma_match_idx_range(chains.drop_first(), t);
    }
}

pub proof fn lemma_match_idx_none(chains: Seq<Seq<Seq<char>>>, t: Seq<char>)
    requires
        forall|x: int| 0 <= x < chains.len() ==> !starts_with_seq(t, chains[x][0]),
    ensures
        match_idx(chains, t) is None,
    decreases chains.len(),
{
    if chains.len() > 0 {
        let d = chains.drop_first();
        assert(forall|x: int| 0 <= x < d.len() ==> d[x] == chains[x + 1]);
        lemma_match_idx_none(d, t);
    }
}

/// The first index `j0 >= j` at which the tally over `acc` and the lines
/// `j..=j0` comes back to balance, if it ever does.
pub open spec fn close_scan(lines: Seq<Seq<char>>, j: int, acc: Seq<char>) -> Option<int>
    decreases lines.len() - j,
{
    if j < 0 || j >= lines.len() {
        Option::None
    } else if balanced(acc + lines[j]) {
        Option::Some(j)
    } else {
        close_scan(lines, j + 1, acc + lines[j])
    }
}

pub proof fn lemma_close_scan_range(lines: Seq<Seq<char>>, j: int, acc: Seq<char>)
    ensures
        match close_scan(lines, j, acc) {
            Option::Some(j0) => j <= j0 < lines.len(),
            Option::None => true,
        },
    decreases lines.len() - j,
{
    if 0 <= j < lines.len() && !balanced(acc + lines[j]) {
        lemma_close_scan_range(lines, j + 1, acc + lines[j]);
    }
}

/// The length of the longest chain in the list; the recursion into an inner
/// chain strictly shrinks it.
pub open spec fn max_chain(chains: Seq<Seq<Seq<char>>>) -> nat
    decreases chains.len(),
{
    if chains.len() == 0 {
        0
    } else {
        let rest = max_chain(chains.drop_first());
        if chains[0].len() > rest {
            chains[0].len()
        } else {
            rest
        }
    }
}

pub proof fn lemma_max_chain_ge(chains: Seq<Seq<Seq<char>>>, k: int)
    requires
        0 <= k < chains.len(),
    ensures
        chains[k].len() <= max_chain(chains),
    decreases k,
{
    if k > 0 {
        let d = chains.drop_first();
        lemma_max_chain_ge(d, k - 1);
        assert(d[k - 1] == chains[k]);
    }
}

/// The placeholder-encoded text of `code` under the directive chains
/// `chains`: the transformed lines followed by one terminating dummy
/// declaration.
pub open spec fn pres_apply(code: Seq<char>, chains: Seq<Seq<Seq<char>>>) -> Seq<char>
    decreases max_chain(chains), code.len() + 2,
{
    proof {
        lemma_mu_split_le(code);
    }
    pres_go(split_nl(code), 0, Seq::empty(), chains) + marker_line_seq()
}

/// One step of the transform: the text emitted for the lines from `i` on,
/// where `acc` is the text already counted into the delimiter tally.
///
/// A line claimed by a chain is emitted as it is; with an inner chain, the
/// lines up to the balance point are re-encoded recursively under that inner
/// chain alone, and the closing line is emitted as it is. An unclaimed line
/// at balance is dropped into a doc-comment marker and not counted; inside an
/// unbalanced block, comments, global attributes and blank lines are dropped
/// into a marker anchored by a dummy declaration, and anything else stays
/// untouched.
pub open spec fn pres_go(
    lines: Seq<Seq<char>>,
    i: int,
    acc: Seq<char>,
    chains: Seq<Seq<Seq<char>>>,
) -> Seq<char>
    decreases max_chain(chains), mu(lines, i),
{
    if i < 0 || i >= lines.len() {
        Seq::empty()
    } else {
        let line = lines[i];
        let t = trim_start_spec(line);
        match match_idx(chains, t) {
            Option::Some(k) => {
                let chain = chains[k];
                let acc1 = acc + line;
                if chain.len() >= 2 {
                    match close_scan(lines, i + 1, acc1) {
                        Option::Some(j) => {
                            proof {
                                lemma_match_idx_range(chains, t);
                                lemma_max_chain_ge(chains, k);
                                assert(seq![chain.drop_first()].drop_first()
                                    =~= Seq::<Seq<Seq<char>>>::empty());
                                assert(max_chain(Seq::<Seq<Seq<char>>>::empty()) == 0);
                                assert(max_chain(seq![chain.drop_first()])
                                    == chain.drop_first().len());
                                lemma_close_scan_range(lines, i + 1, acc1);
                                lemma_mu_mono(lines, i + 1, j + 1);
                            }
                            line + nl_seq() + pres_apply(
                                join_nl(lines.subrange(i + 1, j)),
                                seq![chain.drop_first()],
                            ) + lines[j] + nl_seq() + pres_go(
                                lines,
                                j + 1,
                                acc1 + cat_range(lines, i + 1, j + 1),
                                chains,
                            )
                        },
                        Option::None => line + nl_seq(),
                    }
                } else {
                    line + nl_seq() + pres_go(lines, i + 1, acc1, chains)
                }
            },
            Option::None => {
                if balanced(acc) {
                    tempdoc_seq() + line + nl_seq() + pres_go(lines, i + 1, acc, chains)
                } else if is_dropped_comment(t) {
                    tempdoc_seq() + line + nl_seq() + marker_line_seq() + pres_go(
                        lines,
                        i + 1,
                        acc + line,
                        chains,
                    )
                } else if t.len() == 0 {
                    tempdoc_seq() + nl_seq() + marker_line_seq() + pres_go(
                        lines,
                        i + 1,
                        acc + line,
                        chains,
                    )
                } else {
                    line + nl_seq() + pres_go(lines, i + 1, acc + line, chains)
                }
            },
        }
    }
}

} // verus!
