//! Laws of the preservation transform, stated and proved against the model:
//! the delimiter-balance invariant of the encoded output, and the byte
//! fidelity of lines claimed by directives without inner chains.

use crate::preserver::model::balanced;
use crate::preserver::model::close_scan;
use crate::preserver::model::lemma_close_scan_range;
use crate::preserver::model::lemma_match_idx_range;
use crate::preserver::model::lemma_max_chain_ge;
use crate::preserver::model::marker_line_seq;
use crate::preserver::model::match_idx;
use crate::preserver::model::max_chain;
use crate::preserver::model::nl_seq;
use crate::preserver::model::pres_apply;
use crate::preserver::model::pres_go;
use crate::preserver::model::tempdoc_seq;
use crate::text::cat_range;
use crate::text::is_ws_char;
use crate::text::join_nl;
use crate::text::lemma_mu_mono;
use crate::text::lemma_mu_split_le;
use crate::text::lemma_occ_add;
use crate::text::lemma_trim_is_skip;
use crate::text::mu;
use crate::text::occ;
use crate::text::split_nl;
use crate::text::strip_tail_cr;
use crate::text::trim_start_spec;
use crate::text::ws_prefix_len;
use vstd::prelude::*;

verus! {

/// Every directive region the transform enters reaches its balance point
/// before the input runs out. This is the transform's one documented
/// failure mode: a region that never closes is silently cut off, and only
/// then can the encoded output lose text.
pub open spec fn no_runaway_apply(code: Seq<char>, chains: Seq<Seq<Seq<char>>>) -> bool
    decreases max_chain(chains), code.len() + 2,
{
    proof {
        lemma_mu_split_le(code);
    }
    no_runaway_go(split_nl(code), 0, Seq::empty(), chains)
}

/// As `no_runaway_apply`, from line `i` on with `acc` already counted.
pub open spec fn no_runaway_go(
    lines: Seq<Seq<char>>,
    i: int,
    acc: Seq<char>,
    chains: Seq<Seq<Seq<char>>>,
) -> bool
    decreases max_chain(chains), mu(lines, i),
{
    if i < 0 || i >= lines.len() {
        true
    } else {
        let line = lines[i];
        let t = trim_start_spec(line);
        match match_idx(chains, t) {
            Option::Some(k) => {
                let chain = chains[k];
                let acc1 = acc + line;
                if chain.len() >= 2 {
                    match close_scan(lines, i + 1, acc1) {
                        Option::Some(j) => {
                            proof {
                                lemma_match_idx_range(chains, t);
                                lemma_max_chain_ge(chains, k);
                                assert(seq![chain.drop_first()].drop_first()
                                    =~= Seq::<Seq<Seq<char>>>::empty());
                                assert(max_chain(Seq::<Seq<Seq<char>>>::empty()) == 0);
                                assert(max_chain(seq![chain.drop_first()])
                                    == chain.drop_first().len());
                                lemma_close_scan_range(lines, i + 1, acc1);
                                lemma_mu_mono(lines, i + 1, j + 1);
                            }
                            no_runaway_apply(
                                join_nl(lines.subrange(i + 1, j)),
                                seq![chain.drop_first()],
                            ) && no_runaway_go(
                                lines,
                                j + 1,
                                acc1 + cat_range(lines, i + 1, j + 1),
                                chains,
                            )
                        },
                        Option::None => false,
                    }
                } else {
                    no_runaway_go(lines, i + 1, acc1, chains)
                }
            },
            Option::None => {
                if balanced(acc) {
                    no_runaway_go(lines, i + 1, acc, chains)
                } else {
                    no_runaway_go(lines, i + 1, acc + line, chains)
                }
            },
        }
    }
}

/// A character that occurs nowhere in `s` is counted zero times.
pub proof fn lemma_occ_zero(s: Seq<char>, c: char)
    requires
        forall|k: int| 0 <= k < s.len() ==> s[k] != c,
    ensures
        occ(s, c) == 0,
    decreases s.len(),
{
    if s.len() > 0 {
        lemma_occ_zero(s.drop_last(), c);
    }
}

/// A line whose trimmed form is empty consists of whitespace alone, so no
/// non-whitespace character occurs in it.
pub proof fn lemma_all_ws_occ(line: Seq<char>, c: char)
    requires
        trim_start_spec(line).len() == 0,
        !is_ws_char(c),
    ensures
        occ(line, c) == 0,
{
    lemma_trim_is_skip(line);
    assert(ws_prefix_len(line) == line.len());
    lemma_ws_all(line);
    lemma_occ_zero(line, c);
}

proof fn lemma_ws_all(line: Seq<char>)
    requires
        ws_prefix_len(line) == line.len(),
    ensures
        forall|k: int| 0 <= k < line.len() ==> is_ws_char(line[k]),
    decreases line.len(),
{
    if line.len() > 0 {
        let d = line.drop_first();
        lemma_ws_all(d);
        assert(forall|k: int| 1 <= k < line.len() ==> line[k] == d[k - 1]);
    }
}

/// A range of lines splits at any middle index.
pub proof fn lemma_cat_range_split(ls: Seq<Seq<char>>, a: int, m: int, b: int)
    requires
        0 <= a <= m <= b <= ls.len(),
    ensures
        cat_range(ls, a, b) =~= cat_range(ls, a, m) + cat_range(ls, m, b),
    decreases m - a,
{
    if a < m {
        lemma_cat_range_split(ls, a + 1, m, b);
        assert((ls[a] + cat_range(ls, a + 1, m)) + cat_range(ls, m, b) =~= ls[a] + (cat_range(
            ls,
            a + 1,
            m,
        ) + cat_range(ls, m, b)));
    } else {
        assert(cat_range(ls, a, a) =~= Seq::<char>::empty());
    }
}

/// Lines of a subrange concatenate to the same text as the range itself.
pub proof fn lemma_cat_subrange(ls: Seq<Seq<char>>, a: int, b: int)
    requires
        0 <= a <= b <= ls.len(),
    ensures
        cat_range(ls.subrange(a, b), 0, b - a) =~= cat_range(ls, a, b),
    decreases b - a,
{
    if a < b {
        let sub = ls.subrange(a, b);
        let sub2 = ls.subrange(a + 1, b);
        lemma_cat_subrange(ls, a + 1, b);
        lemma_cat_shifted(sub, sub2);
        assert(sub[0] == ls[a]);
    }
}

/// Dropping the head line shifts the concatenation by one line.
proof fn lemma_cat_shifted(sub: Seq<Seq<char>>, sub2: Seq<Seq<char>>)
    requires
        sub.len() == sub2.len() + 1,
        forall|k: int| 0 <= k < sub2.len() ==> sub[k + 1] == sub2[k],
    ensures
        cat_range(sub, 1, sub.len() as int) =~= cat_range(sub2, 0, sub2.len() as int),
{
    lemma_cat_offset(sub, sub2, 1, 0);
}

proof fn lemma_cat_offset(sub: Seq<Seq<char>>, sub2: Seq<Seq<char>>, i: int, j: int)
    requires
        sub.len() == sub2.len() + 1,
        i == j + 1,
        0 <= j,
        forall|k: int| 0 <= k < sub2.len() ==> sub[k + 1] == sub2[k],
    ensures
        cat_range(sub, i, sub.len() as int) =~= cat_range(sub2, j, sub2.len() as int),
    decreases sub2.len() - j,
{
    if j < sub2.len() {
        assert(sub[j + 1] == sub2[j]);
        lemma_cat_offset(sub, sub2, i + 1, j + 1);
    }
}

/// Joining lines with line breaks adds only line breaks: every other
/// character is counted the same as in the bare concatenation.
pub proof fn lemma_join_occ(ls: Seq<Seq<char>>, c: char)
    requires
        c != '\n',
    ensures
        occ(join_nl(ls), c) == occ(cat_range(ls, 0, ls.len() as int), c),
    decreases ls.len(),
{
    if ls.len() == 0 {
        assert(cat_range(ls, 0, 0) =~= Seq::<char>::empty());
    } else {
        let d = ls.drop_first();
        lemma_join_occ(d, c);
        lemma_cat_shifted(ls, d);
        lemma_occ_add(ls[0] + seq!['\n'], join_nl(d), c);
        lemma_occ_add(ls[0], seq!['\n'], c);
        lemma_occ_add(ls[0], cat_range(ls, 1, ls.len() as int), c);
        assert(occ(seq!['\n'], c) == 0) by {
            lemma_occ_zero(seq!['\n'], c);
        }
        assert(join_nl(ls) == (ls[0] + seq!['\n']) + join_nl(d));
        assert(cat_range(ls, 0, ls.len() as int) == ls[0] + cat_range(ls, 1, ls.len() as int));
    }
}

/// Splitting into lines loses only line breaks and the carriage returns
/// before them: every other character is counted the same.
pub proof fn lemma_split_occ(code: Seq<char>, c: char)
    requires
        c != '\n',
        c != '\r',
    ensures
        occ(code, c) == occ(
            cat_range(split_nl(code), 0, split_nl(code).len() as int),
            c,
        ),
    decreases code.len(),
{
    if code.len() == 0 {
        assert(cat_range(split_nl(code), 0, 0) =~= Seq::<char>::empty());
    } else {
        let i = crate::text::nl_index(code);
        crate::text::lemma_nl_index(code);
        if i < code.len() {
            let head = strip_tail_cr(code.take(i));
            let rest = code.skip(i + 1);
            lemma_split_occ(rest, c);
            let ls = split_nl(code);
            let d = split_nl(rest);
            assert(ls == seq![head] + d);
            assert(ls.len() == d.len() + 1);
            assert(forall|k: int| 0 <= k < d.len() ==> ls[k + 1] == d[k]);
            lemma_cat_shifted(ls, d);
            assert(ls[0] == head);
            assert(cat_range(ls, 0, ls.len() as int) == head + cat_range(ls, 1, ls.len() as int));
            lemma_occ_add(head, cat_range(ls, 1, ls.len() as int), c);
            // the input decomposes into the raw head line, its break and the rest
            assert(code =~= code.take(i) + seq![code[i]] + rest);
            lemma_occ_add(code.take(i) + seq![code[i]], rest, c);
            lemma_occ_add(code.take(i), seq![code[i]], c);
            lemma_occ_zero(seq![code[i]], c);
            lemma_strip_cr_occ(code.take(i), c);
        } else {
            let ls = split_nl(code);
            assert(ls == seq![code]);
            assert(cat_range(ls, 1, 1) =~= Seq::<char>::empty());
            assert(cat_range(ls, 0, 1) == ls[0] + cat_range(ls, 1, 1));
            assert(ls[0] + Seq::<char>::empty() =~= code);
        }
    }
}

/// Stripping a trailing carriage return does not change the count of any
/// other character.
proof fn lemma_strip_cr_occ(l: Seq<char>, c: char)
    requires
        c != '\r',
    ensures
        occ(strip_tail_cr(l), c) == occ(l, c),
{
}

/// The signed imbalance of a delimiter pair over a text.
pub open spec fn occ_diff(s: Seq<char>, o: char, c: char) -> int {
    occ(s, o) - occ(s, c)
}

/// A pair of characters that every emitted helper piece holds equally
/// often, and that neither line breaks nor trimming can hide.
spec fn neutral_pair(o: char, c: char) -> bool {
    occ(tempdoc_seq(), o) == occ(tempdoc_seq(), c) && occ(marker_line_seq(), o) == occ(
        marker_line_seq(),
        c,
    ) && o != '\n' && c != '\n' && o != '\r' && c != '\r' && !is_ws_char(o) && !is_ws_char(c)
}

proof fn occ2_add(a: Seq<char>, b: Seq<char>, o: char, c: char)
    ensures
        occ(a + b, o) == occ(a, o) + occ(b, o),
        occ(a + b, c) == occ(a, c) + occ(b, c),
{
    lemma_occ_add(a, b, o);
    lemma_occ_add(a, b, c);
}

proof fn apply_diff(code: Seq<char>, chains: Seq<Seq<Seq<char>>>, o: char, c: char)
    requires
        neutral_pair(o, c),
        no_runaway_apply(code, chains),
    ensures
        occ_diff(pres_apply(code, chains), o, c) == occ_diff(code, o, c),
    decreases max_chain(chains), code.len() + 2,
{
    lemma_mu_split_le(code);
    let lines = split_nl(code);
    go_diff(lines, 0, Seq::empty(), chains, o, c);
    occ2_add(pres_go(lines, 0, Seq::empty(), chains), marker_line_seq(), o, c);
    lemma_split_occ(code, o);
    lemma_split_occ(code, c);
}

proof fn go_diff(
    lines: Seq<Seq<char>>,
    i: int,
    acc: Seq<char>,
    chains: Seq<Seq<Seq<char>>>,
    o: char,
    c: char,
)
    requires
        neutral_pair(o, c),
        no_runaway_go(lines, i, acc, chains),
    ensures
        occ_diff(pres_go(lines, i, acc, chains), o, c) == occ_diff(
            cat_range(lines, i, lines.len() as int),
            o,
            c,
        ),
    decreases max_chain(chains), mu(lines, i),
{
    let len = lines.len() as int;
    if i < 0 || i >= len {
        assert(cat_range(lines, i, len) =~= Seq::<char>::empty());
    } else {
        let line = lines[i];
        let t = trim_start_spec(line);
        let rest_cat = cat_range(lines, i + 1, len);
        assert(cat_range(lines, i, len) == line + rest_cat);
        occ2_add(line, rest_cat, o, c);
        lemma_occ_zero(nl_seq(), o);
        lemma_occ_zero(nl_seq(), c);
        match match_idx(chains, t) {
            Option::Some(k) => {
                let chain = chains[k];
                let acc1 = acc + line;
                if chain.len() >= 2 {
                    match close_scan(lines, i + 1, acc1) {
                        Option::Some(j) => {
                            lemma_match_idx_range(chains, t);
                            lemma_max_chain_ge(chains, k);
                            assert(seq![chain.drop_first()].drop_first()
                                =~= Seq::<Seq<Seq<char>>>::empty());
                            assert(max_chain(Seq::<Seq<Seq<char>>>::empty()) == 0);
                            assert(max_chain(seq![chain.drop_first()])
                                == chain.drop_first().len());
                            lemma_close_scan_range(lines, i + 1, acc1);
                            lemma_mu_mono(lines, i + 1, j + 1);
                            let inner_code = join_nl(lines.subrange(i + 1, j));
                            let single = seq![chain.drop_first()];
                            apply_diff(inner_code, single, o, c);
                            let acc2 = acc1 + cat_range(lines, i + 1, j + 1);
                            go_diff(lines, j + 1, acc2, chains, o, c);
                            lemma_join_occ(lines.subrange(i + 1, j), o);
                            lemma_join_occ(lines.subrange(i + 1, j), c);
                            lemma_cat_subrange(lines, i + 1, j);
                            lemma_cat_range_split(lines, i + 1, j, len);
                            assert(cat_range(lines, j, len) == lines[j] + cat_range(
                                lines,
                                j + 1,
                                len,
                            ));
                            occ2_add(cat_range(lines, i + 1, j), cat_range(lines, j, len), o, c);
                            occ2_add(lines[j], cat_range(lines, j + 1, len), o, c);
                            let pa = pres_apply(inner_code, single);
                            let cont = pres_go(lines, j + 1, acc2, chains);
                            assert(pres_go(lines, i, acc, chains) == line + nl_seq() + pa + lines[j]
                                + nl_seq() + cont);
                            occ2_add(line, nl_seq(), o, c);
                            occ2_add(line + nl_seq(), pa, o, c);
                            occ2_add(line + nl_seq() + pa, lines[j], o, c);
                            occ2_add(line + nl_seq() + pa + lines[j], nl_seq(), o, c);
                            occ2_add(line + nl_seq() + pa + lines[j] + nl_seq(), cont, o, c);
                        },
                        Option::None => {
                            assert(false);
                        },
                    }
                } else {
                    go_diff(lines, i + 1, acc1, chains, o, c);
                    let cont = pres_go(lines, i + 1, acc1, chains);
                    assert(pres_go(lines, i, acc, chains) == line + nl_seq() + cont);
                    occ2_add(line, nl_seq(), o, c);
                    occ2_add(line + nl_seq(), cont, o, c);
                }
            },
            Option::None => {
                if balanced(acc) {
                    go_diff(lines, i + 1, acc, chains, o, c);
                    let cont = pres_go(lines, i + 1, acc, chains);
                    assert(pres_go(lines, i, acc, chains) == tempdoc_seq() + line + nl_seq()
                        + cont);
                    occ2_add(tempdoc_seq(), line, o, c);
                    occ2_add(tempdoc_seq() + line, nl_seq(), o, c);
                    occ2_add(tempdoc_seq() + line + nl_seq(), cont, o, c);
                } else if crate::preserver::model::is_dropped_comment(t) {
                    go_diff(lines, i + 1, acc + line, chains, o, c);
                    let cont = pres_go(lines, i + 1, acc + line, chains);
                    assert(pres_go(lines, i, acc, chains) == tempdoc_seq() + line + nl_seq()
                        + marker_line_seq() + cont);
                    occ2_add(tempdoc_seq(), line, o, c);
                    occ2_add(tempdoc_seq() + line, nl_seq(), o, c);
                    occ2_add(tempdoc_seq() + line + nl_seq(), marker_line_seq(), o, c);
                    occ2_add(tempdoc_seq() + line + nl_seq() + marker_line_seq(), cont, o, c);
                } else if t.len() == 0 {
                    go_diff(lines, i + 1, acc + line, chains, o, c);
                    let cont = pres_go(lines, i + 1, acc + line, chains);
                    assert(pres_go(lines, i, acc, chains) == tempdoc_seq() + nl_seq()
                        + marker_line_seq() + cont);
                    lemma_all_ws_occ(line, o);
                    lemma_all_ws_occ(line, c);
                    occ2_add(tempdoc_seq(), nl_seq(), o, c);
                    occ2_add(tempdoc_seq() + nl_seq(), marker_line_seq(), o, c);
                    occ2_add(tempdoc_seq() + nl_seq() + marker_line_seq(), cont, o, c);
                } else {
                    go_diff(lines, i + 1, acc + line, chains, o, c);
                    let cont = pres_go(lines, i + 1, acc + line, chains);
                    assert(pres_go(lines, i, acc, chains) == line + nl_seq() + cont);
                    occ2_add(line, nl_seq(), o, c);
                    occ2_add(line + nl_seq(), cont, o, c);
                }
            },
        }
    }
}

/// The three delimiter pairs occur equally often in every emitted helper
/// piece.
proof fn lemma_neutral_pairs()
    ensures
        neutral_pair('{', '}'),
        neutral_pair('(', ')'),
        neutral_pair('[', ']'),
{
    lemma_occ_zero(tempdoc_seq(), '{');
    lemma_occ_zero(tempdoc_seq(), '}');
    lemma_occ_zero(tempdoc_seq(), '(');
    lemma_occ_zero(tempdoc_seq(), ')');
    lemma_occ_zero(tempdoc_seq(), '[');
    lemma_occ_zero(tempdoc_seq(), ']');
    let pre = seq![
        't',
        'y',
        'p',
        'e',
        ' ',
        't',
        'e',
        'm',
        'p',
        '_',
        'm',
        'a',
        'r',
        'k',
        'e',
        'r',
        ' ',
        '=',
        ' ',
    ];
    let tail0 = Seq::<char>::empty();
    let tail1 = tail0.push('(');
    let tail2 = tail1.push(')');
    let tail3 = tail2.push(';');
    let tail4 = tail3.push('\n');
    assert(tail1.drop_last() =~= tail0);
    assert(tail2.drop_last() =~= tail1);
    assert(tail3.drop_last() =~= tail2);
    assert(tail4.drop_last() =~= tail3);
    assert(occ(tail0, '(') == 0);
    assert(occ(tail1, '(') == 1);
    assert(occ(tail2, '(') == 1);
    assert(occ(tail3, '(') == 1);
    assert(occ(tail4, '(') == 1);
    assert(occ(tail0, ')') == 0);
    assert(occ(tail1, ')') == 0);
    assert(occ(tail2, ')') == 1);
    assert(occ(tail3, ')') == 1);
    assert(occ(tail4, ')') == 1);
    assert(occ(tail0, '{') == 0);
    assert(occ(tail1, '{') == 0);
    assert(occ(tail2, '{') == 0);
    assert(occ(tail3, '{') == 0);
    assert(occ(tail4, '{') == 0);
    assert(occ(tail0, '}') == 0);
    assert(occ(tail1, '}') == 0);
    assert(occ(tail2, '}') == 0);
    assert(occ(tail3, '}') == 0);
    assert(occ(tail4, '}') == 0);
    assert(occ(tail0, '[') == 0);
    assert(occ(tail1, '[') == 0);
    assert(occ(tail2, '[') == 0);
    assert(occ(tail3, '[') == 0);
    assert(occ(tail4, '[') == 0);
    assert(occ(tail0, ']') == 0);
    assert(occ(tail1, ']') == 0);
    assert(occ(tail2, ']') == 0);
    assert(occ(tail3, ']') == 0);
    assert(occ(tail4, ']') == 0);
    assert(marker_line_seq() =~= pre + tail4);
    lemma_occ_zero(pre, '{');
    lemma_occ_zero(pre, '}');
    lemma_occ_zero(pre, '(');
    lemma_occ_zero(pre, ')');
    lemma_occ_zero(pre, '[');
    lemma_occ_zero(pre, ']');
    lemma_occ_add(pre, tail4, '{');
    lemma_occ_add(pre, tail4, '}');
    lemma_occ_add(pre, tail4, '(');
    lemma_occ_add(pre, tail4, ')');
    lemma_occ_add(pre, tail4, '[');
    lemma_occ_add(pre, tail4, ']');
}

/// Law (balance invariant): as long as no preserved region runs off the end
/// of the input, the placeholder-encoded output carries exactly the
/// delimiter imbalance of the input, pair by pair; in particular, a
/// balanced input is encoded into a balanced output.
pub proof fn lemma_balance_preserved(code: Seq<char>, chains: Seq<Seq<Seq<char>>>)
    requires
        no_runaway_apply(code, chains),
    ensures
        occ_diff(pres_apply(code, chains), '{', '}') == occ_diff(code, '{', '}'),
        occ_diff(pres_apply(code, chains), '(', ')') == occ_diff(code, '(', ')'),
        occ_diff(pres_apply(code, chains), '[', ']') == occ_diff(code, '[', ']'),
        balanced(code) ==> balanced(pres_apply(code, chains)),
{
    lemma_neutral_pairs();
    apply_diff(code, chains, '{', '}');
    apply_diff(code, chains, '(', ')');
    apply_diff(code, chains, '[', ']');
}

/// The needle stands somewhere in the haystack.
pub open spec fn is_substring_of(hay: Seq<char>, needle: Seq<char>) -> bool {
    exists|x: int|
        0 <= x && x + needle.len() <= hay.len() && #[trigger] hay.subrange(
            x,
            x + needle.len() as int,
        ) == needle
}

proof fn lemma_substring_shift(a: Seq<char>, b: Seq<char>, w: Seq<char>)
    requires
        is_substring_of(b, w),
    ensures
        is_substring_of(a + b, w),
{
    let x = choose|x: int|
        0 <= x && x + w.len() <= b.len() && #[trigger] b.subrange(x, x + w.len() as int) == w;
    assert((a + b).subrange(a.len() + x, a.len() + x + w.len() as int) =~= b.subrange(
        x,
        x + w.len() as int,
    ));
}

proof fn lemma_substring_extend(a: Seq<char>, b: Seq<char>, w: Seq<char>)
    requires
        is_substring_of(a, w),
    ensures
        is_substring_of(a + b, w),
{
    let x = choose|x: int|
        0 <= x && x + w.len() <= a.len() && #[trigger] a.subrange(x, x + w.len() as int) == w;
    assert((a + b).subrange(x, x + w.len() as int) =~= a.subrange(x, x + w.len() as int));
}

proof fn go_contains(
    lines: Seq<Seq<char>>,
    x: int,
    acc: Seq<char>,
    chains: Seq<Seq<Seq<char>>>,
    i: int,
)
    requires
        forall|k: int| 0 <= k < chains.len() ==> chains[k].len() == 1,
        0 <= x <= i < lines.len(),
        match_idx(chains, trim_start_spec(lines[i])) is Some,
    ensures
        is_substring_of(pres_go(lines, x, acc, chains), lines[i] + seq!['\n']),
    decreases i - x,
{
    let line = lines[x];
    let t = trim_start_spec(line);
    let w = lines[i] + seq!['\n'];
    if x == i {
        lemma_match_idx_range(chains, t);
        let k = match_idx(chains, t)->Some_0;
        assert(chains[k].len() == 1);
        let cont = pres_go(lines, x + 1, acc + line, chains);
        assert(pres_go(lines, x, acc, chains) == line + nl_seq() + cont);
        assert(is_substring_of(pres_go(lines, x, acc, chains), w)) by {
            assert(pres_go(lines, x, acc, chains).subrange(0, 0 + w.len() as int) =~= w);
        }
    } else {
        match match_idx(chains, t) {
            Option::Some(k) => {
                lemma_match_idx_range(chains, t);
                assert(chains[k].len() == 1);
                go_contains(lines, x + 1, acc + line, chains, i);
                let cont = pres_go(lines, x + 1, acc + line, chains);
                assert(pres_go(lines, x, acc, chains) == line + nl_seq() + cont);
                lemma_substring_shift(line + nl_seq(), cont, w);
            },
            Option::None => {
                if balanced(acc) {
                    go_contains(lines, x + 1, acc, chains, i);
                    let cont = pres_go(lines, x + 1, acc, chains);
                    assert(pres_go(lines, x, acc, chains) == tempdoc_seq() + line + nl_seq()
                        + cont);
                    lemma_substring_shift(tempdoc_seq() + line + nl_seq(), cont, w);
                } else if crate::preserver::model::is_dropped_comment(t) {
                    go_contains(lines, x + 1, acc + line, chains, i);
                    let cont = pres_go(lines, x + 1, acc + line, chains);
                    assert(pres_go(lines, x, acc, chains) == tempdoc_seq() + line + nl_seq()
                        + marker_line_seq() + cont);
                    lemma_substring_shift(tempdoc_seq() + line + nl_seq() + marker_line_seq(), cont, w);
                } else if t.len() == 0 {
                    go_contains(lines, x + 1, acc + line, chains, i);
                    let cont = pres_go(lines, x + 1, acc + line, chains);
                    assert(pres_go(lines, x, acc, chains) == tempdoc_seq() + nl_seq()
                        + marker_line_seq() + cont);
                    lemma_substring_shift(tempdoc_seq() + nl_seq() + marker_line_seq(), cont, w);
                } else {
                    go_contains(lines, x + 1, acc + line, chains, i);
                    let cont = pres_go(lines, x + 1, acc + line, chains);
                    assert(pres_go(lines, x, acc, chains) == line + nl_seq() + cont);
                    lemma_substring_shift(line + nl_seq(), cont, w);
                }
            },
        }
    }
}

/// Law (preserved-region byte fidelity): under a directive list whose
/// chains have no inner lookups, every line claimed by some directive
/// stands byte for byte, with its line break, in the placeholder-encoded
/// output.
///
/// The restriction to flat chains is necessary: when another directive in
/// the list carries an inner lookup, the lines of its consumed region are
/// re-encoded under that inner chain alone, so a line in that region that
/// would match a flat directive is doc-encoded instead.
pub proof fn lemma_preserved_line_fidelity(code: Seq<char>, chains: Seq<Seq<Seq<char>>>, i: int)
    requires
        forall|k: int| 0 <= k < chains.len() ==> chains[k].len() == 1,
        0 <= i < split_nl(code).len(),
        match_idx(chains, trim_start_spec(split_nl(code)[i])) is Some,
    ensures
        is_substring_of(pres_apply(code, chains), split_nl(code)[i] + seq!['\n']),
{
    go_contains(split_nl(code), 0, Seq::empty(), chains, i);
    lemma_substring_extend(
        pres_go(split_nl(code), 0, Seq::empty(), chains),
        marker_line_seq(),
        split_nl(code)[i] + seq!['\n'],
    );
}

} // verus!
