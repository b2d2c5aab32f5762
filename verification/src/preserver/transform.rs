//! The executable preservation transform, verified against the model in
//! [`super::model`]: the output string is exactly `pres_apply` of the input
//! text and the directive chains.

use crate::preserver::model::balanced;
use crate::preserver::model::close_scan;
use crate::preserver::model::is_dropped_comment;
use crate::preserver::model::lemma_match_idx_none;
use crate::preserver::model::lemma_match_idx_some;
use crate::preserver::model::lemma_max_chain_ge;
use crate::preserver::model::marker_line_seq;
use crate::preserver::model::match_idx;
use crate::preserver::model::max_chain;
use crate::preserver::model::nl_seq;
use crate::preserver::model::pres_apply;
use crate::preserver::model::pres_go;
use crate::preserver::model::tempdoc_seq;
use crate::preserver::DelimitersCount;
use crate::preserver::Preserver;
use crate::text::cat_range;
use crate::text::chars_to_string;
use crate::text::join_nl;
use crate::text::lemma_cat_range_snoc;
use crate::text::lemma_join_nl_snoc;
use crate::text::lemma_mu_mono;
use crate::text::lemma_mu_split_le;
use crate::text::lemma_occ_add;
use crate::text::lemma_occ_le_len;
use crate::text::mu;
use crate::text::occ;
use crate::text::push_str_chars;
use crate::text::push_vec;
use crate::text::seq_views;
use crate::text::split_lines;
use crate::text::split_nl;
use crate::text::starts_with_seq;
use crate::text::str_to_chars;
use crate::text::trim_start_spec;
use crate::text::ws_prefix;
use vstd::prelude::*;

verus! {

/// The chains of a list of directives, in order.
pub open spec fn chains_seq(ps: Seq<&Preserver>) -> Seq<Seq<Seq<char>>> {
    ps.map_values(|p: &Preserver| p@)
}

/// Applies the preservation directives to a source text: every line claimed
/// by a directive (and the block it opens) survives as it is, everything
/// else is placeholder-encoded, and one dummy declaration terminates the
/// scope. The result is exactly what the model function `pres_apply` says.
pub fn apply_preservers(code: &str, preservers: &[&Preserver]) -> (r: String)
    ensures
        r@ == pres_apply(code@, chains_seq(preservers@)),
{
    let n = preservers.len();
    let mut ps: Vec<&Preserver> = Vec::new();
    let mut i: usize = 0;
    while i < n
        invariant
            0 <= i <= n,
            n == preservers@.len(),
            ps@ =~= preservers@.take(i as int),
        decreases n - i,
    {
        ps.push(preservers[i]);
        proof {
            assert(preservers@.take(i as int + 1) =~= preservers@.take(i as int).push(
                preservers@[i as int],
            ));
        }
        i = i + 1;
    }
    proof {
        assert(preservers@.take(n as int) =~= preservers@);
    }
    let chars = str_to_chars(code);
    let out = apply_chars(&chars, &ps);
    let r = chars_to_string(&out);
    r
}

/// The transform on a text held as characters.
fn apply_chars(chars: &Vec<char>, preservers: &Vec<&Preserver>) -> (r: Vec<char>)
    ensures
        r@ =~= pres_apply(chars@, chains_seq(preservers@)),
    decreases max_chain(chains_seq(preservers@)), chars@.len() + 2,
{
    let n = chars.len();
    let lines = split_lines(chars);
    proof {
        assert(seq_views(lines@) =~= split_nl(chars@));
        lemma_mu_split_le(chars@);
        assert(occ(Seq::<char>::empty(), '{') == 0);
        assert(occ(Seq::<char>::empty(), '}') == 0);
        assert(occ(Seq::<char>::empty(), '(') == 0);
        assert(occ(Seq::<char>::empty(), ')') == 0);
        assert(occ(Seq::<char>::empty(), '[') == 0);
        assert(occ(Seq::<char>::empty(), ']') == 0);
        assert(Seq::<char>::empty().len() + mu(seq_views(lines@), 0) <= usize::MAX + 1);
    }
    let dc = DelimitersCount::new();
    let mut out = go_chars(&lines, 0, dc, preservers, Ghost(Seq::empty()));
    push_str_chars(&mut out, "type temp_marker = ();\n");
    proof {
        reveal_strlit("type temp_marker = ();\n");
        assert("type temp_marker = ();\n"@ =~= marker_line_seq());
        assert(out@ =~= pres_apply(chars@, chains_seq(preservers@)));
    }
    out
}

/// One recursive step of the transform over the remaining lines, with the
/// tally `dc` holding the delimiter counts of the already consumed text
/// `acc`.
fn go_chars(
    lines: &Vec<Vec<char>>,
    i: usize,
    dc: DelimitersCount,
    preservers: &Vec<&Preserver>,
    Ghost(acc): Ghost<Seq<char>>,
) -> (r: Vec<char>)
    requires
        acc.len() + mu(seq_views(lines@), i as int) <= usize::MAX + 1,
        dc.counts@[0] == occ(acc, '{'),
        dc.counts@[1] == occ(acc, '}'),
        dc.counts@[2] == occ(acc, '('),
        dc.counts@[3] == occ(acc, ')'),
        dc.counts@[4] == occ(acc, '['),
        dc.counts@[5] == occ(acc, ']'),
    ensures
        r@ =~= pres_go(seq_views(lines@), i as int, acc, chains_seq(preservers@)),
    decreases max_chain(chains_seq(preservers@)), mu(seq_views(lines@), i as int),
{
    let ghost lsv = seq_views(lines@);
    let ghost chains = chains_seq(preservers@);
    let nlines = lines.len();
    if i >= nlines {
        proof {
            assert(pres_go(lsv, i as int, acc, chains) =~= Seq::<char>::empty());
        }
        let r: Vec<char> = Vec::new();
        return r;
    }
    let line: &Vec<char> = &lines[i];
    proof {
        assert(lsv[i as int] == lines@[i as int]@);
    }
    let k0 = ws_prefix(line);
    let ghost t = trim_start_spec(line@);
    let mut out: Vec<char> = Vec::new();
    match find_match(preservers, line, k0) {
        Some(idx) => {
            let p: &Preserver = preservers[idx];
            proof {
                assert(chains[idx as int] == preservers@[idx as int]@);
                assert(mu(lsv, i as int) >= line@.len() + 1);
                lemma_count_step(acc, line@);
            }
            let mut dc2 = dc;
            dc2.count_vec(line);
            push_vec(&mut out, line);
            out.push('\n');
            let ghost acc1 = acc + line@;
            match p.get_inner() {
                None => {
                    proof {
                        assert(chains[idx as int].len() == 1);
                    }
                    let rest = go_chars(lines, i + 1, dc2, preservers, Ghost(acc1));
                    push_vec(&mut out, &rest);
                    proof {
                        assert(pres_go(lsv, i as int, acc, chains) == lsv[i as int] + nl_seq()
                            + pres_go(lsv, i as int + 1, acc1, chains));
                        assert(out@ =~= pres_go(lsv, i as int, acc, chains));
                    }
                    out
                },
                Some(ip) => {
                    proof {
                        assert(chains[idx as int].len() >= 2);
                        assert(ip@ == chains[idx as int].drop_first());
                    }
                    let mut j = i + 1;
                    let mut inner_code: Vec<char> = Vec::new();
                    let mut cur = dc2;
                    let mut found = false;
                    proof {
                        assert(cat_range(lsv, i as int + 1, j as int) =~= Seq::<char>::empty());
                        assert(acc1 + cat_range(lsv, i as int + 1, j as int) =~= acc1);
                        assert(lsv.subrange(i as int + 1, j as int) =~= Seq::<Seq<char>>::empty());
                        assert(join_nl(Seq::<Seq<char>>::empty()) =~= Seq::<char>::empty());
                    }
                    while j < nlines && !found
                        invariant
                            i as int + 1 <= j <= nlines,
                            nlines == lines@.len(),
                            lsv == seq_views(lines@),
                            acc1.len() <= usize::MAX + 1,
                            !found ==> {
                                let accj = acc1 + cat_range(lsv, i as int + 1, j as int);
                                &&& inner_code@ =~= join_nl(lsv.subrange(i as int + 1, j as int))
                                &&& cur.counts@[0] == occ(accj, '{')
                                &&& cur.counts@[1] == occ(accj, '}')
                                &&& cur.counts@[2] == occ(accj, '(')
                                &&& cur.counts@[3] == occ(accj, ')')
                                &&& cur.counts@[4] == occ(accj, '[')
                                &&& cur.counts@[5] == occ(accj, ']')
                                &&& close_scan(lsv, i as int + 1, acc1) == close_scan(
                                    lsv,
                                    j as int,
                                    accj,
                                )
                                &&& accj.len() + mu(lsv, j as int) <= usize::MAX + 1
                            },
                            found ==> {
                                let accj = acc1 + cat_range(lsv, i as int + 1, j as int + 1);
                                &&& j < nlines
                                &&& close_scan(lsv, i as int + 1, acc1) == Option::Some(j as int)
                                &&& inner_code@ =~= join_nl(lsv.subrange(i as int + 1, j as int))
                                &&& cur.counts@[0] == occ(accj, '{')
                                &&& cur.counts@[1] == occ(accj, '}')
                                &&& cur.counts@[2] == occ(accj, '(')
                                &&& cur.counts@[3] == occ(accj, ')')
                                &&& cur.counts@[4] == occ(accj, '[')
                                &&& cur.counts@[5] == occ(accj, ']')
                                &&& accj.len() + mu(lsv, j as int + 1) <= usize::MAX + 1
                            },
                        decreases nlines - j + (if found {
                            0int
                        } else {
                            1int
                        }),
                    {
                        let ghost accj = acc1 + cat_range(lsv, i as int + 1, j as int);
                        let cline: &Vec<char> = &lines[j];
                        proof {
                            assert(lsv[j as int] == lines@[j as int]@);
                            assert(mu(lsv, j as int) >= cline@.len() + 1);
                            lemma_count_step(accj, cline@);
                            lemma_cat_range_snoc(lsv, i as int + 1, j as int);
                        }
                        cur.count_vec(cline);
                        let ghost accj1 = acc1 + cat_range(lsv, i as int + 1, j as int + 1);
                        proof {
                            assert(accj1 =~= accj + cline@);
                        }
                        if cur.is_complete() {
                            proof {
                                assert(balanced(accj + lsv[j as int]));
                                assert(close_scan(lsv, j as int, accj) == Option::Some(j as int));
                            }
                            found = true;
                        } else {
                            proof {
                                assert(!balanced(accj + lsv[j as int]));
                                assert(close_scan(lsv, j as int, accj) == close_scan(
                                    lsv,
                                    j as int + 1,
                                    accj + lsv[j as int],
                                ));
                                lemma_join_nl_snoc(lsv, i as int + 1, j as int);
                            }
                            push_vec(&mut inner_code, cline);
                            inner_code.push('\n');
                            j = j + 1;
                        }
                    }
                    if found {
                        let single: Vec<&Preserver> = vec![ip];
                        proof {
                            assert(single@ =~= seq![ip]);
                            assert(chains_seq(single@) =~= seq![
                                chains[idx as int].drop_first(),
                            ]);
                            lemma_max_chain_ge(chains, idx as int);
                            assert(seq![chains[idx as int].drop_first()].drop_first()
                                =~= Seq::<Seq<Seq<char>>>::empty());
                            assert(max_chain(Seq::<Seq<Seq<char>>>::empty()) == 0);
                            assert(max_chain(chains_seq(single@)) == chains[
                                idx as int
                            ].drop_first().len());
                        }
                        let inner = apply_chars(&inner_code, &single);
                        push_vec(&mut out, &inner);
                        let cline: &Vec<char> = &lines[j];
                        push_vec(&mut out, cline);
                        out.push('\n');
                        proof {
                            assert(lsv[j as int] == lines@[j as int]@);
                            lemma_mu_mono(lsv, i as int + 1, j as int + 1);
                            assert(mu(lsv, j as int + 1) < mu(lsv, i as int));
                        }
                        let ghost accj1 = acc1 + cat_range(lsv, i as int + 1, j as int + 1);
                        let rest = go_chars(lines, j + 1, cur, preservers, Ghost(accj1));
                        push_vec(&mut out, &rest);
                        proof {
                            assert(pres_go(lsv, i as int, acc, chains) == lsv[i as int] + nl_seq()
                                + pres_apply(
                                join_nl(lsv.subrange(i as int + 1, j as int)),
                                seq![chains[idx as int].drop_first()],
                            ) + lsv[j as int] + nl_seq() + pres_go(lsv, j as int + 1, accj1, chains));
                            assert(out@ =~= pres_go(lsv, i as int, acc, chains));
                        }
                        out
                    } else {
                        proof {
                            assert(close_scan(lsv, j as int, acc1 + cat_range(lsv, i as int + 1, j as int))
                                is None);
                            assert(close_scan(lsv, i as int + 1, acc1) is None);
                            assert(pres_go(lsv, i as int, acc, chains) == lsv[i as int] + nl_seq());
                            assert(out@ =~= pres_go(lsv, i as int, acc, chains));
                        }
                        out
                    }
                },
            }
        },
        None => {
            let complete = dc.is_complete();
            proof {
                assert(complete == balanced(acc));
            }
            if complete {
                push_str_chars(&mut out, "///TEMP_DOC");
                push_vec(&mut out, line);
                out.push('\n');
                let rest = go_chars(lines, i + 1, dc, preservers, Ghost(acc));
                push_vec(&mut out, &rest);
                proof {
                    reveal_strlit("///TEMP_DOC");
                    assert("///TEMP_DOC"@ =~= tempdoc_seq());
                    assert(pres_go(lsv, i as int, acc, chains) == tempdoc_seq() + lsv[i as int]
                        + nl_seq() + pres_go(lsv, i as int + 1, acc, chains));
                    assert(out@ =~= pres_go(lsv, i as int, acc, chains));
                }
                out
            } else {
                let c1 = lookup_matches(line, k0, "//");
                let c2 = lookup_matches(line, k0, "///");
                let c3 = lookup_matches(line, k0, "//!");
                let c4 = lookup_matches(line, k0, "#![");
                let dropped = (c1 && !c2 && !c3) || c4;
                proof {
                    reveal_strlit("//");
                    reveal_strlit("///");
                    reveal_strlit("//!");
                    reveal_strlit("#![");
                    assert("//"@ =~= seq!['/', '/']);
                    assert("///"@ =~= seq!['/', '/', '/']);
                    assert("//!"@ =~= seq!['/', '/', '!']);
                    assert("#!["@ =~= seq!['#', '!', '[']);
                    assert(dropped == is_dropped_comment(t));
                    assert(mu(lsv, i as int) >= line@.len() + 1);
                    lemma_count_step(acc, line@);
                }
                let mut dc2 = dc;
                dc2.count_vec(line);
                let ghost acc1 = acc + line@;
                if dropped {
                    push_str_chars(&mut out, "///TEMP_DOC");
                    push_vec(&mut out, line);
                    out.push('\n');
                    push_str_chars(&mut out, "type temp_marker = ();\n");
                } else if k0 == line.len() {
                    push_str_chars(&mut out, "///TEMP_DOC");
                    out.push('\n');
                    push_str_chars(&mut out, "type temp_marker = ();\n");
                } else {
                    push_vec(&mut out, line);
                    out.push('\n');
                }
                let rest = go_chars(lines, i + 1, dc2, preservers, Ghost(acc1));
                push_vec(&mut out, &rest);
                proof {
                    reveal_strlit("///TEMP_DOC");
                    reveal_strlit("type temp_marker = ();\n");
                    assert("///TEMP_DOC"@ =~= tempdoc_seq());
                    assert("type temp_marker = ();\n"@ =~= marker_line_seq());
                    if dropped {
                        assert(pres_go(lsv, i as int, acc, chains) == tempdoc_seq() + lsv[
                            i as int
                        ] + nl_seq() + marker_line_seq() + pres_go(lsv, i as int + 1, acc1, chains));
                    } else if k0 == line@.len() {
                        assert(t.len() == 0);
                        assert(pres_go(lsv, i as int, acc, chains) == tempdoc_seq() + nl_seq()
                            + marker_line_seq() + pres_go(lsv, i as int + 1, acc1, chains));
                    } else {
                        assert(t.len() > 0);
                        assert(pres_go(lsv, i as int, acc, chains) == lsv[i as int] + nl_seq()
                            + pres_go(lsv, i as int + 1, acc1, chains));
                    }
                    assert(out@ =~= pres_go(lsv, i as int, acc, chains));
                }
                out
            }
        },
    }
}

/// Concatenating `line` onto `acc` adds the occurrence counts and stays
/// below every counter's maximum.
proof fn lemma_count_step(acc: Seq<char>, line: Seq<char>)
    requires
        acc.len() + line.len() <= u64::MAX,
    ensures
        forall|c: char| #[trigger] occ(acc + line, c) == occ(acc, c) + occ(line, c),
        forall|c: char| #[trigger] occ(acc + line, c) <= u64::MAX,
{
    assert forall|c: char| #[trigger]
        occ(acc + line, c) == occ(acc, c) + occ(line, c) && occ(acc + line, c) <= u64::MAX by {
        lemma_occ_add(acc, line, c);
        lemma_occ_le_len(acc + line, c);
    }
}

/// Whether the trimmed line (starting at index `k0`) begins with `lookup`.
fn lookup_matches(line: &Vec<char>, k0: usize, lookup: &str) -> (b: bool)
    requires
        k0 <= line@.len(),
        trim_start_spec(line@) == line@.skip(k0 as int),
    ensures
        b == starts_with_seq(trim_start_spec(line@), lookup@),
{
    let ghost t = trim_start_spec(line@);
    let m = lookup.unicode_len();
    let n = line.len();
    if m > n - k0 {
        proof {
            assert(!starts_with_seq(t, lookup@));
        }
        return false;
    }
    let mut x: usize = 0;
    while x < m
        invariant
            0 <= x <= m,
            m == lookup@.len(),
            k0 + m <= n,
            n == line@.len(),
            k0 <= line@.len(),
            t == trim_start_spec(line@),
            trim_start_spec(line@) == line@.skip(k0 as int),
            forall|k: int| 0 <= k < x ==> line@[k0 + k] == lookup@[k],
        decreases m - x,
    {
        let lc = lookup.get_char(x);
        if line[k0 + x] != lc {
            proof {
                if starts_with_seq(t, lookup@) {
                    assert(t.subrange(0, m as int)[x as int] == t[x as int]);
                    assert(t[x as int] == line@[k0 + x as int]);
                    assert(false);
                }
            }
            return false;
        }
        x = x + 1;
    }
    proof {
        assert forall|k: int| 0 <= k < m implies t.subrange(0, m as int)[k] == lookup@[k] by {
            assert(t[k] == line@[k0 + k]);
        }
        assert(t.subrange(0, m as int) =~= lookup@);
    }
    true
}

/// The index of the first preserver whose lookup is a prefix of the trimmed
/// line, if any; exactly what the model's `match_idx` answers.
fn find_match(preservers: &Vec<&Preserver>, line: &Vec<char>, k0: usize) -> (r: Option<usize>)
    requires
        k0 <= line@.len(),
        trim_start_spec(line@) == line@.skip(k0 as int),
    ensures
        match r {
            Option::Some(k) => k < preservers@.len() && match_idx(
                chains_seq(preservers@),
                trim_start_spec(line@),
            ) == Option::Some(k as int),
            Option::None => match_idx(chains_seq(preservers@), trim_start_spec(line@)) is None,
        },
{
    let ghost chains = chains_seq(preservers@);
    let ghost t = trim_start_spec(line@);
    let n = preservers.len();
    let mut j: usize = 0;
    while j < n
        invariant
            0 <= j <= n,
            n == preservers@.len(),
            k0 <= line@.len(),
            trim_start_spec(line@) == line@.skip(k0 as int),
            chains == chains_seq(preservers@),
            t == trim_start_spec(line@),
            forall|x: int| 0 <= x < j ==> !starts_with_seq(t, chains[x][0]),
        decreases n - j,
    {
        let p: &Preserver = preservers[j];
        proof {
            assert(chains[j as int] == preservers@[j as int]@);
        }
        let matched = lookup_matches(line, k0, p.lookup());
        if matched {
            proof {
                lemma_match_idx_some(chains, t, j as int);
            }
            return Some(j);
        }
        j = j + 1;
    }
    proof {
        lemma_match_idx_none(chains, t);
    }
    None
}

} // verus!
