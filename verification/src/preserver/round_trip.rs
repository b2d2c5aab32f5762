//! Law of the whole text pipeline: for directives without inner chains,
//! restoring the placeholder-encoded text gives the source lines back. The
//! one deliberate loss is a whitespace-only line inside an open block, which
//! comes back empty, since its marker carries no payload.

use crate::preserver::laws::is_substring_of;
use crate::preserver::model::balanced;
use crate::preserver::model::lemma_match_idx_range;
use crate::preserver::model::marker_line_seq;
use crate::preserver::model::match_idx;
use crate::preserver::model::nl_seq;
use crate::preserver::model::pres_apply;
use crate::preserver::model::pres_go;
use crate::preserver::model::tempdoc_seq;
use crate::preserver::restore::restore_spec;
use crate::preserver::restore::tempdoc_line_lit;
use crate::preserver::restore::temp_marker_lit;
use crate::preserver::restore::type_lit;
use crate::preserver::restore_laws::clear_of_markers;
use crate::preserver::restore_laws::doc_row;
use crate::preserver::restore_laws::docless_rows;
use crate::preserver::restore_laws::dummy_decl_text;
use crate::preserver::restore_laws::keep_rows;
use crate::preserver::restore_laws::lemma_restoration_on_rows;
use crate::preserver::restore_laws::marker_row;
use crate::preserver::restore_laws::plain_row;
use crate::preserver::restore_laws::row_no_nl;
use crate::text::join_nl;
use crate::text::lemma_nl_index;
use crate::text::nl_index;
use crate::text::split_nl;
use crate::text::starts_with_seq;
use crate::text::trim_start_spec;
use vstd::prelude::*;

verus! {

/// A source line on which the round trip is exact: it holds none of the
/// marker vocabulary, and when it opens with the word `type` it carries
/// something after it on the same line.
pub open spec fn code_line_ok(l: Seq<char>) -> bool {
    clear_of_markers(l) && !is_substring_of(l, temp_marker_lit()) && (starts_with_seq(
        trim_start_spec(l),
        type_lit(),
    ) ==> trim_start_spec(trim_start_spec(l).skip(4)).len() > 0)
}

/// A directive list of top-level lookups alone: single-link chains with
/// non-empty lookups.
pub open spec fn flat_chains(chains: Seq<Seq<Seq<char>>>) -> bool {
    forall|k: int|
        0 <= k < chains.len() ==> (#[trigger] chains[k]).len() == 1 && chains[k][0].len() > 0
}

/// The lines the round trip hands back, in order: every line as it was,
/// except a whitespace-only line inside an open block, which comes back
/// empty.
pub open spec fn round_trip_go(
    lines: Seq<Seq<char>>,
    i: int,
    acc: Seq<char>,
    chains: Seq<Seq<Seq<char>>>,
) -> Seq<Seq<char>>
    decreases lines.len() - i,
{
    if i < 0 || i >= lines.len() {
        Seq::empty()
    } else {
        let line = lines[i];
        let t = trim_start_spec(line);
        match match_idx(chains, t) {
            Option::Some(k) => seq![line] + round_trip_go(lines, i + 1, acc + line, chains),
            Option::None => {
                if balanced(acc) {
                    seq![line] + round_trip_go(lines, i + 1, acc, chains)
                } else if crate::preserver::model::is_dropped_comment(t) {
                    seq![line] + round_trip_go(lines, i + 1, acc + line, chains)
                } else if t.len() == 0 {
                    seq![Seq::<char>::empty()] + round_trip_go(lines, i + 1, acc + line, chains)
                } else {
                    seq![line] + round_trip_go(lines, i + 1, acc + line, chains)
                }
            },
        }
    }
}

/// The rows of the placeholder-encoded text, in order, for flat chains.
spec fn enc_rows_go(
    lines: Seq<Seq<char>>,
    i: int,
    acc: Seq<char>,
    chains: Seq<Seq<Seq<char>>>,
) -> Seq<Seq<char>>
    decreases lines.len() - i,
{
    if i < 0 || i >= lines.len() {
        Seq::empty()
    } else {
        let line = lines[i];
        let t = trim_start_spec(line);
        match match_idx(chains, t) {
            Option::Some(k) => seq![line] + enc_rows_go(lines, i + 1, acc + line, chains),
            Option::None => {
                if balanced(acc) {
                    seq![tempdoc_seq() + line] + enc_rows_go(lines, i + 1, acc, chains)
                } else if crate::preserver::model::is_dropped_comment(t) {
                    seq![tempdoc_seq() + line, dummy_decl_text()] + enc_rows_go(
                        lines,
                        i + 1,
                        acc + line,
                        chains,
                    )
                } else if t.len() == 0 {
                    seq![tempdoc_seq(), dummy_decl_text()] + enc_rows_go(
                        lines,
                        i + 1,
                        acc + line,
                        chains,
                    )
                } else {
                    seq![line] + enc_rows_go(lines, i + 1, acc + line, chains)
                }
            },
        }
    }
}

/// Joining distributes over appending row lists.
proof fn lemma_join_nl_append(a: Seq<Seq<char>>, b: Seq<Seq<char>>)
    ensures
        join_nl(a + b) =~= join_nl(a) + join_nl(b),
    decreases a.len(),
{
    if a.len() == 0 {
        assert(a + b =~= b);
    } else {
        lemma_join_nl_append(a.drop_first(), b);
        assert((a + b).drop_first() =~= a.drop_first() + b);
        assert((a + b)[0] == a[0]);
        assert(a[0] + seq!['\n'] + (join_nl(a.drop_first()) + join_nl(b)) =~= (a[0] + seq!['\n']
            + join_nl(a.drop_first())) + join_nl(b));
    }
}

/// For flat chains the encoded text is exactly the joined encoded rows.
proof fn lemma_enc_rows_join(
    lines: Seq<Seq<char>>,
    i: int,
    acc: Seq<char>,
    chains: Seq<Seq<Seq<char>>>,
)
    requires
        flat_chains(chains),
    ensures
        pres_go(lines, i, acc, chains) =~= join_nl(enc_rows_go(lines, i, acc, chains)),
    decreases lines.len() - i,
{
    if 0 <= i < lines.len() {
        let line = lines[i];
        let t = trim_start_spec(line);
        lemma_match_idx_range(chains, t);
        match match_idx(chains, t) {
            Option::Some(k) => {
                assert(chains[k].len() == 1);
                lemma_enc_rows_join(lines, i + 1, acc + line, chains);
                lemma_join_nl_append(
                    seq![line],
                    enc_rows_go(lines, i + 1, acc + line, chains),
                );
                assert(join_nl(seq![line]) =~= line + nl_seq()) by {
                    assert(seq![line].drop_first() =~= Seq::<Seq<char>>::empty());
                    assert(join_nl(Seq::<Seq<char>>::empty()) =~= Seq::<char>::empty());
                }
            },
            Option::None => {
                if balanced(acc) {
                    lemma_enc_rows_join(lines, i + 1, acc, chains);
                    lemma_join_nl_append(
                        seq![tempdoc_seq() + line],
                        enc_rows_go(lines, i + 1, acc, chains),
                    );
                    assert(join_nl(seq![tempdoc_seq() + line]) =~= tempdoc_seq() + line
                        + nl_seq()) by {
                        assert(seq![tempdoc_seq() + line].drop_first()
                            =~= Seq::<Seq<char>>::empty());
                        assert(join_nl(Seq::<Seq<char>>::empty()) =~= Seq::<char>::empty());
                    }
                } else {
                    lemma_enc_rows_join(lines, i + 1, acc + line, chains);
                    if crate::preserver::model::is_dropped_comment(t) {
                        lemma_join_nl_append(
                            seq![tempdoc_seq() + line, dummy_decl_text()],
                            enc_rows_go(lines, i + 1, acc + line, chains),
                        );
                        assert(join_nl(seq![tempdoc_seq() + line, dummy_decl_text()])
                            =~= tempdoc_seq() + line + nl_seq() + marker_line_seq()) by {
                            let pair = seq![tempdoc_seq() + line, dummy_decl_text()];
                            assert(pair[0] == tempdoc_seq() + line);
                            assert(pair.drop_first() =~= seq![dummy_decl_text()]);
                            assert(seq![dummy_decl_text()].drop_first()
                                =~= Seq::<Seq<char>>::empty());
                            assert(join_nl(Seq::<Seq<char>>::empty()) =~= Seq::<char>::empty());
                            assert(join_nl(seq![dummy_decl_text()]) =~= dummy_decl_text()
                                + seq!['\n']);
                            assert(marker_line_seq() =~= dummy_decl_text() + seq!['\n']);
                        }
                    } else if t.len() == 0 {
                        lemma_join_nl_append(
                            seq![tempdoc_seq(), dummy_decl_text()],
                            enc_rows_go(lines, i + 1, acc + line, chains),
                        );
                        assert(join_nl(seq![tempdoc_seq(), dummy_decl_text()]) =~= tempdoc_seq()
                            + nl_seq() + marker_line_seq()) by {
                            let pair = seq![tempdoc_seq(), dummy_decl_text()];
                            assert(pair[0] == tempdoc_seq());
                            assert(pair.drop_first() =~= seq![dummy_decl_text()]);
                            assert(seq![dummy_decl_text()].drop_first()
                                =~= Seq::<Seq<char>>::empty());
                            assert(join_nl(Seq::<Seq<char>>::empty()) =~= Seq::<char>::empty());
                            assert(join_nl(seq![dummy_decl_text()]) =~= dummy_decl_text()
                                + seq!['\n']);
                            assert(marker_line_seq() =~= dummy_decl_text() + seq!['\n']);
                        }
                    } else {
                        lemma_join_nl_append(
                            seq![line],
                            enc_rows_go(lines, i + 1, acc + line, chains),
                        );
                        assert(join_nl(seq![line]) =~= line + nl_seq()) by {
                            assert(seq![line].drop_first() =~= Seq::<Seq<char>>::empty());
                        }
                    }
                }
            },
        }
    }
}

/// The lines produced by splitting never hold a line break.
proof fn lemma_split_no_nl(code: Seq<char>)
    ensures
        forall|k: int| 0 <= k < split_nl(code).len() ==> row_no_nl(#[trigger] split_nl(code)[k]),
    decreases code.len(),
{
    if code.len() > 0 {
        let i = nl_index(code);
        lemma_nl_index(code);
        if i < code.len() {
            lemma_split_no_nl(code.skip(i + 1));
            let head = crate::text::strip_tail_cr(code.take(i));
            assert(row_no_nl(head)) by {
                assert(forall|k: int| 0 <= k < head.len() ==> #[trigger] head[k] == code[k]);
            }
            let rest = split_nl(code.skip(i + 1));
            assert(forall|k: int|
                0 <= k < rest.len() ==> #[trigger] (seq![head] + rest)[k + 1] == rest[k]);
            assert((seq![head] + rest)[0] == head);
        } else {
            assert(split_nl(code) =~= seq![code]);
            assert(row_no_nl(code));
        }
    }
}

/// Every encoded row is one of the three row shapes, and the rows restore to
/// exactly the round-trip lines.
proof fn lemma_enc_rows_classes(
    lines: Seq<Seq<char>>,
    i: int,
    acc: Seq<char>,
    chains: Seq<Seq<Seq<char>>>,
)
    requires
        flat_chains(chains),
        forall|k: int| 0 <= k < lines.len() ==> row_no_nl(#[trigger] lines[k]),
        forall|k: int| 0 <= k < lines.len() ==> code_line_ok(#[trigger] lines[k]),
    ensures
        forall|k: int|
            0 <= k < enc_rows_go(lines, i, acc, chains).len() ==> marker_row(
                #[trigger] enc_rows_go(lines, i, acc, chains)[k],
            ) || doc_row(enc_rows_go(lines, i, acc, chains)[k]) || plain_row(
                enc_rows_go(lines, i, acc, chains)[k],
            ),
        docless_rows(keep_rows(enc_rows_go(lines, i, acc, chains))) =~= round_trip_go(
            lines,
            i,
            acc,
            chains,
        ),
    decreases lines.len() - i,
{
    if 0 <= i < lines.len() {
        let line = lines[i];
        let t = trim_start_spec(line);
        let enc = enc_rows_go(lines, i, acc, chains);
        lemma_match_idx_range(chains, t);
        crate::text::lemma_trim_is_skip(line);
        match match_idx(chains, t) {
            Option::Some(k) => {
                let rest_enc = enc_rows_go(lines, i + 1, acc + line, chains);
                assert(t.len() >= chains[k][0].len());
                lemma_plain_line(line);
                lemma_enc_rows_classes(lines, i + 1, acc + line, chains);
                lemma_one_then(line, rest_enc, round_trip_go(lines, i + 1, acc + line, chains));
                assert(enc[0] == line);
                assert(forall|x: int| 0 <= x < rest_enc.len() ==> #[trigger] enc[x + 1]
                    == rest_enc[x]);
            },
            Option::None => {
                if balanced(acc) {
                    let rest_enc = enc_rows_go(lines, i + 1, acc, chains);
                    lemma_doc_line(line);
                    lemma_enc_rows_classes(lines, i + 1, acc, chains);
                    lemma_doc_then(line, rest_enc, round_trip_go(lines, i + 1, acc, chains));
                    assert(enc[0] == tempdoc_seq() + line);
                    assert(forall|x: int| 0 <= x < rest_enc.len() ==> #[trigger] enc[x + 1]
                        == rest_enc[x]);
                } else if crate::preserver::model::is_dropped_comment(t) {
                    let rest_enc = enc_rows_go(lines, i + 1, acc + line, chains);
                    lemma_doc_line(line);
                    lemma_dummy_is_marker_row();
                    lemma_enc_rows_classes(lines, i + 1, acc + line, chains);
                    lemma_pair_then(
                        line,
                        rest_enc,
                        round_trip_go(lines, i + 1, acc + line, chains),
                    );
                    assert(enc[0] == tempdoc_seq() + line);
                    assert(enc[1] == dummy_decl_text());
                    assert(forall|x: int| 0 <= x < rest_enc.len() ==> #[trigger] enc[x + 2]
                        == rest_enc[x]);
                } else if t.len() == 0 {
                    let rest_enc = enc_rows_go(lines, i + 1, acc + line, chains);
                    lemma_doc_line(Seq::empty());
                    lemma_dummy_is_marker_row();
                    lemma_enc_rows_classes(lines, i + 1, acc + line, chains);
                    lemma_pair_then(
                        Seq::empty(),
                        rest_enc,
                        round_trip_go(lines, i + 1, acc + line, chains),
                    );
                    assert(tempdoc_seq() + Seq::<char>::empty() =~= tempdoc_seq());
                    assert(enc[0] == tempdoc_seq());
                    assert(enc[1] == dummy_decl_text());
                    assert(forall|x: int| 0 <= x < rest_enc.len() ==> #[trigger] enc[x + 2]
                        == rest_enc[x]);
                    assert(seq![tempdoc_seq(), dummy_decl_text()] + rest_enc =~= seq![
                        tempdoc_seq() + Seq::<char>::empty(),
                        dummy_decl_text(),
                    ] + rest_enc);
                } else {
                    let rest_enc = enc_rows_go(lines, i + 1, acc + line, chains);
                    lemma_plain_line(line);
                    lemma_enc_rows_classes(lines, i + 1, acc + line, chains);
                    lemma_one_then(
                        line,
                        rest_enc,
                        round_trip_go(lines, i + 1, acc + line, chains),
                    );
                    assert(enc[0] == line);
                    assert(forall|x: int| 0 <= x < rest_enc.len() ==> #[trigger] enc[x + 1]
                        == rest_enc[x]);
                }
            },
        }
    }
}

/// A source line that the transform emits as it stands is an ordinary row.
proof fn lemma_plain_line(line: Seq<char>)
    requires
        row_no_nl(line),
        code_line_ok(line),
        trim_start_spec(line).len() > 0,
    ensures
        plain_row(line),
{
}

/// A marker-wrapped source line (or an empty payload) is a doc row whose
/// payload is exactly that line.
proof fn lemma_doc_line(line: Seq<char>)
    requires
        row_no_nl(line),
        clear_of_markers(line),
    ensures
        doc_row(tempdoc_seq() + line),
        (tempdoc_seq() + line).skip(
            crate::text::ws_prefix_len(tempdoc_seq() + line) as int + 11,
        ) =~= line,
{
    let row = tempdoc_seq() + line;
    assert(!crate::text::is_ws_char(row[0]));
    assert(crate::text::ws_prefix_len(row) == 0) by {
        crate::text::lemma_ws_prefix_is(row, 0);
    }
    crate::text::lemma_trim_is_skip(row);
    assert(trim_start_spec(row) =~= row);
    assert(row.subrange(0, 11) =~= tempdoc_line_lit());
    assert(row_no_nl(row)) by {
        assert(forall|k: int| 0 <= k < 11 ==> #[trigger] row[k] == tempdoc_seq()[k]);
        assert(forall|k: int| 0 <= k < line.len() ==> #[trigger] row[11 + k] == line[k]);
        assert(forall|k: int| 11 <= k < row.len() ==> #[trigger] row[k] == line[k - 11]);
    }
    assert(row.skip(11) =~= line);
    assert(clear_of_markers(row.skip(crate::text::ws_prefix_len(row) as int + 11)));
    assert(starts_with_seq(trim_start_spec(row), tempdoc_line_lit()));
}

/// Surviving and restoring one ordinary row prepends that row.
proof fn lemma_one_then(line: Seq<char>, rest: Seq<Seq<char>>, restored: Seq<Seq<char>>)
    requires
        plain_row(line),
        docless_rows(keep_rows(rest)) =~= restored,
    ensures
        docless_rows(keep_rows(seq![line] + rest)) =~= seq![line] + restored,
{
    let whole = seq![line] + rest;
    assert(whole.drop_first() =~= rest);
    assert(whole[0] == line);
    assert(!marker_row(line)) by {
        if marker_row(line) {
            lemma_marker_row_has_dummy(line);
        }
    }
    assert(keep_rows(whole) =~= seq![line] + keep_rows(rest));
    let kept = seq![line] + keep_rows(rest);
    assert(kept.drop_first() =~= keep_rows(rest));
    assert(kept[0] == line);
    assert(!doc_row(line)) by {
        if doc_row(line) {
            lemma_doc_row_has_prefix(line);
        }
    }
    assert(crate::preserver::restore_laws::row_restored(line) == line);
    assert(docless_rows(kept) =~= seq![line] + docless_rows(keep_rows(rest)));
}

/// Surviving and restoring one doc row prepends its payload.
proof fn lemma_doc_then(line: Seq<char>, rest: Seq<Seq<char>>, restored: Seq<Seq<char>>)
    requires
        row_no_nl(line),
        clear_of_markers(line),
        docless_rows(keep_rows(rest)) =~= restored,
    ensures
        docless_rows(keep_rows(seq![tempdoc_seq() + line] + rest)) =~= seq![line] + restored,
{
    let row = tempdoc_seq() + line;
    lemma_doc_line(line);
    lemma_not_marker_of_doc(row);
    lemma_keep_cons(row, rest);
    lemma_docless_cons(row, keep_rows(rest));
    assert(crate::preserver::restore_laws::row_restored(row) =~= line);
}

/// A doc row is not a dummy-declaration row: their trimmed forms open with
/// different characters.
proof fn lemma_not_marker_of_doc(row: Seq<char>)
    requires
        doc_row(row),
    ensures
        !marker_row(row),
{
    if marker_row(row) {
        let t = trim_start_spec(row);
        assert(t == dummy_decl_text());
        assert(t.subrange(0, 11) == tempdoc_line_lit());
        assert(t.subrange(0, 11)[0] == t[0]);
        assert(dummy_decl_text()[0] == 't');
        assert(tempdoc_line_lit()[0] == '/');
        assert(false);
    }
}

/// A row that is no dummy declaration survives the marker pass at the head.
proof fn lemma_keep_cons(row: Seq<char>, rest: Seq<Seq<char>>)
    requires
        !marker_row(row),
    ensures
        keep_rows(seq![row] + rest) =~= seq![row] + keep_rows(rest),
{
    let whole = seq![row] + rest;
    assert(whole[0] == row);
    assert(whole.drop_first() =~= rest);
}

/// The doc-marker pass restores the head row and recurses.
proof fn lemma_docless_cons(row: Seq<char>, x: Seq<Seq<char>>)
    ensures
        docless_rows(seq![row] + x) =~= seq![
            crate::preserver::restore_laws::row_restored(row),
        ] + docless_rows(x),
{
    let whole = seq![row] + x;
    assert(whole[0] == row);
    assert(whole.drop_first() =~= x);
}

/// Surviving and restoring a doc row paired with a dummy declaration
/// prepends the doc row's payload alone.
proof fn lemma_pair_then(line: Seq<char>, rest: Seq<Seq<char>>, restored: Seq<Seq<char>>)
    requires
        row_no_nl(line),
        clear_of_markers(line),
        docless_rows(keep_rows(rest)) =~= restored,
    ensures
        docless_rows(keep_rows(seq![tempdoc_seq() + line, dummy_decl_text()] + rest)) =~= seq![
            line,
        ] + restored,
{
    lemma_dummy_is_marker_row();
    lemma_pair_split(line, rest);
    lemma_marker_then(rest);
    lemma_doc_then(line, seq![dummy_decl_text()] + rest, restored);
}

proof fn lemma_pair_split(line: Seq<char>, rest: Seq<Seq<char>>)
    ensures
        seq![tempdoc_seq() + line, dummy_decl_text()] + rest =~= seq![tempdoc_seq() + line]
            + (seq![dummy_decl_text()] + rest),
{
}

/// A dummy-declaration row at the head disappears from the kept rows.
proof fn lemma_marker_then(rest: Seq<Seq<char>>)
    ensures
        keep_rows(seq![dummy_decl_text()] + rest) =~= keep_rows(rest),
{
    lemma_dummy_is_marker_row();
    let whole = seq![dummy_decl_text()] + rest;
    assert(whole.drop_first() =~= rest);
    assert(whole[0] == dummy_decl_text());
}

proof fn lemma_dummy_is_marker_row()
    ensures
        marker_row(dummy_decl_text()),
{
    let d = dummy_decl_text();
    assert(!crate::text::is_ws_char(d[0]));
    crate::text::lemma_trim_is_skip(d);
    assert(crate::text::ws_prefix_len(d) == 0) by {
        crate::text::lemma_ws_prefix_is(d, 0);
    }
    assert(trim_start_spec(d) =~= d.skip(0));
    assert(d.skip(0) =~= d);
}

/// A dummy-declaration row holds the dummy declaration.
proof fn lemma_marker_row_has_dummy(l: Seq<char>)
    requires
        marker_row(l),
    ensures
        is_substring_of(l, dummy_decl_text()),
{
    crate::text::lemma_trim_is_skip(l);
    let wp = crate::text::ws_prefix_len(l) as int;
    assert(l.subrange(wp, wp + dummy_decl_text().len() as int) =~= trim_start_spec(l));
}

/// A doc row holds the doc-comment marker prefix.
proof fn lemma_doc_row_has_prefix(l: Seq<char>)
    requires
        doc_row(l),
    ensures
        is_substring_of(l, tempdoc_line_lit()),
{
    crate::text::lemma_trim_is_skip(l);
    let wp = crate::text::ws_prefix_len(l) as int;
    let t = trim_start_spec(l);
    assert(t.subrange(0, 11) == tempdoc_line_lit());
    assert(l.subrange(wp, wp + 11) =~= t.subrange(0, 11));
}

/// Law (round trip of the text pipeline): under a directive list of
/// top-level lookups, restoring the placeholder-encoded text yields exactly
/// the source lines again, each with a line break, except that a
/// whitespace-only line inside an open block comes back empty.
pub proof fn lemma_text_round_trip(code: Seq<char>, chains: Seq<Seq<Seq<char>>>)
    requires
        flat_chains(chains),
        forall|k: int| 0 <= k < split_nl(code).len() ==> code_line_ok(#[trigger] split_nl(code)[k]),
    ensures
        restore_spec(pres_apply(code, chains)) =~= join_nl(
            round_trip_go(split_nl(code), 0, Seq::empty(), chains),
        ),
{
    let lines = split_nl(code);
    lemma_split_no_nl(code);
    lemma_enc_rows_join(lines, 0, Seq::empty(), chains);
    lemma_enc_rows_classes(lines, 0, Seq::empty(), chains);
    let rows = enc_rows_go(lines, 0, Seq::empty(), chains);
    let all_rows = rows + seq![dummy_decl_text()];
    lemma_dummy_is_marker_row();
    assert(forall|k: int|
        0 <= k < all_rows.len() ==> marker_row(#[trigger] all_rows[k]) || doc_row(all_rows[k])
            || plain_row(all_rows[k])) by {
        assert(forall|k: int| 0 <= k < rows.len() ==> #[trigger] all_rows[k] == rows[k]);
        assert(all_rows[all_rows.len() - 1] == dummy_decl_text());
    }
    lemma_join_nl_append(rows, seq![dummy_decl_text()]);
    assert(join_nl(seq![dummy_decl_text()]) =~= marker_line_seq()) by {
        assert(seq![dummy_decl_text()].drop_first() =~= Seq::<Seq<char>>::empty());
        assert(join_nl(Seq::<Seq<char>>::empty()) =~= Seq::<char>::empty());
        assert(marker_line_seq() =~= dummy_decl_text() + seq!['\n']);
    }
    assert(pres_apply(code, chains) =~= join_nl(all_rows));
    lemma_restoration_on_rows(all_rows);
    lemma_keep_append_marker(rows);
    assert(keep_rows(all_rows) =~= keep_rows(rows));
    assert(restore_spec(join_nl(all_rows)) =~= join_nl(docless_rows(keep_rows(rows))));
    assert(restore_spec(pres_apply(code, chains)) == restore_spec(join_nl(all_rows)));
}

/// Appending one dummy-declaration row changes nothing about the kept rows.
proof fn lemma_keep_append_marker(rows: Seq<Seq<char>>)
    ensures
        keep_rows(rows + seq![dummy_decl_text()]) =~= keep_rows(rows),
    decreases rows.len(),
{
    lemma_dummy_is_marker_row();
    if rows.len() == 0 {
        assert(rows + seq![dummy_decl_text()] =~= seq![dummy_decl_text()]);
        assert(seq![dummy_decl_text()].drop_first() =~= Seq::<Seq<char>>::empty());
        assert(keep_rows(Seq::<Seq<char>>::empty()) =~= Seq::<Seq<char>>::empty());
        assert(keep_rows(rows) =~= Seq::<Seq<char>>::empty());
    } else {
        let whole = rows + seq![dummy_decl_text()];
        assert(whole[0] == rows[0]);
        assert(whole.drop_first() =~= rows.drop_first() + seq![dummy_decl_text()]);
        lemma_keep_append_marker(rows.drop_first());
        if marker_row(rows[0]) {
            assert(keep_rows(whole) =~= keep_rows(rows.drop_first() + seq![dummy_decl_text()]));
            assert(keep_rows(rows) =~= keep_rows(rows.drop_first()));
        } else {
            assert(keep_rows(whole) =~= seq![rows[0]] + keep_rows(
                rows.drop_first() + seq![dummy_decl_text()],
            ));
            assert(keep_rows(rows) =~= seq![rows[0]] + keep_rows(rows.drop_first()));
        }
    }
}

} // verus!
