//! Law of the restoration transform: on rendered text of the shape the
//! pipeline produces — lines that are dummy declarations, doc-comment
//! markers carrying a payload, or ordinary code clear of the marker
//! vocabulary — the restoration removes every dummy declaration and every
//! doc-comment marker, so that neither token sequence occurs in the output.

use crate::preserver::laws::is_substring_of;
use crate::preserver::restore::doc_attempt_at;
use crate::preserver::restore::lemma_sptab_prefix_is;
use crate::preserver::restore::lit_at;
use crate::preserver::restore::marker_attempt_at;
use crate::preserver::restore::restore_docs;
use crate::preserver::restore::restore_docs_from;
use crate::preserver::restore::sptabrun;
use crate::preserver::restore::restore_spec;
use crate::preserver::restore::strip_docs_from;
use crate::preserver::restore::strip_markers;
use crate::preserver::restore::strip_markers_from;
use crate::preserver::restore::tempdoc_attempt_at;
use crate::preserver::restore::tempdoc_line_lit;
use crate::preserver::restore::tempdoc_payload_lit;
use crate::preserver::restore::temp_marker_lit;
use crate::preserver::restore::type_lit;
use crate::preserver::restore::unit_semi_lit;
use crate::preserver::restore::wsrun;
use crate::text::is_ws_char;
use crate::text::join_nl;
use crate::text::lemma_trim_is_skip;
use crate::text::lemma_ws_prefix_is;
use crate::text::starts_with_seq;
use crate::text::trim_start_spec;
use crate::text::ws_prefix_len;
use vstd::prelude::*;

verus! {

/// The dummy declaration as it stands on its own line, without the line
/// break.
pub open spec fn dummy_decl_text() -> Seq<char> {
    seq![
        't',
        'y',
        'p',
        'e',
        ' ',
        't',
        'e',
        'm',
        'p',
        '_',
        'm',
        'a',
        'r',
        'k',
        'e',
        'r',
        ' ',
        '=',
        ' ',
        '(',
        ')',
        ';',
    ]
}

/// A quote followed by the payload marker: the only anchor at which the
/// attribute-form matcher can fire.
pub open spec fn quote_tempdoc_lit() -> Seq<char> {
    seq!['"', 'T', 'E', 'M', 'P', '_', 'D', 'O', 'C']
}

/// No line break anywhere in the line.
pub open spec fn row_no_nl(l: Seq<char>) -> bool {
    forall|k: int| 0 <= k < l.len() ==> l[k] != '\n'
}

/// A dummy-declaration line: optional indentation, then exactly the dummy
/// declaration.
pub open spec fn marker_row(l: Seq<char>) -> bool {
    row_no_nl(l) && trim_start_spec(l) == dummy_decl_text()
}

/// A doc-comment marker line: optional indentation, the marker prefix, then
/// a payload that holds none of the marker vocabulary.
pub open spec fn doc_row(l: Seq<char>) -> bool {
    row_no_nl(l) && starts_after_ws(l, tempdoc_line_lit()) && clear_of_markers(
        l.skip(ws_prefix_len(l) as int + 11),
    )
}

/// An ordinary line: not all whitespace, and clear of the marker
/// vocabulary; one that opens with the word `type` must carry something
/// after it on the same line.
pub open spec fn plain_row(l: Seq<char>) -> bool {
    row_no_nl(l) && trim_start_spec(l).len() > 0 && clear_of_markers(l) && !is_substring_of(
        l,
        seq!['t', 'e', 'm', 'p', '_', 'm', 'a', 'r', 'k', 'e', 'r'],
    ) && (crate::text::starts_with_seq(trim_start_spec(l), type_lit()) ==> trim_start_spec(
        trim_start_spec(l).skip(4),
    ).len() > 0)
}

/// None of the three marker token sequences occurs in `t`.
pub open spec fn clear_of_markers(t: Seq<char>) -> bool {
    !is_substring_of(t, dummy_decl_text()) && !is_substring_of(t, tempdoc_line_lit())
        && !is_substring_of(t, quote_tempdoc_lit())
}

/// The line opens, after its indentation, with the literal `w`.
pub open spec fn starts_after_ws(l: Seq<char>, w: Seq<char>) -> bool {
    crate::text::starts_with_seq(trim_start_spec(l), w)
}

/// A substring of a joined line list that holds no line break lies inside a
/// single line.
pub proof fn lemma_join_window(ls: Seq<Seq<char>>, w: Seq<char>)
    requires
        w.len() > 0,
        forall|k: int| 0 <= k < w.len() ==> w[k] != '\n',
        is_substring_of(join_nl(ls), w),
    ensures
        exists|k: int| 0 <= k < ls.len() && is_substring_of(#[trigger] ls[k], w),
    decreases ls.len(),
{
    if ls.len() == 0 {
        assert(join_nl(ls) =~= Seq::<char>::empty());
        let x = choose|x: int|
            0 <= x && x + w.len() <= join_nl(ls).len() && #[trigger] join_nl(ls).subrange(
                x,
                x + w.len() as int,
            ) == w;
        assert(false);
    } else {
        let l0 = ls[0];
        let rest = join_nl(ls.drop_first());
        let whole = join_nl(ls);
        assert(whole == l0 + seq!['\n'] + rest);
        let x = choose|x: int|
            0 <= x && x + w.len() <= whole.len() && #[trigger] whole.subrange(
                x,
                x + w.len() as int,
            ) == w;
        if x + w.len() <= l0.len() {
            assert(l0.subrange(x, x + w.len() as int) =~= whole.subrange(x, x + w.len() as int));
            assert(is_substring_of(l0, w));
        } else if x > l0.len() {
            let y = x - l0.len() - 1;
            assert(rest.subrange(y, y + w.len() as int) =~= whole.subrange(
                x,
                x + w.len() as int,
            ));
            assert(is_substring_of(rest, w));
            lemma_join_window(ls.drop_first(), w);
            let k = choose|k: int|
                0 <= k < ls.drop_first().len() && is_substring_of(
                    #[trigger] ls.drop_first()[k],
                    w,
                );
            assert(ls[k + 1] == ls.drop_first()[k]);
        } else {
            // the window would cover the line break
            let d = l0.len() - x;
            assert(whole[l0.len() as int] == '\n');
            assert(whole.subrange(x, x + w.len() as int)[d] == whole[l0.len() as int]);
            assert(w[d] == '\n');
            assert(false);
        }
    }
}

/// Where no quote-and-payload-marker anchor occurs, the attribute-form
/// matcher never fires.
proof fn lemma_doc_attempt_none(s: Seq<char>, p: int)
    requires
        !is_substring_of(s, quote_tempdoc_lit()),
    ensures
        doc_attempt_at(s, p) is None,
{
    if doc_attempt_at(s, p) is Some {
        let p1 = wsrun(s, p + 1);
        let p2 = wsrun(s, p1 + 1);
        let p3 = wsrun(s, p2 + 3);
        let p4 = wsrun(s, p3 + 1);
        assert(p4 < s.len() && s[p4] == '"' && lit_at(s, p4 + 1, tempdoc_payload_lit()));
        assert(s.subrange(p4, p4 + 9) =~= quote_tempdoc_lit()) by {
            assert(s.subrange(p4 + 1, p4 + 1 + 8) == tempdoc_payload_lit());
            assert(forall|k: int|
                0 <= k < 8 ==> #[trigger] s.subrange(p4 + 1, p4 + 1 + 8)[k] == s[p4 + 1 + k]);
        }
        assert(is_substring_of(s, quote_tempdoc_lit()));
        assert(false);
    }
}

/// Where no anchor occurs, the first restoration pass copies the text as it
/// is.
pub proof fn lemma_restore_docs_identity(s: Seq<char>)
    requires
        !is_substring_of(s, quote_tempdoc_lit()),
    ensures
        restore_docs(s) =~= s,
{
    lemma_restore_docs_identity_from(s, 0);
    assert(s.skip(0) =~= s);
}

proof fn lemma_restore_docs_identity_from(s: Seq<char>, p: int)
    requires
        !is_substring_of(s, quote_tempdoc_lit()),
        0 <= p <= s.len(),
    ensures
        restore_docs_from(s, p) =~= s.skip(p),
    decreases s.len() - p,
{
    if p < s.len() {
        lemma_doc_attempt_none(s, p);
        lemma_restore_docs_identity_from(s, p + 1);
        assert(s.skip(p) =~= seq![s[p]] + s.skip(p + 1));
    }
}

/// A whitespace run stopping at a known boundary.
proof fn lemma_ws_run_value(s: Seq<char>, q: int, i: int)
    requires
        0 <= q,
        0 <= i,
        q + i <= s.len(),
        forall|k: int| q <= k < q + i ==> is_ws_char(s[k]),
        q + i < s.len() ==> !is_ws_char(s[q + i]),
    ensures
        wsrun(s, q) == q + i,
{
    let tail = s.skip(q);
    assert(forall|k: int| 0 <= k < i ==> tail[k] == s[q + k]);
    if i < tail.len() {
        assert(tail[i] == s[q + i]);
    }
    lemma_ws_prefix_is(tail, i);
}

/// A space-and-tab run stopping at a known boundary.
proof fn lemma_sptab_run_value(s: Seq<char>, q: int, i: int)
    requires
        0 <= q,
        0 <= i,
        q + i <= s.len(),
        forall|k: int| q <= k < q + i ==> crate::preserver::restore::is_sptab_char(s[k]),
        q + i < s.len() ==> !crate::preserver::restore::is_sptab_char(s[q + i]),
    ensures
        sptabrun(s, q) == q + i,
{
    let tail = s.skip(q);
    assert(forall|k: int| 0 <= k < i ==> tail[k] == s[q + k]);
    if i < tail.len() {
        assert(tail[i] == s[q + i]);
    }
    lemma_sptab_prefix_is(tail, i);
}

/// The characters of the head line, its line break, and the bounds, all in
/// terms of the whole text.
proof fn lemma_line_chars(s: Seq<char>, p: int, l: Seq<char>, r: Seq<char>)
    requires
        0 <= p <= s.len(),
        s.skip(p) =~= l + seq!['\n'] + r,
    ensures
        s.len() == p + l.len() + 1 + r.len(),
        forall|k: int| p <= k < p + l.len() ==> #[trigger] s[k] == l[k - p],
        s[p + l.len() as int] == '\n',
{
    let u = s.skip(p);
    assert(u.len() == s.len() - p);
    assert forall|k: int| p <= k < p + l.len() implies #[trigger] s[k] == l[k - p] by {
        assert(s[k] == u[k - p]);
        assert(u[k - p] == (l + seq!['\n'] + r)[k - p]);
    }
    assert(s[p + l.len() as int] == u[l.len() as int]);
    assert(u[l.len() as int] == (l + seq!['\n'] + r)[l.len() as int]);
}

/// A matched literal window that starts inside the head line either lies in
/// that line or covers its line break, which no break-free literal can.
proof fn lemma_window_in_line(s: Seq<char>, p: int, l: Seq<char>, r: Seq<char>, d: int, w: Seq<char>)
    requires
        0 <= p <= s.len(),
        s.skip(p) =~= l + seq!['\n'] + r,
        0 <= d <= l.len(),
        w.len() > 0,
        forall|k: int| 0 <= k < w.len() ==> w[k] != '\n',
        lit_at(s, p + d, w),
    ensures
        d + w.len() <= l.len(),
        l.subrange(d, d + w.len() as int) == w,
        is_substring_of(l, w),
{
    lemma_line_chars(s, p, l, r);
    if d + w.len() > l.len() {
        let j = l.len() - d;
        assert(s.subrange(p + d, p + d + w.len() as int)[j] == s[p + d + j]);
        assert(s[p + l.len() as int] == '\n');
        assert(w[j] == '\n');
        assert(false);
    }
    assert(l.subrange(d, d + w.len() as int) =~= s.subrange(p + d, p + d + w.len() as int)) by {
        assert(forall|k: int|
            0 <= k < w.len() ==> #[trigger] s.subrange(p + d, p + d + w.len() as int)[k] == s[p
                + d + k]);
        assert(forall|k: int| 0 <= k < w.len() ==> #[trigger] s[p + d + k] == l[d + k]);
    }
}

/// The head line is not all whitespace, so the whitespace run from the line
/// start stops inside it, exactly at its indentation width.
proof fn lemma_head_ws_run(s: Seq<char>, p: int, l: Seq<char>, r: Seq<char>)
    requires
        0 <= p <= s.len(),
        s.skip(p) =~= l + seq!['\n'] + r,
        trim_start_spec(l).len() > 0,
    ensures
        wsrun(s, p) == p + ws_prefix_len(l),
        ws_prefix_len(l) < l.len(),
{
    lemma_line_chars(s, p, l, r);
    lemma_trim_is_skip(l);
    crate::preserver::restore::lemma_ws_prefix_props(l);
    let wp = ws_prefix_len(l) as int;
    assert(!is_ws_char(l[wp]));
    assert forall|k: int| p <= k < p + wp implies is_ws_char(s[k]) by {
        assert(s[k] == l[k - p]);
    }
    assert(s[p + wp] == l[wp]);
    lemma_ws_run_value(s, p, wp);
}

/// The dummy-declaration matcher fires on a marker row and consumes exactly
/// the row and its line break.
proof fn lemma_marker_attempt_hit(s: Seq<char>, p: int, l: Seq<char>, r: Seq<char>)
    requires
        0 <= p <= s.len(),
        s.skip(p) =~= l + seq!['\n'] + r,
        marker_row(l),
    ensures
        marker_attempt_at(s, p) == Option::Some(p + l.len() + 1),
{
    let dummy = dummy_decl_text();
    lemma_line_chars(s, p, l, r);
    lemma_trim_is_skip(l);
    let wp = ws_prefix_len(l) as int;
    assert(l.skip(wp) == dummy);
    assert(l.len() == wp + 22);
    assert(forall|k: int| 0 <= k < 22 ==> #[trigger] l[wp + k] == dummy[k]) by {
        assert(forall|k: int| 0 <= k < 22 ==> #[trigger] l.skip(wp)[k] == l[wp + k]);
    }
    lemma_head_ws_run(s, p, l, r);
    let p1 = p + wp;
    assert(wsrun(s, p) == p1);
    assert forall|k: int| 0 <= k < 22 implies #[trigger] s[p1 + k] == dummy[k] by {
        assert(s[p1 + k] == l[wp + k]);
    }
    assert(s.subrange(p1, p1 + 4) =~= type_lit()) by {
        assert(forall|k: int|
            0 <= k < 4 ==> #[trigger] s.subrange(p1, p1 + 4)[k] == s[p1 + k]);
    }
    assert(lit_at(s, p1, type_lit()));
    assert(s[p1 + 4] == dummy[4] && s[p1 + 5] == dummy[5]);
    assert(is_ws_char(s[p1 + 4]) && !is_ws_char(s[p1 + 5]));
    lemma_ws_run_value(s, p1 + 4, 1);
    let p2 = p1 + 5;
    assert(s.subrange(p2, p2 + 11) =~= temp_marker_lit()) by {
        assert(forall|k: int|
            0 <= k < 11 ==> #[trigger] s.subrange(p2, p2 + 11)[k] == s[p2 + k]);
        assert(forall|k: int| 0 <= k < 11 ==> #[trigger] s[p2 + k] == s[p1 + (5 + k)]);
    }
    assert(lit_at(s, p2, temp_marker_lit()));
    assert(s[p2 + 11] == s[p1 + 16] && s[p2 + 12] == s[p1 + 17]);
    assert(is_ws_char(s[p2 + 11]) && !is_ws_char(s[p2 + 12]));
    lemma_ws_run_value(s, p2 + 11, 1);
    let p3 = p2 + 12;
    assert(s[p3] == s[p1 + 17]);
    assert(s[p3] == '=');
    assert(s[p3 + 1] == s[p1 + 18] && s[p3 + 2] == s[p1 + 19]);
    assert(is_ws_char(s[p3 + 1]) && !is_ws_char(s[p3 + 2]));
    lemma_ws_run_value(s, p3 + 1, 1);
    let p4 = p3 + 2;
    assert(s.subrange(p4, p4 + 3) =~= unit_semi_lit()) by {
        assert(forall|k: int|
            0 <= k < 3 ==> #[trigger] s.subrange(p4, p4 + 3)[k] == s[p4 + k]);
        assert(forall|k: int| 0 <= k < 3 ==> #[trigger] s[p4 + k] == s[p1 + (19 + k)]);
    }
    assert(lit_at(s, p4, unit_semi_lit()));
    assert(p4 + 3 == p + l.len());
    assert(s[p4 + 3] == '\n');
    lemma_sptab_run_value(s, p4 + 3, 0);
    assert(marker_attempt_at(s, p) == Option::Some(p + l.len() + 1));
}

/// The dummy-declaration matcher stays quiet at the start of a doc-marker
/// row or an ordinary row.
proof fn lemma_marker_attempt_miss(s: Seq<char>, p: int, l: Seq<char>, r: Seq<char>)
    requires
        0 <= p <= s.len(),
        s.skip(p) =~= l + seq!['\n'] + r,
        doc_row(l) || plain_row(l),
    ensures
        marker_attempt_at(s, p) is None,
{
    let t = trim_start_spec(l);
    lemma_line_chars(s, p, l, r);
    lemma_trim_is_skip(l);
    let wp = ws_prefix_len(l) as int;
    if doc_row(l) {
        assert(t.len() >= 11);
    }
    lemma_head_ws_run(s, p, l, r);
    let p1 = p + wp;
    assert(forall|k: int| 0 <= k < t.len() ==> #[trigger] t[k] == l[wp + k]) by {
        assert(forall|k: int| 0 <= k < t.len() ==> #[trigger] l.skip(wp)[k] == l[wp + k]);
    }
    if marker_attempt_at(s, p) is Some {
        assert(lit_at(s, p1, type_lit()));
        lemma_window_in_line(s, p, l, r, wp, type_lit());
        assert(t.subrange(0, 4) =~= l.subrange(wp, wp + 4));
        assert(starts_with_seq(t, type_lit()));
        if doc_row(l) {
            assert(t.subrange(0, 11) =~= tempdoc_line_lit());
            assert(t.subrange(0, 11)[0] == t[0]);
            assert(t.subrange(0, 4)[0] == t[0]);
            assert(t[0] == 't' && t[0] == '/');
            assert(false);
        } else {
            // an ordinary row beginning with `type` carries more on the line
            let t4 = t.skip(4);
            assert(trim_start_spec(t4).len() > 0);
            lemma_trim_is_skip(t4);
            crate::preserver::restore::lemma_ws_prefix_props(t4);
            let w4 = ws_prefix_len(t4) as int;
            assert(w4 < t4.len());
            assert(t4.len() == l.len() - wp - 4);
            assert(forall|k: int| 0 <= k < t4.len() ==> #[trigger] t4[k] == t[4 + k]);
            assert forall|k: int| p1 + 4 <= k < p1 + 4 + w4 implies is_ws_char(s[k]) by {
                assert(s[k] == l[k - p]);
                assert(l[k - p] == t[k - p1]);
                assert(t[k - p1] == t4[k - p1 - 4]);
                assert(is_ws_char(t4[k - p1 - 4]));
            }
            assert(s[p1 + 4 + w4] == l[wp + 4 + w4]);
            assert(l[wp + 4 + w4] == t[4 + w4]);
            assert(t[4 + w4] == t4[w4]);
            assert(!is_ws_char(s[p1 + 4 + w4]));
            lemma_ws_run_value(s, p1 + 4, w4);
            let p2 = p1 + 4 + w4;
            assert(lit_at(s, p2, temp_marker_lit()));
            assert(p2 - p <= l.len());
            lemma_window_in_line(s, p, l, r, p2 - p, temp_marker_lit());
            assert(is_substring_of(l, temp_marker_lit()));
            assert(false);
        }
    }
}

/// Inside a line, with the line-start flag down, the pass copies characters
/// through the closing line break.
proof fn lemma_copy_plain_markers(s: Seq<char>, p: int, m: int)
    requires
        0 <= p <= m < s.len(),
        forall|k: int| p <= k < m ==> s[k] != '\n',
        s[m] == '\n',
    ensures
        strip_markers_from(s, p, false) =~= s.subrange(p, m + 1) + strip_markers_from(
            s,
            m + 1,
            true,
        ),
    decreases m - p,
{
    if p < m {
        lemma_copy_plain_markers(s, p + 1, m);
        assert(s.subrange(p, m + 1) =~= seq![s[p]] + s.subrange(p + 1, m + 1));
    } else {
        assert(s.subrange(m, m + 1) =~= seq![s[m]]);
    }
}

/// The pass deletes a marker row whole.
proof fn lemma_strip_markers_marker_row(s: Seq<char>, p: int, l: Seq<char>, r: Seq<char>)
    requires
        0 <= p <= s.len(),
        s.skip(p) =~= l + seq!['\n'] + r,
        marker_row(l),
    ensures
        strip_markers_from(s, p, true) =~= strip_markers_from(s, p + l.len() + 1, true),
{
    lemma_marker_attempt_hit(s, p, l, r);
    lemma_line_chars(s, p, l, r);
}

/// The pass copies a doc-marker row or an ordinary row unchanged.
proof fn lemma_strip_markers_keep_row(s: Seq<char>, p: int, l: Seq<char>, r: Seq<char>)
    requires
        0 <= p <= s.len(),
        s.skip(p) =~= l + seq!['\n'] + r,
        doc_row(l) || plain_row(l),
    ensures
        strip_markers_from(s, p, true) =~= l + seq!['\n'] + strip_markers_from(
            s,
            p + l.len() + 1,
            true,
        ),
{
    lemma_marker_attempt_miss(s, p, l, r);
    lemma_line_chars(s, p, l, r);
    if doc_row(l) {
        assert(trim_start_spec(l).len() >= 11);
    }
    lemma_trim_is_skip(l);
    assert(l.len() > 0);
    assert(s[p] == l[0]);
    assert(l[0] != '\n');
    assert forall|k: int| p + 1 <= k < p + l.len() implies s[k] != '\n' by {
        assert(s[k] == l[k - p]);
    }
    assert(s[p + l.len() as int] == '\n');
    lemma_copy_plain_markers(s, p + 1, p + l.len());
    assert(s.subrange(p + 1, p + l.len() + 1) =~= l.skip(1) + seq!['\n']) by {
        assert(forall|k: int|
            0 <= k < l.len() ==> #[trigger] s.subrange(p + 1, p + l.len() + 1)[k] == s[p + 1
                + k]);
        assert(forall|k: int| 0 <= k < l.len() - 1 ==> #[trigger] s[p + 1 + k] == l[1 + k]);
    }
    assert(seq![s[p]] + (l.skip(1) + seq!['\n'] + strip_markers_from(s, p + l.len() + 1, true))
        =~= l + seq!['\n'] + strip_markers_from(s, p + l.len() + 1, true));
}

/// The rows that outlive the marker-removal pass.
pub open spec fn keep_rows(ls: Seq<Seq<char>>) -> Seq<Seq<char>>
    decreases ls.len(),
{
    if ls.len() == 0 {
        Seq::empty()
    } else if marker_row(ls[0]) {
        keep_rows(ls.drop_first())
    } else {
        seq![ls[0]] + keep_rows(ls.drop_first())
    }
}

/// Pass two on a text of classed rows: exactly the marker rows disappear.
pub proof fn lemma_strip_markers_rows(s: Seq<char>, p: int, ls: Seq<Seq<char>>)
    requires
        0 <= p <= s.len(),
        s.skip(p) =~= join_nl(ls),
        forall|k: int|
            0 <= k < ls.len() ==> marker_row(#[trigger] ls[k]) || doc_row(ls[k]) || plain_row(
                ls[k],
            ),
    ensures
        strip_markers_from(s, p, true) =~= join_nl(keep_rows(ls)),
    decreases ls.len(),
{
    if ls.len() == 0 {
        assert(s.skip(p) =~= Seq::<char>::empty());
        assert(p == s.len());
    } else {
        let l0 = ls[0];
        let rest = ls.drop_first();
        let r = join_nl(rest);
        assert(s.skip(p) =~= l0 + seq!['\n'] + r);
        let p2 = p + l0.len() + 1;
        assert(p2 <= s.len());
        assert(s.skip(p2) =~= r) by {
            assert(forall|k: int|
                0 <= k < r.len() ==> #[trigger] s.skip(p)[l0.len() + 1 + k] == r[k]);
            assert(forall|k: int| 0 <= k < r.len() ==> #[trigger] s.skip(p2)[k] == s[p2 + k]);
            assert(forall|k: int|
                0 <= k < r.len() ==> #[trigger] s[p2 + k] == s.skip(p)[l0.len() + 1 + k]);
        }
        assert(forall|k: int| 0 <= k < rest.len() ==> rest[k] == ls[k + 1]);
        lemma_strip_markers_rows(s, p2, rest);
        if marker_row(l0) {
            lemma_strip_markers_marker_row(s, p, l0, r);
        } else {
            lemma_strip_markers_keep_row(s, p, l0, r);
            assert(join_nl(seq![l0] + keep_rows(rest)) =~= l0 + seq!['\n'] + join_nl(
                keep_rows(rest),
            )) by {
                assert((seq![l0] + keep_rows(rest)).drop_first() =~= keep_rows(rest));
            }
        }
    }
}

/// The doc-marker matcher fires at a doc row and consumes exactly the
/// indentation and the marker prefix.
proof fn lemma_tempdoc_attempt_hit(s: Seq<char>, p: int, l: Seq<char>, r: Seq<char>)
    requires
        0 <= p <= s.len(),
        s.skip(p) =~= l + seq!['\n'] + r,
        doc_row(l),
    ensures
        tempdoc_attempt_at(s, p) == Option::Some(p + ws_prefix_len(l) + 11),
{
    let t = trim_start_spec(l);
    lemma_line_chars(s, p, l, r);
    lemma_trim_is_skip(l);
    let wp = ws_prefix_len(l) as int;
    assert(t.len() >= 11);
    lemma_head_ws_run(s, p, l, r);
    let p1 = p + wp;
    assert(forall|k: int| 0 <= k < t.len() ==> #[trigger] t[k] == l[wp + k]) by {
        assert(forall|k: int| 0 <= k < t.len() ==> #[trigger] l.skip(wp)[k] == l[wp + k]);
    }
    assert(s.subrange(p1, p1 + 11) =~= tempdoc_line_lit()) by {
        assert(forall|k: int|
            0 <= k < 11 ==> #[trigger] s.subrange(p1, p1 + 11)[k] == s[p1 + k]);
        assert(forall|k: int| 0 <= k < 11 ==> #[trigger] s[p1 + k] == l[wp + k]);
        assert(forall|k: int|
            0 <= k < 11 ==> #[trigger] t.subrange(0, 11)[k] == t[k]);
        assert(t.subrange(0, 11) == tempdoc_line_lit());
    }
    assert(lit_at(s, p1, tempdoc_line_lit()));
}

/// The doc-marker matcher stays quiet at the start of an ordinary row.
proof fn lemma_tempdoc_attempt_miss(s: Seq<char>, p: int, l: Seq<char>, r: Seq<char>)
    requires
        0 <= p <= s.len(),
        s.skip(p) =~= l + seq!['\n'] + r,
        plain_row(l),
    ensures
        tempdoc_attempt_at(s, p) is None,
{
    lemma_line_chars(s, p, l, r);
    lemma_trim_is_skip(l);
    lemma_head_ws_run(s, p, l, r);
    let wp = ws_prefix_len(l) as int;
    if tempdoc_attempt_at(s, p) is Some {
        assert(lit_at(s, p + wp, tempdoc_line_lit()));
        lemma_window_in_line(s, p, l, r, wp, tempdoc_line_lit());
        assert(is_substring_of(l, tempdoc_line_lit()));
        assert(false);
    }
}

/// Inside a line, with the line-start flag down, pass three copies
/// characters through the closing line break.
proof fn lemma_copy_plain_docs(s: Seq<char>, p: int, m: int)
    requires
        0 <= p <= m < s.len(),
        forall|k: int| p <= k < m ==> s[k] != '\n',
        s[m] == '\n',
    ensures
        strip_docs_from(s, p, false) =~= s.subrange(p, m + 1) + strip_docs_from(s, m + 1, true),
    decreases m - p,
{
    if p < m {
        lemma_copy_plain_docs(s, p + 1, m);
        assert(s.subrange(p, m + 1) =~= seq![s[p]] + s.subrange(p + 1, m + 1));
    } else {
        assert(s.subrange(m, m + 1) =~= seq![s[m]]);
    }
}

/// Pass three turns a doc row into its payload line.
proof fn lemma_strip_docs_doc_row(s: Seq<char>, p: int, l: Seq<char>, r: Seq<char>)
    requires
        0 <= p <= s.len(),
        s.skip(p) =~= l + seq!['\n'] + r,
        doc_row(l),
    ensures
        strip_docs_from(s, p, true) =~= l.skip(ws_prefix_len(l) as int + 11) + seq!['\n']
            + strip_docs_from(s, p + l.len() + 1, true),
{
    lemma_tempdoc_attempt_hit(s, p, l, r);
    lemma_line_chars(s, p, l, r);
    lemma_trim_is_skip(l);
    let wp = ws_prefix_len(l) as int;
    let e = p + wp + 11;
    assert(wp + 11 <= l.len());
    assert(s[e - 1] == l[wp + 10]);
    assert(forall|k: int| 0 <= k < trim_start_spec(l).len() ==> #[trigger] trim_start_spec(l)[k]
        == l[wp + k]) by {
        assert(forall|k: int|
            0 <= k < trim_start_spec(l).len() ==> #[trigger] l.skip(wp)[k] == l[wp + k]);
    }
    assert(trim_start_spec(l).subrange(0, 11) == tempdoc_line_lit());
    assert(trim_start_spec(l).subrange(0, 11)[10] == trim_start_spec(l)[10]);
    assert(l[wp + 10] == 'C');
    assert(s[e - 1] != '\n');
    let m = p + l.len() as int;
    assert forall|k: int| e <= k < m implies s[k] != '\n' by {
        assert(s[k] == l[k - p]);
    }
    assert(s[m] == '\n');
    lemma_copy_plain_docs(s, e, m);
    assert(strip_docs_from(s, p, true) == strip_docs_from(s, e, false));
    assert(s.subrange(e, m + 1) =~= l.skip(wp + 11) + seq!['\n']) by {
        assert(forall|k: int|
            0 <= k < m + 1 - e ==> #[trigger] s.subrange(e, m + 1)[k] == s[e + k]);
        assert(forall|k: int|
            0 <= k < l.len() - wp - 11 ==> #[trigger] s[e + k] == l[wp + 11 + k]);
    }
}

/// Pass three copies an ordinary row unchanged.
proof fn lemma_strip_docs_plain_row(s: Seq<char>, p: int, l: Seq<char>, r: Seq<char>)
    requires
        0 <= p <= s.len(),
        s.skip(p) =~= l + seq!['\n'] + r,
        plain_row(l),
    ensures
        strip_docs_from(s, p, true) =~= l + seq!['\n'] + strip_docs_from(
            s,
            p + l.len() + 1,
            true,
        ),
{
    lemma_tempdoc_attempt_miss(s, p, l, r);
    lemma_line_chars(s, p, l, r);
    lemma_trim_is_skip(l);
    assert(l.len() > 0);
    assert(s[p] == l[0]);
    assert(l[0] != '\n');
    assert forall|k: int| p + 1 <= k < p + l.len() implies s[k] != '\n' by {
        assert(s[k] == l[k - p]);
    }
    assert(s[p + l.len() as int] == '\n');
    lemma_copy_plain_docs(s, p + 1, p + l.len());
    assert(s.subrange(p + 1, p + l.len() + 1) =~= l.skip(1) + seq!['\n']) by {
        assert(forall|k: int|
            0 <= k < l.len() ==> #[trigger] s.subrange(p + 1, p + l.len() + 1)[k] == s[p + 1
                + k]);
        assert(forall|k: int| 0 <= k < l.len() - 1 ==> #[trigger] s[p + 1 + k] == l[1 + k]);
    }
    assert(seq![s[p]] + (l.skip(1) + seq!['\n'] + strip_docs_from(s, p + l.len() + 1, true))
        =~= l + seq!['\n'] + strip_docs_from(s, p + l.len() + 1, true));
}

/// What a row reads as once its doc-comment marker is gone.
pub open spec fn row_restored(l: Seq<char>) -> Seq<char> {
    if doc_row(l) {
        l.skip(ws_prefix_len(l) as int + 11)
    } else {
        l
    }
}

/// The rows after the doc-marker pass, in order.
pub open spec fn docless_rows(ls: Seq<Seq<char>>) -> Seq<Seq<char>>
    decreases ls.len(),
{
    if ls.len() == 0 {
        Seq::empty()
    } else {
        seq![row_restored(ls[0])] + docless_rows(ls.drop_first())
    }
}

/// Pass three on a text of surviving rows: every doc row becomes its
/// payload, everything else stays.
pub proof fn lemma_strip_docs_rows(s: Seq<char>, p: int, ls: Seq<Seq<char>>)
    requires
        0 <= p <= s.len(),
        s.skip(p) =~= join_nl(ls),
        forall|k: int| 0 <= k < ls.len() ==> doc_row(#[trigger] ls[k]) || plain_row(ls[k]),
    ensures
        strip_docs_from(s, p, true) =~= join_nl(docless_rows(ls)),
    decreases ls.len(),
{
    if ls.len() == 0 {
        assert(s.skip(p) =~= Seq::<char>::empty());
        assert(p == s.len());
    } else {
        let l0 = ls[0];
        let rest = ls.drop_first();
        let r = join_nl(rest);
        assert(s.skip(p) =~= l0 + seq!['\n'] + r);
        let p2 = p + l0.len() + 1;
        assert(p2 <= s.len());
        assert(s.skip(p2) =~= r) by {
            assert(forall|k: int|
                0 <= k < r.len() ==> #[trigger] s.skip(p)[l0.len() + 1 + k] == r[k]);
            assert(forall|k: int| 0 <= k < r.len() ==> #[trigger] s.skip(p2)[k] == s[p2 + k]);
            assert(forall|k: int|
                0 <= k < r.len() ==> #[trigger] s[p2 + k] == s.skip(p)[l0.len() + 1 + k]);
        }
        assert(forall|k: int| 0 <= k < rest.len() ==> rest[k] == ls[k + 1]);
        lemma_strip_docs_rows(s, p2, rest);
        if doc_row(l0) {
            lemma_strip_docs_doc_row(s, p, l0, r);
        } else {
            lemma_strip_docs_plain_row(s, p, l0, r);
        }
        assert(join_nl(seq![row_restored(l0)] + docless_rows(rest)) =~= row_restored(l0)
            + seq!['\n'] + join_nl(docless_rows(rest))) by {
            assert((seq![row_restored(l0)] + docless_rows(rest)).drop_first() =~= docless_rows(
                rest,
            ));
        }
    }
}

/// No row of the pipeline's shape holds the anchor at which the
/// attribute-form matcher could fire.
proof fn lemma_row_no_anchor(l: Seq<char>)
    requires
        marker_row(l) || doc_row(l) || plain_row(l),
    ensures
        !is_substring_of(l, quote_tempdoc_lit()),
{
    if is_substring_of(l, quote_tempdoc_lit()) {
        let x = choose|x: int|
            0 <= x && x + quote_tempdoc_lit().len() <= l.len() && #[trigger] l.subrange(
                x,
                x + quote_tempdoc_lit().len() as int,
            ) == quote_tempdoc_lit();
        assert(l.subrange(x, x + 9)[0] == l[x]);
        assert(l[x] == '"');
        lemma_trim_is_skip(l);
        crate::preserver::restore::lemma_ws_prefix_props(l);
        let wp = ws_prefix_len(l) as int;
        let t = trim_start_spec(l);
        assert(forall|k: int| 0 <= k < t.len() ==> #[trigger] t[k] == l[wp + k]) by {
            assert(forall|k: int| 0 <= k < t.len() ==> #[trigger] l.skip(wp)[k] == l[wp + k]);
        }
        if x < wp {
            assert(is_ws_char(l[x]));
            assert(false);
        } else if marker_row(l) {
            assert(l[x] == t[x - wp]);
            assert(t[x - wp] != '"');
            assert(false);
        } else if doc_row(l) {
            if x < wp + 11 {
                assert(l[x] == t[x - wp]);
                assert(t.subrange(0, 11) == tempdoc_line_lit());
                assert(t.subrange(0, 11)[x - wp] == t[x - wp]);
                assert(t[x - wp] != '"');
                assert(false);
            } else {
                let pay = l.skip(wp + 11);
                assert(pay.subrange(x - wp - 11, x - wp - 11 + 9) =~= l.subrange(x, x + 9));
                assert(is_substring_of(pay, quote_tempdoc_lit()));
                assert(false);
            }
        } else {
            assert(false);
        }
    }
}

/// Rows that survive the marker pass keep their class.
proof fn lemma_keep_rows_classes(ls: Seq<Seq<char>>)
    requires
        forall|k: int|
            0 <= k < ls.len() ==> marker_row(#[trigger] ls[k]) || doc_row(ls[k]) || plain_row(
                ls[k],
            ),
    ensures
        forall|k: int|
            0 <= k < keep_rows(ls).len() ==> doc_row(#[trigger] keep_rows(ls)[k]) || plain_row(
                keep_rows(ls)[k],
            ),
    decreases ls.len(),
{
    if ls.len() > 0 {
        let rest = ls.drop_first();
        assert(forall|k: int| 0 <= k < rest.len() ==> rest[k] == ls[k + 1]);
        lemma_keep_rows_classes(rest);
        if !marker_row(ls[0]) {
            assert(forall|k: int|
                0 <= k < keep_rows(rest).len() ==> #[trigger] (seq![ls[0]] + keep_rows(rest))[k
                    + 1] == keep_rows(rest)[k]);
        }
    }
}

/// After both passes every remaining row is clear of the marker vocabulary.
proof fn lemma_docless_rows_clear(ls: Seq<Seq<char>>)
    requires
        forall|k: int| 0 <= k < ls.len() ==> doc_row(#[trigger] ls[k]) || plain_row(ls[k]),
    ensures
        forall|k: int|
            0 <= k < docless_rows(ls).len() ==> clear_of_markers(
                #[trigger] docless_rows(ls)[k],
            ) && row_no_nl(docless_rows(ls)[k]),
    decreases ls.len(),
{
    if ls.len() > 0 {
        let rest = ls.drop_first();
        assert(forall|k: int| 0 <= k < rest.len() ==> rest[k] == ls[k + 1]);
        lemma_docless_rows_clear(rest);
        let h = row_restored(ls[0]);
        assert(clear_of_markers(h) && row_no_nl(h)) by {
            if doc_row(ls[0]) {
                let l = ls[0];
                lemma_trim_is_skip(l);
                let pay = l.skip(ws_prefix_len(l) as int + 11);
                assert(forall|k: int|
                    0 <= k < pay.len() ==> #[trigger] pay[k] == l[ws_prefix_len(l) + 11 + k]);
            }
        }
        assert(forall|k: int|
            0 <= k < docless_rows(rest).len() ==> #[trigger] (seq![h] + docless_rows(rest))[k
                + 1] == docless_rows(rest)[k]);
        assert((seq![h] + docless_rows(rest))[0] == h);
    }
}

/// On a text of the pipeline's row shapes the three passes act row by row:
/// pass one changes nothing, pass two removes the dummy-declaration rows,
/// pass three strips the doc-marker prefixes.
pub proof fn lemma_restoration_on_rows(ls: Seq<Seq<char>>)
    requires
        forall|k: int|
            0 <= k < ls.len() ==> marker_row(#[trigger] ls[k]) || doc_row(ls[k]) || plain_row(
                ls[k],
            ),
    ensures
        restore_spec(join_nl(ls)) =~= join_nl(docless_rows(keep_rows(ls))),
{
    let s = join_nl(ls);
    // pass one leaves the text alone: no anchor occurs anywhere
    assert(!is_substring_of(s, quote_tempdoc_lit())) by {
        if is_substring_of(s, quote_tempdoc_lit()) {
            lemma_join_window(ls, quote_tempdoc_lit());
            let k = choose|k: int|
                0 <= k < ls.len() && is_substring_of(#[trigger] ls[k], quote_tempdoc_lit());
            lemma_row_no_anchor(ls[k]);
        }
    }
    lemma_restore_docs_identity(s);
    assert(restore_docs(s) == s);
    // pass two removes exactly the dummy-declaration rows
    assert(s.skip(0) =~= s);
    lemma_strip_markers_rows(s, 0, ls);
    let kept = keep_rows(ls);
    let t2 = join_nl(kept);
    assert(strip_markers(s) == t2);
    lemma_keep_rows_classes(ls);
    // pass three strips the doc-comment marker prefixes
    assert(t2.skip(0) =~= t2);
    lemma_strip_docs_rows(t2, 0, kept);
}

/// Law (marker removal): on a rendered text made of the pipeline's row
/// shapes — dummy-declaration lines, doc-comment marker lines with clean
/// payloads, and ordinary lines clear of the marker vocabulary — the
/// restored text holds no occurrence of the dummy-declaration token
/// sequence and none of the doc-comment marker prefix.
pub proof fn lemma_marker_removal(ls: Seq<Seq<char>>)
    requires
        forall|k: int|
            0 <= k < ls.len() ==> marker_row(#[trigger] ls[k]) || doc_row(ls[k]) || plain_row(
                ls[k],
            ),
    ensures
        !is_substring_of(restore_spec(join_nl(ls)), dummy_decl_text()),
        !is_substring_of(restore_spec(join_nl(ls)), tempdoc_line_lit()),
{
    let s = join_nl(ls);
    lemma_restoration_on_rows(ls);
    let kept = keep_rows(ls);
    lemma_keep_rows_classes(ls);
    let fin = docless_rows(kept);
    assert(restore_spec(s) == join_nl(fin));
    lemma_docless_rows_clear(kept);
    if is_substring_of(join_nl(fin), dummy_decl_text()) {
        lemma_join_window(fin, dummy_decl_text());
        let k = choose|k: int|
            0 <= k < fin.len() && is_substring_of(#[trigger] fin[k], dummy_decl_text());
        assert(clear_of_markers(fin[k]));
        assert(false);
    }
    if is_substring_of(join_nl(fin), tempdoc_line_lit()) {
        lemma_join_window(fin, tempdoc_line_lit());
        let k = choose|k: int|
            0 <= k < fin.len() && is_substring_of(#[trigger] fin[k], tempdoc_line_lit());
        assert(clear_of_markers(fin[k]));
        assert(false);
    }
}

} // verus!
