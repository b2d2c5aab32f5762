//! The restoration transform: the exact reverse of the placeholder encoding
//! over rendered text, in three passes.
//!
//! Pass one rewrites every attribute-form marker
//! `#[doc = "TEMP_DOC..."]` (the form the renderer must use inside token
//! streams, where a doc comment is not a legal token) back to a bare line
//! holding the carried payload; the matcher tolerates whitespace between the
//! attribute's tokens, and skips the escape characters the renderer put in
//! front of the payload. Pass two deletes every dummy declaration
//! `type temp_marker = ();` standing at a line start, with the whitespace
//! run before it and its line break. Pass three strips the doc-comment
//! marker prefix `///TEMP_DOC` at a line start, leaving the payload. The
//! order matters: a payload released by pass one may itself contain the
//! dummy-declaration text.

use crate::text::chars_to_string;
use crate::text::is_ws;
use crate::text::is_ws_char;
use crate::text::lemma_ws_prefix_is;
use crate::text::push_vec;
use crate::text::str_to_chars;
use crate::text::subvec;
use crate::text::ws_prefix_len;
use vstd::prelude::*;

verus! {

/// The first index at or after `p` whose character is not whitespace, or the
/// end of `s`.
pub open spec fn wsrun(s: Seq<char>, p: int) -> int {
    if 0 <= p <= s.len() {
        p + ws_prefix_len(s.skip(p))
    } else {
        p
    }
}

pub proof fn lemma_ws_prefix_props(s: Seq<char>)
    ensures
        ws_prefix_len(s) <= s.len(),
        forall|k: int| 0 <= k < ws_prefix_len(s) ==> is_ws_char(s[k]),
        ws_prefix_len(s) < s.len() ==> !is_ws_char(s[ws_prefix_len(s) as int]),
    decreases s.len(),
{
    if s.len() > 0 && is_ws_char(s[0]) {
        let d = s.drop_first();
        lemma_ws_prefix_props(d);
        assert(forall|k: int| 1 <= k < ws_prefix_len(s) ==> s[k] == d[k - 1]);
        if ws_prefix_len(s) < s.len() {
            assert(s[ws_prefix_len(s) as int] == d[ws_prefix_len(s) as int - 1]);
        }
    }
}

/// A character the matcher skips between the payload marker and the payload:
/// the escapes the renderer writes for whitespace inside a string literal.
pub open spec fn is_stn_char(c: char) -> bool {
    c == '\\' || c == 's' || c == 't' || c == 'n'
}

pub open spec fn stn_prefix_len(s: Seq<char>) -> nat
    decreases s.len(),
{
    if s.len() > 0 && is_stn_char(s[0]) {
        1 + stn_prefix_len(s.drop_first())
    } else {
        0
    }
}

/// The first index at or after `p` whose character is not a skipped escape
/// character.
pub open spec fn stnrun(s: Seq<char>, p: int) -> int {
    if 0 <= p <= s.len() {
        p + stn_prefix_len(s.skip(p))
    } else {
        p
    }
}

proof fn lemma_stn_prefix_props(s: Seq<char>)
    ensures
        stn_prefix_len(s) <= s.len(),
        forall|k: int| 0 <= k < stn_prefix_len(s) ==> is_stn_char(s[k]),
        stn_prefix_len(s) < s.len() ==> !is_stn_char(s[stn_prefix_len(s) as int]),
    decreases s.len(),
{
    if s.len() > 0 && is_stn_char(s[0]) {
        let d = s.drop_first();
        lemma_stn_prefix_props(d);
        assert(forall|k: int| 1 <= k < stn_prefix_len(s) ==> s[k] == d[k - 1]);
        if stn_prefix_len(s) < s.len() {
            assert(s[stn_prefix_len(s) as int] == d[stn_prefix_len(s) as int - 1]);
        }
    }
}

pub proof fn lemma_stn_prefix_is(s: Seq<char>, i: int)
    requires
        0 <= i <= s.len(),
        forall|k: int| 0 <= k < i ==> is_stn_char(s[k]),
        i < s.len() ==> !is_stn_char(s[i]),
    ensures
        stn_prefix_len(s) == i,
    decreases i,
{
    if i > 0 {
        let d = s.drop_first();
        assert(forall|k: int| 0 <= k < i - 1 ==> d[k] == s[k + 1]);
        if i - 1 < d.len() {
            assert(d[i - 1] == s[i]);
        }
        lemma_stn_prefix_is(d, i - 1);
    }
}

/// A space or a tab: what may trail the dummy declaration on its line.
pub open spec fn is_sptab_char(c: char) -> bool {
    c == ' ' || c == '\t'
}

pub open spec fn sptab_prefix_len(s: Seq<char>) -> nat
    decreases s.len(),
{
    if s.len() > 0 && is_sptab_char(s[0]) {
        1 + sptab_prefix_len(s.drop_first())
    } else {
        0
    }
}

/// The first index at or after `p` whose character is neither a space nor a
/// tab.
pub open spec fn sptabrun(s: Seq<char>, p: int) -> int {
    if 0 <= p <= s.len() {
        p + sptab_prefix_len(s.skip(p))
    } else {
        p
    }
}

proof fn lemma_sptab_prefix_props(s: Seq<char>)
    ensures
        sptab_prefix_len(s) <= s.len(),
        forall|k: int| 0 <= k < sptab_prefix_len(s) ==> is_sptab_char(s[k]),
        sptab_prefix_len(s) < s.len() ==> !is_sptab_char(s[sptab_prefix_len(s) as int]),
    decreases s.len(),
{
    if s.len() > 0 && is_sptab_char(s[0]) {
        let d = s.drop_first();
        lemma_sptab_prefix_props(d);
        assert(forall|k: int| 1 <= k < sptab_prefix_len(s) ==> s[k] == d[k - 1]);
        if sptab_prefix_len(s) < s.len() {
            assert(s[sptab_prefix_len(s) as int] == d[sptab_prefix_len(s) as int - 1]);
        }
    }
}

pub proof fn lemma_sptab_prefix_is(s: Seq<char>, i: int)
    requires
        0 <= i <= s.len(),
        forall|k: int| 0 <= k < i ==> is_sptab_char(s[k]),
        i < s.len() ==> !is_sptab_char(s[i]),
    ensures
        sptab_prefix_len(s) == i,
    decreases i,
{
    if i > 0 {
        let d = s.drop_first();
        assert(forall|k: int| 0 <= k < i - 1 ==> d[k] == s[k + 1]);
        if i - 1 < d.len() {
            assert(d[i - 1] == s[i]);
        }
        lemma_sptab_prefix_is(d, i - 1);
    }
}

/// The literal `w` stands in `s` at position `p`.
pub open spec fn lit_at(s: Seq<char>, p: int, w: Seq<char>) -> bool {
    0 <= p && p + w.len() <= s.len() && s.subrange(p, p + w.len() as int) == w
}

/// The closing quote of the payload at `q`: a quote followed by optional
/// whitespace and the attribute's closing bracket.
pub open spec fn closes_at(s: Seq<char>, q: int) -> bool {
    let r = wsrun(s, q + 1);
    r < s.len() && s[r] == ']'
}

/// The index of the first character from `q` on that closes the payload: the
/// payload may not contain a line break, and a quote inside it counts as
/// content unless the attribute closes right after it.
pub open spec fn payload_scan(s: Seq<char>, q: int) -> Option<int>
    decreases s.len() - q,
{
    if !(0 <= q < s.len()) {
        Option::None
    } else if s[q] == '\n' {
        Option::None
    } else if s[q] == '"' && closes_at(s, q) {
        Option::Some(q)
    } else {
        payload_scan(s, q + 1)
    }
}

pub proof fn lemma_payload_scan_range(s: Seq<char>, q: int)
    ensures
        match payload_scan(s, q) {
            Option::Some(x) => q <= x < s.len() && s[x] == '"' && closes_at(s, x),
            Option::None => true,
        },
    decreases s.len() - q,
{
    if 0 <= q < s.len() && s[q] != '\n' && !(s[q] == '"' && closes_at(s, q)) {
        lemma_payload_scan_range(s, q + 1);
    }
}

pub open spec fn doc_lit() -> Seq<char> {
    seq!['d', 'o', 'c']
}

pub open spec fn tempdoc_payload_lit() -> Seq<char> {
    seq!['T', 'E', 'M', 'P', '_', 'D', 'O', 'C']
}

pub open spec fn type_lit() -> Seq<char> {
    seq!['t', 'y', 'p', 'e']
}

pub open spec fn temp_marker_lit() -> Seq<char> {
    seq!['t', 'e', 'm', 'p', '_', 'm', 'a', 'r', 'k', 'e', 'r']
}

pub open spec fn unit_semi_lit() -> Seq<char> {
    seq!['(', ')', ';']
}

pub open spec fn tempdoc_line_lit() -> Seq<char> {
    seq!['/', '/', '/', 'T', 'E', 'M', 'P', '_', 'D', 'O', 'C']
}

/// The attribute-form marker starting at `p`, if the text matches one there:
/// the end of the match and the carried payload.
pub open spec fn doc_attempt_at(s: Seq<char>, p: int) -> Option<(int, Seq<char>)> {
    if !(0 <= p < s.len() && s[p] == '#') {
        Option::None
    } else {
        let p1 = wsrun(s, p + 1);
        if !(p1 < s.len() && s[p1] == '[') {
            Option::None
        } else {
            let p2 = wsrun(s, p1 + 1);
            if !lit_at(s, p2, doc_lit()) {
                Option::None
            } else {
                let p3 = wsrun(s, p2 + 3);
                if !(p3 < s.len() && s[p3] == '=') {
                    Option::None
                } else {
                    let p4 = wsrun(s, p3 + 1);
                    if !(p4 < s.len() && s[p4] == '"' && lit_at(s, p4 + 1, tempdoc_payload_lit())) {
                        Option::None
                    } else {
                        let p6 = stnrun(s, p4 + 9);
                        match payload_scan(s, p6) {
                            Option::Some(q) => Option::Some(
                                (wsrun(s, q + 1) + 1, s.subrange(p6, q)),
                            ),
                            Option::None => Option::None,
                        }
                    }
                }
            }
        }
    }
}

/// Pass one from position `p` on: every attribute-form marker becomes its
/// payload on a line of its own; everything else is copied.
pub open spec fn restore_docs_from(s: Seq<char>, p: int) -> Seq<char>
    decreases s.len() - p,
{
    if !(0 <= p < s.len()) {
        Seq::empty()
    } else {
        match doc_attempt_at(s, p) {
            Option::Some((e, payload)) => {
                if p < e <= s.len() {
                    seq!['\n'] + payload + seq!['\n'] + restore_docs_from(s, e)
                } else {
                    seq![s[p]] + restore_docs_from(s, p + 1)
                }
            },
            Option::None => seq![s[p]] + restore_docs_from(s, p + 1),
        }
    }
}

pub open spec fn restore_docs(s: Seq<char>) -> Seq<char> {
    restore_docs_from(s, 0)
}

/// The dummy-declaration line starting at a line-start position `p`, if the
/// text matches one there: the end of the match (past the optional trailing
/// line break).
pub open spec fn marker_attempt_at(s: Seq<char>, p: int) -> Option<int> {
    if !(0 <= p <= s.len()) {
        Option::None
    } else {
        let p1 = wsrun(s, p);
        if !lit_at(s, p1, type_lit()) {
            Option::None
        } else {
            let p2 = wsrun(s, p1 + 4);
            if !lit_at(s, p2, temp_marker_lit()) {
                Option::None
            } else {
                let p3 = wsrun(s, p2 + 11);
                if !(p3 < s.len() && s[p3] == '=') {
                    Option::None
                } else {
                    let p4 = wsrun(s, p3 + 1);
                    if !lit_at(s, p4, unit_semi_lit()) {
                        Option::None
                    } else {
                        let p5 = sptabrun(s, p4 + 3);
                        if p5 < s.len() && s[p5] == '\n' {
                            Option::Some(p5 + 1)
                        } else {
                            Option::Some(p5)
                        }
                    }
                }
            }
        }
    }
}

/// Pass two from position `p` on, where `at_ls` says whether `p` is a line
/// start of the original text: every dummy-declaration line is deleted.
pub open spec fn strip_markers_from(s: Seq<char>, p: int, at_ls: bool) -> Seq<char>
    decreases s.len() - p,
{
    if !(0 <= p < s.len()) {
        Seq::empty()
    } else if at_ls && (match marker_attempt_at(s, p) {
        Option::Some(e) => p < e <= s.len(),
        Option::None => false,
    }) {
        let e = marker_attempt_at(s, p)->Some_0;
        strip_markers_from(s, e, s[e - 1] == '\n')
    } else {
        seq![s[p]] + strip_markers_from(s, p + 1, s[p] == '\n')
    }
}

pub open spec fn strip_markers(s: Seq<char>) -> Seq<char> {
    strip_markers_from(s, 0, true)
}

/// The doc-comment marker prefix standing at the line-start position `p`
/// (after optional whitespace), if it does: the end of the prefix.
pub open spec fn tempdoc_attempt_at(s: Seq<char>, p: int) -> Option<int> {
    if !(0 <= p <= s.len()) {
        Option::None
    } else {
        let p1 = wsrun(s, p);
        if lit_at(s, p1, tempdoc_line_lit()) {
            Option::Some(p1 + 11)
        } else {
            Option::None
        }
    }
}

/// Pass three from position `p` on: every doc-comment marker prefix at a
/// line start is deleted, leaving its payload as the line.
pub open spec fn strip_docs_from(s: Seq<char>, p: int, at_ls: bool) -> Seq<char>
    decreases s.len() - p,
{
    if !(0 <= p < s.len()) {
        Seq::empty()
    } else if at_ls && (match tempdoc_attempt_at(s, p) {
        Option::Some(e) => p < e <= s.len(),
        Option::None => false,
    }) {
        let e = tempdoc_attempt_at(s, p)->Some_0;
        strip_docs_from(s, e, s[e - 1] == '\n')
    } else {
        seq![s[p]] + strip_docs_from(s, p + 1, s[p] == '\n')
    }
}

pub open spec fn strip_docs(s: Seq<char>) -> Seq<char> {
    strip_docs_from(s, 0, true)
}

/// The whole restoration over a rendered text: attribute-form markers back
/// to payload lines, then dummy declarations out, then doc-comment marker
/// prefixes out.
pub open spec fn restore_spec(s: Seq<char>) -> Seq<char> {
    strip_docs(strip_markers(restore_docs(s)))
}

/// Strips the whole placeholder encoding from a rendered text; the result is
/// exactly what `restore_spec` says.
pub fn restore_placeholders(code: &str) -> (r: String)
    ensures
        r@ == restore_spec(code@),
{
    let chars = str_to_chars(code);
    let a = restore_docs_chars(&chars);
    let b = strip_markers_chars(&a);
    let c = strip_docs_chars(&b);
    chars_to_string(&c)
}

/// The first non-whitespace index at or after `p`, as `wsrun` says.
fn ws_run_at(v: &Vec<char>, p: usize) -> (r: usize)
    requires
        p <= v@.len(),
    ensures
        r as int == wsrun(v@, p as int),
        p <= r <= v@.len(),
{
    let n = v.len();
    let mut q = p;
    while q < n && is_ws(v[q])
        invariant
            p <= q <= n,
            n == v@.len(),
            forall|k: int| p <= k < q ==> is_ws_char(v@[k]),
        decreases n - q,
    {
        q = q + 1;
    }
    proof {
        let tail = v@.skip(p as int);
        assert(forall|k: int| 0 <= k < q - p ==> tail[k] == v@[k + p]);
        if q < n {
            assert(tail[q - p] == v@[q as int]);
        }
        lemma_ws_prefix_is(tail, q - p);
    }
    q
}

/// Whether `c` is a skipped escape character, as `is_stn_char` says.
fn is_stn(c: char) -> (b: bool)
    ensures
        b == is_stn_char(c),
{
    c == '\\' || c == 's' || c == 't' || c == 'n'
}

/// Whether `c` is a space or tab, as `is_sptab_char` says.
fn is_sptab(c: char) -> (b: bool)
    ensures
        b == is_sptab_char(c),
{
    c == ' ' || c == '\t'
}

/// The first index at or after `p` that is no skipped escape character.
fn stn_run_at(v: &Vec<char>, p: usize) -> (r: usize)
    requires
        p <= v@.len(),
    ensures
        r as int == stnrun(v@, p as int),
        p <= r <= v@.len(),
{
    let n = v.len();
    let mut q = p;
    while q < n && is_stn(v[q])
        invariant
            p <= q <= n,
            n == v@.len(),
            forall|k: int| p <= k < q ==> is_stn_char(v@[k]),
        decreases n - q,
    {
        q = q + 1;
    }
    proof {
        let tail = v@.skip(p as int);
        assert(forall|k: int| 0 <= k < q - p ==> tail[k] == v@[k + p]);
        if q < n {
            assert(tail[q - p] == v@[q as int]);
        }
        lemma_stn_prefix_is(tail, q - p);
    }
    q
}

/// The first index at or after `p` that is neither space nor tab.
fn sptab_run_at(v: &Vec<char>, p: usize) -> (r: usize)
    requires
        p <= v@.len(),
    ensures
        r as int == sptabrun(v@, p as int),
        p <= r <= v@.len(),
{
    let n = v.len();
    let mut q = p;
    while q < n && is_sptab(v[q])
        invariant
            p <= q <= n,
            n == v@.len(),
            forall|k: int| p <= k < q ==> is_sptab_char(v@[k]),
        decreases n - q,
    {
        q = q + 1;
    }
    proof {
        let tail = v@.skip(p as int);
        assert(forall|k: int| 0 <= k < q - p ==> tail[k] == v@[k + p]);
        if q < n {
            assert(tail[q - p] == v@[q as int]);
        }
        lemma_sptab_prefix_is(tail, q - p);
    }
    q
}

/// Whether the literal `w` stands in `v` at position `p`.
fn lit_at_exec(v: &Vec<char>, p: usize, w: &str) -> (b: bool)
    requires
        p <= v@.len(),
    ensures
        b == lit_at(v@, p as int, w@),
{
    let m = w.unicode_len();
    let n = v.len();
    if m > n - p {
        proof {
            assert(!lit_at(v@, p as int, w@));
        }
        return false;
    }
    let mut x: usize = 0;
    while x < m
        invariant
            0 <= x <= m,
            m == w@.len(),
            p + m <= n,
            n == v@.len(),
            forall|k: int| 0 <= k < x ==> v@[p + k] == w@[k],
        decreases m - x,
    {
        let wc = w.get_char(x);
        if v[p + x] != wc {
            proof {
                if lit_at(v@, p as int, w@) {
                    assert(v@.subrange(p as int, p + m as int)[x as int] == v@[p + x as int]);
                    assert(false);
                }
            }
            return false;
        }
        x = x + 1;
    }
    proof {
        assert(v@.subrange(p as int, p + m as int) =~= w@);
    }
    true
}

/// The closing quote of the payload starting at `q0`, as `payload_scan`
/// says.
fn payload_scan_exec(v: &Vec<char>, q0: usize) -> (r: Option<usize>)
    requires
        q0 <= v@.len(),
    ensures
        match r {
            Option::Some(x) => payload_scan(v@, q0 as int) == Option::Some(x as int) && q0 <= x
                < v@.len(),
            Option::None => payload_scan(v@, q0 as int) is None,
        },
{
    let n = v.len();
    let mut q = q0;
    while q < n
        invariant
            q0 <= q <= n,
            n == v@.len(),
            payload_scan(v@, q0 as int) == payload_scan(v@, q as int),
        decreases n - q,
    {
        let c = v[q];
        if c == '\n' {
            proof {
                assert(payload_scan(v@, q as int) is None);
            }
            return None;
        }
        if c == '"' {
            let r1 = ws_run_at(v, q + 1);
            if r1 < n && v[r1] == ']' {
                proof {
                    assert(closes_at(v@, q as int));
                    assert(payload_scan(v@, q as int) == Option::Some(q as int));
                }
                return Some(q);
            }
            proof {
                assert(!closes_at(v@, q as int));
            }
        }
        proof {
            assert(payload_scan(v@, q as int) == payload_scan(v@, q as int + 1));
        }
        q = q + 1;
    }
    proof {
        assert(payload_scan(v@, q as int) is None);
    }
    None
}

/// The attribute-form marker at `p`, as `doc_attempt_at` says.
fn doc_attempt_exec(v: &Vec<char>, p: usize) -> (r: Option<(usize, Vec<char>)>)
    requires
        p < v@.len(),
    ensures
        match r {
            Option::Some(pair) => doc_attempt_at(v@, p as int) == Option::Some(
                (pair.0 as int, pair.1@),
            ) && p < pair.0 <= v@.len(),
            Option::None => doc_attempt_at(v@, p as int) is None,
        },
{
    let n = v.len();
    if v[p] != '#' {
        return None;
    }
    let p1 = ws_run_at(v, p + 1);
    if !(p1 < n && v[p1] == '[') {
        return None;
    }
    let p2 = ws_run_at(v, p1 + 1);
    let has_doc = lit_at_exec(v, p2, "doc");
    proof {
        reveal_strlit("doc");
        assert("doc"@ =~= doc_lit());
    }
    if !has_doc {
        return None;
    }
    let p3 = ws_run_at(v, p2 + 3);
    if !(p3 < n && v[p3] == '=') {
        return None;
    }
    let p4 = ws_run_at(v, p3 + 1);
    if !(p4 < n && v[p4] == '"') {
        return None;
    }
    let has_payload_mark = lit_at_exec(v, p4 + 1, "TEMP_DOC");
    proof {
        reveal_strlit("TEMP_DOC");
        assert("TEMP_DOC"@ =~= tempdoc_payload_lit());
    }
    if !has_payload_mark {
        return None;
    }
    let p6 = stn_run_at(v, p4 + 9);
    match payload_scan_exec(v, p6) {
        Some(q) => {
            proof {
                lemma_payload_scan_range(v@, p6 as int);
            }
            let payload = subvec(v, p6, q);
            let r1 = ws_run_at(v, q + 1);
            proof {
                assert(closes_at(v@, q as int));
                assert(r1 < n);
            }
            let e = r1 + 1;
            proof {
                assert(doc_attempt_at(v@, p as int) == Option::Some((e as int, payload@)));
            }
            Some((e, payload))
        },
        None => {
            proof {
                assert(doc_attempt_at(v@, p as int) is None);
            }
            None
        },
    }
}

/// The dummy-declaration line at the line start `p`, as `marker_attempt_at`
/// says.
fn marker_attempt_exec(v: &Vec<char>, p: usize) -> (r: Option<usize>)
    requires
        p < v@.len(),
    ensures
        match r {
            Option::Some(e) => marker_attempt_at(v@, p as int) == Option::Some(e as int) && p < e
                <= v@.len(),
            Option::None => marker_attempt_at(v@, p as int) is None,
        },
{
    let n = v.len();
    let p1 = ws_run_at(v, p);
    let has_type = lit_at_exec(v, p1, "type");
    proof {
        reveal_strlit("type");
        assert("type"@ =~= type_lit());
    }
    if !has_type {
        return None;
    }
    let p2 = ws_run_at(v, p1 + 4);
    let has_tm = lit_at_exec(v, p2, "temp_marker");
    proof {
        reveal_strlit("temp_marker");
        assert("temp_marker"@ =~= temp_marker_lit());
    }
    if !has_tm {
        return None;
    }
    let p3 = ws_run_at(v, p2 + 11);
    if !(p3 < n && v[p3] == '=') {
        return None;
    }
    let p4 = ws_run_at(v, p3 + 1);
    let has_unit = lit_at_exec(v, p4, "();");
    proof {
        reveal_strlit("();");
        assert("();"@ =~= unit_semi_lit());
    }
    if !has_unit {
        return None;
    }
    let p5 = sptab_run_at(v, p4 + 3);
    if p5 < n && v[p5] == '\n' {
        proof {
            assert(marker_attempt_at(v@, p as int) == Option::Some(p5 as int + 1));
        }
        Some(p5 + 1)
    } else {
        proof {
            assert(marker_attempt_at(v@, p as int) == Option::Some(p5 as int));
        }
        Some(p5)
    }
}

/// The doc-comment marker prefix at the line start `p`, as
/// `tempdoc_attempt_at` says.
fn tempdoc_attempt_exec(v: &Vec<char>, p: usize) -> (r: Option<usize>)
    requires
        p < v@.len(),
    ensures
        match r {
            Option::Some(e) => tempdoc_attempt_at(v@, p as int) == Option::Some(e as int) && p < e
                <= v@.len(),
            Option::None => tempdoc_attempt_at(v@, p as int) is None,
        },
{
    let n = v.len();
    let p1 = ws_run_at(v, p);
    let has_mark = lit_at_exec(v, p1, "///TEMP_DOC");
    proof {
        reveal_strlit("///TEMP_DOC");
        assert("///TEMP_DOC"@ =~= tempdoc_line_lit());
    }
    if has_mark {
        proof {
            assert(tempdoc_line_lit().len() == 11);
            assert(p1 + 11 <= v@.len());
            assert(tempdoc_attempt_at(v@, p as int) == Option::Some(p1 as int + 11));
        }
        Some(p1 + 11)
    } else {
        None
    }
}

/// Pass one over a text held as characters.
fn restore_docs_chars(v: &Vec<char>) -> (r: Vec<char>)
    ensures
        r@ =~= restore_docs(v@),
{
    let n = v.len();
    let mut out: Vec<char> = Vec::new();
    let mut p: usize = 0;
    while p < n
        invariant
            0 <= p <= n,
            n == v@.len(),
            restore_docs(v@) =~= out@ + restore_docs_from(v@, p as int),
        decreases n - p,
    {
        match doc_attempt_exec(v, p) {
            Some(pair) => {
                let (e, payload) = pair;
                out.push('\n');
                push_vec(&mut out, &payload);
                out.push('\n');
                proof {
                    assert(restore_docs_from(v@, p as int) =~= seq!['\n'] + payload@ + seq!['\n']
                        + restore_docs_from(v@, e as int));
                }
                p = e;
            },
            None => {
                out.push(v[p]);
                proof {
                    assert(restore_docs_from(v@, p as int) =~= seq![v@[p as int]]
                        + restore_docs_from(v@, p as int + 1));
                }
                p = p + 1;
            },
        }
    }
    proof {
        assert(restore_docs_from(v@, p as int) =~= Seq::<char>::empty());
    }
    out
}

/// Pass two over a text held as characters.
fn strip_markers_chars(v: &Vec<char>) -> (r: Vec<char>)
    ensures
        r@ =~= strip_markers(v@),
{
    let n = v.len();
    let mut out: Vec<char> = Vec::new();
    let mut p: usize = 0;
    let mut ls = true;
    while p < n
        invariant
            0 <= p <= n,
            n == v@.len(),
            strip_markers(v@) =~= out@ + strip_markers_from(v@, p as int, ls),
        decreases n - p,
    {
        let mut stepped = false;
        if ls {
            match marker_attempt_exec(v, p) {
                Some(e) => {
                    proof {
                        assert(strip_markers_from(v@, p as int, ls) == strip_markers_from(
                            v@,
                            e as int,
                            v@[e - 1] == '\n',
                        ));
                    }
                    ls = v[e - 1] == '\n';
                    p = e;
                    stepped = true;
                },
                None => {},
            }
        }
        if !stepped {
            out.push(v[p]);
            proof {
                assert(strip_markers_from(v@, p as int, ls) =~= seq![v@[p as int]]
                    + strip_markers_from(v@, p as int + 1, v@[p as int] == '\n'));
            }
            ls = v[p] == '\n';
            p = p + 1;
        }
    }
    proof {
        assert(strip_markers_from(v@, p as int, ls) =~= Seq::<char>::empty());
    }
    out
}

/// Pass three over a text held as characters.
fn strip_docs_chars(v: &Vec<char>) -> (r: Vec<char>)
    ensures
        r@ =~= strip_docs(v@),
{
    let n = v.len();
    let mut out: Vec<char> = Vec::new();
    let mut p: usize = 0;
    let mut ls = true;
    while p < n
        invariant
            0 <= p <= n,
            n == v@.len(),
            strip_docs(v@) =~= out@ + strip_docs_from(v@, p as int, ls),
        decreases n - p,
    {
        let mut stepped = false;
        if ls {
            match tempdoc_attempt_exec(v, p) {
                Some(e) => {
                    proof {
                        assert(strip_docs_from(v@, p as int, ls) == strip_docs_from(
                            v@,
                            e as int,
                            v@[e - 1] == '\n',
                        ));
                    }
                    ls = v[e - 1] == '\n';
                    p = e;
                    stepped = true;
                },
                None => {},
            }
        }
        if !stepped {
            out.push(v[p]);
            proof {
                assert(strip_docs_from(v@, p as int, ls) =~= seq![v@[p as int]] + strip_docs_from(
                    v@,
                    p as int + 1,
                    v@[p as int] == '\n',
                ));
            }
            ls = v[p] == '\n';
            p = p + 1;
        }
    }
    proof {
        assert(strip_docs_from(v@, p as int, ls) =~= Seq::<char>::empty());
    }
    out
}

} // verus!
