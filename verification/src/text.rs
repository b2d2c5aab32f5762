//! The character-level model of source text that the preservation and
//! restoration transforms are specified against: occurrence counts of
//! delimiters, whitespace trimming, splitting into lines the way the standard
//! line iterator does, and joining lines back.

use vstd::prelude::*;

verus! {

/// How many times the character `c` occurs in `s`.
pub open spec fn occ(s: Seq<char>, c: char) -> nat
    decreases s.len(),
{
    if s.len() == 0 {
        0
    } else {
        occ(s.drop_last(), c) + (if s.last() == c {
            1nat
        } else {
            0nat
        })
    }
}

pub proof fn lemma_occ_le_len(s: Seq<char>, c: char)
    ensures
        occ(s, c) <= s.len(),
    decreases s.len(),
{
    if s.len() > 0 {
        lemma_occ_le_len(s.drop_last(), c);
    }
}

pub proof fn lemma_occ_add(a: Seq<char>, b: Seq<char>, c: char)
    ensures
        occ(a + b, c) == occ(a, c) + occ(b, c),
    decreases b.len(),
{
    if b.len() == 0 {
        assert(a + b =~= a);
    } else {
        lemma_occ_add(a, b.drop_last(), c);
        assert((a + b).drop_last() =~= a + b.drop_last());
        assert((a + b).last() == b.last());
    }
}

/// The characters that the standard library treats as whitespace.
pub open spec fn is_ws_char(c: char) -> bool {
    let u = c as u32;
    u == 0x20 || (0x09 <= u && u <= 0x0D) || u == 0x85 || u == 0xA0 || u == 0x1680 || (0x2000
        <= u && u <= 0x200A) || u == 0x2028 || u == 0x2029 || u == 0x202F || u == 0x205F || u
        == 0x3000
}

/// Whether `c` counts as whitespace, exactly as `is_ws_char` says.
pub fn is_ws(c: char) -> (b: bool)
    ensures
        b == is_ws_char(c),
{
    let u = c as u32;
    u == 0x20 || (0x09 <= u && u <= 0x0D) || u == 0x85 || u == 0xA0 || u == 0x1680 || (0x2000 <= u
        && u <= 0x200A) || u == 0x2028 || u == 0x2029 || u == 0x202F || u == 0x205F || u == 0x3000
}

/// `s` with its leading whitespace removed.
pub open spec fn trim_start_spec(s: Seq<char>) -> Seq<char>
    decreases s.len(),
{
    if s.len() > 0 && is_ws_char(s[0]) {
        trim_start_spec(s.drop_first())
    } else {
        s
    }
}

/// `s` starts with the prefix `p`.
pub open spec fn starts_with_seq(s: Seq<char>, p: Seq<char>) -> bool {
    p.len() <= s.len() && s.subrange(0, p.len() as int) == p
}

/// The number of leading whitespace characters of `s`.
pub open spec fn ws_prefix_len(s: Seq<char>) -> nat
    decreases s.len(),
{
    if s.len() > 0 && is_ws_char(s[0]) {
        1 + ws_prefix_len(s.drop_first())
    } else {
        0
    }
}

pub proof fn lemma_trim_is_skip(s: Seq<char>)
    ensures
        ws_prefix_len(s) <= s.len(),
        trim_start_spec(s) =~= s.skip(ws_prefix_len(s) as int),
    decreases s.len(),
{
    if s.len() > 0 && is_ws_char(s[0]) {
        lemma_trim_is_skip(s.drop_first());
        assert(s.drop_first().skip(ws_prefix_len(s.drop_first()) as int) =~= s.skip(
            ws_prefix_len(s) as int,
        ));
    }
}

/// The index of the first newline of `s`, or `s.len()` if there is none.
pub open spec fn nl_index(s: Seq<char>) -> int
    decreases s.len(),
{
    if s.len() == 0 {
        0
    } else if s[0] == '\n' {
        0
    } else {
        1 + nl_index(s.drop_first())
    }
}

pub proof fn lemma_nl_index(s: Seq<char>)
    ensures
        0 <= nl_index(s) <= s.len(),
        nl_index(s) < s.len() ==> s[nl_index(s)] == '\n',
        forall|k: int| 0 <= k < nl_index(s) ==> s[k] != '\n',
    decreases s.len(),
{
    if s.len() > 0 && s[0] != '\n' {
        let d = s.drop_first();
        lemma_nl_index(d);
        assert forall|k: int| 0 <= k < nl_index(s) implies s[k] != '\n' by {
            if k > 0 {
                assert(s[k] == d[k - 1]);
            }
        }
        if nl_index(s) < s.len() {
            assert(s[nl_index(s)] == d[nl_index(d)]);
        }
    }
}

/// A raw line with a trailing carriage return removed, as the standard line
/// iterator does for lines that end in a newline.
pub open spec fn strip_tail_cr(l: Seq<char>) -> Seq<char> {
    if l.len() > 0 && l.last() == '\r' {
        l.drop_last()
    } else {
        l
    }
}

/// The lines of `s`, split at newlines, with a carriage return stripped from
/// the tail of every line that a newline terminated; an optional final
/// newline opens no extra empty line.
pub open spec fn split_nl(s: Seq<char>) -> Seq<Seq<char>>
    decreases s.len(),
{
    if s.len() == 0 {
        Seq::empty()
    } else {
        let i = nl_index(s);
        if i < s.len() {
            proof {
                lemma_nl_index(s);
            }
            seq![strip_tail_cr(s.take(i))] + split_nl(s.skip(i + 1))
        } else {
            seq![s]
        }
    }
}

/// The lines joined back, a newline appended to every one of them.
pub open spec fn join_nl(ls: Seq<Seq<char>>) -> Seq<char>
    decreases ls.len(),
{
    if ls.len() == 0 {
        Seq::empty()
    } else {
        ls[0] + seq!['\n'] + join_nl(ls.drop_first())
    }
}

/// The lines of the range `[from, to)` concatenated without separators; the
/// delimiter tally accumulates exactly this text.
pub open spec fn cat_range(ls: Seq<Seq<char>>, from: int, to: int) -> Seq<char>
    decreases to - from,
{
    if from < to && 0 <= from && to <= ls.len() {
        ls[from] + cat_range(ls, from + 1, to)
    } else {
        Seq::empty()
    }
}

/// The weight of the lines from `i` on: their total length plus one newline
/// each. It bounds every inner region a transform can recurse into.
pub open spec fn mu(ls: Seq<Seq<char>>, i: int) -> nat
    decreases ls.len() - i,
{
    if 0 <= i < ls.len() {
        ls[i].len() + 1 + mu(ls, i + 1)
    } else {
        0
    }
}

pub proof fn lemma_mu_mono(ls: Seq<Seq<char>>, i: int, j: int)
    requires
        0 <= i <= j,
    ensures
        mu(ls, j) <= mu(ls, i),
    decreases j - i,
{
    if i < j {
        lemma_mu_mono(ls, i + 1, j);
    }
}

pub proof fn lemma_mu_split_le(s: Seq<char>)
    ensures
        mu(split_nl(s), 0) <= s.len() + 1,
    decreases s.len(),
{
    if s.len() > 0 {
        let i = nl_index(s);
        lemma_nl_index(s);
        if i < s.len() {
            let rest = s.skip(i + 1);
            let head = strip_tail_cr(s.take(i));
            lemma_mu_split_le(rest);
            lemma_mu_shift(split_nl(rest), head);
            assert(split_nl(s) == seq![head] + split_nl(rest));
            assert(head.len() <= i);
            assert(rest.len() == s.len() - i - 1);
        } else {
            assert(split_nl(s) == seq![s]);
            assert(mu(seq![s], 1) == 0);
        }
    }
}

/// Prepending one line to a line list adds that line's weight to `mu`.
pub proof fn lemma_mu_shift(ls: Seq<Seq<char>>, l: Seq<char>)
    ensures
        mu(seq![l] + ls, 0) == l.len() + 1 + mu(ls, 0),
{
    let whole = seq![l] + ls;
    assert(whole[0] =~= l);
    lemma_mu_offset(whole, ls, 1, 0);
}

pub proof fn lemma_ws_prefix_is(s: Seq<char>, i: int)
    requires
        0 <= i <= s.len(),
        forall|k: int| 0 <= k < i ==> is_ws_char(s[k]),
        i < s.len() ==> !is_ws_char(s[i]),
    ensures
        ws_prefix_len(s) == i,
    decreases i,
{
    if i > 0 {
        let d = s.drop_first();
        assert(forall|k: int| 0 <= k < i - 1 ==> d[k] == s[k + 1]);
        if i - 1 < d.len() {
            assert(d[i - 1] == s[i]);
        }
        lemma_ws_prefix_is(d, i - 1);
    }
}

pub proof fn lemma_nl_index_is(s: Seq<char>, i: int)
    requires
        0 <= i <= s.len(),
        forall|k: int| 0 <= k < i ==> s[k] != '\n',
        i < s.len() ==> s[i] == '\n',
    ensures
        nl_index(s) == i,
    decreases i,
{
    if i > 0 {
        let d = s.drop_first();
        assert(forall|k: int| 0 <= k < i - 1 ==> d[k] == s[k + 1]);
        if i - 1 < d.len() {
            assert(d[i - 1] == s[i]);
        }
        lemma_nl_index_is(d, i - 1);
    }
}

pub proof fn lemma_cat_range_snoc(ls: Seq<Seq<char>>, a: int, b: int)
    requires
        0 <= a <= b < ls.len(),
    ensures
        cat_range(ls, a, b + 1) =~= cat_range(ls, a, b) + ls[b],
    decreases b - a,
{
    if a < b {
        lemma_cat_range_snoc(ls, a + 1, b);
        assert((ls[a] + cat_range(ls, a + 1, b)) + ls[b] =~= ls[a] + (cat_range(ls, a + 1, b)
            + ls[b]));
    } else {
        assert(cat_range(ls, a + 1, a + 1) =~= Seq::<char>::empty());
        assert(cat_range(ls, a, a) =~= Seq::<char>::empty());
        assert(cat_range(ls, a, a + 1) =~= ls[a] + cat_range(ls, a + 1, a + 1));
    }
}

pub proof fn lemma_join_nl_snoc(ls: Seq<Seq<char>>, a: int, b: int)
    requires
        0 <= a <= b < ls.len(),
    ensures
        join_nl(ls.subrange(a, b + 1)) =~= join_nl(ls.subrange(a, b)) + ls[b] + seq!['\n'],
    decreases b - a,
{
    if a < b {
        lemma_join_nl_snoc(ls, a + 1, b);
        let s1 = ls.subrange(a, b + 1);
        let s0 = ls.subrange(a, b);
        assert(s1.drop_first() =~= ls.subrange(a + 1, b + 1));
        assert(s0.drop_first() =~= ls.subrange(a + 1, b));
        assert(s1[0] == ls[a]);
        assert(s0[0] == ls[a]);
        assert((ls[a] + seq!['\n'] + (join_nl(ls.subrange(a + 1, b)) + ls[b] + seq!['\n'])) =~= (
        ls[a] + seq!['\n'] + join_nl(ls.subrange(a + 1, b))) + ls[b] + seq!['\n']);
    } else {
        let s1 = ls.subrange(a, a + 1);
        assert(s1.drop_first() =~= ls.subrange(a + 1, a + 1));
        assert(ls.subrange(a + 1, a + 1) =~= Seq::<Seq<char>>::empty());
        assert(ls.subrange(a, a) =~= Seq::<Seq<char>>::empty());
        assert(s1[0] == ls[a]);
        assert(join_nl(Seq::<Seq<char>>::empty()) =~= Seq::<char>::empty());
        assert(join_nl(s1) =~= ls[a] + seq!['\n']);
        assert(join_nl(ls.subrange(a, a)) + ls[a] + seq!['\n'] =~= ls[a] + seq!['\n']);
    }
}

/// Turns a string into the vector of its characters.
pub fn str_to_chars(s: &str) -> (r: Vec<char>)
    ensures
        r@ =~= s@,
{
    let n = s.unicode_len();
    let mut r: Vec<char> = Vec::new();
    let mut i: usize = 0;
    while i < n
        invariant
            0 <= i <= n,
            n == s@.len(),
            r@ =~= s@.take(i as int),
        decreases n - i,
    {
        let c = s.get_char(i);
        r.push(c);
        proof {
            assert(s@.take(i as int + 1) =~= s@.take(i as int).push(s@[i as int]));
        }
        i = i + 1;
    }
    proof {
        assert(s@.take(n as int) =~= s@);
    }
    r
}

/// Relies on `String`'s `FromIterator` implementation through `collect`: the
/// collected string holds exactly the characters of the iterator, in order.
#[verifier::external_body]
pub fn chars_to_string(v: &Vec<char>) -> (r: String)
    ensures
        r@ == v@,
{
    v.iter().collect()
}

/// Appends every character of `src` to `dst`.
pub fn push_vec(dst: &mut Vec<char>, src: &Vec<char>)
    ensures
        final (dst)@ =~= old(dst)@ + src@,
{
    let n = src.len();
    let mut i: usize = 0;
    while i < n
        invariant
            0 <= i <= n,
            n == src@.len(),
            dst@ =~= old(dst)@ + src@.take(i as int),
        decreases n - i,
    {
        dst.push(src[i]);
        proof {
            assert(src@.take(i as int + 1) =~= src@.take(i as int).push(src@[i as int]));
        }
        i = i + 1;
    }
    proof {
        assert(src@.take(n as int) =~= src@);
    }
}

/// Appends every character of the string `s` to `dst`.
pub fn push_str_chars(dst: &mut Vec<char>, s: &str)
    ensures
        final (dst)@ =~= old(dst)@ + s@,
{
    let n = s.unicode_len();
    let mut i: usize = 0;
    while i < n
        invariant
            0 <= i <= n,
            n == s@.len(),
            dst@ =~= old(dst)@ + s@.take(i as int),
        decreases n - i,
    {
        let c = s.get_char(i);
        dst.push(c);
        proof {
            assert(s@.take(i as int + 1) =~= s@.take(i as int).push(s@[i as int]));
        }
        i = i + 1;
    }
    proof {
        assert(s@.take(n as int) =~= s@);
    }
}

/// The characters of `src` in the index range `[a, b)`, as a fresh vector.
pub fn subvec(src: &Vec<char>, a: usize, b: usize) -> (r: Vec<char>)
    requires
        a <= b,
        b <= src@.len(),
    ensures
        r@ =~= src@.subrange(a as int, b as int),
{
    let mut r: Vec<char> = Vec::new();
    let mut i: usize = a;
    while i < b
        invariant
            a <= i <= b,
            b <= src@.len(),
            r@ =~= src@.subrange(a as int, i as int),
        decreases b - i,
    {
        r.push(src[i]);
        proof {
            assert(src@.subrange(a as int, i as int + 1) =~= src@.subrange(a as int, i as int).push(
                src@[i as int],
            ));
        }
        i = i + 1;
    }
    r
}

/// The number of leading whitespace characters of `line`; the rest of the
/// line is its trimmed form.
pub fn ws_prefix(line: &Vec<char>) -> (r: usize)
    ensures
        r == ws_prefix_len(line@),
        r <= line@.len(),
        trim_start_spec(line@) =~= line@.skip(r as int),
{
    let n = line.len();
    let mut i: usize = 0;
    while i < n && is_ws(line[i])
        invariant
            0 <= i <= n,
            n == line@.len(),
            forall|k: int| 0 <= k < i ==> is_ws_char(line@[k]),
        decreases n - i,
    {
        i = i + 1;
    }
    proof {
        lemma_ws_prefix_is(line@, i as int);
        lemma_trim_is_skip(line@);
    }
    i
}

/// The lines of `chars`, exactly as `split_nl` describes them.
pub fn split_lines(chars: &Vec<char>) -> (r: Vec<Vec<char>>)
    ensures
        r@.len() == split_nl(chars@).len(),
        forall|k: int| 0 <= k < r@.len() ==> r@[k]@ == split_nl(chars@)[k],
{
    let n = chars.len();
    let mut r: Vec<Vec<char>> = Vec::new();
    let mut pos: usize = 0;
    proof {
        assert(chars@.skip(0) =~= chars@);
        assert(seq_views(r@) =~= Seq::<Seq<char>>::empty());
        assert(seq_views(r@) + split_nl(chars@) =~= split_nl(chars@));
    }
    while pos < n
        invariant
            0 <= pos <= n,
            n == chars@.len(),
            split_nl(chars@) =~= seq_views(r@) + split_nl(chars@.skip(pos as int)),
            r@.len() == seq_views(r@).len(),
            forall|k: int| 0 <= k < r@.len() ==> r@[k]@ == seq_views(r@)[k],
        decreases n - pos,
    {
        let mut e: usize = pos;
        while e < n && chars[e] != '\n'
            invariant
                pos <= e <= n,
                n == chars@.len(),
                forall|k: int| pos <= k < e ==> chars@[k] != '\n',
            decreases n - e,
        {
            e = e + 1;
        }
        let ghost tail = chars@.skip(pos as int);
        proof {
            assert(forall|k: int| 0 <= k < e - pos ==> tail[k] == chars@[k + pos]);
            if e < n {
                assert(tail[e - pos] == chars@[e as int]);
            }
            lemma_nl_index_is(tail, e - pos);
        }
        let mut line = subvec(chars, pos, e);
        proof {
            assert(line@ =~= tail.take(e - pos));
        }
        if e < n {
            if line.len() > 0 && line[line.len() - 1] == '\r' {
                line.pop();
            }
            proof {
                assert(line@ =~= strip_tail_cr(tail.take(e - pos)));
                assert(tail.skip(e - pos + 1) =~= chars@.skip(e as int + 1));
                assert(split_nl(tail) =~= seq![strip_tail_cr(tail.take(e - pos))] + split_nl(
                    chars@.skip(e as int + 1),
                ));
            }
            let ghost old_r = r@;
            r.push(line);
            proof {
                lemma_seq_views_push(old_r, r@);
                assert(seq_views(old_r) + split_nl(tail) =~= seq_views(r@) + split_nl(
                    chars@.skip(e as int + 1),
                ));
            }
            pos = e + 1;
        } else {
            proof {
                assert(line@ =~= tail);
                assert(split_nl(tail) =~= seq![tail]);
                assert(chars@.skip(n as int) =~= Seq::<char>::empty());
                assert(split_nl(chars@.skip(n as int)) =~= Seq::<Seq<char>>::empty());
            }
            let ghost old_r = r@;
            r.push(line);
            proof {
                lemma_seq_views_push(old_r, r@);
                assert(seq_views(old_r) + split_nl(tail) =~= seq_views(r@) + split_nl(
                    chars@.skip(n as int),
                ));
            }
            pos = n;
        }
    }
    proof {
        assert(chars@.skip(n as int) =~= Seq::<char>::empty());
        assert(split_nl(chars@.skip(pos as int)) =~= Seq::<Seq<char>>::empty());
        assert(split_nl(chars@) =~= seq_views(r@));
    }
    r
}

/// The views of the vectors of `vs`, elementwise.
pub open spec fn seq_views(vs: Seq<Vec<char>>) -> Seq<Seq<char>> {
    vs.map_values(|v: Vec<char>| v@)
}

proof fn lemma_seq_views_push(old_r: Seq<Vec<char>>, new_r: Seq<Vec<char>>)
    requires
        new_r.len() == old_r.len() + 1,
        forall|k: int| 0 <= k < old_r.len() ==> new_r[k] == old_r[k],
    ensures
        seq_views(new_r) =~= seq_views(old_r) + seq![new_r[new_r.len() - 1]@],
{
}

proof fn lemma_mu_offset(whole: Seq<Seq<char>>, ls: Seq<Seq<char>>, i: int, j: int)
    requires
        whole.len() == ls.len() + 1,
        i == j + 1,
        0 <= j,
        forall|k: int| 0 <= k < ls.len() ==> whole[k + 1] == ls[k],
    ensures
        mu(whole, i) == mu(ls, j),
    decreases ls.len() - j,
{
    if j < ls.len() {
        assert(whole[j + 1] == ls[j]);
        lemma_mu_offset(whole, ls, i + 1, j + 1);
    }
}

} // verus!
