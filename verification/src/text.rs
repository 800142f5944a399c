//! Character-level text helpers shared by the parsers of this crate.
//!
//! Texts are handled as vectors of characters; a piece of a text is a pair of
//! indices `(start, end)` into it.  The spec functions below state what the
//! corresponding `str` operations of the standard library compute.

use vstd::prelude::*;
use vstd::std_specs::iter::IteratorSpec;
use vstd::utf8::{decode_utf8, valid_utf8};

verus! {

/// `String::push` appends one character.
pub assume_specification[ String::push ](s: &mut String, ch: char)
    ensures
        final(s)@ == old(s)@.push(ch),
;

// ---------------------------------------------------------------------------
// Basic predicates
// ---------------------------------------------------------------------------

/// The Unicode `White_Space` property, as tested by `char::is_whitespace`.
pub open spec fn is_ws(c: char) -> bool {
    ||| '\u{9}' <= c <= '\u{d}'
    ||| c == ' '
    ||| c == '\u{85}'
    ||| c == '\u{a0}'
    ||| c == '\u{1680}'
    ||| '\u{2000}' <= c <= '\u{200a}'
    ||| c == '\u{2028}'
    ||| c == '\u{2029}'
    ||| c == '\u{202f}'
    ||| c == '\u{205f}'
    ||| c == '\u{3000}'
}

/// Whether `c` is white space in the sense of `char::is_whitespace`.
pub fn is_whitespace(c: char) -> (b: bool)
    ensures
        b == is_ws(c),
{
    ('\u{9}' <= c && c <= '\u{d}') || c == ' ' || c == '\u{85}' || c == '\u{a0}' || c
        == '\u{1680}' || ('\u{2000}' <= c && c <= '\u{200a}') || c == '\u{2028}' || c
        == '\u{2029}' || c == '\u{202f}' || c == '\u{205f}' || c == '\u{3000}'
}

/// `s` begins with `p`.
pub open spec fn has_prefix(s: Seq<char>, p: Seq<char>) -> bool {
    p.len() <= s.len() && s.take(p.len() as int) == p
}

/// `s` ends with `p`.
pub open spec fn has_suffix(s: Seq<char>, p: Seq<char>) -> bool {
    p.len() <= s.len() && s.skip(s.len() - p.len()) == p
}

/// The piece `[a, b)` of `s`.
pub open spec fn piece(s: Seq<char>, r: (usize, usize)) -> Seq<char> {
    s.subrange(r.0 as int, r.1 as int)
}

/// The pieces named by `rs`.
pub open spec fn pieces(s: Seq<char>, rs: Seq<(usize, usize)>) -> Seq<Seq<char>> {
    rs.map_values(|r: (usize, usize)| piece(s, r))
}

/// Every range of `rs` is a well-ordered range of `s` within `[a, b]`.
pub open spec fn ranges_within(rs: Seq<(usize, usize)>, a: int, b: int) -> bool {
    forall|k: int| 0 <= k < rs.len() ==> a <= #[trigger] rs[k].0 <= rs[k].1 <= b
}

// ---------------------------------------------------------------------------
// Conversions
// ---------------------------------------------------------------------------

/// Collects the characters of `s` into a vector.
pub fn chars_of(s: &str) -> (v: Vec<char>)
    ensures
        v@ == s@,
{
    let mut v: Vec<char> = Vec::new();
    for c in it: s.chars()
        invariant
            it.seq() == s@,
            v@ == it.seq().take(it.index() as int),
    {
        v.push(c);
    }
    v
}

/// The characters `s[a..b]` as a `String`.
pub fn string_of(s: &Vec<char>, a: usize, b: usize) -> (r: String)
    requires
        a <= b <= s@.len(),
    ensures
        r@ == s@.subrange(a as int, b as int),
{
    let mut r = String::new();
    let mut i = a;
    while i < b
        invariant
            a <= i <= b <= s@.len(),
            r@ == s@.subrange(a as int, i as int),
        decreases b - i,
    {
        r.push(s[i]);
        assert(r@ =~= s@.subrange(a as int, i + 1));
        i = i + 1;
    }
    r
}

/// Appends `s[a..b]` to `out`.
pub fn push_piece(out: &mut String, s: &Vec<char>, a: usize, b: usize)
    requires
        a <= b <= s@.len(),
    ensures
        final(out)@ == old(out)@ + s@.subrange(a as int, b as int),
{
    let mut i = a;
    while i < b
        invariant
            a <= i <= b <= s@.len(),
            out@ == old(out)@ + s@.subrange(a as int, i as int),
        decreases b - i,
    {
        out.push(s[i]);
        assert(out@ =~= old(out)@ + s@.subrange(a as int, i + 1));
        i = i + 1;
    }
}

/// Whether `s[a..b]` begins with `p`.
pub fn starts_with_at(s: &Vec<char>, a: usize, b: usize, p: &[char]) -> (r: bool)
    requires
        a <= b <= s@.len(),
    ensures
        r == has_prefix(s@.subrange(a as int, b as int), p@),
{
    let ghost t = s@.subrange(a as int, b as int);
    if p.len() > b - a {
        return false;
    }
    let mut j: usize = 0;
    while j < p.len()
        invariant
            a <= b <= s@.len(),
            t == s@.subrange(a as int, b as int),
            p@.len() <= t.len(),
            j <= p@.len(),
            forall|k: int| 0 <= k < j ==> t[k] == p@[k],
        decreases p@.len() - j,
    {
        if s[a + j] != p[j] {
            assert(t.take(p@.len() as int)[j as int] != p@[j as int]);
            return false;
        }
        j = j + 1;
    }
    assert(t.take(p@.len() as int) =~= p@);
    true
}

/// Whether the two pieces `s[a..b]` and `p` are equal.
pub fn equals_at(s: &Vec<char>, a: usize, b: usize, p: &[char]) -> (r: bool)
    requires
        a <= b <= s@.len(),
    ensures
        r == (s@.subrange(a as int, b as int) == p@),
{
    if p.len() != b - a {
        return false;
    }
    let r = starts_with_at(s, a, b, p);
    proof {
        let t = s@.subrange(a as int, b as int);
        assert(t.take(p@.len() as int) =~= t);
    }
    r
}


// ---------------------------------------------------------------------------
// Lines (`str::lines`)
// ---------------------------------------------------------------------------

/// `s` split at every `'\n'` (`str::split('\n')`): one more piece than newlines.
pub open spec fn split_lf(s: Seq<char>) -> Seq<Seq<char>>
    decreases s.len(),
{
    if s.len() == 0 {
        seq![Seq::<char>::empty()]
    } else {
        let p = split_lf(s.drop_last());
        if s.last() == '\n' {
            p.push(Seq::<char>::empty())
        } else {
            p.update(p.len() - 1, p.last().push(s.last()))
        }
    }
}

/// A terminated line loses one trailing carriage return.
pub open spec fn strip_cr(l: Seq<char>) -> Seq<char> {
    if l.len() > 0 && l.last() == '\r' {
        l.drop_last()
    } else {
        l
    }
}

/// The lines of `s` as `str::lines` yields them: every newline-terminated
/// piece without its `"\n"` or `"\r\n"`, then the unterminated rest if it is
/// not empty.
pub open spec fn spec_lines(s: Seq<char>) -> Seq<Seq<char>> {
    let p = split_lf(s);
    let n = p.len() - 1;
    Seq::new(n as nat, |k: int| strip_cr(p[k])) + if p.last().len() > 0 {
        seq![p.last()]
    } else {
        Seq::<Seq<char>>::empty()
    }
}

pub proof fn lemma_split_lf_len(s: Seq<char>)
    ensures
        split_lf(s).len() >= 1,
    decreases s.len(),
{
    if s.len() > 0 {
        lemma_split_lf_len(s.drop_last());
    }
}

/// `s` is empty or ends with a newline.
pub open spec fn ends_line(s: Seq<char>) -> bool {
    s.len() == 0 || s.last() == '\n'
}

proof fn lemma_split_lf_concat(a: Seq<char>, r: Seq<char>)
    requires
        ends_line(a),
    ensures
        split_lf(a + r) == split_lf(a).drop_last() + split_lf(r),
    decreases r.len(),
{
    lemma_split_lf_len(a);
    if r.len() == 0 {
        assert(a + r =~= a);
        if a.len() > 0 {
            assert(a.drop_last() + seq![a.last()] =~= a);
        }
        assert(split_lf(a).last() =~= Seq::<char>::empty());
        assert(split_lf(a).drop_last() + seq![Seq::<char>::empty()] =~= split_lf(a));
    } else {
        let r2 = r.drop_last();
        let c = r.last();
        lemma_split_lf_concat(a, r2);
        lemma_split_lf_len(r2);
        assert((a + r).drop_last() =~= a + r2);
        assert((a + r).last() == c);
        let pp = split_lf(a).drop_last();
        let q = split_lf(r2);
        if c == '\n' {
            assert((pp + q).push(Seq::<char>::empty()) =~= pp + q.push(Seq::<char>::empty()));
        } else {
            assert((pp + q).update((pp + q).len() - 1, (pp + q).last().push(c)) =~= pp + q.update(
                q.len() - 1,
                q.last().push(c),
            ));
        }
    }
}

/// The lines of a text that ends a line, followed by more text, are the
/// lines of the one followed by the lines of the other.
pub proof fn lemma_lines_concat(a: Seq<char>, r: Seq<char>)
    requires
        ends_line(a),
    ensures
        spec_lines(a + r) == spec_lines(a) + spec_lines(r),
{
    lemma_split_lf_concat(a, r);
    lemma_split_lf_len(a);
    lemma_split_lf_len(r);
    if a.len() > 0 {
        assert(a.drop_last() + seq![a.last()] =~= a);
    }
    let pa = split_lf(a);
    let pr = split_lf(r);
    assert(pa.last() =~= Seq::<char>::empty());
    let p = split_lf(a + r);
    assert(p.last() == pr.last());
    assert(spec_lines(a) =~= Seq::new((pa.len() - 1) as nat, |k: int| strip_cr(pa[k])));
    assert(spec_lines(a + r) =~= spec_lines(a) + spec_lines(r));
}

proof fn lemma_split_lf_single(l: Seq<char>)
    requires
        forall|k: int| 0 <= k < l.len() ==> l[k] != '\n',
    ensures
        split_lf(l) == seq![l],
    decreases l.len(),
{
    if l.len() > 0 {
        lemma_split_lf_single(l.drop_last());
        assert(l.drop_last().push(l.last()) =~= l);
    } else {
        assert(l =~= Seq::<char>::empty());
    }
}

/// A line without a newline, ended by one, is read as that one line, without
/// a carriage return at its end.
pub proof fn lemma_one_line(l: Seq<char>)
    requires
        forall|k: int| 0 <= k < l.len() ==> l[k] != '\n',
    ensures
        spec_lines(l + seq!['\n']) == seq![strip_cr(l)],
{
    lemma_split_lf_single(l);
    let ln = l + seq!['\n'];
    assert(ln.drop_last() =~= l);
    assert(split_lf(ln) == seq![l].push(Seq::<char>::empty()));
    assert(spec_lines(ln) =~= seq![strip_cr(l)]);
}

/// Ending a text that does not end with a newline with one keeps its lines,
/// except that a carriage return at the end of the last one goes.
pub proof fn lemma_lines_add_newline(d: Seq<char>)
    requires
        d.len() > 0,
        d.last() != '\n',
    ensures
        spec_lines(d + seq!['\n']).len() == spec_lines(d).len(),
        spec_lines(d).len() > 0,
        forall|k: int|
            0 <= k < spec_lines(d).len() - 1 ==> spec_lines(d + seq!['\n'])[k] == spec_lines(d)[k],
        spec_lines(d + seq!['\n']).last() == strip_cr(spec_lines(d).last()),
{
    let p = split_lf(d);
    lemma_split_lf_len(d.drop_last());
    lemma_split_lf_len(d);
    let dn = d + seq!['\n'];
    assert(dn.drop_last() =~= d);
    assert(split_lf(dn) == p.push(Seq::<char>::empty()));
    assert(p.last().len() > 0);
    let q = p.push(Seq::<char>::empty());
    assert(spec_lines(dn) =~= Seq::new(p.len(), |k: int| strip_cr(q[k])));
    assert(spec_lines(d) =~= Seq::new((p.len() - 1) as nat, |k: int| strip_cr(p[k])) + seq![p.last()]);
}


/// A line `l` between a text that ends a line and a newline is one of the
/// lines of the whole, at the position after the lines of that text.
pub proof fn lemma_line_in_lines(a: Seq<char>, l: Seq<char>, b: Seq<char>)
    requires
        ends_line(a),
        forall|k: int| 0 <= k < l.len() ==> l[k] != '\n',
        !(l.len() > 0 && l.last() == '\r'),
    ensures
        spec_lines(a).len() < spec_lines(a + (l + seq!['\n'] + b)).len(),
        spec_lines(a + (l + seq!['\n'] + b))[spec_lines(a).len() as int] == l,
{
    let ln = l + seq!['\n'];
    lemma_lines_concat(a, ln + b);
    lemma_lines_concat(ln, b);
    lemma_split_lf_single(l);
    assert(ln.drop_last() =~= l);
    assert(split_lf(ln) == seq![l].push(Seq::<char>::empty()));
    assert(spec_lines(ln) =~= seq![l]);
}

/// The ranges of the lines of `s`, as `str::lines` yields them.
pub fn line_ranges(s: &Vec<char>) -> (r: Vec<(usize, usize)>)
    ensures
        pieces(s@, r@) == spec_lines(s@),
        ranges_within(r@, 0, s@.len() as int),
{
    let mut r: Vec<(usize, usize)> = Vec::new();
    let mut start: usize = 0;
    let mut i: usize = 0;
    proof {
        assert(s@.take(0) =~= Seq::<char>::empty());
    }
    while i < s.len()
        invariant
            start <= i <= s@.len(),
            split_lf(s@.take(i as int)).len() == r@.len() + 1,
            forall|k: int|
                0 <= k < r@.len() ==> #[trigger] piece(s@, r@[k]) == strip_cr(
                    split_lf(s@.take(i as int))[k],
                ),
            s@.subrange(start as int, i as int) == split_lf(s@.take(i as int)).last(),
            ranges_within(r@, 0, i as int),
        decreases s@.len() - i,
    {
        let ghost p = split_lf(s@.take(i as int));
        proof {
            lemma_split_lf_len(s@.take(i as int));
            assert(s@.take(i + 1).drop_last() =~= s@.take(i as int));
        }
        let ghost before_push = r@;
        if s[i] == '\n' {
            let end = if i > start && s[i - 1] == '\r' {
                i - 1
            } else {
                i
            };
            proof {
                let l = s@.subrange(start as int, i as int);
                if i > start && s@[i - 1] == '\r' {
                    assert(strip_cr(l) =~= s@.subrange(start as int, end as int));
                } else {
                    assert(strip_cr(l) =~= s@.subrange(start as int, end as int));
                }
            }
            r.push((start, end));
            start = i + 1;
            proof {
                let p2 = split_lf(s@.take(i + 1));
                assert(p2 == p.push(Seq::<char>::empty()));
                assert forall|k: int| 0 <= k < r@.len() implies #[trigger] piece(s@, r@[k])
                    == strip_cr(p2[k]) by {
                    if k < r@.len() - 1 {
                        assert(r@[k] == before_push[k]);
                    }
                }
                assert(s@.subrange(start as int, i + 1) =~= Seq::<char>::empty());
            }
        } else {
            proof {
                let p2 = split_lf(s@.take(i + 1));
                assert(p2 == p.update(p.len() - 1, p.last().push(s@[i as int])));
                assert(s@.subrange(start as int, i + 1) =~= s@.subrange(start as int, i as int).push(
                    s@[i as int],
                ));
                assert forall|k: int| 0 <= k < r@.len() implies #[trigger] piece(s@, r@[k])
                    == strip_cr(p2[k]) by {}
            }
        }
        i = i + 1;
    }
    proof {
        assert(s@.take(s@.len() as int) =~= s@);
        lemma_split_lf_len(s@);
    }
    let ghost before = r@;
    if start < s.len() {
        r.push((start, s.len()));
    }
    proof {
        let p = split_lf(s@);
        let n = p.len() - 1;
        let expect = spec_lines(s@);
        assert(pieces(s@, r@) =~= expect) by {
            assert forall|k: int| 0 <= k < r@.len() implies #[trigger] pieces(s@, r@)[k]
                == expect[k] by {
                if k < n {
                    assert(r@[k] == before[k]);
                }
            }
        }
    }
    r
}

// ---------------------------------------------------------------------------
// White-space separated tokens (`str::split_whitespace`)
// ---------------------------------------------------------------------------

/// The maximal runs of non-white-space characters of `s`, in order.
pub open spec fn ws_tokens(s: Seq<char>) -> Seq<Seq<char>>
    decreases s.len(),
{
    if s.len() == 0 {
        Seq::<Seq<char>>::empty()
    } else {
        let t = ws_tokens(s.drop_last());
        let c = s.last();
        if is_ws(c) {
            t
        } else if s.len() >= 2 && !is_ws(s[s.len() - 2]) {
            t.update(t.len() - 1, t.last().push(c))
        } else {
            t.push(seq![c])
        }
    }
}

/// A text that ends in a character that is not white space has a token.
proof fn lemma_ws_tokens_nonempty(s: Seq<char>)
    requires
        s.len() > 0,
        !is_ws(s.last()),
    ensures
        ws_tokens(s).len() > 0,
    decreases s.len(),
{
    if s.len() >= 2 && !is_ws(s[s.len() - 2]) {
        lemma_ws_tokens_nonempty(s.drop_last());
    }
}

/// A white-space character between two texts separates their tokens.
pub proof fn lemma_ws_tokens_split(a: Seq<char>, w: char, b: Seq<char>)
    requires
        is_ws(w),
    ensures
        ws_tokens(a + seq![w] + b) == ws_tokens(a) + ws_tokens(b),
    decreases b.len(),
{
    let x = a + seq![w];
    if b.len() == 0 {
        assert(a + seq![w] + b =~= x);
        assert(x.drop_last() =~= a);
        assert(ws_tokens(a) + ws_tokens(b) =~= ws_tokens(a));
    } else {
        let bi = b.drop_last();
        let c = b.last();
        lemma_ws_tokens_split(a, w, bi);
        let s = a + seq![w] + b;
        let si = a + seq![w] + bi;
        assert(s.drop_last() =~= si);
        assert(s.last() == c);
        let ta = ws_tokens(a);
        let tb = ws_tokens(bi);
        if is_ws(c) {
        } else if bi.len() > 0 && !is_ws(bi.last()) {
            assert(s[s.len() - 2] == bi.last());
            assert(b[b.len() - 2] == bi.last());
            assert(b.drop_last() =~= bi);
            lemma_ws_tokens_nonempty(bi);
            assert((ta + tb).update((ta + tb).len() - 1, (ta + tb).last().push(c)) =~= ta + tb.update(
                tb.len() - 1,
                tb.last().push(c),
            ));
        } else {
            if bi.len() > 0 {
                assert(s[s.len() - 2] == bi.last());
                assert(b[b.len() - 2] == bi.last());
            } else {
                assert(s[s.len() - 2] == w);
            }
            assert(b.drop_last() =~= bi);
            assert((ta + tb).push(seq![c]) =~= ta + tb.push(seq![c]));
        }
    }
}

/// A text without white space is one token, if it is not empty.
pub proof fn lemma_ws_tokens_single(t: Seq<char>)
    requires
        t.len() > 0,
        forall|k: int| 0 <= k < t.len() ==> !is_ws(t[k]),
    ensures
        ws_tokens(t) == seq![t],
    decreases t.len(),
{
    if t.len() == 1 {
        assert(t.drop_last() =~= Seq::<char>::empty());
        assert(ws_tokens(t.drop_last()) == Seq::<Seq<char>>::empty());
        assert(seq![t.last()] =~= t);
        assert(!is_ws(t.last()));
        assert(ws_tokens(t) == Seq::<Seq<char>>::empty().push(seq![t.last()]));
        assert(Seq::<Seq<char>>::empty().push(seq![t.last()]) =~= seq![t]);
    } else {
        lemma_ws_tokens_single(t.drop_last());
        assert(!is_ws(t[t.len() - 2]));
        assert(!is_ws(t.last()));
        assert(t.drop_last().push(t.last()) =~= t);
        assert(seq![t.drop_last()].update(0, t.drop_last().push(t.last())) =~= seq![t]);
    }
}

/// The part of `a + b` before its first `c` is `a`, when `a` has no `c`
/// and `b` is empty or starts with `c`.
pub proof fn lemma_before_char_joined(a: Seq<char>, b: Seq<char>, c: char)
    requires
        forall|k: int| 0 <= k < a.len() ==> a[k] != c,
        b.len() == 0 || b[0] == c,
    ensures
        before_char(a + b, c) == a,
    decreases a.len(),
{
    if a.len() == 0 {
        assert(a + b =~= b);
        if b.len() > 0 {
            assert((a + b)[0] == c);
        }
    } else {
        lemma_before_char_joined(a.skip(1), b, c);
        assert((a + b).skip(1) =~= a.skip(1) + b);
        assert(seq![a[0]] + a.skip(1) =~= a);
    }
}

/// The ranges of the white-space separated tokens of `s[a..b]`.
pub fn token_ranges(s: &Vec<char>, a: usize, b: usize) -> (r: Vec<(usize, usize)>)
    requires
        a <= b <= s@.len(),
    ensures
        pieces(s@, r@) == ws_tokens(s@.subrange(a as int, b as int)),
        ranges_within(r@, a as int, b as int),
{
    let ghost t = s@.subrange(a as int, b as int);
    let mut r: Vec<(usize, usize)> = Vec::new();
    let mut in_token = false;
    let mut i = a;
    proof {
        assert(t.take(0) =~= Seq::<char>::empty());
    }
    while i < b
        invariant
            a <= i <= b <= s@.len(),
            t == s@.subrange(a as int, b as int),
            pieces(s@, r@) == ws_tokens(t.take(i - a)),
            in_token == (i > a && !is_ws(s@[i - 1])),
            in_token ==> r@.len() > 0 && r@.last().1 == i,
            ranges_within(r@, a as int, i as int),
        decreases b - i,
    {
        let c = s[i];
        let ws = is_whitespace(c);
        let ghost prev = r@;
        proof {
            assert(t.take(i + 1 - a).drop_last() =~= t.take(i - a));
            assert(t.take(i + 1 - a).last() == c);
        }
        if ws {
            in_token = false;
        } else if in_token {
            let last = r.len() - 1;
            let st = r[last].0;
            r.set(last, (st, i + 1));
            proof {
                assert(t.take(i + 1 - a)[(i - a) - 1] == s@[i - 1]);
                assert(s@.subrange(st as int, i + 1) =~= s@.subrange(st as int, i as int).push(c));
                assert(pieces(s@, r@) =~= pieces(s@, prev).update(
                    prev.len() - 1,
                    pieces(s@, prev).last().push(c),
                ));
            }
        } else {
            r.push((i, i + 1));
            in_token = true;
            proof {
                if i > a {
                    assert(t.take(i + 1 - a)[(i - a) - 1] == s@[i - 1]);
                }
                assert(s@.subrange(i as int, i + 1) =~= seq![c]);
                assert(pieces(s@, r@) =~= pieces(s@, prev).push(seq![c]));
            }
        }
        i = i + 1;
    }
    proof {
        assert(t.take(b - a) =~= t);
    }
    r
}

// ---------------------------------------------------------------------------
// Trimming (`str::trim`)
// ---------------------------------------------------------------------------

pub open spec fn trim_start(s: Seq<char>) -> Seq<char>
    decreases s.len(),
{
    if s.len() > 0 && is_ws(s[0]) {
        trim_start(s.skip(1))
    } else {
        s
    }
}

pub open spec fn trim_end(s: Seq<char>) -> Seq<char>
    decreases s.len(),
{
    if s.len() > 0 && is_ws(s.last()) {
        trim_end(s.drop_last())
    } else {
        s
    }
}

/// `s` without leading and trailing white space (`str::trim`).
pub open spec fn trim(s: Seq<char>) -> Seq<char> {
    trim_end(trim_start(s))
}

/// The range of `trim(s[a..b])`.
pub fn trim_range(s: &Vec<char>, a: usize, b: usize) -> (r: (usize, usize))
    requires
        a <= b <= s@.len(),
    ensures
        a <= r.0 <= r.1 <= b,
        piece(s@, r) == trim(s@.subrange(a as int, b as int)),
{
    let mut lo = a;
    while lo < b && is_whitespace(s[lo])
        invariant
            a <= lo <= b <= s@.len(),
            trim_start(s@.subrange(a as int, b as int)) == trim_start(
                s@.subrange(lo as int, b as int),
            ),
        decreases b - lo,
    {
        assert(s@.subrange(lo as int, b as int).skip(1) =~= s@.subrange(lo + 1, b as int));
        lo = lo + 1;
    }
    let mut hi = b;
    while hi > lo && is_whitespace(s[hi - 1])
        invariant
            a <= lo <= hi <= b <= s@.len(),
            trim_end(s@.subrange(lo as int, b as int)) == trim_end(
                s@.subrange(lo as int, hi as int),
            ),
        decreases hi - lo,
    {
        assert(s@.subrange(lo as int, hi as int).drop_last() =~= s@.subrange(
            lo as int,
            hi - 1,
        ));
        hi = hi - 1;
    }
    (lo, hi)
}


// ---------------------------------------------------------------------------
// Decimal numbers (`str::parse` for unsigned integers, `Display` for them)
// ---------------------------------------------------------------------------

pub open spec fn is_digit(c: char) -> bool {
    '0' <= c <= '9'
}

pub open spec fn all_digits(s: Seq<char>) -> bool {
    forall|k: int| 0 <= k < s.len() ==> is_digit(#[trigger] s[k])
}

/// The number written by the decimal digits `s`.
pub open spec fn digits_value(s: Seq<char>) -> nat
    decreases s.len(),
{
    if s.len() == 0 {
        0
    } else {
        (digits_value(s.drop_last()) * 10 + (s.last() as int - '0' as int)) as nat
    }
}

/// What `str::parse` gives for an unsigned integer type before its range is
/// checked: an optional `'+'` and at least one decimal digit, nothing else.
pub open spec fn parse_unsigned(s: Seq<char>) -> Option<nat> {
    let body = if s.len() > 0 && s[0] == '+' {
        s.skip(1)
    } else {
        s
    };
    if body.len() > 0 && all_digits(body) {
        Some(digits_value(body))
    } else {
        None
    }
}

/// What `str::parse` gives for an unsigned integer type whose largest value is `max`.
pub open spec fn parse_bounded(s: Seq<char>, max: nat) -> Option<nat> {
    match parse_unsigned(s) {
        Some(v) => if v <= max {
            Some(v)
        } else {
            None
        },
        None => None,
    }
}

proof fn lemma_digits_value_prefix_all(s: Seq<char>, k: int)
    requires
        0 <= k <= s.len(),
        all_digits(s),
    ensures
        digits_value(s.take(k)) <= digits_value(s),
    decreases s.len(),
{
    if k < s.len() {
        assert(s.drop_last().take(k) =~= s.take(k));
        assert(all_digits(s.drop_last()));
        lemma_digits_value_prefix_all(s.drop_last(), k);
        assert(is_digit(s[s.len() - 1]));
    } else {
        assert(s.take(k) =~= s);
    }
}

proof fn lemma_step_bound(acc: int, d: int, max: int)
    requires
        0 <= d <= 9,
        d <= max,
        0 <= acc,
    ensures
        acc > (max - d) / 10 ==> acc * 10 + d > max,
        acc <= (max - d) / 10 ==> acc * 10 + d <= max,
{
    assert(acc > (max - d) / 10 ==> acc * 10 + d > max) by (nonlinear_arith)
        requires
            0 <= d <= max,
    ;
    assert(acc <= (max - d) / 10 ==> acc * 10 + d <= max) by (nonlinear_arith)
        requires
            0 <= d <= max,
            0 <= acc,
    ;
}

/// Parses `s[a..b]` as an unsigned number not above `max`, as `str::parse`
/// does for the unsigned type whose largest value is `max`.
pub fn parse_bounded_at(s: &Vec<char>, a: usize, b: usize, max: u64) -> (r: Option<u64>)
    requires
        a <= b <= s@.len(),
        9 <= max,
    ensures
        match parse_bounded(s@.subrange(a as int, b as int), max as nat) {
            Some(v) => r == Some(v as u64),
            None => r is None,
        },
{
    let ghost t = s@.subrange(a as int, b as int);
    let mut start = a;
    if start < b && s[start] == '+' {
        start = start + 1;
    }
    let ghost body = s@.subrange(start as int, b as int);
    proof {
        if t.len() > 0 && t[0] == '+' {
            assert(body =~= t.skip(1));
        } else {
            assert(body =~= t);
        }
    }
    if start == b {
        return None;
    }
    let mut acc: u64 = 0;
    let mut i = start;
    proof {
        assert(body.take(0) =~= Seq::<char>::empty());
    }
    while i < b
        invariant
            a <= start <= i <= b <= s@.len(),
            start < b,
            9 <= max,
            body == s@.subrange(start as int, b as int),
            body == if t.len() > 0 && t[0] == '+' {
                t.skip(1)
            } else {
                t
            },
            t == s@.subrange(a as int, b as int),
            all_digits(body.take(i - start)),
            acc as nat == digits_value(body.take(i - start)),
            acc <= max,
        decreases b - i,
    {
        let c = s[i];
        proof {
            assert(body.take(i + 1 - start).drop_last() =~= body.take(i - start));
            assert(body.take(i + 1 - start).last() == c);
        }
        if c < '0' || c > '9' {
            proof {
                assert(!is_digit(body[i - start]));
            }
            return None;
        }
        let d = (c as u32 - '0' as u32) as u64;
        proof {
            lemma_step_bound(acc as int, d as int, max as int);
        }
        if acc > (max - d) / 10 {
            proof {
                if all_digits(body) {
                    lemma_digits_value_prefix_all(body, i + 1 - start);
                }
            }
            return None;
        }
        acc = acc * 10 + d;
        proof {
            assert(all_digits(body.take(i + 1 - start)));
        }
        i = i + 1;
    }
    proof {
        assert(body.take(b - start) =~= body);
    }
    Some(acc)
}

/// The decimal digit character for `d < 10`.
pub open spec fn digit_char(d: int) -> char {
    if d == 0 {
        '0'
    } else if d == 1 {
        '1'
    } else if d == 2 {
        '2'
    } else if d == 3 {
        '3'
    } else if d == 4 {
        '4'
    } else if d == 5 {
        '5'
    } else if d == 6 {
        '6'
    } else if d == 7 {
        '7'
    } else if d == 8 {
        '8'
    } else {
        '9'
    }
}

/// The decimal rendering of `n`, as `Display` writes an unsigned integer.
pub open spec fn decimal(n: nat) -> Seq<char>
    decreases n,
{
    if n < 10 {
        seq![digit_char(n as int)]
    } else {
        decimal(n / 10).push(digit_char((n % 10) as int))
    }
}

/// The decimal digits of `n` read back as a number: `n`, for every `n`.
pub proof fn lemma_decimal_parses(n: nat)
    ensures
        decimal(n).len() > 0,
        all_digits(decimal(n)),
        digits_value(decimal(n)) == n,
        parse_unsigned(decimal(n)) == Some(n),
    decreases n,
{
    let d = decimal(n);
    if n < 10 {
        assert(digit_char(n as int) as int - '0' as int == n);
        assert(d.drop_last() =~= Seq::<char>::empty());
        assert(d.last() == digit_char(n as int));
        assert(digits_value(d.drop_last()) == 0);
        assert(digits_value(d) == n);
        assert(is_digit(d[0]));
    } else {
        lemma_decimal_parses(n / 10);
        let m = (n % 10) as int;
        assert(digit_char(m) as int - '0' as int == m);
        assert(d.drop_last() =~= decimal(n / 10));
        assert forall|k: int| 0 <= k < d.len() implies is_digit(#[trigger] d[k]) by {
            if k < d.len() - 1 {
                assert(d[k] == decimal(n / 10)[k]);
            }
        }
        assert(d.last() == digit_char(m));
        assert(digits_value(d) == digits_value(decimal(n / 10)) * 10 + m);
        assert((n / 10) * 10 + m == n);
    }
    assert(d[0] != '+') by {
        assert(is_digit(d[0]));
    }
}

fn digit_to_char(d: u64) -> (c: char)
    requires
        d < 10,
    ensures
        c == digit_char(d as int),
{
    if d == 0 {
        '0'
    } else if d == 1 {
        '1'
    } else if d == 2 {
        '2'
    } else if d == 3 {
        '3'
    } else if d == 4 {
        '4'
    } else if d == 5 {
        '5'
    } else if d == 6 {
        '6'
    } else if d == 7 {
        '7'
    } else if d == 8 {
        '8'
    } else {
        '9'
    }
}

/// Appends the decimal rendering of `n` to `out`.
pub fn push_decimal(out: &mut String, n: u64)
    ensures
        final(out)@ == old(out)@ + decimal(n as nat),
    decreases n,
{
    if n >= 10 {
        push_decimal(out, n / 10);
    }
    out.push(digit_to_char(n % 10));
    assert(out@ =~= old(out)@ + decimal(n as nat));
}


// ---------------------------------------------------------------------------
// Searching for a character
// ---------------------------------------------------------------------------

/// The index of the first `c` in `s`.
pub open spec fn find_char(s: Seq<char>, c: char) -> Option<int>
    decreases s.len(),
{
    if s.len() == 0 {
        None
    } else {
        match find_char(s.drop_last(), c) {
            Some(i) => Some(i),
            None => if s.last() == c {
                Some(s.len() - 1)
            } else {
                None
            },
        }
    }
}

pub proof fn lemma_find_char(s: Seq<char>, c: char)
    ensures
        match find_char(s, c) {
            Some(i) => 0 <= i < s.len() && s[i] == c && forall|k: int| 0 <= k < i ==> s[k] != c,
            None => forall|k: int| 0 <= k < s.len() ==> s[k] != c,
        },
    decreases s.len(),
{
    if s.len() > 0 {
        let d = s.drop_last();
        lemma_find_char(d, c);
        assert(forall|k: int| 0 <= k < d.len() ==> d[k] == s[k]);
    }
}

/// `s.split_once(c)`: the parts before and after the first `c`.
pub open spec fn split_once(s: Seq<char>, c: char) -> Option<(Seq<char>, Seq<char>)> {
    match find_char(s, c) {
        Some(i) => Some((s.take(i), s.skip(i + 1))),
        None => None,
    }
}

/// The position of the first `c` in `s[a..b]`.
pub fn find_char_at(s: &Vec<char>, a: usize, b: usize, c: char) -> (r: Option<usize>)
    requires
        a <= b <= s@.len(),
    ensures
        match r {
            Some(j) => a <= j < b && find_char(s@.subrange(a as int, b as int), c) == Some(j - a),
            None => find_char(s@.subrange(a as int, b as int), c) is None,
        },
{
    let ghost t = s@.subrange(a as int, b as int);
    proof {
        lemma_find_char(t, c);
    }
    let mut j = a;
    while j < b
        invariant
            a <= j <= b <= s@.len(),
            t == s@.subrange(a as int, b as int),
            forall|k: int| 0 <= k < j - a ==> t[k] != c,
            match find_char(t, c) {
                Some(i) => 0 <= i < t.len() && t[i] == c && forall|k: int| 0 <= k < i ==> t[k] != c,
                None => forall|k: int| 0 <= k < t.len() ==> t[k] != c,
            },
        decreases b - j,
    {
        if s[j] == c {
            assert(t[j - a] == c);
            return Some(j);
        }
        assert(t[j - a] != c);
        j = j + 1;
    }
    None
}

/// `s` without every trailing repetition of `p` (`trim_end_matches(p)`).
pub open spec fn trim_end_matches(s: Seq<char>, p: Seq<char>) -> Seq<char>
    decreases s.len(),
{
    if p.len() > 0 && has_suffix(s, p) {
        trim_end_matches(s.take(s.len() - p.len()), p)
    } else {
        s
    }
}

/// The end of `trim_end_matches(s[a..b], p)` for a non-empty `p`.
pub fn trim_end_matches_at(s: &Vec<char>, a: usize, b: usize, p: &[char]) -> (e: usize)
    requires
        a <= b <= s@.len(),
        p@.len() > 0,
    ensures
        a <= e <= b,
        s@.subrange(a as int, e as int) == trim_end_matches(s@.subrange(a as int, b as int), p@),
{
    let mut e = b;
    while e - a >= p.len() && equals_at(s, e - p.len(), e, p)
        invariant
            a <= e <= b <= s@.len(),
            p@.len() > 0,
            trim_end_matches(s@.subrange(a as int, b as int), p@) == trim_end_matches(
                s@.subrange(a as int, e as int),
                p@,
            ),
        decreases e - a,
    {
        proof {
            let t = s@.subrange(a as int, e as int);
            assert(t.skip(t.len() - p@.len()) =~= s@.subrange(e - p@.len(), e as int));
            assert(t.take(t.len() - p@.len()) =~= s@.subrange(a as int, e - p@.len()));
        }
        e = e - p.len();
    }
    proof {
        let t = s@.subrange(a as int, e as int);
        if t.len() >= p@.len() {
            assert(t.skip(t.len() - p@.len()) =~= s@.subrange(e - p@.len(), e as int));
        }
    }
    e
}


// ---------------------------------------------------------------------------
// Bytes to text
// ---------------------------------------------------------------------------

/// What `String::from_utf8_lossy` makes of `bytes`.
pub uninterp spec fn lossy_utf8(bytes: Seq<u8>) -> Seq<char>;

/// `String::from_utf8_lossy`: the text of `bytes`, each invalid sequence
/// replaced by U+FFFD.  The contract names the result and states that valid
/// UTF-8 is decoded unchanged; which replacements it makes elsewhere is left
/// unsaid.
#[verifier::external_body]
pub(crate) fn utf8_lossy(bytes: &[u8]) -> (r: String)
    ensures
        r@ == lossy_utf8(bytes@),
        valid_utf8(bytes@) ==> r@ == decode_utf8(bytes@),
{
    String::from_utf8_lossy(bytes).into_owned()
}

/// `std::str::from_utf8`: the text of `bytes` if they are valid UTF-8.
#[verifier::external_body]
pub(crate) fn utf8_strict(bytes: &[u8]) -> (r: Option<String>)
    ensures
        r is Some <==> valid_utf8(bytes@),
        r matches Some(t) ==> t@ == decode_utf8(bytes@),
{
    match std::str::from_utf8(bytes) {
        Ok(t) => Some(t.to_owned()),
        Err(_) => None,
    }
}


// ---------------------------------------------------------------------------
// Fields
// ---------------------------------------------------------------------------

/// The prefix of `s` before its first `c` (`s.split(c).next()`).
pub open spec fn before_char(s: Seq<char>, c: char) -> Seq<char>
    decreases s.len(),
{
    if s.len() == 0 {
        s
    } else if s[0] == c {
        Seq::<char>::empty()
    } else {
        seq![s[0]] + before_char(s.skip(1), c)
    }
}

/// The end of the prefix of `s[a..b]` before its first `c`.
pub fn before_char_end(s: &Vec<char>, a: usize, b: usize, c: char) -> (e: usize)
    requires
        a <= b <= s@.len(),
    ensures
        a <= e <= b,
        s@.subrange(a as int, e as int) == before_char(s@.subrange(a as int, b as int), c),
{
    let mut j = a;
    proof {
        assert(s@.subrange(a as int, a as int) =~= Seq::<char>::empty());
    }
    while j < b && s[j] != c
        invariant
            a <= j <= b <= s@.len(),
            before_char(s@.subrange(a as int, b as int), c) == s@.subrange(a as int, j as int)
                + before_char(s@.subrange(j as int, b as int), c),
        decreases b - j,
    {
        proof {
            let t = s@.subrange(j as int, b as int);
            assert(t.skip(1) =~= s@.subrange(j + 1, b as int));
            assert(s@.subrange(a as int, j as int) + seq![t[0]] =~= s@.subrange(a as int, j + 1));
        }
        j = j + 1;
    }
    proof {
        let t = s@.subrange(j as int, b as int);
        assert(before_char(t, c) =~= Seq::<char>::empty());
        assert(s@.subrange(a as int, j as int) + Seq::<char>::empty() =~= s@.subrange(
            a as int,
            j as int,
        ));
    }
    j
}

/// The part of `s` after its last `c`, or all of `s` without one
/// (`s.rsplit(c).next()`).
pub open spec fn after_last(s: Seq<char>, c: char) -> Seq<char>
    decreases s.len(),
{
    if s.len() == 0 {
        s
    } else if s.last() == c {
        Seq::<char>::empty()
    } else {
        after_last(s.drop_last(), c).push(s.last())
    }
}

/// What follows the last `c` of `a + c + b` is `b`, when `b` has no `c`.
pub proof fn lemma_after_last_joined(a: Seq<char>, c: char, b: Seq<char>)
    requires
        forall|k: int| 0 <= k < b.len() ==> b[k] != c,
    ensures
        after_last(a + seq![c] + b, c) == b,
    decreases b.len(),
{
    let s = a + seq![c] + b;
    if b.len() == 0 {
        assert(s.last() == c);
    } else {
        lemma_after_last_joined(a, c, b.drop_last());
        assert(s.drop_last() =~= a + seq![c] + b.drop_last());
        assert(s.last() == b.last());
        assert(b.drop_last().push(b.last()) =~= b);
    }
}

/// The start of the part of `s[a..b]` after its last `c`.
pub fn after_last_start(s: &Vec<char>, a: usize, b: usize, c: char) -> (st: usize)
    requires
        a <= b <= s@.len(),
    ensures
        a <= st <= b,
        s@.subrange(st as int, b as int) == after_last(s@.subrange(a as int, b as int), c),
{
    let mut j = b;
    proof {
        assert(s@.subrange(b as int, b as int) =~= Seq::<char>::empty());
    }
    while j > a && s[j - 1] != c
        invariant
            a <= j <= b <= s@.len(),
            after_last(s@.subrange(a as int, b as int), c) == after_last(
                s@.subrange(a as int, j as int),
                c,
            ) + s@.subrange(j as int, b as int),
        decreases j - a,
    {
        proof {
            let t = s@.subrange(a as int, j as int);
            assert(t.drop_last() =~= s@.subrange(a as int, j - 1));
            assert(seq![t.last()] + s@.subrange(j as int, b as int) =~= s@.subrange(j - 1, b as int));
            assert(after_last(t.drop_last(), c).push(t.last()) + s@.subrange(j as int, b as int)
                =~= after_last(t.drop_last(), c) + s@.subrange(j - 1, b as int));
        }
        j = j - 1;
    }
    proof {
        let t = s@.subrange(a as int, j as int);
        assert(after_last(t, c) =~= Seq::<char>::empty());
        assert(Seq::<char>::empty() + s@.subrange(j as int, b as int) =~= s@.subrange(
            j as int,
            b as int,
        ));
    }
    j
}

pub open spec fn trim_start_char(s: Seq<char>, c: char) -> Seq<char>
    decreases s.len(),
{
    if s.len() > 0 && s[0] == c {
        trim_start_char(s.skip(1), c)
    } else {
        s
    }
}

pub open spec fn trim_end_char(s: Seq<char>, c: char) -> Seq<char>
    decreases s.len(),
{
    if s.len() > 0 && s.last() == c {
        trim_end_char(s.drop_last(), c)
    } else {
        s
    }
}

/// `s` without every leading and trailing `c` (`s.trim_matches(c)`).
pub open spec fn trim_char(s: Seq<char>, c: char) -> Seq<char> {
    trim_end_char(trim_start_char(s, c), c)
}

/// The range of `trim_char(s[a..b], c)`.
pub fn trim_char_range(s: &Vec<char>, a: usize, b: usize, c: char) -> (r: (usize, usize))
    requires
        a <= b <= s@.len(),
    ensures
        a <= r.0 <= r.1 <= b,
        piece(s@, r) == trim_char(s@.subrange(a as int, b as int), c),
{
    let mut lo = a;
    while lo < b && s[lo] == c
        invariant
            a <= lo <= b <= s@.len(),
            trim_start_char(s@.subrange(a as int, b as int), c) == trim_start_char(
                s@.subrange(lo as int, b as int),
                c,
            ),
        decreases b - lo,
    {
        assert(s@.subrange(lo as int, b as int).skip(1) =~= s@.subrange(lo + 1, b as int));
        lo = lo + 1;
    }
    let mut hi = b;
    while hi > lo && s[hi - 1] == c
        invariant
            a <= lo <= hi <= b <= s@.len(),
            trim_end_char(s@.subrange(lo as int, b as int), c) == trim_end_char(
                s@.subrange(lo as int, hi as int),
                c,
            ),
        decreases hi - lo,
    {
        assert(s@.subrange(lo as int, hi as int).drop_last() =~= s@.subrange(
            lo as int,
            hi - 1,
        ));
        hi = hi - 1;
    }
    (lo, hi)
}

/// `p` occurs in `s` (`str::contains`).
pub open spec fn contains_text(s: Seq<char>, p: Seq<char>) -> bool {
    exists|i: int| 0 <= i && i + p.len() <= s.len() && #[trigger] s.subrange(i, i + p.len()) == p
}

/// Whether `p` occurs in `s[a..b]`.
pub fn contains_at(s: &Vec<char>, a: usize, b: usize, p: &[char]) -> (r: bool)
    requires
        a <= b <= s@.len(),
    ensures
        r == contains_text(s@.subrange(a as int, b as int), p@),
{
    let ghost t = s@.subrange(a as int, b as int);
    if p.len() > b - a {
        return false;
    }
    if p.len() == 0 {
        assert(t.subrange(0int, 0int + p@.len()) =~= p@);
        return true;
    }
    let mut i = a;
    let last = b - p.len();
    while i <= last
        invariant
            a <= i <= last + 1,
            last == b - p@.len(),
            last < b,
            b <= s@.len(),
            p@.len() <= b - a,
            t == s@.subrange(a as int, b as int),
            forall|k: int| 0 <= k < i - a ==> #[trigger] t.subrange(k, k + p@.len()) != p@,
        decreases last + 1 - i,
    {
        if equals_at(s, i, i + p.len(), p) {
            assert(t.subrange(i - a, i - a + p@.len()) =~= s@.subrange(i as int, i + p@.len()));
            return true;
        }
        assert(t.subrange(i - a, i - a + p@.len()) =~= s@.subrange(i as int, i + p@.len()));
        i = i + 1;
    }
    proof {
        assert forall|k: int| 0 <= k && k + p@.len() <= t.len() implies #[trigger] t.subrange(
            k,
            k + p@.len(),
        ) != p@ by {
            assert(k < i - a);
        }
    }
    false
}

/// ASCII letters in lower case, other characters unchanged.
pub open spec fn ascii_lower(c: char) -> char {
    if 'A' <= c <= 'Z' {
        ((c as u8) + 32) as char
    } else {
        c
    }
}

/// `s` and `p` are equal but for the case of ASCII letters (`eq_ignore_ascii_case`).
pub open spec fn eq_ignore_ascii_case(s: Seq<char>, p: Seq<char>) -> bool {
    s.len() == p.len() && forall|k: int| 0 <= k < s.len() ==> ascii_lower(s[k]) == ascii_lower(p[k])
}

fn lower(c: char) -> (r: char)
    ensures
        r == ascii_lower(c),
{
    if 'A' <= c && c <= 'Z' {
        ((c as u8) + 32) as char
    } else {
        c
    }
}

/// Whether `s[a..b]` equals `p` but for the case of ASCII letters.
pub fn eq_ignore_ascii_case_at(s: &Vec<char>, a: usize, b: usize, p: &[char]) -> (r: bool)
    requires
        a <= b <= s@.len(),
    ensures
        r == eq_ignore_ascii_case(s@.subrange(a as int, b as int), p@),
{
    let ghost t = s@.subrange(a as int, b as int);
    if p.len() != b - a {
        return false;
    }
    let mut j: usize = 0;
    while j < p.len()
        invariant
            a <= b <= s@.len(),
            t == s@.subrange(a as int, b as int),
            p@.len() == t.len(),
            j <= p@.len(),
            forall|k: int| 0 <= k < j ==> ascii_lower(t[k]) == ascii_lower(p@[k]),
        decreases p@.len() - j,
    {
        if lower(s[a + j]) != lower(p[j]) {
            return false;
        }
        j = j + 1;
    }
    true
}

} // verus!
