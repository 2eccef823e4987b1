//! How the scanner for extended nonterminals (`<x>?`, `<x>+`, `<x>*`) behaves when
//! texts are cut and joined: a token only depends on the characters from its start
//! up to its operator.
use vstd::prelude::*;
use super::pattern::Pattern;
use super::pattern::in_body;
use super::pattern::is_op;
use super::pattern::body_end;
use super::pattern::match_at;
use super::pattern::match_end;
use super::pattern::spans;
use super::pattern::spans_from;
use super::pattern::tokens;
use super::pattern::lemma_body_end_bounds;
use super::pattern::lemma_spans_from_ordered;
use super::pattern::contains_token;
use super::pattern::pieces;
use super::pattern::pieces_upto;

verus! {

/// No extended nonterminal starts anywhere in `s`.
pub open spec fn no_ext(s: Seq<char>) -> bool {
    forall|i: int| !match_at(Pattern::ExtendedNonterminal, s, i)
}

/// `s` is empty or ends with `>`.
pub open spec fn closed_end(s: Seq<char>) -> bool {
    s.len() == 0 || s.last() == '>'
}

/// `s` is empty or does not start with an operator.
pub open spec fn no_op_start(s: Seq<char>) -> bool {
    s.len() == 0 || !is_op(s[0])
}

/// A name of the shape `<body>`: `<`, body characters, `>`.
pub open spec fn name_shaped(n: Seq<char>) -> bool {
    &&& n.len() >= 2
    &&& n[0] == '<'
    &&& n.last() == '>'
    &&& forall|k: int| 0 < k < n.len() - 1 ==> in_body(Pattern::ExtendedNonterminal, #[trigger] n[k])
}

/// Scanning a body in a text with a prefix is scanning it in the rest, shifted.
pub proof fn lemma_body_end_shift(p: Pattern, u: Seq<char>, v: Seq<char>, k: int)
    requires
        0 <= k,
    ensures
        body_end(p, u + v, u.len() + k) == u.len() + body_end(p, v, k),
    decreases v.len() - k,
{
    if k < v.len() {
        assert((u + v)[u.len() + k] == v[k]);
        if in_body(p, v[k]) {
            lemma_body_end_shift(p, u, v, k + 1);
        }
    }
}

/// A token starts in a text with a prefix exactly where it starts in the rest.
pub proof fn lemma_match_shift(u: Seq<char>, v: Seq<char>, i: int)
    requires
        0 <= i,
    ensures
        match_at(Pattern::ExtendedNonterminal, u + v, u.len() + i) == match_at(Pattern::ExtendedNonterminal, v, i),
{
    let p = Pattern::ExtendedNonterminal;
    lemma_body_end_shift(p, u, v, i + 1);
    lemma_body_end_bounds(p, v, i + 1);
    let b = body_end(p, v, i + 1);
    let w = u + v;
    let c = u.len() + i;
    assert(body_end(p, w, c + 1) == u.len() + b);
    if i < v.len() {
        assert(w[c] == v[i]);
        if b < v.len() {
            assert(w[u.len() + b] == v[b]);
            if b + 1 < v.len() {
                assert(w[u.len() + b + 1] == v[b + 1]);
            }
        }
    }
}

/// A body that ends inside `w` ends at the same place in `w + z`.
pub proof fn lemma_body_end_prefix(p: Pattern, w: Seq<char>, z: Seq<char>, k: int)
    requires
        0 <= k,
        body_end(p, w, k) < w.len(),
    ensures
        body_end(p, w + z, k) == body_end(p, w, k),
    decreases w.len() - k,
{
    if k < w.len() {
        assert((w + z)[k] == w[k]);
        if in_body(p, w[k]) {
            lemma_body_end_prefix(p, w, z, k + 1);
        }
    }
}

/// A body that runs to the end of `w` goes on in `w + z` as from the end of `w`.
pub proof fn lemma_body_end_through(p: Pattern, w: Seq<char>, z: Seq<char>, k: int)
    requires
        0 <= k <= w.len(),
        body_end(p, w, k) == w.len(),
    ensures
        body_end(p, w + z, k) == body_end(p, w + z, w.len() as int),
    decreases w.len() - k,
{
    if k < w.len() {
        assert((w + z)[k] == w[k]);
        if in_body(p, w[k]) {
            lemma_body_end_through(p, w, z, k + 1);
        }
    }
}

/// After a prefix without tokens that ends with `>`, what follows cannot complete a
/// token that starts in the prefix unless it starts with an operator.
pub proof fn lemma_prefix_no_ext(w: Seq<char>, z: Seq<char>, i: int)
    requires
        no_ext(w),
        closed_end(w),
        no_op_start(z),
        i < w.len(),
    ensures
        !match_at(Pattern::ExtendedNonterminal, w + z, i),
{
    let p = Pattern::ExtendedNonterminal;
    if 0 <= i && (w + z)[i] == '<' {
        assert(w[i] == '<');
        assert(w.last() == '>');
        assert(i < w.len() - 1);
        lemma_body_end_bounds(p, w, i + 1);
        let b = body_end(p, w, i + 1);
        assert(b < w.len()) by {
            if b >= w.len() {
                assert(in_body(p, w[w.len() - 1]));
            }
        }
        lemma_body_end_prefix(p, w, z, i + 1);
        assert(!match_at(p, w, i));
        if b + 1 < w.len() {
            assert((w + z)[b] == w[b]);
            assert((w + z)[b + 1] == w[b + 1]);
        } else if b + 1 < (w + z).len() {
            assert((w + z)[b + 1] == z[0]);
        }
    }
}

/// Where a token text occurs, a token starts.
pub proof fn lemma_occurrence_is_match(s: Seq<char>, t: Seq<char>, q: int)
    requires
        match_at(Pattern::ExtendedNonterminal, t, 0),
        match_end(Pattern::ExtendedNonterminal, t, 0) == t.len(),
        0 <= q,
        q + t.len() <= s.len(),
        s.subrange(q, q + t.len()) == t,
    ensures
        match_at(Pattern::ExtendedNonterminal, s, q),
{
    let p = Pattern::ExtendedNonterminal;
    let pre = s.subrange(0, q);
    let rest = s.subrange(q + t.len(), s.len() as int);
    assert(s =~= pre + (t + rest));
    lemma_match_shift(pre, t + rest, 0);
    lemma_body_end_prefix(p, t, rest, 1);
    let b = body_end(p, t, 1);
    assert((t + rest)[0] == t[0]);
    assert((t + rest)[b] == t[b]);
    assert((t + rest)[b + 1] == t[b + 1]);
}

/// Two continuations that both start with `<` make no difference to the tokens that
/// start in `x`.
pub proof fn lemma_same_after_open(x: Seq<char>, y1: Seq<char>, y2: Seq<char>, i: int)
    requires
        y1.len() > 0,
        y2.len() > 0,
        y1[0] == '<',
        y2[0] == '<',
        0 <= i < x.len(),
    ensures
        match_at(Pattern::ExtendedNonterminal, x + y1, i) == match_at(Pattern::ExtendedNonterminal, x + y2, i),
{
    let p = Pattern::ExtendedNonterminal;
    assert((x + y1)[i] == x[i]);
    assert((x + y2)[i] == x[i]);
    lemma_body_end_bounds(p, x, i + 1);
    let b = body_end(p, x, i + 1);
    if b < x.len() {
        lemma_body_end_prefix(p, x, y1, i + 1);
        lemma_body_end_prefix(p, x, y2, i + 1);
        assert((x + y1)[b] == x[b]);
        assert((x + y2)[b] == x[b]);
        if b + 1 < x.len() {
            assert((x + y1)[b + 1] == x[b + 1]);
            assert((x + y2)[b + 1] == x[b + 1]);
        } else {
            assert((x + y1)[b + 1] == y1[0]);
            assert((x + y2)[b + 1] == y2[0]);
        }
    } else {
        lemma_body_end_through(p, x, y1, i + 1);
        lemma_body_end_through(p, x, y2, i + 1);
        lemma_body_end_shift(p, x, y1, 0);
        lemma_body_end_shift(p, x, y2, 0);
        assert((x + y1)[x.len() as int] == y1[0]);
        assert((x + y2)[x.len() as int] == y2[0]);
    }
}

/// A name of shape `<body>` at the end of a text starts no token there.
pub proof fn lemma_name_at_end(x: Seq<char>, n: Seq<char>, i: int)
    requires
        name_shaped(n),
        x.len() <= i,
    ensures
        !match_at(Pattern::ExtendedNonterminal, x + n, i),
{
    let p = Pattern::ExtendedNonterminal;
    let j = i - x.len();
    lemma_match_shift(x, n, j);
    if 0 <= j < n.len() && n[j] == '<' {
        assert(j == 0) by {
            if j > 0 {
                if j < n.len() - 1 {
                    assert(in_body(p, n[j]));
                }
            }
        }
        lemma_body_end_bounds(p, n, 1);
        let b = body_end(p, n, 1);
        assert(b <= n.len() - 1) by {
            if b > n.len() - 1 {
                assert(in_body(p, n[n.len() - 1]));
            }
        }
    }
}

/// A text in which no token starts has no tokens.
pub proof fn lemma_no_ext_tokens(s: Seq<char>)
    requires
        no_ext(s),
    ensures
        tokens(Pattern::ExtendedNonterminal, s).len() == 0,
{
    lemma_no_ext_spans(s, 0);
}

proof fn lemma_no_ext_spans(s: Seq<char>, k: int)
    requires
        no_ext(s),
        0 <= k,
    ensures
        spans_from(Pattern::ExtendedNonterminal, s, k).len() == 0,
    decreases s.len() - k,
{
    if k < s.len() {
        lemma_no_ext_spans(s, k + 1);
    }
}

/// A token of any shape starts in a text with a prefix exactly where it starts in
/// the rest.
pub proof fn lemma_match_shift_any(p: Pattern, u: Seq<char>, v: Seq<char>, i: int)
    requires
        0 <= i,
    ensures
        match_at(p, u + v, u.len() + i) == match_at(p, v, i),
{
    lemma_body_end_shift(p, u, v, i + 1);
    lemma_body_end_bounds(p, v, i + 1);
    let b = body_end(p, v, i + 1);
    let w = u + v;
    assert(body_end(p, w, u.len() + i + 1) == u.len() + b);
    if i < v.len() {
        assert(w[u.len() + i] == v[i]);
        if b < v.len() {
            assert(w[u.len() + b] == v[b]);
            if b + 1 < v.len() {
                assert(w[u.len() + b + 1] == v[b + 1]);
            }
        }
    }
}

/// A token that ends inside `w` is still one in `w + z`.
pub proof fn lemma_match_within(p: Pattern, w: Seq<char>, z: Seq<char>, i: int)
    requires
        match_at(p, w, i),
    ensures
        match_at(p, w + z, i),
{
    lemma_body_end_bounds(p, w, i + 1);
    lemma_body_end_prefix(p, w, z, i + 1);
    let b = body_end(p, w, i + 1);
    assert((w + z)[i] == w[i]);
    assert((w + z)[b] == w[b]);
    if b + 1 < w.len() {
        assert((w + z)[b + 1] == w[b + 1]);
    }
}

/// The end of the `j`-th span of `s` (the start for `j == 0`).
pub open spec fn span_end_before(p: Pattern, s: Seq<char>, j: int) -> int {
    if j <= 0 {
        0
    } else {
        spans(p, s)[j - 1].1
    }
}

/// No token starts between span `j - 1` and span `j` (or the end).
pub proof fn lemma_no_match_between(p: Pattern, s: Seq<char>, j: int, x: int)
    requires
        0 <= j <= spans(p, s).len(),
        span_end_before(p, s, j) <= x,
        j < spans(p, s).len() ==> x < spans(p, s)[j].0,
    ensures
        !match_at(p, s, x),
{
    lemma_spans_from_ordered(p, s, 0);
    let sp = spans(p, s);
    if match_at(p, s, x) {
        assert(0 <= x < s.len());
        let u = choose|u: int| 0 <= u < sp.len() && (#[trigger] sp[u]).0 <= x < sp[u].1;
        if u < j {
            if u < j - 1 {
                assert(sp[u].1 <= sp[j - 1].0);
            }
        } else if u > j {
            assert(sp[j].1 <= sp[u].0);
        }
    }
}

/// The text between span `j - 1` and span `j` (or the end) holds no token.
pub proof fn lemma_gap_no_token(p: Pattern, s: Seq<char>, j: int, y: int)
    requires
        0 <= j <= spans(p, s).len(),
        0 <= span_end_before(p, s, j) <= y <= s.len(),
        j < spans(p, s).len() ==> y <= spans(p, s)[j].0,
    ensures
        !contains_token(p, s.subrange(span_end_before(p, s, j), y)),
{
    let x = span_end_before(p, s, j);
    let gap = s.subrange(x, y);
    if contains_token(p, gap) {
        let i = choose|i: int| match_at(p, gap, i);
        let rest = s.subrange(y, s.len() as int);
        lemma_match_within(p, gap, rest, i);
        assert(s =~= s.subrange(0, x) + (gap + rest));
        lemma_match_shift_any(p, s.subrange(0, x), gap + rest, i);
        lemma_no_match_between(p, s, j, x + i);
    }
}

/// A piece of `s` is a token of `s` when it is marked as one, and holds no token
/// otherwise.
pub open spec fn piece_ok(p: Pattern, s: Seq<char>, x: (Seq<char>, bool)) -> bool {
    if x.1 {
        tokens(p, s).contains(x.0)
    } else {
        !contains_token(p, x.0)
    }
}

proof fn lemma_pieces_upto_ok(p: Pattern, s: Seq<char>, m: int)
    requires
        0 <= m <= spans(p, s).len(),
    ensures
        pieces_upto(s, spans(p, s).take(m)).1 == span_end_before(p, s, m),
        forall|k: int|
            0 <= k < pieces_upto(s, spans(p, s).take(m)).0.len() ==> piece_ok(
                p,
                s,
                #[trigger] pieces_upto(s, spans(p, s).take(m)).0[k],
            ),
    decreases m,
{
    let sp = spans(p, s);
    lemma_spans_from_ordered(p, s, 0);
    if m == 0 {
        assert(sp.take(0) =~= Seq::<(int, int)>::empty());
    } else {
        lemma_pieces_upto_ok(p, s, m - 1);
        assert(sp.take(m).drop_last() =~= sp.take(m - 1));
        assert(sp.take(m).last() == sp[m - 1]);
        let (acc, last) = pieces_upto(s, sp.take(m - 1));
        let (a, b) = sp[m - 1];
        assert(0 <= a);
        assert(a < b);
        assert(b <= s.len());
        assert(0 <= last <= a) by {
            if m - 1 > 0 {
                assert(0 <= sp[m - 2].0);
                assert(sp[m - 2].1 <= sp[m - 1].0);
            }
        }
        let all = pieces_upto(s, sp.take(m)).0;
        let gap = if last < a {
            seq![(s.subrange(last, a), false)]
        } else {
            Seq::<(Seq<char>, bool)>::empty()
        };
        assert(all == acc + gap + seq![(s.subrange(a, b), true)]);
        assert(tokens(p, s)[m - 1] == s.subrange(a, b));
        assert forall|k: int| 0 <= k < all.len() implies piece_ok(p, s, #[trigger] all[k]) by {
            if k < acc.len() {
                assert(all[k] == acc[k]);
            } else if k < acc.len() + gap.len() {
                assert(all[k] == (s.subrange(last, a), false));
                lemma_gap_no_token(p, s, m - 1, a);
            } else {
                assert(all[k] == (s.subrange(a, b), true));
                assert(tokens(p, s).contains(s.subrange(a, b)));
            }
        }
    }
}

/// The end of a span lies inside the text.
proof fn lemma_span_end_bounds(p: Pattern, s: Seq<char>, j: int)
    requires
        0 <= j <= spans(p, s).len(),
    ensures
        0 <= span_end_before(p, s, j) <= s.len(),
{
    if j > 0 {
        lemma_spans_from_ordered(p, s, 0);
        let sp = spans(p, s);
        assert(0 <= sp[j - 1].0);
        assert(sp[j - 1].0 < sp[j - 1].1);
        assert(sp[j - 1].1 <= s.len());
    }
}

/// Every piece of `s` is a token of `s` when marked as one, and holds no token
/// otherwise.
pub proof fn lemma_pieces_ok(p: Pattern, s: Seq<char>)
    ensures
        forall|k: int| 0 <= k < pieces(p, s).len() ==> piece_ok(p, s, #[trigger] pieces(p, s)[k]),
{
    let sp = spans(p, s);
    let n = sp.len() as int;
    lemma_pieces_upto_ok(p, s, n);
    lemma_span_end_bounds(p, s, n);
    assert(sp.take(n) =~= sp);
    let (acc, last) = pieces_upto(s, sp);
    let all = pieces(p, s);
    if last < s.len() {
        assert(all == acc.push((s.subrange(last, s.len() as int), false)));
        lemma_gap_no_token(p, s, n, s.len() as int);
        assert forall|k: int| 0 <= k < all.len() implies piece_ok(p, s, #[trigger] all[k]) by {
            if k < acc.len() {
                assert(all[k] == acc[k]);
            }
        }
    } else {
        assert(all == acc);
    }
}

} // verus!
