//! The token shapes of the grammar notation and a scanner that finds them.
//!
//! Each shape is an opening character, a run of body characters, a closing
//! character and, for some shapes, one repetition operator:
//!
//! * `Nonterminal`: `<`, any characters but `<`, `>` and space, `>`;
//! * `ExtendedNonterminal`: a nonterminal directly followed by `?`, `+` or `*`;
//! * `Parenthesized`: `(`, any characters but `(` and `)`, `)`, then `?`, `+` or `*`;
//! * `VarSlot`: `@`, at least one character other than `;`, `;`.
//!
//! The scanner reports the leftmost occurrences, scanning on after each one,
//! so occurrences never overlap.
use vstd::prelude::*;

verus! {

/// The token shapes of the grammar notation.
#[derive(Clone, Copy, PartialEq, Eq, Structural)]
pub enum Pattern {
    Nonterminal,
    ExtendedNonterminal,
    Parenthesized,
    VarSlot,
}

pub open spec fn opener(p: Pattern) -> char {
    match p {
        Pattern::Nonterminal => '<',
        Pattern::ExtendedNonterminal => '<',
        Pattern::Parenthesized => '(',
        Pattern::VarSlot => '@',
    }
}

pub open spec fn closer(p: Pattern) -> char {
    match p {
        Pattern::Nonterminal => '>',
        Pattern::ExtendedNonterminal => '>',
        Pattern::Parenthesized => ')',
        Pattern::VarSlot => ';',
    }
}

/// Whether `c` may stand inside the body of a token of shape `p`.
pub open spec fn in_body(p: Pattern, c: char) -> bool {
    match p {
        Pattern::Nonterminal => c != '<' && c != '>' && c != ' ',
        Pattern::ExtendedNonterminal => c != '<' && c != '>' && c != ' ',
        Pattern::Parenthesized => c != '(' && c != ')',
        Pattern::VarSlot => c != ';',
    }
}

/// Whether a token of shape `p` ends with a repetition operator.
pub open spec fn needs_op(p: Pattern) -> bool {
    p == Pattern::ExtendedNonterminal || p == Pattern::Parenthesized
}

/// Whether `c` is a repetition operator of the EBNF notation.
pub open spec fn is_op(c: char) -> bool {
    c == '?' || c == '+' || c == '*'
}

/// The first index at or after `k` whose character cannot stand in a body of shape `p`
/// (or the length of `s` when there is none).
pub open spec fn body_end(p: Pattern, s: Seq<char>, k: int) -> int
    decreases s.len() - k,
{
    if k < 0 || k >= s.len() {
        s.len() as int
    } else if in_body(p, s[k]) {
        body_end(p, s, k + 1)
    } else {
        k
    }
}

/// Whether a token of shape `p` starts at index `i` of `s`.
pub open spec fn match_at(p: Pattern, s: Seq<char>, i: int) -> bool {
    &&& 0 <= i < s.len()
    &&& s[i] == opener(p)
    &&& body_end(p, s, i + 1) < s.len()
    &&& s[body_end(p, s, i + 1)] == closer(p)
    &&& (p == Pattern::VarSlot ==> body_end(p, s, i + 1) > i + 1)
    &&& (needs_op(p) ==> body_end(p, s, i + 1) + 1 < s.len() && is_op(
        s[body_end(p, s, i + 1) + 1],
    ))
}

/// The index just past the token of shape `p` that starts at `i`.
pub open spec fn match_end(p: Pattern, s: Seq<char>, i: int) -> int {
    body_end(p, s, i + 1) + 1 + if needs_op(p) {
        1int
    } else {
        0int
    }
}

pub proof fn lemma_body_end_bounds(p: Pattern, s: Seq<char>, k: int)
    requires
        0 <= k,
    ensures
        k <= body_end(p, s, k) <= s.len() || (k > s.len() && body_end(p, s, k) == s.len()),
        forall|j: int| k <= j < body_end(p, s, k) ==> in_body(p, #[trigger] s[j]),
        body_end(p, s, k) < s.len() ==> !in_body(p, s[body_end(p, s, k)]),
    decreases s.len() - k,
{
    if k < s.len() && in_body(p, s[k]) {
        lemma_body_end_bounds(p, s, k + 1);
    }
}

/// The spans `(start, end)` of the tokens of shape `p` in `s`, scanning from `k`.
pub open spec fn spans_from(p: Pattern, s: Seq<char>, k: int) -> Seq<(int, int)>
    decreases s.len() - k,
{
    if k < 0 || k >= s.len() {
        Seq::empty()
    } else if match_at(p, s, k) && match_end(p, s, k) > k {
        seq![(k, match_end(p, s, k))] + spans_from(p, s, match_end(p, s, k))
    } else {
        spans_from(p, s, k + 1)
    }
}

/// The spans of all tokens of shape `p` in `s`.
pub open spec fn spans(p: Pattern, s: Seq<char>) -> Seq<(int, int)> {
    spans_from(p, s, 0)
}

/// The texts of all tokens of shape `p` in `s`.
pub open spec fn tokens(p: Pattern, s: Seq<char>) -> Seq<Seq<char>> {
    spans(p, s).map_values(|sp: (int, int)| s.subrange(sp.0, sp.1))
}

/// Whether some token of shape `p` occurs in `s`.
pub open spec fn contains_token(p: Pattern, s: Seq<char>) -> bool {
    exists|i: int| match_at(p, s, i)
}

/// Spans lie inside `[lo, len]`, in order, without overlap, and each is a token.
pub open spec fn spans_ordered(p: Pattern, s: Seq<char>, sp: Seq<(int, int)>, lo: int) -> bool {
    &&& forall|t: int|
        0 <= t < sp.len() ==> lo <= #[trigger] sp[t].0 < sp[t].1 <= s.len() && match_at(
            p,
            s,
            sp[t].0,
        ) && sp[t].1 == match_end(p, s, sp[t].0)
    &&& forall|t: int, u: int| 0 <= t < u < sp.len() ==> #[trigger] sp[t].1 <= #[trigger] sp[u].0
}

pub proof fn lemma_spans_from_ordered(p: Pattern, s: Seq<char>, k: int)
    requires
        0 <= k,
    ensures
        spans_ordered(p, s, spans_from(p, s, k), k),
        forall|i: int| k <= i < s.len() && match_at(p, s, i) ==> exists|t: int|
            0 <= t < spans_from(p, s, k).len() && (#[trigger] spans_from(p, s, k)[t]).0 <= i
                < spans_from(p, s, k)[t].1,
    decreases s.len() - k,
{
    if k < s.len() {
        lemma_body_end_bounds(p, s, k + 1);
        if match_at(p, s, k) && match_end(p, s, k) > k {
            let e = match_end(p, s, k);
            lemma_spans_from_ordered(p, s, e);
            let rest = spans_from(p, s, e);
            let all = spans_from(p, s, k);
            assert(all == seq![(k, e)] + rest);
            assert forall|t: int| 0 <= t < all.len() implies k <= #[trigger] all[t].0 < all[t].1
                <= s.len() && match_at(p, s, all[t].0) && all[t].1 == match_end(
                p,
                s,
                all[t].0,
            ) by {
                if t > 0 {
                    assert(all[t] == rest[t - 1]);
                }
            }
            assert forall|t: int, u: int| 0 <= t < u < all.len() implies #[trigger] all[t].1
                <= #[trigger] all[u].0 by {
                assert(all[u] == rest[u - 1]);
                if t > 0 {
                    assert(all[t] == rest[t - 1]);
                }
            }
            assert forall|i: int| k <= i < s.len() && match_at(p, s, i) implies exists|t: int|
                0 <= t < all.len() && (#[trigger] all[t]).0 <= i < all[t].1 by {
                if i < e {
                    assert(all[0] == (k, e));
                } else {
                    let t = choose|t: int| 0 <= t < rest.len() && (#[trigger] rest[t]).0 <= i < rest[t].1;
                    assert(all[t + 1] == rest[t]);
                }
            }
        } else {
            lemma_spans_from_ordered(p, s, k + 1);
            let all = spans_from(p, s, k);
            assert forall|i: int| k <= i < s.len() && match_at(p, s, i) implies exists|t: int|
                0 <= t < all.len() && (#[trigger] all[t]).0 <= i < all[t].1 by {
                if i == k {
                    assert(match_end(p, s, k) > k);
                }
            }
        }
    }
}

/// Whether `c` may stand inside the body of a token of shape `p`.
fn in_body_exec(p: Pattern, c: char) -> (r: bool)
    ensures
        r == in_body(p, c),
{
    match p {
        Pattern::Nonterminal => c != '<' && c != '>' && c != ' ',
        Pattern::ExtendedNonterminal => c != '<' && c != '>' && c != ' ',
        Pattern::Parenthesized => c != '(' && c != ')',
        Pattern::VarSlot => c != ';',
    }
}

fn opener_exec(p: Pattern) -> (c: char)
    ensures
        c == opener(p),
{
    match p {
        Pattern::Nonterminal => '<',
        Pattern::ExtendedNonterminal => '<',
        Pattern::Parenthesized => '(',
        Pattern::VarSlot => '@',
    }
}

fn closer_exec(p: Pattern) -> (c: char)
    ensures
        c == closer(p),
{
    match p {
        Pattern::Nonterminal => '>',
        Pattern::ExtendedNonterminal => '>',
        Pattern::Parenthesized => ')',
        Pattern::VarSlot => ';',
    }
}

fn body_end_exec(p: Pattern, s: &Vec<char>, k: usize) -> (b: usize)
    requires
        k <= s.len(),
    ensures
        b == body_end(p, s@, k as int),
{
    let mut j = k;
    while j < s.len() && in_body_exec(p, s[j])
        invariant
            k <= j <= s.len(),
            body_end(p, s@, j as int) == body_end(p, s@, k as int),
        decreases s.len() - j,
    {
        j = j + 1;
    }
    j
}

/// The end of the token of shape `p` that starts at `i`, if one does.
fn match_at_exec(p: Pattern, s: &Vec<char>, i: usize) -> (r: Option<usize>)
    requires
        i < s.len(),
    ensures
        r is Some <==> match_at(p, s@, i as int),
        r matches Some(e) ==> e == match_end(p, s@, i as int) && i < e <= s.len(),
{
    proof {
        lemma_body_end_bounds(p, s@, i + 1);
    }
    if s[i] != opener_exec(p) {
        return None;
    }
    let b = body_end_exec(p, s, i + 1);
    if b >= s.len() || s[b] != closer_exec(p) {
        return None;
    }
    if p == Pattern::VarSlot && b == i + 1 {
        return None;
    }
    if p == Pattern::ExtendedNonterminal || p == Pattern::Parenthesized {
        if b + 1 >= s.len() {
            return None;
        }
        let c = s[b + 1];
        if c != '?' && c != '+' && c != '*' {
            return None;
        }
        return Some(b + 2);
    }
    Some(b + 1)
}

/// The spans as integers.
pub open spec fn int_spans(v: Seq<(usize, usize)>) -> Seq<(int, int)> {
    v.map_values(|x: (usize, usize)| (x.0 as int, x.1 as int))
}

/// The spans of all tokens of shape `p` in `s`, in order.
pub fn find_spans(p: Pattern, s: &Vec<char>) -> (r: Vec<(usize, usize)>)
    ensures
        int_spans(r@) == spans(p, s@),
{
    let mut r: Vec<(usize, usize)> = Vec::new();
    let mut k: usize = 0;
    while k < s.len()
        invariant
            k <= s.len(),
            spans(p, s@) == int_spans(r@) + spans_from(p, s@, k as int),
        decreases s.len() - k,
    {
        match match_at_exec(p, s, k) {
            Some(e) => {
                let ghost old_r = r@;
                r.push((k, e));
                assert(int_spans(r@) =~= int_spans(old_r) + seq![(k as int, e as int)]);
                k = e;
            },
            None => {
                k = k + 1;
            },
        }
    }
    r
}

/// The characters between consecutive tokens and the tokens themselves, in order,
/// leaving out empty gaps; each piece is paired with whether it is a token.
pub open spec fn pieces_upto(s: Seq<char>, sp: Seq<(int, int)>) -> (Seq<(Seq<char>, bool)>, int)
    decreases sp.len(),
{
    if sp.len() == 0 {
        (Seq::empty(), 0)
    } else {
        let (acc, last) = pieces_upto(s, sp.drop_last());
        let (a, b) = sp.last();
        let gap = if last < a {
            seq![(s.subrange(last, a), false)]
        } else {
            Seq::empty()
        };
        (acc + gap + seq![(s.subrange(a, b), true)], b)
    }
}

/// `s` cut into its tokens of shape `p` and the non-empty text between them.
pub open spec fn pieces(p: Pattern, s: Seq<char>) -> Seq<(Seq<char>, bool)> {
    let (acc, last) = pieces_upto(s, spans(p, s));
    if last < s.len() {
        acc.push((s.subrange(last, s.len() as int), false))
    } else {
        acc
    }
}

/// The texts of the pieces, in order.
pub open spec fn piece_texts(ps: Seq<(Seq<char>, bool)>) -> Seq<Seq<char>> {
    ps.map_values(|x: (Seq<char>, bool)| x.0)
}

/// All the pieces joined back together.
pub open spec fn join(ps: Seq<Seq<char>>) -> Seq<char>
    decreases ps.len(),
{
    if ps.len() == 0 {
        Seq::empty()
    } else {
        join(ps.drop_last()) + ps.last()
    }
}

pub proof fn lemma_join_push(ps: Seq<Seq<char>>, x: Seq<char>)
    ensures
        join(ps.push(x)) == join(ps) + x,
{
    assert(ps.push(x).drop_last() =~= ps);
}

pub proof fn lemma_join_append(ps: Seq<Seq<char>>, qs: Seq<Seq<char>>)
    ensures
        join(ps + qs) == join(ps) + join(qs),
    decreases qs.len(),
{
    if qs.len() == 0 {
        assert(ps + qs =~= ps);
        assert(join(ps) + join(qs) =~= join(ps));
    } else {
        lemma_join_append(ps, qs.drop_last());
        assert((ps + qs).drop_last() =~= ps + qs.drop_last());
        assert(join(ps) + join(qs) =~= join(ps) + join(qs.drop_last()) + qs.last());
    }
}

/// Joining the pieces up to a point gives the text up to that point.
proof fn lemma_pieces_upto_join(p: Pattern, s: Seq<char>, sp: Seq<(int, int)>)
    requires
        spans_ordered(p, s, sp, 0),
    ensures
        join(piece_texts(pieces_upto(s, sp).0)) == s.subrange(0, pieces_upto(s, sp).1),
        0 <= pieces_upto(s, sp).1 <= s.len(),
        sp.len() > 0 ==> pieces_upto(s, sp).1 == sp.last().1,
    decreases sp.len(),
{
    if sp.len() > 0 {
        let prev = sp.drop_last();
        assert(spans_ordered(p, s, prev, 0)) by {
            assert forall|t: int| 0 <= t < prev.len() implies 0 <= #[trigger] prev[t].0
                < prev[t].1 <= s.len() && match_at(p, s, prev[t].0) && prev[t].1 == match_end(
                p,
                s,
                prev[t].0,
            ) by {
                assert(prev[t] == sp[t]);
            }
            assert forall|t: int, u: int| 0 <= t < u < prev.len() implies #[trigger] prev[t].1
                <= #[trigger] prev[u].0 by {
                assert(prev[t] == sp[t]);
                assert(prev[u] == sp[u]);
            }
        }
        lemma_pieces_upto_join(p, s, prev);
        let (acc, last) = pieces_upto(s, prev);
        let (a, b) = sp.last();
        assert(sp.last() == sp[sp.len() - 1]);
        if prev.len() > 0 {
            assert(prev.last() == sp[sp.len() - 2]);
            assert(last <= a);
        }
        let gap = if last < a {
            seq![(s.subrange(last, a), false)]
        } else {
            Seq::empty()
        };
        let all = acc + gap + seq![(s.subrange(a, b), true)];
        assert(piece_texts(all) =~= piece_texts(acc) + piece_texts(gap) + seq![s.subrange(a, b)]);
        lemma_join_append(piece_texts(acc) + piece_texts(gap), seq![s.subrange(a, b)]);
        lemma_join_append(piece_texts(acc), piece_texts(gap));
        lemma_join_push(Seq::empty(), s.subrange(a, b));
        assert(join(Seq::<Seq<char>>::empty()) =~= Seq::<char>::empty());
        if last < a {
            lemma_join_push(Seq::empty(), s.subrange(last, a));
            assert(piece_texts(gap) =~= seq![s.subrange(last, a)]);
            assert(Seq::<Seq<char>>::empty().push(s.subrange(last, a)) =~= seq![s.subrange(last, a)]);
        } else {
            assert(piece_texts(gap) =~= Seq::<Seq<char>>::empty());
        }
        assert(Seq::<Seq<char>>::empty().push(s.subrange(a, b)) =~= seq![s.subrange(a, b)]);
        assert(s.subrange(0, b) =~= s.subrange(0, last) + s.subrange(last, a) + s.subrange(a, b));
    } else {
        assert(join(piece_texts(Seq::<(Seq<char>, bool)>::empty())) =~= s.subrange(0, 0));
    }
}

/// Cutting a text into pieces and joining them gives the text back.
pub proof fn lemma_pieces_join(p: Pattern, s: Seq<char>)
    ensures
        join(piece_texts(pieces(p, s))) == s,
{
    assert(spans_ordered(p, s, spans(p, s), 0)) by {
        lemma_spans_from_ordered(p, s, 0);
    }
    lemma_pieces_upto_join(p, s, spans(p, s));
    let (acc, last) = pieces_upto(s, spans(p, s));
    assert(0 <= last <= s.len());
    if last < s.len() {
        assert(piece_texts(acc.push((s.subrange(last, s.len() as int), false))) =~= piece_texts(
            acc,
        ).push(s.subrange(last, s.len() as int)));
        lemma_join_push(piece_texts(acc), s.subrange(last, s.len() as int));
        assert(s =~= s.subrange(0, last) + s.subrange(last, s.len() as int));
    } else {
        assert(s =~= s.subrange(0, last));
    }
}

/// The pieces of the text in `s`, cut at the tokens of shape `p`, as strings with
/// a flag that tells which are tokens.
pub fn split_pieces(p: Pattern, s: &Vec<char>) -> (r: Vec<(String, bool)>)
    ensures
        r@.len() == pieces(p, s@).len(),
        forall|t: int|
            0 <= t < r@.len() ==> (#[trigger] r@[t]).0@ == pieces(p, s@)[t].0 && r@[t].1
                == pieces(p, s@)[t].1,
{
    let sp = find_spans(p, s);
    proof {
        lemma_spans_from_ordered(p, s@, 0);
    }
    let ghost isp = int_spans(sp@);
    let mut r: Vec<(String, bool)> = Vec::new();
    let mut last: usize = 0;
    let mut t: usize = 0;
    while t < sp.len()
        invariant
            isp == int_spans(sp@),
            isp == spans(p, s@),
            spans_ordered(p, s@, isp, 0),
            t <= sp.len(),
            last <= s.len(),
            pieces_upto(s@, isp.take(t as int)).1 == last as int,
            r@.len() == pieces_upto(s@, isp.take(t as int)).0.len(),
            forall|u: int|
                0 <= u < r@.len() ==> (#[trigger] r@[u]).0@ == pieces_upto(
                    s@,
                    isp.take(t as int),
                ).0[u].0 && r@[u].1 == pieces_upto(s@, isp.take(t as int)).0[u].1,
            t > 0 ==> last as int == isp[t - 1].1,
        decreases sp.len() - t,
    {
        let (a, b) = sp[t];
        assert(isp[t as int] == (a as int, b as int));
        assert(isp.take(t + 1).drop_last() =~= isp.take(t as int));
        assert(isp.take(t + 1).last() == isp[t as int]);
        if t > 0 {
            assert(last <= a);
        }
        let ghost prev = pieces_upto(s@, isp.take(t as int)).0;
        if last < a {
            let gap = string_from_range_pub(s, last, a);
            r.push((gap, false));
        }
        let tok = string_from_range_pub(s, a, b);
        r.push((tok, true));
        last = b;
        t = t + 1;
        proof {
            let now = pieces_upto(s@, isp.take(t as int)).0;
            assert forall|u: int| 0 <= u < r@.len() implies (#[trigger] r@[u]).0@ == now[u].0
                && r@[u].1 == now[u].1 by {
                if u < prev.len() {
                    assert(now[u] == prev[u]);
                }
            }
        }
    }
    assert(isp.take(sp.len() as int) =~= isp);
    if last < s.len() {
        let tail = string_from_range_pub(s, last, s.len());
        r.push((tail, false));
    }
    r
}

fn string_from_range_pub(cs: &Vec<char>, lo: usize, hi: usize) -> (r: String)
    requires
        lo <= hi <= cs.len(),
    ensures
        r@ == cs@.subrange(lo as int, hi as int),
{
    crate::text::string_from_range(cs, lo, hi)
}

/// The texts of all tokens of shape `p` in `s`.
pub fn find_tokens(p: Pattern, s: &Vec<char>) -> (r: Vec<String>)
    ensures
        r@.len() == tokens(p, s@).len(),
        forall|t: int| 0 <= t < r@.len() ==> (#[trigger] r@[t])@ == tokens(p, s@)[t],
{
    let sp = find_spans(p, s);
    proof {
        lemma_spans_from_ordered(p, s@, 0);
    }
    let ghost isp = int_spans(sp@);
    let mut r: Vec<String> = Vec::new();
    let mut t: usize = 0;
    while t < sp.len()
        invariant
            isp == int_spans(sp@),
            isp == spans(p, s@),
            spans_ordered(p, s@, isp, 0),
            t <= sp.len(),
            r@.len() == t,
            forall|u: int| 0 <= u < t ==> (#[trigger] r@[u])@ == tokens(p, s@)[u],
        decreases sp.len() - t,
    {
        let (a, b) = sp[t];
        assert(isp[t as int] == (a as int, b as int));
        let tok = crate::text::string_from_range(s, a, b);
        r.push(tok);
        t = t + 1;
    }
    r
}

/// Whether a token of shape `p` occurs in `s`.
pub fn has_token(p: Pattern, s: &Vec<char>) -> (r: bool)
    ensures
        r == contains_token(p, s@),
        r == (spans(p, s@).len() > 0),
{
    let sp = find_spans(p, s);
    proof {
        lemma_spans_from_ordered(p, s@, 0);
        if sp.len() > 0 {
            assert(int_spans(sp@)[0] == spans(p, s@)[0]);
            assert(match_at(p, s@, spans(p, s@)[0].0));
        }
        if contains_token(p, s@) {
            let i = choose|i: int| match_at(p, s@, i);
            assert(exists|t: int|
                0 <= t < spans(p, s@).len() && (#[trigger] spans(p, s@)[t]).0 <= i < spans(
                    p,
                    s@,
                )[t].1);
        }
    }
    sp.len() > 0
}

} // verus!
