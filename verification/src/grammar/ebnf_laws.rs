//! What the rewrite of `<x>?`, `<x>+` and `<x>*` leaves in the expansions it rewrites.
use vstd::prelude::*;
use crate::text::replace_first;
use crate::text::find_from;
use crate::text::decimal;
use crate::text::lemma_decimal_len;
use super::GrammarV;
use super::has_key;
use super::keys_distinct;
use super::new_symbol_spec;
use super::variant;
use super::drop_last_char;
use super::first_free;
use super::lemma_new_symbol_fresh;
use super::pattern::Pattern;
use super::pattern::in_body;
use super::pattern::is_op;
use super::pattern::body_end;
use super::pattern::match_at;
use super::pattern::match_end;
use super::pattern::spans;
use super::pattern::tokens;
use super::pattern::lemma_spans_from_ordered;
use super::pattern::spans_ordered;
use super::pattern::lemma_body_end_bounds;
use super::options::exp_text;
use super::options::exp_options;
use super::ebnf::frame;
use super::ebnf::set_exp;
use super::ebnf::with_text;
use super::ebnf::op_step;
use super::ebnf::op_exts;
use super::ebnf::op_rule_body;
use super::ebnf::lemma_step_frame;
use super::ebnf::lemma_ext_tokens;
use super::ebnf::lemma_token_shape;
use super::shapes::no_ext;
use super::shapes::closed_end;
use super::shapes::no_op_start;
use super::shapes::name_shaped;
use super::shapes::lemma_match_shift;
use super::shapes::lemma_prefix_no_ext;
use super::shapes::lemma_occurrence_is_match;
use super::shapes::lemma_same_after_open;
use super::shapes::lemma_name_at_end;
use super::shapes::lemma_no_ext_tokens;

verus! {

/// No operator directly follows an `<x>?`, `<x>+` or `<x>*` in `s` (as in `<x>+*`).
pub open spec fn ops_separated(s: Seq<char>) -> bool {
    forall|t: int|
        0 <= t < spans(Pattern::ExtendedNonterminal, s).len() && #[trigger] spans(Pattern::ExtendedNonterminal, s)[t].1
            < s.len() ==> !is_op(s[spans(Pattern::ExtendedNonterminal, s)[t].1])
}

/// Where the scan ends when the characters from `k` up to `e` are body characters and
/// the one at `e` is not.
proof fn lemma_body_end_at(p: Pattern, w: Seq<char>, k: int, e: int)
    requires
        0 <= k <= e < w.len(),
        forall|x: int| k <= x < e ==> in_body(p, #[trigger] w[x]),
        !in_body(p, w[e]),
    ensures
        body_end(p, w, k) == e,
    decreases e - k,
{
    if k < e {
        lemma_body_end_at(p, w, k + 1, e);
    }
}

/// A token `<body>op` is a token on its own, and `<body>` is a name.
proof fn lemma_ext_token(s: Seq<char>, t: int)
    requires
        0 <= t < tokens(Pattern::ExtendedNonterminal, s).len(),
    ensures
        match_at(Pattern::ExtendedNonterminal, tokens(Pattern::ExtendedNonterminal, s)[t], 0),
        match_end(Pattern::ExtendedNonterminal, tokens(Pattern::ExtendedNonterminal, s)[t], 0)
            == tokens(Pattern::ExtendedNonterminal, s)[t].len(),
        name_shaped(tokens(Pattern::ExtendedNonterminal, s)[t].drop_last()),
        is_op(tokens(Pattern::ExtendedNonterminal, s)[t].last()),
        tokens(Pattern::ExtendedNonterminal, s)[t][0] == '<',
        spans(Pattern::ExtendedNonterminal, s)[t].1 == spans(Pattern::ExtendedNonterminal, s)[t].0
            + tokens(Pattern::ExtendedNonterminal, s)[t].len(),
        s.subrange(spans(Pattern::ExtendedNonterminal, s)[t].0, spans(Pattern::ExtendedNonterminal, s)[t].1)
            == tokens(Pattern::ExtendedNonterminal, s)[t],
{
    let p = Pattern::ExtendedNonterminal;
    lemma_token_shape(p, s, t);
    lemma_spans_from_ordered(p, s, 0);
    let sp = spans(p, s);
    let (a, b) = sp[t];
    assert(match_at(p, s, a) && b == match_end(p, s, a));
    lemma_body_end_bounds(p, s, a + 1);
    let e = body_end(p, s, a + 1);
    let tok = tokens(p, s)[t];
    assert(tok == s.subrange(a, b));
    assert(b == e + 2);
    assert forall|x: int| 1 <= x < tok.len() - 2 implies in_body(p, #[trigger] tok[x]) by {
        assert(tok[x] == s[a + x]);
    }
    assert(tok[tok.len() - 2] == s[e]);
    lemma_body_end_at(p, tok, 1, tok.len() - 2);
    let n = tok.drop_last();
    assert forall|k: int| 0 < k < n.len() - 1 implies in_body(p, #[trigger] n[k]) by {
        assert(n[k] == tok[k]);
    }
}

/// The fresh name for a name is a name.
proof fn lemma_new_name_shaped(g: GrammarV, orig: Seq<char>)
    requires
        name_shaped(orig),
    ensures
        name_shaped(new_symbol_spec(g, orig)),
{
    let p = Pattern::ExtendedNonterminal;
    if has_key(g, orig) {
        let c = first_free(g, orig, 1);
        let d = decimal(c);
        lemma_decimal_len(c);
        let pre = drop_last_char(orig) + seq!['-'];
        let n = variant(orig, c);
        assert(n == pre + d + seq!['>']);
        assert(n[0] == '<');
        assert forall|k: int| 0 < k < n.len() - 1 implies in_body(p, #[trigger] n[k]) by {
            if k < pre.len() - 1 {
                assert(n[k] == orig[k]);
            } else if k >= pre.len() {
                assert(n[k] == d[k - pre.len()]);
                assert(48 <= (d[k - pre.len()] as u32) <= 57);
            }
        }
    }
}

/// `find_from` gives the first occurrence.
proof fn lemma_find_first(s: Seq<char>, pat: Seq<char>, k: int, q: int)
    requires
        0 <= k <= q,
        q + pat.len() <= s.len(),
        s.subrange(q, q + pat.len()) == pat,
        forall|x: int| k <= x < q ==> #[trigger] s.subrange(x, x + pat.len()) != pat,
    ensures
        find_from(s, pat, k) == q,
    decreases q - k,
{
    if k < q {
        assert(s.subrange(k, k + pat.len()) != pat);
        lemma_find_from_first(s, pat, k, q);
    }
}

proof fn lemma_find_from_first(s: Seq<char>, pat: Seq<char>, k: int, q: int)
    requires
        0 <= k < q,
        q + pat.len() <= s.len(),
        s.subrange(q, q + pat.len()) == pat,
        forall|x: int| k <= x < q ==> #[trigger] s.subrange(x, x + pat.len()) != pat,
    ensures
        find_from(s, pat, k) == q,
    decreases q - k,
{
    assert(s.subrange(k, k + pat.len()) != pat);
    if k + 1 < q {
        lemma_find_from_first(s, pat, k + 1, q);
    } else {
        assert(find_from(s, pat, k + 1) == q);
    }
}

/// No token starts between the end of token `j - 1` (or the start) and the start of
/// token `j` (or the end).
proof fn lemma_no_ext_between(s: Seq<char>, j: int, x: int)
    requires
        0 <= j <= spans(Pattern::ExtendedNonterminal, s).len(),
        (if j == 0 {
            0
        } else {
            spans(Pattern::ExtendedNonterminal, s)[j - 1].1
        }) <= x,
        j < spans(Pattern::ExtendedNonterminal, s).len() ==> x < spans(Pattern::ExtendedNonterminal, s)[j].0,
    ensures
        !match_at(Pattern::ExtendedNonterminal, s, x),
{
    let p = Pattern::ExtendedNonterminal;
    lemma_spans_from_ordered(p, s, 0);
    let sp = spans(p, s);
    if match_at(p, s, x) {
        assert(0 <= x < s.len());
        let u = choose|u: int| 0 <= u < sp.len() && (#[trigger] sp[u]).0 <= x < sp[u].1;
        if u < j {
            if u < j - 1 {
                assert(sp[u].1 <= sp[j - 1].0);
            }
        } else if u > j {
            assert(sp[j].1 <= sp[u].0);
        }
    }
}

/// Where scanning `s` is at after token `j - 1` (the start for `j == 0`).
pub open spec fn scan_pos(s: Seq<char>, j: int) -> int {
    if j <= 0 {
        0
    } else {
        spans(Pattern::ExtendedNonterminal, s)[j - 1].1
    }
}

/// The facts about the spans of `s` the rewrite proofs use.
proof fn lemma_scan_pos(s: Seq<char>, j: int)
    requires
        0 <= j < spans(Pattern::ExtendedNonterminal, s).len(),
    ensures
        0 <= scan_pos(s, j) <= spans(Pattern::ExtendedNonterminal, s)[j].0,
        spans(Pattern::ExtendedNonterminal, s)[j].0 < spans(Pattern::ExtendedNonterminal, s)[j].1 <= s.len(),
        scan_pos(s, j + 1) == spans(Pattern::ExtendedNonterminal, s)[j].1,
{
    let p = Pattern::ExtendedNonterminal;
    lemma_spans_from_ordered(p, s, 0);
    let sp = spans(p, s);
    assert(spans_ordered(p, s, sp, 0));
    assert(0 <= j < sp.len());
    assert(0 <= sp[j].0);
    assert(sp[j].0 < sp[j].1);
    assert(sp[j].1 <= s.len());
    if j > 0 {
        assert(0 <= sp[j - 1].0);
        assert(sp[j - 1].0 < sp[j - 1].1);
        assert(sp[j - 1].1 <= sp[j].0);
    }
}

/// The text after the scan position does not start with an operator, unless it is
/// the whole text.
proof fn lemma_rest_no_op(s: Seq<char>, j: int)
    requires
        ops_separated(s),
        0 < j <= spans(Pattern::ExtendedNonterminal, s).len(),
    ensures
        no_op_start(s.subrange(scan_pos(s, j), s.len() as int)),
{
    let p = Pattern::ExtendedNonterminal;
    lemma_spans_from_ordered(p, s, 0);
    let sp = spans(p, s);
    assert(spans_ordered(p, s, sp, 0));
    assert(0 <= j - 1 < sp.len());
    assert(0 <= sp[j - 1].0);
    assert(sp[j - 1].0 < sp[j - 1].1);
    assert(sp[j - 1].1 <= s.len());
    let rest = s.subrange(scan_pos(s, j), s.len() as int);
    if rest.len() > 0 {
        assert(rest[0] == s[sp[j - 1].1]);
    }
}

/// No token of `pre + rest` starts at or after `pre`, where `rest` is `s` from the scan
/// position after token `j - 1` and `x` comes before token `j`.
proof fn lemma_rest_gap(s: Seq<char>, pre: Seq<char>, j: int, x: int)
    requires
        0 <= j <= spans(Pattern::ExtendedNonterminal, s).len(),
        0 <= scan_pos(s, j) <= s.len(),
        pre.len() <= x,
        j < spans(Pattern::ExtendedNonterminal, s).len() ==> x - pre.len() + scan_pos(s, j) < spans(Pattern::ExtendedNonterminal, s)[j].0,
    ensures
        !match_at(Pattern::ExtendedNonterminal, pre + s.subrange(scan_pos(s, j), s.len() as int), x),
{
    let pos = scan_pos(s, j);
    let rest = s.subrange(pos, s.len() as int);
    lemma_match_shift(pre, rest, x - pre.len());
    assert(s =~= s.subrange(0, pos) + rest);
    lemma_match_shift(s.subrange(0, pos), rest, x - pre.len());
    lemma_no_ext_between(s, j, pos + (x - pre.len()));
}

/// The first occurrence of token `j` in `pre + rest` is where the token is.
proof fn lemma_first_occurrence(s: Seq<char>, pre: Seq<char>, j: int)
    requires
        ops_separated(s),
        0 <= j < tokens(Pattern::ExtendedNonterminal, s).len(),
        no_ext(pre),
        closed_end(pre),
        j == 0 ==> pre.len() == 0,
    ensures
        find_from(
            pre + s.subrange(scan_pos(s, j), s.len() as int),
            tokens(Pattern::ExtendedNonterminal, s)[j],
            0,
        ) == pre.len() + spans(Pattern::ExtendedNonterminal, s)[j].0 - scan_pos(s, j),
{
    let p = Pattern::ExtendedNonterminal;
    let sp = spans(p, s);
    let t = tokens(p, s)[j];
    let pos = scan_pos(s, j);
    lemma_scan_pos(s, j);
    lemma_ext_token(s, j);
    let rest = s.subrange(pos, s.len() as int);
    let cur = pre + rest;
    let a = sp[j].0;
    let q = pre.len() + (a - pos);
    assert(cur.subrange(q, q + t.len()) =~= t) by {
        assert forall|x: int| 0 <= x < t.len() implies cur.subrange(q, q + t.len())[x] == t[x] by {
            assert(cur[q + x] == rest[a - pos + x]);
            assert(rest[a - pos + x] == s[a + x]);
        }
    }
    if j > 0 {
        lemma_rest_no_op(s, j);
    }
    assert forall|x: int| 0 <= x < q implies #[trigger] cur.subrange(x, x + t.len()) != t by {
        if x + t.len() <= cur.len() && cur.subrange(x, x + t.len()) == t {
            lemma_occurrence_is_match(cur, t, x);
            if x < pre.len() {
                lemma_prefix_no_ext(pre, rest, x);
            } else {
                lemma_rest_gap(s, pre, j, x);
            }
        }
    }
    lemma_find_first(cur, t, 0, q);
}

/// After token `j` is replaced by the name `ns`, the rewritten part grows by the text
/// before the token and the name, and still holds no token.
#[verifier::spinoff_prover]
proof fn lemma_new_prefix(s: Seq<char>, pre: Seq<char>, j: int, ns: Seq<char>)
    requires
        ops_separated(s),
        0 <= j < tokens(Pattern::ExtendedNonterminal, s).len(),
        no_ext(pre),
        closed_end(pre),
        j == 0 ==> pre.len() == 0,
        name_shaped(ns),
    ensures
        no_ext(pre + s.subrange(scan_pos(s, j), spans(Pattern::ExtendedNonterminal, s)[j].0) + ns),
        closed_end(pre + s.subrange(scan_pos(s, j), spans(Pattern::ExtendedNonterminal, s)[j].0) + ns),
{
    let p = Pattern::ExtendedNonterminal;
    let sp = spans(p, s);
    let pos = scan_pos(s, j);
    lemma_scan_pos(s, j);
    lemma_ext_token(s, j);
    let a = sp[j].0;
    let gap = s.subrange(pos, a);
    let rest = s.subrange(pos, s.len() as int);
    let npre = pre + gap + ns;
    if j > 0 {
        lemma_rest_no_op(s, j);
    }
    assert forall|x: int| !match_at(p, npre, x) by {
        if 0 <= x < npre.len() {
            if x < pre.len() {
                assert(npre =~= pre + (gap + ns));
                assert(no_op_start(gap + ns)) by {
                    if gap.len() > 0 {
                        assert((gap + ns)[0] == rest[0]);
                    } else {
                        assert((gap + ns)[0] == ns[0]);
                    }
                }
                lemma_prefix_no_ext(pre, gap + ns, x);
            } else if x < pre.len() + gap.len() {
                assert(npre =~= pre + (gap + ns));
                lemma_match_shift(pre, gap + ns, x - pre.len());
                let after = s.subrange(a, s.len() as int);
                assert(after[0] == s[a]);
                lemma_same_after_open(gap, ns, after, x - pre.len());
                assert(gap + after =~= rest);
                lemma_match_shift(pre, rest, x - pre.len());
                lemma_rest_gap(s, pre, j, x);
            } else {
                lemma_name_at_end(pre + gap, ns, x);
            }
        }
    }
}

/// What replacing token `j` in `pre + rest` by `ns` gives.
proof fn lemma_replace_token(s: Seq<char>, pre: Seq<char>, j: int, ns: Seq<char>)
    requires
        ops_separated(s),
        0 <= j < tokens(Pattern::ExtendedNonterminal, s).len(),
        no_ext(pre),
        closed_end(pre),
        j == 0 ==> pre.len() == 0,
    ensures
        replace_first(
            pre + s.subrange(scan_pos(s, j), s.len() as int),
            tokens(Pattern::ExtendedNonterminal, s)[j],
            ns,
        ) == (pre + s.subrange(scan_pos(s, j), spans(Pattern::ExtendedNonterminal, s)[j].0) + ns) + s.subrange(
            scan_pos(s, j + 1),
            s.len() as int,
        ),
{
    let p = Pattern::ExtendedNonterminal;
    let sp = spans(p, s);
    let t = tokens(p, s)[j];
    let pos = scan_pos(s, j);
    lemma_scan_pos(s, j);
    lemma_ext_token(s, j);
    lemma_first_occurrence(s, pre, j);
    let (a, b) = sp[j];
    let rest = s.subrange(pos, s.len() as int);
    let cur = pre + rest;
    let q = pre.len() + (a - pos);
    assert(cur.subrange(0, q) =~= pre + s.subrange(pos, a));
    assert(cur.subrange(q + t.len(), cur.len() as int) =~= s.subrange(b, s.len() as int));
}

/// What the rewrites of the first `j` tokens of expansion `i` of rule `r` leave of
/// its text `s`: a rewritten part without tokens that ends with a name (or is
/// empty), then `s` from the end of token `j - 1` on.
#[verifier::spinoff_prover]
pub proof fn lemma_op_exts_text(g: GrammarV, r: int, i: int, j: int)
    requires
        keys_distinct(g),
        0 <= r < g.len(),
        0 <= i < g[r].1.len(),
        ops_separated(exp_text(g[r].1[i])),
        0 <= j <= tokens(Pattern::ExtendedNonterminal, exp_text(g[r].1[i])).len(),
    ensures
        ({
            let s = exp_text(g[r].1[i]);
            let gj = op_exts(g, r, i, tokens(Pattern::ExtendedNonterminal, s).take(j));
            let cur = exp_text(gj[r].1[i]);
            let tail = s.len() - scan_pos(s, j);
            &&& frame(gj, g, r, i + 1)
            &&& (j == 0 ==> cur == s)
            &&& 0 <= scan_pos(s, j) <= s.len()
            &&& cur.len() >= tail
            &&& cur == cur.subrange(0, cur.len() - tail) + s.subrange(scan_pos(s, j), s.len() as int)
            &&& no_ext(cur.subrange(0, cur.len() - tail))
            &&& closed_end(cur.subrange(0, cur.len() - tail))
        }),
    decreases j,
{
    let s = exp_text(g[r].1[i]);
    let p = Pattern::ExtendedNonterminal;
    let exts = tokens(p, s);
    if j == 0 {
        assert(exts.take(0) =~= Seq::<Seq<char>>::empty());
        assert(s.subrange(0, s.len() as int) =~= s);
        assert(s.subrange(0, 0) =~= Seq::<char>::empty());
        assert(s =~= s.subrange(0, 0) + s.subrange(0, s.len() as int));
        assert forall|x: int| !match_at(p, Seq::<char>::empty(), x) by {}
    } else {
        lemma_op_exts_text(g, r, i, j - 1);
        let gp = op_exts(g, r, i, exts.take(j - 1));
        assert(exts.take(j).drop_last() =~= exts.take(j - 1));
        assert(exts.take(j).last() == exts[j - 1]);
        let cur = exp_text(gp[r].1[i]);
        let pre = cur.subrange(0, cur.len() - (s.len() - scan_pos(s, j - 1)));
        let t = exts[j - 1];
        lemma_ext_token(s, j - 1);
        lemma_scan_pos(s, j - 1);
        let orig = t.drop_last();
        let ns = new_symbol_spec(gp, orig);
        lemma_new_symbol_fresh(gp, orig);
        lemma_new_name_shaped(gp, orig);
        let e = gp[r].1[i];
        let ne = with_text(e, replace_first(exp_text(e), t, ns));
        lemma_step_frame(gp, g, r, i, ne, ns, op_rule_body(t.last(), orig, ns));
        let gj = op_exts(g, r, i, exts.take(j));
        assert(gj == op_step(gp, r, i, t));
        assert(gj[r].1[i] == ne);
        lemma_replace_token(s, pre, j - 1, ns);
        lemma_new_prefix(s, pre, j - 1, ns);
        let npre = pre + s.subrange(scan_pos(s, j - 1), spans(p, s)[j - 1].0) + ns;
        let ncur = exp_text(ne);
        assert(ncur == npre + s.subrange(scan_pos(s, j), s.len() as int));
        assert(ncur.subrange(0, ncur.len() - (s.len() - scan_pos(s, j))) =~= npre);
    }
}

/// After all its tokens are rewritten, an expansion whose text keeps operators apart
/// holds no `<x>?`, `<x>+` or `<x>*`.
pub proof fn lemma_op_exts_done(g: GrammarV, r: int, i: int)
    requires
        keys_distinct(g),
        0 <= r < g.len(),
        0 <= i < g[r].1.len(),
        ops_separated(exp_text(g[r].1[i])),
    ensures
        ({
            let s = exp_text(g[r].1[i]);
            let p = Pattern::ExtendedNonterminal;
            tokens(p, exp_text(op_exts(g, r, i, tokens(p, s))[r].1[i])).len() == 0
        }),
{
    let s = exp_text(g[r].1[i]);
    let p = Pattern::ExtendedNonterminal;
    let exts = tokens(p, s);
    let n = exts.len() as int;
    lemma_op_exts_text(g, r, i, n);
    assert(exts.take(n) =~= exts);
    let cur = exp_text(op_exts(g, r, i, exts)[r].1[i]);
    let pos = scan_pos(s, n);
    let pre = cur.subrange(0, cur.len() - (s.len() - pos));
    lemma_text_done(s, pre);
    lemma_no_ext_tokens(cur);
}

/// `pre + rest` holds no token once all tokens of `s` are behind the scan position.
proof fn lemma_text_done(s: Seq<char>, pre: Seq<char>)
    requires
        ops_separated(s),
        no_ext(pre),
        closed_end(pre),
        tokens(Pattern::ExtendedNonterminal, s).len() == 0 ==> pre.len() == 0,
        0 <= scan_pos(s, tokens(Pattern::ExtendedNonterminal, s).len() as int) <= s.len(),
    ensures
        no_ext(pre + s.subrange(scan_pos(s, tokens(Pattern::ExtendedNonterminal, s).len() as int), s.len() as int)),
{
    let p = Pattern::ExtendedNonterminal;
    let n = tokens(p, s).len() as int;
    let pos = scan_pos(s, n);
    let rest = s.subrange(pos, s.len() as int);
    if n > 0 {
        lemma_rest_no_op(s, n);
    }
    assert forall|x: int| !match_at(p, pre + rest, x) by {
        if 0 <= x < (pre + rest).len() {
            if x < pre.len() {
                lemma_prefix_no_ext(pre, rest, x);
            } else {
                lemma_rest_gap(s, pre, n, x);
            }
        }
    }
}

/// The text of `e` holds no `<x>?`, `<x>+` or `<x>*`.
pub open spec fn no_ext_left(e: super::ExpansionV) -> bool {
    tokens(Pattern::ExtendedNonterminal, exp_text(e)).len() == 0
}

/// A rewrite of one token of expansion `i` of rule `r` leaves every other expansion
/// as it was.
pub proof fn lemma_op_step_other(g: GrammarV, r: int, i: int, ext: Seq<char>)
    requires
        keys_distinct(g),
        0 <= r < g.len(),
        0 <= i < g[r].1.len(),
        ext.len() >= 1,
        is_op(ext.last()),
    ensures
        forall|a: int, k: int|
            0 <= a < g.len() && 0 <= k < g[a].1.len() && (a != r || k != i) ==> #[trigger] op_step(g, r, i, ext)[a].1[k]
                == g[a].1[k],
{
    let orig = ext.drop_last();
    let ns = new_symbol_spec(g, orig);
    lemma_new_symbol_fresh(g, orig);
    let e = g[r].1[i];
    let ne = with_text(e, replace_first(exp_text(e), ext, ns));
    lemma_step_frame(g, g, r, i, ne, ns, op_rule_body(ext.last(), orig, ns));
    let g2 = op_step(g, r, i, ext);
    assert(g2 == set_exp(g, r, i, ne).push((ns, op_rule_body(ext.last(), orig, ns))));
    assert forall|a: int, k: int|
        0 <= a < g.len() && 0 <= k < g[a].1.len() && (a != r || k != i) implies #[trigger] g2[a].1[k] == g[a].1[k] by {
        assert(g2[a] == set_exp(g, r, i, ne)[a]);
    }
}

} // verus!
