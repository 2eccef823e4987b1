//! Rewriting the EBNF shorthands `(...)?`, `(...)+`, `(...)*`, `<x>?`, `<x>+` and
//! `<x>*` into plain rules.
use vstd::prelude::*;
use crate::text::chars_of;
use crate::text::owned;
use crate::text::concat;
use crate::text::replace_first;
use crate::text::replacen_once;
use crate::text::string_from_range;
use super::Union;
use super::Grammar;
use super::GrammarV;
use super::Expansion;
use super::ExpansionV;
use super::has_key;
use super::keys_distinct;
use super::insert_rule;
use super::new_symbol;
use super::new_symbol_spec;
use super::lemma_new_symbol_fresh;
use super::lemma_key_index;
use super::lemma_insert_rule;
use super::extend_grammar;
use super::pattern::Pattern;
use super::pattern::tokens;
use super::pattern::spans;
use super::pattern::is_op;
use super::pattern::needs_op;
use super::pattern::opener;
use super::pattern::closer;
use super::pattern::match_at;
use super::pattern::lemma_spans_from_ordered;
use super::pattern::lemma_body_end_bounds;
use super::options::exp_text;
use super::options::exp_options;
use super::options::exp_string;
use super::options::exp_opts;
use super::options::make_expansion;
use super::ebnf_laws::ops_separated;
use super::ebnf_laws::no_ext_left;
use super::ebnf_laws::lemma_op_exts_done;
use super::ebnf_laws::lemma_op_step_other;

verus! {

/// Expansion `e` with its text replaced by `t`; its options stay, and an expansion
/// without options becomes a bare string.
pub open spec fn with_text(e: ExpansionV, t: Seq<char>) -> ExpansionV {
    make_expansion(t, exp_options(e))
}

/// `g` with expansion `i` of rule `r` set to `e`.
pub open spec fn set_exp(g: GrammarV, r: int, i: int, e: ExpansionV) -> GrammarV {
    g.update(r, (g[r].0, g[r].1.update(i, e)))
}

/// The rules of `g` keep the names and sizes of those of `g0`, no name repeats,
/// rules after `r` are untouched, and so are the expansions of rule `r` from `i` on.
pub open spec fn frame(g: GrammarV, g0: GrammarV, r: int, i: int) -> bool {
    &&& keys_distinct(g)
    &&& g.len() >= g0.len()
    &&& forall|j: int| #![trigger g[j]] 0 <= j < g0.len() ==> g[j].0 == g0[j].0 && g[j].1.len() == g0[j].1.len()
    &&& forall|j: int| r < j < g0.len() ==> #[trigger] g[j] == g0[j]
    &&& (0 <= r < g0.len() ==> forall|k: int| i <= k < g0[r].1.len() ==> #[trigger] g[r].1[k] == g0[r].1[k])
}

/// The rules of `g0` keep their places, names and numbers of expansions in `g`, which
/// may have more rules after them.
pub open spec fn keeps_rules(g: GrammarV, g0: GrammarV) -> bool {
    &&& g.len() >= g0.len()
    &&& forall|j: int| #![trigger g[j]] 0 <= j < g0.len() ==> g[j].0 == g0[j].0 && g[j].1.len() == g0[j].1.len()
}

/// Setting one expansion and adding a fresh rule keeps the frame for the later
/// expansions.
pub(crate) proof fn lemma_step_frame(g: GrammarV, g0: GrammarV, r: int, i: int, e: ExpansionV, ns: Seq<char>, v: Seq<ExpansionV>)
    requires
        frame(g, g0, r, i + 1),
        0 <= r < g0.len(),
        0 <= i < g0[r].1.len(),
        !has_key(g, ns),
    ensures
        frame(insert_rule(set_exp(g, r, i, e), ns, v), g0, r, i + 1),
        insert_rule(set_exp(g, r, i, e), ns, v) == set_exp(g, r, i, e).push((ns, v)),
{
    let g1 = set_exp(g, r, i, e);
    assert(keys_distinct(g1)) by {
        assert forall|a: int, b: int| 0 <= a < g1.len() && 0 <= b < g1.len() && a != b implies g1[a].0 != g1[b].0 by {
            assert(g1[a].0 == g[a].0);
            assert(g1[b].0 == g[b].0);
        }
    }
    assert(!has_key(g1, ns)) by {
        if has_key(g1, ns) {
            let j = choose|j: int| 0 <= j < g1.len() && g1[j].0 == ns;
            assert(g[j].0 == ns);
        }
    }
    lemma_key_index(g1, ns);
    lemma_insert_rule(g1, ns, v);
    let g2 = insert_rule(g1, ns, v);
    assert forall|k: int| i + 1 <= k < g0[r].1.len() implies #[trigger] g2[r].1[k] == g0[r].1[k] by {
        assert(g2[r] == g1[r]);
        assert(g[r].1[k] == g0[r].1[k]);
    }
    assert forall|j: int| #![trigger g2[j]] 0 <= j < g0.len() implies g2[j].0 == g0[j].0 && g2[j].1.len() == g0[j].1.len() by {
        assert(g2[j] == g1[j]);
        assert(g[j].0 == g0[j].0);
    }
    assert forall|j: int| r < j < g0.len() implies #[trigger] g2[j] == g0[j] by {
        assert(g2[j] == g1[j]);
        assert(g[j] == g0[j]);
    }
}

/// Every token text is a slice of the text that starts with the opener and, for
/// shapes with an operator, ends with the closer and an operator.
pub proof fn lemma_token_shape(p: Pattern, s: Seq<char>, t: int)
    requires
        0 <= t < tokens(p, s).len(),
    ensures
        tokens(p, s)[t].len() >= 2,
        tokens(p, s)[t][0] == opener(p),
        needs_op(p) ==> tokens(p, s)[t].len() >= 3 && is_op(tokens(p, s)[t].last())
            && tokens(p, s)[t][tokens(p, s)[t].len() - 2] == closer(p),
        needs_op(p) ==> forall|j: int| 1 <= j < tokens(p, s)[t].len() - 2 ==> super::pattern::in_body(p, #[trigger] tokens(p, s)[t][j]),
        0 <= spans(p, s)[t].0 && spans(p, s)[t].0 + tokens(p, s)[t].len() <= s.len(),
        s.subrange(spans(p, s)[t].0, spans(p, s)[t].0 + tokens(p, s)[t].len()) == tokens(p, s)[t],
{
    let sp = spans(p, s);
    assert(0 <= sp[t].0 < sp[t].1 <= s.len() && match_at(p, s, sp[t].0) && sp[t].1
        == super::pattern::match_end(p, s, sp[t].0)) by {
        lemma_spans_from_ordered(p, s, 0);
    }
    let (a, b) = sp[t];
    lemma_body_end_bounds(p, s, a + 1);
    let tok = tokens(p, s)[t];
    assert(tok == s.subrange(a, b));
    assert(tok[0] == s[a]);
    if needs_op(p) {
        assert(tok.last() == s[b - 1]);
        assert(tok[tok.len() - 2] == s[b - 2]);
        assert forall|j: int| 1 <= j < tok.len() - 2 implies super::pattern::in_body(p, #[trigger] tok[j]) by {
            assert(tok[j] == s[a + j]);
        }
    }
    assert(s.subrange(a, a + tok.len()) == tok);
}

// ---------------------------------------------------------------------------
// Operators on nonterminals: `<x>?`, `<x>*`, `<x>+`.

/// The rule that replaces `<x>op`, named `ns`: `?` gives `"" | <x>`, `*` gives
/// `"" | <x>ns` and `+` gives `<x> | <x>ns`.
pub open spec fn op_rule_body(op: char, orig: Seq<char>, ns: Seq<char>) -> Seq<ExpansionV> {
    if op == '?' {
        seq![Union::OnlyA(Seq::<char>::empty()), Union::OnlyA(orig)]
    } else if op == '*' {
        seq![Union::OnlyA(Seq::<char>::empty()), Union::OnlyA(orig + ns)]
    } else {
        seq![Union::OnlyA(orig), Union::OnlyA(orig + ns)]
    }
}

/// One rewrite of `<x>op` in expansion `i` of rule `r`: the first occurrence of the
/// token is replaced by a fresh name for `<x>`, and that name gets its rule.
pub open spec fn op_step(g: GrammarV, r: int, i: int, ext: Seq<char>) -> GrammarV {
    let op = ext.last();
    let orig = ext.drop_last();
    let ns = new_symbol_spec(g, orig);
    let e = g[r].1[i];
    let g1 = set_exp(g, r, i, with_text(e, replace_first(exp_text(e), ext, ns)));
    if is_op(op) {
        insert_rule(g1, ns, op_rule_body(op, orig, ns))
    } else {
        g1
    }
}

/// The rewrites for the tokens `exts`, in order.
pub open spec fn op_exts(g: GrammarV, r: int, i: int, exts: Seq<Seq<char>>) -> GrammarV
    decreases exts.len(),
{
    if exts.len() == 0 {
        g
    } else {
        op_step(op_exts(g, r, i, exts.drop_last()), r, i, exts.last())
    }
}

/// The rewrites for the first `n` expansions `exps` of rule `r`, each for the tokens
/// found in the expansion as it was given.
pub open spec fn op_rule(g: GrammarV, r: int, exps: Seq<ExpansionV>, n: int) -> GrammarV
    decreases n,
{
    if n <= 0 {
        g
    } else {
        op_exts(
            op_rule(g, r, exps, n - 1),
            r,
            n - 1,
            tokens(Pattern::ExtendedNonterminal, exp_text(exps[n - 1])),
        )
    }
}

/// The rewrites for the first `n` rules of `g0`.
pub open spec fn op_all(g0: GrammarV, n: int) -> GrammarV
    decreases n,
{
    if n <= 0 {
        g0
    } else {
        op_rule(op_all(g0, n - 1), n - 1, g0[n - 1].1, g0[n - 1].1.len() as int)
    }
}

/// The grammar `convert_ebnf_operators` makes of `g0`.
pub open spec fn convert_operators_spec(g0: GrammarV) -> GrammarV {
    op_all(g0, g0.len() as int)
}

/// A rewrite of one token keeps the frame for the later expansions.
proof fn lemma_op_step_frame(g: GrammarV, g0: GrammarV, r: int, i: int, ext: Seq<char>)
    requires
        frame(g, g0, r, i + 1),
        0 <= r < g0.len(),
        0 <= i < g0[r].1.len(),
        ext.len() >= 1,
        is_op(ext.last()),
    ensures
        frame(op_step(g, r, i, ext), g0, r, i + 1),
{
    let orig = ext.drop_last();
    let ns = new_symbol_spec(g, orig);
    lemma_new_symbol_fresh(g, orig);
    let e = g[r].1[i];
    lemma_step_frame(g, g0, r, i, with_text(e, replace_first(exp_text(e), ext, ns)), ns, op_rule_body(ext.last(), orig, ns));
}

/// The rule named `name` is the rule of an operator: for some operator `op` and the
/// text `orig` of the nonterminal it followed, it is `op_rule_body(op, orig, name)`.
pub open spec fn op_rule_of(name: Seq<char>, v: Seq<ExpansionV>) -> bool {
    exists|op: char, orig: Seq<char>| is_op(op) && v == #[trigger] op_rule_body(op, orig, name)
}

/// The rules after the first `n` of `g` are rules of operators.
pub open spec fn added_op_rules(g: GrammarV, n: int) -> bool {
    forall|a: int| n <= a < g.len() ==> #[trigger] op_rule_of(g[a].0, g[a].1)
}

/// A rewrite of one token adds a rule of an operator.
proof fn lemma_op_step_added(g: GrammarV, g0: GrammarV, r: int, i: int, ext: Seq<char>)
    requires
        frame(g, g0, r, i + 1),
        0 <= r < g0.len(),
        0 <= i < g0[r].1.len(),
        ext.len() >= 1,
        is_op(ext.last()),
        added_op_rules(g, g0.len() as int),
    ensures
        added_op_rules(op_step(g, r, i, ext), g0.len() as int),
{
    let orig = ext.drop_last();
    let ns = new_symbol_spec(g, orig);
    lemma_new_symbol_fresh(g, orig);
    let e = g[r].1[i];
    let ne = with_text(e, replace_first(exp_text(e), ext, ns));
    let v = op_rule_body(ext.last(), orig, ns);
    lemma_step_frame(g, g0, r, i, ne, ns, v);
    let g1 = set_exp(g, r, i, ne);
    let g2 = op_step(g, r, i, ext);
    assert(g2 == g1.push((ns, v)));
    assert forall|a: int| g0.len() <= a < g2.len() implies #[trigger] op_rule_of(g2[a].0, g2[a].1) by {
        if a < g.len() {
            assert(g2[a] == g[a]);
            assert(op_rule_of(g[a].0, g[a].1));
        } else {
            assert(g2[a] == (ns, v));
            assert(is_op(ext.last()) && g2[a].1 == op_rule_body(ext.last(), orig, g2[a].0));
        }
    }
}

/// A frame from `i` is also a frame from `i + 1`.
proof fn lemma_frame_next(g: GrammarV, g0: GrammarV, r: int, i: int)
    requires
        frame(g, g0, r, i),
    ensures
        frame(g, g0, r, i + 1),
{
}

/// Once all expansions of rule `r` are done, the frame moves to the next rule.
proof fn lemma_frame_next_rule(g: GrammarV, g0: GrammarV, r: int)
    requires
        0 <= r < g0.len(),
        frame(g, g0, r, g0[r].1.len() as int),
    ensures
        frame(g, g0, r + 1, 0),
{
    if r + 1 < g0.len() {
        assert(g[r + 1] == g0[r + 1]);
    }
}

/// The tokens of extended nonterminals all end with an operator.
pub(crate) proof fn lemma_ext_tokens(s: Seq<char>)
    ensures
        forall|t: int| 0 <= t < tokens(Pattern::ExtendedNonterminal, s).len() ==> (#[trigger] tokens(Pattern::ExtendedNonterminal, s)[t]).len() >= 3
            && is_op(tokens(Pattern::ExtendedNonterminal, s)[t].last()),
{
    assert forall|t: int| 0 <= t < tokens(Pattern::ExtendedNonterminal, s).len() implies (#[trigger] tokens(Pattern::ExtendedNonterminal, s)[t]).len() >= 3
        && is_op(tokens(Pattern::ExtendedNonterminal, s)[t].last()) by {
        lemma_token_shape(Pattern::ExtendedNonterminal, s, t);
    }
}

/// Carries out `op_step` on the working grammar.
fn op_step_exec(grammar: &mut Grammar, r: usize, i: usize, ext: &String)
    requires
        old(grammar).wf(),
        r < old(grammar)@.len(),
        i < old(grammar)@[r as int].1.len(),
        ext@.len() >= 1,
        is_op(ext@.last()),
    ensures
        final(grammar)@ == op_step(old(grammar)@, r as int, i as int, ext@),
        final(grammar).wf(),
{
    let cs = chars_of(ext.as_str());
    let n = cs.len();
    let op = cs[n - 1];
    let orig = string_from_range(&cs, 0, n - 1);
    assert(orig@ =~= ext@.drop_last());
    let ns = new_symbol(grammar, orig.as_str());
    let text = exp_string(&grammar.rules[r].1[i]);
    let o = exp_opts(&grammar.rules[r].1[i]);
    assert(grammar.rules@[r as int].1@[i as int].deep_view() == grammar@[r as int].1[i as int]);
    let sub = replacen_once(text.as_str(), ext.as_str(), ns.as_str());
    let ne = if o.is_empty() {
        Union::OnlyA(sub)
    } else {
        Union::OnlyB((sub, o))
    };
    grammar.set_expansion(r, i, ne);
    let body: Vec<Expansion> = if op == '?' {
        vec![Union::OnlyA(String::new()), Union::OnlyA(orig)]
    } else if op == '*' {
        vec![Union::OnlyA(String::new()), Union::OnlyA(concat(orig.as_str(), ns.as_str()))]
    } else {
        let two = concat(orig.as_str(), ns.as_str());
        vec![Union::OnlyA(orig), Union::OnlyA(two)]
    };
    assert(body.deep_view() =~= op_rule_body(op, ext@.drop_last(), ns@));
    grammar.insert(ns, body);
}

/// Replaces each nonterminal followed by `?`, `*` or `+` with a fresh nonterminal and
/// adds its rule: `<x>?` becomes `<x-1>` with `<x-1> ::= "" | <x>`, `<x>*` gives
/// `<x-1> ::= "" | <x><x-1>` and `<x>+` gives `<x-1> ::= <x> | <x><x-1>` (the fresh
/// name is `<x>` itself when the grammar does not define `<x>`). Every added rule
/// has one of these three forms.
#[verifier::spinoff_prover]
pub fn convert_ebnf_operators(ebnf_grammar: &Grammar) -> (r: Grammar)
    requires
        ebnf_grammar.wf(),
    ensures
        r.wf(),
        r@ == convert_operators_spec(ebnf_grammar@),
        keeps_rules(r@, ebnf_grammar@),
        forall|a: int, k: int|
            0 <= a < ebnf_grammar@.len() && 0 <= k < ebnf_grammar@[a].1.len() && ops_separated(
                exp_text(ebnf_grammar@[a].1[k]),
            ) ==> no_ext_left(#[trigger] r@[a].1[k]),
        added_op_rules(r@, ebnf_grammar@.len() as int),
{
    let ghost g0 = ebnf_grammar@;
    let mut grammar = extend_grammar(ebnf_grammar, &Grammar::new());
    assert(frame(grammar@, g0, 0, 0));
    let mut r: usize = 0;
    while r < ebnf_grammar.rules.len()
        invariant
            g0 == ebnf_grammar@,
            keys_distinct(g0),
            r <= g0.len(),
            grammar.wf(),
            added_op_rules(grammar@, g0.len() as int),
            grammar@ == op_all(g0, r as int),
            frame(grammar@, g0, r as int, 0),
            forall|a: int, k: int|
                0 <= a < r && 0 <= k < g0[a].1.len() && ops_separated(exp_text(g0[a].1[k])) ==> no_ext_left(
                    #[trigger] grammar@[a].1[k],
                ),
        decreases ebnf_grammar.rules.len() - r,
    {
        let expansions = &ebnf_grammar.rules[r].1;
        assert(expansions.deep_view() == g0[r as int].1);
        let mut i: usize = 0;
        while i < expansions.len()
            invariant
                g0 == ebnf_grammar@,
                r < g0.len(),
                expansions.deep_view() == g0[r as int].1,
                i <= expansions.len(),
                grammar.wf(),
                added_op_rules(grammar@, g0.len() as int),
                grammar@ == op_rule(op_all(g0, r as int), r as int, g0[r as int].1, i as int),
                frame(grammar@, g0, r as int, i as int),
                forall|a: int, k: int|
                    0 <= a < r && 0 <= k < g0[a].1.len() && ops_separated(exp_text(g0[a].1[k])) ==> no_ext_left(
                        #[trigger] grammar@[a].1[k],
                    ),
                forall|k: int|
                    0 <= k < i && ops_separated(exp_text(g0[r as int].1[k])) ==> no_ext_left(
                        #[trigger] grammar@[r as int].1[k],
                    ),
            decreases expansions.len() - i,
        {
            let extended_symbols = super::extended_nonterminals(&expansions[i]);
            let ghost exts = tokens(Pattern::ExtendedNonterminal, exp_text(g0[r as int].1[i as int]));
            assert(expansions@[i as int].deep_view() == g0[r as int].1[i as int]);
            assert(extended_symbols.deep_view() == exts);
            proof {
                lemma_ext_tokens(exp_text(g0[r as int].1[i as int]));
            }
            let ghost start = grammar@;
            let mut j: usize = 0;
            while j < extended_symbols.len()
                invariant
                    g0 == ebnf_grammar@,
                    r < g0.len(),
                    i < g0[r as int].1.len(),
                    extended_symbols.deep_view() == exts,
                    forall|t: int| 0 <= t < exts.len() ==> (#[trigger] exts[t]).len() >= 3 && is_op(exts[t].last()),
                    j <= extended_symbols.len(),
                    grammar.wf(),
                    added_op_rules(grammar@, g0.len() as int),
                    frame(start, g0, r as int, i as int),
                    grammar@ == op_exts(start, r as int, i as int, exts.take(j as int)),
                    j == 0 ==> frame(grammar@, g0, r as int, i as int),
                    j > 0 ==> frame(grammar@, g0, r as int, i as int + 1),
                    forall|a: int, k: int|
                        0 <= a < r && 0 <= k < g0[a].1.len() && ops_separated(exp_text(g0[a].1[k])) ==> no_ext_left(
                            #[trigger] grammar@[a].1[k],
                        ),
                    forall|k: int|
                        0 <= k < i && ops_separated(exp_text(g0[r as int].1[k])) ==> no_ext_left(
                            #[trigger] grammar@[r as int].1[k],
                        ),
                decreases extended_symbols.len() - j,
            {
                assert(exts.take(j + 1).drop_last() =~= exts.take(j as int));
                assert(exts.take(j + 1).last() == exts[j as int]);
                assert(extended_symbols@[j as int]@ == exts[j as int]);
                let ghost before = grammar@;
                proof {
                    if j == 0 {
                        lemma_frame_next(grammar@, g0, r as int, i as int);
                    }
                    lemma_op_step_frame(grammar@, g0, r as int, i as int, exts[j as int]);
                    lemma_op_step_added(grammar@, g0, r as int, i as int, exts[j as int]);
                    lemma_op_step_other(grammar@, r as int, i as int, exts[j as int]);
                }
                op_step_exec(&mut grammar, r, i, &extended_symbols[j]);
                assert forall|a: int, k: int|
                    0 <= a < r && 0 <= k < g0[a].1.len() && ops_separated(exp_text(g0[a].1[k])) implies no_ext_left(
                        #[trigger] grammar@[a].1[k],
                    ) by {
                    assert(grammar@[a].1[k] == before[a].1[k]);
                }
                assert forall|k: int|
                    0 <= k < i && ops_separated(exp_text(g0[r as int].1[k])) implies no_ext_left(
                        #[trigger] grammar@[r as int].1[k],
                    ) by {
                    assert(grammar@[r as int].1[k] == before[r as int].1[k]);
                }
                j = j + 1;
            }
            assert(exts.take(extended_symbols.len() as int) =~= exts);
            proof {
                if j == 0 {
                    lemma_frame_next(grammar@, g0, r as int, i as int);
                }
                if ops_separated(exp_text(g0[r as int].1[i as int])) {
                    assert(start[r as int].1[i as int] == g0[r as int].1[i as int]);
                    lemma_op_exts_done(start, r as int, i as int);
                }
            }
            i = i + 1;
        }
        proof {
            lemma_frame_next_rule(grammar@, g0, r as int);
        }
        r = r + 1;
    }
    grammar
}


// ---------------------------------------------------------------------------
// Parenthesized groups: `(...)?`, `(...)*`, `(...)+`.

/// How often `c` occurs in `s`.
pub open spec fn count_char(s: Seq<char>, c: char) -> nat
    decreases s.len(),
{
    if s.len() == 0 {
        0
    } else {
        count_char(s.drop_last(), c) + if s.last() == c {
            1nat
        } else {
            0nat
        }
    }
}

pub proof fn lemma_count_concat(a: Seq<char>, b: Seq<char>, c: char)
    ensures
        count_char(a + b, c) == count_char(a, c) + count_char(b, c),
    decreases b.len(),
{
    if b.len() == 0 {
        assert(a + b =~= a);
    } else {
        lemma_count_concat(a, b.drop_last(), c);
        assert((a + b).drop_last() =~= a + b.drop_last());
    }
}

/// A sequence that holds no `c` counts none.
proof fn lemma_count_none(s: Seq<char>, c: char)
    requires
        forall|k: int| 0 <= k < s.len() ==> s[k] != c,
    ensures
        count_char(s, c) == 0,
    decreases s.len(),
{
    if s.len() > 0 {
        lemma_count_none(s.drop_last(), c);
    }
}

/// A sequence that starts with `c` counts at least one.
proof fn lemma_count_first(s: Seq<char>, c: char)
    requires
        s.len() > 0,
        s[0] == c,
    ensures
        count_char(s, c) >= 1,
{
    lemma_count_concat(s.subrange(0, 1), s.subrange(1, s.len() as int), c);
    assert(s =~= s.subrange(0, 1) + s.subrange(1, s.len() as int));
    assert(s.subrange(0, 1).drop_last() =~= Seq::<char>::empty());
}

/// If `pat` occurs at `a`, the search from `k <= a` finds an occurrence.
proof fn lemma_find_from_found(s: Seq<char>, pat: Seq<char>, k: int, a: int)
    requires
        0 <= k <= a,
        a + pat.len() <= s.len(),
        s.subrange(a, a + pat.len()) == pat,
    ensures
        crate::text::find_from(s, pat, k) >= 0,
    decreases a - k,
{
    if s.subrange(k, k + pat.len()) != pat {
        lemma_find_from_found(s, pat, k + 1, a);
    }
}

/// How a replacement changes the count of `c`.
proof fn lemma_replace_count(t: Seq<char>, pat: Seq<char>, rep: Seq<char>, c: char)
    requires
        count_char(rep, c) == 0,
        pat.len() > 0,
        pat[0] == c,
    ensures
        count_char(replace_first(t, pat, rep), c) <= count_char(t, c),
        crate::text::find_from(t, pat, 0) >= 0 ==> count_char(replace_first(t, pat, rep), c) < count_char(t, c),
{
    let k = crate::text::find_from(t, pat, 0);
    crate::text::lemma_find_from_bounds(t, pat, 0);
    if k >= 0 {
        let pre = t.subrange(0, k);
        let post = t.subrange(k + pat.len(), t.len() as int);
        assert(t =~= pre + pat + post);
        lemma_count_concat(pre + pat, post, c);
        lemma_count_concat(pre, pat, c);
        lemma_count_concat(pre + rep, post, c);
        lemma_count_concat(pre, rep, c);
        lemma_count_first(pat, c);
    }
}

/// The name for the rule of a group.
pub open spec fn group_name() -> Seq<char> {
    seq!['<', 's', 'y', 'm', 'b', 'o', 'l', '>']
}

/// One rewrite of a group `(body)op` in expansion `i` of rule `r`: its first
/// occurrence is replaced by a fresh `<symbol...>` name followed by `op`, and the
/// name gets the rule `body`.
pub open spec fn par_step(g: GrammarV, r: int, i: int, expr: Seq<char>) -> GrammarV {
    let op = expr.last();
    let contents = expr.subrange(1, expr.len() - 2);
    let ns = new_symbol_spec(g, group_name());
    let e = g[r].1[i];
    let g1 = set_exp(g, r, i, with_text(e, replace_first(exp_text(e), expr, ns.push(op))));
    insert_rule(g1, ns, seq![Union::OnlyA(contents)])
}

/// The rewrites for the groups `exprs`, in order.
pub open spec fn par_exprs(g: GrammarV, r: int, i: int, exprs: Seq<Seq<char>>) -> GrammarV
    decreases exprs.len(),
{
    if exprs.len() == 0 {
        g
    } else {
        par_step(par_exprs(g, r, i, exprs.drop_last()), r, i, exprs.last())
    }
}

/// Rounds of rewrites on expansion `i` of rule `r`, whose text is `s`: each round
/// rewrites the groups found in the text, until none is left.
pub open spec fn par_loop(g: GrammarV, r: int, i: int, s: Seq<char>) -> GrammarV
    decreases count_char(s, '('),
{
    let exprs = tokens(Pattern::Parenthesized, s);
    if exprs.len() == 0 {
        g
    } else {
        let g2 = par_exprs(g, r, i, exprs);
        let s2 = exp_text(g2[r].1[i]);
        if count_char(s2, '(') < count_char(s, '(') {
            par_loop(g2, r, i, s2)
        } else {
            g2
        }
    }
}

/// The rewrites for the first `n` expansions `exps` of rule `r`.
pub open spec fn par_rule(g: GrammarV, r: int, exps: Seq<ExpansionV>, n: int) -> GrammarV
    decreases n,
{
    if n <= 0 {
        g
    } else {
        par_loop(par_rule(g, r, exps, n - 1), r, n - 1, exp_text(exps[n - 1]))
    }
}

/// The rewrites for the first `n` rules of `g0`.
pub open spec fn par_all(g0: GrammarV, n: int) -> GrammarV
    decreases n,
{
    if n <= 0 {
        g0
    } else {
        par_rule(par_all(g0, n - 1), n - 1, g0[n - 1].1, g0[n - 1].1.len() as int)
    }
}

/// The grammar `convert_ebnf_parentheses` makes of `g0`.
pub open spec fn convert_parentheses_spec(g0: GrammarV) -> GrammarV {
    par_all(g0, g0.len() as int)
}

/// The text of `e` holds no group followed by an operator.
pub open spec fn no_groups(e: ExpansionV) -> bool {
    tokens(Pattern::Parenthesized, exp_text(e)).len() == 0
}

/// The fresh group names hold no parenthesis.
proof fn lemma_group_name_no_paren(g: GrammarV)
    ensures
        count_char(new_symbol_spec(g, group_name()), '(') == 0,
{
    let ns = new_symbol_spec(g, group_name());
    if has_key(g, group_name()) {
        let c = super::first_free(g, group_name(), 1);
        let d = crate::text::decimal(c);
        crate::text::lemma_decimal_len(c);
        assert(ns == super::drop_last_char(group_name()) + seq!['-'] + d + seq!['>']);
        assert forall|k: int| 0 <= k < ns.len() implies ns[k] != '(' by {
            let p = super::drop_last_char(group_name()) + seq!['-'];
            if p.len() <= k < p.len() + d.len() {
                assert(ns[k] == d[k - p.len()]);
                assert(48 <= (d[k - p.len()] as u32) <= 57);
            }
        }
        lemma_count_none(ns, '(');
    } else {
        lemma_count_none(ns, '(');
    }
}

/// The groups of a text all start with `(` and end with `)` and an operator, and
/// hold no other `(`.
proof fn lemma_par_tokens(s: Seq<char>)
    ensures
        forall|t: int| 0 <= t < tokens(Pattern::Parenthesized, s).len() ==> (#[trigger] tokens(Pattern::Parenthesized, s)[t]).len() >= 3
            && is_op(tokens(Pattern::Parenthesized, s)[t].last()) && tokens(Pattern::Parenthesized, s)[t][0] == '('
            && forall|j: int| 1 <= j < tokens(Pattern::Parenthesized, s)[t].len() - 2 ==> tokens(Pattern::Parenthesized, s)[t][j] != '(',
{
    assert forall|t: int| 0 <= t < tokens(Pattern::Parenthesized, s).len() implies (#[trigger] tokens(Pattern::Parenthesized, s)[t]).len() >= 3
        && is_op(tokens(Pattern::Parenthesized, s)[t].last()) && tokens(Pattern::Parenthesized, s)[t][0] == '('
        && forall|j: int| 1 <= j < tokens(Pattern::Parenthesized, s)[t].len() - 2 ==> tokens(Pattern::Parenthesized, s)[t][j] != '(' by {
        lemma_token_shape(Pattern::Parenthesized, s, t);
    }
}

/// A text without `(` holds no group.
proof fn lemma_no_paren_no_groups(s: Seq<char>)
    requires
        forall|k: int| 0 <= k < s.len() ==> s[k] != '(',
    ensures
        tokens(Pattern::Parenthesized, s).len() == 0,
{
    if tokens(Pattern::Parenthesized, s).len() > 0 {
        lemma_token_shape(Pattern::Parenthesized, s, 0);
        let a = spans(Pattern::Parenthesized, s)[0].0;
        let tok = tokens(Pattern::Parenthesized, s)[0];
        assert(s.subrange(a, a + tok.len())[0] == s[a]);
    }
}

/// The rule a group gets: one bare expansion, the group's contents, which hold no
/// `(`.
pub open spec fn group_rule(v: Seq<ExpansionV>) -> bool {
    &&& v.len() == 1
    &&& v[0] matches Union::OnlyA(c) && forall|k: int| 0 <= k < c.len() ==> c[k] != '('
}

/// The rules after the first `n` of `g` are rules of groups.
pub open spec fn added_no_groups(g: GrammarV, n: int) -> bool {
    forall|a: int| n <= a < g.len() ==> group_rule(#[trigger] g[a].1)
}

/// The expansion of a group's rule holds no group.
proof fn lemma_group_rule(v: Seq<ExpansionV>)
    requires
        group_rule(v),
    ensures
        no_groups(v[0]),
{
    lemma_no_paren_no_groups(exp_text(v[0]));
}

/// A rewrite of a group keeps the frame, and never adds a parenthesis to the text;
/// it removes one when the group occurs in the text.
proof fn lemma_par_step(g: GrammarV, g0: GrammarV, r: int, i: int, expr: Seq<char>)
    requires
        frame(g, g0, r, i + 1),
        0 <= r < g0.len(),
        0 <= i < g0[r].1.len(),
        expr.len() >= 3,
        is_op(expr.last()),
        expr[0] == '(',
        forall|j: int| 1 <= j < expr.len() - 2 ==> expr[j] != '(',
        added_no_groups(g, g0.len() as int),
    ensures
        frame(par_step(g, r, i, expr), g0, r, i + 1),
        added_no_groups(par_step(g, r, i, expr), g0.len() as int),
        count_char(exp_text(par_step(g, r, i, expr)[r].1[i]), '(') <= count_char(exp_text(g[r].1[i]), '('),
        crate::text::find_from(exp_text(g[r].1[i]), expr, 0) >= 0 ==> count_char(exp_text(par_step(g, r, i, expr)[r].1[i]), '(') < count_char(exp_text(g[r].1[i]), '('),
        forall|a: int, k: int|
            0 <= a < g.len() && 0 <= k < g[a].1.len() && (a != r || k != i) ==> #[trigger] par_step(g, r, i, expr)[a].1[k]
                == g[a].1[k],
{
    let ns = new_symbol_spec(g, group_name());
    lemma_new_symbol_fresh(g, group_name());
    let e = g[r].1[i];
    let rep = ns.push(expr.last());
    let ne = with_text(e, replace_first(exp_text(e), expr, rep));
    let v = seq![Union::OnlyA(expr.subrange(1, expr.len() - 2))];
    lemma_step_frame(g, g0, r, i, ne, ns, v);
    lemma_group_name_no_paren(g);
    lemma_count_concat(ns, seq![expr.last()], '(');
    assert(rep =~= ns + seq![expr.last()]);
    assert(seq![expr.last()].drop_last() =~= Seq::<char>::empty());
    assert(count_char(seq![expr.last()], '(') == 0) by {
        reveal_with_fuel(count_char, 2);
    }
    assert(count_char(rep, '(') == 0);
    lemma_replace_count(exp_text(e), expr, rep, '(');
    let g2 = par_step(g, r, i, expr);
    assert(g2[r].1[i] == ne);
    assert(exp_text(ne) == replace_first(exp_text(e), expr, rep));
    assert forall|a: int, k: int|
        0 <= a < g.len() && 0 <= k < g[a].1.len() && (a != r || k != i) implies #[trigger] g2[a].1[k] == g[a].1[k] by {
        assert(g2[a] == set_exp(g, r, i, ne)[a]);
    }
    let contents = expr.subrange(1, expr.len() - 2);
    assert(group_rule(v)) by {
        assert forall|k: int| 0 <= k < contents.len() implies contents[k] != '(' by {
            assert(contents[k] == expr[k + 1]);
        }
    }
    let g1 = set_exp(g, r, i, ne);
    assert(g2 == g1.push((ns, v)));
    assert forall|a: int| g0.len() <= a < g2.len() implies group_rule(#[trigger] g2[a].1) by {
        if a < g.len() {
            assert(g2[a] == g[a]);
        } else {
            assert(g2[a] == (ns, v));
        }
    }
}

/// Rewriting a group `(body)op` of expansion `i` of rule `r`: the group's first
/// occurrence in the text gives way to a fresh name followed by `op`, and exactly one
/// rule is added, for that name, with the single bare expansion `body`: `(`, the
/// added expansion, `)` and `op` spell the group.
pub proof fn lemma_par_step_adds_body(g: GrammarV, r: int, i: int, expr: Seq<char>)
    requires
        0 <= r < g.len(),
        0 <= i < g[r].1.len(),
        expr.len() >= 3,
        expr[0] == '(',
        expr[expr.len() - 2] == ')',
        is_op(expr.last()),
    ensures
        ({
            let g2 = par_step(g, r, i, expr);
            let ns = new_symbol_spec(g, group_name());
            &&& !has_key(g, ns)
            &&& g2.len() == g.len() + 1
            &&& g2.last().0 == ns
            &&& g2.last().1.len() == 1
            &&& g2.last().1[0] is OnlyA
            &&& seq!['('] + exp_text(g2.last().1[0]) + seq![')', expr.last()] == expr
            &&& exp_text(g2[r].1[i]) == replace_first(exp_text(g[r].1[i]), expr, ns.push(expr.last()))
            &&& forall|a: int| 0 <= a < g.len() && a != r ==> #[trigger] g2[a] == g[a]
        }),
{
    let ns = new_symbol_spec(g, group_name());
    lemma_new_symbol_fresh(g, group_name());
    let e = g[r].1[i];
    let ne = with_text(e, replace_first(exp_text(e), expr, ns.push(expr.last())));
    let g1 = set_exp(g, r, i, ne);
    assert(!has_key(g1, ns)) by {
        if has_key(g1, ns) {
            let j = choose|j: int| 0 <= j < g1.len() && g1[j].0 == ns;
            assert(g[j].0 == ns);
        }
    }
    lemma_key_index(g1, ns);
    let body = expr.subrange(1, expr.len() - 2);
    assert(seq!['('] + body + seq![')', expr.last()] =~= expr);
    assert(exp_text(ne) == replace_first(exp_text(e), expr, ns.push(expr.last())));
}

/// Carries out `par_step` on the working grammar.
fn par_step_exec(grammar: &mut Grammar, r: usize, i: usize, expr: &String)
    requires
        old(grammar).wf(),
        r < old(grammar)@.len(),
        i < old(grammar)@[r as int].1.len(),
        expr@.len() >= 3,
    ensures
        final(grammar)@ == par_step(old(grammar)@, r as int, i as int, expr@),
        final(grammar).wf(),
{
    let cs = chars_of(expr.as_str());
    let n = cs.len();
    let op = cs[n - 1];
    let contents = string_from_range(&cs, 1, n - 2);
    let symbol = owned("<symbol>");
    proof {
        reveal_strlit("<symbol>");
    }
    assert(symbol@ =~= group_name());
    let ns = new_symbol(grammar, symbol.as_str());
    let mut rep = owned(ns.as_str());
    crate::text::push_char(&mut rep, op);
    let text = exp_string(&grammar.rules[r].1[i]);
    let o = exp_opts(&grammar.rules[r].1[i]);
    assert(grammar.rules@[r as int].1@[i as int].deep_view() == grammar@[r as int].1[i as int]);
    let sub = replacen_once(text.as_str(), expr.as_str(), rep.as_str());
    let ne = if o.is_empty() {
        Union::OnlyA(sub)
    } else {
        Union::OnlyB((sub, o))
    };
    grammar.set_expansion(r, i, ne);
    let body: Vec<Expansion> = vec![Union::OnlyA(contents)];
    assert(body.deep_view() =~= seq![Union::OnlyA(expr@.subrange(1, expr@.len() - 2))]);
    grammar.insert(ns, body);
}

/// Replaces each parenthesized group followed by `?`, `*` or `+` with a fresh
/// nonterminal `<symbol>`, `<symbol-1>`, ... followed by the same operator, and adds
/// the rule from that name to the group's contents; groups nested in groups are
/// rewritten from the inside out. No group is left in any rule afterwards, and each
/// added rule has one bare expansion without `(`.
#[verifier::spinoff_prover]
pub fn convert_ebnf_parentheses(ebnf_grammar: &Grammar) -> (r: Grammar)
    requires
        ebnf_grammar.wf(),
    ensures
        r.wf(),
        r@ == convert_parentheses_spec(ebnf_grammar@),
        keeps_rules(r@, ebnf_grammar@),
        forall|a: int, k: int| 0 <= a < r@.len() && 0 <= k < r@[a].1.len() ==> no_groups(#[trigger] r@[a].1[k]),
        forall|a: int| ebnf_grammar@.len() <= a < r@.len() ==> group_rule(#[trigger] r@[a].1),
{
    let ghost g0 = ebnf_grammar@;
    let mut grammar = extend_grammar(ebnf_grammar, &Grammar::new());
    assert(frame(grammar@, g0, 0, 0));
    let mut r: usize = 0;
    while r < ebnf_grammar.rules.len()
        invariant
            g0 == ebnf_grammar@,
            keys_distinct(g0),
            r <= g0.len(),
            grammar.wf(),
            grammar@ == par_all(g0, r as int),
            frame(grammar@, g0, r as int, 0),
            forall|a: int, k: int| 0 <= a < r && 0 <= k < g0[a].1.len() ==> no_groups(#[trigger] grammar@[a].1[k]),
            added_no_groups(grammar@, g0.len() as int),
        decreases ebnf_grammar.rules.len() - r,
    {
        let expansions = &ebnf_grammar.rules[r].1;
        assert(expansions.deep_view() == g0[r as int].1);
        let mut i: usize = 0;
        while i < expansions.len()
            invariant
                g0 == ebnf_grammar@,
                r < g0.len(),
                expansions.deep_view() == g0[r as int].1,
                i <= expansions.len(),
                grammar.wf(),
                grammar@ == par_rule(par_all(g0, r as int), r as int, g0[r as int].1, i as int),
                frame(grammar@, g0, r as int, i as int),
                forall|a: int, k: int| 0 <= a < r && 0 <= k < g0[a].1.len() ==> no_groups(#[trigger] grammar@[a].1[k]),
                added_no_groups(grammar@, g0.len() as int),
                forall|k: int| 0 <= k < i ==> no_groups(#[trigger] grammar@[r as int].1[k]),
            decreases expansions.len() - i,
        {
            assert(expansions@[i as int].deep_view() == g0[r as int].1[i as int]);
            let mut text = exp_string(&expansions[i]);
            let ghost start = grammar@;
            proof {
                lemma_frame_next(grammar@, g0, r as int, i as int);
            }
            loop
                invariant
                    g0 == ebnf_grammar@,
                    r < g0.len(),
                    i < g0[r as int].1.len(),
                    grammar.wf(),
                    frame(grammar@, g0, r as int, i as int + 1),
                    text@ == exp_text(grammar@[r as int].1[i as int]),
                    par_rule(par_all(g0, r as int), r as int, g0[r as int].1, i as int + 1)
                        == par_loop(grammar@, r as int, i as int, text@),
                    forall|a: int, k: int| 0 <= a < r && 0 <= k < g0[a].1.len() ==> no_groups(#[trigger] grammar@[a].1[k]),
                    added_no_groups(grammar@, g0.len() as int),
                    forall|k: int| 0 <= k < i ==> no_groups(#[trigger] grammar@[r as int].1[k]),
                ensures
                    grammar.wf(),
                    frame(grammar@, g0, r as int, i as int + 1),
                    grammar@ == par_rule(par_all(g0, r as int), r as int, g0[r as int].1, i as int + 1),
                    forall|a: int, k: int| 0 <= a < r && 0 <= k < g0[a].1.len() ==> no_groups(#[trigger] grammar@[a].1[k]),
                    added_no_groups(grammar@, g0.len() as int),
                    forall|k: int| 0 <= k <= i ==> no_groups(#[trigger] grammar@[r as int].1[k]),
                decreases count_char(text@, '('),
            {
                let exprs = super::parenthesized_expressions(&Union::OnlyA(text.clone()));
                let ghost ex = tokens(Pattern::Parenthesized, text@);
                assert(exprs.deep_view() == ex);
                if exprs.len() == 0 {
                    assert(no_groups(grammar@[r as int].1[i as int]));
                    break;
                }
                proof {
                    lemma_par_tokens(text@);
                    lemma_token_shape(Pattern::Parenthesized, text@, 0);
                    lemma_find_from_found(text@, ex[0], 0, spans(Pattern::Parenthesized, text@)[0].0);
                }
                let ghost round = grammar@;
                let ghost t0 = text@;
                let mut j: usize = 0;
                while j < exprs.len()
                    invariant
                        g0 == ebnf_grammar@,
                        r < g0.len(),
                        i < g0[r as int].1.len(),
                        exprs.deep_view() == ex,
                        ex.len() > 0,
                        forall|t: int| 0 <= t < ex.len() ==> (#[trigger] ex[t]).len() >= 3 && is_op(ex[t].last()) && ex[t][0] == '('
                            && forall|j: int| 1 <= j < ex[t].len() - 2 ==> ex[t][j] != '(',
                        crate::text::find_from(t0, ex[0], 0) >= 0,
                        t0 == exp_text(round[r as int].1[i as int]),
                        j <= exprs.len(),
                        grammar.wf(),
                        frame(grammar@, g0, r as int, i as int + 1),
                        grammar@ == par_exprs(round, r as int, i as int, ex.take(j as int)),
                        count_char(exp_text(grammar@[r as int].1[i as int]), '(') <= count_char(t0, '('),
                        j > 0 ==> count_char(exp_text(grammar@[r as int].1[i as int]), '(') < count_char(t0, '('),
                        forall|a: int, k: int| 0 <= a < r && 0 <= k < g0[a].1.len() ==> no_groups(#[trigger] grammar@[a].1[k]),
                        added_no_groups(grammar@, g0.len() as int),
                        forall|k: int| 0 <= k < i ==> no_groups(#[trigger] grammar@[r as int].1[k]),
                    decreases exprs.len() - j,
                {
                    assert(ex.take(j + 1).drop_last() =~= ex.take(j as int));
                    assert(ex.take(j + 1).last() == ex[j as int]);
                    assert(exprs@[j as int]@ == ex[j as int]);
                    let ghost before = grammar@;
                    proof {
                        if j == 0 {
                            assert(grammar@ == round);
                        }
                        lemma_par_step(grammar@, g0, r as int, i as int, ex[j as int]);
                    }
                    par_step_exec(&mut grammar, r, i, &exprs[j]);
                    assert forall|a: int, k: int| 0 <= a < r && 0 <= k < g0[a].1.len() implies no_groups(#[trigger] grammar@[a].1[k]) by {
                        assert(grammar@[a].1[k] == before[a].1[k]);
                    }
                    assert forall|k: int| 0 <= k < i implies no_groups(#[trigger] grammar@[r as int].1[k]) by {
                        assert(grammar@[r as int].1[k] == before[r as int].1[k]);
                    }
                    j = j + 1;
                }
                assert(ex.take(exprs.len() as int) =~= ex);
                assert(r < grammar.rules@.len());
                assert(grammar@[r as int].1.len() == g0[r as int].1.len());
                assert(grammar.rules@[r as int].1@.len() == grammar@[r as int].1.len());
                assert(i < grammar.rules@[r as int].1@.len());
                let next = exp_string(&grammar.rules[r].1[i]);
                assert(grammar.rules@[r as int].1@[i as int].deep_view() == grammar@[r as int].1[i as int]);
                text = next;
            }
            proof {
                lemma_frame_next(start, g0, r as int, i as int);
            }
            i = i + 1;
        }
        proof {
            lemma_frame_next_rule(grammar@, g0, r as int);
        }
        r = r + 1;
    }
    assert forall|a: int, k: int| 0 <= a < grammar@.len() && 0 <= k < grammar@[a].1.len() implies no_groups(#[trigger] grammar@[a].1[k]) by {
        if a < g0.len() {
            assert(grammar@[a].1.len() == g0[a].1.len());
        } else {
            assert(group_rule(grammar@[a].1));
            lemma_group_rule(grammar@[a].1);
        }
    }
    grammar
}

/// The whole EBNF rewrite: groups first, then operators on nonterminals.
pub open spec fn convert_ebnf_spec(g0: GrammarV) -> GrammarV {
    convert_operators_spec(convert_parentheses_spec(g0))
}

/// Rewrites all EBNF shorthands of the grammar into plain rules.
pub fn convert_ebnf_grammar(ebnf_grammar: &Grammar) -> (r: Grammar)
    requires
        ebnf_grammar.wf(),
    ensures
        r.wf(),
        r@ == convert_ebnf_spec(ebnf_grammar@),
        keeps_rules(r@, ebnf_grammar@),
{
    let g = convert_ebnf_parentheses(ebnf_grammar);
    let r = convert_ebnf_operators(&g);
    assert(keeps_rules(r@, ebnf_grammar@)) by {
        assert forall|j: int| 0 <= j < ebnf_grammar@.len() implies r@[j].0 == ebnf_grammar@[j].0 && r@[j].1.len()
            == ebnf_grammar@[j].1.len() by {
            assert(g@[j].0 == ebnf_grammar@[j].0);
        }
    }
    r
}

} // verus!
