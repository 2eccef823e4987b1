//! Both grammars that the slot filler fuzzes can be fuzzed from their start
//! symbols: every nonterminal their expansions use names one of their rules, and
//! no rule is empty.
use vstd::prelude::*;
use crate::grammar::GrammarV;
use crate::grammar::ExpansionV;
use crate::grammar::has_key;
use crate::grammar::index_from;
use crate::grammar::pattern::Pattern;
use crate::grammar::pattern::tokens;
use crate::grammar::pattern::spans_from;
use crate::grammar::pattern::body_end;
use crate::grammar::options::exp_text;
use crate::grammar::predef_grammars::bare;
use crate::grammar::predef_grammars::expr_grammar;
use crate::grammar::predef_grammars::array_grammar;
use crate::grammar::str_helper::CharRange;
use crate::grammar::str_helper::char_range;
use crate::grammar_fuzzer::tree::children_of;
use crate::grammar_fuzzer::cost::fuzzable;
use crate::grammar_fuzzer::cost::expansion_closed;
use crate::grammar_fuzzer::laws::lemma_open_child_token;

verus! {

/// An expansion whose nonterminals all name rules of `g` is closed in `g`.
proof fn lemma_closed_by_tokens(g: GrammarV, e: ExpansionV)
    requires
        forall|t: int|
            0 <= t < tokens(Pattern::Nonterminal, exp_text(e)).len() ==> has_key(
                g,
                #[trigger] tokens(Pattern::Nonterminal, exp_text(e))[t],
            ),
    ensures
        expansion_closed(g, e),
{
    let text = exp_text(e);
    let cs = children_of(text);
    let toks = tokens(Pattern::Nonterminal, text);
    assert forall|t: int| 0 <= t < cs.len() && (#[trigger] cs[t]).children is None implies has_key(g, cs[t].symbol) by {
        lemma_open_child_token(text, t);
        let k = choose|k: int| 0 <= k < toks.len() && toks[k] == cs[t].symbol;
        assert(has_key(g, toks[k]));
    }
}

/// A one-character text that is not `<` holds no nonterminal.
proof fn lemma_char_no_token(c: char)
    requires
        c != '<',
    ensures
        tokens(Pattern::Nonterminal, seq![c]).len() == 0,
{
    reveal_with_fuel(spans_from, 3);
}

/// The nonterminals of the nine one-digit expansions: none.
proof fn lemma_digits_closed(g: GrammarV)
    ensures
        forall|k: int| 0 <= k < char_range(CharRange::NonZeroDigit).len() ==> expansion_closed(
            g,
            #[trigger] char_range(CharRange::NonZeroDigit)[k],
        ),
{
    assert forall|k: int| 0 <= k < char_range(CharRange::NonZeroDigit).len() implies expansion_closed(
        g,
        #[trigger] char_range(CharRange::NonZeroDigit)[k],
    ) by {
        let c = (49 + k) as char;
        lemma_char_no_token(c);
        assert(exp_text(char_range(CharRange::NonZeroDigit)[k]) == seq![c]);
        lemma_closed_by_tokens(g, char_range(CharRange::NonZeroDigit)[k]);
    }
}

/// The nonterminals of `<expr>`.
proof fn lemma_tokens_expr()
    ensures
        tokens(Pattern::Nonterminal, "<expr>"@) =~= seq!["<expr>"@],
{
    reveal_strlit("<expr>");
    reveal_with_fuel(body_end, 8);
    reveal_with_fuel(spans_from, 8);
    assert("<expr>"@.subrange(0, 6) =~= "<expr>"@);
}

/// The nonterminals of `<term> + <expr>`.
proof fn lemma_tokens_term_plus_expr()
    ensures
        tokens(Pattern::Nonterminal, "<term> + <expr>"@) =~= seq!["<term>"@, "<expr>"@],
{
    reveal_strlit("<term> + <expr>");
    reveal_strlit("<expr>");
    reveal_strlit("<term>");
    reveal_with_fuel(body_end, 17);
    reveal_with_fuel(spans_from, 17);
    assert("<term> + <expr>"@.subrange(0, 6) =~= "<term>"@);
    assert("<term> + <expr>"@.subrange(9, 15) =~= "<expr>"@);
}

/// The nonterminals of `<term> - <expr>`.
proof fn lemma_tokens_term_minus_expr()
    ensures
        tokens(Pattern::Nonterminal, "<term> - <expr>"@) =~= seq!["<term>"@, "<expr>"@],
{
    reveal_strlit("<term> - <expr>");
    reveal_strlit("<expr>");
    reveal_strlit("<term>");
    reveal_with_fuel(body_end, 17);
    reveal_with_fuel(spans_from, 17);
    assert("<term> - <expr>"@.subrange(0, 6) =~= "<term>"@);
    assert("<term> - <expr>"@.subrange(9, 15) =~= "<expr>"@);
}

/// The nonterminals of `<term>`.
proof fn lemma_tokens_term()
    ensures
        tokens(Pattern::Nonterminal, "<term>"@) =~= seq!["<term>"@],
{
    reveal_strlit("<term>");
    reveal_with_fuel(body_end, 8);
    reveal_with_fuel(spans_from, 8);
    assert("<term>"@.subrange(0, 6) =~= "<term>"@);
}

/// The nonterminals of `<factor> * <term>`.
proof fn lemma_tokens_factor_times_term()
    ensures
        tokens(Pattern::Nonterminal, "<factor> * <term>"@) =~= seq!["<factor>"@, "<term>"@],
{
    reveal_strlit("<factor> * <term>");
    reveal_strlit("<factor>");
    reveal_strlit("<term>");
    reveal_with_fuel(body_end, 19);
    reveal_with_fuel(spans_from, 19);
    assert("<factor> * <term>"@.subrange(0, 8) =~= "<factor>"@);
    assert("<factor> * <term>"@.subrange(11, 17) =~= "<term>"@);
}

/// The nonterminals of `<factor> / <term>`.
proof fn lemma_tokens_factor_over_term()
    ensures
        tokens(Pattern::Nonterminal, "<factor> / <term>"@) =~= seq!["<factor>"@, "<term>"@],
{
    reveal_strlit("<factor> / <term>");
    reveal_strlit("<factor>");
    reveal_strlit("<term>");
    reveal_with_fuel(body_end, 19);
    reveal_with_fuel(spans_from, 19);
    assert("<factor> / <term>"@.subrange(0, 8) =~= "<factor>"@);
    assert("<factor> / <term>"@.subrange(11, 17) =~= "<term>"@);
}

/// The nonterminals of `<factor>`.
proof fn lemma_tokens_factor()
    ensures
        tokens(Pattern::Nonterminal, "<factor>"@) =~= seq!["<factor>"@],
{
    reveal_strlit("<factor>");
    reveal_with_fuel(body_end, 10);
    reveal_with_fuel(spans_from, 10);
    assert("<factor>"@.subrange(0, 8) =~= "<factor>"@);
}

/// The nonterminals of `+<integer>`.
proof fn lemma_tokens_plus_integer()
    ensures
        tokens(Pattern::Nonterminal, "+<integer>"@) =~= seq!["<integer>"@],
{
    reveal_strlit("+<integer>");
    reveal_strlit("<integer>");
    reveal_with_fuel(body_end, 12);
    reveal_with_fuel(spans_from, 12);
    assert("+<integer>"@.subrange(1, 10) =~= "<integer>"@);
}

/// The nonterminals of `-<integer>`.
proof fn lemma_tokens_minus_integer()
    ensures
        tokens(Pattern::Nonterminal, "-<integer>"@) =~= seq!["<integer>"@],
{
    reveal_strlit("-<integer>");
    reveal_strlit("<integer>");
    reveal_with_fuel(body_end, 12);
    reveal_with_fuel(spans_from, 12);
    assert("-<integer>"@.subrange(1, 10) =~= "<integer>"@);
}

/// The nonterminals of `+<integer>.<integer>`.
proof fn lemma_tokens_plus_integer_dot_integer()
    ensures
        tokens(Pattern::Nonterminal, "+<integer>.<integer>"@) =~= seq!["<integer>"@, "<integer>"@],
{
    reveal_strlit("+<integer>.<integer>");
    reveal_strlit("<integer>");
    reveal_with_fuel(body_end, 22);
    reveal_with_fuel(spans_from, 22);
    assert("+<integer>.<integer>"@.subrange(1, 10) =~= "<integer>"@);
    assert("+<integer>.<integer>"@.subrange(11, 20) =~= "<integer>"@);
}

/// The nonterminals of `-<integer>.<integer>`.
proof fn lemma_tokens_minus_integer_dot_integer()
    ensures
        tokens(Pattern::Nonterminal, "-<integer>.<integer>"@) =~= seq!["<integer>"@, "<integer>"@],
{
    reveal_strlit("-<integer>.<integer>");
    reveal_strlit("<integer>");
    reveal_with_fuel(body_end, 22);
    reveal_with_fuel(spans_from, 22);
    assert("-<integer>.<integer>"@.subrange(1, 10) =~= "<integer>"@);
    assert("-<integer>.<integer>"@.subrange(11, 20) =~= "<integer>"@);
}

/// The nonterminals of `(<expr>)`.
proof fn lemma_tokens_paren_expr()
    ensures
        tokens(Pattern::Nonterminal, "(<expr>)"@) =~= seq!["<expr>"@],
{
    reveal_strlit("(<expr>)");
    reveal_strlit("<expr>");
    reveal_with_fuel(body_end, 10);
    reveal_with_fuel(spans_from, 10);
    assert("(<expr>)"@.subrange(1, 7) =~= "<expr>"@);
}

/// The nonterminals of `<integer>.<integer>`.
proof fn lemma_tokens_integer_dot_integer()
    ensures
        tokens(Pattern::Nonterminal, "<integer>.<integer>"@) =~= seq!["<integer>"@, "<integer>"@],
{
    reveal_strlit("<integer>.<integer>");
    reveal_strlit("<integer>");
    reveal_with_fuel(body_end, 21);
    reveal_with_fuel(spans_from, 21);
    assert("<integer>.<integer>"@.subrange(0, 9) =~= "<integer>"@);
    assert("<integer>.<integer>"@.subrange(10, 19) =~= "<integer>"@);
}

/// The nonterminals of `<integer>`.
proof fn lemma_tokens_integer()
    ensures
        tokens(Pattern::Nonterminal, "<integer>"@) =~= seq!["<integer>"@],
{
    reveal_strlit("<integer>");
    reveal_with_fuel(body_end, 11);
    reveal_with_fuel(spans_from, 11);
    assert("<integer>"@.subrange(0, 9) =~= "<integer>"@);
}

/// The nonterminals of `<non-zero-digit><integer>`.
proof fn lemma_tokens_nonzero_digit_integer()
    ensures
        tokens(Pattern::Nonterminal, "<non-zero-digit><integer>"@) =~= seq!["<non-zero-digit>"@, "<integer>"@],
{
    reveal_strlit("<non-zero-digit><integer>");
    reveal_strlit("<integer>");
    reveal_strlit("<non-zero-digit>");
    reveal_with_fuel(body_end, 27);
    reveal_with_fuel(spans_from, 27);
    assert("<non-zero-digit><integer>"@.subrange(0, 16) =~= "<non-zero-digit>"@);
    assert("<non-zero-digit><integer>"@.subrange(16, 25) =~= "<integer>"@);
}

/// The nonterminals of `<non-zero-digit>`.
proof fn lemma_tokens_nonzero_digit()
    ensures
        tokens(Pattern::Nonterminal, "<non-zero-digit>"@) =~= seq!["<non-zero-digit>"@],
{
    reveal_strlit("<non-zero-digit>");
    reveal_with_fuel(body_end, 18);
    reveal_with_fuel(spans_from, 18);
    assert("<non-zero-digit>"@.subrange(0, 16) =~= "<non-zero-digit>"@);
}

/// The nonterminals of `[<elems>]`.
proof fn lemma_tokens_bracket_elems()
    ensures
        tokens(Pattern::Nonterminal, "[<elems>]"@) =~= seq!["<elems>"@],
{
    reveal_strlit("[<elems>]");
    reveal_strlit("<elems>");
    reveal_with_fuel(body_end, 11);
    reveal_with_fuel(spans_from, 11);
    assert("[<elems>]"@.subrange(1, 8) =~= "<elems>"@);
}

/// The nonterminals of `<elem>`.
proof fn lemma_tokens_elem()
    ensures
        tokens(Pattern::Nonterminal, "<elem>"@) =~= seq!["<elem>"@],
{
    reveal_strlit("<elem>");
    reveal_with_fuel(body_end, 8);
    reveal_with_fuel(spans_from, 8);
    assert("<elem>"@.subrange(0, 6) =~= "<elem>"@);
}

/// The nonterminals of `<elems>,<elem>`.
proof fn lemma_tokens_elems_comma_elem()
    ensures
        tokens(Pattern::Nonterminal, "<elems>,<elem>"@) =~= seq!["<elems>"@, "<elem>"@],
{
    reveal_strlit("<elems>,<elem>");
    reveal_strlit("<elem>");
    reveal_strlit("<elems>");
    reveal_with_fuel(body_end, 16);
    reveal_with_fuel(spans_from, 16);
    assert("<elems>,<elem>"@.subrange(0, 7) =~= "<elems>"@);
    assert("<elems>,<elem>"@.subrange(8, 14) =~= "<elem>"@);
}

/// The rules of the expression grammar, in order.
proof fn lemma_expr_grammar_rules()
    ensures
        expr_grammar() =~= seq![
        ("<start>"@, bare(seq!["<expr>"])),
        ("<expr>"@, bare(seq!["<term> + <expr>", "<term> - <expr>", "<term>"])),
        ("<term>"@, bare(seq!["<factor> * <term>", "<factor> / <term>", "<factor>"])),
        ("<factor>"@, bare(seq!["+<integer>", "-<integer>", "+<integer>.<integer>", "-<integer>.<integer>", "(<expr>)", "<integer>.<integer>", "<integer>"])),
        ("<integer>"@, bare(seq!["<non-zero-digit><integer>", "<non-zero-digit>"])),
        ("<non-zero-digit>"@, char_range(CharRange::NonZeroDigit)),
    ],
{
    reveal_strlit("<start>");
    reveal_strlit("<expr>");
    reveal_strlit("<term>");
    reveal_strlit("<factor>");
    reveal_strlit("<integer>");
    reveal_strlit("<non-zero-digit>");
    assert("<start>"@.len() == 7);
    assert("<expr>"@.len() == 6);
    assert("<term>"@.len() == 6);
    assert("<factor>"@.len() == 8);
    assert("<integer>"@.len() == 9);
    assert("<non-zero-digit>"@.len() == 16);
    assert("<start>"@ != "<expr>"@);
    assert("<start>"@ != "<term>"@);
    assert("<start>"@ != "<factor>"@);
    assert("<start>"@ != "<integer>"@);
    assert("<start>"@ != "<non-zero-digit>"@);
    assert("<expr>"@[1] != "<term>"@[1]);
    assert("<expr>"@ != "<term>"@);
    assert("<expr>"@ != "<factor>"@);
    assert("<expr>"@ != "<integer>"@);
    assert("<expr>"@ != "<non-zero-digit>"@);
    assert("<term>"@ != "<factor>"@);
    assert("<term>"@ != "<integer>"@);
    assert("<term>"@ != "<non-zero-digit>"@);
    assert("<factor>"@ != "<integer>"@);
    assert("<factor>"@ != "<non-zero-digit>"@);
    assert("<integer>"@ != "<non-zero-digit>"@);
    reveal_with_fuel(index_from, 7);
    let g1 = crate::grammar::insert_rule(Seq::<(Seq<char>, Seq<ExpansionV>)>::empty(), "<start>"@, bare(seq!["<expr>"]));
    assert(g1 =~= seq![("<start>"@, bare(seq!["<expr>"]))]);
    let g2 = crate::grammar::insert_rule(g1, "<expr>"@, bare(seq!["<term> + <expr>", "<term> - <expr>", "<term>"]));
    assert(g2 =~= seq![("<start>"@, bare(seq!["<expr>"])), ("<expr>"@, bare(seq!["<term> + <expr>", "<term> - <expr>", "<term>"]))]);
    let g3 = crate::grammar::insert_rule(g2, "<term>"@, bare(seq!["<factor> * <term>", "<factor> / <term>", "<factor>"]));
    assert(g3 =~= seq![("<start>"@, bare(seq!["<expr>"])), ("<expr>"@, bare(seq!["<term> + <expr>", "<term> - <expr>", "<term>"])), ("<term>"@, bare(seq!["<factor> * <term>", "<factor> / <term>", "<factor>"]))]);
    let g4 = crate::grammar::insert_rule(g3, "<factor>"@, bare(seq!["+<integer>", "-<integer>", "+<integer>.<integer>", "-<integer>.<integer>", "(<expr>)", "<integer>.<integer>", "<integer>"]));
    assert(g4 =~= seq![("<start>"@, bare(seq!["<expr>"])), ("<expr>"@, bare(seq!["<term> + <expr>", "<term> - <expr>", "<term>"])), ("<term>"@, bare(seq!["<factor> * <term>", "<factor> / <term>", "<factor>"])), ("<factor>"@, bare(seq!["+<integer>", "-<integer>", "+<integer>.<integer>", "-<integer>.<integer>", "(<expr>)", "<integer>.<integer>", "<integer>"]))]);
    let g5 = crate::grammar::insert_rule(g4, "<integer>"@, bare(seq!["<non-zero-digit><integer>", "<non-zero-digit>"]));
    assert(g5 =~= seq![("<start>"@, bare(seq!["<expr>"])), ("<expr>"@, bare(seq!["<term> + <expr>", "<term> - <expr>", "<term>"])), ("<term>"@, bare(seq!["<factor> * <term>", "<factor> / <term>", "<factor>"])), ("<factor>"@, bare(seq!["+<integer>", "-<integer>", "+<integer>.<integer>", "-<integer>.<integer>", "(<expr>)", "<integer>.<integer>", "<integer>"])), ("<integer>"@, bare(seq!["<non-zero-digit><integer>", "<non-zero-digit>"]))]);
    let g6 = crate::grammar::insert_rule(g5, "<non-zero-digit>"@, char_range(CharRange::NonZeroDigit));
    assert(g6 =~= seq![("<start>"@, bare(seq!["<expr>"])), ("<expr>"@, bare(seq!["<term> + <expr>", "<term> - <expr>", "<term>"])), ("<term>"@, bare(seq!["<factor> * <term>", "<factor> / <term>", "<factor>"])), ("<factor>"@, bare(seq!["+<integer>", "-<integer>", "+<integer>.<integer>", "-<integer>.<integer>", "(<expr>)", "<integer>.<integer>", "<integer>"])), ("<integer>"@, bare(seq!["<non-zero-digit><integer>", "<non-zero-digit>"])), ("<non-zero-digit>"@, char_range(CharRange::NonZeroDigit))]);
}

/// The expression grammar is fuzzable and defines `<start>`.
pub proof fn lemma_expr_grammar_fuzzable()
    ensures
        fuzzable(expr_grammar()),
        has_key(expr_grammar(), "<start>"@),
{
    lemma_expr_grammar_rules();
    let g = expr_grammar();
    reveal_strlit("<start>");
    reveal_strlit("<expr>");
    reveal_strlit("<term>");
    reveal_strlit("<factor>");
    reveal_strlit("<integer>");
    reveal_strlit("<non-zero-digit>");
    assert("<start>"@.len() == 7);
    assert("<expr>"@.len() == 6);
    assert("<term>"@.len() == 6);
    assert("<factor>"@.len() == 8);
    assert("<integer>"@.len() == 9);
    assert("<non-zero-digit>"@.len() == 16);
    assert("<start>"@ != "<expr>"@);
    assert("<start>"@ != "<term>"@);
    assert("<start>"@ != "<factor>"@);
    assert("<start>"@ != "<integer>"@);
    assert("<start>"@ != "<non-zero-digit>"@);
    assert("<expr>"@[1] != "<term>"@[1]);
    assert("<expr>"@ != "<term>"@);
    assert("<expr>"@ != "<factor>"@);
    assert("<expr>"@ != "<integer>"@);
    assert("<expr>"@ != "<non-zero-digit>"@);
    assert("<term>"@ != "<factor>"@);
    assert("<term>"@ != "<integer>"@);
    assert("<term>"@ != "<non-zero-digit>"@);
    assert("<factor>"@ != "<integer>"@);
    assert("<factor>"@ != "<non-zero-digit>"@);
    assert("<integer>"@ != "<non-zero-digit>"@);
    assert(has_key(g, "<start>"@)) by {
        assert(g[0].0 == "<start>"@);
    }
    assert(has_key(g, "<expr>"@)) by {
        assert(g[1].0 == "<expr>"@);
    }
    assert(has_key(g, "<term>"@)) by {
        assert(g[2].0 == "<term>"@);
    }
    assert(has_key(g, "<factor>"@)) by {
        assert(g[3].0 == "<factor>"@);
    }
    assert(has_key(g, "<integer>"@)) by {
        assert(g[4].0 == "<integer>"@);
    }
    assert(has_key(g, "<non-zero-digit>"@)) by {
        assert(g[5].0 == "<non-zero-digit>"@);
    }
    assert forall|k: int| 0 <= k < g[0].1.len() implies expansion_closed(g, #[trigger] g[0].1[k]) by {
        if k == 0 {
            lemma_tokens_expr();
            assert(exp_text(g[0].1[k]) == "<expr>"@);
            lemma_closed_by_tokens(g, g[0].1[k]);
        }
    }
    assert forall|k: int| 0 <= k < g[1].1.len() implies expansion_closed(g, #[trigger] g[1].1[k]) by {
        if k == 0 {
            lemma_tokens_term_plus_expr();
            assert(exp_text(g[1].1[k]) == "<term> + <expr>"@);
            lemma_closed_by_tokens(g, g[1].1[k]);
        } else if k == 1 {
            lemma_tokens_term_minus_expr();
            assert(exp_text(g[1].1[k]) == "<term> - <expr>"@);
            lemma_closed_by_tokens(g, g[1].1[k]);
        } else if k == 2 {
            lemma_tokens_term();
            assert(exp_text(g[1].1[k]) == "<term>"@);
            lemma_closed_by_tokens(g, g[1].1[k]);
        }
    }
    assert forall|k: int| 0 <= k < g[2].1.len() implies expansion_closed(g, #[trigger] g[2].1[k]) by {
        if k == 0 {
            lemma_tokens_factor_times_term();
            assert(exp_text(g[2].1[k]) == "<factor> * <term>"@);
            lemma_closed_by_tokens(g, g[2].1[k]);
        } else if k == 1 {
            lemma_tokens_factor_over_term();
            assert(exp_text(g[2].1[k]) == "<factor> / <term>"@);
            lemma_closed_by_tokens(g, g[2].1[k]);
        } else if k == 2 {
            lemma_tokens_factor();
            assert(exp_text(g[2].1[k]) == "<factor>"@);
            lemma_closed_by_tokens(g, g[2].1[k]);
        }
    }
    assert forall|k: int| 0 <= k < g[3].1.len() implies expansion_closed(g, #[trigger] g[3].1[k]) by {
        if k == 0 {
            lemma_tokens_plus_integer();
            assert(exp_text(g[3].1[k]) == "+<integer>"@);
            lemma_closed_by_tokens(g, g[3].1[k]);
        } else if k == 1 {
            lemma_tokens_minus_integer();
            assert(exp_text(g[3].1[k]) == "-<integer>"@);
            lemma_closed_by_tokens(g, g[3].1[k]);
        } else if k == 2 {
            lemma_tokens_plus_integer_dot_integer();
            assert(exp_text(g[3].1[k]) == "+<integer>.<integer>"@);
            lemma_closed_by_tokens(g, g[3].1[k]);
        } else if k == 3 {
            lemma_tokens_minus_integer_dot_integer();
            assert(exp_text(g[3].1[k]) == "-<integer>.<integer>"@);
            lemma_closed_by_tokens(g, g[3].1[k]);
        } else if k == 4 {
            lemma_tokens_paren_expr();
            assert(exp_text(g[3].1[k]) == "(<expr>)"@);
            lemma_closed_by_tokens(g, g[3].1[k]);
        } else if k == 5 {
            lemma_tokens_integer_dot_integer();
            assert(exp_text(g[3].1[k]) == "<integer>.<integer>"@);
            lemma_closed_by_tokens(g, g[3].1[k]);
        } else if k == 6 {
            lemma_tokens_integer();
            assert(exp_text(g[3].1[k]) == "<integer>"@);
            lemma_closed_by_tokens(g, g[3].1[k]);
        }
    }
    assert forall|k: int| 0 <= k < g[4].1.len() implies expansion_closed(g, #[trigger] g[4].1[k]) by {
        if k == 0 {
            lemma_tokens_nonzero_digit_integer();
            assert(exp_text(g[4].1[k]) == "<non-zero-digit><integer>"@);
            lemma_closed_by_tokens(g, g[4].1[k]);
        } else if k == 1 {
            lemma_tokens_nonzero_digit();
            assert(exp_text(g[4].1[k]) == "<non-zero-digit>"@);
            lemma_closed_by_tokens(g, g[4].1[k]);
        }
    }
    lemma_digits_closed(g);
    assert(g[5].1 == char_range(CharRange::NonZeroDigit));
    assert(forall|k: int| 0 <= k < g[5].1.len() ==> expansion_closed(g, #[trigger] g[5].1[k]));
    assert forall|j: int, k: int| 0 <= j < g.len() && 0 <= k < g[j].1.len() implies expansion_closed(g, #[trigger] g[j].1[k]) by {
        assert(0 <= j < 6);
    }
}

/// The rules of the array grammar, in order.
proof fn lemma_array_grammar_rules()
    ensures
        array_grammar() =~= seq![
        ("<array>"@, bare(seq!["[<elems>]"])),
        ("<elems>"@, bare(seq!["<elem>", "<elems>,<elem>"])),
        ("<elem>"@, bare(seq!["<integer>"])),
        ("<integer>"@, bare(seq!["<non-zero-digit><integer>", "<non-zero-digit>"])),
        ("<non-zero-digit>"@, char_range(CharRange::NonZeroDigit)),
    ],
{
    reveal_strlit("<array>");
    reveal_strlit("<elems>");
    reveal_strlit("<elem>");
    reveal_strlit("<integer>");
    reveal_strlit("<non-zero-digit>");
    assert("<array>"@.len() == 7);
    assert("<elems>"@.len() == 7);
    assert("<elem>"@.len() == 6);
    assert("<integer>"@.len() == 9);
    assert("<non-zero-digit>"@.len() == 16);
    assert("<array>"@[1] != "<elems>"@[1]);
    assert("<array>"@ != "<elems>"@);
    assert("<array>"@ != "<elem>"@);
    assert("<array>"@ != "<integer>"@);
    assert("<array>"@ != "<non-zero-digit>"@);
    assert("<elems>"@ != "<elem>"@);
    assert("<elems>"@ != "<integer>"@);
    assert("<elems>"@ != "<non-zero-digit>"@);
    assert("<elem>"@ != "<integer>"@);
    assert("<elem>"@ != "<non-zero-digit>"@);
    assert("<integer>"@ != "<non-zero-digit>"@);
    reveal_with_fuel(index_from, 6);
    let g1 = crate::grammar::insert_rule(Seq::<(Seq<char>, Seq<ExpansionV>)>::empty(), "<array>"@, bare(seq!["[<elems>]"]));
    assert(g1 =~= seq![("<array>"@, bare(seq!["[<elems>]"]))]);
    let g2 = crate::grammar::insert_rule(g1, "<elems>"@, bare(seq!["<elem>", "<elems>,<elem>"]));
    assert(g2 =~= seq![("<array>"@, bare(seq!["[<elems>]"])), ("<elems>"@, bare(seq!["<elem>", "<elems>,<elem>"]))]);
    let g3 = crate::grammar::insert_rule(g2, "<elem>"@, bare(seq!["<integer>"]));
    assert(g3 =~= seq![("<array>"@, bare(seq!["[<elems>]"])), ("<elems>"@, bare(seq!["<elem>", "<elems>,<elem>"])), ("<elem>"@, bare(seq!["<integer>"]))]);
    let g4 = crate::grammar::insert_rule(g3, "<integer>"@, bare(seq!["<non-zero-digit><integer>", "<non-zero-digit>"]));
    assert(g4 =~= seq![("<array>"@, bare(seq!["[<elems>]"])), ("<elems>"@, bare(seq!["<elem>", "<elems>,<elem>"])), ("<elem>"@, bare(seq!["<integer>"])), ("<integer>"@, bare(seq!["<non-zero-digit><integer>", "<non-zero-digit>"]))]);
    let g5 = crate::grammar::insert_rule(g4, "<non-zero-digit>"@, char_range(CharRange::NonZeroDigit));
    assert(g5 =~= seq![("<array>"@, bare(seq!["[<elems>]"])), ("<elems>"@, bare(seq!["<elem>", "<elems>,<elem>"])), ("<elem>"@, bare(seq!["<integer>"])), ("<integer>"@, bare(seq!["<non-zero-digit><integer>", "<non-zero-digit>"])), ("<non-zero-digit>"@, char_range(CharRange::NonZeroDigit))]);
}

/// The array grammar is fuzzable and defines `<array>`.
pub proof fn lemma_array_grammar_fuzzable()
    ensures
        fuzzable(array_grammar()),
        has_key(array_grammar(), "<array>"@),
{
    lemma_array_grammar_rules();
    let g = array_grammar();
    reveal_strlit("<array>");
    reveal_strlit("<elems>");
    reveal_strlit("<elem>");
    reveal_strlit("<integer>");
    reveal_strlit("<non-zero-digit>");
    assert("<array>"@.len() == 7);
    assert("<elems>"@.len() == 7);
    assert("<elem>"@.len() == 6);
    assert("<integer>"@.len() == 9);
    assert("<non-zero-digit>"@.len() == 16);
    assert("<array>"@[1] != "<elems>"@[1]);
    assert("<array>"@ != "<elems>"@);
    assert("<array>"@ != "<elem>"@);
    assert("<array>"@ != "<integer>"@);
    assert("<array>"@ != "<non-zero-digit>"@);
    assert("<elems>"@ != "<elem>"@);
    assert("<elems>"@ != "<integer>"@);
    assert("<elems>"@ != "<non-zero-digit>"@);
    assert("<elem>"@ != "<integer>"@);
    assert("<elem>"@ != "<non-zero-digit>"@);
    assert("<integer>"@ != "<non-zero-digit>"@);
    assert(has_key(g, "<array>"@)) by {
        assert(g[0].0 == "<array>"@);
    }
    assert(has_key(g, "<elems>"@)) by {
        assert(g[1].0 == "<elems>"@);
    }
    assert(has_key(g, "<elem>"@)) by {
        assert(g[2].0 == "<elem>"@);
    }
    assert(has_key(g, "<integer>"@)) by {
        assert(g[3].0 == "<integer>"@);
    }
    assert(has_key(g, "<non-zero-digit>"@)) by {
        assert(g[4].0 == "<non-zero-digit>"@);
    }
    assert forall|k: int| 0 <= k < g[0].1.len() implies expansion_closed(g, #[trigger] g[0].1[k]) by {
        if k == 0 {
            lemma_tokens_bracket_elems();
            assert(exp_text(g[0].1[k]) == "[<elems>]"@);
            lemma_closed_by_tokens(g, g[0].1[k]);
        }
    }
    assert forall|k: int| 0 <= k < g[1].1.len() implies expansion_closed(g, #[trigger] g[1].1[k]) by {
        if k == 0 {
            lemma_tokens_elem();
            assert(exp_text(g[1].1[k]) == "<elem>"@);
            lemma_closed_by_tokens(g, g[1].1[k]);
        } else if k == 1 {
            lemma_tokens_elems_comma_elem();
            assert(exp_text(g[1].1[k]) == "<elems>,<elem>"@);
            lemma_closed_by_tokens(g, g[1].1[k]);
        }
    }
    assert forall|k: int| 0 <= k < g[2].1.len() implies expansion_closed(g, #[trigger] g[2].1[k]) by {
        if k == 0 {
            lemma_tokens_integer();
            assert(exp_text(g[2].1[k]) == "<integer>"@);
            lemma_closed_by_tokens(g, g[2].1[k]);
        }
    }
    assert forall|k: int| 0 <= k < g[3].1.len() implies expansion_closed(g, #[trigger] g[3].1[k]) by {
        if k == 0 {
            lemma_tokens_nonzero_digit_integer();
            assert(exp_text(g[3].1[k]) == "<non-zero-digit><integer>"@);
            lemma_closed_by_tokens(g, g[3].1[k]);
        } else if k == 1 {
            lemma_tokens_nonzero_digit();
            assert(exp_text(g[3].1[k]) == "<non-zero-digit>"@);
            lemma_closed_by_tokens(g, g[3].1[k]);
        }
    }
    lemma_digits_closed(g);
    assert(g[4].1 == char_range(CharRange::NonZeroDigit));
    assert(forall|k: int| 0 <= k < g[4].1.len() ==> expansion_closed(g, #[trigger] g[4].1[k]));
    assert forall|j: int, k: int| 0 <= j < g.len() && 0 <= k < g[j].1.len() implies expansion_closed(g, #[trigger] g[j].1[k]) by {
        assert(0 <= j < 5);
    }
}

} // verus!
