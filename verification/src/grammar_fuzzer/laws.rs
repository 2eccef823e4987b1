//! What holds of every step of the fuzzer.
use vstd::prelude::*;
use crate::grammar::GrammarV;
use crate::grammar::has_key;
use crate::grammar::rule_of;
use crate::grammar_fuzzer::tree::TreeV;
use crate::grammar_fuzzer::tree::has_open;
use crate::grammar_fuzzer::tree::has_open_seq;
use crate::grammar_fuzzer::tree::children_of;
use crate::grammar_fuzzer::tree::piece_node;
use crate::grammar_fuzzer::tree::open_count;
use crate::grammar_fuzzer::tree::open_count_seq;
use crate::grammar::pattern::Pattern;
use crate::grammar::pattern::pieces;
use crate::grammar::pattern::piece_texts;
use crate::grammar::pattern::join;
use crate::grammar::pattern::lemma_pieces_join;
use crate::grammar::pattern::tokens;
use crate::grammar::pattern::contains_token;
use crate::grammar::shapes::lemma_pieces_ok;
use crate::grammar::shapes::piece_ok;
use crate::grammar::key_set;
use crate::grammar::lemma_key_index;
use crate::grammar::validity::valid_grammar;
use crate::grammar::validity::used_in;
use crate::grammar::validity::used_set;
use crate::grammar::validity::used_with_start;
use crate::grammar_fuzzer::cost::Cost;
use crate::grammar_fuzzer::cost::CostChoice;
use crate::grammar_fuzzer::cost::fuzzable;
use crate::grammar_fuzzer::cost::expansion_closed;
use crate::grammar_fuzzer::cost::expandable;
use crate::grammar_fuzzer::cost::expansion_expandable;
use crate::grammar_fuzzer::cost::lemma_expandable;
use crate::grammar_fuzzer::cost::lemma_costs_defined;
use crate::grammar_fuzzer::node_step_ok;
use crate::grammar_fuzzer::once_ok;
use crate::grammar_fuzzer::run_ok;
use crate::grammar_fuzzer::expand_tree_ok;
use crate::grammar_fuzzer::ExpansionStrategy;
use crate::grammar_fuzzer::fold_choice;
use crate::grammar_fuzzer::cost_candidates;
use crate::grammar_fuzzer::expansion_costs;
use crate::grammar_fuzzer::open_positions;
use crate::grammar_fuzzer::rand_index;
use crate::grammar_fuzzer::expanded;
use crate::grammar_fuzzer::node_step;
use crate::grammar_fuzzer::expand_once;
use crate::grammar_fuzzer::tree_ok;
use crate::grammar_fuzzer::run_strategy;
use crate::grammar_fuzzer::phase_goes_on;
use crate::grammar_fuzzer::expand_tree_spec;
use crate::grammar_fuzzer::step_budget;
use crate::grammar_fuzzer::start_tree;
use crate::grammar_fuzzer::cost::choose_cost;
use crate::grammar::options::exp_text;

verus! {

/// The cost a fold picks is one of the costs it folds.
pub proof fn lemma_fold_choice_in(choice: CostChoice, costs: Seq<Cost>, n: int)
    requires
        1 <= n <= costs.len(),
    ensures
        exists|i: int| 0 <= i < n && costs[i] == fold_choice(choice, costs, n),
    decreases n,
{
    if n > 1 {
        lemma_fold_choice_in(choice, costs, n - 1);
        let i = choose|i: int| 0 <= i < n - 1 && costs[i] == fold_choice(choice, costs, n - 1);
        if fold_choice(choice, costs, n) == costs[n - 1] {
            assert(0 <= n - 1 < n && costs[n - 1] == fold_choice(choice, costs, n));
        } else {
            assert(0 <= i < n && costs[i] == fold_choice(choice, costs, n));
        }
    } else {
        assert(0 <= 0 < n && costs[0] == fold_choice(choice, costs, n));
    }
}

/// The candidates are the indices whose cost is the chosen one, and there is one
/// when some cost is the chosen one.
pub proof fn lemma_cost_candidates(costs: Seq<Cost>, chosen: Cost, n: int)
    requires
        0 <= n <= costs.len(),
    ensures
        forall|t: int| 0 <= t < cost_candidates(costs, chosen, n).len() ==> 0 <= #[trigger] cost_candidates(costs, chosen, n)[t] < n
            && costs[cost_candidates(costs, chosen, n)[t]] == chosen,
        (exists|i: int| 0 <= i < n && costs[i] == chosen) ==> cost_candidates(costs, chosen, n).len() > 0,
    decreases n,
{
    if n > 0 {
        lemma_cost_candidates(costs, chosen, n - 1);
        let prev = cost_candidates(costs, chosen, n - 1);
        let now = cost_candidates(costs, chosen, n);
        assert forall|t: int| 0 <= t < now.len() implies 0 <= #[trigger] now[t] < n && costs[now[t]] == chosen by {
            if t < prev.len() {
                assert(now[t] == prev[t]);
            }
        }
        if exists|i: int| 0 <= i < n && costs[i] == chosen {
            let i = choose|i: int| 0 <= i < n && costs[i] == chosen;
            if i < n - 1 {
                assert(prev.len() > 0);
            }
        }
    }
}

/// A list of trees has an open node exactly when one of them does.
pub proof fn lemma_has_open_seq(cs: Seq<TreeV>)
    ensures
        has_open_seq(cs) <==> exists|i: int| 0 <= i < cs.len() && has_open(#[trigger] cs[i]),
    decreases cs.len(),
{
    if cs.len() > 0 {
        let pre = cs.subrange(0, cs.len() - 1);
        lemma_has_open_seq(pre);
        if exists|i: int| 0 <= i < pre.len() && has_open(#[trigger] pre[i]) {
            let i = choose|i: int| 0 <= i < pre.len() && has_open(#[trigger] pre[i]);
            assert(cs[i] == pre[i]);
        }
        if exists|i: int| 0 <= i < cs.len() && has_open(#[trigger] cs[i]) {
            let i = choose|i: int| 0 <= i < cs.len() && has_open(#[trigger] cs[i]);
            if i < cs.len() - 1 {
                assert(pre[i] == cs[i]);
            }
        }
    }
}

/// The open positions are positions of trees with an open node, and there is one
/// when some tree among the first `n` has an open node.
pub proof fn lemma_open_positions(cs: Seq<TreeV>, n: int)
    requires
        0 <= n <= cs.len(),
    ensures
        forall|t: int| 0 <= t < open_positions(cs, n).len() ==> 0 <= #[trigger] open_positions(cs, n)[t] < n
            && has_open(cs[open_positions(cs, n)[t]]),
        (exists|i: int| 0 <= i < n && has_open(#[trigger] cs[i])) ==> open_positions(cs, n).len() > 0,
    decreases n,
{
    if n > 0 {
        lemma_open_positions(cs, n - 1);
        let prev = open_positions(cs, n - 1);
        let now = open_positions(cs, n);
        assert forall|t: int| 0 <= t < now.len() implies 0 <= #[trigger] now[t] < n && has_open(cs[now[t]]) by {
            if t < prev.len() {
                assert(now[t] == prev[t]);
            }
        }
        if exists|i: int| 0 <= i < n && has_open(#[trigger] cs[i]) {
            let i = choose|i: int| 0 <= i < n && has_open(#[trigger] cs[i]);
            if i < n - 1 {
                assert(prev.len() > 0);
            }
        }
    }
}

/// The open children an expansion gives stand for nonterminals it uses.
pub proof fn lemma_open_child_token(text: Seq<char>, t: int)
    requires
        0 <= t < children_of(text).len(),
        children_of(text)[t].children is None,
    ensures
        tokens(Pattern::Nonterminal, text).contains(children_of(text)[t].symbol),
{
    let cs = children_of(text);
    if text.len() > 0 {
        lemma_pieces_ok(Pattern::Nonterminal, text);
        let pc = pieces(Pattern::Nonterminal, text)[t];
        assert(cs[t] == piece_node(pc.0));
        assert(piece_ok(Pattern::Nonterminal, text, pc));
        if !pc.1 {
            assert(!contains_token(Pattern::Nonterminal, pc.0));
        }
    }
}

/// The children an expandable expansion gives have open nodes only for expandable
/// symbols.
pub proof fn lemma_children_ok(g: GrammarV, t: TreeV, e: crate::grammar::ExpansionV)
    requires
        expansion_expandable(g, e),
    ensures
        tree_ok(g, expanded(t, e)),
{
    let text = crate::grammar::options::exp_text(e);
    let cs = children_of(text);
    let toks = tokens(Pattern::Nonterminal, text);
    assert forall|i: int| 0 <= i < cs.len() implies tree_ok(g, #[trigger] cs[i]) by {
        if cs[i].children is None {
            lemma_open_child_token(text, i);
            let k = choose|k: int| 0 <= k < toks.len() && toks[k] == cs[i].symbol;
            assert(expandable(g, toks[k]));
        } else {
            assert(cs[i].children == Some(Seq::<TreeV>::empty()));
        }
    }
}

/// Expanding an open node the fuzzer can expand leaves only open nodes it can expand.
pub proof fn lemma_node_step_ok(g: GrammarV, strategy: ExpansionStrategy, seed: u64, t: TreeV)
    requires
        t.children is None,
        expandable(g, t.symbol),
    ensures
        tree_ok(g, node_step(g, strategy, seed, t).1),
        node_step(g, strategy, seed, t).1.symbol == t.symbol,
{
    lemma_expandable(g, t.symbol);
    let exps = rule_of(g, t.symbol);
    match strategy {
        ExpansionStrategy::Randomly => {
            let k = rand_index(seed, exps.len() as int);
            assert(0 <= k < exps.len());
            lemma_children_ok(g, t, exps[k]);
        },
        _ => {
            let choice = if strategy == ExpansionStrategy::MinCost {
                CostChoice::Min
            } else {
                CostChoice::Max
            };
            let costs = expansion_costs(g, t.symbol);
            let chosen = fold_choice(choice, costs, costs.len() as int);
            lemma_fold_choice_in(choice, costs, costs.len() as int);
            lemma_cost_candidates(costs, chosen, costs.len() as int);
            let cands = cost_candidates(costs, chosen, costs.len() as int);
            let k = rand_index(seed, cands.len() as int);
            assert(0 <= k < cands.len());
            assert(0 <= cands[k] < exps.len());
            lemma_children_ok(g, t, exps[cands[k]]);
        },
    }
}

/// An expansion step on a tree whose open nodes the fuzzer can expand leaves a tree
/// whose open nodes it can expand, with the same root symbol.
pub proof fn lemma_expand_once_ok(g: GrammarV, strategy: ExpansionStrategy, seed: u64, t: TreeV)
    requires
        tree_ok(g, t),
        has_open(t),
    ensures
        tree_ok(g, expand_once(g, strategy, seed, t).1),
        expand_once(g, strategy, seed, t).1.symbol == t.symbol,
    decreases t,
{
    match t.children {
        None => {
            lemma_node_step_ok(g, strategy, seed, t);
        },
        Some(cs) => {
            lemma_has_open_seq(cs);
            lemma_open_positions(cs, cs.len() as int);
            let idx = open_positions(cs, cs.len() as int);
            let k = rand_index(seed, idx.len() as int);
            let j = idx[k];
            assert(0 <= j < cs.len());
            assert(tree_ok(g, cs[j]));
            lemma_expand_once_ok(g, strategy, crate::rand::fx_hash_u64(seed), cs[j]);
            let c = expand_once(g, strategy, crate::rand::fx_hash_u64(seed), cs[j]).1;
            let ncs = cs.update(j, c);
            assert forall|i: int| 0 <= i < ncs.len() implies tree_ok(g, #[trigger] ncs[i]) by {
                if i != j {
                    assert(ncs[i] == cs[i]);
                }
            }
        },
    }
}

/// The child `c` stands where the pattern node `p` stood: same symbol, and the same
/// node where `p` was not open.
pub open spec fn fits(c: TreeV, p: TreeV) -> bool {
    c.symbol == p.symbol && (p.children is None || c == p)
}

/// The children `cs` spell the pattern `ps` node by node.
pub open spec fn spells(cs: Seq<TreeV>, ps: Seq<TreeV>) -> bool {
    cs.len() == ps.len() && forall|i: int| 0 <= i < cs.len() ==> fits(#[trigger] cs[i], ps[i])
}

/// `t` is a derivation tree of `g`: the children of every expanded node (other than a
/// terminal leaf, whose list is empty) spell one expansion of its symbol's rule.
pub open spec fn is_derivation(g: GrammarV, t: TreeV) -> bool
    decreases t,
{
    match t.children {
        None => true,
        Some(cs) => {
            &&& (cs.len() == 0 || (has_key(g, t.symbol) && exists|k: int|
                0 <= k < rule_of(g, t.symbol).len() && spells(
                    cs,
                    children_of(exp_text(#[trigger] rule_of(g, t.symbol)[k])),
                )))
            &&& forall|i: int| 0 <= i < cs.len() ==> is_derivation(g, #[trigger] cs[i])
        },
    }
}

/// Expanding a node by one expansion of its rule gives a derivation tree.
proof fn lemma_expanded_derivation(g: GrammarV, t: TreeV, k: int)
    requires
        has_key(g, t.symbol),
        0 <= k < rule_of(g, t.symbol).len(),
    ensures
        is_derivation(g, expanded(t, rule_of(g, t.symbol)[k])),
{
    let e = rule_of(g, t.symbol)[k];
    let cs = children_of(exp_text(e));
    assert(spells(cs, children_of(exp_text(rule_of(g, t.symbol)[k]))));
    assert forall|i: int| 0 <= i < cs.len() implies is_derivation(g, #[trigger] cs[i]) by {
        if cs[i].children is Some {
            assert(cs[i].children == Some(Seq::<TreeV>::empty()));
        }
    }
}

/// Expanding an open node as `strategy` can gives a derivation tree.
proof fn lemma_node_step_derivation(g: GrammarV, strategy: ExpansionStrategy, seed: u64, t: TreeV)
    requires
        t.children is None,
        node_step_ok(g, strategy, t.symbol),
    ensures
        is_derivation(g, node_step(g, strategy, seed, t).1),
{
    let exps = rule_of(g, t.symbol);
    match strategy {
        ExpansionStrategy::Randomly => {
            lemma_expanded_derivation(g, t, rand_index(seed, exps.len() as int));
        },
        _ => {
            let choice = if strategy == ExpansionStrategy::MinCost {
                CostChoice::Min
            } else {
                CostChoice::Max
            };
            let costs = expansion_costs(g, t.symbol);
            let chosen = fold_choice(choice, costs, costs.len() as int);
            lemma_fold_choice_in(choice, costs, costs.len() as int);
            lemma_cost_candidates(costs, chosen, costs.len() as int);
            let cands = cost_candidates(costs, chosen, costs.len() as int);
            let k = rand_index(seed, cands.len() as int);
            assert(0 <= k < cands.len());
            lemma_expanded_derivation(g, t, cands[k]);
        },
    }
}

/// Replacing a child that stands for an open pattern node by a tree with the same
/// symbol keeps the children spelling the pattern.
proof fn lemma_spells_update(cs: Seq<TreeV>, ps: Seq<TreeV>, j: int, c: TreeV)
    requires
        spells(cs, ps),
        forall|i: int| 0 <= i < ps.len() && (#[trigger] ps[i]).children is Some ==> ps[i].children == Some(Seq::<TreeV>::empty()),
        0 <= j < cs.len(),
        has_open(cs[j]),
        c.symbol == cs[j].symbol,
    ensures
        spells(cs.update(j, c), ps),
{
    let ncs = cs.update(j, c);
    assert(fits(cs[j], ps[j]));
    assert(ps[j].children is None) by {
        if ps[j].children is Some {
            assert(cs[j] == ps[j]);
        }
    }
    assert forall|i: int| 0 <= i < ncs.len() implies fits(#[trigger] ncs[i], ps[i]) by {
        if i != j {
            assert(ncs[i] == cs[i]);
            assert(fits(cs[i], ps[i]));
        }
    }
}

/// Every expansion step turns a derivation tree into a derivation tree: the
/// expanded node gets the children of one expansion of its rule.
#[verifier::spinoff_prover]
pub proof fn lemma_expand_once_derivation(g: GrammarV, strategy: ExpansionStrategy, seed: u64, t: TreeV)
    requires
        once_ok(g, strategy, seed, t),
        has_open(t),
        is_derivation(g, t),
    ensures
        is_derivation(g, expand_once(g, strategy, seed, t).1),
    decreases t,
{
    match t.children {
        None => {
            lemma_node_step_derivation(g, strategy, seed, t);
            assert(expand_once(g, strategy, seed, t) == node_step(g, strategy, seed, t));
        },
        Some(cs) => {
            lemma_has_open_seq(cs);
            lemma_open_positions(cs, cs.len() as int);
            let idx = open_positions(cs, cs.len() as int);
            let j = idx[rand_index(seed, idx.len() as int)];
            assert(0 <= j < cs.len());
            let s1 = crate::rand::fx_hash_u64(seed);
            lemma_expand_once_derivation(g, strategy, s1, cs[j]);
            let c = expand_once(g, strategy, s1, cs[j]).1;
            let ncs = cs.update(j, c);
            assert forall|i: int| 0 <= i < ncs.len() implies is_derivation(g, #[trigger] ncs[i]) by {
                if i != j {
                    assert(ncs[i] == cs[i]);
                }
            }
            assert(cs.len() > 0);
            let k = choose|k: int|
                0 <= k < rule_of(g, t.symbol).len() && spells(
                    cs,
                    children_of(exp_text(#[trigger] rule_of(g, t.symbol)[k])),
                );
            let ps = children_of(exp_text(rule_of(g, t.symbol)[k]));
            assert forall|i: int| 0 <= i < ps.len() && (#[trigger] ps[i]).children is Some implies ps[i].children
                == Some(Seq::<TreeV>::empty()) by {
            }
            lemma_spells_update(cs, ps, j, c);
            assert(spells(ncs, children_of(exp_text(rule_of(g, t.symbol)[k]))));
            assert(expand_once(g, strategy, seed, t).1 == TreeV { symbol: t.symbol, children: Some(ncs) });
            assert(is_derivation(g, TreeV { symbol: t.symbol, children: Some(ncs) }));
        },
    }
}

/// An expansion step from a tree whose open nodes the fuzzer can expand can be
/// taken, whatever the strategy and the seed.
pub proof fn lemma_tree_ok_once_ok(g: GrammarV, strategy: ExpansionStrategy, seed: u64, t: TreeV)
    requires
        tree_ok(g, t),
        has_open(t),
    ensures
        once_ok(g, strategy, seed, t),
    decreases t,
{
    match t.children {
        None => {
            lemma_expandable(g, t.symbol);
            lemma_costs_defined(g, t.symbol);
        },
        Some(cs) => {
            lemma_has_open_seq(cs);
            lemma_open_positions(cs, cs.len() as int);
            let idx = open_positions(cs, cs.len() as int);
            let j = idx[rand_index(seed, idx.len() as int)];
            assert(0 <= j < cs.len());
            assert(tree_ok(g, cs[j]));
            lemma_tree_ok_once_ok(g, strategy, crate::rand::fx_hash_u64(seed), cs[j]);
        },
    }
}

/// Every step of a phase from a tree whose open nodes the fuzzer can expand can be
/// taken, and the open nodes stay ones it can expand.
pub proof fn lemma_tree_ok_run_ok(
    g: GrammarV,
    strategy: ExpansionStrategy,
    limit: Option<usize>,
    seed: u64,
    t: TreeV,
    fuel: nat,
)
    requires
        tree_ok(g, t),
    ensures
        run_ok(g, strategy, limit, seed, t, fuel),
        tree_ok(g, run_strategy(g, strategy, limit, seed, t, fuel).1),
    decreases fuel,
{
    if fuel > 0 && phase_goes_on(limit, t) {
        lemma_tree_ok_once_ok(g, strategy, seed, t);
        lemma_expand_once_ok(g, strategy, seed, t);
        let (s, t2) = expand_once(g, strategy, seed, t);
        lemma_tree_ok_run_ok(g, strategy, limit, s, t2, (fuel - 1) as nat);
    }
}

/// From an expandable start symbol, every step of every phase of `fuzz` can be
/// taken, whatever the seed.
pub proof fn lemma_expandable_fuzz_ok(g: GrammarV, start: Seq<char>, min: usize, max: usize)
    requires
        expandable(g, start),
    ensures
        forall|seed: u64| #[trigger] expand_tree_ok(g, min, max, seed, start_tree(start)),
{
    assert forall|seed: u64| #[trigger] expand_tree_ok(g, min, max, seed, start_tree(start)) by {
        let t0 = start_tree(start);
        lemma_tree_ok_run_ok(g, ExpansionStrategy::MaxCost, Some(min), seed, t0, step_budget());
        let (s1, t1, _f1) = run_strategy(g, ExpansionStrategy::MaxCost, Some(min), seed, t0, step_budget());
        lemma_tree_ok_run_ok(g, ExpansionStrategy::Randomly, Some(max), s1, t1, step_budget());
        let (s2, t2, _f2) = run_strategy(g, ExpansionStrategy::Randomly, Some(max), s1, t1, step_budget());
        lemma_tree_ok_run_ok(g, ExpansionStrategy::MinCost, None, s2, t2, step_budget());
    }
}

/// A phase of expansion steps that can all be taken keeps a derivation tree a
/// derivation tree and the root symbol; it stops only where the phase is over or
/// its steps are spent.
pub proof fn lemma_run_strategy(
    g: GrammarV,
    strategy: ExpansionStrategy,
    limit: Option<usize>,
    seed: u64,
    t: TreeV,
    fuel: nat,
)
    requires
        run_ok(g, strategy, limit, seed, t, fuel),
        is_derivation(g, t),
    ensures
        is_derivation(g, run_strategy(g, strategy, limit, seed, t, fuel).1),
        run_strategy(g, strategy, limit, seed, t, fuel).1.symbol == t.symbol,
        run_strategy(g, strategy, limit, seed, t, fuel).2 == 0 || !phase_goes_on(
            limit,
            run_strategy(g, strategy, limit, seed, t, fuel).1,
        ),
    decreases fuel,
{
    if fuel > 0 && phase_goes_on(limit, t) {
        lemma_expand_once_derivation(g, strategy, seed, t);
        let (s, t2) = expand_once(g, strategy, seed, t);
        assert(t2.symbol == t.symbol);
        lemma_run_strategy(g, strategy, limit, s, t2, (fuel - 1) as nat);
    }
}

/// What `fuzz` grows from the start symbol, when every step can be taken, is a
/// derivation tree of the grammar rooted at the start symbol; unless its last phase
/// spent all its steps, no open node is left.
pub proof fn lemma_fuzz_derivation(g: GrammarV, start: Seq<char>, min: usize, max: usize, seed: u64)
    requires
        expand_tree_ok(g, min, max, seed, start_tree(start)),
    ensures
        is_derivation(g, expand_tree_spec(g, min, max, seed, start_tree(start)).1),
        expand_tree_spec(g, min, max, seed, start_tree(start)).1.symbol == start,
        ({
            let t0 = start_tree(start);
            let (s1, t1, _f1) = run_strategy(g, ExpansionStrategy::MaxCost, Some(min), seed, t0, step_budget());
            let (s2, t2, _f2) = run_strategy(g, ExpansionStrategy::Randomly, Some(max), s1, t1, step_budget());
            let r = run_strategy(g, ExpansionStrategy::MinCost, None, s2, t2, step_budget());
            r.2 == 0 || !has_open(r.1)
        }),
{
    let t0 = start_tree(start);
    let (s1, t1, _f1) = run_strategy(g, ExpansionStrategy::MaxCost, Some(min), seed, t0, step_budget());
    lemma_run_strategy(g, ExpansionStrategy::MaxCost, Some(min), seed, t0, step_budget());
    let (s2, t2, _f2) = run_strategy(g, ExpansionStrategy::Randomly, Some(max), s1, t1, step_budget());
    lemma_run_strategy(g, ExpansionStrategy::Randomly, Some(max), s1, t1, step_budget());
    lemma_run_strategy(g, ExpansionStrategy::MinCost, None, s2, t2, step_budget());
}

/// The cost a fold picks is preferred by the choice over every cost it folds: for
/// `Min` it is the least of them, for `Max` the greatest.
pub proof fn lemma_fold_choice_best(choice: CostChoice, costs: Seq<Cost>, n: int)
    requires
        1 <= n <= costs.len(),
    ensures
        forall|i: int| 0 <= i < n ==> choose_cost(choice, fold_choice(choice, costs, n), #[trigger] costs[i])
            == fold_choice(choice, costs, n),
    decreases n,
{
    if n > 1 {
        lemma_fold_choice_best(choice, costs, n - 1);
        assert forall|i: int| 0 <= i < n implies choose_cost(choice, fold_choice(choice, costs, n), #[trigger] costs[i])
            == fold_choice(choice, costs, n) by {
            if i < n - 1 {
                assert(choose_cost(choice, fold_choice(choice, costs, n - 1), costs[i]) == fold_choice(choice, costs, n - 1));
            }
        }
    }
}

/// The symbols of the children an expansion gives, joined, are the expansion's text.
pub proof fn lemma_children_spell_text(s: Seq<char>)
    ensures
        join(children_of(s).map_values(|c: TreeV| c.symbol)) == s,
{
    let syms = children_of(s).map_values(|c: TreeV| c.symbol);
    if s.len() == 0 {
        assert(syms =~= seq![Seq::<char>::empty()]);
        assert(syms.drop_last() =~= Seq::<Seq<char>>::empty());
        assert(join(Seq::<Seq<char>>::empty()) =~= Seq::<char>::empty());
        assert(syms.last() =~= Seq::<char>::empty());
        assert(join(syms) == join(syms.drop_last()) + syms.last());
        assert(join(syms) =~= s);
    } else {
        lemma_pieces_join(Pattern::Nonterminal, s);
        assert(syms =~= piece_texts(pieces(Pattern::Nonterminal, s)));
    }
}

/// A tree has no open node exactly when it counts none: `possible_expansions` is 0
/// exactly when `any_possible_expansions` is false.
pub proof fn lemma_no_open_count(t: TreeV)
    ensures
        (open_count(t) == 0) == !has_open(t),
    decreases t,
{
    match t.children {
        None => {},
        Some(cs) => {
            lemma_no_open_count_seq(cs);
        },
    }
}

/// A list of trees has no open node exactly when it counts none.
pub proof fn lemma_no_open_count_seq(cs: Seq<TreeV>)
    ensures
        (open_count_seq(cs) == 0) == !has_open_seq(cs),
    decreases cs,
{
    if cs.len() > 0 {
        let pre = cs.subrange(0, cs.len() - 1);
        assert(pre.len() < cs.len());
        lemma_no_open_count_seq(pre);
        lemma_no_open_count(cs[cs.len() - 1]);
    }
}

/// A nonterminal used in an expansion of a valid grammar names one of its rules.
proof fn lemma_valid_token_defined(g: GrammarV, start: Seq<char>, j: int, k: int, x: Seq<char>)
    requires
        valid_grammar(g, start),
        0 <= j < g.len(),
        0 <= k < g[j].1.len(),
        tokens(Pattern::Nonterminal, exp_text(g[j].1[k])).contains(x),
    ensures
        has_key(g, x),
{
    assert(used_in(g, x));
    assert(used_set(g, start).contains(x));
    assert(used_with_start(g, start).contains(x));
    assert(key_set(g).contains(x));
    lemma_key_index(g, x);
}

/// A grammar that is valid for some start symbol (what `check_grammar` accepts) can be
/// fuzzed: every nonterminal an expansion uses, and every open node it gives, names a
/// rule, and no rule is empty.
#[verifier::spinoff_prover]
pub proof fn lemma_valid_grammar_fuzzable(g: GrammarV, start: Seq<char>)
    requires
        crate::grammar::keys_distinct(g),
        valid_grammar(g, start),
    ensures
        fuzzable(g),
        has_key(g, start),
{
    assert(used_with_start(g, start).contains(start));
    assert(key_set(g).contains(start));
    lemma_key_index(g, start);
    assert forall|j: int, k: int| 0 <= j < g.len() && 0 <= k < g[j].1.len() implies expansion_closed(
        g,
        #[trigger] g[j].1[k],
    ) by {
        let text = exp_text(g[j].1[k]);
        let toks = tokens(Pattern::Nonterminal, text);
        assert forall|t: int| 0 <= t < toks.len() implies has_key(g, #[trigger] toks[t]) by {
            assert(toks.contains(toks[t]));
            lemma_valid_token_defined(g, start, j, k, toks[t]);
        }
        lemma_pieces_ok(Pattern::Nonterminal, text);
        let cs = children_of(text);
        assert forall|t: int| 0 <= t < cs.len() && (#[trigger] cs[t]).children is None implies has_key(
            g,
            cs[t].symbol,
        ) by {
            if text.len() > 0 {
                let pc = pieces(Pattern::Nonterminal, text)[t];
                assert(cs[t] == piece_node(pc.0));
                assert(contains_token(Pattern::Nonterminal, pc.0));
                assert(piece_ok(Pattern::Nonterminal, text, pc));
                assert(pc.1);
                lemma_valid_token_defined(g, start, j, k, pc.0);
            }
        }
    }
}

} // verus!
