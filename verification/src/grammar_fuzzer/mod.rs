//! A fuzzer that grows derivation trees from a grammar.
//!
//! A tree starts as one open node for the start symbol. Each step picks an open
//! node, walking down from the root through a pseudo-randomly chosen child that
//! still has an open node, and expands it by one expansion of its symbol's rule.
//! Three phases pick the expansion in turn: by greatest cost until the tree has
//! `min_nonterminals` open nodes, at random until it has `max_nonterminals`, and
//! by least cost until no open node is left.
use vstd::prelude::*;
use crate::text::owned;
use crate::text::concat;
use crate::rand::fx_hash_u64;
use crate::grammar::Grammar;
use crate::grammar::GrammarV;
use crate::grammar::Union;
use crate::grammar::Expansion;
use crate::grammar::ExpansionV;
use crate::grammar::has_key;
use crate::grammar::rule_of;
use crate::grammar::rand_value;
use crate::grammar::options::exp_text;
use crate::grammar::validity::valid_grammar;
use self::tree::DerivationTree;
use self::tree::TreeV;
use self::tree::views_of;
use self::tree::lemma_views_of;
use self::tree::children_of;
use self::tree::has_open;
use self::tree::has_open_seq;
use self::tree::open_count;
use self::tree::terminals;
use self::cost::Cost;
use self::cost::CostChoice;
use self::cost::choose_cost;
use self::cost::pick_cost;
use self::cost::same_cost;
use self::cost::expansion_cost_spec;
use self::cost::fuzzable;
use self::cost::expandable;
use self::cost::costs_defined;
use self::cost::expansion_cost_ok;
use self::cost::symbol_cost_ok;

pub mod cost;
pub mod dot;
pub mod laws;
pub mod ready;
pub mod tree;
pub mod var_ctx;

pub use self::dot::dot_escape;
pub use self::tree::expansion_to_children;
pub use self::tree::tree_to_string;
pub use self::tree::all_terminals;

verus! {

/// How the fuzzer expands an open node.
#[derive(Clone, Copy, PartialEq, Eq, Structural, Debug)]
pub enum ExpansionStrategy {
    Randomly,
    MinCost,
    MaxCost,
}

/// A fuzzer for one grammar and start symbol.
pub struct GrammarsFuzzer {
    grammar: Grammar,
    start_symbol: String,
    min_nonterminals: usize,
    max_nonterminals: usize,
    log: Union<bool, usize>,
    expand_node: Option<ExpansionStrategy>,
    derivation_tree: Option<DerivationTree>,
}

/// The value of a fuzzer.
pub struct FuzzerV {
    pub grammar: GrammarV,
    pub start_symbol: Seq<char>,
    pub min_nonterminals: usize,
    pub max_nonterminals: usize,
    pub log: Union<bool, usize>,
    pub expand_node: Option<ExpansionStrategy>,
    pub derivation_tree: Option<TreeV>,
}

impl View for GrammarsFuzzer {
    type V = FuzzerV;

    closed spec fn view(&self) -> FuzzerV {
        FuzzerV {
            grammar: self.grammar@,
            start_symbol: self.start_symbol@,
            min_nonterminals: self.min_nonterminals,
            max_nonterminals: self.max_nonterminals,
            log: self.log,
            expand_node: self.expand_node,
            derivation_tree: match self.derivation_tree {
                Some(t) => Some(t@),
                None => None,
            },
        }
    }
}

/// The index that `get_rand(seed) % n` picks.
pub open spec fn rand_index(seed: u64, n: int) -> int {
    rand_value(fx_hash_u64(seed)) % n
}

/// The open node `t` expanded by `e`.
pub open spec fn expanded(t: TreeV, e: ExpansionV) -> TreeV {
    TreeV { symbol: t.symbol, children: Some(children_of(exp_text(e))) }
}

/// Expanding the open node `t` by a pseudo-randomly chosen expansion of its rule:
/// the new seed and the expanded node.
pub open spec fn random_step(g: GrammarV, seed: u64, t: TreeV) -> (u64, TreeV) {
    let exps = rule_of(g, t.symbol);
    (fx_hash_u64(seed), expanded(t, exps[rand_index(seed, exps.len() as int)]))
}

/// The costs of the expansions of `sym`'s rule, each computed with a fresh memo
/// while `sym` is being expanded.
pub open spec fn expansion_costs(g: GrammarV, sym: Seq<char>) -> Seq<Cost> {
    Seq::new(
        rule_of(g, sym).len(),
        |i: int| expansion_cost_spec(g, exp_text(rule_of(g, sym)[i]), seq![sym], Seq::empty()).0,
    )
}

/// The cost that `choice` picks among the first `n` (at least one) of `costs`.
pub open spec fn fold_choice(choice: CostChoice, costs: Seq<Cost>, n: int) -> Cost
    decreases n,
{
    if n <= 1 {
        costs[0]
    } else {
        choose_cost(choice, fold_choice(choice, costs, n - 1), costs[n - 1])
    }
}

/// The indices among the first `n` of `costs` whose cost is `chosen`, in order.
pub open spec fn cost_candidates(costs: Seq<Cost>, chosen: Cost, n: int) -> Seq<int>
    decreases n,
{
    if n <= 0 {
        Seq::empty()
    } else {
        cost_candidates(costs, chosen, n - 1) + if costs[n - 1] == chosen {
            seq![n - 1]
        } else {
            Seq::empty()
        }
    }
}

/// Expanding the open node `t` by an expansion of least (`Min`) or greatest (`Max`)
/// cost, chosen pseudo-randomly among those of that cost.
pub open spec fn cost_step(g: GrammarV, choice: CostChoice, seed: u64, t: TreeV) -> (u64, TreeV) {
    let exps = rule_of(g, t.symbol);
    let costs = expansion_costs(g, t.symbol);
    let cands = cost_candidates(costs, fold_choice(choice, costs, costs.len() as int), costs.len() as int);
    (fx_hash_u64(seed), expanded(t, exps[cands[rand_index(seed, cands.len() as int)]]))
}

/// Expanding the open node `t` as `strategy` says.
pub open spec fn node_step(g: GrammarV, strategy: ExpansionStrategy, seed: u64, t: TreeV) -> (u64, TreeV) {
    match strategy {
        ExpansionStrategy::Randomly => random_step(g, seed, t),
        ExpansionStrategy::MinCost => cost_step(g, CostChoice::Min, seed, t),
        ExpansionStrategy::MaxCost => cost_step(g, CostChoice::Max, seed, t),
    }
}

/// The positions among the first `n` of `cs` whose tree has an open node, in order.
pub open spec fn open_positions(cs: Seq<TreeV>, n: int) -> Seq<int>
    decreases n,
{
    if n <= 0 {
        Seq::empty()
    } else {
        open_positions(cs, n - 1) + if has_open(cs[n - 1]) {
            seq![n - 1]
        } else {
            Seq::empty()
        }
    }
}

/// One expansion step on `t`: an open root is expanded as `strategy` says;
/// otherwise a pseudo-randomly chosen child with an open node takes the step.
pub open spec fn expand_once(g: GrammarV, strategy: ExpansionStrategy, seed: u64, t: TreeV) -> (u64, TreeV)
    decreases t,
{
    match t.children {
        None => node_step(g, strategy, seed, t),
        Some(cs) => {
            let idx = open_positions(cs, cs.len() as int);
            if idx.len() == 0 {
                (seed, t)
            } else {
                let j = idx[rand_index(seed, idx.len() as int)];
                if 0 <= j < cs.len() {
                    let (s, c) = expand_once(g, strategy, fx_hash_u64(seed), cs[j]);
                    (s, TreeV { symbol: t.symbol, children: Some(cs.update(j, c)) })
                } else {
                    (seed, t)
                }
            }
        },
    }
}

/// Whether a strategy phase with `limit` goes on with `t`: it has an open node and,
/// under a limit, fewer open nodes than the limit.
pub open spec fn phase_goes_on(limit: Option<usize>, t: TreeV) -> bool {
    &&& has_open(t)
    &&& match limit {
        None => true,
        Some(l) => open_count(t) < l,
    }
}

/// A phase of expansion steps with `strategy` for as long as `phase_goes_on`, taking
/// at most `fuel` steps: the seed, the tree and the steps left.
pub open spec fn run_strategy(
    g: GrammarV,
    strategy: ExpansionStrategy,
    limit: Option<usize>,
    seed: u64,
    t: TreeV,
    fuel: nat,
) -> (u64, TreeV, nat)
    decreases fuel,
{
    if fuel > 0 && phase_goes_on(limit, t) {
        let (s, t2) = expand_once(g, strategy, seed, t);
        run_strategy(g, strategy, limit, s, t2, (fuel - 1) as nat)
    } else {
        (seed, t, fuel)
    }
}

/// The most steps one phase takes.
pub open spec fn step_budget() -> nat {
    u64::MAX as nat
}

/// The three phases of `expand_tree`.
pub open spec fn expand_tree_spec(g: GrammarV, min: usize, max: usize, seed: u64, t: TreeV) -> (u64, TreeV) {
    let (s1, t1, _f1) = run_strategy(g, ExpansionStrategy::MaxCost, Some(min), seed, t, step_budget());
    let (s2, t2, _f2) = run_strategy(g, ExpansionStrategy::Randomly, Some(max), s1, t1, step_budget());
    let (s3, t3, _f3) = run_strategy(g, ExpansionStrategy::MinCost, None, s2, t2, step_budget());
    (s3, t3)
}

/// The tree that `fuzz` starts from.
pub open spec fn start_tree(start: Seq<char>) -> TreeV {
    TreeV { symbol: start, children: None }
}

/// Every open node of `t` names a symbol the fuzzer can expand (see `expandable`).
pub open spec fn tree_ok(g: GrammarV, t: TreeV) -> bool
    decreases t,
{
    match t.children {
        None => expandable(g, t.symbol),
        Some(cs) => forall|i: int| 0 <= i < cs.len() ==> tree_ok(g, #[trigger] cs[i]),
    }
}

/// Whether `strategy` can expand an open node for `sym`: at random the node's rule
/// must exist and not be empty; by cost every expansion of it must be costed (see
/// `costs_defined`).
pub open spec fn node_step_ok(g: GrammarV, strategy: ExpansionStrategy, sym: Seq<char>) -> bool {
    match strategy {
        ExpansionStrategy::Randomly => has_key(g, sym) && rule_of(g, sym).len() > 0,
        _ => costs_defined(g, sym),
    }
}

/// Whether the expansion step `expand_once(g, strategy, seed, t)` can be taken: the
/// open node it reaches can be expanded as `strategy` says. Nothing is asked of the
/// other open nodes.
pub open spec fn once_ok(g: GrammarV, strategy: ExpansionStrategy, seed: u64, t: TreeV) -> bool
    decreases t,
{
    match t.children {
        None => node_step_ok(g, strategy, t.symbol),
        Some(cs) => {
            let idx = open_positions(cs, cs.len() as int);
            if idx.len() == 0 {
                true
            } else {
                let j = idx[rand_index(seed, idx.len() as int)];
                if 0 <= j < cs.len() {
                    once_ok(g, strategy, fx_hash_u64(seed), cs[j])
                } else {
                    true
                }
            }
        },
    }
}

/// Whether every step of the phase `run_strategy(g, strategy, limit, seed, t, fuel)`
/// can be taken.
pub open spec fn run_ok(
    g: GrammarV,
    strategy: ExpansionStrategy,
    limit: Option<usize>,
    seed: u64,
    t: TreeV,
    fuel: nat,
) -> bool
    decreases fuel,
{
    if fuel > 0 && phase_goes_on(limit, t) {
        let (s, t2) = expand_once(g, strategy, seed, t);
        once_ok(g, strategy, seed, t) && run_ok(g, strategy, limit, s, t2, (fuel - 1) as nat)
    } else {
        true
    }
}

/// Whether every step of the three phases of `expand_tree_spec` can be taken.
pub open spec fn expand_tree_ok(g: GrammarV, min: usize, max: usize, seed: u64, t: TreeV) -> bool {
    let (s1, t1, _f1) = run_strategy(g, ExpansionStrategy::MaxCost, Some(min), seed, t, step_budget());
    let (s2, t2, _f2) = run_strategy(g, ExpansionStrategy::Randomly, Some(max), s1, t1, step_budget());
    &&& run_ok(g, ExpansionStrategy::MaxCost, Some(min), seed, t, step_budget())
    &&& run_ok(g, ExpansionStrategy::Randomly, Some(max), s1, t1, step_budget())
    &&& run_ok(g, ExpansionStrategy::MinCost, None, s2, t2, step_budget())
}

/// The log line for expanding a node with text `t` as `strategy` says.
pub open spec fn expansion_line(t: Seq<char>, strategy: ExpansionStrategy) -> Seq<char> {
    seq!['E', 'x', 'p', 'a', 'n', 'd', 'i', 'n', 'g', ' '] + t + match strategy {
        ExpansionStrategy::Randomly => seq![' ', 'r', 'a', 'n', 'd', 'o', 'm', 'l', 'y'],
        ExpansionStrategy::MinCost => seq![' ', 'a', 't', ' ', 'm', 'i', 'n', 'i', 'm', 'u', 'm', ' ', 'c', 'o', 's', 't'],
        ExpansionStrategy::MaxCost => seq![' ', 'a', 't', ' ', 'm', 'a', 'x', 'i', 'm', 'u', 'm', ' ', 'c', 'o', 's', 't'],
    }
}

/// Whether the log is switched on.
pub open spec fn logging(log: Union<bool, usize>) -> bool {
    log matches Union::OnlyA(b) && b
}

/// Advances `seed` to its FxHash and returns the upper 32 bits of the new seed.
pub fn get_rand(seed: &mut u64) -> (r: usize)
    ensures
        *final(seed) == fx_hash_u64(*old(seed)),
        r as int == rand_value(*final(seed)),
{
    crate::grammar::get_rand(seed)
}

impl GrammarsFuzzer {
    /// A fuzzer for `grammar` (copied) from `start_symbol`.
    pub fn new(
        grammar: &Grammar,
        start_symbol: &str,
        min_nonterminals: usize,
        max_nonterminals: usize,
        log: Union<bool, usize>,
    ) -> (r: Self)
        ensures
            r@ == (FuzzerV {
                grammar: grammar@,
                start_symbol: start_symbol@,
                min_nonterminals,
                max_nonterminals,
                log,
                expand_node: None,
                derivation_tree: None,
            }),
    {
        GrammarsFuzzer {
            grammar: grammar.duplicate(),
            start_symbol: owned(start_symbol),
            min_nonterminals,
            max_nonterminals,
            log,
            expand_node: None,
            derivation_tree: None,
        }
    }

    /// The fuzzer's check of its grammar: the start symbol is defined and the grammar
    /// is valid for it. Both are required of the caller (a grammar that fails them is
    /// refused); the check then establishes that the whole grammar is fuzzable and
    /// that the fuzzer can expand the start symbol.
    pub fn check_grammar(&self)
        requires
            crate::grammar::keys_distinct(self@.grammar),
            has_key(self@.grammar, self@.start_symbol),
            valid_grammar(self@.grammar, self@.start_symbol),
        ensures
            fuzzable(self@.grammar),
            expandable(self@.grammar, self@.start_symbol),
    {
        proof {
            self::laws::lemma_valid_grammar_fuzzable(self@.grammar, self@.start_symbol);
            self::cost::lemma_fuzzable_expandable(self@.grammar, self@.start_symbol);
        }
    }

    /// The options this fuzzer supports: none.
    pub fn supported_opts(&self) -> (r: Vec<String>)
        ensures
            r@.len() == 0,
    {
        Vec::new()
    }

    /// The tree a fuzz run starts from: one open node for the start symbol.
    pub fn init_tree(&self) -> (r: DerivationTree)
        ensures
            r@ == start_tree(self@.start_symbol),
    {
        DerivationTree { symbol: self.start_symbol.clone(), children: None }
    }

    /// Picks one of the alternatives for expanding `node`.
    pub fn choose_node_expansion(
        &self,
        seed: &mut u64,
        node: &DerivationTree,
        children_alternatives: &Vec<Vec<DerivationTree>>,
    ) -> (r: usize)
        requires
            children_alternatives@.len() > 0,
        ensures
            *final(seed) == fx_hash_u64(*old(seed)),
            r as int == rand_index(*old(seed), children_alternatives@.len() as int),
            r < children_alternatives@.len(),
    {
        get_rand(seed) % children_alternatives.len()
    }

    /// The children that `expansion` gives the node it expands.
    pub fn expansion_to_children(&self, expansion: &Expansion) -> (r: Vec<DerivationTree>)
        ensures
            views_of(r@) == children_of(exp_text(expansion.deep_view())),
    {
        expansion_to_children(expansion)
    }

    /// Expands the open node `node` by a pseudo-randomly chosen expansion of its rule.
    pub fn expand_node_randomly(&self, seed: &mut u64, node: &DerivationTree) -> (r: DerivationTree)
        requires
            node@.children is None,
            has_key(self@.grammar, node@.symbol),
            rule_of(self@.grammar, node@.symbol).len() > 0,
        ensures
            (*final(seed), r@) == random_step(self@.grammar, *old(seed), node@),
    {
        let expansions = match self.grammar.get(node.symbol.as_str()) {
            Some(v) => v,
            None => return DerivationTree { symbol: node.symbol.clone(), children: None },
        };
        let ghost ev = expansions.deep_view();
        let mut children_alternatives: Vec<Vec<DerivationTree>> = Vec::new();
        let mut i: usize = 0;
        while i < expansions.len()
            invariant
                ev == expansions.deep_view(),
                i <= expansions.len(),
                children_alternatives@.len() == i,
                forall|k: int| 0 <= k < i ==> views_of(#[trigger] children_alternatives@[k]@) == children_of(exp_text(ev[k])),
            decreases expansions.len() - i,
        {
            assert(expansions@[i as int].deep_view() == ev[i as int]);
            children_alternatives.push(self.expansion_to_children(&expansions[i]));
            i = i + 1;
        }
        let index = self.choose_node_expansion(seed, node, &children_alternatives);
        let chosen_children = children_alternatives.remove(index);
        DerivationTree { symbol: node.symbol.clone(), children: Some(chosen_children) }
    }

    /// The number of open nodes of `node`, or `usize::MAX` when there are more.
    pub fn possible_expansions(&self, node: &DerivationTree) -> (r: usize)
        ensures
            r as int == if open_count(node@) < usize::MAX {
                open_count(node@) as int
            } else {
                usize::MAX as int
            },
    {
        self::tree::possible_expansions(node)
    }

    /// Whether `node` has an open node.
    pub fn any_possible_expansions(node: &DerivationTree) -> (r: bool)
        ensures
            r == has_open(node@),
    {
        self::tree::any_possible_expansions(node)
    }

    /// Picks one of the children that still have open nodes.
    pub fn choose_tree_expansion(&self, seed: &mut u64, children_indices: &Vec<usize>) -> (r: usize)
        requires
            children_indices@.len() > 0,
        ensures
            *final(seed) == fx_hash_u64(*old(seed)),
            r as int == rand_index(*old(seed), children_indices@.len() as int),
            r < children_indices@.len(),
    {
        get_rand(seed) % children_indices.len()
    }

    /// The cost of `symbol` while the symbols in `seen` are being expanded.
    pub fn symbol_cost(&self, symbol: &String, seen: &Vec<String>, cache: &mut Vec<(String, Cost)>) -> (r: Cost)
        requires
            symbol_cost_ok(self@.grammar, symbol@, seen.deep_view(), old(cache).deep_view()),
        ensures
            (r, final(cache).deep_view()) == self::cost::symbol_cost_spec(
                self@.grammar,
                symbol@,
                seen.deep_view(),
                old(cache).deep_view(),
            ),
    {
        self::cost::symbol_cost_in(&self.grammar, symbol, seen, cache)
    }

    /// The cost of `expansion` while the symbols in `seen` are being expanded.
    pub fn expansion_cost(&self, expansion: &Expansion, seen: Vec<String>, cache: &mut Vec<(String, Cost)>) -> (r: Cost)
        requires
            expansion_cost_ok(self@.grammar, exp_text(expansion.deep_view()), seen.deep_view(), old(cache).deep_view()),
        ensures
            (r, final(cache).deep_view()) == expansion_cost_spec(
                self@.grammar,
                exp_text(expansion.deep_view()),
                seen.deep_view(),
                old(cache).deep_view(),
            ),
    {
        self::cost::expansion_cost_in(&self.grammar, expansion, seen, cache)
    }

    /// Expands the open node `node` by an expansion of least or greatest cost, as
    /// `choose` says, picked pseudo-randomly among those of that cost.
    #[verifier::spinoff_prover]
    pub fn expand_node_by_cost(&self, seed: &mut u64, node: &DerivationTree, choose: CostChoice) -> (r: DerivationTree)
        requires
            node@.children is None,
            costs_defined(self@.grammar, node@.symbol),
        ensures
            (*final(seed), r@) == cost_step(self@.grammar, choose, *old(seed), node@),
    {
        let ghost g = self@.grammar;
        let ghost sym = node@.symbol;

        let expansions = match self.grammar.get(node.symbol.as_str()) {
            Some(v) => v,
            None => return DerivationTree { symbol: node.symbol.clone(), children: None },
        };
        let ghost ev = expansions.deep_view();
        let ghost costs = expansion_costs(g, sym);
        let mut cost_list: Vec<Cost> = Vec::new();
        let mut i: usize = 0;
        while i < expansions.len()
            invariant
                g == self@.grammar,
                sym == node@.symbol,
                has_key(g, sym),
                ev == expansions.deep_view(),
                ev == rule_of(g, sym),
                costs == expansion_costs(g, sym),
                costs_defined(g, sym),
                i <= expansions.len(),
                cost_list@.len() == i,
                forall|k: int| 0 <= k < i ==> #[trigger] cost_list@[k] == costs[k],
            decreases expansions.len() - i,
        {
            assert(expansions@[i as int].deep_view() == ev[i as int]);
            let mut seen: Vec<String> = Vec::new();
            seen.push(node.symbol.clone());
            assert(seen.deep_view() =~= seq![sym]);
            let mut cache: Vec<(String, Cost)> = Vec::new();
            assert(cache.deep_view() =~= Seq::<(Seq<char>, Cost)>::empty());
            let c = self.expansion_cost(&expansions[i], seen, &mut cache);
            cost_list.push(c);
            i = i + 1;
        }
        assert(cost_list@ =~= costs);
        let mut chosen_cost = cost_list[0];
        let mut j: usize = 1;
        while j < cost_list.len()
            invariant
                cost_list@ == costs,
                costs.len() > 0,
                1 <= j <= cost_list.len(),
                chosen_cost == fold_choice(choose, costs, j as int),
            decreases cost_list.len() - j,
        {
            chosen_cost = pick_cost(choose, chosen_cost, cost_list[j]);
            j = j + 1;
        }
        let ghost cands = cost_candidates(costs, chosen_cost, costs.len() as int);
        let mut children_with_chosen_cost: Vec<Vec<DerivationTree>> = Vec::new();
        let mut k: usize = 0;
        while k < cost_list.len()
            invariant
                cost_list@ == costs,
                costs.len() == ev.len(),
                ev == expansions.deep_view(),
                k <= cost_list.len(),
                children_with_chosen_cost@.len() == cost_candidates(costs, chosen_cost, k as int).len(),
                forall|t: int| 0 <= t < children_with_chosen_cost@.len() ==> views_of(
                    #[trigger] children_with_chosen_cost@[t]@,
                ) == children_of(exp_text(ev[cost_candidates(costs, chosen_cost, k as int)[t]])),
            decreases cost_list.len() - k,
        {
            let ghost before = cost_candidates(costs, chosen_cost, k as int);
            if same_cost(cost_list[k], chosen_cost) {
                assert(expansions@[k as int].deep_view() == ev[k as int]);
                children_with_chosen_cost.push(self.expansion_to_children(&expansions[k]));
            }
            k = k + 1;
            proof {
                let now = cost_candidates(costs, chosen_cost, k as int);
                assert forall|t: int| 0 <= t < children_with_chosen_cost@.len() implies views_of(
                    #[trigger] children_with_chosen_cost@[t]@,
                ) == children_of(exp_text(ev[now[t]])) by {
                    if t < before.len() {
                        assert(now[t] == before[t]);
                    }
                }
            }
        }
        proof {
            self::laws::lemma_fold_choice_in(choose, costs, costs.len() as int);
            self::laws::lemma_cost_candidates(costs, chosen_cost, costs.len() as int);
        }
        let index = self.choose_node_expansion(seed, node, &children_with_chosen_cost);
        let chosen_children = children_with_chosen_cost.remove(index);
        DerivationTree { symbol: node.symbol.clone(), children: Some(chosen_children) }
    }

    /// Expands the open node `node` by an expansion of least cost.
    pub fn expand_node_min_cost(&self, seed: &mut u64, node: &DerivationTree) -> (r: DerivationTree)
        requires
            node@.children is None,
            costs_defined(self@.grammar, node@.symbol),
        ensures
            (*final(seed), r@) == cost_step(self@.grammar, CostChoice::Min, *old(seed), node@),
    {
        self.expand_node_by_cost(seed, node, CostChoice::Min)
    }

    /// Expands the open node `node` by an expansion of greatest cost.
    pub fn expand_node_max_cost(&self, seed: &mut u64, node: &DerivationTree) -> (r: DerivationTree)
        requires
            node@.children is None,
            costs_defined(self@.grammar, node@.symbol),
        ensures
            (*final(seed), r@) == cost_step(self@.grammar, CostChoice::Max, *old(seed), node@),
    {
        self.expand_node_by_cost(seed, node, CostChoice::Max)
    }

    /// Expands the open node `node` as `strategy` says.
    fn expand_node_with(&self, strategy: ExpansionStrategy, seed: &mut u64, node: &DerivationTree) -> (r: DerivationTree)
        requires
            node@.children is None,
            node_step_ok(self@.grammar, strategy, node@.symbol),
        ensures
            (*final(seed), r@) == node_step(self@.grammar, strategy, *old(seed), node@),
    {
        match strategy {
            ExpansionStrategy::Randomly => self.expand_node_randomly(seed, node),
            ExpansionStrategy::MinCost => self.expand_node_min_cost(seed, node),
            ExpansionStrategy::MaxCost => self.expand_node_max_cost(seed, node),
        }
    }

    /// The line the log shows when `node` is expanded as `strategy` says, when the log
    /// is switched on: `Expanding <text of node> randomly`, `... at minimum cost` or
    /// `... at maximum cost`.
    pub fn expansion_log(&self, node: &DerivationTree, strategy: ExpansionStrategy) -> (r: Option<String>)
        ensures
            logging(self@.log) ==> (r matches Some(s) && s@ == expansion_line(terminals(node@), strategy)),
            !logging(self@.log) ==> r is None,
    {
        if !(match self.log {
            Union::OnlyA(b) => b,
            Union::OnlyB(_) => false,
        }) {
            return None;
        }
        let t = all_terminals(node);
        let head = concat("Expanding ", t.as_str());
        let r = match strategy {
            ExpansionStrategy::Randomly => concat(head.as_str(), " randomly"),
            ExpansionStrategy::MinCost => concat(head.as_str(), " at minimum cost"),
            ExpansionStrategy::MaxCost => concat(head.as_str(), " at maximum cost"),
        };
        proof {
            reveal_strlit("Expanding ");
            reveal_strlit(" randomly");
            reveal_strlit(" at minimum cost");
            reveal_strlit(" at maximum cost");
        }
        assert(r@ =~= expansion_line(terminals(node@), strategy));
        Some(r)
    }

    /// The line the log shows for `tree`, when the log is switched on.
    pub fn log_tree(&self, tree: &DerivationTree) -> (r: Option<String>)
        ensures
            logging(self@.log) ==> (r matches Some(s) && s@ == seq!['T', 'r', 'e', 'e', ':'] + terminals(tree@)),
            !logging(self@.log) ==> r is None,
    {
        match self.log {
            Union::OnlyA(should_log) => {
                if should_log {
                    let t = all_terminals(tree);
                    let r = concat("Tree:", t.as_str());
                    proof {
                        reveal_strlit("Tree:");
                    }
                    Some(r)
                } else {
                    None
                }
            },
            Union::OnlyB(_) => None,
        }
    }

    /// One expansion step on an owned tree.
    #[verifier::spinoff_prover]
    fn expand_once_owned(&self, strategy: ExpansionStrategy, seed: &mut u64, tree: DerivationTree) -> (r: DerivationTree)
        requires
            once_ok(self@.grammar, strategy, *old(seed), tree@),
            has_open(tree@),
        ensures
            (*final(seed), r@) == expand_once(self@.grammar, strategy, *old(seed), tree@),
        decreases tree,
    {
        let ghost g = self@.grammar;
        let ghost t0 = tree;
        let ghost tv = tree@;
        let DerivationTree { symbol, children } = tree;
        match children {
            None => {
                let node = DerivationTree { symbol, children: None };
                assert(node@ == tv);
                self.expand_node_with(strategy, seed, &node)
            },
            Some(mut cs) => {
                proof {
                    lemma_views_of(cs@);
                    self::laws::lemma_has_open_seq(views_of(cs@));
                    self::laws::lemma_open_positions(views_of(cs@), cs@.len() as int);
                }
                let ghost cv = views_of(cs@);
                let ghost s0 = *seed;
                let mut index_vec: Vec<usize> = Vec::new();
                let mut i: usize = 0;
                while i < cs.len()
                    invariant
                        cv == views_of(cs@),
                        cv.len() == cs@.len(),
                        forall|k: int| 0 <= k < cs@.len() ==> #[trigger] cv[k] == cs@[k]@,
                        i <= cs.len(),
                        index_vec@.len() == open_positions(cv, i as int).len(),
                        forall|t: int| 0 <= t < index_vec@.len() ==> #[trigger] index_vec@[t] as int == open_positions(cv, i as int)[t],
                    decreases cs.len() - i,
                {
                    let ghost before = open_positions(cv, i as int);
                    if Self::any_possible_expansions(&cs[i]) {
                        index_vec.push(i);
                    }
                    i = i + 1;
                    proof {
                        let now = open_positions(cv, i as int);
                        assert forall|t: int| 0 <= t < index_vec@.len() implies #[trigger] index_vec@[t] as int == now[t] by {
                            if t < before.len() {
                                assert(now[t] == before[t]);
                            }
                        }
                    }
                }
                let ghost idx = open_positions(cv, cv.len() as int);
                assert(tv.children == Some(cv));
                let child_to_be_expanded = self.choose_tree_expansion(seed, &index_vec);
                let j = index_vec[child_to_be_expanded];
                assert(j as int == idx[rand_index(s0, idx.len() as int)]);
                assert(0 <= j < cs@.len());
                let ghost old_cs = cs@;
                let child = cs.remove(j);
                proof {
                    let kids = t0.children;
                    assert(decreases_to!(t0 => kids));
                    assert(decreases_to!(kids => kids->0));
                    assert(decreases_to!(kids->0 => kids->0@));
                    assert(kids->0@ == old_cs);
                    assert(decreases_to!(kids->0@ => kids->0@[j as int]));
                    assert(child == old_cs[j as int]);
                    assert(once_ok(g, strategy, *seed, cv[j as int]));
                    assert(has_open(cv[j as int]));
                }
                let new_child = self.expand_once_owned(strategy, seed, child);
                cs.insert(j, new_child);
                proof {
                    assert(cs@ =~= old_cs.update(j as int, cs@[j as int]));
                    lemma_views_of(cs@);
                    lemma_views_of(old_cs);
                    assert(views_of(cs@) =~= cv.update(j as int, new_child@));
                }
                DerivationTree { symbol, children: Some(cs) }
            },
        }
    }

    /// One expansion step on `tree` with the current strategy.
    pub fn expand_tree_once(&mut self, seed: &mut u64, tree: &mut DerivationTree)
        requires
            old(self)@.expand_node is Some,
            once_ok(old(self)@.grammar, old(self)@.expand_node->0, *old(seed), old(tree)@),
            has_open(old(tree)@),
        ensures
            final(self)@ == old(self)@,
            (*final(seed), final(tree)@) == expand_once(
                old(self)@.grammar,
                old(self)@.expand_node->0,
                *old(seed),
                old(tree)@,
            ),
    {
        let strategy = match self.expand_node {
            Some(s) => s,
            None => ExpansionStrategy::MinCost,
        };
        let mut t = DerivationTree { symbol: String::new(), children: None };
        std::mem::swap(&mut t, tree);
        *tree = self.expand_once_owned(strategy, seed, t);
    }

    /// Runs expansion steps with `strategy` while the tree has an open node and, under
    /// a limit, fewer open nodes than the limit (at most `u64::MAX` steps).
    fn expand_tree_with_strategy(
        &mut self,
        seed: &mut u64,
        tree: &mut DerivationTree,
        strategy: ExpansionStrategy,
        limit: Option<usize>,
    )
        requires
            run_ok(old(self)@.grammar, strategy, limit, *old(seed), old(tree)@, step_budget()),
        ensures
            final(self)@ == (FuzzerV { expand_node: Some(strategy), ..old(self)@ }),
            (*final(seed), final(tree)@) == ({
                let r = run_strategy(old(self)@.grammar, strategy, limit, *old(seed), old(tree)@, step_budget());
                (r.0, r.1)
            }),
    {
        self.expand_node = Some(strategy);
        let ghost g = self@.grammar;
        let ghost want = run_strategy(g, strategy, limit, *seed, tree@, step_budget());
        let mut fuel: u64 = u64::MAX;
        loop
            invariant
                g == self@.grammar,
                self@ == (FuzzerV { expand_node: Some(strategy), ..old(self)@ }),
                run_ok(g, strategy, limit, *seed, tree@, fuel as nat),
                run_strategy(g, strategy, limit, *seed, tree@, fuel as nat) == want,
            ensures
                want == (*seed, tree@, want.2),
            decreases fuel,
        {
            let goes_on = Self::any_possible_expansions(tree) && match limit {
                None => true,
                Some(l) => self.possible_expansions(tree) < l,
            };
            if fuel == 0 || !goes_on {
                break;
            }
            self.expand_tree_once(seed, tree);
            fuel = fuel - 1;
        }
    }

    /// Expands `tree` in the three phases: by greatest cost up to `min_nonterminals`
    /// open nodes, at random up to `max_nonterminals`, then by least cost.
    pub fn expand_tree(&mut self, seed: &mut u64, tree: &mut DerivationTree)
        requires
            expand_tree_ok(
                old(self)@.grammar,
                old(self)@.min_nonterminals,
                old(self)@.max_nonterminals,
                *old(seed),
                old(tree)@,
            ),
        ensures
            final(self)@ == (FuzzerV { expand_node: Some(ExpansionStrategy::MinCost), ..old(self)@ }),
            (*final(seed), final(tree)@) == expand_tree_spec(
                old(self)@.grammar,
                old(self)@.min_nonterminals,
                old(self)@.max_nonterminals,
                *old(seed),
                old(tree)@,
            ),
    {
        let min = self.min_nonterminals;
        let max = self.max_nonterminals;
        self.expand_tree_with_strategy(seed, tree, ExpansionStrategy::MaxCost, Some(min));
        self.expand_tree_with_strategy(seed, tree, ExpansionStrategy::Randomly, Some(max));
        self.expand_tree_with_strategy(seed, tree, ExpansionStrategy::MinCost, None);
    }

    /// Expands `tree`; the line the log shows afterwards, when it is switched on.
    pub fn fuzz_tree(&mut self, seed: &mut u64, tree: &mut DerivationTree) -> (r: Option<String>)
        requires
            expand_tree_ok(
                old(self)@.grammar,
                old(self)@.min_nonterminals,
                old(self)@.max_nonterminals,
                *old(seed),
                old(tree)@,
            ),
        ensures
            final(self)@ == (FuzzerV { expand_node: Some(ExpansionStrategy::MinCost), ..old(self)@ }),
            (*final(seed), final(tree)@) == expand_tree_spec(
                old(self)@.grammar,
                old(self)@.min_nonterminals,
                old(self)@.max_nonterminals,
                *old(seed),
                old(tree)@,
            ),
            logging(old(self)@.log) ==> (r matches Some(s) && s@ == terminals(final(tree)@)),
            !logging(old(self)@.log) ==> r is None,
    {
        self.expand_tree(seed, tree);
        match self.log {
            Union::OnlyA(should_log) => {
                if should_log {
                    Some(all_terminals(tree))
                } else {
                    None
                }
            },
            Union::OnlyB(_) => None,
        }
    }

    /// Grows a tree from the start symbol and returns its text; the tree is kept.
    pub fn fuzz(&mut self, rand_seed: &mut u64) -> (r: String)
        requires
            expand_tree_ok(
                old(self)@.grammar,
                old(self)@.min_nonterminals,
                old(self)@.max_nonterminals,
                *old(rand_seed),
                start_tree(old(self)@.start_symbol),
            ),
        ensures
            ({
                let (s, t) = expand_tree_spec(
                    old(self)@.grammar,
                    old(self)@.min_nonterminals,
                    old(self)@.max_nonterminals,
                    *old(rand_seed),
                    start_tree(old(self)@.start_symbol),
                );
                &&& *final(rand_seed) == s
                &&& r@ == terminals(t)
                &&& self::laws::is_derivation(old(self)@.grammar, t)
                &&& t.symbol == old(self)@.start_symbol
                &&& final(self)@ == (FuzzerV {
                    expand_node: Some(ExpansionStrategy::MinCost),
                    derivation_tree: Some(t),
                    ..old(self)@
                })
            }),
    {
        proof {
            self::laws::lemma_fuzz_derivation(
                self@.grammar,
                self@.start_symbol,
                self@.min_nonterminals,
                self@.max_nonterminals,
                *rand_seed,
            );
        }
        let mut fuzzed_tree = self.init_tree();
        let _ = self.fuzz_tree(rand_seed, &mut fuzzed_tree);
        let result = all_terminals(&fuzzed_tree);
        self.derivation_tree = Some(fuzzed_tree);
        result
    }
}

} // verus!
