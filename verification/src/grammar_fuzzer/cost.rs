//! The cost of expanding a symbol or an expansion: how many expansion steps it
//! takes at least to reach a tree without open nodes, or `Infinite` where an
//! expansion needs a symbol that is already being expanded.
//!
//! Costs are memoised by expansion text in a cache that one computation threads
//! through all its steps; what the cache holds can change later results, so the
//! cache is part of the specification.
use vstd::prelude::*;
use crate::text::str_eq;
use crate::text::copy_strings;
use crate::text::lemma_deep_view_push;
use crate::text::lemma_deep_view_update;
use crate::grammar::Grammar;
use crate::grammar::GrammarV;
use crate::grammar::Expansion;
use crate::grammar::ExpansionV;
use crate::grammar::has_key;
use crate::grammar::key_index;
use crate::grammar::rule_of;
use crate::grammar::lemma_key_index;
use crate::grammar::nonterminals;
use crate::grammar::pattern::Pattern;
use crate::grammar::pattern::tokens;
use crate::grammar::options::exp_text;
use crate::grammar::options::exp_string;
use crate::grammar::validity::contains_str;
use crate::grammar::validity::closed;
use crate::grammar::validity::reachable;
use crate::grammar::validity::reachable_nonterminals;
use crate::grammar::validity::names;
use crate::grammar::validity::lemma_push_contains;
use crate::grammar::key_set;
use crate::grammar_fuzzer::tree::children_of;
use crate::grammar_fuzzer::tree::expansion_to_children;
use crate::grammar_fuzzer::tree::views_of;
use crate::grammar_fuzzer::tree::lemma_views_of;

verus! {

/// A cost: a number of steps (saturating at `u64::MAX`) or infinity.
#[derive(Clone, Copy, PartialEq, Eq, Structural, Debug)]
pub enum Cost {
    Finite(u64),
    Infinite,
}

impl DeepView for Cost {
    type V = Cost;

    open spec fn deep_view(&self) -> Cost {
        *self
    }
}

/// Which cost a cost-driven expansion prefers.
#[derive(Clone, Copy, PartialEq, Eq, Structural, Debug)]
pub enum CostChoice {
    Min,
    Max,
}

/// The sum of two costs: infinite when either is.
pub open spec fn cost_add(a: Cost, b: Cost) -> Cost {
    match (a, b) {
        (Cost::Finite(x), Cost::Finite(y)) => if x + y > u64::MAX {
            Cost::Finite(u64::MAX)
        } else {
            Cost::Finite((x + y) as u64)
        },
        _ => Cost::Infinite,
    }
}

/// The smaller of two costs.
pub open spec fn cost_min(a: Cost, b: Cost) -> Cost {
    match (a, b) {
        (Cost::Infinite, _) => b,
        (_, Cost::Infinite) => a,
        (Cost::Finite(x), Cost::Finite(y)) => if x <= y {
            a
        } else {
            b
        },
    }
}

/// The larger of two costs.
pub open spec fn cost_max(a: Cost, b: Cost) -> Cost {
    match (a, b) {
        (Cost::Infinite, _) => a,
        (_, Cost::Infinite) => b,
        (Cost::Finite(x), Cost::Finite(y)) => if x >= y {
            a
        } else {
            b
        },
    }
}

/// The cost that `choice` picks of two.
pub open spec fn choose_cost(choice: CostChoice, a: Cost, b: Cost) -> Cost {
    match choice {
        CostChoice::Min => cost_min(a, b),
        CostChoice::Max => cost_max(a, b),
    }
}

pub fn add_costs(a: Cost, b: Cost) -> (r: Cost)
    ensures
        r == cost_add(a, b),
{
    match (a, b) {
        (Cost::Finite(x), Cost::Finite(y)) => Cost::Finite(x.saturating_add(y)),
        _ => Cost::Infinite,
    }
}

pub fn pick_cost(choice: CostChoice, a: Cost, b: Cost) -> (r: Cost)
    ensures
        r == choose_cost(choice, a, b),
{
    match (choice, a, b) {
        (CostChoice::Min, Cost::Infinite, _) => b,
        (CostChoice::Min, _, Cost::Infinite) => a,
        (CostChoice::Max, Cost::Infinite, _) => a,
        (CostChoice::Max, _, Cost::Infinite) => b,
        (CostChoice::Min, Cost::Finite(x), Cost::Finite(y)) => if x <= y {
            a
        } else {
            b
        },
        (CostChoice::Max, Cost::Finite(x), Cost::Finite(y)) => if x >= y {
            a
        } else {
            b
        },
    }
}

/// Whether two costs are the same.
pub fn same_cost(a: Cost, b: Cost) -> (r: bool)
    ensures
        r == (a == b),
{
    match (a, b) {
        (Cost::Finite(x), Cost::Finite(y)) => x == y,
        (Cost::Infinite, Cost::Infinite) => true,
        _ => false,
    }
}

/// The memo of costs by expansion text.
pub type CostCacheV = Seq<(Seq<char>, Cost)>;

/// The index of the first entry for `k` at or after `i`, or -1.
pub open spec fn cache_index_from(c: CostCacheV, k: Seq<char>, i: int) -> int
    decreases c.len() - i,
{
    if i < 0 || i >= c.len() {
        -1
    } else if c[i].0 == k {
        i
    } else {
        cache_index_from(c, k, i + 1)
    }
}

/// The cost memoised for `k`, if any.
pub open spec fn cache_get(c: CostCacheV, k: Seq<char>) -> Option<Cost> {
    if cache_index_from(c, k, 0) >= 0 {
        Some(c[cache_index_from(c, k, 0)].1)
    } else {
        None
    }
}

/// The memo with `k` set to `v`: an existing entry is overwritten, a new one appended.
pub open spec fn cache_put(c: CostCacheV, k: Seq<char>, v: Cost) -> CostCacheV {
    if cache_index_from(c, k, 0) >= 0 {
        c.update(cache_index_from(c, k, 0), (k, v))
    } else {
        c.push((k, v))
    }
}

proof fn lemma_cache_index_from(c: CostCacheV, k: Seq<char>, i: int)
    requires
        0 <= i,
    ensures
        cache_index_from(c, k, i) == -1 ==> forall|j: int| i <= j < c.len() ==> c[j].0 != k,
        cache_index_from(c, k, i) != -1 ==> i <= cache_index_from(c, k, i) < c.len() && c[cache_index_from(c, k, i)].0 == k,
        cache_index_from(c, k, i) != -1 ==> forall|j: int| i <= j < cache_index_from(c, k, i) ==> c[j].0 != k,
    decreases c.len() - i,
{
    if i < c.len() && c[i].0 != k {
        lemma_cache_index_from(c, k, i + 1);
    }
}

/// Whether one of `syms` is in `seen`.
pub open spec fn any_seen(syms: Seq<Seq<char>>, seen: Seq<Seq<char>>) -> bool {
    exists|i: int| 0 <= i < syms.len() && seen.contains(#[trigger] syms[i])
}

/// How many of the first `n` rules of `g` are named by no symbol in `seen`.
pub open spec fn unseen_rules(g: GrammarV, seen: Seq<Seq<char>>, n: int) -> nat
    decreases n,
{
    if n <= 0 {
        0
    } else {
        unseen_rules(g, seen, n - 1) + if seen.contains(g[n - 1].0) {
            0nat
        } else {
            1nat
        }
    }
}

/// How many rules of `g` are named by no symbol in `seen`: what is left to expand.
pub open spec fn unseen(g: GrammarV, seen: Seq<Seq<char>>) -> nat {
    unseen_rules(g, seen, g.len() as int)
}

/// Adding a symbol to `seen` leaves no more rules unseen, and fewer when the symbol
/// names a rule and was not seen yet.
pub proof fn lemma_unseen_push(g: GrammarV, seen: Seq<Seq<char>>, x: Seq<char>, n: int)
    requires
        0 <= n <= g.len(),
    ensures
        unseen_rules(g, seen.push(x), n) <= unseen_rules(g, seen, n),
        (exists|i: int| 0 <= i < n && g[i].0 == x) && !seen.contains(x) ==> unseen_rules(g, seen.push(x), n)
            < unseen_rules(g, seen, n),
    decreases n,
{
    lemma_push_contains(seen, x);
    if n > 0 {
        lemma_unseen_push(g, seen, x, n - 1);
        if (exists|i: int| 0 <= i < n && g[i].0 == x) && !seen.contains(x) {
            let i = choose|i: int| 0 <= i < n && g[i].0 == x;
            if i == n - 1 {
                assert(seen.push(x).contains(g[n - 1].0));
            }
        }
    }
}

/// The cost of an expansion with text `text` while the symbols in `seen` are being
/// expanded, and the memo afterwards: a memoised cost is returned as it is;
/// otherwise the cost is 1 for a text without nonterminals, infinite when one of
/// its nonterminals is in `seen`, and else 1 plus the sum of the costs of its
/// nonterminals in order; the result is memoised under `text`.
pub open spec fn expansion_cost_spec(
    g: GrammarV,
    text: Seq<char>,
    seen: Seq<Seq<char>>,
    cache: CostCacheV,
) -> (Cost, CostCacheV)
    decreases unseen(g, seen), 3int, 0int,
{
    match cache_get(cache, text) {
        Some(c) => (c, cache),
        None => {
            let syms = tokens(Pattern::Nonterminal, text);
            let (res, after) = if syms.len() == 0 {
                (Cost::Finite(1), cache)
            } else if any_seen(syms, seen) {
                (Cost::Infinite, cache)
            } else {
                let (sum, c2) = sum_costs_spec(g, syms, syms.len() as int, seen, cache);
                (cost_add(sum, Cost::Finite(1)), c2)
            };
            (res, cache_put(after, text, res))
        },
    }
}

/// The sum of the costs of the first `n` symbols of `syms`, taken in order. (The
/// symbols summed are never in `seen`, and they name rules where the fuzzer may
/// expand; a symbol that is neither counts as infinite.)
pub open spec fn sum_costs_spec(
    g: GrammarV,
    syms: Seq<Seq<char>>,
    n: int,
    seen: Seq<Seq<char>>,
    cache: CostCacheV,
) -> (Cost, CostCacheV)
    decreases unseen(g, seen), 2int, n,
{
    if n <= 0 {
        (Cost::Finite(0), cache)
    } else {
        let (acc, c1) = sum_costs_spec(g, syms, n - 1, seen, cache);
        let s = syms[n - 1];
        let (x, c2) = if has_key(g, s) && !seen.contains(s) {
            proof {
                lemma_unseen_push(g, seen, s, g.len() as int);
            }
            symbol_cost_spec(g, s, seen, c1)
        } else {
            (Cost::Infinite, c1)
        };
        (cost_add(acc, x), c2)
    }
}

/// The cost of a symbol: the least cost of its expansions, each with the symbol
/// added to `seen`.
pub open spec fn symbol_cost_spec(
    g: GrammarV,
    sym: Seq<char>,
    seen: Seq<Seq<char>>,
    cache: CostCacheV,
) -> (Cost, CostCacheV)
    decreases unseen(g, seen.push(sym)), 5int, 0int,
{
    let exps = rule_of(g, sym);
    min_costs_spec(g, exps, exps.len() as int, seen.push(sym), cache)
}

/// The least cost among the first `n` (at least one) of `exps`, taken in order.
pub open spec fn min_costs_spec(
    g: GrammarV,
    exps: Seq<ExpansionV>,
    n: int,
    seen: Seq<Seq<char>>,
    cache: CostCacheV,
) -> (Cost, CostCacheV)
    decreases unseen(g, seen), 4int, n,
{
    if n <= 1 {
        expansion_cost_spec(g, exp_text(exps[0]), seen, cache)
    } else {
        let (m, c1) = min_costs_spec(g, exps, n - 1, seen, cache);
        let (x, c2) = expansion_cost_spec(g, exp_text(exps[n - 1]), seen, c1);
        (cost_min(m, x), c2)
    }
}

/// Whether computing `expansion_cost_spec(g, text, seen, cache)` looks up only names
/// that `g` defines with at least one expansion. The computation stops early at a
/// memoised text, at a text without nonterminals and at one that uses a symbol in
/// `seen`, so nothing is asked of the names it does not reach.
pub open spec fn expansion_cost_ok(
    g: GrammarV,
    text: Seq<char>,
    seen: Seq<Seq<char>>,
    cache: CostCacheV,
) -> bool
    decreases unseen(g, seen), 3int, 0int,
{
    match cache_get(cache, text) {
        Some(_) => true,
        None => {
            let syms = tokens(Pattern::Nonterminal, text);
            syms.len() == 0 || any_seen(syms, seen) || sum_costs_ok(g, syms, syms.len() as int, seen, cache)
        },
    }
}

/// Whether summing the costs of the first `n` symbols of `syms` (see
/// `sum_costs_spec`) looks up only defined names with non-empty rules.
pub open spec fn sum_costs_ok(
    g: GrammarV,
    syms: Seq<Seq<char>>,
    n: int,
    seen: Seq<Seq<char>>,
    cache: CostCacheV,
) -> bool
    decreases unseen(g, seen), 2int, n,
{
    if n <= 0 {
        true
    } else {
        let c1 = sum_costs_spec(g, syms, n - 1, seen, cache).1;
        let s = syms[n - 1];
        sum_costs_ok(g, syms, n - 1, seen, cache) && if has_key(g, s) && !seen.contains(s) {
            proof {
                lemma_unseen_push(g, seen, s, g.len() as int);
            }
            symbol_cost_ok(g, s, seen, c1)
        } else {
            false
        }
    }
}

/// Whether costing `sym` (see `symbol_cost_spec`) looks up only defined names with
/// non-empty rules, `sym` first.
pub open spec fn symbol_cost_ok(g: GrammarV, sym: Seq<char>, seen: Seq<Seq<char>>, cache: CostCacheV) -> bool
    decreases unseen(g, seen.push(sym)), 5int, 0int,
{
    has_key(g, sym) && rule_of(g, sym).len() > 0 && min_costs_ok(
        g,
        rule_of(g, sym),
        rule_of(g, sym).len() as int,
        seen.push(sym),
        cache,
    )
}

/// Whether costing the first `n` of `exps` (see `min_costs_spec`) looks up only
/// defined names with non-empty rules.
pub open spec fn min_costs_ok(
    g: GrammarV,
    exps: Seq<ExpansionV>,
    n: int,
    seen: Seq<Seq<char>>,
    cache: CostCacheV,
) -> bool
    decreases unseen(g, seen), 4int, n,
{
    if n <= 1 {
        expansion_cost_ok(g, exp_text(exps[0]), seen, cache)
    } else {
        min_costs_ok(g, exps, n - 1, seen, cache) && expansion_cost_ok(
            g,
            exp_text(exps[n - 1]),
            seen,
            min_costs_spec(g, exps, n - 1, seen, cache).1,
        )
    }
}

/// The fuzzer can cost every expansion of `sym`'s rule, as a cost-driven expansion
/// of an open `sym` node does: the rule exists, is not empty, and each expansion's
/// cost, with `sym` being expanded and a fresh memo, looks up only defined names
/// with non-empty rules.
pub open spec fn costs_defined(g: GrammarV, sym: Seq<char>) -> bool {
    &&& has_key(g, sym)
    &&& rule_of(g, sym).len() > 0
    &&& forall|i: int|
        0 <= i < rule_of(g, sym).len() ==> #[trigger] expansion_cost_ok(
            g,
            exp_text(rule_of(g, sym)[i]),
            seq![sym],
            Seq::empty(),
        )
}

/// Symbol `i` of a well-defined sum names a rule, is not being expanded, and can
/// be costed with the memo the sum has reached there.
pub open spec fn sum_entry_ok(g: GrammarV, syms: Seq<Seq<char>>, i: int, seen: Seq<Seq<char>>, cache: CostCacheV) -> bool {
    &&& has_key(g, syms[i])
    &&& !seen.contains(syms[i])
    &&& symbol_cost_ok(g, syms[i], seen, sum_costs_spec(g, syms, i, seen, cache).1)
}

/// What a well-defined sum gives each of its symbols.
pub proof fn lemma_sum_costs_ok(g: GrammarV, syms: Seq<Seq<char>>, n: int, seen: Seq<Seq<char>>, cache: CostCacheV)
    requires
        sum_costs_ok(g, syms, n, seen, cache),
    ensures
        forall|i: int| 0 <= i < n ==> #[trigger] sum_entry_ok(g, syms, i, seen, cache),
    decreases n,
{
    if n > 0 {
        lemma_sum_costs_ok(g, syms, n - 1, seen, cache);
        assert(sum_entry_ok(g, syms, n - 1, seen, cache));
    }
}

/// What a well-defined least cost gives each of its expansions.
pub proof fn lemma_min_costs_ok(g: GrammarV, exps: Seq<ExpansionV>, n: int, seen: Seq<Seq<char>>, cache: CostCacheV)
    requires
        n >= 1,
        min_costs_ok(g, exps, n, seen, cache),
    ensures
        expansion_cost_ok(g, exp_text(exps[0]), seen, cache),
        forall|j: int|
            1 <= j < n ==> expansion_cost_ok(
                g,
                exp_text(exps[j]),
                seen,
                #[trigger] min_costs_spec(g, exps, j, seen, cache).1,
            ),
    decreases n,
{
    if n > 1 {
        lemma_min_costs_ok(g, exps, n - 1, seen, cache);
    }
}

/// The sum of `costs`, taken left to right.
pub open spec fn cost_total(costs: Seq<Cost>) -> Cost
    decreases costs.len(),
{
    if costs.len() == 0 {
        Cost::Finite(0)
    } else {
        cost_add(cost_total(costs.drop_last()), costs.last())
    }
}

/// The cost of the `i`-th of the nonterminals `syms` of a text being costed: the
/// symbol's own cost, with the memo as the nonterminals before it left it.
pub open spec fn nth_symbol_cost(
    g: GrammarV,
    syms: Seq<Seq<char>>,
    i: int,
    seen: Seq<Seq<char>>,
    cache: CostCacheV,
) -> Cost {
    symbol_cost_spec(g, syms[i], seen, sum_costs_spec(g, syms, i, seen, cache).1).0
}

proof fn lemma_sum_costs_total(g: GrammarV, syms: Seq<Seq<char>>, n: int, seen: Seq<Seq<char>>, cache: CostCacheV)
    requires
        0 <= n <= syms.len(),
        !any_seen(syms, seen),
        forall|i: int| 0 <= i < syms.len() ==> has_key(g, #[trigger] syms[i]),
    ensures
        sum_costs_spec(g, syms, n, seen, cache).0 == cost_total(
            Seq::new(n as nat, |i: int| nth_symbol_cost(g, syms, i, seen, cache)),
        ),
    decreases n,
{
    let costs = Seq::new(n as nat, |i: int| nth_symbol_cost(g, syms, i, seen, cache));
    if n > 0 {
        lemma_sum_costs_total(g, syms, n - 1, seen, cache);
        assert(costs.drop_last() =~= Seq::new((n - 1) as nat, |i: int| nth_symbol_cost(g, syms, i, seen, cache)));
        assert(has_key(g, syms[n - 1]));
        assert(!seen.contains(syms[n - 1]));
        assert(costs.last() == nth_symbol_cost(g, syms, n - 1, seen, cache));
    }
}

/// The cost of a text that is not memoised, has nonterminals, none of them being
/// expanded, is one step plus the sum of the costs of its nonterminals, each taken
/// once for every time it occurs (each costed with the memo as the ones before it
/// left it).
pub proof fn lemma_expansion_cost_is_sum(g: GrammarV, text: Seq<char>, seen: Seq<Seq<char>>, cache: CostCacheV)
    requires
        cache_get(cache, text) is None,
        tokens(Pattern::Nonterminal, text).len() > 0,
        !any_seen(tokens(Pattern::Nonterminal, text), seen),
        forall|i: int|
            0 <= i < tokens(Pattern::Nonterminal, text).len() ==> has_key(
                g,
                #[trigger] tokens(Pattern::Nonterminal, text)[i],
            ),
    ensures
        expansion_cost_spec(g, text, seen, cache).0 == cost_add(
            cost_total(
                Seq::new(
                    tokens(Pattern::Nonterminal, text).len(),
                    |i: int| nth_symbol_cost(g, tokens(Pattern::Nonterminal, text), i, seen, cache),
                ),
            ),
            Cost::Finite(1),
        ),
{
    let syms = tokens(Pattern::Nonterminal, text);
    lemma_sum_costs_total(g, syms, syms.len() as int, seen, cache);
}

/// The least of `costs` (at least one), taken left to right.
pub open spec fn cost_least(costs: Seq<Cost>) -> Cost
    decreases costs.len(),
{
    if costs.len() <= 1 {
        costs[0]
    } else {
        cost_min(cost_least(costs.drop_last()), costs.last())
    }
}

/// The cost of the `j`-th of the expansions `exps` of a symbol being costed: the
/// expansion's own cost, with the memo as the expansions before it left it.
pub open spec fn nth_expansion_cost(
    g: GrammarV,
    exps: Seq<ExpansionV>,
    j: int,
    seen: Seq<Seq<char>>,
    cache: CostCacheV,
) -> Cost {
    expansion_cost_spec(
        g,
        exp_text(exps[j]),
        seen,
        if j == 0 {
            cache
        } else {
            min_costs_spec(g, exps, j, seen, cache).1
        },
    ).0
}

proof fn lemma_min_costs_least(g: GrammarV, exps: Seq<ExpansionV>, n: int, seen: Seq<Seq<char>>, cache: CostCacheV)
    requires
        1 <= n <= exps.len(),
    ensures
        min_costs_spec(g, exps, n, seen, cache).0 == cost_least(
            Seq::new(n as nat, |j: int| nth_expansion_cost(g, exps, j, seen, cache)),
        ),
    decreases n,
{
    let costs = Seq::new(n as nat, |j: int| nth_expansion_cost(g, exps, j, seen, cache));
    if n > 1 {
        lemma_min_costs_least(g, exps, n - 1, seen, cache);
        assert(costs.drop_last() =~= Seq::new((n - 1) as nat, |j: int| nth_expansion_cost(g, exps, j, seen, cache)));
    }
}

/// The cost of a symbol with a non-empty rule is the least of the costs of its
/// expansions, each costed with the symbol being expanded (and the memo as the
/// expansions before it left it).
pub proof fn lemma_symbol_cost_is_least(g: GrammarV, sym: Seq<char>, seen: Seq<Seq<char>>, cache: CostCacheV)
    requires
        rule_of(g, sym).len() > 0,
    ensures
        symbol_cost_spec(g, sym, seen, cache).0 == cost_least(
            Seq::new(
                rule_of(g, sym).len(),
                |j: int| nth_expansion_cost(g, rule_of(g, sym), j, seen.push(sym), cache),
            ),
        ),
{
    lemma_min_costs_least(g, rule_of(g, sym), rule_of(g, sym).len() as int, seen.push(sym), cache);
}

/// The least cost is one of the costs and is no more than any of them.
pub proof fn lemma_cost_least_is_least(costs: Seq<Cost>)
    requires
        costs.len() > 0,
    ensures
        costs.contains(cost_least(costs)),
        forall|i: int| 0 <= i < costs.len() ==> cost_min(cost_least(costs), #[trigger] costs[i]) == cost_least(costs),
    decreases costs.len(),
{
    if costs.len() > 1 {
        let pre = costs.drop_last();
        lemma_cost_least_is_least(pre);
        let k = choose|k: int| 0 <= k < pre.len() && pre[k] == cost_least(pre);
        assert(costs[k] == pre[k]);
        if cost_least(costs) == costs.last() {
            assert(costs[costs.len() - 1] == cost_least(costs));
        }
        assert forall|i: int| 0 <= i < costs.len() implies cost_min(cost_least(costs), #[trigger] costs[i]) == cost_least(costs) by {
            if i < costs.len() - 1 {
                assert(costs[i] == pre[i]);
                assert(cost_min(cost_least(pre), pre[i]) == cost_least(pre));
            }
        }
    } else {
        assert(costs[0] == cost_least(costs));
    }
}

/// What `cache_put` stores, `cache_get` gives back.
pub proof fn lemma_cache_put_get(c: CostCacheV, k: Seq<char>, v: Cost)
    ensures
        cache_get(cache_put(c, k, v), k) == Some(v),
{
    lemma_cache_index_from(c, k, 0);
    let c2 = cache_put(c, k, v);
    lemma_cache_index_from(c2, k, 0);
    let j = if cache_index_from(c, k, 0) >= 0 {
        cache_index_from(c, k, 0)
    } else {
        c.len() as int
    };
    assert(c2[j].0 == k);
    assert forall|m: int| 0 <= m < j implies c2[m].0 != k by {
        assert(c2[m] == c[m]);
    }
    assert(cache_index_from(c2, k, 0) == j);
}

/// How a cost is found: a memoised text gives its memo and leaves the memo as it
/// is; otherwise a text without nonterminals costs 1, a text that uses a symbol
/// being expanded is infinite, and whatever the cost, it is memoised under the text.
pub proof fn lemma_expansion_cost_cases(g: GrammarV, text: Seq<char>, seen: Seq<Seq<char>>, cache: CostCacheV)
    ensures
        cache_get(cache, text) matches Some(c) ==> expansion_cost_spec(g, text, seen, cache) == (c, cache),
        cache_get(cache, text) is None ==> cache_get(expansion_cost_spec(g, text, seen, cache).1, text) == Some(
            expansion_cost_spec(g, text, seen, cache).0,
        ),
        cache_get(cache, text) is None && tokens(Pattern::Nonterminal, text).len() == 0 ==> expansion_cost_spec(
            g,
            text,
            seen,
            cache,
        ).0 == Cost::Finite(1),
        cache_get(cache, text) is None && any_seen(tokens(Pattern::Nonterminal, text), seen) ==> expansion_cost_spec(
            g,
            text,
            seen,
            cache,
        ).0 == Cost::Infinite,
{
    if cache_get(cache, text) is None {
        let syms = tokens(Pattern::Nonterminal, text);
        let (res, after) = if syms.len() == 0 {
            (Cost::Finite(1), cache)
        } else if any_seen(syms, seen) {
            (Cost::Infinite, cache)
        } else {
            let (sum, c2) = sum_costs_spec(g, syms, syms.len() as int, seen, cache);
            (cost_add(sum, Cost::Finite(1)), c2)
        };
        lemma_cache_put_get(after, text, res);
    }
}

/// A sum of finite costs that does not reach `u64::MAX` is the integer sum: in
/// particular a nonterminal used twice counts twice.
pub proof fn lemma_cost_total_finite(a: u64, b: u64)
    requires
        a + b <= u64::MAX,
    ensures
        cost_total(seq![Cost::Finite(a), Cost::Finite(b)]) == Cost::Finite((a + b) as u64),
{
    reveal_with_fuel(cost_total, 3);
    assert(seq![Cost::Finite(a), Cost::Finite(b)].drop_last() =~= seq![Cost::Finite(a)]);
    assert(seq![Cost::Finite(a)].drop_last() =~= Seq::<Cost>::empty());
}

/// The fuzzer can expand `sym`: every nonterminal reachable from it (itself
/// included) names a rule with at least one expansion. Nothing is asked of the
/// rules that `sym` does not reach.
pub open spec fn expandable(g: GrammarV, sym: Seq<char>) -> bool {
    forall|x: Seq<char>| #[trigger] reachable(g, sym).contains(x) ==> has_key(g, x) && rule_of(g, x).len() > 0
}

/// Every nonterminal that `e` uses is expandable.
pub open spec fn expansion_expandable(g: GrammarV, e: ExpansionV) -> bool {
    forall|t: int|
        0 <= t < tokens(Pattern::Nonterminal, exp_text(e)).len() ==> expandable(
            g,
            #[trigger] tokens(Pattern::Nonterminal, exp_text(e))[t],
        )
}

/// An expandable symbol names a rule with at least one expansion, and every
/// expansion of that rule is expandable.
pub proof fn lemma_expandable(g: GrammarV, sym: Seq<char>)
    requires
        expandable(g, sym),
    ensures
        has_key(g, sym),
        rule_of(g, sym).len() > 0,
        forall|k: int| 0 <= k < rule_of(g, sym).len() ==> expansion_expandable(g, #[trigger] rule_of(g, sym)[k]),
{
    assert(reachable(g, sym).contains(sym));
    assert forall|k: int| 0 <= k < rule_of(g, sym).len() implies expansion_expandable(g, #[trigger] rule_of(g, sym)[k]) by {
        let toks = tokens(Pattern::Nonterminal, exp_text(rule_of(g, sym)[k]));
        assert forall|t: int| 0 <= t < toks.len() implies expandable(g, #[trigger] toks[t]) by {
            let n = toks[t];
            assert forall|y: Seq<char>| #[trigger] reachable(g, n).contains(y) implies has_key(g, y) && rule_of(g, y).len() > 0 by {
                assert forall|s: Set<Seq<char>>| #[trigger] closed(g, s) && s.contains(sym) implies s.contains(y) by {
                    assert(s.contains(tokens(Pattern::Nonterminal, exp_text(rule_of(g, sym)[k]))[t]));
                    assert(closed(g, s) && s.contains(n) ==> s.contains(y));
                }
                assert(reachable(g, sym).contains(y));
            }
        }
    }
}

/// In a fuzzable grammar every defined name is expandable.
pub proof fn lemma_fuzzable_expandable(g: GrammarV, sym: Seq<char>)
    requires
        fuzzable(g),
        has_key(g, sym),
    ensures
        expandable(g, sym),
{
    let ks = key_set(g);
    assert(closed(g, ks)) by {
        assert forall|x: Seq<char>, k: int, t: int|
            #![trigger ks.contains(x), tokens(Pattern::Nonterminal, exp_text(rule_of(g, x)[k]))[t]]
            ks.contains(x) && has_key(g, x) && 0 <= k < rule_of(g, x).len() && 0 <= t < tokens(
                Pattern::Nonterminal,
                exp_text(rule_of(g, x)[k]),
            ).len() implies ks.contains(tokens(Pattern::Nonterminal, exp_text(rule_of(g, x)[k]))[t]) by {
            lemma_rule_of(g, x);
            assert(expansion_closed(g, rule_of(g, x)[k]));
        }
    }
    assert forall|y: Seq<char>| #[trigger] reachable(g, sym).contains(y) implies has_key(g, y) && rule_of(g, y).len() > 0 by {
        assert(closed(g, ks) && ks.contains(sym) ==> ks.contains(y));
        lemma_rule_of(g, y);
    }
}

/// Costing a text whose nonterminals are all expandable looks up only defined
/// names with non-empty rules, whatever is being expanded and memoised.
pub proof fn lemma_expansion_cost_ok(g: GrammarV, text: Seq<char>, seen: Seq<Seq<char>>, cache: CostCacheV)
    requires
        forall|t: int|
            0 <= t < tokens(Pattern::Nonterminal, text).len() ==> expandable(
                g,
                #[trigger] tokens(Pattern::Nonterminal, text)[t],
            ),
    ensures
        expansion_cost_ok(g, text, seen, cache),
    decreases unseen(g, seen), 3int, 0int,
{
    if cache_get(cache, text) is None {
        let syms = tokens(Pattern::Nonterminal, text);
        if !(syms.len() == 0 || any_seen(syms, seen)) {
            lemma_sum_costs_ok_from(g, syms, syms.len() as int, seen, cache);
        }
    }
}

proof fn lemma_sum_costs_ok_from(g: GrammarV, syms: Seq<Seq<char>>, n: int, seen: Seq<Seq<char>>, cache: CostCacheV)
    requires
        0 <= n <= syms.len(),
        forall|t: int| 0 <= t < syms.len() ==> expandable(g, #[trigger] syms[t]),
        !any_seen(syms, seen),
    ensures
        sum_costs_ok(g, syms, n, seen, cache),
    decreases unseen(g, seen), 2int, n,
{
    if n > 0 {
        lemma_sum_costs_ok_from(g, syms, n - 1, seen, cache);
        let s = syms[n - 1];
        assert(expandable(g, s));
        lemma_expandable(g, s);
        assert(!seen.contains(s));
        lemma_unseen_push(g, seen, s, g.len() as int);
        lemma_symbol_cost_ok(g, s, seen, sum_costs_spec(g, syms, n - 1, seen, cache).1);
    }
}

/// Costing an expandable symbol looks up only defined names with non-empty rules.
pub proof fn lemma_symbol_cost_ok(g: GrammarV, sym: Seq<char>, seen: Seq<Seq<char>>, cache: CostCacheV)
    requires
        expandable(g, sym),
    ensures
        symbol_cost_ok(g, sym, seen, cache),
    decreases unseen(g, seen.push(sym)), 5int, 0int,
{
    lemma_expandable(g, sym);
    let exps = rule_of(g, sym);
    lemma_min_costs_ok_from(g, exps, exps.len() as int, seen.push(sym), cache);
}

proof fn lemma_min_costs_ok_from(g: GrammarV, exps: Seq<ExpansionV>, n: int, seen: Seq<Seq<char>>, cache: CostCacheV)
    requires
        1 <= n <= exps.len(),
        forall|k: int| 0 <= k < exps.len() ==> expansion_expandable(g, #[trigger] exps[k]),
    ensures
        min_costs_ok(g, exps, n, seen, cache),
    decreases unseen(g, seen), 4int, n,
{
    assert(expansion_expandable(g, exps[n - 1]));
    if n <= 1 {
        lemma_expansion_cost_ok(g, exp_text(exps[0]), seen, cache);
    } else {
        lemma_min_costs_ok_from(g, exps, n - 1, seen, cache);
        lemma_expansion_cost_ok(g, exp_text(exps[n - 1]), seen, min_costs_spec(g, exps, n - 1, seen, cache).1);
    }
}

/// The fuzzer can cost the expansions of an expandable symbol.
pub proof fn lemma_costs_defined(g: GrammarV, sym: Seq<char>)
    requires
        expandable(g, sym),
    ensures
        costs_defined(g, sym),
{
    lemma_expandable(g, sym);
    assert forall|i: int| 0 <= i < rule_of(g, sym).len() implies #[trigger] expansion_cost_ok(
        g,
        exp_text(rule_of(g, sym)[i]),
        seq![sym],
        Seq::empty(),
    ) by {
        assert(expansion_expandable(g, rule_of(g, sym)[i]));
        lemma_expansion_cost_ok(g, exp_text(rule_of(g, sym)[i]), seq![sym], Seq::empty());
    }
}

/// Every nonterminal that `e` uses names a rule, and so does every open node it gives.
pub open spec fn expansion_closed(g: GrammarV, e: ExpansionV) -> bool {
    &&& forall|t: int|
        0 <= t < tokens(Pattern::Nonterminal, exp_text(e)).len() ==> has_key(
            g,
            #[trigger] tokens(Pattern::Nonterminal, exp_text(e))[t],
        )
    &&& forall|t: int|
        0 <= t < children_of(exp_text(e)).len() && (#[trigger] children_of(exp_text(e))[t]).children
            is None ==> has_key(g, children_of(exp_text(e))[t].symbol)
}

/// A closed grammar: no name is defined twice, no rule is empty, and every expansion
/// is closed. The fuzzer can expand every name such a grammar defines (see
/// `lemma_fuzzable_expandable`); it asks for less, only `expandable`.
pub open spec fn fuzzable(g: GrammarV) -> bool {
    &&& crate::grammar::keys_distinct(g)
    &&& crate::grammar::validity::no_empty_rule(g)
    &&& forall|j: int, k: int| 0 <= j < g.len() && 0 <= k < g[j].1.len() ==> expansion_closed(g, #[trigger] g[j].1[k])
}

/// The rule of a defined name, and what fuzzability says of it.
pub proof fn lemma_rule_of(g: GrammarV, sym: Seq<char>)
    requires
        fuzzable(g),
        has_key(g, sym),
    ensures
        rule_of(g, sym).len() > 0,
        forall|k: int| 0 <= k < rule_of(g, sym).len() ==> expansion_closed(g, #[trigger] rule_of(g, sym)[k]),
{
    lemma_key_index(g, sym);
    let j = key_index(g, sym);
    assert(g[j].1.len() > 0);
    assert forall|k: int| 0 <= k < rule_of(g, sym).len() implies expansion_closed(g, #[trigger] rule_of(g, sym)[k]) by {
        assert(rule_of(g, sym)[k] == g[j].1[k]);
    }
}

/// The memoised cost for `k`, if any.
fn cache_lookup(cache: &Vec<(String, Cost)>, k: &str) -> (r: Option<Cost>)
    ensures
        r == cache_get(cache.deep_view(), k@),
{
    let ghost c = cache.deep_view();
    proof {
        lemma_cache_index_from(c, k@, 0);
    }
    let mut i: usize = 0;
    while i < cache.len()
        invariant
            c == cache.deep_view(),
            i <= cache.len(),
            cache_index_from(c, k@, 0) == cache_index_from(c, k@, i as int),
        decreases cache.len() - i,
    {
        assert(c[i as int] == (cache@[i as int].0@, cache@[i as int].1));
        if str_eq(cache[i].0.as_str(), k) {
            return Some(cache[i].1);
        }
        i = i + 1;
    }
    None
}

/// Memoises `v` under `k`.
fn cache_store(cache: &mut Vec<(String, Cost)>, k: String, v: Cost)
    ensures
        final(cache).deep_view() == cache_put(old(cache).deep_view(), k@, v),
{
    let ghost c = cache.deep_view();
    let ghost kv = k@;
    proof {
        lemma_cache_index_from(c, k@, 0);
    }
    let mut i: usize = 0;
    while i < cache.len()
        invariant
            c == cache.deep_view(),
            c == old(cache).deep_view(),
            kv == k@,
            i <= cache.len(),
            cache_index_from(c, k@, 0) == cache_index_from(c, k@, i as int),
        decreases cache.len() - i,
    {
        assert(c[i as int] == (cache@[i as int].0@, cache@[i as int].1));
        if str_eq(cache[i].0.as_str(), k.as_str()) {
            let ghost before = cache@;
            cache.set(i, (k, v));
            proof {
                lemma_deep_view_update(before, cache@, i as int, cache@[i as int]);
            }
            assert(cache.deep_view() =~= cache_put(c, kv, v));
            return;
        }
        i = i + 1;
    }
    let ghost before = cache@;
    cache.push((k, v));
    proof {
        lemma_deep_view_push(before, cache@, cache@.last());
    }
    assert(cache.deep_view() =~= cache_put(c, kv, v));
}

/// Whether one of `syms` is in `seen`.
fn any_in(syms: &Vec<String>, seen: &Vec<String>) -> (r: bool)
    ensures
        r == any_seen(syms.deep_view(), seen.deep_view()),
{
    let mut i: usize = 0;
    while i < syms.len()
        invariant
            i <= syms.len(),
            forall|k: int| 0 <= k < i ==> !seen.deep_view().contains(#[trigger] syms.deep_view()[k]),
        decreases syms.len() - i,
    {
        assert(syms.deep_view()[i as int] == syms@[i as int]@);
        if contains_str(seen, syms[i].as_str()) {
            assert(0 <= i < syms.deep_view().len() && seen.deep_view().contains(syms.deep_view()[i as int]));
            return true;
        }
        i = i + 1;
    }
    false
}

/// The cost of `symbol` in `grammar` while the symbols in `seen` are being expanded
/// (see `symbol_cost_spec`), memoising in `cache`.
pub fn symbol_cost_in(
    grammar: &Grammar,
    symbol: &String,
    seen: &Vec<String>,
    cache: &mut Vec<(String, Cost)>,
) -> (r: Cost)
    requires
        symbol_cost_ok(grammar@, symbol@, seen.deep_view(), old(cache).deep_view()),
    ensures
        (r, final(cache).deep_view()) == symbol_cost_spec(
            grammar@,
            symbol@,
            seen.deep_view(),
            old(cache).deep_view(),
        ),
    decreases unseen(grammar@, seen.deep_view().push(symbol@)), 1int,
{
    let ghost g = grammar@;
    let ghost c0 = cache.deep_view();
    let exps = match grammar.get(symbol.as_str()) {
        Some(v) => v,
        None => return Cost::Infinite,
    };
    let mut seen2 = copy_strings(seen);
    let ghost before = seen2@;
    seen2.push(symbol.clone());
    proof {
        lemma_deep_view_push(before, seen2@, seen2@.last());
    }
    let ghost s2 = seen.deep_view().push(symbol@);
    assert(seen2.deep_view() == s2);
    let ghost ev = exps.deep_view();
    assert(ev == rule_of(g, symbol@));
    assert(exps@[0].deep_view() == ev[0]);
    proof {
        lemma_min_costs_ok(g, ev, ev.len() as int, s2, c0);
    }
    let mut m = expansion_cost_in(grammar, &exps[0], copy_strings(&seen2), cache);
    let mut j: usize = 1;
    while j < exps.len()
        invariant
            g == grammar@,
            ev == exps.deep_view(),
            ev == rule_of(g, symbol@),
            ev.len() > 0,
            c0 == old(cache).deep_view(),
            forall|k: int|
                1 <= k < ev.len() ==> expansion_cost_ok(
                    g,
                    exp_text(ev[k]),
                    s2,
                    #[trigger] min_costs_spec(g, ev, k, s2, c0).1,
                ),
            seen2.deep_view() == s2,
            s2 == seen.deep_view().push(symbol@),
            1 <= j <= exps.len(),
            (m, cache.deep_view()) == min_costs_spec(g, ev, j as int, s2, old(cache).deep_view()),
        decreases exps.len() - j,
    {
        assert(exps@[j as int].deep_view() == ev[j as int]);
        assert(cache.deep_view() == min_costs_spec(g, ev, j as int, s2, c0).1);
        assert(expansion_cost_ok(g, exp_text(ev[j as int]), s2, min_costs_spec(g, ev, j as int, s2, c0).1));
        let x = expansion_cost_in(grammar, &exps[j], copy_strings(&seen2), cache);
        m = pick_cost(CostChoice::Min, m, x);
        j = j + 1;
    }
    m
}

/// The cost of `expansion` in `grammar` while the symbols in `seen` are being
/// expanded (see `expansion_cost_spec`), memoising in `cache`.
#[verifier::spinoff_prover]
pub fn expansion_cost_in(
    grammar: &Grammar,
    expansion: &Expansion,
    seen: Vec<String>,
    cache: &mut Vec<(String, Cost)>,
) -> (r: Cost)
    requires
        expansion_cost_ok(grammar@, exp_text(expansion.deep_view()), seen.deep_view(), old(cache).deep_view()),
    ensures
        (r, final(cache).deep_view()) == expansion_cost_spec(
            grammar@,
            exp_text(expansion.deep_view()),
            seen.deep_view(),
            old(cache).deep_view(),
        ),
    decreases unseen(grammar@, seen.deep_view()), 0int,
{
    let ghost g = grammar@;
    let ghost sv = seen.deep_view();
    let exp_str = exp_string(expansion);
    match cache_lookup(cache, exp_str.as_str()) {
        Some(c) => c,
        None => {
            let symbols = nonterminals(expansion);
            let ghost syms = symbols.deep_view();
            let res = if symbols.len() == 0 {
                Cost::Finite(1)
            } else if any_in(&symbols, &seen) {
                Cost::Infinite
            } else {
                let ghost c0 = cache.deep_view();
                proof {
                    lemma_sum_costs_ok(g, syms, syms.len() as int, sv, c0);
                }
                let mut acc = Cost::Finite(0);
                let mut i: usize = 0;
                while i < symbols.len()
                    invariant
                        g == grammar@,
                        forall|k: int| 0 <= k < syms.len() ==> #[trigger] sum_entry_ok(g, syms, k, sv, c0),
                        syms == symbols.deep_view(),
                        syms == tokens(Pattern::Nonterminal, exp_text(expansion.deep_view())),
                        sv == seen.deep_view(),
                        !any_seen(syms, sv),
                        i <= symbols.len(),
                        (acc, cache.deep_view()) == sum_costs_spec(g, syms, i as int, sv, c0),
                    decreases symbols.len() - i,
                {
                    assert(syms[i as int] == symbols@[i as int]@);
                    assert(sum_entry_ok(g, syms, i as int, sv, c0));
                    proof {
                        lemma_unseen_push(g, sv, syms[i as int], g.len() as int);
                    }
                    let x = symbol_cost_in(grammar, &symbols[i], &seen, cache);
                    acc = add_costs(acc, x);
                    i = i + 1;
                }
                add_costs(acc, Cost::Finite(1))
            };
            cache_store(cache, exp_str, res);
            res
        },
    }
}

/// Whether every nonterminal `expansion` uses, and every open node it gives, names a
/// rule of `grammar`.
fn is_expansion_closed(grammar: &Grammar, expansion: &Expansion) -> (r: bool)
    ensures
        r == expansion_closed(grammar@, expansion.deep_view()),
{
    let ghost g = grammar@;
    let ghost text = exp_text(expansion.deep_view());
    let symbols = nonterminals(expansion);
    let mut i: usize = 0;
    while i < symbols.len()
        invariant
            g == grammar@,
            text == exp_text(expansion.deep_view()),
            symbols.deep_view() == tokens(Pattern::Nonterminal, text),
            i <= symbols.len(),
            forall|t: int| 0 <= t < i ==> has_key(g, #[trigger] tokens(Pattern::Nonterminal, text)[t]),
        decreases symbols.len() - i,
    {
        assert(symbols.deep_view()[i as int] == symbols@[i as int]@);
        if !grammar.contains_key(symbols[i].as_str()) {
            assert(!has_key(g, tokens(Pattern::Nonterminal, text)[i as int]));
            return false;
        }
        i = i + 1;
    }
    let children = expansion_to_children(expansion);
    proof {
        lemma_views_of(children@);
    }
    let ghost cv = views_of(children@);
    let mut k: usize = 0;
    while k < children.len()
        invariant
            g == grammar@,
            text == exp_text(expansion.deep_view()),
            cv == children_of(text),
            cv.len() == children@.len(),
            forall|t: int| 0 <= t < children@.len() ==> #[trigger] cv[t] == children@[t]@,
            forall|t: int| 0 <= t < tokens(Pattern::Nonterminal, text).len() ==> has_key(g, #[trigger] tokens(Pattern::Nonterminal, text)[t]),
            k <= children.len(),
            forall|t: int| 0 <= t < k && (#[trigger] cv[t]).children is None ==> has_key(g, cv[t].symbol),
        decreases children.len() - k,
    {
        assert(cv[k as int] == children@[k as int]@);
        if children[k].children.is_none() && !grammar.contains_key(children[k].symbol.as_str()) {
            assert(cv[k as int].children is None && !has_key(g, cv[k as int].symbol));
            return false;
        }
        k = k + 1;
    }
    true
}

/// Whether `grammar` is closed (see `fuzzable`).
#[verifier::spinoff_prover]
pub fn is_fuzzable(grammar: &Grammar) -> (r: bool)
    ensures
        r == fuzzable(grammar@),
{
    let ghost g = grammar@;
    let n = grammar.rules.len();
    let mut a: usize = 0;
    while a < n
        invariant
            g == grammar@,
            n == g.len(),
            a <= n,
            forall|x: int, y: int| 0 <= x < a && 0 <= y < n && x != y ==> g[x].0 != g[y].0,
        decreases n - a,
    {
        let mut b: usize = 0;
        while b < n
            invariant
                g == grammar@,
                n == g.len(),
                a < n,
                b <= n,
                forall|x: int, y: int| 0 <= x < a && 0 <= y < n && x != y ==> g[x].0 != g[y].0,
                forall|y: int| 0 <= y < b && a != y ==> g[a as int].0 != g[y].0,
            decreases n - b,
        {
            assert(grammar.rules@[a as int].0@ == g[a as int].0);
            assert(grammar.rules@[b as int].0@ == g[b as int].0);
            if a != b && str_eq(grammar.rules[a].0.as_str(), grammar.rules[b].0.as_str()) {
                assert(g[a as int].0 == g[b as int].0);
                assert(!crate::grammar::keys_distinct(g));
                return false;
            }
            b = b + 1;
        }
        a = a + 1;
    }
    let mut j: usize = 0;
    while j < n
        invariant
            g == grammar@,
            n == g.len(),
            crate::grammar::keys_distinct(g),
            j <= n,
            forall|x: int| 0 <= x < j ==> #[trigger] g[x].1.len() > 0,
            forall|x: int, k: int| 0 <= x < j && 0 <= k < g[x].1.len() ==> expansion_closed(g, #[trigger] g[x].1[k]),
        decreases n - j,
    {
        let exps = &grammar.rules[j].1;
        assert(exps.deep_view() == g[j as int].1);
        if exps.len() == 0 {
            assert(g[j as int].1.len() == 0);
            assert(!crate::grammar::validity::no_empty_rule(g));
            return false;
        }
        let mut k: usize = 0;
        while k < exps.len()
            invariant
                g == grammar@,
                n == g.len(),
                j < n,
                exps.deep_view() == g[j as int].1,
                k <= exps.len(),
                forall|x: int, t: int| 0 <= x < j && 0 <= t < g[x].1.len() ==> expansion_closed(g, #[trigger] g[x].1[t]),
                forall|t: int| 0 <= t < k ==> expansion_closed(g, #[trigger] g[j as int].1[t]),
            decreases exps.len() - k,
        {
            assert(exps@[k as int].deep_view() == g[j as int].1[k as int]);
            if !is_expansion_closed(grammar, &exps[k]) {
                return false;
            }
            k = k + 1;
        }
        assert forall|x: int, t: int| 0 <= x < j + 1 && 0 <= t < g[x].1.len() implies expansion_closed(g, #[trigger] g[x].1[t]) by {
            if x == j {
            }
        }
        j = j + 1;
    }
    true
}

/// Whether the fuzzer can expand `symbol` in `grammar` (see `expandable`).
pub fn is_expandable(grammar: &Grammar, symbol: &str) -> (r: bool)
    requires
        grammar.wf(),
    ensures
        r == expandable(grammar@, symbol@),
{
    let ghost g = grammar@;
    let reach = reachable_nonterminals(grammar, symbol);
    let ghost rv = reach.deep_view();
    assert(names(rv) == reachable(g, symbol@));
    let mut i: usize = 0;
    while i < reach.len()
        invariant
            g == grammar@,
            rv == reach.deep_view(),
            names(rv) == reachable(g, symbol@),
            i <= reach.len(),
            forall|k: int| 0 <= k < i ==> has_key(g, #[trigger] rv[k]) && rule_of(g, rv[k]).len() > 0,
        decreases reach.len() - i,
    {
        assert(rv[i as int] == reach@[i as int]@);
        assert(reachable(g, symbol@).contains(rv[i as int])) by {
            assert(rv.to_set().contains(rv[i as int]));
        }
        match grammar.get(reach[i].as_str()) {
            None => {
                return false;
            },
            Some(v) => {
                if v.len() == 0 {
                    assert(v.deep_view().len() == 0);
                    return false;
                }
                assert(v.deep_view().len() == v@.len());
            },
        }
        i = i + 1;
    }
    assert forall|x: Seq<char>| #[trigger] reachable(g, symbol@).contains(x) implies has_key(g, x) && rule_of(g, x).len() > 0 by {
        assert(rv.to_set().contains(x));
        let k = choose|k: int| 0 <= k < rv.len() && rv[k] == x;
        assert(has_key(g, rv[k]));
    }
    true
}

} // verus!
