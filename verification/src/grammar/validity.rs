//! Which nonterminals a grammar defines, uses and reaches, and whether it is valid.
use vstd::prelude::*;
use crate::text::str_eq;
use crate::text::owned;
use crate::text::lemma_deep_view_push;
use super::Grammar;
use super::GrammarV;
use super::Expansion;
use super::has_key;
use super::key_set;
use super::rule_of;
use super::lemma_key_index;
use super::lemma_key_index_at;
use super::keys_distinct;
use super::copy_expansions;
use super::pattern::Pattern;
use super::pattern::tokens;
use super::options::exp_text;
use super::options::OptsV;
use super::options::exp_options;
use super::options::opt_names;
use crate::text_order::sort_strings;
use crate::text_order::texts_sorted;

verus! {

/// Whether `x` is the name of a nonterminal used in some expansion of `g`.
pub open spec fn used_in(g: GrammarV, x: Seq<char>) -> bool {
    exists|j: int, k: int|
        0 <= j < g.len() && 0 <= k < g[j].1.len() && #[trigger] tokens(
            Pattern::Nonterminal,
            exp_text(g[j].1[k]),
        ).contains(x)
}

/// The nonterminals used by `g`, together with the start symbol.
pub open spec fn used_set(g: GrammarV, start: Seq<char>) -> Set<Seq<char>> {
    Set::new(|x: Seq<char>| x == start || used_in(g, x))
}

/// Every rule of `g` has at least one expansion.
pub open spec fn no_empty_rule(g: GrammarV) -> bool {
    forall|j: int| 0 <= j < g.len() ==> #[trigger] g[j].1.len() > 0
}

/// A set of names that holds every nonterminal used by the rule of each of its
/// names that `g` defines.
pub open spec fn closed(g: GrammarV, s: Set<Seq<char>>) -> bool {
    forall|x: Seq<char>, k: int, t: int|
        #![trigger s.contains(x), tokens(Pattern::Nonterminal, exp_text(rule_of(g, x)[k]))[t]]
        s.contains(x) && has_key(g, x) && 0 <= k < rule_of(g, x).len() && 0 <= t < tokens(
            Pattern::Nonterminal,
            exp_text(rule_of(g, x)[k]),
        ).len() ==> s.contains(tokens(Pattern::Nonterminal, exp_text(rule_of(g, x)[k]))[t])
}

/// The nonterminals reachable from `start`: those in every closed set holding `start`.
pub open spec fn reachable(g: GrammarV, start: Seq<char>) -> Set<Seq<char>> {
    Set::new(
        |x: Seq<char>|
            forall|s: Set<Seq<char>>| #[trigger] closed(g, s) && s.contains(start) ==> s.contains(x),
    )
}

/// The distinct strings of `v` as a set.
pub open spec fn names(v: Seq<Seq<char>>) -> Set<Seq<char>> {
    v.to_set()
}

/// What a sequence holds after a push.
pub proof fn lemma_push_contains<A>(s: Seq<A>, v: A)
    ensures
        forall|x: A| #[trigger] s.push(v).contains(x) <==> (s.contains(x) || x == v),
{
    assert forall|x: A| #[trigger] s.push(v).contains(x) <==> (s.contains(x) || x == v) by {
        if s.contains(x) {
            let i = choose|i: int| 0 <= i < s.len() && s[i] == x;
            assert(s.push(v)[i] == x);
        }
        if x == v {
            assert(s.push(v)[s.len() as int] == x);
        }
        if s.push(v).contains(x) {
            let i = choose|i: int| 0 <= i < s.len() + 1 && s.push(v)[i] == x;
            if i < s.len() {
                assert(s[i] == x);
            }
        }
    }
}

/// Whether `v` holds `x`.
pub(crate) fn contains_str(v: &Vec<String>, x: &str) -> (r: bool)
    ensures
        r == v.deep_view().contains(x@),
{
    let mut i: usize = 0;
    while i < v.len()
        invariant
            i <= v.len(),
            forall|k: int| 0 <= k < i ==> v.deep_view()[k] != x@,
        decreases v.len() - i,
    {
        if str_eq(v[i].as_str(), x) {
            assert(v.deep_view()[i as int] == x@);
            return true;
        }
        i = i + 1;
    }
    false
}

/// Appends `x` to `v` unless `v` already holds it.
fn push_new(v: &mut Vec<String>, x: String)
    requires
        old(v).deep_view().no_duplicates(),
    ensures
        final(v).deep_view().no_duplicates(),
        old(v).deep_view().contains(x@) ==> final(v).deep_view() == old(v).deep_view(),
        !old(v).deep_view().contains(x@) ==> final(v).deep_view() == old(v).deep_view().push(x@),
{
    if !contains_str(v, x.as_str()) {
        let ghost before = v@;
        let ghost xv = x@;
        v.push(x);
        proof {
            lemma_deep_view_push(before, v@, v@.last());
        }
    }
}

/// The names that `grammar` defines and the nonterminals it uses together with
/// `start_symbol`, each once and in increasing order; `None` when some rule has no
/// expansion.
pub fn def_used_nonterminals(grammar: &Grammar, start_symbol: &str) -> (r: Option<(Vec<String>, Vec<String>)>)
    requires
        grammar.wf(),
    ensures
        r is None <==> !no_empty_rule(grammar@),
        r matches Some((d, u)) ==> d.deep_view().no_duplicates() && u.deep_view().no_duplicates()
            && names(d.deep_view()) == key_set(grammar@) && names(u.deep_view()) == used_set(grammar@, start_symbol@)
            && texts_sorted(d.deep_view()) && texts_sorted(u.deep_view()),
{
    let ghost g = grammar@;
    let mut defined: Vec<String> = Vec::new();
    let mut used: Vec<String> = Vec::new();
    used.push(owned(start_symbol));
    assert(used.deep_view() =~= seq![start_symbol@]);
    proof {
        lemma_push_contains(Seq::<Seq<char>>::empty(), start_symbol@);
        assert(Seq::<Seq<char>>::empty().push(start_symbol@) =~= seq![start_symbol@]);
    }
    let mut j: usize = 0;
    while j < grammar.rules.len()
        invariant
            g == grammar@,
            j <= g.len(),
            defined.deep_view() =~= g.take(j as int).map_values(|rule: (Seq<char>, Seq<super::ExpansionV>)| rule.0),
            used.deep_view().no_duplicates(),
            forall|k: int| 0 <= k < j ==> #[trigger] g[k].1.len() > 0,
            forall|x: Seq<char>| #[trigger] used.deep_view().contains(x) <==> (x == start_symbol@
                || exists|a: int, b: int| 0 <= a < j && 0 <= b < g[a].1.len() && #[trigger] tokens(
                Pattern::Nonterminal,
                exp_text(g[a].1[b]),
            ).contains(x)),
        decreases g.len() - j,
    {
        let ghost before = defined@;
        defined.push(grammar.rules[j].0.clone());
        proof {
            lemma_deep_view_push(before, defined@, defined@.last());
            assert(g.take(j + 1) =~= g.take(j as int).push(g[j as int]));
        }
        let expansions = &grammar.rules[j].1;
        assert(expansions.deep_view() == g[j as int].1);
        if expansions.len() == 0 {
            return None;
        }
        let mut k: usize = 0;
        while k < expansions.len()
            invariant
                g == grammar@,
                j < g.len(),
                expansions.deep_view() == g[j as int].1,
                k <= expansions.len(),
                used.deep_view().no_duplicates(),
                forall|x: Seq<char>| #[trigger] used.deep_view().contains(x) <==> (x == start_symbol@
                    || (exists|a: int, b: int| 0 <= a < j && 0 <= b < g[a].1.len() && #[trigger] tokens(
                    Pattern::Nonterminal,
                    exp_text(g[a].1[b]),
                ).contains(x)) || (exists|b: int| 0 <= b < k && #[trigger] tokens(
                    Pattern::Nonterminal,
                    exp_text(g[j as int].1[b]),
                ).contains(x))),
            decreases expansions.len() - k,
        {
            let nts = super::nonterminals(&expansions[k]);
            let ghost toks = tokens(Pattern::Nonterminal, exp_text(g[j as int].1[k as int]));
            assert(expansions@[k as int].deep_view() == g[j as int].1[k as int]);
            let mut t: usize = 0;
            while t < nts.len()
                invariant
                    g == grammar@,
                    j < g.len(),
                    k < g[j as int].1.len(),
                    nts.deep_view() == toks,
                    t <= nts.len(),
                    used.deep_view().no_duplicates(),
                    forall|x: Seq<char>| #[trigger] used.deep_view().contains(x) <==> (x == start_symbol@
                        || (exists|a: int, b: int| 0 <= a < j && 0 <= b < g[a].1.len() && #[trigger] tokens(
                        Pattern::Nonterminal,
                        exp_text(g[a].1[b]),
                    ).contains(x)) || (exists|b: int| 0 <= b < k && #[trigger] tokens(
                        Pattern::Nonterminal,
                        exp_text(g[j as int].1[b]),
                    ).contains(x)) || toks.take(t as int).contains(x)),
                decreases nts.len() - t,
            {
                assert(nts@[t as int]@ == toks[t as int]);
                let ghost xv = toks[t as int];
                let ghost before = used.deep_view();
                push_new(&mut used, nts[t].clone());
                proof {
                    assert(toks.take(t + 1) =~= toks.take(t as int).push(xv));
                    lemma_push_contains(toks.take(t as int), xv);
                    lemma_push_contains(before, xv);
                }
                t = t + 1;
            }
            proof {
                assert(toks.take(t as int) =~= toks);
                assert forall|x: Seq<char>| #[trigger] used.deep_view().contains(x) <==> (x == start_symbol@
                    || (exists|a: int, b: int| 0 <= a < j && 0 <= b < g[a].1.len() && #[trigger] tokens(
                    Pattern::Nonterminal,
                    exp_text(g[a].1[b]),
                ).contains(x)) || (exists|b: int| 0 <= b < k + 1 && #[trigger] tokens(
                    Pattern::Nonterminal,
                    exp_text(g[j as int].1[b]),
                ).contains(x))) by {
                    if exists|b: int| 0 <= b < k + 1 && #[trigger] tokens(Pattern::Nonterminal, exp_text(g[j as int].1[b])).contains(x) {
                        let b = choose|b: int| 0 <= b < k + 1 && #[trigger] tokens(Pattern::Nonterminal, exp_text(g[j as int].1[b])).contains(x);
                        if b == k {
                            assert(toks.contains(x));
                        }
                    }
                }
            }
            k = k + 1;
        }
        proof {
            assert forall|x: Seq<char>| #[trigger] used.deep_view().contains(x) <==> (x == start_symbol@
                || exists|a: int, b: int| 0 <= a < j + 1 && 0 <= b < g[a].1.len() && #[trigger] tokens(
                Pattern::Nonterminal,
                exp_text(g[a].1[b]),
            ).contains(x)) by {
                if exists|a: int, b: int| 0 <= a < j + 1 && 0 <= b < g[a].1.len() && #[trigger] tokens(Pattern::Nonterminal, exp_text(g[a].1[b])).contains(x) {
                    let (a, b) = choose|a: int, b: int| 0 <= a < j + 1 && 0 <= b < g[a].1.len() && #[trigger] tokens(Pattern::Nonterminal, exp_text(g[a].1[b])).contains(x);
                    if a == j {
                        assert(exists|b: int| 0 <= b < k && #[trigger] tokens(Pattern::Nonterminal, exp_text(g[j as int].1[b])).contains(x));
                    }
                }
            }
        }
        j = j + 1;
    }
    proof {
        assert(g.take(j as int) =~= g);
        let dv = defined.deep_view();
        assert(dv.no_duplicates()) by {
            assert forall|a: int, b: int| 0 <= a < dv.len() && 0 <= b < dv.len() && a != b implies dv[a] != dv[b] by {
                assert(dv[a] == g[a].0);
                assert(dv[b] == g[b].0);
            }
        }
        assert(names(dv) =~= key_set(g)) by {
            assert forall|x: Seq<char>| names(dv).contains(x) <==> key_set(g).contains(x) by {
                lemma_key_index(g, x);
                if names(dv).contains(x) {
                    let a = choose|a: int| 0 <= a < dv.len() && dv[a] == x;
                    assert(g[a].0 == x);
                }
                if has_key(g, x) {
                    let a = choose|a: int| 0 <= a < g.len() && g[a].0 == x;
                    assert(dv[a] == x);
                }
            }
        }
        assert(names(used.deep_view()) =~= used_set(g, start_symbol@));
    }
    Some((sort_strings(&defined), sort_strings(&used)))
}


/// A sequence without repetition whose elements all occur in `u` is no longer than `u`.
pub proof fn lemma_distinct_within<A>(r: Seq<A>, u: Seq<A>)
    requires
        r.no_duplicates(),
        forall|x: A| #[trigger] r.contains(x) ==> u.contains(x),
    ensures
        r.len() <= u.len(),
{
    broadcast use vstd::seq_lib::seq_to_set_is_finite;
    r.unique_seq_to_set();
    u.lemma_cardinality_of_set();
    assert(r.to_set().subset_of(u.to_set())) by {
        assert forall|x: A| r.to_set().contains(x) implies u.to_set().contains(x) by {
            assert(r.contains(x));
        }
    }
    vstd::set_lib::lemma_len_subset(r.to_set(), u.to_set());
}

/// Every nonterminal used in `g`, in order, after `start` (with repetitions).
fn universe(grammar: &Grammar, start_symbol: &str) -> (u: Vec<String>)
    ensures
        u.deep_view().contains(start_symbol@),
        forall|x: Seq<char>| used_in(grammar@, x) ==> #[trigger] u.deep_view().contains(x),
{
    let ghost g = grammar@;
    let mut u: Vec<String> = Vec::new();
    u.push(owned(start_symbol));
    assert(u.deep_view()[0] == start_symbol@);
    let mut j: usize = 0;
    while j < grammar.rules.len()
        invariant
            g == grammar@,
            j <= g.len(),
            u.deep_view().contains(start_symbol@),
            forall|a: int, b: int, x: Seq<char>|
                0 <= a < j && 0 <= b < g[a].1.len() && #[trigger] tokens(Pattern::Nonterminal, exp_text(g[a].1[b])).contains(x)
                ==> #[trigger] u.deep_view().contains(x),
        decreases g.len() - j,
    {
        let expansions = &grammar.rules[j].1;
        assert(expansions.deep_view() == g[j as int].1);
        let mut k: usize = 0;
        while k < expansions.len()
            invariant
                g == grammar@,
                j < g.len(),
                expansions.deep_view() == g[j as int].1,
                k <= expansions.len(),
                u.deep_view().contains(start_symbol@),
                forall|a: int, b: int, x: Seq<char>|
                    ((0 <= a < j && 0 <= b < g[a].1.len()) || (a == j && 0 <= b < k)) && #[trigger] tokens(Pattern::Nonterminal, exp_text(g[a].1[b])).contains(x)
                    ==> #[trigger] u.deep_view().contains(x),
            decreases expansions.len() - k,
        {
            let nts = super::nonterminals(&expansions[k]);
            let ghost toks = tokens(Pattern::Nonterminal, exp_text(g[j as int].1[k as int]));
            assert(expansions@[k as int].deep_view() == g[j as int].1[k as int]);
            let mut t: usize = 0;
            while t < nts.len()
                invariant
                    g == grammar@,
                    j < g.len(),
                    k < g[j as int].1.len(),
                    nts.deep_view() == toks,
                    t <= nts.len(),
                    u.deep_view().contains(start_symbol@),
                    forall|a: int, b: int, x: Seq<char>|
                        ((0 <= a < j && 0 <= b < g[a].1.len()) || (a == j && 0 <= b < k)) && #[trigger] tokens(Pattern::Nonterminal, exp_text(g[a].1[b])).contains(x)
                        ==> #[trigger] u.deep_view().contains(x),
                    forall|x: Seq<char>| #[trigger] toks.take(t as int).contains(x) ==> u.deep_view().contains(x),
                decreases nts.len() - t,
            {
                assert(nts@[t as int]@ == toks[t as int]);
                let ghost before = u@;
                let ghost xv = toks[t as int];
                u.push(nts[t].clone());
                proof {
                    lemma_deep_view_push(before, u@, u@.last());
                    let bd = Seq::new(before.len(), |i: int| before[i].deep_view());
                    lemma_push_contains(bd, xv);
                    assert(toks.take(t + 1) =~= toks.take(t as int).push(xv));
                    lemma_push_contains(toks.take(t as int), xv);
                }
                t = t + 1;
            }
            proof {
                assert(toks.take(t as int) =~= toks);
            }
            k = k + 1;
        }
        j = j + 1;
    }
    u
}

/// The nonterminals reachable from `start_symbol`, each once and in increasing order.
pub fn reachable_nonterminals(grammar: &Grammar, start_symbol: &str) -> (r: Vec<String>)
    requires
        grammar.wf(),
    ensures
        r.deep_view().no_duplicates(),
        names(r.deep_view()) == reachable(grammar@, start_symbol@),
        texts_sorted(r.deep_view()),
{
    let ghost g = grammar@;
    let univ = universe(grammar, start_symbol);
    let ghost u = univ.deep_view();
    let mut found: Vec<String> = Vec::new();
    found.push(owned(start_symbol));
    assert(found.deep_view() =~= seq![start_symbol@]);
    let mut i: usize = 0;
    while i < found.len()
        invariant
            g == grammar@,
            keys_distinct(g),
            u.contains(start_symbol@),
            forall|x: Seq<char>| used_in(g, x) ==> #[trigger] u.contains(x),
            found.deep_view().no_duplicates(),
            found.deep_view().len() >= 1,
            found.deep_view()[0] == start_symbol@,
            i <= found.len(),
            forall|x: Seq<char>| #[trigger] found.deep_view().contains(x) ==> u.contains(x),
            forall|x: Seq<char>, s: Set<Seq<char>>|
                found.deep_view().contains(x) && #[trigger] closed(g, s) && s.contains(start_symbol@) ==> #[trigger] s.contains(x),
            forall|q: int, k: int, t: int|
                0 <= q < i && has_key(g, found.deep_view()[q]) && 0 <= k < rule_of(g, found.deep_view()[q]).len()
                && 0 <= t < tokens(Pattern::Nonterminal, exp_text(rule_of(g, found.deep_view()[q])[k])).len()
                ==> found.deep_view().contains(#[trigger] tokens(Pattern::Nonterminal, exp_text(rule_of(g, found.deep_view()[q])[k]))[t]),
        decreases u.len() + 1 - found.len(), found.len() - i,
    {
        proof {
            lemma_distinct_within(found.deep_view(), u);
        }
        let ghost xi = found.deep_view()[i as int];
        let ghost n0 = found.len();
        assert(found@[i as int]@ == xi);
        match grammar.index_of(found[i].as_str()) {
            None => {},
            Some(ki) => {
                let expansions = &grammar.rules[ki].1;
                assert(expansions.deep_view() == g[ki as int].1);
                assert(rule_of(g, xi) == g[ki as int].1);
                let mut k: usize = 0;
                while k < expansions.len()
                    invariant
                        g == grammar@,
                        keys_distinct(g),
                        u.contains(start_symbol@),
                        forall|x: Seq<char>| used_in(g, x) ==> #[trigger] u.contains(x),
                        has_key(g, xi),
                        ki < g.len(),
                        rule_of(g, xi) == g[ki as int].1,
                        expansions.deep_view() == g[ki as int].1,
                        k <= expansions.len(),
                        i < found.len(),
                        found.len() >= n0,
                        found.deep_view()[i as int] == xi,
                        found.deep_view().no_duplicates(),
                        found.deep_view().len() >= 1,
                        found.deep_view()[0] == start_symbol@,
                        forall|x: Seq<char>| #[trigger] found.deep_view().contains(x) ==> u.contains(x),
                        forall|x: Seq<char>, s: Set<Seq<char>>|
                            found.deep_view().contains(x) && #[trigger] closed(g, s) && s.contains(start_symbol@) ==> #[trigger] s.contains(x),
                        forall|q: int, kk: int, t: int|
                            0 <= q < i && has_key(g, found.deep_view()[q]) && 0 <= kk < rule_of(g, found.deep_view()[q]).len()
                            && 0 <= t < tokens(Pattern::Nonterminal, exp_text(rule_of(g, found.deep_view()[q])[kk])).len()
                            ==> found.deep_view().contains(#[trigger] tokens(Pattern::Nonterminal, exp_text(rule_of(g, found.deep_view()[q])[kk]))[t]),
                        forall|kk: int, t: int|
                            0 <= kk < k && 0 <= t < tokens(Pattern::Nonterminal, exp_text(g[ki as int].1[kk])).len()
                            ==> found.deep_view().contains(#[trigger] tokens(Pattern::Nonterminal, exp_text(g[ki as int].1[kk]))[t]),
                    decreases expansions.len() - k,
                {
                    let nts = super::nonterminals(&expansions[k]);
                    let ghost toks = tokens(Pattern::Nonterminal, exp_text(g[ki as int].1[k as int]));
                    assert(expansions@[k as int].deep_view() == g[ki as int].1[k as int]);
                    let mut t: usize = 0;
                    while t < nts.len()
                        invariant
                            g == grammar@,
                            keys_distinct(g),
                            u.contains(start_symbol@),
                            forall|x: Seq<char>| used_in(g, x) ==> #[trigger] u.contains(x),
                            has_key(g, xi),
                            ki < g.len(),
                            k < g[ki as int].1.len(),
                            rule_of(g, xi) == g[ki as int].1,
                            toks == tokens(Pattern::Nonterminal, exp_text(g[ki as int].1[k as int])),
                            nts.deep_view() == toks,
                            t <= nts.len(),
                            i < found.len(),
                            found.len() >= n0,
                            found.deep_view()[i as int] == xi,
                            found.deep_view().no_duplicates(),
                            found.deep_view().len() >= 1,
                            found.deep_view()[0] == start_symbol@,
                            forall|x: Seq<char>| #[trigger] found.deep_view().contains(x) ==> u.contains(x),
                            forall|x: Seq<char>, s: Set<Seq<char>>|
                                found.deep_view().contains(x) && #[trigger] closed(g, s) && s.contains(start_symbol@) ==> #[trigger] s.contains(x),
                            forall|q: int, kk: int, tt: int|
                                0 <= q < i && has_key(g, found.deep_view()[q]) && 0 <= kk < rule_of(g, found.deep_view()[q]).len()
                                && 0 <= tt < tokens(Pattern::Nonterminal, exp_text(rule_of(g, found.deep_view()[q])[kk])).len()
                                ==> found.deep_view().contains(#[trigger] tokens(Pattern::Nonterminal, exp_text(rule_of(g, found.deep_view()[q])[kk]))[tt]),
                            forall|kk: int, tt: int|
                                0 <= kk < k && 0 <= tt < tokens(Pattern::Nonterminal, exp_text(g[ki as int].1[kk])).len()
                                ==> found.deep_view().contains(#[trigger] tokens(Pattern::Nonterminal, exp_text(g[ki as int].1[kk]))[tt]),
                            forall|tt: int| 0 <= tt < t ==> found.deep_view().contains(#[trigger] toks[tt]),
                        decreases nts.len() - t,
                    {
                        assert(nts@[t as int]@ == toks[t as int]);
                        let ghost y = toks[t as int];
                        let ghost before = found.deep_view();
                        proof {
                            assert(toks[t as int] == y);
                            assert(tokens(Pattern::Nonterminal, exp_text(g[ki as int].1[k as int])).contains(y));
                            assert(used_in(g, y));
                            assert(rule_of(g, xi)[k as int] == g[ki as int].1[k as int]);
                            assert forall|s: Set<Seq<char>>| #[trigger] closed(g, s) && s.contains(start_symbol@) implies s.contains(y) by {
                                assert(before.contains(xi));
                                assert(s.contains(xi));
                                assert(tokens(Pattern::Nonterminal, exp_text(rule_of(g, xi)[k as int]))[t as int] == y);
                            }
                        }
                        push_new(&mut found, nts[t].clone());
                        proof {
                            lemma_push_contains(before, y);
                            assert forall|q: int| 0 <= q < before.len() implies found.deep_view()[q] == before[q] by {}
                        }
                        t = t + 1;
                    }
                    k = k + 1;
                }
            },
        }
        proof {
            assert forall|kk: int, t: int|
                has_key(g, xi) && 0 <= kk < rule_of(g, xi).len() && 0 <= t < tokens(Pattern::Nonterminal, exp_text(rule_of(g, xi)[kk])).len()
                implies found.deep_view().contains(#[trigger] tokens(Pattern::Nonterminal, exp_text(rule_of(g, xi)[kk]))[t]) by {
                lemma_key_index(g, xi);
                let ki = super::key_index(g, xi);
                lemma_key_index_at(g, ki);
            }
            lemma_distinct_within(found.deep_view(), u);
        }
        i = i + 1;
    }
    proof {
        let fd = found.deep_view();
        let fs = names(fd);
        assert(closed(g, fs)) by {
            assert forall|x: Seq<char>, k: int, t: int|
                fs.contains(x) && has_key(g, x) && 0 <= k < rule_of(g, x).len()
                && 0 <= t < tokens(Pattern::Nonterminal, exp_text(rule_of(g, x)[k])).len()
                implies #[trigger] fs.contains(tokens(Pattern::Nonterminal, exp_text(rule_of(g, x)[k]))[t]) by {
                let q = choose|q: int| 0 <= q < fd.len() && fd[q] == x;
                assert(fd.contains(tokens(Pattern::Nonterminal, exp_text(rule_of(g, fd[q])[k]))[t]));
            }
        }
        assert(fs.contains(start_symbol@)) by {
            assert(fd[0] == start_symbol@);
        }
        assert(fs =~= reachable(g, start_symbol@)) by {
            assert forall|x: Seq<char>| fs.contains(x) <==> reachable(g, start_symbol@).contains(x) by {
                if fs.contains(x) {
                    assert(fd.contains(x));
                }
                if reachable(g, start_symbol@).contains(x) {
                    assert(closed(g, fs) && fs.contains(start_symbol@));
                }
            }
        }
    }
    sort_strings(&found)
}

/// The names that `grammar` defines but does not reach from `start_symbol`, each
/// once and in increasing order.
pub fn unreachable_nonterminals(grammar: &Grammar, start_symbol: &str) -> (r: Vec<String>)
    requires
        grammar.wf(),
    ensures
        r.deep_view().no_duplicates(),
        names(r.deep_view()) == key_set(grammar@).difference(reachable(grammar@, start_symbol@)),
        texts_sorted(r.deep_view()),
{
    let ghost g = grammar@;
    let reach = reachable_nonterminals(grammar, start_symbol);
    let mut r: Vec<String> = Vec::new();
    let mut j: usize = 0;
    while j < grammar.rules.len()
        invariant
            g == grammar@,
            keys_distinct(g),
            names(reach.deep_view()) == reachable(g, start_symbol@),
            j <= g.len(),
            r.deep_view().no_duplicates(),
            forall|x: Seq<char>| #[trigger] r.deep_view().contains(x) <==> (exists|a: int| 0 <= a < j && g[a].0 == x)
                && !reachable(g, start_symbol@).contains(x),
        decreases g.len() - j,
    {
        assert(grammar.rules@[j as int].0@ == g[j as int].0);
        let ghost x = g[j as int].0;
        if !contains_str(&reach, grammar.rules[j].0.as_str()) {
            let ghost before = r.deep_view();
            push_new(&mut r, grammar.rules[j].0.clone());
            proof {
                lemma_push_contains(before, x);
            }
        }
        proof {
            assert forall|y: Seq<char>| #[trigger] r.deep_view().contains(y) <==> (exists|a: int| 0 <= a < j + 1 && g[a].0 == y)
                && !reachable(g, start_symbol@).contains(y) by {
                if exists|a: int| 0 <= a < j + 1 && g[a].0 == y {
                    let a = choose|a: int| 0 <= a < j + 1 && g[a].0 == y;
                    if a < j {
                        assert(exists|a: int| 0 <= a < j && g[a].0 == y);
                    }
                }
                if r.deep_view().contains(y) && y != x {
                    assert(exists|a: int| 0 <= a < j && g[a].0 == y);
                }
            }
        }
        j = j + 1;
    }
    proof {
        assert(names(r.deep_view()) =~= key_set(g).difference(reachable(g, start_symbol@))) by {
            assert forall|y: Seq<char>| names(r.deep_view()).contains(y) <==> key_set(g).difference(reachable(g, start_symbol@)).contains(y) by {
                lemma_key_index(g, y);
            }
        }
    }
    sort_strings(&r)
}

/// The option names used by some expansion of `g`.
pub open spec fn options_used(g: GrammarV) -> Set<Seq<char>> {
    Set::new(|x: Seq<char>| exists|j: int, k: int| 0 <= j < g.len() && 0 <= k < g[j].1.len() && #[trigger] opt_names(exp_options(g[j].1[k])).contains(x))
}

/// The option names used by the expansions of `grammar`, each once and in
/// increasing order.
pub fn opts_used(grammar: &Grammar) -> (r: Vec<String>)
    ensures
        r.deep_view().no_duplicates(),
        names(r.deep_view()) == options_used(grammar@),
        texts_sorted(r.deep_view()),
{
    let ghost g = grammar@;
    let mut r: Vec<String> = Vec::new();
    let mut j: usize = 0;
    while j < grammar.rules.len()
        invariant
            g == grammar@,
            j <= g.len(),
            r.deep_view().no_duplicates(),
            forall|x: Seq<char>| #[trigger] r.deep_view().contains(x) <==> exists|a: int, b: int| 0 <= a < j && 0 <= b < g[a].1.len() && #[trigger] opt_names(exp_options(g[a].1[b])).contains(x),
        decreases g.len() - j,
    {
        let expansions = &grammar.rules[j].1;
        assert(expansions.deep_view() == g[j as int].1);
        let mut k: usize = 0;
        while k < expansions.len()
            invariant
                g == grammar@,
                j < g.len(),
                expansions.deep_view() == g[j as int].1,
                k <= expansions.len(),
                r.deep_view().no_duplicates(),
                forall|x: Seq<char>| #[trigger] r.deep_view().contains(x) <==> (exists|a: int, b: int| 0 <= a < j && 0 <= b < g[a].1.len() && #[trigger] opt_names(exp_options(g[a].1[b])).contains(x))
                    || (exists|b: int| 0 <= b < k && #[trigger] opt_names(exp_options(g[j as int].1[b])).contains(x)),
            decreases expansions.len() - k,
        {
            let o = super::options::exp_opts(&expansions[k]);
            let ghost ov = exp_options(g[j as int].1[k as int]);
            assert(expansions@[k as int].deep_view() == g[j as int].1[k as int]);
            let mut t: usize = 0;
            while t < o.entries.len()
                invariant
                    g == grammar@,
                    j < g.len(),
                    k < g[j as int].1.len(),
                    ov == exp_options(g[j as int].1[k as int]),
                    o@ == ov,
                    t <= o.entries.len(),
                    r.deep_view().no_duplicates(),
                    forall|x: Seq<char>| #[trigger] r.deep_view().contains(x) <==> (exists|a: int, b: int| 0 <= a < j && 0 <= b < g[a].1.len() && #[trigger] opt_names(exp_options(g[a].1[b])).contains(x))
                        || (exists|b: int| 0 <= b < k && #[trigger] opt_names(exp_options(g[j as int].1[b])).contains(x))
                        || (exists|e: int| 0 <= e < t && ov[e].0 == x),
                decreases o.entries.len() - t,
            {
                assert(o.entries@[t as int].0@ == ov[t as int].0);
                let ghost y = ov[t as int].0;
                let ghost before = r.deep_view();
                push_new(&mut r, o.entries[t].0.clone());
                proof {
                    lemma_push_contains(before, y);
                    assert forall|x: Seq<char>| #[trigger] r.deep_view().contains(x) <==> (exists|a: int, b: int| 0 <= a < j && 0 <= b < g[a].1.len() && #[trigger] opt_names(exp_options(g[a].1[b])).contains(x))
                        || (exists|b: int| 0 <= b < k && #[trigger] opt_names(exp_options(g[j as int].1[b])).contains(x))
                        || (exists|e: int| 0 <= e < t + 1 && ov[e].0 == x) by {
                        if exists|e: int| 0 <= e < t + 1 && ov[e].0 == x {
                            let e = choose|e: int| 0 <= e < t + 1 && ov[e].0 == x;
                            if e < t {
                                assert(exists|e: int| 0 <= e < t && ov[e].0 == x);
                            }
                        }
                    }
                }
                t = t + 1;
            }
            proof {
                assert forall|x: Seq<char>| #[trigger] r.deep_view().contains(x) <==> (exists|a: int, b: int| 0 <= a < j && 0 <= b < g[a].1.len() && #[trigger] opt_names(exp_options(g[a].1[b])).contains(x))
                    || (exists|b: int| 0 <= b < k + 1 && #[trigger] opt_names(exp_options(g[j as int].1[b])).contains(x)) by {
                    if exists|b: int| 0 <= b < k + 1 && #[trigger] opt_names(exp_options(g[j as int].1[b])).contains(x) {
                        let b = choose|b: int| 0 <= b < k + 1 && #[trigger] opt_names(exp_options(g[j as int].1[b])).contains(x);
                        if b == k {
                            assert(exists|e: int| 0 <= e < t && ov[e].0 == x);
                        } else {
                            assert(exists|b: int| 0 <= b < k && #[trigger] opt_names(exp_options(g[j as int].1[b])).contains(x));
                        }
                    }
                    if exists|e: int| 0 <= e < t && ov[e].0 == x {
                        assert(opt_names(exp_options(g[j as int].1[k as int])).contains(x));
                    }
                }
            }
            k = k + 1;
        }
        proof {
            assert forall|x: Seq<char>| #[trigger] r.deep_view().contains(x) <==> exists|a: int, b: int| 0 <= a < j + 1 && 0 <= b < g[a].1.len() && #[trigger] opt_names(exp_options(g[a].1[b])).contains(x) by {
                if exists|a: int, b: int| 0 <= a < j + 1 && 0 <= b < g[a].1.len() && #[trigger] opt_names(exp_options(g[a].1[b])).contains(x) {
                    let (a, b) = choose|a: int, b: int| 0 <= a < j + 1 && 0 <= b < g[a].1.len() && #[trigger] opt_names(exp_options(g[a].1[b])).contains(x);
                    if a == j {
                        assert(exists|b: int| 0 <= b < k && #[trigger] opt_names(exp_options(g[j as int].1[b])).contains(x));
                    } else {
                        assert(exists|a: int, b: int| 0 <= a < j && 0 <= b < g[a].1.len() && #[trigger] opt_names(exp_options(g[a].1[b])).contains(x));
                    }
                }
            }
        }
        j = j + 1;
    }
    proof {
        assert(names(r.deep_view()) =~= options_used(g));
    }
    sort_strings(&r)
}

/// The conventional start symbol `<start>`.
pub open spec fn start_name() -> Seq<char> {
    seq!['<', 's', 't', 'a', 'r', 't', '>']
}

/// The used nonterminals, with `<start>` when the grammar defines it.
pub open spec fn used_with_start(g: GrammarV, start: Seq<char>) -> Set<Seq<char>> {
    if has_key(g, start_name()) {
        used_set(g, start).insert(start_name())
    } else {
        used_set(g, start)
    }
}

/// Whether `x` is reachable from `start`, or from `<start>` when the grammar defines it.
pub open spec fn covered(g: GrammarV, start: Seq<char>, x: Seq<char>) -> bool {
    reachable(g, start).contains(x) || (has_key(g, start_name()) && reachable(g, start_name()).contains(x))
}

/// A valid grammar: no rule is empty, it defines exactly the nonterminals it uses
/// (the start symbol, and `<start>` when defined, count as used) and every rule is
/// reachable from the start symbol or from `<start>`.
pub open spec fn valid_grammar(g: GrammarV, start: Seq<char>) -> bool {
    &&& no_empty_rule(g)
    &&& used_with_start(g, start) == key_set(g)
    &&& forall|x: Seq<char>| #[trigger] key_set(g).contains(x) ==> covered(g, start, x)
}

/// Whether two sequences without repetition hold the same strings.
fn same_names(a: &Vec<String>, b: &Vec<String>) -> (r: bool)
    ensures
        r == (names(a.deep_view()) == names(b.deep_view())),
{
    let mut i: usize = 0;
    while i < a.len()
        invariant
            i <= a.len(),
            forall|k: int| 0 <= k < i ==> b.deep_view().contains(#[trigger] a.deep_view()[k]),
        decreases a.len() - i,
    {
        assert(a@[i as int]@ == a.deep_view()[i as int]);
        if !contains_str(b, a[i].as_str()) {
            assert(names(a.deep_view()).contains(a.deep_view()[i as int]));
            return false;
        }
        i = i + 1;
    }
    let mut j: usize = 0;
    while j < b.len()
        invariant
            j <= b.len(),
            forall|k: int| 0 <= k < a.len() ==> b.deep_view().contains(#[trigger] a.deep_view()[k]),
            forall|k: int| 0 <= k < j ==> a.deep_view().contains(#[trigger] b.deep_view()[k]),
        decreases b.len() - j,
    {
        assert(b@[j as int]@ == b.deep_view()[j as int]);
        if !contains_str(a, b[j].as_str()) {
            assert(names(b.deep_view()).contains(b.deep_view()[j as int]));
            return false;
        }
        j = j + 1;
    }
    assert(names(a.deep_view()) =~= names(b.deep_view())) by {
        assert forall|x: Seq<char>| names(a.deep_view()).contains(x) implies names(b.deep_view()).contains(x) by {
            let k = choose|k: int| 0 <= k < a.deep_view().len() && a.deep_view()[k] == x;
        }
        assert forall|x: Seq<char>| names(b.deep_view()).contains(x) implies names(a.deep_view()).contains(x) by {
            let k = choose|k: int| 0 <= k < b.deep_view().len() && b.deep_view()[k] == x;
        }
    }
    true
}

/// Whether `grammar` is valid for `start_symbol` (see `valid_grammar`); the option
/// names in `supported_opts` do not change the answer.
pub fn is_valid_grammar(grammar: &Grammar, start_symbol: &str, supported_opts: &Vec<String>) -> (r: bool)
    requires
        grammar.wf(),
    ensures
        r == valid_grammar(grammar@, start_symbol@),
{
    let ghost g = grammar@;
    let (defined, mut used) = match def_used_nonterminals(grammar, start_symbol) {
        None => return false,
        Some(p) => p,
    };
    let start = owned("<start>");
    proof {
        reveal_strlit("<start>");
    }
    assert(start@ =~= start_name());
    let has_start = grammar.contains_key(start.as_str());
    if has_start {
        let ghost before = used.deep_view();
        push_new(&mut used, start.clone());
        proof {
            lemma_push_contains(before, start_name());
            assert(names(used.deep_view()) =~= used_with_start(g, start_symbol@));
        }
    }
    let same = same_names(&defined, &used);
    let reach = reachable_nonterminals(grammar, start_symbol);
    let reach_start = if has_start {
        reachable_nonterminals(grammar, start.as_str())
    } else {
        Vec::new()
    };
    let mut all_covered = true;
    let mut j: usize = 0;
    while j < grammar.rules.len()
        invariant
            g == grammar@,
            j <= g.len(),
            names(reach.deep_view()) == reachable(g, start_symbol@),
            has_start == has_key(g, start_name()),
            has_start ==> names(reach_start.deep_view()) == reachable(g, start_name()),
            all_covered == forall|a: int| 0 <= a < j ==> covered(g, start_symbol@, #[trigger] g[a].0),
        decreases g.len() - j,
    {
        assert(grammar.rules@[j as int].0@ == g[j as int].0);
        let c = contains_str(&reach, grammar.rules[j].0.as_str()) || (has_start && contains_str(&reach_start, grammar.rules[j].0.as_str()));
        assert(c == covered(g, start_symbol@, g[j as int].0));
        all_covered = all_covered && c;
        j = j + 1;
    }
    proof {
        assert(all_covered == forall|x: Seq<char>| #[trigger] key_set(g).contains(x) ==> covered(g, start_symbol@, x)) by {
            if all_covered {
                assert forall|x: Seq<char>| #[trigger] key_set(g).contains(x) implies covered(g, start_symbol@, x) by {
                    lemma_key_index(g, x);
                    let a = super::key_index(g, x);
                    assert(g[a].0 == x);
                }
            } else {
                let a = choose|a: int| 0 <= a < g.len() && !covered(g, start_symbol@, #[trigger] g[a].0);
                assert(key_set(g).contains(g[a].0));
            }
        }
        if !has_start {
            assert(names(used.deep_view()) == used_with_start(g, start_symbol@));
        }
    }
    same && all_covered
}

/// Whether `trim_grammar` keeps the rule named `k`: it is used or reachable.
pub open spec fn trim_keeps(g: GrammarV, start: Seq<char>, k: Seq<char>) -> bool {
    used_set(g, start).contains(k) || reachable(g, start).contains(k)
}

/// The first `n` rules of `g` that `trim_grammar` keeps, in order.
pub open spec fn trim_upto(g: GrammarV, start: Seq<char>, n: int) -> GrammarV
    decreases n,
{
    if n <= 0 {
        Seq::empty()
    } else if trim_keeps(g, start, g[n - 1].0) {
        trim_upto(g, start, n - 1).push(g[n - 1])
    } else {
        trim_upto(g, start, n - 1)
    }
}

/// What `trim_grammar` makes of `g`: without the rules that are neither used nor
/// reachable, or all of `g` when some rule has no expansion.
pub open spec fn trimmed(g: GrammarV, start: Seq<char>) -> GrammarV {
    if no_empty_rule(g) {
        trim_upto(g, start, g.len() as int)
    } else {
        g
    }
}

proof fn lemma_trim_upto_distinct(g: GrammarV, start: Seq<char>, n: int)
    requires
        keys_distinct(g),
        0 <= n <= g.len(),
    ensures
        keys_distinct(trim_upto(g, start, n)),
        forall|x: Seq<char>| #[trigger] has_key(trim_upto(g, start, n), x) ==> exists|a: int| 0 <= a < n && g[a].0 == x,
    decreases n,
{
    if n > 0 {
        lemma_trim_upto_distinct(g, start, n - 1);
        let p = trim_upto(g, start, n - 1);
        if trim_keeps(g, start, g[n - 1].0) {
            let q = p.push(g[n - 1]);
            assert forall|a: int, b: int| 0 <= a < q.len() && 0 <= b < q.len() && a != b implies q[a].0 != q[b].0 by {
                if a == p.len() && b < p.len() {
                    assert(has_key(p, q[b].0));
                }
                if b == p.len() && a < p.len() {
                    assert(has_key(p, q[a].0));
                }
            }
            assert forall|x: Seq<char>| #[trigger] has_key(q, x) implies exists|a: int| 0 <= a < n && g[a].0 == x by {
                let c = choose|c: int| 0 <= c < q.len() && q[c].0 == x;
                if c < p.len() {
                    assert(has_key(p, x));
                }
            }
        } else {
            assert forall|x: Seq<char>| #[trigger] has_key(p, x) implies exists|a: int| 0 <= a < n && g[a].0 == x by {
                assert(exists|a: int| 0 <= a < n - 1 && g[a].0 == x);
            }
        }
    }
}

/// A copy of `grammar` without the rules that are neither used nor reachable from
/// `start_symbol`.
pub fn trim_grammar(grammar: &Grammar, start_symbol: &str) -> (r: Grammar)
    requires
        grammar.wf(),
    ensures
        r.wf(),
        r@ == trimmed(grammar@, start_symbol@),
{
    let ghost g = grammar@;
    let (_defined, used) = match def_used_nonterminals(grammar, start_symbol) {
        None => return grammar.duplicate(),
        Some(p) => p,
    };
    let reach = reachable_nonterminals(grammar, start_symbol);
    let mut rules: Vec<(String, Vec<Expansion>)> = Vec::new();
    let mut j: usize = 0;
    while j < grammar.rules.len()
        invariant
            g == grammar@,
            keys_distinct(g),
            j <= g.len(),
            names(used.deep_view()) == used_set(g, start_symbol@),
            names(reach.deep_view()) == reachable(g, start_symbol@),
            rules.deep_view() == trim_upto(g, start_symbol@, j as int),
        decreases g.len() - j,
    {
        assert(grammar.rules@[j as int].0@ == g[j as int].0);
        let keep = contains_str(&used, grammar.rules[j].0.as_str()) || contains_str(&reach, grammar.rules[j].0.as_str());
        if keep {
            let k = grammar.rules[j].0.clone();
            let v = copy_expansions(&grammar.rules[j].1);
            let ghost before = rules@;
            rules.push((k, v));
            proof {
                lemma_deep_view_push(before, rules@, rules@.last());
            }
        }
        j = j + 1;
    }
    proof {
        lemma_trim_upto_distinct(g, start_symbol@, g.len() as int);
    }
    Grammar { rules }
}
} // verus!
