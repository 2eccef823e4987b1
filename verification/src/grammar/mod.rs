//! Grammars in the EBNF-like notation of this project: rules from nonterminal
//! names (such as `<expr>`) to lists of expansions, where an expansion is a
//! text that mixes terminal characters with nonterminal names.
use vstd::prelude::*;
use crate::text::str_eq;
use crate::text::chars_of;
use crate::text::lemma_deep_view_push;
use crate::text::lemma_deep_view_update;

pub mod pattern;
pub mod options;
pub mod ebnf;
pub mod validity;
pub mod str_helper;
pub mod predef_grammars;
pub mod shapes;
pub mod ebnf_laws;

use self::pattern::Pattern;
use self::pattern::tokens;
use self::pattern::contains_token;
use self::options::Opts;
use self::options::OptsV;
use self::options::copy_expansion;

pub use self::ebnf::convert_ebnf_operators;
pub use self::ebnf::convert_ebnf_parentheses;
pub use self::ebnf::convert_ebnf_grammar;
pub use self::validity::is_valid_grammar;

verus! {

/// One of two kinds of values.
pub enum Union<A, B> {
    OnlyA(A),
    OnlyB(B),
}

impl<A: DeepView, B: DeepView> DeepView for Union<A, B> {
    type V = Union<A::V, B::V>;

    open spec fn deep_view(&self) -> Union<A::V, B::V> {
        match self {
            Union::OnlyA(a) => Union::OnlyA(a.deep_view()),
            Union::OnlyB(b) => Union::OnlyB(b.deep_view()),
        }
    }
}

/// An expansion: a bare text, or a text with options.
pub type Expansion = Union<String, (String, Opts)>;

/// The value of an expansion.
pub type ExpansionV = Union<Seq<char>, (Seq<char>, OptsV)>;

/// The value of a grammar: its rules in order, each a name and its expansions.
pub type GrammarV = Seq<(Seq<char>, Seq<ExpansionV>)>;

/// A grammar: rules from nonterminal names to lists of expansions, kept in the
/// order in which the names were first defined.
pub struct Grammar {
    pub rules: Vec<(String, Vec<Expansion>)>,
}

impl DeepView for Grammar {
    type V = GrammarV;

    open spec fn deep_view(&self) -> GrammarV {
        self.rules.deep_view()
    }
}

impl View for Grammar {
    type V = GrammarV;

    open spec fn view(&self) -> GrammarV {
        self.rules.deep_view()
    }
}

/// The index of the first rule named `k` at or after `i`, or -1.
pub open spec fn index_from(g: GrammarV, k: Seq<char>, i: int) -> int
    decreases g.len() - i,
{
    if i < 0 || i >= g.len() {
        -1
    } else if g[i].0 == k {
        i
    } else {
        index_from(g, k, i + 1)
    }
}

/// The index of the rule named `k`, or -1.
pub open spec fn key_index(g: GrammarV, k: Seq<char>) -> int {
    index_from(g, k, 0)
}

/// Whether `g` defines `k`.
pub open spec fn has_key(g: GrammarV, k: Seq<char>) -> bool {
    exists|i: int| 0 <= i < g.len() && g[i].0 == k
}

/// The expansions of `k` in `g`.
pub open spec fn rule_of(g: GrammarV, k: Seq<char>) -> Seq<ExpansionV> {
    g[key_index(g, k)].1
}

/// No name is defined twice.
pub open spec fn keys_distinct(g: GrammarV) -> bool {
    forall|i: int, j: int| 0 <= i < g.len() && 0 <= j < g.len() && i != j ==> g[i].0 != g[j].0
}

/// The set of names that `g` defines.
pub open spec fn key_set(g: GrammarV) -> Set<Seq<char>> {
    Set::new(|k: Seq<char>| has_key(g, k))
}

/// `g` with rule `k` set to `v`: an existing rule is overwritten in place, a new
/// name is appended.
pub open spec fn insert_rule(g: GrammarV, k: Seq<char>, v: Seq<ExpansionV>) -> GrammarV {
    if key_index(g, k) >= 0 {
        g.update(key_index(g, k), (k, v))
    } else {
        g.push((k, v))
    }
}

pub proof fn lemma_index_from(g: GrammarV, k: Seq<char>, i: int)
    requires
        0 <= i,
    ensures
        index_from(g, k, i) == -1 <==> forall|j: int| i <= j < g.len() ==> g[j].0 != k,
        index_from(g, k, i) != -1 ==> i <= index_from(g, k, i) < g.len() && g[index_from(
            g,
            k,
            i,
        )].0 == k,
    decreases g.len() - i,
{
    if i < g.len() && g[i].0 != k {
        lemma_index_from(g, k, i + 1);
    }
}

/// The index of a name is where it is defined, and -1 exactly when it is not.
pub proof fn lemma_key_index(g: GrammarV, k: Seq<char>)
    ensures
        key_index(g, k) == -1 <==> !has_key(g, k),
        has_key(g, k) ==> 0 <= key_index(g, k) < g.len() && g[key_index(g, k)].0 == k,
        has_key(g, k) <==> key_set(g).contains(k),
{
    lemma_index_from(g, k, 0);
}

/// In a grammar without repeated names, the index of the name at `i` is `i`.
pub proof fn lemma_key_index_at(g: GrammarV, i: int)
    requires
        keys_distinct(g),
        0 <= i < g.len(),
    ensures
        key_index(g, g[i].0) == i,
{
    lemma_key_index(g, g[i].0);
}

pub proof fn lemma_insert_rule(g: GrammarV, k: Seq<char>, v: Seq<ExpansionV>)
    requires
        keys_distinct(g),
    ensures
        keys_distinct(insert_rule(g, k, v)),
        has_key(insert_rule(g, k, v), k),
        forall|x: Seq<char>| #[trigger]
            has_key(insert_rule(g, k, v), x) <==> (has_key(g, x) || x == k),
        has_key(g, k) ==> insert_rule(g, k, v).len() == g.len(),
        !has_key(g, k) ==> insert_rule(g, k, v).len() == g.len() + 1,
        forall|j: int| 0 <= j < g.len() ==> #[trigger] insert_rule(g, k, v)[j].0 == g[j].0,
        forall|j: int| 0 <= j < g.len() && g[j].0 != k ==> #[trigger] insert_rule(g, k, v)[j] == g[j],
{
    lemma_key_index(g, k);
    let r = insert_rule(g, k, v);
    if has_key(g, k) {
        assert forall|x: Seq<char>| #[trigger] has_key(r, x) <==> (has_key(g, x) || x == k) by {
            if has_key(g, x) {
                let j = choose|j: int| 0 <= j < g.len() && g[j].0 == x;
                assert(r[j].0 == x);
            }
            if has_key(r, x) {
                let j = choose|j: int| 0 <= j < r.len() && r[j].0 == x;
                assert(g[j].0 == x || x == k);
            }
            if x == k {
                assert(r[key_index(g, k)].0 == k);
            }
        }
    } else {
        assert forall|x: Seq<char>| #[trigger] has_key(r, x) <==> (has_key(g, x) || x == k) by {
            if has_key(g, x) {
                let j = choose|j: int| 0 <= j < g.len() && g[j].0 == x;
                assert(r[j].0 == x);
            }
            if has_key(r, x) {
                let j = choose|j: int| 0 <= j < r.len() && r[j].0 == x;
                if j < g.len() {
                    assert(g[j].0 == x);
                }
            }
            if x == k {
                assert(r[g.len() as int].0 == k);
            }
        }
    }
}

impl Grammar {
    /// No name is defined twice.
    pub open spec fn wf(&self) -> bool {
        keys_distinct(self@)
    }

    /// The empty grammar.
    pub fn new() -> (r: Grammar)
        ensures
            r@ == Seq::<(Seq<char>, Seq<ExpansionV>)>::empty(),
            r.wf(),
    {
        Grammar { rules: Vec::new() }
    }

    /// The number of rules.
    pub fn len(&self) -> (r: usize)
        ensures
            r == self@.len(),
    {
        self.rules.len()
    }

    /// The index of the rule named `k`, if there is one.
    pub fn index_of(&self, k: &str) -> (r: Option<usize>)
        ensures
            r is None ==> key_index(self@, k@) == -1 && !has_key(self@, k@),
            r matches Some(i) ==> i as int == key_index(self@, k@) && has_key(self@, k@) && i
                < self@.len() && self@[i as int].0 == k@,
    {
        proof {
            lemma_key_index(self@, k@);
        }
        let mut i: usize = 0;
        while i < self.rules.len()
            invariant
                i <= self.rules.len(),
                key_index(self@, k@) == index_from(self@, k@, i as int),
            decreases self.rules.len() - i,
        {
            assert(self.rules@[i as int].0@ == self@[i as int].0);
            if str_eq(self.rules[i].0.as_str(), k) {
                return Some(i);
            }
            i = i + 1;
        }
        None
    }

    /// Whether the grammar defines `k`.
    pub fn contains_key(&self, k: &str) -> (r: bool)
        ensures
            r == has_key(self@, k@),
    {
        self.index_of(k).is_some()
    }

    /// The expansions of `k`, if the grammar defines it.
    pub fn get(&self, k: &str) -> (r: Option<&Vec<Expansion>>)
        ensures
            r is None ==> !has_key(self@, k@),
            r matches Some(v) ==> has_key(self@, k@) && v.deep_view() == rule_of(self@, k@),
    {
        match self.index_of(k) {
            Some(i) => Some(&self.rules[i].1),
            None => None,
        }
    }

    /// Sets the rule `k` to `v`, overwriting an existing rule in place or appending
    /// a new one.
    pub fn insert(&mut self, k: String, v: Vec<Expansion>)
        requires
            old(self).wf(),
        ensures
            final(self)@ == insert_rule(old(self)@, k@, v.deep_view()),
            final(self).wf(),
    {
        proof {
            lemma_insert_rule(self@, k@, v.deep_view());
        }
        let ghost kv = k@;
        let ghost vv = v.deep_view();
        match self.index_of(k.as_str()) {
            Some(i) => {
                let ghost before = self.rules@;
                self.rules.set(i, (k, v));
                proof {
                    lemma_deep_view_update(before, self.rules@, i as int, self.rules@[i as int]);
                }
                assert(self@ =~= insert_rule(old(self)@, kv, vv));
            },
            None => {
                let ghost before = self.rules@;
                self.rules.push((k, v));
                proof {
                    lemma_deep_view_push(before, self.rules@, self.rules@.last());
                }
                assert(self@ =~= insert_rule(old(self)@, kv, vv));
            },
        }
    }

    /// Replaces expansion `i` of rule `r`.
    pub fn set_expansion(&mut self, r: usize, i: usize, e: Expansion)
        requires
            old(self).wf(),
            r < old(self)@.len(),
            i < old(self)@[r as int].1.len(),
        ensures
            final(self).wf(),
            final(self)@ == old(self)@.update(
                r as int,
                (old(self)@[r as int].0, old(self)@[r as int].1.update(i as int, e.deep_view())),
            ),
    {
        let ghost ev = e.deep_view();
        let ghost before = self.rules@;
        let (k, mut exps) = self.rules.remove(r);
        let ghost exps_before = exps@;
        exps.set(i, e);
        proof {
            lemma_deep_view_update(exps_before, exps@, i as int, exps@[i as int]);
        }
        self.rules.insert(r, (k, exps));
        proof {
            assert(self.rules@ =~= before.update(r as int, self.rules@[r as int]));
            lemma_deep_view_update(before, self.rules@, r as int, self.rules@[r as int]);
        }
        assert(self@ =~= old(self)@.update(
            r as int,
            (old(self)@[r as int].0, old(self)@[r as int].1.update(i as int, ev)),
        ));
    }

    /// Removes the rule named `k`, if there is one.
    pub fn remove(&mut self, k: &str)
        requires
            old(self).wf(),
        ensures
            final(self).wf(),
            key_index(old(self)@, k@) >= 0 ==> final(self)@ == old(self)@.remove(
                key_index(old(self)@, k@),
            ),
            key_index(old(self)@, k@) < 0 ==> final(self)@ == old(self)@,
    {
        match self.index_of(k) {
            Some(i) => {
                self.rules.remove(i);
                assert(self@ =~= old(self)@.remove(i as int));
            },
            None => {},
        }
    }

    /// A copy of the grammar.
    pub fn duplicate(&self) -> (r: Grammar)
        ensures
            r@ == self@,
    {
        let mut rules: Vec<(String, Vec<Expansion>)> = Vec::new();
        let mut i: usize = 0;
        while i < self.rules.len()
            invariant
                i <= self.rules.len(),
                rules.deep_view() =~= self@.take(i as int),
            decreases self.rules.len() - i,
        {
            let k = self.rules[i].0.clone();
            let v = copy_expansions(&self.rules[i].1);
            let ghost before = rules@;
            rules.push((k, v));
            proof {
                lemma_deep_view_push(before, rules@, rules@.last());
            }
            i = i + 1;
        }
        assert(self@.take(i as int) =~= self@);
        Grammar { rules }
    }
}

/// A copy of a list of expansions.
pub fn copy_expansions(v: &Vec<Expansion>) -> (r: Vec<Expansion>)
    ensures
        r.deep_view() == v.deep_view(),
{
    let mut r: Vec<Expansion> = Vec::new();
    let mut i: usize = 0;
    while i < v.len()
        invariant
            i <= v.len(),
            r.deep_view() =~= v.deep_view().take(i as int),
        decreases v.len() - i,
    {
        let ghost before = r@;
        r.push(copy_expansion(&v[i]));
        proof {
            lemma_deep_view_push(before, r@, r@.last());
        }
        i = i + 1;
    }
    assert(v.deep_view().take(i as int) =~= v.deep_view());
    r
}

} // verus!

verus! {

/// Whether `symbol` contains a nonterminal name such as `<expr>`.
pub fn is_nonterminal(symbol: &str) -> (r: bool)
    ensures
        r == contains_token(Pattern::Nonterminal, symbol@),
{
    let cs = chars_of(symbol);
    self::pattern::has_token(Pattern::Nonterminal, &cs)
}

fn tokens_of(p: Pattern, s: &str) -> (r: Vec<String>)
    ensures
        r.deep_view() == tokens(p, s@),
{
    let cs = chars_of(s);
    let r = self::pattern::find_tokens(p, &cs);
    assert(r.deep_view() =~= tokens(p, s@));
    r
}

/// The nonterminal names in the text of `expansion`, in order.
pub fn nonterminals(expansion: &Expansion) -> (r: Vec<String>)
    ensures
        r.deep_view() == tokens(Pattern::Nonterminal, self::options::exp_text(expansion.deep_view())),
{
    let s = self::options::exp_string(expansion);
    tokens_of(Pattern::Nonterminal, s.as_str())
}

/// The nonterminal names followed by `?`, `+` or `*` in the text of `expansion`, in order.
pub fn extended_nonterminals(expansion: &Expansion) -> (r: Vec<String>)
    ensures
        r.deep_view() == tokens(
            Pattern::ExtendedNonterminal,
            self::options::exp_text(expansion.deep_view()),
        ),
{
    let s = self::options::exp_string(expansion);
    tokens_of(Pattern::ExtendedNonterminal, s.as_str())
}

/// The parenthesized groups followed by `?`, `+` or `*` in the text of `expansion`
/// (innermost groups only, as a group holds no parenthesis), in order.
pub fn parenthesized_expressions(expansion: &Expansion) -> (r: Vec<String>)
    ensures
        r.deep_view() == tokens(
            Pattern::Parenthesized,
            self::options::exp_text(expansion.deep_view()),
        ),
{
    let s = self::options::exp_string(expansion);
    tokens_of(Pattern::Parenthesized, s.as_str())
}

/// `g` extended by the first `n` rules of `ext`, each set in turn.
pub open spec fn extend_upto(g: GrammarV, ext: GrammarV, n: int) -> GrammarV
    decreases n,
{
    if n <= 0 {
        g
    } else {
        insert_rule(extend_upto(g, ext, n - 1), ext[n - 1].0, ext[n - 1].1)
    }
}

/// `g` with every rule of `ext` set on top of it.
pub open spec fn extended(g: GrammarV, ext: GrammarV) -> GrammarV {
    extend_upto(g, ext, ext.len() as int)
}

/// A copy of `grammar` in which every rule of `extension` replaces the rule of the same
/// name or, for a new name, is appended.
pub fn extend_grammar(grammar: &Grammar, extension: &Grammar) -> (r: Grammar)
    requires
        grammar.wf(),
    ensures
        r.wf(),
        r@ == extended(grammar@, extension@),
{
    let mut result = grammar.duplicate();
    let mut i: usize = 0;
    while i < extension.rules.len()
        invariant
            i <= extension.rules.len(),
            result.wf(),
            result@ == extend_upto(grammar@, extension@, i as int),
        decreases extension.rules.len() - i,
    {
        let k = extension.rules[i].0.clone();
        let v = copy_expansions(&extension.rules[i].1);
        assert(extension@[i as int] == (k@, v.deep_view()));
        result.insert(k, v);
        i = i + 1;
    }
    result
}

/// What extending does to names: the result defines the names of both grammars and
/// no others; a name of the extension maps to the extension's last rule for it, any
/// other name keeps its rule; the names of the base keep their places.
pub proof fn lemma_extend_rules(g: GrammarV, ext: GrammarV, n: int)
    requires
        keys_distinct(g),
        0 <= n <= ext.len(),
    ensures
        keys_distinct(extend_upto(g, ext, n)),
        forall|x: Seq<char>| #[trigger]
            has_key(extend_upto(g, ext, n), x) <==> (has_key(g, x) || exists|j: int|
                0 <= j < n && ext[j].0 == x),
        extend_upto(g, ext, n).len() >= g.len(),
        forall|j: int| 0 <= j < g.len() ==> #[trigger] extend_upto(g, ext, n)[j].0 == g[j].0,
        forall|j: int|
            0 <= j < g.len() && (forall|t: int| 0 <= t < n ==> ext[t].0 != g[j].0)
                ==> #[trigger] extend_upto(g, ext, n)[j] == g[j],
    decreases n,
{
    if n > 0 {
        lemma_extend_rules(g, ext, n - 1);
        let h = extend_upto(g, ext, n - 1);
        lemma_insert_rule(h, ext[n - 1].0, ext[n - 1].1);
        let r = extend_upto(g, ext, n);
        assert forall|x: Seq<char>| #[trigger] has_key(r, x) <==> (has_key(g, x) || exists|j: int|
            0 <= j < n && ext[j].0 == x) by {
            if has_key(h, x) {
            }
            if exists|j: int| 0 <= j < n && ext[j].0 == x {
                let j = choose|j: int| 0 <= j < n && ext[j].0 == x;
                if j < n - 1 {
                    assert(has_key(h, x));
                }
            }
            if has_key(r, x) && !has_key(g, x) && x != ext[n - 1].0 {
                assert(has_key(h, x));
                let j = choose|j: int| 0 <= j < n - 1 && ext[j].0 == x;
                assert(0 <= j < n && ext[j].0 == x);
            }
        }
        assert forall|j: int| 0 <= j < g.len() implies #[trigger] r[j].0 == g[j].0 by {
            assert(h[j].0 == g[j].0);
        }
        assert forall|j: int|
            0 <= j < g.len() && (forall|t: int| 0 <= t < n ==> ext[t].0 != g[j].0) implies #[trigger] r[j]
            == g[j] by {
            assert(ext[n - 1].0 != g[j].0);
            assert(h[j] == g[j]);
        }
    }
}

/// Extending a grammar by the empty grammar changes nothing.
pub proof fn lemma_extend_by_empty(g: GrammarV)
    ensures
        extended(g, Seq::empty()) == g,
{
}

/// `name` without its last character (unchanged when empty).
pub open spec fn drop_last_char(name: Seq<char>) -> Seq<char> {
    if name.len() > 0 {
        name.drop_last()
    } else {
        name
    }
}

/// The `c`-th fresh variant of `name`: `<expr>` becomes `<expr-c>`.
pub open spec fn variant(name: Seq<char>, c: nat) -> Seq<char> {
    drop_last_char(name) + seq!['-'] + crate::text::decimal(c) + seq!['>']
}

/// The least `c` from `start` on whose variant `g` does not define (searching no
/// further than one past the number of rules).
pub open spec fn first_free(g: GrammarV, name: Seq<char>, c: nat) -> nat
    decreases g.len() + 2 - c,
{
    if c > g.len() + 1 {
        c
    } else if !has_key(g, variant(name, c)) {
        c
    } else {
        first_free(g, name, c + 1)
    }
}

/// The name `new_symbol` picks: `name` itself when `g` does not define it, otherwise
/// its first variant, counting from 1, that `g` does not define.
pub open spec fn new_symbol_spec(g: GrammarV, name: Seq<char>) -> Seq<char> {
    if has_key(g, name) {
        variant(name, first_free(g, name, 1))
    } else {
        name
    }
}

proof fn lemma_variant_injective(name: Seq<char>, a: nat, b: nat)
    requires
        variant(name, a) == variant(name, b),
    ensures
        a == b,
{
    let p = drop_last_char(name) + seq!['-'];
    let da = crate::text::decimal(a);
    let db = crate::text::decimal(b);
    assert(variant(name, a) == p + da + seq!['>']);
    assert(variant(name, b) == p + db + seq!['>']);
    assert(da.len() == db.len());
    assert(da =~= variant(name, a).subrange(p.len() as int, (p.len() + da.len()) as int));
    assert(db =~= variant(name, b).subrange(p.len() as int, (p.len() + db.len()) as int));
    crate::text::lemma_decimal_injective(a, b);
}

proof fn lemma_first_free(g: GrammarV, name: Seq<char>, c: nat)
    requires
        1 <= c,
    ensures
        first_free(g, name, c) >= c,
        forall|d: nat| c <= d < first_free(g, name, c) ==> has_key(g, #[trigger] variant(name, d)),
        first_free(g, name, c) <= g.len() + 1 ==> !has_key(g, variant(name, first_free(g, name, c))),
    decreases g.len() + 2 - c,
{
    if c <= g.len() + 1 && has_key(g, variant(name, c)) {
        lemma_first_free(g, name, c + 1);
    }
}

/// Some variant among the first `g.len() + 1` is not defined by `g`.
proof fn lemma_some_variant_free(g: GrammarV, name: Seq<char>)
    ensures
        first_free(g, name, 1) <= g.len() + 1,
{
    lemma_first_free(g, name, 1);
    let m = first_free(g, name, 1);
    if m > g.len() + 1 {
        let n = g.len() as int;
        let x = vstd::set_lib::set_int_range(1, n + 2);
        vstd::set_lib::lemma_int_range(1, n + 2);
        let f = |c: int| key_index(g, variant(name, c as nat));
        let y = x.map(f);
        assert forall|c: int| x.contains(c) implies has_key(g, #[trigger] variant(name, c as nat)) by {
            assert(1 <= (c as nat) < m);
        }
        assert(vstd::relations::injective_on(f, x)) by {
            assert forall|a: int, b: int| x.contains(a) && x.contains(b) && #[trigger] f(a) == #[trigger] f(b)
                implies a == b by {
                lemma_key_index(g, variant(name, a as nat));
                lemma_key_index(g, variant(name, b as nat));
                lemma_variant_injective(name, a as nat, b as nat);
            }
        }
        vstd::set_lib::lemma_map_size(x, y, f);
        let z = vstd::set_lib::set_int_range(0, n);
        vstd::set_lib::lemma_int_range(0, n);
        assert(y.subset_of(z)) by {
            assert forall|v: int| y.contains(v) implies z.contains(v) by {
                let c = choose|c: int| x.contains(c) && f(c) == v;
                lemma_key_index(g, variant(name, c as nat));
            }
        }
        vstd::set_lib::lemma_len_subset(y, z);
        assert(false);
    }
}

/// The name `new_symbol` picks is not defined by the grammar.
pub proof fn lemma_new_symbol_fresh(g: GrammarV, name: Seq<char>)
    ensures
        !has_key(g, new_symbol_spec(g, name)),
{
    lemma_some_variant_free(g, name);
    lemma_first_free(g, name, 1);
}

/// A name for a new rule: `symbol_name` itself when the grammar does not define it,
/// otherwise `<name-1>`, `<name-2>`, ... for `<name>`, the first one still free.
pub fn new_symbol(grammar: &Grammar, symbol_name: &str) -> (r: String)
    ensures
        r@ == new_symbol_spec(grammar@, symbol_name@),
        !has_key(grammar@, r@),
{
    proof {
        lemma_new_symbol_fresh(grammar@, symbol_name@);
    }
    if !grammar.contains_key(symbol_name) {
        return crate::text::owned(symbol_name);
    }
    let cs = chars_of(symbol_name);
    let prefix = if cs.len() > 0 {
        crate::text::string_from_range(&cs, 0, cs.len() - 1)
    } else {
        crate::text::owned(symbol_name)
    };
    proof {
        lemma_some_variant_free(grammar@, symbol_name@);
        lemma_first_free(grammar@, symbol_name@, 1);
    }
    let ghost m = first_free(grammar@, symbol_name@, 1);
    let n = grammar.len();
    let mut count: u128 = 1;
    loop
        invariant
            n == grammar@.len(),
            has_key(grammar@, symbol_name@),
            m == first_free(grammar@, symbol_name@, 1),
            prefix@ == drop_last_char(symbol_name@),
            1 <= count <= m,
            m <= grammar@.len() + 1,
            first_free(grammar@, symbol_name@, count as nat) == m,
        decreases m - count,
    {
        let mut tentative = crate::text::owned(prefix.as_str());
        crate::text::push_char(&mut tentative, '-');
        crate::text::push_decimal(&mut tentative, count);
        crate::text::push_char(&mut tentative, '>');
        assert(tentative@ =~= variant(symbol_name@, count as nat));
        if !grammar.contains_key(tentative.as_str()) {
            assert(first_free(grammar@, symbol_name@, count as nat) == count);
            return tentative;
        }
        proof {
            lemma_first_free(grammar@, symbol_name@, (count + 1) as nat);
        }
        count = count + 1;
    }
}


/// The value `get_rand` returns for the seed it leaves behind: its upper 32 bits.
pub open spec fn rand_value(next_seed: u64) -> int {
    next_seed as int / 0x1_0000_0000int
}

/// Advances `seed` to its FxHash and returns the upper 32 bits of the new seed.
pub fn get_rand(seed: &mut u64) -> (r: usize)
    ensures
        *final(seed) == crate::rand::fx_hash_u64(*old(seed)),
        r as int == rand_value(*final(seed)),
{
    let h = crate::rand::fx_hash_of(*seed);
    *seed = h;
    let hi: u64 = h >> 32;
    assert(hi == h / 0x1_0000_0000 && hi < 0x1_0000_0000) by (bit_vector)
        requires
            hi == h >> 32,
    ;
    hi as usize
}

/// The seed `simple_grammar_fuzzer` starts from: the low 33 bits of the time in
/// milliseconds.
pub open spec fn time_seed(now_millis: u128) -> u64 {
    (now_millis % 0x2_0000_0000) as u64
}

/// One round of `simple_grammar_fuzzer` on a text with nonterminals `nts` (not
/// empty): a nonterminal and an expansion of its rule are picked at random and the
/// first occurrence of the nonterminal is replaced by the expansion's text. The new
/// text and seed, or `None` where the nonterminal has no rule or an empty one.
pub open spec fn simple_round(g: GrammarV, term: Seq<char>, ts: u64) -> Option<(Seq<char>, u64)> {
    let nts = tokens(Pattern::Nonterminal, term);
    let s1 = crate::rand::fx_hash_u64(ts);
    let sym = nts[rand_value(s1) % nts.len() as int];
    if !has_key(g, sym) || rule_of(g, sym).len() == 0 {
        None
    } else {
        let exps = rule_of(g, sym);
        let s2 = crate::rand::fx_hash_u64(s1);
        let e = self::options::exp_text(exps[rand_value(s2) % exps.len() as int]);
        Some((crate::text::replace_first(term, sym, e), s2))
    }
}

/// The outcome of `simple_grammar_fuzzer` from `term` after `trials` refused
/// expansions, with seed `ts` and at most `fuel` more rounds: `Some(Ok(text))` when
/// the text has no nonterminal left, `Some(Err(()))` when it gives up, and `None`
/// where a round meets a nonterminal without a rule or with an empty one.
///
/// The text after a round is kept when it has fewer than `max_nt` nonterminals;
/// otherwise the round counts as a refused expansion, and after `max_trials` of them
/// in a row the fuzzer gives up.
pub open spec fn simple_fuzz_run(
    g: GrammarV,
    term: Seq<char>,
    trials: nat,
    ts: u64,
    max_nt: nat,
    max_trials: nat,
    fuel: nat,
) -> Option<Result<Seq<char>, ()>>
    decreases fuel,
{
    if tokens(Pattern::Nonterminal, term).len() == 0 {
        Some(Ok(term))
    } else if fuel == 0 {
        Some(Err(()))
    } else {
        match simple_round(g, term, ts) {
            None => None,
            Some((new_term, s2)) => if tokens(Pattern::Nonterminal, new_term).len() < max_nt {
                simple_fuzz_run(g, new_term, 0, s2, max_nt, max_trials, (fuel - 1) as nat)
            } else if trials + 1 >= max_trials {
                Some(Err(()))
            } else {
                simple_fuzz_run(g, term, trials + 1, s2, max_nt, max_trials, (fuel - 1) as nat)
            },
        }
    }
}

/// Refused expansions count only in a row: once an expansion is accepted, the run
/// goes on from the new text exactly as from a count of 0, whatever the count was
/// before.
pub proof fn lemma_simple_fuzz_accept_resets(
    g: GrammarV,
    term: Seq<char>,
    k: nat,
    ts: u64,
    max_nt: nat,
    max_trials: nat,
    fuel: nat,
    new_term: Seq<char>,
    s2: u64,
)
    requires
        tokens(Pattern::Nonterminal, term).len() > 0,
        fuel > 0,
        simple_round(g, term, ts) == Some((new_term, s2)),
        tokens(Pattern::Nonterminal, new_term).len() < max_nt,
    ensures
        simple_fuzz_run(g, term, k, ts, max_nt, max_trials, fuel) == simple_fuzz_run(
            g,
            term,
            0,
            ts,
            max_nt,
            max_trials,
            fuel,
        ),
        simple_fuzz_run(g, term, k, ts, max_nt, max_trials, fuel) == simple_fuzz_run(
            g,
            new_term,
            0,
            s2,
            max_nt,
            max_trials,
            (fuel - 1) as nat,
        ),
{
}

/// The fuzzer gives up after `max_trials` refused expansions in a row and not
/// before: a refused expansion with fewer refusals behind it keeps the text and
/// goes on with one more.
pub proof fn lemma_simple_fuzz_refusal(
    g: GrammarV,
    term: Seq<char>,
    k: nat,
    ts: u64,
    max_nt: nat,
    max_trials: nat,
    fuel: nat,
    new_term: Seq<char>,
    s2: u64,
)
    requires
        tokens(Pattern::Nonterminal, term).len() > 0,
        fuel > 0,
        simple_round(g, term, ts) == Some((new_term, s2)),
        tokens(Pattern::Nonterminal, new_term).len() >= max_nt,
    ensures
        k + 1 >= max_trials ==> simple_fuzz_run(g, term, k, ts, max_nt, max_trials, fuel) == Some(
            Err::<Seq<char>, ()>(()),
        ),
        k + 1 < max_trials ==> simple_fuzz_run(g, term, k, ts, max_nt, max_trials, fuel) == simple_fuzz_run(
            g,
            term,
            k + 1,
            s2,
            max_nt,
            max_trials,
            (fuel - 1) as nat,
        ),
{
}

/// One round of `simple_grammar_fuzzer` (see `simple_round`).
fn simple_round_exec(syntax: &Grammar, term: &String, timestamp: &mut u64) -> (r: Option<String>)
    requires
        tokens(Pattern::Nonterminal, term@).len() > 0,
    ensures
        r is None ==> simple_round(syntax@, term@, *old(timestamp)) is None,
        r matches Some(t) ==> simple_round(syntax@, term@, *old(timestamp)) == Some((t@, *final(timestamp))),
{
    let none_terminals = nonterminals(&Union::OnlyA(term.clone()));
    assert(none_terminals.deep_view() == tokens(Pattern::Nonterminal, term@));
    let rand_var = get_rand(timestamp) % none_terminals.len();
    let symbol_to_expand = &none_terminals[rand_var];
    assert(symbol_to_expand@ == none_terminals.deep_view()[rand_var as int]);
    let expansions = match syntax.get(symbol_to_expand.as_str()) {
        Some(v) => v,
        None => return None,
    };
    if expansions.len() == 0 {
        return None;
    }
    let rand_var2 = get_rand(timestamp) % expansions.len();
    assert(expansions@[rand_var2 as int].deep_view() == expansions.deep_view()[rand_var2 as int]);
    let expansion = self::options::exp_string(&expansions[rand_var2]);
    Some(crate::text::replacen_once(term.as_str(), symbol_to_expand.as_str(), expansion.as_str()))
}

/// Expands `start_symbol` as text by random rounds (see `simple_fuzz_run`, with at
/// most `u64::MAX` rounds) from the seed that `now_millis` gives; the error is
/// `"Cannot expand more!"`.
#[verifier::spinoff_prover]
pub fn simple_grammar_fuzzer(
    syntax: &Grammar,
    start_symbol: &str,
    max_nonterminals: usize,
    max_expansion_trials: usize,
    now_millis: u128,
) -> (r: Result<String, &'static str>)
    requires
        simple_fuzz_run(
            syntax@,
            start_symbol@,
            0,
            time_seed(now_millis),
            max_nonterminals as nat,
            max_expansion_trials as nat,
            u64::MAX as nat,
        ) is Some,
    ensures
        r matches Ok(s) ==> simple_fuzz_run(
            syntax@,
            start_symbol@,
            0,
            time_seed(now_millis),
            max_nonterminals as nat,
            max_expansion_trials as nat,
            u64::MAX as nat,
        ) == Some(Ok::<Seq<char>, ()>(s@)),
        r matches Err(e) ==> simple_fuzz_run(
            syntax@,
            start_symbol@,
            0,
            time_seed(now_millis),
            max_nonterminals as nat,
            max_expansion_trials as nat,
            u64::MAX as nat,
        ) == Some(Err::<Seq<char>, ()>(())) && e@ == "Cannot expand more!"@,
{
    let ghost g = syntax@;
    let mut term = crate::text::owned(start_symbol);
    let mut expansion_trials: usize = 0;
    let mut timestamp: u64 = (now_millis % 0x2_0000_0000) as u64;
    let mut fuel: u64 = u64::MAX;
    let ghost want = simple_fuzz_run(g, start_symbol@, 0, timestamp, max_nonterminals as nat, max_expansion_trials as nat, u64::MAX as nat);
    loop
        invariant
            g == syntax@,
            want is Some,
            want == simple_fuzz_run(
                syntax@,
                start_symbol@,
                0,
                time_seed(now_millis),
                max_nonterminals as nat,
                max_expansion_trials as nat,
                u64::MAX as nat,
            ),
            want == simple_fuzz_run(g, term@, expansion_trials as nat, timestamp, max_nonterminals as nat, max_expansion_trials as nat, fuel as nat),
            expansion_trials == 0 || expansion_trials < max_expansion_trials,
        decreases fuel,
    {
        let none_terminals = nonterminals(&Union::OnlyA(term.clone()));
        assert(none_terminals.deep_view() == tokens(Pattern::Nonterminal, term@));
        if none_terminals.len() == 0 {
            return Ok(term);
        }
        if fuel == 0 {
            return Err("Cannot expand more!");
        }
        let ghost ts0 = timestamp;
        let new_term = match simple_round_exec(syntax, &term, &mut timestamp) {
            Some(t) => t,
            None => return Err("Cannot expand more!"),
        };
        let new_count = nonterminals(&Union::OnlyA(new_term.clone()));
        assert(new_count.deep_view() == tokens(Pattern::Nonterminal, new_term@));
        if new_count.len() < max_nonterminals {
            term = new_term;
            expansion_trials = 0;
        } else {
            if expansion_trials + 1 >= max_expansion_trials {
                return Err("Cannot expand more!");
            }
            expansion_trials = expansion_trials + 1;
        }
        fuel = fuel - 1;
    }
}

/// What `simple_grammar_fuzzer` returns as success has no nonterminal left.
pub proof fn lemma_simple_fuzz_done(
    g: GrammarV,
    term: Seq<char>,
    trials: nat,
    ts: u64,
    max_nt: nat,
    max_trials: nat,
    fuel: nat,
)
    ensures
        simple_fuzz_run(g, term, trials, ts, max_nt, max_trials, fuel) matches Some(Ok(t)) ==> tokens(
            Pattern::Nonterminal,
            t,
        ).len() == 0,
    decreases fuel,
{
    if tokens(Pattern::Nonterminal, term).len() > 0 && fuel > 0 {
        match simple_round(g, term, ts) {
            None => {},
            Some((new_term, s2)) => {
                lemma_simple_fuzz_done(g, new_term, 0, s2, max_nt, max_trials, (fuel - 1) as nat);
                lemma_simple_fuzz_done(g, term, trials + 1, s2, max_nt, max_trials, (fuel - 1) as nat);
            },
        }
    }
}

} // verus!
