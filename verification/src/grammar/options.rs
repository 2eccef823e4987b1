//! Per-expansion options: a small map from option names to values.
use vstd::prelude::*;
use crate::text::str_eq;
use crate::text::owned;
use crate::text::lemma_deep_view_push;
use crate::text::lemma_deep_view_update;
use super::Union;
use super::Expansion;
use super::ExpansionV;
use super::Grammar;
use super::GrammarV;

verus! {

/// The options attached to one expansion: names mapped to values, in the
/// order in which the names were first set.
pub struct Opts {
    pub entries: Vec<(String, String)>,
}

/// The value of options: pairs of name and value.
pub type OptsV = Seq<(Seq<char>, Seq<char>)>;

impl DeepView for Opts {
    type V = OptsV;

    open spec fn deep_view(&self) -> OptsV {
        self.entries.deep_view()
    }
}

impl View for Opts {
    type V = OptsV;

    open spec fn view(&self) -> OptsV {
        self.entries.deep_view()
    }
}

/// The index of the first entry named `k`, or -1.
pub open spec fn opt_index_from(o: OptsV, k: Seq<char>, i: int) -> int
    decreases o.len() - i,
{
    if i < 0 || i >= o.len() {
        -1
    } else if o[i].0 == k {
        i
    } else {
        opt_index_from(o, k, i + 1)
    }
}

pub open spec fn opt_index(o: OptsV, k: Seq<char>) -> int {
    opt_index_from(o, k, 0)
}

/// The value of option `k`, if it is set.
pub open spec fn opt_get(o: OptsV, k: Seq<char>) -> Option<Seq<char>> {
    if opt_index(o, k) >= 0 {
        Some(o[opt_index(o, k)].1)
    } else {
        None
    }
}

/// `o` with option `k` set to `v`: an existing entry is overwritten in place,
/// a new name is appended.
pub open spec fn opt_insert(o: OptsV, k: Seq<char>, v: Seq<char>) -> OptsV {
    if opt_index(o, k) >= 0 {
        o.update(opt_index(o, k), (k, v))
    } else {
        o.push((k, v))
    }
}

/// The options built by setting each pair of `a` in turn.
pub open spec fn opts_from(a: Seq<(Seq<char>, Seq<char>)>) -> OptsV
    decreases a.len(),
{
    if a.len() == 0 {
        Seq::empty()
    } else {
        opt_insert(opts_from(a.drop_last()), a.last().0, a.last().1)
    }
}

/// The names that the options set, as a set.
pub open spec fn opt_names(o: OptsV) -> Set<Seq<char>> {
    Set::new(|k: Seq<char>| exists|i: int| 0 <= i < o.len() && o[i].0 == k)
}

pub proof fn lemma_opt_index_from(o: OptsV, k: Seq<char>, i: int)
    requires
        0 <= i,
    ensures
        opt_index_from(o, k, i) == -1 ==> forall|j: int| i <= j < o.len() ==> o[j].0 != k,
        opt_index_from(o, k, i) != -1 ==> i <= opt_index_from(o, k, i) < o.len() && o[opt_index_from(
            o,
            k,
            i,
        )].0 == k && forall|j: int| i <= j < opt_index_from(o, k, i) ==> o[j].0 != k,
    decreases o.len() - i,
{
    if i < o.len() && o[i].0 != k {
        lemma_opt_index_from(o, k, i + 1);
    }
}

impl Opts {
    /// Options with no entries.
    pub fn new() -> (r: Opts)
        ensures
            r@ == Seq::<(Seq<char>, Seq<char>)>::empty(),
    {
        Opts { entries: Vec::new() }
    }

    /// Whether no option is set.
    pub fn is_empty(&self) -> (r: bool)
        ensures
            r == (self@.len() == 0),
    {
        self.entries.len() == 0
    }

    /// The index of the entry named `k`.
    pub fn index_of(&self, k: &str) -> (r: Option<usize>)
        ensures
            r is None ==> opt_index(self@, k@) == -1,
            r matches Some(i) ==> i as int == opt_index(self@, k@) && i < self@.len()
                && self@[i as int].0 == k@,
    {
        proof {
            lemma_opt_index_from(self@, k@, 0);
        }
        let mut i: usize = 0;
        while i < self.entries.len()
            invariant
                i <= self.entries.len(),
                opt_index(self@, k@) == opt_index_from(self@, k@, i as int),
            decreases self.entries.len() - i,
        {
            if str_eq(self.entries[i].0.as_str(), k) {
                return Some(i);
            }
            i = i + 1;
        }
        None
    }

    /// Sets option `k` to `v`.
    pub fn insert(&mut self, k: String, v: String)
        ensures
            final(self)@ == opt_insert(old(self)@, k@, v@),
    {
        match self.index_of(k.as_str()) {
            Some(i) => {
                let ghost kv = k@;
                let ghost before = self.entries@;
                self.entries.set(i, (k, v));
                proof {
                    lemma_deep_view_update(before, self.entries@, i as int, self.entries@[i as int]);
                }
                assert(self@ =~= opt_insert(old(self)@, kv, v@));
            },
            None => {
                let ghost kv = k@;
                let ghost before = self.entries@;
                self.entries.push((k, v));
                proof {
                    lemma_deep_view_push(before, self.entries@, self.entries@.last());
                }
                assert(self@ =~= opt_insert(old(self)@, kv, v@));
            },
        }
    }

    /// A copy of the options.
    pub fn duplicate(&self) -> (r: Opts)
        ensures
            r@ == self@,
    {
        let mut entries: Vec<(String, String)> = Vec::new();
        let mut i: usize = 0;
        while i < self.entries.len()
            invariant
                i <= self.entries.len(),
                entries.deep_view() =~= self.entries.deep_view().take(i as int),
            decreases self.entries.len() - i,
        {
            let k = self.entries[i].0.clone();
            let v = self.entries[i].1.clone();
            let ghost before = entries@;
            entries.push((k, v));
            proof {
                lemma_deep_view_push(before, entries@, entries@.last());
            }
            i = i + 1;
        }
        assert(self.entries.deep_view().take(i as int) =~= self.entries.deep_view());
        Opts { entries }
    }
}

/// The options that set each pair of `a` in turn (later pairs overwrite earlier ones
/// with the same name).
pub fn opts(a: &[(&str, &str)]) -> (r: Opts)
    ensures
        r@ == opts_from(a@.map_values(|x: (&str, &str)| (x.0@, x.1@))),
{
    let ghost pairs = a@.map_values(|x: (&str, &str)| (x.0@, x.1@));
    let mut result = Opts::new();
    let mut i: usize = 0;
    while i < a.len()
        invariant
            i <= a@.len(),
            pairs == a@.map_values(|x: (&str, &str)| (x.0@, x.1@)),
            result@ == opts_from(pairs.take(i as int)),
        decreases a.len() - i,
    {
        let (k, v) = a[i];
        result.insert(owned(k), owned(v));
        assert(pairs.take(i + 1).drop_last() =~= pairs.take(i as int));
        i = i + 1;
    }
    assert(pairs.take(a@.len() as int) =~= pairs);
    result
}

/// The text of an expansion.
pub open spec fn exp_text(e: ExpansionV) -> Seq<char> {
    match e {
        Union::OnlyA(s) => s,
        Union::OnlyB(p) => p.0,
    }
}

/// The options of an expansion (none for a bare string).
pub open spec fn exp_options(e: ExpansionV) -> OptsV {
    match e {
        Union::OnlyA(_) => Seq::empty(),
        Union::OnlyB(p) => p.1,
    }
}

/// The text of an expansion.
pub fn exp_string(expansion: &Expansion) -> (r: String)
    ensures
        r@ == exp_text(expansion.deep_view()),
{
    match expansion {
        Union::OnlyA(s) => s.clone(),
        Union::OnlyB(p) => p.0.clone(),
    }
}

/// The options of an expansion.
pub fn exp_opts(expansion: &Expansion) -> (r: Opts)
    ensures
        r@ == exp_options(expansion.deep_view()),
{
    match expansion {
        Union::OnlyA(_) => Opts::new(),
        Union::OnlyB(p) => p.1.duplicate(),
    }
}

/// The value of option `attribute` of an expansion, if it is set.
pub fn exp_opt(expansion: &Expansion, attribute: &str) -> (r: Option<String>)
    ensures
        r matches Some(v) ==> opt_get(exp_options(expansion.deep_view()), attribute@) == Some(v@),
        r is None ==> opt_get(exp_options(expansion.deep_view()), attribute@) is None,
{
    let o = exp_opts(expansion);
    match o.index_of(attribute) {
        Some(i) => Some(o.entries[i].1.clone()),
        None => None,
    }
}

/// A copy of an expansion.
pub fn copy_expansion(e: &Expansion) -> (r: Expansion)
    ensures
        r.deep_view() == e.deep_view(),
{
    match e {
        Union::OnlyA(s) => Union::OnlyA(s.clone()),
        Union::OnlyB(p) => Union::OnlyB((p.0.clone(), p.1.duplicate())),
    }
}

/// The options that result from setting `new_opts` on top of `old_opts`: when either is
/// empty the new options replace the old ones outright, otherwise each new entry is set
/// in turn.
pub open spec fn merged_opts(old_opts: OptsV, new_opts: OptsV) -> OptsV {
    if new_opts.len() == 0 || old_opts.len() == 0 {
        new_opts
    } else {
        merge_upto(old_opts, new_opts, new_opts.len() as int)
    }
}

pub open spec fn merge_upto(old_opts: OptsV, new_opts: OptsV, n: int) -> OptsV
    decreases n,
{
    if n <= 0 {
        old_opts
    } else {
        opt_insert(merge_upto(old_opts, new_opts, n - 1), new_opts[n - 1].0, new_opts[n - 1].1)
    }
}

/// The expansion with text `s` and options `o`: a bare string when there are no options.
pub open spec fn make_expansion(s: Seq<char>, o: OptsV) -> ExpansionV {
    if o.len() == 0 {
        Union::OnlyA(s)
    } else {
        Union::OnlyB((s, o))
    }
}

/// The index of the first expansion of `exps` whose text is `t`, or -1.
pub open spec fn exp_index_from(exps: Seq<ExpansionV>, t: Seq<char>, i: int) -> int
    decreases exps.len() - i,
{
    if i < 0 || i >= exps.len() {
        -1
    } else if exp_text(exps[i]) == t {
        i
    } else {
        exp_index_from(exps, t, i + 1)
    }
}

/// What `set_opts` makes of the grammar: the first expansion of rule `r` with the
/// same text as `e` gets the merged options, or `None` when there is no such expansion.
pub open spec fn set_opts_result(g: GrammarV, r: int, e: ExpansionV, o: OptsV) -> Option<
    GrammarV,
> {
    let exps = g[r].1;
    let i = exp_index_from(exps, exp_text(e), 0);
    if i < 0 {
        None
    } else {
        let ne = make_expansion(exp_text(exps[i]), merged_opts(exp_options(exps[i]), o));
        Some(g.update(r, (g[r].0, exps.update(i, ne))))
    }
}

fn merge_opts(old_opts: Opts, new_opts: &Opts) -> (r: Opts)
    ensures
        r@ == merged_opts(old_opts@, new_opts@),
{
    if new_opts.is_empty() || old_opts.is_empty() {
        return new_opts.duplicate();
    }
    let mut result = old_opts;
    let mut j: usize = 0;
    while j < new_opts.entries.len()
        invariant
            j <= new_opts.entries.len(),
            result@ == merge_upto(old_opts@, new_opts@, j as int),
        decreases new_opts.entries.len() - j,
    {
        let k = new_opts.entries[j].0.clone();
        let v = new_opts.entries[j].1.clone();
        result.insert(k, v);
        j = j + 1;
    }
    result
}

/// Sets the options `opts` on the expansion of `symbol` whose text is that of
/// `expansion`; errs with the message `"panic!"` when the rule has no such expansion.
pub fn set_opts(grammar: &mut Grammar, symbol: &str, expansion: &Expansion, opts: &Opts) -> (r:
    Result<(), &'static str>)
    requires
        old(grammar).wf(),
        super::has_key(old(grammar)@, symbol@),
    ensures
        final(grammar).wf(),
        match set_opts_result(
            old(grammar)@,
            super::key_index(old(grammar)@, symbol@),
            expansion.deep_view(),
            opts@,
        ) {
            Some(g) => r is Ok && final(grammar)@ == g,
            None => (r matches Err(m) && m@ == "panic!"@) && final(grammar)@ == old(grammar)@,
        },
{
    let ri = grammar.index_of(symbol).unwrap();
    let target = exp_string(expansion);
    let n = grammar.rules[ri].1.len();
    let mut i: usize = 0;
    while i < n
        invariant
            grammar@ == old(grammar)@,
            grammar.wf(),
            ri < grammar@.len(),
            ri as int == super::key_index(grammar@, symbol@),
            n == grammar@[ri as int].1.len(),
            i <= n,
            exp_index_from(grammar@[ri as int].1, target@, 0) == exp_index_from(
                grammar@[ri as int].1,
                target@,
                i as int,
            ),
            target@ == exp_text(expansion.deep_view()),
        decreases n - i,
    {
        let s = exp_string(&grammar.rules[ri].1[i]);
        assert(grammar.rules@[ri as int].1@[i as int].deep_view() == grammar@[ri as int].1[i as int]);
        if str_eq(s.as_str(), target.as_str()) {
            let old_o = exp_opts(&grammar.rules[ri].1[i]);
            let new_o = merge_opts(old_o, opts);
            let ne = if new_o.is_empty() {
                Union::OnlyA(s)
            } else {
                Union::OnlyB((s, new_o))
            };
            grammar.set_expansion(ri, i, ne);
            return Ok(());
        }
        i = i + 1;
    }
    Err("panic!")
}

} // verus!
