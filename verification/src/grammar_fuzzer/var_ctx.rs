//! Filling the variable slots of an intermediate program text.
//!
//! A slot is written `@State:Trait,Trait;` (for instance `@Define:Primitive;`). The
//! text is cut into slots and the text between them; slots are replaced in order,
//! and braces in the text between them open and close scopes of variables:
//!
//! * `@Refer` becomes the name of a variable in scope that has every trait asked for;
//! * `@Define` introduces a loop variable (`ForIter`, `ForRange`) that comes into
//!   scope at the next `{`, or defines a fresh `vec` (`Iterable`) or `var`
//!   (`Primitive`) variable with a fuzzed array or expression;
//! * `@Assign` assigns a fuzzed value of the trait asked for to such a variable.
//!
//! Variables are kept in the order they were defined.
use vstd::prelude::*;
use crate::text::chars_of;
use crate::text::owned;
use crate::text::str_eq;
use crate::text::push_char;
use crate::text::push_decimal;
use crate::text::decimal;
use crate::text::concat;
use crate::text::copy_strings;
use crate::text::lemma_deep_view_push;
use crate::text::lemma_deep_view_update;
use crate::rand::fx_hash_u64;
use crate::grammar::Union;
use crate::grammar::GrammarV;
use crate::grammar::has_key;
use crate::grammar::drop_last_char;
use crate::grammar::pattern::Pattern;
use crate::grammar::pattern::pieces;
use crate::grammar::pattern::piece_texts;
use crate::grammar::pattern::join;
use crate::grammar::pattern::split_pieces;
use crate::grammar::pattern::lemma_pieces_join;
use crate::grammar::predef_grammars::get_expr_grammar;
use crate::grammar::predef_grammars::get_array_grammar;
use crate::grammar::predef_grammars::expr_grammar;
use crate::grammar::predef_grammars::array_grammar;
use crate::grammar_fuzzer::GrammarsFuzzer;
use crate::grammar_fuzzer::expand_tree_spec;
use crate::grammar_fuzzer::start_tree;
use crate::grammar_fuzzer::rand_index;
use crate::grammar_fuzzer::get_rand;
use crate::grammar_fuzzer::tree::terminals;
use crate::grammar_fuzzer::cost::fuzzable;

verus! {

/// The traits of a variable.
pub type TraitsV = Seq<Seq<char>>;

/// Variables in scope with their traits, in the order they were defined.
pub type VarsV = Seq<(Seq<char>, TraitsV)>;

/// `s` cut at every `c`, as `str::split` does: one more part than there are `c`s.
pub open spec fn split_char(s: Seq<char>, c: char) -> Seq<Seq<char>>
    decreases s.len(),
{
    if s.len() == 0 {
        seq![Seq::<char>::empty()]
    } else {
        let rest = split_char(s.drop_last(), c);
        if s.last() == c {
            rest.push(Seq::empty())
        } else {
            rest.update(rest.len() - 1, rest.last().push(s.last()))
        }
    }
}

proof fn lemma_split_char_len(s: Seq<char>, c: char)
    ensures
        split_char(s, c).len() >= 1,
    decreases s.len(),
{
    if s.len() > 0 {
        lemma_split_char_len(s.drop_last(), c);
    }
}

/// The state and traits of a slot: the text before the first `:`, and the text after
/// it up to the next `:` with its last character dropped, cut at each `,`.
pub open spec fn var_info(ir: Seq<char>) -> (Seq<char>, TraitsV) {
    let parts = split_char(ir, ':');
    (parts[0], split_char(drop_last_char(parts[1]), ','))
}

/// `prefix` followed by the decimal digits of `k`.
pub open spec fn numbered(prefix: Seq<char>, k: nat) -> Seq<char> {
    prefix + decimal(k)
}

/// Whether `vars` holds a variable named `name`.
pub open spec fn defines(vars: VarsV, name: Seq<char>) -> bool {
    exists|i: int| 0 <= i < vars.len() && vars[i].0 == name
}

/// The least `k` from `c` on with `numbered(prefix, k)` not defined in `vars`
/// (searching no further than one past the number of variables).
pub open spec fn free_number(vars: VarsV, prefix: Seq<char>, c: nat) -> nat
    decreases vars.len() + 1 - c,
{
    if c > vars.len() {
        c
    } else if !defines(vars, numbered(prefix, c)) {
        c
    } else {
        free_number(vars, prefix, c + 1)
    }
}

/// The name `generate_unique_var_name` gives: `prefix` numbered by the least number,
/// from 0, whose name is not defined.
pub open spec fn unique_name(vars: VarsV, prefix: Seq<char>) -> Seq<char> {
    numbered(prefix, free_number(vars, prefix, 0))
}

/// The index of the variable named `name` at or after `i`, or -1.
pub open spec fn var_index_from(vars: VarsV, name: Seq<char>, i: int) -> int
    decreases vars.len() - i,
{
    if i < 0 || i >= vars.len() {
        -1
    } else if vars[i].0 == name {
        i
    } else {
        var_index_from(vars, name, i + 1)
    }
}

/// `vars` with `name` set to `traits`: an existing variable is overwritten in place,
/// a new one appended.
pub open spec fn vars_insert(vars: VarsV, name: Seq<char>, traits: TraitsV) -> VarsV {
    if var_index_from(vars, name, 0) >= 0 {
        vars.update(var_index_from(vars, name, 0), (name, traits))
    } else {
        vars.push((name, traits))
    }
}

/// Whether `have` holds every trait of `want`.
pub open spec fn has_traits(have: TraitsV, want: TraitsV) -> bool {
    forall|t: int| 0 <= t < want.len() ==> have.contains(#[trigger] want[t])
}

/// The names, in order, of the first `n` variables of `vars` that have every trait
/// of `want`.
pub open spec fn referable(vars: VarsV, want: TraitsV, n: int) -> Seq<Seq<char>>
    decreases n,
{
    if n <= 0 {
        Seq::empty()
    } else {
        referable(vars, want, n - 1) + if has_traits(vars[n - 1].1, want) {
            seq![vars[n - 1].0]
        } else {
            Seq::empty()
        }
    }
}

/// What the slot filler carries from piece to piece: the seed, the saved scopes, the
/// variables in scope, a loop variable waiting for its `{`, and the pieces so far.
pub struct CtxV {
    pub seed: u64,
    pub stack: Seq<VarsV>,
    pub current: VarsV,
    pub for_iter: Option<Seq<char>>,
    pub out: Seq<Seq<char>>,
}

/// What `fuzz` yields for a fuzzer of `g` from `start`: the new seed and the text.
pub open spec fn fuzz_result(g: GrammarV, start: Seq<char>, min: usize, max: usize, seed: u64) -> (u64, Seq<char>) {
    let (s, t) = expand_tree_spec(g, min, max, seed, start_tree(start));
    (s, terminals(t))
}

/// An expression fuzzed from `<start>` of the expression grammar.
pub open spec fn expr_fuzz(seed: u64) -> (u64, Seq<char>) {
    fuzz_result(expr_grammar(), "<start>"@, 3, 5, seed)
}

/// An array fuzzed from `<array>` of the array grammar.
pub open spec fn array_fuzz(seed: u64) -> (u64, Seq<char>) {
    fuzz_result(array_grammar(), "<array>"@, 10, 0, seed)
}

/// `st` with `piece` appended to the output.
pub open spec fn emit(st: CtxV, piece: Seq<char>) -> CtxV {
    CtxV { out: st.out.push(piece), ..st }
}

/// `st` after a definition of `name` with `trait_name`, written out with a fuzzed
/// value (`iterable` picks an array, otherwise an expression).
pub open spec fn define_step(st: CtxV, prefix: Seq<char>, trait_name: Seq<char>, iterable: bool) -> CtxV {
    let name = unique_name(st.current, prefix);
    let (s2, txt) = if iterable {
        array_fuzz(st.seed)
    } else {
        expr_fuzz(st.seed)
    };
    CtxV {
        seed: s2,
        current: vars_insert(st.current, name, seq![trait_name]),
        out: st.out.push(name + " = "@ + txt),
        ..st
    }
}

/// Filling one slot.
#[verifier::opaque]
pub open spec fn slot_step(st: CtxV, piece: Seq<char>) -> CtxV {
    let (state, want) = var_info(piece);
    let refs = referable(st.current, want, st.current.len() as int);
    if state == "@Refer"@ {
        if refs.len() > 0 {
            CtxV {
                seed: fx_hash_u64(st.seed),
                out: st.out.push(refs[rand_index(st.seed, refs.len() as int)]),
                ..st
            }
        } else {
            emit(st, piece)
        }
    } else if state == "@Define"@ {
        if want.contains("ForIter"@) || want.contains("ForRange"@) {
            let name = unique_name(st.current, "it"@);
            CtxV { for_iter: Some(name), out: st.out.push(name), ..st }
        } else if want.contains("Iterable"@) {
            define_step(st, "vec"@, "Iterable"@, true)
        } else if want.contains("Primitive"@) {
            define_step(st, "var"@, "Primitive"@, false)
        } else {
            emit(st, piece)
        }
    } else if state == "@Assign"@ {
        if refs.len() > 0 {
            let s1 = fx_hash_u64(st.seed);
            let head = refs[rand_index(st.seed, refs.len() as int)] + " = "@;
            if want.contains("Primitive"@) {
                let (s2, txt) = expr_fuzz(s1);
                CtxV { seed: s2, out: st.out.push(head + txt), ..st }
            } else if want.contains("Iterable"@) {
                let (s2, txt) = array_fuzz(s1);
                CtxV { seed: s2, out: st.out.push(head + txt), ..st }
            } else {
                CtxV { seed: s1, out: st.out.push(head), ..st }
            }
        } else {
            emit(st, piece)
        }
    } else {
        emit(st, piece)
    }
}

/// The scopes after one character of plain text: `{` saves the variables in scope
/// and brings a waiting loop variable into scope; `}` restores the last saved scope.
pub open spec fn brace_step(st: CtxV, ch: char) -> CtxV {
    if ch == '{' {
        match st.for_iter {
            Some(name) => CtxV {
                stack: st.stack.push(st.current),
                current: vars_insert(st.current, name, seq!["Primitive"@]),
                for_iter: None,
                ..st
            },
            None => CtxV { stack: st.stack.push(st.current), ..st },
        }
    } else if ch == '}' && st.stack.len() > 0 {
        CtxV { current: st.stack.last(), stack: st.stack.drop_last(), ..st }
    } else {
        st
    }
}

/// Closing a block restores the scope in force where it was opened: whatever
/// happened inside the block (variables defined, seeds drawn, text written), as long
/// as its own `{` is the innermost one still open, the `}` that closes it brings back
/// exactly the variables in scope just before the `{` and the enclosing scopes; a
/// name defined only inside the block can no longer be referred to.
pub proof fn lemma_block_restores_scope(st: CtxV, inside: CtxV)
    requires
        inside.stack == brace_step(st, '{').stack,
    ensures
        brace_step(inside, '}').current == st.current,
        brace_step(inside, '}').stack == st.stack,
{
    assert(inside.stack.drop_last() =~= st.stack);
}

/// Opening a block saves the scope in force on top of the enclosing ones, and keeps
/// its variables in scope (adding the loop variable that a `for` header announced).
pub proof fn lemma_block_keeps_scope(st: CtxV)
    ensures
        brace_step(st, '{').stack == st.stack.push(st.current),
        st.for_iter is None ==> brace_step(st, '{').current == st.current,
{
}

/// The scopes after the first `n` characters of `s`.
pub open spec fn braces_upto(st: CtxV, s: Seq<char>, n: int) -> CtxV
    decreases n,
{
    if n <= 0 {
        st
    } else {
        brace_step(braces_upto(st, s, n - 1), s[n - 1])
    }
}

/// Whether a piece is a slot: it starts with `@`.
pub open spec fn is_slot(piece: Seq<char>) -> bool {
    piece.len() > 0 && piece[0] == '@'
}

/// One piece: a slot is filled, plain text kept with its braces applied.
pub open spec fn ctx_step(st: CtxV, piece: Seq<char>) -> CtxV {
    if is_slot(piece) {
        slot_step(st, piece)
    } else {
        emit(braces_upto(st, piece, piece.len() as int), piece)
    }
}

/// The state after the first `n` pieces.
pub open spec fn ctx_run(st: CtxV, ps: Seq<Seq<char>>, n: int) -> CtxV
    decreases n,
{
    if n <= 0 {
        st
    } else {
        ctx_step(ctx_run(st, ps, n - 1), ps[n - 1])
    }
}

/// The state the slot filler starts in.
pub open spec fn ctx_start(seed: u64) -> CtxV {
    CtxV {
        seed,
        stack: seq![Seq::<(Seq<char>, TraitsV)>::empty()],
        current: Seq::empty(),
        for_iter: None,
        out: Seq::empty(),
    }
}

/// The pieces of an intermediate text: its slots and the text between them.
pub open spec fn ir_pieces(ir: Seq<char>) -> Seq<Seq<char>> {
    piece_texts(pieces(Pattern::VarSlot, ir))
}

/// The number of saved scopes after the first `n` characters of `s`, from `d`.
pub open spec fn depth_upto(s: Seq<char>, d: int, n: int) -> int
    decreases n,
{
    if n <= 0 {
        d
    } else {
        let e = depth_upto(s, d, n - 1);
        if s[n - 1] == '{' {
            e + 1
        } else if s[n - 1] == '}' {
            e - 1
        } else {
            e
        }
    }
}

/// Every `}` among the first `n` characters of `s`, from `d` saved scopes, finds one.
pub open spec fn closes_ok(s: Seq<char>, d: int, n: int) -> bool
    decreases n,
{
    n <= 0 || (closes_ok(s, d, n - 1) && (s[n - 1] == '}' ==> depth_upto(s, d, n - 1) >= 1))
}

/// The number of saved scopes after the first `n` pieces.
pub open spec fn ir_depth(ps: Seq<Seq<char>>, n: int) -> int
    decreases n,
{
    if n <= 0 {
        1
    } else if is_slot(ps[n - 1]) {
        ir_depth(ps, n - 1)
    } else {
        depth_upto(ps[n - 1], ir_depth(ps, n - 1), ps[n - 1].len() as int)
    }
}

/// An intermediate text the slot filler accepts: every piece that starts with `@`
/// holds a `:`, and every `}` in the text between slots closes a scope (the
/// outermost one included).
pub open spec fn ir_ok(ir: Seq<char>) -> bool {
    let ps = ir_pieces(ir);
    &&& forall|i: int| 0 <= i < ps.len() && is_slot(#[trigger] ps[i]) ==> ps[i].contains(':')
    &&& forall|i: int|
        0 <= i < ps.len() && !is_slot(#[trigger] ps[i]) ==> closes_ok(ps[i], ir_depth(ps, i), ps[i].len() as int)
}

/// What `ir_to_ctx` returns and leaves in the seed.
pub open spec fn ir_to_ctx_spec(ir: Seq<char>, seed: u64) -> (Seq<char>, u64) {
    let st = ctx_run(ctx_start(seed), ir_pieces(ir), ir_pieces(ir).len() as int);
    (join(st.out), st.seed)
}

/// Some number up to the count of variables gives a name that is not defined.
proof fn lemma_some_number_free(vars: VarsV, prefix: Seq<char>)
    ensures
        free_number(vars, prefix, 0) <= vars.len(),
        !defines(vars, numbered(prefix, free_number(vars, prefix, 0))),
        forall|d: nat| d < free_number(vars, prefix, 0) ==> defines(vars, #[trigger] numbered(prefix, d)),
{
    lemma_free_number(vars, prefix, 0);
    let m = free_number(vars, prefix, 0);
    if m > vars.len() {
        let n = vars.len() as int;
        let x = vstd::set_lib::set_int_range(0, n + 1);
        vstd::set_lib::lemma_int_range(0, n + 1);
        let f = |c: int| var_index_from(vars, numbered(prefix, c as nat), 0);
        let y = x.map(f);
        assert(vstd::relations::injective_on(f, x)) by {
            assert forall|a: int, b: int| x.contains(a) && x.contains(b) && #[trigger] f(a) == #[trigger] f(b) implies a == b by {
                assert(defines(vars, numbered(prefix, a as nat)));
                assert(defines(vars, numbered(prefix, b as nat)));
                lemma_var_index(vars, numbered(prefix, a as nat));
                lemma_var_index(vars, numbered(prefix, b as nat));
                let da = decimal(a as nat);
                let db = decimal(b as nat);
                assert(da =~= numbered(prefix, a as nat).subrange(prefix.len() as int, numbered(prefix, a as nat).len() as int));
                assert(db =~= numbered(prefix, b as nat).subrange(prefix.len() as int, numbered(prefix, b as nat).len() as int));
                crate::text::lemma_decimal_injective(a as nat, b as nat);
            }
        }
        vstd::set_lib::lemma_map_size(x, y, f);
        let z = vstd::set_lib::set_int_range(0, n);
        vstd::set_lib::lemma_int_range(0, n);
        assert(y.subset_of(z)) by {
            assert forall|v: int| y.contains(v) implies z.contains(v) by {
                let c = choose|c: int| x.contains(c) && f(c) == v;
                assert(defines(vars, numbered(prefix, c as nat)));
                lemma_var_index(vars, numbered(prefix, c as nat));
            }
        }
        vstd::set_lib::lemma_len_subset(y, z);
        assert(false);
    }
}

proof fn lemma_free_number(vars: VarsV, prefix: Seq<char>, c: nat)
    ensures
        free_number(vars, prefix, c) >= c,
        forall|d: nat| c <= d < free_number(vars, prefix, c) ==> defines(vars, #[trigger] numbered(prefix, d)),
        free_number(vars, prefix, c) <= vars.len() ==> !defines(vars, numbered(prefix, free_number(vars, prefix, c))),
    decreases vars.len() + 1 - c,
{
    if c <= vars.len() && defines(vars, numbered(prefix, c)) {
        lemma_free_number(vars, prefix, c + 1);
    }
}

proof fn lemma_var_index_from(vars: VarsV, name: Seq<char>, i: int)
    requires
        0 <= i,
    ensures
        var_index_from(vars, name, i) == -1 <==> forall|j: int| i <= j < vars.len() ==> vars[j].0 != name,
        var_index_from(vars, name, i) != -1 ==> i <= var_index_from(vars, name, i) < vars.len() && vars[var_index_from(vars, name, i)].0 == name,
    decreases vars.len() - i,
{
    if i < vars.len() && vars[i].0 != name {
        lemma_var_index_from(vars, name, i + 1);
    }
}

/// The index of a name is where it is defined, and -1 exactly when it is not.
proof fn lemma_var_index(vars: VarsV, name: Seq<char>)
    ensures
        var_index_from(vars, name, 0) == -1 <==> !defines(vars, name),
        defines(vars, name) ==> 0 <= var_index_from(vars, name, 0) < vars.len() && vars[var_index_from(vars, name, 0)].0 == name,
{
    lemma_var_index_from(vars, name, 0);
}

/// The exec form of the variables in scope.
pub type Vars = Vec<(String, Vec<String>)>;

/// A copy of a list of variables.
fn copy_vars(v: &Vars) -> (r: Vars)
    ensures
        r.deep_view() == v.deep_view(),
{
    let mut r: Vars = Vec::new();
    let mut i: usize = 0;
    while i < v.len()
        invariant
            i <= v.len(),
            r.deep_view() =~= v.deep_view().take(i as int),
        decreases v.len() - i,
    {
        let ghost before = r@;
        r.push((v[i].0.clone(), copy_strings(&v[i].1)));
        proof {
            lemma_deep_view_push(before, r@, r@.last());
        }
        i = i + 1;
    }
    assert(v.deep_view().take(i as int) =~= v.deep_view());
    r
}

/// The index of the variable named `name`, if there is one.
fn var_index(vars: &Vars, name: &str) -> (r: Option<usize>)
    ensures
        r is None ==> var_index_from(vars.deep_view(), name@, 0) == -1,
        r matches Some(i) ==> i as int == var_index_from(vars.deep_view(), name@, 0) && i < vars@.len(),
{
    let ghost v = vars.deep_view();
    proof {
        lemma_var_index_from(v, name@, 0);
    }
    let mut i: usize = 0;
    while i < vars.len()
        invariant
            v == vars.deep_view(),
            i <= vars.len(),
            var_index_from(v, name@, 0) == var_index_from(v, name@, i as int),
        decreases vars.len() - i,
    {
        assert(v[i as int].0 == vars@[i as int].0@);
        if str_eq(vars[i].0.as_str(), name) {
            return Some(i);
        }
        i = i + 1;
    }
    None
}

/// Sets the variable `name` to `traits`.
fn insert_var(vars: &mut Vars, name: String, traits: Vec<String>)
    ensures
        final(vars).deep_view() == vars_insert(old(vars).deep_view(), name@, traits.deep_view()),
{
    let ghost v = vars.deep_view();
    let ghost nv = name@;
    let ghost tv = traits.deep_view();
    match var_index(vars, name.as_str()) {
        Some(i) => {
            let ghost before = vars@;
            vars.set(i, (name, traits));
            proof {
                lemma_deep_view_update(before, vars@, i as int, vars@[i as int]);
            }
            assert(vars.deep_view() =~= vars_insert(v, nv, tv));
        },
        None => {
            let ghost before = vars@;
            vars.push((name, traits));
            proof {
                lemma_deep_view_push(before, vars@, vars@.last());
            }
            assert(vars.deep_view() =~= vars_insert(v, nv, tv));
        },
    }
}

/// A list holding one trait.
fn one_trait(t: &str) -> (r: Vec<String>)
    ensures
        r.deep_view() == seq![t@],
{
    let mut r: Vec<String> = Vec::new();
    r.push(owned(t));
    assert(r.deep_view() =~= seq![t@]);
    r
}

/// Whether the list of traits holds `t`.
fn has_trait(traits: &Vec<String>, t: &str) -> (r: bool)
    ensures
        r == traits.deep_view().contains(t@),
{
    crate::grammar::validity::contains_str(traits, t)
}

/// `s` cut at every `c`.
fn split_at_char(s: &str, c: char) -> (r: Vec<String>)
    ensures
        r.deep_view() == split_char(s@, c),
{
    let cs = chars_of(s);
    let mut parts: Vec<String> = Vec::new();
    let mut cur = String::new();
    let mut i: usize = 0;
    while i < cs.len()
        invariant
            i <= cs.len(),
            cs@ == s@,
            parts.deep_view().push(cur@) == split_char(cs@.take(i as int), c),
        decreases cs.len() - i,
    {
        assert(cs@.take(i + 1).drop_last() =~= cs@.take(i as int));
        assert(cs@.take(i + 1).last() == cs@[i as int]);
        let ghost before = parts.deep_view().push(cur@);
        proof {
            lemma_split_char_len(cs@.take(i as int), c);
        }
        if cs[i] == c {
            let ghost pv = parts@;
            let done = cur;
            parts.push(done);
            proof {
                lemma_deep_view_push(pv, parts@, parts@.last());
            }
            cur = String::new();
            assert(parts.deep_view().push(cur@) =~= before.push(Seq::empty()));
        } else {
            push_char(&mut cur, cs[i]);
            assert(parts.deep_view().push(cur@) =~= before.update(before.len() - 1, before.last().push(cs@[i as int])));
        }
        i = i + 1;
    }
    assert(cs@.take(cs.len() as int) =~= cs@);
    let ghost pv = parts@;
    parts.push(cur);
    proof {
        lemma_deep_view_push(pv, parts@, parts@.last());
    }
    parts
}

/// Generates a variable name `prefix0`, `prefix1`, ... not defined in
/// `already_define_vars`: the one with the least number.
pub fn generate_unique_var_name(already_define_vars: &Vars, prefix: String) -> (r: String)
    ensures
        r@ == unique_name(already_define_vars.deep_view(), prefix@),
        !defines(already_define_vars.deep_view(), r@),
{
    let ghost v = already_define_vars.deep_view();
    proof {
        lemma_some_number_free(v, prefix@);
        lemma_free_number(v, prefix@, 0);
    }
    let ghost m = free_number(v, prefix@, 0);
    let n = already_define_vars.len();
    let mut count: u128 = 0;
    loop
        invariant
            v == already_define_vars.deep_view(),
            m == free_number(v, prefix@, 0),
            m <= v.len(),
            v.len() == n,
            count <= m,
            forall|d: nat| d < m ==> defines(v, #[trigger] numbered(prefix@, d)),
            !defines(v, numbered(prefix@, m)),
        decreases m - count,
    {
        let mut result = owned(prefix.as_str());
        push_decimal(&mut result, count);
        assert(result@ =~= numbered(prefix@, count as nat));
        match var_index(already_define_vars, result.as_str()) {
            None => {
                proof {
                    lemma_var_index(v, result@);
                }
                assert(count == m);
                return result;
            },
            Some(_) => {
                proof {
                    lemma_var_index(v, result@);
                }
                assert(count != m);
                count = count + 1;
            },
        }
    }
}

/// The state and traits of a slot `@State:Trait,...;`.
pub fn get_var_info_from_ir(ir: &String) -> (r: (String, Vec<String>))
    requires
        split_char(ir@, ':').len() >= 2,
    ensures
        (r.0@, r.1.deep_view()) == var_info(ir@),
{
    let var_info = split_at_char(ir.as_str(), ':');
    assert(var_info.deep_view()[0] == var_info@[0]@);
    assert(var_info.deep_view()[1] == var_info@[1]@);
    let var_state = var_info[0].clone();
    let cs = chars_of(var_info[1].as_str());
    let trimmed = if cs.len() > 0 {
        crate::text::string_from_range(&cs, 0, cs.len() - 1)
    } else {
        String::new()
    };
    assert(trimmed@ =~= drop_last_char(var_info@[1]@));
    let var_traits = split_at_char(trimmed.as_str(), ',');
    (var_state, var_traits)
}

/// The slots of `ir_code` and the text between them, in order.
pub fn get_splitted_ir_code(ir_code: &String) -> (r: Vec<String>)
    ensures
        r.deep_view() == ir_pieces(ir_code@),
        join(r.deep_view()) == ir_code@,
{
    let cs = chars_of(ir_code.as_str());
    let ps = split_pieces(Pattern::VarSlot, &cs);
    let mut r: Vec<String> = Vec::new();
    let mut i: usize = 0;
    while i < ps.len()
        invariant
            cs@ == ir_code@,
            ps@.len() == pieces(Pattern::VarSlot, cs@).len(),
            forall|t: int| 0 <= t < ps@.len() ==> (#[trigger] ps@[t]).0@ == pieces(Pattern::VarSlot, cs@)[t].0,
            i <= ps.len(),
            r.deep_view() =~= ir_pieces(ir_code@).take(i as int),
        decreases ps.len() - i,
    {
        let ghost before = r@;
        r.push(ps[i].0.clone());
        proof {
            lemma_deep_view_push(before, r@, r@.last());
        }
        i = i + 1;
    }
    proof {
        lemma_pieces_join(Pattern::VarSlot, ir_code@);
    }
    assert(ir_pieces(ir_code@).take(i as int) =~= ir_pieces(ir_code@));
    r
}

/// Whether both fuzzers of the slot filler can run: their grammars are fuzzable and
/// define their start symbols.
pub open spec fn fuzzers_ready() -> bool {
    &&& fuzzable(expr_grammar())
    &&& has_key(expr_grammar(), "<start>"@)
    &&& fuzzable(array_grammar())
    &&& has_key(array_grammar(), "<array>"@)
}

/// Both fuzzers of the slot filler can run.
pub proof fn lemma_fuzzers_ready()
    ensures
        fuzzers_ready(),
{
    crate::grammar_fuzzer::ready::lemma_expr_grammar_fuzzable();
    crate::grammar_fuzzer::ready::lemma_array_grammar_fuzzable();
}

/// The value of an optional name.
pub open spec fn opt_name(o: Option<String>) -> Option<Seq<char>> {
    match o {
        Some(s) => Some(s@),
        None => None,
    }
}

/// The expression fuzzer and the array fuzzer of the slot filler.
#[verifier::opaque]
pub open spec fn fuzzers_ok(fe: crate::grammar_fuzzer::FuzzerV, fa: crate::grammar_fuzzer::FuzzerV) -> bool {
    &&& fuzzers_ready()
    &&& fe.grammar == expr_grammar()
    &&& fe.start_symbol == "<start>"@
    &&& fe.min_nonterminals == 3
    &&& fe.max_nonterminals == 5
    &&& fa.grammar == array_grammar()
    &&& fa.start_symbol == "<array>"@
    &&& fa.min_nonterminals == 10
    &&& fa.max_nonterminals == 0
}

proof fn lemma_split_char_contains(s: Seq<char>, c: char)
    requires
        s.contains(c),
    ensures
        split_char(s, c).len() >= 2,
    decreases s.len(),
{
    lemma_split_char_len(s.drop_last(), c);
    if s.last() != c {
        let i = choose|i: int| 0 <= i < s.len() && s[i] == c;
        assert(s.drop_last()[i] == c);
        lemma_split_char_contains(s.drop_last(), c);
    }
}

/// The names, in order, of the variables in `vars` that have every trait of `want`.
fn referable_vars(vars: &Vars, want: &Vec<String>) -> (r: Vec<String>)
    ensures
        r.deep_view() == referable(vars.deep_view(), want.deep_view(), vars.deep_view().len() as int),
{
    let ghost v = vars.deep_view();
    let ghost w = want.deep_view();
    let mut r: Vec<String> = Vec::new();
    let mut i: usize = 0;
    while i < vars.len()
        invariant
            v == vars.deep_view(),
            w == want.deep_view(),
            i <= vars.len(),
            r.deep_view() == referable(v, w, i as int),
        decreases vars.len() - i,
    {
        assert(v[i as int] == (vars@[i as int].0@, vars@[i as int].1.deep_view()));
        let mut all = true;
        let mut t: usize = 0;
        while t < want.len()
            invariant
                v == vars.deep_view(),
                w == want.deep_view(),
                i < vars.len(),
                v[i as int] == (vars@[i as int].0@, vars@[i as int].1.deep_view()),
                t <= want.len(),
                all == forall|k: int| 0 <= k < t ==> v[i as int].1.contains(#[trigger] w[k]),
            decreases want.len() - t,
        {
            assert(w[t as int] == want@[t as int]@);
            let c = crate::grammar::validity::contains_str(&vars[i].1, want[t].as_str());
            all = all && c;
            t = t + 1;
        }
        assert(all == has_traits(v[i as int].1, w));
        if all {
            let ghost before = r@;
            r.push(vars[i].0.clone());
            proof {
                lemma_deep_view_push(before, r@, r@.last());
            }
        }
        i = i + 1;
        assert(r.deep_view() =~= referable(v, w, i as int));
    }
    r
}

/// The slot filler's state as a value.
pub open spec fn ctx_of(seed: u64, stack: Seq<VarsV>, current: VarsV, for_iter: Option<String>, out: Seq<Seq<char>>) -> CtxV {
    CtxV { seed, stack, current, for_iter: opt_name(for_iter), out }
}

/// Fills one slot (see `slot_step`).
#[verifier::spinoff_prover]
fn fill_slot(
    piece: &String,
    fuzz_expr: &mut GrammarsFuzzer,
    fuzz_arr: &mut GrammarsFuzzer,
    seed: &mut u64,
    stack: &Vec<Vars>,
    current: &mut Vars,
    for_iter: &mut Option<String>,
    result: &mut Vec<String>,
)
    requires
        piece@.contains(':'),
        fuzzers_ok(old(fuzz_expr)@, old(fuzz_arr)@),
    ensures
        fuzzers_ok(final(fuzz_expr)@, final(fuzz_arr)@),
        ctx_of(*final(seed), stack.deep_view(), final(current).deep_view(), *final(for_iter), final(result).deep_view())
            == slot_step(
            ctx_of(*old(seed), stack.deep_view(), old(current).deep_view(), *old(for_iter), old(result).deep_view()),
            piece@,
        ),
{
    let ghost st = ctx_of(*seed, stack.deep_view(), current.deep_view(), *for_iter, result.deep_view());
    proof {
        lemma_split_char_contains(piece@, ':');
        reveal(slot_step);
        reveal(fuzzers_ok);
        crate::grammar_fuzzer::cost::lemma_fuzzable_expandable(expr_grammar(), "<start>"@);
        crate::grammar_fuzzer::cost::lemma_fuzzable_expandable(array_grammar(), "<array>"@);
        crate::grammar_fuzzer::laws::lemma_expandable_fuzz_ok(expr_grammar(), "<start>"@, 3, 5);
        crate::grammar_fuzzer::laws::lemma_expandable_fuzz_ok(array_grammar(), "<array>"@, 10, 0);
    }
    let (var_state, var_traits) = get_var_info_from_ir(piece);
    let referable_list = referable_vars(current, &var_traits);
    let ghost before = result@;
    if str_eq(var_state.as_str(), "@Refer") {
        if referable_list.len() != 0 {
            let rand_num = get_rand(seed) % referable_list.len();
            assert(referable_list.deep_view()[rand_num as int] == referable_list@[rand_num as int]@);
            result.push(referable_list[rand_num].clone());
        } else {
            result.push(piece.clone());
        }
    } else if str_eq(var_state.as_str(), "@Define") {
        if has_trait(&var_traits, "ForIter") || has_trait(&var_traits, "ForRange") {
            let new_var_name = generate_unique_var_name(current, owned("it"));
            *for_iter = Some(new_var_name.clone());
            result.push(new_var_name);
        } else if has_trait(&var_traits, "Iterable") {
            let new_var_name = generate_unique_var_name(current, owned("vec"));
            let mut generated_statement = concat(new_var_name.as_str(), " = ");
            insert_var(current, new_var_name, one_trait("Iterable"));
            let fuzzed = fuzz_arr.fuzz(seed);
            generated_statement.append(fuzzed.as_str());
            result.push(generated_statement);
        } else if has_trait(&var_traits, "Primitive") {
            let new_var_name = generate_unique_var_name(current, owned("var"));
            let mut generated_statement = concat(new_var_name.as_str(), " = ");
            insert_var(current, new_var_name, one_trait("Primitive"));
            let fuzzed = fuzz_expr.fuzz(seed);
            generated_statement.append(fuzzed.as_str());
            result.push(generated_statement);
        } else {
            result.push(piece.clone());
        }
    } else if str_eq(var_state.as_str(), "@Assign") {
        if referable_list.len() != 0 {
            let rand_num = get_rand(seed) % referable_list.len();
            assert(referable_list.deep_view()[rand_num as int] == referable_list@[rand_num as int]@);
            let mut generated_statement = concat(referable_list[rand_num].as_str(), " = ");
            if has_trait(&var_traits, "Primitive") {
                let fuzzed = fuzz_expr.fuzz(seed);
                generated_statement.append(fuzzed.as_str());
            } else if has_trait(&var_traits, "Iterable") {
                let fuzzed = fuzz_arr.fuzz(seed);
                generated_statement.append(fuzzed.as_str());
            }
            result.push(generated_statement);
        } else {
            result.push(piece.clone());
        }
    } else {
        result.push(piece.clone());
    }
    proof {
        lemma_deep_view_push(before, result@, result@.last());
    }
}

/// Applies the braces of a piece of plain text to the scopes (see `braces_upto`).
fn apply_braces(piece: &String, stack: &mut Vec<Vars>, current: &mut Vars, for_iter: &mut Option<String>, seed: u64, out: Ghost<Seq<Seq<char>>>)
    ensures
        ctx_of(seed, final(stack).deep_view(), final(current).deep_view(), *final(for_iter), out@)
            == braces_upto(
            ctx_of(seed, old(stack).deep_view(), old(current).deep_view(), *old(for_iter), out@),
            piece@,
            piece@.len() as int,
        ),
{
    let ghost st0 = ctx_of(seed, stack.deep_view(), current.deep_view(), *for_iter, out@);
    let cs = chars_of(piece.as_str());
    let mut i: usize = 0;
    while i < cs.len()
        invariant
            cs@ == piece@,
            i <= cs.len(),
            ctx_of(seed, stack.deep_view(), current.deep_view(), *for_iter, out@) == braces_upto(st0, piece@, i as int),
        decreases cs.len() - i,
    {
        let ghost pre = ctx_of(seed, stack.deep_view(), current.deep_view(), *for_iter, out@);
        if cs[i] == '{' {
            let saved = copy_vars(current);
            let ghost sb = stack@;
            stack.push(saved);
            proof {
                lemma_deep_view_push(sb, stack@, stack@.last());
            }
            match for_iter.take() {
                Some(new_var_name) => {
                    insert_var(current, new_var_name, one_trait("Primitive"));
                },
                None => {},
            }
        } else if cs[i] == '}' {
            let ghost sb = stack@;
            match stack.pop() {
                Some(v) => {
                    assert(stack.deep_view() =~= pre.stack.drop_last());
                    assert(v.deep_view() == pre.stack.last());
                    *current = v;
                },
                None => {},
            }
        }
        i = i + 1;
        assert(ctx_of(seed, stack.deep_view(), current.deep_view(), *for_iter, out@) == brace_step(pre, piece@[i - 1]));
    }
}

/// Fills the slots of `ir_code` in order (see the module documentation), drawing
/// pseudo-random choices and fuzzed values from `seed`.
pub fn ir_to_ctx(ir_code: &String, seed: &mut u64) -> (r: String)
    requires
        ir_ok(ir_code@),
    ensures
        (r@, *final(seed)) == ir_to_ctx_spec(ir_code@, *old(seed)),
{
    let expr_g = get_expr_grammar();
    let arr_g = get_array_grammar();
    proof {
        lemma_fuzzers_ready();
    }
    let mut fuzz_expr = GrammarsFuzzer::new(&expr_g, "<start>", 3, 5, Union::OnlyA(false));
    let mut fuzz_arr = GrammarsFuzzer::new(&arr_g, "<array>", 10, 0, Union::OnlyA(false));
    proof {
        reveal(fuzzers_ok);
    }
    fill_slots(ir_code, seed, &mut fuzz_expr, &mut fuzz_arr)
}

/// Fills the slots of `ir_code` with the two fuzzers.
#[verifier::spinoff_prover]
fn fill_slots(ir_code: &String, seed: &mut u64, fuzz_expr: &mut GrammarsFuzzer, fuzz_arr: &mut GrammarsFuzzer) -> (r: String)
    requires
        ir_ok(ir_code@),
        fuzzers_ok(old(fuzz_expr)@, old(fuzz_arr)@),
    ensures
        (r@, *final(seed)) == ir_to_ctx_spec(ir_code@, *old(seed)),
{
    let ghost seed0 = *seed;
    let splitted_ir_code = get_splitted_ir_code(ir_code);
    let ghost ps = ir_pieces(ir_code@);
    let mut res_stack: Vec<Vars> = Vec::new();
    res_stack.push(Vec::new());
    let mut current_vars: Vars = Vec::new();
    let mut for_iter_var: Option<String> = None;
    let mut result_ir_code: Vec<String> = Vec::new();
    assert(res_stack.deep_view().len() == 1);
    assert(res_stack.deep_view()[0] =~= Seq::<(Seq<char>, TraitsV)>::empty());
    assert(res_stack.deep_view() =~= seq![Seq::<(Seq<char>, TraitsV)>::empty()]);
    assert(current_vars.deep_view() =~= Seq::<(Seq<char>, TraitsV)>::empty());
    assert(result_ir_code.deep_view() =~= Seq::<Seq<char>>::empty());
    assert(ctx_of(*seed, res_stack.deep_view(), current_vars.deep_view(), for_iter_var, result_ir_code.deep_view()) == ctx_start(seed0));
    let mut idx: usize = 0;
    while idx < splitted_ir_code.len()
        invariant
            ps == ir_pieces(ir_code@),
            ir_ok(ir_code@),
            splitted_ir_code.deep_view() == ps,
            idx <= splitted_ir_code.len(),
            fuzzers_ok(fuzz_expr@, fuzz_arr@),
            ctx_of(*seed, res_stack.deep_view(), current_vars.deep_view(), for_iter_var, result_ir_code.deep_view())
                == ctx_run(ctx_start(seed0), ps, idx as int),
        decreases splitted_ir_code.len() - idx,
    {
        let piece = &splitted_ir_code[idx];
        assert(piece@ == ps[idx as int]);
        let cs = chars_of(piece.as_str());
        if cs.len() > 0 && cs[0] == '@' {
            assert(is_slot(ps[idx as int]));
            fill_slot(piece, fuzz_expr, fuzz_arr, seed, &res_stack, &mut current_vars, &mut for_iter_var, &mut result_ir_code);
        } else {
            let ghost out = result_ir_code.deep_view();
            apply_braces(piece, &mut res_stack, &mut current_vars, &mut for_iter_var, *seed, Ghost(out));
            let ghost before = result_ir_code@;
            result_ir_code.push(piece.clone());
            proof {
                lemma_deep_view_push(before, result_ir_code@, result_ir_code@.last());
            }
        }
        idx = idx + 1;
    }
    let mut joined = String::new();
    let mut k: usize = 0;
    while k < result_ir_code.len()
        invariant
            k <= result_ir_code.len(),
            joined@ == join(result_ir_code.deep_view().take(k as int)),
        decreases result_ir_code.len() - k,
    {
        assert(result_ir_code.deep_view().take(k + 1).drop_last() =~= result_ir_code.deep_view().take(k as int));
        joined.append(result_ir_code[k].as_str());
        k = k + 1;
    }
    assert(result_ir_code.deep_view().take(k as int) =~= result_ir_code.deep_view());
    joined
}

proof fn lemma_closes_ok_prefix(s: Seq<char>, d: int, m: int, n: int)
    requires
        m <= n,
        closes_ok(s, d, n),
    ensures
        closes_ok(s, d, m),
    decreases n - m,
{
    if m < n {
        lemma_closes_ok_prefix(s, d, m, n - 1);
    }
}

/// Whether `ir_to_ctx` accepts `ir_code` (see `ir_ok`).
#[verifier::spinoff_prover]
pub fn ir_is_ok(ir_code: &String) -> (r: bool)
    ensures
        r == ir_ok(ir_code@),
{
    let ps = get_splitted_ir_code(ir_code);
    let ghost pv = ir_pieces(ir_code@);
    let mut depth: u128 = 1;
    let mut i: usize = 0;
    while i < ps.len()
        invariant
            ps.deep_view() == pv,
            pv == ir_pieces(ir_code@),
            pv.len() == ps@.len(),
            i <= ps.len(),
            depth as int == ir_depth(pv, i as int),
            depth <= 1 + (i as int) * 0x1_0000_0000_0000_0000,
            forall|k: int| 0 <= k < i && is_slot(#[trigger] pv[k]) ==> pv[k].contains(':'),
            forall|k: int| 0 <= k < i && !is_slot(#[trigger] pv[k]) ==> closes_ok(pv[k], ir_depth(pv, k), pv[k].len() as int),
        decreases ps.len() - i,
    {
        assert(ps@[i as int]@ == pv[i as int]);
        let cs = chars_of(ps[i].as_str());
        if cs.len() > 0 && cs[0] == '@' {
            let mut found = false;
            let mut j: usize = 0;
            while j < cs.len()
                invariant
                    j <= cs.len(),
                    found == exists|t: int| 0 <= t < j && cs@[t] == ':',
                decreases cs.len() - j,
            {
                if cs[j] == ':' {
                    found = true;
                }
                j = j + 1;
            }
            if !found {
                assert(is_slot(pv[i as int]) && !pv[i as int].contains(':'));
                return false;
            }
            assert(pv[i as int].contains(':'));
        } else {
            let ghost d0 = depth as int;
            let mut j: usize = 0;
            while j < cs.len()
                invariant
                    i < ps.len(),
                    pv.len() == ps@.len(),
                    pv == ir_pieces(ir_code@),
                    cs@ == pv[i as int],
                    !is_slot(pv[i as int]),
                    d0 == ir_depth(pv, i as int),
                    d0 <= 1 + (i as int) * 0x1_0000_0000_0000_0000,
                    j <= cs.len(),
                    depth as int == depth_upto(cs@, d0, j as int),
                    depth <= d0 + j,
                    closes_ok(cs@, d0, j as int),
                decreases cs.len() - j,
            {
                if cs[j] == '}' {
                    if depth < 1 {
                        assert(!closes_ok(cs@, d0, j + 1));
                        proof {
                            if closes_ok(cs@, d0, cs@.len() as int) {
                                lemma_closes_ok_prefix(cs@, d0, j + 1, cs@.len() as int);
                            }
                            assert(!closes_ok(pv[i as int], ir_depth(pv, i as int), pv[i as int].len() as int));
                        }
                        return false;
                    }
                    depth = depth - 1;
                } else if cs[j] == '{' {
                    depth = depth + 1;
                }
                j = j + 1;
            }
        }
        i = i + 1;
    }
    true
}

} // verus!
