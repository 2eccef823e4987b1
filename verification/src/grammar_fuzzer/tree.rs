//! Derivation trees: a symbol with either no children yet (an open node waiting to
//! be expanded) or its list of children.
use vstd::prelude::*;
use crate::text::chars_of;
use crate::text::owned;
use crate::text::push_char;
use crate::text::lemma_deep_view_push;
use crate::grammar::Union;
use crate::grammar::Expansion;
use crate::grammar::ExpansionV;
use crate::grammar::pattern::Pattern;
use crate::grammar::pattern::pieces;
use crate::grammar::pattern::contains_token;
use crate::grammar::pattern::join;
use crate::grammar::options::exp_text;
use crate::grammar::options::exp_string;

verus! {

/// A node of a derivation tree.
pub struct DerivationTree {
    pub symbol: String,
    pub children: Option<Vec<DerivationTree>>,
}

/// The value of a derivation tree.
pub struct TreeV {
    pub symbol: Seq<char>,
    pub children: Option<Seq<TreeV>>,
}

impl View for DerivationTree {
    type V = TreeV;

    open spec fn view(&self) -> TreeV
        decreases self,
    {
        TreeV {
            symbol: self.symbol@,
            children: match &self.children {
                None => None,
                Some(v) => Some(views_of(v@)),
            },
        }
    }
}

/// The values of a list of trees.
pub open spec fn views_of(v: Seq<DerivationTree>) -> Seq<TreeV>
    decreases v,
{
    if v.len() == 0 {
        Seq::empty()
    } else {
        views_of(v.subrange(0, v.len() - 1)).push(v[v.len() - 1].view())
    }
}

pub proof fn lemma_views_of(v: Seq<DerivationTree>)
    ensures
        views_of(v).len() == v.len(),
        forall|i: int| 0 <= i < v.len() ==> #[trigger] views_of(v)[i] == v[i]@,
    decreases v.len(),
{
    if v.len() > 0 {
        let w = v.subrange(0, v.len() - 1);
        lemma_views_of(w);
        assert(views_of(v) == views_of(w).push(v[v.len() - 1]@));
    }
}

/// The number of open nodes of a tree.
pub open spec fn open_count(t: TreeV) -> nat
    decreases t,
{
    match t.children {
        None => 1,
        Some(cs) => open_count_seq(cs),
    }
}

pub open spec fn open_count_seq(cs: Seq<TreeV>) -> nat
    decreases cs,
{
    if cs.len() == 0 {
        0
    } else {
        open_count_seq(cs.subrange(0, cs.len() - 1)) + open_count(cs[cs.len() - 1])
    }
}

/// Whether a tree has an open node.
pub open spec fn has_open(t: TreeV) -> bool
    decreases t,
{
    match t.children {
        None => true,
        Some(cs) => has_open_seq(cs),
    }
}

pub open spec fn has_open_seq(cs: Seq<TreeV>) -> bool
    decreases cs,
{
    if cs.len() == 0 {
        false
    } else {
        has_open_seq(cs.subrange(0, cs.len() - 1)) || has_open(cs[cs.len() - 1])
    }
}

/// The text of a tree with open nodes kept as their symbols: a node with children
/// gives the joined texts of its children, and one with an empty list its symbol.
pub open spec fn terminals(t: TreeV) -> Seq<char>
    decreases t,
{
    match t.children {
        None => t.symbol,
        Some(cs) => if cs.len() == 0 {
            t.symbol
        } else {
            terminals_seq(cs)
        },
    }
}

pub open spec fn terminals_seq(cs: Seq<TreeV>) -> Seq<char>
    decreases cs,
{
    if cs.len() == 0 {
        Seq::empty()
    } else {
        terminals_seq(cs.subrange(0, cs.len() - 1)) + terminals(cs[cs.len() - 1])
    }
}

/// The text of a tree with open nonterminal nodes left out: a node with children
/// gives the joined texts of its children, an open node its symbol unless the symbol
/// holds a nonterminal.
pub open spec fn tree_text(t: TreeV) -> Seq<char>
    decreases t,
{
    match t.children {
        None => if contains_token(Pattern::Nonterminal, t.symbol) {
            Seq::empty()
        } else {
            t.symbol
        },
        Some(cs) => tree_text_seq(cs),
    }
}

pub open spec fn tree_text_seq(cs: Seq<TreeV>) -> Seq<char>
    decreases cs,
{
    if cs.len() == 0 {
        Seq::empty()
    } else {
        tree_text_seq(cs.subrange(0, cs.len() - 1)) + tree_text(cs[cs.len() - 1])
    }
}

/// The node for one piece of an expansion: open when the piece holds a nonterminal,
/// otherwise a terminal with an empty list of children.
pub open spec fn piece_node(p: Seq<char>) -> TreeV {
    if contains_token(Pattern::Nonterminal, p) {
        TreeV { symbol: p, children: None }
    } else {
        TreeV { symbol: p, children: Some(Seq::empty()) }
    }
}

/// The children that an expansion with text `s` gives a node: one node per piece of
/// the text (its nonterminals and the text between them), or a single empty terminal
/// for the empty text.
pub open spec fn children_of(s: Seq<char>) -> Seq<TreeV> {
    if s.len() == 0 {
        seq![TreeV { symbol: Seq::empty(), children: Some(Seq::empty()) }]
    } else {
        pieces(Pattern::Nonterminal, s).map_values(|p: (Seq<char>, bool)| piece_node(p.0))
    }
}

/// The children that `expansion` gives the node it expands.
pub fn expansion_to_children(expansion: &Expansion) -> (r: Vec<DerivationTree>)
    ensures
        views_of(r@) == children_of(exp_text(expansion.deep_view())),
{
    let text = exp_string(expansion);
    let cs = chars_of(text.as_str());
    if cs.len() == 0 {
        let r = vec![DerivationTree { symbol: String::new(), children: Some(Vec::new()) }];
        proof {
            lemma_views_of(r@);
            assert(views_of(r@) =~= children_of(exp_text(expansion.deep_view())));
        }
        return r;
    }
    let ps = crate::grammar::pattern::split_pieces(Pattern::Nonterminal, &cs);
    let ghost want = children_of(text@);
    let mut r: Vec<DerivationTree> = Vec::new();
    let mut i: usize = 0;
    while i < ps.len()
        invariant
            cs@ == text@,
            cs@.len() > 0,
            want == children_of(text@),
            want.len() == ps@.len(),
            forall|t: int| 0 <= t < ps@.len() ==> (#[trigger] ps@[t]).0@ == pieces(Pattern::Nonterminal, cs@)[t].0,
            i <= ps.len(),
            r@.len() == i,
            forall|t: int| 0 <= t < i ==> #[trigger] r@[t]@ == want[t],
        decreases ps.len() - i,
    {
        let symbol = ps[i].0.clone();
        let open = crate::grammar::is_nonterminal(symbol.as_str());
        let node = if open {
            DerivationTree { symbol, children: None }
        } else {
            DerivationTree { symbol, children: Some(Vec::new()) }
        };
        proof {
            lemma_views_of(Seq::<DerivationTree>::empty());
            assert(node@ == want[i as int]);
        }
        r.push(node);
        i = i + 1;
    }
    proof {
        lemma_views_of(r@);
        assert(views_of(r@) =~= want);
    }
    r
}

/// The number of open nodes, or `usize::MAX` when there are more.
pub fn possible_expansions(node: &DerivationTree) -> (r: usize)
    ensures
        r as int == if open_count(node@) < usize::MAX {
            open_count(node@) as int
        } else {
            usize::MAX as int
        },
    decreases node,
{
    match &node.children {
        None => 1,
        Some(v) => {
            proof {
                lemma_views_of(v@);
            }
            let ghost cs = views_of(v@);
            let mut acc: usize = 0;
            let mut i: usize = 0;
            while i < v.len()
                invariant
                    cs == views_of(v@),
                    cs.len() == v@.len(),
                    forall|k: int| 0 <= k < v@.len() ==> #[trigger] cs[k] == v@[k]@,
                    node.children == Some(*v),
                    i <= v.len(),
                    acc as int == if open_count_seq(cs.subrange(0, i as int)) < usize::MAX {
                        open_count_seq(cs.subrange(0, i as int)) as int
                    } else {
                        usize::MAX as int
                    },
                decreases v.len() - i,
            {
                proof {
                    let kids = node.children;
                    assert(decreases_to!(*node => kids));
                    assert(decreases_to!(kids => kids->0));
                    assert(decreases_to!(kids->0 => kids->0@));
                    assert(kids->0@ == v@);
                    assert(decreases_to!(kids->0@ => kids->0@[i as int]));
                }
                let c = possible_expansions(&v[i]);
                assert(cs.subrange(0, i + 1).subrange(0, i as int) =~= cs.subrange(0, i as int));
                assert(cs.subrange(0, i + 1)[i as int] == cs[i as int]);
                acc = acc.saturating_add(c);
                i = i + 1;
            }
            assert(cs.subrange(0, v.len() as int) =~= cs);
            acc
        },
    }
}

/// Whether the tree has an open node.
pub fn any_possible_expansions(node: &DerivationTree) -> (r: bool)
    ensures
        r == has_open(node@),
    decreases node,
{
    match &node.children {
        None => true,
        Some(v) => {
            proof {
                lemma_views_of(v@);
            }
            let ghost cs = views_of(v@);
            let mut i: usize = 0;
            while i < v.len()
                invariant
                    cs == views_of(v@),
                    cs.len() == v@.len(),
                    forall|k: int| 0 <= k < v@.len() ==> #[trigger] cs[k] == v@[k]@,
                    node.children == Some(*v),
                    i <= v.len(),
                    !has_open_seq(cs.subrange(0, i as int)),
                decreases v.len() - i,
            {
                proof {
                    let kids = node.children;
                    assert(decreases_to!(*node => kids));
                    assert(decreases_to!(kids => kids->0));
                    assert(decreases_to!(kids->0 => kids->0@));
                    assert(kids->0@ == v@);
                    assert(decreases_to!(kids->0@ => kids->0@[i as int]));
                }
                let c = any_possible_expansions(&v[i]);
                assert(cs.subrange(0, i + 1).subrange(0, i as int) =~= cs.subrange(0, i as int));
                assert(cs.subrange(0, i + 1)[i as int] == cs[i as int]);
                if c {
                    proof {
                        lemma_has_open_seq_mono(cs, i as int + 1);
                    }
                    return true;
                }
                i = i + 1;
            }
            assert(cs.subrange(0, v.len() as int) =~= cs);
            false
        },
    }
}

/// A prefix with an open node makes the whole list have one.
proof fn lemma_has_open_seq_mono(cs: Seq<TreeV>, n: int)
    requires
        0 <= n <= cs.len(),
        has_open_seq(cs.subrange(0, n)),
    ensures
        has_open_seq(cs),
    decreases cs.len() - n,
{
    if n < cs.len() {
        assert(cs.subrange(0, n + 1).subrange(0, n) =~= cs.subrange(0, n));
        lemma_has_open_seq_mono(cs, n + 1);
    } else {
        assert(cs.subrange(0, n) =~= cs);
    }
}

/// Joins the texts that `f` gives the children, in order.
fn join_children_terminals(v: &Vec<DerivationTree>) -> (r: String)
    ensures
        r@ == terminals_seq(views_of(v@)),
    decreases v@,
{
    proof {
        lemma_views_of(v@);
    }
    let ghost cs = views_of(v@);
    let mut acc = String::new();
    let mut i: usize = 0;
    while i < v.len()
        invariant
            cs == views_of(v@),
            cs.len() == v@.len(),
            forall|k: int| 0 <= k < v@.len() ==> #[trigger] cs[k] == v@[k]@,
            i <= v.len(),
            acc@ == terminals_seq(cs.subrange(0, i as int)),
        decreases v.len() - i,
    {
        proof {
            assert(decreases_to!(v@ => v@[i as int]));
        }
        let t = all_terminals(&v[i]);
        assert(cs.subrange(0, i + 1).subrange(0, i as int) =~= cs.subrange(0, i as int));
        assert(cs.subrange(0, i + 1)[i as int] == cs[i as int]);
        acc.append(t.as_str());
        i = i + 1;
    }
    assert(cs.subrange(0, v.len() as int) =~= cs);
    acc
}

/// The text of the tree, with open nodes kept as their symbols.
pub fn all_terminals(tree: &DerivationTree) -> (r: String)
    ensures
        r@ == terminals(tree@),
    decreases tree,
{
    match &tree.children {
        None => tree.symbol.clone(),
        Some(v) => {
            proof {
                lemma_views_of(v@);
            }
            if v.len() == 0 {
                tree.symbol.clone()
            } else {
                proof {
                    let kids = tree.children;
                    assert(decreases_to!(*tree => kids));
                    assert(decreases_to!(kids => kids->0));
                    assert(decreases_to!(kids->0 => kids->0@));
                    assert(kids->0@ == v@);
                }
                join_children_terminals(v)
            }
        },
    }
}

/// Joins the texts of the children with open nonterminal nodes left out.
fn join_children_text(v: &Vec<DerivationTree>) -> (r: String)
    ensures
        r@ == tree_text_seq(views_of(v@)),
    decreases v@,
{
    proof {
        lemma_views_of(v@);
    }
    let ghost cs = views_of(v@);
    let mut acc = String::new();
    let mut i: usize = 0;
    while i < v.len()
        invariant
            cs == views_of(v@),
            cs.len() == v@.len(),
            forall|k: int| 0 <= k < v@.len() ==> #[trigger] cs[k] == v@[k]@,
            i <= v.len(),
            acc@ == tree_text_seq(cs.subrange(0, i as int)),
        decreases v.len() - i,
    {
        proof {
            assert(decreases_to!(v@ => v@[i as int]));
        }
        let t = tree_to_string(&v[i]);
        assert(cs.subrange(0, i + 1).subrange(0, i as int) =~= cs.subrange(0, i as int));
        assert(cs.subrange(0, i + 1)[i as int] == cs[i as int]);
        acc.append(t.as_str());
        i = i + 1;
    }
    assert(cs.subrange(0, v.len() as int) =~= cs);
    acc
}

/// The text of the tree with open nonterminal nodes left out.
pub fn tree_to_string(tree: &DerivationTree) -> (r: String)
    ensures
        r@ == tree_text(tree@),
    decreases tree,
{
    match &tree.children {
        Some(v) => {
            proof {
                let kids = tree.children;
                assert(decreases_to!(*tree => kids));
                assert(decreases_to!(kids => kids->0));
                assert(decreases_to!(kids->0 => kids->0@));
                assert(kids->0@ == v@);
            }
            join_children_text(v)
        },
        None => {
            if crate::grammar::is_nonterminal(tree.symbol.as_str()) {
                String::new()
            } else {
                tree.symbol.clone()
            }
        },
    }
}

impl DerivationTree {
    /// Whether two trees have the same symbols and the same shape.
    pub fn eq(&self, rhs: &DerivationTree) -> (r: bool)
        ensures
            r == (self@ == rhs@),
        decreases self,
    {
        if !crate::text::str_eq(self.symbol.as_str(), rhs.symbol.as_str()) {
            return false;
        }
        match (&self.children, &rhs.children) {
            (None, None) => true,
            (Some(a), Some(b)) => {
                proof {
                    lemma_views_of(a@);
                    lemma_views_of(b@);
                }
                if a.len() != b.len() {
                    assert(views_of(a@).len() != views_of(b@).len());
                    return false;
                }
                let mut i: usize = 0;
                while i < a.len()
                    invariant
                        a@.len() == b@.len(),
                        self.children == Some(*a),
                        rhs.children == Some(*b),
                        i <= a.len(),
                        forall|k: int| 0 <= k < i ==> #[trigger] a@[k]@ == b@[k]@,
                    decreases a.len() - i,
                {
                    proof {
                        let kids = self.children;
                        assert(decreases_to!(*self => kids));
                        assert(decreases_to!(kids => kids->0));
                        assert(decreases_to!(kids->0 => kids->0@));
                        assert(kids->0@ == a@);
                        assert(decreases_to!(kids->0@ => kids->0@[i as int]));
                    }
                    if !a[i].eq(&b[i]) {
                        proof {
                            lemma_views_of(a@);
                            lemma_views_of(b@);
                        }
                        assert(views_of(a@)[i as int] != views_of(b@)[i as int]);
                        assert(self@.children != rhs@.children);
                        return false;
                    }
                    i = i + 1;
                }
                proof {
                    lemma_views_of(a@);
                    lemma_views_of(b@);
                }
                assert(views_of(a@) =~= views_of(b@));
                true
            },
            _ => false,
        }
    }
}

} // verus!
