//! The grammars that the fuzzer draws test programs from.
use vstd::prelude::*;
use crate::text::owned;
use crate::text::lemma_deep_view_push;
use super::Union;
use super::Grammar;
use super::GrammarV;
use super::Expansion;
use super::ExpansionV;
use super::insert_rule;
use super::str_helper::CharRange;
use super::str_helper::char_range;
use super::str_helper::range_chars_as_str;

verus! {

/// Bare expansions with the given texts.
pub open spec fn bare(texts: Seq<&str>) -> Seq<ExpansionV> {
    texts.map_values(|t: &str| Union::OnlyA(t@))
}

/// Bare expansions with the given texts, in order.
fn bare_exps(texts: Vec<&str>) -> (r: Vec<Expansion>)
    ensures
        r.deep_view() == bare(texts@),
{
    let mut r: Vec<Expansion> = Vec::new();
    let mut i: usize = 0;
    while i < texts.len()
        invariant
            i <= texts@.len(),
            r.deep_view() =~= bare(texts@).take(i as int),
        decreases texts.len() - i,
    {
        let ghost before = r@;
        r.push(Union::OnlyA(owned(texts[i])));
        proof {
            lemma_deep_view_push(before, r@, r@.last());
            assert(bare(texts@).take(i + 1) =~= bare(texts@).take(i as int).push(bare(texts@)[i as int]));
        }
        i = i + 1;
    }
    assert(bare(texts@).take(texts@.len() as int) =~= bare(texts@));
    r
}

/// The grammar of the Ruby programs.
pub open spec fn ruby_grammar() -> GrammarV {
    insert_rule(insert_rule(insert_rule(insert_rule(insert_rule(insert_rule(insert_rule(insert_rule(insert_rule(insert_rule(insert_rule(insert_rule(insert_rule(insert_rule(insert_rule(insert_rule(insert_rule(insert_rule(insert_rule(Seq::<(Seq<char>, Seq<ExpansionV>)>::empty(), "<start>"@, bare(seq!["@Define:Primitive;\n@Define:Iterable;\n<statements>"])), "<statements>"@, bare(seq!["<statement>", "<statements>\n<statements>"])), "<statement>"@, bare(seq!["<for-statement>", "<condition-statement>", "<assign-statement>", "<call-statement>"])), "<condition-statement>"@, bare(seq!["<if-statement>", "<unless-statement>"])), "<if-statement>"@, bare(seq!["if <bool-expr>{\n<statements>}\nend", "if <bool-expr>{\n<statements>}\nels<if-statement>", "if <bool-expr>{\n<statements>}\nelse{\n<statements>}\nend"])), "<unless-statement>"@, bare(seq!["unless <bool-expr>{\n<statements>}\nend", "unless <bool-expr>{\n<statements>}\nelse{\n<statements>}\nend"])), "<bool-expr>"@, bare(seq!["<term> != <term>", "<term> == <term>", "<term> < <term>", "<term> > <term>", "<term> <= <term>", "<term> >= <term>"])), "<for-statement>"@, bare(seq!["for @Define:ForRange; in 1..<non-zero-digit>{\n<statements>}\nend", "for @Define:ForIter; in @Refer:Iterable;{\n<statements>}\nend"])), "<assign-statement>"@, bare(seq!["@Assign:Iterable;", "@Assign:Primitive;", "@Define:Iterable;", "@Define:Primitive;"])), "<call-statement>"@, bare(seq!["<func-expr>"])), "<func-expr>"@, bare(seq!["<func-ident> <func-vars>"])), "<func-ident>"@, bare(seq!["puts"])), "<func-vars>"@, bare(seq!["@Refer:Iterable;", "@Refer:Primitive;", "<func-vars>"])), "<expr>"@, bare(seq!["<term> + <expr>", "<term> - <expr>", "<term>"])), "<term>"@, bare(seq!["<factor> * <term>", "<factor> / <term>", "<factor>"])), "<factor>"@, bare(seq!["+<integer>", "-<integer>", "+<integer>.<integer>", "-<integer>.<integer>", "(<expr>)", "<integer>.<integer>", "<integer>", "@Refer:Primitive;"])), "<integer>"@, bare(seq!["<non-zero-digit><integer>", "<non-zero-digit>"])), "<non-zero-digit>"@, char_range(CharRange::NonZeroDigit)), "<letter>"@, char_range(CharRange::Letters))
}
/// The grammar of the Ruby programs.
pub fn get_ruby_grammar() -> (r: Grammar)
    ensures
        r.wf(),
        r@ == ruby_grammar(),
{
    let mut g = Grammar::new();
    let v = bare_exps(vec!["@Define:Primitive;\n@Define:Iterable;\n<statements>"]);
    assert(v.deep_view() == bare(seq!["@Define:Primitive;\n@Define:Iterable;\n<statements>"]));
    g.insert(owned("<start>"), v);
    let v = bare_exps(vec!["<statement>", "<statements>\n<statements>"]);
    assert(v.deep_view() == bare(seq!["<statement>", "<statements>\n<statements>"]));
    g.insert(owned("<statements>"), v);
    let v = bare_exps(vec!["<for-statement>", "<condition-statement>", "<assign-statement>", "<call-statement>"]);
    assert(v.deep_view() == bare(seq!["<for-statement>", "<condition-statement>", "<assign-statement>", "<call-statement>"]));
    g.insert(owned("<statement>"), v);
    let v = bare_exps(vec!["<if-statement>", "<unless-statement>"]);
    assert(v.deep_view() == bare(seq!["<if-statement>", "<unless-statement>"]));
    g.insert(owned("<condition-statement>"), v);
    let v = bare_exps(vec!["if <bool-expr>{\n<statements>}\nend", "if <bool-expr>{\n<statements>}\nels<if-statement>", "if <bool-expr>{\n<statements>}\nelse{\n<statements>}\nend"]);
    assert(v.deep_view() == bare(seq!["if <bool-expr>{\n<statements>}\nend", "if <bool-expr>{\n<statements>}\nels<if-statement>", "if <bool-expr>{\n<statements>}\nelse{\n<statements>}\nend"]));
    g.insert(owned("<if-statement>"), v);
    let v = bare_exps(vec!["unless <bool-expr>{\n<statements>}\nend", "unless <bool-expr>{\n<statements>}\nelse{\n<statements>}\nend"]);
    assert(v.deep_view() == bare(seq!["unless <bool-expr>{\n<statements>}\nend", "unless <bool-expr>{\n<statements>}\nelse{\n<statements>}\nend"]));
    g.insert(owned("<unless-statement>"), v);
    let v = bare_exps(vec!["<term> != <term>", "<term> == <term>", "<term> < <term>", "<term> > <term>", "<term> <= <term>", "<term> >= <term>"]);
    assert(v.deep_view() == bare(seq!["<term> != <term>", "<term> == <term>", "<term> < <term>", "<term> > <term>", "<term> <= <term>", "<term> >= <term>"]));
    g.insert(owned("<bool-expr>"), v);
    let v = bare_exps(vec!["for @Define:ForRange; in 1..<non-zero-digit>{\n<statements>}\nend", "for @Define:ForIter; in @Refer:Iterable;{\n<statements>}\nend"]);
    assert(v.deep_view() == bare(seq!["for @Define:ForRange; in 1..<non-zero-digit>{\n<statements>}\nend", "for @Define:ForIter; in @Refer:Iterable;{\n<statements>}\nend"]));
    g.insert(owned("<for-statement>"), v);
    let v = bare_exps(vec!["@Assign:Iterable;", "@Assign:Primitive;", "@Define:Iterable;", "@Define:Primitive;"]);
    assert(v.deep_view() == bare(seq!["@Assign:Iterable;", "@Assign:Primitive;", "@Define:Iterable;", "@Define:Primitive;"]));
    g.insert(owned("<assign-statement>"), v);
    let v = bare_exps(vec!["<func-expr>"]);
    assert(v.deep_view() == bare(seq!["<func-expr>"]));
    g.insert(owned("<call-statement>"), v);
    let v = bare_exps(vec!["<func-ident> <func-vars>"]);
    assert(v.deep_view() == bare(seq!["<func-ident> <func-vars>"]));
    g.insert(owned("<func-expr>"), v);
    let v = bare_exps(vec!["puts"]);
    assert(v.deep_view() == bare(seq!["puts"]));
    g.insert(owned("<func-ident>"), v);
    let v = bare_exps(vec!["@Refer:Iterable;", "@Refer:Primitive;", "<func-vars>"]);
    assert(v.deep_view() == bare(seq!["@Refer:Iterable;", "@Refer:Primitive;", "<func-vars>"]));
    g.insert(owned("<func-vars>"), v);
    let v = bare_exps(vec!["<term> + <expr>", "<term> - <expr>", "<term>"]);
    assert(v.deep_view() == bare(seq!["<term> + <expr>", "<term> - <expr>", "<term>"]));
    g.insert(owned("<expr>"), v);
    let v = bare_exps(vec!["<factor> * <term>", "<factor> / <term>", "<factor>"]);
    assert(v.deep_view() == bare(seq!["<factor> * <term>", "<factor> / <term>", "<factor>"]));
    g.insert(owned("<term>"), v);
    let v = bare_exps(vec!["+<integer>", "-<integer>", "+<integer>.<integer>", "-<integer>.<integer>", "(<expr>)", "<integer>.<integer>", "<integer>", "@Refer:Primitive;"]);
    assert(v.deep_view() == bare(seq!["+<integer>", "-<integer>", "+<integer>.<integer>", "-<integer>.<integer>", "(<expr>)", "<integer>.<integer>", "<integer>", "@Refer:Primitive;"]));
    g.insert(owned("<factor>"), v);
    let v = bare_exps(vec!["<non-zero-digit><integer>", "<non-zero-digit>"]);
    assert(v.deep_view() == bare(seq!["<non-zero-digit><integer>", "<non-zero-digit>"]));
    g.insert(owned("<integer>"), v);
    let v = range_chars_as_str(CharRange::NonZeroDigit);
    assert(v.deep_view() == char_range(CharRange::NonZeroDigit));
    g.insert(owned("<non-zero-digit>"), v);
    let v = range_chars_as_str(CharRange::Letters);
    assert(v.deep_view() == char_range(CharRange::Letters));
    g.insert(owned("<letter>"), v);
    g
}

/// The grammar of the Python programs.
pub open spec fn python_grammar() -> GrammarV {
    insert_rule(insert_rule(insert_rule(insert_rule(insert_rule(insert_rule(insert_rule(insert_rule(insert_rule(insert_rule(insert_rule(insert_rule(insert_rule(insert_rule(insert_rule(insert_rule(insert_rule(Seq::<(Seq<char>, Seq<ExpansionV>)>::empty(), "<start>"@, bare(seq!["@Define:Primitive;\n@Define:Iterable;\n<statements>"])), "<statements>"@, bare(seq!["<statement>", "<statements>\n<statements>"])), "<statement>"@, bare(seq!["<for-statement>", "<if-statement>", "<assign-statement>", "<call-statement>"])), "<if-statement>"@, bare(seq!["if <bool-expr>:{\n<statements>}\nel<if-statement>", "if <bool-expr>:{\n<statements>}", "if <bool-expr>:{\n<statements>}\nelse:{\n<statements>}"])), "<bool-expr>"@, bare(seq!["<term> != <term>", "<term> == <term>", "<term> < <term>", "<term> > <term>", "<term> <= <term>", "<term> >= <term>"])), "<for-statement>"@, bare(seq!["for @Define:ForRange; in range(1,<non-zero-digit>):{\n<statements>}", "for @Define:ForIter; in @Refer:Iterable;:{\n<statements>}"])), "<assign-statement>"@, bare(seq!["@Assign:Iterable;", "@Assign:Primitive;", "@Define:Iterable;", "@Define:Primitive;"])), "<call-statement>"@, bare(seq!["<func-expr>"])), "<func-expr>"@, bare(seq!["<func-ident>(<func-vars>)"])), "<func-ident>"@, bare(seq!["print"])), "<func-vars>"@, bare(seq!["@Refer:Iterable;", "@Refer:Primitive;", "<func-vars>"])), "<expr>"@, bare(seq!["<term> + <expr>", "<term> - <expr>", "<term>"])), "<term>"@, bare(seq!["<factor> * <term>", "<factor> / <term>", "<factor>"])), "<factor>"@, bare(seq!["+<integer>", "-<integer>", "+<integer>.<integer>", "-<integer>.<integer>", "(<expr>)", "<integer>.<integer>", "<integer>", "@Refer:Primitive;"])), "<integer>"@, bare(seq!["<non-zero-digit><integer>", "<non-zero-digit>"])), "<non-zero-digit>"@, char_range(CharRange::NonZeroDigit)), "<letter>"@, char_range(CharRange::Letters))
}
/// The grammar of the Python programs.
pub fn get_python_grammar() -> (r: Grammar)
    ensures
        r.wf(),
        r@ == python_grammar(),
{
    let mut g = Grammar::new();
    let v = bare_exps(vec!["@Define:Primitive;\n@Define:Iterable;\n<statements>"]);
    assert(v.deep_view() == bare(seq!["@Define:Primitive;\n@Define:Iterable;\n<statements>"]));
    g.insert(owned("<start>"), v);
    let v = bare_exps(vec!["<statement>", "<statements>\n<statements>"]);
    assert(v.deep_view() == bare(seq!["<statement>", "<statements>\n<statements>"]));
    g.insert(owned("<statements>"), v);
    let v = bare_exps(vec!["<for-statement>", "<if-statement>", "<assign-statement>", "<call-statement>"]);
    assert(v.deep_view() == bare(seq!["<for-statement>", "<if-statement>", "<assign-statement>", "<call-statement>"]));
    g.insert(owned("<statement>"), v);
    let v = bare_exps(vec!["if <bool-expr>:{\n<statements>}\nel<if-statement>", "if <bool-expr>:{\n<statements>}", "if <bool-expr>:{\n<statements>}\nelse:{\n<statements>}"]);
    assert(v.deep_view() == bare(seq!["if <bool-expr>:{\n<statements>}\nel<if-statement>", "if <bool-expr>:{\n<statements>}", "if <bool-expr>:{\n<statements>}\nelse:{\n<statements>}"]));
    g.insert(owned("<if-statement>"), v);
    let v = bare_exps(vec!["<term> != <term>", "<term> == <term>", "<term> < <term>", "<term> > <term>", "<term> <= <term>", "<term> >= <term>"]);
    assert(v.deep_view() == bare(seq!["<term> != <term>", "<term> == <term>", "<term> < <term>", "<term> > <term>", "<term> <= <term>", "<term> >= <term>"]));
    g.insert(owned("<bool-expr>"), v);
    let v = bare_exps(vec!["for @Define:ForRange; in range(1,<non-zero-digit>):{\n<statements>}", "for @Define:ForIter; in @Refer:Iterable;:{\n<statements>}"]);
    assert(v.deep_view() == bare(seq!["for @Define:ForRange; in range(1,<non-zero-digit>):{\n<statements>}", "for @Define:ForIter; in @Refer:Iterable;:{\n<statements>}"]));
    g.insert(owned("<for-statement>"), v);
    let v = bare_exps(vec!["@Assign:Iterable;", "@Assign:Primitive;", "@Define:Iterable;", "@Define:Primitive;"]);
    assert(v.deep_view() == bare(seq!["@Assign:Iterable;", "@Assign:Primitive;", "@Define:Iterable;", "@Define:Primitive;"]));
    g.insert(owned("<assign-statement>"), v);
    let v = bare_exps(vec!["<func-expr>"]);
    assert(v.deep_view() == bare(seq!["<func-expr>"]));
    g.insert(owned("<call-statement>"), v);
    let v = bare_exps(vec!["<func-ident>(<func-vars>)"]);
    assert(v.deep_view() == bare(seq!["<func-ident>(<func-vars>)"]));
    g.insert(owned("<func-expr>"), v);
    let v = bare_exps(vec!["print"]);
    assert(v.deep_view() == bare(seq!["print"]));
    g.insert(owned("<func-ident>"), v);
    let v = bare_exps(vec!["@Refer:Iterable;", "@Refer:Primitive;", "<func-vars>"]);
    assert(v.deep_view() == bare(seq!["@Refer:Iterable;", "@Refer:Primitive;", "<func-vars>"]));
    g.insert(owned("<func-vars>"), v);
    let v = bare_exps(vec!["<term> + <expr>", "<term> - <expr>", "<term>"]);
    assert(v.deep_view() == bare(seq!["<term> + <expr>", "<term> - <expr>", "<term>"]));
    g.insert(owned("<expr>"), v);
    let v = bare_exps(vec!["<factor> * <term>", "<factor> / <term>", "<factor>"]);
    assert(v.deep_view() == bare(seq!["<factor> * <term>", "<factor> / <term>", "<factor>"]));
    g.insert(owned("<term>"), v);
    let v = bare_exps(vec!["+<integer>", "-<integer>", "+<integer>.<integer>", "-<integer>.<integer>", "(<expr>)", "<integer>.<integer>", "<integer>", "@Refer:Primitive;"]);
    assert(v.deep_view() == bare(seq!["+<integer>", "-<integer>", "+<integer>.<integer>", "-<integer>.<integer>", "(<expr>)", "<integer>.<integer>", "<integer>", "@Refer:Primitive;"]));
    g.insert(owned("<factor>"), v);
    let v = bare_exps(vec!["<non-zero-digit><integer>", "<non-zero-digit>"]);
    assert(v.deep_view() == bare(seq!["<non-zero-digit><integer>", "<non-zero-digit>"]));
    g.insert(owned("<integer>"), v);
    let v = range_chars_as_str(CharRange::NonZeroDigit);
    assert(v.deep_view() == char_range(CharRange::NonZeroDigit));
    g.insert(owned("<non-zero-digit>"), v);
    let v = range_chars_as_str(CharRange::Letters);
    assert(v.deep_view() == char_range(CharRange::Letters));
    g.insert(owned("<letter>"), v);
    g
}

/// The grammar of array literals.
pub open spec fn array_grammar() -> GrammarV {
    insert_rule(insert_rule(insert_rule(insert_rule(insert_rule(Seq::<(Seq<char>, Seq<ExpansionV>)>::empty(), "<array>"@, bare(seq!["[<elems>]"])), "<elems>"@, bare(seq!["<elem>", "<elems>,<elem>"])), "<elem>"@, bare(seq!["<integer>"])), "<integer>"@, bare(seq!["<non-zero-digit><integer>", "<non-zero-digit>"])), "<non-zero-digit>"@, char_range(CharRange::NonZeroDigit))
}
/// The grammar of array literals.
pub fn get_array_grammar() -> (r: Grammar)
    ensures
        r.wf(),
        r@ == array_grammar(),
{
    let mut g = Grammar::new();
    let v = bare_exps(vec!["[<elems>]"]);
    assert(v.deep_view() == bare(seq!["[<elems>]"]));
    g.insert(owned("<array>"), v);
    let v = bare_exps(vec!["<elem>", "<elems>,<elem>"]);
    assert(v.deep_view() == bare(seq!["<elem>", "<elems>,<elem>"]));
    g.insert(owned("<elems>"), v);
    let v = bare_exps(vec!["<integer>"]);
    assert(v.deep_view() == bare(seq!["<integer>"]));
    g.insert(owned("<elem>"), v);
    let v = bare_exps(vec!["<non-zero-digit><integer>", "<non-zero-digit>"]);
    assert(v.deep_view() == bare(seq!["<non-zero-digit><integer>", "<non-zero-digit>"]));
    g.insert(owned("<integer>"), v);
    let v = range_chars_as_str(CharRange::NonZeroDigit);
    assert(v.deep_view() == char_range(CharRange::NonZeroDigit));
    g.insert(owned("<non-zero-digit>"), v);
    g
}

/// The grammar of arithmetic expressions.
pub open spec fn expr_grammar() -> GrammarV {
    insert_rule(insert_rule(insert_rule(insert_rule(insert_rule(insert_rule(Seq::<(Seq<char>, Seq<ExpansionV>)>::empty(), "<start>"@, bare(seq!["<expr>"])), "<expr>"@, bare(seq!["<term> + <expr>", "<term> - <expr>", "<term>"])), "<term>"@, bare(seq!["<factor> * <term>", "<factor> / <term>", "<factor>"])), "<factor>"@, bare(seq!["+<integer>", "-<integer>", "+<integer>.<integer>", "-<integer>.<integer>", "(<expr>)", "<integer>.<integer>", "<integer>"])), "<integer>"@, bare(seq!["<non-zero-digit><integer>", "<non-zero-digit>"])), "<non-zero-digit>"@, char_range(CharRange::NonZeroDigit))
}
/// The grammar of arithmetic expressions.
pub fn get_expr_grammar() -> (r: Grammar)
    ensures
        r.wf(),
        r@ == expr_grammar(),
{
    let mut g = Grammar::new();
    let v = bare_exps(vec!["<expr>"]);
    assert(v.deep_view() == bare(seq!["<expr>"]));
    g.insert(owned("<start>"), v);
    let v = bare_exps(vec!["<term> + <expr>", "<term> - <expr>", "<term>"]);
    assert(v.deep_view() == bare(seq!["<term> + <expr>", "<term> - <expr>", "<term>"]));
    g.insert(owned("<expr>"), v);
    let v = bare_exps(vec!["<factor> * <term>", "<factor> / <term>", "<factor>"]);
    assert(v.deep_view() == bare(seq!["<factor> * <term>", "<factor> / <term>", "<factor>"]));
    g.insert(owned("<term>"), v);
    let v = bare_exps(vec!["+<integer>", "-<integer>", "+<integer>.<integer>", "-<integer>.<integer>", "(<expr>)", "<integer>.<integer>", "<integer>"]);
    assert(v.deep_view() == bare(seq!["+<integer>", "-<integer>", "+<integer>.<integer>", "-<integer>.<integer>", "(<expr>)", "<integer>.<integer>", "<integer>"]));
    g.insert(owned("<factor>"), v);
    let v = bare_exps(vec!["<non-zero-digit><integer>", "<non-zero-digit>"]);
    assert(v.deep_view() == bare(seq!["<non-zero-digit><integer>", "<non-zero-digit>"]));
    g.insert(owned("<integer>"), v);
    let v = range_chars_as_str(CharRange::NonZeroDigit);
    assert(v.deep_view() == char_range(CharRange::NonZeroDigit));
    g.insert(owned("<non-zero-digit>"), v);
    g
}

/// The grammar of XML documents.
pub open spec fn xml_grammar() -> GrammarV {
    insert_rule(insert_rule(insert_rule(insert_rule(insert_rule(insert_rule(insert_rule(insert_rule(insert_rule(insert_rule(Seq::<(Seq<char>, Seq<ExpansionV>)>::empty(), "<start>"@, bare(seq!["<xml-tree>"])), "<xml-tree>"@, bare(seq!["<text>", "<xml-open-tag><xml-tree><xml-close-tag>", "<xml-openclose-tag>", "<xml-tree><xml-tree>"])), "<xml-open-tag>"@, bare(seq!["<<id>>", "<<id> <xml-attribute>>"])), "<xml-openclose-tag>"@, bare(seq!["<<id>/>", "<<id> <xml-attribute>/>"])), "<xml-close-tag>"@, bare(seq!["</<id>>"])), "<xml-attribute>"@, bare(seq!["<id>=<id>", "<xml-attribute> <xml-attribute>"])), "<id>"@, bare(seq!["<letter>", "<id><letter>"])), "<text>"@, bare(seq!["<text><letter-space>", "<letter-space>"])), "<letter>"@, xml_letters()), "<letter-space>"@, xml_letter_spaces())
}
/// The grammar of XML documents.
pub fn get_xml_grammar() -> (r: Grammar)
    ensures
        r.wf(),
        r@ == xml_grammar(),
{
    let mut vec1 = range_chars_as_str(CharRange::Digit);
    let mut letters = range_chars_as_str(CharRange::Letters);
    vec1.append(&mut letters);
    let mut extra = bare_exps(vec!["\\", "'"]);
    vec1.append(&mut extra);
    assert(vec1.deep_view() =~= xml_symbols());
    let mut letter_vec = super::copy_expansions(&vec1);
    letter_vec.push(Union::OnlyA(owned("'")));
    assert(letter_vec.deep_view() =~= xml_letters());
    let mut letter_space_vec = super::copy_expansions(&vec1);
    let mut blanks = bare_exps(vec!["\t", " "]);
    letter_space_vec.append(&mut blanks);
    assert(letter_space_vec.deep_view() =~= xml_letter_spaces());
    let mut g = Grammar::new();
    let v = bare_exps(vec!["<xml-tree>"]);
    assert(v.deep_view() == bare(seq!["<xml-tree>"]));
    g.insert(owned("<start>"), v);
    let v = bare_exps(vec!["<text>", "<xml-open-tag><xml-tree><xml-close-tag>", "<xml-openclose-tag>", "<xml-tree><xml-tree>"]);
    assert(v.deep_view() == bare(seq!["<text>", "<xml-open-tag><xml-tree><xml-close-tag>", "<xml-openclose-tag>", "<xml-tree><xml-tree>"]));
    g.insert(owned("<xml-tree>"), v);
    let v = bare_exps(vec!["<<id>>", "<<id> <xml-attribute>>"]);
    assert(v.deep_view() == bare(seq!["<<id>>", "<<id> <xml-attribute>>"]));
    g.insert(owned("<xml-open-tag>"), v);
    let v = bare_exps(vec!["<<id>/>", "<<id> <xml-attribute>/>"]);
    assert(v.deep_view() == bare(seq!["<<id>/>", "<<id> <xml-attribute>/>"]));
    g.insert(owned("<xml-openclose-tag>"), v);
    let v = bare_exps(vec!["</<id>>"]);
    assert(v.deep_view() == bare(seq!["</<id>>"]));
    g.insert(owned("<xml-close-tag>"), v);
    let v = bare_exps(vec!["<id>=<id>", "<xml-attribute> <xml-attribute>"]);
    assert(v.deep_view() == bare(seq!["<id>=<id>", "<xml-attribute> <xml-attribute>"]));
    g.insert(owned("<xml-attribute>"), v);
    let v = bare_exps(vec!["<letter>", "<id><letter>"]);
    assert(v.deep_view() == bare(seq!["<letter>", "<id><letter>"]));
    g.insert(owned("<id>"), v);
    let v = bare_exps(vec!["<text><letter-space>", "<letter-space>"]);
    assert(v.deep_view() == bare(seq!["<text><letter-space>", "<letter-space>"]));
    g.insert(owned("<text>"), v);
    let v = letter_vec;
    assert(v.deep_view() == xml_letters());
    g.insert(owned("<letter>"), v);
    let v = letter_space_vec;
    assert(v.deep_view() == xml_letter_spaces());
    g.insert(owned("<letter-space>"), v);
    g
}

/// The digits, the letters, a backslash and a quote.
pub open spec fn xml_symbols() -> Seq<ExpansionV> {
    char_range(CharRange::Digit) + char_range(CharRange::Letters) + bare(seq!["\\", "'"])
}

/// The symbols of XML text, with the quote once more.
pub open spec fn xml_letters() -> Seq<ExpansionV> {
    xml_symbols().push(Union::OnlyA("'"@))
}

/// The symbols of XML text, with tab and space.
pub open spec fn xml_letter_spaces() -> Seq<ExpansionV> {
    xml_symbols() + bare(seq!["\t", " "])
}

} // verus!
