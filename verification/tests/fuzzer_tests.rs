use regex::Regex;
use wasi_pyrb_diff_test::grammar::predef_grammars::get_array_grammar;
use wasi_pyrb_diff_test::grammar::predef_grammars::get_expr_grammar;
use wasi_pyrb_diff_test::grammar::predef_grammars::get_python_grammar;
use wasi_pyrb_diff_test::grammar::predef_grammars::get_ruby_grammar;
use wasi_pyrb_diff_test::grammar::Expansion;
use wasi_pyrb_diff_test::grammar::Grammar;
use wasi_pyrb_diff_test::grammar::Union;
use wasi_pyrb_diff_test::grammar_fuzzer::all_terminals;
use wasi_pyrb_diff_test::grammar_fuzzer::cost::is_fuzzable;
use wasi_pyrb_diff_test::grammar_fuzzer::cost::is_expandable;
use wasi_pyrb_diff_test::grammar_fuzzer::cost::Cost;
use wasi_pyrb_diff_test::grammar_fuzzer::dot_escape;
use wasi_pyrb_diff_test::grammar_fuzzer::expansion_to_children;
use wasi_pyrb_diff_test::grammar_fuzzer::get_rand;
use wasi_pyrb_diff_test::grammar_fuzzer::tree::DerivationTree;
use wasi_pyrb_diff_test::grammar_fuzzer::tree_to_string;
use wasi_pyrb_diff_test::grammar_fuzzer::var_ctx::generate_unique_var_name;
use wasi_pyrb_diff_test::grammar_fuzzer::var_ctx::get_splitted_ir_code;
use wasi_pyrb_diff_test::grammar_fuzzer::var_ctx::get_var_info_from_ir;
use wasi_pyrb_diff_test::grammar_fuzzer::var_ctx::ir_to_ctx;
use wasi_pyrb_diff_test::grammar_fuzzer::var_ctx::ir_is_ok;
use wasi_pyrb_diff_test::grammar_fuzzer::GrammarsFuzzer;
use wasi_pyrb_diff_test::grammar_fuzzer::ExpansionStrategy;

fn bare(v: &[&str]) -> Vec<Expansion> {
    v.iter().map(|s| Union::OnlyA(s.to_string())).collect()
}

fn leaf(s: &str) -> DerivationTree {
    DerivationTree { symbol: s.to_string(), children: Some(Vec::new()) }
}

fn open(s: &str) -> DerivationTree {
    DerivationTree { symbol: s.to_string(), children: None }
}

#[test]
fn test_test_is_valid_grammar() {
    assert!(dot_escape(&"hello".to_string(), None) == "hello");
    assert!(dot_escape(&"<hello>, world".to_string(), None) == "\\<hello\\>\\, world");
    assert!(dot_escape(&"\\n".to_string(), None) == "\\\\n");
    assert!(dot_escape(&"\n".to_string(), Some(false)) == "\\\\n");
    assert!(dot_escape(&"\n".to_string(), Some(true)) == "\\\\n (10)");
    assert!(dot_escape(&"\n".to_string(), Some(true)) == "\\\\n (10)");
    assert!(dot_escape(&"\x01".to_string(), Some(false)) == "\\\\x01");
    assert!(dot_escape(&"\x01".to_string(), None) == "\\\\x01 (1)");
}

#[test]
fn dot_escape_shows_codes_on_request() {
    assert_eq!(dot_escape(&"a".to_string(), None), "a (97)");
    assert_eq!(dot_escape(&"ab".to_string(), Some(true)), "a (97)b (98)");
    assert_eq!(dot_escape(&"\"".to_string(), Some(false)), "\\\"");
    assert_eq!(dot_escape(&"\u{e9}".to_string(), None), "\\\\xe9");
}

#[test]
fn expansion_children_spell_the_expansion() {
    let e: Expansion = Union::OnlyA("<a>x <b>".to_string());
    let cs = expansion_to_children(&e);
    let symbols: Vec<&str> = cs.iter().map(|c| c.symbol.as_str()).collect();
    assert_eq!(symbols, ["<a>", "x ", "<b>"]);
    assert!(cs[0].children.is_none());
    assert_eq!(cs[1].children.as_ref().map(|v| v.len()), Some(0));
    assert!(cs[2].children.is_none());
    assert_eq!(symbols.concat(), "<a>x <b>");
    let empty = expansion_to_children(&Union::OnlyA(String::new()));
    assert_eq!(empty.len(), 1);
    assert_eq!(empty[0].symbol, "");
    assert_eq!(empty[0].children.as_ref().map(|v| v.len()), Some(0));
}

#[test]
fn counting_open_nodes_and_texts() {
    let t = DerivationTree {
        symbol: "<start>".to_string(),
        children: Some(vec![open("<a>"), leaf("+"), DerivationTree {
            symbol: "<b>".to_string(),
            children: Some(vec![open("<c>"), open("z")]),
        }]),
    };
    let f = GrammarsFuzzer::new(&Grammar::new(), "<start>", 0, 10, Union::OnlyA(false));
    assert_eq!(f.possible_expansions(&t), 3);
    assert!(GrammarsFuzzer::any_possible_expansions(&t));
    assert!(!GrammarsFuzzer::any_possible_expansions(&leaf("x")));
    assert_eq!(f.possible_expansions(&leaf("x")), 0);
    assert_eq!(all_terminals(&t), "<a>+<c>z");
    assert_eq!(tree_to_string(&t), "z");
    assert_eq!(tree_to_string(&open("plain")), "plain");
}

#[test]
fn predefined_grammars_can_be_fuzzed() {
    assert!(is_fuzzable(&get_expr_grammar()));
    assert!(is_fuzzable(&get_array_grammar()));
    let mut g = Grammar::new();
    g.insert("<start>".to_string(), bare(&["<missing>"]));
    assert!(!is_fuzzable(&g));
    let mut g = Grammar::new();
    g.insert("<start>".to_string(), Vec::new());
    assert!(!is_fuzzable(&g));
}

#[test]
fn fuzzed_expressions_are_expressions() {
    let re = Regex::new(r"^[-+*/(). 0-9]+$").unwrap();
    for s in 1..30u64 {
        let mut f = GrammarsFuzzer::new(&get_expr_grammar(), "<start>", 3, 5, Union::OnlyA(false));
        let mut seed = s;
        let out = f.fuzz(&mut seed);
        assert!(re.is_match(&out), "{out}");
        let mut g = GrammarsFuzzer::new(&get_expr_grammar(), "<start>", 3, 5, Union::OnlyA(false));
        let mut seed2 = s;
        assert_eq!(g.fuzz(&mut seed2), out);
        assert_eq!(seed2, seed);
    }
}

#[test]
fn fuzzed_arrays_are_arrays() {
    let re = Regex::new(r"^\[[1-9]+(,[1-9]+)*\]$").unwrap();
    for s in 0..30u64 {
        let mut f = GrammarsFuzzer::new(&get_array_grammar(), "<array>", 10, 0, Union::OnlyA(false));
        let mut seed = s * 31 + 7;
        let out = f.fuzz(&mut seed);
        assert!(re.is_match(&out), "{out}");
    }
}

#[test]
fn a_grammar_with_one_expansion_fuzzes_to_it() {
    let mut g = Grammar::new();
    g.insert("<start>".to_string(), bare(&["<a> and <b>"]));
    g.insert("<a>".to_string(), bare(&["x"]));
    g.insert("<b>".to_string(), bare(&["y"]));
    let mut f = GrammarsFuzzer::new(&g, "<start>", 0, 10, Union::OnlyA(true));
    f.check_grammar();
    let mut seed = 5;
    assert_eq!(f.fuzz(&mut seed), "x and y");
    let mut t = f.init_tree();
    assert_eq!(t.symbol, "<start>");
    let line = f.fuzz_tree(&mut seed, &mut t);
    assert_eq!(line, Some("x and y".to_string()));
    assert_eq!(f.log_tree(&t), Some("Tree:x and y".to_string()));
}

#[test]
fn costs_follow_the_least_expansions() {
    let f = GrammarsFuzzer::new(&get_expr_grammar(), "<start>", 3, 5, Union::OnlyA(false));
    let mut cache = Vec::new();
    let c = f.expansion_cost(&Union::OnlyA("<integer>".to_string()), vec!["<factor>".to_string()], &mut cache);
    assert_eq!(c, Cost::Finite(3));
    let mut cache = Vec::new();
    let c = f.expansion_cost(&Union::OnlyA("<integer>".to_string()), vec!["<integer>".to_string()], &mut cache);
    assert_eq!(c, Cost::Infinite);
    let mut cache = Vec::new();
    let c = f.symbol_cost(&"<non-zero-digit>".to_string(), &Vec::new(), &mut cache);
    assert_eq!(c, Cost::Finite(1));
}

#[test]
fn node_expansions_use_the_rule() {
    let f = GrammarsFuzzer::new(&get_expr_grammar(), "<start>", 3, 5, Union::OnlyA(false));
    let mut seed = 9;
    let n = f.expand_node_min_cost(&mut seed, &open("<integer>"));
    let kids: Vec<&str> = n.children.as_ref().unwrap().iter().map(|c| c.symbol.as_str()).collect();
    assert_eq!(kids, ["<non-zero-digit>"]);
    let n = f.expand_node_max_cost(&mut seed, &open("<integer>"));
    let kids: Vec<&str> = n.children.as_ref().unwrap().iter().map(|c| c.symbol.as_str()).collect();
    assert_eq!(kids, ["<non-zero-digit>", "<integer>"]);
    let n = f.expand_node_randomly(&mut seed, &open("<non-zero-digit>"));
    let kids = n.children.unwrap();
    assert_eq!(kids.len(), 1);
    assert!(("1"..="9").contains(&kids[0].symbol.as_str()));
}

#[test]
fn fuzzer_get_rand_matches_grammar_get_rand() {
    let mut a: u64 = 77;
    let mut b: u64 = 77;
    assert_eq!(get_rand(&mut a), wasi_pyrb_diff_test::grammar::get_rand(&mut b));
    assert_eq!(a, b);
    assert_ne!(a, 77);
}

#[test]
fn slots_and_text_are_split_like_the_regular_expression() {
    let re = Regex::new(r"@[^;]+;").unwrap();
    for ir in ["a@X:Y;b", "@Define:Primitive;\n@Refer:Primitive;", "no slots", "@;@a;;", "x = 1;\n@Assign:Iterable;"] {
        let ps = get_splitted_ir_code(&ir.to_string());
        assert_eq!(ps.concat(), ir);
        let slots: Vec<&str> = ps.iter().map(|p| p.as_str()).filter(|p| re.is_match(p) && re.find(p).unwrap().as_str() == *p).collect();
        let want: Vec<&str> = re.find_iter(ir).map(|m| m.as_str()).collect();
        assert_eq!(slots, want);
        assert!(ps.iter().all(|p| !p.is_empty()));
    }
    assert_eq!(get_splitted_ir_code(&"a@X:Y;b".to_string()), ["a", "@X:Y;", "b"]);
}

#[test]
fn slot_info_and_names() {
    let (state, traits) = get_var_info_from_ir(&"@Define:Iterable,Primitive;".to_string());
    assert_eq!(state, "@Define");
    assert_eq!(traits, ["Iterable", "Primitive"]);
    let vars = vec![
        ("var0".to_string(), vec!["Primitive".to_string()]),
        ("var1".to_string(), vec!["Primitive".to_string()]),
    ];
    assert_eq!(generate_unique_var_name(&vars, "var".to_string()), "var2");
    assert_eq!(generate_unique_var_name(&vars, "vec".to_string()), "vec0");
}

#[test]
fn slots_are_filled_in_scope() {
    let mut seed = 3;
    let out = ir_to_ctx(&"x = 1;\n@Define:Primitive;\nprint(@Refer:Primitive;)".to_string(), &mut seed);
    assert!(out.starts_with("x = 1;\nvar0 = "), "{out}");
    assert!(out.ends_with("\nprint(var0)"), "{out}");
    let mut seed = 3;
    let out = ir_to_ctx(&"for @Define:ForIter; in range(3) {\n@Refer:Primitive;\n}".to_string(), &mut seed);
    assert_eq!(out, "for it0 in range(3) {\nit0\n}");
    let mut seed = 3;
    let out = ir_to_ctx(&"@Refer:Primitive;".to_string(), &mut seed);
    assert_eq!(out, "@Refer:Primitive;");
    assert_eq!(seed, 3);
    let mut seed = 11;
    let out = ir_to_ctx(&"@Define:Iterable;\n@Assign:Iterable;".to_string(), &mut seed);
    assert!(out.starts_with("vec0 = ["), "{out}");
    assert!(out.contains("\nvec0 = ["), "{out}");
}

#[test]
fn trees_compare_by_symbols_and_shape() {
    let a = DerivationTree { symbol: "<s>".to_string(), children: Some(vec![leaf("x"), open("<y>")]) };
    let b = DerivationTree { symbol: "<s>".to_string(), children: Some(vec![leaf("x"), open("<y>")]) };
    let c = DerivationTree { symbol: "<s>".to_string(), children: Some(vec![leaf("x"), leaf("<y>")]) };
    let d = DerivationTree { symbol: "<s>".to_string(), children: Some(vec![leaf("x")]) };
    assert!(a.eq(&b));
    assert!(!a.eq(&c));
    assert!(!a.eq(&d));
    assert!(!open("<s>").eq(&leaf("<s>")));
}

#[test]
fn intermediate_texts_are_checked() {
    assert!(ir_is_ok(&"x = 1;\n@Define:Primitive;".to_string()));
    assert!(ir_is_ok(&"a {\n@Refer:Primitive;\n}\n}".to_string()));
    assert!(!ir_is_ok(&"a }\n}".to_string()));
    assert!(!ir_is_ok(&"@Define;".to_string()));
    assert!(!ir_is_ok(&"@oops".to_string()));
    assert!(ir_is_ok(&"x;@oops".to_string()));
}

fn spells_an_expansion(g: &Grammar, t: &DerivationTree) -> bool {
    match &t.children {
        None => true,
        Some(cs) if cs.is_empty() => true,
        Some(cs) => {
            let text: String = cs.iter().map(|c| c.symbol.as_str()).collect();
            let rule = match g.get(&t.symbol) {
                Some(r) => r,
                None => return false,
            };
            rule.iter().any(|e| wasi_pyrb_diff_test::grammar::options::exp_string(e) == text)
                && cs.iter().all(|c| spells_an_expansion(g, c))
        }
    }
}

fn has_open_node(t: &DerivationTree) -> bool {
    match &t.children {
        None => true,
        Some(cs) => cs.iter().any(has_open_node),
    }
}

#[test]
fn fuzzed_trees_are_derivations() {
    for s in 1..20u64 {
        let g = get_expr_grammar();
        let mut f = GrammarsFuzzer::new(&g, "<start>", 3, 5, Union::OnlyA(false));
        let mut tree = f.init_tree();
        let mut seed = s * 1_000_003;
        let _ = f.fuzz_tree(&mut seed, &mut tree);
        assert_eq!(tree.symbol, "<start>");
        assert!(!has_open_node(&tree));
        assert!(spells_an_expansion(&g, &tree));
    }
}

#[test]
fn checked_grammars_can_be_fuzzed() {
    for g in [get_expr_grammar(), get_array_grammar()] {
        let start = g.rules[0].0.clone();
        let f = GrammarsFuzzer::new(&g, &start, 1, 2, Union::OnlyA(false));
        f.check_grammar();
        assert!(is_fuzzable(&g));
    }
}

#[test]
fn a_broken_rule_that_is_never_reached_does_not_stop_the_fuzzer() {
    let mut g = Grammar::new();
    g.insert("<start>".to_string(), bare(&["<a>-<a>"]));
    g.insert("<a>".to_string(), bare(&["x", "y<a>"]));
    g.insert("<unused>".to_string(), bare(&["<undefined>"]));
    g.insert("<empty>".to_string(), Vec::new());
    assert!(!is_fuzzable(&g));
    assert!(is_expandable(&g, "<start>"));
    assert!(is_expandable(&g, "<a>"));
    assert!(!is_expandable(&g, "<unused>"));
    assert!(!is_expandable(&g, "<empty>"));
    assert!(!is_expandable(&g, "<undefined>"));
    let mut f = GrammarsFuzzer::new(&g, "<start>", 0, 4, Union::OnlyA(false));
    for s in 1..20u64 {
        let mut seed = s * 7919;
        let out = f.fuzz(&mut seed);
        assert!(Regex::new(r"^y*x-y*x$").unwrap().is_match(&out), "{out}");
    }
}

#[test]
fn the_language_grammars_can_be_fuzzed_from_their_start() {
    assert!(is_expandable(&get_python_grammar(), "<start>"));
    assert!(is_expandable(&get_ruby_grammar(), "<start>"));
    assert!(is_expandable(&get_expr_grammar(), "<start>"));
    assert!(is_expandable(&get_array_grammar(), "<array>"));
}

#[test]
fn a_name_behind_a_symbol_being_expanded_is_never_looked_up() {
    let mut g = Grammar::new();
    g.insert("<a>".to_string(), bare(&["x", "<a><u>"]));
    let f = GrammarsFuzzer::new(&g, "<a>", 0, 4, Union::OnlyA(false));
    let mut cache: Vec<(String, Cost)> = Vec::new();
    assert_eq!(f.symbol_cost(&"<a>".to_string(), &Vec::new(), &mut cache), Cost::Finite(1));
    let mut cache: Vec<(String, Cost)> = Vec::new();
    let e: Expansion = Union::OnlyA("<a><u>".to_string());
    assert_eq!(f.expansion_cost(&e, vec!["<a>".to_string()], &mut cache), Cost::Infinite);
    let mut seed = 11;
    let t = f.expand_node_min_cost(&mut seed, &open("<a>"));
    assert_eq!(all_terminals(&t), "x");
    let t = f.expand_node_max_cost(&mut seed, &open("<a>"));
    assert_eq!(t.children.as_ref().unwrap().len(), 2);
    assert_eq!(t.children.as_ref().unwrap()[1].symbol, "<u>");
}

#[test]
fn expansion_log_lines() {
    let g = get_expr_grammar();
    let quiet = GrammarsFuzzer::new(&g, "<start>", 0, 4, Union::OnlyA(false));
    assert_eq!(quiet.expansion_log(&open("<expr>"), ExpansionStrategy::Randomly), None);
    let loud = GrammarsFuzzer::new(&g, "<start>", 0, 4, Union::OnlyA(true));
    assert_eq!(loud.expansion_log(&open("<expr>"), ExpansionStrategy::Randomly), Some("Expanding <expr> randomly".to_string()));
    assert_eq!(loud.expansion_log(&open("<term>"), ExpansionStrategy::MinCost), Some("Expanding <term> at minimum cost".to_string()));
    assert_eq!(loud.expansion_log(&open("<term>"), ExpansionStrategy::MaxCost), Some("Expanding <term> at maximum cost".to_string()));
}
