use regex::Regex;
use wasi_pyrb_diff_test::grammar::convert_ebnf_grammar;
use wasi_pyrb_diff_test::grammar::convert_ebnf_parentheses;
use wasi_pyrb_diff_test::grammar::convert_ebnf_operators;
use wasi_pyrb_diff_test::grammar::extend_grammar;
use wasi_pyrb_diff_test::grammar::extended_nonterminals;
use wasi_pyrb_diff_test::grammar::is_nonterminal;
use wasi_pyrb_diff_test::grammar::is_valid_grammar;
use wasi_pyrb_diff_test::grammar::new_symbol;
use wasi_pyrb_diff_test::grammar::nonterminals;
use wasi_pyrb_diff_test::grammar::parenthesized_expressions;
use wasi_pyrb_diff_test::grammar::get_rand;
use wasi_pyrb_diff_test::grammar::simple_grammar_fuzzer;
use wasi_pyrb_diff_test::grammar::Expansion;
use wasi_pyrb_diff_test::grammar::Grammar;
use wasi_pyrb_diff_test::grammar::Union;
use wasi_pyrb_diff_test::grammar::options::exp_opt;
use wasi_pyrb_diff_test::grammar::options::exp_opts;
use wasi_pyrb_diff_test::grammar::options::exp_string;
use wasi_pyrb_diff_test::grammar::options::opts;
use wasi_pyrb_diff_test::grammar::options::set_opts;
use wasi_pyrb_diff_test::grammar::validity::def_used_nonterminals;
use wasi_pyrb_diff_test::grammar::validity::opts_used;
use wasi_pyrb_diff_test::grammar::validity::reachable_nonterminals;
use wasi_pyrb_diff_test::grammar::validity::unreachable_nonterminals;
use wasi_pyrb_diff_test::grammar::predef_grammars::get_array_grammar;
use wasi_pyrb_diff_test::grammar::predef_grammars::get_expr_grammar;
use wasi_pyrb_diff_test::grammar::predef_grammars::get_python_grammar;
use wasi_pyrb_diff_test::grammar::predef_grammars::get_ruby_grammar;
use wasi_pyrb_diff_test::grammar::predef_grammars::get_xml_grammar;
use wasi_pyrb_diff_test::grammar::str_helper::range_chars_as_str;
use wasi_pyrb_diff_test::grammar::str_helper::replace_scope_with_indent;
use wasi_pyrb_diff_test::grammar::str_helper::CharRange;

fn bare(v: &[&str]) -> Vec<Expansion> {
    v.iter().map(|s| Union::OnlyA(s.to_string())).collect()
}

fn expr_like_grammar() -> Grammar {
    let mut grammars = Grammar::new();
    grammars.insert("<start>".to_string(), bare(&["<expr>"]));
    grammars.insert("<expr>".to_string(), bare(&["<term> + <expr>", "<term> - <expr>", "<term>"]));
    grammars.insert("<term>".to_string(), bare(&["<factor> * <term>", "<factor> / <term>", "<factor>"]));
    grammars.insert(
        "<factor>".to_string(),
        bare(&["+<factor>", "-<factor>", "(<expr>)", "<integer>.<integer>", "<integer>"]),
    );
    grammars.insert("<integer>".to_string(), bare(&["<digit><integer>", "<digit>"]));
    grammars.insert("<digit>".to_string(), bare(&["0", "1", "2", "3", "4", "5", "6", "7", "8", "9"]));
    grammars
}

fn texts(g: &Grammar) -> Vec<String> {
    let mut r = Vec::new();
    for (_, exps) in &g.rules {
        for e in exps {
            r.push(exp_string(e));
        }
    }
    r
}

#[test]
fn test_is_valid_grammar() {
    let mut grammars = Grammar::new();
    grammars.insert("<start>".to_string(), bare(&["<x>"]));
    grammars.insert("<y>".to_string(), bare(&["1"]));
    assert!(!is_valid_grammar(&grammars, "<start>", &Vec::new()))
}

#[test]
fn test_parenthesized_expressions() {
    let pred = parenthesized_expressions(&Union::OnlyA(
        "(<foo>)* (<foo><bar>)+ (+<foo>)? <integer>(.<integer>)?".to_string(),
    ));
    let answer = ["(<foo>)*", "(<foo><bar>)+", "(+<foo>)?", "(.<integer>)?"];
    assert_eq!(pred.len(), answer.len());
    for i in 0..pred.len() {
        assert_eq!(pred[i], answer[i]);
    }
}

#[test]
fn test_extended_nonterminals() {
    let pred = extended_nonterminals(&Union::OnlyA("<foo>* <bar>+ <elem>? <none>".to_string()));
    let answer = vec!["<foo>*".to_string(), "<bar>+".to_string(), "<elem>?".to_string()];
    assert_eq!(pred.len(), answer.len());
    for i in 0..pred.len() {
        assert_eq!(pred[i], answer[i]);
    }
}

#[test]
fn test_new_symbol() {
    let grammars = expr_like_grammar();
    assert_eq!(new_symbol(&grammars, &String::from("<expr>")), String::from("<expr-1>"));
}

#[test]
fn new_symbol_keeps_an_undefined_name_and_skips_taken_variants() {
    let mut grammars = expr_like_grammar();
    assert_eq!(new_symbol(&grammars, "<other>"), "<other>");
    grammars.insert("<expr-1>".to_string(), bare(&["x"]));
    grammars.insert("<expr-2>".to_string(), bare(&["y"]));
    let fresh = new_symbol(&grammars, "<expr>");
    assert_eq!(fresh, "<expr-3>");
    assert!(!grammars.contains_key(&fresh));
}

#[test]
fn a_valid_grammar_is_accepted() {
    assert!(is_valid_grammar(&expr_like_grammar(), "<start>", &Vec::new()));
    assert!(is_valid_grammar(&get_expr_grammar(), "<start>", &Vec::new()));
    assert!(is_valid_grammar(&get_array_grammar(), "<array>", &Vec::new()));
}

#[test]
fn an_empty_rule_makes_a_grammar_invalid() {
    let mut grammars = Grammar::new();
    grammars.insert("<start>".to_string(), bare(&["<x>"]));
    grammars.insert("<x>".to_string(), Vec::new());
    assert!(!is_valid_grammar(&grammars, "<start>", &Vec::new()));
}

#[test]
fn an_unreachable_rule_makes_a_grammar_invalid() {
    let mut grammars = Grammar::new();
    grammars.insert("<start>".to_string(), bare(&["a"]));
    grammars.insert("<x>".to_string(), bare(&["<x>"]));
    assert!(!is_valid_grammar(&grammars, "<start>", &Vec::new()));
}

#[test]
fn scanners_agree_with_the_regular_expressions() {
    let samples = [
        "<a> + <b>",
        "<<a>>",
        "<a b> <c>",
        "<>x<y>*(<z>)+",
        "(<a>(<b>)?)*",
        "no tokens here",
        "<foo>* <bar>+ <elem>? <none>",
        "(a)(b)?((c)*)",
    ];
    let nt = Regex::new(r"(<[^<> ]*>)").unwrap();
    let ext = Regex::new(r"(<[^<> ]*>[?+*])").unwrap();
    let par = Regex::new(r"\([^()]*\)[?+*]").unwrap();
    for s in samples {
        let e = Union::OnlyA(s.to_string());
        let want: Vec<String> = nt.find_iter(s).map(|m| m.as_str().to_string()).collect();
        assert_eq!(nonterminals(&e), want);
        let want: Vec<String> = ext.find_iter(s).map(|m| m.as_str().to_string()).collect();
        assert_eq!(extended_nonterminals(&e), want);
        let want: Vec<String> = par.find_iter(s).map(|m| m.as_str().to_string()).collect();
        assert_eq!(parenthesized_expressions(&e), want);
        assert_eq!(is_nonterminal(s), nt.is_match(s));
    }
}

#[test]
fn extending_by_the_empty_grammar_changes_nothing() {
    let g = expr_like_grammar();
    let r = extend_grammar(&g, &Grammar::new());
    assert_eq!(r.rules.len(), g.rules.len());
    for i in 0..g.rules.len() {
        assert_eq!(r.rules[i].0, g.rules[i].0);
    }
    assert_eq!(texts(&r), texts(&g));
}

#[test]
fn extending_overwrites_and_appends_rules() {
    let g = expr_like_grammar();
    let mut ext = Grammar::new();
    ext.insert("<digit>".to_string(), bare(&["7"]));
    ext.insert("<new>".to_string(), bare(&["n"]));
    let r = extend_grammar(&g, &ext);
    assert_eq!(r.rules.len(), g.rules.len() + 1);
    let digits: Vec<String> = r.get("<digit>").unwrap().iter().map(exp_string).collect();
    assert_eq!(digits, vec!["7".to_string()]);
    assert!(r.contains_key("<new>"));
    assert_eq!(r.rules[0].0, "<start>");
}

#[test]
fn converting_ebnf_leaves_no_operators_and_a_valid_grammar() {
    let mut g = Grammar::new();
    g.insert("<start>".to_string(), bare(&["<number>"]));
    g.insert("<number>".to_string(), bare(&["<digit>+(.<digit>+)?", "-<digit>*"]));
    g.insert("<digit>".to_string(), bare(&["0", "1"]));
    let r = convert_ebnf_grammar(&g);
    for t in texts(&r) {
        let e = Union::OnlyA(t.clone());
        assert!(extended_nonterminals(&e).is_empty(), "{t}");
        assert!(parenthesized_expressions(&e).is_empty(), "{t}");
    }
    for i in 0..g.rules.len() {
        assert_eq!(r.rules[i].0, g.rules[i].0);
    }
    assert!(is_valid_grammar(&r, "<start>", &Vec::new()));
}

#[test]
fn options_are_read_back() {
    let o = opts(&[("prob", "0.5"), ("min", "1"), ("prob", "0.7")]);
    let e: Expansion = Union::OnlyB(("<a>".to_string(), o));
    assert_eq!(exp_string(&e), "<a>");
    assert_eq!(exp_opt(&e, "prob"), Some("0.7".to_string()));
    assert_eq!(exp_opt(&e, "min"), Some("1".to_string()));
    assert_eq!(exp_opt(&e, "max"), None);
    let plain: Expansion = Union::OnlyA("x".to_string());
    assert!(exp_opts(&plain).is_empty());
    assert_eq!(exp_opt(&plain, "prob"), None);
}

#[test]
fn character_ranges() {
    let d: Vec<String> = range_chars_as_str(CharRange::Digit).iter().map(exp_string).collect();
    assert_eq!(d, ["0", "1", "2", "3", "4", "5", "6", "7", "8", "9"]);
    let n: Vec<String> = range_chars_as_str(CharRange::NonZeroDigit).iter().map(exp_string).collect();
    assert_eq!(n, ["1", "2", "3", "4", "5", "6", "7", "8", "9"]);
    let l: Vec<String> = range_chars_as_str(CharRange::Letters).iter().map(exp_string).collect();
    assert_eq!(l.len(), 52);
    assert_eq!(l[0], "a");
    assert_eq!(l[26], "A");
    assert_eq!(l[51], "Z");
}

#[test]
fn scopes_become_indentation() {
    let r = replace_scope_with_indent(&"a {\nb\n}\n".to_string());
    assert_eq!(r, "a \n b\n \n");
    let r = replace_scope_with_indent(&"f {\ng {\nx\n}\n}".to_string());
    assert_eq!(r, "f \n g \n  x\n  \n ");
    assert!(!r.contains('{') && !r.contains('}'));
}

#[test]
fn scopes_become_indentation_around_other_text() {
    let r = replace_scope_with_indent(&"a {\nb\n}\nü".to_string());
    assert_eq!(r, "a \n b\n \nü");
    let r = replace_scope_with_indent(&"é\nx".to_string());
    assert_eq!(r, "é\nx");
}

#[test]
fn predefined_grammars_are_valid() {
    assert!(get_xml_grammar().contains_key("<start>"));
    let py = get_python_grammar();
    let rb = get_ruby_grammar();
    assert!(py.rules.len() > 0);
    assert!(rb.rules.len() > 0);
}

#[test]
fn get_rand_steps_the_seed_by_fxhash() {
    let mut seed: u64 = 1;
    let r = get_rand(&mut seed);
    if usize::BITS == 64 {
        assert_eq!(seed, 0x517cc1b727220a95);
        assert_eq!(r, 0x517cc1b7);
    }
    let mut again: u64 = 1;
    assert_eq!(get_rand(&mut again), r);
    assert_eq!(again, seed);
}

#[test]
fn simple_fuzzer_expands_to_text() {
    let mut g = Grammar::new();
    g.insert("<start>".to_string(), bare(&["hi"]));
    assert_eq!(simple_grammar_fuzzer(&g, "<start>", 10, 5, 12345), Ok("hi".to_string()));
    for t in 1..20u128 {
        match simple_grammar_fuzzer(&get_expr_grammar(), "<start>", 10, 100, t * 7919) {
            Ok(s) => {
                assert!(!s.contains('<'), "{s}");
                assert!(!s.is_empty());
            }
            Err(e) => assert_eq!(e, "Cannot expand more!"),
        }
    }
}

#[test]
fn simple_fuzzer_gives_up() {
    let mut g = Grammar::new();
    g.insert("<start>".to_string(), bare(&["<a><a>"]));
    g.insert("<a>".to_string(), bare(&["<a><a>"]));
    assert_eq!(simple_grammar_fuzzer(&g, "<start>", 1, 3, 42), Err("Cannot expand more!"));
}

#[test]
fn seed_zero_is_a_fixed_point() {
    let mut seed: u64 = 0;
    assert_eq!(get_rand(&mut seed), 0);
    assert_eq!(seed, 0);
}

#[test]
fn converting_parentheses_keeps_the_rules_and_removes_groups() {
    let mut g = Grammar::new();
    g.insert("<start>".to_string(), bare(&["(<a>(<b>)?)* x", "plain"]));
    g.insert("<a>".to_string(), bare(&["a"]));
    g.insert("<b>".to_string(), bare(&["b"]));
    let r = convert_ebnf_parentheses(&g);
    assert!(r.rules.len() > g.rules.len());
    for i in 0..g.rules.len() {
        assert_eq!(r.rules[i].0, g.rules[i].0);
        assert_eq!(r.rules[i].1.len(), g.rules[i].1.len());
        for e in &r.rules[i].1 {
            assert!(parenthesized_expressions(e).is_empty());
        }
    }
    assert_eq!(exp_string(&r.rules[0].1[0]), "<symbol-1>* x");
    assert_eq!(exp_string(&r.rules[0].1[1]), "plain");
}

#[test]
fn converting_parentheses_leaves_no_group_in_the_added_rules() {
    let mut g = Grammar::new();
    g.insert("<start>".to_string(), bare(&["(<a>(<b>)?)* x", "(y)+"]));
    g.insert("<a>".to_string(), bare(&["a"]));
    g.insert("<b>".to_string(), bare(&["b"]));
    let r = convert_ebnf_parentheses(&g);
    assert_eq!(r.rules.len(), g.rules.len() + 3);
    for (_, exps) in &r.rules {
        for e in exps {
            assert!(parenthesized_expressions(e).is_empty());
        }
    }
}

#[test]
fn setting_options_on_a_missing_expansion_fails_with_panic_text() {
    let mut g = Grammar::new();
    g.insert("<start>".to_string(), bare(&["a", "b"]));
    let missing: Expansion = Union::OnlyA("c".to_string());
    assert_eq!(set_opts(&mut g, "<start>", &missing, &opts(&[("prob", "0.5")])), Err("panic!"));
    assert_eq!(exp_string(&g.rules[0].1[0]), "a");
    let present: Expansion = Union::OnlyA("b".to_string());
    assert_eq!(set_opts(&mut g, "<start>", &present, &opts(&[("prob", "0.5")])), Ok(()));
    assert_eq!(exp_opt(&g.rules[0].1[1], "prob"), Some("0.5".to_string()));
}

#[test]
fn converting_operators_rewrites_them_where_they_stand_apart() {
    let mut g = Grammar::new();
    g.insert("<start>".to_string(), bare(&["<digit>+,<digit>*", "<digit>? end"]));
    g.insert("<digit>".to_string(), bare(&["0", "1"]));
    let r = convert_ebnf_operators(&g);
    assert_eq!(exp_string(&r.rules[0].1[0]), "<digit-1>,<digit-2>");
    assert_eq!(exp_string(&r.rules[0].1[1]), "<digit-3> end");
    for i in 0..g.rules.len() {
        assert_eq!(r.rules[i].0, g.rules[i].0);
        for e in &r.rules[i].1 {
            assert!(extended_nonterminals(e).is_empty());
        }
    }
    let plus: Vec<String> = r.get("<digit-1>").unwrap().iter().map(exp_string).collect();
    assert_eq!(plus, ["<digit>", "<digit><digit-1>"]);
    let star: Vec<String> = r.get("<digit-2>").unwrap().iter().map(exp_string).collect();
    assert_eq!(star, ["", "<digit><digit-2>"]);
    let opt: Vec<String> = r.get("<digit-3>").unwrap().iter().map(exp_string).collect();
    assert_eq!(opt, ["", "<digit>"]);
}

#[test]
fn an_operator_right_after_an_operator_stays() {
    let mut g = Grammar::new();
    g.insert("<start>".to_string(), bare(&["<a>++"]));
    g.insert("<a>".to_string(), bare(&["a"]));
    let r = convert_ebnf_operators(&g);
    assert_eq!(exp_string(&r.rules[0].1[0]), "<a-1>+");
    assert_eq!(extended_nonterminals(&r.rules[0].1[0]), ["<a-1>+"]);
}

#[test]
fn name_sets_come_in_increasing_order() {
    let mut g = Grammar::new();
    g.insert("<start>".to_string(), bare(&["<zeta><alpha>", "<mid>"]));
    g.insert("<zeta>".to_string(), bare(&["z"]));
    g.insert("<alpha>".to_string(), bare(&["a"]));
    g.insert("<mid>".to_string(), bare(&["m"]));
    g.insert("<orphan>".to_string(), bare(&["<beta>"]));
    g.insert("<beta>".to_string(), bare(&["b"]));
    assert_eq!(reachable_nonterminals(&g, "<start>"), ["<alpha>", "<mid>", "<start>", "<zeta>"]);
    assert_eq!(unreachable_nonterminals(&g, "<start>"), ["<beta>", "<orphan>"]);
    let (defined, used) = def_used_nonterminals(&g, "<start>").unwrap();
    assert_eq!(defined, ["<alpha>", "<beta>", "<mid>", "<orphan>", "<start>", "<zeta>"]);
    assert_eq!(used, ["<alpha>", "<beta>", "<mid>", "<start>", "<zeta>"]);
    let mut h = Grammar::new();
    h.insert("<start>".to_string(), vec![
        Union::OnlyB(("a".to_string(), opts(&[("prob", "0.5"), ("max", "2")]))),
        Union::OnlyB(("b".to_string(), opts(&[("min", "1")]))),
    ]);
    assert_eq!(opts_used(&h), ["max", "min", "prob"]);
}
