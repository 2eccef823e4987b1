use wasi_pyrb_diff_test::testcase_driver::exec::execution_plan;
use wasi_pyrb_diff_test::testcase_driver::exec::outputs_differ;
use wasi_pyrb_diff_test::testcase_driver::exec::test_infos;
use wasi_pyrb_diff_test::testcase_driver::exec::ExecEvent;
use wasi_pyrb_diff_test::testcase_driver::exec::LanguageType;
use wasi_pyrb_diff_test::testcase_driver::exec::PlatformType;
use wasi_pyrb_diff_test::testcase_driver::exec::PrintResult;
use wasi_pyrb_diff_test::testcase_driver::exec::TestInfo;
use wasi_pyrb_diff_test::testcase_driver::next_testcase_filename;
use wasi_pyrb_diff_test::testcase_driver::testcase_from_ir;
use wasi_pyrb_diff_test::grammar::str_helper::indent_safe;
use wasi_pyrb_diff_test::testcase_driver::testcase_file_path;
use wasi_pyrb_diff_test::testcase_driver::IndicateBar;

#[test]
fn plans_for_each_platform_and_language() {
    let p = execution_plan(&TestInfo { target_platform: PlatformType::V8, target_language: LanguageType::Python });
    assert_eq!(p.image_name, "d8_py");
    assert_eq!(p.container_name, "testcase_execution_container");
    assert_eq!(p.execution_command, ["./d8", "module-ready-wasi-py.js"]);
    assert_eq!(p.container_testcase_path, "/root/py-wasi-sandbox/testcase.py");

    let p = execution_plan(&TestInfo { target_platform: PlatformType::JavascriptCore, target_language: LanguageType::Ruby });
    assert_eq!(p.image_name, "jsc_rb");
    assert_eq!(p.execution_command, ["./jsc", "module-ready-wasi-rb.js", "--", "none"]);
    assert_eq!(p.container_testcase_path, "/root/rb-wasi-sandbox/testcase.rb");

    let p = execution_plan(&TestInfo { target_platform: PlatformType::Native, target_language: LanguageType::Ruby });
    assert_eq!(p.image_name, "na_rb");
    assert_eq!(p.execution_command, ["./bin/ruby", "./testcase.rb"]);
    assert_eq!(p.container_testcase_path, "/root/rb-native-sandbox/testcase.rb");

    let p = execution_plan(&TestInfo { target_platform: PlatformType::SpiderMonkey, target_language: LanguageType::Python });
    assert_eq!(p.image_name, "js_py");
    assert_eq!(p.execution_command, ["./js", "module-ready-wasi-py.js"]);

    let p = execution_plan(&TestInfo { target_platform: PlatformType::Native, target_language: LanguageType::Python });
    assert_eq!(p.execution_command, ["./bin/python3", "./testcase.py"]);
    assert_eq!(p.container_testcase_path, "/root/py-native-sandbox/testcase.py");
}

#[test]
fn each_language_runs_on_four_platforms() {
    let infos = test_infos(LanguageType::Ruby);
    let platforms: Vec<PlatformType> = infos.iter().map(|t| t.target_platform).collect();
    assert_eq!(platforms, [PlatformType::V8, PlatformType::JavascriptCore, PlatformType::SpiderMonkey, PlatformType::Native]);
    assert!(infos.iter().all(|t| t.target_language == LanguageType::Ruby));
}

#[test]
fn testcase_names_skip_taken_ones() {
    let taken = vec!["testcase0.py".to_string(), "testcase1.py".to_string(), "other".to_string()];
    assert_eq!(next_testcase_filename(&taken, &LanguageType::Python), "testcase2.py");
    assert_eq!(next_testcase_filename(&taken, &LanguageType::Ruby), "testcase0.rb");
    assert_eq!(next_testcase_filename(&Vec::new(), &LanguageType::Python), "testcase0.py");
    assert_eq!(testcase_file_path("dir", "f.py"), "dir/f.py");
    assert_eq!(testcase_file_path("dir/", "f.py"), "dir/f.py");
}

#[test]
fn the_bar_shows_progress() {
    let mut bar = IndicateBar::new(10);
    assert_eq!(bar.progress, 0);
    assert_eq!(bar.to_string(), format!("[\u{1f680}{}] [0 exec/10 exec]\r", "-".repeat(14)));
    let line = bar.progress(5);
    let shown = format!("[{}\u{1f680}{}] [5 exec/10 exec]\r", "\u{1f525}".repeat(7), "-".repeat(7));
    assert_eq!(bar.to_string(), shown);
    assert_eq!(line, format!("Test progress : \x1b[96m{}\x1b[0m\r", shown));
    for _ in 0..5 {
        bar.progress_one();
    }
    assert_eq!(bar.progress, 10);
    assert_eq!(bar.to_string(), format!("[{}] [10 exec/10 exec]\r", "\u{1f525}".repeat(15)));
}

#[test]
fn output_is_collected_until_the_stream_stops() {
    let mut r = PrintResult::new();
    assert!(r.take_event(&ExecEvent::StdOut("h\u{e9}llo ".as_bytes().to_vec())));
    assert!(r.take_event(&ExecEvent::StdOut(b"world".to_vec())));
    assert!(r.take_event(&ExecEvent::StdErr(vec![0xff, 0xfe])));
    assert!(r.take_event(&ExecEvent::StdErr(b"oops".to_vec())));
    assert_eq!(r.stdout, "h\u{e9}llo world");
    assert_eq!(r.stderr, "oops");
    assert!(!r.take_event(&ExecEvent::StdIn));
    assert!(!r.take_event(&ExecEvent::Failed));
    assert!(!r.take_event(&ExecEvent::Ended));
    assert!(!r.take_event(&ExecEvent::TimedOut));
    assert_eq!(r.stdout, "h\u{e9}llo world");
}

#[test]
fn outputs_differ_when_one_run_prints_otherwise() {
    let run = |out: &str| PrintResult { stdout: out.to_string(), stderr: String::new() };
    assert!(!outputs_differ(&Vec::new()));
    assert!(!outputs_differ(&vec![run("1\n"), run("1\n"), run("1\n")]));
    assert!(outputs_differ(&vec![run("1\n"), run("2\n"), run("1\n")]));
    assert!(outputs_differ(&vec![run("2\n"), run("1\n")]));
    let mut other = run("1\n");
    other.stderr = "warning".to_string();
    assert!(!outputs_differ(&vec![other, run("1\n")]));
}

#[test]
fn a_test_case_is_made_from_a_fuzzed_program() {
    let mut seed = 3;
    let t = testcase_from_ir(&"if x {\nprint(1)\n}\n".to_string(), &mut seed).unwrap();
    assert_eq!(t, "if x \n print(1)\n \n");
    assert_eq!(seed, 3);
    let mut seed = 7;
    let t = testcase_from_ir(&"@Define:Primitive;\nprint(@Refer:Primitive;)".to_string(), &mut seed).unwrap();
    assert!(t.starts_with("var"), "{t}");
    assert!(!t.contains('@'), "{t}");
    assert_ne!(seed, 7);
    let mut seed = 5;
    assert_eq!(testcase_from_ir(&"a }\n}".to_string(), &mut seed), None);
    assert_eq!(seed, 5);
}

#[test]
fn indentation_needs_ascii_before_an_indented_newline() {
    assert!(indent_safe(&"a {\nb\n}\n\u{e9}".to_string()));
    assert!(indent_safe(&"\u{e9}\nb".to_string()));
    assert!(!indent_safe(&"\u{e9} {\nb\n}".to_string()));
}
