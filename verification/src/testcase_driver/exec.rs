//! What running one test case in a container needs: the image, the command and the
//! path of the test case for each platform and language, and the collection of
//! the output the command streams back.
use vstd::prelude::*;
use crate::text::owned;
use crate::text::concat;

verus! {

/// What a test case printed.
pub struct PrintResult {
    pub stdout: String,
    pub stderr: String,
}

/// Where a test case runs: in a JavaScript engine (through WASI) or natively.
#[derive(Clone, Copy, PartialEq, Eq, Structural, Debug)]
pub enum PlatformType {
    V8,
    SpiderMonkey,
    JavascriptCore,
    Native,
}

/// The language of a test case.
#[derive(Clone, Copy, PartialEq, Eq, Structural, Debug)]
pub enum LanguageType {
    Python,
    Ruby,
}

/// One platform and language to run a test case on.
#[derive(Clone, Copy, PartialEq, Eq, Structural, Debug)]
pub struct TestInfo {
    pub target_platform: PlatformType,
    pub target_language: LanguageType,
}

/// The platforms, in order, on which each test case runs.
pub open spec fn platforms() -> Seq<PlatformType> {
    seq![PlatformType::V8, PlatformType::JavascriptCore, PlatformType::SpiderMonkey, PlatformType::Native]
}

/// The four runs of a test case in `language`: V8, JavaScriptCore, SpiderMonkey, native.
pub fn test_infos(language: LanguageType) -> (r: Vec<TestInfo>)
    ensures
        r@.len() == 4,
        forall|i: int| 0 <= i < 4 ==> #[trigger] r@[i] == (TestInfo { target_platform: platforms()[i], target_language: language }),
{
    let r = vec![
        TestInfo { target_platform: PlatformType::V8, target_language: language },
        TestInfo { target_platform: PlatformType::JavascriptCore, target_language: language },
        TestInfo { target_platform: PlatformType::SpiderMonkey, target_language: language },
        TestInfo { target_platform: PlatformType::Native, target_language: language },
    ];
    r
}

/// How to run a test case: the image to start, the container's name, the command to
/// execute in it and where the test case goes.
pub struct ExecutionPlan {
    pub image_name: String,
    pub container_name: String,
    pub execution_command: Vec<String>,
    pub container_testcase_path: String,
}

/// The image name's part for the platform.
pub open spec fn platform_tag(p: PlatformType) -> Seq<char> {
    match p {
        PlatformType::V8 => "d8_"@,
        PlatformType::SpiderMonkey => "js_"@,
        PlatformType::JavascriptCore => "jsc_"@,
        PlatformType::Native => "na_"@,
    }
}

/// The image name's part for the language.
pub open spec fn language_tag(l: LanguageType) -> Seq<char> {
    match l {
        LanguageType::Python => "py"@,
        LanguageType::Ruby => "rb"@,
    }
}

/// The engine that starts the command, if any.
pub open spec fn engine_command(p: PlatformType) -> Seq<Seq<char>> {
    match p {
        PlatformType::V8 => seq!["./d8"@],
        PlatformType::SpiderMonkey => seq!["./js"@],
        PlatformType::JavascriptCore => seq!["./jsc"@],
        PlatformType::Native => Seq::empty(),
    }
}

/// The interpreter part of the command.
pub open spec fn interpreter_command(t: TestInfo) -> Seq<Seq<char>> {
    match (t.target_language, t.target_platform) {
        (LanguageType::Python, PlatformType::Native) => seq!["./bin/python3"@, "./testcase.py"@],
        (LanguageType::Python, _) => seq!["module-ready-wasi-py.js"@],
        (LanguageType::Ruby, PlatformType::Native) => seq!["./bin/ruby"@, "./testcase.rb"@],
        (LanguageType::Ruby, _) => seq!["module-ready-wasi-rb.js"@],
    }
}

/// The whole command: engine, interpreter and, for JavaScriptCore, `-- none`.
pub open spec fn command_spec(t: TestInfo) -> Seq<Seq<char>> {
    engine_command(t.target_platform) + interpreter_command(t) + if t.target_platform
        == PlatformType::JavascriptCore {
        seq!["--"@, "none"@]
    } else {
        Seq::empty()
    }
}

/// On JavaScriptCore the command ends with `--` and `none`, for every language; on
/// the other platforms `none` does not occur in it. The tail depends on the
/// platform alone.
pub proof fn lemma_command_tail(t: TestInfo, u: TestInfo)
    ensures
        t.target_platform == PlatformType::JavascriptCore ==> command_spec(t).len() >= 3
            && command_spec(t)[command_spec(t).len() - 2] == "--"@ && command_spec(t).last() == "none"@,
        t.target_platform != PlatformType::JavascriptCore ==> !command_spec(t).contains("none"@),
        t.target_platform == PlatformType::JavascriptCore && u.target_platform == PlatformType::JavascriptCore
            ==> command_spec(t).subrange(0, 1) == command_spec(u).subrange(0, 1) && command_spec(t).subrange(
            2,
            4,
        ) == command_spec(u).subrange(2, 4),
{
    reveal_strlit("none");
    reveal_strlit("--");
    reveal_strlit("./d8");
    reveal_strlit("./js");
    reveal_strlit("./jsc");
    reveal_strlit("./bin/python3");
    reveal_strlit("./testcase.py");
    reveal_strlit("module-ready-wasi-py.js");
    reveal_strlit("./bin/ruby");
    reveal_strlit("./testcase.rb");
    reveal_strlit("module-ready-wasi-rb.js");
    let c = command_spec(t);
    if t.target_platform != PlatformType::JavascriptCore {
        let parts = engine_command(t.target_platform) + interpreter_command(t);
        assert(c =~= parts);
        assert forall|i: int| 0 <= i < c.len() implies c[i][0] != 'n' by {
            let e = engine_command(t.target_platform);
            if i < e.len() {
                assert(c[i] == e[i]);
            } else {
                assert(c[i] == interpreter_command(t)[i - e.len()]);
            }
        }
        if c.contains("none"@) {
            let i = choose|i: int| 0 <= i < c.len() && c[i] == "none"@;
            assert(c[i][0] == 'n');
        }
    }
}

/// Where the test case goes in the container.
pub open spec fn testcase_path_spec(t: TestInfo) -> Seq<char> {
    "/root/"@ + match (t.target_language, t.target_platform) {
        (LanguageType::Python, PlatformType::Native) => "py-native-sandbox/testcase.py"@,
        (LanguageType::Python, _) => "py-wasi-sandbox/testcase.py"@,
        (LanguageType::Ruby, PlatformType::Native) => "rb-native-sandbox/testcase.rb"@,
        (LanguageType::Ruby, _) => "rb-wasi-sandbox/testcase.rb"@,
    }
}

/// The plan for running a test case on `test_target`.
pub fn execution_plan(test_target: &TestInfo) -> (r: ExecutionPlan)
    ensures
        r.image_name@ == platform_tag(test_target.target_platform) + language_tag(test_target.target_language),
        r.container_name@ == "testcase_execution_container"@,
        r.execution_command.deep_view() == command_spec(*test_target),
        r.container_testcase_path@ == testcase_path_spec(*test_target),
{
    let container_name = owned("testcase_execution_container");
    let mut image_name = String::new();
    let mut execution_command: Vec<String> = Vec::new();
    let mut container_testcase_path = owned("/root/");
    match test_target.target_platform {
        PlatformType::V8 => {
            image_name.append("d8_");
            execution_command.push(owned("./d8"));
        },
        PlatformType::SpiderMonkey => {
            image_name.append("js_");
            execution_command.push(owned("./js"));
        },
        PlatformType::JavascriptCore => {
            image_name.append("jsc_");
            execution_command.push(owned("./jsc"));
        },
        PlatformType::Native => {
            image_name.append("na_");
        },
    }
    assert(execution_command.deep_view() =~= engine_command(test_target.target_platform));
    let ghost engine = execution_command.deep_view();
    match test_target.target_language {
        LanguageType::Python => {
            image_name.append("py");
            match test_target.target_platform {
                PlatformType::Native => {
                    container_testcase_path.append("py-native-sandbox/testcase.py");
                    execution_command.push(owned("./bin/python3"));
                    execution_command.push(owned("./testcase.py"));
                },
                _ => {
                    container_testcase_path.append("py-wasi-sandbox/testcase.py");
                    execution_command.push(owned("module-ready-wasi-py.js"));
                },
            }
        },
        LanguageType::Ruby => {
            image_name.append("rb");
            match test_target.target_platform {
                PlatformType::Native => {
                    container_testcase_path.append("rb-native-sandbox/testcase.rb");
                    execution_command.push(owned("./bin/ruby"));
                    execution_command.push(owned("./testcase.rb"));
                },
                _ => {
                    container_testcase_path.append("rb-wasi-sandbox/testcase.rb");
                    execution_command.push(owned("module-ready-wasi-rb.js"));
                },
            }
        },
    }
    assert(execution_command.deep_view() =~= engine + interpreter_command(*test_target));
    let ghost before = execution_command.deep_view();
    match test_target.target_platform {
        PlatformType::JavascriptCore => {
            execution_command.push(owned("--"));
            execution_command.push(owned("none"));
        },
        _ => {},
    }
    assert(execution_command.deep_view() =~= command_spec(*test_target));
    ExecutionPlan { image_name, container_name, execution_command, container_testcase_path }
}

/// What the output stream of a running test case yields next.
pub enum ExecEvent {
    /// Bytes written to standard output.
    StdOut(Vec<u8>),
    /// Bytes written to standard error.
    StdErr(Vec<u8>),
    /// A chunk for standard input.
    StdIn,
    /// The stream reported an error.
    Failed,
    /// The stream ended.
    Ended,
    /// Nothing came for too long.
    TimedOut,
}

/// The text of `bytes` when they are UTF-8, else nothing.
pub open spec fn text_or_empty(bytes: Seq<u8>) -> Seq<char> {
    if vstd::utf8::valid_utf8(bytes) {
        vstd::utf8::decode_utf8(bytes)
    } else {
        Seq::empty()
    }
}

/// Decodes `bytes` with `std::str::from_utf8`; invalid UTF-8 gives the empty text.
/// The contract restates the documentation of `from_utf8`: it succeeds exactly on
/// valid UTF-8, and then the text is the one the bytes encode.
#[verifier::external_body]
fn utf8_text(bytes: &[u8]) -> (r: String)
    ensures
        r@ == text_or_empty(bytes@),
{
    match std::str::from_utf8(bytes) {
        Ok(s) => s.to_string(),
        Err(_) => String::new(),
    }
}

impl PrintResult {
    /// Nothing printed yet.
    pub fn new() -> (r: PrintResult)
        ensures
            r.stdout@.len() == 0,
            r.stderr@.len() == 0,
    {
        PrintResult { stdout: String::new(), stderr: String::new() }
    }

    /// Takes the next event of the output stream: output is appended to the stream it
    /// came on (as text, nothing when it is not UTF-8); the result says whether to
    /// keep reading, which is only after output.
    pub fn take_event(&mut self, event: &ExecEvent) -> (keep_reading: bool)
        ensures
            keep_reading == (event is StdOut || event is StdErr),
            event matches ExecEvent::StdOut(b) ==> final(self).stdout@ == old(self).stdout@ + text_or_empty(b@)
                && final(self).stderr@ == old(self).stderr@,
            event matches ExecEvent::StdErr(b) ==> final(self).stderr@ == old(self).stderr@ + text_or_empty(b@)
                && final(self).stdout@ == old(self).stdout@,
            !(event is StdOut || event is StdErr) ==> final(self).stdout@ == old(self).stdout@
                && final(self).stderr@ == old(self).stderr@,
    {
        match event {
            ExecEvent::StdOut(bytes) => {
                let text = utf8_text(bytes.as_slice());
                self.stdout.append(text.as_str());
                true
            },
            ExecEvent::StdErr(bytes) => {
                let text = utf8_text(bytes.as_slice());
                self.stderr.append(text.as_str());
                true
            },
            _ => false,
        }
    }
}

/// Whether the platforms disagree on a test case: the standard output of some run
/// differs from that of the last run.
pub fn outputs_differ(results: &Vec<PrintResult>) -> (r: bool)
    ensures
        r == exists|i: int| 0 <= i < results@.len() && #[trigger] results@[i].stdout@ != results@.last().stdout@,
{
    let n = results.len();
    if n == 0 {
        return false;
    }
    let last = &results[n - 1];
    let mut i: usize = 0;
    while i < n
        invariant
            n == results@.len(),
            n > 0,
            last == results@.last(),
            i <= n,
            forall|k: int| 0 <= k < i ==> #[trigger] results@[k].stdout@ == results@.last().stdout@,
        decreases n - i,
    {
        if !crate::text::str_eq(results[i].stdout.as_str(), last.stdout.as_str()) {
            return true;
        }
        i = i + 1;
    }
    false
}

} // verus!
