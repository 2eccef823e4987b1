//! Making a test case from a fuzzed program, naming saved test cases and showing
//! the progress of a test run.
use vstd::prelude::*;
use crate::text::owned;
use crate::text::chars_of;
use crate::text::push_char;
use crate::text::push_decimal;
use crate::text::decimal;
use crate::text::framed;
use crate::text::least_free;
use crate::text::lemma_least_free;
use crate::text::lemma_least_free_from;
use crate::grammar::validity::contains_str;
use self::exec::LanguageType;
use crate::grammar::str_helper::indent_ok;
use crate::grammar::str_helper::indent_safe;
use crate::grammar::str_helper::indented;
use crate::grammar::str_helper::replace_scope_with_indent;
use crate::grammar_fuzzer::var_ctx::ir_ok;
use crate::grammar_fuzzer::var_ctx::ir_is_ok;
use crate::grammar_fuzzer::var_ctx::ir_to_ctx;
use crate::grammar_fuzzer::var_ctx::ir_to_ctx_spec;

pub mod exec;

verus! {

/// The test case made of the fuzzed program `ir`: its variable slots filled from
/// `seed` (see `ir_to_ctx`) and its braces turned into indentation (see
/// `replace_scope_with_indent`). `None`, with the seed untouched, when the slots or
/// braces of `ir` are malformed; `None` when the filled text cannot be indented.
pub fn testcase_from_ir(ir: &String, seed: &mut u64) -> (r: Option<String>)
    ensures
        !ir_ok(ir@) ==> r is None && *final(seed) == *old(seed),
        ir_ok(ir@) ==> ({
            let (ctx, s) = ir_to_ctx_spec(ir@, *old(seed));
            &&& *final(seed) == s
            &&& indent_ok(ctx) ==> (r matches Some(t) && t@ == indented(ctx))
            &&& !indent_ok(ctx) ==> r is None
        }),
{
    if !ir_is_ok(ir) {
        return None;
    }
    let ctx = ir_to_ctx(ir, seed);
    if !indent_safe(&ctx) {
        return None;
    }
    Some(replace_scope_with_indent(&ctx))
}

/// The file extension of test cases in `t`.
pub open spec fn testcase_ext(t: LanguageType) -> Seq<char> {
    match t {
        LanguageType::Python => ".py"@,
        LanguageType::Ruby => ".rb"@,
    }
}

/// The name under which a test case is saved next to `already_exist_filenames`:
/// `testcase` numbered by the least number, from 0, whose name is not taken.
pub open spec fn testcase_name(already_exist_filenames: Seq<Seq<char>>, t: LanguageType) -> Seq<char> {
    framed("testcase"@, least_free(already_exist_filenames, "testcase"@, testcase_ext(t), 0), testcase_ext(t))
}

/// The name of a new test case file among `already_exist_filenames`: `testcase0.py`,
/// `testcase1.py`, ... (`.rb` for Ruby), the first one not taken.
pub fn next_testcase_filename(already_exist_filenames: &Vec<String>, interpreter_type: &LanguageType) -> (r: String)
    ensures
        r@ == testcase_name(already_exist_filenames.deep_view(), *interpreter_type),
        !already_exist_filenames.deep_view().contains(r@),
{
    let testcase_ext = match interpreter_type {
        LanguageType::Python => ".py",
        LanguageType::Ruby => ".rb",
    };
    let ghost names = already_exist_filenames.deep_view();
    let ghost ext = testcase_ext@;
    assert(ext == crate::testcase_driver::testcase_ext(*interpreter_type));
    proof {
        lemma_least_free(names, "testcase"@, ext);
    }
    let ghost m = least_free(names, "testcase"@, ext, 0);
    let n = already_exist_filenames.len();
    let mut name_id: u128 = 0;
    loop
        invariant
            names == already_exist_filenames.deep_view(),
            ext == testcase_ext@,
            ext == crate::testcase_driver::testcase_ext(*interpreter_type),
            m == least_free(names, "testcase"@, ext, 0),
            m <= names.len(),
            names.len() == n,
            name_id <= m,
            forall|d: nat| d < m ==> names.contains(#[trigger] framed("testcase"@, d, ext)),
            !names.contains(framed("testcase"@, m, ext)),
        decreases m - name_id,
    {
        let mut testcase_filename = owned("testcase");
        push_decimal(&mut testcase_filename, name_id);
        testcase_filename.append(testcase_ext);
        assert(testcase_filename@ =~= framed("testcase"@, name_id as nat, ext));
        if !contains_str(already_exist_filenames, testcase_filename.as_str()) {
            assert(name_id == m);
            return testcase_filename;
        }
        assert(name_id != m);
        name_id = name_id + 1;
    }
}

/// `path` with `/` appended unless it ends with one.
pub open spec fn with_slash(path: Seq<char>) -> Seq<char> {
    if path.len() > 0 && path.last() == '/' {
        path
    } else {
        path.push('/')
    }
}

/// The path of the file `filename` in the directory `path`.
pub fn testcase_file_path(path: &str, filename: &str) -> (r: String)
    ensures
        r@ == with_slash(path@) + filename@,
{
    let cs = chars_of(path);
    let mut p = owned(path);
    if !(cs.len() > 0 && cs[cs.len() - 1] == '/') {
        push_char(&mut p, '/');
    }
    p.append(filename);
    p
}

/// A progress bar of a test run.
pub struct IndicateBar {
    pub max_progress: u32,
    pub progress: u32,
}

/// `n` copies of `c`.
pub open spec fn repeat(c: char, n: nat) -> Seq<char>
    decreases n,
{
    if n == 0 {
        Seq::empty()
    } else {
        repeat(c, (n - 1) as nat).push(c)
    }
}

/// The number of filled cells of a bar of 15 cells.
pub open spec fn filled(progress: u32, max_progress: u32) -> nat {
    ((progress as int * 15) / (max_progress as int)) as nat
}

/// How a bar shows: `[`, a flame per filled cell, a rocket while the run is not
/// done, dashes up to 14 cells, `] [`, the progress, ` exec/`, the maximum,
/// ` exec]` and a carriage return.
pub open spec fn bar_text(progress: u32, max_progress: u32) -> Seq<char> {
    let f = filled(progress, max_progress);
    seq!['['] + repeat('\u{1f525}', f) + (if progress < max_progress {
        seq!['\u{1f680}']
    } else {
        Seq::empty()
    }) + repeat('-', if f < 14 {
        (14 - f) as nat
    } else {
        0
    }) + "] ["@ + decimal(progress as nat) + " exec/"@ + decimal(max_progress as nat) + " exec]\r"@
}

/// The line that reports the progress of a bar.
pub open spec fn progress_line(progress: u32, max_progress: u32) -> Seq<char> {
    "Test progress : \x1b[96m"@ + bar_text(progress, max_progress) + "\x1b[0m\r"@
}

/// Appends `n` copies of `c` to `s`.
fn push_repeat(s: &mut String, c: char, n: u32)
    ensures
        final(s)@ == old(s)@ + repeat(c, n as nat),
{
    let mut i: u32 = 0;
    while i < n
        invariant
            i <= n,
            s@ == old(s)@ + repeat(c, i as nat),
        decreases n - i,
    {
        push_char(s, c);
        i = i + 1;
        assert(s@ =~= old(s)@ + repeat(c, i as nat));
    }
}

impl IndicateBar {
    /// A bar for `max` runs, none done.
    pub fn new(max: u32) -> (r: Self)
        ensures
            r.max_progress == max,
            r.progress == 0,
    {
        IndicateBar { max_progress: max, progress: 0 }
    }

    /// How the bar shows (see `bar_text`).
    pub fn to_string(&self) -> (r: String)
        requires
            self.max_progress > 0,
            self.progress * 15 <= u32::MAX,
        ensures
            r@ == bar_text(self.progress, self.max_progress),
    {
        let f: u32 = self.progress * 15 / self.max_progress;
        assert(f as nat == filled(self.progress, self.max_progress));
        let mut progressed_bar = owned("[");
        proof {
            reveal_strlit("[");
        }
        push_repeat(&mut progressed_bar, '\u{1f525}', f);
        if self.progress < self.max_progress {
            push_char(&mut progressed_bar, '\u{1f680}');
        }
        let dashes: u32 = if f < 14 {
            14 - f
        } else {
            0
        };
        push_repeat(&mut progressed_bar, '-', dashes);
        progressed_bar.append("] [");
        push_decimal(&mut progressed_bar, self.progress as u128);
        progressed_bar.append(" exec/");
        push_decimal(&mut progressed_bar, self.max_progress as u128);
        progressed_bar.append(" exec]\r");
        assert(progressed_bar@ =~= bar_text(self.progress, self.max_progress));
        progressed_bar
    }

    /// Advances the bar by `add_progress`; the line to print for it.
    pub fn progress(&mut self, add_progress: u32) -> (line: String)
        requires
            old(self).progress + add_progress <= u32::MAX,
            old(self).max_progress > 0,
            (old(self).progress + add_progress) * 15 <= u32::MAX,
        ensures
            final(self).progress == old(self).progress + add_progress,
            final(self).max_progress == old(self).max_progress,
            line@ == progress_line(final(self).progress, final(self).max_progress),
    {
        self.progress = self.progress + add_progress;
        let mut line = owned("Test progress : \x1b[96m");
        let bar = self.to_string();
        line.append(bar.as_str());
        line.append("\x1b[0m\r");
        line
    }

    /// Advances the bar by one; the line to print for it.
    pub fn progress_one(&mut self) -> (line: String)
        requires
            old(self).progress + 1 <= u32::MAX,
            old(self).max_progress > 0,
            (old(self).progress + 1) * 15 <= u32::MAX,
        ensures
            final(self).progress == old(self).progress + 1,
            final(self).max_progress == old(self).max_progress,
            line@ == progress_line(final(self).progress, final(self).max_progress),
    {
        self.progress(1)
    }
}

} // verus!
