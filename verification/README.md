# wasi_pyrb_diff_test

Differential testing of Python and Ruby interpreters: test programs are fuzzed from
grammars, run natively and as WASI builds on V8, JavaScriptCore and SpiderMonkey,
and compared.

The library under `src/` is written in Verus. Its functions carry contracts that
Verus proves, except three small wrappers whose contracts are trusted: the FxHash
of a `u64` (`rand::fx_hash_of`), `String::push` (`text::push_char`) and
`std::str::from_utf8` (`testcase_driver::exec`'s `utf8_text`).

* `grammar` — grammars in the notation `<name>` for nonterminals, a scanner for
  its token shapes (`pattern`), validity and reachability (`validity`), the
  rewriting of EBNF shorthands (`ebnf`), expansion options (`options`), the
  predefined grammars and a simple text-rewriting fuzzer.
* `grammar_fuzzer` — derivation trees (`tree`), expansion costs (`cost`), the
  three-phase tree fuzzer, what every step of it keeps (`laws`), why the slot
  filler's two grammars can be fuzzed (`ready`), the filling of
  variable slots in fuzzed programs (`var_ctx`) and label escaping for dot (`dot`).
* `testcase_driver` — how a fuzzed program becomes a test case, how a test case
  runs in a container, the collection of its output, whether the platforms' outputs differ, the naming of saved test cases and the progress bar.
* `rand` — the pseudo-random step: the FxHash of the seed.
* `text` and `text_order` — character-level string helpers, and the order of
  strings with a sort for lists of distinct names.

`app/main.rs` is the command-line program around the library: arguments, Docker,
files and printing.
