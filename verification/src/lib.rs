use vstd::prelude::*;

pub mod grammar;
pub mod grammar_fuzzer;
pub mod rand;
pub mod testcase_driver;
pub mod text;
pub mod text_order;
