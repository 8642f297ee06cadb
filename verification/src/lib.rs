//! A tokenizer, parser and evaluator for a small Lox-like language.

pub mod chars;
pub mod expr;
pub mod parser;
pub mod stmt;
pub mod tokenizer;
pub mod run;
