//! A small boolean-logic toolkit: a whitespace tokenizer for expressions over
//! `and`, `or`, `not` and parentheses, a stack parser that builds an abstract
//! syntax tree, a recursive evaluator with an optional trace of intermediate
//! results, and an exhaustive truth-table generator.

pub mod ast;
pub mod eval;
pub mod laws;
pub mod parser;
pub mod table;
pub mod token;
