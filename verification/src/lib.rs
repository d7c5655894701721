//! A verified interpreter pipeline for a minimal imperative scripting
//! language: a tokenizer, a recursive-descent parser with explicit operator
//! precedence, and a tree-walking evaluator over a single flat map from
//! variable names to 64-bit signed integers.
//!
//! Each stage carries a mathematical model: `lexer::lex_text` for
//! tokenizing, the `parser::p_*` family for the grammar, and
//! `semantics::exec_block` for execution, whose loop budget is an explicit
//! fuel parameter so that the model is a total function. The executable
//! pipeline is proved to agree with the model exactly, stage by stage;
//! `interp::interpret` ties the three stages together.

pub mod env;
pub mod errors;
pub mod interp;
pub mod lexer;
pub mod nodes;
pub mod numerals;
pub mod parser;
pub mod semantics;
pub mod text;
pub mod tokens;
