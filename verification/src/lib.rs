//! Parsing and evaluation core of an arbitrary-precision calculator language.
//!
//! Text is tokenized, folded into a precedence-correct tree and evaluated
//! bottom-up over a three-way numeric value type.
use vstd::prelude::*;

pub mod text;
pub mod position;
pub mod errors;
pub mod patterns;
pub mod tokens;
pub mod bitseqs;
pub mod integers;
pub mod decimals;
pub mod values;
pub mod operations;
pub mod numerals;
pub mod reading;
pub mod store;
pub mod environment;
pub mod evaluator;
pub mod ast;
pub mod tokenizer;
pub mod structure;
pub mod folding;
pub mod parser;
