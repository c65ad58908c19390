//! An integer calculator: tokenizer, shunting-yard converter and postfix evaluator.
pub mod converter;
pub mod evaluator;
pub mod parser;
pub mod token;
pub mod tokenizer;

pub use parser::{evaluate, Parser};
pub use token::{Bracket, CalcError, Operator, Token};
