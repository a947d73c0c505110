//! Tokenizing and evaluating one-line arithmetic expressions.
//!
//! The lexer turns a line of text into number and operator tokens, collecting
//! an error for each character it does not know. The evaluator runs the
//! two-stack shunting-yard algorithm over those tokens and hands back the
//! expression tree that the reductions build; the numeric folding of that
//! tree is left to the caller.

pub mod eval;
pub mod lex;
pub mod render;
