//! A minimal expression-oriented scripting language: a lexer turns source
//! text into tokens, a precedence-climbing parser builds an abstract syntax
//! tree of statements and expressions, and a tree-walking evaluator runs the
//! tree against a flat global environment of variables and zero-argument
//! functions.

pub mod lex;
pub mod parse;
pub mod eval;
