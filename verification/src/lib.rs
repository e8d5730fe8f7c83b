//! A GraphQL lexer and recursive-descent parser whose behaviour is stated in
//! Verus contracts: the lexer is specified token by token, and every tree the
//! parser returns is proved to point back into its source text.

pub mod ast;
pub mod error;
pub mod lexer;
pub mod parser;
pub mod strings;
pub mod text;
pub mod variables;
