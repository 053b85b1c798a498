//! A front end for the Lox language: a scanner that turns source text into
//! tokens, a recursive-descent parser that turns tokens into statements, the
//! lexical environments that hold variables, a resolver that computes the
//! scope distance of each variable use, and the variable state of a running
//! program.
pub mod tokentype;
pub mod scanner;
pub mod expr;
pub mod stmt;
pub mod grammar;
pub mod fresh_ids;
pub mod parser;
pub mod environment;
pub mod resolver;
pub mod interpreter;
