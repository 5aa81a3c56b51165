//! A parser for POSIX-flavoured shell command lines, with the expander that
//! resolves variable references in its words.
//!
//! [`lexer::tokenize`] turns source text into tokens, [`parser::Parser`]
//! turns tokens into conditional elements, pipelines and simple commands
//! (collecting `$(...)` bodies in a table by id), and
//! [`expander::expand_word`] gives the text of a word in an environment.
//! Each is proved against the rules written as spec functions in
//! [`lexer`] and [`grammar`]; [`laws`] states what holds of every result.
pub mod ast;
pub mod expander;
pub mod grammar;
pub mod laws;
pub mod lexer;
pub mod parser;
mod scan;
pub mod text;
