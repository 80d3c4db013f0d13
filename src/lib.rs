//! A small interactive shell: a lexer, a recursive-descent parser, and a
//! runner that walks the command tree as a state machine, with aliases,
//! parameter expansion, pipelines and redirections.
use vstd::prelude::*;

pub mod text;
pub mod assoc;
pub mod lexer;
pub mod parser;
pub mod shell;
pub mod expand;
pub mod builtins;
pub mod runner;

verus! {

} // verus!
