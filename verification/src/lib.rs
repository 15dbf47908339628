use vstd::prelude::*;

pub mod ai;
pub mod ascii;
pub mod ast;
pub mod bash;
pub mod collections;
pub mod grammar;
pub mod grammar_steps;
pub mod commands;
pub mod http;
pub mod interpreter;
pub mod json;
pub mod lexer;
pub mod native;
pub mod logging;
pub mod numfmt;
pub mod os;
pub mod parser;
pub mod repl;
pub mod scopes;
pub mod script;
pub mod system;
pub mod text;
pub mod time;
pub mod web;
pub mod webdriver;

verus! {

} // verus!
