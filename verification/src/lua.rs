//! The femto_lua front end: a Lua 5.1 subset lexer and
//! recursive-descent parser.

pub mod lex;
pub mod ast;
pub mod free;
