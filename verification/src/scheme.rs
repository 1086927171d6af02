//! r7rs_core frontend: the reader (source text to `Datum` trees) and the
//! core-form parser over those trees.

pub mod reader;
pub mod ast;
pub mod free;
