//! frankish — the verified front half of a language-construction
//! workbench: the scheme reader, the ml_core lexer, the golden and
//! differential comparison engines, and the canonicalization filter
//! every comparison passes through.

pub mod text;
pub mod harness;
pub mod scheme;
pub mod ml;
pub mod lua;
pub mod types;
pub mod loanword;
