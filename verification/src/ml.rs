//! The ml_core front end: lexer, recursive-descent parser, the typed
//! AST and the ADT declarations pass.

pub mod lex;
pub mod ast;
pub mod infer;
pub mod unify;
pub mod free;

use vstd::prelude::*;
use crate::ml::ast::{parse, parse_spec};
use crate::ml::infer::{declare_spec, ctor_table_spec, first_order_repl, first_order_shaped, first_order_typed, infer_with, typed_mirrors, MainPolicy, TypedProgram};

verus! {

/// Why an ml_core program was refused, by stage.
#[derive(Debug)]
pub enum CompileError {
    Parse(String),
    Type(String),
    Emit(String),
}

impl CompileError {
    /// `parse: …`, `type: …` or `emit: …`.
    pub fn text(&self) -> (s: String)
        ensures
            s@ == match self {
                CompileError::Parse(m) => "parse: "@ + m@,
                CompileError::Type(m) => "type: "@ + m@,
                CompileError::Emit(m) => "emit: "@ + m@,
            },
    {
        match self {
            CompileError::Parse(m) => crate::text::join2("parse: ", m.as_str()),
            CompileError::Type(m) => crate::text::join2("type: ", m.as_str()),
            CompileError::Emit(m) => crate::text::join2("emit: ", m.as_str()),
        }
    }
}

/// Typechecks ml_core source under the REPL policy (`main` optional,
/// any concrete result): parse, then infer. A parse failure is reported
/// with its byte offset; a type failure with its message.
pub fn check_ml(source: &str) -> (r: Result<TypedProgram, CompileError>)
    ensures
        match parse_spec(source@) {
            Err((o, msg)) => r matches Err(CompileError::Parse(t))
                && t@ == "parse error at byte "@ + crate::harness::canon::decimal_digits(o as nat) + ": "@ + msg,
            Ok(pm) => match declare_spec(pm.0) {
                Err(m) => r matches Err(CompileError::Type(t)) && t@ == m,
                Ok(adts) => (r is Ok || r matches Err(CompileError::Type(_)))
                    && (r matches Ok(tp) ==> typed_mirrors(tp, pm, ctor_table_spec(adts)))
                    && (first_order_repl(pm) ==> r is Ok)
                    && (first_order_shaped(pm) && r is Ok ==> first_order_typed(pm)),
            },
        },
{
    let program = match parse(source) {
        Ok(p) => p,
        Err(e) => {
            return Err(CompileError::Parse(e.render()));
        },
    };
    proof {
        crate::ml::infer::lemma_first_order_without_main(program);
        crate::ml::infer::lemma_first_order_repl(program);
    }
    match infer_with(&program, MainPolicy::OptionalAny) {
        Ok(tp) => Ok(tp),
        Err(e) => Err(CompileError::Type(e.0)),
    }
}

} // verus!
