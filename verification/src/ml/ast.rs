//! AST and recursive-descent parser for ml_core. Pattern lets desugar
//! to match at parse time (`let P = e in b` is `match e with P -> b`),
//! and multi-parameter bindings desugar to nested single-parameter
//! funs, so everything downstream sees a tiny core.
//!
//! Program shape: interleaved `type` definitions and top-level `let` /
//! `let rec` declarations.

use vstd::prelude::*;
use crate::ml::lex::{Lexeme, LexError, Spanned, Token, lex, lex_spec, lexemes, lexeme_text, ints_nonneg};
use crate::text::string_of;

verus! {

pub type NodeId = usize;

#[derive(Clone, Debug, PartialEq, Eq)]
pub enum Param {
    Named(String),
    Unit,
}

#[derive(Debug)]
pub enum Expr {
    Unit,
    Int(i64),
    Bool(bool),
    Var(String),
    /// Constructor application; multi-payload uses a tuple argument.
    Ctor { name: String, arg: Option<Box<Expr>> },
    Tuple(Vec<Expr>),
    Neg(Box<Expr>),
    Bin { op: BinOp, lhs: Box<Expr>, rhs: Box<Expr> },
    If { cond: Box<Expr>, then: Box<Expr>, els: Box<Expr> },
    /// Single-parameter lambda (the parser nests multi-parameter forms).
    Fun { id: NodeId, param: Param, body: Box<Expr> },
    App { func: Box<Expr>, arg: Box<Expr> },
    Let { rec: bool, bindings: Vec<Binding>, body: Box<Expr> },
    Match { scrutinee: Box<Expr>, arms: Vec<(Pattern, Expr)> },
}

#[derive(Clone, Copy, Debug, PartialEq, Eq)]
pub enum BinOp {
    Add,
    Sub,
    Mul,
    Div,
    Eq,
    Ne,
    Lt,
    Le,
    Gt,
    Ge,
    AndAlso,
    OrElse,
}

#[derive(Debug)]
pub struct Binding {
    pub id: NodeId,
    pub name: String,
    pub expr: Expr,
}

#[derive(Debug)]
pub enum Pattern {
    Wild,
    Var(String),
    Int(i64),
    Bool(bool),
    Unit,
    Tuple(Vec<Pattern>),
    Ctor { name: String, arg: Option<Box<Pattern>> },
}

#[derive(Debug)]
pub enum TypeExpr {
    Int,
    Bool,
    Unit,
    Named(String),
    Tuple(Vec<TypeExpr>),
}

#[derive(Debug)]
pub struct TypeDef {
    pub name: String,
    pub ctors: Vec<(String, Vec<TypeExpr>)>,
}

#[derive(Debug)]
pub struct Program {
    pub typedefs: Vec<TypeDef>,
    pub decls: Vec<(bool, Vec<Binding>)>,
}

#[derive(Debug)]
pub struct ParseError {
    pub offset: usize,
    pub message: String,
}

impl ParseError {
    /// `parse error at byte <offset>: <message>`.
    pub fn render(&self) -> (s: String)
        ensures
            s@ == "parse error at byte "@ + crate::harness::canon::decimal_digits(self.offset as nat) + ": "@
                + self.message@,
    {
        let mut v = crate::text::chars_of("parse error at byte ");
        let mut d = crate::harness::canon::digits_of(self.offset as u64);
        v.append(&mut d);
        crate::text::push_str(&mut v, ": ");
        crate::text::push_str(&mut v, self.message.as_str());
        string_of(&v)
    }
}

pub enum ParamModel {
    Named(Seq<char>),
    Unit,
}

pub enum PatternModel {
    Wild,
    Var(Seq<char>),
    Int(int),
    Bool(bool),
    Unit,
    Tuple(Seq<PatternModel>),
    Ctor(Seq<char>, Option<Box<PatternModel>>),
}

pub enum TypeExprModel {
    Int,
    Bool,
    Unit,
    Named(Seq<char>),
    Tuple(Seq<TypeExprModel>),
}

/// The mathematical shape of an expression; a binding is `(id, name,
/// expression)`.
pub enum ExprModel {
    Unit,
    Int(int),
    Bool(bool),
    Var(Seq<char>),
    Ctor(Seq<char>, Option<Box<ExprModel>>),
    Tuple(Seq<ExprModel>),
    Neg(Box<ExprModel>),
    Bin(BinOp, Box<ExprModel>, Box<ExprModel>),
    If(Box<ExprModel>, Box<ExprModel>, Box<ExprModel>),
    Fun(int, ParamModel, Box<ExprModel>),
    App(Box<ExprModel>, Box<ExprModel>),
    Let(bool, Seq<(int, Seq<char>, ExprModel)>, Box<ExprModel>),
    Match(Box<ExprModel>, Seq<(PatternModel, ExprModel)>),
}

pub type BindingModel = (int, Seq<char>, ExprModel);

pub type TypeDefModel = (Seq<char>, Seq<(Seq<char>, Seq<TypeExprModel>)>);

pub type ProgramModel = (Seq<TypeDefModel>, Seq<(bool, Seq<BindingModel>)>);

pub open spec fn param_model(p: Param) -> ParamModel {
    match p {
        Param::Named(n) => ParamModel::Named(n@),
        Param::Unit => ParamModel::Unit,
    }
}

pub open spec fn pattern_model(p: Pattern) -> PatternModel
    decreases p,
{
    match p {
        Pattern::Wild => PatternModel::Wild,
        Pattern::Var(n) => PatternModel::Var(n@),
        Pattern::Int(v) => PatternModel::Int(v as int),
        Pattern::Bool(b) => PatternModel::Bool(b),
        Pattern::Unit => PatternModel::Unit,
        Pattern::Tuple(items) => PatternModel::Tuple(pattern_models(items@)),
        Pattern::Ctor { name, arg } => PatternModel::Ctor(name@, match arg {
            None => None,
            Some(b) => Some(Box::new(pattern_model(*b))),
        }),
    }
}

pub open spec fn pattern_models(v: Seq<Pattern>) -> Seq<PatternModel>
    decreases v,
{
    Seq::new(v.len(), |i: int| if 0 <= i < v.len() { pattern_model(v[i]) } else { PatternModel::Wild })
}

pub open spec fn type_expr_model(t: TypeExpr) -> TypeExprModel
    decreases t,
{
    match t {
        TypeExpr::Int => TypeExprModel::Int,
        TypeExpr::Bool => TypeExprModel::Bool,
        TypeExpr::Unit => TypeExprModel::Unit,
        TypeExpr::Named(n) => TypeExprModel::Named(n@),
        TypeExpr::Tuple(items) => TypeExprModel::Tuple(type_expr_models(items@)),
    }
}

pub open spec fn type_expr_models(v: Seq<TypeExpr>) -> Seq<TypeExprModel>
    decreases v,
{
    Seq::new(v.len(), |i: int| if 0 <= i < v.len() { type_expr_model(v[i]) } else { TypeExprModel::Int })
}

pub open spec fn expr_model(e: Expr) -> ExprModel
    decreases e,
{
    match e {
        Expr::Unit => ExprModel::Unit,
        Expr::Int(v) => ExprModel::Int(v as int),
        Expr::Bool(b) => ExprModel::Bool(b),
        Expr::Var(n) => ExprModel::Var(n@),
        Expr::Ctor { name, arg } => ExprModel::Ctor(name@, match arg {
            None => None,
            Some(b) => Some(Box::new(expr_model(*b))),
        }),
        Expr::Tuple(items) => ExprModel::Tuple(expr_models(items@)),
        Expr::Neg(x) => ExprModel::Neg(Box::new(expr_model(*x))),
        Expr::Bin { op, lhs, rhs } => ExprModel::Bin(op, Box::new(expr_model(*lhs)), Box::new(expr_model(*rhs))),
        Expr::If { cond, then, els } => ExprModel::If(
            Box::new(expr_model(*cond)),
            Box::new(expr_model(*then)),
            Box::new(expr_model(*els)),
        ),
        Expr::Fun { id, param, body } => ExprModel::Fun(id as int, param_model(param), Box::new(expr_model(*body))),
        Expr::App { func, arg } => ExprModel::App(Box::new(expr_model(*func)), Box::new(expr_model(*arg))),
        Expr::Let { rec, bindings, body } => ExprModel::Let(rec, binding_models(bindings@), Box::new(expr_model(*body))),
        Expr::Match { scrutinee, arms } => ExprModel::Match(Box::new(expr_model(*scrutinee)), arm_models(arms@)),
    }
}

pub open spec fn expr_models(v: Seq<Expr>) -> Seq<ExprModel>
    decreases v,
{
    Seq::new(v.len(), |i: int| if 0 <= i < v.len() { expr_model(v[i]) } else { ExprModel::Unit })
}

pub open spec fn binding_models(v: Seq<Binding>) -> Seq<BindingModel>
    decreases v,
{
    Seq::new(v.len(), |i: int| if 0 <= i < v.len() {
        (v[i].id as int, v[i].name@, expr_model(v[i].expr))
    } else {
        (0, Seq::empty(), ExprModel::Unit)
    })
}

pub open spec fn arm_models(v: Seq<(Pattern, Expr)>) -> Seq<(PatternModel, ExprModel)>
    decreases v,
{
    Seq::new(v.len(), |i: int| if 0 <= i < v.len() {
        (pattern_model(v[i].0), expr_model(v[i].1))
    } else {
        (PatternModel::Wild, ExprModel::Unit)
    })
}

impl View for Expr {
    type V = ExprModel;

    open spec fn view(&self) -> ExprModel {
        expr_model(*self)
    }
}

impl View for Pattern {
    type V = PatternModel;

    open spec fn view(&self) -> PatternModel {
        pattern_model(*self)
    }
}

impl View for TypeExpr {
    type V = TypeExprModel;

    open spec fn view(&self) -> TypeExprModel {
        type_expr_model(*self)
    }
}

pub open spec fn ctor_models(v: Seq<(String, Vec<TypeExpr>)>) -> Seq<(Seq<char>, Seq<TypeExprModel>)> {
    v.map_values(|c: (String, Vec<TypeExpr>)| (c.0@, type_expr_models(c.1@)))
}

pub open spec fn typedef_model(d: TypeDef) -> TypeDefModel {
    (d.name@, ctor_models(d.ctors@))
}

pub open spec fn decl_models(v: Seq<(bool, Vec<Binding>)>) -> Seq<(bool, Seq<BindingModel>)> {
    v.map_values(|d: (bool, Vec<Binding>)| (d.0, binding_models(d.1@)))
}

pub open spec fn program_model(p: Program) -> ProgramModel {
    (p.typedefs@.map_values(|d: TypeDef| typedef_model(d)), decl_models(p.decls@))
}

} // verus!

verus! {

/// A token stream: each token with its byte offset.
pub type Toks = Seq<(Lexeme, int)>;

/// A parse failure: byte offset and message.
pub type Fail = (int, Seq<char>);

pub open spec fn peek(t: Toks, p: int) -> Option<Lexeme> {
    if 0 <= p < t.len() { Some(t[p].0) } else { None }
}

pub open spec fn is_tok(t: Toks, p: int, k: Token) -> bool {
    peek(t, p) == Some(Lexeme::Other(k))
}

/// The offset errors at position `p` report: the token's, or
/// `usize::MAX` past the end.
pub open spec fn offset_at(t: Toks, p: int) -> int {
    if 0 <= p < t.len() { t[p].1 } else { usize::MAX as int }
}

/// The token at `p` as messages show it, or `none` past the end.
pub open spec fn shown(t: Toks, p: int, none: Seq<char>) -> Seq<char> {
    match peek(t, p) {
        Some(l) => lexeme_text(l),
        None => none,
    }
}

/// `what` was expected where the token at `p` was found; reported at
/// `at`.
pub open spec fn expected(t: Toks, p: int, at: int, what: Seq<char>) -> Fail {
    (offset_at(t, at), "expected "@ + what + ", found "@ + shown(t, p, "end of input"@))
}

/// The position after `k`, which must come next.
pub open spec fn eat_spec(t: Toks, p: int, k: Token) -> Result<int, Fail> {
    if is_tok(t, p, k) {
        Ok(p + 1)
    } else {
        Err(expected(t, p, p, lexeme_text(Lexeme::Other(k))))
    }
}

/// A failure that a well-behaved parse never reports: the position
/// guards below keep every recursion on a later token.
pub open spec fn stuck() -> Fail {
    (0, Seq::empty())
}

pub open spec fn lident_spec(t: Toks, p: int) -> Result<(Seq<char>, int), Fail> {
    match peek(t, p) {
        Some(Lexeme::LIdent(n)) => Ok((n, p + 1)),
        _ => Err(expected(t, p, p + 1, "an identifier"@)),
    }
}

pub open spec fn uident_spec(t: Toks, p: int) -> Result<(Seq<char>, int), Fail> {
    match peek(t, p) {
        Some(Lexeme::UIdent(n)) => Ok((n, p + 1)),
        _ => Err(expected(t, p, p + 1, "a constructor name"@)),
    }
}

/// One item, or the tuple of several.
pub open spec fn one_or_tuple_type(items: Seq<TypeExprModel>) -> TypeExprModel {
    if items.len() == 1 { items[0] } else { TypeExprModel::Tuple(items) }
}

pub open spec fn type_atom_spec(t: Toks, p: int) -> Result<(TypeExprModel, int), Fail>
    decreases t.len() - p,
{
    match peek(t, p) {
        Some(Lexeme::LIdent(name)) => Ok((
            if name == "int"@ {
                TypeExprModel::Int
            } else if name == "bool"@ {
                TypeExprModel::Bool
            } else if name == "unit"@ {
                TypeExprModel::Unit
            } else {
                TypeExprModel::Named(name)
            },
            p + 1,
        )),
        Some(Lexeme::Other(Token::LParen)) => match type_atom_spec(t, p + 1) {
            Err(f) => Err(f),
            Ok((first, p2)) => if p + 1 <= p2 <= t.len() {
                type_items_spec(t, p2, seq![first])
            } else {
                Err(stuck())
            },
        },
        _ => Err(expected(t, p, p + 1, "a type"@)),
    }
}

/// `* atom` repeated, then `)`.
pub open spec fn type_items_spec(t: Toks, p: int, items: Seq<TypeExprModel>) -> Result<(TypeExprModel, int), Fail>
    decreases t.len() - p,
{
    if is_tok(t, p, Token::Star) {
        match type_atom_spec(t, p + 1) {
            Err(f) => Err(f),
            Ok((x, p2)) => if p + 1 <= p2 <= t.len() {
                type_items_spec(t, p2, items.push(x))
            } else {
                Err(stuck())
            },
        }
    } else {
        match eat_spec(t, p, Token::RParen) {
            Err(f) => Err(f),
            Ok(p2) => Ok((one_or_tuple_type(items), p2)),
        }
    }
}

/// `* atom` repeated, as a payload.
pub open spec fn payload_spec(t: Toks, p: int, items: Seq<TypeExprModel>) -> Result<(Seq<TypeExprModel>, int), Fail>
    decreases t.len() - p,
{
    if is_tok(t, p, Token::Star) {
        match type_atom_spec(t, p + 1) {
            Err(f) => Err(f),
            Ok((x, p2)) => if p + 1 <= p2 <= t.len() {
                payload_spec(t, p2, items.push(x))
            } else {
                Err(stuck())
            },
        }
    } else {
        Ok((items, p))
    }
}

/// `Name [of atom (* atom)*]`.
pub open spec fn ctor_decl_spec(t: Toks, p: int) -> Result<((Seq<char>, Seq<TypeExprModel>), int), Fail> {
    match uident_spec(t, p) {
        Err(f) => Err(f),
        Ok((name, p1)) => if is_tok(t, p1, Token::Of) {
            match type_atom_spec(t, p1 + 1) {
                Err(f) => Err(f),
                Ok((x, p2)) => match payload_spec(t, p2, seq![x]) {
                    Err(f) => Err(f),
                    Ok((items, p3)) => Ok(((name, items), p3)),
                },
            }
        } else {
            Ok(((name, Seq::empty()), p1))
        },
    }
}

/// `| ctor` repeated.
pub open spec fn ctors_spec(t: Toks, p: int, acc: Seq<(Seq<char>, Seq<TypeExprModel>)>) -> Result<(Seq<(Seq<char>, Seq<TypeExprModel>)>, int), Fail>
    decreases t.len() - p,
{
    if is_tok(t, p, Token::Bar) {
        match ctor_decl_spec(t, p + 1) {
            Err(f) => Err(f),
            Ok((c, p2)) => if p + 1 <= p2 <= t.len() {
                ctors_spec(t, p2, acc.push(c))
            } else {
                Err(stuck())
            },
        }
    } else {
        Ok((acc, p))
    }
}

/// `type name = [|] ctor (| ctor)*`.
pub open spec fn typedef_spec(t: Toks, p: int) -> Result<(TypeDefModel, int), Fail> {
    match eat_spec(t, p, Token::Type) {
        Err(f) => Err(f),
        Ok(p1) => match lident_spec(t, p1) {
            Err(f) => Err(f),
            Ok((name, p2)) => match eat_spec(t, p2, Token::Equal) {
                Err(f) => Err(f),
                Ok(p3) => {
                    let p4 = if is_tok(t, p3, Token::Bar) { p3 + 1 } else { p3 };
                    match ctor_decl_spec(t, p4) {
                        Err(f) => Err(f),
                        Ok((c, p5)) => match ctors_spec(t, p5, seq![c]) {
                            Err(f) => Err(f),
                            Ok((ctors, p6)) => Ok(((name, ctors), p6)),
                        },
                    }
                },
            },
        },
    }
}

/// Whether a pattern can start at `p`.
pub open spec fn starts_pattern(t: Toks, p: int) -> bool {
    match peek(t, p) {
        Some(Lexeme::LIdent(_)) => true,
        Some(Lexeme::UIdent(_)) => true,
        Some(Lexeme::Other(Token::Int(_))) => true,
        Some(Lexeme::Other(Token::True)) => true,
        Some(Lexeme::Other(Token::False)) => true,
        Some(Lexeme::Other(Token::LParen)) => true,
        Some(Lexeme::Other(Token::Underscore)) => true,
        _ => false,
    }
}

pub open spec fn one_or_tuple_pattern(items: Seq<PatternModel>) -> PatternModel {
    if items.len() == 1 { items[0] } else { PatternModel::Tuple(items) }
}

pub open spec fn pattern_spec(t: Toks, p: int) -> Result<(PatternModel, int), Fail>
    decreases t.len() - p,
{
    match peek(t, p) {
        Some(Lexeme::Other(Token::Underscore)) => Ok((PatternModel::Wild, p + 1)),
        Some(Lexeme::Other(Token::Int(v))) => Ok((PatternModel::Int(v as int), p + 1)),
        Some(Lexeme::Other(Token::Minus)) => match peek(t, p + 1) {
            Some(Lexeme::Other(Token::Int(v))) => Ok((PatternModel::Int(-(v as int)), p + 2)),
            _ => Err((offset_at(t, p + 2), "expected an integer after - in a pattern"@)),
        },
        Some(Lexeme::Other(Token::True)) => Ok((PatternModel::Bool(true), p + 1)),
        Some(Lexeme::Other(Token::False)) => Ok((PatternModel::Bool(false), p + 1)),
        Some(Lexeme::LIdent(n)) => Ok((PatternModel::Var(n), p + 1)),
        Some(Lexeme::UIdent(n)) => if starts_pattern(t, p + 1) {
            match pattern_spec(t, p + 1) {
                Err(f) => Err(f),
                Ok((a, p2)) => Ok((PatternModel::Ctor(n, Some(Box::new(a))), p2)),
            }
        } else {
            Ok((PatternModel::Ctor(n, None), p + 1))
        },
        Some(Lexeme::Other(Token::LParen)) => if is_tok(t, p + 1, Token::RParen) {
            Ok((PatternModel::Unit, p + 2))
        } else {
            match pattern_spec(t, p + 1) {
                Err(f) => Err(f),
                Ok((x, p2)) => if p + 1 <= p2 <= t.len() {
                    pattern_items_spec(t, p2, seq![x])
                } else {
                    Err(stuck())
                },
            }
        },
        _ => Err(expected(t, p, p + 1, "a pattern"@)),
    }
}

/// `, pattern` repeated, then `)`.
pub open spec fn pattern_items_spec(t: Toks, p: int, items: Seq<PatternModel>) -> Result<(PatternModel, int), Fail>
    decreases t.len() - p,
{
    if is_tok(t, p, Token::Comma) {
        match pattern_spec(t, p + 1) {
            Err(f) => Err(f),
            Ok((x, p2)) => if p + 1 <= p2 <= t.len() {
                pattern_items_spec(t, p2, items.push(x))
            } else {
                Err(stuck())
            },
        }
    } else {
        match eat_spec(t, p, Token::RParen) {
            Err(f) => Err(f),
            Ok(p2) => Ok((one_or_tuple_pattern(items), p2)),
        }
    }
}

} // verus!

verus! {

/// The result of a parse that also threads the next fresh node id.
pub type Parsed<M> = Result<(M, int, int), Fail>;

/// Whether an expression atom can start at `p`.
pub open spec fn starts_atom(t: Toks, p: int) -> bool {
    match peek(t, p) {
        Some(Lexeme::LIdent(_)) => true,
        Some(Lexeme::UIdent(_)) => true,
        Some(Lexeme::Other(Token::Int(_))) => true,
        Some(Lexeme::Other(Token::True)) => true,
        Some(Lexeme::Other(Token::False)) => true,
        Some(Lexeme::Other(Token::LParen)) => true,
        _ => false,
    }
}

/// `params`, innermost last, around `body`, the innermost lambda taking
/// id `n` and each enclosing one the next.
pub open spec fn nest_funs(params: Seq<ParamModel>, body: ExprModel, n: int) -> ExprModel
    decreases params.len(),
{
    if params.len() == 0 {
        body
    } else {
        ExprModel::Fun(
            n + params.len() - 1,
            params[0],
            Box::new(nest_funs(params.subrange(1, params.len() as int), body, n)),
        )
    }
}

/// A binding's parameters: names and `()`, up to whatever follows.
pub open spec fn binding_params_spec(t: Toks, p: int, acc: Seq<ParamModel>) -> (Seq<ParamModel>, int)
    decreases t.len() - p,
{
    match peek(t, p) {
        Some(Lexeme::LIdent(x)) => binding_params_spec(t, p + 1, acc.push(ParamModel::Named(x))),
        Some(Lexeme::Other(Token::LParen)) => if is_tok(t, p + 1, Token::RParen) {
            binding_params_spec(t, p + 2, acc.push(ParamModel::Unit))
        } else {
            (acc, p)
        },
        _ => (acc, p),
    }
}

/// A `fun`'s parameters, up to the `->`.
pub open spec fn fun_params_spec(t: Toks, p: int, acc: Seq<ParamModel>) -> Result<(Seq<ParamModel>, int), Fail>
    decreases t.len() - p,
{
    match peek(t, p) {
        Some(Lexeme::LIdent(x)) => fun_params_spec(t, p + 1, acc.push(ParamModel::Named(x))),
        Some(Lexeme::Other(Token::Arrow)) => Ok((acc, p)),
        Some(Lexeme::Other(Token::LParen)) => if is_tok(t, p + 1, Token::RParen) {
            fun_params_spec(t, p + 2, acc.push(ParamModel::Unit))
        } else {
            Err((offset_at(t, p), "expected a parameter or ->, found "@ + shown(t, p, "end"@)))
        },
        _ => Err((offset_at(t, p), "expected a parameter or ->, found "@ + shown(t, p, "end"@))),
    }
}

/// The operator of a comparison token.
pub open spec fn compare_op(l: Option<Lexeme>) -> Option<BinOp> {
    match l {
        Some(Lexeme::Other(Token::Equal)) => Some(BinOp::Eq),
        Some(Lexeme::Other(Token::NotEqual)) => Some(BinOp::Ne),
        Some(Lexeme::Other(Token::Less)) => Some(BinOp::Lt),
        Some(Lexeme::Other(Token::LessEq)) => Some(BinOp::Le),
        Some(Lexeme::Other(Token::Greater)) => Some(BinOp::Gt),
        Some(Lexeme::Other(Token::GreaterEq)) => Some(BinOp::Ge),
        _ => None,
    }
}

pub open spec fn add_op(l: Option<Lexeme>) -> Option<BinOp> {
    match l {
        Some(Lexeme::Other(Token::Plus)) => Some(BinOp::Add),
        Some(Lexeme::Other(Token::Minus)) => Some(BinOp::Sub),
        _ => None,
    }
}

pub open spec fn mul_op(l: Option<Lexeme>) -> Option<BinOp> {
    match l {
        Some(Lexeme::Other(Token::Star)) => Some(BinOp::Mul),
        Some(Lexeme::Other(Token::Slash)) => Some(BinOp::Div),
        _ => None,
    }
}

pub open spec fn bin(op: BinOp, l: ExprModel, r: ExprModel) -> ExprModel {
    ExprModel::Bin(op, Box::new(l), Box::new(r))
}

pub open spec fn one_or_tuple_expr(items: Seq<ExprModel>) -> ExprModel {
    if items.len() == 1 { items[0] } else { ExprModel::Tuple(items) }
}

/// A pattern `let` starts with `(` (but not `()`) or `_`.
pub open spec fn is_pattern_let(t: Toks, p: int) -> bool {
    (is_tok(t, p, Token::LParen) || is_tok(t, p, Token::Underscore))
        && !(is_tok(t, p, Token::LParen) && is_tok(t, p + 1, Token::RParen))
}

pub open spec fn expr_spec(t: Toks, p: int, n: int) -> Parsed<ExprModel>
    decreases t.len() - p, 20int,
{
    if is_tok(t, p, Token::Let) {
        let rec = is_tok(t, p + 1, Token::Rec);
        let p2 = if rec { p + 2 } else { p + 1 };
        if is_pattern_let(t, p2) {
            if rec {
                Err((offset_at(t, p2), "`let rec` with a pattern is unsupported"@))
            } else {
                match pattern_spec(t, p2) {
                    Err(f) => Err(f),
                    Ok((pat, p3)) => match eat_spec(t, p3, Token::Equal) {
                        Err(f) => Err(f),
                        Ok(p4) => if p < p4 <= t.len() {
                            match expr_spec(t, p4, n) {
                                Err(f) => Err(f),
                                Ok((value, p5, n5)) => match eat_spec(t, p5, Token::In) {
                                    Err(f) => Err(f),
                                    Ok(p6) => if p < p6 <= t.len() {
                                        match expr_spec(t, p6, n5) {
                                            Err(f) => Err(f),
                                            Ok((body, p7, n7)) => Ok((ExprModel::Match(Box::new(value), seq![(pat, body)]), p7, n7)),
                                        }
                                    } else {
                                        Err(stuck())
                                    },
                                },
                            }
                        } else {
                            Err(stuck())
                        },
                    },
                }
            }
        } else {
            match bindings_spec(t, p2, n) {
                Err(f) => Err(f),
                Ok((bs, p3, n3)) => match eat_spec(t, p3, Token::In) {
                    Err(f) => Err(f),
                    Ok(p4) => if p < p4 <= t.len() {
                        match expr_spec(t, p4, n3) {
                            Err(f) => Err(f),
                            Ok((body, p5, n5)) => Ok((ExprModel::Let(rec, bs, Box::new(body)), p5, n5)),
                        }
                    } else {
                        Err(stuck())
                    },
                },
            }
        }
    } else if is_tok(t, p, Token::Fun) {
        match fun_params_spec(t, p + 1, Seq::empty()) {
            Err(f) => Err(f),
            Ok((params, pa)) => if params.len() == 0 {
                Err((offset_at(t, pa), "fun needs at least one parameter"@))
            } else if p < pa < t.len() {
                match expr_spec(t, pa + 1, n) {
                    Err(f) => Err(f),
                    Ok((body, p5, n5)) => Ok((nest_funs(params, body, n5), p5, n5 + params.len())),
                }
            } else {
                Err(stuck())
            },
        }
    } else if is_tok(t, p, Token::If) {
        match expr_spec(t, p + 1, n) {
            Err(f) => Err(f),
            Ok((c, p2, n2)) => match eat_spec(t, p2, Token::Then) {
                Err(f) => Err(f),
                Ok(p3) => if p < p3 <= t.len() {
                    match expr_spec(t, p3, n2) {
                        Err(f) => Err(f),
                        Ok((a, p4, n4)) => match eat_spec(t, p4, Token::Else) {
                            Err(f) => Err(f),
                            Ok(p5) => if p < p5 <= t.len() {
                                match expr_spec(t, p5, n4) {
                                    Err(f) => Err(f),
                                    Ok((b, p6, n6)) => Ok((ExprModel::If(Box::new(c), Box::new(a), Box::new(b)), p6, n6)),
                                }
                            } else {
                                Err(stuck())
                            },
                        },
                    }
                } else {
                    Err(stuck())
                },
            },
        }
    } else if is_tok(t, p, Token::Match) {
        match expr_spec(t, p + 1, n) {
            Err(f) => Err(f),
            Ok((s, p2, n2)) => match eat_spec(t, p2, Token::With) {
                Err(f) => Err(f),
                Ok(p3) => {
                    let p4 = if is_tok(t, p3, Token::Bar) { p3 + 1 } else { p3 };
                    if p < p4 <= t.len() {
                        match arm_spec(t, p4, n2) {
                            Err(f) => Err(f),
                            Ok((a, p5, n5)) => if p < p5 <= t.len() {
                                match arms_spec(t, p5, n5, seq![a]) {
                                    Err(f) => Err(f),
                                    Ok((arms, p6, n6)) => Ok((ExprModel::Match(Box::new(s), arms), p6, n6)),
                                }
                            } else {
                                Err(stuck())
                            },
                        }
                    } else {
                        Err(stuck())
                    }
                },
            },
        }
    } else {
        or_else_spec(t, p, n)
    }
}

/// `pattern -> expr`.
pub open spec fn arm_spec(t: Toks, p: int, n: int) -> Parsed<(PatternModel, ExprModel)>
    decreases t.len() - p, 1int,
{
    match pattern_spec(t, p) {
        Err(f) => Err(f),
        Ok((pat, p2)) => match eat_spec(t, p2, Token::Arrow) {
            Err(f) => Err(f),
            Ok(p3) => if p < p3 <= t.len() {
                match expr_spec(t, p3, n) {
                    Err(f) => Err(f),
                    Ok((body, p4, n4)) => Ok(((pat, body), p4, n4)),
                }
            } else {
                Err(stuck())
            },
        },
    }
}

/// `| arm` repeated.
pub open spec fn arms_spec(t: Toks, p: int, n: int, acc: Seq<(PatternModel, ExprModel)>) -> Parsed<Seq<(PatternModel, ExprModel)>>
    decreases t.len() - p, 1int,
{
    if is_tok(t, p, Token::Bar) {
        match arm_spec(t, p + 1, n) {
            Err(f) => Err(f),
            Ok((a, p2, n2)) => if p < p2 <= t.len() {
                arms_spec(t, p2, n2, acc.push(a))
            } else {
                Err(stuck())
            },
        }
    } else {
        Ok((acc, p, n))
    }
}

/// `name param* = expr`: the parameters become nested lambdas, then the
/// binding takes the next id.
pub open spec fn binding_spec(t: Toks, p: int, n: int) -> Parsed<BindingModel>
    decreases t.len() - p, 2int,
{
    match lident_spec(t, p) {
        Err(f) => Err(f),
        Ok((name, p1)) => {
            let (params, p2) = binding_params_spec(t, p1, Seq::empty());
            match eat_spec(t, p2, Token::Equal) {
                Err(f) => Err(f),
                Ok(p3) => if p < p3 <= t.len() {
                    match expr_spec(t, p3, n) {
                        Err(f) => Err(f),
                        Ok((body, p4, n4)) => Ok((
                            (n4 + params.len(), name, nest_funs(params, body, n4)),
                            p4,
                            n4 + params.len() + 1,
                        )),
                    }
                } else {
                    Err(stuck())
                },
            }
        },
    }
}

/// `binding (and binding)*`.
pub open spec fn bindings_spec(t: Toks, p: int, n: int) -> Parsed<Seq<BindingModel>>
    decreases t.len() - p, 4int,
{
    match binding_spec(t, p, n) {
        Err(f) => Err(f),
        Ok((b, p2, n2)) => if p < p2 <= t.len() {
            more_bindings_spec(t, p2, n2, seq![b])
        } else {
            Err(stuck())
        },
    }
}

pub open spec fn more_bindings_spec(t: Toks, p: int, n: int, acc: Seq<BindingModel>) -> Parsed<Seq<BindingModel>>
    decreases t.len() - p, 3int,
{
    if is_tok(t, p, Token::And) {
        match binding_spec(t, p + 1, n) {
            Err(f) => Err(f),
            Ok((b, p2, n2)) => if p < p2 <= t.len() {
                more_bindings_spec(t, p2, n2, acc.push(b))
            } else {
                Err(stuck())
            },
        }
    } else {
        Ok((acc, p, n))
    }
}

pub open spec fn or_else_spec(t: Toks, p: int, n: int) -> Parsed<ExprModel>
    decreases t.len() - p, 19int,
{
    match and_also_spec(t, p, n) {
        Err(f) => Err(f),
        Ok((lhs, p2, n2)) => if p < p2 <= t.len() {
            or_rest_spec(t, p2, n2, lhs)
        } else {
            Err(stuck())
        },
    }
}

pub open spec fn or_rest_spec(t: Toks, p: int, n: int, lhs: ExprModel) -> Parsed<ExprModel>
    decreases t.len() - p, 19int,
{
    if is_tok(t, p, Token::OrOr) {
        match and_also_spec(t, p + 1, n) {
            Err(f) => Err(f),
            Ok((rhs, p2, n2)) => if p < p2 <= t.len() {
                or_rest_spec(t, p2, n2, bin(BinOp::OrElse, lhs, rhs))
            } else {
                Err(stuck())
            },
        }
    } else {
        Ok((lhs, p, n))
    }
}

pub open spec fn and_also_spec(t: Toks, p: int, n: int) -> Parsed<ExprModel>
    decreases t.len() - p, 18int,
{
    match compare_spec(t, p, n) {
        Err(f) => Err(f),
        Ok((lhs, p2, n2)) => if p < p2 <= t.len() {
            and_rest_spec(t, p2, n2, lhs)
        } else {
            Err(stuck())
        },
    }
}

pub open spec fn and_rest_spec(t: Toks, p: int, n: int, lhs: ExprModel) -> Parsed<ExprModel>
    decreases t.len() - p, 18int,
{
    if is_tok(t, p, Token::AndAnd) {
        match compare_spec(t, p + 1, n) {
            Err(f) => Err(f),
            Ok((rhs, p2, n2)) => if p < p2 <= t.len() {
                and_rest_spec(t, p2, n2, bin(BinOp::AndAlso, lhs, rhs))
            } else {
                Err(stuck())
            },
        }
    } else {
        Ok((lhs, p, n))
    }
}

/// At most one comparison: comparisons do not chain.
pub open spec fn compare_spec(t: Toks, p: int, n: int) -> Parsed<ExprModel>
    decreases t.len() - p, 17int,
{
    match additive_spec(t, p, n) {
        Err(f) => Err(f),
        Ok((lhs, p2, n2)) => match compare_op(peek(t, p2)) {
            None => Ok((lhs, p2, n2)),
            Some(op) => if p < p2 < t.len() {
                match additive_spec(t, p2 + 1, n2) {
                    Err(f) => Err(f),
                    Ok((rhs, p3, n3)) => Ok((bin(op, lhs, rhs), p3, n3)),
                }
            } else {
                Err(stuck())
            },
        },
    }
}

pub open spec fn additive_spec(t: Toks, p: int, n: int) -> Parsed<ExprModel>
    decreases t.len() - p, 16int,
{
    match multiplicative_spec(t, p, n) {
        Err(f) => Err(f),
        Ok((lhs, p2, n2)) => if p < p2 <= t.len() {
            add_rest_spec(t, p2, n2, lhs)
        } else {
            Err(stuck())
        },
    }
}

pub open spec fn add_rest_spec(t: Toks, p: int, n: int, lhs: ExprModel) -> Parsed<ExprModel>
    decreases t.len() - p, 16int,
{
    match add_op(peek(t, p)) {
        None => Ok((lhs, p, n)),
        Some(op) => match multiplicative_spec(t, p + 1, n) {
            Err(f) => Err(f),
            Ok((rhs, p2, n2)) => if p < p2 <= t.len() {
                add_rest_spec(t, p2, n2, bin(op, lhs, rhs))
            } else {
                Err(stuck())
            },
        },
    }
}

pub open spec fn multiplicative_spec(t: Toks, p: int, n: int) -> Parsed<ExprModel>
    decreases t.len() - p, 15int,
{
    match unary_spec(t, p, n) {
        Err(f) => Err(f),
        Ok((lhs, p2, n2)) => if p < p2 <= t.len() {
            mul_rest_spec(t, p2, n2, lhs)
        } else {
            Err(stuck())
        },
    }
}

pub open spec fn mul_rest_spec(t: Toks, p: int, n: int, lhs: ExprModel) -> Parsed<ExprModel>
    decreases t.len() - p, 15int,
{
    match mul_op(peek(t, p)) {
        None => Ok((lhs, p, n)),
        Some(op) => match unary_spec(t, p + 1, n) {
            Err(f) => Err(f),
            Ok((rhs, p2, n2)) => if p < p2 <= t.len() {
                mul_rest_spec(t, p2, n2, bin(op, lhs, rhs))
            } else {
                Err(stuck())
            },
        },
    }
}

/// Prefix minus: a literal is negated in place, anything else wrapped.
pub open spec fn unary_spec(t: Toks, p: int, n: int) -> Parsed<ExprModel>
    decreases t.len() - p, 14int,
{
    if is_tok(t, p, Token::Minus) {
        match unary_spec(t, p + 1, n) {
            Err(f) => Err(f),
            Ok((inner, p2, n2)) => Ok((
                match inner {
                    ExprModel::Int(v) => ExprModel::Int(-v),
                    other => ExprModel::Neg(Box::new(other)),
                },
                p2,
                n2,
            )),
        }
    } else {
        application_spec(t, p, n)
    }
}

/// A constructor takes at most one atom; function application chains
/// to the left.
pub open spec fn application_spec(t: Toks, p: int, n: int) -> Parsed<ExprModel>
    decreases t.len() - p, 13int,
{
    match peek(t, p) {
        Some(Lexeme::UIdent(name)) => if starts_atom(t, p + 1) {
            match atom_spec(t, p + 1, n) {
                Err(f) => Err(f),
                Ok((a, p2, n2)) => Ok((ExprModel::Ctor(name, Some(Box::new(a))), p2, n2)),
            }
        } else {
            Ok((ExprModel::Ctor(name, None), p + 1, n))
        },
        _ => match atom_spec(t, p, n) {
            Err(f) => Err(f),
            Ok((f, p2, n2)) => if p < p2 <= t.len() {
                app_rest_spec(t, p2, n2, f)
            } else {
                Err(stuck())
            },
        },
    }
}

pub open spec fn app_rest_spec(t: Toks, p: int, n: int, f: ExprModel) -> Parsed<ExprModel>
    decreases t.len() - p, 13int,
{
    if starts_atom(t, p) {
        match atom_spec(t, p, n) {
            Err(e) => Err(e),
            Ok((a, p2, n2)) => if p < p2 <= t.len() {
                app_rest_spec(t, p2, n2, ExprModel::App(Box::new(f), Box::new(a)))
            } else {
                Err(stuck())
            },
        }
    } else {
        Ok((f, p, n))
    }
}

pub open spec fn atom_spec(t: Toks, p: int, n: int) -> Parsed<ExprModel>
    decreases t.len() - p, 12int,
{
    match peek(t, p) {
        Some(Lexeme::Other(Token::Int(v))) => Ok((ExprModel::Int(v as int), p + 1, n)),
        Some(Lexeme::Other(Token::True)) => Ok((ExprModel::Bool(true), p + 1, n)),
        Some(Lexeme::Other(Token::False)) => Ok((ExprModel::Bool(false), p + 1, n)),
        Some(Lexeme::LIdent(x)) => Ok((ExprModel::Var(x), p + 1, n)),
        Some(Lexeme::UIdent(x)) => Ok((ExprModel::Ctor(x, None), p + 1, n)),
        Some(Lexeme::Other(Token::LParen)) => if is_tok(t, p + 1, Token::RParen) {
            Ok((ExprModel::Unit, p + 2, n))
        } else {
            match expr_spec(t, p + 1, n) {
                Err(f) => Err(f),
                Ok((x, p2, n2)) => if p < p2 <= t.len() {
                    expr_items_spec(t, p2, n2, seq![x])
                } else {
                    Err(stuck())
                },
            }
        },
        _ => Err(expected(t, p, p + 1, "an expression"@)),
    }
}

/// `, expr` repeated, then `)`.
pub open spec fn expr_items_spec(t: Toks, p: int, n: int, items: Seq<ExprModel>) -> Parsed<ExprModel>
    decreases t.len() - p, 12int,
{
    if is_tok(t, p, Token::Comma) {
        match expr_spec(t, p + 1, n) {
            Err(f) => Err(f),
            Ok((x, p2, n2)) => if p < p2 <= t.len() {
                expr_items_spec(t, p2, n2, items.push(x))
            } else {
                Err(stuck())
            },
        }
    } else {
        match eat_spec(t, p, Token::RParen) {
            Err(f) => Err(f),
            Ok(p2) => Ok((one_or_tuple_expr(items), p2, n)),
        }
    }
}

} // verus!

verus! {

/// `let [rec] binding (and binding)*` at top level.
pub open spec fn top_let_spec(t: Toks, p: int, n: int) -> Parsed<(bool, Seq<BindingModel>)> {
    match eat_spec(t, p, Token::Let) {
        Err(f) => Err(f),
        Ok(p1) => {
            let rec = is_tok(t, p1, Token::Rec);
            let p2 = if rec { p1 + 1 } else { p1 };
            match bindings_spec(t, p2, n) {
                Err(f) => Err(f),
                Ok((bs, p3, n3)) => Ok(((rec, bs), p3, n3)),
            }
        },
    }
}

/// Type definitions and declarations until the tokens run out.
pub open spec fn program_spec(
    t: Toks,
    p: int,
    n: int,
    tds: Seq<TypeDefModel>,
    decls: Seq<(bool, Seq<BindingModel>)>,
) -> Result<ProgramModel, Fail>
    decreases t.len() - p,
{
    match peek(t, p) {
        None => Ok((tds, decls)),
        Some(Lexeme::Other(Token::Type)) => match typedef_spec(t, p) {
            Err(f) => Err(f),
            Ok((d, p2)) => if p < p2 <= t.len() {
                program_spec(t, p2, n, tds.push(d), decls)
            } else {
                Err(stuck())
            },
        },
        Some(Lexeme::Other(Token::Let)) => match top_let_spec(t, p, n) {
            Err(f) => Err(f),
            Ok((d, p2, n2)) => if p < p2 <= t.len() {
                program_spec(t, p2, n2, tds, decls.push(d))
            } else {
                Err(stuck())
            },
        },
        Some(other) => Err((offset_at(t, p), "expected `type` or `let`, found "@ + lexeme_text(other))),
    }
}

/// What `parse` gives for a source text: the lexer's failure, the
/// parser's, or the program.
pub open spec fn parse_spec(c: Seq<char>) -> Result<ProgramModel, Fail> {
    match lex_spec(c) {
        Err(f) => Err(f),
        Ok(t) => program_spec(t, 0, 0, Seq::empty(), Seq::empty()),
    }
}

} // verus!

verus! {

/// Whether the token matches `k`, a token without a payload.
fn same_token(a: &Token, k: &Token) -> (r: bool)
    requires
        !(k is Int || k is LIdent || k is UIdent),
    ensures
        r == (a.lexeme() == Lexeme::Other(*k)),
{
    match k {
        Token::Let => matches!(a, Token::Let),
        Token::Rec => matches!(a, Token::Rec),
        Token::And => matches!(a, Token::And),
        Token::In => matches!(a, Token::In),
        Token::Fun => matches!(a, Token::Fun),
        Token::If => matches!(a, Token::If),
        Token::Then => matches!(a, Token::Then),
        Token::Else => matches!(a, Token::Else),
        Token::Match => matches!(a, Token::Match),
        Token::With => matches!(a, Token::With),
        Token::Type => matches!(a, Token::Type),
        Token::Of => matches!(a, Token::Of),
        Token::True => matches!(a, Token::True),
        Token::False => matches!(a, Token::False),
        Token::LParen => matches!(a, Token::LParen),
        Token::RParen => matches!(a, Token::RParen),
        Token::Comma => matches!(a, Token::Comma),
        Token::Arrow => matches!(a, Token::Arrow),
        Token::Bar => matches!(a, Token::Bar),
        Token::Underscore => matches!(a, Token::Underscore),
        Token::Plus => matches!(a, Token::Plus),
        Token::Minus => matches!(a, Token::Minus),
        Token::Star => matches!(a, Token::Star),
        Token::Slash => matches!(a, Token::Slash),
        Token::Equal => matches!(a, Token::Equal),
        Token::NotEqual => matches!(a, Token::NotEqual),
        Token::Less => matches!(a, Token::Less),
        Token::Greater => matches!(a, Token::Greater),
        Token::LessEq => matches!(a, Token::LessEq),
        Token::GreaterEq => matches!(a, Token::GreaterEq),
        Token::AndAnd => matches!(a, Token::AndAnd),
        Token::OrOr => matches!(a, Token::OrOr),
        _ => false,
    }
}

/// Whether `k`, a token without a payload, is at `p`.
fn at(tk: &Vec<Spanned>, p: usize, k: &Token) -> (r: bool)
    requires
        !(k is Int || k is LIdent || k is UIdent),
    ensures
        r == is_tok(lexemes(tk@), p as int, *k),
        tk@.len() <= usize::MAX,
{
    p < tk.len() && same_token(&tk[p].token, k)
}

/// The token at `p`, if any.
fn token_at(tk: &Vec<Spanned>, p: usize) -> (r: Option<&Token>)
    ensures
        match r {
            Some(k) => p < tk@.len() && *k == tk@[p as int].token && peek(lexemes(tk@), p as int) == Some(k.lexeme()),
            None => p >= tk@.len() && peek(lexemes(tk@), p as int) is None,
        },
        tk@.len() <= usize::MAX,
{
    if p < tk.len() {
        Some(&tk[p].token)
    } else {
        None
    }
}

fn offset(tk: &Vec<Spanned>, p: usize) -> (o: usize)
    ensures
        o as int == offset_at(lexemes(tk@), p as int),
{
    if p < tk.len() {
        tk[p].offset
    } else {
        usize::MAX
    }
}

fn offset_after(tk: &Vec<Spanned>, p: usize) -> (o: usize)
    ensures
        o as int == offset_at(lexemes(tk@), p + 1),
{
    if p < tk.len() && p + 1 < tk.len() {
        tk[p + 1].offset
    } else {
        usize::MAX
    }
}

fn shown_text(tk: &Vec<Spanned>, p: usize, none: &str) -> (s: String)
    ensures
        s@ == shown(lexemes(tk@), p as int, none@),
{
    if p < tk.len() {
        tk[p].token.text()
    } else {
        none.to_owned()
    }
}

/// `expected <what>, found <token at p>`, reported at `p` or, after a
/// token was taken, at `p + 1`.
fn expected_err(tk: &Vec<Spanned>, p: usize, taken: bool, what: &str) -> (e: ParseError)
    ensures
        (e.offset as int, e.message@) == expected(lexemes(tk@), p as int, if taken { p + 1 } else { p as int }, what@),
{
    let o = if taken { offset_after(tk, p) } else { offset(tk, p) };
    let found = shown_text(tk, p, "end of input");
    let mut v = crate::text::chars_of("expected ");
    crate::text::push_str(&mut v, what);
    crate::text::push_str(&mut v, ", found ");
    crate::text::push_str(&mut v, found.as_str());
    ParseError { offset: o, message: string_of(&v) }
}

fn fail(offset: usize, message: &str) -> (e: ParseError)
    ensures
        e.offset == offset,
        e.message@ == message@,
{
    ParseError { offset, message: message.to_owned() }
}

fn eat(tk: &Vec<Spanned>, p: usize, k: &Token) -> (r: Result<usize, ParseError>)
    requires
        !(k is Int || k is LIdent || k is UIdent),
    ensures
        match (r, eat_spec(lexemes(tk@), p as int, *k)) {
            (Ok(q), Ok(s)) => q == s,
            (Err(e), Err((o, m))) => e.offset == o && e.message@ == m,
            _ => false,
        },
{
    if at(tk, p, k) {
        Ok(p + 1)
    } else {
        let o = offset(tk, p);
        let found = shown_text(tk, p, "end of input");
        let mut v = crate::text::chars_of("expected ");
        let kt = k.text();
        crate::text::push_str(&mut v, kt.as_str());
        crate::text::push_str(&mut v, ", found ");
        crate::text::push_str(&mut v, found.as_str());
        Err(ParseError { offset: o, message: string_of(&v) })
    }
}

/// A result of a parse that does not thread node ids agrees with its
/// specification.
pub open spec fn agrees2<T, M>(r: Result<(T, usize), ParseError>, s: Result<(M, int), Fail>, m: spec_fn(T) -> M) -> bool {
    match (r, s) {
        (Ok((x, p)), Ok((y, q))) => m(x) == y && p as int == q,
        (Err(e), Err((o, msg))) => e.offset as int == o && e.message@ == msg,
        _ => false,
    }
}

/// A result of a parse that threads node ids agrees with its
/// specification.
pub open spec fn agrees<T, M>(r: Result<(T, usize, usize), ParseError>, s: Parsed<M>, m: spec_fn(T) -> M) -> bool {
    match (r, s) {
        (Ok((x, p, n)), Ok((y, q, k))) => m(x) == y && p as int == q && n as int == k,
        (Err(e), Err((o, msg))) => e.offset as int == o && e.message@ == msg,
        _ => false,
    }
}

fn lident(tk: &Vec<Spanned>, p: usize) -> (r: Result<(String, usize), ParseError>)
    ensures
        agrees2(r, lident_spec(lexemes(tk@), p as int), |s: String| s@),
        r matches Ok((_, q)) ==> q == p + 1 && q <= tk@.len(),
{
    match token_at(tk, p) {
        Some(Token::LIdent(name)) => Ok((name.clone(), p + 1)),
        _ => Err(expected_err(tk, p, true, "an identifier")),
    }
}

fn uident(tk: &Vec<Spanned>, p: usize) -> (r: Result<(String, usize), ParseError>)
    ensures
        agrees2(r, uident_spec(lexemes(tk@), p as int), |s: String| s@),
        r matches Ok((_, q)) ==> q == p + 1 && q <= tk@.len(),
{
    match token_at(tk, p) {
        Some(Token::UIdent(name)) => Ok((name.clone(), p + 1)),
        _ => Err(expected_err(tk, p, true, "a constructor name")),
    }
}

proof fn lemma_type_models_push(v: Seq<TypeExpr>, x: TypeExpr)
    ensures
        type_expr_models(v.push(x)) == type_expr_models(v).push(x@),
{
    assert(type_expr_models(v.push(x)) =~= type_expr_models(v).push(x@));
}

fn one_or_tuple_type_expr(items: Vec<TypeExpr>) -> (x: TypeExpr)
    requires
        items@.len() >= 1,
    ensures
        x@ == one_or_tuple_type(type_expr_models(items@)),
{
    if items.len() == 1 {
        let mut items = items;
        items.pop().unwrap()
    } else {
        TypeExpr::Tuple(items)
    }
}

fn type_atom(tk: &Vec<Spanned>, p: usize) -> (r: Result<(TypeExpr, usize), ParseError>)
    ensures
        agrees2(r, type_atom_spec(lexemes(tk@), p as int), |x: TypeExpr| x@),
        r matches Ok((_, q)) ==> p < q <= tk@.len(),
    decreases tk@.len() - p,
{
    match token_at(tk, p) {
        Some(Token::LIdent(name)) => {
            let ty = if crate::text::str_eq(name.as_str(), "int") {
                TypeExpr::Int
            } else if crate::text::str_eq(name.as_str(), "bool") {
                TypeExpr::Bool
            } else if crate::text::str_eq(name.as_str(), "unit") {
                TypeExpr::Unit
            } else {
                TypeExpr::Named(name.clone())
            };
            Ok((ty, p + 1))
        },
        Some(Token::LParen) => match type_atom(tk, p + 1) {
            Err(e) => Err(e),
            Ok((first, p2)) => {
                let mut items: Vec<TypeExpr> = Vec::new();
                items.push(first);
                proof {
                    assert(type_expr_models(items@) =~= seq![first@]);
                }
                type_items(tk, p2, items)
            },
        },
        _ => Err(expected_err(tk, p, true, "a type")),
    }
}

fn type_items(tk: &Vec<Spanned>, p: usize, items: Vec<TypeExpr>) -> (r: Result<(TypeExpr, usize), ParseError>)
    requires
        p <= tk@.len(),
        items@.len() >= 1,
    ensures
        agrees2(r, type_items_spec(lexemes(tk@), p as int, type_expr_models(items@)), |x: TypeExpr| x@),
        r matches Ok((_, q)) ==> p < q <= tk@.len(),
    decreases tk@.len() - p,
{
    let ghost t = lexemes(tk@);
    let ghost orig = items@;
    let ghost goal = type_items_spec(t, p as int, type_expr_models(items@));
    let mut q = p;
    let mut acc = items;
    loop
        invariant
            p <= q <= tk@.len(),
            t == lexemes(tk@),
            acc@.len() >= 1,
            goal == type_items_spec(t, p as int, type_expr_models(orig)),
            orig == items@,
            goal == type_items_spec(t, q as int, type_expr_models(acc@)),
        decreases tk@.len() - q,
    {
        if at(tk, q, &Token::Star) {
            match type_atom(tk, q + 1) {
                Err(e) => {
                    return Err(e);
                },
                Ok((x, q2)) => {
                    proof {
                        lemma_type_models_push(acc@, x);
                    }
                    acc.push(x);
                    q = q2;
                },
            }
        } else {
            return match eat(tk, q, &Token::RParen) {
                Err(e) => Err(e),
                Ok(q2) => Ok((one_or_tuple_type_expr(acc), q2)),
            };
        }
    }
}

fn payload(tk: &Vec<Spanned>, p: usize, items: Vec<TypeExpr>) -> (r: Result<(Vec<TypeExpr>, usize), ParseError>)
    requires
        p <= tk@.len(),
    ensures
        agrees2(r, payload_spec(lexemes(tk@), p as int, type_expr_models(items@)), |v: Vec<TypeExpr>| type_expr_models(v@)),
        r matches Ok((_, q)) ==> p <= q <= tk@.len(),
{
    let ghost t = lexemes(tk@);
    let ghost orig = items@;
    let ghost goal = payload_spec(t, p as int, type_expr_models(items@));
    let mut q = p;
    let mut acc = items;
    loop
        invariant
            p <= q <= tk@.len(),
            t == lexemes(tk@),
            goal == payload_spec(t, p as int, type_expr_models(orig)),
            orig == items@,
            goal == payload_spec(t, q as int, type_expr_models(acc@)),
        decreases tk@.len() - q,
    {
        if at(tk, q, &Token::Star) {
            match type_atom(tk, q + 1) {
                Err(e) => {
                    return Err(e);
                },
                Ok((x, q2)) => {
                    proof {
                        lemma_type_models_push(acc@, x);
                    }
                    acc.push(x);
                    q = q2;
                },
            }
        } else {
            return Ok((acc, q));
        }
    }
}

fn ctor_decl(tk: &Vec<Spanned>, p: usize) -> (r: Result<((String, Vec<TypeExpr>), usize), ParseError>)
    requires
        p <= tk@.len(),
    ensures
        agrees2(r, ctor_decl_spec(lexemes(tk@), p as int), |c: (String, Vec<TypeExpr>)| (c.0@, type_expr_models(c.1@))),
        r matches Ok((_, q)) ==> p < q <= tk@.len(),
{
    let (name, p1) = match uident(tk, p) {
        Ok(x) => x,
        Err(e) => {
            return Err(e);
        },
    };
    if at(tk, p1, &Token::Of) {
        match type_atom(tk, p1 + 1) {
            Err(e) => Err(e),
            Ok((x, p2)) => {
                let mut items: Vec<TypeExpr> = Vec::new();
                items.push(x);
                proof {
                    assert(type_expr_models(items@) =~= seq![x@]);
                }
                match payload(tk, p2, items) {
                    Err(e) => Err(e),
                    Ok((items, p3)) => Ok(((name, items), p3)),
                }
            },
        }
    } else {
        let items: Vec<TypeExpr> = Vec::new();
        proof {
            assert(type_expr_models(items@) =~= Seq::<TypeExprModel>::empty());
        }
        Ok(((name, items), p1))
    }
}

fn typedef(tk: &Vec<Spanned>, p: usize) -> (r: Result<(TypeDef, usize), ParseError>)
    requires
        p <= tk@.len(),
    ensures
        agrees2(r, typedef_spec(lexemes(tk@), p as int), |d: TypeDef| typedef_model(d)),
        r matches Ok((_, q)) ==> p < q <= tk@.len(),
{
    let ghost t = lexemes(tk@);
    let p1 = match eat(tk, p, &Token::Type) {
        Ok(x) => x,
        Err(e) => {
            return Err(e);
        },
    };
    let (name, p2) = match lident(tk, p1) {
        Ok(x) => x,
        Err(e) => {
            return Err(e);
        },
    };
    let p3 = match eat(tk, p2, &Token::Equal) {
        Ok(x) => x,
        Err(e) => {
            return Err(e);
        },
    };
    let p4 = if at(tk, p3, &Token::Bar) { p3 + 1 } else { p3 };
    let (c, p5) = match ctor_decl(tk, p4) {
        Ok(x) => x,
        Err(e) => {
            return Err(e);
        },
    };
    let mut ctors: Vec<(String, Vec<TypeExpr>)> = Vec::new();
    ctors.push(c);
    let ghost goal = ctors_spec(t, p5 as int, ctor_models(ctors@));
    proof {
        assert(ctor_models(ctors@) =~= seq![(c.0@, type_expr_models(c.1@))]);
    }
    let mut q = p5;
    loop
        invariant
            p5 <= q <= tk@.len(),
            p < p5,
            t == lexemes(tk@),
            goal == ctors_spec(t, q as int, ctor_models(ctors@)),
            typedef_spec(t, p as int) == match goal {
                Err(f) => Err(f),
                Ok((cs, q6)) => Ok(((name@, cs), q6)),
            },
        decreases tk@.len() - q,
    {
        if at(tk, q, &Token::Bar) {
            match ctor_decl(tk, q + 1) {
                Err(e) => {
                    return Err(e);
                },
                Ok((c2, q2)) => {
                    proof {
                        assert(ctor_models(ctors@.push(c2)) =~= ctor_models(ctors@).push((c2.0@, type_expr_models(c2.1@))));
                    }
                    ctors.push(c2);
                    q = q2;
                },
            }
        } else {
            return Ok((TypeDef { name, ctors }, q));
        }
    }
}

} // verus!

verus! {

proof fn lemma_pattern_models_push(v: Seq<Pattern>, x: Pattern)
    ensures
        pattern_models(v.push(x)) == pattern_models(v).push(x@),
{
    assert(pattern_models(v.push(x)) =~= pattern_models(v).push(x@));
}

fn starts_pat(tk: &Vec<Spanned>, p: usize) -> (b: bool)
    ensures
        b == starts_pattern(lexemes(tk@), p as int),
{
    match token_at(tk, p) {
        Some(Token::LIdent(_)) => true,
        Some(Token::UIdent(_)) => true,
        Some(Token::Int(_)) => true,
        Some(Token::True) => true,
        Some(Token::False) => true,
        Some(Token::LParen) => true,
        Some(Token::Underscore) => true,
        _ => false,
    }
}

fn one_or_tuple_pat(items: Vec<Pattern>) -> (x: Pattern)
    requires
        items@.len() >= 1,
    ensures
        x@ == one_or_tuple_pattern(pattern_models(items@)),
{
    if items.len() == 1 {
        let mut items = items;
        items.pop().unwrap()
    } else {
        Pattern::Tuple(items)
    }
}

fn pattern(tk: &Vec<Spanned>, p: usize) -> (r: Result<(Pattern, usize), ParseError>)
    requires
        ints_nonneg(lexemes(tk@)),
    ensures
        agrees2(r, pattern_spec(lexemes(tk@), p as int), |x: Pattern| x@),
        r matches Ok((_, q)) ==> p < q <= tk@.len(),
    decreases tk@.len() - p,
{
    match token_at(tk, p) {
        Some(Token::Underscore) => Ok((Pattern::Wild, p + 1)),
        Some(Token::Int(v)) => Ok((Pattern::Int(*v), p + 1)),
        Some(Token::Minus) => match token_at(tk, p + 1) {
            Some(Token::Int(v)) => {
                assert(lexemes(tk@)[p + 1].0 == Lexeme::Other(Token::Int(*v)));
                Ok((Pattern::Int(-*v), p + 2))
            },
            _ => Err(fail(offset_after(tk, p + 1), "expected an integer after - in a pattern")),
        },
        Some(Token::True) => Ok((Pattern::Bool(true), p + 1)),
        Some(Token::False) => Ok((Pattern::Bool(false), p + 1)),
        Some(Token::LIdent(n)) => Ok((Pattern::Var(n.clone()), p + 1)),
        Some(Token::UIdent(n)) => {
            let name = n.clone();
            if starts_pat(tk, p + 1) {
                match pattern(tk, p + 1) {
                    Err(e) => Err(e),
                    Ok((a, p2)) => Ok((Pattern::Ctor { name, arg: Some(Box::new(a)) }, p2)),
                }
            } else {
                Ok((Pattern::Ctor { name, arg: None }, p + 1))
            }
        },
        Some(Token::LParen) => {
            if at(tk, p + 1, &Token::RParen) {
                return Ok((Pattern::Unit, p + 2));
            }
            match pattern(tk, p + 1) {
                Err(e) => Err(e),
                Ok((x, p2)) => {
                    let mut items: Vec<Pattern> = Vec::new();
                    items.push(x);
                    proof {
                        assert(pattern_models(items@) =~= seq![x@]);
                    }
                    pattern_items(tk, p2, items)
                },
            }
        },
        _ => Err(expected_err(tk, p, true, "a pattern")),
    }
}

fn pattern_items(tk: &Vec<Spanned>, p: usize, items: Vec<Pattern>) -> (r: Result<(Pattern, usize), ParseError>)
    requires
        p <= tk@.len(),
        items@.len() >= 1,
        ints_nonneg(lexemes(tk@)),
    ensures
        agrees2(r, pattern_items_spec(lexemes(tk@), p as int, pattern_models(items@)), |x: Pattern| x@),
        r matches Ok((_, q)) ==> p < q <= tk@.len(),
    decreases tk@.len() - p,
{
    let ghost t = lexemes(tk@);
    let ghost goal = pattern_items_spec(t, p as int, pattern_models(items@));
    let mut q = p;
    let mut acc = items;
    loop
        invariant
            p <= q <= tk@.len(),
            t == lexemes(tk@),
            ints_nonneg(t),
            acc@.len() >= 1,
            goal == pattern_items_spec(t, p as int, pattern_models(items@)),
            goal == pattern_items_spec(t, q as int, pattern_models(acc@)),
        decreases tk@.len() - q,
    {
        if at(tk, q, &Token::Comma) {
            match pattern(tk, q + 1) {
                Err(e) => {
                    return Err(e);
                },
                Ok((x, q2)) => {
                    proof {
                        lemma_pattern_models_push(acc@, x);
                    }
                    acc.push(x);
                    q = q2;
                },
            }
        } else {
            return match eat(tk, q, &Token::RParen) {
                Err(e) => Err(e),
                Ok(q2) => Ok((one_or_tuple_pat(acc), q2)),
            };
        }
    }
}

} // verus!

verus! {

pub open spec fn param_models(v: Seq<Param>) -> Seq<ParamModel> {
    v.map_values(|x: Param| param_model(x))
}

/// No literal in the expression's root is `i64::MIN`, so negating it
/// stays in range.
pub open spec fn no_min(e: ExprModel) -> bool {
    e matches ExprModel::Int(v) ==> v > i64::MIN
}

fn binding_params(tk: &Vec<Spanned>, p: usize) -> (r: (Vec<Param>, usize))
    requires
        p <= tk@.len(),
    ensures
        (param_models(r.0@), r.1 as int) == binding_params_spec(lexemes(tk@), p as int, Seq::empty()),
        p + r.0@.len() <= r.1 <= tk@.len(),
{
    let ghost t = lexemes(tk@);
    let mut acc: Vec<Param> = Vec::new();
    let mut q = p;
    proof {
        assert(param_models(acc@) =~= Seq::<ParamModel>::empty());
    }
    loop
        invariant
            p + acc@.len() <= q <= tk@.len(),
            t == lexemes(tk@),
            binding_params_spec(t, p as int, Seq::empty()) == binding_params_spec(t, q as int, param_models(acc@)),
        decreases tk@.len() - q,
    {
        match token_at(tk, q) {
            Some(Token::LIdent(x)) => {
                let prm = Param::Named(x.clone());
                proof {
                    assert(param_models(acc@.push(prm)) =~= param_models(acc@).push(param_model(prm)));
                }
                acc.push(prm);
                q = q + 1;
            },
            Some(Token::LParen) => {
                if at(tk, q + 1, &Token::RParen) {
                    proof {
                        assert(param_models(acc@.push(Param::Unit)) =~= param_models(acc@).push(ParamModel::Unit));
                    }
                    acc.push(Param::Unit);
                    q = q + 2;
                } else {
                    return (acc, q);
                }
            },
            _ => {
                return (acc, q);
            },
        }
    }
}

fn fun_params(tk: &Vec<Spanned>, p: usize) -> (r: Result<(Vec<Param>, usize), ParseError>)
    requires
        p <= tk@.len(),
    ensures
        agrees2(r, fun_params_spec(lexemes(tk@), p as int, Seq::empty()), |v: Vec<Param>| param_models(v@)),
        r matches Ok((v, q)) ==> p + v@.len() <= q < tk@.len(),
{
    let ghost t = lexemes(tk@);
    let mut acc: Vec<Param> = Vec::new();
    let mut q = p;
    proof {
        assert(param_models(acc@) =~= Seq::<ParamModel>::empty());
    }
    loop
        invariant
            p + acc@.len() <= q <= tk@.len(),
            t == lexemes(tk@),
            fun_params_spec(t, p as int, Seq::empty()) == fun_params_spec(t, q as int, param_models(acc@)),
        decreases tk@.len() - q,
    {
        match token_at(tk, q) {
            Some(Token::LIdent(x)) => {
                let prm = Param::Named(x.clone());
                proof {
                    assert(param_models(acc@.push(prm)) =~= param_models(acc@).push(param_model(prm)));
                }
                acc.push(prm);
                q = q + 1;
            },
            Some(Token::Arrow) => {
                return Ok((acc, q));
            },
            Some(Token::LParen) => {
                if at(tk, q + 1, &Token::RParen) {
                    proof {
                        assert(param_models(acc@.push(Param::Unit)) =~= param_models(acc@).push(ParamModel::Unit));
                    }
                    acc.push(Param::Unit);
                    q = q + 2;
                } else {
                    return Err(fun_param_err(tk, q));
                }
            },
            _ => {
                return Err(fun_param_err(tk, q));
            },
        }
    }
}

fn fun_param_err(tk: &Vec<Spanned>, q: usize) -> (e: ParseError)
    ensures
        e.offset as int == offset_at(lexemes(tk@), q as int),
        e.message@ == "expected a parameter or ->, found "@ + shown(lexemes(tk@), q as int, "end"@),
{
    let found = shown_text(tk, q, "end");
    let mut v = crate::text::chars_of("expected a parameter or ->, found ");
    crate::text::push_str(&mut v, found.as_str());
    ParseError { offset: offset(tk, q), message: string_of(&v) }
}

/// Wraps `body` in one lambda per parameter, innermost last.
fn nest(params: Vec<Param>, body: Expr, n: usize) -> (r: (Expr, usize))
    requires
        n + params@.len() <= usize::MAX,
    ensures
        r.0@ == nest_funs(param_models(params@), body@, n as int),
        r.1 == n + params@.len(),
        no_min(body@) ==> no_min(r.0@),
{
    let ghost pm = param_models(params@);
    let ghost k = params@.len();
    let mut rest = params;
    let mut e = body;
    let mut id = n;
    proof {
        assert(pm.subrange(k as int, k as int) =~= Seq::<ParamModel>::empty());
    }
    while rest.len() > 0
        invariant
            rest@.len() <= k,
            pm == param_models(params@),
            k == params@.len(),
            rest@ == params@.subrange(0, rest@.len() as int),
            id == n + (k - rest@.len()),
            n + k <= usize::MAX,
            e@ == nest_funs(pm.subrange(rest@.len() as int, k as int), body@, n as int),
            no_min(body@) ==> no_min(e@),
        decreases rest@.len(),
    {
        let ghost j = rest@.len() as int;
        let prm = rest.pop().unwrap();
        proof {
            assert(param_model(prm) == pm[j - 1]);
            assert(pm.subrange(j - 1, k as int).subrange(1, k - j + 1) =~= pm.subrange(j, k as int));
            assert(rest@ =~= params@.subrange(0, j - 1));
        }
        e = Expr::Fun { id, param: prm, body: Box::new(e) };
        id = id + 1;
    }
    proof {
        assert(pm.subrange(0, k as int) =~= pm);
    }
    (e, id)
}

fn bin_expr(op: BinOp, lhs: Expr, rhs: Expr) -> (e: Expr)
    ensures
        e@ == bin(op, lhs@, rhs@),
        no_min(e@),
{
    Expr::Bin { op, lhs: Box::new(lhs), rhs: Box::new(rhs) }
}

fn expr(tk: &Vec<Spanned>, p: usize, n: usize) -> (r: Result<(Expr, usize, usize), ParseError>)
    requires
        p <= tk@.len(),
        n <= p,
        ints_nonneg(lexemes(tk@)),
    ensures
        agrees(r, expr_spec(lexemes(tk@), p as int, n as int), |e: Expr| e@),
        r matches Ok((e, q, k)) ==> p < q <= tk@.len() && k + p <= n + q && no_min(e@),
    decreases tk@.len() - p, 20int,
{
    let ghost t = lexemes(tk@);
    if at(tk, p, &Token::Let) {
        let rec = at(tk, p + 1, &Token::Rec);
        let p2 = if rec { p + 2 } else { p + 1 };
        let is_pat = (at(tk, p2, &Token::LParen) || at(tk, p2, &Token::Underscore))
            && !(at(tk, p2, &Token::LParen) && at(tk, p2 + 1, &Token::RParen));
        if is_pat {
            if rec {
                return Err(fail(offset(tk, p2), "`let rec` with a pattern is unsupported"));
            }
            let (pat, p3) = match pattern(tk, p2) {
                Ok(x) => x,
                Err(e) => {
                    return Err(e);
                },
            };
            let p4 = match eat(tk, p3, &Token::Equal) {
                Ok(x) => x,
                Err(e) => {
                    return Err(e);
                },
            };
            let (value, p5, n5) = match expr(tk, p4, n) {
                Ok(x) => x,
                Err(e) => {
                    return Err(e);
                },
            };
            let p6 = match eat(tk, p5, &Token::In) {
                Ok(x) => x,
                Err(e) => {
                    return Err(e);
                },
            };
            let (body, p7, n7) = match expr(tk, p6, n5) {
                Ok(x) => x,
                Err(e) => {
                    return Err(e);
                },
            };
            let ghost arm_m = (pat@, body@);
            let mut arms: Vec<(Pattern, Expr)> = Vec::new();
            arms.push((pat, body));
            proof {
                assert(arm_models(arms@) =~= seq![arm_m]);
            }
            return Ok((Expr::Match { scrutinee: Box::new(value), arms }, p7, n7));
        }
        let (bs, p3, n3) = match bindings(tk, p2, n) {
            Ok(x) => x,
            Err(e) => {
                return Err(e);
            },
        };
        let p4 = match eat(tk, p3, &Token::In) {
            Ok(x) => x,
            Err(e) => {
                return Err(e);
            },
        };
        let (body, p5, n5) = match expr(tk, p4, n3) {
            Ok(x) => x,
            Err(e) => {
                return Err(e);
            },
        };
        return Ok((Expr::Let { rec, bindings: bs, body: Box::new(body) }, p5, n5));
    }
    if at(tk, p, &Token::Fun) {
        let (params, pa) = match fun_params(tk, p + 1) {
            Ok(x) => x,
            Err(e) => {
                return Err(e);
            },
        };
        if params.len() == 0 {
            return Err(fail(offset(tk, pa), "fun needs at least one parameter"));
        }
        let (body, p5, n5) = match expr(tk, pa + 1, n) {
            Ok(x) => x,
            Err(e) => {
                return Err(e);
            },
        };
        let (e, k) = nest(params, body, n5);
        return Ok((e, p5, k));
    }
    if at(tk, p, &Token::If) {
        let (c, p2, n2) = match expr(tk, p + 1, n) {
            Ok(x) => x,
            Err(e) => {
                return Err(e);
            },
        };
        let p3 = match eat(tk, p2, &Token::Then) {
            Ok(x) => x,
            Err(e) => {
                return Err(e);
            },
        };
        let (a, p4, n4) = match expr(tk, p3, n2) {
            Ok(x) => x,
            Err(e) => {
                return Err(e);
            },
        };
        let p5 = match eat(tk, p4, &Token::Else) {
            Ok(x) => x,
            Err(e) => {
                return Err(e);
            },
        };
        let (b, p6, n6) = match expr(tk, p5, n4) {
            Ok(x) => x,
            Err(e) => {
                return Err(e);
            },
        };
        return Ok((Expr::If { cond: Box::new(c), then: Box::new(a), els: Box::new(b) }, p6, n6));
    }
    if at(tk, p, &Token::Match) {
        let (s, p2, n2) = match expr(tk, p + 1, n) {
            Ok(x) => x,
            Err(e) => {
                return Err(e);
            },
        };
        let p3 = match eat(tk, p2, &Token::With) {
            Ok(x) => x,
            Err(e) => {
                return Err(e);
            },
        };
        let p4 = if at(tk, p3, &Token::Bar) { p3 + 1 } else { p3 };
        let (a, p5, n5) = match arm(tk, p4, n2) {
            Ok(x) => x,
            Err(e) => {
                return Err(e);
            },
        };
        let ghost sm = s@;
        let ghost first = (a.0@, a.1@);
        let mut arms: Vec<(Pattern, Expr)> = Vec::new();
        arms.push(a);
        proof {
            assert(arm_models(arms@) =~= seq![first]);
        }
        let ghost goal = arms_spec(t, p5 as int, n5 as int, arm_models(arms@));
        let mut q = p5;
        let mut k = n5;
        loop
            invariant
                p < p5 <= q <= tk@.len(),
                n <= p,
                k + p <= n + q,
                t == lexemes(tk@),
                ints_nonneg(t),
                goal == arms_spec(t, q as int, k as int, arm_models(arms@)),
                expr_spec(t, p as int, n as int) == match goal {
                    Err(f) => Err(f),
                    Ok((arms_m, q6, k6)) => Ok((ExprModel::Match(Box::new(sm), arms_m), q6, k6)),
                },
                s@ == sm,
            decreases tk@.len() - q,
        {
            if at(tk, q, &Token::Bar) {
                match arm(tk, q + 1, k) {
                    Err(e) => {
                        return Err(e);
                    },
                    Ok((a2, q2, k2)) => {
                        proof {
                            assert(arm_models(arms@.push(a2)) =~= arm_models(arms@).push((a2.0@, a2.1@)));
                        }
                        arms.push(a2);
                        q = q2;
                        k = k2;
                    },
                }
            } else {
                return Ok((Expr::Match { scrutinee: Box::new(s), arms }, q, k));
            }
        }
    }
    or_else(tk, p, n)
}

fn arm(tk: &Vec<Spanned>, p: usize, n: usize) -> (r: Result<((Pattern, Expr), usize, usize), ParseError>)
    requires
        p <= tk@.len(),
        n <= p,
        ints_nonneg(lexemes(tk@)),
    ensures
        agrees(r, arm_spec(lexemes(tk@), p as int, n as int), |a: (Pattern, Expr)| (a.0@, a.1@)),
        r matches Ok((_, q, k)) ==> p < q <= tk@.len() && k + p <= n + q,
    decreases tk@.len() - p, 1int,
{
    let (pat, p2) = match pattern(tk, p) {
        Ok(x) => x,
        Err(e) => {
            return Err(e);
        },
    };
    let p3 = match eat(tk, p2, &Token::Arrow) {
        Ok(x) => x,
        Err(e) => {
            return Err(e);
        },
    };
    match expr(tk, p3, n) {
        Ok((body, p4, n4)) => Ok(((pat, body), p4, n4)),
        Err(e) => Err(e),
    }
}

fn binding(tk: &Vec<Spanned>, p: usize, n: usize) -> (r: Result<(Binding, usize, usize), ParseError>)
    requires
        p <= tk@.len(),
        n <= p,
        ints_nonneg(lexemes(tk@)),
    ensures
        agrees(r, binding_spec(lexemes(tk@), p as int, n as int), |b: Binding| (b.id as int, b.name@, b.expr@)),
        r matches Ok((_, q, k)) ==> p < q <= tk@.len() && k + p <= n + q,
    decreases tk@.len() - p, 2int,
{
    let (name, p1) = match lident(tk, p) {
        Ok(x) => x,
        Err(e) => {
            return Err(e);
        },
    };
    let (params, p2) = binding_params(tk, p1);
    let p3 = match eat(tk, p2, &Token::Equal) {
        Ok(x) => x,
        Err(e) => {
            return Err(e);
        },
    };
    let (body, p4, n4) = match expr(tk, p3, n) {
        Ok(x) => x,
        Err(e) => {
            return Err(e);
        },
    };
    let (e, k) = nest(params, body, n4);
    Ok((Binding { id: k, name, expr: e }, p4, k + 1))
}

fn bindings(tk: &Vec<Spanned>, p: usize, n: usize) -> (r: Result<(Vec<Binding>, usize, usize), ParseError>)
    requires
        p <= tk@.len(),
        n <= p,
        ints_nonneg(lexemes(tk@)),
    ensures
        agrees(r, bindings_spec(lexemes(tk@), p as int, n as int), |v: Vec<Binding>| binding_models(v@)),
        r matches Ok((_, q, k)) ==> p < q <= tk@.len() && k + p <= n + q,
    decreases tk@.len() - p, 4int,
{
    let ghost t = lexemes(tk@);
    let (b, p2, n2) = match binding(tk, p, n) {
        Ok(x) => x,
        Err(e) => {
            return Err(e);
        },
    };
    let ghost first = (b.id as int, b.name@, b.expr@);
    let mut acc: Vec<Binding> = Vec::new();
    acc.push(b);
    proof {
        assert(binding_models(acc@) =~= seq![first]);
    }
    let ghost goal = more_bindings_spec(t, p2 as int, n2 as int, binding_models(acc@));
    let mut q = p2;
    let mut k = n2;
    loop
        invariant
            p < p2 <= q <= tk@.len(),
            n <= p,
            k + p <= n + q,
            t == lexemes(tk@),
            ints_nonneg(t),
            goal == more_bindings_spec(t, q as int, k as int, binding_models(acc@)),
            bindings_spec(t, p as int, n as int) == goal,
        decreases tk@.len() - q,
    {
        if at(tk, q, &Token::And) {
            match binding(tk, q + 1, k) {
                Err(e) => {
                    return Err(e);
                },
                Ok((b2, q2, k2)) => {
                    proof {
                        assert(binding_models(acc@.push(b2)) =~= binding_models(acc@).push((b2.id as int, b2.name@, b2.expr@)));
                    }
                    acc.push(b2);
                    q = q2;
                    k = k2;
                },
            }
        } else {
            return Ok((acc, q, k));
        }
    }
}

} // verus!

verus! {

fn or_else(tk: &Vec<Spanned>, p: usize, n: usize) -> (r: Result<(Expr, usize, usize), ParseError>)
    requires
        p <= tk@.len(),
        n <= p,
        ints_nonneg(lexemes(tk@)),
    ensures
        agrees(r, or_else_spec(lexemes(tk@), p as int, n as int), |e: Expr| e@),
        r matches Ok((e, q, k)) ==> p < q <= tk@.len() && k + p <= n + q && no_min(e@),
    decreases tk@.len() - p, 19int,
{
    let ghost t = lexemes(tk@);
    let (first, p2, n2) = match and_also(tk, p, n) {
        Ok(x) => x,
        Err(e) => {
            return Err(e);
        },
    };
    let ghost goal = or_rest_spec(t, p2 as int, n2 as int, first@);
    let mut lhs = first;
    let mut q = p2;
    let mut k = n2;
    loop
        invariant
            p < p2 <= q <= tk@.len(),
            n <= p,
            k + p <= n + q,
            t == lexemes(tk@),
            ints_nonneg(t),
            goal == or_rest_spec(t, q as int, k as int, lhs@),
            or_else_spec(t, p as int, n as int) == goal,
            no_min(lhs@),
        decreases tk@.len() - q,
    {
        if !at(tk, q, &Token::OrOr) {
            return Ok((lhs, q, k));
        }
        let op = BinOp::OrElse;
        match and_also(tk, q + 1, k) {
            Err(e) => {
                return Err(e);
            },
            Ok((rhs, q2, k2)) => {
                lhs = bin_expr(op, lhs, rhs);
                q = q2;
                k = k2;
            },
        }
    }
}

fn and_also(tk: &Vec<Spanned>, p: usize, n: usize) -> (r: Result<(Expr, usize, usize), ParseError>)
    requires
        p <= tk@.len(),
        n <= p,
        ints_nonneg(lexemes(tk@)),
    ensures
        agrees(r, and_also_spec(lexemes(tk@), p as int, n as int), |e: Expr| e@),
        r matches Ok((e, q, k)) ==> p < q <= tk@.len() && k + p <= n + q && no_min(e@),
    decreases tk@.len() - p, 18int,
{
    let ghost t = lexemes(tk@);
    let (first, p2, n2) = match compare(tk, p, n) {
        Ok(x) => x,
        Err(e) => {
            return Err(e);
        },
    };
    let ghost goal = and_rest_spec(t, p2 as int, n2 as int, first@);
    let mut lhs = first;
    let mut q = p2;
    let mut k = n2;
    loop
        invariant
            p < p2 <= q <= tk@.len(),
            n <= p,
            k + p <= n + q,
            t == lexemes(tk@),
            ints_nonneg(t),
            goal == and_rest_spec(t, q as int, k as int, lhs@),
            and_also_spec(t, p as int, n as int) == goal,
            no_min(lhs@),
        decreases tk@.len() - q,
    {
        if !at(tk, q, &Token::AndAnd) {
            return Ok((lhs, q, k));
        }
        let op = BinOp::AndAlso;
        match compare(tk, q + 1, k) {
            Err(e) => {
                return Err(e);
            },
            Ok((rhs, q2, k2)) => {
                lhs = bin_expr(op, lhs, rhs);
                q = q2;
                k = k2;
            },
        }
    }
}

fn additive(tk: &Vec<Spanned>, p: usize, n: usize) -> (r: Result<(Expr, usize, usize), ParseError>)
    requires
        p <= tk@.len(),
        n <= p,
        ints_nonneg(lexemes(tk@)),
    ensures
        agrees(r, additive_spec(lexemes(tk@), p as int, n as int), |e: Expr| e@),
        r matches Ok((e, q, k)) ==> p < q <= tk@.len() && k + p <= n + q && no_min(e@),
    decreases tk@.len() - p, 16int,
{
    let ghost t = lexemes(tk@);
    let (first, p2, n2) = match multiplicative(tk, p, n) {
        Ok(x) => x,
        Err(e) => {
            return Err(e);
        },
    };
    let ghost goal = add_rest_spec(t, p2 as int, n2 as int, first@);
    let mut lhs = first;
    let mut q = p2;
    let mut k = n2;
    loop
        invariant
            p < p2 <= q <= tk@.len(),
            n <= p,
            k + p <= n + q,
            t == lexemes(tk@),
            ints_nonneg(t),
            goal == add_rest_spec(t, q as int, k as int, lhs@),
            additive_spec(t, p as int, n as int) == goal,
            no_min(lhs@),
        decreases tk@.len() - q,
    {
        let op = match token_at(tk, q) {
            Some(Token::Plus) => BinOp::Add,
            Some(Token::Minus) => BinOp::Sub,
            _ => {
                return Ok((lhs, q, k));
            },
        };
        match multiplicative(tk, q + 1, k) {
            Err(e) => {
                return Err(e);
            },
            Ok((rhs, q2, k2)) => {
                lhs = bin_expr(op, lhs, rhs);
                q = q2;
                k = k2;
            },
        }
    }
}

fn multiplicative(tk: &Vec<Spanned>, p: usize, n: usize) -> (r: Result<(Expr, usize, usize), ParseError>)
    requires
        p <= tk@.len(),
        n <= p,
        ints_nonneg(lexemes(tk@)),
    ensures
        agrees(r, multiplicative_spec(lexemes(tk@), p as int, n as int), |e: Expr| e@),
        r matches Ok((e, q, k)) ==> p < q <= tk@.len() && k + p <= n + q && no_min(e@),
    decreases tk@.len() - p, 15int,
{
    let ghost t = lexemes(tk@);
    let (first, p2, n2) = match unary(tk, p, n) {
        Ok(x) => x,
        Err(e) => {
            return Err(e);
        },
    };
    let ghost goal = mul_rest_spec(t, p2 as int, n2 as int, first@);
    let mut lhs = first;
    let mut q = p2;
    let mut k = n2;
    loop
        invariant
            p < p2 <= q <= tk@.len(),
            n <= p,
            k + p <= n + q,
            t == lexemes(tk@),
            ints_nonneg(t),
            goal == mul_rest_spec(t, q as int, k as int, lhs@),
            multiplicative_spec(t, p as int, n as int) == goal,
            no_min(lhs@),
        decreases tk@.len() - q,
    {
        let op = match token_at(tk, q) {
            Some(Token::Star) => BinOp::Mul,
            Some(Token::Slash) => BinOp::Div,
            _ => {
                return Ok((lhs, q, k));
            },
        };
        match unary(tk, q + 1, k) {
            Err(e) => {
                return Err(e);
            },
            Ok((rhs, q2, k2)) => {
                lhs = bin_expr(op, lhs, rhs);
                q = q2;
                k = k2;
            },
        }
    }
}

fn compare(tk: &Vec<Spanned>, p: usize, n: usize) -> (r: Result<(Expr, usize, usize), ParseError>)
    requires
        p <= tk@.len(),
        n <= p,
        ints_nonneg(lexemes(tk@)),
    ensures
        agrees(r, compare_spec(lexemes(tk@), p as int, n as int), |e: Expr| e@),
        r matches Ok((e, q, k)) ==> p < q <= tk@.len() && k + p <= n + q && no_min(e@),
    decreases tk@.len() - p, 17int,
{
    let (lhs, p2, n2) = match additive(tk, p, n) {
        Ok(x) => x,
        Err(e) => {
            return Err(e);
        },
    };
    let op = match token_at(tk, p2) {
        Some(Token::Equal) => BinOp::Eq,
        Some(Token::NotEqual) => BinOp::Ne,
        Some(Token::Less) => BinOp::Lt,
        Some(Token::LessEq) => BinOp::Le,
        Some(Token::Greater) => BinOp::Gt,
        Some(Token::GreaterEq) => BinOp::Ge,
        _ => {
            return Ok((lhs, p2, n2));
        },
    };
    match additive(tk, p2 + 1, n2) {
        Err(e) => Err(e),
        Ok((rhs, p3, n3)) => Ok((bin_expr(op, lhs, rhs), p3, n3)),
    }
}

fn unary(tk: &Vec<Spanned>, p: usize, n: usize) -> (r: Result<(Expr, usize, usize), ParseError>)
    requires
        p <= tk@.len(),
        n <= p,
        ints_nonneg(lexemes(tk@)),
    ensures
        agrees(r, unary_spec(lexemes(tk@), p as int, n as int), |e: Expr| e@),
        r matches Ok((e, q, k)) ==> p < q <= tk@.len() && k + p <= n + q && no_min(e@),
    decreases tk@.len() - p, 14int,
{
    if at(tk, p, &Token::Minus) {
        match unary(tk, p + 1, n) {
            Err(e) => Err(e),
            Ok((inner, p2, n2)) => {
                let e = match inner {
                    Expr::Int(v) => Expr::Int(-v),
                    other => Expr::Neg(Box::new(other)),
                };
                Ok((e, p2, n2))
            },
        }
    } else {
        application(tk, p, n)
    }
}

fn starts_atom_at(tk: &Vec<Spanned>, p: usize) -> (b: bool)
    ensures
        b == starts_atom(lexemes(tk@), p as int),
{
    match token_at(tk, p) {
        Some(Token::LIdent(_)) => true,
        Some(Token::UIdent(_)) => true,
        Some(Token::Int(_)) => true,
        Some(Token::True) => true,
        Some(Token::False) => true,
        Some(Token::LParen) => true,
        _ => false,
    }
}

fn application(tk: &Vec<Spanned>, p: usize, n: usize) -> (r: Result<(Expr, usize, usize), ParseError>)
    requires
        p <= tk@.len(),
        n <= p,
        ints_nonneg(lexemes(tk@)),
    ensures
        agrees(r, application_spec(lexemes(tk@), p as int, n as int), |e: Expr| e@),
        r matches Ok((e, q, k)) ==> p < q <= tk@.len() && k + p <= n + q && no_min(e@),
    decreases tk@.len() - p, 13int,
{
    let ghost t = lexemes(tk@);
    if let Some(Token::UIdent(nm)) = token_at(tk, p) {
        let name = nm.clone();
        if starts_atom_at(tk, p + 1) {
            return match atom(tk, p + 1, n) {
                Err(e) => Err(e),
                Ok((a, p2, n2)) => Ok((Expr::Ctor { name, arg: Some(Box::new(a)) }, p2, n2)),
            };
        }
        return Ok((Expr::Ctor { name, arg: None }, p + 1, n));
    }
    let (f, p2, n2) = match atom(tk, p, n) {
        Ok(x) => x,
        Err(e) => {
            return Err(e);
        },
    };
    let ghost goal = app_rest_spec(t, p2 as int, n2 as int, f@);
    let mut func = f;
    let mut q = p2;
    let mut k = n2;
    loop
        invariant
            p < p2 <= q <= tk@.len(),
            n <= p,
            k + p <= n + q,
            t == lexemes(tk@),
            ints_nonneg(t),
            goal == app_rest_spec(t, q as int, k as int, func@),
            application_spec(t, p as int, n as int) == goal,
            no_min(func@),
        decreases tk@.len() - q,
    {
        if !starts_atom_at(tk, q) {
            return Ok((func, q, k));
        }
        match atom(tk, q, k) {
            Err(e) => {
                return Err(e);
            },
            Ok((a, q2, k2)) => {
                func = Expr::App { func: Box::new(func), arg: Box::new(a) };
                q = q2;
                k = k2;
            },
        }
    }
}

proof fn lemma_expr_models_push(v: Seq<Expr>, x: Expr)
    ensures
        expr_models(v.push(x)) == expr_models(v).push(x@),
{
    assert(expr_models(v.push(x)) =~= expr_models(v).push(x@));
}

fn one_or_tuple(items: Vec<Expr>) -> (x: Expr)
    requires
        items@.len() >= 1,
    ensures
        x@ == one_or_tuple_expr(expr_models(items@)),
        no_min(expr_models(items@)[0]) ==> no_min(x@),
{
    if items.len() == 1 {
        let mut items = items;
        items.pop().unwrap()
    } else {
        Expr::Tuple(items)
    }
}

fn atom(tk: &Vec<Spanned>, p: usize, n: usize) -> (r: Result<(Expr, usize, usize), ParseError>)
    requires
        p <= tk@.len(),
        n <= p,
        ints_nonneg(lexemes(tk@)),
    ensures
        agrees(r, atom_spec(lexemes(tk@), p as int, n as int), |e: Expr| e@),
        r matches Ok((e, q, k)) ==> p < q <= tk@.len() && k + p <= n + q && no_min(e@),
    decreases tk@.len() - p, 12int,
{
    let ghost t = lexemes(tk@);
    match token_at(tk, p) {
        Some(Token::Int(v)) => {
            assert(t[p as int].0 == Lexeme::Other(Token::Int(*v)));
            Ok((Expr::Int(*v), p + 1, n))
        },
        Some(Token::True) => Ok((Expr::Bool(true), p + 1, n)),
        Some(Token::False) => Ok((Expr::Bool(false), p + 1, n)),
        Some(Token::LIdent(x)) => Ok((Expr::Var(x.clone()), p + 1, n)),
        Some(Token::UIdent(x)) => Ok((Expr::Ctor { name: x.clone(), arg: None }, p + 1, n)),
        Some(Token::LParen) => {
            if at(tk, p + 1, &Token::RParen) {
                return Ok((Expr::Unit, p + 2, n));
            }
            let (x, p2, n2) = match expr(tk, p + 1, n) {
                Ok(v) => v,
                Err(e) => {
                    return Err(e);
                },
            };
            let ghost first = x@;
            let mut items: Vec<Expr> = Vec::new();
            items.push(x);
            proof {
                assert(expr_models(items@) =~= seq![first]);
            }
            let ghost goal = expr_items_spec(t, p2 as int, n2 as int, expr_models(items@));
            let mut q = p2;
            let mut k = n2;
            loop
                invariant
                    p < p2 <= q <= tk@.len(),
                    n <= p,
                    k + p <= n + q,
                    t == lexemes(tk@),
                    ints_nonneg(t),
                    items@.len() >= 1,
                    expr_models(items@)[0] == first,
                    no_min(first),
                    goal == expr_items_spec(t, q as int, k as int, expr_models(items@)),
                    atom_spec(t, p as int, n as int) == goal,
                decreases tk@.len() - q,
            {
                if at(tk, q, &Token::Comma) {
                    match expr(tk, q + 1, k) {
                        Err(e) => {
                            return Err(e);
                        },
                        Ok((y, q2, k2)) => {
                            proof {
                                lemma_expr_models_push(items@, y);
                            }
                            items.push(y);
                            q = q2;
                            k = k2;
                        },
                    }
                } else {
                    return match eat(tk, q, &Token::RParen) {
                        Err(e) => Err(e),
                        Ok(q2) => Ok((one_or_tuple(items), q2, k)),
                    };
                }
            }
        },
        _ => Err(expected_err(tk, p, true, "an expression")),
    }
}

} // verus!

verus! {

fn top_let(tk: &Vec<Spanned>, p: usize, n: usize) -> (r: Result<((bool, Vec<Binding>), usize, usize), ParseError>)
    requires
        p <= tk@.len(),
        n <= p,
        ints_nonneg(lexemes(tk@)),
    ensures
        agrees(r, top_let_spec(lexemes(tk@), p as int, n as int), |d: (bool, Vec<Binding>)| (d.0, binding_models(d.1@))),
        r matches Ok((_, q, k)) ==> p < q <= tk@.len() && k + p <= n + q,
{
    let p1 = match eat(tk, p, &Token::Let) {
        Ok(x) => x,
        Err(e) => {
            return Err(e);
        },
    };
    let rec = at(tk, p1, &Token::Rec);
    let p2 = if rec { p1 + 1 } else { p1 };
    match bindings(tk, p2, n) {
        Err(e) => Err(e),
        Ok((bs, p3, n3)) => Ok(((rec, bs), p3, n3)),
    }
}

/// Parses ml_core source text: type definitions and top-level
/// declarations, in order.
pub fn parse(source: &str) -> (r: Result<Program, ParseError>)
    ensures
        match (r, parse_spec(source@)) {
            (Ok(prog), Ok(m)) => program_model(prog) == m,
            (Err(e), Err((o, msg))) => e.offset as int == o && e.message@ == msg,
            _ => false,
        },
{
    let tk = match lex(source) {
        Ok(v) => v,
        Err(e) => {
            return Err(ParseError { offset: e.offset, message: e.message });
        },
    };
    let ghost t = lexemes(tk@);
    let mut typedefs: Vec<TypeDef> = Vec::new();
    let mut decls: Vec<(bool, Vec<Binding>)> = Vec::new();
    let mut q: usize = 0;
    let mut k: usize = 0;
    proof {
        assert(typedefs@.map_values(|d: TypeDef| typedef_model(d)) =~= Seq::<TypeDefModel>::empty());
        assert(decl_models(decls@) =~= Seq::<(bool, Seq<BindingModel>)>::empty());
    }
    loop
        invariant
            q <= tk@.len(),
            k <= q,
            t == lexemes(tk@),
            ints_nonneg(t),
            lex_spec(source@) == Ok::<Toks, Fail>(t),
            parse_spec(source@) == program_spec(
                t,
                q as int,
                k as int,
                typedefs@.map_values(|d: TypeDef| typedef_model(d)),
                decl_models(decls@),
            ),
        decreases tk@.len() - q,
    {
        match token_at(&tk, q) {
            None => {
                return Ok(Program { typedefs, decls });
            },
            Some(Token::Type) => match typedef(&tk, q) {
                Err(e) => {
                    return Err(e);
                },
                Ok((d, q2)) => {
                    proof {
                        assert(typedefs@.push(d).map_values(|d: TypeDef| typedef_model(d))
                            =~= typedefs@.map_values(|d: TypeDef| typedef_model(d)).push(typedef_model(d)));
                    }
                    typedefs.push(d);
                    q = q2;
                },
            },
            Some(Token::Let) => match top_let(&tk, q, k) {
                Err(e) => {
                    return Err(e);
                },
                Ok((d, q2, k2)) => {
                    proof {
                        assert(decl_models(decls@.push(d)) =~= decl_models(decls@).push((d.0, binding_models(d.1@))));
                    }
                    decls.push(d);
                    q = q2;
                    k = k2;
                },
            },
            Some(other) => {
                let shown = other.text();
                let mut v = crate::text::chars_of("expected `type` or `let`, found ");
                crate::text::push_str(&mut v, shown.as_str());
                return Err(ParseError { offset: offset(&tk, q), message: string_of(&v) });
            },
        }
    }
}

} // verus!

verus! {

impl Pattern {
    /// A deep copy.
    pub fn duplicate(&self) -> (c: Pattern)
        ensures
            c@ == self@,
        decreases self, 0int,
    {
        match self {
            Pattern::Wild => Pattern::Wild,
            Pattern::Var(n) => Pattern::Var(n.clone()),
            Pattern::Int(v) => Pattern::Int(*v),
            Pattern::Bool(b) => Pattern::Bool(*b),
            Pattern::Unit => Pattern::Unit,
            Pattern::Tuple(items) => Pattern::Tuple(duplicate_patterns(items)),
            Pattern::Ctor { name, arg } => Pattern::Ctor {
                name: name.clone(),
                arg: match arg {
                    None => None,
                    Some(b) => Some(Box::new(b.duplicate())),
                },
            },
        }
    }
}

/// Deep copies of each pattern.
pub fn duplicate_patterns(items: &Vec<Pattern>) -> (out: Vec<Pattern>)
    ensures
        pattern_models(out@) == pattern_models(items@),
    decreases items, 1int,
{
    let mut out: Vec<Pattern> = Vec::new();
    let mut k: usize = 0;
    while k < items.len()
        invariant
            k <= items@.len(),
            out@.len() == k,
            forall|j: int| 0 <= j < k ==> #[trigger] out@[j]@ == items@[j]@,
        decreases items@.len() - k,
    {
        out.push(items[k].duplicate());
        k = k + 1;
    }
    assert forall|j: int| 0 <= j < items@.len() implies pattern_models(out@)[j] == pattern_models(items@)[j] by {
        assert(out@[j]@ == items@[j]@);
    }
    assert(pattern_models(out@) =~= pattern_models(items@));
    out
}

} // verus!

verus! {

/// Pattern lets desugar at parse time: `let P = e in b` parses as
/// `match e with P -> b`, a match with exactly that one arm.
pub proof fn law_pattern_let_is_a_match(t: Toks, p: int, n: int)
    requires
        is_tok(t, p, Token::Let),
        !is_tok(t, p + 1, Token::Rec),
        is_pattern_let(t, p + 1),
    ensures
        expr_spec(t, p, n) matches Ok((m, _, _)) ==> (m matches ExprModel::Match(_, arms) && arms.len() == 1),
{
}

/// A parameterized binding is its body under one single-parameter
/// lambda per parameter, the first parameter outermost.
pub proof fn law_params_nest_outside_in(params: Seq<ParamModel>, body: ExprModel, n: int)
    ensures
        params.len() == 0 ==> nest_funs(params, body, n) == body,
        params.len() > 0 ==> (nest_funs(params, body, n) matches ExprModel::Fun(id, p, inner) && id == n + params.len() - 1
            && p == params[0] && *inner == nest_funs(params.subrange(1, params.len() as int), body, n)),
{
}

} // verus!

verus! {

/// A comparison token between two additive operands makes one comparison
/// node with the operator the token names, the left operand first: `<`
/// is `Lt`, `>` is `Gt`, `<=` is `Le`, `>=` is `Ge`, `=` is `Eq` and `<>`
/// is `Ne`.
pub proof fn law_comparison_operator(
    t: Toks,
    p: int,
    n: int,
    k: Token,
    lhs: ExprModel,
    q: int,
    n1: int,
    rhs: ExprModel,
    q2: int,
    n2: int,
)
    requires
        additive_spec(t, p, n) == Ok::<(ExprModel, int, int), Fail>((lhs, q, n1)),
        p < q,
        is_tok(t, q, k),
        additive_spec(t, q + 1, n1) == Ok::<(ExprModel, int, int), Fail>((rhs, q2, n2)),
    ensures
        k == Token::Less ==> compare_spec(t, p, n)
            == Ok::<(ExprModel, int, int), Fail>((ExprModel::Bin(BinOp::Lt, Box::new(lhs), Box::new(rhs)), q2, n2)),
        k == Token::Greater ==> compare_spec(t, p, n)
            == Ok::<(ExprModel, int, int), Fail>((ExprModel::Bin(BinOp::Gt, Box::new(lhs), Box::new(rhs)), q2, n2)),
        k == Token::LessEq ==> compare_spec(t, p, n)
            == Ok::<(ExprModel, int, int), Fail>((ExprModel::Bin(BinOp::Le, Box::new(lhs), Box::new(rhs)), q2, n2)),
        k == Token::GreaterEq ==> compare_spec(t, p, n)
            == Ok::<(ExprModel, int, int), Fail>((ExprModel::Bin(BinOp::Ge, Box::new(lhs), Box::new(rhs)), q2, n2)),
        k == Token::Equal ==> compare_spec(t, p, n)
            == Ok::<(ExprModel, int, int), Fail>((ExprModel::Bin(BinOp::Eq, Box::new(lhs), Box::new(rhs)), q2, n2)),
        k == Token::NotEqual ==> compare_spec(t, p, n)
            == Ok::<(ExprModel, int, int), Fail>((ExprModel::Bin(BinOp::Ne, Box::new(lhs), Box::new(rhs)), q2, n2)),
{
    assert(peek(t, q) == Some(Lexeme::Other(k)));
    if compare_op(Some(Lexeme::Other(k))) is Some {
        assert(compare_spec(t, p, n) == Ok::<(ExprModel, int, int), Fail>((
            bin(compare_op(Some(Lexeme::Other(k)))->Some_0, lhs, rhs),
            q2,
            n2,
        )));
    }
}

} // verus!

verus! {

/// The arithmetic operator a token names.
pub open spec fn arith_token_op(k: Token) -> Option<BinOp> {
    match k {
        Token::Plus => Some(BinOp::Add),
        Token::Minus => Some(BinOp::Sub),
        Token::Star => Some(BinOp::Mul),
        Token::Slash => Some(BinOp::Div),
        _ => None,
    }
}

/// `+` and `-` between two multiplicative operands make one node with
/// the operator the token names, and a run of them nests to the left:
/// `a - b - c` is `(a - b) - c`, `a + b - c` is `(a + b) - c`.
pub proof fn law_additive_operators(
    t: Toks,
    p: int,
    n: int,
    k1: Token,
    k2: Token,
    a: ExprModel,
    p1: int,
    n1: int,
    b: ExprModel,
    p2: int,
    n2: int,
    c: ExprModel,
    p3: int,
    n3: int,
)
    requires
        k1 == Token::Plus || k1 == Token::Minus,
        multiplicative_spec(t, p, n) == Ok::<(ExprModel, int, int), Fail>((a, p1, n1)),
        p < p1,
        is_tok(t, p1, k1),
        multiplicative_spec(t, p1 + 1, n1) == Ok::<(ExprModel, int, int), Fail>((b, p2, n2)),
        p1 < p2 <= t.len(),
    ensures
        !is_tok(t, p2, Token::Plus) && !is_tok(t, p2, Token::Minus) ==> additive_spec(t, p, n)
            == Ok::<(ExprModel, int, int), Fail>((bin(arith_token_op(k1)->Some_0, a, b), p2, n2)),
        (k2 == Token::Plus || k2 == Token::Minus) && is_tok(t, p2, k2)
            && multiplicative_spec(t, p2 + 1, n2) == Ok::<(ExprModel, int, int), Fail>((c, p3, n3))
            && p2 < p3 <= t.len() && !is_tok(t, p3, Token::Plus) && !is_tok(t, p3, Token::Minus)
            ==> additive_spec(t, p, n) == Ok::<(ExprModel, int, int), Fail>((
                bin(arith_token_op(k2)->Some_0, bin(arith_token_op(k1)->Some_0, a, b), c),
                p3,
                n3,
            )),
{
    let ab = bin(arith_token_op(k1)->Some_0, a, b);
    if (k2 == Token::Plus || k2 == Token::Minus) && is_tok(t, p2, k2)
        && multiplicative_spec(t, p2 + 1, n2) == Ok::<(ExprModel, int, int), Fail>((c, p3, n3))
        && p2 < p3 <= t.len() && !is_tok(t, p3, Token::Plus) && !is_tok(t, p3, Token::Minus) {
        let abc = bin(arith_token_op(k2)->Some_0, ab, c);
        assert(add_rest_spec(t, p3, n3, abc) == Ok::<(ExprModel, int, int), Fail>((abc, p3, n3)));
        assert(add_rest_spec(t, p2, n2, ab) == Ok::<(ExprModel, int, int), Fail>((abc, p3, n3)));
        assert(add_rest_spec(t, p1, n1, a) == Ok::<(ExprModel, int, int), Fail>((abc, p3, n3)));
    }
    if !is_tok(t, p2, Token::Plus) && !is_tok(t, p2, Token::Minus) {
        assert(add_rest_spec(t, p2, n2, ab) == Ok::<(ExprModel, int, int), Fail>((ab, p2, n2)));
        assert(add_rest_spec(t, p1, n1, a) == Ok::<(ExprModel, int, int), Fail>((ab, p2, n2)));
    }
}

/// `*` and `/` between two operands make one node with the operator the
/// token names, the left operand first.
pub proof fn law_multiplicative_operator(
    t: Toks,
    p: int,
    n: int,
    k: Token,
    a: ExprModel,
    p1: int,
    n1: int,
    b: ExprModel,
    p2: int,
    n2: int,
)
    requires
        k == Token::Star || k == Token::Slash,
        unary_spec(t, p, n) == Ok::<(ExprModel, int, int), Fail>((a, p1, n1)),
        p < p1,
        is_tok(t, p1, k),
        unary_spec(t, p1 + 1, n1) == Ok::<(ExprModel, int, int), Fail>((b, p2, n2)),
        p1 < p2 <= t.len(),
        !is_tok(t, p2, Token::Star) && !is_tok(t, p2, Token::Slash),
    ensures
        multiplicative_spec(t, p, n) == Ok::<(ExprModel, int, int), Fail>((bin(arith_token_op(k)->Some_0, a, b), p2, n2)),
{
    let ab = bin(arith_token_op(k)->Some_0, a, b);
    assert(mul_rest_spec(t, p2, n2, ab) == Ok::<(ExprModel, int, int), Fail>((ab, p2, n2)));
    assert(mul_rest_spec(t, p1, n1, a) == Ok::<(ExprModel, int, int), Fail>((ab, p2, n2)));
}

} // verus!
