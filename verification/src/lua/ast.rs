//! Recursive-descent parser for the femto_lua subset of Lua 5.1. Spans
//! are the byte offsets of each construct's first token.

use vstd::prelude::*;
use crate::lua::lex::{Lexeme, LexError, NumLit, NumModel, Spanned, Token, lex, lex_spec, lexemes};
use crate::text::string_of;
use vstd::string::StringSliceAdditionalSpecFns;

verus! {

#[derive(Debug)]
pub enum Expr {
    Nil(usize),
    True(usize),
    False(usize),
    Num(NumLit, usize),
    Str(String, usize),
    Name(String, usize),
    Index(Box<Expr>, Box<Expr>, usize),
    Call(Box<Expr>, Vec<Expr>, usize),
    Function(Vec<String>, Vec<Stat>, usize),
    Table(Vec<Field>, usize),
    Binary(BinOp, Box<Expr>, Box<Expr>, usize),
    Unary(UnOp, Box<Expr>, usize),
}

#[derive(Debug)]
pub enum Field {
    Positional(Expr),
    Named(String, Expr),
    Keyed(Expr, Expr),
}

#[derive(Clone, Copy, Debug, PartialEq, Eq)]
pub enum BinOp {
    Add, Sub, Mul, Div, Mod, Concat,
    Eq, Ne, Lt, Le, Gt, Ge, And, Or,
}

#[derive(Clone, Copy, Debug, PartialEq, Eq)]
pub enum UnOp {
    Neg, Not, Len,
}

#[derive(Debug)]
pub enum Stat {
    Local(String, Expr, usize),
    /// `local a, b, c = f()`: names beyond the pack are filled with nil.
    LocalMulti(Vec<String>, Expr, usize),
    /// `a, b = f()`: names only.
    AssignMulti(Vec<String>, Expr, usize),
    Repeat(Vec<Stat>, Expr, usize),
    Break(usize),
    /// `for n1, n2 in e do`: `e` produces the iterator.
    GenFor(Vec<String>, Expr, Vec<Stat>, usize),
    LocalFunction(String, Vec<String>, Vec<Stat>, usize),
    AssignName(String, Expr, usize),
    AssignIndex(Expr, Expr, Expr, usize),
    Call(Expr, usize),
    If(Vec<(Expr, Vec<Stat>)>, Option<Vec<Stat>>, usize),
    While(Expr, Vec<Stat>, usize),
    NumFor(String, Expr, Expr, Option<Expr>, Vec<Stat>, usize),
    Return(Vec<Expr>, usize),
    Do(Vec<Stat>, usize),
    /// `function name(...)`: a global function declaration.
    GlobalFunction(String, Vec<String>, Vec<Stat>, usize),
}

pub type Block = Vec<Stat>;

#[derive(Debug)]
pub struct ParseError {
    pub offset: usize,
    pub message: String,
}

impl ParseError {
    /// `parse error at byte <offset>: <message>`.
    pub fn render(&self) -> (s: String)
        ensures
            s@ == "parse error at byte "@ + crate::harness::canon::decimal_digits(self.offset as nat) + ": "@
                + self.message@,
    {
        let mut v = crate::text::chars_of("parse error at byte ");
        let mut d = crate::harness::canon::digits_of(self.offset as u64);
        v.append(&mut d);
        crate::text::push_str(&mut v, ": ");
        crate::text::push_str(&mut v, self.message.as_str());
        string_of(&v)
    }
}

pub enum ExprModel {
    Nil(int),
    True(int),
    False(int),
    Num(NumModel, int),
    Str(Seq<char>, int),
    Name(Seq<char>, int),
    Index(Box<ExprModel>, Box<ExprModel>, int),
    Call(Box<ExprModel>, Seq<ExprModel>, int),
    Function(Seq<Seq<char>>, Seq<StatModel>, int),
    Table(Seq<FieldModel>, int),
    Binary(BinOp, Box<ExprModel>, Box<ExprModel>, int),
    Unary(UnOp, Box<ExprModel>, int),
}

pub enum FieldModel {
    Positional(ExprModel),
    Named(Seq<char>, ExprModel),
    Keyed(ExprModel, ExprModel),
}

pub enum StatModel {
    Local(Seq<char>, ExprModel, int),
    LocalMulti(Seq<Seq<char>>, ExprModel, int),
    AssignMulti(Seq<Seq<char>>, ExprModel, int),
    Repeat(Seq<StatModel>, ExprModel, int),
    Break(int),
    GenFor(Seq<Seq<char>>, ExprModel, Seq<StatModel>, int),
    LocalFunction(Seq<char>, Seq<Seq<char>>, Seq<StatModel>, int),
    AssignName(Seq<char>, ExprModel, int),
    AssignIndex(ExprModel, ExprModel, ExprModel, int),
    Call(ExprModel, int),
    If(Seq<(ExprModel, Seq<StatModel>)>, Option<Seq<StatModel>>, int),
    While(ExprModel, Seq<StatModel>, int),
    NumFor(Seq<char>, ExprModel, ExprModel, Option<ExprModel>, Seq<StatModel>, int),
    Return(Seq<ExprModel>, int),
    Do(Seq<StatModel>, int),
    GlobalFunction(Seq<char>, Seq<Seq<char>>, Seq<StatModel>, int),
}

pub open spec fn num_model(n: NumLit) -> NumModel {
    match n {
        NumLit::Hex(v) => NumModel::Hex(v),
        NumLit::Decimal(s) => NumModel::Decimal(s@),
    }
}

pub open spec fn texts(v: Seq<String>) -> Seq<Seq<char>> {
    v.map_values(|s: String| s@)
}

pub open spec fn expr_model(e: Expr) -> ExprModel
    decreases e,
{
    match e {
        Expr::Nil(s) => ExprModel::Nil(s as int),
        Expr::True(s) => ExprModel::True(s as int),
        Expr::False(s) => ExprModel::False(s as int),
        Expr::Num(n, s) => ExprModel::Num(num_model(n), s as int),
        Expr::Str(x, s) => ExprModel::Str(x@, s as int),
        Expr::Name(x, s) => ExprModel::Name(x@, s as int),
        Expr::Index(a, b, s) => ExprModel::Index(Box::new(expr_model(*a)), Box::new(expr_model(*b)), s as int),
        Expr::Call(f, args, s) => ExprModel::Call(Box::new(expr_model(*f)), expr_models(args@), s as int),
        Expr::Function(ps, body, s) => ExprModel::Function(texts(ps@), stat_models(body@), s as int),
        Expr::Table(fs, s) => ExprModel::Table(field_models(fs@), s as int),
        Expr::Binary(op, a, b, s) => ExprModel::Binary(op, Box::new(expr_model(*a)), Box::new(expr_model(*b)), s as int),
        Expr::Unary(op, a, s) => ExprModel::Unary(op, Box::new(expr_model(*a)), s as int),
    }
}

pub open spec fn expr_models(v: Seq<Expr>) -> Seq<ExprModel>
    decreases v,
{
    Seq::new(v.len(), |i: int| if 0 <= i < v.len() { expr_model(v[i]) } else { ExprModel::Nil(0) })
}

pub open spec fn field_models(v: Seq<Field>) -> Seq<FieldModel>
    decreases v,
{
    Seq::new(v.len(), |i: int| if 0 <= i < v.len() {
        match v[i] {
            Field::Positional(e) => FieldModel::Positional(expr_model(e)),
            Field::Named(n, e) => FieldModel::Named(n@, expr_model(e)),
            Field::Keyed(k, e) => FieldModel::Keyed(expr_model(k), expr_model(e)),
        }
    } else {
        FieldModel::Positional(ExprModel::Nil(0))
    })
}

pub open spec fn stat_model(st: Stat) -> StatModel
    decreases st,
{
    match st {
        Stat::Local(n, e, s) => StatModel::Local(n@, expr_model(e), s as int),
        Stat::LocalMulti(ns, e, s) => StatModel::LocalMulti(texts(ns@), expr_model(e), s as int),
        Stat::AssignMulti(ns, e, s) => StatModel::AssignMulti(texts(ns@), expr_model(e), s as int),
        Stat::Repeat(b, e, s) => StatModel::Repeat(stat_models(b@), expr_model(e), s as int),
        Stat::Break(s) => StatModel::Break(s as int),
        Stat::GenFor(ns, e, b, s) => StatModel::GenFor(texts(ns@), expr_model(e), stat_models(b@), s as int),
        Stat::LocalFunction(n, ps, b, s) => StatModel::LocalFunction(n@, texts(ps@), stat_models(b@), s as int),
        Stat::AssignName(n, e, s) => StatModel::AssignName(n@, expr_model(e), s as int),
        Stat::AssignIndex(t, k, e, s) => StatModel::AssignIndex(expr_model(t), expr_model(k), expr_model(e), s as int),
        Stat::Call(e, s) => StatModel::Call(expr_model(e), s as int),
        Stat::If(arms, other, s) => StatModel::If(arm_models(arms@), match other {
            None => None,
            Some(b) => Some(stat_models(b@)),
        }, s as int),
        Stat::While(e, b, s) => StatModel::While(expr_model(e), stat_models(b@), s as int),
        Stat::NumFor(n, a, b, step, body, s) => StatModel::NumFor(n@, expr_model(a), expr_model(b), match step {
            None => None,
            Some(x) => Some(expr_model(x)),
        }, stat_models(body@), s as int),
        Stat::Return(vs, s) => StatModel::Return(expr_models(vs@), s as int),
        Stat::Do(b, s) => StatModel::Do(stat_models(b@), s as int),
        Stat::GlobalFunction(n, ps, b, s) => StatModel::GlobalFunction(n@, texts(ps@), stat_models(b@), s as int),
    }
}

pub open spec fn stat_models(v: Seq<Stat>) -> Seq<StatModel>
    decreases v,
{
    Seq::new(v.len(), |i: int| if 0 <= i < v.len() { stat_model(v[i]) } else { StatModel::Break(0) })
}

pub open spec fn arm_models(v: Seq<(Expr, Vec<Stat>)>) -> Seq<(ExprModel, Seq<StatModel>)>
    decreases v,
{
    Seq::new(v.len(), |i: int| if 0 <= i < v.len() {
        (expr_model(v[i].0), stat_models(v[i].1@))
    } else {
        (ExprModel::Nil(0), Seq::empty())
    })
}

impl View for Expr {
    type V = ExprModel;

    open spec fn view(&self) -> ExprModel {
        expr_model(*self)
    }
}

impl View for Stat {
    type V = StatModel;

    open spec fn view(&self) -> StatModel {
        stat_model(*self)
    }
}

/// The span an expression model carries.
pub open spec fn span_of(m: ExprModel) -> int {
    match m {
        ExprModel::Nil(s) => s,
        ExprModel::True(s) => s,
        ExprModel::False(s) => s,
        ExprModel::Num(_, s) => s,
        ExprModel::Str(_, s) => s,
        ExprModel::Name(_, s) => s,
        ExprModel::Index(_, _, s) => s,
        ExprModel::Call(_, _, s) => s,
        ExprModel::Function(_, _, s) => s,
        ExprModel::Table(_, s) => s,
        ExprModel::Binary(_, _, _, s) => s,
        ExprModel::Unary(_, _, s) => s,
    }
}

impl Expr {
    /// The byte offset of the expression's first token.
    pub fn span(&self) -> (s: usize)
        ensures
            s as int == span_of(self@),
    {
        match self {
            Expr::Nil(s) => *s,
            Expr::True(s) => *s,
            Expr::False(s) => *s,
            Expr::Num(_, s) => *s,
            Expr::Str(_, s) => *s,
            Expr::Name(_, s) => *s,
            Expr::Index(_, _, s) => *s,
            Expr::Call(_, _, s) => *s,
            Expr::Function(_, _, s) => *s,
            Expr::Table(_, s) => *s,
            Expr::Binary(_, _, _, s) => *s,
            Expr::Unary(_, _, s) => *s,
        }
    }
}

} // verus!

verus! {

pub type Toks = Seq<(Lexeme, int)>;

pub type Fail = (int, Seq<char>);

pub open spec fn peek(t: Toks, p: int) -> Option<Lexeme> {
    if 0 <= p < t.len() { Some(t[p].0) } else { None }
}

pub open spec fn is_tok(t: Toks, p: int, k: Token) -> bool {
    peek(t, p) == Some(Lexeme::Other(k))
}

/// Where errors at position `p` are reported: the token's start; past
/// the end, the last token's start; with no tokens, 0.
pub open spec fn span_at(t: Toks, p: int) -> int {
    if 0 <= p < t.len() {
        t[p].1
    } else if t.len() > 0 {
        t[t.len() - 1].1
    } else {
        0
    }
}

pub open spec fn fail(t: Toks, p: int, msg: Seq<char>) -> Fail {
    (span_at(t, p), msg)
}

/// A failure a well-behaved parse never reports: the guards keep each
/// recursion on a later token.
pub open spec fn stuck() -> Fail {
    (0, Seq::empty())
}

pub open spec fn expect_spec(t: Toks, p: int, k: Token, what: Seq<char>) -> Result<int, Fail> {
    if is_tok(t, p, k) { Ok(p + 1) } else { Err(fail(t, p, "expected "@ + what)) }
}

pub open spec fn name_spec(t: Toks, p: int) -> Result<(Seq<char>, int), Fail> {
    match peek(t, p) {
        Some(Lexeme::Name(n)) => Ok((n, p + 1)),
        _ => Err(fail(t, p, "expected a name"@)),
    }
}

/// `, name` repeated.
pub open spec fn names_spec(t: Toks, p: int, acc: Seq<Seq<char>>) -> Result<(Seq<Seq<char>>, int), Fail>
    decreases t.len() - p,
{
    if is_tok(t, p, Token::Comma) {
        match name_spec(t, p + 1) {
            Err(f) => Err(f),
            Ok((n, q)) => names_spec(t, q, acc.push(n)),
        }
    } else {
        Ok((acc, p))
    }
}

/// `name (, name)*`.
pub open spec fn params_spec(t: Toks, p: int, acc: Seq<Seq<char>>) -> Result<(Seq<Seq<char>>, int), Fail>
    decreases t.len() - p,
{
    match name_spec(t, p) {
        Err(f) => Err(f),
        Ok((n, q)) => if is_tok(t, q, Token::Comma) {
            params_spec(t, q + 1, acc.push(n))
        } else {
            Ok((acc.push(n), q))
        },
    }
}

/// Whether the token at `p` closes a block (or the tokens ran out).
pub open spec fn closes_block(t: Toks, p: int) -> bool {
    peek(t, p) is None || is_tok(t, p, Token::End) || is_tok(t, p, Token::Else) || is_tok(t, p, Token::Elseif)
        || is_tok(t, p, Token::Until)
}

/// The binary operator a token stands for: operator, level, and
/// whether it associates to the right.
pub open spec fn binop_of(l: Option<Lexeme>) -> Option<(BinOp, int, bool)> {
    match l {
        Some(Lexeme::Other(Token::Or)) => Some((BinOp::Or, 1, false)),
        Some(Lexeme::Other(Token::And)) => Some((BinOp::And, 2, false)),
        Some(Lexeme::Other(Token::Less)) => Some((BinOp::Lt, 3, false)),
        Some(Lexeme::Other(Token::Greater)) => Some((BinOp::Gt, 3, false)),
        Some(Lexeme::Other(Token::LessEq)) => Some((BinOp::Le, 3, false)),
        Some(Lexeme::Other(Token::GreaterEq)) => Some((BinOp::Ge, 3, false)),
        Some(Lexeme::Other(Token::EqEq)) => Some((BinOp::Eq, 3, false)),
        Some(Lexeme::Other(Token::NotEq)) => Some((BinOp::Ne, 3, false)),
        Some(Lexeme::Other(Token::Concat)) => Some((BinOp::Concat, 4, true)),
        Some(Lexeme::Other(Token::Plus)) => Some((BinOp::Add, 5, false)),
        Some(Lexeme::Other(Token::Minus)) => Some((BinOp::Sub, 5, false)),
        Some(Lexeme::Other(Token::Star)) => Some((BinOp::Mul, 6, false)),
        Some(Lexeme::Other(Token::Slash)) => Some((BinOp::Div, 6, false)),
        Some(Lexeme::Other(Token::Percent)) => Some((BinOp::Mod, 6, false)),
        _ => None,
    }
}

pub open spec fn unop_of(l: Option<Lexeme>) -> Option<UnOp> {
    match l {
        Some(Lexeme::Other(Token::Not)) => Some(UnOp::Not),
        Some(Lexeme::Other(Token::Minus)) => Some(UnOp::Neg),
        Some(Lexeme::Other(Token::Hash)) => Some(UnOp::Len),
        _ => None,
    }
}

pub type PR<M> = Result<(M, int), Fail>;

/// Statements until a block-closing keyword (not consumed); `return`
/// ends the block.
pub open spec fn block_spec(t: Toks, p: int, acc: Seq<StatModel>) -> PR<Seq<StatModel>>
    decreases t.len() - p, 40int,
{
    if closes_block(t, p) {
        Ok((acc, p))
    } else if is_tok(t, p, Token::Semi) {
        block_spec(t, p + 1, acc)
    } else if is_tok(t, p, Token::Return) {
        let span = span_at(t, p);
        let vals = if closes_block(t, p + 1) || is_tok(t, p + 1, Token::Semi) {
            Ok((Seq::empty(), p + 1))
        } else {
            values_spec(t, p + 1, Seq::empty())
        };
        match vals {
            Err(f) => Err(f),
            Ok((vs, q)) => {
                let q2 = if is_tok(t, q, Token::Semi) { q + 1 } else { q };
                Ok((acc.push(StatModel::Return(vs, span)), q2))
            },
        }
    } else {
        match statement_spec(t, p) {
            Err(f) => Err(f),
            Ok((s, q)) => if p < q <= t.len() {
                block_spec(t, q, acc.push(s))
            } else {
                Err(stuck())
            },
        }
    }
}

/// `expr (, expr)*`.
pub open spec fn values_spec(t: Toks, p: int, acc: Seq<ExprModel>) -> PR<Seq<ExprModel>>
    decreases t.len() - p, 35int,
{
    match expression_spec(t, p) {
        Err(f) => Err(f),
        Ok((e, q)) => if p < q <= t.len() {
            if is_tok(t, q, Token::Comma) {
                values_spec(t, q + 1, acc.push(e))
            } else {
                Ok((acc.push(e), q))
            }
        } else {
            Err(stuck())
        },
    }
}

/// `(params) block end`.
pub open spec fn function_body_spec(t: Toks, p: int) -> PR<(Seq<Seq<char>>, Seq<StatModel>)>
    decreases t.len() - p, 1int,
{
    match expect_spec(t, p, Token::LParen, "("@) {
        Err(f) => Err(f),
        Ok(p1) => {
            let ps = if is_tok(t, p1, Token::RParen) { Ok((Seq::empty(), p1)) } else { params_spec(t, p1, Seq::empty()) };
            match ps {
                Err(f) => Err(f),
                Ok((params, p2)) => match expect_spec(t, p2, Token::RParen, ")"@) {
                    Err(f) => Err(f),
                    Ok(p3) => if p < p3 <= t.len() {
                        match block_spec(t, p3, Seq::empty()) {
                            Err(f) => Err(f),
                            Ok((body, p4)) => match expect_spec(t, p4, Token::End, "end"@) {
                                Err(f) => Err(f),
                                Ok(p5) => Ok(((params, body), p5)),
                            },
                        }
                    } else {
                        Err(stuck())
                    },
                },
            }
        },
    }
}

pub open spec fn expression_spec(t: Toks, p: int) -> PR<ExprModel>
    decreases t.len() - p, 30int,
{
    binary_spec(t, p, 0)
}

/// Precedence climbing: operators at `min` or above bind here.
pub open spec fn binary_spec(t: Toks, p: int, min: int) -> PR<ExprModel>
    decreases t.len() - p, 29int,
{
    match unary_spec(t, p) {
        Err(f) => Err(f),
        Ok((left, q)) => if p < q <= t.len() {
            binary_rest_spec(t, q, min, left)
        } else {
            Err(stuck())
        },
    }
}

pub open spec fn binary_rest_spec(t: Toks, p: int, min: int, left: ExprModel) -> PR<ExprModel>
    decreases t.len() - p, 29int,
{
    if is_tok(t, p, Token::Caret) {
        Err(fail(t, p, "^ is fenced in v0.1 (D-052)"@))
    } else {
        match binop_of(peek(t, p)) {
            None => Ok((left, p)),
            Some((op, level, right_assoc)) => if level < min {
                Ok((left, p))
            } else {
                let span = span_at(t, p);
                match binary_spec(t, p + 1, if right_assoc { level } else { level + 1 }) {
                    Err(f) => Err(f),
                    Ok((right, q)) => if p < q <= t.len() {
                        binary_rest_spec(t, q, min, ExprModel::Binary(op, Box::new(left), Box::new(right), span))
                    } else {
                        Err(stuck())
                    },
                }
            },
        }
    }
}

pub open spec fn unary_spec(t: Toks, p: int) -> PR<ExprModel>
    decreases t.len() - p, 28int,
{
    match unop_of(peek(t, p)) {
        Some(op) => match unary_spec(t, p + 1) {
            Err(f) => Err(f),
            Ok((e, q)) => Ok((ExprModel::Unary(op, Box::new(e), span_at(t, p)), q)),
        },
        None => simple_spec(t, p),
    }
}

pub open spec fn simple_spec(t: Toks, p: int) -> PR<ExprModel>
    decreases t.len() - p, 27int,
{
    let span = span_at(t, p);
    match peek(t, p) {
        Some(Lexeme::Other(Token::Nil)) => Ok((ExprModel::Nil(span), p + 1)),
        Some(Lexeme::Other(Token::True)) => Ok((ExprModel::True(span), p + 1)),
        Some(Lexeme::Other(Token::False)) => Ok((ExprModel::False(span), p + 1)),
        Some(Lexeme::Number(m)) => Ok((ExprModel::Num(m, span), p + 1)),
        Some(Lexeme::Str(s)) => Ok((ExprModel::Str(s, span), p + 1)),
        Some(Lexeme::Other(Token::Function)) => match function_body_spec(t, p + 1) {
            Err(f) => Err(f),
            Ok(((params, body), q)) => Ok((ExprModel::Function(params, body, span), q)),
        },
        Some(Lexeme::Other(Token::LBrace)) => table_spec(t, p),
        _ => prefix_spec(t, p),
    }
}

/// A name or a parenthesized expression, then any chain of `.name`,
/// `[expr]` and `(args)`.
pub open spec fn prefix_spec(t: Toks, p: int) -> PR<ExprModel>
    decreases t.len() - p, 21int,
{
    let span = span_at(t, p);
    match peek(t, p) {
        Some(Lexeme::Name(n)) => suffix_spec(t, p + 1, ExprModel::Name(n, span)),
        Some(Lexeme::Other(Token::LParen)) => match expression_spec(t, p + 1) {
            Err(f) => Err(f),
            Ok((inner, q)) => match expect_spec(t, q, Token::RParen, ")"@) {
                Err(f) => Err(f),
                Ok(q2) => if p < q2 <= t.len() {
                    suffix_spec(t, q2, inner)
                } else {
                    Err(stuck())
                },
            },
        },
        _ => Err(fail(t, p, "expected an expression"@)),
    }
}

pub open spec fn suffix_spec(t: Toks, p: int, e: ExprModel) -> PR<ExprModel>
    decreases t.len() - p, 21int,
{
    let span = span_at(t, p);
    match peek(t, p) {
        Some(Lexeme::Other(Token::Dot)) => match name_spec(t, p + 1) {
            Err(f) => Err(f),
            Ok((field, q)) => suffix_spec(t, q, ExprModel::Index(Box::new(e), Box::new(ExprModel::Str(field, span)), span)),
        },
        Some(Lexeme::Other(Token::LBracket)) => match expression_spec(t, p + 1) {
            Err(f) => Err(f),
            Ok((key, q)) => match expect_spec(t, q, Token::RBracket, "]"@) {
                Err(f) => Err(f),
                Ok(q2) => if p < q2 <= t.len() {
                    suffix_spec(t, q2, ExprModel::Index(Box::new(e), Box::new(key), span))
                } else {
                    Err(stuck())
                },
            },
        },
        Some(Lexeme::Other(Token::LParen)) => {
            let args = if is_tok(t, p + 1, Token::RParen) { Ok((Seq::empty(), p + 1)) } else { args_spec(t, p + 1, Seq::empty()) };
            match args {
                Err(f) => Err(f),
                Ok((vs, q)) => match expect_spec(t, q, Token::RParen, ")"@) {
                    Err(f) => Err(f),
                    Ok(q2) => if p < q2 <= t.len() {
                        suffix_spec(t, q2, ExprModel::Call(Box::new(e), vs, span))
                    } else {
                        Err(stuck())
                    },
                },
            }
        },
        Some(Lexeme::Str(_)) => Err(fail(t, p, "paren-free call sugar is fenced in v0.1 (D-052)"@)),
        Some(Lexeme::Other(Token::LBrace)) => Err(fail(t, p, "paren-free call sugar is fenced in v0.1 (D-052)"@)),
        Some(Lexeme::Other(Token::Colon)) => Err(fail(t, p, "method calls are fenced in v0.1 (D-052)"@)),
        _ => Ok((e, p)),
    }
}

/// Call arguments: `expr (, expr)*`.
pub open spec fn args_spec(t: Toks, p: int, acc: Seq<ExprModel>) -> PR<Seq<ExprModel>>
    decreases t.len() - p, 31int,
{
    match expression_spec(t, p) {
        Err(f) => Err(f),
        Ok((e, q)) => if p < q <= t.len() {
            if is_tok(t, q, Token::Comma) {
                args_spec(t, q + 1, acc.push(e))
            } else {
                Ok((acc.push(e), q))
            }
        } else {
            Err(stuck())
        },
    }
}

/// `{ field (sep field)* [sep] }`.
pub open spec fn table_spec(t: Toks, p: int) -> PR<ExprModel>
    decreases t.len() - p, 26int,
{
    let span = span_at(t, p);
    match expect_spec(t, p, Token::LBrace, "{"@) {
        Err(f) => Err(f),
        Ok(p1) => match fields_spec(t, p1, Seq::empty()) {
            Err(f) => Err(f),
            Ok((fs, q)) => match expect_spec(t, q, Token::RBrace, "}"@) {
                Err(f) => Err(f),
                Ok(q2) => Ok((ExprModel::Table(fs, span), q2)),
            },
        },
    }
}

pub open spec fn field_spec(t: Toks, p: int) -> PR<FieldModel>
    decreases t.len() - p, 31int,
{
    match peek(t, p) {
        Some(Lexeme::Other(Token::LBracket)) => match expression_spec(t, p + 1) {
            Err(f) => Err(f),
            Ok((k, q)) => match expect_spec(t, q, Token::RBracket, "]"@) {
                Err(f) => Err(f),
                Ok(q2) => match expect_spec(t, q2, Token::Assign, "="@) {
                    Err(f) => Err(f),
                    Ok(q3) => if p < q3 <= t.len() {
                        match expression_spec(t, q3) {
                            Err(f) => Err(f),
                            Ok((v, q4)) => Ok((FieldModel::Keyed(k, v), q4)),
                        }
                    } else {
                        Err(stuck())
                    },
                },
            },
        },
        Some(Lexeme::Name(n)) => if is_tok(t, p + 1, Token::Assign) {
            match expression_spec(t, p + 2) {
                Err(f) => Err(f),
                Ok((v, q)) => Ok((FieldModel::Named(n, v), q)),
            }
        } else {
            match expression_spec(t, p) {
                Err(f) => Err(f),
                Ok((v, q)) => Ok((FieldModel::Positional(v), q)),
            }
        },
        _ => match expression_spec(t, p) {
            Err(f) => Err(f),
            Ok((v, q)) => Ok((FieldModel::Positional(v), q)),
        },
    }
}

pub open spec fn fields_spec(t: Toks, p: int, acc: Seq<FieldModel>) -> PR<Seq<FieldModel>>
    decreases t.len() - p, 32int,
{
    if is_tok(t, p, Token::RBrace) {
        Ok((acc, p))
    } else {
        match field_spec(t, p) {
            Err(f) => Err(f),
            Ok((fm, q)) => if p < q <= t.len() {
                if is_tok(t, q, Token::Comma) || is_tok(t, q, Token::Semi) {
                    fields_spec(t, q + 1, acc.push(fm))
                } else {
                    Ok((acc.push(fm), q))
                }
            } else {
                Err(stuck())
            },
        }
    }
}


/// `elseif` arms, then `else block end` or `end`.
pub open spec fn if_rest_spec(t: Toks, p: int, arms: Seq<(ExprModel, Seq<StatModel>)>) -> PR<(Seq<(ExprModel, Seq<StatModel>)>, Option<Seq<StatModel>>)>
    decreases t.len() - p, 1int,
{
    if is_tok(t, p, Token::Elseif) {
        match expression_spec(t, p + 1) {
            Err(f) => Err(f),
            Ok((c, q)) => match expect_spec(t, q, Token::Then, "then"@) {
                Err(f) => Err(f),
                Ok(q1) => if p < q1 <= t.len() {
                    match block_spec(t, q1, Seq::empty()) {
                        Err(f) => Err(f),
                        Ok((b, q2)) => if p < q2 <= t.len() {
                            if_rest_spec(t, q2, arms.push((c, b)))
                        } else {
                            Err(stuck())
                        },
                    }
                } else {
                    Err(stuck())
                },
            },
        }
    } else if is_tok(t, p, Token::Else) {
        match block_spec(t, p + 1, Seq::empty()) {
            Err(f) => Err(f),
            Ok((b, q)) => match expect_spec(t, q, Token::End, "end"@) {
                Err(f) => Err(f),
                Ok(q1) => Ok(((arms, Some(b)), q1)),
            },
        }
    } else if is_tok(t, p, Token::End) {
        Ok(((arms, None), p + 1))
    } else {
        Err(fail(t, p, "expected elseif/else/end"@))
    }
}

/// `block end` from `p`.
pub open spec fn block_end_spec(t: Toks, p: int) -> PR<Seq<StatModel>>
    decreases t.len() - p, 41int,
{
    match block_spec(t, p, Seq::empty()) {
        Err(f) => Err(f),
        Ok((b, q)) => match expect_spec(t, q, Token::End, "end"@) {
            Err(f) => Err(f),
            Ok(q1) => Ok((b, q1)),
        },
    }
}

pub open spec fn local_spec(t: Toks, p: int, span: int) -> PR<StatModel>
    decreases t.len() - p, 2int,
{
    if is_tok(t, p, Token::Function) {
        match name_spec(t, p + 1) {
            Err(f) => Err(f),
            Ok((n, q)) => match function_body_spec(t, q) {
                Err(f) => Err(f),
                Ok(((params, body), q2)) => Ok((StatModel::LocalFunction(n, params, body, span), q2)),
            },
        }
    } else {
        match name_spec(t, p) {
            Err(f) => Err(f),
            Ok((n, q)) => if is_tok(t, q, Token::Comma) {
                match names_spec(t, q, seq![n]) {
                    Err(f) => Err(f),
                    Ok((names, q2)) => match expect_spec(t, q2, Token::Assign, "="@) {
                        Err(f) => Err(f),
                        Ok(q3) => if p < q3 <= t.len() {
                            match expression_spec(t, q3) {
                                Err(f) => Err(f),
                                Ok((v, q4)) => if is_tok(t, q4, Token::Comma) {
                                    Err(fail(t, q4, "multi-expression RHS is fenced in v0.2 (D-058)"@))
                                } else {
                                    Ok((StatModel::LocalMulti(names, v, span), q4))
                                },
                            }
                        } else {
                            Err(stuck())
                        },
                    },
                }
            } else {
                match expect_spec(t, q, Token::Assign, "= (locals require an initializer)"@) {
                    Err(f) => Err(f),
                    Ok(q1) => if p < q1 <= t.len() {
                        match expression_spec(t, q1) {
                            Err(f) => Err(f),
                            Ok((v, q2)) => Ok((StatModel::Local(n, v, span), q2)),
                        }
                    } else {
                        Err(stuck())
                    },
                }
            },
        }
    }
}

pub open spec fn for_spec(t: Toks, p: int, span: int) -> PR<StatModel>
    decreases t.len() - p, 2int,
{
    match name_spec(t, p) {
        Err(f) => Err(f),
        Ok((v, q)) => if is_tok(t, q, Token::Assign) {
            match expression_spec(t, q + 1) {
                Err(f) => Err(f),
                Ok((from, q1)) => match expect_spec(t, q1, Token::Comma, ","@) {
                    Err(f) => Err(f),
                    Ok(q2) => if p < q2 <= t.len() {
                        match expression_spec(t, q2) {
                            Err(f) => Err(f),
                            Ok((to, q3)) => {
                                let step = if is_tok(t, q3, Token::Comma) {
                                    if p <= q3 < t.len() {
                                        match expression_spec(t, q3 + 1) {
                                            Err(f) => Err(f),
                                            Ok((s, q4)) => Ok((Some(s), q4)),
                                        }
                                    } else {
                                        Err(stuck())
                                    }
                                } else {
                                    Ok((None, q3))
                                };
                                match step {
                                    Err(f) => Err(f),
                                    Ok((st, q4)) => match expect_spec(t, q4, Token::Do, "do"@) {
                                        Err(f) => Err(f),
                                        Ok(q5) => if p < q5 <= t.len() {
                                            match block_end_spec(t, q5) {
                                                Err(f) => Err(f),
                                                Ok((body, q6)) => Ok((StatModel::NumFor(v, from, to, st, body, span), q6)),
                                            }
                                        } else {
                                            Err(stuck())
                                        },
                                    },
                                }
                            },
                        }
                    } else {
                        Err(stuck())
                    },
                },
            }
        } else if is_tok(t, q, Token::Comma) || is_tok(t, q, Token::In) {
            match names_spec(t, q, seq![v]) {
                Err(f) => Err(f),
                Ok((names, q2)) => match expect_spec(t, q2, Token::In, "in"@) {
                    Err(f) => Err(f),
                    Ok(q3) => if p < q3 <= t.len() {
                        match expression_spec(t, q3) {
                            Err(f) => Err(f),
                            Ok((it, q4)) => if is_tok(t, q4, Token::Comma) {
                                Err(fail(t, q4, "explicit iterator triples are fenced in v0.2 (D-058)"@))
                            } else {
                                match expect_spec(t, q4, Token::Do, "do"@) {
                                    Err(f) => Err(f),
                                    Ok(q5) => if p < q5 <= t.len() {
                                        match block_end_spec(t, q5) {
                                            Err(f) => Err(f),
                                            Ok((body, q6)) => Ok((StatModel::GenFor(names, it, body, span), q6)),
                                        }
                                    } else {
                                        Err(stuck())
                                    },
                                }
                            },
                        }
                    } else {
                        Err(stuck())
                    },
                },
            }
        } else {
            Err(fail(t, q, "malformed for"@))
        },
    }
}

/// An expression statement: a call, or an assignment through a name or
/// index prefix.
pub open spec fn expr_stat_spec(t: Toks, p: int, span: int) -> PR<StatModel>
    decreases t.len() - p, 22int,
{
    match prefix_spec(t, p) {
        Err(f) => Err(f),
        Ok((pre, q)) => if !(p < q <= t.len()) {
            Err(stuck())
        } else if is_tok(t, q, Token::Comma) {
            match pre {
                ExprModel::Name(first, _) => match names_spec(t, q, seq![first]) {
                    Err(f) => Err(f),
                    Ok((names, q2)) => match expect_spec(t, q2, Token::Assign, "="@) {
                        Err(f) => Err(f),
                        Ok(q3) => if p < q3 <= t.len() {
                            match expression_spec(t, q3) {
                                Err(f) => Err(f),
                                Ok((v, q4)) => Ok((StatModel::AssignMulti(names, v, span), q4)),
                            }
                        } else {
                            Err(stuck())
                        },
                    },
                },
                _ => Err(fail(t, q, "multi-assignment targets are names only"@)),
            }
        } else if is_tok(t, q, Token::Assign) {
            match expression_spec(t, q + 1) {
                Err(f) => Err(f),
                Ok((v, q2)) => match pre {
                    ExprModel::Name(n, _) => Ok((StatModel::AssignName(n, v, span), q2)),
                    ExprModel::Index(tb, k, _) => Ok((StatModel::AssignIndex(*tb, *k, v, span), q2)),
                    _ => Err(fail(t, q2, "cannot assign to this expression"@)),
                },
            }
        } else {
            match pre {
                ExprModel::Call(_, _, _) => Ok((StatModel::Call(pre, span), q)),
                _ => Err(fail(t, q, "expression statements must be calls"@)),
            }
        },
    }
}

pub open spec fn statement_spec(t: Toks, p: int) -> PR<StatModel>
    decreases t.len() - p, 39int,
{
    let span = span_at(t, p);
    if is_tok(t, p, Token::Local) {
        local_spec(t, p + 1, span)
    } else if is_tok(t, p, Token::Function) {
        match name_spec(t, p + 1) {
            Err(f) => Err(f),
            Ok((n, q)) => if is_tok(t, q, Token::Dot) || is_tok(t, q, Token::Colon) {
                Err(fail(t, q, "method declarations are fenced in v0.1 (D-052)"@))
            } else {
                match function_body_spec(t, q) {
                    Err(f) => Err(f),
                    Ok(((params, body), q2)) => Ok((StatModel::GlobalFunction(n, params, body, span), q2)),
                }
            },
        }
    } else if is_tok(t, p, Token::If) {
        match expression_spec(t, p + 1) {
            Err(f) => Err(f),
            Ok((c, q)) => match expect_spec(t, q, Token::Then, "then"@) {
                Err(f) => Err(f),
                Ok(q1) => if p < q1 <= t.len() {
                    match block_spec(t, q1, Seq::empty()) {
                        Err(f) => Err(f),
                        Ok((b, q2)) => if p < q2 <= t.len() {
                            match if_rest_spec(t, q2, seq![(c, b)]) {
                                Err(f) => Err(f),
                                Ok(((arms, other), q3)) => Ok((StatModel::If(arms, other, span), q3)),
                            }
                        } else {
                            Err(stuck())
                        },
                    }
                } else {
                    Err(stuck())
                },
            },
        }
    } else if is_tok(t, p, Token::While) {
        match expression_spec(t, p + 1) {
            Err(f) => Err(f),
            Ok((c, q)) => match expect_spec(t, q, Token::Do, "do"@) {
                Err(f) => Err(f),
                Ok(q1) => if p < q1 <= t.len() {
                    match block_end_spec(t, q1) {
                        Err(f) => Err(f),
                        Ok((body, q2)) => Ok((StatModel::While(c, body, span), q2)),
                    }
                } else {
                    Err(stuck())
                },
            },
        }
    } else if is_tok(t, p, Token::For) {
        for_spec(t, p + 1, span)
    } else if is_tok(t, p, Token::Do) {
        match block_end_spec(t, p + 1) {
            Err(f) => Err(f),
            Ok((body, q)) => Ok((StatModel::Do(body, span), q)),
        }
    } else if is_tok(t, p, Token::Repeat) {
        match block_spec(t, p + 1, Seq::empty()) {
            Err(f) => Err(f),
            Ok((body, q)) => match expect_spec(t, q, Token::Until, "until"@) {
                Err(f) => Err(f),
                Ok(q1) => if p < q1 <= t.len() {
                    match expression_spec(t, q1) {
                        Err(f) => Err(f),
                        Ok((c, q2)) => Ok((StatModel::Repeat(body, c, span), q2)),
                    }
                } else {
                    Err(stuck())
                },
            },
        }
    } else if is_tok(t, p, Token::Break) {
        Ok((StatModel::Break(span), p + 1))
    } else {
        expr_stat_spec(t, p, span)
    }
}

/// What `parse` gives for a source text: the lexer's failure, a parse
/// failure, `trailing input after chunk`, or the chunk.
pub open spec fn parse_spec(source: Seq<u8>) -> Result<Seq<StatModel>, Fail> {
    match lex_spec(source) {
        Err(f) => Err(f),
        Ok(t) => match block_spec(t, 0, Seq::empty()) {
            Err(f) => Err(f),
            Ok((b, q)) => if q < t.len() {
                Err(fail(t, q, "trailing input after chunk"@))
            } else {
                Ok(b)
            },
        },
    }
}

} // verus!

verus! {

pub open spec fn unit(k: Token) -> bool {
    !(k is Name || k is Number || k is Str)
}

fn same_token(a: &Token, k: &Token) -> (r: bool)
    requires
        unit(*k),
    ensures
        r == (a.lexeme() == Lexeme::Other(*k)),
{
    match k {
        Token::And => matches!(a, Token::And),
        Token::Break => matches!(a, Token::Break),
        Token::Do => matches!(a, Token::Do),
        Token::Else => matches!(a, Token::Else),
        Token::Elseif => matches!(a, Token::Elseif),
        Token::End => matches!(a, Token::End),
        Token::False => matches!(a, Token::False),
        Token::For => matches!(a, Token::For),
        Token::Function => matches!(a, Token::Function),
        Token::If => matches!(a, Token::If),
        Token::In => matches!(a, Token::In),
        Token::Local => matches!(a, Token::Local),
        Token::Nil => matches!(a, Token::Nil),
        Token::Not => matches!(a, Token::Not),
        Token::Or => matches!(a, Token::Or),
        Token::Repeat => matches!(a, Token::Repeat),
        Token::Return => matches!(a, Token::Return),
        Token::Then => matches!(a, Token::Then),
        Token::True => matches!(a, Token::True),
        Token::Until => matches!(a, Token::Until),
        Token::While => matches!(a, Token::While),
        Token::Plus => matches!(a, Token::Plus),
        Token::Minus => matches!(a, Token::Minus),
        Token::Star => matches!(a, Token::Star),
        Token::Slash => matches!(a, Token::Slash),
        Token::Percent => matches!(a, Token::Percent),
        Token::Caret => matches!(a, Token::Caret),
        Token::Hash => matches!(a, Token::Hash),
        Token::EqEq => matches!(a, Token::EqEq),
        Token::NotEq => matches!(a, Token::NotEq),
        Token::LessEq => matches!(a, Token::LessEq),
        Token::GreaterEq => matches!(a, Token::GreaterEq),
        Token::Less => matches!(a, Token::Less),
        Token::Greater => matches!(a, Token::Greater),
        Token::Assign => matches!(a, Token::Assign),
        Token::LParen => matches!(a, Token::LParen),
        Token::RParen => matches!(a, Token::RParen),
        Token::LBrace => matches!(a, Token::LBrace),
        Token::RBrace => matches!(a, Token::RBrace),
        Token::LBracket => matches!(a, Token::LBracket),
        Token::RBracket => matches!(a, Token::RBracket),
        Token::Semi => matches!(a, Token::Semi),
        Token::Colon => matches!(a, Token::Colon),
        Token::Comma => matches!(a, Token::Comma),
        Token::Dot => matches!(a, Token::Dot),
        Token::Concat => matches!(a, Token::Concat),
        Token::Dots => matches!(a, Token::Dots),
        _ => false,
    }
}

fn at(tk: &Vec<Spanned>, p: usize, k: &Token) -> (r: bool)
    requires
        unit(*k),
    ensures
        r == is_tok(lexemes(tk@), p as int, *k),
        tk@.len() <= usize::MAX,
{
    p < tk.len() && same_token(&tk[p].token, k)
}

fn token_at(tk: &Vec<Spanned>, p: usize) -> (r: Option<&Token>)
    ensures
        match r {
            Some(k) => p < tk@.len() && *k == tk@[p as int].token && peek(lexemes(tk@), p as int) == Some(k.lexeme()),
            None => p >= tk@.len() && peek(lexemes(tk@), p as int) is None,
        },
        tk@.len() <= usize::MAX,
{
    if p < tk.len() {
        Some(&tk[p].token)
    } else {
        None
    }
}

fn span(tk: &Vec<Spanned>, p: usize) -> (s: usize)
    ensures
        s as int == span_at(lexemes(tk@), p as int),
{
    if p < tk.len() {
        tk[p].start
    } else if tk.len() > 0 {
        tk[tk.len() - 1].start
    } else {
        0
    }
}

fn err(tk: &Vec<Spanned>, p: usize, msg: &str) -> (e: ParseError)
    ensures
        (e.offset as int, e.message@) == fail(lexemes(tk@), p as int, msg@),
{
    ParseError { offset: span(tk, p), message: msg.to_owned() }
}

fn expect(tk: &Vec<Spanned>, p: usize, k: &Token, what: &str) -> (r: Result<usize, ParseError>)
    requires
        unit(*k),
    ensures
        match (r, expect_spec(lexemes(tk@), p as int, *k, what@)) {
            (Ok(q), Ok(s)) => q == s,
            (Err(e), Err((o, m))) => e.offset == o && e.message@ == m,
            _ => false,
        },
        r matches Ok(q) ==> q == p + 1 && q <= tk@.len(),
{
    if at(tk, p, k) {
        Ok(p + 1)
    } else {
        Err(ParseError { offset: span(tk, p), message: crate::text::join2("expected ", what) })
    }
}

pub open spec fn agrees<T, M>(r: Result<(T, usize), ParseError>, s: PR<M>, m: spec_fn(T) -> M) -> bool {
    match (r, s) {
        (Ok((x, p)), Ok((y, q))) => m(x) == y && p as int == q,
        (Err(e), Err((o, msg))) => e.offset as int == o && e.message@ == msg,
        _ => false,
    }
}

fn name(tk: &Vec<Spanned>, p: usize) -> (r: Result<(String, usize), ParseError>)
    ensures
        agrees(r, name_spec(lexemes(tk@), p as int), |s: String| s@),
        r matches Ok((_, q)) ==> q == p + 1 && q <= tk@.len(),
{
    match token_at(tk, p) {
        Some(Token::Name(n)) => Ok((n.clone(), p + 1)),
        _ => Err(err(tk, p, "expected a name")),
    }
}

proof fn lemma_texts_push(v: Seq<String>, s: String)
    ensures
        texts(v.push(s)) == texts(v).push(s@),
{
    assert(texts(v.push(s)) =~= texts(v).push(s@));
}

/// `, name` repeated, after `acc`.
fn names(tk: &Vec<Spanned>, p: usize, acc: Vec<String>) -> (r: Result<(Vec<String>, usize), ParseError>)
    requires
        p <= tk@.len(),
    ensures
        agrees(r, names_spec(lexemes(tk@), p as int, texts(acc@)), |v: Vec<String>| texts(v@)),
        r matches Ok((_, q)) ==> p <= q <= tk@.len(),
{
    let ghost t = lexemes(tk@);
    let mut out = acc;
    let mut q = p;
    loop
        invariant
            p <= q <= tk@.len(),
            t == lexemes(tk@),
            names_spec(t, p as int, texts(acc@)) == names_spec(t, q as int, texts(out@)),
        decreases tk@.len() - q,
    {
        if !at(tk, q, &Token::Comma) {
            return Ok((out, q));
        }
        match name(tk, q + 1) {
            Err(e) => {
                return Err(e);
            },
            Ok((n, q2)) => {
                proof {
                    lemma_texts_push(out@, n);
                }
                out.push(n);
                q = q2;
            },
        }
    }
}

fn params(tk: &Vec<Spanned>, p: usize) -> (r: Result<(Vec<String>, usize), ParseError>)
    requires
        p <= tk@.len(),
    ensures
        agrees(r, params_spec(lexemes(tk@), p as int, Seq::empty()), |v: Vec<String>| texts(v@)),
        r matches Ok((_, q)) ==> p < q <= tk@.len(),
{
    let ghost t = lexemes(tk@);
    let mut out: Vec<String> = Vec::new();
    let mut q = p;
    proof {
        assert(texts(out@) =~= Seq::<Seq<char>>::empty());
    }
    loop
        invariant
            p <= q <= tk@.len(),
            t == lexemes(tk@),
            params_spec(t, p as int, Seq::empty()) == params_spec(t, q as int, texts(out@)),
        decreases tk@.len() - q,
    {
        match name(tk, q) {
            Err(e) => {
                return Err(e);
            },
            Ok((n, q2)) => {
                proof {
                    lemma_texts_push(out@, n);
                }
                out.push(n);
                if at(tk, q2, &Token::Comma) {
                    q = q2 + 1;
                } else {
                    return Ok((out, q2));
                }
            },
        }
    }
}

proof fn lemma_expr_models_push(v: Seq<Expr>, x: Expr)
    ensures
        expr_models(v.push(x)) == expr_models(v).push(x@),
{
    assert(expr_models(v.push(x)) =~= expr_models(v).push(x@));
}

proof fn lemma_stat_models_push(v: Seq<Stat>, x: Stat)
    ensures
        stat_models(v.push(x)) == stat_models(v).push(x@),
{
    assert(stat_models(v.push(x)) =~= stat_models(v).push(x@));
}

pub open spec fn field_model(f: Field) -> FieldModel {
    match f {
        Field::Positional(e) => FieldModel::Positional(e@),
        Field::Named(n, e) => FieldModel::Named(n@, e@),
        Field::Keyed(k, e) => FieldModel::Keyed(k@, e@),
    }
}

proof fn lemma_field_models_push(v: Seq<Field>, x: Field)
    ensures
        field_models(v.push(x)) == field_models(v).push(field_model(x)),
{
    assert(field_models(v.push(x)) =~= field_models(v).push(field_model(x)));
}

fn block(tk: &Vec<Spanned>, p: usize) -> (r: Result<(Vec<Stat>, usize), ParseError>)
    requires
        p <= tk@.len(),
    ensures
        agrees(r, block_spec(lexemes(tk@), p as int, Seq::empty()), |v: Vec<Stat>| stat_models(v@)),
        r matches Ok((_, q)) ==> p <= q <= tk@.len(),
    decreases tk@.len() - p, 40int,
{
    let ghost t = lexemes(tk@);
    let mut out: Vec<Stat> = Vec::new();
    let mut q = p;
    proof {
        assert(stat_models(out@) =~= Seq::<StatModel>::empty());
    }
    loop
        invariant
            p <= q <= tk@.len(),
            t == lexemes(tk@),
            block_spec(t, p as int, Seq::empty()) == block_spec(t, q as int, stat_models(out@)),
        decreases tk@.len() - q,
    {
        if closes(tk, q) {
            return Ok((out, q));
        }
        if at(tk, q, &Token::Semi) {
            q = q + 1;
        } else if at(tk, q, &Token::Return) {
            let sp = span(tk, q);
            let (vals, q2) = if closes(tk, q + 1) || at(tk, q + 1, &Token::Semi) {
                let vs: Vec<Expr> = Vec::new();
                proof {
                    assert(expr_models(vs@) =~= Seq::<ExprModel>::empty());
                }
                (vs, q + 1)
            } else {
                match values(tk, q + 1) {
                    Ok(x) => x,
                    Err(e) => {
                        return Err(e);
                    },
                }
            };
            let q3 = if at(tk, q2, &Token::Semi) { q2 + 1 } else { q2 };
            let st = Stat::Return(vals, sp);
            proof {
                lemma_stat_models_push(out@, st);
            }
            out.push(st);
            return Ok((out, q3));
        } else {
            match statement(tk, q) {
                Err(e) => {
                    return Err(e);
                },
                Ok((st, q2)) => {
                    proof {
                        lemma_stat_models_push(out@, st);
                    }
                    out.push(st);
                    q = q2;
                },
            }
        }
    }
}

fn closes(tk: &Vec<Spanned>, p: usize) -> (b: bool)
    ensures
        b == closes_block(lexemes(tk@), p as int),
{
    p >= tk.len() || at(tk, p, &Token::End) || at(tk, p, &Token::Else) || at(tk, p, &Token::Elseif)
        || at(tk, p, &Token::Until)
}

fn values(tk: &Vec<Spanned>, p: usize) -> (r: Result<(Vec<Expr>, usize), ParseError>)
    requires
        p <= tk@.len(),
    ensures
        agrees(r, values_spec(lexemes(tk@), p as int, Seq::empty()), |v: Vec<Expr>| expr_models(v@)),
        r matches Ok((_, q)) ==> p < q <= tk@.len(),
    decreases tk@.len() - p, 35int,
{
    let ghost t = lexemes(tk@);
    let mut out: Vec<Expr> = Vec::new();
    let mut q = p;
    proof {
        assert(expr_models(out@) =~= Seq::<ExprModel>::empty());
    }
    loop
        invariant
            p <= q <= tk@.len(),
            t == lexemes(tk@),
            values_spec(t, p as int, Seq::empty()) == values_spec(t, q as int, expr_models(out@)),
        decreases tk@.len() - q,
    {
        match expression(tk, q) {
            Err(e) => {
                return Err(e);
            },
            Ok((x, q2)) => {
                proof {
                    lemma_expr_models_push(out@, x);
                }
                out.push(x);
                if at(tk, q2, &Token::Comma) {
                    q = q2 + 1;
                } else {
                    return Ok((out, q2));
                }
            },
        }
    }
}

fn function_body(tk: &Vec<Spanned>, p: usize) -> (r: Result<((Vec<String>, Vec<Stat>), usize), ParseError>)
    requires
        p <= tk@.len(),
    ensures
        agrees(r, function_body_spec(lexemes(tk@), p as int), |x: (Vec<String>, Vec<Stat>)| (texts(x.0@), stat_models(x.1@))),
        r matches Ok((_, q)) ==> p < q <= tk@.len(),
    decreases tk@.len() - p, 1int,
{
    let p1 = match expect(tk, p, &Token::LParen, "(") {
        Ok(x) => x,
        Err(e) => {
            return Err(e);
        },
    };
    let (ps, p2) = if at(tk, p1, &Token::RParen) {
        let v: Vec<String> = Vec::new();
        proof {
            assert(texts(v@) =~= Seq::<Seq<char>>::empty());
        }
        (v, p1)
    } else {
        match params(tk, p1) {
            Ok(x) => x,
            Err(e) => {
                return Err(e);
            },
        }
    };
    let p3 = match expect(tk, p2, &Token::RParen, ")") {
        Ok(x) => x,
        Err(e) => {
            return Err(e);
        },
    };
    let (body, p4) = match block(tk, p3) {
        Ok(x) => x,
        Err(e) => {
            return Err(e);
        },
    };
    match expect(tk, p4, &Token::End, "end") {
        Ok(p5) => Ok(((ps, body), p5)),
        Err(e) => Err(e),
    }
}

fn expression(tk: &Vec<Spanned>, p: usize) -> (r: Result<(Expr, usize), ParseError>)
    requires
        p <= tk@.len(),
    ensures
        agrees(r, expression_spec(lexemes(tk@), p as int), |e: Expr| e@),
        r matches Ok((_, q)) ==> p < q <= tk@.len(),
    decreases tk@.len() - p, 30int,
{
    binary(tk, p, 0)
}

fn binop_at(tk: &Vec<Spanned>, p: usize) -> (r: Option<(BinOp, u8, bool)>)
    ensures
        match (r, binop_of(peek(lexemes(tk@), p as int))) {
            (Some((op, level, right)), Some((op2, level2, right2))) => op == op2 && level as int == level2 && right == right2,
            (None, None) => true,
            _ => false,
        },
        r matches Some((_, level, _)) ==> 1 <= level <= 6,
{
    match token_at(tk, p) {
        Some(Token::Or) => Some((BinOp::Or, 1, false)),
        Some(Token::And) => Some((BinOp::And, 2, false)),
        Some(Token::Less) => Some((BinOp::Lt, 3, false)),
        Some(Token::Greater) => Some((BinOp::Gt, 3, false)),
        Some(Token::LessEq) => Some((BinOp::Le, 3, false)),
        Some(Token::GreaterEq) => Some((BinOp::Ge, 3, false)),
        Some(Token::EqEq) => Some((BinOp::Eq, 3, false)),
        Some(Token::NotEq) => Some((BinOp::Ne, 3, false)),
        Some(Token::Concat) => Some((BinOp::Concat, 4, true)),
        Some(Token::Plus) => Some((BinOp::Add, 5, false)),
        Some(Token::Minus) => Some((BinOp::Sub, 5, false)),
        Some(Token::Star) => Some((BinOp::Mul, 6, false)),
        Some(Token::Slash) => Some((BinOp::Div, 6, false)),
        Some(Token::Percent) => Some((BinOp::Mod, 6, false)),
        _ => None,
    }
}

fn binary(tk: &Vec<Spanned>, p: usize, min: u8) -> (r: Result<(Expr, usize), ParseError>)
    requires
        p <= tk@.len(),
        min <= 7,
    ensures
        agrees(r, binary_spec(lexemes(tk@), p as int, min as int), |e: Expr| e@),
        r matches Ok((_, q)) ==> p < q <= tk@.len(),
    decreases tk@.len() - p, 29int,
{
    let ghost t = lexemes(tk@);
    let (first, p2) = match unary(tk, p) {
        Ok(x) => x,
        Err(e) => {
            return Err(e);
        },
    };
    let mut left = first;
    let mut q = p2;
    loop
        invariant
            p < q <= tk@.len(),
            t == lexemes(tk@),
            binary_spec(t, p as int, min as int) == binary_rest_spec(t, q as int, min as int, left@),
        decreases tk@.len() - q,
    {
        if at(tk, q, &Token::Caret) {
            return Err(err(tk, q, "^ is fenced in v0.1 (D-052)"));
        }
        let (op, level, right_assoc) = match binop_at(tk, q) {
            None => {
                return Ok((left, q));
            },
            Some(x) => x,
        };
        if level < min {
            return Ok((left, q));
        }
        let sp = span(tk, q);
        let next_min = if right_assoc { level } else { level + 1 };
        match binary(tk, q + 1, next_min) {
            Err(e) => {
                return Err(e);
            },
            Ok((right, q2)) => {
                left = Expr::Binary(op, Box::new(left), Box::new(right), sp);
                q = q2;
            },
        }
    }
}

fn unop_at(tk: &Vec<Spanned>, p: usize) -> (r: Option<UnOp>)
    ensures
        r == unop_of(peek(lexemes(tk@), p as int)),
        r is Some ==> p < tk@.len() <= usize::MAX,
{
    match token_at(tk, p) {
        Some(Token::Not) => Some(UnOp::Not),
        Some(Token::Minus) => Some(UnOp::Neg),
        Some(Token::Hash) => Some(UnOp::Len),
        _ => None,
    }
}

#[verifier::rlimit(40)]
fn unary(tk: &Vec<Spanned>, p: usize) -> (r: Result<(Expr, usize), ParseError>)
    requires
        p <= tk@.len(),
    ensures
        agrees(r, unary_spec(lexemes(tk@), p as int), |e: Expr| e@),
        r matches Ok((_, q)) ==> p < q <= tk@.len(),
    decreases tk@.len() - p, 28int,
{
    match unop_at(tk, p) {
        Some(op) => {
            let sp = span(tk, p);
            match unary(tk, p + 1) {
                Err(e) => Err(e),
                Ok((x, q)) => Ok((Expr::Unary(op, Box::new(x), sp), q)),
            }
        },
        None => simple(tk, p),
    }
}

fn simple(tk: &Vec<Spanned>, p: usize) -> (r: Result<(Expr, usize), ParseError>)
    requires
        p <= tk@.len(),
    ensures
        agrees(r, simple_spec(lexemes(tk@), p as int), |e: Expr| e@),
        r matches Ok((_, q)) ==> p < q <= tk@.len(),
    decreases tk@.len() - p, 27int,
{
    let sp = span(tk, p);
    match token_at(tk, p) {
        Some(Token::Nil) => Ok((Expr::Nil(sp), p + 1)),
        Some(Token::True) => Ok((Expr::True(sp), p + 1)),
        Some(Token::False) => Ok((Expr::False(sp), p + 1)),
        Some(Token::Number(n)) => Ok((Expr::Num(clone_num(n), sp), p + 1)),
        Some(Token::Str(s)) => Ok((Expr::Str(s.clone(), sp), p + 1)),
        Some(Token::Function) => match function_body(tk, p + 1) {
            Err(e) => Err(e),
            Ok(((ps, body), q)) => Ok((Expr::Function(ps, body, sp), q)),
        },
        Some(Token::LBrace) => table(tk, p),
        _ => prefix(tk, p),
    }
}

fn clone_num(n: &NumLit) -> (c: NumLit)
    ensures
        num_model(c) == num_model(*n),
{
    match n {
        NumLit::Hex(v) => NumLit::Hex(*v),
        NumLit::Decimal(s) => NumLit::Decimal(s.clone()),
    }
}

#[verifier::rlimit(60)]
fn prefix(tk: &Vec<Spanned>, p: usize) -> (r: Result<(Expr, usize), ParseError>)
    requires
        p <= tk@.len(),
    ensures
        agrees(r, prefix_spec(lexemes(tk@), p as int), |e: Expr| e@),
        r matches Ok((_, q)) ==> p < q <= tk@.len(),
    decreases tk@.len() - p, 21int,
{
    let ghost t = lexemes(tk@);
    let sp = span(tk, p);
    let (first, p2) = match token_at(tk, p) {
        Some(Token::Name(n)) => (Expr::Name(n.clone(), sp), p + 1),
        Some(Token::LParen) => {
            let (inner, q) = match expression(tk, p + 1) {
                Ok(x) => x,
                Err(e) => {
                    return Err(e);
                },
            };
            let q2 = match expect(tk, q, &Token::RParen, ")") {
                Ok(x) => x,
                Err(e) => {
                    return Err(e);
                },
            };
            (inner, q2)
        },
        _ => {
            return Err(err(tk, p, "expected an expression"));
        },
    };
    let mut e = first;
    let mut q = p2;
    loop
        invariant
            p < q <= tk@.len(),
            t == lexemes(tk@),
            prefix_spec(t, p as int) == suffix_spec(t, q as int, e@),
        decreases tk@.len() - q,
    {
        let sq = span(tk, q);
        match token_at(tk, q) {
            Some(Token::Dot) => match name(tk, q + 1) {
                Err(x) => {
                    return Err(x);
                },
                Ok((field, q2)) => {
                    let ghost fm = field@;
                    let key = Expr::Str(field, sq);
                    assert(key@ == ExprModel::Str(fm, sq as int));
                    e = Expr::Index(Box::new(e), Box::new(key), sq);
                    q = q2;
                },
            },
            Some(Token::LBracket) => {
                let (key, q2) = match expression(tk, q + 1) {
                    Ok(x) => x,
                    Err(x) => {
                        return Err(x);
                    },
                };
                let q3 = match expect(tk, q2, &Token::RBracket, "]") {
                    Ok(x) => x,
                    Err(x) => {
                        return Err(x);
                    },
                };
                e = Expr::Index(Box::new(e), Box::new(key), sq);
                q = q3;
            },
            Some(Token::LParen) => {
                let (vs, q2) = if at(tk, q + 1, &Token::RParen) {
                    let v: Vec<Expr> = Vec::new();
                    proof {
                        assert(expr_models(v@) =~= Seq::<ExprModel>::empty());
                    }
                    (v, q + 1)
                } else {
                    match args(tk, q + 1) {
                        Ok(x) => x,
                        Err(x) => {
                            return Err(x);
                        },
                    }
                };
                let q3 = match expect(tk, q2, &Token::RParen, ")") {
                    Ok(x) => x,
                    Err(x) => {
                        return Err(x);
                    },
                };
                e = Expr::Call(Box::new(e), vs, sq);
                q = q3;
            },
            Some(Token::Str(_)) => {
                return Err(err(tk, q, "paren-free call sugar is fenced in v0.1 (D-052)"));
            },
            Some(Token::LBrace) => {
                return Err(err(tk, q, "paren-free call sugar is fenced in v0.1 (D-052)"));
            },
            Some(Token::Colon) => {
                return Err(err(tk, q, "method calls are fenced in v0.1 (D-052)"));
            },
            _ => {
                return Ok((e, q));
            },
        }
    }
}

fn args(tk: &Vec<Spanned>, p: usize) -> (r: Result<(Vec<Expr>, usize), ParseError>)
    requires
        p <= tk@.len(),
    ensures
        agrees(r, args_spec(lexemes(tk@), p as int, Seq::empty()), |v: Vec<Expr>| expr_models(v@)),
        r matches Ok((_, q)) ==> p < q <= tk@.len(),
    decreases tk@.len() - p, 31int,
{
    let ghost t = lexemes(tk@);
    let mut out: Vec<Expr> = Vec::new();
    let mut q = p;
    proof {
        assert(expr_models(out@) =~= Seq::<ExprModel>::empty());
    }
    loop
        invariant
            p <= q <= tk@.len(),
            t == lexemes(tk@),
            args_spec(t, p as int, Seq::empty()) == args_spec(t, q as int, expr_models(out@)),
        decreases tk@.len() - q,
    {
        match expression(tk, q) {
            Err(e) => {
                return Err(e);
            },
            Ok((x, q2)) => {
                proof {
                    lemma_expr_models_push(out@, x);
                }
                out.push(x);
                if at(tk, q2, &Token::Comma) {
                    q = q2 + 1;
                } else {
                    return Ok((out, q2));
                }
            },
        }
    }
}

fn table(tk: &Vec<Spanned>, p: usize) -> (r: Result<(Expr, usize), ParseError>)
    requires
        p <= tk@.len(),
    ensures
        agrees(r, table_spec(lexemes(tk@), p as int), |e: Expr| e@),
        r matches Ok((_, q)) ==> p < q <= tk@.len(),
    decreases tk@.len() - p, 26int,
{
    let ghost t = lexemes(tk@);
    let sp = span(tk, p);
    let p1 = match expect(tk, p, &Token::LBrace, "{") {
        Ok(x) => x,
        Err(e) => {
            return Err(e);
        },
    };
    let mut fields: Vec<Field> = Vec::new();
    let mut q = p1;
    proof {
        assert(field_models(fields@) =~= Seq::<FieldModel>::empty());
    }
    let ghost goal = fields_spec(t, p1 as int, Seq::empty());
    loop
        invariant
            p < p1 <= q <= tk@.len(),
            t == lexemes(tk@),
            goal == fields_spec(t, q as int, field_models(fields@)),
            table_spec(t, p as int) == match goal {
                Err(f) => Err(f),
                Ok((fs, q5)) => match expect_spec(t, q5, Token::RBrace, "}"@) {
                    Err(f) => Err(f),
                    Ok(q6) => Ok((ExprModel::Table(fs, sp as int), q6)),
                },
            },
            sp as int == span_at(t, p as int),
        decreases tk@.len() - q,
    {
        if at(tk, q, &Token::RBrace) {
            return Ok((Expr::Table(fields, sp), q + 1));
        }
        match field(tk, q) {
            Err(e) => {
                return Err(e);
            },
            Ok((fld, q2)) => {
                proof {
                    lemma_field_models_push(fields@, fld);
                }
                fields.push(fld);
                if at(tk, q2, &Token::Comma) || at(tk, q2, &Token::Semi) {
                    q = q2 + 1;
                } else {
                    return match expect(tk, q2, &Token::RBrace, "}") {
                        Ok(q3) => Ok((Expr::Table(fields, sp), q3)),
                        Err(e) => Err(e),
                    };
                }
            },
        }
    }
}

fn field(tk: &Vec<Spanned>, p: usize) -> (r: Result<(Field, usize), ParseError>)
    requires
        p <= tk@.len(),
    ensures
        agrees(r, field_spec(lexemes(tk@), p as int), |f: Field| field_model(f)),
        r matches Ok((_, q)) ==> p < q <= tk@.len(),
    decreases tk@.len() - p, 31int,
{
    match token_at(tk, p) {
        Some(Token::LBracket) => {
            let (k, q) = match expression(tk, p + 1) {
                Ok(x) => x,
                Err(e) => {
                    return Err(e);
                },
            };
            let q2 = match expect(tk, q, &Token::RBracket, "]") {
                Ok(x) => x,
                Err(e) => {
                    return Err(e);
                },
            };
            let q3 = match expect(tk, q2, &Token::Assign, "=") {
                Ok(x) => x,
                Err(e) => {
                    return Err(e);
                },
            };
            match expression(tk, q3) {
                Ok((v, q4)) => Ok((Field::Keyed(k, v), q4)),
                Err(e) => Err(e),
            }
        },
        Some(Token::Name(n)) => {
            if at(tk, p + 1, &Token::Assign) {
                let nm = n.clone();
                match expression(tk, p + 2) {
                    Ok((v, q)) => Ok((Field::Named(nm, v), q)),
                    Err(e) => Err(e),
                }
            } else {
                match expression(tk, p) {
                    Ok((v, q)) => Ok((Field::Positional(v), q)),
                    Err(e) => Err(e),
                }
            }
        },
        _ => match expression(tk, p) {
            Ok((v, q)) => Ok((Field::Positional(v), q)),
            Err(e) => Err(e),
        },
    }
}

} // verus!

verus! {

fn block_end(tk: &Vec<Spanned>, p: usize) -> (r: Result<(Vec<Stat>, usize), ParseError>)
    requires
        p <= tk@.len(),
    ensures
        agrees(r, block_end_spec(lexemes(tk@), p as int), |v: Vec<Stat>| stat_models(v@)),
        r matches Ok((_, q)) ==> p < q <= tk@.len(),
    decreases tk@.len() - p, 41int,
{
    let (b, q) = match block(tk, p) {
        Ok(x) => x,
        Err(e) => {
            return Err(e);
        },
    };
    match expect(tk, q, &Token::End, "end") {
        Ok(q1) => Ok((b, q1)),
        Err(e) => Err(e),
    }
}

fn one_name(n: String) -> (v: Vec<String>)
    ensures
        texts(v@) == seq![n@],
{
    let mut v: Vec<String> = Vec::new();
    v.push(n);
    proof {
        assert(texts(v@) =~= seq![n@]);
    }
    v
}

fn local_stat(tk: &Vec<Spanned>, p: usize, sp: usize) -> (r: Result<(Stat, usize), ParseError>)
    requires
        p <= tk@.len(),
    ensures
        agrees(r, local_spec(lexemes(tk@), p as int, sp as int), |s: Stat| s@),
        r matches Ok((_, q)) ==> p < q <= tk@.len(),
    decreases tk@.len() - p, 2int,
{
    if at(tk, p, &Token::Function) {
        let (n, q) = match name(tk, p + 1) {
            Ok(x) => x,
            Err(e) => {
                return Err(e);
            },
        };
        return match function_body(tk, q) {
            Ok(((ps, body), q2)) => Ok((Stat::LocalFunction(n, ps, body, sp), q2)),
            Err(e) => Err(e),
        };
    }
    let (n, q) = match name(tk, p) {
        Ok(x) => x,
        Err(e) => {
            return Err(e);
        },
    };
    if at(tk, q, &Token::Comma) {
        let (ns, q2) = match names(tk, q, one_name(n)) {
            Ok(x) => x,
            Err(e) => {
                return Err(e);
            },
        };
        let q3 = match expect(tk, q2, &Token::Assign, "=") {
            Ok(x) => x,
            Err(e) => {
                return Err(e);
            },
        };
        let (v, q4) = match expression(tk, q3) {
            Ok(x) => x,
            Err(e) => {
                return Err(e);
            },
        };
        if at(tk, q4, &Token::Comma) {
            return Err(err(tk, q4, "multi-expression RHS is fenced in v0.2 (D-058)"));
        }
        return Ok((Stat::LocalMulti(ns, v, sp), q4));
    }
    let q1 = match expect(tk, q, &Token::Assign, "= (locals require an initializer)") {
        Ok(x) => x,
        Err(e) => {
            return Err(e);
        },
    };
    match expression(tk, q1) {
        Ok((v, q2)) => Ok((Stat::Local(n, v, sp), q2)),
        Err(e) => Err(e),
    }
}

fn for_stat(tk: &Vec<Spanned>, p: usize, sp: usize) -> (r: Result<(Stat, usize), ParseError>)
    requires
        p <= tk@.len(),
    ensures
        agrees(r, for_spec(lexemes(tk@), p as int, sp as int), |s: Stat| s@),
        r matches Ok((_, q)) ==> p < q <= tk@.len(),
    decreases tk@.len() - p, 2int,
{
    let (v, q) = match name(tk, p) {
        Ok(x) => x,
        Err(e) => {
            return Err(e);
        },
    };
    if at(tk, q, &Token::Assign) {
        let (from, q1) = match expression(tk, q + 1) {
            Ok(x) => x,
            Err(e) => {
                return Err(e);
            },
        };
        let q2 = match expect(tk, q1, &Token::Comma, ",") {
            Ok(x) => x,
            Err(e) => {
                return Err(e);
            },
        };
        let (to, q3) = match expression(tk, q2) {
            Ok(x) => x,
            Err(e) => {
                return Err(e);
            },
        };
        let (step, q4) = if at(tk, q3, &Token::Comma) {
            match expression(tk, q3 + 1) {
                Ok((s, q4)) => (Some(s), q4),
                Err(e) => {
                    return Err(e);
                },
            }
        } else {
            (None, q3)
        };
        let q5 = match expect(tk, q4, &Token::Do, "do") {
            Ok(x) => x,
            Err(e) => {
                return Err(e);
            },
        };
        return match block_end(tk, q5) {
            Ok((body, q6)) => Ok((Stat::NumFor(v, from, to, step, body, sp), q6)),
            Err(e) => Err(e),
        };
    }
    if at(tk, q, &Token::Comma) || at(tk, q, &Token::In) {
        let (ns, q2) = match names(tk, q, one_name(v)) {
            Ok(x) => x,
            Err(e) => {
                return Err(e);
            },
        };
        let q3 = match expect(tk, q2, &Token::In, "in") {
            Ok(x) => x,
            Err(e) => {
                return Err(e);
            },
        };
        let (it, q4) = match expression(tk, q3) {
            Ok(x) => x,
            Err(e) => {
                return Err(e);
            },
        };
        if at(tk, q4, &Token::Comma) {
            return Err(err(tk, q4, "explicit iterator triples are fenced in v0.2 (D-058)"));
        }
        let q5 = match expect(tk, q4, &Token::Do, "do") {
            Ok(x) => x,
            Err(e) => {
                return Err(e);
            },
        };
        return match block_end(tk, q5) {
            Ok((body, q6)) => Ok((Stat::GenFor(ns, it, body, sp), q6)),
            Err(e) => Err(e),
        };
    }
    Err(err(tk, q, "malformed for"))
}

fn expr_stat(tk: &Vec<Spanned>, p: usize, sp: usize) -> (r: Result<(Stat, usize), ParseError>)
    requires
        p <= tk@.len(),
    ensures
        agrees(r, expr_stat_spec(lexemes(tk@), p as int, sp as int), |s: Stat| s@),
        r matches Ok((_, q)) ==> p < q <= tk@.len(),
    decreases tk@.len() - p, 22int,
{
    let (pre, q) = match prefix(tk, p) {
        Ok(x) => x,
        Err(e) => {
            return Err(e);
        },
    };
    if at(tk, q, &Token::Comma) {
        let first = match pre {
            Expr::Name(n, _) => n,
            _ => {
                return Err(err(tk, q, "multi-assignment targets are names only"));
            },
        };
        let (ns, q2) = match names(tk, q, one_name(first)) {
            Ok(x) => x,
            Err(e) => {
                return Err(e);
            },
        };
        let q3 = match expect(tk, q2, &Token::Assign, "=") {
            Ok(x) => x,
            Err(e) => {
                return Err(e);
            },
        };
        return match expression(tk, q3) {
            Ok((v, q4)) => Ok((Stat::AssignMulti(ns, v, sp), q4)),
            Err(e) => Err(e),
        };
    }
    if at(tk, q, &Token::Assign) {
        let (v, q2) = match expression(tk, q + 1) {
            Ok(x) => x,
            Err(e) => {
                return Err(e);
            },
        };
        return match pre {
            Expr::Name(n, _) => Ok((Stat::AssignName(n, v, sp), q2)),
            Expr::Index(tb, k, _) => Ok((Stat::AssignIndex(*tb, *k, v, sp), q2)),
            _ => Err(err(tk, q2, "cannot assign to this expression")),
        };
    }
    match pre {
        Expr::Call(f, a, s) => Ok((Stat::Call(Expr::Call(f, a, s), sp), q)),
        _ => Err(err(tk, q, "expression statements must be calls")),
    }
}

fn statement(tk: &Vec<Spanned>, p: usize) -> (r: Result<(Stat, usize), ParseError>)
    requires
        p <= tk@.len(),
    ensures
        agrees(r, statement_spec(lexemes(tk@), p as int), |s: Stat| s@),
        r matches Ok((_, q)) ==> p < q <= tk@.len(),
    decreases tk@.len() - p, 39int,
{
    let ghost t = lexemes(tk@);
    let sp = span(tk, p);
    if at(tk, p, &Token::Local) {
        return local_stat(tk, p + 1, sp);
    }
    if at(tk, p, &Token::Function) {
        let (n, q) = match name(tk, p + 1) {
            Ok(x) => x,
            Err(e) => {
                return Err(e);
            },
        };
        if at(tk, q, &Token::Dot) || at(tk, q, &Token::Colon) {
            return Err(err(tk, q, "method declarations are fenced in v0.1 (D-052)"));
        }
        return match function_body(tk, q) {
            Ok(((ps, body), q2)) => Ok((Stat::GlobalFunction(n, ps, body, sp), q2)),
            Err(e) => Err(e),
        };
    }
    if at(tk, p, &Token::If) {
        let (c, q) = match expression(tk, p + 1) {
            Ok(x) => x,
            Err(e) => {
                return Err(e);
            },
        };
        let q1 = match expect(tk, q, &Token::Then, "then") {
            Ok(x) => x,
            Err(e) => {
                return Err(e);
            },
        };
        let (b, q2) = match block(tk, q1) {
            Ok(x) => x,
            Err(e) => {
                return Err(e);
            },
        };
        let ghost first = (c@, stat_models(b@));
        let mut arms: Vec<(Expr, Vec<Stat>)> = Vec::new();
        arms.push((c, b));
        proof {
            assert(arm_models(arms@) =~= seq![first]);
        }
        let ghost goal = if_rest_spec(t, q2 as int, arm_models(arms@));
        let mut k = q2;
        loop
            invariant
                p < q2 <= k <= tk@.len(),
                t == lexemes(tk@),
                goal == if_rest_spec(t, k as int, arm_models(arms@)),
                statement_spec(t, p as int) == match goal {
                    Err(f) => Err(f),
                    Ok(((a, o), q3)) => Ok((StatModel::If(a, o, sp as int), q3)),
                },
            decreases tk@.len() - k,
        {
            if at(tk, k, &Token::Elseif) {
                let (c2, k1) = match expression(tk, k + 1) {
                    Ok(x) => x,
                    Err(e) => {
                        return Err(e);
                    },
                };
                let k2 = match expect(tk, k1, &Token::Then, "then") {
                    Ok(x) => x,
                    Err(e) => {
                        return Err(e);
                    },
                };
                let (b2, k3) = match block(tk, k2) {
                    Ok(x) => x,
                    Err(e) => {
                        return Err(e);
                    },
                };
                let arm = (c2, b2);
                proof {
                    assert(arm_models(arms@.push(arm)) =~= arm_models(arms@).push((arm.0@, stat_models(arm.1@))));
                }
                arms.push(arm);
                k = k3;
            } else if at(tk, k, &Token::Else) {
                let (b2, k1) = match block(tk, k + 1) {
                    Ok(x) => x,
                    Err(e) => {
                        return Err(e);
                    },
                };
                let k2 = match expect(tk, k1, &Token::End, "end") {
                    Ok(x) => x,
                    Err(e) => {
                        return Err(e);
                    },
                };
                return Ok((Stat::If(arms, Some(b2), sp), k2));
            } else if at(tk, k, &Token::End) {
                return Ok((Stat::If(arms, None, sp), k + 1));
            } else {
                return Err(err(tk, k, "expected elseif/else/end"));
            }
        }
    }
    if at(tk, p, &Token::While) {
        let (c, q) = match expression(tk, p + 1) {
            Ok(x) => x,
            Err(e) => {
                return Err(e);
            },
        };
        let q1 = match expect(tk, q, &Token::Do, "do") {
            Ok(x) => x,
            Err(e) => {
                return Err(e);
            },
        };
        return match block_end(tk, q1) {
            Ok((body, q2)) => Ok((Stat::While(c, body, sp), q2)),
            Err(e) => Err(e),
        };
    }
    if at(tk, p, &Token::For) {
        return for_stat(tk, p + 1, sp);
    }
    if at(tk, p, &Token::Do) {
        return match block_end(tk, p + 1) {
            Ok((body, q)) => Ok((Stat::Do(body, sp), q)),
            Err(e) => Err(e),
        };
    }
    if at(tk, p, &Token::Repeat) {
        let (body, q) = match block(tk, p + 1) {
            Ok(x) => x,
            Err(e) => {
                return Err(e);
            },
        };
        let q1 = match expect(tk, q, &Token::Until, "until") {
            Ok(x) => x,
            Err(e) => {
                return Err(e);
            },
        };
        return match expression(tk, q1) {
            Ok((c, q2)) => Ok((Stat::Repeat(body, c, sp), q2)),
            Err(e) => Err(e),
        };
    }
    if at(tk, p, &Token::Break) {
        return Ok((Stat::Break(sp), p + 1));
    }
    expr_stat(tk, p, sp)
}

/// Parses femto_lua source text into its chunk, a block.
pub fn parse(source: &str) -> (r: Result<Vec<Stat>, ParseError>)
    ensures
        match (r, parse_spec(source.spec_bytes())) {
            (Ok(b), Ok(m)) => stat_models(b@) == m,
            (Err(e), Err((o, msg))) => e.offset as int == o && e.message@ == msg,
            _ => false,
        },
{
    let tk = match lex(source) {
        Ok(v) => v,
        Err(e) => {
            return Err(ParseError { offset: e.offset, message: e.message });
        },
    };
    let (b, q) = match block(&tk, 0) {
        Ok(x) => x,
        Err(e) => {
            return Err(e);
        },
    };
    if q < tk.len() {
        return Err(err(&tk, q, "trailing input after chunk"));
    }
    Ok(b)
}

} // verus!

verus! {

/// The binary operator a token names.
pub open spec fn token_binop(k: Token) -> Option<BinOp> {
    match k {
        Token::Or => Some(BinOp::Or),
        Token::And => Some(BinOp::And),
        Token::Less => Some(BinOp::Lt),
        Token::Greater => Some(BinOp::Gt),
        Token::LessEq => Some(BinOp::Le),
        Token::GreaterEq => Some(BinOp::Ge),
        Token::EqEq => Some(BinOp::Eq),
        Token::NotEq => Some(BinOp::Ne),
        Token::Concat => Some(BinOp::Concat),
        Token::Plus => Some(BinOp::Add),
        Token::Minus => Some(BinOp::Sub),
        Token::Star => Some(BinOp::Mul),
        Token::Slash => Some(BinOp::Div),
        Token::Percent => Some(BinOp::Mod),
        _ => None,
    }
}

/// Nothing continues an expression at `p`: the tokens ran out, or a
/// `;`, `)`, `,` or `end` follows.
pub open spec fn expression_ends(t: Toks, p: int) -> bool {
    peek(t, p) is None || is_tok(t, p, Token::Semi) || is_tok(t, p, Token::RParen) || is_tok(t, p, Token::Comma)
        || is_tok(t, p, Token::End)
}

/// Binary operators other than `..` associate to the left: operands `a`,
/// `b`, `c` joined twice by one operator parse as `(a op b) op c`, each
/// node spanning its operator token; `..` associates to the right,
/// `a .. (b .. c)`.
pub proof fn law_binary_association(
    t: Toks,
    p: int,
    k: Token,
    a: ExprModel,
    p1: int,
    b: ExprModel,
    p2: int,
    c: ExprModel,
    p3: int,
)
    requires
        token_binop(k) is Some,
        unary_spec(t, p) == Ok::<(ExprModel, int), Fail>((a, p1)),
        p < p1,
        is_tok(t, p1, k),
        unary_spec(t, p1 + 1) == Ok::<(ExprModel, int), Fail>((b, p2)),
        p1 + 1 < p2,
        is_tok(t, p2, k),
        unary_spec(t, p2 + 1) == Ok::<(ExprModel, int), Fail>((c, p3)),
        p2 + 1 < p3 <= t.len(),
        expression_ends(t, p3),
    ensures
        k != Token::Concat ==> expression_spec(t, p) == Ok::<(ExprModel, int), Fail>((
            ExprModel::Binary(
                token_binop(k)->Some_0,
                Box::new(ExprModel::Binary(token_binop(k)->Some_0, Box::new(a), Box::new(b), span_at(t, p1))),
                Box::new(c),
                span_at(t, p2),
            ),
            p3,
        )),
        k == Token::Concat ==> expression_spec(t, p) == Ok::<(ExprModel, int), Fail>((
            ExprModel::Binary(
                BinOp::Concat,
                Box::new(a),
                Box::new(ExprModel::Binary(BinOp::Concat, Box::new(b), Box::new(c), span_at(t, p2))),
                span_at(t, p1),
            ),
            p3,
        )),
{
    let op = token_binop(k)->Some_0;
    let (_, level, right) = binop_of(Some(Lexeme::Other(k)))->Some_0;
    assert(binop_of(peek(t, p3)) is None && !is_tok(t, p3, Token::Caret));
    if k != Token::Concat {
        assert(binary_rest_spec(t, p3, level + 1, c) == Ok::<(ExprModel, int), Fail>((c, p3)));
        assert(binary_spec(t, p2 + 1, level + 1) == Ok::<(ExprModel, int), Fail>((c, p3)));
        let ab = ExprModel::Binary(op, Box::new(a), Box::new(b), span_at(t, p1));
        let abc = ExprModel::Binary(op, Box::new(ab), Box::new(c), span_at(t, p2));
        assert(binary_rest_spec(t, p3, 0, abc) == Ok::<(ExprModel, int), Fail>((abc, p3)));
        assert(binary_rest_spec(t, p2, 0, ab) == Ok::<(ExprModel, int), Fail>((abc, p3)));
        assert(binary_rest_spec(t, p2, level + 1, b) == Ok::<(ExprModel, int), Fail>((b, p2)));
        assert(binary_spec(t, p1 + 1, level + 1) == Ok::<(ExprModel, int), Fail>((b, p2)));
        assert(binary_rest_spec(t, p1, 0, a) == Ok::<(ExprModel, int), Fail>((abc, p3)));
        assert(binary_spec(t, p, 0) == Ok::<(ExprModel, int), Fail>((abc, p3)));
    } else {
        assert(binary_rest_spec(t, p3, 4, c) == Ok::<(ExprModel, int), Fail>((c, p3)));
        assert(binary_spec(t, p2 + 1, 4) == Ok::<(ExprModel, int), Fail>((c, p3)));
        let bc = ExprModel::Binary(BinOp::Concat, Box::new(b), Box::new(c), span_at(t, p2));
        assert(binary_rest_spec(t, p3, 4, bc) == Ok::<(ExprModel, int), Fail>((bc, p3)));
        assert(binary_rest_spec(t, p2, 4, b) == Ok::<(ExprModel, int), Fail>((bc, p3)));
        assert(binary_spec(t, p1 + 1, 4) == Ok::<(ExprModel, int), Fail>((bc, p3)));
        let abc = ExprModel::Binary(BinOp::Concat, Box::new(a), Box::new(bc), span_at(t, p1));
        assert(binary_rest_spec(t, p3, 0, abc) == Ok::<(ExprModel, int), Fail>((abc, p3)));
        assert(binary_rest_spec(t, p1, 0, a) == Ok::<(ExprModel, int), Fail>((abc, p3)));
        assert(binary_spec(t, p, 0) == Ok::<(ExprModel, int), Fail>((abc, p3)));
    }
}

} // verus!

verus! {

/// How tightly a binary operator token binds: `or`, then `and`, the
/// comparisons, `..`, `+ -`, and `* / %` tightest.
pub open spec fn token_rank(k: Token) -> int {
    match k {
        Token::Or => 1,
        Token::And => 2,
        Token::Less | Token::Greater | Token::LessEq | Token::GreaterEq | Token::EqEq | Token::NotEq => 3,
        Token::Concat => 4,
        Token::Plus | Token::Minus => 5,
        _ => 6,
    }
}

/// Two binary operators between three operands: the tighter one takes
/// the middle operand; at equal strength the left one does, except for
/// `..`, which leans right. So `a + b * c` is `a + (b * c)`, `a * b + c`
/// is `(a * b) + c`, `a - b + c` is `(a - b) + c` and `a .. b .. c` is
/// `a .. (b .. c)`.
pub proof fn law_binary_precedence(
    t: Toks,
    p: int,
    k1: Token,
    k2: Token,
    a: ExprModel,
    p1: int,
    b: ExprModel,
    p2: int,
    c: ExprModel,
    p3: int,
)
    requires
        token_binop(k1) is Some,
        token_binop(k2) is Some,
        unary_spec(t, p) == Ok::<(ExprModel, int), Fail>((a, p1)),
        p < p1,
        is_tok(t, p1, k1),
        unary_spec(t, p1 + 1) == Ok::<(ExprModel, int), Fail>((b, p2)),
        p1 + 1 < p2,
        is_tok(t, p2, k2),
        unary_spec(t, p2 + 1) == Ok::<(ExprModel, int), Fail>((c, p3)),
        p2 + 1 < p3 <= t.len(),
        expression_ends(t, p3),
    ensures
        token_rank(k1) < token_rank(k2) || (k1 == Token::Concat && k2 == Token::Concat) ==> expression_spec(t, p)
            == Ok::<(ExprModel, int), Fail>((
            ExprModel::Binary(
                token_binop(k1)->Some_0,
                Box::new(a),
                Box::new(ExprModel::Binary(token_binop(k2)->Some_0, Box::new(b), Box::new(c), span_at(t, p2))),
                span_at(t, p1),
            ),
            p3,
        )),
        token_rank(k1) > token_rank(k2) || (token_rank(k1) == token_rank(k2) && k1 != Token::Concat) ==> expression_spec(t, p)
            == Ok::<(ExprModel, int), Fail>((
            ExprModel::Binary(
                token_binop(k2)->Some_0,
                Box::new(ExprModel::Binary(token_binop(k1)->Some_0, Box::new(a), Box::new(b), span_at(t, p1))),
                Box::new(c),
                span_at(t, p2),
            ),
            p3,
        )),
{
    let o1 = token_binop(k1)->Some_0;
    let o2 = token_binop(k2)->Some_0;
    assert(binop_of(Some(Lexeme::Other(k1))) == Some((o1, token_rank(k1), k1 == Token::Concat)));
    assert(binop_of(Some(Lexeme::Other(k2))) == Some((o2, token_rank(k2), k2 == Token::Concat)));
    let l1 = token_rank(k1);
    let l2 = token_rank(k2);
    let m1 = if k1 == Token::Concat { l1 } else { l1 + 1 };
    let m2 = if k2 == Token::Concat { l2 } else { l2 + 1 };
    assert(binop_of(peek(t, p3)) is None && !is_tok(t, p3, Token::Caret));
    assert(binary_rest_spec(t, p3, m2, c) == Ok::<(ExprModel, int), Fail>((c, p3)));
    assert(binary_spec(t, p2 + 1, m2) == Ok::<(ExprModel, int), Fail>((c, p3)));
    if l2 >= m1 {
        let bc = ExprModel::Binary(o2, Box::new(b), Box::new(c), span_at(t, p2));
        let abc = ExprModel::Binary(o1, Box::new(a), Box::new(bc), span_at(t, p1));
        assert(binary_rest_spec(t, p3, m1, bc) == Ok::<(ExprModel, int), Fail>((bc, p3)));
        assert(binary_rest_spec(t, p2, m1, b) == Ok::<(ExprModel, int), Fail>((bc, p3)));
        assert(binary_spec(t, p1 + 1, m1) == Ok::<(ExprModel, int), Fail>((bc, p3)));
        assert(binary_rest_spec(t, p3, 0, abc) == Ok::<(ExprModel, int), Fail>((abc, p3)));
        assert(binary_rest_spec(t, p1, 0, a) == Ok::<(ExprModel, int), Fail>((abc, p3)));
        assert(binary_spec(t, p, 0) == Ok::<(ExprModel, int), Fail>((abc, p3)));
    } else {
        let ab = ExprModel::Binary(o1, Box::new(a), Box::new(b), span_at(t, p1));
        let abc = ExprModel::Binary(o2, Box::new(ab), Box::new(c), span_at(t, p2));
        assert(binary_rest_spec(t, p2, m1, b) == Ok::<(ExprModel, int), Fail>((b, p2)));
        assert(binary_spec(t, p1 + 1, m1) == Ok::<(ExprModel, int), Fail>((b, p2)));
        assert(binary_rest_spec(t, p3, 0, abc) == Ok::<(ExprModel, int), Fail>((abc, p3)));
        assert(binary_rest_spec(t, p2, 0, ab) == Ok::<(ExprModel, int), Fail>((abc, p3)));
        assert(binary_rest_spec(t, p1, 0, a) == Ok::<(ExprModel, int), Fail>((abc, p3)));
        assert(binary_spec(t, p, 0) == Ok::<(ExprModel, int), Fail>((abc, p3)));
    }
}

} // verus!
