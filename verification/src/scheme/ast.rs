//! Core forms for r7rs_core: the `Datum` stream parsed into a small
//! expression tree. Scope: define / lambda / if / let / let* / letrec /
//! begin, quote, parameterize (desugared here), guard, applications,
//! fixnum and boolean literals. `call/ec` and `error` are ordinary
//! applications; a later stage recognizes the primitive names.

use vstd::prelude::*;
use crate::scheme::reader::{Datum, DatumModel, Span, datum_model, lemma_list_model, models, read, read_spec, failure_message};
use crate::text::{chars_of, push_str, str_eq, string_of};

verus! {

#[derive(Debug)]
pub enum Expr {
    Int(i64, Span),
    Bool(bool, Span),
    Var(String, Span),
    If(Box<Expr>, Box<Expr>, Box<Expr>, Span),
    /// `let` (parallel), `let*` (sequential), `letrec` (recursive) —
    /// distinguished by [`LetKind`]; body is an implicit `begin`.
    Let(LetKind, Vec<(String, Expr)>, Vec<Expr>, Span),
    Lambda(Vec<String>, Vec<Expr>, Span),
    Begin(Vec<Expr>, Span),
    App(Box<Expr>, Vec<Expr>, Span),
    /// `(quote d)` / `'d` — the datum as data.
    Quote(Datum, Span),
    /// A string literal.
    Str(String, Span),
    /// `(guard (var clause… [else …]) body…)`. Clauses are `(test
    /// expr…)` pairs; `(test)` and `(test => proc)` are rejected at parse
    /// time.
    Guard {
        var: String,
        clauses: Vec<(Expr, Vec<Expr>)>,
        else_body: Option<Vec<Expr>>,
        body: Vec<Expr>,
        span: Span,
    },
}

#[derive(Clone, Copy, Debug, PartialEq, Eq)]
pub enum LetKind {
    Let,
    LetStar,
    LetRec,
}

/// A top-level form: a definition, or a bare expression to evaluate.
#[derive(Debug)]
pub enum Top {
    /// `(define name expr)` or `(define (name params…) body…)`.
    Define(String, Expr, Span),
    Expr(Expr),
}

/// The mathematical shape of an expression; spans as byte offsets.
pub enum ExprModel {
    Int(int, int, int),
    Bool(bool, int, int),
    Var(Seq<char>, int, int),
    If(Box<ExprModel>, Box<ExprModel>, Box<ExprModel>, int, int),
    Let(LetKind, Seq<(Seq<char>, ExprModel)>, Seq<ExprModel>, int, int),
    Lambda(Seq<Seq<char>>, Seq<ExprModel>, int, int),
    Begin(Seq<ExprModel>, int, int),
    App(Box<ExprModel>, Seq<ExprModel>, int, int),
    Quote(DatumModel, int, int),
    Str(Seq<char>, int, int),
    Guard(Seq<char>, Seq<(ExprModel, Seq<ExprModel>)>, Option<Seq<ExprModel>>, Seq<ExprModel>, int, int),
}

pub enum TopModel {
    Define(Seq<char>, ExprModel, int, int),
    Expr(ExprModel),
}

pub open spec fn texts(v: Seq<String>) -> Seq<Seq<char>> {
    v.map_values(|s: String| s@)
}

pub open spec fn expr_model(e: Expr) -> ExprModel
    decreases e,
{
    match e {
        Expr::Int(v, s) => ExprModel::Int(v as int, s.start as int, s.end as int),
        Expr::Bool(b, s) => ExprModel::Bool(b, s.start as int, s.end as int),
        Expr::Var(n, s) => ExprModel::Var(n@, s.start as int, s.end as int),
        Expr::If(a, b, c, s) => ExprModel::If(
            Box::new(expr_model(*a)),
            Box::new(expr_model(*b)),
            Box::new(expr_model(*c)),
            s.start as int,
            s.end as int,
        ),
        Expr::Let(k, binds, body, s) => ExprModel::Let(
            k,
            bind_models(binds@),
            expr_models(body@),
            s.start as int,
            s.end as int,
        ),
        Expr::Lambda(params, body, s) => ExprModel::Lambda(
            texts(params@),
            expr_models(body@),
            s.start as int,
            s.end as int,
        ),
        Expr::Begin(body, s) => ExprModel::Begin(expr_models(body@), s.start as int, s.end as int),
        Expr::App(f, args, s) => ExprModel::App(
            Box::new(expr_model(*f)),
            expr_models(args@),
            s.start as int,
            s.end as int,
        ),
        Expr::Quote(d, s) => ExprModel::Quote(datum_model(d), s.start as int, s.end as int),
        Expr::Str(t, s) => ExprModel::Str(t@, s.start as int, s.end as int),
        Expr::Guard { var, clauses, else_body, body, span } => ExprModel::Guard(
            var@,
            clause_models(clauses@),
            match else_body {
                None => None,
                Some(v) => Some(expr_models(v@)),
            },
            expr_models(body@),
            span.start as int,
            span.end as int,
        ),
    }
}

/// The models of a sequence of expressions, in order.
pub open spec fn expr_models(v: Seq<Expr>) -> Seq<ExprModel>
    decreases v,
{
    Seq::new(v.len(), |i: int| if 0 <= i < v.len() { expr_model(v[i]) } else { ExprModel::Int(0, 0, 0) })
}

pub open spec fn bind_models(v: Seq<(String, Expr)>) -> Seq<(Seq<char>, ExprModel)>
    decreases v,
{
    Seq::new(v.len(), |i: int| if 0 <= i < v.len() {
        (v[i].0@, expr_model(v[i].1))
    } else {
        (Seq::empty(), ExprModel::Int(0, 0, 0))
    })
}

pub open spec fn clause_models(v: Seq<(Expr, Vec<Expr>)>) -> Seq<(ExprModel, Seq<ExprModel>)>
    decreases v,
{
    Seq::new(v.len(), |i: int| if 0 <= i < v.len() {
        (expr_model(v[i].0), expr_models(v[i].1@))
    } else {
        (ExprModel::Int(0, 0, 0), Seq::empty())
    })
}

impl View for Expr {
    type V = ExprModel;

    open spec fn view(&self) -> ExprModel {
        expr_model(*self)
    }
}

} // verus!

verus! {

pub open spec fn sym(d: DatumModel) -> Option<Seq<char>> {
    match d {
        DatumModel::Symbol(n, _, _) => Some(n),
        _ => None,
    }
}

pub open spec fn is_sym(d: DatumModel, name: Seq<char>) -> bool {
    sym(d) == Some(name)
}

/// Parses a datum as an expression.
pub open spec fn parse_expr_spec(d: DatumModel) -> Result<ExprModel, Seq<char>>
    decreases d, 0int,
{
    match d {
        DatumModel::Int(v, s, e) => Ok(ExprModel::Int(v, s, e)),
        DatumModel::Bool(b, s, e) => Ok(ExprModel::Bool(b, s, e)),
        DatumModel::Symbol(n, s, e) => Ok(ExprModel::Var(n, s, e)),
        DatumModel::List(items, s, e) => parse_list_spec(items, s, e),
    }
}

/// Parses each datum in turn; the first failure wins.
pub open spec fn parse_exprs_spec(items: Seq<DatumModel>) -> Result<Seq<ExprModel>, Seq<char>>
    decreases items, 0int,
{
    if items.len() == 0 {
        Ok(Seq::empty())
    } else {
        match parse_expr_spec(items[0]) {
            Err(m) => Err(m),
            Ok(x) => match parse_exprs_spec(items.subrange(1, items.len() as int)) {
                Err(m) => Err(m),
                Ok(rest) => Ok(seq![x] + rest),
            },
        }
    }
}

/// A body: one or more expressions.
pub open spec fn parse_body_spec(items: Seq<DatumModel>) -> Result<Seq<ExprModel>, Seq<char>>
    decreases items, 1int,
{
    if items.len() == 0 {
        Err("a body needs at least one expression"@)
    } else {
        parse_exprs_spec(items)
    }
}

pub open spec fn tail(items: Seq<DatumModel>, k: int) -> Seq<DatumModel> {
    if k <= items.len() { items.subrange(k, items.len() as int) } else { Seq::empty() }
}

/// Parameter names: every datum must be a symbol.
pub open spec fn symbol_names(items: Seq<DatumModel>) -> Option<Seq<Seq<char>>>
    decreases items.len(),
{
    if items.len() == 0 {
        Some(Seq::empty())
    } else {
        match (sym(items[0]), symbol_names(items.subrange(1, items.len() as int))) {
            (Some(n), Some(rest)) => Some(seq![n] + rest),
            _ => None,
        }
    }
}

/// A list form by its head.
pub open spec fn parse_list_spec(items: Seq<DatumModel>, s: int, e: int) -> Result<ExprModel, Seq<char>>
    decreases items, 2int,
{
    if items.len() == 0 {
        Err("() is not a valid expression"@)
    } else if is_sym(items[0], "if"@) {
        if items.len() != 4 {
            Err("if takes exactly (if test then else) in v0"@)
        } else {
            match (parse_expr_spec(items[1]), parse_expr_spec(items[2]), parse_expr_spec(items[3])) {
                (Err(m), _, _) => Err(m),
                (Ok(_), Err(m), _) => Err(m),
                (Ok(_), Ok(_), Err(m)) => Err(m),
                (Ok(a), Ok(b), Ok(c)) => Ok(ExprModel::If(Box::new(a), Box::new(b), Box::new(c), s, e)),
            }
        }
    } else if is_sym(items[0], "lambda"@) {
        if items.len() < 2 {
            Err("lambda expects a parameter list"@)
        } else {
            match items[1] {
                DatumModel::List(params, _, _) => match symbol_names(params) {
                    None => Err("lambda parameters are symbols"@),
                    Some(names) => match parse_body_spec(tail(items, 2)) {
                        Err(m) => Err(m),
                        Ok(body) => Ok(ExprModel::Lambda(names, body, s, e)),
                    },
                },
                _ => Err("lambda expects a parameter list"@),
            }
        }
    } else if is_sym(items[0], "begin"@) {
        match parse_body_spec(tail(items, 1)) {
            Err(m) => Err(m),
            Ok(body) => Ok(ExprModel::Begin(body, s, e)),
        }
    } else if is_sym(items[0], "let"@) {
        parse_let_spec(LetKind::Let, items, s, e)
    } else if is_sym(items[0], "let*"@) {
        parse_let_spec(LetKind::LetStar, items, s, e)
    } else if is_sym(items[0], "letrec"@) {
        parse_let_spec(LetKind::LetRec, items, s, e)
    } else if is_sym(items[0], "parameterize"@) {
        parse_parameterize_spec(items, s, e)
    } else if is_sym(items[0], "guard"@) {
        parse_guard_spec(items, s, e)
    } else if is_sym(items[0], "define"@) {
        Err("nested define is fenced in r7rs_core v0"@)
    } else if is_sym(items[0], "quote"@) {
        if items.len() != 2 {
            Err("quote takes exactly one datum"@)
        } else {
            Ok(ExprModel::Quote(items[1], s, e))
        }
    } else {
        match parse_expr_spec(items[0]) {
            Err(m) => Err(m),
            Ok(callee) => match parse_exprs_spec(tail(items, 1)) {
                Err(m) => Err(m),
                Ok(args) => Ok(ExprModel::App(Box::new(callee), args, s, e)),
            },
        }
    }
}

/// `let` bindings: each pair is `(name expr)`.
pub open spec fn let_bindings_spec(pairs: Seq<DatumModel>) -> Result<Seq<(Seq<char>, ExprModel)>, Seq<char>>
    decreases pairs, 0int,
{
    if pairs.len() == 0 {
        Ok(Seq::empty())
    } else {
        let first = match pairs[0] {
            DatumModel::List(kv, _, _) => if kv.len() == 2 && sym(kv[0]) is Some {
                match parse_expr_spec(kv[1]) {
                    Err(m) => Err(m),
                    Ok(v) => Ok((sym(kv[0])->0, v)),
                }
            } else {
                Err("a let binding is (name expr)"@)
            },
            _ => Err("a let binding is (name expr)"@),
        };
        match first {
            Err(m) => Err(m),
            Ok(b) => match let_bindings_spec(pairs.subrange(1, pairs.len() as int)) {
                Err(m) => Err(m),
                Ok(rest) => Ok(seq![b] + rest),
            },
        }
    }
}

pub open spec fn parse_let_spec(kind: LetKind, items: Seq<DatumModel>, s: int, e: int) -> Result<ExprModel, Seq<char>>
    decreases items, 1int,
{
    if items.len() < 2 {
        Err("let expects a binding list"@)
    } else {
        match items[1] {
            DatumModel::List(pairs, _, _) => match let_bindings_spec(pairs) {
                Err(m) => Err(m),
                Ok(binds) => match parse_body_spec(tail(items, 2)) {
                    Err(m) => Err(m),
                    Ok(body) => Ok(ExprModel::Let(kind, binds, body, s, e)),
                },
            },
            _ => Err("let expects a binding list"@),
        }
    }
}

} // verus!

verus! {

pub open spec fn param_pairs_spec(pairs: Seq<DatumModel>) -> Result<Seq<(ExprModel, ExprModel)>, Seq<char>>
    decreases pairs, 0int,
{
    if pairs.len() == 0 {
        Ok(Seq::empty())
    } else {
        let first = match pairs[0] {
            DatumModel::List(kv, _, _) => if kv.len() == 2 {
                match parse_expr_spec(kv[0]) {
                    Err(m) => Err(m),
                    Ok(p) => match parse_expr_spec(kv[1]) {
                        Err(m) => Err(m),
                        Ok(v) => Ok((p, v)),
                    },
                }
            } else {
                Err("a parameterize binding is (param expr)"@)
            },
            _ => Err("a parameterize binding is (param expr)"@),
        };
        match first {
            Err(m) => Err(m),
            Ok(b) => match param_pairs_spec(pairs.subrange(1, pairs.len() as int)) {
                Err(m) => Err(m),
                Ok(rest) => Ok(seq![b] + rest),
            },
        }
    }
}

/// The synthesized name of a parameterize temporary: a leading space
/// (unspellable in source), the kind, the site's start offset, `_`,
/// and the binding's index.
pub open spec fn gname(kind: Seq<char>, start: int, index: int) -> Seq<char> {
    " "@ + kind + crate::harness::canon::decimal_digits(start as nat) + "_"@
        + crate::harness::canon::decimal_digits(index as nat)
}

pub open spec fn raw_set(s: int, e: int, index: int, arg: Seq<char>) -> ExprModel {
    ExprModel::App(
        Box::new(ExprModel::Var(gname("prm"@, s, index), s, e)),
        seq![ExprModel::Var(arg, s, e), ExprModel::Int(0, s, e)],
        s,
        e,
    )
}

/// `(prm_i param_i)` for every binding.
pub open spec fn prm_binds(bs: Seq<(ExprModel, ExprModel)>, s: int) -> Seq<(Seq<char>, ExprModel)> {
    Seq::new(bs.len(), |i: int| (gname("prm"@, s, i), bs[i].0))
}

/// `(new_i value_i)` for every binding.
pub open spec fn new_binds(bs: Seq<(ExprModel, ExprModel)>, s: int) -> Seq<(Seq<char>, ExprModel)> {
    Seq::new(bs.len(), |i: int| (gname("new"@, s, i), bs[i].1))
}

/// The read of parameter `index`'s current value: `(prm_index)`.
pub open spec fn old_read(s: int, e: int, index: int) -> ExprModel {
    ExprModel::App(Box::new(ExprModel::Var(gname("prm"@, s, index), s, e)), Seq::empty(), s, e)
}

/// `(old_i (prm_i))` for every binding.
pub open spec fn old_binds(n: nat, s: int, e: int) -> Seq<(Seq<char>, ExprModel)> {
    Seq::new(n, |i: int| (gname("old"@, s, i), old_read(s, e, i)))
}

/// The raw sets of the new values, first to last.
pub open spec fn raw_sets(n: nat, s: int, e: int) -> Seq<ExprModel> {
    Seq::new(n, |i: int| raw_set(s, e, i, gname("new"@, s, i)))
}

/// The raw restores of the old values, last to first.
pub open spec fn raw_restores(n: nat, s: int, e: int) -> Seq<ExprModel> {
    Seq::new(n, |i: int| raw_set(s, e, n - 1 - i, gname("old"@, s, n - 1 - i)))
}

pub open spec fn thunk(body: Seq<ExprModel>, s: int, e: int) -> ExprModel {
    ExprModel::Lambda(Seq::empty(), body, s, e)
}

pub open spec fn wind(body: Seq<ExprModel>, n: nat, s: int, e: int) -> ExprModel {
    ExprModel::App(
        Box::new(ExprModel::Var("dynamic-wind"@, s, e)),
        seq![
            thunk(seq![ExprModel::Bool(false, s, e)], s, e),
            thunk(body, s, e),
            thunk(raw_restores(n, s, e), s, e),
        ],
        s,
        e,
    )
}

/// `(parameterize ((p v) …) body…)` desugared onto existing nodes: all
/// parameter expressions, then all values, then all old reads bound in
/// a `let*`; raw sets of the new values; then `dynamic-wind` with a
/// no-op before, the body, and a last-in-first-out raw restore.
pub open spec fn desugar_parameterize(bs: Seq<(ExprModel, ExprModel)>, body: Seq<ExprModel>, s: int, e: int) -> ExprModel {
    ExprModel::Let(
        LetKind::LetStar,
        prm_binds(bs, s) + new_binds(bs, s) + old_binds(bs.len(), s, e),
        raw_sets(bs.len(), s, e).push(wind(body, bs.len(), s, e)),
        s,
        e,
    )
}

pub open spec fn parse_parameterize_spec(items: Seq<DatumModel>, s: int, e: int) -> Result<ExprModel, Seq<char>>
    decreases items, 1int,
{
    if items.len() < 2 {
        Err("parameterize expects a binding list"@)
    } else {
        match items[1] {
            DatumModel::List(pairs, _, _) => match param_pairs_spec(pairs) {
                Err(m) => Err(m),
                Ok(bs) => if bs.len() == 0 {
                    Err("parameterize needs at least one binding"@)
                } else {
                    match parse_body_spec(tail(items, 2)) {
                        Err(m) => Err(m),
                        Ok(body) => Ok(desugar_parameterize(bs, body, s, e)),
                    }
                },
            },
            _ => Err("parameterize expects a binding list"@),
        }
    }
}

/// The clauses of a guard spec: `(test expr…)` pairs and a final
/// optional `(else expr…)`.
pub open spec fn guard_clauses_spec(
    clauses: Seq<DatumModel>,
    acc: Seq<(ExprModel, Seq<ExprModel>)>,
    else_body: Option<Seq<ExprModel>>,
) -> Result<(Seq<(ExprModel, Seq<ExprModel>)>, Option<Seq<ExprModel>>), Seq<char>>
    decreases clauses, 0int,
{
    if clauses.len() == 0 {
        Ok((acc, else_body))
    } else {
        let rest_clauses = clauses.subrange(1, clauses.len() as int);
        match clauses[0] {
            DatumModel::List(kv, _, _) => if else_body is Some {
                Err("guard's else clause must be last"@)
            } else if kv.len() >= 1 && is_sym(kv[0], "else"@) {
                if kv.len() == 1 {
                    Err("guard's else clause needs a body"@)
                } else {
                    match parse_body_spec(kv.subrange(1, kv.len() as int)) {
                        Err(m) => Err(m),
                        Ok(b) => guard_clauses_spec(rest_clauses, acc, Some(b)),
                    }
                }
            } else if kv.len() >= 2 && is_sym(kv[1], "=>"@) {
                Err("guard (test => proc) clauses are fenced in v0.4 (D-081)"@)
            } else if kv.len() >= 1 {
                if kv.len() == 1 {
                    Err("guard (test) clauses without expressions are fenced in v0.4 (D-081) — a bare test yields the test's value in R7RS and a lax parse would silently diverge"@)
                } else {
                    match parse_expr_spec(kv[0]) {
                        Err(m) => Err(m),
                        Ok(test) => match parse_body_spec(kv.subrange(1, kv.len() as int)) {
                            Err(m) => Err(m),
                            Ok(b) => guard_clauses_spec(rest_clauses, acc.push((test, b)), else_body),
                        },
                    }
                }
            } else {
                Err("a guard clause is (test expr…)"@)
            },
            _ => Err("a guard clause is (test expr…) or (else expr…)"@),
        }
    }
}

pub open spec fn parse_guard_spec(items: Seq<DatumModel>, s: int, e: int) -> Result<ExprModel, Seq<char>>
    decreases items, 1int,
{
    if items.len() < 2 || !(items[1] is List) {
        Err("guard expects a (var clause…) spec"@)
    } else {
        let spec_items = items[1]->List_0;
        if spec_items.len() == 0 || !(sym(spec_items[0]) is Some) {
            Err("guard's spec starts with the condition variable"@)
        } else {
            match guard_clauses_spec(spec_items.subrange(1, spec_items.len() as int), Seq::empty(), None) {
                Err(m) => Err(m),
                Ok((clauses, else_body)) => if clauses.len() == 0 && else_body is None {
                    Err("guard needs at least one clause"@)
                } else {
                    match parse_body_spec(tail(items, 2)) {
                        Err(m) => Err(m),
                        Ok(body) => Ok(ExprModel::Guard(sym(spec_items[0])->0, clauses, else_body, body, s, e)),
                    }
                },
            }
        }
    }
}

} // verus!

verus! {

pub open spec fn expr_result(r: Result<Expr, String>, m: Result<ExprModel, Seq<char>>) -> bool {
    match (r, m) {
        (Ok(x), Ok(y)) => x@ == y,
        (Err(a), Err(b)) => a@ == b,
        _ => false,
    }
}

pub open spec fn exprs_result(r: Result<Vec<Expr>, String>, m: Result<Seq<ExprModel>, Seq<char>>) -> bool {
    match (r, m) {
        (Ok(x), Ok(y)) => expr_models(x@) == y,
        (Err(a), Err(b)) => a@ == b,
        _ => false,
    }
}

/// `acc` in front of a successful result; a failure stays as it is.
pub open spec fn prefixed<T>(acc: Seq<T>, r: Result<Seq<T>, Seq<char>>) -> Result<Seq<T>, Seq<char>> {
    match r {
        Ok(rest) => Ok(acc + rest),
        Err(m) => Err(m),
    }
}

proof fn lemma_expr_models_push(v: Seq<Expr>, x: Expr)
    ensures
        expr_models(v.push(x)) == expr_models(v).push(x@),
{
    assert(expr_models(v.push(x)) =~= expr_models(v).push(x@));
}

proof fn lemma_prefixed_step<T>(acc: Seq<T>, x: T, r: Result<Seq<T>, Seq<char>>)
    ensures
        prefixed(acc, match r {
            Ok(rest) => Ok(seq![x] + rest),
            Err(m) => Err(m),
        }) == prefixed(acc.push(x), r),
{
    if let Ok(rest) = r {
        assert(acc + (seq![x] + rest) =~= acc.push(x) + rest);
    }
}

proof fn lemma_models_tail(items: Seq<Datum>, i: int)
    requires
        0 <= i < items.len(),
    ensures
        models(items).subrange(i, items.len() as int).len() > 0,
        models(items).subrange(i, items.len() as int)[0] == items[i]@,
        models(items).subrange(i, items.len() as int).subrange(1, items.len() - i)
            == models(items).subrange(i + 1, items.len() as int),
{
    assert(models(items).subrange(i, items.len() as int).subrange(1, items.len() - i)
        =~= models(items).subrange(i + 1, items.len() as int));
}

/// A copy of a datum.
fn clone_datum(d: &Datum) -> (c: Datum)
    ensures
        c@ == d@,
    decreases d, 0int,
{
    match d {
        Datum::Symbol(n, s) => Datum::Symbol(n.clone(), *s),
        Datum::Int(v, s) => Datum::Int(*v, *s),
        Datum::Bool(b, s) => Datum::Bool(*b, *s),
        Datum::List(items, s) => {
            let out = clone_items(items);
            proof {
                lemma_list_model(out, *s);
                lemma_list_model(*items, *s);
            }
            Datum::List(out, *s)
        },
    }
}

/// A copy of each datum of `items`.
fn clone_items(items: &Vec<Datum>) -> (out: Vec<Datum>)
    ensures
        models(out@) == models(items@),
    decreases items, 1int,
{
    let mut out: Vec<Datum> = Vec::new();
    let mut i: usize = 0;
    while i < items.len()
        invariant
            i <= items@.len(),
            out@.len() == i,
            forall|j: int| 0 <= j < i ==> #[trigger] out@[j]@ == items@[j]@,
        decreases items@.len() - i,
    {
        let c = clone_datum(&items[i]);
        out.push(c);
        i = i + 1;
    }
    assert(models(out@) =~= models(items@));
    out
}

/// Whether `d` is the symbol `name`.
fn is_symbol_named(d: &Datum, name: &str) -> (b: bool)
    ensures
        b == is_sym(d@, name@),
{
    match d {
        Datum::Symbol(n, _) => str_eq(n.as_str(), name),
        _ => false,
    }
}

fn parse_expr(d: &Datum) -> (r: Result<Expr, String>)
    ensures
        expr_result(r, parse_expr_spec(d@)),
    decreases d, 0int,
{
    match d {
        Datum::Int(v, s) => Ok(Expr::Int(*v, *s)),
        Datum::Bool(b, s) => Ok(Expr::Bool(*b, *s)),
        Datum::Symbol(n, s) => Ok(Expr::Var(n.clone(), *s)),
        Datum::List(items, s) => {
            proof {
                lemma_list_model(*items, *s);
            }
            parse_list(items, *s)
        },
    }
}

/// Parses `items[from..]` as expressions; the first failure wins.
fn parse_exprs(items: &Vec<Datum>, from: usize) -> (r: Result<Vec<Expr>, String>)
    requires
        from <= items@.len(),
    ensures
        exprs_result(r, parse_exprs_spec(models(items@).subrange(from as int, items@.len() as int))),
    decreases items, 1int,
{
    let ghost m = models(items@);
    let ghost n = items@.len() as int;
    let mut out: Vec<Expr> = Vec::new();
    let mut i = from;
    assert(expr_models(out@) =~= Seq::<ExprModel>::empty());
    assert(Seq::<ExprModel>::empty() + Seq::<ExprModel>::empty() =~= Seq::<ExprModel>::empty());
    while i < items.len()
        invariant
            from <= i <= n,
            n == items@.len(),
            m == models(items@),
            parse_exprs_spec(m.subrange(from as int, n)) == prefixed(expr_models(out@), parse_exprs_spec(m.subrange(i as int, n))),
        decreases n - i,
    {
        proof {
            lemma_models_tail(items@, i as int);
        }
        match parse_expr(&items[i]) {
            Ok(x) => {
                proof {
                    lemma_prefixed_step(expr_models(out@), x@, parse_exprs_spec(m.subrange(i + 1, n)));
                    lemma_expr_models_push(out@, x);
                }
                out.push(x);
                i = i + 1;
            },
            Err(e) => {
                return Err(e);
            },
        }
    }
    proof {
        assert(m.subrange(i as int, n) =~= Seq::<DatumModel>::empty());
        assert(expr_models(out@) + Seq::<ExprModel>::empty() =~= expr_models(out@));
    }
    Ok(out)
}

/// A body: `items[from..]`, one or more expressions.
fn parse_body(items: &Vec<Datum>, from: usize) -> (r: Result<Vec<Expr>, String>)
    requires
        from <= items@.len(),
    ensures
        exprs_result(r, parse_body_spec(models(items@).subrange(from as int, items@.len() as int))),
    decreases items, 2int,
{
    if from == items.len() {
        return Err("a body needs at least one expression".to_owned());
    }
    parse_exprs(items, from)
}


pub open spec fn opt_prefixed<T>(acc: Seq<T>, o: Option<Seq<T>>) -> Option<Seq<T>> {
    match o {
        Some(rest) => Some(acc + rest),
        None => None,
    }
}

/// The names of `items`, when every item is a symbol.
fn symbol_texts(items: &Vec<Datum>) -> (r: Option<Vec<String>>)
    ensures
        match (r, symbol_names(models(items@))) {
            (Some(v), Some(n)) => texts(v@) == n,
            (None, None) => true,
            _ => false,
        },
{
    let ghost m = models(items@);
    let ghost n = items@.len() as int;
    let mut out: Vec<String> = Vec::new();
    let mut i: usize = 0;
    proof {
        assert(m.subrange(0, n) =~= m);
        assert(texts(out@) + Seq::<Seq<char>>::empty() =~= texts(out@));
    }
    while i < items.len()
        invariant
            i <= n,
            n == items@.len(),
            m == models(items@),
            symbol_names(m) == opt_prefixed(texts(out@), symbol_names(m.subrange(i as int, n))),
        decreases n - i,
    {
        proof {
            lemma_models_tail(items@, i as int);
        }
        match &items[i] {
            Datum::Symbol(name, _) => {
                let t = name.clone();
                proof {
                    assert(texts(out@.push(t)) =~= texts(out@).push(t@));
                    if let Some(rest) = symbol_names(m.subrange(i + 1, n)) {
                        assert(texts(out@) + (seq![t@] + rest) =~= texts(out@).push(t@) + rest);
                    }
                }
                out.push(t);
                i = i + 1;
            },
            _ => {
                return None;
            },
        }
    }
    proof {
        assert(m.subrange(i as int, n) =~= Seq::<DatumModel>::empty());
        assert(texts(out@) + Seq::<Seq<char>>::empty() =~= texts(out@));
    }
    Some(out)
}

/// A list form, dispatched on its head.
fn parse_list(items: &Vec<Datum>, span: Span) -> (r: Result<Expr, String>)
    ensures
        expr_result(r, parse_list_spec(models(items@), span.start as int, span.end as int)),
    decreases items, 4int,
{
    let ghost m = models(items@);
    if items.len() == 0 {
        return Err("() is not a valid expression".to_owned());
    }
    assert(m[0] == items@[0]@);
    if is_symbol_named(&items[0], "if") {
        return parse_if(items, span);
    }
    if is_symbol_named(&items[0], "lambda") {
        return parse_lambda(items, span);
    }
    if is_symbol_named(&items[0], "begin") {
        return match parse_body(items, 1) {
            Ok(b) => Ok(Expr::Begin(b, span)),
            Err(x) => Err(x),
        };
    }
    if is_symbol_named(&items[0], "let") {
        return parse_let(LetKind::Let, items, span);
    }
    if is_symbol_named(&items[0], "let*") {
        return parse_let(LetKind::LetStar, items, span);
    }
    if is_symbol_named(&items[0], "letrec") {
        return parse_let(LetKind::LetRec, items, span);
    }
    if is_symbol_named(&items[0], "parameterize") {
        return parse_parameterize(items, span);
    }
    if is_symbol_named(&items[0], "guard") {
        return parse_guard(items, span);
    }
    if is_symbol_named(&items[0], "define") {
        return Err("nested define is fenced in r7rs_core v0".to_owned());
    }
    if is_symbol_named(&items[0], "quote") {
        if items.len() != 2 {
            return Err("quote takes exactly one datum".to_owned());
        }
        assert(m[1] == items@[1]@);
        return Ok(Expr::Quote(clone_datum(&items[1]), span));
    }
    let callee = match parse_expr(&items[0]) {
        Ok(c) => c,
        Err(x) => {
            return Err(x);
        },
    };
    match parse_exprs(items, 1) {
        Ok(args) => Ok(Expr::App(Box::new(callee), args, span)),
        Err(x) => Err(x),
    }
}

fn parse_if(items: &Vec<Datum>, span: Span) -> (r: Result<Expr, String>)
    requires
        items@.len() >= 1,
        is_sym(models(items@)[0], "if"@),
    ensures
        expr_result(r, parse_list_spec(models(items@), span.start as int, span.end as int)),
    decreases items, 3int,
{
    if items.len() != 4 {
        return Err("if takes exactly (if test then else) in v0".to_owned());
    }
    assert(models(items@)[1] == items@[1]@);
    assert(models(items@)[2] == items@[2]@);
    assert(models(items@)[3] == items@[3]@);
    let a = match parse_expr(&items[1]) {
        Ok(x) => x,
        Err(x) => {
            return Err(x);
        },
    };
    let b = match parse_expr(&items[2]) {
        Ok(x) => x,
        Err(x) => {
            return Err(x);
        },
    };
    let c = match parse_expr(&items[3]) {
        Ok(x) => x,
        Err(x) => {
            return Err(x);
        },
    };
    Ok(Expr::If(Box::new(a), Box::new(b), Box::new(c), span))
}

fn parse_lambda(items: &Vec<Datum>, span: Span) -> (r: Result<Expr, String>)
    requires
        items@.len() >= 1,
        !is_sym(models(items@)[0], "if"@),
        is_sym(models(items@)[0], "lambda"@),
    ensures
        expr_result(r, parse_list_spec(models(items@), span.start as int, span.end as int)),
    decreases items, 3int,
{
    if items.len() < 2 {
        return Err("lambda expects a parameter list".to_owned());
    }
    assert(models(items@)[1] == items@[1]@);
    match &items[1] {
        Datum::List(params, ps) => {
            proof {
                lemma_list_model(*params, *ps);
            }
            let names = match symbol_texts(params) {
                Some(n) => n,
                None => {
                    return Err("lambda parameters are symbols".to_owned());
                },
            };
            match parse_body(items, 2) {
                Ok(body) => Ok(Expr::Lambda(names, body, span)),
                Err(x) => Err(x),
            }
        },
        _ => Err("lambda expects a parameter list".to_owned()),
    }
}

proof fn lemma_bind_models_push(v: Seq<(String, Expr)>, b: (String, Expr))
    ensures
        bind_models(v.push(b)) == bind_models(v).push((b.0@, b.1@)),
{
    assert(bind_models(v.push(b)) =~= bind_models(v).push((b.0@, b.1@)));
}

fn let_bindings(pairs: &Vec<Datum>) -> (r: Result<Vec<(String, Expr)>, String>)
    ensures
        match (r, let_bindings_spec(models(pairs@))) {
            (Ok(v), Ok(m)) => bind_models(v@) == m,
            (Err(a), Err(b)) => a@ == b,
            _ => false,
        },
    decreases pairs, 1int,
{
    let ghost m = models(pairs@);
    let ghost n = pairs@.len() as int;
    let mut out: Vec<(String, Expr)> = Vec::new();
    let mut i: usize = 0;
    proof {
        assert(m.subrange(0, n) =~= m);
        assert(bind_models(out@) =~= Seq::<(Seq<char>, ExprModel)>::empty());
        if let Ok(all) = let_bindings_spec(m) {
            assert(Seq::<(Seq<char>, ExprModel)>::empty() + all =~= all);
        }
    }
    while i < pairs.len()
        invariant
            i <= n,
            n == pairs@.len(),
            m == models(pairs@),
            let_bindings_spec(m) == prefixed(bind_models(out@), let_bindings_spec(m.subrange(i as int, n))),
        decreases n - i,
    {
        proof {
            lemma_models_tail(pairs@, i as int);
        }
        match &pairs[i] {
            Datum::List(kv, ks) => {
                proof {
                    lemma_list_model(*kv, *ks);
                }
                if kv.len() != 2 {
                    return Err("a let binding is (name expr)".to_owned());
                }
                assert(models(kv@)[0] == kv@[0]@);
                assert(models(kv@)[1] == kv@[1]@);
                match &kv[0] {
                    Datum::Symbol(name, _) => {
                        match parse_expr(&kv[1]) {
                            Ok(x) => {
                                let b = (name.clone(), x);
                                proof {
                                    lemma_prefixed_step(bind_models(out@), (b.0@, b.1@), let_bindings_spec(m.subrange(i + 1, n)));
                                    lemma_bind_models_push(out@, b);
                                }
                                out.push(b);
                                i = i + 1;
                            },
                            Err(x) => {
                                return Err(x);
                            },
                        }
                    },
                    _ => {
                        return Err("a let binding is (name expr)".to_owned());
                    },
                }
            },
            _ => {
                return Err("a let binding is (name expr)".to_owned());
            },
        }
    }
    proof {
        assert(m.subrange(i as int, n) =~= Seq::<DatumModel>::empty());
        assert(bind_models(out@) + Seq::<(Seq<char>, ExprModel)>::empty() =~= bind_models(out@));
    }
    Ok(out)
}

fn parse_let(kind: LetKind, items: &Vec<Datum>, span: Span) -> (r: Result<Expr, String>)
    ensures
        expr_result(r, parse_let_spec(kind, models(items@), span.start as int, span.end as int)),
    decreases items, 3int,
{
    if items.len() < 2 {
        return Err("let expects a binding list".to_owned());
    }
    assert(models(items@)[1] == items@[1]@);
    match &items[1] {
        Datum::List(pairs, ps) => {
            proof {
                lemma_list_model(*pairs, *ps);
            }
            let binds = match let_bindings(pairs) {
                Ok(b) => b,
                Err(x) => {
                    return Err(x);
                },
            };
            match parse_body(items, 2) {
                Ok(body) => Ok(Expr::Let(kind, binds, body, span)),
                Err(x) => Err(x),
            }
        },
        _ => Err("let expects a binding list".to_owned()),
    }
}

/// The models of parallel parameter and value expressions, pairwise.
pub open spec fn pair_models(ps: Seq<Expr>, vs: Seq<Expr>) -> Seq<(ExprModel, ExprModel)> {
    Seq::new(ps.len(), |j: int| (ps[j]@, vs[j]@))
}

fn param_pairs(pairs: &Vec<Datum>) -> (r: Result<(Vec<Expr>, Vec<Expr>), String>)
    ensures
        match (r, param_pairs_spec(models(pairs@))) {
            (Ok((ps, vs)), Ok(bs)) => ps@.len() == vs@.len() && pair_models(ps@, vs@) == bs,
            (Err(a), Err(b)) => a@ == b,
            _ => false,
        },
    decreases pairs, 1int,
{
    let ghost m = models(pairs@);
    let ghost n = pairs@.len() as int;
    let mut ps: Vec<Expr> = Vec::new();
    let mut vs: Vec<Expr> = Vec::new();
    let mut i: usize = 0;
    proof {
        assert(m.subrange(0, n) =~= m);
        assert(pair_models(ps@, vs@) =~= Seq::<(ExprModel, ExprModel)>::empty());
        if let Ok(all) = param_pairs_spec(m) {
            assert(Seq::<(ExprModel, ExprModel)>::empty() + all =~= all);
        }
    }
    while i < pairs.len()
        invariant
            i <= n,
            n == pairs@.len(),
            m == models(pairs@),
            ps@.len() == vs@.len(),
            param_pairs_spec(m) == prefixed(pair_models(ps@, vs@), param_pairs_spec(m.subrange(i as int, n))),
        decreases n - i,
    {
        proof {
            lemma_models_tail(pairs@, i as int);
        }
        match &pairs[i] {
            Datum::List(kv, ks) => {
                proof {
                    lemma_list_model(*kv, *ks);
                }
                if kv.len() != 2 {
                    return Err("a parameterize binding is (param expr)".to_owned());
                }
                assert(models(kv@)[0] == kv@[0]@);
                assert(models(kv@)[1] == kv@[1]@);
                let p = match parse_expr(&kv[0]) {
                    Ok(x) => x,
                    Err(x) => {
                        return Err(x);
                    },
                };
                let v = match parse_expr(&kv[1]) {
                    Ok(x) => x,
                    Err(x) => {
                        return Err(x);
                    },
                };
                proof {
                    lemma_prefixed_step(pair_models(ps@, vs@), (p@, v@), param_pairs_spec(m.subrange(i + 1, n)));
                    assert(pair_models(ps@.push(p), vs@.push(v)) =~= pair_models(ps@, vs@).push((p@, v@)));
                }
                ps.push(p);
                vs.push(v);
                i = i + 1;
            },
            _ => {
                return Err("a parameterize binding is (param expr)".to_owned());
            },
        }
    }
    proof {
        assert(m.subrange(i as int, n) =~= Seq::<DatumModel>::empty());
        assert(pair_models(ps@, vs@) + Seq::<(ExprModel, ExprModel)>::empty() =~= pair_models(ps@, vs@));
    }
    Ok((ps, vs))
}

fn parse_parameterize(items: &Vec<Datum>, span: Span) -> (r: Result<Expr, String>)
    ensures
        expr_result(r, parse_parameterize_spec(models(items@), span.start as int, span.end as int)),
    decreases items, 3int,
{
    if items.len() < 2 {
        return Err("parameterize expects a binding list".to_owned());
    }
    assert(models(items@)[1] == items@[1]@);
    match &items[1] {
        Datum::List(pairs, ps) => {
            proof {
                lemma_list_model(*pairs, *ps);
            }
            let (params, values) = match param_pairs(pairs) {
                Ok(p) => p,
                Err(x) => {
                    return Err(x);
                },
            };
            if params.len() == 0 {
                return Err("parameterize needs at least one binding".to_owned());
            }
            match parse_body(items, 2) {
                Ok(body) => Ok(desugar(params, values, body, span)),
                Err(x) => Err(x),
            }
        },
        _ => Err("parameterize expects a binding list".to_owned()),
    }
}

pub open spec fn opt_models(o: Option<Vec<Expr>>) -> Option<Seq<ExprModel>> {
    match o {
        None => None,
        Some(v) => Some(expr_models(v@)),
    }
}

proof fn lemma_clause_models_push(v: Seq<(Expr, Vec<Expr>)>, c: (Expr, Vec<Expr>))
    ensures
        clause_models(v.push(c)) == clause_models(v).push((c.0@, expr_models(c.1@))),
{
    assert(clause_models(v.push(c)) =~= clause_models(v).push((c.0@, expr_models(c.1@))));
}

fn parse_guard(items: &Vec<Datum>, span: Span) -> (r: Result<Expr, String>)
    ensures
        expr_result(r, parse_guard_spec(models(items@), span.start as int, span.end as int)),
    decreases items, 3int,
{
    if items.len() < 2 {
        return Err("guard expects a (var clause…) spec".to_owned());
    }
    assert(models(items@)[1] == items@[1]@);
    match &items[1] {
        Datum::List(spec_items, sp) => {
            proof {
                lemma_list_model(*spec_items, *sp);
            }
            if spec_items.len() == 0 {
                return Err("guard's spec starts with the condition variable".to_owned());
            }
            assert(models(spec_items@)[0] == spec_items@[0]@);
            let var = match &spec_items[0] {
                Datum::Symbol(v, _) => v.clone(),
                _ => {
                    return Err("guard's spec starts with the condition variable".to_owned());
                },
            };
            let ghost sm = models(spec_items@);
            let ghost n = spec_items@.len() as int;
            let mut clauses: Vec<(Expr, Vec<Expr>)> = Vec::new();
            let mut else_body: Option<Vec<Expr>> = None;
            let mut i: usize = 1;
            proof {
                assert(clause_models(clauses@) =~= Seq::<(ExprModel, Seq<ExprModel>)>::empty());
            }
            while i < spec_items.len()
                invariant
                    1 <= i <= n,
                    n == spec_items@.len(),
                    sm == models(spec_items@),
                    items@[1] == Datum::List(*spec_items, *sp),
                    items@.len() >= 2,
                    models(items@)[1] == DatumModel::List(sm, sp.start as int, sp.end as int),
                    sm.len() > 0,
                    sym(sm[0]) == Some(var@),
                    guard_clauses_spec(sm.subrange(1, n), Seq::empty(), None)
                        == guard_clauses_spec(sm.subrange(i as int, n), clause_models(clauses@), opt_models(else_body)),
                decreases n - i,
            {
                proof {
                    lemma_models_tail(spec_items@, i as int);
                }
                match &spec_items[i] {
                    Datum::List(kv, ks) => {
                        proof {
                            lemma_list_model(*kv, *ks);
                        }
                        if else_body.is_some() {
                            return Err("guard's else clause must be last".to_owned());
                        }
                        if kv.len() >= 1 {
                            assert(models(kv@)[0] == kv@[0]@);
                        }
                        if kv.len() >= 2 {
                            assert(models(kv@)[1] == kv@[1]@);
                        }
                        if kv.len() >= 1 && is_symbol_named(&kv[0], "else") {
                            if kv.len() == 1 {
                                return Err("guard's else clause needs a body".to_owned());
                            }
                            match parse_body(kv, 1) {
                                Ok(b) => {
                                    else_body = Some(b);
                                },
                                Err(x) => {
                                    return Err(x);
                                },
                            }
                        } else if kv.len() >= 2 && is_symbol_named(&kv[1], "=>") {
                            return Err("guard (test => proc) clauses are fenced in v0.4 (D-081)".to_owned());
                        } else if kv.len() >= 1 {
                            if kv.len() == 1 {
                                return Err("guard (test) clauses without expressions are fenced in v0.4 (D-081) — a bare test yields the test's value in R7RS and a lax parse would silently diverge".to_owned());
                            }
                            let test = match parse_expr(&kv[0]) {
                                Ok(x) => x,
                                Err(x) => {
                                    return Err(x);
                                },
                            };
                            let b = match parse_body(kv, 1) {
                                Ok(x) => x,
                                Err(x) => {
                                    return Err(x);
                                },
                            };
                            let c = (test, b);
                            proof {
                                lemma_clause_models_push(clauses@, c);
                            }
                            clauses.push(c);
                        } else {
                            return Err("a guard clause is (test expr…)".to_owned());
                        }
                    },
                    _ => {
                        return Err("a guard clause is (test expr…) or (else expr…)".to_owned());
                    },
                }
                i = i + 1;
            }
            assert(sm.subrange(i as int, n) =~= Seq::<DatumModel>::empty());
            if clauses.len() == 0 && else_body.is_none() {
                return Err("guard needs at least one clause".to_owned());
            }
            match parse_body(items, 2) {
                Ok(body) => Ok(Expr::Guard { var, clauses, else_body, body, span }),
                Err(x) => Err(x),
            }
        },
        _ => Err("guard expects a (var clause…) spec".to_owned()),
    }
}


/// The synthesized temporary name `gname(kind, start, index)`.
fn temp_name(kind: &str, start: usize, index: usize) -> (t: String)
    ensures
        t@ == gname(kind@, start as int, index as int),
{
    let mut v = chars_of(" ");
    push_str(&mut v, kind);
    let mut a = crate::harness::canon::digits_of(start as u64);
    v.append(&mut a);
    push_str(&mut v, "_");
    let mut b = crate::harness::canon::digits_of(index as u64);
    v.append(&mut b);
    string_of(&v)
}

fn raw_set_expr(span: Span, index: usize, arg: String) -> (x: Expr)
    ensures
        x@ == raw_set(span.start as int, span.end as int, index as int, arg@),
{
    let ghost a = arg@;
    let mut args: Vec<Expr> = Vec::new();
    args.push(Expr::Var(arg, span));
    args.push(Expr::Int(0, span));
    let callee = Expr::Var(temp_name("prm", span.start, index), span);
    assert(callee@ == ExprModel::Var(gname("prm"@, span.start as int, index as int), span.start as int, span.end as int));
    let x = Expr::App(Box::new(callee), args, span);
    proof {
        assert(expr_models(args@) =~= seq![
            ExprModel::Var(a, span.start as int, span.end as int),
            ExprModel::Int(0, span.start as int, span.end as int),
        ]);
    }
    x
}

fn old_read_expr(span: Span, index: usize) -> (x: Expr)
    ensures
        x@ == old_read(span.start as int, span.end as int, index as int),
{
    let args: Vec<Expr> = Vec::new();
    proof {
        assert(expr_models(args@) =~= Seq::<ExprModel>::empty());
    }
    let callee = Expr::Var(temp_name("prm", span.start, index), span);
    assert(callee@ == ExprModel::Var(gname("prm"@, span.start as int, index as int), span.start as int, span.end as int));
    Expr::App(Box::new(callee), args, span)
}

fn thunk_expr(body: Vec<Expr>, span: Span) -> (x: Expr)
    ensures
        x@ == thunk(expr_models(body@), span.start as int, span.end as int),
{
    let params: Vec<String> = Vec::new();
    proof {
        assert(texts(params@) =~= Seq::<Seq<char>>::empty());
    }
    Expr::Lambda(params, body, span)
}

/// Builds the `let*` that `parameterize` stands for.
fn desugar(params: Vec<Expr>, values: Vec<Expr>, body: Vec<Expr>, span: Span) -> (x: Expr)
    requires
        params@.len() == values@.len(),
    ensures
        x@ == desugar_parameterize(pair_models(params@, values@), expr_models(body@), span.start as int, span.end as int),
{
    let ghost s = span.start as int;
    let ghost e = span.end as int;
    let ghost bs = pair_models(params@, values@);
    let ghost orig_p = params@;
    let ghost orig_v = values@;
    let n = params.len();
    let mut params = params;
    let mut values = values;
    let mut binds: Vec<(String, Expr)> = Vec::new();
    let mut k: usize = 0;
    proof {
        assert(bind_models(binds@) =~= prm_binds(bs, s).take(0));
        assert(params@ =~= orig_p.subrange(0, n as int));
    }
    while k < n
        invariant
            k <= n,
            n == orig_p.len(),
            n == orig_v.len(),
            bs == pair_models(orig_p, orig_v),
            s == span.start as int,
            params@ == orig_p.subrange(k as int, n as int),
            bind_models(binds@) == prm_binds(bs, s).take(k as int),
        decreases n - k,
    {
        let p = params.remove(0);
        let name = temp_name("prm", span.start, k);
        let b = (name, p);
        proof {
            assert(b.0@ == gname("prm"@, s, k as int));
            assert(b.1@ == orig_p[k as int]@);
            assert(prm_binds(bs, s)[k as int] == (b.0@, b.1@));
            lemma_bind_models_push(binds@, b);
            assert(prm_binds(bs, s).take(k + 1) =~= prm_binds(bs, s).take(k as int).push((b.0@, b.1@)));
            assert(params@ =~= orig_p.subrange(k + 1, n as int));
        }
        binds.push(b);
        k = k + 1;
    }
    let ghost first = prm_binds(bs, s);
    proof {
        assert(first.take(n as int) =~= first);
        assert(first + new_binds(bs, s).take(0) =~= first);
        assert(values@ =~= orig_v.subrange(0, n as int));
    }
    k = 0;
    while k < n
        invariant
            k <= n,
            n == orig_p.len(),
            n == orig_v.len(),
            bs == pair_models(orig_p, orig_v),
            first == prm_binds(bs, s),
            s == span.start as int,
            values@ == orig_v.subrange(k as int, n as int),
            bind_models(binds@) == first + new_binds(bs, s).take(k as int),
        decreases n - k,
    {
        let v = values.remove(0);
        let name = temp_name("new", span.start, k);
        let b = (name, v);
        proof {
            lemma_bind_models_push(binds@, b);
            assert(first + new_binds(bs, s).take(k + 1) =~= (first + new_binds(bs, s).take(k as int)).push((b.0@, b.1@)));
            assert(values@ =~= orig_v.subrange(k + 1, n as int));
        }
        binds.push(b);
        k = k + 1;
    }
    let ghost second = first + new_binds(bs, s);
    proof {
        assert(new_binds(bs, s).take(n as int) =~= new_binds(bs, s));
        assert(second + old_binds(n as nat, s, e).take(0) =~= second);
    }
    k = 0;
    while k < n
        invariant
            k <= n,
            n == bs.len(),
            second == prm_binds(bs, s) + new_binds(bs, s),
            s == span.start as int,
            e == span.end as int,
            bind_models(binds@) == second + old_binds(n as nat, s, e).take(k as int),
        decreases n - k,
    {
        let name = temp_name("old", span.start, k);
        let b = (name, old_read_expr(span, k));
        proof {
            lemma_bind_models_push(binds@, b);
            assert(second + old_binds(n as nat, s, e).take(k + 1)
                =~= (second + old_binds(n as nat, s, e).take(k as int)).push((b.0@, b.1@)));
        }
        binds.push(b);
        k = k + 1;
    }
    proof {
        assert(old_binds(n as nat, s, e).take(n as int) =~= old_binds(n as nat, s, e));
    }
    let mut seq_exprs: Vec<Expr> = Vec::new();
    proof {
        assert(expr_models(seq_exprs@) =~= raw_sets(n as nat, s, e).take(0));
    }
    k = 0;
    while k < n
        invariant
            k <= n,
            expr_models(seq_exprs@) == raw_sets(n as nat, s, e).take(k as int),
            s == span.start as int,
            e == span.end as int,
        decreases n - k,
    {
        let x = raw_set_expr(span, k, temp_name("new", span.start, k));
        proof {
            lemma_expr_models_push(seq_exprs@, x);
            assert(raw_sets(n as nat, s, e).take(k + 1) =~= raw_sets(n as nat, s, e).take(k as int).push(x@));
        }
        seq_exprs.push(x);
        k = k + 1;
    }
    let mut restore: Vec<Expr> = Vec::new();
    proof {
        assert(raw_sets(n as nat, s, e).take(n as int) =~= raw_sets(n as nat, s, e));
        assert(expr_models(restore@) =~= raw_restores(n as nat, s, e).take(0));
    }
    k = 0;
    while k < n
        invariant
            k <= n,
            expr_models(restore@) == raw_restores(n as nat, s, e).take(k as int),
            s == span.start as int,
            e == span.end as int,
        decreases n - k,
    {
        let j = n - 1 - k;
        let x = raw_set_expr(span, j, temp_name("old", span.start, j));
        proof {
            lemma_expr_models_push(restore@, x);
            assert(raw_restores(n as nat, s, e).take(k + 1) =~= raw_restores(n as nat, s, e).take(k as int).push(x@));
        }
        restore.push(x);
        k = k + 1;
    }
    proof {
        assert(raw_restores(n as nat, s, e).take(n as int) =~= raw_restores(n as nat, s, e));
    }
    let mut noop: Vec<Expr> = Vec::new();
    noop.push(Expr::Bool(false, span));
    proof {
        assert(expr_models(noop@) =~= seq![ExprModel::Bool(false, s, e)]);
    }
    let before = thunk_expr(noop, span);
    let during = thunk_expr(body, span);
    let after = thunk_expr(restore, span);
    let mut wind_args: Vec<Expr> = Vec::new();
    wind_args.push(before);
    wind_args.push(during);
    wind_args.push(after);
    let callee = Expr::Var("dynamic-wind".to_owned(), span);
    assert(callee@ == ExprModel::Var("dynamic-wind"@, s, e));
    let w = Expr::App(Box::new(callee), wind_args, span);
    proof {
        assert(expr_models(wind_args@) =~= seq![
            thunk(seq![ExprModel::Bool(false, s, e)], s, e),
            thunk(expr_models(body@), s, e),
            thunk(raw_restores(n as nat, s, e), s, e),
        ]);
        assert(w@ == wind(expr_models(body@), n as nat, s, e));
        lemma_expr_models_push(seq_exprs@, w);
    }
    seq_exprs.push(w);
    Expr::Let(LetKind::LetStar, binds, seq_exprs, span)
}

} // verus!

verus! {

pub open spec fn top_model(t: Top) -> TopModel {
    match t {
        Top::Define(n, x, s) => TopModel::Define(n@, x@, s.start as int, s.end as int),
        Top::Expr(x) => TopModel::Expr(x@),
    }
}

impl View for Top {
    type V = TopModel;

    open spec fn view(&self) -> TopModel {
        top_model(*self)
    }
}

pub open spec fn top_models(v: Seq<Top>) -> Seq<TopModel> {
    v.map_values(|t: Top| t@)
}

pub open spec fn top_result(r: Result<Top, String>, m: Result<TopModel, Seq<char>>) -> bool {
    match (r, m) {
        (Ok(x), Ok(y)) => x@ == y,
        (Err(a), Err(b)) => a@ == b,
        _ => false,
    }
}

/// `(import …)`: required by other implementations, a no-op here.
pub open spec fn is_import(d: DatumModel) -> bool {
    match d {
        DatumModel::List(items, _, _) => items.len() > 0 && is_sym(items[0], "import"@),
        _ => false,
    }
}

/// `(name params…)`: every item a symbol, at least the name.
pub open spec fn signature_spec(sig: Seq<DatumModel>) -> Result<(Seq<char>, Seq<Seq<char>>), Seq<char>> {
    match symbol_names(sig) {
        None => Err("procedure signature holds only symbols"@),
        Some(names) => if names.len() == 0 {
            Err("empty procedure signature"@)
        } else {
            Ok((names[0], names.subrange(1, names.len() as int)))
        },
    }
}

/// `(define name expr)` or `(define (name params…) body…)`, the latter
/// as a lambda spanning the whole form.
pub open spec fn parse_define_spec(items: Seq<DatumModel>, s: int, e: int) -> Result<TopModel, Seq<char>> {
    if items.len() >= 2 && sym(items[1]) is Some {
        let name = sym(items[1])->0;
        if items.len() != 3 {
            Err("(define "@ + name + " expr) takes exactly one value"@)
        } else {
            match parse_expr_spec(items[2]) {
                Err(m) => Err(m),
                Ok(x) => Ok(TopModel::Define(name, x, s, e)),
            }
        }
    } else if items.len() >= 2 && items[1] is List {
        match signature_spec(items[1]->List_0) {
            Err(m) => Err(m),
            Ok((name, params)) => match parse_body_spec(tail(items, 2)) {
                Err(m) => Err(m),
                Ok(body) => Ok(TopModel::Define(name, ExprModel::Lambda(params, body, s, e), s, e)),
            },
        }
    } else {
        Err("define expects a name or a (name params…) signature"@)
    }
}

/// A top-level form: a definition when headed by `define`, else an
/// expression.
pub open spec fn parse_top_spec(d: DatumModel) -> Result<TopModel, Seq<char>> {
    let as_expr = match parse_expr_spec(d) {
        Err(m) => Err(m),
        Ok(x) => Ok(TopModel::Expr(x)),
    };
    match d {
        DatumModel::List(items, s, e) => if items.len() > 0 && is_sym(items[0], "define"@) {
            parse_define_spec(items, s, e)
        } else {
            as_expr
        },
        _ => as_expr,
    }
}

/// The top-level forms of a datum stream, imports skipped; the first
/// failure wins.
pub open spec fn tops_spec(data: Seq<DatumModel>) -> Result<Seq<TopModel>, Seq<char>>
    decreases data.len(),
{
    if data.len() == 0 {
        Ok(Seq::empty())
    } else {
        let rest = tops_spec(data.subrange(1, data.len() as int));
        if is_import(data[0]) {
            rest
        } else {
            match parse_top_spec(data[0]) {
                Err(m) => Err(m),
                Ok(t) => match rest {
                    Err(m) => Err(m),
                    Ok(r) => Ok(seq![t] + r),
                },
            }
        }
    }
}

/// What `parse` gives for a source text: the reader's failure, a
/// form's failure, `empty program`, or the forms.
pub open spec fn parse_spec(c: Seq<char>) -> Result<Seq<TopModel>, Seq<char>> {
    match read_spec(c) {
        Err(f) => Err(failure_message(c, f)),
        Ok(data) => match tops_spec(data) {
            Err(m) => Err(m),
            Ok(p) => if p.len() == 0 {
                Err("empty program"@)
            } else {
                Ok(p)
            },
        },
    }
}

fn signature(sig: &Vec<Datum>) -> (r: Result<(String, Vec<String>), String>)
    ensures
        match (r, signature_spec(models(sig@))) {
            (Ok((n, ps)), Ok((mn, mps))) => n@ == mn && texts(ps@) == mps,
            (Err(a), Err(b)) => a@ == b,
            _ => false,
        },
{
    match symbol_texts(sig) {
        None => Err("procedure signature holds only symbols".to_owned()),
        Some(names) => {
            if names.len() == 0 {
                return Err("empty procedure signature".to_owned());
            }
            let mut names = names;
            let ghost all = names@;
            let name = names.remove(0);
            proof {
                assert(texts(names@) =~= texts(all).subrange(1, all.len() as int));
            }
            Ok((name, names))
        },
    }
}

fn parse_define(items: &Vec<Datum>, span: Span) -> (r: Result<Top, String>)
    ensures
        top_result(r, parse_define_spec(models(items@), span.start as int, span.end as int)),
{
    if items.len() >= 2 {
        assert(models(items@)[1] == items@[1]@);
        match &items[1] {
            Datum::Symbol(name, _) => {
                if items.len() != 3 {
                    return Err(crate::text::join3("(define ", name.as_str(), " expr) takes exactly one value"));
                }
                assert(models(items@)[2] == items@[2]@);
                return match parse_expr(&items[2]) {
                    Ok(x) => Ok(Top::Define(name.clone(), x, span)),
                    Err(m) => Err(m),
                };
            },
            Datum::List(sig, sp) => {
                proof {
                    lemma_list_model(*sig, *sp);
                }
                let (name, params) = match signature(sig) {
                    Ok(p) => p,
                    Err(m) => {
                        return Err(m);
                    },
                };
                return match parse_body(items, 2) {
                    Ok(body) => {
                        let lambda = Expr::Lambda(params, body, span);
                        Ok(Top::Define(name, lambda, span))
                    },
                    Err(m) => Err(m),
                };
            },
            _ => {},
        }
    }
    Err("define expects a name or a (name params…) signature".to_owned())
}

fn parse_top(d: &Datum) -> (r: Result<Top, String>)
    ensures
        top_result(r, parse_top_spec(d@)),
{
    if let Datum::List(items, s) = d {
        proof {
            lemma_list_model(*items, *s);
        }
        if items.len() > 0 {
            assert(models(items@)[0] == items@[0]@);
            if is_symbol_named(&items[0], "define") {
                return parse_define(items, *s);
            }
        }
    }
    match parse_expr(d) {
        Ok(x) => Ok(Top::Expr(x)),
        Err(m) => Err(m),
    }
}

fn is_import_form(d: &Datum) -> (b: bool)
    ensures
        b == is_import(d@),
{
    match d {
        Datum::List(items, s) => {
            proof {
                lemma_list_model(*items, *s);
            }
            if items.len() == 0 {
                return false;
            }
            assert(models(items@)[0] == items@[0]@);
            is_symbol_named(&items[0], "import")
        },
        _ => false,
    }
}

/// Reads `source` and parses its top-level forms. `(import …)` forms
/// carry no meaning here and are skipped.
pub fn parse(source: &str) -> (r: Result<Vec<Top>, String>)
    ensures
        match (r, parse_spec(source@)) {
            (Ok(v), Ok(m)) => top_models(v@) == m,
            (Err(a), Err(b)) => a@ == b,
            _ => false,
        },
{
    let data = match read(source) {
        Ok(d) => d,
        Err(m) => {
            return Err(m);
        },
    };
    let ghost dm = models(data@);
    let ghost n = data@.len() as int;
    let mut program: Vec<Top> = Vec::new();
    let mut i: usize = 0;
    proof {
        assert(dm.subrange(0, n) =~= dm);
        assert(top_models(program@) =~= Seq::<TopModel>::empty());
        if let Ok(all) = tops_spec(dm) {
            assert(Seq::<TopModel>::empty() + all =~= all);
        }
    }
    while i < data.len()
        invariant
            i <= n,
            n == data@.len(),
            dm == models(data@),
            read_spec(source@) is Ok,
            read_spec(source@)->Ok_0 == dm,
            tops_spec(dm) == prefixed(top_models(program@), tops_spec(dm.subrange(i as int, n))),
        decreases n - i,
    {
        proof {
            lemma_models_tail(data@, i as int);
        }
        if !is_import_form(&data[i]) {
            match parse_top(&data[i]) {
                Ok(t) => {
                    proof {
                        lemma_prefixed_step(top_models(program@), t@, tops_spec(dm.subrange(i + 1, n)));
                        assert(top_models(program@.push(t)) =~= top_models(program@).push(t@));
                    }
                    program.push(t);
                },
                Err(m) => {
                    return Err(m);
                },
            }
        }
        i = i + 1;
    }
    proof {
        assert(dm.subrange(i as int, n) =~= Seq::<DatumModel>::empty());
        assert(top_models(program@) + Seq::<TopModel>::empty() =~= top_models(program@));
    }
    if program.len() == 0 {
        return Err("empty program".to_owned());
    }
    Ok(program)
}

/// The span an expression model carries.
pub open spec fn span_of(m: ExprModel) -> (int, int) {
    match m {
        ExprModel::Int(_, s, e) => (s, e),
        ExprModel::Bool(_, s, e) => (s, e),
        ExprModel::Var(_, s, e) => (s, e),
        ExprModel::If(_, _, _, s, e) => (s, e),
        ExprModel::Let(_, _, _, s, e) => (s, e),
        ExprModel::Lambda(_, _, s, e) => (s, e),
        ExprModel::Begin(_, s, e) => (s, e),
        ExprModel::App(_, _, s, e) => (s, e),
        ExprModel::Quote(_, s, e) => (s, e),
        ExprModel::Str(_, s, e) => (s, e),
        ExprModel::Guard(_, _, _, _, s, e) => (s, e),
    }
}

impl Expr {
    /// The source span of the whole expression.
    pub fn span(&self) -> (s: Span)
        ensures
            (s.start as int, s.end as int) == span_of(self@),
    {
        match self {
            Expr::Int(_, s) => *s,
            Expr::Bool(_, s) => *s,
            Expr::Var(_, s) => *s,
            Expr::If(_, _, _, s) => *s,
            Expr::Let(_, _, _, s) => *s,
            Expr::Lambda(_, _, s) => *s,
            Expr::Begin(_, s) => *s,
            Expr::App(_, _, s) => *s,
            Expr::Quote(_, s) => *s,
            Expr::Str(_, s) => *s,
            Expr::Guard { span, .. } => *span,
        }
    }
}

} // verus!

verus! {

/// `(import …)` carries no meaning: a program with an import form in
/// front parses exactly as the program without it.
pub proof fn law_import_is_a_noop(imp: DatumModel, rest: Seq<DatumModel>)
    requires
        is_import(imp),
    ensures
        tops_spec(seq![imp] + rest) == tops_spec(rest),
{
    assert((seq![imp] + rest).subrange(1, rest.len() + 1 as int) =~= rest);
}

} // verus!

verus! {

/// The head of a `let` form alone picks its kind: three lists that share
/// everything after a head symbol `let`, `let*` and `letrec` parse alike
/// (the same failure, or the same bindings, body and span), as a
/// parallel, a sequential and a recursive `let` respectively.
pub proof fn law_let_kind_follows_head(l: Seq<DatumModel>, ls: Seq<DatumModel>, lr: Seq<DatumModel>, s: int, e: int)
    requires
        l.len() > 0,
        ls.len() == l.len(),
        lr.len() == l.len(),
        is_sym(l[0], "let"@),
        is_sym(ls[0], "let*"@),
        is_sym(lr[0], "letrec"@),
        forall|i: int| 0 < i < l.len() ==> #[trigger] ls[i] == l[i] && lr[i] == l[i],
    ensures
        match parse_list_spec(l, s, e) {
            Ok(x) => (x matches ExprModel::Let(k, binds, body, s1, e1) && k == LetKind::Let
                && parse_list_spec(ls, s, e) == Ok::<ExprModel, Seq<char>>(ExprModel::Let(LetKind::LetStar, binds, body, s1, e1))
                && parse_list_spec(lr, s, e) == Ok::<ExprModel, Seq<char>>(ExprModel::Let(LetKind::LetRec, binds, body, s1, e1))),
            Err(m) => parse_list_spec(ls, s, e) == Err::<ExprModel, Seq<char>>(m)
                && parse_list_spec(lr, s, e) == Err::<ExprModel, Seq<char>>(m),
        },
{
    reveal_strlit("if");
    reveal_strlit("lambda");
    reveal_strlit("begin");
    reveal_strlit("let");
    reveal_strlit("let*");
    reveal_strlit("letrec");
    let names = seq!["if"@, "lambda"@, "begin"@, "let"@, "let*"@, "letrec"@];
    assert(forall|i: int, j: int| 0 <= i < j < 6 ==> #[trigger] names[i] != #[trigger] names[j]) by {
        assert("if"@.len() == 2 && "lambda"@.len() == 6 && "begin"@.len() == 5);
        assert("let"@.len() == 3 && "let*"@.len() == 4 && "letrec"@.len() == 6);
        assert("lambda"@[1] != "letrec"@[1]);
    }
    assert(!is_sym(l[0], "if"@) && !is_sym(l[0], "lambda"@) && !is_sym(l[0], "begin"@));
    assert(!is_sym(ls[0], "if"@) && !is_sym(ls[0], "lambda"@) && !is_sym(ls[0], "begin"@) && !is_sym(ls[0], "let"@));
    assert(!is_sym(lr[0], "if"@) && !is_sym(lr[0], "lambda"@) && !is_sym(lr[0], "begin"@) && !is_sym(lr[0], "let"@)
        && !is_sym(lr[0], "let*"@));
    assert(parse_list_spec(l, s, e) == parse_let_spec(LetKind::Let, l, s, e));
    assert(parse_list_spec(ls, s, e) == parse_let_spec(LetKind::LetStar, ls, s, e));
    assert(parse_list_spec(lr, s, e) == parse_let_spec(LetKind::LetRec, lr, s, e));
    assert(tail(ls, 2) =~= tail(l, 2));
    assert(tail(lr, 2) =~= tail(l, 2));
    if l.len() >= 2 {
        assert(ls[1] == l[1] && lr[1] == l[1]);
    }
}

} // verus!

verus! {

/// `(if a b c)` parses to a conditional spanning the list whose test,
/// consequent and alternative are `a`, `b` and `c` parsed, in that
/// order; a failure in any of them, the first from the left, is the
/// form's failure.
pub proof fn law_if_form(items: Seq<DatumModel>, s: int, e: int)
    requires
        items.len() == 4,
        is_sym(items[0], "if"@),
    ensures
        match (parse_expr_spec(items[1]), parse_expr_spec(items[2]), parse_expr_spec(items[3])) {
            (Ok(a), Ok(b), Ok(c)) => parse_list_spec(items, s, e)
                == Ok::<ExprModel, Seq<char>>(ExprModel::If(Box::new(a), Box::new(b), Box::new(c), s, e)),
            (Err(m), _, _) => parse_list_spec(items, s, e) == Err::<ExprModel, Seq<char>>(m),
            (Ok(_), Err(m), _) => parse_list_spec(items, s, e) == Err::<ExprModel, Seq<char>>(m),
            (Ok(_), Ok(_), Err(m)) => parse_list_spec(items, s, e) == Err::<ExprModel, Seq<char>>(m),
        },
{
}

/// `(lambda (x ...) body ...)` parses to a function of the named
/// parameters, in order, with the body's expressions parsed in order.
pub proof fn law_lambda_form(items: Seq<DatumModel>, s: int, e: int, params: Seq<DatumModel>, ps: int, pe: int)
    requires
        items.len() >= 3,
        is_sym(items[0], "lambda"@),
        items[1] == DatumModel::List(params, ps, pe),
        forall|i: int| 0 <= i < params.len() ==> (#[trigger] params[i]) is Symbol,
    ensures
        match parse_exprs_spec(items.subrange(2, items.len() as int)) {
            Ok(body) => parse_list_spec(items, s, e) == Ok::<ExprModel, Seq<char>>(ExprModel::Lambda(
                Seq::new(params.len(), |i: int| params[i]->Symbol_0),
                body,
                s,
                e,
            )),
            Err(m) => parse_list_spec(items, s, e) == Err::<ExprModel, Seq<char>>(m),
        },
{
    reveal_strlit("if");
    reveal_strlit("lambda");
    assert("if"@.len() == 2 && "lambda"@.len() == 6);
    lemma_symbol_names(params);
    assert(tail(items, 2) == items.subrange(2, items.len() as int));
}

proof fn lemma_symbol_names(params: Seq<DatumModel>)
    requires
        forall|i: int| 0 <= i < params.len() ==> (#[trigger] params[i]) is Symbol,
    ensures
        symbol_names(params) == Some(Seq::new(params.len(), |i: int| params[i]->Symbol_0)),
    decreases params.len(),
{
    if params.len() > 0 {
        let rest = params.subrange(1, params.len() as int);
        lemma_symbol_names(rest);
        assert(seq![params[0]->Symbol_0] + Seq::new(rest.len(), |i: int| rest[i]->Symbol_0)
            =~= Seq::new(params.len(), |i: int| params[i]->Symbol_0));
    } else {
        assert(Seq::new(0, |i: int| params[i]->Symbol_0) =~= Seq::<Seq<char>>::empty());
    }
}

} // verus!

verus! {

/// A `(name expr)` pair that names a symbol and whose expression parses.
pub open spec fn good_pair(d: DatumModel) -> bool {
    d matches DatumModel::List(kv, _, _) && kv.len() == 2 && kv[0] is Symbol && parse_expr_spec(kv[1]) is Ok
}

/// The binding a good pair makes: its symbol and its parsed expression.
pub open spec fn pair_binding(d: DatumModel) -> (Seq<char>, ExprModel) {
    (d->List_0[0]->Symbol_0, parse_expr_spec(d->List_0[1])->Ok_0)
}

/// `let` bindings keep their pairs' order: when every pair is a symbol
/// and an expression that parses, the bindings are those pairs, first to
/// last, each name with its parsed expression.
pub proof fn law_let_bindings_in_order(pairs: Seq<DatumModel>)
    requires
        forall|i: int| 0 <= i < pairs.len() ==> good_pair(#[trigger] pairs[i]),
    ensures
        let_bindings_spec(pairs) == Ok::<Seq<(Seq<char>, ExprModel)>, Seq<char>>(
            Seq::new(pairs.len(), |i: int| pair_binding(pairs[i])),
        ),
    decreases pairs.len(),
{
    if pairs.len() == 0 {
        assert(Seq::new(0, |i: int| pair_binding(pairs[i])) =~= Seq::<(Seq<char>, ExprModel)>::empty());
    } else {
        let rest = pairs.subrange(1, pairs.len() as int);
        assert forall|i: int| 0 <= i < rest.len() implies good_pair(#[trigger] rest[i]) by {
            assert(rest[i] == pairs[i + 1]);
        }
        law_let_bindings_in_order(rest);
        assert(good_pair(pairs[0]));
        assert(seq![pair_binding(pairs[0])] + Seq::new(rest.len(), |i: int| pair_binding(rest[i]))
            =~= Seq::new(pairs.len(), |i: int| pair_binding(pairs[i])));
    }
}

} // verus!
