//! Free-name analysis for r7rs_core expressions: which names an
//! expression reads that no enclosing binder of its own binds. A closure
//! captures exactly these (globals among them are told apart later).
//! Also the primitive operator names a call may lower to directly.

use vstd::prelude::*;
use crate::scheme::ast::{Expr, ExprModel, expr_models, bind_models, clause_models, texts};
use crate::text::{str_eq, ascending, contains_text, extend_texts, insert_sorted, text_set, texts_of};

verus! {

/// The primitive operators.
pub open spec fn primitive_names() -> Set<Seq<char>> {
    set![
        "+"@, "-"@, "*"@, "quotient"@, "remainder"@, "="@, "<"@, ">"@, "<="@, ">="@, "display"@,
        "newline"@, "cons"@, "car"@, "cdr"@, "null?"@, "pair?"@, "eq?"@, "list"@,
        "set-car!"@, "set-cdr!"@, "string-append"@, "string-length"@, "string=?"@,
        "substring"@, "vector"@, "make-vector"@, "vector-ref"@, "vector-set!"@,
        "vector-length"@,
        "dynamic-wind"@, "with-exception-handler"@, "raise-continuable"@, "raise"@,
        "make-parameter"@,
    ]
}

/// Whether `op` names a primitive operator.
pub fn is_primitive(op: &str) -> (r: bool)
    ensures
        r == primitive_names().contains(op@),
{
    str_eq(op, "+")
        || str_eq(op, "-")
        || str_eq(op, "*")
        || str_eq(op, "quotient")
        || str_eq(op, "remainder")
        || str_eq(op, "=")
        || str_eq(op, "<")
        || str_eq(op, ">")
        || str_eq(op, "<=")
        || str_eq(op, ">=")
        || str_eq(op, "display")
        || str_eq(op, "newline")
        || str_eq(op, "cons")
        || str_eq(op, "car")
        || str_eq(op, "cdr")
        || str_eq(op, "null?")
        || str_eq(op, "pair?")
        || str_eq(op, "eq?")
        || str_eq(op, "list")
        || str_eq(op, "set-car!")
        || str_eq(op, "set-cdr!")
        || str_eq(op, "string-append")
        || str_eq(op, "string-length")
        || str_eq(op, "string=?")
        || str_eq(op, "substring")
        || str_eq(op, "vector")
        || str_eq(op, "make-vector")
        || str_eq(op, "vector-ref")
        || str_eq(op, "vector-set!")
        || str_eq(op, "vector-length")
        || str_eq(op, "dynamic-wind")
        || str_eq(op, "with-exception-handler")
        || str_eq(op, "raise-continuable")
        || str_eq(op, "raise")
        || str_eq(op, "make-parameter")
}

} // verus!

verus! {

/// The names bound by the first `n` bindings.
pub open spec fn bind_names(binds: Seq<(Seq<char>, ExprModel)>, n: int) -> Set<Seq<char>> {
    Set::new(|x: Seq<char>| exists|i: int| 0 <= i < n && i < binds.len() && (#[trigger] binds[i]).0 == x)
}

/// The names `e` reads that neither `bound` nor a binder inside `e`
/// binds. A `let` of any kind binds each name for the initializers
/// after it and for the body; `guard` binds its variable for its
/// clauses.
pub open spec fn free_in(e: ExprModel, bound: Set<Seq<char>>) -> Set<Seq<char>>
    decreases e, 1int, 0int,
{
    match e {
        ExprModel::Var(n, _, _) => if bound.contains(n) {
            Set::empty()
        } else {
            Set::empty().insert(n)
        },
        ExprModel::If(a, b, c, _, _) => free_in(*a, bound).union(free_in(*b, bound)).union(free_in(*c, bound)),
        ExprModel::Begin(es, _, _) => free_in_body(es, bound, es.len() as int),
        ExprModel::App(f, args, _, _) => free_in(*f, bound).union(free_in_body(args, bound, args.len() as int)),
        ExprModel::Lambda(params, body, _, _) => free_in_body(body, bound.union(params.to_set()), body.len() as int),
        ExprModel::Let(_, binds, body, _, _) => free_in_binds(binds, bound, binds.len() as int).union(
            free_in_body(body, bound.union(bind_names(binds, binds.len() as int)), body.len() as int),
        ),
        ExprModel::Guard(var, clauses, else_body, body, _, _) => free_in_body(body, bound, body.len() as int).union(
            free_in_clauses(clauses, bound.insert(var), clauses.len() as int),
        ).union(
            match else_body {
                Some(es) => free_in_body(es, bound.insert(var), es.len() as int),
                None => Set::empty(),
            },
        ),
        _ => Set::empty(),
    }
}

/// The free names of the first `n` expressions of a body.
pub open spec fn free_in_body(es: Seq<ExprModel>, bound: Set<Seq<char>>, n: int) -> Set<Seq<char>>
    decreases es, 0int, n,
{
    if n <= 0 || n > es.len() {
        Set::empty()
    } else {
        free_in_body(es, bound, n - 1).union(free_in(es[n - 1], bound))
    }
}

/// The free names of the first `n` initializers, each seeing the names
/// bound before it.
pub open spec fn free_in_binds(binds: Seq<(Seq<char>, ExprModel)>, bound: Set<Seq<char>>, n: int) -> Set<Seq<char>>
    decreases binds, 0int, n,
{
    if n <= 0 || n > binds.len() {
        Set::empty()
    } else {
        proof {
            assert(decreases_to!(binds => binds[n - 1]));
        }
        free_in_binds(binds, bound, n - 1).union(free_in(binds[n - 1].1, bound.union(bind_names(binds, n - 1))))
    }
}

/// The free names of the first `n` guard clauses.
pub open spec fn free_in_clauses(cls: Seq<(ExprModel, Seq<ExprModel>)>, bound: Set<Seq<char>>, n: int) -> Set<Seq<char>>
    decreases cls, 0int, n,
{
    if n <= 0 || n > cls.len() {
        Set::empty()
    } else {
        proof {
            assert(decreases_to!(cls => cls[n - 1]));
        }
        free_in_clauses(cls, bound, n - 1).union(free_in(cls[n - 1].0, bound)).union(
            free_in_body(cls[n - 1].1, bound, cls[n - 1].1.len() as int),
        )
    }
}

} // verus!

verus! {

/// Adds to `out` the free names of a body's expressions under `bound`.
pub fn free_names_body(body: &Vec<Expr>, bound: &mut Vec<String>, out: &mut Vec<String>)
    requires
        ascending(old(out)@),
    ensures
        final(bound)@ == old(bound)@,
        ascending(final(out)@),
        text_set(final(out)@) == text_set(old(out)@).union(
            free_in_body(expr_models(body@), text_set(old(bound)@), body@.len() as int),
        ),
    decreases body, 0int,
{
    let ghost start = out@;
    let ghost fixed = bound@;
    let ghost b = text_set(bound@);
    let ghost ms = expr_models(body@);
    let mut i: usize = 0;
    while i < body.len()
        invariant
            bound@ == fixed,
            b == text_set(fixed),
            ms == expr_models(body@),
            i <= body@.len(),
            ascending(out@),
            text_set(out@) == text_set(start).union(free_in_body(ms, b, i as int)),
        decreases body@.len() - i,
    {
        proof {
            assert(decreases_to!(body => body@));
            assert(decreases_to!(body@ => body@[i as int]));
        }
        let ghost before = out@;
        free_names(&body[i], bound, out);
        proof {
            assert(ms[i as int] == body@[i as int]@);
            assert(free_in_body(ms, b, i + 1) == free_in_body(ms, b, i as int).union(free_in(ms[i as int], b)));
            assert(text_set(out@) =~= text_set(start).union(free_in_body(ms, b, i + 1)));
        }
        i = i + 1;
    }
}

/// Adds to `out` the free names of `expr` under `bound`; `bound` comes
/// back as it was.
pub fn free_names(expr: &Expr, bound: &mut Vec<String>, out: &mut Vec<String>)
    requires
        ascending(old(out)@),
    ensures
        final(bound)@ == old(bound)@,
        ascending(final(out)@),
        text_set(final(out)@) == text_set(old(out)@).union(free_in(expr@, text_set(old(bound)@))),
    decreases expr, 1int,
{
    let ghost start = out@;
    let ghost fixed = bound@;
    let ghost b = text_set(bound@);
    match expr {
        Expr::Var(name, _) => {
            if !contains_text(bound, name.as_str()) {
                insert_sorted(out, name.clone());
                proof {
                    assert(text_set(out@) =~= text_set(start).union(Set::empty().insert(name@)));
                }
            } else {
                proof {
                    assert(text_set(out@) =~= text_set(start).union(Set::empty()));
                }
            }
        },
        Expr::If(a, t, e, _) => {
            free_names(a, bound, out);
            free_names(t, bound, out);
            free_names(e, bound, out);
            proof {
                assert(text_set(out@) =~= text_set(start).union(free_in(expr@, b)));
            }
        },
        Expr::Begin(es, _) => {
            free_names_body(es, bound, out);
        },
        Expr::App(f, args, _) => {
            free_names(f, bound, out);
            free_names_body(args, bound, out);
            proof {
                assert(text_set(out@) =~= text_set(start).union(free_in(expr@, b)));
            }
        },
        Expr::Lambda(params, body, _) => {
            let mark = bound.len();
            extend_texts(bound, params);
            proof {
                assert(texts(params@) =~= texts_of(params@));
            }
            free_names_body(body, bound, out);
            bound.truncate(mark);
        },
        Expr::Let(_, binds, body, _) => {
            let ghost bm = bind_models(binds@);
            let mark = bound.len();
            proof {
                assert(decreases_to!(expr => binds));
            }
            let mut i: usize = 0;
            while i < binds.len()
                invariant
                    decreases_to!(expr => binds),
                    bm == bind_models(binds@),
                    i <= binds@.len(),
                    mark == fixed.len(),
                    bound@.len() >= mark,
                    bound@.subrange(0, mark as int) == fixed,
                    b == text_set(fixed),
                    text_set(bound@) == b.union(bind_names(bm, i as int)),
                    ascending(out@),
                    text_set(out@) == text_set(start).union(free_in_binds(bm, b, i as int)),
                decreases binds@.len() - i,
            {
                proof {
                    assert(decreases_to!(binds => binds@));
                    assert(decreases_to!(binds@ => binds@[i as int]));
                    assert(decreases_to!(binds@[i as int] => binds@[i as int].1));
                }
                let ghost inner = text_set(bound@);
                free_names(&binds[i].1, bound, out);
                let ghost prev = bound@;
                bound.push(binds[i].0.clone());
                proof {
                    assert(bm[i as int].1 == binds@[i as int].1@);
                    assert(bm[i as int].0 == binds@[i as int].0@);
                    assert(free_in_binds(bm, b, i + 1) == free_in_binds(bm, b, i as int).union(
                        free_in(bm[i as int].1, b.union(bind_names(bm, i as int)))));
                    assert(text_set(out@) =~= text_set(start).union(free_in_binds(bm, b, i + 1)));
                    assert(bound@.subrange(0, mark as int) =~= prev.subrange(0, mark as int));
                    crate::text::lemma_text_set_push(prev, binds@[i as int].0);
                    assert(bind_names(bm, i + 1) =~= bind_names(bm, i as int).insert(bm[i as int].0));
                    assert(text_set(bound@) =~= b.union(bind_names(bm, i + 1)));
                }
                i = i + 1;
            }
            free_names_body(body, bound, out);
            bound.truncate(mark);
            proof {
                assert(text_set(out@) =~= text_set(start).union(free_in(expr@, b)));
            }
        },
        Expr::Guard { var, clauses, else_body, body, .. } => {
            free_names_body(body, bound, out);
            let ghost after_body = out@;
            let mark = bound.len();
            bound.push(var.clone());
            let ghost inner = text_set(bound@);
            proof {
                assert forall|x: Seq<char>| #[trigger] text_set(bound@).contains(x) <==> b.insert(var@).contains(x) by {
                    if crate::text::has_text(bound@, x) {
                        let k = choose|k: int| 0 <= k < bound@.len() && (#[trigger] bound@[k])@ == x;
                        if k < fixed.len() {
                            assert(fixed[k] == bound@[k]);
                        }
                    }
                    if crate::text::has_text(fixed, x) {
                        let k = choose|k: int| 0 <= k < fixed.len() && (#[trigger] fixed[k])@ == x;
                        assert(bound@[k] == fixed[k]);
                    }
                    if x == var@ {
                        assert(bound@[fixed.len() as int]@ == x);
                    }
                }
                assert(inner =~= b.insert(var@));
            }
            let ghost cm = clause_models(clauses@);
            proof {
                assert(decreases_to!(expr => clauses));
            }
            let mut i: usize = 0;
            while i < clauses.len()
                invariant
                    decreases_to!(expr => clauses),
                    cm == clause_models(clauses@),
                    i <= clauses@.len(),
                    mark == fixed.len(),
                    bound@.len() == mark + 1,
                    bound@.subrange(0, mark as int) == fixed,
                    text_set(bound@) == inner,
                    inner == b.insert(var@),
                    ascending(out@),
                    text_set(out@) == text_set(after_body).union(free_in_clauses(cm, inner, i as int)),
                decreases clauses@.len() - i,
            {
                proof {
                    assert(decreases_to!(clauses => clauses@));
                    assert(decreases_to!(clauses@ => clauses@[i as int]));
                    assert(decreases_to!(clauses@[i as int] => clauses@[i as int].0));
                    assert(decreases_to!(clauses@[i as int] => clauses@[i as int].1));
                }
                let ghost held = bound@;
                free_names(&clauses[i].0, bound, out);
                free_names_body(&clauses[i].1, bound, out);
                proof {
                    assert(cm[i as int].0 == clauses@[i as int].0@);
                    assert(cm[i as int].1 == expr_models(clauses@[i as int].1@));
                    assert(text_set(out@) =~= text_set(after_body).union(free_in_clauses(cm, inner, i + 1)));
                }
                i = i + 1;
            }
            let ghost after_clauses = out@;
            match else_body {
                Some(es) => {
                    free_names_body(es, bound, out);
                },
                None => {},
            }
            bound.truncate(mark);
            proof {
                assert(bound@ =~= fixed);
                assert(text_set(out@) =~= text_set(start).union(free_in(expr@, b)));
            }
        },
        _ => {
            proof {
                assert(text_set(out@) =~= text_set(start).union(free_in(expr@, b)));
            }
        },
    }
}

} // verus!
