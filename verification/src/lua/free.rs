//! Free-name analysis for Lua chunks: which names a function body reads
//! or writes that its own locals and parameters do not bind. A closure
//! captures the outer locals among them; the rest are globals.

use vstd::prelude::*;
use crate::lua::ast::{Expr, ExprModel, Field, FieldModel, Stat, StatModel, texts, expr_models, field_models, stat_models, arm_models};
use crate::text::{ascending, contains_text, copy_texts, extend_texts, insert_sorted, text_set, texts_of};

verus! {

/// The names among `names` that `bound` does not bind.
pub open spec fn unbound(names: Seq<Seq<char>>, bound: Set<Seq<char>>) -> Set<Seq<char>> {
    names.to_set().difference(bound)
}

/// The free names of an expression under `bound`.
pub open spec fn expr_free(e: ExprModel, bound: Set<Seq<char>>) -> Set<Seq<char>>
    decreases e, 1int, 0int,
{
    match e {
        ExprModel::Name(n, _) => if bound.contains(n) {
            Set::empty()
        } else {
            Set::empty().insert(n)
        },
        ExprModel::Index(t, k, _) => expr_free(*t, bound).union(expr_free(*k, bound)),
        ExprModel::Call(f, args, _) => expr_free(*f, bound).union(exprs_free(args, bound, args.len() as int)),
        ExprModel::Function(params, body, _) => block_free(body, bound.union(params.to_set()), body.len() as int).0,
        ExprModel::Table(fields, _) => fields_free(fields, bound, fields.len() as int),
        ExprModel::Binary(_, l, r, _) => expr_free(*l, bound).union(expr_free(*r, bound)),
        ExprModel::Unary(_, x, _) => expr_free(*x, bound),
        _ => Set::empty(),
    }
}

/// The free names of the first `n` expressions.
pub open spec fn exprs_free(es: Seq<ExprModel>, bound: Set<Seq<char>>, n: int) -> Set<Seq<char>>
    decreases es, 0int, n,
{
    if n <= 0 || n > es.len() {
        Set::empty()
    } else {
        exprs_free(es, bound, n - 1).union(expr_free(es[n - 1], bound))
    }
}

/// The free names of the first `n` table fields.
pub open spec fn fields_free(fs: Seq<FieldModel>, bound: Set<Seq<char>>, n: int) -> Set<Seq<char>>
    decreases fs, 0int, n,
{
    if n <= 0 || n > fs.len() {
        Set::empty()
    } else {
        proof {
            assert(decreases_to!(fs => fs[n - 1]));
        }
        fields_free(fs, bound, n - 1).union(match fs[n - 1] {
            FieldModel::Positional(v) => expr_free(v, bound),
            FieldModel::Named(_, v) => expr_free(v, bound),
            FieldModel::Keyed(k, v) => expr_free(k, bound).union(expr_free(v, bound)),
        })
    }
}

/// The free names of a statement under `bound`, and what is bound after
/// it: a `local` binds its names for the statements that follow, a
/// `local function` its name for itself and what follows; blocks keep
/// their own locals to themselves; an assignment to a name not bound
/// makes that name free.
pub open spec fn stat_free(s: StatModel, bound: Set<Seq<char>>) -> (Set<Seq<char>>, Set<Seq<char>>)
    decreases s, 1int, 0int,
{
    match s {
        StatModel::Local(name, value, _) => (expr_free(value, bound), bound.insert(name)),
        StatModel::LocalFunction(name, params, body, _) => {
            let outer = bound.insert(name);
            (block_free(body, outer.union(params.to_set()), body.len() as int).0, outer)
        },
        StatModel::GlobalFunction(_, params, body, _) => (block_free(body, bound.union(params.to_set()), body.len() as int).0, bound),
        StatModel::AssignName(name, value, _) => (expr_free(value, bound).union(unbound(seq![name], bound)), bound),
        StatModel::AssignIndex(t, k, v, _) => (expr_free(t, bound).union(expr_free(k, bound)).union(expr_free(v, bound)), bound),
        StatModel::Call(e, _) => (expr_free(e, bound), bound),
        StatModel::Return(values, _) => (exprs_free(values, bound, values.len() as int), bound),
        StatModel::Break(_) => (Set::empty(), bound),
        StatModel::Repeat(body, cond, _) => {
            let inside = block_free(body, bound, body.len() as int);
            (inside.0.union(expr_free(cond, inside.1)), bound)
        },
        StatModel::LocalMulti(names, value, _) => (expr_free(value, bound), bound.union(names.to_set())),
        StatModel::AssignMulti(names, value, _) => (expr_free(value, bound).union(unbound(names, bound)), bound),
        StatModel::GenFor(names, iter, body, _) => (
            expr_free(iter, bound).union(block_free(body, bound.union(names.to_set()), body.len() as int).0),
            bound,
        ),
        StatModel::Do(body, _) => (block_free(body, bound, body.len() as int).0, bound),
        StatModel::If(arms, otherwise, _) => (arms_free(arms, bound, arms.len() as int).union(match otherwise {
            Some(b) => block_free(b, bound, b.len() as int).0,
            None => Set::empty(),
        }), bound),
        StatModel::While(cond, body, _) => (expr_free(cond, bound).union(block_free(body, bound, body.len() as int).0), bound),
        StatModel::NumFor(var, from, to, step, body, _) => (
            expr_free(from, bound).union(expr_free(to, bound)).union(match step {
                Some(x) => expr_free(x, bound),
                None => Set::empty(),
            }).union(block_free(body, bound.insert(var), body.len() as int).0),
            bound,
        ),
    }
}

/// The free names of the first `n` statements of a block, and what is
/// bound after them.
pub open spec fn block_free(b: Seq<StatModel>, bound: Set<Seq<char>>, n: int) -> (Set<Seq<char>>, Set<Seq<char>>)
    decreases b, 0int, n,
{
    if n <= 0 || n > b.len() {
        (Set::empty(), bound)
    } else {
        let prior = block_free(b, bound, n - 1);
        let step = stat_free(b[n - 1], prior.1);
        (prior.0.union(step.0), step.1)
    }
}

/// The free names of the first `n` arms of an `if`.
pub open spec fn arms_free(arms: Seq<(ExprModel, Seq<StatModel>)>, bound: Set<Seq<char>>, n: int) -> Set<Seq<char>>
    decreases arms, 0int, n,
{
    if n <= 0 || n > arms.len() {
        Set::empty()
    } else {
        proof {
            assert(decreases_to!(arms => arms[n - 1]));
        }
        arms_free(arms, bound, n - 1).union(expr_free(arms[n - 1].0, bound)).union(
            block_free(arms[n - 1].1, bound, arms[n - 1].1.len() as int).0,
        )
    }
}

} // verus!

verus! {

/// Adds to `out` the free names of `expression` under `bound`.
pub fn free_names_expr(expression: &Expr, bound: &Vec<String>, out: &mut Vec<String>)
    requires
        ascending(old(out)@),
    ensures
        ascending(final(out)@),
        text_set(final(out)@) == text_set(old(out)@).union(expr_free(expression@, text_set(bound@))),
    decreases expression, 1int,
{
    let ghost start = out@;
    let ghost b = text_set(bound@);
    match expression {
        Expr::Name(name, _) => {
            if !contains_text(bound, name.as_str()) {
                insert_sorted(out, name.clone());
                proof {
                    assert(text_set(out@) =~= text_set(start).union(Set::empty().insert(name@)));
                }
            } else {
                proof {
                    assert(text_set(out@) =~= text_set(start).union(Set::empty()));
                }
            }
        },
        Expr::Index(table, key, _) => {
            free_names_expr(table, bound, out);
            free_names_expr(key, bound, out);
            proof {
                assert(text_set(out@) =~= text_set(start).union(expr_free(expression@, b)));
            }
        },
        Expr::Call(callee, arguments, _) => {
            free_names_expr(callee, bound, out);
            let ghost after = out@;
            let ghost ms = expr_models(arguments@);
            proof {
                assert(decreases_to!(expression => arguments));
            }
            let mut i: usize = 0;
            while i < arguments.len()
                invariant
                    decreases_to!(expression => arguments),
                    ms == expr_models(arguments@),
                    b == text_set(bound@),
                    i <= arguments@.len(),
                    ascending(out@),
                    text_set(out@) == text_set(after).union(exprs_free(ms, b, i as int)),
                decreases arguments@.len() - i,
            {
                proof {
                    assert(decreases_to!(arguments => arguments@));
                    assert(decreases_to!(arguments@ => arguments@[i as int]));
                }
                free_names_expr(&arguments[i], bound, out);
                proof {
                    assert(ms[i as int] == arguments@[i as int]@);
                    assert(text_set(out@) =~= text_set(after).union(exprs_free(ms, b, i + 1)));
                }
                i = i + 1;
            }
            proof {
                assert(text_set(out@) =~= text_set(start).union(expr_free(expression@, b)));
            }
        },
        Expr::Function(params, body, _) => {
            let mut inner = copy_texts(bound);
            extend_texts(&mut inner, params);
            proof {
                assert(texts(params@) =~= texts_of(params@));
            }
            free_names_block(body, &mut inner, out);
        },
        Expr::Table(fields, _) => {
            let ghost ms = field_models(fields@);
            proof {
                assert(decreases_to!(expression => fields));
            }
            let mut i: usize = 0;
            while i < fields.len()
                invariant
                    decreases_to!(expression => fields),
                    ms == field_models(fields@),
                    b == text_set(bound@),
                    i <= fields@.len(),
                    ascending(out@),
                    text_set(out@) == text_set(start).union(fields_free(ms, b, i as int)),
                decreases fields@.len() - i,
            {
                proof {
                    assert(decreases_to!(fields => fields@));
                    assert(decreases_to!(fields@ => fields@[i as int]));
                }
                let ghost before = out@;
                match &fields[i] {
                    Field::Positional(value) => {
                        free_names_expr(value, bound, out);
                    },
                    Field::Named(_, value) => {
                        free_names_expr(value, bound, out);
                    },
                    Field::Keyed(key, value) => {
                        free_names_expr(key, bound, out);
                        free_names_expr(value, bound, out);
                    },
                }
                proof {
                    assert(text_set(out@) =~= text_set(start).union(fields_free(ms, b, i + 1)));
                }
                i = i + 1;
            }
        },
        Expr::Binary(_, lhs, rhs, _) => {
            free_names_expr(lhs, bound, out);
            free_names_expr(rhs, bound, out);
            proof {
                assert(text_set(out@) =~= text_set(start).union(expr_free(expression@, b)));
            }
        },
        Expr::Unary(_, operand, _) => {
            free_names_expr(operand, bound, out);
        },
        _ => {
            proof {
                assert(text_set(out@) =~= text_set(start).union(expr_free(expression@, b)));
            }
        },
    }
}

/// Adds to `out` the free names of a block's statements under `bound`;
/// the block's own locals do not outlive it.
pub fn free_names_block(block: &Vec<Stat>, bound: &mut Vec<String>, out: &mut Vec<String>)
    requires
        ascending(old(out)@),
    ensures
        final(bound)@ == old(bound)@,
        ascending(final(out)@),
        text_set(final(out)@) == text_set(old(out)@).union(
            block_free(stat_models(block@), text_set(old(bound)@), block@.len() as int).0,
        ),
    decreases block, 0int,
{
    let ghost start = out@;
    let ghost fixed = bound@;
    let ghost b = text_set(bound@);
    let ghost ms = stat_models(block@);
    let mark = bound.len();
    let mut i: usize = 0;
    while i < block.len()
        invariant
            ms == stat_models(block@),
            b == text_set(fixed),
            mark == fixed.len(),
            bound@.len() >= mark,
            bound@.subrange(0, mark as int) == fixed,
            i <= block@.len(),
            ascending(out@),
            text_set(out@) == text_set(start).union(block_free(ms, b, i as int).0),
            text_set(bound@) == block_free(ms, b, i as int).1,
        decreases block@.len() - i,
    {
        proof {
            assert(decreases_to!(block => block@));
            assert(decreases_to!(block@ => block@[i as int]));
        }
        let ghost held = bound@;
        free_names_stat(&block[i], bound, out);
        proof {
            assert(ms[i as int] == block@[i as int]@);
            assert(bound@.subrange(0, mark as int) =~= held.subrange(0, mark as int));
            assert(text_set(out@) =~= text_set(start).union(block_free(ms, b, i + 1).0));
        }
        i = i + 1;
    }
    bound.truncate(mark);
    proof {
        assert(bound@ =~= fixed);
    }
}

} // verus!

verus! {

/// Adds to `out` the free names of `statement` under `bound`, and binds
/// in `bound` what the statement declares for the statements after it.
pub fn free_names_stat(statement: &Stat, bound: &mut Vec<String>, out: &mut Vec<String>)
    requires
        ascending(old(out)@),
    ensures
        ascending(final(out)@),
        final(bound)@.len() >= old(bound)@.len(),
        final(bound)@.subrange(0, old(bound)@.len() as int) == old(bound)@,
        text_set(final(out)@) == text_set(old(out)@).union(stat_free(statement@, text_set(old(bound)@)).0),
        text_set(final(bound)@) == stat_free(statement@, text_set(old(bound)@)).1,
    decreases statement, 1int,
{
    let ghost start = out@;
    let ghost fixed = bound@;
    let ghost b = text_set(bound@);
    proof {
        assert(fixed.subrange(0, fixed.len() as int) =~= fixed);
    }
    match statement {
        Stat::Local(name, value, _) => {
            free_names_expr(value, bound, out);
            let copy = name.clone();
            let ghost pushed = copy;
            bound.push(copy);
            proof {
                crate::text::lemma_text_set_push(fixed, pushed);
                assert(bound@.subrange(0, fixed.len() as int) =~= fixed);
            }
        },
        Stat::LocalFunction(name, params, body, _) => {
            let copy = name.clone();
            let ghost pushed = copy;
            bound.push(copy);
            proof {
                crate::text::lemma_text_set_push(fixed, pushed);
                assert(bound@.subrange(0, fixed.len() as int) =~= fixed);
            }
            let mut inner = copy_texts(bound);
            extend_texts(&mut inner, params);
            proof {
                assert(texts(params@) =~= texts_of(params@));
            }
            free_names_block(body, &mut inner, out);
        },
        Stat::GlobalFunction(_, params, body, _) => {
            let mut inner = copy_texts(bound);
            extend_texts(&mut inner, params);
            proof {
                assert(texts(params@) =~= texts_of(params@));
            }
            free_names_block(body, &mut inner, out);
        },
        Stat::AssignName(name, value, _) => {
            free_names_expr(value, bound, out);
            let ghost after = out@;
            if !contains_text(bound, name.as_str()) {
                insert_sorted(out, name.clone());
                proof {
                    assert(text_set(out@) =~= text_set(after).insert(name@));
                }
            } else {
                proof {
                    assert(b.contains(name@));
                }
            }
            proof {
                Seq::<Seq<char>>::empty().lemma_push_to_set_commute(name@);
                assert(seq![name@] =~= Seq::<Seq<char>>::empty().push(name@));
                assert(Seq::<Seq<char>>::empty().to_set() =~= Set::empty());
            }
            proof {
                assert(text_set(out@) =~= text_set(start).union(stat_free(statement@, b).0));
            }
        },
        Stat::AssignIndex(table, key, value, _) => {
            free_names_expr(table, bound, out);
            free_names_expr(key, bound, out);
            free_names_expr(value, bound, out);
            proof {
                assert(text_set(out@) =~= text_set(start).union(stat_free(statement@, b).0));
            }
        },
        Stat::Call(expression, _) => {
            free_names_expr(expression, bound, out);
        },
        Stat::Return(values, _) => {
            let ghost ms = expr_models(values@);
            proof {
                assert(decreases_to!(statement => values));
            }
            let mut i: usize = 0;
            while i < values.len()
                invariant
                    decreases_to!(statement => values),
                    ms == expr_models(values@),
                    b == text_set(bound@),
                    i <= values@.len(),
                    ascending(out@),
                    text_set(out@) == text_set(start).union(exprs_free(ms, b, i as int)),
                decreases values@.len() - i,
            {
                proof {
                    assert(decreases_to!(values => values@));
                    assert(decreases_to!(values@ => values@[i as int]));
                }
                free_names_expr(&values[i], bound, out);
                proof {
                    assert(ms[i as int] == values@[i as int]@);
                    assert(text_set(out@) =~= text_set(start).union(exprs_free(ms, b, i + 1)));
                }
                i = i + 1;
            }
        },
        Stat::Break(_) => {
            proof {
                assert(text_set(out@) =~= text_set(start).union(Set::empty()));
            }
        },
        Stat::Repeat(body, condition, _) => {
            let ghost ms = stat_models(body@);
            let mut inner = copy_texts(bound);
            proof {
                assert(decreases_to!(statement => body));
            }
            let mut i: usize = 0;
            while i < body.len()
                invariant
                    decreases_to!(statement => body),
                    ms == stat_models(body@),
                    b == text_set(fixed),
                    i <= body@.len(),
                    ascending(out@),
                    text_set(out@) == text_set(start).union(block_free(ms, b, i as int).0),
                    text_set(inner@) == block_free(ms, b, i as int).1,
                decreases body@.len() - i,
            {
                proof {
                    assert(decreases_to!(body => body@));
                    assert(decreases_to!(body@ => body@[i as int]));
                }
                free_names_stat(&body[i], &mut inner, out);
                proof {
                    assert(ms[i as int] == body@[i as int]@);
                    assert(text_set(out@) =~= text_set(start).union(block_free(ms, b, i + 1).0));
                }
                i = i + 1;
            }
            free_names_expr(condition, &inner, out);
            proof {
                assert(text_set(out@) =~= text_set(start).union(stat_free(statement@, b).0));
            }
        },
        Stat::LocalMulti(names, value, _) => {
            free_names_expr(value, bound, out);
            extend_texts(bound, names);
            proof {
                assert(texts(names@) =~= texts_of(names@));
            }
        },
        Stat::AssignMulti(names, value, _) => {
            free_names_expr(value, bound, out);
            let ghost after = out@;
            let ghost ns = texts(names@);
            proof {
                assert(ns.take(0) =~= Seq::<Seq<char>>::empty());
                assert(Seq::<Seq<char>>::empty().to_set() =~= Set::empty());
                assert(text_set(out@) =~= text_set(after).union(ns.take(0).to_set().difference(b)));
            }
            let mut i: usize = 0;
            while i < names.len()
                invariant
                    ns == texts(names@),
                    b == text_set(bound@),
                    i <= names@.len(),
                    ascending(out@),
                    text_set(out@) == text_set(after).union(ns.take(i as int).to_set().difference(b)),
                decreases names@.len() - i,
            {
                let ghost prev = out@;
                if !contains_text(bound, names[i].as_str()) {
                    insert_sorted(out, names[i].clone());
                    proof {
                        assert(text_set(out@) =~= text_set(prev).insert(names@[i as int]@));
                    }
                } else {
                    proof {
                        assert(b.contains(names@[i as int]@));
                    }
                }
                proof {
                    assert(ns.take(i + 1) =~= ns.take(i as int).push(ns[i as int]));
                    ns.take(i as int).lemma_push_to_set_commute(ns[i as int]);
                    assert(ns[i as int] == names@[i as int]@);
                    assert(text_set(out@) =~= text_set(after).union(ns.take(i + 1).to_set().difference(b)));
                }
                i = i + 1;
            }
            proof {
                assert(ns.take(ns.len() as int) =~= ns);
                assert(text_set(out@) =~= text_set(start).union(stat_free(statement@, b).0));
            }
        },
        Stat::GenFor(names, iterator, body, _) => {
            free_names_expr(iterator, bound, out);
            let mut inner = copy_texts(bound);
            extend_texts(&mut inner, names);
            proof {
                assert(texts(names@) =~= texts_of(names@));
            }
            free_names_block(body, &mut inner, out);
            proof {
                assert(text_set(out@) =~= text_set(start).union(stat_free(statement@, b).0));
            }
        },
        Stat::Do(body, _) => {
            free_names_block(body, bound, out);
        },
        Stat::If(arms, otherwise, _) => {
            let ghost ms = arm_models(arms@);
            proof {
                assert(decreases_to!(statement => arms));
            }
            let mut i: usize = 0;
            while i < arms.len()
                invariant
                    decreases_to!(statement => arms),
                    ms == arm_models(arms@),
                    bound@ == fixed,
                    b == text_set(fixed),
                    i <= arms@.len(),
                    ascending(out@),
                    text_set(out@) == text_set(start).union(arms_free(ms, b, i as int)),
                decreases arms@.len() - i,
            {
                proof {
                    assert(decreases_to!(arms => arms@));
                    assert(decreases_to!(arms@ => arms@[i as int]));
                    assert(decreases_to!(arms@[i as int] => arms@[i as int].0));
                    assert(decreases_to!(arms@[i as int] => arms@[i as int].1));
                }
                free_names_expr(&arms[i].0, bound, out);
                free_names_block(&arms[i].1, bound, out);
                proof {
                    assert(ms[i as int].0 == arms@[i as int].0@);
                    assert(ms[i as int].1 == stat_models(arms@[i as int].1@));
                    assert(text_set(out@) =~= text_set(start).union(arms_free(ms, b, i + 1)));
                }
                i = i + 1;
            }
            let ghost after = out@;
            match otherwise {
                Some(body) => {
                    free_names_block(body, bound, out);
                },
                None => {},
            }
            proof {
                assert(text_set(out@) =~= text_set(start).union(stat_free(statement@, b).0));
            }
        },
        Stat::While(condition, body, _) => {
            free_names_expr(condition, bound, out);
            free_names_block(body, bound, out);
            proof {
                assert(text_set(out@) =~= text_set(start).union(stat_free(statement@, b).0));
            }
        },
        Stat::NumFor(variable, from, to, step, body, _) => {
            free_names_expr(from, bound, out);
            free_names_expr(to, bound, out);
            match step {
                Some(step) => {
                    free_names_expr(step, bound, out);
                },
                None => {},
            }
            let mut inner = copy_texts(bound);
            let copy = variable.clone();
            let ghost pushed = copy;
            inner.push(copy);
            proof {
                crate::text::lemma_text_set_push(fixed, pushed);
            }
            free_names_block(body, &mut inner, out);
            proof {
                assert(text_set(out@) =~= text_set(start).union(stat_free(statement@, b).0));
            }
        },
    }
}

} // verus!
