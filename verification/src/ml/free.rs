//! Free-variable analysis for typed ml_core expressions: the variables a
//! closure must capture, each with the type at its first occurrence, in
//! order of name.

use vstd::prelude::*;
use crate::ml::ast::{Pattern, PatternModel};
use crate::ml::infer::{TBinding, TExpr, TKind};
use crate::types::{Ty, TyModel};
use crate::text::{contains_text, copy_texts, has_text, lex_le, text_le, text_set};

verus! {

/// The names a pattern binds.
pub open spec fn pat_names(p: PatternModel) -> Set<Seq<char>>
    decreases p, 1int, 0int,
{
    match p {
        PatternModel::Var(n) => Set::empty().insert(n),
        PatternModel::Tuple(items) => pat_names_list(items, items.len() as int),
        PatternModel::Ctor(_, Some(inner)) => pat_names(*inner),
        _ => Set::empty(),
    }
}

pub open spec fn pat_names_list(items: Seq<PatternModel>, n: int) -> Set<Seq<char>>
    decreases items, 0int, n,
{
    if n <= 0 || n > items.len() {
        Set::empty()
    } else {
        pat_names_list(items, n - 1).union(pat_names(items[n - 1]))
    }
}

/// Adds the names `pattern` binds to `out`.
pub fn pattern_names(pattern: &Pattern, out: &mut Vec<String>)
    ensures
        text_set(final(out)@) == text_set(old(out)@).union(pat_names(pattern@)),
    decreases pattern,
{
    let ghost start = out@;
    match pattern {
        Pattern::Var(name) => {
            let ghost prev = out@;
            let copy = name.clone();
            let ghost pushed = copy;
            out.push(copy);
            proof {
                crate::text::lemma_text_set_push(prev, pushed);
                assert(text_set(out@) =~= text_set(start).union(pat_names(pattern@)));
            }
        },
        Pattern::Tuple(items) => {
            let ghost ms = crate::ml::ast::pattern_models(items@);
            let mut i: usize = 0;
            while i < items.len()
                invariant
                    ms == crate::ml::ast::pattern_models(items@),
                    pattern@ == PatternModel::Tuple(ms),
                    decreases_to!(pattern => items),
                    i <= items@.len(),
                    text_set(out@) == text_set(start).union(pat_names_list(ms, i as int)),
                decreases items@.len() - i,
            {
                proof {
                    assert(decreases_to!(items => items@));
                    assert(decreases_to!(items@ => items@[i as int]));
                }
                pattern_names(&items[i], out);
                proof {
                    assert(ms[i as int] == items@[i as int]@);
                    assert(text_set(out@) =~= text_set(start).union(pat_names_list(ms, i + 1)));
                }
                i = i + 1;
            }
        },
        Pattern::Ctor { arg, .. } => {
            match arg {
                Some(inner) => {
                    pattern_names(inner, out);
                },
                None => {
                    proof {
                        assert(text_set(out@) =~= text_set(start).union(pat_names(pattern@)));
                    }
                },
            }
        },
        _ => {
            proof {
                assert(text_set(out@) =~= text_set(start).union(pat_names(pattern@)));
            }
        },
    }
}

} // verus!

verus! {

/// The names bound by the first `n` bindings.
pub open spec fn tb_names(bs: Seq<TBinding>, n: int) -> Set<Seq<char>> {
    Set::new(|x: Seq<char>| exists|i: int| 0 <= i < n && i < bs.len() && (#[trigger] bs[i]).name@ == x)
}

/// Records `name` with type `ty` unless it is bound or already recorded.
pub open spec fn note_var(acc: Map<Seq<char>, TyModel>, bound: Set<Seq<char>>, name: Seq<char>, ty: TyModel) -> Map<Seq<char>, TyModel> {
    if bound.contains(name) || acc.contains_key(name) {
        acc
    } else {
        acc.insert(name, ty)
    }
}

/// The free variables of `e` under `bound`, added to `acc` in
/// evaluation order: each keeps the type of its first occurrence. A
/// `let rec` group sees all its names, a plain `let` each name only
/// after its own binding; bindings marked dead are not looked into; an
/// arm sees the names its pattern binds.
pub open spec fn fv(e: TExpr, bound: Set<Seq<char>>, acc: Map<Seq<char>, TyModel>) -> Map<Seq<char>, TyModel>
    decreases e, 1int, 0int,
{
    match e.kind {
        TKind::Var(name) => note_var(acc, bound, name@, e.ty@),
        TKind::MakeCtor { payload, .. } => fv_list(payload@, bound, acc, payload@.len() as int),
        TKind::Tuple(items) => fv_list(items@, bound, acc, items@.len() as int),
        TKind::Neg(inner) => fv(*inner, bound, acc),
        TKind::Bin { lhs, rhs, .. } => fv(*rhs, bound, fv(*lhs, bound, acc)),
        TKind::If { cond, then, els } => fv(*els, bound, fv(*then, bound, fv(*cond, bound, acc))),
        TKind::Fun { param, body, .. } => fv(*body, match param {
            Some(n) => bound.insert(n@),
            None => bound,
        }, acc),
        TKind::App { func, arg } => fv(*arg, bound, fv(*func, bound, acc)),
        TKind::Let { rec, bindings, body } => {
            let all = bound.union(tb_names(bindings@, bindings@.len() as int));
            if rec {
                fv(*body, all, fv_rec(bindings@, all, acc, bindings@.len() as int))
            } else {
                fv(*body, all, fv_seq(bindings@, bound, acc, bindings@.len() as int))
            }
        },
        TKind::Match { scrutinee, arms } => fv_arms(arms@, bound, fv(*scrutinee, bound, acc), arms@.len() as int),
        _ => acc,
    }
}

pub open spec fn fv_list(es: Seq<TExpr>, bound: Set<Seq<char>>, acc: Map<Seq<char>, TyModel>, n: int) -> Map<Seq<char>, TyModel>
    decreases es, 0int, n,
{
    if n <= 0 || n > es.len() {
        acc
    } else {
        fv(es[n - 1], bound, fv_list(es, bound, acc, n - 1))
    }
}

/// A recursive group: every live binding sees the whole group.
pub open spec fn fv_rec(bs: Seq<TBinding>, inner: Set<Seq<char>>, acc: Map<Seq<char>, TyModel>, n: int) -> Map<Seq<char>, TyModel>
    decreases bs, 0int, n,
{
    if n <= 0 || n > bs.len() {
        acc
    } else {
        let prior = fv_rec(bs, inner, acc, n - 1);
        if bs[n - 1].dead {
            prior
        } else {
            proof {
                assert(decreases_to!(bs => bs[n - 1]));
            }
            fv(bs[n - 1].expr, inner, prior)
        }
    }
}

/// A plain group: each live binding sees only the names bound before it.
pub open spec fn fv_seq(bs: Seq<TBinding>, bound: Set<Seq<char>>, acc: Map<Seq<char>, TyModel>, n: int) -> Map<Seq<char>, TyModel>
    decreases bs, 0int, n,
{
    if n <= 0 || n > bs.len() {
        acc
    } else {
        let prior = fv_seq(bs, bound, acc, n - 1);
        if bs[n - 1].dead {
            prior
        } else {
            proof {
                assert(decreases_to!(bs => bs[n - 1]));
            }
            fv(bs[n - 1].expr, bound.union(tb_names(bs, n - 1)), prior)
        }
    }
}

pub open spec fn fv_arms(arms: Seq<(Pattern, TExpr)>, bound: Set<Seq<char>>, acc: Map<Seq<char>, TyModel>, n: int) -> Map<Seq<char>, TyModel>
    decreases arms, 0int, n,
{
    if n <= 0 || n > arms.len() {
        acc
    } else {
        proof {
            assert(decreases_to!(arms => arms[n - 1]));
        }
        fv(arms[n - 1].1, bound.union(pat_names(arms[n - 1].0@)), fv_arms(arms, bound, acc, n - 1))
    }
}

} // verus!

verus! {

/// The recorded variables as a map from name to type.
pub open spec fn entry_map(s: Seq<(String, Ty)>) -> Map<Seq<char>, TyModel> {
    Map::new(
        |k: Seq<char>| exists|i: int| 0 <= i < s.len() && (#[trigger] s[i]).0@ == k,
        |k: Seq<char>| s[choose|i: int| 0 <= i < s.len() && (#[trigger] s[i]).0@ == k].1@,
    )
}

/// Names strictly ascending.
pub open spec fn names_ascending(s: Seq<(String, Ty)>) -> bool {
    forall|a: int, b: int| 0 <= a < b < s.len() ==> lex_le((#[trigger] s[a]).0@, (#[trigger] s[b]).0@)
        && s[a].0@ != s[b].0@
}

proof fn lemma_entry_at(s: Seq<(String, Ty)>, i: int)
    requires
        names_ascending(s),
        0 <= i < s.len(),
    ensures
        entry_map(s).contains_key(s[i].0@),
        entry_map(s)[s[i].0@] == s[i].1@,
{
    let k = s[i].0@;
    assert(exists|j: int| 0 <= j < s.len() && (#[trigger] s[j]).0@ == k);
    let j = choose|j: int| 0 <= j < s.len() && (#[trigger] s[j]).0@ == k;
    if j < i {
        assert(s[j].0@ != s[i].0@);
    } else if j > i {
        assert(s[i].0@ != s[j].0@);
    }
}

/// Records `name` with type `ty` unless already recorded.
fn note_free(out: &mut Vec<(String, Ty)>, name: &String, ty: &Ty)
    requires
        names_ascending(old(out)@),
    ensures
        names_ascending(final(out)@),
        entry_map(final(out)@) == (if entry_map(old(out)@).contains_key(name@) {
            entry_map(old(out)@)
        } else {
            entry_map(old(out)@).insert(name@, ty@)
        }),
{
    let ghost before = out@;
    let mut p: usize = 0;
    while p < out.len() && !text_le(name.as_str(), out[p].0.as_str())
        invariant
            p <= out@.len(),
            out@ == before,
            forall|i: int| 0 <= i < p ==> !lex_le(name@, (#[trigger] out@[i]).0@),
        decreases out@.len() - p,
    {
        p = p + 1;
    }
    if p < out.len() && crate::text::str_eq(out[p].0.as_str(), name.as_str()) {
        proof {
            lemma_entry_at(before, p as int);
        }
        return;
    }
    let entry = (name.clone(), ty.clone());
    let ghost item = entry;
    proof {
        let s = before.insert(p as int, item);
        assert forall|a: int, b: int| 0 <= a < b < s.len() implies lex_le((#[trigger] s[a]).0@, (#[trigger] s[b]).0@)
            && s[a].0@ != s[b].0@ by {
            let x = name@;
            if a < p && b == p {
                crate::text::lemma_lex_total(x, before[a].0@);
            } else if a == p && b > p {
                if b - 1 > p {
                    assert(lex_le(before[p as int].0@, before[b - 1].0@) && before[p as int].0@ != before[b - 1].0@);
                    crate::text::lemma_lex_trans(x, before[p as int].0@, before[b - 1].0@);
                    if x == before[b - 1].0@ {
                        crate::text::lemma_lex_antisym(x, before[p as int].0@);
                    }
                }
            } else if a < p && b > p {
                assert(s[a] == before[a] && s[b] == before[b - 1]);
            } else if b < p {
                assert(s[a] == before[a] && s[b] == before[b]);
            } else {
                assert(s[a] == before[a - 1] && s[b] == before[b - 1]);
            }
        }
        assert(!entry_map(before).contains_key(name@)) by {
            if entry_map(before).contains_key(name@) {
                let j = choose|j: int| 0 <= j < before.len() && (#[trigger] before[j]).0@ == name@;
                if j < p {
                    assert(!lex_le(name@, before[j].0@));
                    crate::text::lemma_lex_total(name@, before[j].0@);
                    assert(false);
                } else if j > p {
                    assert(lex_le(name@, before[p as int].0@));
                    assert(lex_le(before[p as int].0@, before[j].0@));
                    crate::text::lemma_lex_trans(name@, before[p as int].0@, before[j].0@);
                    crate::text::lemma_lex_antisym(name@, before[j].0@);
                    crate::text::lemma_lex_antisym(name@, before[p as int].0@);
                }
            }
        }
        assert forall|k: Seq<char>| #[trigger] entry_map(s).contains_key(k) <==> entry_map(before).insert(name@, ty@).contains_key(k) by {
            if entry_map(s).contains_key(k) {
                let i = choose|i: int| 0 <= i < s.len() && (#[trigger] s[i]).0@ == k;
                if i < p {
                    assert(before[i].0@ == k);
                } else if i > p {
                    assert(before[i - 1].0@ == k);
                }
            }
            if entry_map(before).contains_key(k) {
                let i = choose|i: int| 0 <= i < before.len() && (#[trigger] before[i]).0@ == k;
                if i < p {
                    assert(s[i].0@ == k);
                } else {
                    assert(s[i + 1].0@ == k);
                }
            }
            if k == name@ {
                assert(s[p as int].0@ == k);
            }
        }
        assert forall|k: Seq<char>| entry_map(s).contains_key(k) implies #[trigger] entry_map(s)[k] == entry_map(before).insert(name@, ty@)[k] by {
            let i = choose|i: int| 0 <= i < s.len() && (#[trigger] s[i]).0@ == k;
            lemma_entry_at(s, i);
            if i < p {
                lemma_entry_at(before, i);
            } else if i > p {
                lemma_entry_at(before, i - 1);
            }
        }
        assert(entry_map(s) =~= entry_map(before).insert(name@, ty@));
    }
    out.insert(p, entry);
}

} // verus!

verus! {

/// Adds to `out` the free variables of `expr` under `bound`, each with
/// the type of its first occurrence; names already in `out` keep theirs.
pub fn free_vars(expr: &TExpr, bound: &Vec<String>, out: &mut Vec<(String, Ty)>)
    requires
        names_ascending(old(out)@),
    ensures
        names_ascending(final(out)@),
        entry_map(final(out)@) == fv(*expr, text_set(bound@), entry_map(old(out)@)),
    decreases expr,
{
    let ghost b = text_set(bound@);
    let ghost acc = entry_map(out@);
    match &expr.kind {
        TKind::Var(name) => {
            if !contains_text(bound, name.as_str()) {
                note_free(out, name, &expr.ty);
            }
        },
        TKind::MakeCtor { payload: items, .. } | TKind::Tuple(items) => {
            proof {
                assert(decreases_to!(expr => expr.kind));
            }
            let mut i: usize = 0;
            while i < items.len()
                invariant
                    decreases_to!(expr => items),
                    fv(*expr, b, acc) == fv_list(items@, b, acc, items@.len() as int),
                    b == text_set(bound@),
                    i <= items@.len(),
                    names_ascending(out@),
                    entry_map(out@) == fv_list(items@, b, acc, i as int),
                decreases items@.len() - i,
            {
                proof {
                    assert(decreases_to!(items => items@));
                    assert(decreases_to!(items@ => items@[i as int]));
                }
                free_vars(&items[i], bound, out);
                i = i + 1;
            }
        },
        TKind::Neg(inner) => {
            free_vars(inner, bound, out);
        },
        TKind::Bin { lhs, rhs, .. } => {
            free_vars(lhs, bound, out);
            free_vars(rhs, bound, out);
        },
        TKind::If { cond, then, els } => {
            free_vars(cond, bound, out);
            free_vars(then, bound, out);
            free_vars(els, bound, out);
        },
        TKind::Fun { param, body, .. } => {
            match param {
                Some(name) => {
                    let mut inner = copy_texts(bound);
                    let copy = name.clone();
                    let ghost pushed = copy;
                    inner.push(copy);
                    proof {
                        crate::text::lemma_text_set_push(bound@, pushed);
                    }
                    free_vars(body, &inner, out);
                },
                None => {
                    free_vars(body, bound, out);
                },
            }
        },
        TKind::App { func, arg } => {
            free_vars(func, bound, out);
            free_vars(arg, bound, out);
        },
        TKind::Let { rec, bindings, body } => {
            let ghost bs = bindings@;
            let ghost all = b.union(tb_names(bs, bs.len() as int));
            proof {
                assert(decreases_to!(expr => expr.kind));
                assert(decreases_to!(expr => bindings));
            }
            let mut inner = copy_texts(bound);
            if *rec {
                let mut k: usize = 0;
                while k < bindings.len()
                    invariant
                        bs == bindings@,
                        k <= bs.len(),
                        text_set(inner@) == b.union(tb_names(bs, k as int)),
                    decreases bs.len() - k,
                {
                    let ghost prev = inner@;
                    let copy = bindings[k].name.clone();
                    let ghost pushed = copy;
                    inner.push(copy);
                    proof {
                        crate::text::lemma_text_set_push(prev, pushed);
                        assert(tb_names(bs, k + 1) =~= tb_names(bs, k as int).insert(bs[k as int].name@));
                        assert(text_set(inner@) =~= b.union(tb_names(bs, k + 1)));
                    }
                    k = k + 1;
                }
                let mut i: usize = 0;
                while i < bindings.len()
                    invariant
                        decreases_to!(expr => bindings),
                        bs == bindings@,
                        text_set(inner@) == all,
                        i <= bs.len(),
                        names_ascending(out@),
                        entry_map(out@) == fv_rec(bs, all, acc, i as int),
                    decreases bs.len() - i,
                {
                    proof {
                        assert(decreases_to!(bindings => bindings@));
                        assert(decreases_to!(bindings@ => bindings@[i as int]));
                        assert(decreases_to!(bindings@[i as int] => bindings@[i as int].expr));
                    }
                    if !bindings[i].dead {
                        free_vars(&bindings[i].expr, &inner, out);
                    }
                    i = i + 1;
                }
                free_vars(body, &inner, out);
            } else {
                let mut i: usize = 0;
                while i < bindings.len()
                    invariant
                        decreases_to!(expr => bindings),
                        bs == bindings@,
                        b == text_set(bound@),
                        text_set(inner@) == b.union(tb_names(bs, i as int)),
                        i <= bs.len(),
                        names_ascending(out@),
                        entry_map(out@) == fv_seq(bs, b, acc, i as int),
                    decreases bs.len() - i,
                {
                    proof {
                        assert(decreases_to!(bindings => bindings@));
                        assert(decreases_to!(bindings@ => bindings@[i as int]));
                        assert(decreases_to!(bindings@[i as int] => bindings@[i as int].expr));
                    }
                    if !bindings[i].dead {
                        free_vars(&bindings[i].expr, &inner, out);
                    }
                    let ghost prev = inner@;
                    let copy = bindings[i].name.clone();
                    let ghost pushed = copy;
                    inner.push(copy);
                    proof {
                        crate::text::lemma_text_set_push(prev, pushed);
                        assert(tb_names(bs, i + 1) =~= tb_names(bs, i as int).insert(bs[i as int].name@));
                        assert(text_set(inner@) =~= b.union(tb_names(bs, i + 1)));
                    }
                    i = i + 1;
                }
                free_vars(body, &inner, out);
            }
        },
        TKind::Match { scrutinee, arms } => {
            free_vars(scrutinee, bound, out);
            let ghost after = entry_map(out@);
            let ghost am = arms@;
            proof {
                assert(decreases_to!(expr => expr.kind));
                assert(decreases_to!(expr => arms));
            }
            let mut i: usize = 0;
            while i < arms.len()
                invariant
                    decreases_to!(expr => arms),
                    am == arms@,
                    b == text_set(bound@),
                    i <= am.len(),
                    names_ascending(out@),
                    entry_map(out@) == fv_arms(am, b, after, i as int),
                decreases am.len() - i,
            {
                proof {
                    assert(decreases_to!(arms => arms@));
                    assert(decreases_to!(arms@ => arms@[i as int]));
                    assert(decreases_to!(arms@[i as int] => arms@[i as int].1));
                }
                let mut inner = copy_texts(bound);
                pattern_names(&arms[i].0, &mut inner);
                free_vars(&arms[i].1, &inner, out);
                i = i + 1;
            }
        },
        _ => {},
    }
}

} // verus!
