use frankish::ml::unify::TypeTable;
use frankish::types::{Ty, TyVid};

fn var(table: &mut TypeTable) -> Ty {
    Ty::Var(table.fresh().expect("a fresh variable"))
}

fn fun(a: Ty, b: Ty) -> Ty {
    Ty::Fun(Box::new(a), Box::new(b))
}

#[test]
fn a_bound_variable_resolves_to_its_binding() {
    let mut table = TypeTable::new();
    let a = var(&mut table);
    table.unify(&a, &Ty::Int).unwrap();
    assert_eq!(table.resolve(&a).text(), "int");
}

#[test]
fn unified_types_resolve_alike() {
    let mut table = TypeTable::new();
    let a = var(&mut table);
    let b = var(&mut table);
    let c = var(&mut table);
    let left = fun(a.duplicate(), b.duplicate());
    let right = fun(Ty::Int, c.duplicate());
    table.unify(&left, &right).unwrap();
    assert_eq!(table.resolve(&left).text(), table.resolve(&right).text());
    // A later binding refines both sides alike.
    table.unify(&c, &Ty::Tuple(vec![Ty::Bool, Ty::Unit])).unwrap();
    assert_eq!(table.resolve(&left).text(), "(int -> (bool * unit))");
    assert_eq!(table.resolve(&right).text(), "(int -> (bool * unit))");
}

#[test]
fn merged_variables_share_their_binding() {
    let mut table = TypeTable::new();
    let a = var(&mut table);
    let b = var(&mut table);
    table.unify(&a, &b).unwrap();
    assert_eq!(table.resolve(&a).text(), table.resolve(&b).text());
    table.unify(&b, &Ty::Adt("shape".to_string())).unwrap();
    assert_eq!(table.resolve(&a).text(), "shape");
}

#[test]
fn mismatches_and_infinite_types_are_refused() {
    let mut table = TypeTable::new();
    let e = table.unify(&Ty::Int, &Ty::Bool).unwrap_err();
    assert_eq!(e.0, "cannot unify int with bool");
    let a = var(&mut table);
    let e = table.unify(&a, &fun(a.duplicate(), Ty::Int)).unwrap_err();
    assert_eq!(e.0, "infinite type: 't0 = ('t0 -> int)");
    let e = table
        .unify(&Ty::Tuple(vec![Ty::Int]), &Ty::Tuple(vec![Ty::Int, Ty::Int]))
        .unwrap_err();
    assert_eq!(e.0, "cannot unify (int) with (int * int)");
    // A refusal leaves the variable free.
    assert_eq!(table.resolve(&a).text(), "'t0");
    assert!(matches!(table.resolve(&Ty::Var(TyVid(0))), Ty::Var(TyVid(0))));
}

#[test]
fn free_vars_appends_new_variables_in_first_occurrence_order() {
    let mut table = TypeTable::new();
    let a = var(&mut table);
    let b = var(&mut table);
    let c = var(&mut table);
    table.unify(&c, &Ty::Int).unwrap();
    let (va, vb) = match (&a, &b) {
        (Ty::Var(x), Ty::Var(y)) => (*x, *y),
        _ => unreachable!(),
    };
    let mut out = vec![vb];
    let ty = fun(b.duplicate(), Ty::Tuple(vec![a.duplicate(), c.duplicate(), a.duplicate()]));
    table.free_vars(&ty, &mut out);
    let ids: Vec<u32> = out.iter().map(|v| v.0).collect();
    assert_eq!(ids, vec![vb.0, va.0]);
}

#[test]
fn substitute_renames_through_the_first_matching_pair() {
    let mut table = TypeTable::new();
    let a = var(&mut table);
    let b = var(&mut table);
    let (va, vb) = match (&a, &b) {
        (Ty::Var(x), Ty::Var(y)) => (*x, *y),
        _ => unreachable!(),
    };
    let map = vec![(va, vb), (va, va)];
    let r = table.substitute(&fun(a.duplicate(), Ty::Int), &map);
    assert_eq!(r.text(), fun(b.duplicate(), Ty::Int).text());
}

#[test]
fn zonk_refuses_exactly_a_remaining_variable() {
    let mut table = TypeTable::new();
    let a = var(&mut table);
    assert!(table.zonk_ty(&fun(a.duplicate(), Ty::Int)).is_err());
    table.unify(&a, &Ty::Bool).unwrap();
    assert_eq!(table.zonk_ty(&fun(a.duplicate(), Ty::Int)).unwrap().text(), "(bool -> int)");
}

#[test]
fn types_that_already_resolve_alike_unify() {
    let mut table = TypeTable::new();
    let a = var(&mut table);
    table.unify(&a, &Ty::Int).unwrap();
    assert!(table.unify(&fun(a.duplicate(), Ty::Int), &fun(Ty::Int, a.duplicate())).is_ok());
    assert!(table.unify(&Ty::Int, &Ty::Bool).is_err());
}
