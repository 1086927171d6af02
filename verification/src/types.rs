//! The type language of the ml_core type kit. Type variables are keys
//! into the unification table; an unresolved variable carries no type.

use vstd::prelude::*;
use crate::text::{chars_of, push_str, string_of};

verus! {

#[derive(Clone, Copy, Debug, PartialEq, Eq, Hash, PartialOrd, Ord)]
pub struct TyVid(pub u32);

#[derive(Debug, PartialEq, Eq)]
pub enum Ty {
    Unit,
    Bool,
    Int,
    Tuple(Vec<Ty>),
    /// Nominal reference to a declared (non-recursive) ADT.
    Adt(String),
    Fun(Box<Ty>, Box<Ty>),
    Var(TyVid),
}

pub enum TyModel {
    Unit,
    Bool,
    Int,
    Tuple(Seq<TyModel>),
    Adt(Seq<char>),
    Fun(Box<TyModel>, Box<TyModel>),
    Var(u32),
}

pub open spec fn ty_model(t: Ty) -> TyModel
    decreases t,
{
    match t {
        Ty::Unit => TyModel::Unit,
        Ty::Bool => TyModel::Bool,
        Ty::Int => TyModel::Int,
        Ty::Tuple(items) => TyModel::Tuple(ty_models(items@)),
        Ty::Adt(n) => TyModel::Adt(n@),
        Ty::Fun(a, b) => TyModel::Fun(Box::new(ty_model(*a)), Box::new(ty_model(*b))),
        Ty::Var(v) => TyModel::Var(v.0),
    }
}

pub open spec fn ty_models(v: Seq<Ty>) -> Seq<TyModel>
    decreases v,
{
    Seq::new(v.len(), |i: int| if 0 <= i < v.len() { ty_model(v[i]) } else { TyModel::Unit })
}

impl View for Ty {
    type V = TyModel;

    open spec fn view(&self) -> TyModel {
        ty_model(*self)
    }
}

/// How a type reads in messages: `unit`, `bool`, `int`, `(a * b)`,
/// the ADT's name, `(a -> b)`, or `'t<n>` for a variable.
pub open spec fn ty_text(t: TyModel) -> Seq<char>
    decreases t,
{
    match t {
        TyModel::Unit => "unit"@,
        TyModel::Bool => "bool"@,
        TyModel::Int => "int"@,
        TyModel::Tuple(items) => "("@ + tuple_text(items) + ")"@,
        TyModel::Adt(n) => n,
        TyModel::Fun(a, b) => "("@ + ty_text(*a) + " -> "@ + ty_text(*b) + ")"@,
        TyModel::Var(v) => "'t"@ + crate::harness::canon::decimal_digits(v as nat),
    }
}

/// The items' texts joined by ` * `.
pub open spec fn tuple_text(items: Seq<TyModel>) -> Seq<char>
    decreases items,
{
    if items.len() == 0 {
        Seq::empty()
    } else if items.len() == 1 {
        ty_text(items[0])
    } else {
        tuple_text(items.subrange(0, items.len() - 1)) + " * "@ + ty_text(items[items.len() - 1])
    }
}

impl Ty {
    /// A deep copy.
    pub fn duplicate(&self) -> (c: Ty)
        ensures
            c@ == self@,
        decreases self, 0int,
    {
        match self {
            Ty::Unit => Ty::Unit,
            Ty::Bool => Ty::Bool,
            Ty::Int => Ty::Int,
            Ty::Tuple(items) => Ty::Tuple(duplicate_all(items)),
            Ty::Adt(n) => Ty::Adt(n.clone()),
            Ty::Fun(a, b) => Ty::Fun(Box::new(a.duplicate()), Box::new(b.duplicate())),
            Ty::Var(v) => Ty::Var(*v),
        }
    }

    /// The type as messages show it.
    pub fn text(&self) -> (s: String)
        ensures
            s@ == ty_text(self@),
        decreases self, 0int,
    {
        match self {
            Ty::Unit => "unit".to_owned(),
            Ty::Bool => "bool".to_owned(),
            Ty::Int => "int".to_owned(),
            Ty::Tuple(items) => {
                let mut v = chars_of("(");
                let inner = joined_text(items);
                push_str(&mut v, inner.as_str());
                push_str(&mut v, ")");
                string_of(&v)
            },
            Ty::Adt(n) => n.clone(),
            Ty::Fun(a, b) => {
                let mut v = chars_of("(");
                let ta = a.text();
                push_str(&mut v, ta.as_str());
                push_str(&mut v, " -> ");
                let tb = b.text();
                push_str(&mut v, tb.as_str());
                push_str(&mut v, ")");
                string_of(&v)
            },
            Ty::Var(vid) => {
                let mut v = chars_of("'t");
                let mut d = crate::harness::canon::digits_of(vid.0 as u64);
                v.append(&mut d);
                string_of(&v)
            },
        }
    }
}

/// Deep copies of each type.
pub fn duplicate_all(items: &Vec<Ty>) -> (out: Vec<Ty>)
    ensures
        ty_models(out@) == ty_models(items@),
    decreases items, 1int,
{
    let mut out: Vec<Ty> = Vec::new();
    let mut k: usize = 0;
    while k < items.len()
        invariant
            k <= items@.len(),
            out@.len() == k,
            forall|j: int| 0 <= j < k ==> #[trigger] out@[j]@ == items@[j]@,
        decreases items@.len() - k,
    {
        out.push(items[k].duplicate());
        k = k + 1;
    }
    assert forall|j: int| 0 <= j < items@.len() implies ty_models(out@)[j] == ty_models(items@)[j] by {
        assert(out@[j]@ == items@[j]@);
    }
    assert(ty_models(out@) =~= ty_models(items@));
    out
}

/// The texts of the types joined by ` * `.
fn joined_text(items: &Vec<Ty>) -> (s: String)
    ensures
        s@ == tuple_text(ty_models(items@)),
    decreases items, 1int,
{
    let ghost ms = ty_models(items@);
    let mut v: Vec<char> = Vec::new();
    let mut k: usize = 0;
    while k < items.len()
        invariant
            k <= items@.len(),
            ms == ty_models(items@),
            v@ == tuple_text(ms.subrange(0, k as int)),
        decreases items@.len() - k,
    {
        if k > 0 {
            push_str(&mut v, " * ");
        }
        let part = items[k].text();
        push_str(&mut v, part.as_str());
        proof {
            assert(ms.subrange(0, k + 1).subrange(0, k as int) =~= ms.subrange(0, k as int));
            assert(ms.subrange(0, k + 1)[k as int] == ms[k as int]);
            if k == 0 {
                assert(ms.subrange(0, 0) =~= Seq::<TyModel>::empty());
            }
        }
        k = k + 1;
    }
    assert(ms.subrange(0, items@.len() as int) =~= ms);
    string_of(&v)
}

} // verus!
