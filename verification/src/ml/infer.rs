//! The typed AST that inference produces, and the ADT declarations
//! pass: type definitions resolved to constructor tables. Recursive ADTs
//! are refused here: the structural type encoding cannot express them.

use vstd::prelude::*;
use crate::ml::ast::{BinOp, NodeId, Pattern, Program, TypeDef, TypeExpr, TypeExprModel, TypeDefModel, typedef_model, type_expr_models, ExprModel, ParamModel, BindingModel, PatternModel, pattern_model, Expr, Param, Binding, expr_models, binding_models, arm_models};
use crate::text::{join2, str_eq};
use crate::harness::canon::{decimal_digits, digits_of};
use crate::types::{Ty, TyModel, TyVid, ty_models};
use crate::ml::unify::{extended_by, vars_below, TypeTable};

verus! {

#[derive(Debug)]
pub struct TypeError(pub String);

impl TypeError {
    /// `type error: <message>`.
    pub fn text(&self) -> (s: String)
        ensures
            s@ == "type error: "@ + self.0@,
    {
        join2("type error: ", self.0.as_str())
    }
}

#[derive(Debug)]
pub struct CtorInfo {
    pub adt: String,
    pub tag: usize,
    pub payload: Vec<Ty>,
}

#[derive(Debug)]
pub struct AdtInfo {
    /// Constructors in declaration (= tag) order: (name, payload types).
    pub ctors: Vec<(String, Vec<Ty>)>,
}

#[derive(Debug)]
pub struct TExpr {
    pub ty: Ty,
    pub kind: TKind,
}

#[derive(Debug)]
pub enum TKind {
    Unit,
    Int(i64),
    Bool(bool),
    Var(String),
    /// Constructor application, resolved: one typed expression per field.
    MakeCtor { adt: String, tag: usize, payload: Vec<TExpr> },
    Tuple(Vec<TExpr>),
    Neg(Box<TExpr>),
    Bin { op: BinOp, lhs: Box<TExpr>, rhs: Box<TExpr> },
    If { cond: Box<TExpr>, then: Box<TExpr>, els: Box<TExpr> },
    Fun { id: NodeId, param: Option<String>, param_ty: Ty, body: Box<TExpr> },
    App { func: Box<TExpr>, arg: Box<TExpr> },
    Let { rec: bool, bindings: Vec<TBinding>, body: Box<TExpr> },
    Match { scrutinee: Box<TExpr>, arms: Vec<(Pattern, TExpr)> },
}

#[derive(Debug)]
pub struct TBinding {
    pub id: NodeId,
    pub name: String,
    pub expr: TExpr,
    /// True when this binding was generalized and ended up unused:
    /// emission skips it.
    pub dead: bool,
}

#[derive(Debug)]
pub struct TypedProgram {
    pub adts: std::collections::HashMap<String, AdtInfo>,
    pub ctors: std::collections::HashMap<String, CtorInfo>,
    /// Top-level declarations, typed.
    pub decls: Vec<(bool, Vec<TBinding>)>,
}

/// An ADT's constructors as (name, payload types).
pub type AdtModel = Seq<(Seq<char>, Seq<TyModel>)>;

/// The index of the first name that repeats an earlier one.
pub open spec fn first_dup(names: Seq<Seq<char>>) -> Option<int>
    decreases names.len(),
{
    if names.len() == 0 {
        None
    } else {
        match first_dup(names.drop_last()) {
            Some(i) => Some(i),
            None => if names.drop_last().contains(names.last()) { Some(names.len() - 1) } else { None },
        }
    }
}

pub open spec fn recursive_msg(name: Seq<char>) -> Seq<char> {
    "recursive ADT `"@ + name
        + "` is fenced to v0.2 (D-038): the structural type encoding needs the memory axis (M7)"@
}

/// A type expression resolved inside the definition of `defining`,
/// with `names` declared.
pub open spec fn resolve_spec(te: TypeExprModel, defining: Seq<char>, names: Seq<Seq<char>>) -> Result<TyModel, Seq<char>>
    decreases te,
{
    match te {
        TypeExprModel::Int => Ok(TyModel::Int),
        TypeExprModel::Bool => Ok(TyModel::Bool),
        TypeExprModel::Unit => Ok(TyModel::Unit),
        TypeExprModel::Tuple(items) => match resolve_all_spec(items, defining, names) {
            Err(m) => Err(m),
            Ok(ts) => Ok(TyModel::Tuple(ts)),
        },
        TypeExprModel::Named(n) => if n == defining {
            Err(recursive_msg(n))
        } else if !names.contains(n) {
            Err("unknown type "@ + n)
        } else {
            Ok(TyModel::Adt(n))
        },
    }
}

/// Each type expression resolved in turn; the first failure wins.
pub open spec fn resolve_all_spec(items: Seq<TypeExprModel>, defining: Seq<char>, names: Seq<Seq<char>>) -> Result<Seq<TyModel>, Seq<char>>
    decreases items,
{
    if items.len() == 0 {
        Ok(Seq::empty())
    } else {
        match resolve_spec(items[0], defining, names) {
            Err(m) => Err(m),
            Ok(t) => match resolve_all_spec(items.subrange(1, items.len() as int), defining, names) {
                Err(m) => Err(m),
                Ok(rest) => Ok(seq![t] + rest),
            },
        }
    }
}

/// The constructors of one definition from the `j`-th on, `known`
/// holding every constructor name declared before.
pub open spec fn def_ctors_spec(d: TypeDefModel, names: Seq<Seq<char>>, j: int, known: Seq<Seq<char>>) -> Result<AdtModel, Seq<char>>
    decreases d.1.len() - j,
{
    if j < 0 || j >= d.1.len() {
        Ok(Seq::empty())
    } else {
        let cname = d.1[j].0;
        match resolve_all_spec(d.1[j].1, d.0, names) {
            Err(m) => Err(m),
            Ok(payload) => if known.contains(cname) {
                Err("duplicate constructor "@ + cname)
            } else {
                match def_ctors_spec(d, names, j + 1, known.push(cname)) {
                    Err(m) => Err(m),
                    Ok(rest) => Ok(seq![(cname, payload)] + rest),
                }
            },
        }
    }
}

pub open spec fn ctor_names(a: AdtModel) -> Seq<Seq<char>> {
    a.map_values(|c: (Seq<char>, Seq<TyModel>)| c.0)
}

/// The definitions from the `i`-th on.
pub open spec fn defs_spec(defs: Seq<TypeDefModel>, names: Seq<Seq<char>>, i: int, known: Seq<Seq<char>>) -> Result<Seq<AdtModel>, Seq<char>>
    decreases defs.len() - i,
{
    if i < 0 || i >= defs.len() {
        Ok(Seq::empty())
    } else {
        match def_ctors_spec(defs[i], names, 0, known) {
            Err(m) => Err(m),
            Ok(cs) => match defs_spec(defs, names, i + 1, known + ctor_names(cs)) {
                Err(m) => Err(m),
                Ok(rest) => Ok(seq![cs] + rest),
            },
        }
    }
}

pub open spec fn def_names(defs: Seq<TypeDefModel>) -> Seq<Seq<char>> {
    defs.map_values(|d: TypeDefModel| d.0)
}

/// The declarations pass: a repeated type name fails first; then each
/// definition's constructors, in order, have their payloads resolved
/// and their names checked against every constructor before them.
pub open spec fn declare_spec(defs: Seq<TypeDefModel>) -> Result<Seq<(Seq<char>, AdtModel)>, Seq<char>> {
    let names = def_names(defs);
    match first_dup(names) {
        Some(i) => Err("duplicate type "@ + names[i]),
        None => match defs_spec(defs, names, 0, Seq::empty()) {
            Err(m) => Err(m),
            Ok(per) => Ok(Seq::new(defs.len(), |i: int| (names[i], per[i]))),
        },
    }
}

pub open spec fn adt_model(a: AdtInfo) -> AdtModel {
    a.ctors@.map_values(|c: (String, Vec<Ty>)| (c.0@, ty_models(c.1@)))
}

pub open spec fn adts_model(v: Seq<(String, AdtInfo)>) -> Seq<(Seq<char>, AdtModel)> {
    v.map_values(|e: (String, AdtInfo)| (e.0@, adt_model(e.1)))
}

} // verus!

verus! {

pub open spec fn names_of(v: Seq<String>) -> Seq<Seq<char>> {
    v.map_values(|s: String| s@)
}

fn contains_name(names: &Vec<String>, name: &str) -> (b: bool)
    ensures
        b == names_of(names@).contains(name@),
{
    let mut k: usize = 0;
    while k < names.len()
        invariant
            k <= names@.len(),
            forall|j: int| 0 <= j < k ==> names@[j]@ != name@,
        decreases names@.len() - k,
    {
        if str_eq(names[k].as_str(), name) {
            assert(names_of(names@)[k as int] == name@);
            return true;
        }
        k = k + 1;
    }
    assert(!names_of(names@).contains(name@)) by {
        if names_of(names@).contains(name@) {
            let j = choose|j: int| 0 <= j < names_of(names@).len() && names_of(names@)[j] == name@;
            assert(names@[j]@ == name@);
        }
    }
    false
}

pub open spec fn ty_result(r: Result<Ty, TypeError>, m: Result<TyModel, Seq<char>>) -> bool {
    match (r, m) {
        (Ok(t), Ok(x)) => t@ == x,
        (Err(e), Err(x)) => e.0@ == x,
        _ => false,
    }
}

fn resolve(te: &TypeExpr, defining: &str, names: &Vec<String>) -> (r: Result<Ty, TypeError>)
    ensures
        ty_result(r, resolve_spec(te@, defining@, names_of(names@))),
    decreases te, 0int,
{
    match te {
        TypeExpr::Int => Ok(Ty::Int),
        TypeExpr::Bool => Ok(Ty::Bool),
        TypeExpr::Unit => Ok(Ty::Unit),
        TypeExpr::Tuple(items) => match resolve_all(items, defining, names) {
            Ok(ts) => Ok(Ty::Tuple(ts)),
            Err(e) => Err(e),
        },
        TypeExpr::Named(n) => {
            if str_eq(n.as_str(), defining) {
                Err(TypeError(crate::text::join3(
                    "recursive ADT `",
                    n.as_str(),
                    "` is fenced to v0.2 (D-038): the structural type encoding needs the memory axis (M7)",
                )))
            } else if !contains_name(names, n.as_str()) {
                Err(TypeError(join2("unknown type ", n.as_str())))
            } else {
                Ok(Ty::Adt(n.clone()))
            }
        },
    }
}

fn resolve_all(items: &Vec<TypeExpr>, defining: &str, names: &Vec<String>) -> (r: Result<Vec<Ty>, TypeError>)
    ensures
        match (r, resolve_all_spec(type_expr_models(items@), defining@, names_of(names@))) {
            (Ok(v), Ok(m)) => ty_models(v@) == m,
            (Err(e), Err(m)) => e.0@ == m,
            _ => false,
        },
    decreases items, 1int,
{
    let ghost ms = type_expr_models(items@);
    let ghost nm = names_of(names@);
    let mut out: Vec<Ty> = Vec::new();
    let mut k: usize = 0;
    proof {
        assert(ms.subrange(0, ms.len() as int) =~= ms);
        assert(ty_models(out@) =~= Seq::<TyModel>::empty());
        if let Ok(all) = resolve_all_spec(ms, defining@, nm) {
            assert(Seq::<TyModel>::empty() + all =~= all);
        }
    }
    while k < items.len()
        invariant
            k <= items@.len(),
            ms == type_expr_models(items@),
            nm == names_of(names@),
            resolve_all_spec(ms, defining@, nm) == match resolve_all_spec(ms.subrange(k as int, ms.len() as int), defining@, nm) {
                Err(m) => Err(m),
                Ok(rest) => Ok(ty_models(out@) + rest),
            },
        decreases items@.len() - k,
    {
        let ghost sub = ms.subrange(k as int, ms.len() as int);
        assert(sub[0] == items@[k as int]@);
        assert(sub.subrange(1, sub.len() as int) =~= ms.subrange(k + 1, ms.len() as int));
        match resolve(&items[k], defining, names) {
            Err(e) => {
                return Err(e);
            },
            Ok(t) => {
                proof {
                    assert(ty_models(out@.push(t)) =~= ty_models(out@).push(t@));
                    if let Ok(rest) = resolve_all_spec(ms.subrange(k + 1, ms.len() as int), defining@, nm) {
                        assert(ty_models(out@) + (seq![t@] + rest) =~= ty_models(out@).push(t@) + rest);
                    }
                }
                out.push(t);
                k = k + 1;
            },
        }
    }
    proof {
        assert(ms.subrange(k as int, ms.len() as int) =~= Seq::<TypeExprModel>::empty());
        assert(ty_models(out@) + Seq::<TyModel>::empty() =~= ty_models(out@));
    }
    Ok(out)
}

proof fn lemma_first_dup_prefix(s: Seq<Seq<char>>, k: int, i: int)
    requires
        0 <= k <= s.len(),
        first_dup(s.take(k)) == Some(i),
    ensures
        first_dup(s) == Some(i),
    decreases s.len() - k,
{
    if k < s.len() {
        assert(s.take(k + 1).drop_last() =~= s.take(k));
        lemma_first_dup_prefix(s, k + 1, i);
    } else {
        assert(s.take(k) =~= s);
    }
}

} // verus!

verus! {

pub open spec fn ctor_list_model(v: Seq<(String, Vec<Ty>)>) -> AdtModel {
    v.map_values(|c: (String, Vec<Ty>)| (c.0@, ty_models(c.1@)))
}

pub open spec fn typedef_models(v: Seq<TypeDef>) -> Seq<TypeDefModel> {
    v.map_values(|d: TypeDef| typedef_model(d))
}

/// Resolves the type definitions to ADT constructor lists, in
/// declaration order: `duplicate type`, `duplicate constructor`,
/// `unknown type` and recursive definitions are refused.
pub fn declare_adts(typedefs: &Vec<TypeDef>) -> (r: Result<Vec<(String, AdtInfo)>, TypeError>)
    ensures
        match (r, declare_spec(typedef_models(typedefs@))) {
            (Ok(v), Ok(m)) => adts_model(v@) == m,
            (Err(e), Err(m)) => e.0@ == m,
            _ => false,
        },
{
    let ghost defs = typedef_models(typedefs@);
    let ghost dn = def_names(defs);
    let mut names: Vec<String> = Vec::new();
    let mut i: usize = 0;
    proof {
        assert(names_of(names@) =~= dn.take(0));
        assert(dn.take(0) =~= Seq::<Seq<char>>::empty());
    }
    while i < typedefs.len()
        invariant
            i <= typedefs@.len(),
            defs == typedef_models(typedefs@),
            dn == def_names(defs),
            names_of(names@) == dn.take(i as int),
            first_dup(dn.take(i as int)) is None,
        decreases typedefs@.len() - i,
    {
        let name = &typedefs[i].name;
        assert(dn[i as int] == name@);
        assert(dn.take(i + 1).drop_last() =~= dn.take(i as int));
        assert(dn.take(i + 1).last() == dn[i as int]);
        if contains_name(&names, name.as_str()) {
            proof {
                lemma_first_dup_prefix(dn, i + 1, i as int);
            }
            return Err(TypeError(join2("duplicate type ", name.as_str())));
        }
        let copy = name.clone();
        proof {
            assert(names_of(names@.push(copy)) =~= names_of(names@).push(copy@));
        }
        names.push(copy);
        i = i + 1;
    }
    assert(dn.take(i as int) =~= dn);
    let mut known: Vec<String> = Vec::new();
    let mut out: Vec<(String, AdtInfo)> = Vec::new();
    let ghost mut per: Seq<AdtModel> = Seq::empty();
    proof {
        assert(names_of(known@) =~= Seq::<Seq<char>>::empty());
        if let Ok(all) = defs_spec(defs, dn, 0, Seq::empty()) {
            assert(per + all =~= all);
        }
    }
    i = 0;
    while i < typedefs.len()
        invariant
            i <= typedefs@.len(),
            defs == typedef_models(typedefs@),
            dn == def_names(defs),
            names_of(names@) == dn,
            first_dup(dn) is None,
            per.len() == i,
            out@.len() == i,
            forall|k: int| 0 <= k < i ==> #[trigger] adts_model(out@)[k] == (dn[k], per[k]),
            defs_spec(defs, dn, 0, Seq::empty()) == match defs_spec(defs, dn, i as int, names_of(known@)) {
                Err(m) => Err(m),
                Ok(rest) => Ok(per + rest),
            },
        decreases typedefs@.len() - i,
    {
        let def = &typedefs[i];
        let ghost d = defs[i as int];
        let ghost known0 = names_of(known@);
        assert(d == typedef_model(*def));
        let mut cur: Vec<(String, Vec<Ty>)> = Vec::new();
        let mut j: usize = 0;
        proof {
            assert(ctor_list_model(cur@) =~= Seq::<(Seq<char>, Seq<TyModel>)>::empty());
            assert(known0 + ctor_names(ctor_list_model(cur@)) =~= known0);
            if let Ok(all) = def_ctors_spec(d, dn, 0, known0) {
                assert(ctor_list_model(cur@) + all =~= all);
            }
        }
        while j < def.ctors.len()
            invariant
                j <= def.ctors@.len(),
                i < typedefs@.len(),
                defs == typedef_models(typedefs@),
                dn == def_names(defs),
                first_dup(dn) is None,
                d == defs[i as int],
                defs_spec(defs, dn, 0, Seq::empty()) == match defs_spec(defs, dn, i as int, known0) {
                    Err(m) => Err(m),
                    Ok(rest) => Ok(per + rest),
                },
                d == typedef_model(*def),
                d.0 == def.name@,
                names_of(names@) == dn,
                names_of(known@) == known0 + ctor_names(ctor_list_model(cur@)),
                def_ctors_spec(d, dn, 0, known0) == match def_ctors_spec(d, dn, j as int, names_of(known@)) {
                    Err(m) => Err(m),
                    Ok(rest) => Ok(ctor_list_model(cur@) + rest),
                },
            decreases def.ctors@.len() - j,
        {
            let cname = &def.ctors[j].0;
            let pexprs = &def.ctors[j].1;
            assert(d.1[j as int] == (cname@, type_expr_models(pexprs@)));
            let payload = match resolve_all(pexprs, def.name.as_str(), &names) {
                Ok(p) => p,
                Err(e) => {
                    return Err(e);
                },
            };
            if contains_name(&known, cname.as_str()) {
                return Err(TypeError(join2("duplicate constructor ", cname.as_str())));
            }
            let c1 = cname.clone();
            let c2 = cname.clone();
            let ghost entry = (c2@, ty_models(payload@));
            proof {
                assert(names_of(known@.push(c1)) =~= names_of(known@).push(c1@));
                assert(ctor_list_model(cur@.push((c2, payload))) =~= ctor_list_model(cur@).push(entry));
                assert(ctor_names(ctor_list_model(cur@).push(entry)) =~= ctor_names(ctor_list_model(cur@)).push(c1@));
                assert(known0 + ctor_names(ctor_list_model(cur@)).push(c1@) =~= (known0 + ctor_names(ctor_list_model(cur@))).push(c1@));
                if let Ok(rest) = def_ctors_spec(d, dn, j + 1, names_of(known@).push(c1@)) {
                    assert(ctor_list_model(cur@) + (seq![entry] + rest) =~= ctor_list_model(cur@).push(entry) + rest);
                }
            }
            known.push(c1);
            cur.push((c2, payload));
            j = j + 1;
        }
        proof {
            assert(def_ctors_spec(d, dn, j as int, names_of(known@)) == Ok::<AdtModel, Seq<char>>(Seq::empty()));
            assert(ctor_list_model(cur@) + Seq::<(Seq<char>, Seq<TyModel>)>::empty() =~= ctor_list_model(cur@));
            let cs = ctor_list_model(cur@);
            if let Ok(rest) = defs_spec(defs, dn, i + 1, known0 + ctor_names(cs)) {
                assert(per + (seq![cs] + rest) =~= per.push(cs) + rest);
            }
            per = per.push(cs);
        }
        let entry = (def.name.clone(), AdtInfo { ctors: cur });
        proof {
            assert(adts_model(out@.push(entry)) =~= adts_model(out@).push((entry.0@, adt_model(entry.1))));
        }
        out.push(entry);
        i = i + 1;
    }
    proof {
        assert(defs_spec(defs, dn, i as int, names_of(known@)) == Ok::<Seq<AdtModel>, Seq<char>>(Seq::empty()));
        assert(per + Seq::<AdtModel>::empty() =~= per);
        assert(adts_model(out@) =~= Seq::new(defs.len(), |k: int| (dn[k], per[k])));
    }
    Ok(out)
}

/// A constructor's table entry: its ADT, tag and payload types.
pub type CtorModel = (Seq<char>, int, Seq<TyModel>);

/// One row per constructor, ADTs in order, each ADT's constructors by
/// tag.
pub open spec fn ctor_table_spec(adts: Seq<(Seq<char>, AdtModel)>) -> Seq<(Seq<char>, CtorModel)>
    decreases adts.len(),
{
    if adts.len() == 0 {
        Seq::empty()
    } else {
        let last = adts.last();
        ctor_table_spec(adts.drop_last()) + Seq::new(last.1.len(), |j: int| (last.1[j].0, (last.0, j, last.1[j].1)))
    }
}

pub open spec fn ctor_info_model(c: CtorInfo) -> CtorModel {
    (c.adt@, c.tag as int, ty_models(c.payload@))
}

pub open spec fn ctor_rows_model(v: Seq<(String, CtorInfo)>) -> Seq<(Seq<char>, CtorModel)> {
    v.map_values(|e: (String, CtorInfo)| (e.0@, ctor_info_model(e.1)))
}

/// The constructor table of declared ADTs.
pub fn ctor_table(adts: &Vec<(String, AdtInfo)>) -> (rows: Vec<(String, CtorInfo)>)
    ensures
        ctor_rows_model(rows@) == ctor_table_spec(adts_model(adts@)),
{
    let ghost am = adts_model(adts@);
    let mut rows: Vec<(String, CtorInfo)> = Vec::new();
    let mut i: usize = 0;
    proof {
        assert(ctor_rows_model(rows@) =~= ctor_table_spec(am.take(0)));
    }
    while i < adts.len()
        invariant
            i <= adts@.len(),
            am == adts_model(adts@),
            ctor_rows_model(rows@) == ctor_table_spec(am.take(i as int)),
        decreases adts@.len() - i,
    {
        let name = &adts[i].0;
        let ctors = &adts[i].1.ctors;
        let ghost a = am[i as int];
        let ghost base = ctor_rows_model(rows@);
        assert(a == (name@, ctor_list_model(ctors@)));
        let mut j: usize = 0;
        while j < ctors.len()
            invariant
                j <= ctors@.len(),
                a == (name@, ctor_list_model(ctors@)),
                ctor_rows_model(rows@) == base + Seq::new(j as nat, |k: int| (a.1[k].0, (a.0, k, a.1[k].1))),
            decreases ctors@.len() - j,
        {
            let row = (ctors[j].0.clone(), CtorInfo {
                adt: name.clone(),
                tag: j,
                payload: crate::types::duplicate_all(&ctors[j].1),
            });
            proof {
                assert(ctor_rows_model(rows@.push(row)) =~= ctor_rows_model(rows@).push((row.0@, ctor_info_model(row.1))));
                assert(base + Seq::new((j + 1) as nat, |k: int| (a.1[k].0, (a.0, k, a.1[k].1)))
                    =~= (base + Seq::new(j as nat, |k: int| (a.1[k].0, (a.0, k, a.1[k].1)))).push((a.1[j as int].0, (a.0, j as int, a.1[j as int].1))));
            }
            rows.push(row);
            j = j + 1;
        }
        proof {
            assert(am.take(i + 1).drop_last() =~= am.take(i as int));
            assert(am.take(i + 1).last() == a);
        }
        i = i + 1;
    }
    assert(am.take(i as int) =~= am);
    rows
}

} // verus!

verus! {

proof fn lemma_first_dup_none(names: Seq<Seq<char>>)
    requires
        first_dup(names) is None,
    ensures
        forall|i: int, j: int| 0 <= i < j < names.len() ==> names[i] != names[j],
    decreases names.len(),
{
    if names.len() > 0 {
        let p = names.drop_last();
        lemma_first_dup_none(p);
        assert forall|i: int, j: int| 0 <= i < j < names.len() implies names[i] != names[j] by {
            if j == names.len() - 1 {
                if names[i] == names[j] {
                    assert(p[i] == names.last());
                    assert(p.contains(names.last()));
                }
            } else {
                assert(p[i] == names[i] && p[j] == names[j]);
            }
        }
    }
}

/// Declared type names are distinct: a declaration pass that succeeds
/// saw no type name twice.
pub proof fn law_declared_types_distinct(defs: Seq<TypeDefModel>)
    requires
        declare_spec(defs) is Ok,
    ensures
        forall|i: int, j: int| 0 <= i < j < defs.len() ==> defs[i].0 != defs[j].0,
{
    let names = def_names(defs);
    lemma_first_dup_none(names);
    assert forall|i: int, j: int| 0 <= i < j < defs.len() implies defs[i].0 != defs[j].0 by {
        assert(names[i] == defs[i].0 && names[j] == defs[j].0);
    }
}

} // verus!

verus! {

pub open spec fn distinct(s: Seq<Seq<char>>) -> bool {
    forall|i: int, j: int| 0 <= i < j < s.len() ==> s[i] != s[j]
}

/// The constructor names of consecutive ADTs, first to last.
pub open spec fn flat_names(per: Seq<AdtModel>) -> Seq<Seq<char>>
    decreases per.len(),
{
    if per.len() == 0 {
        Seq::empty()
    } else {
        flat_names(per.drop_last()) + ctor_names(per.last())
    }
}

proof fn lemma_def_ctors_distinct(d: TypeDefModel, names: Seq<Seq<char>>, j: int, known: Seq<Seq<char>>)
    requires
        0 <= j,
        distinct(known),
        def_ctors_spec(d, names, j, known) is Ok,
    ensures
        distinct(known + ctor_names(def_ctors_spec(d, names, j, known)->Ok_0)),
    decreases d.1.len() - j,
{
    let cs = def_ctors_spec(d, names, j, known)->Ok_0;
    if j >= d.1.len() {
        assert(known + ctor_names(cs) =~= known);
    } else {
        let cname = d.1[j].0;
        let k2 = known.push(cname);
        assert(distinct(k2)) by {
            assert forall|a: int, b: int| 0 <= a < b < k2.len() implies k2[a] != k2[b] by {
                if b == known.len() {
                    assert(known[a] == k2[a]);
                }
            }
        }
        lemma_def_ctors_distinct(d, names, j + 1, k2);
        let rest = def_ctors_spec(d, names, j + 1, k2)->Ok_0;
        assert(known + ctor_names(cs) =~= k2 + ctor_names(rest));
    }
}

proof fn lemma_defs_distinct(defs: Seq<TypeDefModel>, names: Seq<Seq<char>>, i: int, known: Seq<Seq<char>>)
    requires
        0 <= i <= defs.len(),
        distinct(known),
        defs_spec(defs, names, i, known) is Ok,
    ensures
        defs_spec(defs, names, i, known)->Ok_0.len() == defs.len() - i,
        distinct(known + flat_front(defs_spec(defs, names, i, known)->Ok_0)),
    decreases defs.len() - i,
{
    let per = defs_spec(defs, names, i, known)->Ok_0;
    if i >= defs.len() {
        assert(known + flat_front(per) =~= known);
    } else {
        lemma_def_ctors_distinct(defs[i], names, 0, known);
        let cs = def_ctors_spec(defs[i], names, 0, known)->Ok_0;
        let k2 = known + ctor_names(cs);
        lemma_defs_distinct(defs, names, i + 1, k2);
        let rest = defs_spec(defs, names, i + 1, k2)->Ok_0;
        assert(per == seq![cs] + rest);
        assert(per.subrange(1, per.len() as int) =~= rest);
        assert(known + flat_front(per) =~= k2 + flat_front(rest));
    }
}

/// The constructor names of consecutive ADTs, taken from the front.
pub open spec fn flat_front(per: Seq<AdtModel>) -> Seq<Seq<char>>
    decreases per.len(),
{
    if per.len() == 0 {
        Seq::empty()
    } else {
        ctor_names(per[0]) + flat_front(per.subrange(1, per.len() as int))
    }
}

proof fn lemma_flat_front_back(per: Seq<AdtModel>)
    ensures
        flat_front(per) == flat_names(per),
    decreases per.len(),
{
    if per.len() > 0 {
        let tail = per.subrange(1, per.len() as int);
        lemma_flat_front_back(tail);
        if tail.len() == 0 {
            assert(per.drop_last() =~= Seq::<AdtModel>::empty());
            assert(flat_names(per.drop_last()) == Seq::<Seq<char>>::empty());
            assert(flat_front(tail) == Seq::<Seq<char>>::empty());
            assert(per.last() == per[0]);
            assert(flat_front(per) =~= flat_names(per));
        } else {
            lemma_flat_front_back(per.drop_last());
            lemma_flat_front_back(tail.drop_last());
            let init = per.drop_last();
            assert(init.subrange(1, init.len() as int) =~= tail.drop_last());
            assert(init[0] == per[0]);
            assert(tail.last() == per.last());
            assert(flat_front(init) == ctor_names(per[0]) + flat_front(tail.drop_last()));
            assert(flat_names(tail) == flat_names(tail.drop_last()) + ctor_names(per.last()));
            assert(flat_front(per) == ctor_names(per[0]) + flat_front(tail));
            assert(flat_names(per) == flat_names(init) + ctor_names(per.last()));
            assert(flat_front(per) =~= flat_names(per));
        }
    }
}

proof fn lemma_table_names(adts: Seq<(Seq<char>, AdtModel)>)
    ensures
        ctor_table_spec(adts).map_values(|r: (Seq<char>, CtorModel)| r.0)
            == flat_names(adts.map_values(|a: (Seq<char>, AdtModel)| a.1)),
    decreases adts.len(),
{
    let per = adts.map_values(|a: (Seq<char>, AdtModel)| a.1);
    if adts.len() > 0 {
        lemma_table_names(adts.drop_last());
        assert(adts.drop_last().map_values(|a: (Seq<char>, AdtModel)| a.1) =~= per.drop_last());
        assert(ctor_table_spec(adts).map_values(|r: (Seq<char>, CtorModel)| r.0) =~= flat_names(per));
    } else {
        assert(ctor_table_spec(adts).map_values(|r: (Seq<char>, CtorModel)| r.0) =~= flat_names(per));
    }
}

/// Constructor names are distinct across all declared types: when the
/// declaration pass succeeds, no two rows of the constructor table carry
/// the same name, so the table is keyed by constructor name.
pub proof fn law_declared_constructors_distinct(defs: Seq<TypeDefModel>)
    requires
        declare_spec(defs) is Ok,
    ensures
        ({
            let rows = ctor_table_spec(declare_spec(defs)->Ok_0);
            forall|i: int, j: int| 0 <= i < j < rows.len() ==> rows[i].0 != rows[j].0
        }),
{
    let names = def_names(defs);
    let m = declare_spec(defs)->Ok_0;
    lemma_defs_distinct(defs, names, 0, Seq::empty());
    let per = defs_spec(defs, names, 0, Seq::empty())->Ok_0;
    assert(Seq::<Seq<char>>::empty() + flat_front(per) =~= flat_front(per));
    lemma_flat_front_back(per);
    assert(m.map_values(|a: (Seq<char>, AdtModel)| a.1) =~= per);
    lemma_table_names(m);
    let rows = ctor_table_spec(m);
    let rn = rows.map_values(|r: (Seq<char>, CtorModel)| r.0);
    assert forall|i: int, j: int| 0 <= i < j < rows.len() implies rows[i].0 != rows[j].0 by {
        assert(rn[i] == rows[i].0 && rn[j] == rows[j].0);
    }
}

} // verus!

verus! {

proof fn lemma_resolve_ground(te: TypeExprModel, defining: Seq<char>, names: Seq<Seq<char>>)
    ensures
        resolve_spec(te, defining, names) matches Ok(t) ==> vars_below(t, 0),
    decreases te,
{
    if let TypeExprModel::Tuple(items) = te {
        lemma_resolve_all_ground(items, defining, names);
        if let Ok(ts) = resolve_all_spec(items, defining, names) {
            assert(vars_below(TyModel::Tuple(ts), 0));
        }
    }
}

proof fn lemma_resolve_all_ground(items: Seq<TypeExprModel>, defining: Seq<char>, names: Seq<Seq<char>>)
    ensures
        resolve_all_spec(items, defining, names) matches Ok(ts) ==> forall|i: int| 0 <= i < ts.len() ==> vars_below(#[trigger] ts[i], 0),
    decreases items,
{
    if items.len() > 0 {
        lemma_resolve_ground(items[0], defining, names);
        let rest = items.subrange(1, items.len() as int);
        lemma_resolve_all_ground(rest, defining, names);
        if let Ok(ts) = resolve_all_spec(items, defining, names) {
            let t = resolve_spec(items[0], defining, names)->Ok_0;
            let r = resolve_all_spec(rest, defining, names)->Ok_0;
            assert(ts == seq![t] + r);
            assert forall|i: int| 0 <= i < ts.len() implies vars_below(#[trigger] ts[i], 0) by {
                if i > 0 {
                    assert(ts[i] == r[i - 1]);
                }
            }
        }
    }
}

/// Every payload type of the ADT's constructors is free of variables.
pub open spec fn ground_adt(a: AdtModel) -> bool {
    forall|k: int, p: int| 0 <= k < a.len() && 0 <= p < a[k].1.len() ==> vars_below(#[trigger] a[k].1[p], 0)
}

proof fn lemma_def_ctors_ground(d: TypeDefModel, names: Seq<Seq<char>>, j: int, known: Seq<Seq<char>>)
    requires
        def_ctors_spec(d, names, j, known) is Ok,
    ensures
        ground_adt(def_ctors_spec(d, names, j, known)->Ok_0),
    decreases d.1.len() - j,
{
    if 0 <= j < d.1.len() {
        let cname = d.1[j].0;
        lemma_resolve_all_ground(d.1[j].1, d.0, names);
        lemma_def_ctors_ground(d, names, j + 1, known.push(cname));
        let payload = resolve_all_spec(d.1[j].1, d.0, names)->Ok_0;
        let rest = def_ctors_spec(d, names, j + 1, known.push(cname))->Ok_0;
        let cs = def_ctors_spec(d, names, j, known)->Ok_0;
        assert(cs == seq![(cname, payload)] + rest);
        assert forall|k: int, p: int| 0 <= k < cs.len() && 0 <= p < cs[k].1.len() implies vars_below(#[trigger] cs[k].1[p], 0) by {
            if k > 0 {
                assert(cs[k] == rest[k - 1]);
            }
        }
    }
}

proof fn lemma_defs_ground(defs: Seq<TypeDefModel>, names: Seq<Seq<char>>, i: int, known: Seq<Seq<char>>)
    requires
        0 <= i,
        defs_spec(defs, names, i, known) is Ok,
    ensures
        forall|k: int| 0 <= k < defs_spec(defs, names, i, known)->Ok_0.len()
            ==> ground_adt(#[trigger] defs_spec(defs, names, i, known)->Ok_0[k]),
    decreases defs.len() - i,
{
    if i < defs.len() {
        lemma_def_ctors_ground(defs[i], names, 0, known);
        let cs = def_ctors_spec(defs[i], names, 0, known)->Ok_0;
        lemma_defs_ground(defs, names, i + 1, known + ctor_names(cs));
        let rest = defs_spec(defs, names, i + 1, known + ctor_names(cs))->Ok_0;
        let per = defs_spec(defs, names, i, known)->Ok_0;
        assert(per == seq![cs] + rest);
        assert forall|k: int| 0 <= k < per.len() implies ground_adt(#[trigger] per[k]) by {
            if k > 0 {
                assert(per[k] == rest[k - 1]);
            }
        }
    }
}

/// Every payload type in the constructor table is free of variables.
pub open spec fn ground_rows(rows: Seq<(Seq<char>, CtorModel)>) -> bool {
    forall|j: int, p: int| 0 <= j < rows.len() && 0 <= p < rows[j].1.2.len() ==> vars_below(#[trigger] rows[j].1.2[p], 0)
}

proof fn lemma_table_ground(adts: Seq<(Seq<char>, AdtModel)>)
    requires
        forall|k: int| 0 <= k < adts.len() ==> ground_adt(#[trigger] adts[k].1),
    ensures
        ground_rows(ctor_table_spec(adts)),
    decreases adts.len(),
{
    if adts.len() > 0 {
        let init = adts.drop_last();
        assert forall|k: int| 0 <= k < init.len() implies ground_adt(#[trigger] init[k].1) by {
            assert(init[k] == adts[k]);
        }
        lemma_table_ground(init);
        let last = adts.last();
        assert(ground_adt(adts[adts.len() - 1].1));
        let front = ctor_table_spec(init);
        let tail = Seq::new(last.1.len(), |j: int| (last.1[j].0, (last.0, j, last.1[j].1)));
        let rows = ctor_table_spec(adts);
        assert(rows == front + tail);
        assert forall|j: int, p: int| 0 <= j < rows.len() && 0 <= p < rows[j].1.2.len() implies vars_below(#[trigger] rows[j].1.2[p], 0) by {
            if j < front.len() {
                assert(rows[j] == front[j]);
            } else {
                assert(rows[j] == tail[j - front.len()]);
            }
        }
    }
}

/// A successful declaration pass yields a constructor table whose
/// payload types hold no type variable.
pub proof fn lemma_declared_rows_ground(defs: Seq<TypeDefModel>)
    requires
        declare_spec(defs) is Ok,
    ensures
        ground_rows(ctor_table_spec(declare_spec(defs)->Ok_0)),
{
    let names = def_names(defs);
    lemma_defs_ground(defs, names, 0, Seq::empty());
    let m = declare_spec(defs)->Ok_0;
    let per = defs_spec(defs, names, 0, Seq::empty())->Ok_0;
    lemma_defs_distinct(defs, names, 0, Seq::empty());
    assert forall|k: int| 0 <= k < m.len() implies ground_adt(#[trigger] m[k].1) by {
        assert(m[k].1 == per[k]);
    }
    lemma_table_ground(m);
}

} // verus!

verus! {

/// `t` is the typed form of `e`: the same shape, names, literals and
/// node ids, every constructor application resolved to the `(adt, tag)`
/// that `rows` gives its name, and a several-field payload taken from
/// a tuple argument.
pub open spec fn mirrors(t: TExpr, e: ExprModel, rows: Seq<(Seq<char>, CtorModel)>) -> bool
    decreases t,
{
    match t.kind {
        TKind::Unit => e is Unit,
        TKind::Int(v) => e == ExprModel::Int(v as int),
        TKind::Bool(b) => e == ExprModel::Bool(b),
        TKind::Var(n) => e == ExprModel::Var(n@),
        TKind::MakeCtor { adt, tag, payload } => match e {
            ExprModel::Ctor(name, arg) => {
                &&& exists|i: int| 0 <= i < rows.len() && (#[trigger] rows[i]).0 == name && rows[i].1.0 == adt@ && rows[i].1.1 == tag as int
                &&& match arg {
                    None => payload@.len() == 0,
                    Some(a) => if payload@.len() == 1 {
                        mirrors(payload@[0], *a, rows)
                    } else {
                        &&& payload@.len() >= 2
                        &&& match *a {
                            ExprModel::Tuple(items) => items.len() == payload@.len()
                                && forall|i: int| 0 <= i < items.len() ==> mirrors(#[trigger] payload@[i], items[i], rows),
                            _ => false,
                        }
                    },
                }
            },
            _ => false,
        },
        TKind::Tuple(ts) => match e {
            ExprModel::Tuple(es) => ts@.len() == es.len()
                && forall|i: int| 0 <= i < es.len() ==> mirrors(#[trigger] ts@[i], es[i], rows),
            _ => false,
        },
        TKind::Neg(x) => match e {
            ExprModel::Neg(y) => mirrors(*x, *y, rows),
            _ => false,
        },
        TKind::Bin { op, lhs, rhs } => match e {
            ExprModel::Bin(o, l, r) => op == o && mirrors(*lhs, *l, rows) && mirrors(*rhs, *r, rows),
            _ => false,
        },
        TKind::If { cond, then, els } => match e {
            ExprModel::If(c, th, el) => mirrors(*cond, *c, rows) && mirrors(*then, *th, rows) && mirrors(*els, *el, rows),
            _ => false,
        },
        TKind::Fun { id, param, param_ty, body } => match e {
            ExprModel::Fun(i, p, b) => id as int == i && (match (param, p) {
                (None, ParamModel::Unit) => true,
                (Some(n), ParamModel::Named(m)) => n@ == m,
                _ => false,
            }) && mirrors(*body, *b, rows),
            _ => false,
        },
        TKind::App { func, arg } => match e {
            ExprModel::App(f, a) => mirrors(*func, *f, rows) && mirrors(*arg, *a, rows),
            _ => false,
        },
        TKind::Let { rec, bindings, body } => match e {
            ExprModel::Let(r, bs, b) => rec == r && bindings@.len() == bs.len()
                && (forall|i: int| 0 <= i < bs.len() ==> binding_mirrors(#[trigger] bindings@[i], bs[i], rows))
                && mirrors(*body, *b, rows),
            _ => false,
        },
        TKind::Match { scrutinee, arms } => match e {
            ExprModel::Match(s, ams) => mirrors(*scrutinee, *s, rows) && arms@.len() == ams.len()
                && forall|i: int| 0 <= i < ams.len() ==> pattern_model((#[trigger] arms@[i]).0) == ams[i].0
                    && mirrors(arms@[i].1, ams[i].1, rows),
            _ => false,
        },
    }
}

/// A typed binding annotates a source binding `(id, name, expression)`.
pub open spec fn binding_mirrors(t: TBinding, b: BindingModel, rows: Seq<(Seq<char>, CtorModel)>) -> bool
    decreases t,
{
    t.id as int == b.0 && t.name@ == b.1 && mirrors(t.expr, b.2, rows)
}

/// Every type annotation in `t` has its variables below `n`; with
/// `skip_dead`, bindings marked dead are not looked into.
pub open spec fn tvars(t: TExpr, n: nat, skip_dead: bool) -> bool
    decreases t,
{
    &&& vars_below(t.ty@, n)
    &&& match t.kind {
        TKind::MakeCtor { payload, .. } => forall|i: int| 0 <= i < payload@.len() ==> tvars(#[trigger] payload@[i], n, skip_dead),
        TKind::Tuple(ts) => forall|i: int| 0 <= i < ts@.len() ==> tvars(#[trigger] ts@[i], n, skip_dead),
        TKind::Neg(x) => tvars(*x, n, skip_dead),
        TKind::Bin { lhs, rhs, .. } => tvars(*lhs, n, skip_dead) && tvars(*rhs, n, skip_dead),
        TKind::If { cond, then, els } => tvars(*cond, n, skip_dead) && tvars(*then, n, skip_dead) && tvars(*els, n, skip_dead),
        TKind::Fun { param_ty, body, .. } => vars_below(param_ty@, n) && tvars(*body, n, skip_dead),
        TKind::App { func, arg } => tvars(*func, n, skip_dead) && tvars(*arg, n, skip_dead),
        TKind::Let { bindings, body, .. } => (forall|i: int| 0 <= i < bindings@.len() ==> binding_tvars(#[trigger] bindings@[i], n, skip_dead))
            && tvars(*body, n, skip_dead),
        TKind::Match { scrutinee, arms } => tvars(*scrutinee, n, skip_dead)
            && forall|i: int| 0 <= i < arms@.len() ==> tvars((#[trigger] arms@[i]).1, n, skip_dead),
        _ => true,
    }
}

pub open spec fn binding_tvars(b: TBinding, n: nat, skip_dead: bool) -> bool
    decreases b,
{
    (skip_dead && b.dead) || tvars(b.expr, n, skip_dead)
}

} // verus!

verus! {

/// The types of `ts`, in order.
pub open spec fn tys_of(ts: Seq<TExpr>) -> Seq<TyModel> {
    ts.map_values(|e: TExpr| e.ty@)
}

/// `a` and `b` resolve alike through `tab`.
pub open spec fn alike(tab: TypeTable, a: TyModel, b: TyModel) -> bool {
    tab.resolution(a) == tab.resolution(b)
}

/// An operator's typing rule: arithmetic on ints, comparison of ints,
/// equality of like operands, connectives on booleans.
pub open spec fn bin_rule(op: BinOp, tab: TypeTable, l: TyModel, r: TyModel, t: TyModel) -> bool {
    match op {
        BinOp::Add | BinOp::Sub | BinOp::Mul | BinOp::Div => alike(tab, l, TyModel::Int) && alike(tab, r, TyModel::Int)
            && alike(tab, t, TyModel::Int),
        BinOp::Lt | BinOp::Le | BinOp::Gt | BinOp::Ge => alike(tab, l, TyModel::Int) && alike(tab, r, TyModel::Int)
            && alike(tab, t, TyModel::Bool),
        BinOp::Eq | BinOp::Ne => alike(tab, l, r) && alike(tab, t, TyModel::Bool),
        BinOp::AndAlso | BinOp::OrElse => alike(tab, l, TyModel::Bool) && alike(tab, r, TyModel::Bool)
            && alike(tab, t, TyModel::Bool),
    }
}

/// The type an operator gives to operands of ground types `a` and `b`.
pub open spec fn ground_bin(op: BinOp, a: TyModel, b: TyModel) -> Option<TyModel> {
    match op {
        BinOp::Add | BinOp::Sub | BinOp::Mul | BinOp::Div => if a == TyModel::Int && b == TyModel::Int {
            Some(TyModel::Int)
        } else {
            None
        },
        BinOp::Lt | BinOp::Le | BinOp::Gt | BinOp::Ge => if a == TyModel::Int && b == TyModel::Int {
            Some(TyModel::Bool)
        } else {
            None
        },
        BinOp::Eq | BinOp::Ne => if a == b && (a == TyModel::Int || a == TyModel::Bool) {
            Some(TyModel::Bool)
        } else {
            None
        },
        BinOp::AndAlso | BinOp::OrElse => if a == TyModel::Bool && b == TyModel::Bool {
            Some(TyModel::Bool)
        } else {
            None
        },
    }
}

/// The type of an expression made of literals, negation, operators,
/// conditionals, tuples and functions of `()` alone, when the typing
/// rules give it one; `None` for an ill-typed one and for every other
/// form of expression.
pub open spec fn ground_type(e: ExprModel) -> Option<TyModel>
    decreases e,
{
    match e {
        ExprModel::Unit => Some(TyModel::Unit),
        ExprModel::Int(_) => Some(TyModel::Int),
        ExprModel::Bool(_) => Some(TyModel::Bool),
        ExprModel::Neg(x) => if ground_type(*x) == Some(TyModel::Int) {
            Some(TyModel::Int)
        } else {
            None
        },
        ExprModel::Bin(op, l, r) => match (ground_type(*l), ground_type(*r)) {
            (Some(a), Some(b)) => ground_bin(op, a, b),
            _ => None,
        },
        ExprModel::If(c, t, f) => if ground_type(*c) == Some(TyModel::Bool) && ground_type(*t) is Some
            && ground_type(*f) == ground_type(*t) {
            ground_type(*t)
        } else {
            None
        },
        ExprModel::Tuple(items) => match ground_types(items) {
            Some(ts) => Some(TyModel::Tuple(ts)),
            None => None,
        },
        ExprModel::Fun(_, p, body) => if p is Unit {
            match ground_type(*body) {
                Some(g) => Some(TyModel::Fun(Box::new(TyModel::Unit), Box::new(g))),
                None => None,
            }
        } else {
            None
        },
        _ => None,
    }
}

/// The ground types of `items`, when each has one.
pub open spec fn ground_types(items: Seq<ExprModel>) -> Option<Seq<TyModel>>
    decreases items, 0int,
{
    if items.len() == 0 {
        Some(Seq::empty())
    } else {
        proof {
            assert(decreases_to!(items => items[items.len() - 1]));
        }
        match (ground_types(items.drop_last()), ground_type(items[items.len() - 1])) {
            (Some(ts), Some(t)) => Some(ts.push(t)),
            _ => None,
        }
    }
}

/// An expression made of literals, negation, operators, conditionals,
/// tuples and functions of `()` alone: it names nothing and needs no
/// type variable.
pub open spec fn first_order(e: ExprModel) -> bool
    decreases e, 1int,
{
    match e {
        ExprModel::Unit | ExprModel::Int(_) | ExprModel::Bool(_) => true,
        ExprModel::Neg(x) => first_order(*x),
        ExprModel::Bin(_, l, r) => first_order(*l) && first_order(*r),
        ExprModel::If(c, t, f) => first_order(*c) && first_order(*t) && first_order(*f),
        ExprModel::Tuple(items) => first_order_all(items),
        ExprModel::Fun(_, p, body) => p is Unit && first_order(*body),
        _ => false,
    }
}

/// Each of `items` is first-order.
pub open spec fn first_order_all(items: Seq<ExprModel>) -> bool
    decreases items, 0int,
{
    if items.len() == 0 {
        true
    } else {
        proof {
            assert(decreases_to!(items => items[items.len() - 1]));
        }
        first_order_all(items.drop_last()) && first_order(items[items.len() - 1])
    }
}

proof fn lemma_first_order_all(items: Seq<ExprModel>)
    ensures
        first_order_all(items) <==> forall|i: int| 0 <= i < items.len() ==> #[trigger] first_order(items[i]),
    decreases items.len(),
{
    if items.len() > 0 {
        let init = items.drop_last();
        lemma_first_order_all(init);
        assert forall|i: int| 0 <= i < init.len() implies #[trigger] init[i] == items[i] by {}
        if forall|i: int| 0 <= i < items.len() ==> #[trigger] first_order(items[i]) {
            assert forall|i: int| 0 <= i < init.len() implies #[trigger] first_order(init[i]) by {
                assert(init[i] == items[i]);
            }
            assert(first_order(items[items.len() - 1]));
        }
        if first_order_all(items) {
            assert forall|i: int| 0 <= i < items.len() implies #[trigger] first_order(items[i]) by {
                if i < init.len() {
                    assert(init[i] == items[i]);
                    assert(first_order(init[i]));
                }
            }
        }
    }
}

proof fn lemma_ground_types(items: Seq<ExprModel>)
    ensures
        ground_types(items) is Some <==> forall|i: int| 0 <= i < items.len() ==> (#[trigger] ground_type(items[i])) is Some,
        ground_types(items) matches Some(ts) ==> ts.len() == items.len()
            && forall|i: int| 0 <= i < items.len() ==> #[trigger] ts[i] == ground_type(items[i])->Some_0,
    decreases items.len(),
{
    if items.len() > 0 {
        let init = items.drop_last();
        lemma_ground_types(init);
        assert forall|i: int| 0 <= i < init.len() implies #[trigger] init[i] == items[i] by {}
        if forall|i: int| 0 <= i < items.len() ==> (#[trigger] ground_type(items[i])) is Some {
            assert forall|i: int| 0 <= i < init.len() implies (#[trigger] ground_type(init[i])) is Some by {
                assert(init[i] == items[i]);
            }
        }
        if ground_types(items) is Some {
            assert(ground_types(init) is Some);
            assert forall|i: int| 0 <= i < items.len() implies (#[trigger] ground_type(items[i])) is Some by {
                if i < init.len() {
                    assert(init[i] == items[i]);
                    assert(ground_type(init[i]) is Some);
                }
            }
            let ts = ground_types(items)->Some_0;
            let t0 = ground_types(init)->Some_0;
            assert forall|i: int| 0 <= i < items.len() implies #[trigger] ts[i] == ground_type(items[i])->Some_0 by {
                if i < init.len() {
                    assert(init[i] == items[i]);
                    assert(ts[i] == t0[i]);
                }
            }
        }
        if ground_types(items) is None {
            if ground_types(init) is None {
                let i = choose|i: int| 0 <= i < init.len() && !(#[trigger] ground_type(init[i]) is Some);
                assert(init[i] == items[i]);
            } else {
                assert(!(ground_type(items[items.len() - 1]) is Some));
            }
        }
    }
}

proof fn lemma_ground_first_order(e: ExprModel)
    ensures
        ground_type(e) is Some ==> first_order(e),
    decreases e,
{
    match e {
        ExprModel::Neg(x) => lemma_ground_first_order(*x),
        ExprModel::Bin(_, l, r) => {
            lemma_ground_first_order(*l);
            lemma_ground_first_order(*r);
        },
        ExprModel::If(c, t, f) => {
            lemma_ground_first_order(*c);
            lemma_ground_first_order(*t);
            lemma_ground_first_order(*f);
        },
        ExprModel::Fun(_, _, body) => lemma_ground_first_order(*body),
        ExprModel::Tuple(items) => {
            lemma_ground_types(items);
            lemma_first_order_all(items);
            assert forall|i: int| 0 <= i < items.len() implies (ground_type(#[trigger] items[i]) is Some ==> first_order(items[i])) by {
                lemma_ground_first_order(items[i]);
            }
        },
        _ => {},
    }
}

proof fn lemma_ground_type_ground(e: ExprModel)
    ensures
        ground_type(e) matches Some(g) ==> vars_below(g, 0),
    decreases e,
{
    match e {
        ExprModel::If(c, t, f) => {
            lemma_ground_type_ground(*t);
        },
        ExprModel::Fun(_, p, body) => {
            lemma_ground_type_ground(*body);
            if ground_type(e) is Some {
                let gb = ground_type(*body)->Some_0;
                assert(ground_type(e) == Some(TyModel::Fun(Box::new(TyModel::Unit), Box::new(gb))));
                assert(vars_below(TyModel::Unit, 0));
            }
        },
        ExprModel::Tuple(items) => {
            lemma_ground_types(items);
            assert forall|i: int| 0 <= i < items.len() implies (ground_type(#[trigger] items[i]) matches Some(g) ==> vars_below(g, 0)) by {
                lemma_ground_type_ground(items[i]);
            }
            if ground_type(e) is Some {
                let ms = ground_type(e)->Some_0->Tuple_0;
                assert forall|i: int| 0 <= i < ms.len() implies vars_below(#[trigger] ms[i], 0) by {
                    assert(ms[i] == ground_type(items[i])->Some_0);
                }
            }
        },
        _ => {},
    }
}

/// The typing rule of `t`'s own node, read through `tab`: a literal has
/// its type, a constructor application its ADT, a tuple the product of
/// its items, a conditional a boolean test and branches of its type, a
/// function the arrow from its parameter to its body, an application an
/// arrow from its argument to its own type, a `let` its body's type, a
/// `match` arms of its type. A variable's type is an instance of its
/// binding's scheme, which this rule leaves free.
pub open spec fn rule_holds(t: TExpr, tab: TypeTable) -> bool {
    match t.kind {
        TKind::Unit => alike(tab, t.ty@, TyModel::Unit),
        TKind::Int(_) => alike(tab, t.ty@, TyModel::Int),
        TKind::Bool(_) => alike(tab, t.ty@, TyModel::Bool),
        TKind::Var(_) => true,
        TKind::MakeCtor { adt, .. } => alike(tab, t.ty@, TyModel::Adt(adt@)),
        TKind::Tuple(items) => alike(tab, t.ty@, TyModel::Tuple(tys_of(items@))),
        TKind::Neg(x) => alike(tab, t.ty@, TyModel::Int) && alike(tab, x.ty@, TyModel::Int),
        TKind::Bin { op, lhs, rhs } => bin_rule(op, tab, lhs.ty@, rhs.ty@, t.ty@),
        TKind::If { cond, then, els } => alike(tab, cond.ty@, TyModel::Bool) && alike(tab, then.ty@, t.ty@)
            && alike(tab, els.ty@, t.ty@),
        TKind::Fun { param_ty, body, .. } => alike(tab, t.ty@, TyModel::Fun(Box::new(param_ty@), Box::new(body.ty@))),
        TKind::App { func, arg } => alike(tab, func.ty@, TyModel::Fun(Box::new(arg.ty@), Box::new(t.ty@))),
        TKind::Let { body, .. } => alike(tab, t.ty@, body.ty@),
        TKind::Match { arms, .. } => forall|i: int| 0 <= i < arms@.len() ==> alike(tab, (#[trigger] arms@[i]).1.ty@, t.ty@),
    }
}

/// Every node of `t` obeys its typing rule through `tab`.
pub open spec fn welltyped(t: TExpr, tab: TypeTable) -> bool
    decreases t,
{
    &&& rule_holds(t, tab)
    &&& match t.kind {
        TKind::MakeCtor { payload, .. } => forall|i: int| 0 <= i < payload@.len() ==> welltyped(#[trigger] payload@[i], tab),
        TKind::Tuple(ts) => forall|i: int| 0 <= i < ts@.len() ==> welltyped(#[trigger] ts@[i], tab),
        TKind::Neg(x) => welltyped(*x, tab),
        TKind::Bin { lhs, rhs, .. } => welltyped(*lhs, tab) && welltyped(*rhs, tab),
        TKind::If { cond, then, els } => welltyped(*cond, tab) && welltyped(*then, tab) && welltyped(*els, tab),
        TKind::Fun { body, .. } => welltyped(*body, tab),
        TKind::App { func, arg } => welltyped(*func, tab) && welltyped(*arg, tab),
        TKind::Let { bindings, body, .. } => (forall|i: int| 0 <= i < bindings@.len() ==> welltyped((#[trigger] bindings@[i]).expr, tab))
            && welltyped(*body, tab),
        TKind::Match { scrutinee, arms } => welltyped(*scrutinee, tab)
            && forall|i: int| 0 <= i < arms@.len() ==> welltyped((#[trigger] arms@[i]).1, tab),
        _ => true,
    }
}

/// An operator's typing rule on concrete types.
pub open spec fn bin_typed(op: BinOp, l: TyModel, r: TyModel, t: TyModel) -> bool {
    match op {
        BinOp::Add | BinOp::Sub | BinOp::Mul | BinOp::Div => l == TyModel::Int && r == TyModel::Int && t == TyModel::Int,
        BinOp::Lt | BinOp::Le | BinOp::Gt | BinOp::Ge => l == TyModel::Int && r == TyModel::Int && t == TyModel::Bool,
        BinOp::Eq | BinOp::Ne => l == r && t == TyModel::Bool,
        BinOp::AndAlso | BinOp::OrElse => l == TyModel::Bool && r == TyModel::Bool && t == TyModel::Bool,
    }
}

/// The typing rule of `t`'s own node on its concrete types (see
/// `rule_holds`).
pub open spec fn typed_rule(t: TExpr) -> bool {
    match t.kind {
        TKind::Unit => t.ty@ == TyModel::Unit,
        TKind::Int(_) => t.ty@ == TyModel::Int,
        TKind::Bool(_) => t.ty@ == TyModel::Bool,
        TKind::Var(_) => true,
        TKind::MakeCtor { adt, .. } => t.ty@ == TyModel::Adt(adt@),
        TKind::Tuple(items) => t.ty@ == TyModel::Tuple(tys_of(items@)),
        TKind::Neg(x) => t.ty@ == TyModel::Int && x.ty@ == TyModel::Int,
        TKind::Bin { op, lhs, rhs } => bin_typed(op, lhs.ty@, rhs.ty@, t.ty@),
        TKind::If { cond, then, els } => cond.ty@ == TyModel::Bool && then.ty@ == t.ty@ && els.ty@ == t.ty@,
        TKind::Fun { param_ty, body, .. } => t.ty@ == TyModel::Fun(Box::new(param_ty@), Box::new(body.ty@)),
        TKind::App { func, arg } => func.ty@ == TyModel::Fun(Box::new(arg.ty@), Box::new(t.ty@)),
        TKind::Let { body, .. } => t.ty@ == body.ty@,
        TKind::Match { arms, .. } => forall|i: int| 0 <= i < arms@.len() ==> (#[trigger] arms@[i]).1.ty@ == t.ty@,
    }
}

/// Every node of `t` obeys its typing rule on its concrete types; a
/// binding marked dead is not looked into.
pub open spec fn typed_ok(t: TExpr) -> bool
    decreases t,
{
    &&& typed_rule(t)
    &&& match t.kind {
        TKind::MakeCtor { payload, .. } => forall|i: int| 0 <= i < payload@.len() ==> typed_ok(#[trigger] payload@[i]),
        TKind::Tuple(ts) => forall|i: int| 0 <= i < ts@.len() ==> typed_ok(#[trigger] ts@[i]),
        TKind::Neg(x) => typed_ok(*x),
        TKind::Bin { lhs, rhs, .. } => typed_ok(*lhs) && typed_ok(*rhs),
        TKind::If { cond, then, els } => typed_ok(*cond) && typed_ok(*then) && typed_ok(*els),
        TKind::Fun { body, .. } => typed_ok(*body),
        TKind::App { func, arg } => typed_ok(*func) && typed_ok(*arg),
        TKind::Let { bindings, body, .. } => (forall|i: int| 0 <= i < bindings@.len()
            ==> ((#[trigger] bindings@[i]).dead || typed_ok(bindings@[i].expr))) && typed_ok(*body),
        TKind::Match { scrutinee, arms } => typed_ok(*scrutinee) && forall|i: int| 0 <= i < arms@.len() ==> typed_ok((#[trigger] arms@[i]).1),
        _ => true,
    }
}

proof fn lemma_tvars_ty(t: TExpr, n: nat)
    requires
        tvars(t, n, false),
    ensures
        vars_below(t.ty@, n),
{
}

proof fn lemma_tuple_vars(items: Seq<TExpr>, n: nat)
    requires
        forall|i: int| 0 <= i < items.len() ==> tvars(#[trigger] items[i], n, false),
    ensures
        vars_below(TyModel::Tuple(tys_of(items)), n),
{
    assert forall|i: int| 0 <= i < tys_of(items).len() implies vars_below(#[trigger] tys_of(items)[i], n) by {
        assert(tvars(items[i], n, false));
    }
}

/// A typing that holds through a table holds through any table that
/// refines it.
proof fn lemma_welltyped_mono(t: TExpr, s: TypeTable, s2: TypeTable)
    requires
        welltyped(t, s),
        s.refines(&s2),
        tvars(t, s.len(), false),
    ensures
        welltyped(t, s2),
    decreases t,
{
    let n = s.len();
    assert(vars_below(t.ty@, n));
    match t.kind {
        TKind::MakeCtor { adt, payload, .. } => {
            assert(vars_below(TyModel::Adt(adt@), n));
            assert(alike(s2, t.ty@, TyModel::Adt(adt@)));
            assert forall|i: int| 0 <= i < payload@.len() implies welltyped(#[trigger] payload@[i], s2) by {
                lemma_welltyped_mono(payload@[i], s, s2);
            }
            assert(rule_holds(t, s2));
        },
        TKind::Tuple(ts) => {
            lemma_tuple_vars(ts@, n);
            assert forall|i: int| 0 <= i < ts@.len() implies welltyped(#[trigger] ts@[i], s2) by {
                lemma_welltyped_mono(ts@[i], s, s2);
            }
            assert(rule_holds(t, s2));
        },
        TKind::Neg(x) => {
            lemma_welltyped_mono(*x, s, s2);
            lemma_tvars_ty(*x, n);
            assert(rule_holds(t, s2));
        },
        TKind::Bin { op, lhs, rhs } => {
            lemma_welltyped_mono(*lhs, s, s2);
            lemma_welltyped_mono(*rhs, s, s2);
            lemma_tvars_ty(*lhs, n);
            lemma_tvars_ty(*rhs, n);
            assert(vars_below(TyModel::Int, n) && vars_below(TyModel::Bool, n));
            assert(rule_holds(t, s2));
        },
        TKind::If { cond, then, els } => {
            lemma_welltyped_mono(*cond, s, s2);
            lemma_welltyped_mono(*then, s, s2);
            lemma_welltyped_mono(*els, s, s2);
            lemma_tvars_ty(*cond, n);
            lemma_tvars_ty(*then, n);
            lemma_tvars_ty(*els, n);
            assert(rule_holds(t, s2));
        },
        TKind::Fun { param_ty, body, .. } => {
            lemma_welltyped_mono(*body, s, s2);
            lemma_tvars_ty(*body, n);
            assert(vars_below(TyModel::Fun(Box::new(param_ty@), Box::new(body.ty@)), n));
            assert(rule_holds(t, s2));
        },
        TKind::App { func, arg } => {
            lemma_welltyped_mono(*func, s, s2);
            lemma_welltyped_mono(*arg, s, s2);
            lemma_tvars_ty(*func, n);
            lemma_tvars_ty(*arg, n);
            assert(vars_below(TyModel::Fun(Box::new(arg.ty@), Box::new(t.ty@)), n));
            assert(rule_holds(t, s2));
        },
        TKind::Let { bindings, body, .. } => {
            assert forall|i: int| 0 <= i < bindings@.len() implies welltyped((#[trigger] bindings@[i]).expr, s2) by {
                assert(binding_tvars(bindings@[i], n, false));
                lemma_welltyped_mono(bindings@[i].expr, s, s2);
            }
            lemma_welltyped_mono(*body, s, s2);
            lemma_tvars_ty(*body, n);
            assert(rule_holds(t, s2));
        },
        TKind::Match { scrutinee, arms } => {
            lemma_welltyped_mono(*scrutinee, s, s2);
            assert forall|i: int| 0 <= i < arms@.len() implies welltyped((#[trigger] arms@[i]).1, s2) by {
                lemma_welltyped_mono(arms@[i].1, s, s2);
            }
            assert forall|i: int| 0 <= i < arms@.len() implies alike(s2, (#[trigger] arms@[i]).1.ty@, t.ty@) by {
                assert(alike(s, arms@[i].1.ty@, t.ty@));
                lemma_tvars_ty(arms@[i].1, n);
            }
            assert(rule_holds(t, s2));
        },
        _ => {},
    }
}

/// A first-order tree whose every type resolves, through `tab`, to a
/// type without variables (false for any other form of tree).
pub open spec fn resolves_ground(t: TExpr, tab: TypeTable) -> bool
    decreases t,
{
    &&& vars_below(tab.resolution(t.ty@), 0)
    &&& match t.kind {
        TKind::Unit | TKind::Int(_) | TKind::Bool(_) => true,
        TKind::Tuple(ts) => forall|i: int| 0 <= i < ts@.len() ==> resolves_ground(#[trigger] ts@[i], tab),
        TKind::Neg(x) => resolves_ground(*x, tab),
        TKind::Bin { lhs, rhs, .. } => resolves_ground(*lhs, tab) && resolves_ground(*rhs, tab),
        TKind::If { cond, then, els } => resolves_ground(*cond, tab) && resolves_ground(*then, tab)
            && resolves_ground(*els, tab),
        TKind::Fun { param_ty, body, .. } => vars_below(tab.resolution(param_ty@), 0) && resolves_ground(*body, tab),
        _ => false,
    }
}

proof fn lemma_rg_res_eq(t: TExpr, p: TypeTable, q: TypeTable)
    requires
        forall|u: TyModel| #[trigger] p.resolution(u) == q.resolution(u),
    ensures
        resolves_ground(t, p) == resolves_ground(t, q),
    decreases t,
{
    assert(p.resolution(t.ty@) == q.resolution(t.ty@));
    match t.kind {
        TKind::Tuple(ts) => {
            assert forall|i: int| 0 <= i < ts@.len() implies resolves_ground(#[trigger] ts@[i], p) == resolves_ground(ts@[i], q) by {
                lemma_rg_res_eq(ts@[i], p, q);
            }
        },
        TKind::Neg(x) => lemma_rg_res_eq(*x, p, q),
        TKind::Bin { lhs, rhs, .. } => {
            lemma_rg_res_eq(*lhs, p, q);
            lemma_rg_res_eq(*rhs, p, q);
        },
        TKind::If { cond, then, els } => {
            lemma_rg_res_eq(*cond, p, q);
            lemma_rg_res_eq(*then, p, q);
            lemma_rg_res_eq(*els, p, q);
        },
        TKind::Fun { param_ty, body, .. } => {
            assert(p.resolution(param_ty@) == q.resolution(param_ty@));
            lemma_rg_res_eq(*body, p, q);
        },
        _ => {},
    }
}

proof fn lemma_rg_mono(t: TExpr, s1: TypeTable, s2: TypeTable)
    requires
        resolves_ground(t, s1),
        s1.refines(&s2),
        tvars(t, s1.len(), false),
    ensures
        resolves_ground(t, s2),
    decreases t,
{
    let g = s1.resolution(t.ty@);
    crate::ml::unify::lemma_ground_fixed(s1, g);
    crate::ml::unify::lemma_ground_fixed(s2, g);
    crate::ml::unify::lemma_vars_below_mono(g, 0, s1.len());
    assert(s1.resolution(t.ty@) == s1.resolution(g));
    assert(s2.resolution(t.ty@) == s2.resolution(g));
    match t.kind {
        TKind::Tuple(ts) => {
            assert forall|i: int| 0 <= i < ts@.len() implies resolves_ground(#[trigger] ts@[i], s2) by {
                lemma_rg_mono(ts@[i], s1, s2);
            }
        },
        TKind::Neg(x) => lemma_rg_mono(*x, s1, s2),
        TKind::Bin { lhs, rhs, .. } => {
            lemma_rg_mono(*lhs, s1, s2);
            lemma_rg_mono(*rhs, s1, s2);
        },
        TKind::If { cond, then, els } => {
            lemma_rg_mono(*cond, s1, s2);
            lemma_rg_mono(*then, s1, s2);
            lemma_rg_mono(*els, s1, s2);
        },
        TKind::Fun { param_ty, body, .. } => {
            let gp = s1.resolution(param_ty@);
            crate::ml::unify::lemma_ground_fixed(s1, gp);
            crate::ml::unify::lemma_ground_fixed(s2, gp);
            crate::ml::unify::lemma_vars_below_mono(gp, 0, s1.len());
            assert(s1.resolution(param_ty@) == s1.resolution(gp));
            assert(s2.resolution(param_ty@) == s2.resolution(gp));
            lemma_rg_mono(*body, s1, s2);
        },
        _ => {},
    }
}

/// Tables that resolve every type alike type the same trees.
proof fn lemma_welltyped_res_eq(t: TExpr, p: TypeTable, q: TypeTable)
    requires
        forall|u: TyModel| #[trigger] p.resolution(u) == q.resolution(u),
    ensures
        welltyped(t, p) == welltyped(t, q),
    decreases t,
{
    match t.kind {
        TKind::MakeCtor { payload, .. } => {
            assert forall|i: int| 0 <= i < payload@.len() implies welltyped(#[trigger] payload@[i], p) == welltyped(payload@[i], q) by {
                lemma_welltyped_res_eq(payload@[i], p, q);
            }
        },
        TKind::Tuple(ts) => {
            assert forall|i: int| 0 <= i < ts@.len() implies welltyped(#[trigger] ts@[i], p) == welltyped(ts@[i], q) by {
                lemma_welltyped_res_eq(ts@[i], p, q);
            }
        },
        TKind::Neg(x) => lemma_welltyped_res_eq(*x, p, q),
        TKind::Bin { lhs, rhs, .. } => {
            lemma_welltyped_res_eq(*lhs, p, q);
            lemma_welltyped_res_eq(*rhs, p, q);
        },
        TKind::If { cond, then, els } => {
            lemma_welltyped_res_eq(*cond, p, q);
            lemma_welltyped_res_eq(*then, p, q);
            lemma_welltyped_res_eq(*els, p, q);
        },
        TKind::Fun { body, .. } => lemma_welltyped_res_eq(*body, p, q),
        TKind::App { func, arg } => {
            lemma_welltyped_res_eq(*func, p, q);
            lemma_welltyped_res_eq(*arg, p, q);
        },
        TKind::Let { bindings, body, .. } => {
            assert forall|i: int| 0 <= i < bindings@.len() implies welltyped((#[trigger] bindings@[i]).expr, p)
                == welltyped(bindings@[i].expr, q) by {
                lemma_welltyped_res_eq(bindings@[i].expr, p, q);
            }
            lemma_welltyped_res_eq(*body, p, q);
        },
        TKind::Match { scrutinee, arms } => {
            lemma_welltyped_res_eq(*scrutinee, p, q);
            assert forall|i: int| 0 <= i < arms@.len() implies welltyped((#[trigger] arms@[i]).1, p) == welltyped(arms@[i].1, q) by {
                lemma_welltyped_res_eq(arms@[i].1, p, q);
            }
            assert forall|i: int| 0 <= i < arms@.len() implies alike(p, (#[trigger] arms@[i]).1.ty@, t.ty@)
                == alike(q, arms@[i].1.ty@, t.ty@) by {
                assert(p.resolution(arms@[i].1.ty@) == q.resolution(arms@[i].1.ty@));
                assert(p.resolution(t.ty@) == q.resolution(t.ty@));
            }
        },
        _ => {},
    }
    assert(rule_holds(t, p) == rule_holds(t, q)) by {
        assert(p.resolution(t.ty@) == q.resolution(t.ty@));
    }
}

} // verus!

verus! {

proof fn lemma_tvars_mono(t: TExpr, n: nat, m: nat)
    requires
        tvars(t, n, false),
        n <= m,
    ensures
        tvars(t, m, false),
    decreases t,
{
    crate::ml::unify::lemma_vars_below_mono(t.ty@, n, m);
    match t.kind {
        TKind::MakeCtor { payload, .. } => {
            assert forall|i: int| 0 <= i < payload@.len() implies tvars(#[trigger] payload@[i], m, false) by {
                lemma_tvars_mono(payload@[i], n, m);
            }
        },
        TKind::Tuple(ts) => {
            assert forall|i: int| 0 <= i < ts@.len() implies tvars(#[trigger] ts@[i], m, false) by {
                lemma_tvars_mono(ts@[i], n, m);
            }
        },
        TKind::Neg(x) => lemma_tvars_mono(*x, n, m),
        TKind::Bin { lhs, rhs, .. } => {
            lemma_tvars_mono(*lhs, n, m);
            lemma_tvars_mono(*rhs, n, m);
        },
        TKind::If { cond, then, els } => {
            lemma_tvars_mono(*cond, n, m);
            lemma_tvars_mono(*then, n, m);
            lemma_tvars_mono(*els, n, m);
        },
        TKind::Fun { param_ty, body, .. } => {
            crate::ml::unify::lemma_vars_below_mono(param_ty@, n, m);
            lemma_tvars_mono(*body, n, m);
        },
        TKind::App { func, arg } => {
            lemma_tvars_mono(*func, n, m);
            lemma_tvars_mono(*arg, n, m);
        },
        TKind::Let { bindings, body, .. } => {
            assert forall|i: int| 0 <= i < bindings@.len() implies binding_tvars(#[trigger] bindings@[i], m, false) by {
                assert(binding_tvars(bindings@[i], n, false));
                assert(tvars(bindings@[i].expr, n, false));
                lemma_tvars_mono(bindings@[i].expr, n, m);
            }
            lemma_tvars_mono(*body, n, m);
        },
        TKind::Match { scrutinee, arms } => {
            lemma_tvars_mono(*scrutinee, n, m);
            assert forall|i: int| 0 <= i < arms@.len() implies tvars((#[trigger] arms@[i]).1, m, false) by {
                lemma_tvars_mono(arms@[i].1, n, m);
            }
        },
        _ => {},
    }
}

/// A type scheme: the type, generalized over `vars`.
pub struct Scheme {
    pub vars: Vec<TyVid>,
    pub ty: Ty,
}

pub open spec fn scheme_ok(s: Scheme, n: nat) -> bool {
    &&& forall|k: int| 0 <= k < s.vars@.len() ==> ((#[trigger] s.vars@[k]).0 as nat) < n
    &&& vars_below(s.ty@, n)
}

pub open spec fn env_ok(env: Seq<(String, Scheme)>, n: nat) -> bool {
    forall|i: int| 0 <= i < env.len() ==> scheme_ok(#[trigger] env[i].1, n)
}

proof fn lemma_env_mono(env: Seq<(String, Scheme)>, n: nat, m: nat)
    requires
        env_ok(env, n),
        n <= m,
    ensures
        env_ok(env, m),
{
    assert forall|i: int| 0 <= i < env.len() implies scheme_ok(#[trigger] env[i].1, m) by {
        crate::ml::unify::lemma_vars_below_mono(env[i].1.ty@, n, m);
    }
}

impl Scheme {
    fn duplicate(&self) -> (c: Scheme)
        ensures
            c.vars@ == self.vars@,
            c.ty@ == self.ty@,
    {
        Scheme { vars: self.vars.clone(), ty: self.ty.duplicate() }
    }
}

fn mono(ty: Ty) -> (s: Scheme)
    ensures
        s.vars@.len() == 0,
        s.ty@ == ty@,
{
    Scheme { vars: Vec::new(), ty }
}

/// The entry bound to `name`, if any.
fn env_find(env: &Vec<(String, Scheme)>, name: &str) -> (r: Option<usize>)
    ensures
        match r {
            Some(i) => i < env@.len() && env@[i as int].0@ == name@,
            None => forall|i: int| 0 <= i < env@.len() ==> (#[trigger] env@[i]).0@ != name@,
        },
{
    let mut k: usize = 0;
    while k < env.len()
        invariant
            k <= env@.len(),
            forall|i: int| 0 <= i < k ==> (#[trigger] env@[i]).0@ != name@,
        decreases env@.len() - k,
    {
        if str_eq(env[k].0.as_str(), name) {
            return Some(k);
        }
        k = k + 1;
    }
    None
}

/// Binds `name` to `s`, replacing an earlier binding of the name.
fn env_insert(env: &mut Vec<(String, Scheme)>, name: String, s: Scheme, Ghost(n): Ghost<nat>)
    requires
        env_ok(old(env)@, n),
        scheme_ok(s, n),
    ensures
        env_ok(final(env)@, n),
        exists|i: int| 0 <= i < final(env)@.len() && (#[trigger] final(env)@[i]).0@ == name@,
        forall|i: int| 0 <= i < final(env)@.len() ==> (#[trigger] final(env)@[i]).0@ == name@
            || names_in(old(env)@, final(env)@[i].0@),
        forall|i: int| 0 <= i < final(env)@.len() ==> ((#[trigger] final(env)@[i]).0@ == name@
            && final(env)@[i].1.vars@ == s.vars@ && final(env)@[i].1.ty@ == s.ty@) || entry_in(old(env)@, final(env)@[i]),
        forall|i: int| 0 <= i < old(env)@.len() ==> names_in(final(env)@, (#[trigger] old(env)@[i]).0@),
{
    let ghost before = env@;
    match env_find(env, name.as_str()) {
        Some(i) => {
            env.set(i, (name, s));
            assert(env@[i as int].0@ == name@);
            assert forall|j: int| 0 <= j < env@.len() implies (#[trigger] env@[j]).0@ == name@
                || names_in(before, env@[j].0@) by {
                if j != i {
                    assert(env@[j] == before[j]);
                }
            }
            assert forall|j: int| 0 <= j < env@.len() implies ((#[trigger] env@[j]).0@ == name@
                && env@[j].1.vars@ == s.vars@ && env@[j].1.ty@ == s.ty@) || entry_in(before, env@[j]) by {
                if j != i {
                    assert(env@[j] == before[j]);
                }
            }
            assert forall|j: int| 0 <= j < before.len() implies names_in(env@, (#[trigger] before[j]).0@) by {
                if j != i {
                    assert(env@[j] == before[j]);
                }
            }
        },
        None => {
            env.push((name, s));
            assert(env@[env@.len() - 1].0@ == name@);
            assert forall|j: int| 0 <= j < env@.len() implies (#[trigger] env@[j]).0@ == name@
                || names_in(before, env@[j].0@) by {
                if j < before.len() {
                    assert(env@[j] == before[j]);
                }
            }
            assert forall|j: int| 0 <= j < env@.len() implies ((#[trigger] env@[j]).0@ == name@
                && env@[j].1.vars@ == s.vars@ && env@[j].1.ty@ == s.ty@) || entry_in(before, env@[j]) by {
                if j < before.len() {
                    assert(env@[j] == before[j]);
                }
            }
            assert forall|j: int| 0 <= j < before.len() implies names_in(env@, (#[trigger] before[j]).0@) by {
                assert(env@[j] == before[j]);
            }
        },
    }
}

/// Some entry of `env` is named `name`.
pub open spec fn names_in(env: Seq<(String, Scheme)>, name: Seq<char>) -> bool {
    exists|j: int| 0 <= j < env.len() && (#[trigger] env[j]).0@ == name
}

/// Some binding of `bindings` is named `name`.
pub open spec fn binds_in(bindings: Seq<Binding>, name: Seq<char>) -> bool {
    exists|j: int| 0 <= j < bindings.len() && (#[trigger] bindings[j]).name@ == name
}

/// `e` stands in `env`: an entry there has its name and scheme.
pub open spec fn entry_in(env: Seq<(String, Scheme)>, e: (String, Scheme)) -> bool {
    exists|j: int| 0 <= j < env.len() && (#[trigger] env[j]).0@ == e.0@ && env[j].1.vars@ == e.1.vars@
        && env[j].1.ty@ == e.1.ty@
}

/// `e` binds, with no quantified variable, the ground type of one of
/// `bindings` with its name.
pub open spec fn entry_from(e: (String, Scheme), bindings: Seq<Binding>) -> bool {
    &&& e.1.vars@.len() == 0
    &&& exists|j: int| 0 <= j < bindings.len() && (#[trigger] bindings[j]).name@ == e.0@
        && ground_type(bindings[j].expr@) == Some(e.1.ty@)
}

/// `e` binds, with no quantified variable, the ground type of a
/// top-level binding with its name among the first `k` declarations.
pub open spec fn entry_declared(e: (String, Scheme), decls: Seq<(bool, Vec<Binding>)>, k: int) -> bool {
    &&& e.1.vars@.len() == 0
    &&& exists|d: int, j: int| 0 <= d < k && 0 <= j < decls[d].1@.len() && (#[trigger] decls[d].1@[j]).name@ == e.0@
        && ground_type(decls[d].1@[j].expr@) == Some(e.1.ty@)
}

/// Some top-level binding among the first `k` declarations is named
/// `name`.
pub open spec fn declares(decls: Seq<(bool, Vec<Binding>)>, k: int, name: Seq<char>) -> bool {
    exists|d: int| 0 <= d < k && binds_in((#[trigger] decls[d]).1@, name)
}

/// A copy of the environment.
fn env_dup(env: &Vec<(String, Scheme)>, Ghost(n): Ghost<nat>) -> (c: Vec<(String, Scheme)>)
    requires
        env_ok(env@, n),
    ensures
        env_ok(c@, n),
        c@.len() == env@.len(),
        forall|i: int| 0 <= i < c@.len() ==> (#[trigger] c@[i]).0@ == env@[i].0@,
{
    let mut c: Vec<(String, Scheme)> = Vec::new();
    let mut k: usize = 0;
    while k < env.len()
        invariant
            k <= env@.len(),
            env_ok(env@, n),
            env_ok(c@, n),
            c@.len() == k,
            forall|i: int| 0 <= i < k ==> (#[trigger] c@[i]).0@ == env@[i].0@,
        decreases env@.len() - k,
    {
        let s = env[k].1.duplicate();
        assert(scheme_ok(env@[k as int].1, n));
        c.push((env[k].0.clone(), s));
        k = k + 1;
    }
    c
}

} // verus!

verus! {

/// The inference context: the type variables, the constructor table,
/// and per generalized binding its quantified variables and the fresh
/// variables each use site instantiated them with.
struct Cx {
    table: TypeTable,
    ctors: Vec<(String, CtorInfo)>,
    instantiations: Vec<(NodeId, Vec<Vec<TyVid>>)>,
    generalized: Vec<(NodeId, String, Vec<TyVid>)>,
}

impl Cx {
    spec fn rows(&self) -> Seq<(Seq<char>, CtorModel)> {
        ctor_rows_model(self.ctors@)
    }

    spec fn n(&self) -> nat {
        self.table.len()
    }

    spec fn ok(&self) -> bool {
        &&& self.table.wf()
        &&& ground_rows(self.rows())
        &&& forall|i: int, j: int, k: int|
            0 <= i < self.instantiations@.len() && 0 <= j < self.instantiations@[i].1@.len()
                && 0 <= k < self.instantiations@[i].1@[j]@.len()
                ==> ((#[trigger] self.instantiations@[i].1@[j]@[k]).0 as nat) < self.n()
        &&& forall|i: int, k: int|
            0 <= i < self.generalized@.len() && 0 <= k < self.generalized@[i].2@.len()
                ==> ((#[trigger] self.generalized@[i].2@[k]).0 as nat) < self.n()
    }

    /// Well formed, with the constructors of `old` and at least its
    /// variables.
    spec fn grows(&self, old: &Cx) -> bool {
        &&& self.ok()
        &&& self.ctors@ == old.ctors@
        &&& self.n() >= old.n()
        &&& forall|p: TypeTable| p.len() <= old.n() && p.refines(&old.table) ==> #[trigger] p.refines(&self.table)
    }

    /// Whatever refined the old table refines the new one, which refines
    /// the old.
    proof fn lemma_carries(&self, old: &Cx)
        requires
            old.table.refines(&self.table),
            old.n() <= self.n(),
        ensures
            forall|p: TypeTable| p.len() <= old.n() && p.refines(&old.table) ==> #[trigger] p.refines(&self.table),
    {
        assert forall|p: TypeTable| p.len() <= old.n() && p.refines(&old.table) implies #[trigger] p.refines(&self.table) by {
            crate::ml::unify::lemma_refines_trans(p, old.table, self.table);
        }
    }

    /// Types alike in an earlier state stay alike.
    proof fn carry_alike(&self, mid: &Cx, a: TyModel, b: TyModel)
        requires
            self.grows(mid),
            alike(mid.table, a, b),
            vars_below(a, mid.n()),
            vars_below(b, mid.n()),
        ensures
            alike(self.table, a, b),
    {
        assert(mid.table.refines(&self.table));
    }

    /// A tree well typed in an earlier state stays well typed.
    /// A type resolving to a ground type keeps doing so.
    proof fn keep_ground(&self, mid: &Cx, t: TyModel, g: TyModel)
        requires
            self.grows(mid),
            alike(mid.table, t, g),
            vars_below(t, mid.n()),
            vars_below(g, 0),
        ensures
            alike(self.table, t, g),
            self.table.resolution(t) == g,
    {
        crate::ml::unify::lemma_vars_below_mono(g, 0, mid.n());
        self.carry_alike(mid, t, g);
        crate::ml::unify::lemma_ground_fixed(self.table, g);
    }

    /// A tree whose types resolve ground keeps doing so.
    proof fn carry_rg(&self, mid: &Cx, t: TExpr)
        requires
            self.grows(mid),
            resolves_ground(t, mid.table),
            tvars(t, mid.n(), false),
        ensures
            resolves_ground(t, self.table),
    {
        assert(mid.table.refines(&self.table));
        lemma_rg_mono(t, mid.table, self.table);
    }

    proof fn carry_typed(&self, mid: &Cx, t: TExpr)
        requires
            self.grows(mid),
            welltyped(t, mid.table),
            tvars(t, mid.n(), false),
        ensures
            welltyped(t, self.table),
    {
        assert(mid.table.refines(&self.table));
        lemma_welltyped_mono(t, mid.table, self.table);
    }

    proof fn lemma_payload_ground(&self, j: int, p: int)
        requires
            self.ok(),
            0 <= j < self.ctors@.len(),
            0 <= p < self.ctors@[j].1.payload@.len(),
        ensures
            vars_below(self.ctors@[j].1.payload@[p]@, 0),
    {
        let rows = self.rows();
        assert(rows[j].1.2 == ty_models(self.ctors@[j].1.payload@));
        assert(rows[j].1.2[p] == self.ctors@[j].1.payload@[p]@);
    }

    fn fresh(&mut self) -> (r: Result<Ty, TypeError>)
        requires
            old(self).ok(),
        ensures
            final(self).grows(old(self)),
            r matches Ok(t) ==> vars_below(t@, final(self).n()),
            r matches Ok(t) ==> t@ is Var && final(self).table.resolution(t@) == t@,
            old(self).n() <= u32::MAX ==> r is Ok,
            final(self).generalized == old(self).generalized,
    {
        let ghost before = *self;
        let r = self.table.fresh();
        proof {
            self.lemma_carries(&before);
        }
        match r {
            Some(k) => Ok(Ty::Var(k)),
            None => Err(TypeError("too many type variables".to_owned())),
        }
    }

    fn unify(&mut self, a: &Ty, b: &Ty) -> (r: Result<(), TypeError>)
        requires
            old(self).ok(),
            vars_below(a@, old(self).n()),
            vars_below(b@, old(self).n()),
        ensures
            final(self).grows(old(self)),
            final(self).instantiations == old(self).instantiations,
            final(self).generalized == old(self).generalized,
            final(self).n() == old(self).n(),
            r is Ok ==> alike(final(self).table, a@, b@),
            r is Ok ==> forall|p: TypeTable| #[trigger] extended_by(old(self).table, p)
                && p.resolution(a@) == p.resolution(b@) ==> extended_by(final(self).table, p),
            r is Err ==> forall|p: TypeTable| #[trigger] extended_by(old(self).table, p) ==> p.resolution(a@) != p.resolution(b@),
            alike(old(self).table, a@, b@) ==> r is Ok,
            (old(self).table.resolution(a@) matches TyModel::Fun(a1, a2) && old(self).table.resolution(b@) matches TyModel::Fun(b1, b2)
                && a1 == b1 && vars_below(*a2, 0) && *b2 is Var) ==> r is Ok,
    {
        let ghost before = *self;
        let r = self.table.unify(a, b);
        proof {
            self.lemma_carries(&before);
        }
        r
    }

    fn resolve(&mut self, ty: &Ty) -> (r: Ty)
        requires
            old(self).ok(),
            vars_below(ty@, old(self).n()),
        ensures
            final(self).grows(old(self)),
            final(self).instantiations == old(self).instantiations,
            final(self).generalized == old(self).generalized,
            final(self).n() == old(self).n(),
            vars_below(r@, old(self).n()),
            r@ == old(self).table.resolution(ty@),
    {
        let ghost before = *self;
        let r = self.table.resolve(ty);
        proof {
            crate::ml::unify::lemma_refines_same(before.table, self.table);
            self.lemma_carries(&before);
        }
        r
    }

    /// The constructor named `name`, if declared.
    fn lookup_ctor(&self, name: &str) -> (r: Option<usize>)
        ensures
            match r {
                Some(i) => i < self.ctors@.len() && self.ctors@[i as int].0@ == name@,
                None => forall|i: int| 0 <= i < self.ctors@.len() ==> (#[trigger] self.ctors@[i]).0@ != name@,
            },
    {
        let mut k: usize = 0;
        while k < self.ctors.len()
            invariant
                k <= self.ctors@.len(),
                forall|i: int| 0 <= i < k ==> (#[trigger] self.ctors@[i]).0@ != name@,
            decreases self.ctors@.len() - k,
        {
            if str_eq(self.ctors[k].0.as_str(), name) {
                return Some(k);
            }
            k = k + 1;
        }
        None
    }

    /// Fresh variables for each of `vars`, and the renaming pairing them.
    fn fresh_map(&mut self, vars: &Vec<TyVid>) -> (r: Result<(Vec<TyVid>, Vec<(TyVid, TyVid)>), TypeError>)
        requires
            old(self).ok(),
        ensures
            final(self).grows(old(self)),
            r matches Ok((fresh, map)) ==> {
                &&& forall|k: int| 0 <= k < fresh@.len() ==> ((#[trigger] fresh@[k]).0 as nat) < final(self).n()
                &&& forall|k: int| 0 <= k < map@.len() ==> ((#[trigger] map@[k]).1.0 as nat) < final(self).n()
            },
    {
        let mut fresh: Vec<TyVid> = Vec::new();
        let mut map: Vec<(TyVid, TyVid)> = Vec::new();
        let ghost start = *self;
        let mut k: usize = 0;
        while k < vars.len()
            invariant
                start == *old(self),
                self.grows(&start),
                k <= vars@.len(),
                forall|j: int| 0 <= j < fresh@.len() ==> ((#[trigger] fresh@[j]).0 as nat) < self.n(),
                forall|j: int| 0 <= j < map@.len() ==> ((#[trigger] map@[j]).1.0 as nat) < self.n(),
            decreases vars@.len() - k,
        {
            let ghost prev = *self;
            let got = self.table.fresh();
            proof {
                self.lemma_carries(&prev);
            }
            match got {
                Some(v) => {
                    fresh.push(v);
                    map.push((vars[k], v));
                },
                None => {
                    return Err(TypeError("too many type variables".to_owned()));
                },
            }
            k = k + 1;
        }
        Ok((fresh, map))
    }

    fn instantiate(&mut self, scheme: &Scheme) -> (r: Result<Ty, TypeError>)
        requires
            old(self).ok(),
            scheme_ok(*scheme, old(self).n()),
        ensures
            final(self).grows(old(self)),
            r matches Ok(t) ==> vars_below(t@, final(self).n()),
            scheme.vars@.len() == 0 ==> (r matches Ok(t) && t@ == scheme.ty@) && *final(self) == *old(self),
    {
        if scheme.vars.len() == 0 {
            return Ok(scheme.ty.duplicate());
        }
        let (fresh, map) = self.fresh_map(&scheme.vars)?;
        proof {
            crate::ml::unify::lemma_vars_below_mono(scheme.ty@, old(self).n(), self.n());
        }
        let ghost prev = *self;
        let t = self.table.substitute(&scheme.ty, &map);
        proof {
            crate::ml::unify::lemma_refines_same(prev.table, self.table);
            self.lemma_carries(&prev);
        }
        Ok(t)
    }

    /// Instantiates `scheme` and records, under `binding_id`, the fresh
    /// variables standing for its quantified ones at this use site.
    fn instantiate_recorded(&mut self, binding_id: NodeId, scheme: &Scheme) -> (r: Result<Ty, TypeError>)
        requires
            old(self).ok(),
            scheme_ok(*scheme, old(self).n()),
        ensures
            final(self).grows(old(self)),
            r matches Ok(t) ==> vars_below(t@, final(self).n()),
    {
        if scheme.vars.len() == 0 {
            return Ok(scheme.ty.duplicate());
        }
        let (fresh, map) = self.fresh_map(&scheme.vars)?;
        let ghost mid = *self;
        let mut found: Option<usize> = None;
        let mut k: usize = 0;
        while k < self.instantiations.len()
            invariant
                k <= self.instantiations@.len(),
                found matches Some(i) ==> i < self.instantiations@.len(),
            decreases self.instantiations@.len() - k,
        {
            if self.instantiations[k].0 == binding_id {
                found = Some(k);
                break;
            }
            k = k + 1;
        }
        match found {
            Some(i) => {
                let mut entry = self.instantiations.remove(i);
                entry.1.push(fresh);
                self.instantiations.insert(i, entry);
            },
            None => {
                let mut uses: Vec<Vec<TyVid>> = Vec::new();
                uses.push(fresh);
                self.instantiations.push((binding_id, uses));
            },
        }
        assert(self.ok()) by {
            assert forall|i: int, j: int, k: int|
                0 <= i < self.instantiations@.len() && 0 <= j < self.instantiations@[i].1@.len()
                    && 0 <= k < self.instantiations@[i].1@[j]@.len()
                    implies ((#[trigger] self.instantiations@[i].1@[j]@[k]).0 as nat) < self.n() by {
                assert(mid.ok());
            }
        }
        proof {
            crate::ml::unify::lemma_vars_below_mono(scheme.ty@, old(self).n(), self.n());
        }
        let ghost prev = *self;
        let t = self.table.substitute(&scheme.ty, &map);
        proof {
            crate::ml::unify::lemma_refines_same(prev.table, self.table);
            self.lemma_carries(&prev);
        }
        Ok(t)
    }

    /// Records `vars` as the quantified variables of the binding `id`
    /// named `name`, replacing an earlier record for the same binding.
    fn record_generalized(&mut self, id: NodeId, name: &String, vars: &Vec<TyVid>)
        requires
            old(self).ok(),
            forall|k: int| 0 <= k < vars@.len() ==> ((#[trigger] vars@[k]).0 as nat) < old(self).n(),
        ensures
            final(self).grows(old(self)),
            final(self).n() == old(self).n(),
            vars@.len() == 0 ==> *final(self) == *old(self),
    {
        if vars.len() == 0 {
            return;
        }
        let row = (id, name.clone(), vars.clone());
        assert(row.2@ == vars@);
        let mut k: usize = 0;
        while k < self.generalized.len()
            invariant
                *self == *old(self),
                old(self).ok(),
                vars@.len() > 0,
                row.2@ == vars@,
                forall|j: int| 0 <= j < vars@.len() ==> ((#[trigger] vars@[j]).0 as nat) < old(self).n(),
                k <= self.generalized@.len(),
            decreases self.generalized@.len() - k,
        {
            if self.generalized[k].0 == id {
                let ghost before = old(self).generalized@;
                self.generalized.set(k, row);
                assert forall|i: int, j: int| 0 <= i < self.generalized@.len() && 0 <= j < self.generalized@[i].2@.len()
                    implies ((#[trigger] self.generalized@[i].2@[j]).0 as nat) < self.n() by {
                    if i != k {
                        assert(self.generalized@[i] == before[i]);
                    } else {
                        assert(self.generalized@[i].2@ == vars@);
                        assert(vars@[j].0 < old(self).n());
                    }
                }
                return;
            }
            k = k + 1;
        }
        let ghost before = old(self).generalized@;
        self.generalized.push(row);
        assert forall|i: int, j: int| 0 <= i < self.generalized@.len() && 0 <= j < self.generalized@[i].2@.len()
            implies ((#[trigger] self.generalized@[i].2@[j]).0 as nat) < self.n() by {
            if i < before.len() {
                assert(self.generalized@[i] == before[i]);
            }
        }
    }

    /// The scheme of `ty` in `env`: quantified over the variables of the
    /// resolved type not free in the environment.
    fn generalize(&mut self, env: &Vec<(String, Scheme)>, ty: &Ty) -> (s: Scheme)
        requires
            old(self).ok(),
            env_ok(env@, old(self).n()),
            vars_below(ty@, old(self).n()),
        ensures
            final(self).grows(old(self)),
            final(self).n() == old(self).n(),
            scheme_ok(s, old(self).n()),
            final(self).generalized == old(self).generalized,
            final(self).instantiations == old(self).instantiations,
            s.ty@ == old(self).table.resolution(ty@),
            vars_below(old(self).table.resolution(ty@), 0) ==> s.vars@.len() == 0,
            forall|u: TyModel| #[trigger] final(self).table.resolution(u) == old(self).table.resolution(u),
    {
        let ghost start = *self;
        let mut env_vars: Vec<TyVid> = Vec::new();
        let mut i: usize = 0;
        while i < env.len()
            invariant
                self.grows(&start),
                self.n() == start.n(),
                env_ok(env@, start.n()),
                i <= env@.len(),
                forall|j: int| 0 <= j < env_vars@.len() ==> ((#[trigger] env_vars@[j]).0 as nat) < start.n(),
                self.generalized == start.generalized,
                self.instantiations == start.instantiations,
                forall|u: TyModel| #[trigger] self.table.resolution(u) == start.table.resolution(u),
            decreases env@.len() - i,
        {
            assert(scheme_ok(env@[i as int].1, start.n()));
            let ghost prev = *self;
            self.table.free_vars(&env[i].1.ty, &mut env_vars);
            proof {
                crate::ml::unify::lemma_refines_same(prev.table, self.table);
                self.lemma_carries(&prev);
            }
            i = i + 1;
        }
        let mut ty_vars: Vec<TyVid> = Vec::new();
        let ghost prev = *self;
        self.table.free_vars(ty, &mut ty_vars);
        proof {
            crate::ml::unify::lemma_refines_same(prev.table, self.table);
            self.lemma_carries(&prev);
            assert(prev.table.resolution(ty@) == start.table.resolution(ty@));
            if vars_below(start.table.resolution(ty@), 0) {
                crate::ml::unify::lemma_with_vars_ground(Seq::empty(), start.table.resolution(ty@));
                assert(ty_vars@.len() == 0);
            }
        }
        let mut vars: Vec<TyVid> = Vec::new();
        let mut k: usize = 0;
        while k < ty_vars.len()
            invariant
                k <= ty_vars@.len(),
                forall|j: int| 0 <= j < ty_vars@.len() ==> ((#[trigger] ty_vars@[j]).0 as nat) < start.n(),
                forall|j: int| 0 <= j < vars@.len() ==> ((#[trigger] vars@[j]).0 as nat) < start.n(),
                vars@.len() <= k,
            decreases ty_vars@.len() - k,
        {
            if !crate::ml::unify::has_vid(&env_vars, ty_vars[k]) {
                vars.push(ty_vars[k]);
            }
            k = k + 1;
        }
        let ghost prev = *self;
        let resolved = self.table.resolve(ty);
        proof {
            crate::ml::unify::lemma_refines_same(prev.table, self.table);
            self.lemma_carries(&prev);
        }
        Scheme { vars, ty: resolved }
    }
}

} // verus!

verus! {

fn name_msg(prefix: &str, name: &str, suffix: &str) -> (s: String)
    ensures
        s@ == prefix@ + name@ + suffix@,
{
    crate::text::join3(prefix, name, suffix)
}

/// `<name><middle><n><suffix>`.
fn count_msg(name: &str, middle: &str, n: usize, suffix: &str) -> (s: String)
    ensures
        s@ == name@ + middle@ + decimal_digits(n as nat) + suffix@,
{
    let mut v = crate::text::chars_of(name);
    crate::text::push_str(&mut v, middle);
    let mut d = digits_of(n as u64);
    v.append(&mut d);
    crate::text::push_str(&mut v, suffix);
    crate::text::string_of(&v)
}

impl Cx {
    /// The payload types of constructor `i`, and its ADT's name.
    fn ctor_parts(&self, i: usize) -> (r: (String, usize, Vec<Ty>))
        requires
            self.ok(),
            i < self.ctors@.len(),
        ensures
            r.0@ == self.ctors@[i as int].1.adt@,
            r.1 == self.ctors@[i as int].1.tag,
            ty_models(r.2@) == ty_models(self.ctors@[i as int].1.payload@),
            forall|p: int| 0 <= p < r.2@.len() ==> vars_below(#[trigger] r.2@[p]@, 0),
    {
        let payload = crate::types::duplicate_all(&self.ctors[i].1.payload);
        proof {
            let orig = self.ctors@[i as int].1.payload@;
            assert(ty_models(payload@).len() == payload@.len());
            assert(ty_models(orig).len() == orig.len());
            assert forall|p: int| 0 <= p < payload@.len() implies vars_below(#[trigger] payload@[p]@, 0) by {
                self.lemma_payload_ground(i as int, p);
                assert(ty_models(payload@)[p] == ty_models(self.ctors@[i as int].1.payload@)[p]);
            }
        }
        (self.ctors[i].1.adt.clone(), self.ctors[i].1.tag, payload)
    }

    fn check_pattern(&mut self, env: &mut Vec<(String, Scheme)>, pattern: &Pattern, ty: &Ty) -> (r: Result<(), TypeError>)
        requires
            old(self).ok(),
            env_ok(old(env)@, old(self).n()),
            vars_below(ty@, old(self).n()),
        ensures
            final(self).grows(old(self)),
            env_ok(final(env)@, final(self).n()),
        decreases pattern, 0int,
    {
        match pattern {
            Pattern::Wild => Ok(()),
            Pattern::Var(name) => {
                env_insert(env, name.clone(), mono(ty.duplicate()), Ghost(self.n()));
                Ok(())
            },
            Pattern::Int(_) => self.unify(ty, &Ty::Int),
            Pattern::Bool(_) => self.unify(ty, &Ty::Bool),
            Pattern::Unit => self.unify(ty, &Ty::Unit),
            Pattern::Tuple(items) => {
                let ghost start = *self;
                let mut vars: Vec<Ty> = Vec::new();
                let mut k: usize = 0;
                while k < items.len()
                    invariant
                        start == *old(self),
                        self.grows(&start),
                        env_ok(env@, self.n()),
                        k <= items@.len(),
                        vars@.len() == k,
                        forall|j: int| 0 <= j < vars@.len() ==> vars_below(#[trigger] vars@[j]@, self.n()),
                    decreases items@.len() - k,
                {
                    let ghost before = self.n();
                    let v = match self.fresh() {
                        Ok(v) => v,
                        Err(e) => {
                            proof {
                                lemma_env_mono(env@, before, self.n());
                            }
                            return Err(e);
                        },
                    };
                    proof {
                        lemma_env_mono(env@, before, self.n());
                        assert forall|j: int| 0 <= j < vars@.len() implies vars_below(#[trigger] vars@[j]@, self.n()) by {
                            crate::ml::unify::lemma_vars_below_mono(vars@[j]@, before, self.n());
                        }
                    }
                    vars.push(v);
                    k = k + 1;
                }
                let tup = Ty::Tuple(crate::types::duplicate_all(&vars));
                proof {
                    crate::ml::unify::lemma_vars_below_mono(ty@, old(self).n(), self.n());
                    lemma_env_mono(old(env)@, old(self).n(), self.n());
                    let ms = ty_models(vars@);
                    assert forall|j: int| 0 <= j < ms.len() implies vars_below(#[trigger] ms[j], self.n()) by {
                        assert(ms[j] == vars@[j]@);
                    }
                }
                self.unify(ty, &tup)?;
                self.check_items(env, items, &vars)
            },
            Pattern::Ctor { name, arg } => {
                let i = match self.lookup_ctor(name.as_str()) {
                    Some(i) => i,
                    None => {
                        return Err(TypeError(name_msg("unknown constructor ", name.as_str(), "")));
                    },
                };
                let (adt, _tag, payload) = self.ctor_parts(i);
                self.unify(ty, &Ty::Adt(adt))?;
                proof {
                    assert forall|p: int| 0 <= p < payload@.len() implies vars_below(#[trigger] payload@[p]@, self.n()) by {
                        crate::ml::unify::lemma_vars_below_mono(payload@[p]@, 0, self.n());
                    }
                }
                let n = payload.len();
                match arg {
                    None => {
                        if n == 0 {
                            Ok(())
                        } else {
                            Err(TypeError(name_msg("", name.as_str(), " expects a payload")))
                        }
                    },
                    Some(inner) => {
                        if n == 0 {
                            Err(TypeError(name_msg("", name.as_str(), " takes no payload")))
                        } else if n == 1 {
                            self.check_pattern(env, inner, &payload[0])
                        } else {
                            match &**inner {
                                Pattern::Tuple(items) => {
                                    if items.len() == n {
                                        self.check_items(env, items, &payload)
                                    } else {
                                        Err(TypeError(count_msg(name.as_str(), " patterns take a ", n, "-tuple payload")))
                                    }
                                },
                                Pattern::Wild => Ok(()),
                                _ => Err(TypeError(count_msg(name.as_str(), " patterns take a ", n, "-tuple payload"))),
                            }
                        }
                    },
                }
            },
        }
    }

    fn check_items(&mut self, env: &mut Vec<(String, Scheme)>, items: &Vec<Pattern>, tys: &Vec<Ty>) -> (r: Result<(), TypeError>)
        requires
            old(self).ok(),
            env_ok(old(env)@, old(self).n()),
            items@.len() == tys@.len(),
            forall|j: int| 0 <= j < tys@.len() ==> vars_below(#[trigger] tys@[j]@, old(self).n()),
        ensures
            final(self).grows(old(self)),
            env_ok(final(env)@, final(self).n()),
        decreases items, 1int,
    {
        let ghost start = *self;
        let mut k: usize = 0;
        while k < items.len()
            invariant
                start == *old(self),
                self.grows(&start),
                env_ok(env@, self.n()),
                k <= items@.len(),
                items@.len() == tys@.len(),
                forall|j: int| 0 <= j < tys@.len() ==> vars_below(#[trigger] tys@[j]@, start.n()),
            decreases items@.len() - k,
        {
            proof {
                crate::ml::unify::lemma_vars_below_mono(tys@[k as int]@, start.n(), self.n());
            }
            self.check_pattern(env, &items[k], &tys[k])?;
            k = k + 1;
        }
        Ok(())
    }
}

} // verus!

verus! {

impl Cx {
    /// Infers each expression in turn.
    fn infer_all(&mut self, env: &Vec<(String, Scheme)>, items: &Vec<Expr>) -> (r: Result<Vec<TExpr>, TypeError>)
        requires
            old(self).ok(),
            env_ok(env@, old(self).n()),
        ensures
            final(self).grows(old(self)),
            r matches Ok(ts) ==> {
                &&& ts@.len() == items@.len()
                &&& forall|j: int| 0 <= j < ts@.len() ==> mirrors(#[trigger] ts@[j], items@[j]@, final(self).rows())
                &&& forall|j: int| 0 <= j < ts@.len() ==> tvars(#[trigger] ts@[j], final(self).n(), false)
                &&& forall|j: int| 0 <= j < ts@.len() ==> welltyped(#[trigger] ts@[j], final(self).table)
            },
            (forall|j: int| 0 <= j < items@.len() ==> (#[trigger] ground_type(items@[j]@)) is Some) ==> (r matches Ok(ts)
                && forall|j: int| 0 <= j < ts@.len() ==> alike(final(self).table, (#[trigger] ts@[j]).ty@,
                    ground_type(items@[j]@)->Some_0) && ts@[j].ty@ == ground_type(items@[j]@)->Some_0)
                && final(self).n() == old(self).n(),
            (forall|j: int| 0 <= j < items@.len() ==> #[trigger] first_order(items@[j]@)) && r is Ok
                ==> forall|j: int| 0 <= j < items@.len() ==> (#[trigger] ground_type(items@[j]@)) is Some,
            (forall|j: int| 0 <= j < items@.len() ==> #[trigger] first_order(items@[j]@)) ==> (r matches Ok(ts)
                ==> forall|j: int| 0 <= j < ts@.len() ==> resolves_ground(#[trigger] ts@[j], final(self).table))
                && final(self).generalized == old(self).generalized,
        decreases items, 0int,
    {
        let ghost start = *self;
        let mut out: Vec<TExpr> = Vec::new();
        let mut k: usize = 0;
        while k < items.len()
            invariant
                start == *old(self),
                self.grows(&start),
                env_ok(env@, start.n()),
                k <= items@.len(),
                out@.len() == k,
                forall|j: int| 0 <= j < k ==> mirrors(#[trigger] out@[j], items@[j]@, start.rows()),
                forall|j: int| 0 <= j < k ==> tvars(#[trigger] out@[j], self.n(), false),
                forall|j: int| 0 <= j < k ==> welltyped(#[trigger] out@[j], self.table),
                (forall|j: int| 0 <= j < items@.len() ==> (#[trigger] ground_type(items@[j]@)) is Some) ==>
                    (forall|j: int| 0 <= j < k ==> alike(self.table, (#[trigger] out@[j]).ty@, ground_type(items@[j]@)->Some_0)
                        && out@[j].ty@ == ground_type(items@[j]@)->Some_0) && self.n() == start.n(),
                (forall|j: int| 0 <= j < items@.len() ==> #[trigger] first_order(items@[j]@))
                    ==> forall|j: int| 0 <= j < k ==> (#[trigger] ground_type(items@[j]@)) is Some,
                (forall|j: int| 0 <= j < items@.len() ==> #[trigger] first_order(items@[j]@))
                    ==> (forall|j: int| 0 <= j < k ==> resolves_ground(#[trigger] out@[j], self.table))
                    && self.generalized == start.generalized,
            decreases items@.len() - k,
        {
            let ghost before = self.n();
            let ghost it = *self;
            proof {
                lemma_env_mono(env@, start.n(), self.n());
            }
            let t = self.infer_expr(env, &items[k])?;
            proof {
                assert forall|j: int| 0 <= j < k implies tvars(#[trigger] out@[j], self.n(), false) by {
                    lemma_tvars_mono(out@[j], before, self.n());
                }
                assert forall|j: int| 0 <= j < k implies welltyped(#[trigger] out@[j], self.table) by {
                    self.carry_typed(&it, out@[j]);
                }
                if forall|j: int| 0 <= j < items@.len() ==> #[trigger] first_order(items@[j]@) {
                    assert(first_order(items@[k as int]@));
                    assert forall|j: int| 0 <= j < k implies resolves_ground(#[trigger] out@[j], self.table) by {
                        self.carry_rg(&it, out@[j]);
                    }
                }
                if forall|j: int| 0 <= j < items@.len() ==> (#[trigger] ground_type(items@[j]@)) is Some {
                    assert(ground_type(items@[k as int]@) is Some);
                    assert forall|j: int| 0 <= j < k implies alike(self.table, (#[trigger] out@[j]).ty@,
                        ground_type(items@[j]@)->Some_0) by {
                        lemma_ground_type_ground(items@[j]@);
                        lemma_tvars_ty(out@[j], before);
                        self.keep_ground(&it, out@[j].ty@, ground_type(items@[j]@)->Some_0);
                    }
                }
            }
            out.push(t);
            k = k + 1;
        }
        Ok(out)
    }

    /// Each item inferred and unified with the matching payload type.
    fn infer_fields(&mut self, env: &Vec<(String, Scheme)>, items: &Vec<Expr>, payload: &Vec<Ty>) -> (r: Result<Vec<TExpr>, TypeError>)
        requires
            old(self).ok(),
            env_ok(env@, old(self).n()),
            items@.len() == payload@.len(),
            forall|p: int| 0 <= p < payload@.len() ==> vars_below(#[trigger] payload@[p]@, 0),
        ensures
            final(self).grows(old(self)),
            r matches Ok(fields) ==> {
                &&& fields@.len() == items@.len()
                &&& forall|j: int| 0 <= j < fields@.len() ==> mirrors(#[trigger] fields@[j], items@[j]@, final(self).rows())
                &&& forall|j: int| 0 <= j < fields@.len() ==> tvars(#[trigger] fields@[j], final(self).n(), false)
                &&& forall|j: int| 0 <= j < fields@.len() ==> welltyped(#[trigger] fields@[j], final(self).table)
            },
        decreases items, 0int,
    {
        let ghost start = *self;
        let mut fields: Vec<TExpr> = Vec::new();
        let mut k: usize = 0;
        while k < items.len()
            invariant
                start == *old(self),
                self.grows(&start),
                env_ok(env@, start.n()),
                k <= items@.len(),
                items@.len() == payload@.len(),
                forall|p: int| 0 <= p < payload@.len() ==> vars_below(#[trigger] payload@[p]@, 0),
                fields@.len() == k,
                forall|j: int| 0 <= j < k ==> mirrors(#[trigger] fields@[j], items@[j]@, start.rows()),
                forall|j: int| 0 <= j < k ==> tvars(#[trigger] fields@[j], self.n(), false),
                forall|j: int| 0 <= j < k ==> welltyped(#[trigger] fields@[j], self.table),
            decreases items@.len() - k,
        {
            let ghost before = self.n();
            let ghost it = *self;
            proof {
                lemma_env_mono(env@, start.n(), self.n());
            }
            let typed = self.infer_expr(env, &items[k])?;
            let ghost after = *self;
            proof {
                crate::ml::unify::lemma_vars_below_mono(payload@[k as int]@, 0, self.n());
            }
            self.unify(&typed.ty, &payload[k])?;
            proof {
                assert forall|j: int| 0 <= j < k implies tvars(#[trigger] fields@[j], self.n(), false) by {
                    lemma_tvars_mono(fields@[j], before, self.n());
                }
                assert forall|j: int| 0 <= j < k implies welltyped(#[trigger] fields@[j], self.table) by {
                    self.carry_typed(&it, fields@[j]);
                }
                self.carry_typed(&after, typed);
            }
            fields.push(typed);
            k = k + 1;
        }
        Ok(fields)
    }

    /// The typed payload fields for the argument `a` of constructor `i`
    /// (named `name`), which takes at least one field: one field takes
    /// `a` itself, several take the items of a tuple `a`.
    fn check_ctor_args(&mut self, env: &Vec<(String, Scheme)>, a: &Expr, i: usize, name: &String) -> (r: Result<Vec<TExpr>, TypeError>)
        requires
            old(self).ok(),
            env_ok(env@, old(self).n()),
            i < old(self).ctors@.len(),
            old(self).ctors@[i as int].1.payload@.len() >= 1,
        ensures
            final(self).grows(old(self)),
            r matches Ok(p) ==> {
                &&& p@.len() == old(self).ctors@[i as int].1.payload@.len()
                &&& forall|j: int| 0 <= j < p@.len() ==> tvars(#[trigger] p@[j], final(self).n(), false)
                &&& forall|j: int| 0 <= j < p@.len() ==> welltyped(#[trigger] p@[j], final(self).table)
                &&& if p@.len() == 1 {
                    mirrors(p@[0], a@, final(self).rows())
                } else {
                    &&& p@.len() >= 2
                    &&& match a@ {
                        ExprModel::Tuple(items) => items.len() == p@.len()
                            && forall|j: int| 0 <= j < items.len() ==> mirrors(#[trigger] p@[j], items[j], final(self).rows()),
                        _ => false,
                    }
                }
            },
        decreases a, 2int,
    {
        let (_adt, _tag, payload) = self.ctor_parts(i);
        let n = payload.len();
        proof {
            assert(ty_models(payload@).len() == payload@.len());
            assert(ty_models(self.ctors@[i as int].1.payload@).len() == self.ctors@[i as int].1.payload@.len());
        }
        if n == 1 {
            let typed = self.infer_expr(env, a)?;
            let ghost after = *self;
            proof {
                crate::ml::unify::lemma_vars_below_mono(payload@[0]@, 0, self.n());
            }
            self.unify(&typed.ty, &payload[0])?;
            proof {
                self.carry_typed(&after, typed);
            }
            let mut out: Vec<TExpr> = Vec::new();
            out.push(typed);
            return Ok(out);
        }
        let items = match a {
            Expr::Tuple(items) => items,
            _ => {
                return Err(TypeError(count_msg(name.as_str(), " expects a ", n, "-tuple payload (OCaml constructor arity rule)")));
            },
        };
        if items.len() != n {
            return Err(TypeError(count_msg(name.as_str(), " expects a ", n, "-tuple payload (OCaml constructor arity rule)")));
        }
        let fields = self.infer_fields(env, items, &payload)?;
        proof {
            assert(a@ == ExprModel::Tuple(expr_models(items@)));
            assert forall|j: int| 0 <= j < items@.len() implies #[trigger] expr_models(items@)[j] == items@[j]@ by {}
        }
        Ok(fields)
    }
}

} // verus!

verus! {

fn is_fun(e: &Expr) -> (b: bool)
    ensures
        b == (e is Fun),
{
    match e {
        Expr::Fun { .. } => true,
        _ => false,
    }
}

impl Cx {
    fn infer_expr(&mut self, env: &Vec<(String, Scheme)>, expr: &Expr) -> (r: Result<TExpr, TypeError>)
        requires
            old(self).ok(),
            env_ok(env@, old(self).n()),
        ensures
            final(self).grows(old(self)),
            r matches Ok(t) ==> mirrors(t, expr@, final(self).rows()) && tvars(t, final(self).n(), false)
                && welltyped(t, final(self).table),
            ground_type(expr@) matches Some(g) ==> (r matches Ok(t) && alike(final(self).table, t.ty@, g) && t.ty@ == g)
                && final(self).n() == old(self).n(),
            first_order(expr@) && r is Ok ==> ground_type(expr@) is Some,
            first_order(expr@) ==> (r matches Ok(t) ==> resolves_ground(t, final(self).table))
                && final(self).generalized == old(self).generalized,
        decreases expr, 1int,
    {
        let ghost rows = self.rows();
        let ghost n0 = self.n();
        proof {
            lemma_ground_type_ground(expr@);
            crate::ml::unify::lemma_ground_fixed(self.table, TyModel::Unit);
            crate::ml::unify::lemma_ground_fixed(self.table, TyModel::Int);
            crate::ml::unify::lemma_ground_fixed(self.table, TyModel::Bool);
        }
        match expr {
            Expr::Unit => Ok(TExpr { ty: Ty::Unit, kind: TKind::Unit }),
            Expr::Int(v) => Ok(TExpr { ty: Ty::Int, kind: TKind::Int(*v) }),
            Expr::Bool(b) => Ok(TExpr { ty: Ty::Bool, kind: TKind::Bool(*b) }),
            Expr::Var(name) => {
                let idx = match env_find(env, name.as_str()) {
                    Some(i) => i,
                    None => {
                        return Err(TypeError(name_msg("unbound variable ", name.as_str(), "")));
                    },
                };
                assert(scheme_ok(env@[idx as int].1, n0));
                let scheme = &env[idx].1;
                let ty = if scheme.vars.len() == 0 {
                    scheme.ty.duplicate()
                } else {
                    let mut found: Option<NodeId> = None;
                    let mut k: usize = 0;
                    while k < self.generalized.len()
                        invariant
                            k <= self.generalized@.len(),
                        decreases self.generalized@.len() - k,
                    {
                        if str_eq(self.generalized[k].1.as_str(), name.as_str()) {
                            found = Some(self.generalized[k].0);
                            break;
                        }
                        k = k + 1;
                    }
                    match found {
                        Some(id) => self.instantiate_recorded(id, scheme)?,
                        None => self.instantiate(scheme)?,
                    }
                };
                let t = TExpr { ty, kind: TKind::Var(name.clone()) };
                assert(mirrors(t, expr@, rows));
                assert(tvars(t, self.n(), false));
                Ok(t)
            },
            Expr::Ctor { name, arg } => {
                let i = match self.lookup_ctor(name.as_str()) {
                    Some(i) => i,
                    None => {
                        return Err(TypeError(name_msg("unknown constructor ", name.as_str(), "")));
                    },
                };
                let (adt, tag, tys) = self.ctor_parts(i);
                let payload = match arg {
                    None => {
                        if tys.len() == 0 {
                            Vec::new()
                        } else {
                            return Err(TypeError(name_msg("", name.as_str(), " expects a payload")));
                        }
                    },
                    Some(a) => {
                        if tys.len() == 0 {
                            return Err(TypeError(name_msg("", name.as_str(), " takes no payload")));
                        }
                        proof {
                            assert(ty_models(tys@).len() == tys@.len());
                            assert(ty_models(self.ctors@[i as int].1.payload@).len() == self.ctors@[i as int].1.payload@.len());
                        }
                        self.check_ctor_args(env, a, i, name)?
                    },
                };
                let t = TExpr { ty: Ty::Adt(adt.clone()), kind: TKind::MakeCtor { adt, tag, payload } };
                proof {
                    assert(rows[i as int].0 == name@);
                    assert(rows[i as int].1.0 == self.ctors@[i as int].1.adt@);
                }
                assert(mirrors(t, expr@, rows));
                assert(tvars(t, self.n(), false));
                Ok(t)
            },
            Expr::Tuple(items) => {
                proof {
                    assert(expr@ == ExprModel::Tuple(expr_models(items@)));
                    assert forall|j: int| 0 <= j < items@.len() implies #[trigger] expr_models(items@)[j] == items@[j]@ by {}
                    if first_order(expr@) {
                        let em = expr_models(items@);
                        lemma_first_order_all(em);
                        assert forall|j: int| 0 <= j < items@.len() implies #[trigger] first_order(items@[j]@) by {
                            assert(em[j] == items@[j]@);
                        }
                    }
                    if ground_type(expr@) is Some {
                        let em = expr_models(items@);
                        lemma_ground_types(em);
                        assert forall|j: int| 0 <= j < items@.len() implies (#[trigger] ground_type(items@[j]@)) is Some by {
                            assert(em[j] == items@[j]@);
                            assert(ground_type(em[j]) is Some);
                        }
                    }
                }
                let typed = self.infer_all(env, items)?;
                let mut tys: Vec<Ty> = Vec::new();
                let mut k: usize = 0;
                while k < typed.len()
                    invariant
                        k <= typed@.len(),
                        tys@.len() == k,
                        forall|j: int| 0 <= j < typed@.len() ==> tvars(#[trigger] typed@[j], self.n(), false),
                        forall|j: int| 0 <= j < k ==> vars_below(#[trigger] tys@[j]@, self.n()),
                        forall|j: int| 0 <= j < k ==> #[trigger] tys@[j]@ == typed@[j].ty@,
                    decreases typed@.len() - k,
                {
                    tys.push(typed[k].ty.duplicate());
                    k = k + 1;
                }
                let t = TExpr { ty: Ty::Tuple(tys), kind: TKind::Tuple(typed) };
                proof {
                    assert forall|j: int| 0 <= j < tys@.len() implies #[trigger] ty_models(tys@)[j] == tys_of(typed@)[j] by {
                        assert(ty_models(tys@)[j] == tys@[j]@);
                    }
                    assert(ty_models(tys@) =~= tys_of(typed@));
                    let ms = ty_models(tys@);
                    assert forall|j: int| 0 <= j < ms.len() implies vars_below(#[trigger] ms[j], self.n()) by {
                        assert(ms[j] == tys@[j]@);
                    }
                    assert(expr@ == ExprModel::Tuple(expr_models(items@)));
                    assert forall|j: int| 0 <= j < items@.len() implies #[trigger] expr_models(items@)[j] == items@[j]@ by {}
                    if first_order(expr@) {
                        let em = expr_models(items@);
                        lemma_ground_types(em);
                        assert forall|j: int| 0 <= j < em.len() implies (#[trigger] ground_type(em[j])) is Some by {
                            assert(em[j] == items@[j]@);
                            assert(ground_type(items@[j]@) is Some);
                        }
                    }
                    if ground_type(expr@) is Some {
                        let g = ground_type(expr@)->Some_0;
                        let em = expr_models(items@);
                        lemma_ground_types(em);
                        let tt = TyModel::Tuple(ms);
                        crate::ml::unify::lemma_resolution_shape(self.table, tt);
                        crate::ml::unify::lemma_ground_fixed(self.table, g);
                        assert forall|j: int| 0 <= j < ms.len() implies self.table.resolution(#[trigger] ms[j]) == g->Tuple_0[j] by {
                            assert(ground_type(em[j]) is Some);
                            assert(em[j] == items@[j]@);
                            assert(g->Tuple_0[j] == ground_type(em[j])->Some_0);
                            assert(ms[j] == typed@[j].ty@);
                            assert(alike(self.table, typed@[j].ty@, ground_type(items@[j]@)->Some_0));
                            assert(vars_below(g->Tuple_0[j], 0));
                            crate::ml::unify::lemma_ground_fixed(self.table, g->Tuple_0[j]);
                        }
                        assert(self.table.resolution(tt)->Tuple_0 =~= g->Tuple_0);
                        assert forall|j: int| 0 <= j < ms.len() implies #[trigger] ms[j] == g->Tuple_0[j] by {
                            assert(ground_type(em[j]) is Some);
                            assert(em[j] == items@[j]@);
                            assert(ms[j] == typed@[j].ty@);
                        }
                        assert(ms =~= g->Tuple_0);
                    }
                }
                assert(mirrors(t, expr@, rows));
                assert(tvars(t, self.n(), false));
                Ok(t)
            },
            Expr::Neg(inner) => {
                let typed = self.infer_expr(env, inner)?;
                let ghost s1 = *self;
                assert(TyModel::Int == Ty::Int@);
                self.unify(&typed.ty, &Ty::Int)?;
                proof {
                    self.carry_typed(&s1, typed);
                }
                proof {
                    if first_order(expr@) {
                        lemma_ground_type_ground(inner@);
                        lemma_tvars_ty(typed, s1.n());
                        self.keep_ground(&s1, typed.ty@, ground_type(inner@)->Some_0);
                        crate::ml::unify::lemma_ground_fixed(self.table, TyModel::Int);
                        self.carry_rg(&s1, typed);
                    }
                }
                let t = TExpr { ty: Ty::Int, kind: TKind::Neg(Box::new(typed)) };
                assert(mirrors(t, expr@, rows));
                assert(tvars(t, self.n(), false));
                Ok(t)
            },
            Expr::Bin { op, lhs, rhs } => {
                let l = self.infer_expr(env, lhs)?;
                let ghost nl = self.n();
                let ghost sl = *self;
                proof {
                    lemma_env_mono(env@, n0, self.n());
                }
                let r = self.infer_expr(env, rhs)?;
                proof {
                    lemma_tvars_ty(l, nl);
                    lemma_tvars_mono(l, nl, self.n());
                    self.carry_typed(&sl, l);
                    lemma_tvars_ty(l, self.n());
                    lemma_tvars_ty(r, self.n());
                    lemma_ground_type_ground(lhs@);
                    lemma_ground_type_ground(rhs@);
                    if ground_type(lhs@) is Some {
                        self.keep_ground(&sl, l.ty@, ground_type(lhs@)->Some_0);
                    }
                    if ground_type(rhs@) is Some {
                        crate::ml::unify::lemma_ground_fixed(self.table, ground_type(rhs@)->Some_0);
                    }
                }
                let ghost nr = self.n();
                let ghost sr = *self;
                let ghost gl = ground_type(lhs@);
                let ghost gr = ground_type(rhs@);
                proof {
                    crate::ml::unify::lemma_ground_fixed(self.table, TyModel::Int);
                    crate::ml::unify::lemma_ground_fixed(self.table, TyModel::Bool);
                }
                let ty = match op {
                    BinOp::Add | BinOp::Sub | BinOp::Mul | BinOp::Div => {
                        self.unify(&l.ty, &Ty::Int)?;
                        let ghost s1 = *self;
                        proof {
                            if gl is Some && gr is Some && ground_bin(*op, gl->Some_0, gr->Some_0) is Some {
                                self.keep_ground(&sr, r.ty@, gr->Some_0);
                                crate::ml::unify::lemma_ground_fixed(self.table, TyModel::Int);
                            }
                        }
                        self.unify(&r.ty, &Ty::Int)?;
                        proof {
                            self.carry_alike(&s1, l.ty@, TyModel::Int);
                            if first_order(expr@) {
                                self.keep_ground(&sr, l.ty@, gl->Some_0);
                                self.keep_ground(&sr, r.ty@, gr->Some_0);
                                crate::ml::unify::lemma_ground_fixed(self.table, TyModel::Int);
                            }
                        }
                        Ty::Int
                    },
                    BinOp::Lt | BinOp::Le | BinOp::Gt | BinOp::Ge => {
                        self.unify(&l.ty, &Ty::Int)?;
                        let ghost s1 = *self;
                        proof {
                            if gl is Some && gr is Some && ground_bin(*op, gl->Some_0, gr->Some_0) is Some {
                                self.keep_ground(&sr, r.ty@, gr->Some_0);
                                crate::ml::unify::lemma_ground_fixed(self.table, TyModel::Int);
                            }
                        }
                        self.unify(&r.ty, &Ty::Int)?;
                        proof {
                            self.carry_alike(&s1, l.ty@, TyModel::Int);
                            if first_order(expr@) {
                                self.keep_ground(&sr, l.ty@, gl->Some_0);
                                self.keep_ground(&sr, r.ty@, gr->Some_0);
                                crate::ml::unify::lemma_ground_fixed(self.table, TyModel::Int);
                            }
                        }
                        Ty::Bool
                    },
                    BinOp::Eq | BinOp::Ne => {
                        self.unify(&l.ty, &r.ty)?;
                        let ghost s1 = *self;
                        proof {
                            if gl is Some && gr is Some && ground_bin(*op, gl->Some_0, gr->Some_0) is Some {
                                self.keep_ground(&sr, l.ty@, gl->Some_0);
                            }
                        }
                        let resolved = self.resolve(&l.ty);
                        proof {
                            self.carry_alike(&s1, l.ty@, r.ty@);
                            if first_order(expr@) {
                                s1.keep_ground(&sr, l.ty@, gl->Some_0);
                                assert(resolved@ == gl->Some_0);
                                self.keep_ground(&sr, l.ty@, gl->Some_0);
                                self.keep_ground(&sr, r.ty@, gr->Some_0);
                            }
                        }
                        match resolved {
                            Ty::Int => {},
                            Ty::Bool => {},
                            _ => {
                                let text = resolved.text();
                                return Err(TypeError(join2("= and <> compare ints or bools in v0.1, got ", text.as_str())));
                            },
                        }
                        Ty::Bool
                    },
                    BinOp::AndAlso | BinOp::OrElse => {
                        self.unify(&l.ty, &Ty::Bool)?;
                        let ghost s1 = *self;
                        proof {
                            if gl is Some && gr is Some && ground_bin(*op, gl->Some_0, gr->Some_0) is Some {
                                self.keep_ground(&sr, r.ty@, gr->Some_0);
                                crate::ml::unify::lemma_ground_fixed(self.table, TyModel::Bool);
                            }
                        }
                        self.unify(&r.ty, &Ty::Bool)?;
                        proof {
                            self.carry_alike(&s1, l.ty@, TyModel::Bool);
                            if first_order(expr@) {
                                self.keep_ground(&sr, l.ty@, gl->Some_0);
                                self.keep_ground(&sr, r.ty@, gr->Some_0);
                                crate::ml::unify::lemma_ground_fixed(self.table, TyModel::Bool);
                            }
                        }
                        Ty::Bool
                    },
                };
                proof {
                    self.carry_typed(&sr, l);
                    self.carry_typed(&sr, r);
                    if first_order(expr@) {
                        lemma_tvars_mono(l, nl, sr.n());
                        self.carry_rg(&sl, l);
                        self.carry_rg(&sr, r);
                        crate::ml::unify::lemma_ground_fixed(self.table, TyModel::Int);
                        crate::ml::unify::lemma_ground_fixed(self.table, TyModel::Bool);
                    }
                }
                let t = TExpr { ty, kind: TKind::Bin { op: *op, lhs: Box::new(l), rhs: Box::new(r) } };
                assert(mirrors(t, expr@, rows));
                assert(tvars(t, self.n(), false));
                Ok(t)
            },
            Expr::If { cond, then, els } => {
                let c = self.infer_expr(env, cond)?;
                let ghost s1 = *self;
                proof {
                    crate::ml::unify::lemma_ground_fixed(self.table, TyModel::Bool);
                    lemma_ground_type_ground(then@);
                }
                self.unify(&c.ty, &Ty::Bool)?;
                let ghost s2 = *self;
                proof {
                    self.carry_typed(&s1, c);
                    lemma_tvars_ty(c, self.n());
                }
                let ghost nc = self.n();
                proof {
                    lemma_env_mono(env@, n0, self.n());
                }
                let th = self.infer_expr(env, then)?;
                let ghost nt = self.n();
                let ghost s3 = *self;
                proof {
                    lemma_env_mono(env@, n0, self.n());
                }
                let el = self.infer_expr(env, els)?;
                let ghost s4 = *self;
                proof {
                    lemma_tvars_ty(th, nt);
                    lemma_tvars_mono(th, nt, self.n());
                    if ground_type(expr@) is Some {
                        self.keep_ground(&s3, th.ty@, ground_type(then@)->Some_0);
                        crate::ml::unify::lemma_ground_fixed(self.table, ground_type(then@)->Some_0);
                    }
                }
                self.unify(&th.ty, &el.ty)?;
                proof {
                    if ground_type(expr@) is Some {
                        lemma_tvars_ty(th, s4.n());
                        self.keep_ground(&s4, th.ty@, ground_type(then@)->Some_0);
                    }
                }
                proof {
                    lemma_tvars_mono(c, nc, self.n());
                    self.carry_typed(&s2, c);
                    self.carry_alike(&s2, c.ty@, TyModel::Bool);
                    self.carry_typed(&s3, th);
                    self.carry_typed(&s4, el);
                }
                proof {
                    if first_order(expr@) {
                        lemma_ground_type_ground(cond@);
                        lemma_ground_type_ground(els@);
                        lemma_tvars_ty(c, s1.n());
                        self.keep_ground(&s1, c.ty@, ground_type(cond@)->Some_0);
                        crate::ml::unify::lemma_ground_fixed(self.table, TyModel::Bool);
                        lemma_tvars_ty(th, s3.n());
                        self.keep_ground(&s3, th.ty@, ground_type(then@)->Some_0);
                        lemma_tvars_ty(el, s4.n());
                        self.keep_ground(&s4, el.ty@, ground_type(els@)->Some_0);
                        self.carry_rg(&s1, c);
                        self.carry_rg(&s3, th);
                        self.carry_rg(&s4, el);
                    }
                }
                let ty = th.ty.duplicate();
                let t = TExpr { ty, kind: TKind::If { cond: Box::new(c), then: Box::new(th), els: Box::new(el) } };
                assert(mirrors(t, expr@, rows));
                assert(tvars(t, self.n(), false));
                Ok(t)
            },
            Expr::Fun { id, param, body } => {
                let param_ty = match param {
                    Param::Named(_) => self.fresh()?,
                    Param::Unit => Ty::Unit,
                };
                proof {
                    lemma_env_mono(env@, n0, self.n());
                }
                let mut inner = env_dup(env, Ghost(self.n()));
                let param_name = match param {
                    Param::Named(name) => {
                        env_insert(&mut inner, name.clone(), mono(param_ty.duplicate()), Ghost(self.n()));
                        Some(name.clone())
                    },
                    Param::Unit => None,
                };
                let ghost np = self.n();
                let ghost sb = *self;
                proof {
                    lemma_ground_type_ground(body@);
                }
                let b = self.infer_expr(&inner, body)?;
                proof {
                    crate::ml::unify::lemma_vars_below_mono(param_ty@, np, self.n());
                    if param is Unit {
                        crate::ml::unify::lemma_ground_fixed(self.table, TyModel::Unit);
                        let ft = TyModel::Fun(Box::new(TyModel::Unit), Box::new(b.ty@));
                        crate::ml::unify::lemma_resolution_shape(self.table, ft);
                        if ground_type(body@) is Some {
                            let g = TyModel::Fun(Box::new(TyModel::Unit), Box::new(ground_type(body@)->Some_0));
                            crate::ml::unify::lemma_ground_fixed(self.table, ground_type(body@)->Some_0);
                            crate::ml::unify::lemma_ground_fixed(self.table, g);
                            assert(self.table.resolution(ft) == g);
                        }
                    }
                }
                let ty = Ty::Fun(Box::new(param_ty.duplicate()), Box::new(b.ty.duplicate()));
                let t = TExpr { ty, kind: TKind::Fun { id: *id, param: param_name, param_ty, body: Box::new(b) } };
                assert(mirrors(t, expr@, rows));
                assert(tvars(t, self.n(), false));
                Ok(t)
            },
            Expr::App { func, arg } => {
                let f = self.infer_expr(env, func)?;
                let ghost nf = self.n();
                let ghost sf = *self;
                proof {
                    lemma_env_mono(env@, n0, self.n());
                }
                let a = self.infer_expr(env, arg)?;
                let ghost na = self.n();
                let ghost sa = *self;
                let result = self.fresh()?;
                proof {
                    lemma_tvars_mono(f, nf, self.n());
                    lemma_tvars_mono(a, na, self.n());
                }
                let want = Ty::Fun(Box::new(a.ty.duplicate()), Box::new(result.duplicate()));
                self.unify(&f.ty, &want)?;
                proof {
                    self.carry_typed(&sf, f);
                    self.carry_typed(&sa, a);
                }
                let t = TExpr { ty: result, kind: TKind::App { func: Box::new(f), arg: Box::new(a) } };
                assert(mirrors(t, expr@, rows));
                assert(tvars(t, self.n(), false));
                Ok(t)
            },
            Expr::Let { rec, bindings, body } => {
                let mut inner = env_dup(env, Ghost(n0));
                let typed = self.infer_bindings(&mut inner, *rec, bindings)?;
                let ghost nb = self.n();
                let ghost sb = *self;
                let b = self.infer_expr(&inner, body)?;
                proof {
                    assert forall|j: int| 0 <= j < typed@.len() implies binding_tvars(#[trigger] typed@[j], self.n(), false) by {
                        assert(binding_tvars(typed@[j], nb, false));
                        lemma_tvars_mono(typed@[j].expr, nb, self.n());
                    }
                    assert forall|j: int| 0 <= j < typed@.len() implies welltyped((#[trigger] typed@[j]).expr, self.table) by {
                        assert(binding_tvars(typed@[j], nb, false));
                        self.carry_typed(&sb, typed@[j].expr);
                    }
                }
                let ty = b.ty.duplicate();
                let t = TExpr { ty, kind: TKind::Let { rec: *rec, bindings: typed, body: Box::new(b) } };
                proof {
                    let bs = binding_models(bindings@);
                    assert(expr@ == ExprModel::Let(*rec, bs, Box::new(body@)));
                    assert forall|j: int| 0 <= j < bs.len() implies binding_mirrors(#[trigger] typed@[j], bs[j], rows) by {
                        assert(binding_mirrors(typed@[j], binding_models(bindings@)[j], self.rows()));
                    }
                }
                assert(mirrors(t, expr@, rows));
                assert(tvars(t, self.n(), false));
                Ok(t)
            },
            Expr::Match { scrutinee, arms } => {
                let s = self.infer_expr(env, scrutinee)?;
                let ghost ns = self.n();
                let ghost ss = *self;
                let result = self.fresh()?;
                proof {
                    lemma_env_mono(env@, n0, self.n());
                    lemma_tvars_mono(s, ns, self.n());
                }
                let ghost nres = self.n();
                let typed = self.infer_arms(env, arms, &s.ty, &result)?;
                proof {
                    lemma_tvars_mono(s, nres, self.n());
                    crate::ml::unify::lemma_vars_below_mono(result@, nres, self.n());
                    self.carry_typed(&ss, s);
                }
                let t = TExpr { ty: result, kind: TKind::Match { scrutinee: Box::new(s), arms: typed } };
                proof {
                    let ams = arm_models(arms@);
                    assert(expr@ == ExprModel::Match(Box::new(scrutinee@), ams));
                    assert forall|j: int| 0 <= j < ams.len() implies pattern_model((#[trigger] typed@[j]).0) == ams[j].0
                        && mirrors(typed@[j].1, ams[j].1, rows) by {
                        assert(ams[j] == (pattern_model(arms@[j].0), arms@[j].1@));
                    }
                }
                assert(mirrors(t, expr@, rows));
                assert(tvars(t, self.n(), false));
                Ok(t)
            },
        }
    }
}

} // verus!

verus! {

impl Cx {
    /// Each arm: its pattern checked against the scrutinee's type in a
    /// copy of `env`, its body inferred there and unified with `result`.
    fn infer_arms(&mut self, env: &Vec<(String, Scheme)>, arms: &Vec<(Pattern, Expr)>, scrut: &Ty, result: &Ty)
        -> (r: Result<Vec<(Pattern, TExpr)>, TypeError>)
        requires
            old(self).ok(),
            env_ok(env@, old(self).n()),
            vars_below(scrut@, old(self).n()),
            vars_below(result@, old(self).n()),
        ensures
            final(self).grows(old(self)),
            r matches Ok(ts) ==> {
                &&& ts@.len() == arms@.len()
                &&& forall|j: int| 0 <= j < ts@.len() ==> pattern_model((#[trigger] ts@[j]).0) == pattern_model(arms@[j].0)
                    && mirrors(ts@[j].1, arms@[j].1@, final(self).rows())
                &&& forall|j: int| 0 <= j < ts@.len() ==> tvars((#[trigger] ts@[j]).1, final(self).n(), false)
                &&& forall|j: int| 0 <= j < ts@.len() ==> welltyped((#[trigger] ts@[j]).1, final(self).table)
                    && alike(final(self).table, ts@[j].1.ty@, result@)
            },
        decreases arms, 0int,
    {
        let ghost start = *self;
        let mut out: Vec<(Pattern, TExpr)> = Vec::new();
        let mut k: usize = 0;
        while k < arms.len()
            invariant
                start == *old(self),
                self.grows(&start),
                env_ok(env@, start.n()),
                vars_below(scrut@, start.n()),
                vars_below(result@, start.n()),
                k <= arms@.len(),
                out@.len() == k,
                forall|j: int| 0 <= j < k ==> pattern_model((#[trigger] out@[j]).0) == pattern_model(arms@[j].0)
                    && mirrors(out@[j].1, arms@[j].1@, start.rows()),
                forall|j: int| 0 <= j < k ==> tvars((#[trigger] out@[j]).1, self.n(), false),
                forall|j: int| 0 <= j < k ==> welltyped((#[trigger] out@[j]).1, self.table)
                    && alike(self.table, out@[j].1.ty@, result@),
            decreases arms@.len() - k,
        {
            let ghost before = self.n();
            let ghost it = *self;
            proof {
                lemma_env_mono(env@, start.n(), self.n());
                crate::ml::unify::lemma_vars_below_mono(scrut@, start.n(), self.n());
            }
            let mut inner = env_dup(env, Ghost(self.n()));
            self.check_pattern(&mut inner, &arms[k].0, scrut)?;
            let body = self.infer_expr(&inner, &arms[k].1)?;
            let ghost after = *self;
            proof {
                crate::ml::unify::lemma_vars_below_mono(result@, start.n(), self.n());
            }
            self.unify(&body.ty, result)?;
            proof {
                assert forall|j: int| 0 <= j < k implies tvars((#[trigger] out@[j]).1, self.n(), false) by {
                    lemma_tvars_mono(out@[j].1, before, self.n());
                }
                assert forall|j: int| 0 <= j < k implies welltyped((#[trigger] out@[j]).1, self.table)
                    && alike(self.table, out@[j].1.ty@, result@) by {
                    self.carry_typed(&it, out@[j].1);
                    lemma_tvars_ty(out@[j].1, it.n());
                    crate::ml::unify::lemma_vars_below_mono(result@, start.n(), it.n());
                    self.carry_alike(&it, out@[j].1.ty@, result@);
                }
                self.carry_typed(&after, body);
            }
            let pattern = arms[k].0.duplicate();
            out.push((pattern, body));
            k = k + 1;
        }
        Ok(out)
    }

    fn infer_bindings(&mut self, env: &mut Vec<(String, Scheme)>, recursive: bool, bindings: &Vec<Binding>)
        -> (r: Result<Vec<TBinding>, TypeError>)
        requires
            old(self).ok(),
            env_ok(old(env)@, old(self).n()),
        ensures
            final(self).grows(old(self)),
            env_ok(final(env)@, final(self).n()),
            forall|i: int| 0 <= i < final(env)@.len() ==> names_in(old(env)@, (#[trigger] final(env)@[i]).0@)
                || binds_in(bindings@, final(env)@[i].0@),
            r is Ok ==> (forall|i: int| 0 <= i < old(env)@.len() ==> names_in(final(env)@, (#[trigger] old(env)@[i]).0@))
                && forall|j: int| 0 <= j < bindings@.len() ==> names_in(final(env)@, (#[trigger] bindings@[j]).name@),
            !recursive && (forall|j: int| 0 <= j < bindings@.len() ==> (#[trigger] ground_type(bindings@[j].expr@)) is Some)
                ==> (r matches Ok(tb) && forall|j: int| 0 <= j < tb@.len() ==> resolves_ground((#[trigger] tb@[j]).expr, final(self).table))
                && final(self).generalized == old(self).generalized && final(self).n() == old(self).n(),
            !recursive && (forall|j: int| 0 <= j < bindings@.len() ==> (#[trigger] ground_type(bindings@[j].expr@)) is Some)
                ==> forall|i: int| 0 <= i < final(env)@.len() ==> entry_in(old(env)@, #[trigger] final(env)@[i])
                    || entry_from(final(env)@[i], bindings@),
            !recursive && (forall|j: int| 0 <= j < bindings@.len() ==> #[trigger] first_order(bindings@[j].expr@)) && r is Ok
                ==> forall|j: int| 0 <= j < bindings@.len() ==> (#[trigger] ground_type(bindings@[j].expr@)) is Some,
            r matches Ok(tb) ==> {
                &&& tb@.len() == bindings@.len()
                &&& forall|j: int| 0 <= j < tb@.len() ==> binding_mirrors(#[trigger] tb@[j], binding_models(bindings@)[j], final(self).rows())
                &&& forall|j: int| 0 <= j < tb@.len() ==> !(#[trigger] tb@[j]).dead && binding_tvars(tb@[j], final(self).n(), false)
                &&& forall|j: int| 0 <= j < tb@.len() ==> welltyped((#[trigger] tb@[j]).expr, final(self).table)
            },
        decreases bindings, 0int,
    {
        let ghost start = *self;
        let ghost bm = binding_models(bindings@);
        proof {
            assert forall|j: int| 0 <= j < bindings@.len() implies #[trigger] bm[j] == (bindings@[j].id as int, bindings@[j].name@, bindings@[j].expr@) by {}
        }
        let mut typed: Vec<TBinding> = Vec::new();
        if recursive {
            let mut k: usize = 0;
            while k < bindings.len()
                invariant
                    *self == *old(self),
                    *env == *old(env),
                    old(self).ok(),
                    env_ok(old(env)@, old(self).n()),
                    k <= bindings@.len(),
                    recursive,
                decreases bindings@.len() - k,
            {
                if !is_fun(&bindings[k].expr) {
                    let name = &bindings[k].name;
                    return Err(TypeError(name_msg("`let rec ", name.as_str(), "` must bind a function")));
                }
                k = k + 1;
            }
            // Monomorphic assumptions for the whole group.
            let mut assumed: Vec<Ty> = Vec::new();
            let mut k: usize = 0;
            while k < bindings.len()
                invariant
                    start == *old(self),
                    *env == *old(env),
                    env_ok(env@, start.n()),
                    self.grows(&start),
                    k <= bindings@.len(),
                    recursive,
                    assumed@.len() == k,
                    forall|j: int| 0 <= j < assumed@.len() ==> vars_below(#[trigger] assumed@[j]@, self.n()),
                decreases bindings@.len() - k,
            {
                let ghost before = self.n();
                let v = match self.fresh() {
                    Ok(v) => v,
                    Err(e) => {
                        proof {
                            lemma_env_mono(env@, start.n(), self.n());
                        }
                        return Err(e);
                    },
                };
                proof {
                    assert forall|j: int| 0 <= j < assumed@.len() implies vars_below(#[trigger] assumed@[j]@, self.n()) by {
                        crate::ml::unify::lemma_vars_below_mono(assumed@[j]@, before, self.n());
                    }
                }
                assumed.push(v);
                k = k + 1;
            }
            proof {
                lemma_env_mono(env@, start.n(), self.n());
            }
            let mut group = env_dup(env, Ghost(self.n()));
            let mut k: usize = 0;
            while k < bindings.len()
                invariant
                    start == *old(self),
                    *env == *old(env),
                    env_ok(env@, start.n()),
                    self.grows(&start),
                    env_ok(group@, self.n()),
                    k <= bindings@.len(),
                    recursive,
                    assumed@.len() == bindings@.len(),
                    forall|j: int| 0 <= j < assumed@.len() ==> vars_below(#[trigger] assumed@[j]@, self.n()),
                decreases bindings@.len() - k,
            {
                env_insert(&mut group, bindings[k].name.clone(), mono(assumed[k].duplicate()), Ghost(self.n()));
                k = k + 1;
            }
            let ghost ng = self.n();
            let mut k: usize = 0;
            while k < bindings.len()
                invariant
                    start == *old(self),
                    *env == *old(env),
                    env_ok(env@, start.n()),
                    self.grows(&start),
                    env_ok(group@, ng),
                    ng <= self.n(),
                    k <= bindings@.len(),
                    recursive,
                    assumed@.len() == bindings@.len(),
                    forall|j: int| 0 <= j < assumed@.len() ==> vars_below(#[trigger] assumed@[j]@, ng),
                    bm == binding_models(bindings@),
                    forall|j: int| 0 <= j < bindings@.len() ==> #[trigger] bm[j] == (bindings@[j].id as int, bindings@[j].name@, bindings@[j].expr@),
                    typed@.len() == k,
                    forall|j: int| 0 <= j < k ==> binding_mirrors(#[trigger] typed@[j], bm[j], start.rows()),
                    forall|j: int| 0 <= j < k ==> !(#[trigger] typed@[j]).dead && binding_tvars(typed@[j], self.n(), false),
                    forall|j: int| 0 <= j < k ==> welltyped((#[trigger] typed@[j]).expr, self.table),
                decreases bindings@.len() - k,
            {
                let ghost before = self.n();
                let ghost it = *self;
                proof {
                    lemma_env_mono(group@, ng, self.n());
                }
                let texpr = match self.infer_expr(&group, &bindings[k].expr) {
                    Ok(t) => t,
                    Err(e) => {
                        proof {
                            lemma_env_mono(env@, start.n(), self.n());
                        }
                        return Err(e);
                    },
                };
                let ghost after = *self;
                proof {
                    crate::ml::unify::lemma_vars_below_mono(assumed@[k as int]@, ng, self.n());
                }
                match self.unify(&texpr.ty, &assumed[k]) {
                    Ok(()) => {},
                    Err(e) => {
                        proof {
                            lemma_env_mono(env@, start.n(), self.n());
                        }
                        return Err(e);
                    },
                }
                proof {
                    assert forall|j: int| 0 <= j < k implies !(#[trigger] typed@[j]).dead && binding_tvars(typed@[j], self.n(), false) by {
                        assert(binding_tvars(typed@[j], before, false));
                        lemma_tvars_mono(typed@[j].expr, before, self.n());
                    }
                    assert forall|j: int| 0 <= j < k implies welltyped((#[trigger] typed@[j]).expr, self.table) by {
                        assert(binding_tvars(typed@[j], before, false));
                        self.carry_typed(&it, typed@[j].expr);
                    }
                    self.carry_typed(&after, texpr);
                }
                typed.push(TBinding { id: bindings[k].id, name: bindings[k].name.clone(), expr: texpr, dead: false });
                k = k + 1;
            }
            // Generalize after the group (value restriction holds: all funs).
            proof {
                lemma_env_mono(env@, start.n(), self.n());
            }
            let mut k: usize = 0;
            while k < bindings.len()
                invariant
                    start == *old(self),
                    self.grows(&start),
                    env_ok(env@, self.n()),
                    ng <= self.n(),
                    k <= bindings@.len(),
                    recursive,
                    forall|i: int| 0 <= i < env@.len() ==> names_in(old(env)@, (#[trigger] env@[i]).0@)
                        || binds_in(bindings@, env@[i].0@),
                    forall|i: int| 0 <= i < old(env)@.len() ==> names_in(env@, (#[trigger] old(env)@[i]).0@),
                    forall|j: int| 0 <= j < k ==> names_in(env@, (#[trigger] bindings@[j]).name@),
                    assumed@.len() == bindings@.len(),
                    forall|j: int| 0 <= j < assumed@.len() ==> vars_below(#[trigger] assumed@[j]@, ng),
                    typed@.len() == bindings@.len(),
                    forall|j: int| 0 <= j < typed@.len() ==> binding_mirrors(#[trigger] typed@[j], bm[j], start.rows()),
                    forall|j: int| 0 <= j < typed@.len() ==> !(#[trigger] typed@[j]).dead && binding_tvars(typed@[j], self.n(), false),
                    forall|j: int| 0 <= j < typed@.len() ==> welltyped((#[trigger] typed@[j]).expr, self.table),
                decreases bindings@.len() - k,
            {
                let ghost it = *self;
                proof {
                    crate::ml::unify::lemma_vars_below_mono(assumed@[k as int]@, ng, self.n());
                }
                let scheme = self.generalize(env, &assumed[k]);
                self.record_generalized(bindings[k].id, &bindings[k].name, &scheme.vars);
                let ghost e0 = env@;
                env_insert(env, bindings[k].name.clone(), scheme, Ghost(self.n()));
                proof {
                    assert forall|i: int| 0 <= i < env@.len() implies names_in(old(env)@, (#[trigger] env@[i]).0@)
                        || binds_in(bindings@, env@[i].0@) by {
                        if env@[i].0@ == bindings@[k as int].name@ {
                            assert(binds_in(bindings@, env@[i].0@));
                        } else {
                            assert(names_in(e0, env@[i].0@));
                            let j = choose|j: int| 0 <= j < e0.len() && (#[trigger] e0[j]).0@ == env@[i].0@;
                            assert(names_in(old(env)@, e0[j].0@) || binds_in(bindings@, e0[j].0@));
                        }
                    }
                    assert forall|i: int| 0 <= i < old(env)@.len() implies names_in(env@, (#[trigger] old(env)@[i]).0@) by {
                        assert(names_in(e0, old(env)@[i].0@));
                        let j = choose|j: int| 0 <= j < e0.len() && (#[trigger] e0[j]).0@ == old(env)@[i].0@;
                        assert(names_in(env@, e0[j].0@));
                    }
                    assert forall|j: int| 0 <= j < k + 1 implies names_in(env@, (#[trigger] bindings@[j]).name@) by {
                        if j < k {
                            assert(names_in(e0, bindings@[j].name@));
                            let i2 = choose|i2: int| 0 <= i2 < e0.len() && (#[trigger] e0[i2]).0@ == bindings@[j].name@;
                            assert(names_in(env@, e0[i2].0@));
                        }
                    }
                    assert forall|j: int| 0 <= j < typed@.len() implies welltyped((#[trigger] typed@[j]).expr, self.table) by {
                        assert(binding_tvars(typed@[j], it.n(), false));
                        self.carry_typed(&it, typed@[j].expr);
                    }
                }
                k = k + 1;
            }
        } else {
            let mut k: usize = 0;
            while k < bindings.len()
                invariant
                    start == *old(self),
                    self.grows(&start),
                    env_ok(env@, self.n()),
                    k <= bindings@.len(),
                    forall|i: int| 0 <= i < env@.len() ==> names_in(old(env)@, (#[trigger] env@[i]).0@)
                        || binds_in(bindings@, env@[i].0@),
                    forall|i: int| 0 <= i < old(env)@.len() ==> names_in(env@, (#[trigger] old(env)@[i]).0@),
                    forall|j: int| 0 <= j < k ==> names_in(env@, (#[trigger] bindings@[j]).name@),
                    !recursive,
                    (forall|j: int| 0 <= j < bindings@.len() ==> (#[trigger] ground_type(bindings@[j].expr@)) is Some)
                        ==> (forall|j: int| 0 <= j < k ==> resolves_ground((#[trigger] typed@[j]).expr, self.table))
                        && self.generalized == start.generalized && self.n() == start.n(),
                    (forall|j: int| 0 <= j < bindings@.len() ==> #[trigger] first_order(bindings@[j].expr@))
                        ==> forall|j: int| 0 <= j < k ==> (#[trigger] ground_type(bindings@[j].expr@)) is Some,
                    (forall|j: int| 0 <= j < bindings@.len() ==> (#[trigger] ground_type(bindings@[j].expr@)) is Some)
                        ==> forall|i: int| 0 <= i < env@.len() ==> entry_in(old(env)@, #[trigger] env@[i])
                            || entry_from(env@[i], bindings@),
                    bm == binding_models(bindings@),
                    forall|j: int| 0 <= j < bindings@.len() ==> #[trigger] bm[j] == (bindings@[j].id as int, bindings@[j].name@, bindings@[j].expr@),
                    typed@.len() == k,
                    forall|j: int| 0 <= j < k ==> binding_mirrors(#[trigger] typed@[j], bm[j], start.rows()),
                    forall|j: int| 0 <= j < k ==> !(#[trigger] typed@[j]).dead && binding_tvars(typed@[j], self.n(), false),
                    forall|j: int| 0 <= j < k ==> welltyped((#[trigger] typed@[j]).expr, self.table),
                decreases bindings@.len() - k,
            {
                let ghost before = self.n();
                let ghost it = *self;
                proof {
                    lemma_ground_first_order(bindings@[k as int].expr@);
                }
                let texpr = match self.infer_expr(env, &bindings[k].expr) {
                    Ok(t) => t,
                    Err(e) => {
                        proof {
                            lemma_env_mono(env@, before, self.n());
                            if forall|j: int| 0 <= j < bindings@.len() ==> (#[trigger] ground_type(bindings@[j].expr@)) is Some {
                                assert(ground_type(bindings@[k as int].expr@) is Some);
                            }
                        }
                        return Err(e);
                    },
                };
                proof {
                    lemma_env_mono(env@, before, self.n());
                }
                let ghost after = *self;
                proof {
                    if forall|j: int| 0 <= j < bindings@.len() ==> (#[trigger] ground_type(bindings@[j].expr@)) is Some {
                        let g = ground_type(bindings@[k as int].expr@)->Some_0;
                        lemma_ground_type_ground(bindings@[k as int].expr@);
                        crate::ml::unify::lemma_ground_fixed(self.table, g);
                        assert(self.table.resolution(texpr.ty@) == g);
                    }
                }
                let scheme = if is_fun(&bindings[k].expr) {
                    let s = self.generalize(env, &texpr.ty);
                    self.record_generalized(bindings[k].id, &bindings[k].name, &s.vars);
                    s
                } else {
                    mono(texpr.ty.duplicate())
                };
                proof {
                    if forall|j: int| 0 <= j < bindings@.len() ==> (#[trigger] ground_type(bindings@[j].expr@)) is Some {
                        assert(ground_type(bindings@[k as int].expr@) is Some);
                        assert(scheme.vars@.len() == 0);
                        assert(scheme.ty@ == ground_type(bindings@[k as int].expr@)->Some_0);
                    }
                }
                let ghost e0 = env@;
                let ghost sch = scheme;
                env_insert(env, bindings[k].name.clone(), scheme, Ghost(self.n()));
                proof {
                    if forall|j: int| 0 <= j < bindings@.len() ==> (#[trigger] ground_type(bindings@[j].expr@)) is Some {
                        assert(ground_type(bindings@[k as int].expr@) == Some(sch.ty@));
                        assert forall|i: int| 0 <= i < env@.len() implies entry_in(old(env)@, #[trigger] env@[i])
                            || entry_from(env@[i], bindings@) by {
                            if env@[i].0@ == bindings@[k as int].name@ && env@[i].1.vars@ == sch.vars@ && env@[i].1.ty@ == sch.ty@ {
                                assert(entry_from(env@[i], bindings@));
                            } else {
                                assert(entry_in(e0, env@[i]));
                                let j = choose|j: int| 0 <= j < e0.len() && (#[trigger] e0[j]).0@ == env@[i].0@
                                    && e0[j].1.vars@ == env@[i].1.vars@ && e0[j].1.ty@ == env@[i].1.ty@;
                                assert(entry_in(old(env)@, e0[j]) || entry_from(e0[j], bindings@));
                                if entry_in(old(env)@, e0[j]) {
                                    let j2 = choose|j2: int| 0 <= j2 < old(env)@.len() && (#[trigger] old(env)@[j2]).0@ == e0[j].0@
                                        && old(env)@[j2].1.vars@ == e0[j].1.vars@ && old(env)@[j2].1.ty@ == e0[j].1.ty@;
                                    assert(entry_in(old(env)@, env@[i]));
                                } else {
                                    let j3 = choose|j3: int| 0 <= j3 < bindings@.len() && (#[trigger] bindings@[j3]).name@ == e0[j].0@
                                        && ground_type(bindings@[j3].expr@) == Some(e0[j].1.ty@);
                                    assert(entry_from(env@[i], bindings@));
                                }
                            }
                        }
                    }

                    assert forall|i: int| 0 <= i < env@.len() implies names_in(old(env)@, (#[trigger] env@[i]).0@)
                        || binds_in(bindings@, env@[i].0@) by {
                        if env@[i].0@ == bindings@[k as int].name@ {
                            assert(binds_in(bindings@, env@[i].0@));
                        } else {
                            assert(names_in(e0, env@[i].0@));
                            let j = choose|j: int| 0 <= j < e0.len() && (#[trigger] e0[j]).0@ == env@[i].0@;
                            assert(names_in(old(env)@, e0[j].0@) || binds_in(bindings@, e0[j].0@));
                        }
                    }
                    assert forall|i: int| 0 <= i < old(env)@.len() implies names_in(env@, (#[trigger] old(env)@[i]).0@) by {
                        assert(names_in(e0, old(env)@[i].0@));
                        let j = choose|j: int| 0 <= j < e0.len() && (#[trigger] e0[j]).0@ == old(env)@[i].0@;
                        assert(names_in(env@, e0[j].0@));
                    }
                    assert forall|j: int| 0 <= j < k + 1 implies names_in(env@, (#[trigger] bindings@[j]).name@) by {
                        if j < k {
                            assert(names_in(e0, bindings@[j].name@));
                            let i2 = choose|i2: int| 0 <= i2 < e0.len() && (#[trigger] e0[i2]).0@ == bindings@[j].name@;
                            assert(names_in(env@, e0[i2].0@));
                        }
                    }
                    assert forall|j: int| 0 <= j < k implies !(#[trigger] typed@[j]).dead && binding_tvars(typed@[j], self.n(), false) by {
                        assert(binding_tvars(typed@[j], before, false));
                        lemma_tvars_mono(typed@[j].expr, before, self.n());
                    }
                    assert forall|j: int| 0 <= j < k implies welltyped((#[trigger] typed@[j]).expr, self.table) by {
                        assert(binding_tvars(typed@[j], before, false));
                        self.carry_typed(&it, typed@[j].expr);
                    }
                    self.carry_typed(&after, texpr);
                    if forall|j: int| 0 <= j < bindings@.len() ==> #[trigger] first_order(bindings@[j].expr@) {
                        assert(first_order(bindings@[k as int].expr@));
                    }
                    if forall|j: int| 0 <= j < bindings@.len() ==> (#[trigger] ground_type(bindings@[j].expr@)) is Some {
                        assert(ground_type(bindings@[k as int].expr@) is Some);
                        assert forall|j: int| 0 <= j < k implies resolves_ground((#[trigger] typed@[j]).expr, self.table) by {
                            assert(binding_tvars(typed@[j], before, false));
                            self.carry_rg(&it, typed@[j].expr);
                        }
                        self.carry_rg(&after, texpr);
                    }
                }
                typed.push(TBinding { id: bindings[k].id, name: bindings[k].name.clone(), expr: texpr, dead: false });
                k = k + 1;
            }
        }
        Ok(typed)
    }
}

} // verus!

verus! {

/// The model a constructor application's `i`-th payload field stands
/// for, the application having `len` fields.
pub open spec fn ctor_child(e: ExprModel, len: nat, i: int) -> ExprModel {
    match e {
        ExprModel::Ctor(_, Some(a)) => if len == 1 {
            *a
        } else {
            match *a {
                ExprModel::Tuple(items) => items[i],
                _ => ExprModel::Unit,
            }
        },
        _ => ExprModel::Unit,
    }
}

proof fn lemma_mirror_parts(t: TExpr, e: ExprModel, rows: Seq<(Seq<char>, CtorModel)>)
    requires
        mirrors(t, e, rows),
    ensures
        match t.kind {
            TKind::MakeCtor { payload, .. } => forall|i: int| 0 <= i < payload@.len()
                ==> mirrors(#[trigger] payload@[i], ctor_child(e, payload@.len(), i), rows),
            TKind::Tuple(ts) => e is Tuple && ts@.len() == e->Tuple_0.len()
                && forall|i: int| 0 <= i < ts@.len() ==> mirrors(#[trigger] ts@[i], e->Tuple_0[i], rows),
            TKind::Let { bindings, .. } => e is Let && bindings@.len() == e->Let_1.len()
                && forall|i: int| 0 <= i < bindings@.len() ==> binding_mirrors(#[trigger] bindings@[i], e->Let_1[i], rows),
            TKind::Match { arms, .. } => e is Match && arms@.len() == e->Match_1.len()
                && forall|i: int| 0 <= i < arms@.len() ==> mirrors((#[trigger] arms@[i]).1, e->Match_1[i].1, rows),
            _ => true,
        },
{
    if let TKind::MakeCtor { payload, .. } = t.kind {
        assert forall|i: int| 0 <= i < payload@.len() implies mirrors(#[trigger] payload@[i], ctor_child(e, payload@.len(), i), rows) by {
            if let ExprModel::Ctor(_, Some(a)) = e {
                if payload@.len() != 1 {
                    if let ExprModel::Tuple(items) = *a {
                        assert(mirrors(payload@[i], items[i], rows));
                    }
                }
            }
        }
    }
}

proof fn lemma_tvars_parts(t: TExpr, n: nat)
    requires
        tvars(t, n, false),
    ensures
        match t.kind {
            TKind::MakeCtor { payload, .. } => forall|i: int| 0 <= i < payload@.len() ==> tvars(#[trigger] payload@[i], n, false),
            TKind::Tuple(ts) => forall|i: int| 0 <= i < ts@.len() ==> tvars(#[trigger] ts@[i], n, false),
            TKind::Let { bindings, .. } => forall|i: int| 0 <= i < bindings@.len() ==> tvars((#[trigger] bindings@[i]).expr, n, false),
            TKind::Match { arms, .. } => forall|i: int| 0 <= i < arms@.len() ==> tvars((#[trigger] arms@[i]).1, n, false),
            _ => true,
        },
{
    if let TKind::Let { bindings, .. } = t.kind {
        assert forall|i: int| 0 <= i < bindings@.len() implies tvars((#[trigger] bindings@[i]).expr, n, false) by {
            assert(binding_tvars(bindings@[i], n, false));
        }
    }
}

fn has_node(ids: &Vec<NodeId>, id: NodeId) -> (b: bool)
    ensures
        b == ids@.contains(id),
{
    let mut k: usize = 0;
    while k < ids.len()
        invariant
            k <= ids@.len(),
            forall|j: int| 0 <= j < k ==> ids@[j] != id,
        decreases ids@.len() - k,
    {
        if ids[k] == id {
            assert(ids@[k as int] == id);
            return true;
        }
        k = k + 1;
    }
    false
}

} // verus!

verus! {

impl Cx {
    fn zonk_ty(&mut self, ty: &Ty) -> (r: Result<Ty, TypeError>)
        requires
            old(self).ok(),
            vars_below(ty@, old(self).n()),
        ensures
            final(self).grows(old(self)),
            final(self).instantiations == old(self).instantiations,
            final(self).generalized == old(self).generalized,
            final(self).n() == old(self).n(),
            r matches Ok(g) ==> vars_below(g@, 0) && g@ == old(self).table.resolution(ty@),
            vars_below(old(self).table.resolution(ty@), 0) ==> r is Ok,
            forall|u: TyModel| #[trigger] final(self).table.resolution(u) == old(self).table.resolution(u),
    {
        let ghost before = *self;
        let r = self.table.zonk_ty(ty);
        proof {
            if r is Err && vars_below(before.table.resolution(ty@), 0) {
                let e = r->Err_0;
                let v = choose|v: nat| e.0@ == crate::ml::unify::ambiguous_text(v)
                    && #[trigger] crate::ml::unify::occurs_in(v, before.table.resolution(ty@));
                crate::ml::unify::lemma_ground_no_occurs(v, before.table.resolution(ty@));
            }
            crate::ml::unify::lemma_refines_same(before.table, self.table);
            self.lemma_carries(&before);
        }
        r
    }

    /// `e` with every type resolved to a variable-free one; a binding
    /// listed in `dead` is marked so and left as it is.
    fn zonk_expr(&mut self, e: TExpr, dead: &Vec<NodeId>, Ghost(em): Ghost<ExprModel>) -> (r: Result<TExpr, TypeError>)
        requires
            old(self).ok(),
            tvars(e, old(self).n(), false),
            mirrors(e, em, old(self).rows()),
        ensures
            final(self).grows(old(self)),
            final(self).n() == old(self).n(),
            r matches Ok(z) ==> mirrors(z, em, old(self).rows()) && tvars(z, 0, true)
                && z.ty@ == old(self).table.resolution(e.ty@)
                && (welltyped(e, old(self).table) ==> typed_ok(z)),
            resolves_ground(e, old(self).table) ==> r is Ok,
            forall|u: TyModel| #[trigger] final(self).table.resolution(u) == old(self).table.resolution(u),
        decreases e, 1int,
    {
        let ghost rows = self.rows();
        let ghost tab = self.table;
        proof {
            lemma_mirror_parts(e, em, rows);
            lemma_tvars_parts(e, self.n());
        }
        let ghost e0 = e;
        let TExpr { ty, kind } = e;
        let ty = self.zonk_ty(&ty)?;
        let kind = match kind {
            TKind::Unit => TKind::Unit,
            TKind::Int(v) => TKind::Int(v),
            TKind::Bool(b) => TKind::Bool(b),
            TKind::Var(n) => TKind::Var(n),
            TKind::MakeCtor { adt, tag, payload } => {
                let ghost len = payload@.len();
                let ghost ems = Seq::new(len, |i: int| ctor_child(em, len, i));
                let ghost m = self.table;
                let ghost pl = payload@;
                let zs = self.zonk_vec(payload, dead, Ghost(ems))?;
                proof {
                    assert forall|i: int| 0 <= i < pl.len() implies welltyped(#[trigger] pl[i], tab) == welltyped(pl[i], m) by {
                        lemma_welltyped_res_eq(pl[i], tab, m);
                    }
                    crate::ml::unify::lemma_resolution_shape(tab, TyModel::Adt(adt@));
                    assert forall|i: int| 0 <= i < zs@.len() implies mirrors(#[trigger] zs@[i], ctor_child(em, zs@.len(), i), rows) by {
                        assert(ems[i] == ctor_child(em, len, i));
                    }
                    if let ExprModel::Ctor(_, Some(a)) = em {
                        if len != 1 {
                            if let ExprModel::Tuple(items) = *a {
                                assert forall|i: int| 0 <= i < items.len() implies mirrors(#[trigger] zs@[i], items[i], rows) by {
                                    assert(ems[i] == items[i]);
                                }
                            }
                        }
                    }
                }
                TKind::MakeCtor { adt, tag, payload: zs }
            },
            TKind::Tuple(items) => {
                let ghost m = self.table;
                let ghost its = items@;
                proof {
                    if resolves_ground(e0, tab) {
                        assert forall|i: int| 0 <= i < its.len() implies resolves_ground(#[trigger] its[i], m) by {
                            lemma_rg_res_eq(its[i], tab, m);
                        }
                    }
                }
                let zs = self.zonk_vec(items, dead, Ghost(em->Tuple_0))?;
                proof {
                    assert forall|i: int| 0 <= i < its.len() implies welltyped(#[trigger] its[i], tab) == welltyped(its[i], m) by {
                        lemma_welltyped_res_eq(its[i], tab, m);
                    }
                    let tt = TyModel::Tuple(tys_of(its));
                    crate::ml::unify::lemma_resolution_shape(tab, tt);
                    assert(tys_of(zs@) =~= Seq::new(its.len(), |i: int| tab.resolution(tys_of(its)[i])));
                }
                TKind::Tuple(zs)
            },
            TKind::Neg(x) => {
                let ghost m = self.table;
                proof {
                    if resolves_ground(e0, tab) {
                        lemma_rg_res_eq(*x, tab, m);
                    }
                }
                let zx = self.zonk_expr(*x, dead, Ghost(*em->Neg_0))?;
                proof {
                    lemma_welltyped_res_eq(*x, tab, m);
                }
                TKind::Neg(Box::new(zx))
            },
            TKind::Bin { op, lhs, rhs } => {
                let ghost m1 = self.table;
                proof {
                    if resolves_ground(e0, tab) {
                        lemma_rg_res_eq(*lhs, tab, m1);
                    }
                }
                let l = self.zonk_expr(*lhs, dead, Ghost(*em->Bin_1))?;
                let ghost m2 = self.table;
                proof {
                    if resolves_ground(e0, tab) {
                        lemma_rg_res_eq(*rhs, tab, m2);
                    }
                }
                let r = self.zonk_expr(*rhs, dead, Ghost(*em->Bin_2))?;
                proof {
                    lemma_welltyped_res_eq(*lhs, tab, m1);
                    lemma_welltyped_res_eq(*rhs, tab, m2);
                }
                TKind::Bin { op, lhs: Box::new(l), rhs: Box::new(r) }
            },
            TKind::If { cond, then, els } => {
                let ghost m1 = self.table;
                proof {
                    if resolves_ground(e0, tab) {
                        lemma_rg_res_eq(*cond, tab, m1);
                    }
                }
                let c = self.zonk_expr(*cond, dead, Ghost(*em->If_0))?;
                let ghost m2 = self.table;
                proof {
                    if resolves_ground(e0, tab) {
                        lemma_rg_res_eq(*then, tab, m2);
                    }
                }
                let t = self.zonk_expr(*then, dead, Ghost(*em->If_1))?;
                let ghost m3 = self.table;
                proof {
                    if resolves_ground(e0, tab) {
                        lemma_rg_res_eq(*els, tab, m3);
                    }
                }
                let f = self.zonk_expr(*els, dead, Ghost(*em->If_2))?;
                proof {
                    lemma_welltyped_res_eq(*cond, tab, m1);
                    lemma_welltyped_res_eq(*then, tab, m2);
                    lemma_welltyped_res_eq(*els, tab, m3);
                }
                TKind::If { cond: Box::new(c), then: Box::new(t), els: Box::new(f) }
            },
            TKind::Fun { id, param, param_ty, body } => {
                proof {
                    assert(self.table.resolution(param_ty@) == tab.resolution(param_ty@));
                }
                let p = self.zonk_ty(&param_ty)?;
                let ghost m = self.table;
                proof {
                    if resolves_ground(e0, tab) {
                        lemma_rg_res_eq(*body, tab, m);
                    }
                }
                let ghost bt = body.ty@;
                let b = self.zonk_expr(*body, dead, Ghost(*em->Fun_2))?;
                proof {
                    lemma_welltyped_res_eq(*body, tab, m);
                    crate::ml::unify::lemma_resolution_shape(tab, TyModel::Fun(Box::new(param_ty@), Box::new(bt)));
                }
                TKind::Fun { id, param, param_ty: p, body: Box::new(b) }
            },
            TKind::App { func, arg } => {
                let ghost m1 = self.table;
                let f = self.zonk_expr(*func, dead, Ghost(*em->App_0))?;
                let ghost m2 = self.table;
                let ghost at = arg.ty@;
                let a = self.zonk_expr(*arg, dead, Ghost(*em->App_1))?;
                proof {
                    lemma_welltyped_res_eq(*func, tab, m1);
                    lemma_welltyped_res_eq(*arg, tab, m2);
                    crate::ml::unify::lemma_resolution_shape(tab, TyModel::Fun(Box::new(at), Box::new(e0.ty@)));
                }
                TKind::App { func: Box::new(f), arg: Box::new(a) }
            },
            TKind::Let { rec, bindings, body } => {
                let ghost m1 = self.table;
                let ghost bs = bindings@;
                let zb = self.zonk_bindings(bindings, dead, Ghost(em->Let_1))?;
                let ghost m2 = self.table;
                let b = self.zonk_expr(*body, dead, Ghost(*em->Let_2))?;
                proof {
                    assert forall|i: int| 0 <= i < bs.len() implies welltyped((#[trigger] bs[i]).expr, tab) == welltyped(bs[i].expr, m1) by {
                        lemma_welltyped_res_eq(bs[i].expr, tab, m1);
                    }
                    lemma_welltyped_res_eq(*body, tab, m2);
                }
                TKind::Let { rec, bindings: zb, body: Box::new(b) }
            },
            TKind::Match { scrutinee, arms } => {
                let ghost m1 = self.table;
                let s = self.zonk_expr(*scrutinee, dead, Ghost(*em->Match_0))?;
                let ghost m2 = self.table;
                let ghost ars = arms@;
                let za = self.zonk_arms(arms, dead, Ghost(em->Match_1))?;
                proof {
                    lemma_welltyped_res_eq(*scrutinee, tab, m1);
                    assert forall|i: int| 0 <= i < ars.len() implies welltyped((#[trigger] ars[i]).1, tab) == welltyped(ars[i].1, m2) by {
                        lemma_welltyped_res_eq(ars[i].1, tab, m2);
                    }
                }
                TKind::Match { scrutinee: Box::new(s), arms: za }
            },
        };
        proof {
            crate::ml::unify::lemma_resolution_shape(tab, TyModel::Int);
            crate::ml::unify::lemma_resolution_shape(tab, TyModel::Bool);
            crate::ml::unify::lemma_resolution_shape(tab, TyModel::Unit);
        }
        Ok(TExpr { ty, kind })
    }

    fn zonk_vec(&mut self, items: Vec<TExpr>, dead: &Vec<NodeId>, Ghost(ems): Ghost<Seq<ExprModel>>) -> (r: Result<Vec<TExpr>, TypeError>)
        requires
            old(self).ok(),
            items@.len() == ems.len(),
            forall|i: int| 0 <= i < items@.len() ==> mirrors(#[trigger] items@[i], ems[i], old(self).rows()),
            forall|i: int| 0 <= i < items@.len() ==> tvars(#[trigger] items@[i], old(self).n(), false),
        ensures
            final(self).grows(old(self)),
            final(self).n() == old(self).n(),
            r matches Ok(zs) ==> {
                &&& zs@.len() == ems.len()
                &&& forall|i: int| 0 <= i < zs@.len() ==> mirrors(#[trigger] zs@[i], ems[i], old(self).rows())
                &&& forall|i: int| 0 <= i < zs@.len() ==> tvars(#[trigger] zs@[i], 0, true)
                &&& forall|i: int| 0 <= i < zs@.len() ==> (#[trigger] zs@[i]).ty@ == old(self).table.resolution(items@[i].ty@)
                    && (welltyped(items@[i], old(self).table) ==> typed_ok(zs@[i]))
            },
            (forall|i: int| 0 <= i < items@.len() ==> resolves_ground(#[trigger] items@[i], old(self).table)) ==> r is Ok,
            forall|u: TyModel| #[trigger] final(self).table.resolution(u) == old(self).table.resolution(u),
        decreases items, 0int,
    {
        let ghost orig = items@;
        let ghost whole = items;
        let ghost start = *self;
        let total = items.len();
        let mut rest = items;
        let mut out: Vec<TExpr> = Vec::new();
        let mut k: usize = 0;
        while rest.len() > 0
            invariant
                start == *old(self),
                self.grows(&start),
                self.n() == start.n(),
                orig.len() == ems.len(),
                orig.len() == total,
                whole@ == orig,
                whole == items,
                forall|i: int| 0 <= i < orig.len() ==> mirrors(#[trigger] orig[i], ems[i], start.rows()),
                forall|i: int| 0 <= i < orig.len() ==> tvars(#[trigger] orig[i], start.n(), false),
                k <= orig.len(),
                rest@ == orig.subrange(k as int, orig.len() as int),
                out@.len() == k,
                forall|i: int| 0 <= i < k ==> mirrors(#[trigger] out@[i], ems[i], start.rows()),
                forall|i: int| 0 <= i < k ==> tvars(#[trigger] out@[i], 0, true),
                forall|i: int| 0 <= i < k ==> (#[trigger] out@[i]).ty@ == start.table.resolution(orig[i].ty@)
                    && (welltyped(orig[i], start.table) ==> typed_ok(out@[i])),
                forall|u: TyModel| #[trigger] self.table.resolution(u) == start.table.resolution(u),
                (forall|i: int| 0 <= i < orig.len() ==> resolves_ground(#[trigger] orig[i], start.table))
                    ==> forall|i: int| 0 <= i < orig.len() ==> resolves_ground(#[trigger] orig[i], self.table),
            decreases rest@.len(),
        {
            let x = rest.remove(0);
            assert(x == orig[k as int]);
            proof {
                assert(decreases_to!(whole => whole@));
                assert(decreases_to!(whole@ => whole@[k as int]));
            }
            let ghost m = self.table;
            let z = self.zonk_expr(x, dead, Ghost(ems[k as int]))?;
            proof {
                lemma_welltyped_res_eq(x, start.table, m);
            }
            proof {
                if forall|i: int| 0 <= i < orig.len() ==> resolves_ground(#[trigger] orig[i], start.table) {
                    assert forall|i: int| 0 <= i < orig.len() implies resolves_ground(#[trigger] orig[i], self.table) by {
                        lemma_rg_res_eq(orig[i], start.table, self.table);
                    }
                }
            }
            out.push(z);
            k = k + 1;
        }
        Ok(out)
    }

    fn zonk_bindings(&mut self, bindings: Vec<TBinding>, dead: &Vec<NodeId>, Ghost(bms): Ghost<Seq<BindingModel>>)
        -> (r: Result<Vec<TBinding>, TypeError>)
        requires
            old(self).ok(),
            bindings@.len() == bms.len(),
            forall|i: int| 0 <= i < bindings@.len() ==> binding_mirrors(#[trigger] bindings@[i], bms[i], old(self).rows()),
            forall|i: int| 0 <= i < bindings@.len() ==> tvars((#[trigger] bindings@[i]).expr, old(self).n(), false),
        ensures
            final(self).grows(old(self)),
            final(self).n() == old(self).n(),
            r matches Ok(zs) ==> {
                &&& zs@.len() == bms.len()
                &&& forall|i: int| 0 <= i < zs@.len() ==> binding_mirrors(#[trigger] zs@[i], bms[i], old(self).rows())
                &&& forall|i: int| 0 <= i < zs@.len() ==> binding_tvars(#[trigger] zs@[i], 0, true)
                &&& forall|i: int| 0 <= i < zs@.len() ==> (#[trigger] zs@[i]).dead == dead@.contains(zs@[i].id)
                &&& forall|i: int| 0 <= i < zs@.len() ==> ((#[trigger] zs@[i]).dead
                    || (welltyped(bindings@[i].expr, old(self).table) ==> typed_ok(zs@[i].expr)))
            },
            (forall|i: int| 0 <= i < bindings@.len() ==> resolves_ground((#[trigger] bindings@[i]).expr, old(self).table)) ==> r is Ok,
            forall|u: TyModel| #[trigger] final(self).table.resolution(u) == old(self).table.resolution(u),
        decreases bindings, 0int,
    {
        let ghost orig = bindings@;
        let ghost whole = bindings;
        let ghost start = *self;
        let total = bindings.len();
        let mut rest = bindings;
        let mut out: Vec<TBinding> = Vec::new();
        let mut k: usize = 0;
        while rest.len() > 0
            invariant
                start == *old(self),
                self.grows(&start),
                self.n() == start.n(),
                orig.len() == bms.len(),
                orig.len() == total,
                whole@ == orig,
                whole == bindings,
                forall|i: int| 0 <= i < orig.len() ==> binding_mirrors(#[trigger] orig[i], bms[i], start.rows()),
                forall|i: int| 0 <= i < orig.len() ==> tvars((#[trigger] orig[i]).expr, start.n(), false),
                k <= orig.len(),
                rest@ == orig.subrange(k as int, orig.len() as int),
                out@.len() == k,
                forall|i: int| 0 <= i < k ==> binding_mirrors(#[trigger] out@[i], bms[i], start.rows()),
                forall|i: int| 0 <= i < k ==> binding_tvars(#[trigger] out@[i], 0, true),
                forall|i: int| 0 <= i < k ==> (#[trigger] out@[i]).dead == dead@.contains(out@[i].id),
                forall|i: int| 0 <= i < k ==> ((#[trigger] out@[i]).dead
                    || (welltyped(orig[i].expr, start.table) ==> typed_ok(out@[i].expr))),
                (forall|i: int| 0 <= i < orig.len() ==> resolves_ground((#[trigger] orig[i]).expr, start.table))
                    ==> forall|i: int| 0 <= i < orig.len() ==> resolves_ground((#[trigger] orig[i]).expr, self.table),
                forall|u: TyModel| #[trigger] self.table.resolution(u) == start.table.resolution(u),
            decreases rest@.len(),
        {
            let b = rest.remove(0);
            assert(b == orig[k as int]);
            proof {
                assert(decreases_to!(whole => whole@));
                assert(decreases_to!(whole@ => whole@[k as int]));
            }
            let TBinding { id, name, expr, dead: _ } = b;
            let is_dead = has_node(dead, id);
            let ghost m = self.table;
            let ghost e_in = expr;
            let expr = if is_dead {
                expr
            } else {
                self.zonk_expr(expr, dead, Ghost(bms[k as int].2))?
            };
            proof {
                lemma_welltyped_res_eq(e_in, start.table, m);
                if forall|i: int| 0 <= i < orig.len() ==> resolves_ground((#[trigger] orig[i]).expr, start.table) {
                    assert forall|i: int| 0 <= i < orig.len() implies resolves_ground((#[trigger] orig[i]).expr, self.table) by {
                        lemma_rg_res_eq(orig[i].expr, start.table, self.table);
                    }
                }
            }
            out.push(TBinding { id, name, expr, dead: is_dead });
            k = k + 1;
        }
        Ok(out)
    }

    fn zonk_arms(&mut self, arms: Vec<(Pattern, TExpr)>, dead: &Vec<NodeId>, Ghost(ams): Ghost<Seq<(PatternModel, ExprModel)>>)
        -> (r: Result<Vec<(Pattern, TExpr)>, TypeError>)
        requires
            old(self).ok(),
            arms@.len() == ams.len(),
            forall|i: int| 0 <= i < arms@.len() ==> mirrors((#[trigger] arms@[i]).1, ams[i].1, old(self).rows()),
            forall|i: int| 0 <= i < arms@.len() ==> pattern_model((#[trigger] arms@[i]).0) == ams[i].0,
            forall|i: int| 0 <= i < arms@.len() ==> tvars((#[trigger] arms@[i]).1, old(self).n(), false),
        ensures
            final(self).grows(old(self)),
            final(self).n() == old(self).n(),
            r matches Ok(zs) ==> {
                &&& zs@.len() == ams.len()
                &&& forall|i: int| 0 <= i < zs@.len() ==> pattern_model((#[trigger] zs@[i]).0) == ams[i].0
                    && mirrors(zs@[i].1, ams[i].1, old(self).rows())
                &&& forall|i: int| 0 <= i < zs@.len() ==> tvars((#[trigger] zs@[i]).1, 0, true)
                &&& forall|i: int| 0 <= i < zs@.len() ==> (#[trigger] zs@[i]).1.ty@ == old(self).table.resolution(arms@[i].1.ty@)
                    && (welltyped(arms@[i].1, old(self).table) ==> typed_ok(zs@[i].1))
            },
            forall|u: TyModel| #[trigger] final(self).table.resolution(u) == old(self).table.resolution(u),
        decreases arms, 0int,
    {
        let ghost orig = arms@;
        let ghost whole = arms;
        let ghost start = *self;
        let total = arms.len();
        let mut rest = arms;
        let mut out: Vec<(Pattern, TExpr)> = Vec::new();
        let mut k: usize = 0;
        while rest.len() > 0
            invariant
                start == *old(self),
                self.grows(&start),
                self.n() == start.n(),
                orig.len() == ams.len(),
                orig.len() == total,
                whole@ == orig,
                whole == arms,
                forall|i: int| 0 <= i < orig.len() ==> mirrors((#[trigger] orig[i]).1, ams[i].1, start.rows()),
                forall|i: int| 0 <= i < orig.len() ==> pattern_model((#[trigger] orig[i]).0) == ams[i].0,
                forall|i: int| 0 <= i < orig.len() ==> tvars((#[trigger] orig[i]).1, start.n(), false),
                k <= orig.len(),
                rest@ == orig.subrange(k as int, orig.len() as int),
                out@.len() == k,
                forall|i: int| 0 <= i < k ==> pattern_model((#[trigger] out@[i]).0) == ams[i].0
                    && mirrors(out@[i].1, ams[i].1, start.rows()),
                forall|i: int| 0 <= i < k ==> tvars((#[trigger] out@[i]).1, 0, true),
                forall|i: int| 0 <= i < k ==> (#[trigger] out@[i]).1.ty@ == start.table.resolution(orig[i].1.ty@)
                    && (welltyped(orig[i].1, start.table) ==> typed_ok(out@[i].1)),
                forall|u: TyModel| #[trigger] self.table.resolution(u) == start.table.resolution(u),
            decreases rest@.len(),
        {
            let arm = rest.remove(0);
            assert(arm == orig[k as int]);
            proof {
                assert(decreases_to!(whole => whole@));
                assert(decreases_to!(whole@ => whole@[k as int]));
            }
            let (p, body) = arm;
            let ghost m = self.table;
            let ghost e_in = body;
            let z = self.zonk_expr(body, dead, Ghost(ams[k as int].1))?;
            proof {
                lemma_welltyped_res_eq(e_in, start.table, m);
            }
            out.push((p, z));
            k = k + 1;
        }
        Ok(out)
    }
}

} // verus!

verus! {

fn ty_eq(a: &Ty, b: &Ty) -> (r: bool)
    ensures
        r == (a@ == b@),
    decreases a, 0int,
{
    match (a, b) {
        (Ty::Unit, Ty::Unit) => true,
        (Ty::Bool, Ty::Bool) => true,
        (Ty::Int, Ty::Int) => true,
        (Ty::Adt(x), Ty::Adt(y)) => str_eq(x.as_str(), y.as_str()),
        (Ty::Var(x), Ty::Var(y)) => x.0 == y.0,
        (Ty::Fun(a1, r1), Ty::Fun(a2, r2)) => ty_eq(a1, a2) && ty_eq(r1, r2),
        (Ty::Tuple(xs), Ty::Tuple(ys)) => {
            let e = tys_eq(xs, ys);
            proof {
                if e {
                    assert(ty_models(xs@) =~= ty_models(ys@));
                } else if xs@.len() == ys@.len() {
                    let j = choose|j: int| 0 <= j < xs@.len() && xs@[j]@ != ys@[j]@;
                    assert(ty_models(xs@)[j] != ty_models(ys@)[j]);
                } else {
                    assert(ty_models(xs@).len() != ty_models(ys@).len());
                }
            }
            e
        },
        _ => false,
    }
}

fn tys_eq(xs: &Vec<Ty>, ys: &Vec<Ty>) -> (r: bool)
    ensures
        r == (xs@.len() == ys@.len() && forall|j: int| 0 <= j < xs@.len() ==> (#[trigger] xs@[j])@ == ys@[j]@),
    decreases xs, 1int,
{
    if xs.len() != ys.len() {
        return false;
    }
    let mut k: usize = 0;
    while k < xs.len()
        invariant
            k <= xs@.len(),
            xs@.len() == ys@.len(),
            forall|j: int| 0 <= j < k ==> (#[trigger] xs@[j])@ == ys@[j]@,
        decreases xs@.len() - k,
    {
        if !ty_eq(&xs[k], &ys[k]) {
            return false;
        }
        k = k + 1;
    }
    true
}

/// The typed program annotates the program `pm`: the same declarations
/// in order, each binding typed, and every type of a live binding free
/// of variables.
pub open spec fn typed_mirrors(tp: TypedProgram, pm: crate::ml::ast::ProgramModel, rows: Seq<(Seq<char>, CtorModel)>) -> bool {
    &&& tp.decls@.len() == pm.1.len()
    &&& forall|i: int| 0 <= i < tp.decls@.len() ==> {
        &&& (#[trigger] tp.decls@[i]).0 == pm.1[i].0
        &&& tp.decls@[i].1@.len() == pm.1[i].1.len()
        &&& forall|j: int| 0 <= j < tp.decls@[i].1@.len() ==> binding_mirrors(#[trigger] tp.decls@[i].1@[j], pm.1[i].1[j], rows)
            && binding_tvars(tp.decls@[i].1@[j], 0, true)
    }
}

fn usage_msg(name: &str, n: usize) -> (s: String)
{
    let mut v = crate::text::chars_of("`");
    crate::text::push_str(&mut v, name);
    crate::text::push_str(&mut v, "` is used at ");
    let mut d = digits_of(n as u64);
    v.append(&mut d);
    crate::text::push_str(&mut v, " distinct types; polymorphic emission is fenced to v0.2 (D-038)");
    crate::text::string_of(&v)
}

/// Every declaration binds, without recursion, first-order expressions
/// that the typing rules give a type.
pub open spec fn first_order_program(decls: Seq<(bool, Vec<Binding>)>) -> bool {
    forall|d: int| 0 <= d < decls.len() ==> !(#[trigger] decls[d]).0
        && forall|j: int| 0 <= j < decls[d].1@.len() ==> (#[trigger] ground_type(decls[d].1@[j].expr@)) is Some
}

/// Every declaration binds, without recursion, first-order expressions.
pub open spec fn first_order_shape(decls: Seq<(bool, Vec<Binding>)>) -> bool {
    forall|d: int| 0 <= d < decls.len() ==> !(#[trigger] decls[d]).0
        && forall|j: int| 0 <= j < decls[d].1@.len() ==> #[trigger] first_order(decls[d].1@[j].expr@)
}

/// The type `unit -> int`.
pub open spec fn unit_to_int() -> TyModel {
    TyModel::Fun(Box::new(TyModel::Unit), Box::new(TyModel::Int))
}

/// A first-order program with declarable types whose every top-level
/// binding named `main` has type `unit -> int`, and which has one.
pub open spec fn first_order_main_ok(program: Program) -> bool {
    &&& declare_spec(typedef_models(program.typedefs@)) is Ok
    &&& first_order_program(program.decls@)
    &&& declares(program.decls@, program.decls@.len() as int, "main"@)
    &&& forall|d: int, j: int| 0 <= d < program.decls@.len() && 0 <= j < program.decls@[d].1@.len()
        && (#[trigger] program.decls@[d].1@[j]).name@ == "main"@ ==> ground_type(program.decls@[d].1@[j].expr@) == Some(unit_to_int())
}

/// A first-order program with declarable types that has a `main`, every
/// top-level binding named `main` being a function of `()`.
pub open spec fn first_order_main_any(program: Program) -> bool {
    &&& declare_spec(typedef_models(program.typedefs@)) is Ok
    &&& first_order_program(program.decls@)
    &&& declares(program.decls@, program.decls@.len() as int, "main"@)
    &&& forall|d: int, j: int| 0 <= d < program.decls@.len() && 0 <= j < program.decls@[d].1@.len()
        && (#[trigger] program.decls@[d].1@[j]).name@ == "main"@ ==> (ground_type(program.decls@[d].1@[j].expr@) matches
            Some(TyModel::Fun(a, _)) && *a == TyModel::Unit)
}

/// A first-order program that the `main` policy accepts.
pub open spec fn first_order_accepted(program: Program, policy: MainPolicy) -> bool {
    ||| first_order_no_main(program) && policy is OptionalAny
    ||| first_order_main_any(program) && policy is OptionalAny
    ||| first_order_main_ok(program) && policy is Required
}

/// The ground type of `main`'s entry is that of a binding named `main`.
proof fn lemma_main_typed(decls: Seq<(bool, Vec<Binding>)>, e: (String, Scheme))
    requires
        entry_declared(e, decls, decls.len() as int),
    ensures
        exists|d: int, j: int| 0 <= d < decls.len() && 0 <= j < decls[d].1@.len()
            && (#[trigger] decls[d].1@[j]).name@ == e.0@ && ground_type(decls[d].1@[j].expr@) == Some(e.1.ty@),
{
}

/// A first-order program with declarable types and no `main`.
pub open spec fn first_order_no_main(program: Program) -> bool {
    &&& declare_spec(typedef_models(program.typedefs@)) is Ok
    &&& first_order_program(program.decls@)
    &&& !declares(program.decls@, program.decls@.len() as int, "main"@)
}

/// The model of a first-order program with declarable types and no
/// binding named `main`: every declaration binds, without recursion,
/// first-order expressions that the typing rules give a type.
pub open spec fn first_order_without_main(pm: crate::ml::ast::ProgramModel) -> bool {
    &&& declare_spec(pm.0) is Ok
    &&& forall|d: int| 0 <= d < pm.1.len() ==> !(#[trigger] pm.1[d]).0
        && forall|j: int| 0 <= j < pm.1[d].1.len() ==> (#[trigger] ground_type(pm.1[d].1[j].2)) is Some
    &&& !exists|d: int, j: int| 0 <= d < pm.1.len() && 0 <= j < pm.1[d].1.len() && (#[trigger] pm.1[d].1[j]).1 == "main"@
}

/// The model of a program every declaration of which binds, without
/// recursion, first-order expressions.
pub open spec fn first_order_shaped(pm: crate::ml::ast::ProgramModel) -> bool {
    forall|d: int| 0 <= d < pm.1.len() ==> !(#[trigger] pm.1[d]).0
        && forall|j: int| 0 <= j < pm.1[d].1.len() ==> #[trigger] first_order(pm.1[d].1[j].2)
}

/// Every binding of the model's declarations has a first-order type.
pub open spec fn first_order_typed(pm: crate::ml::ast::ProgramModel) -> bool {
    forall|d: int, j: int| 0 <= d < pm.1.len() && 0 <= j < pm.1[d].1.len() ==> (#[trigger] ground_type(pm.1[d].1[j].2)) is Some
}

/// What the model of a program says of its first-order shape and of
/// `main` holds of the program itself.
pub proof fn lemma_first_order_without_main(program: Program)
    ensures
        first_order_without_main(crate::ml::ast::program_model(program)) ==> first_order_no_main(program),
        first_order_shaped(crate::ml::ast::program_model(program)) ==> first_order_shape(program.decls@),
        first_order_program(program.decls@) ==> first_order_typed(crate::ml::ast::program_model(program)),
{
    let pm = crate::ml::ast::program_model(program);
    assert forall|d: int| 0 <= d < program.decls@.len() implies #[trigger] pm.1[d] == (program.decls@[d].0, binding_models(program.decls@[d].1@)) by {}
    assert forall|d: int, j: int| 0 <= d < program.decls@.len() && 0 <= j < program.decls@[d].1@.len()
        implies #[trigger] pm.1[d].1[j] == (program.decls@[d].1@[j].id as int, program.decls@[d].1@[j].name@, program.decls@[d].1@[j].expr@) by {
        assert(pm.1[d] == (program.decls@[d].0, binding_models(program.decls@[d].1@)));
    }
    if first_order_shaped(pm) {
        assert forall|d: int| 0 <= d < program.decls@.len() implies !(#[trigger] program.decls@[d]).0
            && forall|j: int| 0 <= j < program.decls@[d].1@.len() ==> #[trigger] first_order(program.decls@[d].1@[j].expr@) by {
            assert(!pm.1[d].0);
            assert forall|j: int| 0 <= j < program.decls@[d].1@.len() implies #[trigger] first_order(program.decls@[d].1@[j].expr@) by {
                assert(pm.1[d].1[j].2 == program.decls@[d].1@[j].expr@);
                assert(first_order(pm.1[d].1[j].2));
            }
        }
    }
    if first_order_program(program.decls@) {
        assert forall|d: int, j: int| 0 <= d < pm.1.len() && 0 <= j < pm.1[d].1.len() implies (#[trigger] ground_type(pm.1[d].1[j].2)) is Some by {
            assert(pm.1[d].1[j].2 == program.decls@[d].1@[j].expr@);
            assert(ground_type(program.decls@[d].1@[j].expr@) is Some);
        }
    }
    assert(pm.0 == typedef_models(program.typedefs@));
    if first_order_without_main(pm) {
        assert forall|d: int| 0 <= d < program.decls@.len() implies !(#[trigger] program.decls@[d]).0
            && forall|j: int| 0 <= j < program.decls@[d].1@.len() ==> (#[trigger] ground_type(program.decls@[d].1@[j].expr@)) is Some by {
            assert(pm.1[d] == (program.decls@[d].0, binding_models(program.decls@[d].1@)));
            assert(!pm.1[d].0);
            assert forall|j: int| 0 <= j < program.decls@[d].1@.len() implies (#[trigger] ground_type(program.decls@[d].1@[j].expr@)) is Some by {
                assert(pm.1[d].1[j] == (program.decls@[d].1@[j].id as int, program.decls@[d].1@[j].name@, program.decls@[d].1@[j].expr@));
                assert(ground_type(pm.1[d].1[j].2) is Some);
            }
        }
        if declares(program.decls@, program.decls@.len() as int, "main"@) {
            let d = choose|d: int| 0 <= d < program.decls@.len() && binds_in((#[trigger] program.decls@[d]).1@, "main"@);
            let j = choose|j: int| 0 <= j < program.decls@[d].1@.len() && (#[trigger] program.decls@[d].1@[j]).name@ == "main"@;
            assert(pm.1[d] == (program.decls@[d].0, binding_models(program.decls@[d].1@)));
            assert(pm.1[d].1[j] == (program.decls@[d].1@[j].id as int, program.decls@[d].1@[j].name@, program.decls@[d].1@[j].expr@));
        }
    }
}

/// The model of a first-order program with declarable types in which
/// every binding named `main` is a function of `()`: the first-order
/// programs that the REPL policy accepts.
pub open spec fn first_order_repl(pm: crate::ml::ast::ProgramModel) -> bool {
    &&& declare_spec(pm.0) is Ok
    &&& forall|d: int| 0 <= d < pm.1.len() ==> !(#[trigger] pm.1[d]).0
        && forall|j: int| 0 <= j < pm.1[d].1.len() ==> (#[trigger] ground_type(pm.1[d].1[j].2)) is Some
    &&& forall|d: int, j: int| 0 <= d < pm.1.len() && 0 <= j < pm.1[d].1.len() && (#[trigger] pm.1[d].1[j]).1 == "main"@
        ==> (ground_type(pm.1[d].1[j].2) matches Some(TyModel::Fun(a, _)) && *a == TyModel::Unit)
}

/// What the model says of a first-order program under the REPL policy
/// holds of the program itself.
pub proof fn lemma_first_order_repl(program: Program)
    ensures
        first_order_repl(crate::ml::ast::program_model(program))
            ==> first_order_no_main(program) || first_order_main_any(program),
{
    let pm = crate::ml::ast::program_model(program);
    assert forall|d: int| 0 <= d < program.decls@.len() implies #[trigger] pm.1[d] == (program.decls@[d].0, binding_models(program.decls@[d].1@)) by {}
    assert forall|d: int, j: int| 0 <= d < program.decls@.len() && 0 <= j < program.decls@[d].1@.len()
        implies #[trigger] pm.1[d].1[j] == (program.decls@[d].1@[j].id as int, program.decls@[d].1@[j].name@, program.decls@[d].1@[j].expr@) by {
        assert(pm.1[d] == (program.decls@[d].0, binding_models(program.decls@[d].1@)));
    }
    assert(pm.0 == typedef_models(program.typedefs@));
    if first_order_repl(pm) {
        assert forall|d: int| 0 <= d < program.decls@.len() implies !(#[trigger] program.decls@[d]).0
            && forall|j: int| 0 <= j < program.decls@[d].1@.len() ==> (#[trigger] ground_type(program.decls@[d].1@[j].expr@)) is Some by {
            assert(pm.1[d] == (program.decls@[d].0, binding_models(program.decls@[d].1@)));
            assert(!pm.1[d].0);
            assert forall|j: int| 0 <= j < program.decls@[d].1@.len() implies (#[trigger] ground_type(program.decls@[d].1@[j].expr@)) is Some by {
                assert(pm.1[d].1[j] == (program.decls@[d].1@[j].id as int, program.decls@[d].1@[j].name@, program.decls@[d].1@[j].expr@));
                assert(ground_type(pm.1[d].1[j].2) is Some);
            }
        }
        assert(first_order_program(program.decls@));
        assert forall|d: int, j: int| 0 <= d < program.decls@.len() && 0 <= j < program.decls@[d].1@.len()
            && (#[trigger] program.decls@[d].1@[j]).name@ == "main"@ implies (ground_type(program.decls@[d].1@[j].expr@) matches
                Some(TyModel::Fun(a, _)) && *a == TyModel::Unit) by {
            assert(pm.1[d].1[j] == (program.decls@[d].1@[j].id as int, program.decls@[d].1@[j].name@, program.decls@[d].1@[j].expr@));
        }
    }
}

/// What a program must declare as `main`.
#[derive(Clone, Copy, PartialEq, Eq, Debug)]
pub enum MainPolicy {
    /// A `main` of type `unit -> int` (whole-program compilation).
    Required,
    /// `main` may be absent; when present it is `unit -> t` for any
    /// concrete `t` (the REPL).
    OptionalAny,
}

/// Infers the program with the whole-program entry protocol: `main`
/// must exist with type `unit -> int`.
pub fn infer(program: &Program) -> (r: Result<TypedProgram, TypeError>)
    ensures
        r is Ok ==> declares(program.decls@, program.decls@.len() as int, "main"@),
        first_order_main_ok(*program) ==> r is Ok,
        first_order_program(program.decls@) && r is Ok ==> exists|d: int, j: int|
            0 <= d < program.decls@.len() && 0 <= j < program.decls@[d].1@.len()
            && (#[trigger] program.decls@[d].1@[j]).name@ == "main"@
            && ground_type(program.decls@[d].1@[j].expr@) == Some(unit_to_int()),
        first_order_shape(program.decls@) && r is Ok ==> first_order_program(program.decls@),
        first_order_without_main(crate::ml::ast::program_model(*program))
            ==> (r matches Err(e) && e.0@ == "no `main` declaration (expected `let main () = ...`)"@),
        match declare_spec(crate::ml::ast::program_model(*program).0) {
            Err(m) => r matches Err(e) && e.0@ == m,
            Ok(adts) => r matches Ok(tp) ==> typed_mirrors(tp, crate::ml::ast::program_model(*program), ctor_table_spec(adts)),
        },
{
    proof {
        lemma_first_order_without_main(*program);
    }
    infer_with(program, MainPolicy::Required)
}

/// HM inference with let-polymorphism over a parsed program, under a
/// `main` policy: the ADTs are declared, each declaration group inferred
/// in order, `main` checked against the policy, a generalized binding
/// used at one type fixed to it (unused, it is dead; used at several, an
/// error), and every type then resolved to a variable-free one.
pub fn infer_with(program: &Program, policy: MainPolicy) -> (r: Result<TypedProgram, TypeError>)
    ensures
        policy is Required && r is Ok ==> declares(program.decls@, program.decls@.len() as int, "main"@),
        first_order_shape(program.decls@) && r is Ok ==> first_order_program(program.decls@),
        first_order_main_ok(*program) && policy is Required ==> r is Ok,
        first_order_main_any(*program) && policy is OptionalAny ==> r is Ok,
        first_order_program(program.decls@) && policy is Required && r is Ok ==> exists|d: int, j: int|
            0 <= d < program.decls@.len() && 0 <= j < program.decls@[d].1@.len()
            && (#[trigger] program.decls@[d].1@[j]).name@ == "main"@
            && ground_type(program.decls@[d].1@[j].expr@) == Some(unit_to_int()),
        first_order_no_main(*program) ==> match policy {
                MainPolicy::Required => r matches Err(e) && e.0@ == "no `main` declaration (expected `let main () = ...`)"@,
                MainPolicy::OptionalAny => r is Ok,
            },
        match declare_spec(crate::ml::ast::program_model(*program).0) {
            Err(m) => r matches Err(e) && e.0@ == m,
            Ok(adts) => r matches Ok(tp) ==> typed_mirrors(tp, crate::ml::ast::program_model(*program), ctor_table_spec(adts)),
        },
{
    let declared = match declare_adts(&program.typedefs) {
        Ok(v) => v,
        Err(e) => {
            return Err(e);
        },
    };
    let ctors = ctor_table(&declared);
    let mut cx = Cx { table: TypeTable::new(), ctors, instantiations: Vec::new(), generalized: Vec::new() };
    let ghost rows = cx.rows();
    proof {
        lemma_declared_rows_ground(typedef_models(program.typedefs@));
    }
    let ghost c0 = cx;
    let mut env: Vec<(String, Scheme)> = Vec::new();
    let mut decls: Vec<(bool, Vec<TBinding>)> = Vec::new();
    let mut i: usize = 0;
    while i < program.decls.len()
        invariant
            cx.grows(&c0),
            declare_spec(typedef_models(program.typedefs@)) is Ok,
            rows == c0.rows(),
            env_ok(env@, cx.n()),
            i <= program.decls@.len(),
            forall|e: int| 0 <= e < env@.len() ==> declares(program.decls@, i as int, (#[trigger] env@[e]).0@),
            forall|d: int, j: int| 0 <= d < i && 0 <= j < program.decls@[d].1@.len()
                ==> names_in(env@, (#[trigger] program.decls@[d].1@[j]).name@),
            first_order_shape(program.decls@) ==> forall|d: int, j: int| 0 <= d < i && 0 <= j < program.decls@[d].1@.len()
                ==> (#[trigger] ground_type(program.decls@[d].1@[j].expr@)) is Some,
            first_order_program(program.decls@) ==> forall|e: int| 0 <= e < env@.len()
                ==> entry_declared(#[trigger] env@[e], program.decls@, i as int),
            first_order_program(program.decls@) ==> cx.generalized@.len() == 0 && cx.n() == 0
                && forall|d: int, j: int| 0 <= d < i && 0 <= j < decls@[d].1@.len()
                    ==> resolves_ground((#[trigger] decls@[d].1@[j]).expr, cx.table),
            decls@.len() == i,
            forall|d: int| 0 <= d < i ==> {
                &&& (#[trigger] decls@[d]).0 == program.decls@[d].0
                &&& decls@[d].1@.len() == program.decls@[d].1@.len()
                &&& forall|j: int| 0 <= j < decls@[d].1@.len() ==> binding_mirrors(#[trigger] decls@[d].1@[j],
                    binding_models(program.decls@[d].1@)[j], rows)
                    && tvars(decls@[d].1@[j].expr, cx.n(), false)
            },
        decreases program.decls@.len() - i,
    {
        let ghost before = cx.n();
        let ghost env0 = env@;
        let ghost cb = cx;
        proof {
            if first_order_shape(program.decls@) {
                assert(!program.decls@[i as int].0);
                assert forall|j: int| 0 <= j < program.decls@[i as int].1@.len()
                    implies #[trigger] first_order(program.decls@[i as int].1@[j].expr@) by {
                    assert(first_order_shape(program.decls@));
                }
            }
            if first_order_program(program.decls@) {
                assert(!program.decls@[i as int].0);
                assert forall|j: int| 0 <= j < program.decls@[i as int].1@.len()
                    implies (#[trigger] ground_type(program.decls@[i as int].1@[j].expr@)) is Some by {
                    assert(first_order_program(program.decls@));
                }
            }
        }
        let typed = cx.infer_bindings(&mut env, program.decls[i].0, &program.decls[i].1)?;
        proof {
            assert forall|d: int, j: int| 0 <= d < i + 1 && 0 <= j < program.decls@[d].1@.len()
                implies names_in(env@, (#[trigger] program.decls@[d].1@[j]).name@) by {
                if d < i {
                    assert(names_in(env0, program.decls@[d].1@[j].name@));
                    let e2 = choose|e2: int| 0 <= e2 < env0.len() && (#[trigger] env0[e2]).0@ == program.decls@[d].1@[j].name@;
                    assert(names_in(env@, env0[e2].0@));
                }
            }
            if first_order_program(program.decls@) {
                assert forall|e: int| 0 <= e < env@.len() implies entry_declared(#[trigger] env@[e], program.decls@, i + 1) by {
                    if entry_in(env0, env@[e]) {
                        let j = choose|j: int| 0 <= j < env0.len() && (#[trigger] env0[j]).0@ == env@[e].0@
                            && env0[j].1.vars@ == env@[e].1.vars@ && env0[j].1.ty@ == env@[e].1.ty@;
                        assert(entry_declared(env0[j], program.decls@, i as int));
                        let (d2, j2) = choose|d2: int, j2: int| 0 <= d2 < i && 0 <= j2 < program.decls@[d2].1@.len()
                            && (#[trigger] program.decls@[d2].1@[j2]).name@ == env0[j].0@
                            && ground_type(program.decls@[d2].1@[j2].expr@) == Some(env0[j].1.ty@);
                        assert(program.decls@[d2].1@[j2].name@ == env@[e].0@);
                    } else {
                        assert(entry_from(env@[e], program.decls@[i as int].1@));
                        let j = choose|j: int| 0 <= j < program.decls@[i as int].1@.len()
                            && (#[trigger] program.decls@[i as int].1@[j]).name@ == env@[e].0@
                            && ground_type(program.decls@[i as int].1@[j].expr@) == Some(env@[e].1.ty@);
                        assert(program.decls@[i as int].1@[j].name@ == env@[e].0@);
                    }
                }
            }
            if first_order_program(program.decls@) {
                assert forall|d: int, j: int| 0 <= d < i && 0 <= j < decls@[d].1@.len()
                    implies resolves_ground((#[trigger] decls@[d].1@[j]).expr, cx.table) by {
                    cx.carry_rg(&cb, decls@[d].1@[j].expr);
                }
            }
            assert forall|e: int| 0 <= e < env@.len() implies declares(program.decls@, i + 1, (#[trigger] env@[e]).0@) by {
                if names_in(env0, env@[e].0@) {
                    let j = choose|j: int| 0 <= j < env0.len() && (#[trigger] env0[j]).0@ == env@[e].0@;
                    assert(declares(program.decls@, i as int, env0[j].0@));
                } else {
                    assert(binds_in(program.decls@[i as int].1@, env@[e].0@));
                }
            }
            assert forall|d: int, j: int| 0 <= d < i && 0 <= j < decls@[d].1@.len()
                implies tvars(#[trigger] decls@[d].1@[j].expr, cx.n(), false) by {
                lemma_tvars_mono(decls@[d].1@[j].expr, before, cx.n());
            }
            assert forall|j: int| 0 <= j < typed@.len() implies tvars(#[trigger] typed@[j].expr, cx.n(), false) by {
                assert(binding_tvars(typed@[j], cx.n(), false));
            }
        }
        decls.push((program.decls[i].0, typed));
        i = i + 1;
    }

    // Entry protocol: main : unit -> int, or under the REPL policy an
    // optional main : unit -> t.
    let ghost n1 = cx.n();
    let ghost cm = cx;
    match env_find(&env, "main") {
        Some(idx) => {
            assert(declares(program.decls@, program.decls@.len() as int, env@[idx as int].0@));
            assert(scheme_ok(env@[idx as int].1, cx.n()));
            let ghost gm = env@[idx as int].1.ty@;
            proof {
                if first_order_program(program.decls@) {
                    assert(entry_declared(env@[idx as int], program.decls@, program.decls@.len() as int));
                    lemma_main_typed(program.decls@, env@[idx as int]);
                }
            }
            let main = env[idx].1.duplicate();
            let main_ty = cx.instantiate(&main)?;
            let ghost n_main = cx.n();
            let unit_ty = Ty::Unit;
            assert(unit_ty@ == TyModel::Unit);
            proof {
                if first_order_main_any(*program) && policy is OptionalAny {
                    assert(cx.n() == 0);
                }
            }
            let result_ty = match policy {
                MainPolicy::Required => Ty::Int,
                MainPolicy::OptionalAny => cx.fresh()?,
            };
            proof {
                crate::ml::unify::lemma_vars_below_mono(main_ty@, n_main, cx.n());
            }
            assert(vars_below(TyModel::Unit, cx.n()));
            assert(vars_below(result_ty@, cx.n()));
            let want = Ty::Fun(Box::new(unit_ty), Box::new(result_ty));
            assert(vars_below(want@, cx.n()));
            proof {
                if first_order_main_ok(*program) && policy is Required {
                    assert(main_ty@ == want@);
                }
                if first_order_main_any(*program) && policy is OptionalAny {
                    let (d0, j0) = choose|d0: int, j0: int| 0 <= d0 < program.decls@.len() && 0 <= j0 < program.decls@[d0].1@.len()
                        && (#[trigger] program.decls@[d0].1@[j0]).name@ == env@[idx as int].0@
                        && ground_type(program.decls@[d0].1@[j0].expr@) == Some(gm);
                    lemma_ground_type_ground(program.decls@[d0].1@[j0].expr@);
                    assert(main_ty@ == gm);
                    crate::ml::unify::lemma_ground_fixed(cx.table, gm);
                    crate::ml::unify::lemma_resolution_shape(cx.table, want@);
                    assert(vars_below(TyModel::Unit, 0));
                    crate::ml::unify::lemma_ground_fixed(cx.table, TyModel::Unit);
                }
            }
            match cx.unify(&main_ty, &want) {
                Ok(()) => {
                    proof {
                        if first_order_program(program.decls@) && policy is Required {
                            let (d0, j0) = choose|d0: int, j0: int| 0 <= d0 < program.decls@.len() && 0 <= j0 < program.decls@[d0].1@.len()
                                && (#[trigger] program.decls@[d0].1@[j0]).name@ == env@[idx as int].0@
                                && ground_type(program.decls@[d0].1@[j0].expr@) == Some(gm);
                            lemma_ground_type_ground(program.decls@[d0].1@[j0].expr@);
                            assert(vars_below(TyModel::Unit, 0) && vars_below(TyModel::Int, 0));
                            assert(vars_below(unit_to_int(), 0));
                            crate::ml::unify::lemma_ground_fixed(cx.table, gm);
                            crate::ml::unify::lemma_ground_fixed(cx.table, unit_to_int());
                            assert(want@ == unit_to_int());
                            assert(gm == unit_to_int());
                        }
                        if first_order_program(program.decls@) {
                            assert forall|d: int, j: int| 0 <= d < decls@.len() && 0 <= j < decls@[d].1@.len()
                                implies resolves_ground((#[trigger] decls@[d].1@[j]).expr, cx.table) by {
                                cx.carry_rg(&cm, decls@[d].1@[j].expr);
                            }
                        }
                    }
                },
                Err(e) => {
                    let lead = match policy {
                        MainPolicy::Required => "main must have type unit -> int: ",
                        MainPolicy::OptionalAny => "main must have type unit -> 'a: ",
                    };
                    return Err(TypeError(join2(lead, e.0.as_str())));
                },
            }
        },
        None => match policy {
            MainPolicy::Required => {
                proof {
                    if declares(program.decls@, program.decls@.len() as int, "main"@) {
                        let d = choose|d: int| 0 <= d < program.decls@.len() && binds_in((#[trigger] program.decls@[d]).1@, "main"@);
                        let j = choose|j: int| 0 <= j < program.decls@[d].1@.len() && (#[trigger] program.decls@[d].1@[j]).name@ == "main"@;
                        assert(names_in(env@, program.decls@[d].1@[j].name@));
                    }
                }
                return Err(TypeError("no `main` declaration (expected `let main () = ...`)".to_owned()));
            },
            MainPolicy::OptionalAny => {},
        },
    }

    // Concretize single-instantiation generalized bindings; error on
    // several; mark unused ones dead.
    let ghost n2 = cx.n();
    let ghost c1i = cx.instantiations;
    let ghost c1g = cx.generalized;
    let ghost cpre = cx;
    let mut dead: Vec<NodeId> = Vec::new();
    let mut g: usize = 0;
    while g < cx.generalized.len()
        invariant
            cx.grows(&c0),
            declare_spec(typedef_models(program.typedefs@)) is Ok,
            cx.instantiations == c1i,
            cx.generalized == c1g,
            n2 <= cx.n(),
            g <= cx.generalized@.len(),
            first_order_no_main(*program) ==> policy is OptionalAny,
            first_order_accepted(*program, policy) ==> c1g@.len() == 0 && cx == cpre,
        decreases cx.generalized@.len() - g,
    {
        assert(!first_order_accepted(*program, policy));
        let binding_id = cx.generalized[g].0;
        let name = cx.generalized[g].1.clone();
        let scheme_vars = cx.generalized[g].2.clone();
        let mut distinct: Vec<Vec<Ty>> = Vec::new();
        let mut e: usize = 0;
        while e < cx.instantiations.len()
            invariant
                cx.grows(&c0),
                declare_spec(typedef_models(program.typedefs@)) is Ok,
                cx.instantiations == c1i,
                cx.generalized == c1g,
                n2 <= cx.n(),
                g < cx.generalized@.len(),
                !first_order_no_main(*program),
                !first_order_accepted(*program, policy),
                e <= cx.instantiations@.len(),
                forall|a: int, b: int| 0 <= a < distinct@.len() && 0 <= b < distinct@[a]@.len()
                    ==> vars_below(#[trigger] distinct@[a]@[b]@, cx.n()),
            decreases cx.instantiations@.len() - e,
        {
            if cx.instantiations[e].0 == binding_id {
                let mut u: usize = 0;
                while u < cx.instantiations[e].1.len()
                    invariant
                        cx.grows(&c0),
                        declare_spec(typedef_models(program.typedefs@)) is Ok,
                        cx.instantiations == c1i,
                        cx.generalized == c1g,
                        n2 <= cx.n(),
                        g < cx.generalized@.len(),
                !first_order_no_main(*program),
                !first_order_accepted(*program, policy),
                        e < cx.instantiations@.len(),
                        u <= cx.instantiations@[e as int].1@.len(),
                        forall|a: int, b: int| 0 <= a < distinct@.len() && 0 <= b < distinct@[a]@.len()
                            ==> vars_below(#[trigger] distinct@[a]@[b]@, cx.n()),
                    decreases cx.instantiations@[e as int].1@.len() - u,
                {
                    let inst = cx.instantiations[e].1[u].clone();
                    let mut resolved: Vec<Ty> = Vec::new();
                    let mut w: usize = 0;
                    while w < inst.len()
                        invariant
                            cx.grows(&c0),
                            declare_spec(typedef_models(program.typedefs@)) is Ok,
                            cx.instantiations == c1i,
                            cx.generalized == c1g,
                            n2 <= cx.n(),
                            g < cx.generalized@.len(),
                !first_order_no_main(*program),
                !first_order_accepted(*program, policy),
                            e < cx.instantiations@.len(),
                            u < cx.instantiations@[e as int].1@.len(),
                            inst@ == cx.instantiations@[e as int].1@[u as int]@,
                            w <= inst@.len(),
                            forall|b: int| 0 <= b < resolved@.len() ==> vars_below(#[trigger] resolved@[b]@, cx.n()),
                            forall|a: int, b: int| 0 <= a < distinct@.len() && 0 <= b < distinct@[a]@.len()
                                ==> vars_below(#[trigger] distinct@[a]@[b]@, cx.n()),
                        decreases inst@.len() - w,
                    {
                        assert((inst@[w as int].0 as nat) < cx.n());
                        let r = cx.resolve(&Ty::Var(inst[w]));
                        resolved.push(r);
                        w = w + 1;
                    }
                    let mut seen = false;
                    let mut q: usize = 0;
                    while q < distinct.len()
                        invariant
                            q <= distinct@.len(),
                        decreases distinct@.len() - q,
                    {
                        if tys_eq(&distinct[q], &resolved) {
                            seen = true;
                            break;
                        }
                        q = q + 1;
                    }
                    if !seen {
                        distinct.push(resolved);
                    }
                    u = u + 1;
                }
            }
            e = e + 1;
        }
        if distinct.len() == 0 {
            dead.push(binding_id);
        } else if distinct.len() == 1 {
            let mut v: usize = 0;
            while v < scheme_vars.len() && v < distinct[0].len()
                invariant
                    cx.grows(&c0),
                    declare_spec(typedef_models(program.typedefs@)) is Ok,
                    cx.instantiations == c1i,
                    cx.generalized == c1g,
                    n2 <= cx.n(),
                    g < cx.generalized@.len(),
                !first_order_no_main(*program),
                !first_order_accepted(*program, policy),
                    scheme_vars@ == cx.generalized@[g as int].2@,
                    distinct@.len() == 1,
                    forall|a: int, b: int| 0 <= a < distinct@.len() && 0 <= b < distinct@[a]@.len()
                        ==> vars_below(#[trigger] distinct@[a]@[b]@, cx.n()),
                decreases scheme_vars@.len() - v,
            {
                let var = Ty::Var(scheme_vars[v]);
                assert((scheme_vars@[v as int].0 as nat) < cx.n());
                match cx.unify(&var, &distinct[0][v]) {
                    Ok(()) => {},
                    Err(err) => {
                        let mut m = crate::text::chars_of("concretizing `");
                        crate::text::push_str(&mut m, name.as_str());
                        crate::text::push_str(&mut m, "`: ");
                        crate::text::push_str(&mut m, err.0.as_str());
                        return Err(TypeError(crate::text::string_of(&m)));
                    },
                }
                v = v + 1;
            }
        } else {
            return Err(TypeError(usage_msg(name.as_str(), distinct.len())));
        }
        g = g + 1;
    }

    // Zonk everything to concrete types.
    let ghost n3 = cx.n();
    proof {
        assert forall|d: int, j: int| 0 <= d < decls@.len() && 0 <= j < decls@[d].1@.len()
            implies tvars(#[trigger] decls@[d].1@[j].expr, cx.n(), false) by {
            lemma_tvars_mono(decls@[d].1@[j].expr, n1, cx.n());
        }
    }
    let ghost typed_decls = decls@;
    let mut rest = decls;
    let mut zonked: Vec<(bool, Vec<TBinding>)> = Vec::new();
    let mut d: usize = 0;
    let total = rest.len();
    while rest.len() > 0
        invariant
            cx.grows(&c0),
            declare_spec(typedef_models(program.typedefs@)) is Ok,
            cx.n() == n3,
            rows == c0.rows(),
            typed_decls.len() == program.decls@.len(),
            total == typed_decls.len(),
            d <= typed_decls.len(),
            rest@ == typed_decls.subrange(d as int, typed_decls.len() as int),
            first_order_no_main(*program) ==> policy is OptionalAny,
            first_order_accepted(*program, policy) ==> forall|x: int, j: int| 0 <= x < typed_decls.len() && 0 <= j < typed_decls[x].1@.len()
                ==> resolves_ground((#[trigger] typed_decls[x].1@[j]).expr, cx.table),
            forall|x: int| 0 <= x < typed_decls.len() ==> {
                &&& (#[trigger] typed_decls[x]).0 == program.decls@[x].0
                &&& typed_decls[x].1@.len() == program.decls@[x].1@.len()
                &&& forall|j: int| 0 <= j < typed_decls[x].1@.len() ==> binding_mirrors(#[trigger] typed_decls[x].1@[j],
                    binding_models(program.decls@[x].1@)[j], rows)
                    && tvars(typed_decls[x].1@[j].expr, n3, false)
            },
            zonked@.len() == d,
            forall|x: int| 0 <= x < d ==> {
                &&& (#[trigger] zonked@[x]).0 == program.decls@[x].0
                &&& zonked@[x].1@.len() == program.decls@[x].1@.len()
                &&& forall|j: int| 0 <= j < zonked@[x].1@.len() ==> binding_mirrors(#[trigger] zonked@[x].1@[j],
                    binding_models(program.decls@[x].1@)[j], rows)
                    && binding_tvars(zonked@[x].1@[j], 0, true)
            },
        decreases rest@.len(),
    {
        let (recursive, bindings) = rest.remove(0);
        assert((recursive, bindings) == typed_decls[d as int]);
        let ghost bms = binding_models(program.decls@[d as int].1@);
        let ghost cz = cx;
        proof {
            if first_order_accepted(*program, policy) {
                assert forall|j: int| 0 <= j < bindings@.len() implies resolves_ground((#[trigger] bindings@[j]).expr, cx.table) by {
                    assert(bindings@[j] == typed_decls[d as int].1@[j]);
                }
            }
        }
        let zb = cx.zonk_bindings(bindings, &dead, Ghost(bms))?;
        proof {
            if first_order_accepted(*program, policy) {
                assert forall|x: int, j: int| 0 <= x < typed_decls.len() && 0 <= j < typed_decls[x].1@.len()
                    implies resolves_ground((#[trigger] typed_decls[x].1@[j]).expr, cx.table) by {
                    lemma_rg_res_eq(typed_decls[x].1@[j].expr, cz.table, cx.table);
                }
            }
        }
        zonked.push((recursive, zb));
        d = d + 1;
    }

    let mut adts: std::collections::HashMap<String, AdtInfo> = std::collections::HashMap::new();
    let mut left = declared;
    while left.len() > 0
        decreases left@.len(),
    {
        let (name, info) = left.remove(0);
        adts.insert(name, info);
    }
    let mut table: std::collections::HashMap<String, CtorInfo> = std::collections::HashMap::new();
    let mut rows_left = cx.ctors;
    while rows_left.len() > 0
        decreases rows_left@.len(),
    {
        let (name, info) = rows_left.remove(0);
        table.insert(name, info);
    }
    let tp = TypedProgram { adts, ctors: table, decls: zonked };
    proof {
        let pm = crate::ml::ast::program_model(*program);
        assert(pm.0 == typedef_models(program.typedefs@));
        assert(rows == ctor_table_spec(declare_spec(typedef_models(program.typedefs@))->Ok_0));
        assert forall|x: int| 0 <= x < pm.1.len() implies #[trigger] pm.1[x] == (program.decls@[x].0, binding_models(program.decls@[x].1@)) by {}
    }
    Ok(tp)
}

} // verus!
