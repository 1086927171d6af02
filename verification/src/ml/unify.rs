//! The unification engine under ml_core inference: ena's union-find
//! over type variables, with resolution, the occurs check and
//! unification built on it.

use vstd::prelude::*;
use ena::unify::{EqUnifyValue, InPlaceUnificationTable, UnifyKey};
use crate::types::{Ty, TyModel, TyVid, ty_text};
use crate::harness::canon::{decimal_digits, digits_of};
use crate::ml::infer::TypeError;
use crate::text::{chars_of, push_str, str_eq, string_of};

verus! {

impl UnifyKey for TyVid {
    type Value = Option<Ty>;

    fn index(&self) -> u32 {
        self.0
    }

    fn from_index(u: u32) -> Self {
        TyVid(u)
    }

    fn tag() -> &'static str {
        "TyVid"
    }
}

impl Clone for Ty {
    fn clone(&self) -> (c: Self)
        ensures
            c@ == self@,
    {
        self.duplicate()
    }
}

impl EqUnifyValue for Ty {}

/// ena's in-place table over type variables; a variable's value is the
/// type it is bound to, if any.
#[verifier::external_body]
pub struct Unifier {
    table: InPlaceUnificationTable<TyVid>,
}

/// For each variable, the root of its class: what `find` answers.
pub uninterp spec fn uf_roots(u: Unifier) -> Seq<nat>;

/// For each variable, the value it holds; the value of a class is the
/// one at its root.
pub uninterp spec fn uf_values(u: Unifier) -> Seq<Option<TyModel>>;

pub open spec fn opt_model(v: Option<Ty>) -> Option<TyModel> {
    match v {
        Some(t) => Some(t@),
        None => None,
    }
}

/// `InPlaceUnificationTable::new`: an empty table.
#[verifier::external_body]
fn uf_new() -> (u: Unifier)
    ensures
        uf_roots(u) == Seq::<nat>::empty(),
        uf_values(u) == Seq::<Option<TyModel>>::empty(),
{
    Unifier { table: InPlaceUnificationTable::new() }
}

/// `len`: the number of variables created so far.
#[verifier::external_body]
fn uf_len(u: &Unifier) -> (n: usize)
    ensures
        n == uf_roots(*u).len(),
{
    u.table.len()
}

/// `new_key(None)`: a fresh unbound variable, the root of its own
/// class, numbered by the table's length.
#[verifier::external_body]
fn uf_new_key(u: &mut Unifier) -> (k: TyVid)
    requires
        uf_roots(*old(u)).len() <= u32::MAX,
    ensures
        k.0 == uf_roots(*old(u)).len(),
        uf_roots(*final(u)) == uf_roots(*old(u)).push(k.0 as nat),
        uf_values(*final(u)) == uf_values(*old(u)).push(None),
{
    u.table.new_key(None)
}

/// `find`: the root of `k`'s class. Path compression changes no answer.
#[verifier::external_body]
fn uf_find(u: &mut Unifier, k: TyVid) -> (r: TyVid)
    requires
        k.0 < uf_roots(*old(u)).len(),
    ensures
        r.0 == uf_roots(*old(u))[k.0 as int],
        uf_roots(*final(u)) == uf_roots(*old(u)),
        uf_values(*final(u)) == uf_values(*old(u)),
{
    u.table.find(k)
}

/// `probe_value`: the value held at the root of `k`'s class.
#[verifier::external_body]
fn uf_probe(u: &mut Unifier, k: TyVid) -> (v: Option<Ty>)
    requires
        k.0 < uf_roots(*old(u)).len(),
    ensures
        opt_model(v) == uf_values(*old(u))[uf_roots(*old(u))[k.0 as int] as int],
        uf_roots(*final(u)) == uf_roots(*old(u)),
        uf_values(*final(u)) == uf_values(*old(u)),
{
    u.table.probe_value(k)
}

/// The roots after the classes rooted at `a` and `b` merge under `z`.
pub open spec fn merged(roots: Seq<nat>, a: nat, b: nat, z: nat) -> Seq<nat> {
    Seq::new(roots.len(), |i: int| if roots[i] == a || roots[i] == b { z } else { roots[i] })
}

/// `unify_var_var` on two distinct unbound roots: merging two absent
/// values succeeds with an absent value, and one of the two becomes the
/// root of the merged class (which one, the table's ranks decide).
#[verifier::external_body]
fn uf_union(u: &mut Unifier, a: TyVid, b: TyVid)
    requires
        a.0 < uf_roots(*old(u)).len(),
        b.0 < uf_roots(*old(u)).len(),
        a.0 != b.0,
        uf_roots(*old(u))[a.0 as int] == a.0,
        uf_roots(*old(u))[b.0 as int] == b.0,
        uf_values(*old(u))[a.0 as int] is None,
        uf_values(*old(u))[b.0 as int] is None,
    ensures
        uf_values(*final(u)) == uf_values(*old(u)),
        uf_roots(*final(u))[a.0 as int] == a.0 || uf_roots(*final(u))[a.0 as int] == b.0,
        uf_roots(*final(u)) == merged(uf_roots(*old(u)), a.0 as nat, b.0 as nat, uf_roots(*final(u))[a.0 as int]),
{
    let _ = u.table.unify_var_var(a, b);
}

/// `unify_var_value(a, Some(t))` on an unbound root: merging an absent
/// value with `Some(t)` succeeds, and the root now holds `t`.
#[verifier::external_body]
fn uf_bind(u: &mut Unifier, a: TyVid, t: Ty)
    requires
        a.0 < uf_roots(*old(u)).len(),
        uf_roots(*old(u))[a.0 as int] == a.0,
        uf_values(*old(u))[a.0 as int] is None,
    ensures
        uf_roots(*final(u)) == uf_roots(*old(u)),
        uf_values(*final(u)) == uf_values(*old(u)).update(a.0 as int, Some(t@)),
{
    let _ = u.table.unify_var_value(a, Some(t));
}

} // verus!

verus! {

/// Every variable of `t` is below `n`.
pub open spec fn vars_below(t: TyModel, n: nat) -> bool
    decreases t,
{
    match t {
        TyModel::Var(v) => v < n,
        TyModel::Tuple(items) => forall|i: int| 0 <= i < items.len() ==> vars_below(#[trigger] items[i], n),
        TyModel::Fun(a, b) => vars_below(*a, n) && vars_below(*b, n),
        _ => true,
    }
}

/// Every variable of `t` sits in a class of rank at most `h`.
pub open spec fn ranks_bounded(t: TyModel, roots: Seq<nat>, rank: Seq<nat>, h: nat) -> bool
    decreases t,
{
    match t {
        TyModel::Var(v) => rank[roots[v as int] as int] <= h,
        TyModel::Tuple(items) => forall|i: int| 0 <= i < items.len() ==> ranks_bounded(#[trigger] items[i], roots, rank, h),
        TyModel::Fun(a, b) => ranks_bounded(*a, roots, rank, h) && ranks_bounded(*b, roots, rank, h),
        _ => true,
    }
}

/// Every variable of `t` is the root of an unbound class: resolving `t`
/// further changes nothing.
pub open spec fn resolved(t: TyModel, roots: Seq<nat>, vals: Seq<Option<TyModel>>) -> bool
    decreases t,
{
    match t {
        TyModel::Var(v) => roots[v as int] == v && vals[v as int] is None,
        TyModel::Tuple(items) => forall|i: int| 0 <= i < items.len() ==> resolved(#[trigger] items[i], roots, vals),
        TyModel::Fun(a, b) => resolved(*a, roots, vals) && resolved(*b, roots, vals),
        _ => true,
    }
}

/// Variable `v` occurs in `t`.
pub open spec fn occurs_in(v: nat, t: TyModel) -> bool
    decreases t,
{
    match t {
        TyModel::Var(w) => w == v,
        TyModel::Tuple(items) => exists|i: int| 0 <= i < items.len() && occurs_in(v, #[trigger] items[i]),
        TyModel::Fun(a, b) => occurs_in(v, *a) || occurs_in(v, *b),
        _ => false,
    }
}

/// The union-find is well formed and acyclic: roots are their own roots,
/// an unbound class has rank 0, and a bound class holds a type whose
/// variables all sit in classes of lower rank. The ranks are bounded by
/// `top`.
pub open spec fn uf_ok(roots: Seq<nat>, vals: Seq<Option<TyModel>>, rank: Seq<nat>, top: nat) -> bool {
    let n = roots.len();
    &&& vals.len() == n
    &&& rank.len() == n
    &&& forall|i: int| 0 <= i < n ==> (#[trigger] roots[i]) < n
    &&& forall|i: int| 0 <= i < n ==> roots[(#[trigger] roots[i]) as int] == roots[i]
    &&& forall|i: int| 0 <= i < n ==> (#[trigger] rank[i]) <= top
    &&& forall|r: int| 0 <= r < n && roots[r] == r ==> match #[trigger] vals[r] {
            None => rank[r] == 0,
            Some(t) => rank[r] >= 1 && vars_below(t, n) && ranks_bounded(t, roots, rank, (rank[r] - 1) as nat),
        }
}

proof fn lemma_ranks_top(t: TyModel, roots: Seq<nat>, rank: Seq<nat>, top: nat)
    requires
        vars_below(t, roots.len()),
        rank.len() == roots.len(),
        forall|i: int| 0 <= i < roots.len() ==> (#[trigger] roots[i]) < roots.len(),
        forall|i: int| 0 <= i < rank.len() ==> (#[trigger] rank[i]) <= top,
    ensures
        ranks_bounded(t, roots, rank, top),
    decreases t,
{
    match t {
        TyModel::Var(v) => {
            assert(roots[v as int] < roots.len());
        },
        TyModel::Tuple(items) => {
            assert forall|i: int| 0 <= i < items.len() implies ranks_bounded(#[trigger] items[i], roots, rank, top) by {
                lemma_ranks_top(items[i], roots, rank, top);
            }
        },
        TyModel::Fun(a, b) => {
            lemma_ranks_top(*a, roots, rank, top);
            lemma_ranks_top(*b, roots, rank, top);
        },
        _ => {},
    }
}

} // verus!

verus! {

proof fn lemma_ranks_mono(t: TyModel, roots: Seq<nat>, rank: Seq<nat>, h1: nat, h2: nat)
    requires
        ranks_bounded(t, roots, rank, h1),
        h1 <= h2,
    ensures
        ranks_bounded(t, roots, rank, h2),
    decreases t,
{
    match t {
        TyModel::Tuple(items) => {
            assert forall|i: int| 0 <= i < items.len() implies ranks_bounded(#[trigger] items[i], roots, rank, h2) by {
                lemma_ranks_mono(items[i], roots, rank, h1, h2);
            }
        },
        TyModel::Fun(a, b) => {
            lemma_ranks_mono(*a, roots, rank, h1, h2);
            lemma_ranks_mono(*b, roots, rank, h1, h2);
        },
        _ => {},
    }
}

proof fn lemma_tuple_parts(t: TyModel, roots: Seq<nat>, vals: Seq<Option<TyModel>>, rank: Seq<nat>, h: nat)
    requires
        t is Tuple,
    ensures
        vars_below(t, roots.len()) ==> forall|i: int| 0 <= i < t->Tuple_0.len() ==> vars_below(#[trigger] t->Tuple_0[i], roots.len()),
        ranks_bounded(t, roots, rank, h) ==> forall|i: int| 0 <= i < t->Tuple_0.len() ==> ranks_bounded(#[trigger] t->Tuple_0[i], roots, rank, h),
        resolved(t, roots, vals) ==> forall|i: int| 0 <= i < t->Tuple_0.len() ==> resolved(#[trigger] t->Tuple_0[i], roots, vals),
{
}

/// The type variables of one inference run: ena's table, and the ranks
/// that witness it is acyclic.
pub struct TypeTable {
    table: Unifier,
    rank: Ghost<Seq<nat>>,
    top: Ghost<nat>,
}

impl TypeTable {
    pub closed spec fn roots(&self) -> Seq<nat> {
        uf_roots(self.table)
    }

    pub closed spec fn vals(&self) -> Seq<Option<TyModel>> {
        uf_values(self.table)
    }

    pub open spec fn len(&self) -> nat {
        self.roots().len()
    }

    pub closed spec fn wf(&self) -> bool {
        &&& uf_ok(self.roots(), self.vals(), self.rank@, self.top@)
        &&& self.roots().len() <= u32::MAX + 1
    }

    /// What `t` resolves to through the table: every variable becomes
    /// what its class is bound to, resolved in turn, or its class's root.
    pub closed spec fn resolution(&self, t: TyModel) -> TyModel {
        deep(t, self.roots(), self.vals(), self.top@ + 1)
    }

    /// Every two types that resolve alike here resolve alike in `later`.
    pub open spec fn refines(&self, later: &TypeTable) -> bool {
        forall|s: TyModel, t: TyModel|
            vars_below(s, self.len()) && vars_below(t, self.len()) && self.resolution(s) == self.resolution(t)
                ==> #[trigger] later.resolution(s) == #[trigger] later.resolution(t)
    }

    /// The same classes, bindings and ranks.
    pub closed spec fn same(&self, other: &TypeTable) -> bool {
        &&& self.roots() == other.roots()
        &&& self.vals() == other.vals()
        &&& self.rank@ == other.rank@
        &&& self.top@ == other.top@
    }

    pub fn new() -> (t: TypeTable)
        ensures
            t.wf(),
            t.len() == 0,
    {
        TypeTable { table: uf_new(), rank: Ghost(Seq::empty()), top: Ghost(0) }
    }

    /// Resolves `ty` through the bindings: every variable is replaced by
    /// what its class is bound to, recursively, or by its class's root.
    pub fn resolve(&mut self, ty: &Ty) -> (r: Ty)
        requires
            old(self).wf(),
            vars_below(ty@, old(self).len()),
        ensures
            final(self).wf(),
            final(self).same(old(self)),
            final(self).len() == old(self).len(),
            resolved(r@, old(self).roots(), old(self).vals()),
            vars_below(r@, old(self).len()),
            resolved(ty@, old(self).roots(), old(self).vals()) ==> r@ == ty@,
            r@ == old(self).resolution(ty@),
    {
        proof {
            lemma_ranks_top(ty@, self.roots(), self.rank@, self.top@);
        }
        self.resolve_h(ty, Ghost(self.top@))
    }

    fn resolve_h(&mut self, ty: &Ty, Ghost(h): Ghost<nat>) -> (r: Ty)
        requires
            old(self).wf(),
            vars_below(ty@, old(self).len()),
            ranks_bounded(ty@, old(self).roots(), old(self).rank@, h),
        ensures
            final(self).wf(),
            final(self).same(old(self)),
            resolved(r@, old(self).roots(), old(self).vals()),
            vars_below(r@, old(self).len()),
            resolved(ty@, old(self).roots(), old(self).vals()) ==> r@ == ty@,
            r@ == deep(ty@, old(self).roots(), old(self).vals(), h + 1),
        decreases h, ty, 0int,
    {
        let ghost roots = self.roots();
        let ghost vals = self.vals();
        let ghost rank = self.rank@;
        match ty {
            Ty::Var(vid) => {
                let root = uf_find(&mut self.table, *vid);
                let probed = uf_probe(&mut self.table, root);
                match probed {
                    Some(bound) => {
                        let ghost rt = root.0 as int;
                        assert(roots[rt] == rt);
                        assert(vals[rt] == Some(bound@));
                        assert(rank[rt] >= 1 && rank[rt] <= h);
                        proof {
                            lemma_ranks_mono(bound@, roots, rank, (rank[rt] - 1) as nat, (h - 1) as nat);
                        }
                        self.resolve_h(&bound, Ghost((h - 1) as nat))
                    },
                    None => Ty::Var(root),
                }
            },
            Ty::Tuple(items) => {
                let ghost ms = crate::types::ty_models(items@);
                assert(ty@ == TyModel::Tuple(ms));
                assert forall|i: int| 0 <= i < items@.len() implies #[trigger] items@[i]@ == ms[i] by {}
                proof {
                    lemma_tuple_parts(ty@, roots, vals, rank, h);
                }
                assert forall|i: int| 0 <= i < items@.len() implies vars_below(#[trigger] items@[i]@, roots.len()) by {
                    assert(vars_below(ms[i], roots.len()));
                }
                assert forall|i: int| 0 <= i < items@.len() implies ranks_bounded(#[trigger] items@[i]@, roots, rank, h) by {
                    assert(ranks_bounded(ms[i], roots, rank, h));
                }
                let out = self.resolve_all_h(items, Ghost(h));
                let r = Ty::Tuple(out);
                proof {
                    let os = crate::types::ty_models(out@);
                    assert(r@ == TyModel::Tuple(os));
                    assert forall|i: int| 0 <= i < os.len() implies resolved(#[trigger] os[i], roots, vals) by {
                        assert(os[i] == out@[i]@);
                    }
                    assert forall|i: int| 0 <= i < os.len() implies vars_below(#[trigger] os[i], roots.len()) by {
                        assert(os[i] == out@[i]@);
                    }
                    if resolved(ty@, roots, vals) {
                        assert forall|i: int| 0 <= i < os.len() implies #[trigger] os[i] == ms[i] by {
                            assert(os[i] == out@[i]@);
                            assert(resolved(ms[i], roots, vals));
                        }
                        assert(os =~= ms);
                    }
                    let d = deep(ty@, roots, vals, h + 1)->Tuple_0;
                    assert(d.len() == os.len());
                    assert forall|i: int| 0 <= i < os.len() implies #[trigger] os[i] == d[i] by {
                        assert(os[i] == out@[i]@);
                        assert(items@[i]@ == ms[i]);
                    }
                    assert(os =~= d);
                }
                r
            },
            Ty::Fun(a, b) => {
                let ra = self.resolve_h(a, Ghost(h));
                let rb = self.resolve_h(b, Ghost(h));
                Ty::Fun(Box::new(ra), Box::new(rb))
            },
            other => other.duplicate(),
        }
    }

    fn resolve_all_h(&mut self, items: &Vec<Ty>, Ghost(h): Ghost<nat>) -> (out: Vec<Ty>)
        requires
            old(self).wf(),
            forall|i: int| 0 <= i < items@.len() ==> vars_below(#[trigger] items@[i]@, old(self).len()),
            forall|i: int| 0 <= i < items@.len() ==> ranks_bounded(#[trigger] items@[i]@, old(self).roots(), old(self).rank@, h),
        ensures
            final(self).wf(),
            final(self).same(old(self)),
            out@.len() == items@.len(),
            forall|i: int| 0 <= i < out@.len() ==> resolved(#[trigger] out@[i]@, old(self).roots(), old(self).vals()),
            forall|i: int| 0 <= i < out@.len() ==> vars_below(#[trigger] out@[i]@, old(self).len()),
            forall|i: int| 0 <= i < out@.len() ==> (resolved(items@[i]@, old(self).roots(), old(self).vals())
                ==> #[trigger] out@[i]@ == items@[i]@),
            forall|i: int| 0 <= i < out@.len() ==> #[trigger] out@[i]@ == deep(items@[i]@, old(self).roots(), old(self).vals(), h + 1),
        decreases h, items, 1int,
    {
        let ghost start = *self;
        let mut out: Vec<Ty> = Vec::new();
        let mut k: usize = 0;
        while k < items.len()
            invariant
                k <= items@.len(),
                self.wf(),
                self.same(&start),
                start.wf(),
                forall|i: int| 0 <= i < items@.len() ==> vars_below(#[trigger] items@[i]@, start.len()),
                forall|i: int| 0 <= i < items@.len() ==> ranks_bounded(#[trigger] items@[i]@, start.roots(), start.rank@, h),
                out@.len() == k,
                forall|i: int| 0 <= i < k ==> resolved(#[trigger] out@[i]@, start.roots(), start.vals()),
                forall|i: int| 0 <= i < k ==> vars_below(#[trigger] out@[i]@, start.len()),
                forall|i: int| 0 <= i < k ==> (resolved(items@[i]@, start.roots(), start.vals())
                    ==> #[trigger] out@[i]@ == items@[i]@),
                forall|i: int| 0 <= i < k ==> #[trigger] out@[i]@ == deep(items@[i]@, start.roots(), start.vals(), h + 1),
            decreases items@.len() - k,
        {
            let r = self.resolve_h(&items[k], Ghost(h));
            out.push(r);
            k = k + 1;
        }
        out
    }
}

} // verus!

verus! {

/// The number of unbound classes among the first `k` variables.
pub open spec fn unbound_count(roots: Seq<nat>, vals: Seq<Option<TyModel>>, k: int) -> nat
    decreases k,
{
    if k <= 0 {
        0
    } else {
        unbound_count(roots, vals, k - 1) + (if roots[k - 1] == k - 1 && vals[k - 1] is None { 1nat } else { 0nat })
    }
}

proof fn lemma_count_bind(roots: Seq<nat>, vals: Seq<Option<TyModel>>, x: int, t: TyModel, k: int)
    requires
        0 <= x < vals.len(),
        roots[x] == x,
        vals[x] is None,
        k <= vals.len(),
    ensures
        unbound_count(roots, vals.update(x, Some(t)), k) + (if k > x { 1nat } else { 0nat }) == unbound_count(roots, vals, k),
    decreases k,
{
    if k > 0 {
        lemma_count_bind(roots, vals, x, t, k - 1);
    }
}

proof fn lemma_count_merge(roots: Seq<nat>, vals: Seq<Option<TyModel>>, a: nat, b: nat, z: nat, k: int)
    requires
        uf_ok_shape(roots),
        vals.len() == roots.len(),
        a < roots.len(),
        b < roots.len(),
        a != b,
        roots[a as int] == a,
        roots[b as int] == b,
        vals[a as int] is None,
        vals[b as int] is None,
        z == a || z == b,
        k <= roots.len(),
    ensures
        unbound_count(merged(roots, a, b, z), vals, k) + (if k > (if z == a { b } else { a }) { 1nat } else { 0nat })
            == unbound_count(roots, vals, k),
    decreases k,
{
    if k > 0 {
        lemma_count_merge(roots, vals, a, b, z, k - 1);
        let i = k - 1;
        let m = merged(roots, a, b, z);
        if roots[i] == a || roots[i] == b {
            assert(m[i] == z);
        } else {
            assert(m[i] == roots[i]);
        }
    }
}

/// Roots are in range and are their own roots.
pub open spec fn uf_ok_shape(roots: Seq<nat>) -> bool {
    &&& forall|i: int| 0 <= i < roots.len() ==> (#[trigger] roots[i]) < roots.len()
    &&& forall|i: int| 0 <= i < roots.len() ==> roots[(#[trigger] roots[i]) as int] == roots[i]
}

pub proof fn lemma_vars_below_mono(t: TyModel, n: nat, m: nat)
    requires
        vars_below(t, n),
        n <= m,
    ensures
        vars_below(t, m),
    decreases t,
{
    match t {
        TyModel::Tuple(items) => {
            assert forall|i: int| 0 <= i < items.len() implies vars_below(#[trigger] items[i], m) by {
                lemma_vars_below_mono(items[i], n, m);
            }
        },
        TyModel::Fun(a, b) => {
            lemma_vars_below_mono(*a, n, m);
            lemma_vars_below_mono(*b, n, m);
        },
        _ => {},
    }
}

/// Rank bounds carry over to new classes and ranks that exceed the old
/// ones at each variable's class by at most `d`.
proof fn lemma_ranks_shift(t: TyModel, r1: Seq<nat>, k1: Seq<nat>, r2: Seq<nat>, k2: Seq<nat>, n: nat, h: nat, d: nat)
    requires
        vars_below(t, n),
        ranks_bounded(t, r1, k1, h),
        forall|v: int| 0 <= v < n ==> #[trigger] k2[r2[v] as int] <= k1[r1[v] as int] + d,
    ensures
        ranks_bounded(t, r2, k2, h + d),
    decreases t,
{
    match t {
        TyModel::Var(v) => {
            assert(k2[r2[v as int] as int] <= k1[r1[v as int] as int] + d);
        },
        TyModel::Tuple(items) => {
            assert forall|i: int| 0 <= i < items.len() implies ranks_bounded(#[trigger] items[i], r2, k2, h + d) by {
                lemma_ranks_shift(items[i], r1, k1, r2, k2, n, h, d);
            }
        },
        TyModel::Fun(a, b) => {
            lemma_ranks_shift(*a, r1, k1, r2, k2, n, h, d);
            lemma_ranks_shift(*b, r1, k1, r2, k2, n, h, d);
        },
        _ => {},
    }
}

/// A resolved type avoiding `x` has all its variables in classes of
/// rank 0 once every unbound root other than `x` has rank 0.
proof fn lemma_ranks_fresh_binding(t: TyModel, roots: Seq<nat>, vals: Seq<Option<TyModel>>, k2: Seq<nat>, x: nat, n: nat)
    requires
        vars_below(t, n),
        resolved(t, roots, vals),
        !occurs_in(x, t),
        forall|v: int| 0 <= v < n && roots[v] == v && vals[v] is None && v != x ==> #[trigger] k2[v] == 0,
    ensures
        ranks_bounded(t, roots, k2, 0),
    decreases t,
{
    match t {
        TyModel::Var(v) => {
            assert(k2[v as int] == 0);
        },
        TyModel::Tuple(items) => {
            assert forall|i: int| 0 <= i < items.len() implies ranks_bounded(#[trigger] items[i], roots, k2, 0) by {
                if occurs_in(x, items[i]) {
                    assert(occurs_in(x, t));
                }
                lemma_ranks_fresh_binding(items[i], roots, vals, k2, x, n);
            }
        },
        TyModel::Fun(a, b) => {
            lemma_ranks_fresh_binding(*a, roots, vals, k2, x, n);
            lemma_ranks_fresh_binding(*b, roots, vals, k2, x, n);
        },
        _ => {},
    }
}

proof fn lemma_resolved_push(t: TyModel, roots: Seq<nat>, vals: Seq<Option<TyModel>>, n: nat)
    requires
        vars_below(t, roots.len()),
        resolved(t, roots, vals),
        n == roots.len(),
        vals.len() == roots.len(),
    ensures
        resolved(t, roots.push(n), vals.push(None)),
    decreases t,
{
    match t {
        TyModel::Tuple(items) => {
            let r2 = roots.push(n);
            let v2 = vals.push(None);
            assert forall|i: int| 0 <= i < items.len() implies resolved(#[trigger] items[i], r2, v2) by {
                lemma_resolved_push(items[i], roots, vals, n);
            }
            assert(resolved(TyModel::Tuple(items), r2, v2));
        },
        TyModel::Fun(a, b) => {
            lemma_resolved_push(*a, roots, vals, n);
            lemma_resolved_push(*b, roots, vals, n);
        },
        TyModel::Var(v) => {
            assert(roots.push(n)[v as int] == roots[v as int]);
            assert(vals.push(None)[v as int] == vals[v as int]);
        },
        _ => {},
    }
}

} // verus!

verus! {

proof fn lemma_ok_push(roots: Seq<nat>, vals: Seq<Option<TyModel>>, rank: Seq<nat>, top: nat)
    requires
        uf_ok(roots, vals, rank, top),
    ensures
        uf_ok(roots.push(roots.len()), vals.push(None), rank.push(0), top),
{
    let n = roots.len();
    let r2 = roots.push(n);
    let v2 = vals.push(None);
    let k2 = rank.push(0);
    assert forall|i: int| 0 <= i < n + 1 implies (#[trigger] r2[i]) < n + 1 by {
        if i < n { assert(r2[i] == roots[i]); }
    }
    assert forall|i: int| 0 <= i < n + 1 implies r2[(#[trigger] r2[i]) as int] == r2[i] by {
        if i < n { assert(r2[i] == roots[i]); assert(roots[i] < n); }
    }
    assert forall|i: int| 0 <= i < n + 1 implies (#[trigger] k2[i]) <= top by {
        if i < n { assert(k2[i] == rank[i]); }
    }
    assert forall|v: int| 0 <= v < n implies #[trigger] k2[r2[v] as int] <= rank[roots[v] as int] + 0 by {
        assert(r2[v] == roots[v]);
        assert(roots[v] < n);
    }
    assert forall|r: int| 0 <= r < n + 1 && r2[r] == r implies match #[trigger] v2[r] {
        None => k2[r] == 0,
        Some(t) => k2[r] >= 1 && vars_below(t, n + 1) && ranks_bounded(t, r2, k2, (k2[r] - 1) as nat),
    } by {
        if r < n {
            assert(r2[r] == roots[r] && v2[r] == vals[r] && k2[r] == rank[r]);
            match vals[r] {
                None => {},
                Some(t) => {
                    lemma_vars_below_mono(t, n, n + 1);
                    lemma_ranks_shift(t, roots, rank, r2, k2, n, (rank[r] - 1) as nat, 0);
                },
            }
        }
    }
}

/// The ranks after binding the unbound root `x`: every bound class
/// rises by one, `x` takes rank 1, and unbound classes stay at 0.
pub open spec fn ranks_after_bind(roots: Seq<nat>, vals: Seq<Option<TyModel>>, rank: Seq<nat>, x: int) -> Seq<nat> {
    Seq::new(rank.len(), |i: int| if roots[i] == i && vals[i] is Some { rank[i] + 1 } else if i == x { 1 } else { 0 })
}

proof fn lemma_ok_bind(roots: Seq<nat>, vals: Seq<Option<TyModel>>, rank: Seq<nat>, top: nat, x: int, t: TyModel)
    requires
        uf_ok(roots, vals, rank, top),
        0 <= x < roots.len(),
        roots[x] == x,
        vals[x] is None,
        vars_below(t, roots.len()),
        resolved(t, roots, vals),
        !occurs_in(x as nat, t),
    ensures
        uf_ok(roots, vals.update(x, Some(t)), ranks_after_bind(roots, vals, rank, x), top + 1),
{
    let n = roots.len();
    let v2 = vals.update(x, Some(t));
    let k2 = ranks_after_bind(roots, vals, rank, x);
    assert forall|i: int| 0 <= i < n implies (#[trigger] k2[i]) <= top + 1 by {
        assert(rank[i] <= top);
    }
    assert forall|v: int| 0 <= v < n implies #[trigger] k2[roots[v] as int] <= rank[roots[v] as int] + 1 by {
        let p = roots[v] as int;
        assert(roots[v] < n);
        assert(roots[p] == p);
        if vals[p] is None {
            assert(rank[p] == 0);
        }
    }
    assert forall|v: int| 0 <= v < n && roots[v] == v && vals[v] is None && v != x implies #[trigger] k2[v] == 0 by {}
    assert forall|r: int| 0 <= r < n && roots[r] == r implies match #[trigger] v2[r] {
        None => k2[r] == 0,
        Some(s) => k2[r] >= 1 && vars_below(s, n) && ranks_bounded(s, roots, k2, (k2[r] - 1) as nat),
    } by {
        if r == x {
            lemma_ranks_fresh_binding(t, roots, vals, k2, x as nat, n);
        } else {
            assert(v2[r] == vals[r]);
            match vals[r] {
                None => {},
                Some(s) => {
                    lemma_ranks_shift(s, roots, rank, roots, k2, n, (rank[r] - 1) as nat, 1);
                },
            }
        }
    }
}

proof fn lemma_ok_merge(roots: Seq<nat>, vals: Seq<Option<TyModel>>, rank: Seq<nat>, top: nat, a: nat, b: nat, z: nat)
    requires
        uf_ok(roots, vals, rank, top),
        a < roots.len(),
        b < roots.len(),
        a != b,
        roots[a as int] == a,
        roots[b as int] == b,
        vals[a as int] is None,
        vals[b as int] is None,
        z == a || z == b,
    ensures
        uf_ok(merged(roots, a, b, z), vals, rank, top),
{
    let n = roots.len();
    let m = merged(roots, a, b, z);
    assert(m[z as int] == z);
    assert forall|i: int| 0 <= i < n implies (#[trigger] m[i]) < n by {
        assert(roots[i] < n);
    }
    assert forall|i: int| 0 <= i < n implies m[(#[trigger] m[i]) as int] == m[i] by {
        assert(roots[i] < n);
        let p = roots[i] as int;
        assert(roots[p] == p);
    }
    assert forall|v: int| 0 <= v < n implies #[trigger] rank[m[v] as int] <= rank[roots[v] as int] + 0 by {
        assert(roots[v] < n);
        if roots[v] == a || roots[v] == b {
            assert(rank[a as int] == 0 && rank[b as int] == 0);
        }
    }
    assert forall|r: int| 0 <= r < n && m[r] == r implies match #[trigger] vals[r] {
        None => rank[r] == 0,
        Some(s) => rank[r] >= 1 && vars_below(s, n) && ranks_bounded(s, m, rank, (rank[r] - 1) as nat),
    } by {
        if roots[r] == a || roots[r] == b {
            assert(r == z);
        } else {
            assert(roots[r] == r);
            match vals[r] {
                None => {},
                Some(s) => {
                    lemma_ranks_shift(s, roots, rank, m, rank, n, (rank[r] - 1) as nat, 0);
                },
            }
        }
    }
}

} // verus!

verus! {

proof fn lemma_occurs_tuple(v: nat, t: TyModel)
    requires
        t is Tuple,
    ensures
        occurs_in(v, t) == exists|i: int| 0 <= i < t->Tuple_0.len() && occurs_in(v, #[trigger] t->Tuple_0[i]),
{
}

/// Whether variable `v` occurs in one of `items`.
fn occurs_items(v: TyVid, items: &Vec<Ty>) -> (b: bool)
    ensures
        b == exists|i: int| 0 <= i < items@.len() && occurs_in(v.0 as nat, #[trigger] items@[i]@),
    decreases items, 1int,
{
    let mut k: usize = 0;
    while k < items.len()
        invariant
            k <= items@.len(),
            forall|i: int| 0 <= i < k ==> !occurs_in(v.0 as nat, #[trigger] items@[i]@),
        decreases items@.len() - k,
    {
        if occurs_ty(v, &items[k]) {
            return true;
        }
        k = k + 1;
    }
    false
}

/// Whether variable `v` occurs in `t`.
fn occurs_ty(v: TyVid, t: &Ty) -> (b: bool)
    ensures
        b == occurs_in(v.0 as nat, t@),
    decreases t, 0int,
{
    match t {
        Ty::Var(w) => w.0 == v.0,
        Ty::Tuple(items) => {
            let b = occurs_items(v, items);
            proof {
                let ms = crate::types::ty_models(items@);
                lemma_occurs_tuple(v.0 as nat, t@);
                assert(t@->Tuple_0 == ms);
                assert forall|i: int| 0 <= i < items@.len() implies #[trigger] items@[i]@ == ms[i] by {}
                if b {
                    let i = choose|i: int| 0 <= i < items@.len() && occurs_in(v.0 as nat, #[trigger] items@[i]@);
                    assert(occurs_in(v.0 as nat, ms[i]));
                } else {
                    assert forall|i: int| 0 <= i < ms.len() implies !occurs_in(v.0 as nat, #[trigger] ms[i]) by {
                        assert(ms[i] == items@[i]@);
                    }
                }
            }
            b
        },
        Ty::Fun(a, r) => occurs_ty(v, a) || occurs_ty(v, r),
        _ => false,
    }
}

impl TypeTable {
    /// The number of unbound classes.
    pub closed spec fn count(&self) -> nat {
        unbound_count(self.roots(), self.vals(), self.len() as int)
    }

    /// A fresh unbound variable, or `None` once the variables outnumber
    /// what a `u32` index can name.
    pub fn fresh(&mut self) -> (r: Option<TyVid>)
        requires
            old(self).wf(),
        ensures
            final(self).wf(),
            match r {
                Some(k) => k.0 == old(self).len() && final(self).len() == old(self).len() + 1
                    && final(self).resolution(TyModel::Var(k.0)) == TyModel::Var(k.0),
                None => final(self).same(old(self)) && final(self).len() == old(self).len()
                    && old(self).len() > u32::MAX,
            },
            forall|u: TyModel| vars_below(u, old(self).len()) ==> #[trigger] final(self).resolution(u) == old(self).resolution(u),
            old(self).refines(&*final(self)),
    {
        let ghost before = *self;
        let n = uf_len(&self.table);
        if n > u32::MAX as usize {
            proof {
                lemma_refines_same(before, *self);
            }
            return None;
        }
        let ghost roots = self.roots();
        let ghost vals = self.vals();
        let ghost rank = self.rank@;
        proof {
            lemma_ok_push(roots, vals, rank, self.top@);
        }
        let k = uf_new_key(&mut self.table);
        self.rank = Ghost(rank.push(0));
        proof {
            assert forall|u: TyModel| vars_below(u, roots.len()) implies #[trigger] self.resolution(u) == before.resolution(u) by {
                lemma_deep_push(u, roots, vals, rank, self.top@, self.top@ + 1);
            }
            assert(self.roots()[k.0 as int] == k.0);
            assert(self.vals()[k.0 as int] is None);
        }
        Some(k)
    }

    /// Binds the unbound root `x` to the resolved `t`, which avoids `x`.
    fn bind(&mut self, x: TyVid, t: Ty)
        requires
            old(self).wf(),
            x.0 < old(self).len(),
            old(self).roots()[x.0 as int] == x.0,
            old(self).vals()[x.0 as int] is None,
            vars_below(t@, old(self).len()),
            resolved(t@, old(self).roots(), old(self).vals()),
            !occurs_in(x.0 as nat, t@),
        ensures
            final(self).wf(),
            final(self).len() == old(self).len(),
            final(self).count() + 1 == old(self).count(),
            forall|u: TyModel| vars_below(u, old(self).len())
                ==> #[trigger] final(self).resolution(u) == subst(old(self).resolution(u), x.0 as nat, t@),
            old(self).refines(&*final(self)),
    {
        let ghost roots = self.roots();
        let ghost vals = self.vals();
        let ghost rank = self.rank@;
        let ghost top = self.top@;
        let ghost tm = t@;
        let ghost before = *self;
        proof {
            lemma_ok_bind(roots, vals, rank, top, x.0 as int, tm);
            lemma_count_bind(roots, vals, x.0 as int, tm, roots.len() as int);
        }
        uf_bind(&mut self.table, x, t);
        self.rank = Ghost(ranks_after_bind(roots, vals, rank, x.0 as int));
        self.top = Ghost(top + 1);
        proof {
            assert forall|u: TyModel| vars_below(u, roots.len())
                implies #[trigger] self.resolution(u) == subst(before.resolution(u), x.0 as nat, tm) by {
                lemma_ranks_top(u, roots, rank, top);
                lemma_deep_bind(u, roots, vals, rank, top, top, top + 1, x.0 as int, tm);
            }
            assert forall|p: TyModel, q: TyModel|
                vars_below(p, before.len()) && vars_below(q, before.len()) && before.resolution(p) == before.resolution(q)
                implies #[trigger] self.resolution(p) == #[trigger] self.resolution(q) by {
                assert(self.resolution(p) == subst(before.resolution(p), x.0 as nat, tm));
                assert(self.resolution(q) == subst(before.resolution(q), x.0 as nat, tm));
            }
        }
    }

    /// Merges the classes of the distinct unbound roots `a` and `b`.
    fn union(&mut self, a: TyVid, b: TyVid)
        requires
            old(self).wf(),
            a.0 < old(self).len(),
            b.0 < old(self).len(),
            a.0 != b.0,
            old(self).roots()[a.0 as int] == a.0,
            old(self).roots()[b.0 as int] == b.0,
            old(self).vals()[a.0 as int] is None,
            old(self).vals()[b.0 as int] is None,
        ensures
            final(self).wf(),
            final(self).len() == old(self).len(),
            final(self).count() + 1 == old(self).count(),
            final(self).roots()[a.0 as int] == a.0 || final(self).roots()[a.0 as int] == b.0,
            forall|u: TyModel| vars_below(u, old(self).len())
                ==> #[trigger] final(self).resolution(u)
                    == rename(old(self).resolution(u), a.0 as nat, b.0 as nat, final(self).roots()[a.0 as int]),
            old(self).refines(&*final(self)),
    {
        let ghost roots = self.roots();
        let ghost vals = self.vals();
        let ghost before = *self;
        uf_union(&mut self.table, a, b);
        proof {
            let z = self.roots()[a.0 as int];
            lemma_ok_merge(roots, vals, self.rank@, self.top@, a.0 as nat, b.0 as nat, z);
            lemma_count_merge(roots, vals, a.0 as nat, b.0 as nat, z, roots.len() as int);
            assert forall|u: TyModel| vars_below(u, roots.len())
                implies #[trigger] self.resolution(u) == rename(before.resolution(u), a.0 as nat, b.0 as nat, z) by {
                lemma_ranks_top(u, roots, self.rank@, self.top@);
                lemma_deep_merge(u, roots, vals, self.rank@, self.top@, self.top@, self.top@ + 1, a.0 as nat, b.0 as nat, z);
            }
            assert forall|p: TyModel, q: TyModel|
                vars_below(p, before.len()) && vars_below(q, before.len()) && before.resolution(p) == before.resolution(q)
                implies #[trigger] self.resolution(p) == #[trigger] self.resolution(q) by {
                assert(self.resolution(p) == rename(before.resolution(p), a.0 as nat, b.0 as nat, z));
                assert(self.resolution(q) == rename(before.resolution(q), a.0 as nat, b.0 as nat, z));
            }
        }
    }
}

} // verus!

verus! {

pub proof fn lemma_refines_trans(p: TypeTable, q: TypeTable, r: TypeTable)
    requires
        p.refines(&q),
        q.refines(&r),
        p.len() <= q.len(),
    ensures
        p.refines(&r),
{
    assert forall|s: TyModel, t: TyModel|
        vars_below(s, p.len()) && vars_below(t, p.len()) && p.resolution(s) == p.resolution(t)
        implies #[trigger] r.resolution(s) == #[trigger] r.resolution(t) by {
        lemma_vars_below_mono(s, p.len(), q.len());
        lemma_vars_below_mono(t, p.len(), q.len());
        assert(q.resolution(s) == q.resolution(t));
    }
}

/// How resolution acts on each shape: constants stay, arrows and tuples
/// resolve part by part.
pub proof fn lemma_resolution_shape(tab: TypeTable, t: TyModel)
    ensures
        match t {
            TyModel::Fun(a, b) => tab.resolution(t) == TyModel::Fun(Box::new(tab.resolution(*a)), Box::new(tab.resolution(*b))),
            TyModel::Tuple(items) => tab.resolution(t) == TyModel::Tuple(Seq::new(items.len(), |i: int| tab.resolution(items[i]))),
            TyModel::Var(_) => true,
            _ => tab.resolution(t) == t,
        },
{
    if let TyModel::Tuple(items) = t {
        assert(tab.resolution(t)->Tuple_0 =~= Seq::new(items.len(), |i: int| tab.resolution(items[i])));
    }
}

/// A type without variables resolves to itself through any table.
pub proof fn lemma_ground_fixed(tab: TypeTable, g: TyModel)
    requires
        vars_below(g, 0),
    ensures
        tab.resolution(g) == g,
    decreases g,
{
    lemma_resolution_shape(tab, g);
    match g {
        TyModel::Fun(a, b) => {
            lemma_ground_fixed(tab, *a);
            lemma_ground_fixed(tab, *b);
        },
        TyModel::Tuple(items) => {
            assert forall|i: int| 0 <= i < items.len() implies tab.resolution(#[trigger] items[i]) == items[i] by {
                lemma_ground_fixed(tab, items[i]);
            }
            assert(Seq::new(items.len(), |i: int| tab.resolution(items[i])) =~= items);
        },
        _ => {},
    }
}

/// No variable occurs in a type without variables.
pub proof fn lemma_ground_no_occurs(v: nat, t: TyModel)
    requires
        vars_below(t, 0),
    ensures
        !occurs_in(v, t),
    decreases t,
{
    match t {
        TyModel::Fun(a, b) => {
            lemma_ground_no_occurs(v, *a);
            lemma_ground_no_occurs(v, *b);
        },
        TyModel::Tuple(items) => {
            assert forall|i: int| 0 <= i < items.len() implies !occurs_in(v, #[trigger] items[i]) by {
                lemma_ground_no_occurs(v, items[i]);
            }
        },
        _ => {},
    }
}

pub proof fn lemma_refines_same(p: TypeTable, q: TypeTable)
    requires
        q.same(&p),
    ensures
        p.refines(&q),
        forall|u: TyModel| #[trigger] q.resolution(u) == p.resolution(u),
{
}

/// An unbound root resolves to itself; a resolved type too.
proof fn lemma_resolution_fixed(p: TypeTable, t: TyModel)
    requires
        resolved(t, p.roots(), p.vals()),
    ensures
        p.resolution(t) == t,
{
    lemma_deep_resolved(t, p.roots(), p.vals(), p.top@ + 1);
}

/// The number of nodes of a type.
pub open spec fn tsize(t: TyModel) -> nat
    decreases t, 1nat,
{
    match t {
        TyModel::Tuple(items) => 1 + tsizes(items),
        TyModel::Fun(a, b) => 1 + tsize(*a) + tsize(*b),
        _ => 1,
    }
}

/// The number of nodes of a sequence of types.
pub open spec fn tsizes(items: Seq<TyModel>) -> nat
    decreases items, 0nat,
{
    if items.len() == 0 {
        0
    } else {
        proof {
            assert(decreases_to!(items => items[items.len() - 1]));
        }
        tsizes(items.drop_last()) + tsize(items[items.len() - 1])
    }
}

proof fn lemma_tsizes_part(items: Seq<TyModel>, i: int)
    requires
        0 <= i < items.len(),
    ensures
        tsizes(items) >= tsize(items[i]),
    decreases items.len(),
{
    if i < items.len() - 1 {
        lemma_tsizes_part(items.drop_last(), i);
    }
}

/// Through any table, a type resolves to something at least as large
/// as what a variable occurring in it resolves to; strictly larger when
/// the type is not the variable itself.
proof fn lemma_occurs_size(p: TypeTable, t: TyModel, x: nat)
    requires
        occurs_in(x, t),
    ensures
        tsize(p.resolution(t)) >= tsize(p.resolution(TyModel::Var(x as u32))),
        !(t is Var) ==> tsize(p.resolution(t)) > tsize(p.resolution(TyModel::Var(x as u32))),
    decreases t,
{
    lemma_resolution_shape(p, t);
    match t {
        TyModel::Var(w) => {},
        TyModel::Fun(a, b) => {
            if occurs_in(x, *a) {
                lemma_occurs_size(p, *a, x);
            } else {
                lemma_occurs_size(p, *b, x);
            }
        },
        TyModel::Tuple(items) => {
            let i = choose|i: int| 0 <= i < items.len() && occurs_in(x, #[trigger] items[i]);
            lemma_occurs_size(p, items[i], x);
            let rs = Seq::new(items.len(), |j: int| p.resolution(items[j]));
            lemma_tsizes_part(rs, i);
        },
        _ => {},
    }
}

/// `later` extends this table: it resolves every type as it resolves
/// that type's resolution here.
pub open spec fn extended_by(earlier: TypeTable, later: TypeTable) -> bool {
    forall|u: TyModel| vars_below(u, earlier.len()) ==> #[trigger] later.resolution(earlier.resolution(u)) == later.resolution(u)
}

/// Substituting `s` for `x` is invisible to a table that resolves `x`
/// and `s` alike.
proof fn lemma_subst_unseen(p: TypeTable, u: TyModel, x: nat, s: TyModel)
    requires
        p.resolution(TyModel::Var(x as u32)) == p.resolution(s),
    ensures
        p.resolution(subst(u, x, s)) == p.resolution(u),
    decreases u,
{
    lemma_resolution_shape(p, u);
    lemma_resolution_shape(p, subst(u, x, s));
    match u {
        TyModel::Var(v) => {
            if v == x {
                assert(TyModel::Var(x as u32) == u);
            }
        },
        TyModel::Fun(a, b) => {
            lemma_subst_unseen(p, *a, x, s);
            lemma_subst_unseen(p, *b, x, s);
        },
        TyModel::Tuple(items) => {
            let si = subst(u, x, s)->Tuple_0;
            assert forall|i: int| 0 <= i < items.len() implies p.resolution(#[trigger] si[i]) == p.resolution(items[i]) by {
                lemma_subst_unseen(p, items[i], x, s);
            }
            assert(Seq::new(si.len(), |i: int| p.resolution(si[i])) =~= Seq::new(items.len(), |i: int| p.resolution(items[i])));
        },
        _ => {},
    }
}

/// Renaming `a` and `b` to one of them is invisible to a table that
/// resolves `a` and `b` alike.
proof fn lemma_rename_unseen(p: TypeTable, u: TyModel, a: nat, b: nat, z: nat)
    requires
        p.resolution(TyModel::Var(a as u32)) == p.resolution(TyModel::Var(b as u32)),
        z == a || z == b,
        a <= u32::MAX,
        b <= u32::MAX,
    ensures
        p.resolution(rename(u, a, b, z)) == p.resolution(u),
    decreases u,
{
    lemma_resolution_shape(p, u);
    lemma_resolution_shape(p, rename(u, a, b, z));
    match u {
        TyModel::Var(v) => {
            if v == a {
                assert(TyModel::Var(a as u32) == u);
            } else if v == b {
                assert(TyModel::Var(b as u32) == u);
            }
        },
        TyModel::Fun(l, r) => {
            lemma_rename_unseen(p, *l, a, b, z);
            lemma_rename_unseen(p, *r, a, b, z);
        },
        TyModel::Tuple(items) => {
            let si = rename(u, a, b, z)->Tuple_0;
            assert forall|i: int| 0 <= i < items.len() implies p.resolution(#[trigger] si[i]) == p.resolution(items[i]) by {
                lemma_rename_unseen(p, items[i], a, b, z);
            }
            assert(Seq::new(si.len(), |i: int| p.resolution(si[i])) =~= Seq::new(items.len(), |i: int| p.resolution(items[i])));
        },
        _ => {},
    }
}

/// A table the same as one that `p` extends is extended by `p` too.
proof fn lemma_extended_same(q: TypeTable, q2: TypeTable, p: TypeTable)
    requires
        q2.same(&q),
        extended_by(q, p),
    ensures
        extended_by(q2, p),
{
    lemma_refines_same(q, q2);
    assert forall|u: TyModel| vars_below(u, q2.len()) implies #[trigger] p.resolution(q2.resolution(u)) == p.resolution(u) by {
        assert(q2.resolution(u) == q.resolution(u));
    }
}

/// Tuples resolving alike resolve alike part by part.
proof fn lemma_tuple_alike(p: TypeTable, xs: Seq<TyModel>, ys: Seq<TyModel>, i: int)
    requires
        0 <= i < xs.len(),
        xs.len() == ys.len(),
        p.resolution(TyModel::Tuple(xs)) == p.resolution(TyModel::Tuple(ys)),
    ensures
        p.resolution(xs[i]) == p.resolution(ys[i]),
{
    lemma_resolution_shape(p, TyModel::Tuple(xs));
    lemma_resolution_shape(p, TyModel::Tuple(ys));
    let sx = Seq::new(xs.len(), |j: int| p.resolution(xs[j]));
    let sy = Seq::new(ys.len(), |j: int| p.resolution(ys[j]));
    assert(sx[i] == sy[i]);
}

/// Arrows resolving alike resolve alike part by part.
proof fn lemma_fun_alike(p: TypeTable, a1: TyModel, r1: TyModel, a2: TyModel, r2: TyModel)
    requires
        p.resolution(TyModel::Fun(Box::new(a1), Box::new(r1))) == p.resolution(TyModel::Fun(Box::new(a2), Box::new(r2))),
    ensures
        p.resolution(a1) == p.resolution(a2),
        p.resolution(r1) == p.resolution(r2),
{
    lemma_resolution_shape(p, TyModel::Fun(Box::new(a1), Box::new(r1)));
    lemma_resolution_shape(p, TyModel::Fun(Box::new(a2), Box::new(r2)));
}

/// The outer constructors of `a` and `b` differ.
pub open spec fn head_clash(a: TyModel, b: TyModel) -> bool {
    match (a, b) {
        (TyModel::Var(_), _) => false,
        (_, TyModel::Var(_)) => false,
        (TyModel::Unit, TyModel::Unit) => false,
        (TyModel::Bool, TyModel::Bool) => false,
        (TyModel::Int, TyModel::Int) => false,
        (TyModel::Adt(x), TyModel::Adt(y)) => x != y,
        (TyModel::Tuple(xs), TyModel::Tuple(ys)) => xs.len() != ys.len(),
        (TyModel::Fun(_, _), TyModel::Fun(_, _)) => false,
        _ => true,
    }
}

/// No table resolves types with clashing outer constructors alike.
proof fn lemma_clash(p: TypeTable, a: TyModel, b: TyModel)
    requires
        head_clash(a, b),
    ensures
        p.resolution(a) != p.resolution(b),
{
    lemma_resolution_shape(p, a);
    lemma_resolution_shape(p, b);
    if let (TyModel::Tuple(xs), TyModel::Tuple(ys)) = (a, b) {
        assert(p.resolution(a)->Tuple_0.len() == xs.len());
        assert(p.resolution(b)->Tuple_0.len() == ys.len());
    }
}

pub open spec fn cannot_unify_text(a: TyModel, b: TyModel) -> Seq<char> {
    "cannot unify "@ + ty_text(a) + " with "@ + ty_text(b)
}

pub open spec fn infinite_text(x: nat, t: TyModel) -> Seq<char> {
    "infinite type: 't"@ + decimal_digits(x) + " = "@ + ty_text(t)
}

fn cannot_unify(a: &Ty, b: &Ty) -> (e: TypeError)
    requires
        head_clash(a@, b@),
    ensures
        e.0@ == cannot_unify_text(a@, b@),
        forall|p: TypeTable| #[trigger] p.resolution(a@) != p.resolution(b@),
{
    proof {
        assert forall|p: TypeTable| #[trigger] p.resolution(a@) != p.resolution(b@) by {
            lemma_clash(p, a@, b@);
        }
    }
    let ta = a.text();
    let tb = b.text();
    let mut v = chars_of("cannot unify ");
    push_str(&mut v, ta.as_str());
    push_str(&mut v, " with ");
    push_str(&mut v, tb.as_str());
    TypeError(string_of(&v))
}

fn infinite_type(x: TyVid, t: &Ty) -> (e: TypeError)
    ensures
        e.0@ == infinite_text(x.0 as nat, t@),
{
    let mut v = chars_of("infinite type: 't");
    let mut d = digits_of(x.0 as u64);
    v.append(&mut d);
    push_str(&mut v, " = ");
    let tt = t.text();
    push_str(&mut v, tt.as_str());
    TypeError(string_of(&v))
}

impl TypeTable {
    /// Binds the unbound root `x` to the resolved `other`, refusing an
    /// infinite type.
    fn bind_checked(&mut self, x: TyVid, other: &Ty) -> (r: Result<(), TypeError>)
        requires
            old(self).wf(),
            x.0 < old(self).len(),
            old(self).roots()[x.0 as int] == x.0,
            old(self).vals()[x.0 as int] is None,
            vars_below(other@, old(self).len()),
            resolved(other@, old(self).roots(), old(self).vals()),
            !(other@ is Var),
        ensures
            final(self).wf(),
            final(self).len() == old(self).len(),
            match r {
                Ok(()) => final(self).count() + 1 == old(self).count(),
                Err(e) => final(self).same(old(self)) && e.0@ == infinite_text(x.0 as nat, other@),
            },
            old(self).refines(&*final(self)),
            r is Ok ==> final(self).resolution(TyModel::Var(x.0)) == final(self).resolution(other@),
            r is Ok ==> forall|p: TypeTable| #[trigger] extended_by(*old(self), p)
                && p.resolution(TyModel::Var(x.0)) == p.resolution(other@) ==> extended_by(*final(self), p),
            r is Err ==> forall|p: TypeTable| #[trigger] extended_by(*old(self), p)
                ==> p.resolution(TyModel::Var(x.0)) != p.resolution(other@),
            r is Err ==> occurs_in(x.0 as nat, other@),
    {
        let ghost before = *self;
        if occurs_ty(x, other) {
            proof {
                lemma_refines_same(before, *self);
                assert forall|p: TypeTable| #[trigger] extended_by(before, p)
                    implies p.resolution(TyModel::Var(x.0)) != p.resolution(other@) by {
                    lemma_occurs_size(p, other@, x.0 as nat);
                }
            }
            return Err(infinite_type(x, other));
        }
        let copy = other.duplicate();
        self.bind(x, copy);
        proof {
            lemma_resolution_fixed(before, TyModel::Var(x.0));
            lemma_resolution_fixed(before, other@);
            lemma_subst_absent(other@, x.0 as nat, other@);
            assert(vars_below(TyModel::Var(x.0), before.len()));
            assert(self.resolution(TyModel::Var(x.0)) == subst(before.resolution(TyModel::Var(x.0)), x.0 as nat, other@));
            assert(self.resolution(other@) == subst(before.resolution(other@), x.0 as nat, other@));
            assert forall|p: TypeTable| #[trigger] extended_by(before, p)
                && p.resolution(TyModel::Var(x.0)) == p.resolution(other@) implies extended_by(*self, p) by {
                assert forall|u: TyModel| vars_below(u, self.len())
                    implies #[trigger] p.resolution(self.resolution(u)) == p.resolution(u) by {
                    assert(self.resolution(u) == subst(before.resolution(u), x.0 as nat, other@));
                    lemma_subst_unseen(p, before.resolution(u), x.0 as nat, other@);
                    assert(p.resolution(before.resolution(u)) == p.resolution(u));
                }
            }
        }
        Ok(())
    }

    /// Unifies two types resolved against the current table.
    fn unify_resolved(&mut self, a: &Ty, b: &Ty, Ghost(c): Ghost<nat>) -> (r: Result<(), TypeError>)
        requires
            old(self).wf(),
            c == old(self).count(),
            vars_below(a@, old(self).len()),
            vars_below(b@, old(self).len()),
            resolved(a@, old(self).roots(), old(self).vals()),
            resolved(b@, old(self).roots(), old(self).vals()),
        ensures
            final(self).wf(),
            final(self).len() == old(self).len(),
            final(self).count() <= old(self).count(),
            final(self).same(old(self)) || final(self).count() < old(self).count(),
            old(self).refines(&*final(self)),
            r is Ok ==> final(self).resolution(a@) == final(self).resolution(b@),
            r is Ok ==> forall|p: TypeTable| #[trigger] extended_by(*old(self), p)
                && p.resolution(a@) == p.resolution(b@) ==> extended_by(*final(self), p),
            r is Err ==> forall|p: TypeTable| #[trigger] extended_by(*old(self), p) ==> p.resolution(a@) != p.resolution(b@),
            a@ == b@ ==> r is Ok && final(self).same(old(self)),
            vars_below(a@, 0) && b@ is Var ==> r is Ok,
            (a@ matches TyModel::Fun(a1, a2) && b@ matches TyModel::Fun(b1, b2) && a1 == b1 && vars_below(*a2, 0)
                && *b2 is Var) ==> r is Ok,
        decreases c, a@,
    {
        let ghost before = *self;
        proof {
            lemma_refines_same(before, before);
        }
        if let Ty::Var(x) = a {
            if let Ty::Var(y) = b {
                if x.0 == y.0 {
                    return Ok(());
                }
                self.union(*x, *y);
                proof {
                    lemma_resolution_fixed(before, a@);
                    lemma_resolution_fixed(before, b@);
                    assert(vars_below(a@, before.len()));
                    assert(self.resolution(a@) == rename(before.resolution(a@), x.0 as nat, y.0 as nat, self.roots()[x.0 as int]));
                    assert(self.resolution(b@) == rename(before.resolution(b@), x.0 as nat, y.0 as nat, self.roots()[x.0 as int]));
                    let z = self.roots()[x.0 as int];
                    assert forall|p: TypeTable| #[trigger] extended_by(before, p) && p.resolution(a@) == p.resolution(b@)
                        implies extended_by(*self, p) by {
                        assert forall|u: TyModel| vars_below(u, self.len())
                            implies #[trigger] p.resolution(self.resolution(u)) == p.resolution(u) by {
                            lemma_rename_unseen(p, before.resolution(u), x.0 as nat, y.0 as nat, z);
                            assert(p.resolution(before.resolution(u)) == p.resolution(u));
                        }
                    }
                }
                return Ok(());
            }
            return self.bind_checked(*x, b);
        }
        if let Ty::Var(y) = b {
            let r = self.bind_checked(*y, a);
            proof {
                if r is Err && vars_below(a@, 0) {
                    lemma_ground_no_occurs(y.0 as nat, a@);
                }
            }
            return r;
        }
        match a {
            Ty::Unit => match b {
                Ty::Unit => Ok(()),
                _ => Err(cannot_unify(a, b)),
            },
            Ty::Bool => match b {
                Ty::Bool => Ok(()),
                _ => Err(cannot_unify(a, b)),
            },
            Ty::Int => match b {
                Ty::Int => Ok(()),
                _ => Err(cannot_unify(a, b)),
            },
            Ty::Adt(x) => match b {
                Ty::Adt(y) => {
                    if str_eq(x.as_str(), y.as_str()) {
                        Ok(())
                    } else {
                        Err(cannot_unify(a, b))
                    }
                },
                _ => Err(cannot_unify(a, b)),
            },
            Ty::Tuple(xs) => {
                let ys = match b {
                    Ty::Tuple(ys) => ys,
                    _ => {
                        return Err(cannot_unify(a, b));
                    },
                };
                if xs.len() != ys.len() {
                    assert(a@ == TyModel::Tuple(crate::types::ty_models(xs@)));
                    assert(b@ == TyModel::Tuple(crate::types::ty_models(ys@)));
                    assert(crate::types::ty_models(xs@).len() == xs@.len());
                    assert(crate::types::ty_models(ys@).len() == ys@.len());
                    return Err(cannot_unify(a, b));
                }
                let ghost entry = *self;
                proof {
                    assert(a@ == TyModel::Tuple(crate::types::ty_models(xs@)));
                    assert(b@ == TyModel::Tuple(crate::types::ty_models(ys@)));
                    lemma_tuple_parts(a@, entry.roots(), entry.vals(), entry.rank@, 0);
                    lemma_tuple_parts(b@, entry.roots(), entry.vals(), entry.rank@, 0);
                    assert forall|j: int| 0 <= j < xs@.len() implies #[trigger] xs@[j]@ == a@->Tuple_0[j] by {}
                    assert forall|j: int| 0 <= j < ys@.len() implies #[trigger] ys@[j]@ == b@->Tuple_0[j] by {}
                }
                let mut i: usize = 0;
                while i < xs.len()
                    invariant
                        entry == *old(self),
                        entry.wf(),
                        c == entry.count(),
                        self.wf(),
                        self.len() == entry.len(),
                        self.count() <= entry.count(),
                        self.same(&entry) || self.count() < entry.count(),
                        xs@.len() == ys@.len(),
                        i <= xs@.len(),
                        a@ == TyModel::Tuple(crate::types::ty_models(xs@)),
                        b@ == TyModel::Tuple(crate::types::ty_models(ys@)),
                        forall|j: int| 0 <= j < xs@.len() ==> #[trigger] xs@[j]@ == a@->Tuple_0[j],
                        forall|j: int| 0 <= j < ys@.len() ==> #[trigger] ys@[j]@ == b@->Tuple_0[j],
                        forall|p: TypeTable| #[trigger] extended_by(entry, p) && p.resolution(a@) == p.resolution(b@)
                            ==> extended_by(*self, p),
                        a@ == b@ ==> self.same(&entry),
                        forall|j: int| 0 <= j < xs@.len() ==> vars_below(#[trigger] xs@[j]@, entry.len()),
                        forall|j: int| 0 <= j < ys@.len() ==> vars_below(#[trigger] ys@[j]@, entry.len()),
                        forall|j: int| 0 <= j < xs@.len() ==> resolved(#[trigger] xs@[j]@, entry.roots(), entry.vals()),
                        forall|j: int| 0 <= j < ys@.len() ==> resolved(#[trigger] ys@[j]@, entry.roots(), entry.vals()),
                        entry.refines(self),
                        forall|j: int| 0 <= j < i ==> self.resolution(#[trigger] xs@[j]@) == self.resolution(ys@[j]@),
                    decreases xs@.len() - i,
                {
                    let ghost s0 = *self;
                    let rx = self.resolve(&xs[i]);
                    let ry = self.resolve(&ys[i]);
                    let ghost s1 = *self;
                    proof {
                        lemma_refines_same(s0, s1);
                        lemma_resolution_fixed(s1, rx@);
                        lemma_resolution_fixed(s1, ry@);
                        lemma_refines_trans(entry, s0, s1);
                        crate::ml::unify::lemma_vars_below_mono(xs@[i as int]@, entry.len(), entry.len());
                    }
                    proof {
                        if self.count() == c {
                            assert(rx@ == xs@[i as int]@);
                            assert(crate::types::ty_models(xs@)[i as int] == xs@[i as int]@);
                            let ms = crate::types::ty_models(xs@);
                            assert(a@->Tuple_0 == ms);
                            assert(decreases_to!(a@ => a@->Tuple_0));
                            assert(decreases_to!(ms => ms[i as int]));
                            assert(decreases_to!(a@ => rx@));
                        }
                    }
                    let step = self.unify_resolved(&rx, &ry, Ghost(self.count()));
                    proof {
                        lemma_refines_trans(entry, s1, *self);
                    }
                    proof {
                        assert forall|p: TypeTable| #[trigger] extended_by(entry, p) && p.resolution(a@) == p.resolution(b@)
                            implies extended_by(s1, p) && p.resolution(rx@) == p.resolution(ry@) by {
                            assert(extended_by(s0, p));
                            lemma_extended_same(s0, s1, p);
                            lemma_tuple_alike(p, a@->Tuple_0, b@->Tuple_0, i as int);
                            assert(p.resolution(s1.resolution(xs@[i as int]@)) == p.resolution(xs@[i as int]@));
                            assert(p.resolution(s1.resolution(ys@[i as int]@)) == p.resolution(ys@[i as int]@));
                        }
                    }
                    match step {
                        Ok(()) => {},
                        Err(e) => {
                            proof {
                                if a@ == b@ {
                                    assert(xs@[i as int]@ == ys@[i as int]@);
                                    assert(rx@ == ry@);
                                }
                                assert forall|p: TypeTable| #[trigger] extended_by(entry, p)
                                    implies p.resolution(a@) != p.resolution(b@) by {
                                    if p.resolution(a@) == p.resolution(b@) {
                                        assert(extended_by(s1, p) && p.resolution(rx@) == p.resolution(ry@));
                                    }
                                }
                            }
                            return Err(e);
                        },
                    }
                    proof {
                        if a@ == b@ {
                            assert(xs@[i as int]@ == ys@[i as int]@);
                            assert(rx@ == ry@);
                        }
                        assert forall|p: TypeTable| #[trigger] extended_by(entry, p) && p.resolution(a@) == p.resolution(b@)
                            implies extended_by(*self, p) by {
                            assert(extended_by(s1, p) && p.resolution(rx@) == p.resolution(ry@));
                        }
                        assert(s1.resolution(xs@[i as int]@) == s1.resolution(rx@));
                        assert(s1.resolution(ys@[i as int]@) == s1.resolution(ry@));
                        assert(self.resolution(xs@[i as int]@) == self.resolution(rx@));
                        assert(self.resolution(ys@[i as int]@) == self.resolution(ry@));
                        assert forall|j: int| 0 <= j < i + 1 implies self.resolution(#[trigger] xs@[j]@) == self.resolution(ys@[j]@) by {
                            if j < i {
                                assert(s0.resolution(xs@[j]@) == s0.resolution(ys@[j]@));
                                assert(s1.resolution(xs@[j]@) == s1.resolution(ys@[j]@));
                            }
                        }
                    }
                    i = i + 1;
                }
                proof {
                    let ra = self.resolution(a@)->Tuple_0;
                    let rb = self.resolution(b@)->Tuple_0;
                    assert(b@ == TyModel::Tuple(crate::types::ty_models(ys@)));
                    assert forall|j: int| 0 <= j < ra.len() implies #[trigger] ra[j] == rb[j] by {
                        assert(crate::types::ty_models(xs@)[j] == xs@[j]@);
                        assert(crate::types::ty_models(ys@)[j] == ys@[j]@);
                        assert(self.resolution(xs@[j]@) == self.resolution(ys@[j]@));
                    }
                    assert(ra =~= rb);
                }
                Ok(())
            },
            Ty::Fun(a1, r1) => {
                let (a2, r2) = match b {
                    Ty::Fun(a2, r2) => (a2, r2),
                    _ => {
                        return Err(cannot_unify(a, b));
                    },
                };
                let rx = self.resolve(a1);
                let ry = self.resolve(a2);
                let ghost s1 = *self;
                proof {
                    lemma_refines_same(before, s1);
                    lemma_resolution_fixed(s1, rx@);
                    lemma_resolution_fixed(s1, ry@);
                }
                let step = self.unify_resolved(&rx, &ry, Ghost(self.count()));
                let ghost s2 = *self;
                proof {
                    lemma_refines_trans(before, s1, s2);
                    assert forall|p: TypeTable| #[trigger] extended_by(before, p) && p.resolution(a@) == p.resolution(b@)
                        implies extended_by(s1, p) && p.resolution(rx@) == p.resolution(ry@)
                            && p.resolution(r1@) == p.resolution(r2@) by {
                        lemma_extended_same(before, s1, p);
                        lemma_fun_alike(p, a1@, r1@, a2@, r2@);
                        assert(p.resolution(s1.resolution(a1@)) == p.resolution(a1@));
                        assert(p.resolution(s1.resolution(a2@)) == p.resolution(a2@));
                    }
                }
                match step {
                    Ok(()) => {},
                    Err(e) => {
                        proof {
                            if a@ == b@ {
                                assert(a1@ == a2@);
                                assert(rx@ == ry@);
                            }
                            assert forall|p: TypeTable| #[trigger] extended_by(before, p)
                                implies p.resolution(a@) != p.resolution(b@) by {
                                if p.resolution(a@) == p.resolution(b@) {
                                    assert(extended_by(s1, p) && p.resolution(rx@) == p.resolution(ry@));
                                }
                            }
                        }
                        return Err(e);
                    },
                }
                proof {
                    assert(s1.resolution(a1@) == s1.resolution(rx@));
                    assert(s1.resolution(a2@) == s1.resolution(ry@));
                    assert(s2.resolution(a1@) == s2.resolution(a2@));
                }
                let rx2 = self.resolve(r1);
                let ry2 = self.resolve(r2);
                let ghost s3 = *self;
                proof {
                    if self.count() == c {
                        assert(rx2@ == r1@);
                    }
                    lemma_refines_same(s2, s3);
                    lemma_resolution_fixed(s3, rx2@);
                    lemma_resolution_fixed(s3, ry2@);
                    lemma_refines_trans(before, s2, s3);
                }
                let last = self.unify_resolved(&rx2, &ry2, Ghost(self.count()));
                proof {
                    lemma_refines_trans(before, s3, *self);
                    assert forall|p: TypeTable| #[trigger] extended_by(before, p) && p.resolution(a@) == p.resolution(b@)
                        implies extended_by(s3, p) && p.resolution(rx2@) == p.resolution(ry2@) by {
                        assert(extended_by(s1, p) && p.resolution(rx@) == p.resolution(ry@)
                            && p.resolution(r1@) == p.resolution(r2@));
                        assert(extended_by(s2, p));
                        lemma_extended_same(s2, s3, p);
                        assert(p.resolution(s3.resolution(r1@)) == p.resolution(r1@));
                        assert(p.resolution(s3.resolution(r2@)) == p.resolution(r2@));
                    }
                    if last is Err {
                        if a@ == b@ {
                            assert(r1@ == r2@);
                            assert(rx2@ == ry2@);
                        }
                        assert forall|p: TypeTable| #[trigger] extended_by(before, p)
                            implies p.resolution(a@) != p.resolution(b@) by {
                            if p.resolution(a@) == p.resolution(b@) {
                                assert(extended_by(s3, p) && p.resolution(rx2@) == p.resolution(ry2@));
                            }
                        }
                    } else {
                        assert forall|p: TypeTable| #[trigger] extended_by(before, p) && p.resolution(a@) == p.resolution(b@)
                            implies extended_by(*self, p) by {
                            assert(extended_by(s3, p) && p.resolution(rx2@) == p.resolution(ry2@));
                        }
                    }
                }
                match last {
                    Ok(()) => {
                        proof {
                            assert(s3.resolution(r1@) == s3.resolution(rx2@));
                            assert(s3.resolution(r2@) == s3.resolution(ry2@));
                            assert(self.resolution(r1@) == self.resolution(r2@));
                            assert(s3.resolution(a1@) == s3.resolution(a2@));
                            assert(self.resolution(a1@) == self.resolution(a2@));
                        }
                        Ok(())
                    },
                    Err(e) => Err(e),
                }
            },
            Ty::Var(_) => Ok(()),
        }
    }

    /// Unifies `a` and `b` through the table. On success both resolve to
    /// the same type, and the new table is most general: every table
    /// that extends the old one and resolves `a` and `b` alike extends
    /// the new one. On failure (clashing constructors, or an infinite
    /// type) no table extending the old one resolves them alike. Either
    /// way, types that resolved alike before still do.
    pub fn unify(&mut self, a: &Ty, b: &Ty) -> (r: Result<(), TypeError>)
        requires
            old(self).wf(),
            vars_below(a@, old(self).len()),
            vars_below(b@, old(self).len()),
        ensures
            final(self).wf(),
            final(self).len() == old(self).len(),
            old(self).refines(&*final(self)),
            r is Ok ==> final(self).resolution(a@) == final(self).resolution(b@),
            r is Ok ==> forall|p: TypeTable| #[trigger] extended_by(*old(self), p)
                && p.resolution(a@) == p.resolution(b@) ==> extended_by(*final(self), p),
            r is Err ==> forall|p: TypeTable| #[trigger] extended_by(*old(self), p) ==> p.resolution(a@) != p.resolution(b@),
            old(self).resolution(a@) == old(self).resolution(b@) ==> r is Ok,
            vars_below(old(self).resolution(a@), 0) && old(self).resolution(b@) is Var ==> r is Ok,
            (old(self).resolution(a@) matches TyModel::Fun(a1, a2) && old(self).resolution(b@) matches TyModel::Fun(b1, b2)
                && a1 == b1 && vars_below(*a2, 0) && *b2 is Var) ==> r is Ok,
    {
        let ghost before = *self;
        let ra = self.resolve(a);
        let rb = self.resolve(b);
        let ghost s1 = *self;
        proof {
            lemma_refines_same(before, s1);
            lemma_resolution_fixed(s1, ra@);
            lemma_resolution_fixed(s1, rb@);
        }
        let r = self.unify_resolved(&ra, &rb, Ghost(self.count()));
        proof {
            lemma_refines_trans(before, s1, *self);
            assert(s1.resolution(a@) == s1.resolution(ra@));
            assert(s1.resolution(b@) == s1.resolution(rb@));
            assert forall|p: TypeTable| #[trigger] extended_by(before, p)
                implies extended_by(s1, p) && (p.resolution(a@) == p.resolution(b@) <==> p.resolution(ra@) == p.resolution(rb@)) by {
                lemma_extended_same(before, s1, p);
                assert(p.resolution(s1.resolution(a@)) == p.resolution(a@));
                assert(p.resolution(s1.resolution(b@)) == p.resolution(b@));
            }
        }
        r
    }
}

} // verus!

verus! {

/// Whether `v` is among `out`.
pub fn has_vid(out: &Vec<TyVid>, v: TyVid) -> (b: bool)
    ensures
        b == exists|j: int| 0 <= j < out@.len() && (#[trigger] out@[j]).0 == v.0,
{
    let mut k: usize = 0;
    while k < out.len()
        invariant
            k <= out@.len(),
            forall|j: int| 0 <= j < k ==> (#[trigger] out@[j]).0 != v.0,
        decreases out@.len() - k,
    {
        if out[k].0 == v.0 {
            return true;
        }
        k = k + 1;
    }
    false
}

/// `out` with `v` appended unless it already holds it.
pub open spec fn add_var(out: Seq<TyVid>, v: u32) -> Seq<TyVid> {
    if exists|j: int| 0 <= j < out.len() && (#[trigger] out[j]).0 == v {
        out
    } else {
        out.push(TyVid(v))
    }
}

/// `out` with the variables of `t` that it lacks appended, in order of
/// first occurrence.
pub open spec fn with_vars(out: Seq<TyVid>, t: TyModel) -> Seq<TyVid>
    decreases t, 1nat,
{
    match t {
        TyModel::Var(v) => add_var(out, v),
        TyModel::Tuple(items) => with_vars_seq(out, items),
        TyModel::Fun(a, b) => with_vars(with_vars(out, *a), *b),
        _ => out,
    }
}

/// `with_vars` over a sequence of types, left to right.
pub open spec fn with_vars_seq(out: Seq<TyVid>, items: Seq<TyModel>) -> Seq<TyVid>
    decreases items, 0nat,
{
    if items.len() == 0 {
        out
    } else {
        proof {
            assert(decreases_to!(items => items[items.len() - 1]));
        }
        with_vars(with_vars_seq(out, items.drop_last()), items[items.len() - 1])
    }
}

/// A type without variables adds none.
pub proof fn lemma_with_vars_ground(out: Seq<TyVid>, t: TyModel)
    requires
        vars_below(t, 0),
    ensures
        with_vars(out, t) == out,
    decreases t, 1nat,
{
    match t {
        TyModel::Tuple(items) => lemma_with_vars_seq_ground(out, items),
        TyModel::Fun(a, b) => {
            lemma_with_vars_ground(out, *a);
            lemma_with_vars_ground(out, *b);
        },
        _ => {},
    }
}

proof fn lemma_with_vars_seq_ground(out: Seq<TyVid>, items: Seq<TyModel>)
    requires
        forall|i: int| 0 <= i < items.len() ==> vars_below(#[trigger] items[i], 0),
    ensures
        with_vars_seq(out, items) == out,
    decreases items, 0nat,
{
    if items.len() > 0 {
        assert(decreases_to!(items => items[items.len() - 1]));
        let init = items.drop_last();
        assert forall|i: int| 0 <= i < init.len() implies vars_below(#[trigger] init[i], 0) by {
            assert(init[i] == items[i]);
        }
        lemma_with_vars_seq_ground(out, init);
        lemma_with_vars_ground(out, items[items.len() - 1]);
    }
}

/// What `v` is renamed to by the first pair of `map` from `k` on that
/// names it; `v` itself when none does.
pub open spec fn renamed_from(map: Seq<(TyVid, TyVid)>, v: u32, k: int) -> u32
    decreases map.len() - k,
{
    if k < 0 || k >= map.len() {
        v
    } else if map[k].0.0 == v {
        map[k].1.0
    } else {
        renamed_from(map, v, k + 1)
    }
}

/// `t` with each variable renamed by the first pair of `map` naming it.
pub open spec fn renamed(t: TyModel, map: Seq<(TyVid, TyVid)>) -> TyModel
    decreases t,
{
    match t {
        TyModel::Var(v) => TyModel::Var(renamed_from(map, v, 0)),
        TyModel::Tuple(items) => TyModel::Tuple(Seq::new(items.len(), |i: int| if 0 <= i < items.len() {
            renamed(items[i], map)
        } else {
            TyModel::Unit
        })),
        TyModel::Fun(a, b) => TyModel::Fun(Box::new(renamed(*a, map)), Box::new(renamed(*b, map))),
        _ => t,
    }
}

/// Appends the variables of `t` not yet in `out`, left to right.
fn collect_vars(t: &Ty, out: &mut Vec<TyVid>, Ghost(n): Ghost<nat>)
    requires
        vars_below(t@, n),
        forall|j: int| 0 <= j < old(out)@.len() ==> ((#[trigger] old(out)@[j]).0 as nat) < n,
    ensures
        final(out)@.len() >= old(out)@.len(),
        final(out)@.subrange(0, old(out)@.len() as int) == old(out)@,
        forall|j: int| 0 <= j < final(out)@.len() ==> ((#[trigger] final(out)@[j]).0 as nat) < n,
        final(out)@ == with_vars(old(out)@, t@),
    decreases t, 0int,
{
    match t {
        Ty::Var(v) => {
            if !has_vid(out, *v) {
                out.push(*v);
            }
        },
        Ty::Tuple(items) => {
            proof {
                assert(t@ == TyModel::Tuple(crate::types::ty_models(items@)));
                lemma_tuple_parts(t@, Seq::empty(), Seq::empty(), Seq::empty(), 0);
                assert forall|j: int| 0 <= j < items@.len() implies vars_below(#[trigger] items@[j]@, n) by {
                    assert(items@[j]@ == crate::types::ty_models(items@)[j]);
                }
            }
            collect_all(items, out, Ghost(n));
        },
        Ty::Fun(a, b) => {
            let ghost o0 = out@;
            collect_vars(a, out, Ghost(n));
            let ghost o1 = out@;
            collect_vars(b, out, Ghost(n));
            proof {
                assert(o1.subrange(0, o0.len() as int) == o0);
                assert(out@.subrange(0, o0.len() as int) =~= out@.subrange(0, o1.len() as int).subrange(0, o0.len() as int));
            }
        },
        _ => {},
    }
}

fn collect_all(items: &Vec<Ty>, out: &mut Vec<TyVid>, Ghost(n): Ghost<nat>)
    requires
        forall|j: int| 0 <= j < items@.len() ==> vars_below(#[trigger] items@[j]@, n),
        forall|j: int| 0 <= j < old(out)@.len() ==> ((#[trigger] old(out)@[j]).0 as nat) < n,
    ensures
        final(out)@.len() >= old(out)@.len(),
        final(out)@.subrange(0, old(out)@.len() as int) == old(out)@,
        forall|j: int| 0 <= j < final(out)@.len() ==> ((#[trigger] final(out)@[j]).0 as nat) < n,
        final(out)@ == with_vars_seq(old(out)@, crate::types::ty_models(items@)),
    decreases items, 1int,
{
    let ghost start = out@;
    let ghost ms = crate::types::ty_models(items@);
    let mut k: usize = 0;
    while k < items.len()
        invariant
            k <= items@.len(),
            forall|j: int| 0 <= j < items@.len() ==> vars_below(#[trigger] items@[j]@, n),
            out@.len() >= start.len(),
            out@.subrange(0, start.len() as int) == start,
            forall|j: int| 0 <= j < out@.len() ==> ((#[trigger] out@[j]).0 as nat) < n,
            ms == crate::types::ty_models(items@),
            out@ == with_vars_seq(start, ms.take(k as int)),
        decreases items@.len() - k,
    {
        let ghost before = out@;
        collect_vars(&items[k], out, Ghost(n));
        proof {
            assert(out@.subrange(0, start.len() as int) =~= out@.subrange(0, before.len() as int).subrange(0, start.len() as int));
            assert(ms.take(k + 1).drop_last() =~= ms.take(k as int));
            assert(ms.take(k + 1)[k as int] == items@[k as int]@);
        }
        k = k + 1;
    }
    assert(ms.take(items@.len() as int) =~= ms);
}

/// What the first pair of `map` naming `v` renames it to; `v` itself
/// when none does.
fn renamed_var(map: &Vec<(TyVid, TyVid)>, v: u32) -> (w: u32)
    ensures
        w == renamed_from(map@, v, 0),
        w == v || exists|j: int| 0 <= j < map@.len() && w == (#[trigger] map@[j]).1.0,
{
    let mut k: usize = 0;
    while k < map.len()
        invariant
            k <= map@.len(),
            renamed_from(map@, v, 0) == renamed_from(map@, v, k as int),
        decreases map@.len() - k,
    {
        if map[k].0.0 == v {
            assert(map@[k as int].1.0 == map[k as int].1.0);
            return map[k].1.0;
        }
        k = k + 1;
    }
    v
}

/// `t` with each variable renamed by the first matching pair of `map`.
fn rename_vars(t: &Ty, map: &Vec<(TyVid, TyVid)>, Ghost(n): Ghost<nat>) -> (r: Ty)
    requires
        vars_below(t@, n),
        forall|j: int| 0 <= j < map@.len() ==> ((#[trigger] map@[j]).1.0 as nat) < n,
    ensures
        vars_below(r@, n),
        r@ == renamed(t@, map@),
    decreases t, 0int,
{
    match t {
        Ty::Var(v) => {
            let w = renamed_var(map, v.0);
            let res = Ty::Var(TyVid(w));
            assert(res@ == renamed(t@, map@));
            assert((w as nat) < n) by {
                if w != v.0 {
                    let j = choose|j: int| 0 <= j < map@.len() && w == (#[trigger] map@[j]).1.0;
                    assert((map@[j].1.0 as nat) < n);
                }
            }
            res
        },
        Ty::Tuple(items) => {
            proof {
                assert(t@ == TyModel::Tuple(crate::types::ty_models(items@)));
                lemma_tuple_parts(t@, Seq::empty(), Seq::empty(), Seq::empty(), 0);
                assert forall|j: int| 0 <= j < items@.len() implies vars_below(#[trigger] items@[j]@, n) by {
                    assert(items@[j]@ == crate::types::ty_models(items@)[j]);
                }
            }
            let out = rename_all(items, map, Ghost(n));
            let res = Ty::Tuple(out);
            proof {
                let os = crate::types::ty_models(out@);
                assert forall|j: int| 0 <= j < os.len() implies vars_below(#[trigger] os[j], n) by {
                    assert(os[j] == out@[j]@);
                }
                let is = crate::types::ty_models(items@);
                assert forall|j: int| 0 <= j < os.len() implies #[trigger] os[j] == renamed(is[j], map@) by {
                    assert(os[j] == out@[j]@);
                    assert(is[j] == items@[j]@);
                }
                assert(os =~= Seq::new(is.len(), |i: int| if 0 <= i < is.len() { renamed(is[i], map@) } else { TyModel::Unit }));
                assert(t@ == TyModel::Tuple(is));
                assert(res@ == TyModel::Tuple(os));
                assert(renamed(t@, map@)->Tuple_0.len() == os.len());
                assert forall|j: int| 0 <= j < os.len() implies #[trigger] renamed(t@, map@)->Tuple_0[j] == os[j] by {}
                assert(renamed(t@, map@)->Tuple_0 =~= os);
                assert(res@ == renamed(t@, map@));
            }
            res
        },
        Ty::Fun(a, b) => {
            let res = Ty::Fun(Box::new(rename_vars(a, map, Ghost(n))), Box::new(rename_vars(b, map, Ghost(n))));
            assert(res@ == renamed(t@, map@));
            res
        },
        other => {
            let res = other.duplicate();
            assert(res@ == renamed(t@, map@));
            res
        },
    }
}

fn rename_all(items: &Vec<Ty>, map: &Vec<(TyVid, TyVid)>, Ghost(n): Ghost<nat>) -> (out: Vec<Ty>)
    requires
        forall|j: int| 0 <= j < items@.len() ==> vars_below(#[trigger] items@[j]@, n),
        forall|j: int| 0 <= j < map@.len() ==> ((#[trigger] map@[j]).1.0 as nat) < n,
    ensures
        out@.len() == items@.len(),
        forall|j: int| 0 <= j < out@.len() ==> vars_below(#[trigger] out@[j]@, n),
        forall|j: int| 0 <= j < out@.len() ==> #[trigger] out@[j]@ == renamed(items@[j]@, map@),
    decreases items, 1int,
{
    let mut out: Vec<Ty> = Vec::new();
    let mut k: usize = 0;
    while k < items.len()
        invariant
            k <= items@.len(),
            out@.len() == k,
            forall|j: int| 0 <= j < items@.len() ==> vars_below(#[trigger] items@[j]@, n),
            forall|j: int| 0 <= j < map@.len() ==> ((#[trigger] map@[j]).1.0 as nat) < n,
            forall|j: int| 0 <= j < k ==> vars_below(#[trigger] out@[j]@, n),
            forall|j: int| 0 <= j < k ==> #[trigger] out@[j]@ == renamed(items@[j]@, map@),
        decreases items@.len() - k,
    {
        let x = rename_vars(&items[k], map, Ghost(n));
        out.push(x);
        k = k + 1;
    }
    out
}

pub open spec fn ambiguous_text(v: nat) -> Seq<char> {
    "ambiguous type 't"@ + decimal_digits(v) + " — add an annotation-free monomorphic use"@
}

/// `t` when it has no variable; else the error naming its first one.
fn ground_check(t: &Ty) -> (r: Result<Ty, TypeError>)
    ensures
        match r {
            Ok(g) => vars_below(g@, 0) && g@ == t@,
            Err(e) => exists|v: nat| e.0@ == ambiguous_text(v) && #[trigger] occurs_in(v, t@),
        },
    decreases t, 0int,
{
    match t {
        Ty::Var(v) => {
            let mut m = chars_of("ambiguous type 't");
            let mut d = digits_of(v.0 as u64);
            m.append(&mut d);
            push_str(&mut m, " — add an annotation-free monomorphic use");
            let e = TypeError(string_of(&m));
            assert(e.0@ == ambiguous_text(v.0 as nat));
            assert(occurs_in(v.0 as nat, t@));
            Err(e)
        },
        Ty::Tuple(items) => {
            let out = match ground_all(items) {
                Ok(v) => v,
                Err(e) => {
                    proof {
                        let (v, j) = choose|v: nat, j: int| 0 <= j < items@.len() && e.0@ == ambiguous_text(v)
                            && #[trigger] occurs_in(v, #[trigger] items@[j]@);
                        assert(items@[j]@ == crate::types::ty_models(items@)[j]);
                        lemma_occurs_tuple(v, t@);
                        assert(occurs_in(v, t@));
                    }
                    return Err(e);
                },
            };
            let r = Ty::Tuple(out);
            proof {
                let os = crate::types::ty_models(out@);
                assert forall|j: int| 0 <= j < os.len() implies vars_below(#[trigger] os[j], 0) by {
                    assert(os[j] == out@[j]@);
                }
                let is = crate::types::ty_models(items@);
                assert forall|j: int| 0 <= j < os.len() implies #[trigger] os[j] == is[j] by {
                    assert(os[j] == out@[j]@);
                    assert(is[j] == items@[j]@);
                }
                assert(os =~= is);
            }
            Ok(r)
        },
        Ty::Fun(a, b) => {
            let ga = match ground_check(a) {
                Ok(g) => g,
                Err(e) => {
                    proof {
                        let v = choose|v: nat| e.0@ == ambiguous_text(v) && #[trigger] occurs_in(v, a@);
                        assert(occurs_in(v, t@));
                    }
                    return Err(e);
                },
            };
            let gb = match ground_check(b) {
                Ok(g) => g,
                Err(e) => {
                    proof {
                        let v = choose|v: nat| e.0@ == ambiguous_text(v) && #[trigger] occurs_in(v, b@);
                        assert(occurs_in(v, t@));
                    }
                    return Err(e);
                },
            };
            Ok(Ty::Fun(Box::new(ga), Box::new(gb)))
        },
        other => Ok(other.duplicate()),
    }
}

fn ground_all(items: &Vec<Ty>) -> (r: Result<Vec<Ty>, TypeError>)
    ensures
        match r {
            Ok(v) => v@.len() == items@.len() && (forall|j: int| 0 <= j < v@.len() ==> vars_below(#[trigger] v@[j]@, 0))
                && forall|j: int| 0 <= j < v@.len() ==> #[trigger] v@[j]@ == items@[j]@,
            Err(e) => exists|v: nat, j: int| 0 <= j < items@.len() && e.0@ == ambiguous_text(v)
                && #[trigger] occurs_in(v, #[trigger] items@[j]@),
        },
    decreases items, 1int,
{
    let mut out: Vec<Ty> = Vec::new();
    let mut k: usize = 0;
    while k < items.len()
        invariant
            k <= items@.len(),
            out@.len() == k,
            forall|j: int| 0 <= j < k ==> vars_below(#[trigger] out@[j]@, 0),
            forall|j: int| 0 <= j < k ==> #[trigger] out@[j]@ == items@[j]@,
        decreases items@.len() - k,
    {
        match ground_check(&items[k]) {
            Ok(g) => out.push(g),
            Err(e) => {
                proof {
                    let v = choose|v: nat| e.0@ == ambiguous_text(v) && #[trigger] occurs_in(v, items@[k as int]@);
                    assert(occurs_in(v, items@[k as int]@));
                }
                return Err(e);
            },
        }
        k = k + 1;
    }
    Ok(out)
}

impl TypeTable {
    /// Appends the variables free in `ty`, once resolved, that `out`
    /// does not hold yet.
    pub fn free_vars(&mut self, ty: &Ty, out: &mut Vec<TyVid>)
        requires
            old(self).wf(),
            vars_below(ty@, old(self).len()),
            forall|j: int| 0 <= j < old(out)@.len() ==> ((#[trigger] old(out)@[j]).0 as nat) < old(self).len(),
        ensures
            final(self).wf(),
            final(self).same(old(self)),
            final(self).len() == old(self).len(),
            final(out)@.len() >= old(out)@.len(),
            final(out)@.subrange(0, old(out)@.len() as int) == old(out)@,
            forall|j: int| 0 <= j < final(out)@.len() ==> ((#[trigger] final(out)@[j]).0 as nat) < old(self).len(),
            final(out)@ == with_vars(old(out)@, old(self).resolution(ty@)),
    {
        let r = self.resolve(ty);
        collect_vars(&r, out, Ghost(self.len()));
    }

    /// `ty`, resolved, with its variables renamed through `map`.
    pub fn substitute(&mut self, ty: &Ty, map: &Vec<(TyVid, TyVid)>) -> (r: Ty)
        requires
            old(self).wf(),
            vars_below(ty@, old(self).len()),
            forall|j: int| 0 <= j < map@.len() ==> ((#[trigger] map@[j]).1.0 as nat) < old(self).len(),
        ensures
            final(self).wf(),
            final(self).same(old(self)),
            final(self).len() == old(self).len(),
            vars_below(r@, old(self).len()),
            r@ == renamed(old(self).resolution(ty@), map@),
    {
        let r = self.resolve(ty);
        rename_vars(&r, map, Ghost(self.len()))
    }

    /// `ty` fully resolved, which must leave no variable.
    pub fn zonk_ty(&mut self, ty: &Ty) -> (r: Result<Ty, TypeError>)
        requires
            old(self).wf(),
            vars_below(ty@, old(self).len()),
        ensures
            final(self).wf(),
            final(self).same(old(self)),
            final(self).len() == old(self).len(),
            match r {
                Ok(g) => vars_below(g@, 0) && g@ == old(self).resolution(ty@),
                Err(e) => exists|v: nat| e.0@ == ambiguous_text(v) && #[trigger] occurs_in(v, old(self).resolution(ty@)),
            },
    {
        let r = self.resolve(ty);
        ground_check(&r)
    }
}

} // verus!

verus! {

/// `t` resolved with `fuel` steps through bindings: a variable becomes
/// what its class is bound to, resolved in turn, or its class's root.
pub open spec fn deep(t: TyModel, roots: Seq<nat>, vals: Seq<Option<TyModel>>, fuel: nat) -> TyModel
    decreases fuel, t,
{
    match t {
        TyModel::Var(v) => {
            let r = roots[v as int];
            match vals[r as int] {
                Some(u) => if fuel > 0 {
                    deep(u, roots, vals, (fuel - 1) as nat)
                } else {
                    TyModel::Var(r as u32)
                },
                None => TyModel::Var(r as u32),
            }
        },
        TyModel::Tuple(items) => TyModel::Tuple(Seq::new(items.len(), |i: int| if 0 <= i < items.len() {
            deep(items[i], roots, vals, fuel)
        } else {
            TyModel::Unit
        })),
        TyModel::Fun(a, b) => TyModel::Fun(Box::new(deep(*a, roots, vals, fuel)), Box::new(deep(*b, roots, vals, fuel))),
        _ => t,
    }
}

/// `t` with variable `x` replaced by `s`.
pub open spec fn subst(t: TyModel, x: nat, s: TyModel) -> TyModel
    decreases t,
{
    match t {
        TyModel::Var(v) => if v == x { s } else { t },
        TyModel::Tuple(items) => TyModel::Tuple(Seq::new(items.len(), |i: int| if 0 <= i < items.len() {
            subst(items[i], x, s)
        } else {
            TyModel::Unit
        })),
        TyModel::Fun(a, b) => TyModel::Fun(Box::new(subst(*a, x, s)), Box::new(subst(*b, x, s))),
        _ => t,
    }
}

/// `t` with variables `a` and `b` renamed to `z`.
pub open spec fn rename(t: TyModel, a: nat, b: nat, z: nat) -> TyModel
    decreases t,
{
    match t {
        TyModel::Var(v) => if v == a || v == b { TyModel::Var(z as u32) } else { t },
        TyModel::Tuple(items) => TyModel::Tuple(Seq::new(items.len(), |i: int| if 0 <= i < items.len() {
            rename(items[i], a, b, z)
        } else {
            TyModel::Unit
        })),
        TyModel::Fun(p, q) => TyModel::Fun(Box::new(rename(*p, a, b, z)), Box::new(rename(*q, a, b, z))),
        _ => t,
    }
}

/// A fresh variable changes how no older type resolves.
proof fn lemma_deep_push(t: TyModel, roots: Seq<nat>, vals: Seq<Option<TyModel>>, rank: Seq<nat>, top: nat, f: nat)
    requires
        uf_ok(roots, vals, rank, top),
        vars_below(t, roots.len()),
    ensures
        deep(t, roots.push(roots.len()), vals.push(None), f) == deep(t, roots, vals, f),
    decreases f, t,
{
    let r2 = roots.push(roots.len());
    let v2 = vals.push(None);
    match t {
        TyModel::Var(v) => {
            let r = roots[v as int];
            assert(r < roots.len());
            assert(roots[r as int] == r);
            assert(r2[v as int] == r);
            assert(v2[r as int] == vals[r as int]);
            match vals[r as int] {
                Some(u) => {
                    if f > 0 {
                        lemma_deep_push(u, roots, vals, rank, top, (f - 1) as nat);
                    }
                },
                None => {},
            }
        },
        TyModel::Tuple(items) => {
            assert forall|i: int| 0 <= i < items.len() implies deep(items[i], r2, v2, f) == deep(items[i], roots, vals, f) by {
                assert(vars_below(items[i], roots.len()));
                lemma_deep_push(items[i], roots, vals, rank, top, f);
            }
            assert(deep(t, r2, v2, f)->Tuple_0 =~= deep(t, roots, vals, f)->Tuple_0);
        },
        TyModel::Fun(a, b) => {
            lemma_deep_push(*a, roots, vals, rank, top, f);
            lemma_deep_push(*b, roots, vals, rank, top, f);
        },
        _ => {},
    }
}

/// Enough fuel resolves fully: any two fuels above the ranks agree.
proof fn lemma_deep_fuel(t: TyModel, roots: Seq<nat>, vals: Seq<Option<TyModel>>, rank: Seq<nat>, top: nat, h: nat, f1: nat, f2: nat)
    requires
        roots.len() <= u32::MAX + 1,
        uf_ok(roots, vals, rank, top),
        vars_below(t, roots.len()),
        ranks_bounded(t, roots, rank, h),
        h < f1,
        h < f2,
    ensures
        deep(t, roots, vals, f1) == deep(t, roots, vals, f2),
    decreases h, t,
{
    match t {
        TyModel::Var(v) => {
            let r = roots[v as int];
            assert(r < roots.len());
            assert(roots[r as int] == r);
            match vals[r as int] {
                Some(u) => {
                    lemma_deep_fuel(u, roots, vals, rank, top, (rank[r as int] - 1) as nat, (f1 - 1) as nat, (f2 - 1) as nat);
                },
                None => {},
            }
        },
        TyModel::Tuple(items) => {
            lemma_tuple_parts(t, roots, vals, rank, h);
            assert forall|i: int| 0 <= i < items.len() implies deep(items[i], roots, vals, f1) == deep(items[i], roots, vals, f2) by {
                lemma_deep_fuel(items[i], roots, vals, rank, top, h, f1, f2);
            }
            assert(deep(t, roots, vals, f1)->Tuple_0 =~= deep(t, roots, vals, f2)->Tuple_0);
        },
        TyModel::Fun(a, b) => {
            lemma_deep_fuel(*a, roots, vals, rank, top, h, f1, f2);
            lemma_deep_fuel(*b, roots, vals, rank, top, h, f1, f2);
        },
        _ => {},
    }
}

/// A resolved type resolves to itself.
proof fn lemma_deep_resolved(t: TyModel, roots: Seq<nat>, vals: Seq<Option<TyModel>>, f: nat)
    requires
        resolved(t, roots, vals),
    ensures
        deep(t, roots, vals, f) == t,
    decreases t,
{
    match t {
        TyModel::Tuple(items) => {
            assert forall|i: int| 0 <= i < items.len() implies deep(items[i], roots, vals, f) == items[i] by {
                assert(resolved(items[i], roots, vals));
                lemma_deep_resolved(items[i], roots, vals, f);
            }
            assert(deep(t, roots, vals, f)->Tuple_0 =~= items);
        },
        TyModel::Fun(a, b) => {
            lemma_deep_resolved(*a, roots, vals, f);
            lemma_deep_resolved(*b, roots, vals, f);
        },
        _ => {},
    }
}

/// Substituting a variable that does not occur changes nothing.
proof fn lemma_subst_absent(t: TyModel, x: nat, s: TyModel)
    requires
        !occurs_in(x, t),
    ensures
        subst(t, x, s) == t,
    decreases t,
{
    match t {
        TyModel::Tuple(items) => {
            assert forall|i: int| 0 <= i < items.len() implies subst(items[i], x, s) == items[i] by {
                assert(!occurs_in(x, items[i]));
                lemma_subst_absent(items[i], x, s);
            }
            assert(subst(t, x, s)->Tuple_0 =~= items);
        },
        TyModel::Fun(a, b) => {
            lemma_subst_absent(*a, x, s);
            lemma_subst_absent(*b, x, s);
        },
        _ => {},
    }
}

/// Binding an unbound root it does not mention leaves a resolved type
/// resolved.
proof fn lemma_resolved_bind(t: TyModel, roots: Seq<nat>, vals: Seq<Option<TyModel>>, x: int, s: TyModel)
    requires
        resolved(t, roots, vals),
        vars_below(t, vals.len()),
        !occurs_in(x as nat, t),
        0 <= x < vals.len(),
    ensures
        resolved(t, roots, vals.update(x, Some(s))),
    decreases t,
{
    match t {
        TyModel::Tuple(items) => {
            assert forall|i: int| 0 <= i < items.len() implies resolved(#[trigger] items[i], roots, vals.update(x, Some(s))) by {
                assert(resolved(items[i], roots, vals));
                assert(vars_below(items[i], vals.len()));
                assert(!occurs_in(x as nat, items[i]));
                lemma_resolved_bind(items[i], roots, vals, x, s);
            }
        },
        TyModel::Fun(a, b) => {
            lemma_resolved_bind(*a, roots, vals, x, s);
            lemma_resolved_bind(*b, roots, vals, x, s);
        },
        _ => {},
    }
}

/// After binding the unbound root `x` to `s`, a type resolves to what it
/// resolved to before with `x` replaced by `s`.
proof fn lemma_deep_bind(
    t: TyModel,
    roots: Seq<nat>,
    vals: Seq<Option<TyModel>>,
    rank: Seq<nat>,
    top: nat,
    h: nat,
    f: nat,
    x: int,
    s: TyModel,
)
    requires
        roots.len() <= u32::MAX + 1,
        uf_ok(roots, vals, rank, top),
        vars_below(t, roots.len()),
        ranks_bounded(t, roots, rank, h),
        h < f,
        0 <= x < roots.len(),
        roots[x] == x,
        vals[x] is None,
        resolved(s, roots, vals),
        vars_below(s, roots.len()),
        !occurs_in(x as nat, s),
    ensures
        deep(t, roots, vals.update(x, Some(s)), f + 1) == subst(deep(t, roots, vals, f), x as nat, s),
    decreases h, t,
{
    let v2 = vals.update(x, Some(s));
    match t {
        TyModel::Var(v) => {
            let r = roots[v as int];
            assert(r < roots.len());
            assert(roots[r as int] == r);
            if r == x {
                lemma_resolved_bind(s, roots, vals, x, s);
                lemma_deep_resolved(s, roots, v2, f);
            } else {
                assert(v2[r as int] == vals[r as int]);
                match vals[r as int] {
                    Some(u) => {
                        lemma_deep_bind(u, roots, vals, rank, top, (rank[r as int] - 1) as nat, (f - 1) as nat, x, s);
                        assert((f - 1) as nat + 1 == f);
                    },
                    None => {},
                }
            }
        },
        TyModel::Tuple(items) => {
            lemma_tuple_parts(t, roots, vals, rank, h);
            assert forall|i: int| 0 <= i < items.len() implies deep(items[i], roots, v2, f + 1)
                == subst(deep(items[i], roots, vals, f), x as nat, s) by {
                lemma_deep_bind(items[i], roots, vals, rank, top, h, f, x, s);
            }
            assert(deep(t, roots, v2, f + 1)->Tuple_0 =~= subst(deep(t, roots, vals, f), x as nat, s)->Tuple_0);
        },
        TyModel::Fun(a, b) => {
            lemma_deep_bind(*a, roots, vals, rank, top, h, f, x, s);
            lemma_deep_bind(*b, roots, vals, rank, top, h, f, x, s);
        },
        _ => {},
    }
}

/// After merging the unbound roots `a` and `b` under `z`, a type
/// resolves to what it resolved to before with `a` and `b` renamed `z`.
proof fn lemma_deep_merge(
    t: TyModel,
    roots: Seq<nat>,
    vals: Seq<Option<TyModel>>,
    rank: Seq<nat>,
    top: nat,
    h: nat,
    f: nat,
    a: nat,
    b: nat,
    z: nat,
)
    requires
        roots.len() <= u32::MAX + 1,
        uf_ok(roots, vals, rank, top),
        vars_below(t, roots.len()),
        ranks_bounded(t, roots, rank, h),
        h < f,
        a < roots.len(),
        b < roots.len(),
        roots[a as int] == a,
        roots[b as int] == b,
        vals[a as int] is None,
        vals[b as int] is None,
        z == a || z == b,
    ensures
        deep(t, merged(roots, a, b, z), vals, f) == rename(deep(t, roots, vals, f), a, b, z),
    decreases h, t,
{
    let m = merged(roots, a, b, z);
    match t {
        TyModel::Var(v) => {
            let r = roots[v as int];
            assert(r < roots.len());
            assert(roots[r as int] == r);
            assert(m[v as int] == (if r == a || r == b { z } else { r }));
            match vals[r as int] {
                Some(u) => {
                    lemma_deep_merge(u, roots, vals, rank, top, (rank[r as int] - 1) as nat, (f - 1) as nat, a, b, z);
                },
                None => {},
            }
        },
        TyModel::Tuple(items) => {
            lemma_tuple_parts(t, roots, vals, rank, h);
            assert forall|i: int| 0 <= i < items.len() implies deep(items[i], m, vals, f)
                == rename(deep(items[i], roots, vals, f), a, b, z) by {
                lemma_deep_merge(items[i], roots, vals, rank, top, h, f, a, b, z);
            }
            assert(deep(t, m, vals, f)->Tuple_0 =~= rename(deep(t, roots, vals, f), a, b, z)->Tuple_0);
        },
        TyModel::Fun(p, q) => {
            lemma_deep_merge(*p, roots, vals, rank, top, h, f, a, b, z);
            lemma_deep_merge(*q, roots, vals, rank, top, h, f, a, b, z);
        },
        _ => {},
    }
}

} // verus!
