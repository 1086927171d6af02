//! The differential runner: every case through every applicable runner,
//! each output canonicalized, then compared across runners. A
//! disagreement between runners is a first-rank finding. Running the
//! runners is the caller's part; this module assembles and judges the
//! matrix of their outputs.

use vstd::prelude::*;
use crate::harness::canon::{canonical, canonicalize};
use crate::harness::case::Case;
use crate::harness::runner::{engages_spec, RunError, Runner};
use crate::text::{lex_le, push_str, string_of};

verus! {

/// One case's canonical output (or error text) per runner, in
/// ascending order of runner name.
#[derive(Debug)]
pub struct CaseDiff {
    pub name: String,
    pub outputs: Vec<(&'static str, Result<String, String>)>,
}

/// Agreement: every runner succeeded and produced identical text.
pub open spec fn agrees_spec(outs: Seq<(&'static str, Result<String, String>)>) -> bool {
    &&& forall|j: int| 0 <= j < outs.len() ==> (#[trigger] outs[j]).1 is Ok
    &&& forall|j: int, k: int|
        0 <= j < outs.len() && 0 <= k < outs.len() ==> (#[trigger] outs[j]).1->Ok_0@ == (#[trigger] outs[k]).1->Ok_0@
}

impl CaseDiff {
    /// Agreement = every runner succeeded and produced identical bytes.
    pub fn agrees(&self) -> (r: bool)
        ensures
            r == agrees_spec(self.outputs@),
    {
        let outs = &self.outputs;
        let ghost v = outs@;
        if outs.len() == 0 {
            return true;
        }
        let reference = match &outs[0].1 {
            Ok(text) => text,
            Err(_) => {
                return false;
            },
        };
        let mut i: usize = 1;
        while i < outs.len()
            invariant
                1 <= i <= v.len(),
                v == outs@,
                v == self.outputs@,
                v[0].1 matches Ok(t) && t@ == reference@,
                forall|j: int| 0 <= j < i ==> ((#[trigger] v[j]).1 matches Ok(t) && t@ == reference@),
            decreases v.len() - i,
        {
            match &outs[i].1 {
                Err(_) => {
                    assert(!(v[i as int].1 is Ok));
                    return false;
                },
                Ok(text) => {
                    if !(*text == *reference) {
                        assert(!agrees_spec(v)) by {
                            if agrees_spec(v) {
                                assert(v[i as int].1->Ok_0@ == v[0].1->Ok_0@);
                            }
                        }
                        return false;
                    }
                },
            }
            i = i + 1;
        }
        true
    }
}

#[derive(Debug)]
pub struct DiffReport {
    pub runner_names: Vec<&'static str>,
    pub diffs: Vec<CaseDiff>,
}

impl DiffReport {
    pub fn is_green(&self) -> (r: bool)
        ensures
            r == forall|i: int| 0 <= i < self.diffs@.len() ==> agrees_spec(#[trigger] self.diffs@[i].outputs@),
    {
        let mut i: usize = 0;
        while i < self.diffs.len()
            invariant
                i <= self.diffs@.len(),
                forall|j: int| 0 <= j < i ==> agrees_spec(#[trigger] self.diffs@[j].outputs@),
            decreases self.diffs@.len() - i,
        {
            if !self.diffs[i].agrees() {
                return false;
            }
            i = i + 1;
        }
        true
    }
}

/// What a diff entry holds for a runner's raw result: the canonical
/// output, or the error's text.
pub open spec fn entry_matches(entry: Result<String, String>, raw: Result<String, RunError>) -> bool {
    match (entry, raw) {
        (Ok(s), Ok(t)) => s@ == canonical(t@),
        (Err(s), Err(e)) => s@ == e.spec_message(),
        _ => false,
    }
}

/// A diff entry against a matrix slot that holds a run.
pub open spec fn slot_matches(entry: Result<String, String>, slot: Option<Result<String, RunError>>) -> bool {
    match slot {
        Some(x) => entry_matches(entry, x),
        None => false,
    }
}

/// Runner names as text.
pub open spec fn runner_texts(names: Seq<&'static str>) -> Seq<Seq<char>> {
    names.map_values(|n: &'static str| n@)
}

/// No name occurs twice among the runners that ran a case: the names
/// key its outputs.
pub open spec fn distinct_ran(names: Seq<&'static str>, raw: Seq<Option<Result<String, RunError>>>) -> bool {
    forall|a: int, b: int|
        0 <= a < b < names.len() && raw[a] is Some && raw[b] is Some ==> (#[trigger] names[a])@ != (#[trigger] names[b])@
}

/// The case at `c` has runner `r` among its outputs.
pub open spec fn diff_of_case(
    d: CaseDiff,
    case: Case,
    names: Seq<&'static str>,
    raw: Seq<Option<Result<String, RunError>>>,
) -> bool {
    let outs = d.outputs@;
    &&& d.name@ == case.name@
    &&& if exists|r: int| 0 <= r < names.len() && (#[trigger] raw[r]) is Some {
        &&& forall|j: int, k: int|
            0 <= j < k < outs.len() ==> lex_le((#[trigger] outs[j]).0@, (#[trigger] outs[k]).0@)
                && outs[j].0@ != outs[k].0@
        &&& forall|j: int|
            0 <= j < outs.len() ==> exists|r: int|
                0 <= r < names.len() && (#[trigger] raw[r]) is Some
                    && (#[trigger] outs[j]).0 == names[r] && slot_matches(outs[j].1, raw[r])
        &&& forall|r: int|
            0 <= r < names.len() && (#[trigger] raw[r]) is Some ==> exists|j: int|
                0 <= j < outs.len() && (#[trigger] outs[j]).0 == names[r]
    } else {
        &&& outs.len() == 1
        &&& outs[0].0@ == "(none)"@
        &&& outs[0].1 matches Err(m) && m@ == "no registered runner applies to this case"@
    }
}

/// `x` occurs in `s`.
pub open spec fn holds_index(s: Seq<usize>, x: int) -> bool {
    exists|j: int| 0 <= j < s.len() && s[j] == x
}

/// The runner indices in ascending order of name.
fn name_order(names: &Vec<&'static str>) -> (order: Vec<usize>)
    ensures
        order@.len() == names@.len(),
        forall|j: int| 0 <= j < order@.len() ==> (#[trigger] order@[j]) < names@.len(),
        forall|j: int, k: int| 0 <= j < k < order@.len() ==> (#[trigger] order@[j]) != (#[trigger] order@[k]),
        forall|j: int, k: int|
            0 <= j < k < order@.len() ==> lex_le((#[trigger] names@[order@[j] as int])@, (#[trigger] names@[order@[k] as int])@),
        forall|x: int| 0 <= x < names@.len() ==> #[trigger] holds_index(order@, x),
{
    let mut order: Vec<usize> = Vec::new();
    let mut r: usize = 0;
    while r < names.len()
        invariant
            r <= names@.len(),
            order@.len() == r,
            forall|j: int| 0 <= j < order@.len() ==> (#[trigger] order@[j]) < r,
            forall|j: int, k: int| 0 <= j < k < order@.len() ==> (#[trigger] order@[j]) != (#[trigger] order@[k]),
            forall|j: int, k: int|
                0 <= j < k < order@.len() ==> lex_le((#[trigger] names@[order@[j] as int])@, (#[trigger] names@[order@[k] as int])@),
            forall|x: int| 0 <= x < r ==> #[trigger] holds_index(order@, x),
        decreases names@.len() - r,
    {
        let mut p: usize = 0;
        while p < order.len() && !crate::text::text_le(names[r], names[order[p]])
            invariant
                p <= order@.len(),
                r < names@.len(),
                forall|j: int| 0 <= j < order@.len() ==> (#[trigger] order@[j]) < r,
                forall|i: int| 0 <= i < p ==> !lex_le(names@[r as int]@, #[trigger] names@[order@[i] as int]@),
            decreases order@.len() - p,
        {
            p = p + 1;
        }
        let ghost before = order@;
        proof {
            let s = before.insert(p as int, r);
            assert forall|j: int, k: int| 0 <= j < k < s.len() implies
                lex_le(#[trigger] names@[s[j] as int]@, #[trigger] names@[s[k] as int]@) by {
                let x = names@[r as int]@;
                if j < p && k == p {
                    crate::text::lemma_lex_total(x, names@[before[j] as int]@);
                } else if j == p && k > p {
                    if k - 1 > p {
                        assert(lex_le(names@[before[p as int] as int]@, names@[before[k - 1] as int]@));
                        crate::text::lemma_lex_trans(x, names@[before[p as int] as int]@, names@[before[k - 1] as int]@);
                    }
                } else if j < p && k > p {
                    assert(s[j] == before[j] && s[k] == before[k - 1]);
                } else if k < p {
                    assert(s[j] == before[j] && s[k] == before[k]);
                } else {
                    assert(s[j] == before[j - 1] && s[k] == before[k - 1]);
                }
            }
        }
        order.insert(p, r);
        proof {
            assert forall|x: int| 0 <= x < r + 1 implies #[trigger] holds_index(order@, x) by {
                if x == r {
                    assert(order@[p as int] == r);
                } else {
                    assert(holds_index(before, x));
                    let j = choose|j: int| 0 <= j < before.len() && before[j] == x;
                    if j < p {
                        assert(order@[j] == x);
                    } else {
                        assert(order@[j + 1] == x);
                    }
                }
            }
            assert forall|j: int, k: int| 0 <= j < k < order@.len() implies (#[trigger] order@[j]) != (#[trigger] order@[k]) by {
                if j == p {
                    assert(order@[k] == before[k - 1]);
                } else if k == p {
                    assert(order@[j] == before[j]);
                } else if j < p && k < p {
                    assert(order@[j] == before[j] && order@[k] == before[k]);
                } else if j < p {
                    assert(order@[j] == before[j] && order@[k] == before[k - 1]);
                } else {
                    assert(order@[j] == before[j - 1] && order@[k] == before[k - 1]);
                }
            }
        }
        r = r + 1;
    }
    order
}

} // verus!

verus! {

fn entry_of(x: &Result<String, RunError>) -> (e: Result<String, String>)
    ensures
        entry_matches(e, *x),
{
    match x {
        Ok(text) => Ok(canonicalize(text.as_str())),
        Err(error) => Err(error.message()),
    }
}

fn case_diff(
    case: &Case,
    names: &Vec<&'static str>,
    order: &Vec<usize>,
    slots: &Vec<Option<Result<String, RunError>>>,
) -> (d: CaseDiff)
    requires
        slots@.len() == names@.len(),
        distinct_ran(names@, slots@),
        order@.len() == names@.len(),
        forall|j: int| 0 <= j < order@.len() ==> (#[trigger] order@[j]) < names@.len(),
        forall|j: int, k: int| 0 <= j < k < order@.len() ==> (#[trigger] order@[j]) != (#[trigger] order@[k]),
        forall|j: int, k: int|
            0 <= j < k < order@.len() ==> lex_le((#[trigger] names@[order@[j] as int])@, (#[trigger] names@[order@[k] as int])@),
        forall|x: int| 0 <= x < names@.len() ==> #[trigger] holds_index(order@, x),
    ensures
        diff_of_case(d, *case, names@, slots@),
{
    let ghost nm = names@;
    let mut outs: Vec<(&'static str, Result<String, String>)> = Vec::new();
    let ghost mut src: Seq<int> = Seq::empty();
    let ghost mut pos: Seq<int> = Seq::empty();
    let mut j: usize = 0;
    while j < order.len()
        invariant
            j <= order@.len(),
            nm == names@,
            order@.len() == nm.len(),
            slots@.len() == nm.len(),
            distinct_ran(nm, slots@),
            forall|a: int| 0 <= a < order@.len() ==> (#[trigger] order@[a]) < nm.len(),
            forall|a: int, b: int| 0 <= a < b < order@.len() ==> (#[trigger] order@[a]) != (#[trigger] order@[b]),
            forall|a: int, b: int|
                0 <= a < b < order@.len() ==> lex_le((#[trigger] nm[order@[a] as int])@, (#[trigger] nm[order@[b] as int])@),
            outs@.len() == src.len(),
            src.len() == pos.len(),
            forall|t: int| 0 <= t < pos.len() ==> 0 <= #[trigger] pos[t] < j && src[t] == order@[pos[t]] as int,
            forall|t: int, u: int| 0 <= t < u < pos.len() ==> (#[trigger] pos[t]) < (#[trigger] pos[u]),
            forall|t: int|
                0 <= t < outs@.len() ==> 0 <= #[trigger] src[t] < nm.len() && slots@[src[t]] is Some
                    && outs@[t].0 == nm[src[t]] && slot_matches(outs@[t].1, slots@[src[t]]),
            forall|q: int|
                0 <= q < j && slots@[order@[q] as int] is Some ==> exists|t: int|
                    0 <= t < src.len() && #[trigger] src[t] == order@[q] as int,
        decreases order@.len() - j,
    {
        let r = order[j];
        let ghost old_src = src;
        match &slots[r] {
            Some(x) => {
                let e = entry_of(x);
                outs.push((names[r], e));
                proof {
                    src = src.push(r as int);
                    pos = pos.push(j as int);
                    assert(src[src.len() - 1] == r as int);
                }
            },
            None => {},
        }
        proof {
            assert forall|q: int| 0 <= q < j + 1 && slots@[order@[q] as int] is Some implies exists|t: int|
                0 <= t < src.len() && #[trigger] src[t] == order@[q] as int by {
                if q == j {
                    assert(slots@[r as int] is Some);
                    assert(src[src.len() - 1] == r as int);
                } else {
                    let t = choose|t: int| 0 <= t < old_src.len() && #[trigger] old_src[t] == order@[q] as int;
                    assert(src[t] == old_src[t]);
                }
            }
        }
        j = j + 1;
    }
    let ghost v = outs@;
    if outs.len() == 0 {
        assert(!exists|r: int| 0 <= r < nm.len() && (#[trigger] slots@[r]) is Some) by {
            if exists|r: int| 0 <= r < nm.len() && (#[trigger] slots@[r]) is Some {
                let r = choose|r: int| 0 <= r < nm.len() && (#[trigger] slots@[r]) is Some;
                assert(holds_index(order@, r));
                let q = choose|q: int| 0 <= q < order@.len() && order@[q] == r;
                assert(slots@[order@[q] as int] is Some);
            }
        }
        let mut none: Vec<(&'static str, Result<String, String>)> = Vec::new();
        none.push(("(none)", Err("no registered runner applies to this case".to_owned())));
        return CaseDiff { name: case.name.clone(), outputs: none };
    }
    proof {
        assert(src.len() > 0);
        let r0 = src[0];
        assert(slots@[r0] is Some);
        assert forall|a: int, b: int| 0 <= a < b < v.len() implies lex_le((#[trigger] v[a]).0@, (#[trigger] v[b]).0@)
            && v[a].0@ != v[b].0@ by {
            assert(pos[a] < pos[b]);
            assert(src[a] == order@[pos[a]] as int && src[b] == order@[pos[b]] as int);
            assert(order@[pos[a]] != order@[pos[b]]);
            if src[a] < src[b] {
                assert(nm[src[a]]@ != nm[src[b]]@);
            } else {
                assert(nm[src[b]]@ != nm[src[a]]@);
            }
        }
        assert forall|jj: int| 0 <= jj < v.len() implies exists|r: int|
            0 <= r < nm.len() && (#[trigger] slots@[r]) is Some
                && (#[trigger] v[jj]).0 == nm[r] && slot_matches(v[jj].1, slots@[r]) by {
            let r = src[jj];
            assert(slots@[r] is Some);
        }
        assert forall|r: int| 0 <= r < nm.len() && (#[trigger] slots@[r]) is Some implies exists|jj: int|
            0 <= jj < v.len() && (#[trigger] v[jj]).0 == nm[r] by {
            assert(holds_index(order@, r));
            let q = choose|q: int| 0 <= q < order@.len() && order@[q] == r;
            assert(slots@[order@[q] as int] is Some);
            let t = choose|t: int| 0 <= t < src.len() && src[t] == order@[q] as int;
            assert(v[t].0 == nm[r]);
        }
    }
    CaseDiff { name: case.name.clone(), outputs: outs }
}

/// Judges the corpus matrix: `raw[c][r]` is runner `r`'s raw result on
/// case `c`, present where that runner ran the case. The runners that
/// ran one case must carry distinct names (they key its outputs).
pub fn diff_corpus(
    cases: &Vec<Case>,
    runner_names: &Vec<&'static str>,
    raw: &Vec<Vec<Option<Result<String, RunError>>>>,
) -> (rep: DiffReport)
    requires
        runner_names@.len() > 0,
        raw@.len() == cases@.len(),
        forall|c: int| 0 <= c < raw@.len() ==> (#[trigger] raw@[c])@.len() == runner_names@.len(),
        forall|c: int| 0 <= c < raw@.len() ==> distinct_ran(runner_names@, (#[trigger] raw@[c])@),
    ensures
        rep.runner_names@ == runner_names@,
        rep.diffs@.len() == cases@.len(),
        forall|c: int| 0 <= c < cases@.len() ==> diff_of_case(#[trigger] rep.diffs@[c], cases@[c], runner_names@, raw@[c]@),
{
    let order = name_order(runner_names);
    let mut diffs: Vec<CaseDiff> = Vec::new();
    let mut c: usize = 0;
    while c < cases.len()
        invariant
            c <= cases@.len(),
            raw@.len() == cases@.len(),
            diffs@.len() == c,
            forall|cc: int| 0 <= cc < raw@.len() ==> (#[trigger] raw@[cc])@.len() == runner_names@.len(),
            forall|cc: int| 0 <= cc < raw@.len() ==> distinct_ran(runner_names@, (#[trigger] raw@[cc])@),
            order@.len() == runner_names@.len(),
            forall|j: int| 0 <= j < order@.len() ==> (#[trigger] order@[j]) < runner_names@.len(),
            forall|j: int, k: int| 0 <= j < k < order@.len() ==> (#[trigger] order@[j]) != (#[trigger] order@[k]),
            forall|j: int, k: int|
                0 <= j < k < order@.len() ==> lex_le((#[trigger] runner_names@[order@[j] as int])@, (#[trigger] runner_names@[order@[k] as int])@),
            forall|x: int| 0 <= x < runner_names@.len() ==> #[trigger] holds_index(order@, x),
            forall|cc: int| 0 <= cc < c ==> diff_of_case(#[trigger] diffs@[cc], cases@[cc], runner_names@, raw@[cc]@),
        decreases cases@.len() - c,
    {
        assert(distinct_ran(runner_names@, raw@[c as int]@));
        let d = case_diff(&cases[c], runner_names, &order, &raw[c]);
        diffs.push(d);
        c = c + 1;
    }
    let mut names: Vec<&'static str> = Vec::new();
    let mut k: usize = 0;
    while k < runner_names.len()
        invariant
            k <= runner_names@.len(),
            names@ == runner_names@.take(k as int),
        decreases runner_names@.len() - k,
    {
        names.push(runner_names[k]);
        assert(runner_names@.take(k + 1) == runner_names@.take(k as int).push(runner_names@[k as int]));
        k = k + 1;
    }
    assert(runner_names@.take(runner_names@.len() as int) == runner_names@);
    DiffReport { runner_names: names, diffs }
}

} // verus!

verus! {

/// The rendered line of one runner's entry in a divergent case.
pub open spec fn entry_line(e: (&'static str, Result<String, String>)) -> Seq<char> {
    match e.1 {
        Ok(t) => "         "@ + e.0@ + ": "@ + crate::text::debug_text(t@) + "\n"@,
        Err(m) => "         "@ + e.0@ + ": ERROR "@ + m@ + "\n"@,
    }
}

pub open spec fn entry_lines(v: Seq<(&'static str, Result<String, String>)>) -> Seq<char>
    decreases v.len(),
{
    if v.len() == 0 {
        Seq::empty()
    } else {
        entry_lines(v.drop_last()) + entry_line(v.last())
    }
}

/// The rendered lines of one case: `agree`, or `DIVERGE` with every
/// runner's entry.
pub open spec fn diff_lines(d: CaseDiff) -> Seq<char> {
    if agrees_spec(d.outputs@) {
        "agree    "@ + d.name@ + "\n"@
    } else {
        "DIVERGE  "@ + d.name@ + "\n"@ + entry_lines(d.outputs@)
    }
}

pub open spec fn all_diff_lines(v: Seq<CaseDiff>) -> Seq<char>
    decreases v.len(),
{
    if v.len() == 0 {
        Seq::empty()
    } else {
        all_diff_lines(v.drop_last()) + diff_lines(v.last())
    }
}

/// How many cases diverge.
pub open spec fn divergent_count(v: Seq<CaseDiff>) -> nat
    decreases v.len(),
{
    if v.len() == 0 {
        0
    } else {
        divergent_count(v.drop_last()) + if agrees_spec(v.last().outputs@) { 0nat } else { 1nat }
    }
}

/// Runner names joined by commas.
pub open spec fn joined(names: Seq<&'static str>) -> Seq<char>
    decreases names.len(),
{
    if names.len() == 0 {
        Seq::empty()
    } else if names.len() == 1 {
        names[0]@
    } else {
        joined(names.drop_last()) + ","@ + names.last()@
    }
}

/// The rendered differential report.
pub open spec fn diff_report_text(r: DiffReport) -> Seq<char> {
    let div = divergent_count(r.diffs@);
    all_diff_lines(r.diffs@) + "diff["@ + joined(r.runner_names@) + "]: "@
        + crate::harness::canon::decimal_digits(r.diffs@.len()) + " case(s), "@
        + crate::harness::canon::decimal_digits(div) + " divergent"@ + if div > 0 {
        "\nL3: a runner disagreement is a first-rank finding — halt the feature, file it in STATE.md, fix or fence before proceeding."@
    } else if r.runner_names@.len() < 2 {
        "\nnote: single runner registered; pairwise comparison bites when the interpreter joins at M2."@
    } else {
        Seq::empty()
    }
}

proof fn lemma_divergent_bounded(v: Seq<CaseDiff>)
    ensures
        divergent_count(v) <= v.len(),
    decreases v.len(),
{
    if v.len() > 0 {
        lemma_divergent_bounded(v.drop_last());
    }
}

fn push_entry_lines(text: &mut Vec<char>, outs: &Vec<(&'static str, Result<String, String>)>)
    ensures
        final(text)@ == old(text)@ + entry_lines(outs@),
{
    let ghost start = text@;
    let mut i: usize = 0;
    while i < outs.len()
        invariant
            i <= outs@.len(),
            text@ == start + entry_lines(outs@.take(i as int)),
        decreases outs@.len() - i,
    {
        assert(outs@.take(i + 1).drop_last() == outs@.take(i as int));
        push_str(text, "         ");
        push_str(text, outs[i].0);
        match &outs[i].1 {
            Ok(t) => {
                push_str(text, ": ");
                let shown = crate::text::debug_of(t.as_str());
                push_str(text, shown.as_str());
            },
            Err(m) => {
                push_str(text, ": ERROR ");
                push_str(text, m.as_str());
            },
        }
        push_str(text, "\n");
        i = i + 1;
    }
    assert(outs@.take(outs@.len() as int) == outs@);
}

impl DiffReport {
    /// The report as text: `diff_report_text`.
    pub fn render(&self) -> (s: String)
        ensures
            s@ == diff_report_text(*self),
    {
        let ghost v = self.diffs@;
        let mut text: Vec<char> = Vec::new();
        let mut divergent: usize = 0;
        let mut i: usize = 0;
        while i < self.diffs.len()
            invariant
                i <= v.len(),
                v == self.diffs@,
                text@ == all_diff_lines(v.take(i as int)),
                divergent == divergent_count(v.take(i as int)),
            decreases v.len() - i,
        {
            proof {
                lemma_divergent_bounded(v.take(i as int));
                assert(v.take(i + 1).drop_last() == v.take(i as int));
            }
            let d = &self.diffs[i];
            if d.agrees() {
                push_str(&mut text, "agree    ");
                push_str(&mut text, d.name.as_str());
                push_str(&mut text, "\n");
            } else {
                divergent = divergent + 1;
                push_str(&mut text, "DIVERGE  ");
                push_str(&mut text, d.name.as_str());
                push_str(&mut text, "\n");
                push_entry_lines(&mut text, &d.outputs);
            }
            i = i + 1;
        }
        assert(v.take(v.len() as int) == v);
        push_str(&mut text, "diff[");
        let ghost names = self.runner_names@;
        let mut k: usize = 0;
        while k < self.runner_names.len()
            invariant
                k <= names.len(),
                names == self.runner_names@,
                text@ == all_diff_lines(v) + "diff["@ + joined(names.take(k as int)),
            decreases names.len() - k,
        {
            assert(names.take(k + 1).drop_last() == names.take(k as int));
            if k > 0 {
                push_str(&mut text, ",");
            } else {
                assert(joined(names.take(0)) == Seq::<char>::empty());
            }
            push_str(&mut text, self.runner_names[k]);
            k = k + 1;
        }
        assert(names.take(names.len() as int) == names);
        push_str(&mut text, "]: ");
        let mut digits = crate::harness::canon::digits_of(self.diffs.len() as u64);
        text.append(&mut digits);
        push_str(&mut text, " case(s), ");
        let mut digits = crate::harness::canon::digits_of(divergent as u64);
        text.append(&mut digits);
        push_str(&mut text, " divergent");
        if divergent > 0 {
            push_str(
                &mut text,
                "\nL3: a runner disagreement is a first-rank finding — halt the feature, file it in STATE.md, fix or fence before proceeding.",
            );
        } else if self.runner_names.len() < 2 {
            push_str(
                &mut text,
                "\nnote: single runner registered; pairwise comparison bites when the interpreter joins at M2.",
            );
        } else {
            assert(text@ + Seq::<char>::empty() == text@);
        }
        string_of(&text)
    }
}

} // verus!

verus! {

/// The applicable runners all succeeded, and their outputs canonicalize
/// to one text.
pub open spec fn runs_agree(case: Case, names: Seq<&'static str>, raw: Seq<Option<Result<String, RunError>>>) -> bool {
    &&& forall|r: int| 0 <= r < names.len() && (#[trigger] raw[r]) is Some ==> (raw[r] matches Some(Ok(_)))
    &&& forall|r: int, s: int|
        0 <= r < names.len() && 0 <= s < names.len() && (#[trigger] raw[r]) is Some
            && (#[trigger] raw[s]) is Some ==> canonical(raw[r]->Some_0->Ok_0@) == canonical(
            raw[s]->Some_0->Ok_0@,
        )
}

/// Differential agreement is canonical equality: a case that some
/// runner applies to agrees exactly when every applicable runner
/// succeeded and their outputs canonicalize to the same text. A runner
/// error is therefore always a divergence.
pub proof fn law_agreement_is_canonical_equality(
    d: CaseDiff,
    case: Case,
    names: Seq<&'static str>,
    raw: Seq<Option<Result<String, RunError>>>,
)
    requires
        raw.len() == names.len(),
        distinct_ran(names, raw),
        diff_of_case(d, case, names, raw),
        exists|r: int| 0 <= r < names.len() && (#[trigger] raw[r]) is Some,
    ensures
        agrees_spec(d.outputs@) <==> runs_agree(case, names, raw),
{
    let outs = d.outputs@;
    if agrees_spec(outs) {
        assert forall|r: int| 0 <= r < names.len() && (#[trigger] raw[r]) is Some implies
            (raw[r] matches Some(Ok(t)) && outs[slot_of(outs, names, r)].1->Ok_0@ == canonical(t@)) by {
            lemma_slot_of(d, case, names, raw, r);
        }
        assert forall|r: int, s: int|
            0 <= r < names.len() && 0 <= s < names.len() && (#[trigger] raw[r]) is Some
                && (#[trigger] raw[s]) is Some implies canonical(raw[r]->Some_0->Ok_0@) == canonical(
            raw[s]->Some_0->Ok_0@,
        ) by {
            lemma_slot_of(d, case, names, raw, r);
            lemma_slot_of(d, case, names, raw, s);
            let jr = slot_of(outs, names, r);
            let js = slot_of(outs, names, s);
            assert(outs[jr].1->Ok_0@ == outs[js].1->Ok_0@);
        }
    }
    if runs_agree(case, names, raw) {
        assert forall|j: int| 0 <= j < outs.len() implies ((#[trigger] outs[j]).1 matches Ok(s)
            && s@ == canonical(raw[runner_of(case, outs, names, raw, j)]->Some_0->Ok_0@)) by {
            lemma_runner_of(d, case, names, raw, j);
        }
        assert forall|j: int, k: int| 0 <= j < outs.len() && 0 <= k < outs.len() implies (#[trigger] outs[j]).1->Ok_0@
            == (#[trigger] outs[k]).1->Ok_0@ by {
            lemma_runner_of(d, case, names, raw, j);
            lemma_runner_of(d, case, names, raw, k);
        }
    }
}

/// The entry of runner `r` among a case's outputs.
pub open spec fn slot_of(outs: Seq<(&'static str, Result<String, String>)>, names: Seq<&'static str>, r: int) -> int {
    choose|j: int| 0 <= j < outs.len() && outs[j].0 == names[r]
}

/// A runner behind output entry `j`.
pub open spec fn runner_of(
    case: Case,
    outs: Seq<(&'static str, Result<String, String>)>,
    names: Seq<&'static str>,
    raw: Seq<Option<Result<String, RunError>>>,
    j: int,
) -> int {
    choose|r: int| 0 <= r < names.len() && raw[r] is Some && outs[j].0 == names[r] && slot_matches(
        outs[j].1,
        raw[r],
    )
}

proof fn lemma_slot_of(
    d: CaseDiff,
    case: Case,
    names: Seq<&'static str>,
    raw: Seq<Option<Result<String, RunError>>>,
    r: int,
)
    requires
        raw.len() == names.len(),
        distinct_ran(names, raw),
        diff_of_case(d, case, names, raw),
        exists|x: int| 0 <= x < names.len() && (#[trigger] raw[x]) is Some,
        0 <= r < names.len(),
        raw[r] is Some,
    ensures
        0 <= slot_of(d.outputs@, names, r) < d.outputs@.len(),
        d.outputs@[slot_of(d.outputs@, names, r)].0 == names[r],
        slot_matches(d.outputs@[slot_of(d.outputs@, names, r)].1, raw[r]),
{
    let outs = d.outputs@;
    assert(exists|j: int| 0 <= j < outs.len() && (#[trigger] outs[j]).0 == names[r]);
    let j = slot_of(outs, names, r);
    assert(outs[j].0 == names[r]);
    let r2 = choose|r2: int| 0 <= r2 < names.len() && (#[trigger] raw[r2]) is Some
        && outs[j].0 == names[r2] && slot_matches(outs[j].1, raw[r2]);
    if r2 != r {
        if r2 < r {
            assert(names[r2]@ != names[r]@);
        } else {
            assert(names[r]@ != names[r2]@);
        }
    }
}

proof fn lemma_runner_of(
    d: CaseDiff,
    case: Case,
    names: Seq<&'static str>,
    raw: Seq<Option<Result<String, RunError>>>,
    j: int,
)
    requires
        raw.len() == names.len(),
        diff_of_case(d, case, names, raw),
        exists|x: int| 0 <= x < names.len() && (#[trigger] raw[x]) is Some,
        runs_agree(case, names, raw),
        0 <= j < d.outputs@.len(),
    ensures
        0 <= runner_of(case, d.outputs@, names, raw, j) < names.len(),
        raw[runner_of(case, d.outputs@, names, raw, j)] is Some,
        d.outputs@[j].1 matches Ok(s) && s@ == canonical(raw[runner_of(case, d.outputs@, names, raw, j)]->Some_0->Ok_0@),
{
    let outs = d.outputs@;
    assert(exists|r: int| 0 <= r < names.len() && (#[trigger] raw[r]) is Some
        && outs[j].0 == names[r] && slot_matches(outs[j].1, raw[r]));
    let r = runner_of(case, outs, names, raw, j);
    assert(raw[r] matches Some(Ok(_)));
}

/// Each runner that engages a case has its own result on that case
/// among the case's outputs, under its own name: for a matrix as
/// `run_matrix` returns it, the entry of runner `r` is what `r` produced
/// on the case, canonicalized (an error as its message).
pub proof fn law_engaged_run_is_reported(
    d: CaseDiff,
    case: Case,
    runner: &dyn Runner,
    names: Seq<&'static str>,
    raw: Seq<Option<Result<String, RunError>>>,
    r: int,
)
    requires
        raw.len() == names.len(),
        distinct_ran(names, raw),
        diff_of_case(d, case, names, raw),
        0 <= r < names.len(),
        names[r] == runner.spec_name(),
        raw[r] is Some <==> engages_spec(case, runner),
        raw[r] is Some ==> runner.produces(case, raw[r]->Some_0),
        engages_spec(case, runner),
    ensures
        exists|j: int| 0 <= j < d.outputs@.len() && (#[trigger] d.outputs@[j]).0 == runner.spec_name()
            && slot_matches(d.outputs@[j].1, raw[r]) && runner.produces(case, raw[r]->Some_0),
{
    lemma_slot_of(d, case, names, raw, r);
    let j = slot_of(d.outputs@, names, r);
    assert(d.outputs@[j].0 == runner.spec_name());
}

/// A case that no registered runner applies to never agrees: it is red,
/// not vacuously green.
pub proof fn law_orphan_case_is_red(
    d: CaseDiff,
    case: Case,
    names: Seq<&'static str>,
    raw: Seq<Option<Result<String, RunError>>>,
)
    requires
        diff_of_case(d, case, names, raw),
        forall|r: int| 0 <= r < names.len() ==> (#[trigger] raw[r]) is None,
    ensures
        !agrees_spec(d.outputs@),
{
    assert(d.outputs@[0].1 is Err);
}

} // verus!
