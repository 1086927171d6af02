//! The conformance dashboard: per suite and per runner, how many
//! applicable cases are green. Denominators count applicable cases
//! only; a runner with no entry for a suite does not speak that suite's
//! language. Running the goldens and printing percentages are the
//! caller's part.

use vstd::prelude::*;
use crate::harness::case::first_index_from;
use crate::harness::golden::{CaseOutcome, Report, Status};
use crate::text::{chars_of, has_text, insert_sorted, lex_le, string_of};

verus! {

/// One suite's row: per runner (in the dashboard's runner order), the
/// green and applicable case counts, or `None` when the runner reported
/// nothing for the suite.
#[derive(Debug)]
pub struct SuiteRow {
    pub suite: String,
    pub cells: Vec<Option<(usize, usize)>>,
}

#[derive(Debug)]
pub struct Dashboard {
    pub runner_names: Vec<&'static str>,
    pub rows: Vec<SuiteRow>,
}

/// A case's suite: its name up to the first `/`.
pub open spec fn suite_of(name: Seq<char>) -> Seq<char> {
    name.subrange(0, first_index_from(name, 0, '/'))
}

pub fn suite_name(name: &str) -> (s: String)
    ensures
        s@ == suite_of(name@),
{
    let chars = chars_of(name);
    proof {
        crate::harness::case::lemma_first_index(name@, 0, '/');
    }
    let k = match crate::text::find_char(&chars, 0, chars.len(), '/') {
        Some(k) => k,
        None => chars.len(),
    };
    assert(first_index_from(name@, 0, '/') == k) by {
        lemma_first_index_is(name@, 0, k as int, '/');
    }
    let v = crate::text::slice_chars(&chars, 0, k);
    string_of(&v)
}

proof fn lemma_first_index_is(s: Seq<char>, i: int, k: int, sep: char)
    requires
        0 <= i <= k <= s.len(),
        forall|j: int| i <= j < k ==> s[j] != sep,
        k < s.len() ==> s[k] == sep,
    ensures
        first_index_from(s, i, sep) == k,
    decreases k - i,
{
    if i < k {
        lemma_first_index_is(s, i + 1, k, sep);
    }
}

/// Counts over the outcomes of suite `s`: green ones (passed or
/// blessed) and applicable ones (not skipped).
pub open spec fn suite_green(v: Seq<CaseOutcome>, s: Seq<char>) -> nat
    decreases v.len(),
{
    if v.len() == 0 {
        0
    } else {
        suite_green(v.drop_last(), s) + if suite_of(v.last().name@) == s && (v.last().status is Pass
            || v.last().status is Blessed) {
            1nat
        } else {
            0nat
        }
    }
}

pub open spec fn suite_applicable(v: Seq<CaseOutcome>, s: Seq<char>) -> nat
    decreases v.len(),
{
    if v.len() == 0 {
        0
    } else {
        suite_applicable(v.drop_last(), s) + if suite_of(v.last().name@) == s && !(v.last().status is Skipped) {
            1nat
        } else {
            0nat
        }
    }
}

/// Some outcome belongs to suite `s`.
pub open spec fn suite_seen(v: Seq<CaseOutcome>, s: Seq<char>) -> bool {
    exists|i: int| 0 <= i < v.len() && suite_of((#[trigger] v[i]).name@) == s
}

/// The cell of suite `s` for a runner's report.
pub open spec fn cell_spec(rep: Option<Report>, s: Seq<char>) -> Option<(usize, usize)> {
    match rep {
        None => None,
        Some(r) => if suite_seen(r.outcomes@, s) {
            Some((suite_green(r.outcomes@, s) as usize, suite_applicable(r.outcomes@, s) as usize))
        } else {
            None
        },
    }
}

/// The report exists and has an outcome in suite `s`.
pub open spec fn report_has_suite(rep: Option<Report>, s: Seq<char>) -> bool {
    match rep {
        Some(r) => suite_seen(r.outcomes@, s),
        None => false,
    }
}

/// `s` is the suite of a case or of an outcome in some report.
pub open spec fn suite_listed(case_names: Seq<String>, reports: Seq<Option<Report>>, s: Seq<char>) -> bool {
    ||| exists|i: int| 0 <= i < case_names.len() && suite_of((#[trigger] case_names[i])@) == s
    ||| exists|r: int| 0 <= r < reports.len() && report_has_suite(#[trigger] reports[r], s)
}

proof fn lemma_suite_counts_bounded(v: Seq<CaseOutcome>, s: Seq<char>)
    ensures
        suite_green(v, s) <= suite_applicable(v, s) <= v.len(),
    decreases v.len(),
{
    if v.len() > 0 {
        lemma_suite_counts_bounded(v.drop_last(), s);
    }
}

fn cell_of(rep: &Option<Report>, suite: &String) -> (c: Option<(usize, usize)>)
    ensures
        c == cell_spec(*rep, suite@),
{
    match rep {
        None => None,
        Some(r) => {
            let ghost v = r.outcomes@;
            let mut green: usize = 0;
            let mut applicable: usize = 0;
            let mut seen = false;
            let mut i: usize = 0;
            while i < r.outcomes.len()
                invariant
                    i <= v.len(),
                    v == r.outcomes@,
                    green == suite_green(v.take(i as int), suite@),
                    applicable == suite_applicable(v.take(i as int), suite@),
                    seen == exists|j: int| 0 <= j < i && suite_of((#[trigger] v[j]).name@) == suite@,
                decreases v.len() - i,
            {
                proof {
                    lemma_suite_counts_bounded(v.take(i as int), suite@);
                    assert(v.take(i + 1).drop_last() == v.take(i as int));
                }
                let o = &r.outcomes[i];
                let s = suite_name(o.name.as_str());
                if s == *suite {
                    seen = true;
                    match &o.status {
                        Status::Skipped => {},
                        Status::Pass | Status::Blessed { .. } => {
                            green = green + 1;
                            applicable = applicable + 1;
                        },
                        _ => {
                            applicable = applicable + 1;
                        },
                    }
                }
                i = i + 1;
            }
            assert(v.take(v.len() as int) == v);
            if seen {
                Some((green, applicable))
            } else {
                None
            }
        },
    }
}


} // verus!

verus! {

/// Some row of the dashboard is for suite `x`.
pub open spec fn has_row(rows: Seq<SuiteRow>, x: Seq<char>) -> bool {
    exists|i: int| 0 <= i < rows.len() && (#[trigger] rows[i]).suite@ == x
}

/// Builds the dashboard from the corpus's case names and, per runner in
/// `runner_names`, its golden report (`None` when nothing in the corpus
/// applies to that runner). There is a row for every suite of a case or
/// of a reported outcome, in ascending order of suite; each cell counts
/// that runner's green and applicable cases of the suite.
pub fn dashboard(
    case_names: &Vec<String>,
    runner_names: &Vec<&'static str>,
    reports: &Vec<Option<Report>>,
) -> (d: Dashboard)
    requires
        reports@.len() == runner_names@.len(),
    ensures
        d.runner_names@ == runner_names@,
        forall|a: int, b: int| 0 <= a < b < d.rows@.len() ==> lex_le((#[trigger] d.rows@[a]).suite@, (#[trigger] d.rows@[b]).suite@)
            && d.rows@[a].suite@ != d.rows@[b].suite@,
        forall|x: Seq<char>| #[trigger] has_row(d.rows@, x) <==> suite_listed(case_names@, reports@, x),
        forall|i: int| 0 <= i < d.rows@.len() ==> (#[trigger] d.rows@[i]).cells@.len() == runner_names@.len()
            && forall|r: int| 0 <= r < runner_names@.len() ==> (#[trigger] d.rows@[i].cells@[r])
                == cell_spec(reports@[r], d.rows@[i].suite@),
{
    let mut suites: Vec<String> = Vec::new();
    let mut i: usize = 0;
    while i < case_names.len()
        invariant
            i <= case_names@.len(),
            forall|a: int, b: int| 0 <= a < b < suites@.len() ==> lex_le((#[trigger] suites@[a])@, (#[trigger] suites@[b])@)
                && suites@[a]@ != suites@[b]@,
            forall|x: Seq<char>| #[trigger] has_text(suites@, x) <==> exists|j: int| 0 <= j < i && suite_of((#[trigger] case_names@[j])@) == x,
        decreases case_names@.len() - i,
    {
        let s = suite_name(case_names[i].as_str());
        let ghost sv = s@;
        insert_sorted(&mut suites, s);
        proof {
            assert forall|x: Seq<char>| #[trigger] has_text(suites@, x) <==> exists|j: int| 0 <= j < i + 1
                && suite_of((#[trigger] case_names@[j])@) == x by {
                if x == sv {
                    assert(suite_of(case_names@[i as int]@) == x);
                }
                if exists|j: int| 0 <= j < i + 1 && suite_of((#[trigger] case_names@[j])@) == x {
                    let j = choose|j: int| 0 <= j < i + 1 && suite_of((#[trigger] case_names@[j])@) == x;
                    if j < i {
                        assert(exists|j: int| 0 <= j < i && suite_of((#[trigger] case_names@[j])@) == x);
                    }
                }
            }
        }
        i = i + 1;
    }
    let mut r: usize = 0;
    while r < reports.len()
        invariant
            r <= reports@.len(),
            forall|a: int, b: int| 0 <= a < b < suites@.len() ==> lex_le((#[trigger] suites@[a])@, (#[trigger] suites@[b])@)
                && suites@[a]@ != suites@[b]@,
            forall|x: Seq<char>| #[trigger] has_text(suites@, x) <==> ((exists|j: int| 0 <= j < case_names@.len()
                && suite_of((#[trigger] case_names@[j])@) == x) || exists|q: int| 0 <= q < r && report_has_suite(#[trigger] reports@[q], x)),
        decreases reports@.len() - r,
    {
        match &reports[r] {
            None => {
                proof {
                    assert forall|x: Seq<char>| #[trigger] has_text(suites@, x) <==> ((exists|j: int| 0 <= j < case_names@.len()
                        && suite_of((#[trigger] case_names@[j])@) == x) || exists|q: int| 0 <= q < r + 1
                        && report_has_suite(#[trigger] reports@[q], x)) by {
                        if exists|q: int| 0 <= q < r + 1 && report_has_suite(#[trigger] reports@[q], x) {
                            let q = choose|q: int| 0 <= q < r + 1 && report_has_suite(#[trigger] reports@[q], x);
                            if q == r {
                                assert(!report_has_suite(reports@[q], x));
                            }
                        }
                    }
                }
            },
            Some(rep) => {
                let ghost v = rep.outcomes@;
                let ghost start = suites@;
                let mut k: usize = 0;
                while k < rep.outcomes.len()
                    invariant
                        k <= v.len(),
                        v == rep.outcomes@,
                        forall|a: int, b: int| 0 <= a < b < suites@.len() ==> lex_le((#[trigger] suites@[a])@, (#[trigger] suites@[b])@)
                            && suites@[a]@ != suites@[b]@,
                        forall|x: Seq<char>| #[trigger] has_text(suites@, x) <==> (has_text(start, x)
                            || exists|j: int| 0 <= j < k && suite_of((#[trigger] v[j]).name@) == x),
                    decreases v.len() - k,
                {
                    let s = suite_name(rep.outcomes[k].name.as_str());
                    let ghost sv = s@;
                    insert_sorted(&mut suites, s);
                    proof {
                        assert forall|x: Seq<char>| #[trigger] has_text(suites@, x) <==> (has_text(start, x)
                            || exists|j: int| 0 <= j < k + 1 && suite_of((#[trigger] v[j]).name@) == x) by {
                            if x == sv {
                                assert(suite_of(v[k as int].name@) == x);
                            }
                            if exists|j: int| 0 <= j < k + 1 && suite_of((#[trigger] v[j]).name@) == x {
                                let j = choose|j: int| 0 <= j < k + 1 && suite_of((#[trigger] v[j]).name@) == x;
                                if j < k {
                                    assert(exists|j: int| 0 <= j < k && suite_of((#[trigger] v[j]).name@) == x);
                                }
                            }
                        }
                    }
                    k = k + 1;
                }
                proof {
                    assert forall|x: Seq<char>| #[trigger] has_text(suites@, x) <==> ((exists|j: int| 0 <= j < case_names@.len()
                        && suite_of((#[trigger] case_names@[j])@) == x) || exists|q: int| 0 <= q < r + 1
                        && report_has_suite(#[trigger] reports@[q], x)) by {
                        if suite_seen(v, x) {
                            assert(report_has_suite(reports@[r as int], x));
                        }
                        if exists|q: int| 0 <= q < r + 1 && report_has_suite(#[trigger] reports@[q], x) {
                            let q = choose|q: int| 0 <= q < r + 1 && report_has_suite(#[trigger] reports@[q], x);
                            if q == r {
                                assert(suite_seen(v, x));
                                let j = choose|j: int| 0 <= j < v.len() && suite_of((#[trigger] v[j]).name@) == x;
                                assert(exists|j: int| 0 <= j < v.len() && suite_of((#[trigger] v[j]).name@) == x);
                            } else {
                                assert(exists|q: int| 0 <= q < r && report_has_suite(#[trigger] reports@[q], x));
                            }
                        }
                    }
                }
            },
        }
        r = r + 1;
    }
    let mut rows: Vec<SuiteRow> = Vec::new();
    let mut i: usize = 0;
    while i < suites.len()
        invariant
            i <= suites@.len(),
            rows@.len() == i,
            reports@.len() == runner_names@.len(),
            forall|a: int| 0 <= a < i ==> (#[trigger] rows@[a]).suite@ == suites@[a]@,
            forall|a: int| 0 <= a < i ==> (#[trigger] rows@[a]).cells@.len() == runner_names@.len()
                && forall|q: int| 0 <= q < runner_names@.len() ==> (#[trigger] rows@[a].cells@[q])
                    == cell_spec(reports@[q], rows@[a].suite@),
        decreases suites@.len() - i,
    {
        let mut cells: Vec<Option<(usize, usize)>> = Vec::new();
        let mut q: usize = 0;
        while q < reports.len()
            invariant
                q <= reports@.len(),
                i < suites@.len(),
                cells@.len() == q,
                forall|b: int| 0 <= b < q ==> (#[trigger] cells@[b]) == cell_spec(reports@[b], suites@[i as int]@),
            decreases reports@.len() - q,
        {
            cells.push(cell_of(&reports[q], &suites[i]));
            q = q + 1;
        }
        rows.push(SuiteRow { suite: suites[i].clone(), cells });
        i = i + 1;
    }
    proof {
        assert forall|x: Seq<char>| #[trigger] has_row(rows@, x) <==> suite_listed(case_names@, reports@, x) by {
            if has_row(rows@, x) {
                let a = choose|a: int| 0 <= a < rows@.len() && (#[trigger] rows@[a]).suite@ == x;
                assert(suites@[a]@ == x);
                assert(has_text(suites@, x));
            }
            if suite_listed(case_names@, reports@, x) {
                assert(has_text(suites@, x));
                let a = choose|a: int| 0 <= a < suites@.len() && (#[trigger] suites@[a])@ == x;
                assert(rows@[a].suite@ == x);
            }
        }
    }
    let mut names: Vec<&'static str> = Vec::new();
    let mut k: usize = 0;
    while k < runner_names.len()
        invariant
            k <= runner_names@.len(),
            names@ == runner_names@.take(k as int),
        decreases runner_names@.len() - k,
    {
        names.push(runner_names[k]);
        assert(runner_names@.take(k + 1) == runner_names@.take(k as int).push(runner_names@[k as int]));
        k = k + 1;
    }
    assert(runner_names@.take(runner_names@.len() as int) == runner_names@);
    Dashboard { runner_names: names, rows }
}

} // verus!

verus! {

/// A dashboard cell never shows more green cases than applicable ones:
/// denominators count applicable (non-skipped) cases only, and a suite
/// a runner has no outcome in shows no cell at all.
pub proof fn law_green_within_applicable(rep: Option<Report>, s: Seq<char>)
    requires
        rep matches Some(r) ==> r.outcomes@.len() <= usize::MAX,
    ensures
        cell_spec(rep, s) matches Some((g, a)) ==> g <= a,
        cell_spec(rep, s) is Some <==> report_has_suite(rep, s),
{
    if let Some(r) = rep {
        lemma_suite_counts_bounded(r.outcomes@, s);
    }
}

} // verus!

verus! {

/// What one more outcome does to a suite's cell: a pass or a bless adds
/// one green and one applicable case; a mismatch, a missing expected
/// file or an error adds an applicable case and no green one; a skip,
/// or an outcome of another suite, changes neither count.
pub proof fn law_outcome_counts(before: Report, after: Report, o: CaseOutcome, s: Seq<char>)
    requires
        after.outcomes@ == before.outcomes@.push(o),
        suite_seen(before.outcomes@, s),
        after.outcomes@.len() <= usize::MAX,
    ensures
        suite_of(o.name@) == s && (o.status is Pass || o.status is Blessed) ==> cell_spec(Some(after), s)
            == Some(((suite_green(before.outcomes@, s) + 1) as usize, (suite_applicable(before.outcomes@, s) + 1) as usize)),
        suite_of(o.name@) == s && (o.status is Mismatch || o.status is MissingExpected || o.status is Error) ==> cell_spec(Some(after), s)
            == Some((suite_green(before.outcomes@, s) as usize, (suite_applicable(before.outcomes@, s) + 1) as usize)),
        suite_of(o.name@) != s || o.status is Skipped ==> cell_spec(Some(after), s) == cell_spec(Some(before), s),
{
    let v = after.outcomes@;
    assert(v.drop_last() =~= before.outcomes@);
    assert(v.last() == o);
    let i = choose|i: int| 0 <= i < before.outcomes@.len() && suite_of((#[trigger] before.outcomes@[i]).name@) == s;
    assert(v[i] == before.outcomes@[i]);
    assert(suite_seen(v, s));
}

} // verus!

verus! {

/// A case's suite is the part of its name before the first `/`: the
/// whole name when there is none.
pub proof fn law_suite_is_first_segment(x: Seq<char>, y: Seq<char>)
    requires
        forall|j: int| 0 <= j < x.len() ==> x[j] != '/',
    ensures
        suite_of(x + seq!['/'] + y) == x,
        suite_of(x) == x,
{
    let n = x + seq!['/'] + y;
    assert(n[x.len() as int] == '/');
    lemma_first_index_is(n, 0, x.len() as int, '/');
    assert(n.subrange(0, x.len() as int) =~= x);
    lemma_first_index_is(x, 0, x.len() as int, '/');
    assert(x.subrange(0, x.len() as int) =~= x);
}

} // verus!
