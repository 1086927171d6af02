//! The golden engine: run a corpus through one runner and byte-compare
//! canonicalized output against blessed expectations, or bless new
//! expectations. This module decides each case's status and which
//! golden files change; reading and writing them is the caller's part.

use std::path::PathBuf;
use vstd::prelude::*;
use crate::harness::canon::{canonical, canonicalize};
use crate::harness::case::{Case, CaseError};
use crate::harness::runner::{engages_spec, RunError, Runner};
use crate::text::join2;

verus! {

/// What to do with the corpus.
#[derive(Clone, Copy, Debug, PartialEq, Eq)]
pub enum Mode {
    /// Compare against expected.out; mismatches write output.actual.
    Check,
    /// Overwrite expected.out with current canonical output.
    Bless,
}

#[derive(Debug)]
pub enum Status {
    Pass,
    /// Bless wrote expected.out; `changed` is false when bytes were
    /// already identical.
    Blessed { changed: bool },
    /// The case's `runners=` directive excludes this runner.
    Skipped,
    /// Canonical output differs from expected.out; the actual bytes are
    /// written next to it as output.actual.
    Mismatch,
    /// expected.out does not exist — an unblessed case is red.
    MissingExpected,
    /// The runner failed (parse/verify/lower/invoke/io).
    Error(String),
}

/// Green statuses: passed, blessed, or skipped.
pub open spec fn is_green_status(s: Status) -> bool {
    match s {
        Status::Pass => true,
        Status::Blessed { .. } => true,
        Status::Skipped => true,
        _ => false,
    }
}

#[derive(Debug)]
pub struct CaseOutcome {
    pub name: String,
    pub status: Status,
}

#[derive(Debug)]
pub struct Report {
    pub runner: &'static str,
    pub outcomes: Vec<CaseOutcome>,
}

impl Report {
    /// Every outcome passed, was blessed, or was skipped.
    pub fn is_green(&self) -> (r: bool)
        ensures
            r == forall|i: int| 0 <= i < self.outcomes@.len() ==> is_green_status(#[trigger] self.outcomes@[i].status),
    {
        let mut i: usize = 0;
        while i < self.outcomes.len()
            invariant
                i <= self.outcomes@.len(),
                forall|j: int| 0 <= j < i ==> is_green_status(#[trigger] self.outcomes@[j].status),
            decreases self.outcomes@.len() - i,
        {
            match &self.outcomes[i].status {
                Status::Pass | Status::Blessed { .. } | Status::Skipped => {},
                _ => {
                    return false;
                },
            }
            i = i + 1;
        }
        true
    }
}

/// The two golden files next to a case.
#[derive(Clone, Copy, Debug, PartialEq, Eq)]
pub enum GoldenFile {
    /// `expected.out`, the blessed output.
    Expected,
    /// `output.actual`, the failure artifact.
    Actual,
}

/// What the engine does with one case's run: the status it reports if
/// the file work succeeds, the file to (over)write with canonical
/// output, and whether to remove a stale `output.actual`.
#[derive(Debug)]
pub struct Verdict {
    pub status: Status,
    pub write: Option<(GoldenFile, String)>,
    pub remove_actual: bool,
}

pub enum StatusModel {
    Pass,
    Blessed(bool),
    Skipped,
    Mismatch,
    MissingExpected,
    Error(Seq<char>),
}

pub open spec fn status_model(s: Status) -> StatusModel {
    match s {
        Status::Pass => StatusModel::Pass,
        Status::Blessed { changed } => StatusModel::Blessed(changed),
        Status::Skipped => StatusModel::Skipped,
        Status::Mismatch => StatusModel::Mismatch,
        Status::MissingExpected => StatusModel::MissingExpected,
        Status::Error(m) => StatusModel::Error(m@),
    }
}

/// A verdict as a value: status, the golden file written with its new
/// contents, and whether a stale `output.actual` goes.
pub type VerdictModel = (StatusModel, Option<(GoldenFile, Seq<char>)>, bool);

pub open spec fn verdict_model(v: Verdict) -> VerdictModel {
    (status_model(v.status), match v.write {
        None => None,
        Some((f, w)) => Some((f, w@)),
    }, v.remove_actual)
}

/// A run as text: the output, or the error's message.
pub open spec fn raw_model(raw: Result<String, RunError>) -> Result<Seq<char>, Seq<char>> {
    match raw {
        Ok(t) => Ok(t@),
        Err(e) => Err(e.spec_message()),
    }
}

pub open spec fn expected_model(e: Option<String>) -> Option<Seq<char>> {
    match e {
        Some(t) => Some(t@),
        None => None,
    }
}

/// The verdict on one run. A failed run is an error. Blessing writes
/// the canonical output to `expected.out` and reports whether it
/// changed. Checking passes when `expected.out` holds exactly the
/// canonical output, is a mismatch (writing `output.actual`) when it
/// holds something else, and is red when it is missing.
pub open spec fn verdict_spec(mode: Mode, raw: Result<Seq<char>, Seq<char>>, expected: Option<Seq<char>>) -> VerdictModel {
    match raw {
        Err(m) => (StatusModel::Error(m), None, false),
        Ok(text) => {
            let actual = canonical(text);
            match mode {
                Mode::Bless => (
                    StatusModel::Blessed(expected != Some(actual)),
                    Some((GoldenFile::Expected, actual)),
                    true,
                ),
                Mode::Check => match expected {
                    Some(e) => if e == actual {
                        (StatusModel::Pass, None, true)
                    } else {
                        (StatusModel::Mismatch, Some((GoldenFile::Actual, actual)), false)
                    },
                    None => (StatusModel::MissingExpected, None, false),
                },
            }
        },
    }
}

/// Judges one case's run. `raw` is the runner's output or error;
/// `expected` the current contents of `expected.out`, `None` when it
/// cannot be read.
pub fn judge(mode: Mode, raw: Result<String, RunError>, expected: Option<String>) -> (v: Verdict)
    ensures
        verdict_model(v) == verdict_spec(mode, raw_model(raw), expected_model(expected)),
{
    let raw_text = match raw {
        Ok(text) => text,
        Err(error) => {
            return Verdict { status: Status::Error(error.message()), write: None, remove_actual: false };
        },
    };
    let actual = canonicalize(raw_text.as_str());
    match mode {
        Mode::Bless => {
            let changed = match &expected {
                Some(previous) => !(*previous == actual),
                None => true,
            };
            Verdict {
                status: Status::Blessed { changed },
                write: Some((GoldenFile::Expected, actual)),
                remove_actual: true,
            }
        },
        Mode::Check => match expected {
            Some(text) => if text == actual {
                Verdict { status: Status::Pass, write: None, remove_actual: true }
            } else {
                Verdict {
                    status: Status::Mismatch,
                    write: Some((GoldenFile::Actual, actual)),
                    remove_actual: false,
                }
            },
            None => Verdict { status: Status::MissingExpected, write: None, remove_actual: false },
        },
    }
}

/// The status a case gets when writing its golden file failed with
/// `error`; the removal of `output.actual` is then skipped.
pub fn write_failed(file: GoldenFile, error: &str) -> (s: Status)
    ensures
        s matches Status::Error(m) && m@ == (match file {
            GoldenFile::Expected => "writing expected.out: "@,
            GoldenFile::Actual => "writing output.actual: "@,
        }) + error@,
{
    match file {
        GoldenFile::Expected => Status::Error(join2("writing expected.out: ", error)),
        GoldenFile::Actual => Status::Error(join2("writing output.actual: ", error)),
    }
}

/// Assembles the report of one runner over a discovered corpus. `ran`
/// holds, for each case the runner engages (its `runners=` directive
/// admits the runner and the runner can execute it), the status its run
/// was judged; the others are skipped. A corpus where nothing applies
/// is an error: a typo'd `runners=` directive must not read as green.
pub fn run_goldens(root: PathBuf, runner: &dyn Runner, cases: &Vec<Case>, ran: Vec<Option<Status>>) -> (r: Result<Report, CaseError>)
    requires
        ran@.len() == cases@.len(),
        forall|i: int| 0 <= i < cases@.len() ==> ((#[trigger] ran@[i]) is Some <==> engages_spec(cases@[i], runner)),
        forall|i: int| 0 <= i < cases@.len() ==> !((#[trigger] ran@[i]) matches Some(Status::Skipped)),
    ensures
        (forall|i: int| 0 <= i < cases@.len() ==> !engages_spec(#[trigger] cases@[i], runner)) ==> (r matches Err(
            CaseError::NothingApplies { root: p, runner: n },
        ) && p == root && n@ == runner.spec_name()@),
        (exists|i: int| 0 <= i < cases@.len() && engages_spec(#[trigger] cases@[i], runner)) ==> (r matches Ok(rep)
            && rep.runner == runner.spec_name() && rep.outcomes@.len() == cases@.len()
            && forall|i: int| 0 <= i < cases@.len() ==> {
                &&& (#[trigger] rep.outcomes@[i]).name@ == cases@[i].name@
                &&& (rep.outcomes@[i].status is Skipped <==> !engages_spec(cases@[i], runner))
                &&& match ran@[i] {
                    Some(s) => rep.outcomes@[i].status == s,
                    None => rep.outcomes@[i].status is Skipped,
                }
            }),
{
    let name = runner.name();
    let ghost all = ran@;
    let mut rest = ran;
    let mut outcomes: Vec<CaseOutcome> = Vec::new();
    let mut any = false;
    let mut index: usize = 0;
    let n = cases.len();
    while rest.len() > 0
        invariant
            n == cases@.len(),
            index <= all.len(),
            all.len() == cases@.len(),
            rest@ == all.subrange(index as int, all.len() as int),
            outcomes@.len() == index,
            any == exists|i: int| 0 <= i < index && (#[trigger] all[i]) is Some,
            forall|i: int| 0 <= i < all.len() ==> !((#[trigger] all[i]) matches Some(Status::Skipped)),
            forall|i: int| 0 <= i < index ==> {
                &&& (#[trigger] outcomes@[i]).name@ == cases@[i].name@
                &&& match all[i] {
                    Some(s) => outcomes@[i].status == s,
                    None => outcomes@[i].status is Skipped,
                }
            },
        decreases rest@.len(),
    {
        let slot = rest.remove(0);
        assert(slot == all[index as int]);
        assert(rest@ == all.subrange(index + 1, all.len() as int));
        let status = match slot {
            Some(s) => {
                any = true;
                s
            },
            None => Status::Skipped,
        };
        outcomes.push(CaseOutcome { name: cases[index].name.clone(), status });
        index = index + 1;
    }
    assert(index == all.len());
    if !any {
        assert forall|i: int| 0 <= i < cases@.len() implies !engages_spec(#[trigger] cases@[i], runner) by {
            assert(!(all[i] is Some));
        }
        return Err(CaseError::NothingApplies { root, runner: name.to_owned() });
    }
    Ok(Report { runner: name, outcomes })
}

} // verus!

verus! {

/// The report line of one outcome.
pub open spec fn outcome_line(o: CaseOutcome) -> Seq<char> {
    match o.status {
        Status::Pass => "ok      "@ + o.name@,
        Status::Blessed { changed } => if changed {
            "blessed "@ + o.name@ + " (bytes changed)"@
        } else {
            "blessed "@ + o.name@ + " (unchanged)"@
        },
        Status::Skipped => "skip    "@ + o.name@ + " (not applicable to this runner)"@,
        Status::Mismatch => "FAIL    "@ + o.name@
            + " — output.actual written; diff it against expected.out"@,
        Status::MissingExpected => "FAIL    "@ + o.name@
            + " — no expected.out (write it by hand or `make bless` with an L2 justification)"@,
        Status::Error(m) => "ERROR   "@ + o.name@ + " — "@ + m@,
    }
}

/// The report lines of the outcomes, each ended by LF.
pub open spec fn outcome_lines(v: Seq<CaseOutcome>) -> Seq<char>
    decreases v.len(),
{
    if v.len() == 0 {
        Seq::empty()
    } else {
        outcome_lines(v.drop_last()) + outcome_line(v.last()) + "\n"@
    }
}

/// How many outcomes passed or were blessed.
pub open spec fn passed_count(v: Seq<CaseOutcome>) -> nat
    decreases v.len(),
{
    if v.len() == 0 {
        0
    } else {
        passed_count(v.drop_last()) + (match v.last().status {
            Status::Pass => 1nat,
            Status::Blessed { .. } => 1nat,
            _ => 0nat,
        })
    }
}

/// How many outcomes are red: a mismatch, a missing expectation, or an
/// error.
pub open spec fn red_count(v: Seq<CaseOutcome>) -> nat
    decreases v.len(),
{
    if v.len() == 0 {
        0
    } else {
        red_count(v.drop_last()) + (match v.last().status {
            Status::Mismatch => 1nat,
            Status::MissingExpected => 1nat,
            Status::Error(_) => 1nat,
            _ => 0nat,
        })
    }
}

/// The rendered report: one line per outcome, then the summary.
pub open spec fn report_text(r: Report) -> Seq<char> {
    let v = r.outcomes@;
    outcome_lines(v) + "goldens["@ + r.runner@ + "]: "@ + decimal_digits(v.len()) + " case(s), "@
        + decimal_digits(passed_count(v)) + " green, "@ + decimal_digits(red_count(v)) + " red"@
}

pub open spec fn decimal_digits(n: nat) -> Seq<char> {
    crate::harness::canon::decimal_digits(n)
}

proof fn lemma_counts_bounded(v: Seq<CaseOutcome>)
    ensures
        passed_count(v) <= v.len(),
        red_count(v) <= v.len(),
    decreases v.len(),
{
    if v.len() > 0 {
        lemma_counts_bounded(v.drop_last());
    }
}

fn push_outcome_line(text: &mut Vec<char>, o: &CaseOutcome)
    ensures
        final(text)@ == old(text)@ + outcome_line(*o),
{
    let name = o.name.as_str();
    match &o.status {
        Status::Pass => {
            crate::text::push_str(text, "ok      ");
            crate::text::push_str(text, name);
        },
        Status::Blessed { changed } => {
            crate::text::push_str(text, "blessed ");
            crate::text::push_str(text, name);
            if *changed {
                crate::text::push_str(text, " (bytes changed)");
            } else {
                crate::text::push_str(text, " (unchanged)");
            }
        },
        Status::Skipped => {
            crate::text::push_str(text, "skip    ");
            crate::text::push_str(text, name);
            crate::text::push_str(text, " (not applicable to this runner)");
        },
        Status::Mismatch => {
            crate::text::push_str(text, "FAIL    ");
            crate::text::push_str(text, name);
            crate::text::push_str(text, " — output.actual written; diff it against expected.out");
        },
        Status::MissingExpected => {
            crate::text::push_str(text, "FAIL    ");
            crate::text::push_str(text, name);
            crate::text::push_str(
                text,
                " — no expected.out (write it by hand or `make bless` with an L2 justification)",
            );
        },
        Status::Error(m) => {
            crate::text::push_str(text, "ERROR   ");
            crate::text::push_str(text, name);
            crate::text::push_str(text, " — ");
            crate::text::push_str(text, m.as_str());
        },
    }
}

impl Report {
    /// The report as text: `report_text`.
    pub fn render(&self) -> (s: String)
        ensures
            s@ == report_text(*self),
    {
        let ghost v = self.outcomes@;
        let mut text: Vec<char> = Vec::new();
        let mut passed: usize = 0;
        let mut red: usize = 0;
        let mut i: usize = 0;
        while i < self.outcomes.len()
            invariant
                i <= v.len(),
                v == self.outcomes@,
                text@ == outcome_lines(v.take(i as int)),
                passed == passed_count(v.take(i as int)),
                red == red_count(v.take(i as int)),
            decreases v.len() - i,
        {
            proof {
                lemma_counts_bounded(v.take(i as int));
                assert(v.take(i + 1).drop_last() == v.take(i as int));
            }
            push_outcome_line(&mut text, &self.outcomes[i]);
            crate::text::push_str(&mut text, "\n");
            match &self.outcomes[i].status {
                Status::Pass | Status::Blessed { .. } => {
                    passed = passed + 1;
                },
                Status::Mismatch | Status::MissingExpected | Status::Error(_) => {
                    red = red + 1;
                },
                Status::Skipped => {},
            }
            i = i + 1;
        }
        assert(v.take(v.len() as int) == v);
        crate::text::push_str(&mut text, "goldens[");
        crate::text::push_str(&mut text, self.runner);
        crate::text::push_str(&mut text, "]: ");
        let mut digits = crate::harness::canon::digits_of(self.outcomes.len() as u64);
        text.append(&mut digits);
        crate::text::push_str(&mut text, " case(s), ");
        let mut digits = crate::harness::canon::digits_of(passed as u64);
        text.append(&mut digits);
        crate::text::push_str(&mut text, " green, ");
        let mut digits = crate::harness::canon::digits_of(red as u64);
        text.append(&mut digits);
        crate::text::push_str(&mut text, " red");
        crate::text::string_of(&text)
    }
}

} // verus!

verus! {

/// Blessing a run and then checking the same run passes: what blessing
/// writes to `expected.out` is exactly what checking compares with.
pub proof fn law_bless_then_check(text: Seq<char>, previous: Option<Seq<char>>)
    ensures
        verdict_spec(Mode::Bless, Ok(text), previous).1 matches Some((f, written)) && f == GoldenFile::Expected
            && verdict_spec(Mode::Check, Ok(text), Some(written)).0 == StatusModel::Pass,
{
}

/// A check run after a bless run of a deterministic runner is green:
/// for each case, blessing the run's output `texts[i]` writes its
/// canonical form to `expected.out`; checking the same output against
/// what was written passes, writes nothing and removes any
/// `output.actual`. Cases the runner does not engage are skipped in
/// both runs.
pub proof fn law_check_after_bless_is_green(texts: Seq<Seq<char>>, previous: Seq<Option<Seq<char>>>)
    requires
        previous.len() == texts.len(),
    ensures
        forall|i: int| 0 <= i < texts.len() ==> {
            let bless = #[trigger] verdict_spec(Mode::Bless, Ok(texts[i]), previous[i]);
            &&& bless.1 == Some((GoldenFile::Expected, canonical(texts[i])))
            &&& verdict_spec(Mode::Check, Ok(texts[i]), Some(canonical(texts[i])))
                == (StatusModel::Pass, None::<(GoldenFile, Seq<char>)>, true)
        },
{
}

/// A corpus checked after blessing is green: when every case the
/// runner engages was judged in check mode on the same output that
/// blessing wrote to its `expected.out`, and the others were skipped,
/// the report is green.
pub proof fn law_blessed_corpus_checks_green(rep: Report, texts: Seq<Seq<char>>, previous: Seq<Option<Seq<char>>>)
    requires
        texts.len() == rep.outcomes@.len(),
        previous.len() == rep.outcomes@.len(),
        forall|i: int| 0 <= i < rep.outcomes@.len() ==> (#[trigger] rep.outcomes@[i]).status is Skipped
            || status_model(rep.outcomes@[i].status) == verdict_spec(
                Mode::Check,
                Ok(texts[i]),
                Some(verdict_spec(Mode::Bless, Ok(texts[i]), previous[i]).1->Some_0.1),
            ).0,
    ensures
        forall|i: int| 0 <= i < rep.outcomes@.len() ==> is_green_status(#[trigger] rep.outcomes@[i].status),
{
    assert forall|i: int| 0 <= i < rep.outcomes@.len() implies is_green_status(#[trigger] rep.outcomes@[i].status) by {
        law_bless_then_check(texts[i], previous[i]);
    }
}

/// Blessing the same run twice reports the second blessing unchanged.
pub proof fn law_rebless_is_unchanged(text: Seq<char>, previous: Option<Seq<char>>)
    ensures
        verdict_spec(Mode::Bless, Ok(text), previous).1 matches Some((_, written))
            && verdict_spec(Mode::Bless, Ok(text), Some(written)).0 == StatusModel::Blessed(false),
{
}

/// Outputs are judged only through the canonicalization filter: two
/// runs whose outputs canonicalize alike get the same verdict (line
/// endings never turn a case red).
pub proof fn law_judged_through_canon(mode: Mode, a: Seq<char>, b: Seq<char>, expected: Option<Seq<char>>)
    requires
        canonical(a) == canonical(b),
    ensures
        verdict_spec(mode, Ok(a), expected) == verdict_spec(mode, Ok(b), expected),
{
}

/// A failed run is red in either mode and touches no golden file.
pub proof fn law_runner_error_is_red(mode: Mode, message: Seq<char>, expected: Option<Seq<char>>)
    ensures
        verdict_spec(mode, Err(message), expected) == (StatusModel::Error(message), None::<(GoldenFile, Seq<char>)>, false),
{
}

} // verus!
