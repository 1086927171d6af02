use std::path::PathBuf;

use frankish::harness::case::{discover, load, Case, CaseError, ResultKind};
use frankish::harness::diff::{diff_corpus, DiffReport};
use frankish::harness::golden::{judge, run_goldens, GoldenFile, Mode, Report, Status};
use frankish::harness::runner::{engages, run_matrix, FakeRunner, RunError, Runner};

/// A corpus held in memory: per case its source, `expected.out` and
/// `output.actual` (absent when `None`). Stands in for the directory
/// tree the embedding program walks.
struct MemCorpus {
    entries: Vec<(String, String, Option<String>, Option<String>)>,
}

impl MemCorpus {
    fn new() -> Self {
        MemCorpus { entries: Vec::new() }
    }

    fn root() -> PathBuf {
        PathBuf::from("/corpus")
    }

    fn add_case(&mut self, name: &str, source: &str, expected: Option<&str>) {
        self.entries.push((
            name.to_string(),
            source.to_string(),
            expected.map(|e| e.to_string()),
            None,
        ));
    }

    fn cases(&self) -> Result<Vec<Case>, CaseError> {
        let mut found = Vec::new();
        for (name, source, _, _) in &self.entries {
            let dir = Self::root().join(name);
            found.push(load(
                name.clone(),
                dir.clone(),
                dir.join("case.mlir"),
                dir.join("expected.out"),
                source,
            )?);
        }
        discover(Self::root(), found)
    }

    fn entry(&mut self, name: &str) -> &mut (String, String, Option<String>, Option<String>) {
        self.entries.iter_mut().find(|e| e.0 == name).unwrap()
    }

    /// One golden pass of `runner` over the corpus: each applicable case
    /// is run and judged, and the verdict's file work is carried out.
    fn goldens(&mut self, runner: &dyn Runner, mode: Mode) -> Result<Report, CaseError> {
        let cases = self.cases()?;
        let mut ran = Vec::new();
        for case in &cases {
            if !engages(case, runner) {
                ran.push(None);
                continue;
            }
            let expected = self.entry(&case.name).2.clone();
            let verdict = judge(mode, runner.run(case), expected);
            let entry = self.entry(&case.name);
            match verdict.write {
                Some((GoldenFile::Expected, text)) => entry.2 = Some(text),
                Some((GoldenFile::Actual, text)) => entry.3 = Some(text),
                None => {}
            }
            if verdict.remove_actual {
                entry.3 = None;
            }
            ran.push(Some(verdict.status));
        }
        run_goldens(Self::root(), runner, &cases, ran)
    }

    /// One differential pass of `runners` over the corpus.
    fn diff(&self, runners: &[&dyn Runner]) -> Result<DiffReport, CaseError> {
        let cases = self.cases()?;
        let dyns: Vec<&dyn Runner> = runners.to_vec();
        let (names, raw) = run_matrix(&cases, &dyns);
        Ok(diff_corpus(&cases, &names, &raw))
    }
}

#[test]
fn discovers_cases_sorted_with_defaults() {
    let mut corpus = MemCorpus::new();
    corpus.add_case("suite/zeta", "func.func @main() { return }", Some("0\n"));
    corpus.add_case("suite/alpha", "func.func @main() { return }", Some("0\n"));

    let cases = corpus.cases().unwrap();
    let names: Vec<_> = cases.iter().map(|c| c.name.as_str()).collect();
    assert_eq!(names, ["suite/alpha", "suite/zeta"]);
    assert_eq!(cases[0].entry, "main");
    assert_eq!(cases[0].result, ResultKind::I64);
}

#[test]
fn directives_override_defaults() {
    let mut corpus = MemCorpus::new();
    corpus.add_case(
        "s/c",
        "// frk-case: entry=start\n// frk-case: result=i64\nfunc.func @start() { return }",
        Some("0\n"),
    );
    let cases = corpus.cases().unwrap();
    assert_eq!(cases[0].entry, "start");
}

#[test]
fn runners_directive_parses_and_gates_applicability() {
    let mut corpus = MemCorpus::new();
    corpus.add_case(
        "s/c",
        "// frk-case: runners=interp, jit\nfunc.func @main() { return }",
        Some("0\n"),
    );
    let cases = corpus.cases().unwrap();
    assert!(cases[0].applies_to("interp"));
    assert!(cases[0].applies_to("jit"));
    assert!(!cases[0].applies_to("aot"));

    let unrestricted = {
        let mut corpus = MemCorpus::new();
        corpus.add_case("s/c", "func.func @main() { return }", None);
        corpus.cases().unwrap().remove(0)
    };
    assert!(unrestricted.applies_to("anything"));
}

#[test]
fn empty_runners_directive_is_an_error() {
    let mut corpus = MemCorpus::new();
    corpus.add_case("s/c", "// frk-case: runners=\n", Some("0\n"));
    let error = corpus.cases().unwrap_err();
    assert!(matches!(error, CaseError::Directive { .. }), "{error:?}");
}

#[test]
fn unknown_directive_key_is_an_error() {
    let mut corpus = MemCorpus::new();
    corpus.add_case("s/c", "// frk-case: entree=main\n", Some("0\n"));
    let error = corpus.cases().unwrap_err();
    assert!(matches!(error, CaseError::Directive { .. }), "{error:?}");
}

#[test]
fn unsupported_result_type_is_an_error() {
    let mut corpus = MemCorpus::new();
    corpus.add_case("s/c", "// frk-case: result=f64\n", Some("0\n"));
    let error = corpus.cases().unwrap_err();
    assert!(matches!(error, CaseError::Directive { .. }), "{error:?}");
}

#[test]
fn empty_corpus_is_an_error_not_a_green_suite() {
    let corpus = MemCorpus::new();
    let error = corpus.cases().unwrap_err();
    assert!(matches!(error, CaseError::EmptyCorpus(_)), "{error:?}");
}

#[test]
fn agreeing_runners_are_green() {
    let mut corpus = MemCorpus::new();
    corpus.add_case("s/a", "irrelevant", None);
    // Different raw flavors, identical canonical bytes.
    let alpha = FakeRunner::named("alpha", "42");
    let beta = FakeRunner::named("beta", "42\n");
    let report = corpus.diff(&[&alpha, &beta]).unwrap();
    assert!(report.is_green(), "{}", report.render());
}

#[test]
fn divergence_is_red_and_names_both_outputs() {
    let mut corpus = MemCorpus::new();
    corpus.add_case("s/a", "irrelevant", None);
    let alpha = FakeRunner::named("alpha", "42\n");
    let beta = FakeRunner::named("beta", "41\n");
    let report = corpus.diff(&[&alpha, &beta]).unwrap();
    assert!(!report.is_green(), "{}", report.render());
    let rendered = report.render();
    assert!(rendered.contains("DIVERGE"), "{rendered}");
    assert!(rendered.contains("first-rank finding"), "{rendered}");
}

#[test]
fn a_runner_error_is_divergence() {
    let mut corpus = MemCorpus::new();
    corpus.add_case("s/a", "irrelevant", None);
    let ok = FakeRunner::named("ok", "42\n");
    let bad = FakeRunner::failing("engine exploded");
    let report = corpus.diff(&[&ok, &bad]).unwrap();
    assert!(!report.is_green(), "{}", report.render());
}

#[test]
fn runner_directives_narrow_the_matrix_without_reddening_it() {
    let mut corpus = MemCorpus::new();
    corpus.add_case("s/both", "irrelevant", None);
    corpus.add_case("s/only_alpha", "// frk-case: runners=alpha\n", None);
    let alpha = FakeRunner::named("alpha", "1\n");
    let beta = FakeRunner::named("beta", "1\n");
    let report = corpus.diff(&[&alpha, &beta]).unwrap();
    assert!(report.is_green(), "{}", report.render());
}

#[test]
fn a_case_no_runner_can_execute_is_red() {
    let mut corpus = MemCorpus::new();
    corpus.add_case("s/orphan", "// frk-case: runners=ghost\n", None);
    let alpha = FakeRunner::named("alpha", "1\n");
    let report = corpus.diff(&[&alpha]).unwrap();
    assert!(!report.is_green(), "{}", report.render());
    assert!(report.render().contains("no registered runner"), "{}", report.render());
}

#[test]
fn single_runner_agrees_trivially_and_says_so() {
    let mut corpus = MemCorpus::new();
    corpus.add_case("s/a", "irrelevant", None);
    let only = FakeRunner::named("jit", "42\n");
    let report = corpus.diff(&[&only]).unwrap();
    assert!(report.is_green(), "{}", report.render());
    assert!(report.render().contains("single runner"), "{}", report.render());
}

#[test]
fn check_passes_when_canonical_output_matches() {
    let mut corpus = MemCorpus::new();
    corpus.add_case("s/a", "irrelevant", Some("42\n"));
    // Raw output lacks the trailing LF; canon adds it.
    let runner = FakeRunner::fixed("42");
    let report = corpus.goldens(&runner, Mode::Check).unwrap();
    assert!(report.is_green(), "{}", report.render());
}

#[test]
fn check_mismatch_is_red_and_writes_actual() {
    let mut corpus = MemCorpus::new();
    corpus.add_case("s/a", "irrelevant", Some("42\n"));
    let runner = FakeRunner::fixed("41");
    let report = corpus.goldens(&runner, Mode::Check).unwrap();
    assert!(!report.is_green(), "{}", report.render());
    let actual = corpus.entry("s/a").3.clone().unwrap();
    assert_eq!(actual, "41\n");
}

#[test]
fn check_missing_expected_is_red() {
    let mut corpus = MemCorpus::new();
    corpus.add_case("s/a", "irrelevant", None);
    let runner = FakeRunner::fixed("42");
    let report = corpus.goldens(&runner, Mode::Check).unwrap();
    assert!(!report.is_green(), "{}", report.render());
    assert!(matches!(report.outcomes[0].status, Status::MissingExpected));
}

#[test]
fn runner_error_is_red_not_a_panic() {
    let mut corpus = MemCorpus::new();
    corpus.add_case("s/a", "irrelevant", Some("42\n"));
    let runner = FakeRunner::failing("boom");
    let report = corpus.goldens(&runner, Mode::Check).unwrap();
    assert!(!report.is_green(), "{}", report.render());
    assert!(matches!(report.outcomes[0].status, Status::Error(_)));
}

#[test]
fn bless_writes_canonical_bytes_and_clears_actual() {
    let mut corpus = MemCorpus::new();
    corpus.add_case("s/a", "irrelevant", Some("41\n"));
    // Leave a stale failure artifact behind, then bless over it.
    let failing = FakeRunner::fixed("42");
    corpus.goldens(&failing, Mode::Check).unwrap();
    assert!(corpus.entry("s/a").3.is_some());

    let report = corpus.goldens(&failing, Mode::Bless).unwrap();
    assert!(report.is_green(), "{}", report.render());
    assert!(matches!(report.outcomes[0].status, Status::Blessed { changed: true }));
    assert_eq!(corpus.entry("s/a").2.clone().unwrap(), "42\n");
    assert!(corpus.entry("s/a").3.is_none());

    // Blessing again reports unchanged.
    let report = corpus.goldens(&failing, Mode::Bless).unwrap();
    assert!(matches!(report.outcomes[0].status, Status::Blessed { changed: false }));
}

#[test]
fn non_applicable_cases_skip_visibly_and_stay_green() {
    let mut corpus = MemCorpus::new();
    corpus.add_case("s/runs", "irrelevant", Some("42\n"));
    corpus.add_case("s/skips", "// frk-case: runners=some_other_runner\n", Some("99\n"));
    let runner = FakeRunner::fixed("42");
    let report = corpus.goldens(&runner, Mode::Check).unwrap();
    assert!(report.is_green(), "{}", report.render());
    assert!(report.render().contains("skip    s/skips"), "{}", report.render());
}

#[test]
fn a_corpus_where_everything_skips_is_an_error() {
    let mut corpus = MemCorpus::new();
    corpus.add_case("s/a", "// frk-case: runners=elsewhere\n", Some("1\n"));
    let runner = FakeRunner::fixed("1");
    let error = corpus.goldens(&runner, Mode::Check).unwrap_err();
    assert!(matches!(error, CaseError::NothingApplies { .. }), "{error:?}");
}

#[test]
fn pass_clears_stale_actual() {
    let mut corpus = MemCorpus::new();
    corpus.add_case("s/a", "irrelevant", Some("42\n"));
    let bad = FakeRunner::fixed("41");
    corpus.goldens(&bad, Mode::Check).unwrap();
    assert!(corpus.entry("s/a").3.is_some());

    let good = FakeRunner::fixed("42");
    let report = corpus.goldens(&good, Mode::Check).unwrap();
    assert!(report.is_green(), "{}", report.render());
    assert!(corpus.entry("s/a").3.is_none());
}

/// A runner that only speaks cases whose name starts with `lua/`.
struct LuaOnly;

impl Runner for LuaOnly {
    fn spec_name(&self) -> &'static str {
        "lua-only"
    }

    fn produces(&self, _case: Case, out: Result<String, RunError>) -> bool {
        matches!(out, Ok(ref s) if s == "1\n")
    }

    fn speaks(&self, case: Case) -> bool {
        case.name.starts_with("lua/")
    }

    fn name(&self) -> &'static str {
        "lua-only"
    }

    fn run(&self, _case: &Case) -> Result<String, RunError> {
        Ok("1\n".to_string())
    }

    fn applicable(&self, case: &Case) -> bool {
        case.name.starts_with("lua/")
    }
}

#[test]
fn runner_that_cannot_speak_a_case_skips_it() {
    let mut corpus = MemCorpus::new();
    corpus.add_case("lua/a", "func.func @main() { return }", Some("1\n"));
    corpus.add_case("ml/b", "func.func @main() { return }", Some("1\n"));
    let report = corpus.goldens(&LuaOnly, Mode::Check).unwrap();
    assert!(matches!(report.outcomes[0].status, Status::Pass));
    assert!(matches!(report.outcomes[1].status, Status::Skipped));
    assert!(report.is_green());

    let fake = FakeRunner::fixed("1\n");
    let diff = corpus.diff(&[&fake, &LuaOnly]).unwrap();
    let keys: Vec<_> = diff.diffs[1].outputs.iter().map(|(n, _)| *n).collect();
    assert_eq!(keys, ["fake"]);
    let keys: Vec<_> = diff.diffs[0].outputs.iter().map(|(n, _)| *n).collect();
    assert_eq!(keys, ["fake", "lua-only"]);
}
