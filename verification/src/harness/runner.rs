//! What a runner reports, and the AOT target grid. Executing a case
//! (parsing, JIT, interpretation, spawning oracles and emulators) is
//! the embedding program's part; the golden and differential engines
//! judge the outputs it hands back.

use vstd::prelude::*;
use crate::text::join2;
use crate::harness::case::Case;

verus! {

/// Why a runner could not produce output for a case.
#[derive(Debug)]
pub enum RunError {
    /// Harness-side defect (dialect registration, thread spawning) — not
    /// a property of the case.
    Setup(String),
    Io(String),
    Parse(String),
    Verify(String),
    Lower(String),
    Invoke(String),
}

impl RunError {
    /// The text the error is reported with: its stage, `: `, and its
    /// message.
    pub open spec fn spec_message(&self) -> Seq<char> {
        match self {
            RunError::Setup(m) => "setup: "@ + m@,
            RunError::Io(m) => "io: "@ + m@,
            RunError::Parse(m) => "parse: "@ + m@,
            RunError::Verify(m) => "verify: "@ + m@,
            RunError::Lower(m) => "lower: "@ + m@,
            RunError::Invoke(m) => "invoke: "@ + m@,
        }
    }

    pub fn message(&self) -> (r: String)
        ensures
            r@ == self.spec_message(),
    {
        match self {
            RunError::Setup(m) => join2("setup: ", m.as_str()),
            RunError::Io(m) => join2("io: ", m.as_str()),
            RunError::Parse(m) => join2("parse: ", m.as_str()),
            RunError::Verify(m) => join2("verify: ", m.as_str()),
            RunError::Lower(m) => join2("lower: ", m.as_str()),
            RunError::Invoke(m) => join2("invoke: ", m.as_str()),
        }
    }
}

/// Tier-0 grid triples. Musl-static so qemu-user executes sysroot-free;
/// wasm32-wasi runs on wasmtime.
#[derive(Clone, Copy, Debug, PartialEq, Eq)]
pub enum Triple {
    X86_64Linux,
    Aarch64Linux,
    Riscv64Linux,
    S390xLinux,
    Wasm32Wasi,
}

impl Triple {
    pub open spec fn spec_target(self) -> Seq<char> {
        match self {
            Triple::X86_64Linux => "x86_64-linux-musl"@,
            Triple::Aarch64Linux => "aarch64-linux-musl"@,
            Triple::Riscv64Linux => "riscv64-linux-musl"@,
            Triple::S390xLinux => "s390x-linux-musl"@,
            Triple::Wasm32Wasi => "wasm32-wasi"@,
        }
    }

    pub open spec fn spec_short(self) -> Seq<char> {
        match self {
            Triple::X86_64Linux => "x86_64"@,
            Triple::Aarch64Linux => "aarch64"@,
            Triple::Riscv64Linux => "riscv64"@,
            Triple::S390xLinux => "s390x"@,
            Triple::Wasm32Wasi => "wasm32"@,
        }
    }

    /// The grid every AOT corpus run covers.
    pub fn grid() -> (g: [Triple; 4])
        ensures
            g@ == seq![Triple::X86_64Linux, Triple::Aarch64Linux, Triple::Riscv64Linux, Triple::Wasm32Wasi],
    {
        [Triple::X86_64Linux, Triple::Aarch64Linux, Triple::Riscv64Linux, Triple::Wasm32Wasi]
    }

    /// The zig/clang target name.
    pub fn target(self) -> (r: &'static str)
        ensures
            r@ == self.spec_target(),
    {
        match self {
            Triple::X86_64Linux => "x86_64-linux-musl",
            Triple::Aarch64Linux => "aarch64-linux-musl",
            Triple::Riscv64Linux => "riscv64-linux-musl",
            Triple::S390xLinux => "s390x-linux-musl",
            Triple::Wasm32Wasi => "wasm32-wasi",
        }
    }

    /// The short architecture name used in runner names.
    pub fn short(self) -> (r: &'static str)
        ensures
            r@ == self.spec_short(),
    {
        match self {
            Triple::X86_64Linux => "x86_64",
            Triple::Aarch64Linux => "aarch64",
            Triple::Riscv64Linux => "riscv64",
            Triple::S390xLinux => "s390x",
            Triple::Wasm32Wasi => "wasm32",
        }
    }

    /// The executor prefix a binary for this triple runs under: none
    /// natively, qemu-user off-native, `<wasmtime> run` for wasm.
    pub fn executor(self, wasmtime: &str) -> (r: Option<Vec<String>>)
        ensures
            match self {
                Triple::X86_64Linux => r is None,
                Triple::Aarch64Linux => r matches Some(v) && v@.len() == 1 && v@[0]@ == "qemu-aarch64"@,
                Triple::Riscv64Linux => r matches Some(v) && v@.len() == 1 && v@[0]@ == "qemu-riscv64"@,
                Triple::S390xLinux => r matches Some(v) && v@.len() == 1 && v@[0]@ == "qemu-s390x"@,
                Triple::Wasm32Wasi => r matches Some(v) && v@.len() == 2 && v@[0]@ == wasmtime@
                    && v@[1]@ == "run"@,
            },
    {
        match self {
            Triple::X86_64Linux => None,
            Triple::Aarch64Linux => Some(vec!["qemu-aarch64".to_owned()]),
            Triple::Riscv64Linux => Some(vec!["qemu-riscv64".to_owned()]),
            Triple::S390xLinux => Some(vec!["qemu-s390x".to_owned()]),
            Triple::Wasm32Wasi => Some(vec![wasmtime.to_owned(), "run".to_owned()]),
        }
    }
}

/// How an AOT run manages memory; part of the runner's name.
#[derive(Clone, Copy, Debug, PartialEq, Eq)]
pub enum Strategy {
    Arena,
    Rc,
}

/// The name an AOT runner reports: `aot-<short>`, with `-rc` under
/// reference counting.
pub fn aot_runner_name(triple: Triple, strategy: Strategy) -> (r: String)
    ensures
        r@ == "aot-"@ + triple.spec_short() + (match strategy {
            Strategy::Arena => Seq::<char>::empty(),
            Strategy::Rc => "-rc"@,
        }),
{
    let base = join2("aot-", triple.short());
    match strategy {
        Strategy::Arena => base,
        Strategy::Rc => join2(base.as_str(), "-rc"),
    }
}

/// A named way to execute a case and produce raw (pre-canonical)
/// output. Implementations must be deterministic under the canon
/// contract; what a run returns is the implementation's to say
/// (`produces`), so the engines take the results as data.
pub trait Runner {
    /// The name this runner reports.
    spec fn spec_name(&self) -> &'static str;

    /// `out` is a result this runner may give on `case`.
    spec fn produces(&self, case: Case, out: Result<String, RunError>) -> bool;

    /// This runner can execute `case` at all.
    spec fn speaks(&self, case: Case) -> bool;

    fn name(&self) -> (r: &'static str)
        ensures
            r == self.spec_name(),
    ;

    fn run(&self, case: &Case) -> (r: Result<String, RunError>)
        ensures
            self.produces(*case, r),
    ;

    /// Whether this runner can execute this case at all (specimen
    /// oracles only speak their specimen's language). Combined with the
    /// case's `runners=` directive by the golden and differential
    /// engines (see `engages_spec`).
    fn applicable(&self, case: &Case) -> (b: bool)
        ensures
            b == self.speaks(*case),
    ;
}

/// Runner `runner` runs `case`: the case's `runners=` directive admits
/// its name and the runner can execute the case.
pub open spec fn engages_spec<R: Runner + ?Sized>(case: Case, runner: &R) -> bool {
    case.spec_applies_to(runner.spec_name()@) && runner.speaks(case)
}


/// Whether the engines run `case` through `runner`.
pub fn engages(case: &Case, runner: &dyn Runner) -> (b: bool)
    ensures
        b == engages_spec(*case, runner),
{
    case.applies_to(runner.name()) && runner.applicable(case)
}

/// A runner returning canned raw output (or a canned failure) for every
/// case — exercises the engine and diff machinery without a compiler in
/// the loop.
pub struct FakeRunner {
    pub name: &'static str,
    pub output: Result<String, String>,
}

impl FakeRunner {
    pub fn fixed(raw: &str) -> (r: Self)
        ensures
            r.name@ == "fake"@,
            r.output matches Ok(s) && s@ == raw@,
    {
        FakeRunner { name: "fake", output: Ok(raw.to_owned()) }
    }

    pub fn failing(message: &str) -> (r: Self)
        ensures
            r.name@ == "fake"@,
            r.output matches Err(s) && s@ == message@,
    {
        FakeRunner { name: "fake", output: Err(message.to_owned()) }
    }

    pub fn named(name: &'static str, raw: &str) -> (r: Self)
        ensures
            r.name == name,
            r.output matches Ok(s) && s@ == raw@,
    {
        FakeRunner { name, output: Ok(raw.to_owned()) }
    }

}

impl Runner for FakeRunner {
    open spec fn spec_name(&self) -> &'static str {
        self.name
    }

    /// The canned output, or the canned failure as an invocation error.
    open spec fn produces(&self, case: Case, out: Result<String, RunError>) -> bool {
        match (out, self.output) {
            (Ok(s), Ok(t)) => s@ == t@,
            (Err(RunError::Invoke(m)), Err(t)) => m@ == t@,
            _ => false,
        }
    }

    open spec fn speaks(&self, case: Case) -> bool {
        true
    }

    fn name(&self) -> (r: &'static str) {
        self.name
    }

    /// What the runner reports for any case: the canned output, or the
    /// canned failure as an invocation error.
    fn run(&self, case: &Case) -> (r: Result<String, RunError>) {
        match &self.output {
            Ok(text) => Ok(text.clone()),
            Err(message) => Err(RunError::Invoke(message.clone())),
        }
    }

    /// A canned runner speaks every case.
    fn applicable(&self, case: &Case) -> (b: bool) {
        true
    }
}

} // verus!

verus! {

/// Runs every case through every runner that engages it (its
/// `runners=` directive admits the runner's name and the runner can
/// execute it). Returns the runner names, in the order given, and the
/// matrix of raw results: `raw[c][r]` is runner `r`'s result on case
/// `c`, present exactly where runner `r` engages case `c`.
pub fn run_matrix(cases: &Vec<Case>, runners: &Vec<&dyn Runner>) -> (out: (Vec<&'static str>, Vec<Vec<Option<Result<String, RunError>>>>))
    ensures
        out.0@.len() == runners@.len(),
        forall|r: int| 0 <= r < runners@.len() ==> #[trigger] out.0@[r] == runners@[r].spec_name(),
        out.1@.len() == cases@.len(),
        forall|c: int| 0 <= c < cases@.len() ==> (#[trigger] out.1@[c])@.len() == runners@.len(),
        forall|c: int, r: int|
            0 <= c < cases@.len() && 0 <= r < runners@.len() ==> (#[trigger] out.1@[c]@[r] is Some
                <==> engages_spec(cases@[c], runners@[r])),
        forall|c: int, r: int|
            0 <= c < cases@.len() && 0 <= r < runners@.len() && (#[trigger] out.1@[c]@[r]) is Some
                ==> runners@[r].produces(cases@[c], out.1@[c]@[r]->Some_0),
{
    let mut names: Vec<&'static str> = Vec::new();
    let mut r: usize = 0;
    while r < runners.len()
        invariant
            r <= runners@.len(),
            names@.len() == r,
            forall|rr: int| 0 <= rr < r ==> #[trigger] names@[rr] == runners@[rr].spec_name(),
        decreases runners@.len() - r,
    {
        names.push(runners[r].name());
        r = r + 1;
    }
    let mut raw: Vec<Vec<Option<Result<String, RunError>>>> = Vec::new();
    let mut c: usize = 0;
    while c < cases.len()
        invariant
            c <= cases@.len(),
            names@.len() == runners@.len(),
            forall|rr: int| 0 <= rr < runners@.len() ==> #[trigger] names@[rr] == runners@[rr].spec_name(),
            raw@.len() == c,
            forall|cc: int| 0 <= cc < c ==> (#[trigger] raw@[cc])@.len() == runners@.len(),
            forall|cc: int, rr: int|
                0 <= cc < c && 0 <= rr < runners@.len() ==> (#[trigger] raw@[cc]@[rr] is Some
                    <==> engages_spec(cases@[cc], runners@[rr])),
            forall|cc: int, rr: int|
                0 <= cc < c && 0 <= rr < runners@.len() && (#[trigger] raw@[cc]@[rr]) is Some
                    ==> runners@[rr].produces(cases@[cc], raw@[cc]@[rr]->Some_0),
        decreases cases@.len() - c,
    {
        let mut row: Vec<Option<Result<String, RunError>>> = Vec::new();
        let mut k: usize = 0;
        while k < runners.len()
            invariant
                k <= runners@.len(),
                names@.len() == runners@.len(),
                forall|rr: int| 0 <= rr < runners@.len() ==> #[trigger] names@[rr] == runners@[rr].spec_name(),
                c < cases@.len(),
                row@.len() == k,
                forall|rr: int| 0 <= rr < k ==> ((#[trigger] row@[rr]) is Some
                    <==> engages_spec(cases@[c as int], runners@[rr])),
                forall|rr: int| 0 <= rr < k && (#[trigger] row@[rr]) is Some
                    ==> runners@[rr].produces(cases@[c as int], row@[rr]->Some_0),
            decreases runners@.len() - k,
        {
            let engaged = cases[c].applies_to(names[k]) && runners[k].applicable(&cases[c]);
            if engaged {
                row.push(Some(runners[k].run(&cases[c])));
            } else {
                row.push(None);
            }
            k = k + 1;
        }
        raw.push(row);
        c = c + 1;
    }
    (names, raw)
}

} // verus!
