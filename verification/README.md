# frankish

The front ends and the conformance harness of a small multi-language
compiler, as a Verus library: every function in `src/` carries a
contract that Verus proves.

- `text` — characters, UTF-8 offsets, ordered string sets.
- `scheme` — the r7rs_core reader and core-form parser; free-name analysis.
- `ml` — the ml_core lexer and parser, the type kit (a union-find over
  type variables, with the resolution it answers), Hindley–Milner
  inference over it, and free-variable analysis of typed trees.
- `lua` — the femto_lua lexer and parser; free-name analysis.
- `loanword` — the typed-AST artifact: its canonical JSON, its SHA-256
  content id, and the decoder of its type table and declarations.
- `harness` — golden cases, canonical output, goldens, differential
  runs and the dashboard, over data the caller gathers.

`app/` holds what is not verified: file and process I/O, the reference
interpreters run as child processes, and printing.

Not in this crate: the MLIR code generators of the three front ends
(`compile_ml`, `compile_lua`, `compile_scheme` and their emitters),
lowering to LLVM, the JIT and AOT runners, the interpreter and REPL
runners, the reference runner and the stage errors they report. They
are built on an MLIR binding and on the interpreter crates of the
compiler itself, which this library does not depend on.
