use frankish::ml::ast::parse;
use frankish::ml::check_ml;
use frankish::ml::infer::{infer, TKind, TypedProgram};
use frankish::ml::CompileError;

fn typed(source: &str) -> TypedProgram {
    match check_ml(source) {
        Ok(tp) => tp,
        Err(e) => panic!("{source:?} should typecheck, got {}", e.text()),
    }
}

/// The type error of `source` as a whole program (`main : unit -> int`).
fn type_error(source: &str) -> String {
    let program = match parse(source) {
        Ok(p) => p,
        Err(e) => panic!("{source:?} should parse, got {}", e.render()),
    };
    match infer(&program) {
        Ok(_) => panic!("{source:?} should be refused"),
        Err(e) => e.0,
    }
}

#[test]
fn check_ml_follows_the_repl_policy() {
    assert!(check_ml("let f x = x").is_ok());
    assert!(check_ml("let main () = true").is_ok());
    match check_ml("let main () = 1 + true") {
        Err(CompileError::Type(m)) => assert!(m.contains("cannot unify")),
        _ => panic!("a type error is still refused"),
    }
}

/// The zonked type of the top-level binding named `name`.
fn binding_type(tp: &TypedProgram, name: &str) -> String {
    for (_, bindings) in &tp.decls {
        for b in bindings {
            if b.name == name {
                return b.expr.ty.text();
            }
        }
    }
    panic!("no binding {name}")
}

#[test]
fn main_gets_unit_to_int() {
    let tp = typed("let main () = if 1 + 2 * 3 = 7 then 40 + 2 else 0");
    assert_eq!(binding_type(&tp, "main"), "(unit -> int)");
}

#[test]
fn lets_tuples_and_patterns_typecheck() {
    typed("let main () = let x = 40 in let x = x + 1 in x + 1");
    typed("let main () = let p = (40, 2) in let (a, b) = p in a + b");
    let tp = typed("let swap p = let (a, b) = p in (b, a)\nlet main () = let (x, y) = swap (2, 40) in x - y + 4");
    assert_eq!(binding_type(&tp, "swap"), "((int * int) -> (int * int))");
}

#[test]
fn currying_and_higher_order_typecheck() {
    let tp = typed("let add x y = x + y\nlet main () = add 40 2");
    assert_eq!(binding_type(&tp, "add"), "(int -> (int -> int))");
    let tp = typed("let twice f x = f (f x)\nlet inc n = n + 1\nlet main () = twice inc 40");
    assert_eq!(binding_type(&tp, "twice"), "((int -> int) -> (int -> int))");
}

#[test]
fn recursion_and_mutual_recursion_typecheck() {
    let tp = typed(
        "let rec even n = if n = 0 then true else odd (n - 1)\n\
         and odd n = if n = 0 then false else even (n - 1)\n\
         let main () = if even 10 && odd 7 then 42 else 0",
    );
    assert_eq!(binding_type(&tp, "even"), "(int -> bool)");
    typed("let main () = let rec sum n = if n = 0 then 0 else n + sum (n - 1) in sum 6 + 21");
}

#[test]
fn adts_and_matches_typecheck() {
    let tp = typed(
        "type shape = Circle of int | Rect of int * int | Point\n\
         let area s = match s with\n\
           | Circle r -> 3 * r * r\n\
           | Rect (w, h) -> w * h\n\
           | Point -> 0\n\
         let main () = area (Rect (6, 7)) + area Point",
    );
    assert_eq!(binding_type(&tp, "area"), "(shape -> int)");
    let info = tp.ctors.get("Rect").unwrap();
    assert_eq!(info.adt, "shape");
    assert_eq!(info.tag, 1);
    assert_eq!(info.payload.len(), 2);
    assert_eq!(tp.adts.get("shape").unwrap().ctors.len(), 3);
    typed(
        "type opt = None | Some of int\n\
         type box = Box of opt\n\
         let peek b = match b with\n\
           | Box (Some x) -> x\n\
           | Box None -> 0\n\
         let main () = peek (Box (Some 40)) + peek (Box None) + 2",
    );
}

#[test]
fn constructor_applications_resolve_adt_and_tag() {
    let tp = typed("type opt = None | Some of int\nlet main () = match Some 40 with None -> 0 | Some x -> x + 2");
    let main = &tp.decls[0].1[0];
    let TKind::Fun { body, .. } = &main.expr.kind else { panic!("main is a fun") };
    let TKind::Match { scrutinee, arms } = &body.kind else { panic!("body is a match") };
    match &scrutinee.kind {
        TKind::MakeCtor { adt, tag, payload } => {
            assert_eq!(adt, "opt");
            assert_eq!(*tag, 1);
            assert_eq!(payload.len(), 1);
        }
        other => panic!("expected a constructor, got {other:?}"),
    }
    assert_eq!(arms.len(), 2);
    assert_eq!(scrutinee.ty.text(), "opt");
}

#[test]
fn single_instantiation_polymorphism_is_concretized() {
    let tp = typed("let id x = x\nlet main () = id 42");
    assert_eq!(binding_type(&tp, "id"), "(int -> int)");
    assert!(!tp.decls[0].1[0].dead);
    let tp = typed("let fst p = let (a, _) = p in a\nlet main () = fst (42, 7)");
    assert_eq!(binding_type(&tp, "fst"), "((int * int) -> int)");
}

#[test]
fn unused_generalized_binding_is_dead() {
    let tp = typed("let id x = x\nlet main () = 42");
    assert!(tp.decls[0].1[0].dead);
    assert!(!tp.decls[1].1[0].dead);
}

#[test]
fn frontend_type_rejections() {
    assert_eq!(type_error("let main () = nope + 1"), "unbound variable nope");
    assert!(type_error("let main () = 1 + true").contains("cannot unify"));
    assert!(type_error("type list = Nil | Cons of int * list\nlet main () = 0").contains("recursive ADT"));
    assert!(type_error("let id x = x\nlet main () = id 1 + (if id true then 1 else 0)").contains("distinct types"));
    assert!(type_error("let f x = x").contains("no `main`"));
}

#[test]
fn declaration_errors_come_first() {
    assert_eq!(type_error("type t = A\ntype t = B\nlet main () = 0"), "duplicate type t");
    assert_eq!(type_error("type t = A | A\nlet main () = 0"), "duplicate constructor A");
    assert_eq!(type_error("type t = A of u\nlet main () = 0"), "unknown type u");
}

#[test]
fn occurs_check_refuses_infinite_types() {
    assert!(type_error("let main () = let f x = x x in 0").starts_with("infinite type: 't"));
}

#[test]
fn main_must_be_unit_to_int() {
    assert_eq!(
        type_error("let main () = true"),
        "main must have type unit -> int: cannot unify bool with int"
    );
}

#[test]
fn equality_compares_ints_or_bools() {
    assert_eq!(
        type_error("let main () = if (1, 2) = (1, 2) then 1 else 0"),
        "= and <> compare ints or bools in v0.1, got (int * int)"
    );
}

#[test]
fn constructor_arity_is_checked() {
    assert_eq!(
        type_error("type t = P of int * int\nlet main () = match P 1 with P (a, b) -> a"),
        "P expects a 2-tuple payload (OCaml constructor arity rule)"
    );
    assert_eq!(type_error("type t = A\nlet main () = match A 1 with A -> 0"), "A takes no payload");
    assert_eq!(type_error("type t = B of int\nlet main () = match B with B x -> x"), "B expects a payload");
    assert_eq!(type_error("let main () = Nope"), "unknown constructor Nope");
}

#[test]
fn let_rec_must_bind_functions() {
    assert_eq!(type_error("let main () = let rec x = 1 in x"), "`let rec x` must bind a function");
}

#[test]
fn parse_errors_are_reported_with_offsets() {
    match check_ml("let main () = (1") {
        Err(CompileError::Parse(m)) => assert!(m.starts_with("parse error at byte "), "{m}"),
        _ => panic!("expected a parse error"),
    }
}

#[test]
fn first_order_programs_without_main() {
    let source = "let x = (1, true)\nlet y = if 1 < 2 then 3 else -4";
    assert!(check_ml(source).is_ok());
    assert_eq!(
        type_error(source),
        "no `main` declaration (expected `let main () = ...`)"
    );
    assert!(check_ml("let z = 1 + true").is_err());
}

#[test]
fn first_order_main_under_both_policies() {
    // A function of `()` with a non-int result: the REPL accepts it, the
    // whole-program protocol refuses it.
    assert!(check_ml("let main () = (1, true)").is_ok());
    assert!(type_error("let main () = (1, true)").starts_with("main must have type unit -> int: "));
    let program = match parse("let k = 4 * 10\nlet main () = if k = 40 then k + 2 else 0") {
        Ok(p) => p,
        Err(e) => panic!("should parse, got {}", e.render()),
    };
    assert!(infer(&program).is_ok());
    let program = match parse("let main () = 4 * 10 + 2") {
        Ok(p) => p,
        Err(e) => panic!("should parse, got {}", e.render()),
    };
    match infer(&program) {
        Ok(tp) => assert_eq!(binding_type(&tp, "main"), "(unit -> int)"),
        Err(e) => panic!("a first-order main should be accepted, got {}", e.0),
    }
}
