use frankish::scheme::ast::{parse, Expr, LetKind, Top};
use frankish::scheme::reader::Datum;

#[test]
fn parses_define_forms() {
    let program = parse("(define x 5)\n(define (f n) (+ n x))\n(display (f 37))").unwrap();
    assert_eq!(program.len(), 3);
    assert!(matches!(&program[0], Top::Define(n, Expr::Int(5, _), _) if n == "x"));
    assert!(matches!(&program[1], Top::Define(n, Expr::Lambda(p, _, _), _)
        if n == "f" && p == &["n"]));
    assert!(matches!(&program[2], Top::Expr(Expr::App(..))));
}

#[test]
fn parses_let_family_and_if() {
    let p = parse("(let* ((a 1) (b 2)) (if (< a b) a b))").unwrap();
    let Top::Expr(Expr::Let(kind, binds, body, _)) = &p[0] else { panic!() };
    assert_eq!(*kind, LetKind::LetStar);
    assert_eq!(binds.len(), 2);
    assert!(matches!(&body[0], Expr::If(..)));
}

#[test]
fn nested_define_is_fenced() {
    assert!(parse("(define (f) (define y 1) y)").is_err());
}

#[test]
fn import_is_a_noop() {
    let program = parse("(import (scheme base) (scheme write))\n(display 1)").unwrap();
    assert_eq!(program.len(), 1);
    assert!(matches!(&program[0], Top::Expr(Expr::App(..))));
}

#[test]
fn form_errors_carry_their_messages() {
    assert_eq!(parse("").unwrap_err(), "empty program");
    assert_eq!(parse("(import (scheme base))").unwrap_err(), "empty program");
    assert_eq!(parse("()").unwrap_err(), "() is not a valid expression");
    assert_eq!(parse("(if 1 2)").unwrap_err(), "if takes exactly (if test then else) in v0");
    assert_eq!(parse("(define x 1 2)").unwrap_err(), "(define x expr) takes exactly one value");
    assert_eq!(parse("(define 5 1)").unwrap_err(), "define expects a name or a (name params…) signature");
    assert_eq!(parse("(define (f 1) 1)").unwrap_err(), "procedure signature holds only symbols");
    assert_eq!(parse("(define () 1)").unwrap_err(), "empty procedure signature");
    assert_eq!(parse("(define (f))").unwrap_err(), "a body needs at least one expression");
    assert_eq!(parse("(lambda x 1)").unwrap_err(), "lambda expects a parameter list");
    assert_eq!(parse("(lambda (1) 1)").unwrap_err(), "lambda parameters are symbols");
    assert_eq!(parse("(let ((1 2)) 3)").unwrap_err(), "a let binding is (name expr)");
    assert_eq!(parse("(let x 3)").unwrap_err(), "let expects a binding list");
    assert_eq!(parse("(quote 1 2)").unwrap_err(), "quote takes exactly one datum");
    assert_eq!(parse("(define (f) (define y 1) y)").unwrap_err(), "nested define is fenced in r7rs_core v0");
    assert_eq!(parse("(+ 1").unwrap_err(), "unterminated list: missing `)`");
}

#[test]
fn guard_clause_shapes() {
    let ok = parse("(guard (e ((symbol? e) 1) (else 2)) (raise 'a))").unwrap();
    let Top::Expr(Expr::Guard { var, clauses, else_body, body, .. }) = &ok[0] else { panic!() };
    assert_eq!(var, "e");
    assert_eq!(clauses.len(), 1);
    assert_eq!(else_body.as_ref().map(|b| b.len()), Some(1));
    assert_eq!(body.len(), 1);
    let arrow = parse("(display (guard (e ((eq? e 'a) => car)) (raise 'a)))\n").unwrap_err();
    assert!(arrow.contains("D-081"), "{arrow}");
    let bare = parse("(display (guard (e ((+ e 1))) (raise 41)))\n").unwrap_err();
    assert!(bare.contains("without expressions"), "{bare}");
    assert_eq!(parse("(guard (e (else 1) (#t 2)) 3)").unwrap_err(), "guard's else clause must be last");
    assert_eq!(parse("(guard (e) 3)").unwrap_err(), "guard needs at least one clause");
    assert_eq!(parse("(guard (1 (else 1)) 3)").unwrap_err(), "guard's spec starts with the condition variable");
    assert_eq!(parse("(guard (e 5) 3)").unwrap_err(), "a guard clause is (test expr…) or (else expr…)");
    assert_eq!(parse("(guard (e ()) 3)").unwrap_err(), "a guard clause is (test expr…)");
    assert_eq!(parse("(guard (e (else)) 3)").unwrap_err(), "guard's else clause needs a body");
}

#[test]
fn parameterize_desugars_to_let_star_and_dynamic_wind() {
    let p = parse("(parameterize ((p 1)) 2)").unwrap();
    let Top::Expr(Expr::Let(kind, binds, body, span)) = &p[0] else { panic!() };
    assert_eq!(*kind, LetKind::LetStar);
    assert_eq!(span.start, 0);
    let names: Vec<&str> = binds.iter().map(|(n, _)| n.as_str()).collect();
    assert_eq!(names, vec![" prm0_0", " new0_0", " old0_0"]);
    assert!(matches!(&binds[0].1, Expr::Var(n, _) if n == "p"));
    assert!(matches!(&binds[1].1, Expr::Int(1, _)));
    assert!(matches!(&binds[2].1, Expr::App(f, args, _)
        if args.is_empty() && matches!(&**f, Expr::Var(n, _) if n == " prm0_0")));
    assert_eq!(body.len(), 2);
    assert!(matches!(&body[0], Expr::App(f, args, _)
        if args.len() == 2 && matches!(&**f, Expr::Var(n, _) if n == " prm0_0")
            && matches!(&args[0], Expr::Var(n, _) if n == " new0_0")
            && matches!(&args[1], Expr::Int(0, _))));
    let Expr::App(wind, thunks, _) = &body[1] else { panic!() };
    assert!(matches!(&**wind, Expr::Var(n, _) if n == "dynamic-wind"));
    assert_eq!(thunks.len(), 3);
    assert!(matches!(&thunks[0], Expr::Lambda(ps, b, _) if ps.is_empty() && matches!(&b[0], Expr::Bool(false, _))));
    assert!(matches!(&thunks[2], Expr::Lambda(_, b, _)
        if matches!(&b[0], Expr::App(_, args, _) if matches!(&args[0], Expr::Var(n, _) if n == " old0_0"))));
}

#[test]
fn parameterize_restores_in_reverse_order() {
    let p = parse("  (parameterize ((a 1) (b 2)) 3)").unwrap();
    let Top::Expr(Expr::Let(_, binds, body, _)) = &p[0] else { panic!() };
    assert_eq!(binds.len(), 6);
    assert_eq!(binds[3].0, " new2_1");
    assert_eq!(binds[4].0, " old2_0");
    let Expr::App(_, thunks, _) = &body[2] else { panic!() };
    let Expr::Lambda(_, restore, _) = &thunks[2] else { panic!() };
    assert!(matches!(&restore[0], Expr::App(_, args, _) if matches!(&args[0], Expr::Var(n, _) if n == " old2_1")));
    assert!(matches!(&restore[1], Expr::App(_, args, _) if matches!(&args[0], Expr::Var(n, _) if n == " old2_0")));
    assert_eq!(parse("(parameterize () 1)").unwrap_err(), "parameterize needs at least one binding");
    assert_eq!(parse("(parameterize ((a)) 1)").unwrap_err(), "a parameterize binding is (param expr)");
}

#[test]
fn quote_keeps_the_datum_and_spans_are_bytes() {
    let p = parse("(display '(a 1))").unwrap();
    let Top::Expr(Expr::App(_, args, span)) = &p[0] else { panic!() };
    assert_eq!((span.start, span.end), (0, 16));
    let Expr::Quote(Datum::List(items, _), qspan) = &args[0] else { panic!() };
    assert_eq!(items.len(), 2);
    assert_eq!(args[0].span(), *qspan);
    assert_eq!(qspan.start, 9);
}
