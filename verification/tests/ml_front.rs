use frankish::ml::ast::{parse, BinOp, Expr, Param, Pattern, TypeExpr};
use frankish::ml::lex::{lex, Token};

#[test]
fn lexes_keywords_symbols_and_offsets() {
    let tokens = lex("let f x = (* note (* nested *) *) x <> 10 ;; |").unwrap();
    let kinds: Vec<Token> = tokens.iter().map(|s| s.token.clone()).collect();
    assert_eq!(
        kinds,
        vec![
            Token::Let,
            Token::LIdent("f".into()),
            Token::LIdent("x".into()),
            Token::Equal,
            Token::LIdent("x".into()),
            Token::NotEqual,
            Token::Int(10),
            Token::Bar,
        ]
    );
    assert_eq!(tokens[0].offset, 0);
    assert_eq!(tokens[4].offset, 34);
    assert_eq!(tokens[7].offset, 45);
}

#[test]
fn lex_errors_carry_offset_and_message() {
    let e = lex("let x = 99999999999999999999").unwrap_err();
    assert_eq!(e.offset, 8);
    assert_eq!(e.message, "integer literal out of range: 99999999999999999999");
    let e = lex("(* open").unwrap_err();
    assert_eq!((e.offset, e.message.as_str()), (0, "unterminated comment"));
    let e = lex("x ? y").unwrap_err();
    assert_eq!((e.offset, e.message.as_str()), (2, "unexpected character '?'"));
}

#[test]
fn token_text_matches_display() {
    assert_eq!(Token::Int(-3).text(), "-3");
    assert_eq!(Token::LIdent("abc".into()).text(), "abc");
    assert_eq!(Token::GreaterEq.text(), "GreaterEq");
}

#[test]
fn precedence_and_associativity() {
    let program = parse("let main () = if 1 + 2 * 3 = 7 then 40 + 2 else 0").unwrap();
    assert_eq!(program.decls.len(), 1);
    let (rec, bindings) = &program.decls[0];
    assert!(!rec);
    assert_eq!(bindings[0].name, "main");
    let Expr::Fun { param: Param::Unit, body, .. } = &bindings[0].expr else { panic!() };
    let Expr::If { cond, .. } = &**body else { panic!() };
    let Expr::Bin { op: BinOp::Eq, lhs, .. } = &**cond else { panic!() };
    let Expr::Bin { op: BinOp::Add, rhs, .. } = &**lhs else { panic!() };
    assert!(matches!(&**rhs, Expr::Bin { op: BinOp::Mul, .. }));

    let program = parse("let main () = 10 - 3 - 2").unwrap();
    let Expr::Fun { body, .. } = &program.decls[0].1[0].expr else { panic!() };
    let Expr::Bin { op: BinOp::Sub, lhs, rhs } = &**body else { panic!() };
    assert!(matches!(&**lhs, Expr::Bin { op: BinOp::Sub, .. }));
    assert!(matches!(&**rhs, Expr::Int(2)));
}

#[test]
fn negative_literals_fold_and_other_negations_wrap() {
    let program = parse("let main () = -5 + - - 47 + -x").unwrap();
    let Expr::Fun { body, .. } = &program.decls[0].1[0].expr else { panic!() };
    let Expr::Bin { lhs, rhs, .. } = &**body else { panic!() };
    assert!(matches!(&**rhs, Expr::Neg(inner) if matches!(&**inner, Expr::Var(v) if v == "x")));
    let Expr::Bin { lhs, rhs, .. } = &**lhs else { panic!() };
    assert!(matches!(&**lhs, Expr::Int(-5)));
    assert!(matches!(&**rhs, Expr::Int(47)));
}

#[test]
fn multi_param_bindings_nest_with_fresh_ids() {
    let program = parse("let add x y = x + y\nlet main () = add 40 2").unwrap();
    let add = &program.decls[0].1[0];
    let Expr::Fun { id: outer, param: Param::Named(x), body } = &add.expr else { panic!() };
    let Expr::Fun { id: inner, param: Param::Named(y), .. } = &**body else { panic!() };
    assert_eq!((x.as_str(), y.as_str()), ("x", "y"));
    assert_eq!((*inner, *outer, add.id), (0, 1, 2));
    let main = &program.decls[1].1[0];
    let Expr::Fun { id, body, .. } = &main.expr else { panic!() };
    assert_eq!((*id, main.id), (3, 4));
    let Expr::App { func, arg } = &**body else { panic!() };
    assert!(matches!(&**arg, Expr::Int(2)));
    assert!(matches!(&**func, Expr::App { .. }));
}

#[test]
fn pattern_lets_become_matches() {
    let program = parse("let main () = let (a, (b, c)) = (2, (10, 30)) in a + b + c").unwrap();
    let Expr::Fun { body, .. } = &program.decls[0].1[0].expr else { panic!() };
    let Expr::Match { scrutinee, arms } = &**body else { panic!() };
    assert!(matches!(&**scrutinee, Expr::Tuple(items) if items.len() == 2));
    assert_eq!(arms.len(), 1);
    let Pattern::Tuple(parts) = &arms[0].0 else { panic!() };
    assert!(matches!(&parts[1], Pattern::Tuple(inner) if inner.len() == 2));
    assert!(parse("let main () = let rec (a, b) = (1, 2) in a").is_err());
}

#[test]
fn typedefs_and_match_arms() {
    let program = parse(
        "type shape = Circle of int | Rect of int * int | Point\n\
         let area s = match s with\n\
           | Circle r -> 3 * r * r\n\
           | Rect (w, h) -> w * h\n\
           | Point -> 0\n\
         let main () = area (Rect (6, 7)) + area Point",
    )
    .unwrap();
    assert_eq!(program.typedefs.len(), 1);
    let shape = &program.typedefs[0];
    assert_eq!(shape.name, "shape");
    assert_eq!(shape.ctors.len(), 3);
    assert!(matches!(shape.ctors[1].1.as_slice(), [TypeExpr::Int, TypeExpr::Int]));
    assert!(shape.ctors[2].1.is_empty());
    let Expr::Fun { body, .. } = &program.decls[0].1[0].expr else { panic!() };
    let Expr::Match { arms, .. } = &**body else { panic!() };
    assert_eq!(arms.len(), 3);
    assert!(matches!(&arms[1].0, Pattern::Ctor { name, arg: Some(_) } if name == "Rect"));
    assert!(matches!(&arms[2].0, Pattern::Ctor { name, arg: None } if name == "Point"));
}

#[test]
fn parse_errors_name_what_was_expected() {
    let e = parse("let main () = (1, 2").unwrap_err();
    assert_eq!(e.message, "expected RParen, found end of input");
    assert_eq!(e.offset, usize::MAX);
    let e = parse("let main () = 1 +").unwrap_err();
    assert_eq!(e.message, "expected an expression, found end of input");
    let e = parse("main").unwrap_err();
    assert_eq!((e.offset, e.message.as_str()), (0, "expected `type` or `let`, found main"));
    let e = parse("let f = fun -> 1").unwrap_err();
    assert_eq!((e.offset, e.message.as_str()), (12, "fun needs at least one parameter"));
    let e = parse("let f = fun 3 -> 1").unwrap_err();
    assert_eq!((e.offset, e.message.as_str()), (12, "expected a parameter or ->, found 3"));
    let e = parse("let f = match x with - y -> 1").unwrap_err();
    assert_eq!(e.message, "expected an integer after - in a pattern");
    let e = parse("type t = lower").unwrap_err();
    assert_eq!(e.message, "expected a constructor name, found lower");
    assert_eq!(e.render(), format!("parse error at byte {}: expected a constructor name, found lower", e.offset));
}
