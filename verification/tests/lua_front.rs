use frankish::lua::ast::{parse, BinOp, Expr, Field, Stat, UnOp};
use frankish::lua::lex::{lex, NumLit, Token};

#[test]
fn lexes_numbers_strings_and_operators() {
    let tokens = lex("local x = 0x1F + 2.5e3 .. 'a\\tb\\065' -- note\n~= ...").unwrap();
    let kinds: Vec<Token> = tokens.iter().map(|s| s.token.clone()).collect();
    assert_eq!(
        kinds,
        vec![
            Token::Local,
            Token::Name("x".into()),
            Token::Assign,
            Token::Number(NumLit::Hex(31)),
            Token::Plus,
            Token::Number(NumLit::Decimal("2.5e3".into())),
            Token::Concat,
            Token::Str("a\tbA".into()),
            Token::NotEq,
            Token::Dots,
        ]
    );
    assert_eq!(tokens[3].start, 10);
    assert_eq!(tokens[7].start, 26);
}

#[test]
fn leading_dot_numbers_and_plain_dots() {
    let tokens = lex(".5 a.b").unwrap();
    assert_eq!(tokens[0].token, Token::Number(NumLit::Decimal(".5".into())));
    assert_eq!(tokens[2].token, Token::Dot);
}

#[test]
fn lex_refusals_carry_offsets() {
    let cases: [(&str, usize, &str); 10] = [
        ("x = [[long]]", 4, "long strings are fenced in v0.1 (D-052)"),
        ("--[[ c ]]", 0, "long comments are fenced in v0.1 (D-052)"),
        ("a ~ b", 2, "stray ~"),
        ("s = 'abc", 4, "unterminated string"),
        ("s = 'a\\", 6, "dangling escape"),
        ("s = '\\300'", 5, "\\ddd escape above 255"),
        ("s = '\\200'", 7, "non-ASCII literal byte (fenced, D-056)"),
        ("s = '\\q'", 5, "unsupported escape \\q"),
        ("x = 0x", 4, "bad hex literal"),
        ("x = 1e+", 4, "bad number literal"),
    ];
    for (source, offset, message) in cases {
        let e = lex(source).unwrap_err();
        assert_eq!((e.offset, e.message.as_str()), (offset, message), "{source}");
    }
    let e = lex("x = @").unwrap_err();
    assert_eq!((e.offset, e.message.as_str()), (4, "unexpected byte 0x40"));
    assert_eq!(lex("x = 0x1_").unwrap()[2].token, Token::Number(NumLit::Hex(1)));
    assert_eq!(lex("x = 0x10000000000000000").unwrap_err().message, "bad hex literal");
}

#[test]
fn parses_statements_and_precedence() {
    let chunk = parse("local a = 1 + 2 * 3 .. 'x' .. 'y'\nprint(a)\nreturn a").unwrap();
    assert_eq!(chunk.len(), 3);
    let Stat::Local(name, value, 0) = &chunk[0] else { panic!() };
    assert_eq!(name, "a");
    let Expr::Binary(BinOp::Concat, lhs, rhs, _) = value else { panic!() };
    assert!(matches!(&**lhs, Expr::Binary(BinOp::Add, _, r, _) if matches!(&**r, Expr::Binary(BinOp::Mul, ..))));
    assert!(matches!(&**rhs, Expr::Binary(BinOp::Concat, ..)));
    assert!(matches!(&chunk[1], Stat::Call(Expr::Call(f, args, _), _)
        if args.len() == 1 && matches!(&**f, Expr::Name(n, _) if n == "print")));
    assert!(matches!(&chunk[2], Stat::Return(vs, _) if vs.len() == 1));
}

#[test]
fn control_flow_forms() {
    let chunk = parse(
        "for i = 1, 10, 2 do x = x + i end\n\
         for k, v in pairs(t) do t[k] = -v end\n\
         if a then b() elseif c then d() else e() end\n\
         while not done do step() end\n\
         repeat n = n - 1 until n == 0\n\
         do local function f(p, q) return p end end\n\
         function g() break end",
    )
    .unwrap();
    assert_eq!(chunk.len(), 7);
    assert!(matches!(&chunk[0], Stat::NumFor(v, _, _, Some(_), body, _) if v == "i" && body.len() == 1));
    assert!(matches!(&chunk[1], Stat::GenFor(ns, _, body, _)
        if ns.len() == 2 && matches!(&body[0], Stat::AssignIndex(_, _, Expr::Unary(UnOp::Neg, ..), _))));
    assert!(matches!(&chunk[2], Stat::If(arms, Some(_), _) if arms.len() == 2));
    assert!(matches!(&chunk[3], Stat::While(Expr::Unary(UnOp::Not, ..), _, _)));
    assert!(matches!(&chunk[4], Stat::Repeat(_, Expr::Binary(BinOp::Eq, ..), _)));
    assert!(matches!(&chunk[5], Stat::Do(body, _)
        if matches!(&body[0], Stat::LocalFunction(n, ps, _, _) if n == "f" && ps.len() == 2)));
    assert!(matches!(&chunk[6], Stat::GlobalFunction(n, ps, body, _)
        if n == "g" && ps.is_empty() && matches!(&body[0], Stat::Break(_))));
}

#[test]
fn tables_indexing_and_multi_assignment() {
    let e = parse("local t = {1, x = 2; [3] = 4}\na, b = t.x, 1").unwrap_err();
    assert_eq!((e.offset, e.message.as_str()), (40, "expected an expression"));
    let chunk = parse("local t = {1, x = 2; [3] = 4}\na, b = f()\nlocal p, q = g()").unwrap();
    let Stat::Local(_, Expr::Table(fields, _), _) = &chunk[0] else { panic!() };
    assert!(matches!(&fields[0], Field::Positional(Expr::Num(NumLit::Decimal(d), _)) if d == "1"));
    assert!(matches!(&fields[1], Field::Named(n, _) if n == "x"));
    assert!(matches!(&fields[2], Field::Keyed(..)));
    assert!(matches!(&chunk[1], Stat::AssignMulti(ns, Expr::Call(..), _) if ns.len() == 2));
    assert!(matches!(&chunk[2], Stat::LocalMulti(ns, _, _) if ns.len() == 2));
    let chunk = parse("a.b.c = 1").unwrap();
    let Stat::AssignIndex(target, key, _, _) = &chunk[0] else { panic!() };
    assert!(matches!(target, Expr::Index(_, k, _) if matches!(&**k, Expr::Str(s, _) if s == "b")));
    assert!(matches!(key, Expr::Str(s, 3) if s == "c"));
}

#[test]
fn fenced_forms_are_parse_errors() {
    let cases: [(&str, usize, &str); 9] = [
        ("x = 2 ^ 3", 6, "^ is fenced in v0.1 (D-052)"),
        ("print 'hi'", 6, "paren-free call sugar is fenced in v0.1 (D-052)"),
        ("obj:method()", 3, "method calls are fenced in v0.1 (D-052)"),
        ("function a.b() end", 10, "method declarations are fenced in v0.1 (D-052)"),
        ("local a, b = 1, 2", 14, "multi-expression RHS is fenced in v0.2 (D-058)"),
        ("for k in next, t do end", 13, "explicit iterator triples are fenced in v0.2 (D-058)"),
        ("local x", 6, "expected = (locals require an initializer)"),
        ("f() = 1", 6, "cannot assign to this expression"),
        ("x", 0, "expression statements must be calls"),
    ];
    for (source, offset, message) in cases {
        let e = parse(source).unwrap_err();
        assert_eq!((e.offset, e.message.as_str()), (offset, message), "{source}");
    }
    assert_eq!(parse("for 1").unwrap_err().message, "expected a name");
    assert_eq!(parse("for i do end").unwrap_err().message, "malformed for");
    assert_eq!(parse("if x then y() z").unwrap_err().message, "expression statements must be calls");
    assert_eq!(parse("if x then return end").unwrap().len(), 1);
    assert_eq!(parse("(1)()").unwrap().len(), 1);
    assert_eq!(parse("x.y, z = 1").unwrap_err().message, "multi-assignment targets are names only");
    let e = parse("end").unwrap_err();
    assert_eq!(e.render(), "parse error at byte 0: trailing input after chunk");
}
