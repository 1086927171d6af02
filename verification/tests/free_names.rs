use frankish::lua::free::{free_names_block, free_names_expr, free_names_stat};
use frankish::ml::check_ml;
use frankish::ml::free::{free_vars, pattern_names};
use frankish::ml::infer::TKind;
use frankish::scheme::ast::{parse as parse_scheme, Expr, Top};
use frankish::scheme::free::{free_names, free_names_body, is_primitive};
use frankish::types::Ty;

fn strings(names: &[&str]) -> Vec<String> {
    names.iter().map(|n| n.to_string()).collect()
}

/// The free names of a Lua chunk's statements, none bound outside.
fn lua_free(source: &str) -> Vec<String> {
    let chunk = frankish::lua::ast::parse(source).unwrap();
    let mut bound = Vec::new();
    let mut out = Vec::new();
    free_names_block(&chunk, &mut bound, &mut out);
    assert!(bound.is_empty(), "a block leaves its locals behind");
    out
}

#[test]
fn lua_locals_bind_for_what_follows_and_globals_are_free() {
    assert_eq!(lua_free("local a = b\nprint(a, c)"), strings(&["b", "c", "print"]));
    assert_eq!(lua_free("x = 1\nlocal x = 2\nx = 3"), strings(&["x"]));
    assert_eq!(lua_free("local a, b = f()\nreturn a + b + g"), strings(&["f", "g"]));
    assert_eq!(lua_free("local a = 0\na, b = f()"), strings(&["b", "f"]));
}

#[test]
fn lua_functions_and_loops_bind_their_own_names() {
    assert_eq!(
        lua_free("local function f(n) return f(n - 1) + k end\nreturn f"),
        strings(&["k"])
    );
    assert_eq!(
        lua_free("function g(n) return g(n) end"),
        strings(&["g"])
    );
    assert_eq!(
        lua_free("for i = lo, hi, step do t[i] = i end\nreturn i"),
        strings(&["hi", "i", "lo", "step", "t"])
    );
    assert_eq!(
        lua_free("for k, v in pairs(t) do print(k, v) end"),
        strings(&["pairs", "print", "t"])
    );
    assert_eq!(
        lua_free("repeat local done = check() until done"),
        strings(&["check"])
    );
    assert_eq!(
        lua_free("if a then local b = 1 elseif c then d() else e = b end\nwhile w do break end"),
        strings(&["a", "b", "c", "d", "e", "w"])
    );
    assert_eq!(lua_free("do local q = 1 end\nreturn q"), strings(&["q"]));
    assert_eq!(
        lua_free("return {1, key = v, [k] = #s, -n, not m}"),
        strings(&["k", "m", "n", "s", "v"])
    );
}

#[test]
fn lua_statement_and_expression_entry_points() {
    let chunk = frankish::lua::ast::parse("local z = y").unwrap();
    let mut bound = strings(&["w"]);
    let mut out = Vec::new();
    free_names_stat(&chunk[0], &mut bound, &mut out);
    assert_eq!(out, strings(&["y"]));
    assert_eq!(bound, strings(&["w", "z"]));

    let call = frankish::lua::ast::parse("return f(x, y)").unwrap();
    if let frankish::lua::ast::Stat::Return(values, _) = &call[0] {
        let mut out = strings(&["a"]);
        free_names_expr(&values[0], &strings(&["x"]), &mut out);
        assert_eq!(out, strings(&["a", "f", "y"]));
    } else {
        panic!("expected a return");
    }
}

/// The free names of a Scheme expression with nothing bound.
fn scheme_free(source: &str) -> Vec<String> {
    let program = parse_scheme(source).unwrap();
    let expr: &Expr = match &program[0] {
        Top::Expr(e) => e,
        Top::Define(_, e, _) => e,
    };
    let mut bound = Vec::new();
    let mut out = Vec::new();
    free_names(expr, &mut bound, &mut out);
    assert!(bound.is_empty());
    out
}

#[test]
fn scheme_binders_scope_their_names() {
    assert_eq!(scheme_free("(lambda (x) (+ x y))"), strings(&["+", "y"]));
    // Each initializer sees the names bound before it, whatever the kind.
    assert_eq!(scheme_free("(let ((a 1) (b a)) (f a b c))"), strings(&["c", "f"]));
    assert_eq!(scheme_free("(let* ((a 1) (b a)) b)"), strings(&[]));
    assert_eq!(scheme_free("(letrec ((f (lambda () (f)))) (f))"), strings(&["f"]));
    assert_eq!(scheme_free("(if p (begin q 'r) 7)"), strings(&["p", "q"]));
    assert_eq!(
        scheme_free("(guard (e ((eq? e k) e) (else (h e))) (raise e))"),
        strings(&["e", "eq?", "h", "k", "raise"])
    );
}

#[test]
fn scheme_body_and_primitives() {
    let program = parse_scheme("(define (f) (g 1) (h 2))").unwrap();
    if let Top::Define(_, Expr::Lambda(_, body, _), _) = &program[0] {
        let mut bound = strings(&["g"]);
        let mut out = Vec::new();
        free_names_body(body, &mut bound, &mut out);
        assert_eq!(out, strings(&["h"]));
        assert_eq!(bound, strings(&["g"]));
    } else {
        panic!("expected a procedure definition");
    }
    assert!(is_primitive("vector-set!"));
    assert!(is_primitive("+"));
    assert!(is_primitive("make-parameter"));
    assert!(!is_primitive("call/ec"));
    assert!(!is_primitive("error"));
}

#[test]
fn ml_free_variables_keep_their_first_type_in_name_order() {
    let program = check_ml(
        "let main () = let k = 5 in let b = true in let f x = if b then x + k else k in f 1",
    )
    .unwrap_or_else(|e| panic!("{}", e.text()));
    // Find the closure `f`'s function expression and collect its captures.
    let (_, bindings) = &program.decls[0];
    let main = &bindings[0].expr;
    fn find_fun<'a>(e: &'a frankish::ml::infer::TExpr, name: &str) -> Option<&'a frankish::ml::infer::TExpr> {
        match &e.kind {
            TKind::Fun { body, .. } => find_fun(body, name),
            TKind::Let { bindings, body, .. } => {
                for b in bindings {
                    if b.name == name {
                        return Some(&b.expr);
                    }
                    if let Some(found) = find_fun(&b.expr, name) {
                        return Some(found);
                    }
                }
                find_fun(body, name)
            }
            _ => None,
        }
    }
    let f = find_fun(main, "f").expect("f is bound");
    let mut out: Vec<(String, Ty)> = Vec::new();
    free_vars(f, &Vec::new(), &mut out);
    let names: Vec<&str> = out.iter().map(|(n, _)| n.as_str()).collect();
    assert_eq!(names, vec!["b", "k"]);
    assert!(matches!(out[0].1, Ty::Bool));
    assert!(matches!(out[1].1, Ty::Int));

    let mut bound_out: Vec<(String, Ty)> = Vec::new();
    free_vars(f, &strings(&["k"]), &mut bound_out);
    assert_eq!(bound_out.len(), 1);
    assert_eq!(bound_out[0].0, "b");
}

#[test]
fn ml_patterns_bind_their_variables() {
    let pattern = frankish::ml::ast::Pattern::Tuple(vec![
        frankish::ml::ast::Pattern::Var("a".to_string()),
        frankish::ml::ast::Pattern::Tuple(vec![
            frankish::ml::ast::Pattern::Var("b".to_string()),
            frankish::ml::ast::Pattern::Wild,
        ]),
        frankish::ml::ast::Pattern::Ctor {
            name: "Some".to_string(),
            arg: Some(Box::new(frankish::ml::ast::Pattern::Var("c".to_string()))),
        },
    ]);
    let mut out = Vec::new();
    pattern_names(&pattern, &mut out);
    out.sort();
    assert_eq!(out, strings(&["a", "b", "c"]));
}
