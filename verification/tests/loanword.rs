use frankish::loanword::artifact::{parse_artifact, Artifact, Row, TsTy};
use frankish::loanword::LoanwordError;
use sha2::{Digest, Sha256};

/// Seals a document: adds the `sha256` content id of its canonical
/// bytes (sorted keys, no whitespace).
fn seal(doc: &str) -> String {
    let mut value: serde_json::Value = serde_json::from_str(doc).unwrap();
    let bytes = value.to_string();
    let sha = format!("{:x}", Sha256::digest(bytes.as_bytes()));
    value
        .as_object_mut()
        .unwrap()
        .insert("sha256".to_string(), serde_json::Value::String(sha));
    value.to_string()
}

fn parsed(doc: &str) -> Artifact {
    match parse_artifact(&seal(doc)) {
        Ok(a) => a,
        Err(e) => panic!("{doc} should parse, got {}", e.0),
    }
}

fn refused(text: &str) -> String {
    match parse_artifact(text) {
        Ok(_) => panic!("{text} should be refused"),
        Err(e) => e.0,
    }
}

const FIB: &str = r#"{
  "loanword": 1,
  "file": "fib.ts",
  "source": "function fib(n: number): number {\n  return n < 2 ? n : fib(n - 1) + fib(n - 2);\n}\n",
  "types": [{"k": "num"}, {"k": "bool"}, {"k": "void"}],
  "decls": [
    {"k": "fn", "name": "fib", "params": [{"name": "n", "ty": 0}], "ret": 0,
     "body": [{"k": "return", "e": {"k": "num", "v": 1}}]}
  ],
  "stmts": [{"k": "expr", "e": {"k": "call", "f": "fib", "args": []}}]
}"#;

fn with_types(types: &str) -> String {
    format!(
        r#"{{"loanword":1,"file":"t.ts","source":"","types":{types},"decls":[],"stmts":[]}}"#
    )
}

#[test]
fn a_sealed_artifact_decodes() {
    let a = parsed(FIB);
    assert_eq!(a.file, "fib.ts");
    assert_eq!(a.functions.len(), 1);
    let f = &a.functions[0];
    assert_eq!(f.name, "fib");
    assert_eq!(f.params.len(), 1);
    assert_eq!(f.params[0].0, "n");
    assert!(matches!(f.params[0].1, TsTy::Num));
    assert!(matches!(f.ret, TsTy::Num));
    assert_eq!(f.body.len(), 1);
    assert_eq!(f.body[0]["k"], "return");
    assert_eq!(a.top.len(), 1);
    assert_eq!(a.types.len(), 3);
    assert!(matches!(a.types[2], Row::Ty(TsTy::Void)));
    assert!(a.class_decls.is_empty());
}

#[test]
fn line_starts_are_byte_offsets_after_each_line_feed() {
    let a = parsed(FIB);
    // The first line is 33 bytes, the second 45, the third 1; the
    // source ends with a line feed.
    assert_eq!(a.line_starts, vec![0, 34, 80, 82]);
    let b = parsed(r#"{"loanword":1,"file":"u.ts","source":"é\nx","types":[],"decls":[],"stmts":[]}"#);
    assert_eq!(b.line_starts, vec![0, 3]);
}

#[test]
fn a_file_that_is_no_string_reads_as_loanword() {
    let a = parsed(r#"{"loanword":1,"file":null,"source":"x","types":[],"decls":[],"stmts":[]}"#);
    assert_eq!(a.file, "<loanword>");
    assert_eq!(a.line_starts, vec![0]);
}

#[test]
fn tampered_source_is_refused_naming_both_hashes() {
    let sealed = seal(FIB);
    let tampered = sealed.replace("n < 2", "n < 3");
    assert_ne!(sealed, tampered);
    let message = refused(&tampered);
    assert!(message.starts_with("content id mismatch: artifact claims "), "{message}");
    assert!(message.contains(", canonical bytes hash to "), "{message}");
    let claimed: serde_json::Value = serde_json::from_str(&sealed).unwrap();
    let claimed = claimed["sha256"].as_str().unwrap().to_string();
    assert!(message.contains(&claimed), "{message}");
    assert!(parse_artifact(&sealed).is_ok());
}

#[test]
fn whitespace_and_key_order_do_not_change_the_content_id() {
    let sealed = seal(FIB);
    let value: serde_json::Value = serde_json::from_str(&sealed).unwrap();
    let pretty = serde_json::to_string_pretty(&value).unwrap();
    assert!(parse_artifact(&pretty).is_ok());
}

#[test]
fn the_document_must_be_json_with_a_content_id() {
    assert!(refused("{not json").starts_with("artifact is not JSON: "));
    assert_eq!(refused("[1, 2]"), "artifact root must be an object");
    assert_eq!(refused(r#"{"loanword": 1}"#), "artifact has no sha256 content id");
    assert_eq!(refused(r#"{"sha256": 7}"#), "artifact has no sha256 content id");
}

#[test]
fn only_version_one_is_read() {
    let two = seal(r#"{"loanword":2,"file":"t.ts","source":"","types":[],"decls":[],"stmts":[]}"#);
    assert_eq!(refused(&two), "unsupported loanword version Some(2) (v1 frozen at M9)");
    let text = seal(r#"{"loanword":"1","file":"t.ts","source":"","types":[],"decls":[],"stmts":[]}"#);
    assert_eq!(refused(&text), "unsupported loanword version None (v1 frozen at M9)");
    let negative = seal(r#"{"loanword":-3,"file":"t.ts","source":"","types":[],"decls":[],"stmts":[]}"#);
    assert_eq!(refused(&negative), "unsupported loanword version Some(-3) (v1 frozen at M9)");
}

#[test]
fn a_missing_field_names_the_key_and_the_node() {
    let doc = seal(r#"{"loanword":1,"file":"t.ts","types":[],"decls":[],"stmts":[]}"#);
    let message = refused(&doc);
    assert!(message.starts_with("node missing \"source\": {\"decls\":[],\"file\":\"t.ts\""), "{message}");
    let no_version = seal(r#"{"file":"t.ts"}"#);
    assert!(refused(&no_version).starts_with("node missing \"loanword\": "));
    let numeric_source = seal(r#"{"loanword":1,"file":"t.ts","source":3,"types":[],"decls":[],"stmts":[]}"#);
    assert_eq!(refused(&numeric_source), "non-string source");
}

#[test]
fn the_type_table_resolves_arrays_unions_and_classes() {
    let types = r#"[
        {"k":"num"},
        {"k":"arr","elem":0},
        {"k":"str"},
        {"k":"obj","kind":"circle","fields":[{"name":"r","ty":0}]},
        {"k":"obj","kind":"label","fields":[{"name":"text","ty":2}]},
        {"k":"union","variants":[3,4]},
        {"k":"cref","name":"Node"},
        {"k":"class","name":"Node","fields":[{"name":"value","ty":0},{"name":"next","ty":6}]}
    ]"#;
    let a = parsed(&with_types(types));
    assert_eq!(a.types.len(), 8);
    match &a.types[1] {
        Row::Ty(TsTy::Arr(elem)) => assert!(matches!(**elem, TsTy::Num)),
        other => panic!("row 1: {other:?}"),
    }
    match &a.types[3] {
        Row::Obj(def) => {
            assert_eq!(def.kind, "circle");
            assert_eq!(def.fields[0].0, "r");
        }
        other => panic!("row 3: {other:?}"),
    }
    assert!(matches!(a.types[5], Row::Ty(TsTy::Union(5))));
    // The class reference comes before the class row it names.
    assert!(matches!(a.types[6], Row::Ty(TsTy::Class(7))));
    assert!(matches!(a.types[7], Row::Ty(TsTy::Class(7))));

    let union = a.union_at(5).unwrap();
    assert_eq!(union.variants.len(), 2);
    assert_eq!(union.variants[1].kind, "label");
    assert!(matches!(union.variants[1].fields[0].1, TsTy::Str));
    let class = a.class_at(7).unwrap();
    assert_eq!(class.name, "Node");
    assert!(matches!(class.fields[1].1, TsTy::Class(7)));

    assert_eq!(a.union_at(0).unwrap_err().0, "type ref 0 is not a union row (D-072)");
    assert_eq!(a.union_at(99).unwrap_err().0, "type ref 99 is not a union row (D-072)");
    assert_eq!(a.class_at(6).unwrap_err().0, "type ref 6 is not a class row (D-073)");
    assert_eq!(a.class_decl(7).unwrap_err().0, "class row 7 has no declaration");
}

#[test]
fn type_rows_are_fenced() {
    let refuse = |types: &str| refused(&seal(&with_types(types)));
    assert_eq!(
        refuse(r#"[{"k":"num"},{"k":"arr","elem":0},{"k":"arr","elem":1}]"#),
        "nested arrays are fenced in TS-0 (D-049)"
    );
    assert_eq!(refuse(r#"[{"k":"arr","elem":4}]"#), "type ref 4 out of range");
    assert_eq!(refuse(r#"[{"k":"arr","elem":"0"}]"#), "type ref must be an index");
    assert_eq!(
        refuse(r#"[{"k":"obj","kind":"a","fields":[]},{"k":"arr","elem":0}]"#),
        "a variant row is not a value type (D-072)"
    );
    assert_eq!(
        refuse(r#"[{"k":"bool"},{"k":"arr","elem":0},{"k":"obj","kind":"a","fields":[{"name":"xs","ty":1}]}]"#),
        "variant fields are num/bool/str in TS-1 (D-072)"
    );
    assert_eq!(
        refuse(r#"[{"k":"void"},{"k":"class","name":"C","fields":[{"name":"v","ty":0}]}]"#),
        "class fields are num/bool/str/class refs (D-073)"
    );
    assert_eq!(refuse(r#"[{"k":"union","variants":[]}]"#), "a union needs at least one variant");
    assert_eq!(
        refuse(r#"[{"k":"num"},{"k":"union","variants":[0]}]"#),
        "union row must reference variant rows (D-072)"
    );
    assert_eq!(refuse(r#"[{"k":"union","variants":["x"]}]"#), "union variant ref");
    assert_eq!(refuse(r#"[{"k":"cref","name":"Ghost"}]"#), "cref to unknown class \"Ghost\"");
    assert_eq!(
        refuse(r#"[{"k":"class","name":"A","fields":[]},{"k":"class","name":"A","fields":[]}]"#),
        "duplicate class \"A\""
    );
    assert_eq!(refuse(r#"[{"k":"tuple"}]"#), "unsupported interned type \"tuple\"");
    assert_eq!(refuse(r#"[{"k":3}]"#), "non-string node kind");
    assert_eq!(refuse(r#"{"k":"num"}"#), "types must be an array");
}

const SHAPES: &str = r#"{
  "loanword": 1, "file": "shapes.ts", "source": "",
  "types": [
    {"k":"num"},
    {"k":"cref","name":"Cell"},
    {"k":"class","name":"Cell","fields":[{"name":"v","ty":0},{"name":"me","ty":1}]}
  ],
  "decls": [
    {"k":"class","name":"Cell","ty":2,
     "ctor":{"params":[{"name":"v","ty":0}],
             "sets":[{"name":"v","e":{"k":"var","name":"v"}},{"name":"me","self":true}]},
     "methods":[{"name":"get","params":[],"ret":0,"body":[{"k":"return"}]}]},
    {"k":"fn","name":"main","params":[],"ret":0,"body":[]}
  ],
  "stmts": []
}"#;

#[test]
fn class_declarations_keep_constructor_and_methods() {
    let a = parsed(SHAPES);
    assert_eq!(a.class_decls.len(), 1);
    assert_eq!(a.functions.len(), 1);
    assert_eq!(a.functions[0].name, "main");
    let decl = a.class_decl(2).unwrap();
    assert_eq!(decl.name, "Cell");
    assert_eq!(decl.ty, 2);
    assert_eq!(decl.ctor.params.len(), 1);
    assert!(matches!(decl.ctor.params[0].1, TsTy::Num));
    assert_eq!(decl.ctor.sets.len(), 2);
    assert_eq!(decl.ctor.sets[0].0, "v");
    assert_eq!(decl.ctor.sets[0].1.as_ref().unwrap()["k"], "var");
    assert_eq!(decl.ctor.sets[1].0, "me");
    assert!(decl.ctor.sets[1].1.is_none());
    assert_eq!(decl.methods.len(), 1);
    assert_eq!(decl.methods[0].name, "get");
    assert_eq!(decl.methods[0].body.len(), 1);
}

#[test]
fn declarations_are_checked() {
    let decl = |d: &str| {
        refused(&seal(&format!(
            r#"{{"loanword":1,"file":"t.ts","source":"","types":[{{"k":"num"}},{{"k":"obj","kind":"a","fields":[]}}],"decls":[{d}],"stmts":[]}}"#
        )))
    };
    assert_eq!(decl(r#"{"k":"enum"}"#), "unsupported decl kind \"enum\"");
    assert_eq!(
        decl(r#"{"k":"fn","name":"f","params":[{"name":"x","ty":1}],"ret":0,"body":[]}"#),
        "a variant row is not a value type — annotate with its union (D-072)"
    );
    assert_eq!(
        decl(r#"{"k":"fn","name":"f","params":{},"ret":0,"body":[]}"#),
        "params must be an array"
    );
    assert_eq!(decl(r#"{"k":"fn","name":7,"params":[],"ret":0,"body":[]}"#), "fn name");
    assert_eq!(decl(r#"{"k":"fn","name":"f","params":[],"ret":0,"body":0}"#), "fn body");
    assert_eq!(decl(r#"{"k":"fn","name":"f","params":[],"ret":9,"body":[]}"#), "type ref 9 out of range");
    assert_eq!(
        decl(r#"{"k":"class","name":"C","ty":"0","ctor":{"params":[],"sets":[]},"methods":[]}"#),
        "class ty ref"
    );
    let missing_e = decl(r#"{"k":"class","name":"C","ty":0,"ctor":{"params":[],"sets":[{"name":"v"}]},"methods":[]}"#);
    assert_eq!(missing_e, "node missing \"e\": {\"name\":\"v\"}");
}

#[test]
fn loanword_errors_render_with_their_prefix() {
    let e = LoanwordError("types must be an array".to_string());
    assert_eq!(e.text(), "loanword: types must be an array");
}
