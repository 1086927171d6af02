//! Decoding a verified artifact document: the header, the interned
//! type-row table, and the function and class declarations. Every
//! decoder states its result, or its refusal, over the document's
//! JSON model.

use vstd::prelude::*;
use crate::text::{chars_of, chars_with_offsets, byte_offset, debug_of, debug_text, push_str, string_of};
use crate::harness::canon::{decimal, decimal_chars, decimal_digits, digits_of};
use crate::loanword::{
    JsonModel, LoanwordError, json_model, json_display, json_get, json_str, json_len, json_at,
    json_u64, json_i64, json_bool, json_clone, json_text, json_parse, json_parsed, json_error,
    lookup, lemma_get_is_lookup, keys_ascending, content_id_check, verify_sha,
};

verus! {

/// A value type of the typed AST. Unions and classes are nominal: each
/// names its own row of the type table, whose definition lives in the
/// artifact's side tables.
#[derive(Debug)]
pub enum TsTy {
    Num,
    Bool,
    Void,
    Str,
    Arr(Box<TsTy>),
    Union(usize),
    Class(usize),
}

/// One variant of a discriminated union: its `kind` literal and fields.
#[derive(Debug)]
pub struct VariantDef {
    pub kind: String,
    pub fields: Vec<(String, TsTy)>,
}

#[derive(Debug)]
pub struct UnionDef {
    pub variants: Vec<VariantDef>,
}

#[derive(Debug)]
pub struct ClassDef {
    pub name: String,
    /// In declaration order.
    pub fields: Vec<(String, TsTy)>,
}

/// One interned type row: a value type, or a variant row (referenced by
/// union rows; not a value type by itself).
#[derive(Debug)]
pub enum Row {
    Ty(TsTy),
    Obj(VariantDef),
}

#[derive(Debug)]
pub struct TsFn {
    pub name: String,
    pub params: Vec<(String, TsTy)>,
    pub ret: TsTy,
    pub body: Vec<serde_json::Value>,
}

#[derive(Debug)]
pub struct MethodDecl {
    pub name: String,
    pub params: Vec<(String, TsTy)>,
    pub ret: TsTy,
    pub body: Vec<serde_json::Value>,
}

#[derive(Debug)]
pub struct CtorDecl {
    pub params: Vec<(String, TsTy)>,
    /// (field name, right-hand side) in source order; `None` is
    /// `this.f = this`.
    pub sets: Vec<(String, Option<serde_json::Value>)>,
}

#[derive(Debug)]
pub struct ClassDecl {
    pub ty: usize,
    pub name: String,
    pub ctor: CtorDecl,
    pub methods: Vec<MethodDecl>,
}

#[derive(Debug)]
pub struct Artifact {
    pub functions: Vec<TsFn>,
    pub top: Vec<serde_json::Value>,
    /// Byte offset of each line start of the embedded source.
    pub line_starts: Vec<usize>,
    pub file: String,
    /// The resolved type-row table.
    pub types: Vec<Row>,
    /// Union definitions by the index of their row, in row order.
    pub unions: Vec<(usize, UnionDef)>,
    /// Class definitions by the index of their row, in row order.
    pub classes: Vec<(usize, ClassDef)>,
    pub class_decls: Vec<ClassDecl>,
}

// ---- models ----

pub struct VariantM {
    pub kind: Seq<char>,
    pub fields: Seq<(Seq<char>, TsTy)>,
}

pub enum RowM {
    Ty(TsTy),
    Obj(VariantM),
}

/// A function or a method: name, parameters, result type, body.
pub struct FnM {
    pub name: Seq<char>,
    pub params: Seq<(Seq<char>, TsTy)>,
    pub ret: TsTy,
    pub body: Seq<JsonModel>,
}

pub struct CtorM {
    pub params: Seq<(Seq<char>, TsTy)>,
    pub sets: Seq<(Seq<char>, Option<JsonModel>)>,
}

pub struct ClassDeclM {
    pub ty: usize,
    pub name: Seq<char>,
    pub ctor: CtorM,
    pub methods: Seq<FnM>,
}

/// The type table: the rows, and the union and class definitions keyed
/// by row index.
#[verifier::ext_equal]
pub struct TableM {
    pub rows: Seq<RowM>,
    pub unions: Seq<(usize, Seq<VariantM>)>,
    pub classes: Seq<(usize, (Seq<char>, Seq<(Seq<char>, TsTy)>))>,
}

#[verifier::ext_equal]
pub struct ArtifactM {
    pub functions: Seq<FnM>,
    pub top: Seq<JsonModel>,
    pub line_starts: Seq<usize>,
    pub file: Seq<char>,
    pub table: TableM,
    pub class_decls: Seq<ClassDeclM>,
}

pub open spec fn named(v: Seq<(String, TsTy)>) -> Seq<(Seq<char>, TsTy)> {
    v.map_values(|p: (String, TsTy)| (p.0@, p.1))
}

pub open spec fn values_model(v: Seq<serde_json::Value>) -> Seq<JsonModel> {
    v.map_values(|x: serde_json::Value| json_model(x))
}

impl View for VariantDef {
    type V = VariantM;

    open spec fn view(&self) -> VariantM {
        VariantM { kind: self.kind@, fields: named(self.fields@) }
    }
}

impl View for UnionDef {
    type V = Seq<VariantM>;

    open spec fn view(&self) -> Seq<VariantM> {
        self.variants@.map_values(|d: VariantDef| d@)
    }
}

impl View for ClassDef {
    type V = (Seq<char>, Seq<(Seq<char>, TsTy)>);

    open spec fn view(&self) -> (Seq<char>, Seq<(Seq<char>, TsTy)>) {
        (self.name@, named(self.fields@))
    }
}

impl View for Row {
    type V = RowM;

    open spec fn view(&self) -> RowM {
        match self {
            Row::Ty(t) => RowM::Ty(*t),
            Row::Obj(d) => RowM::Obj(d@),
        }
    }
}

impl View for TsFn {
    type V = FnM;

    open spec fn view(&self) -> FnM {
        FnM { name: self.name@, params: named(self.params@), ret: self.ret, body: values_model(self.body@) }
    }
}

impl View for MethodDecl {
    type V = FnM;

    open spec fn view(&self) -> FnM {
        FnM { name: self.name@, params: named(self.params@), ret: self.ret, body: values_model(self.body@) }
    }
}

pub open spec fn sets_model(v: Seq<(String, Option<serde_json::Value>)>) -> Seq<(Seq<char>, Option<JsonModel>)> {
    v.map_values(|p: (String, Option<serde_json::Value>)| (p.0@, match p.1 {
        Some(e) => Some(json_model(e)),
        None => None,
    }))
}

impl View for CtorDecl {
    type V = CtorM;

    open spec fn view(&self) -> CtorM {
        CtorM { params: named(self.params@), sets: sets_model(self.sets@) }
    }
}

impl View for ClassDecl {
    type V = ClassDeclM;

    open spec fn view(&self) -> ClassDeclM {
        ClassDeclM {
            ty: self.ty,
            name: self.name@,
            ctor: self.ctor@,
            methods: self.methods@.map_values(|m: MethodDecl| m@),
        }
    }
}

pub open spec fn table_model(
    rows: Seq<Row>,
    unions: Seq<(usize, UnionDef)>,
    classes: Seq<(usize, ClassDef)>,
) -> TableM {
    TableM {
        rows: rows.map_values(|r: Row| r@),
        unions: unions.map_values(|p: (usize, UnionDef)| (p.0, p.1@)),
        classes: classes.map_values(|p: (usize, ClassDef)| (p.0, p.1@)),
    }
}

impl View for Artifact {
    type V = ArtifactM;

    open spec fn view(&self) -> ArtifactM {
        ArtifactM {
            functions: self.functions@.map_values(|f: TsFn| f@),
            top: values_model(self.top@),
            line_starts: self.line_starts@,
            file: self.file@,
            table: table_model(self.types@, self.unions@, self.classes@),
            class_decls: self.class_decls@.map_values(|d: ClassDecl| d@),
        }
    }
}

// ---- reading fields ----

/// The refusal for a node without `key`: the key quoted, then the node.
pub open spec fn missing_text(node: JsonModel, key: Seq<char>) -> Seq<char> {
    "node missing "@ + debug_text(key) + ": "@ + json_display(node)
}

/// The value under `key` of an object node.
pub open spec fn get_field(node: JsonModel, key: Seq<char>) -> Result<JsonModel, Seq<char>> {
    match node {
        JsonModel::Obj(es) => match lookup(es, key) {
            Some(v) => Ok(v),
            None => Err(missing_text(node, key)),
        },
        _ => Err(missing_text(node, key)),
    }
}

/// The string under `key`; `msg` where the value is no string.
pub open spec fn str_field(node: JsonModel, key: Seq<char>, msg: Seq<char>) -> Result<Seq<char>, Seq<char>> {
    match get_field(node, key) {
        Ok(JsonModel::Str(s)) => Ok(s),
        Ok(_) => Err(msg),
        Err(m) => Err(m),
    }
}

/// The array under `key`; `msg` where the value is no array.
pub open spec fn arr_field(node: JsonModel, key: Seq<char>, msg: Seq<char>) -> Result<Seq<JsonModel>, Seq<char>> {
    match get_field(node, key) {
        Ok(JsonModel::Arr(items)) => Ok(items),
        Ok(_) => Err(msg),
        Err(m) => Err(m),
    }
}

/// The unsigned index under `key`; `msg` where the value is none.
pub open spec fn index_field(node: JsonModel, key: Seq<char>, msg: Seq<char>) -> Result<u64, Seq<char>> {
    match get_field(node, key) {
        Ok(JsonModel::Num(_, _, Some(u))) => Ok(u),
        Ok(_) => Err(msg),
        Err(m) => Err(m),
    }
}

/// A node's kind: its `k` string.
pub open spec fn node_kind(node: JsonModel) -> Result<Seq<char>, Seq<char>> {
    str_field(node, "k"@, "non-string node kind"@)
}

fn refusal(message: &str) -> (e: LoanwordError)
    ensures
        e.0@ == message@,
{
    LoanwordError(message.to_owned())
}

/// `field`: the value under `key`, or the refusal naming the key and
/// the node.
fn field<'a>(node: &'a serde_json::Value, key: &str) -> (r: Result<&'a serde_json::Value, LoanwordError>)
    ensures
        match (r, get_field(json_model(*node), key@)) {
            (Ok(c), Ok(m)) => json_model(*c) == m,
            (Err(e), Err(m)) => e.0@ == m,
            _ => false,
        },
{
    match json_get(node, key) {
        Some(c) => {
            proof {
                let es = json_model(*node)->Obj_0;
                let i = choose|i: int| 0 <= i < es.len() && (#[trigger] es[i]).0 == key@ && json_model(*c) == es[i].1;
                lemma_get_is_lookup(es, key@, i);
            }
            Ok(c)
        },
        None => {
            let mut m = chars_of("node missing ");
            let quoted = debug_of(key);
            push_str(&mut m, quoted.as_str());
            push_str(&mut m, ": ");
            let shown = json_text(node);
            push_str(&mut m, shown.as_str());
            proof {
                reveal_strlit("node missing ");
                reveal_strlit(": ");
            }
            Err(LoanwordError(string_of(&m)))
        },
    }
}

/// The string under `key`, copied out.
fn str_at(node: &serde_json::Value, key: &str, msg: &str) -> (r: Result<String, LoanwordError>)
    ensures
        match (r, str_field(json_model(*node), key@, msg@)) {
            (Ok(s), Ok(m)) => s@ == m,
            (Err(e), Err(m)) => e.0@ == m,
            _ => false,
        },
{
    let value = field(node, key)?;
    match json_str(value) {
        Some(s) => Ok(s),
        None => Err(refusal(msg)),
    }
}

/// The array under `key`: the array node and its length.
fn arr_at<'a>(node: &'a serde_json::Value, key: &str, msg: &str) -> (r: Result<(&'a serde_json::Value, usize), LoanwordError>)
    ensures
        match (r, arr_field(json_model(*node), key@, msg@)) {
            (Ok((a, n)), Ok(items)) => json_model(*a) == JsonModel::Arr(items) && n == items.len(),
            (Err(e), Err(m)) => e.0@ == m,
            _ => false,
        },
{
    let value = field(node, key)?;
    match json_len(value) {
        Some(n) => Ok((value, n)),
        None => Err(refusal(msg)),
    }
}

/// The unsigned index under `key`.
fn index_at(node: &serde_json::Value, key: &str, msg: &str) -> (r: Result<u64, LoanwordError>)
    ensures
        match (r, index_field(json_model(*node), key@, msg@)) {
            (Ok(u), Ok(m)) => u == m,
            (Err(e), Err(m)) => e.0@ == m,
            _ => false,
        },
{
    let value = field(node, key)?;
    match json_u64(value) {
        Some(u) => Ok(u),
        None => Err(refusal(msg)),
    }
}

/// A node's kind.
fn kind_of(node: &serde_json::Value) -> (r: Result<String, LoanwordError>)
    ensures
        match (r, node_kind(json_model(*node))) {
            (Ok(s), Ok(m)) => s@ == m,
            (Err(e), Err(m)) => e.0@ == m,
            _ => false,
        },
{
    str_at(node, "k", "non-string node kind")
}

/// The items of an array node, copied out.
fn values_of(a: &serde_json::Value, n: usize) -> (r: Vec<serde_json::Value>)
    requires
        json_model(*a) is Arr,
        n == json_model(*a)->Arr_0.len(),
    ensures
        values_model(r@) == json_model(*a)->Arr_0,
{
    let ghost items = json_model(*a)->Arr_0;
    let mut out: Vec<serde_json::Value> = Vec::new();
    let mut i: usize = 0;
    while i < n
        invariant
            json_model(*a) is Arr,
            items == json_model(*a)->Arr_0,
            n == items.len(),
            i <= n,
            out@.len() == i,
            forall|j: int| 0 <= j < i ==> json_model(#[trigger] out@[j]) == items[j],
        decreases n - i,
    {
        let item = json_at(a, i);
        out.push(json_clone(item));
        i = i + 1;
    }
    assert(values_model(out@) =~= items);
    out
}

} // verus!

verus! {

// ---- the type table ----

/// The value type at row `index`: `variant_msg` for a variant row, a
/// range refusal past the end.
pub open spec fn value_row(rows: Seq<RowM>, index: u64, variant_msg: Seq<char>) -> Result<TsTy, Seq<char>> {
    if index < rows.len() {
        match rows[index as int] {
            RowM::Ty(t) => Ok(t),
            RowM::Obj(_) => Err(variant_msg),
        }
    } else {
        Err("type ref "@ + decimal_digits(index as nat) + " out of range"@)
    }
}

/// A type reference inside the table: `key` must be an index.
pub open spec fn row_ty(rows: Seq<RowM>, key: JsonModel) -> Result<TsTy, Seq<char>> {
    match key {
        JsonModel::Num(_, _, Some(u)) => value_row(rows, u, "a variant row is not a value type (D-072)"@),
        _ => Err("type ref must be an index"@),
    }
}

/// A declaration's type reference under `key`.
pub open spec fn ty_at(node: JsonModel, key: Seq<char>, rows: Seq<RowM>) -> Result<TsTy, Seq<char>> {
    match index_field(node, key, "type ref must be an index"@) {
        Ok(u) => value_row(rows, u, "a variant row is not a value type — annotate with its union (D-072)"@),
        Err(m) => Err(m),
    }
}

/// The field types a variant row (`class_row` false) or a class row
/// (`class_row` true) admits.
pub open spec fn field_ty_ok(t: TsTy, class_row: bool) -> bool {
    match t {
        TsTy::Num | TsTy::Bool | TsTy::Str => true,
        TsTy::Class(_) => class_row,
        _ => false,
    }
}

pub open spec fn field_name_msg(class_row: bool) -> Seq<char> {
    if class_row { "class field name"@ } else { "obj field name"@ }
}

pub open spec fn field_fence_msg(class_row: bool) -> Seq<char> {
    if class_row {
        "class fields are num/bool/str/class refs (D-073)"@
    } else {
        "variant fields are num/bool/str in TS-1 (D-072)"@
    }
}

/// The first `n` field entries of a variant or class row.
pub open spec fn field_entries(entries: Seq<JsonModel>, rows: Seq<RowM>, class_row: bool, n: nat) -> Result<Seq<(Seq<char>, TsTy)>, Seq<char>>
    decreases n,
{
    if n == 0 {
        Ok(Seq::empty())
    } else {
        match field_entries(entries, rows, class_row, (n - 1) as nat) {
            Err(m) => Err(m),
            Ok(fs) => {
                let entry = entries[n - 1];
                match str_field(entry, "name"@, field_name_msg(class_row)) {
                    Err(m) => Err(m),
                    Ok(name) => match get_field(entry, "ty"@) {
                        Err(m) => Err(m),
                        Ok(key) => match row_ty(rows, key) {
                            Err(m) => Err(m),
                            Ok(t) => if field_ty_ok(t, class_row) {
                                Ok(fs.push((name, t)))
                            } else {
                                Err(field_fence_msg(class_row))
                            },
                        },
                    },
                }
            },
        }
    }
}

/// The first `n` variant references of a union row.
pub open spec fn union_variants(refs: Seq<JsonModel>, rows: Seq<RowM>, n: nat) -> Result<Seq<VariantM>, Seq<char>>
    decreases n,
{
    if n == 0 {
        Ok(Seq::empty())
    } else {
        match union_variants(refs, rows, (n - 1) as nat) {
            Err(m) => Err(m),
            Ok(vs) => match refs[n - 1] {
                JsonModel::Num(_, _, Some(u)) => if u < rows.len() && rows[u as int] is Obj {
                    Ok(vs.push(rows[u as int]->Obj_0))
                } else {
                    Err("union row must reference variant rows (D-072)"@)
                },
                _ => Err("union variant ref"@),
            },
        }
    }
}

/// The row index of the first class named `name`.
pub open spec fn find_name(names: Seq<(Seq<char>, usize)>, name: Seq<char>) -> Option<usize>
    decreases names.len(),
{
    if names.len() == 0 {
        None
    } else if names[0].0 == name {
        Some(names[0].1)
    } else {
        find_name(names.drop_first(), name)
    }
}

pub open spec fn names_distinct(names: Seq<(Seq<char>, usize)>) -> bool {
    forall|i: int, j: int| 0 <= i < j < names.len() ==> (#[trigger] names[i]).0 != (#[trigger] names[j]).0
}

/// The prescan of the first `n` rows: each class row's name and index,
/// so that a class may be referenced before its row.
pub open spec fn class_names(raws: Seq<JsonModel>, n: nat) -> Result<Seq<(Seq<char>, usize)>, Seq<char>>
    decreases n,
{
    if n == 0 {
        Ok(Seq::empty())
    } else {
        match class_names(raws, (n - 1) as nat) {
            Err(m) => Err(m),
            Ok(names) => match node_kind(raws[n - 1]) {
                Err(m) => Err(m),
                Ok(k) => if k == "class"@ {
                    match str_field(raws[n - 1], "name"@, "class row name"@) {
                        Err(m) => Err(m),
                        Ok(name) => if find_name(names, name) is Some {
                            Err("duplicate class "@ + debug_text(name))
                        } else {
                            Ok(names.push((name, (n - 1) as usize)))
                        },
                    }
                } else {
                    Ok(names)
                },
            },
        }
    }
}

pub open spec fn with_row(t: TableM, r: RowM) -> TableM {
    TableM { rows: t.rows.push(r), unions: t.unions, classes: t.classes }
}

/// Decodes one raw row onto the table built so far.
pub open spec fn decode_row(row: JsonModel, names: Seq<(Seq<char>, usize)>, t: TableM) -> Result<TableM, Seq<char>> {
    let own = t.rows.len() as usize;
    match node_kind(row) {
        Err(m) => Err(m),
        Ok(k) => if k == "num"@ {
            Ok(with_row(t, RowM::Ty(TsTy::Num)))
        } else if k == "bool"@ {
            Ok(with_row(t, RowM::Ty(TsTy::Bool)))
        } else if k == "void"@ {
            Ok(with_row(t, RowM::Ty(TsTy::Void)))
        } else if k == "str"@ {
            Ok(with_row(t, RowM::Ty(TsTy::Str)))
        } else if k == "arr"@ {
            match get_field(row, "elem"@) {
                Err(m) => Err(m),
                Ok(key) => match row_ty(t.rows, key) {
                    Err(m) => Err(m),
                    Ok(elem) => if elem is Arr {
                        Err("nested arrays are fenced in TS-0 (D-049)"@)
                    } else {
                        Ok(with_row(t, RowM::Ty(TsTy::Arr(Box::new(elem)))))
                    },
                },
            }
        } else if k == "obj"@ {
            match str_field(row, "kind"@, "obj row kind"@) {
                Err(m) => Err(m),
                Ok(kind_lit) => match arr_field(row, "fields"@, "obj row fields"@) {
                    Err(m) => Err(m),
                    Ok(entries) => match field_entries(entries, t.rows, false, entries.len()) {
                        Err(m) => Err(m),
                        Ok(fields) => Ok(with_row(t, RowM::Obj(VariantM { kind: kind_lit, fields }))),
                    },
                },
            }
        } else if k == "union"@ {
            match arr_field(row, "variants"@, "union row variants"@) {
                Err(m) => Err(m),
                Ok(refs) => match union_variants(refs, t.rows, refs.len()) {
                    Err(m) => Err(m),
                    Ok(vs) => if vs.len() == 0 {
                        Err("a union needs at least one variant"@)
                    } else {
                        Ok(TableM {
                            rows: t.rows.push(RowM::Ty(TsTy::Union(own))),
                            unions: t.unions.push((own, vs)),
                            classes: t.classes,
                        })
                    },
                },
            }
        } else if k == "cref"@ {
            match str_field(row, "name"@, "cref name"@) {
                Err(m) => Err(m),
                Ok(name) => match find_name(names, name) {
                    None => Err("cref to unknown class "@ + debug_text(name)),
                    Some(index) => Ok(with_row(t, RowM::Ty(TsTy::Class(index)))),
                },
            }
        } else if k == "class"@ {
            match str_field(row, "name"@, "class row name"@) {
                Err(m) => Err(m),
                Ok(name) => match arr_field(row, "fields"@, "class row fields"@) {
                    Err(m) => Err(m),
                    Ok(entries) => match field_entries(entries, t.rows, true, entries.len()) {
                        Err(m) => Err(m),
                        Ok(fields) => Ok(TableM {
                            rows: t.rows.push(RowM::Ty(TsTy::Class(own))),
                            unions: t.unions,
                            classes: t.classes.push((own, (name, fields))),
                        }),
                    },
                },
            }
        } else {
            Err("unsupported interned type "@ + debug_text(k))
        },
    }
}

pub open spec fn empty_table() -> TableM {
    TableM { rows: Seq::empty(), unions: Seq::empty(), classes: Seq::empty() }
}

/// The table of the first `n` raw rows, in one ordered pass.
pub open spec fn decode_rows(raws: Seq<JsonModel>, names: Seq<(Seq<char>, usize)>, n: nat) -> Result<TableM, Seq<char>>
    decreases n,
{
    if n == 0 {
        Ok(empty_table())
    } else {
        match decode_rows(raws, names, (n - 1) as nat) {
            Err(m) => Err(m),
            Ok(t) => decode_row(raws[n - 1], names, t),
        }
    }
}

} // verus!

verus! {

pub open spec fn rows_model(rows: Seq<Row>) -> Seq<RowM> {
    rows.map_values(|r: Row| r@)
}

/// A copy of a type.
pub fn ty_copy(t: &TsTy) -> (c: TsTy)
    ensures
        c == *t,
    decreases t,
{
    match t {
        TsTy::Num => TsTy::Num,
        TsTy::Bool => TsTy::Bool,
        TsTy::Void => TsTy::Void,
        TsTy::Str => TsTy::Str,
        TsTy::Arr(e) => TsTy::Arr(Box::new(ty_copy(e))),
        TsTy::Union(i) => TsTy::Union(*i),
        TsTy::Class(i) => TsTy::Class(*i),
    }
}

/// A copy of a list of named types.
fn named_copy(v: &Vec<(String, TsTy)>) -> (c: Vec<(String, TsTy)>)
    ensures
        named(c@) == named(v@),
{
    let mut out: Vec<(String, TsTy)> = Vec::new();
    let mut i: usize = 0;
    while i < v.len()
        invariant
            i <= v@.len(),
            out@.len() == i,
            forall|j: int| 0 <= j < i ==> (#[trigger] out@[j]).0@ == v@[j].0@ && out@[j].1 == v@[j].1,
        decreases v@.len() - i,
    {
        out.push((v[i].0.clone(), ty_copy(&v[i].1)));
        i = i + 1;
    }
    assert(named(out@) =~= named(v@));
    out
}

/// A copy of a variant definition.
fn variant_copy(d: &VariantDef) -> (c: VariantDef)
    ensures
        c@ == d@,
{
    VariantDef { kind: d.kind.clone(), fields: named_copy(&d.fields) }
}

/// The value type at row `index`.
fn value_row_at(rows: &Vec<Row>, index: u64, variant_msg: &str) -> (r: Result<TsTy, LoanwordError>)
    ensures
        match (r, value_row(rows_model(rows@), index, variant_msg@)) {
            (Ok(t), Ok(m)) => t == m,
            (Err(e), Err(m)) => e.0@ == m,
            _ => false,
        },
{
    if index < rows.len() as u64 {
        let i = index as usize;
        match &rows[i] {
            Row::Ty(t) => Ok(ty_copy(t)),
            Row::Obj(_) => Err(refusal(variant_msg)),
        }
    } else {
        let mut m = chars_of("type ref ");
        let mut digits = digits_of(index);
        m.append(&mut digits);
        push_str(&mut m, " out of range");
        proof {
            reveal_strlit("type ref ");
            reveal_strlit(" out of range");
        }
        Err(LoanwordError(string_of(&m)))
    }
}

/// A type reference inside the table.
fn resolve_ty(rows: &Vec<Row>, key: &serde_json::Value) -> (r: Result<TsTy, LoanwordError>)
    ensures
        match (r, row_ty(rows_model(rows@), json_model(*key))) {
            (Ok(t), Ok(m)) => t == m,
            (Err(e), Err(m)) => e.0@ == m,
            _ => false,
        },
{
    match json_u64(key) {
        Some(u) => value_row_at(rows, u, "a variant row is not a value type (D-072)"),
        None => Err(refusal("type ref must be an index")),
    }
}

/// A declaration's type reference under `key`.
fn type_at(node: &serde_json::Value, key: &str, rows: &Vec<Row>) -> (r: Result<TsTy, LoanwordError>)
    ensures
        match (r, ty_at(json_model(*node), key@, rows_model(rows@))) {
            (Ok(t), Ok(m)) => t == m,
            (Err(e), Err(m)) => e.0@ == m,
            _ => false,
        },
{
    let u = index_at(node, key, "type ref must be an index")?;
    value_row_at(rows, u, "a variant row is not a value type — annotate with its union (D-072)")
}

proof fn lemma_field_entries_err(entries: Seq<JsonModel>, rows: Seq<RowM>, class_row: bool, k: nat, n: nat)
    requires
        k <= n,
        field_entries(entries, rows, class_row, k) is Err,
    ensures
        field_entries(entries, rows, class_row, n) == field_entries(entries, rows, class_row, k),
    decreases n,
{
    if n > k {
        lemma_field_entries_err(entries, rows, class_row, k, (n - 1) as nat);
    }
}

/// The field entries of a variant row or a class row.
fn field_list(a: &serde_json::Value, n: usize, rows: &Vec<Row>, class_row: bool) -> (r: Result<Vec<(String, TsTy)>, LoanwordError>)
    requires
        json_model(*a) is Arr,
        n == json_model(*a)->Arr_0.len(),
    ensures
        match (r, field_entries(json_model(*a)->Arr_0, rows_model(rows@), class_row, n as nat)) {
            (Ok(v), Ok(m)) => named(v@) == m,
            (Err(e), Err(m)) => e.0@ == m,
            _ => false,
        },
{
    let ghost items = json_model(*a)->Arr_0;
    let ghost rm = rows_model(rows@);
    let mut out: Vec<(String, TsTy)> = Vec::new();
    let mut i: usize = 0;
    while i < n
        invariant
            json_model(*a) is Arr,
            items == json_model(*a)->Arr_0,
            rm == rows_model(rows@),
            n == items.len(),
            i <= n,
            out@.len() == i,
            field_entries(items, rm, class_row, i as nat) is Ok,
            field_entries(items, rm, class_row, i as nat)->Ok_0 == named(out@),
        decreases n - i,
    {
        let entry = json_at(a, i);
        let ghost k = (i + 1) as nat;
        let name = match str_at(entry, "name", if class_row { "class field name" } else { "obj field name" }) {
            Ok(s) => s,
            Err(e) => {
                proof {
                    reveal_strlit("class field name");
                    reveal_strlit("obj field name");
                    lemma_field_entries_err(items, rm, class_row, k, n as nat);
                }
                return Err(e);
            },
        };
        proof {
            reveal_strlit("class field name");
            reveal_strlit("obj field name");
        }
        let key = match field(entry, "ty") {
            Ok(c) => c,
            Err(e) => {
                proof { lemma_field_entries_err(items, rm, class_row, k, n as nat); }
                return Err(e);
            },
        };
        let t = match resolve_ty(rows, key) {
            Ok(t) => t,
            Err(e) => {
                proof { lemma_field_entries_err(items, rm, class_row, k, n as nat); }
                return Err(e);
            },
        };
        let admitted = match &t {
            TsTy::Num | TsTy::Bool | TsTy::Str => true,
            TsTy::Class(_) => class_row,
            _ => false,
        };
        if !admitted {
            proof { lemma_field_entries_err(items, rm, class_row, k, n as nat); }
            return Err(refusal(if class_row {
                "class fields are num/bool/str/class refs (D-073)"
            } else {
                "variant fields are num/bool/str in TS-1 (D-072)"
            }));
        }
        let ghost before = out@;
        out.push((name, t));
        proof {
            assert(named(out@) =~= named(before).push((out@[i as int].0@, out@[i as int].1)));
        }
        i = i + 1;
    }
    Ok(out)
}

} // verus!

verus! {

proof fn lemma_union_variants_err(refs: Seq<JsonModel>, rows: Seq<RowM>, k: nat, n: nat)
    requires
        k <= n,
        union_variants(refs, rows, k) is Err,
    ensures
        union_variants(refs, rows, n) == union_variants(refs, rows, k),
    decreases n,
{
    if n > k {
        lemma_union_variants_err(refs, rows, k, (n - 1) as nat);
    }
}

/// The variants a union row references.
fn variants_of(a: &serde_json::Value, n: usize, rows: &Vec<Row>) -> (r: Result<Vec<VariantDef>, LoanwordError>)
    requires
        json_model(*a) is Arr,
        n == json_model(*a)->Arr_0.len(),
    ensures
        match (r, union_variants(json_model(*a)->Arr_0, rows_model(rows@), n as nat)) {
            (Ok(v), Ok(m)) => v@.map_values(|d: VariantDef| d@) == m,
            (Err(e), Err(m)) => e.0@ == m,
            _ => false,
        },
{
    let ghost items = json_model(*a)->Arr_0;
    let ghost rm = rows_model(rows@);
    let mut out: Vec<VariantDef> = Vec::new();
    let mut i: usize = 0;
    while i < n
        invariant
            json_model(*a) is Arr,
            items == json_model(*a)->Arr_0,
            rm == rows_model(rows@),
            n == items.len(),
            i <= n,
            out@.len() == i,
            union_variants(items, rm, i as nat) is Ok,
            union_variants(items, rm, i as nat)->Ok_0 == out@.map_values(|d: VariantDef| d@),
        decreases n - i,
    {
        let reference = json_at(a, i);
        let ghost k = (i + 1) as nat;
        let index = match json_u64(reference) {
            Some(u) => u,
            None => {
                proof { lemma_union_variants_err(items, rm, k, n as nat); }
                return Err(refusal("union variant ref"));
            },
        };
        let found = if index < rows.len() as u64 {
            match &rows[index as usize] {
                Row::Obj(d) => Some(variant_copy(d)),
                Row::Ty(_) => None,
            }
        } else {
            None
        };
        match found {
            Some(d) => {
                let ghost before = out@;
                out.push(d);
                proof {
                    assert(out@.map_values(|d: VariantDef| d@) =~= before.map_values(|d: VariantDef| d@).push(out@[i as int]@));
                }
            },
            None => {
                proof { lemma_union_variants_err(items, rm, k, n as nat); }
                return Err(refusal("union row must reference variant rows (D-072)"));
            },
        }
        i = i + 1;
    }
    Ok(out)
}

pub open spec fn names_model(names: Seq<(String, usize)>) -> Seq<(Seq<char>, usize)> {
    names.map_values(|p: (String, usize)| (p.0@, p.1))
}

/// The row index of the class named `name`.
fn find_index(names: &Vec<(String, usize)>, name: &str) -> (r: Option<usize>)
    requires
        names_distinct(names_model(names@)),
    ensures
        r == find_name(names_model(names@), name@),
{
    let ghost nm = names_model(names@);
    let mut i: usize = 0;
    proof {
        assert(nm.skip(0) =~= nm);
    }
    while i < names.len()
        invariant
            nm == names_model(names@),
            i <= names@.len(),
            find_name(nm.skip(i as int), name@) == find_name(nm, name@),
        decreases names@.len() - i,
    {
        proof {
            assert(nm.skip(i as int)[0] == nm[i as int]);
            assert(nm.skip(i as int).drop_first() =~= nm.skip(i + 1));
        }
        if crate::text::str_eq(names[i].0.as_str(), name) {
            return Some(names[i].1);
        }
        i = i + 1;
    }
    proof {
        assert(nm.skip(i as int).len() == 0);
    }
    None
}

proof fn lemma_find_name_none(names: Seq<(Seq<char>, usize)>, name: Seq<char>)
    requires
        find_name(names, name) is None,
    ensures
        forall|i: int| 0 <= i < names.len() ==> (#[trigger] names[i]).0 != name,
    decreases names.len(),
{
    if names.len() > 0 {
        lemma_find_name_none(names.drop_first(), name);
        assert forall|i: int| 0 <= i < names.len() implies (#[trigger] names[i]).0 != name by {
            if i > 0 {
                assert(names[i] == names.drop_first()[i - 1]);
            }
        }
    }
}

proof fn lemma_class_names_err(raws: Seq<JsonModel>, k: nat, n: nat)
    requires
        k <= n,
        class_names(raws, k) is Err,
    ensures
        class_names(raws, n) == class_names(raws, k),
    decreases n,
{
    if n > k {
        lemma_class_names_err(raws, k, (n - 1) as nat);
    }
}

/// The prescan: every class row's name and index, names distinct.
fn scan_classes(a: &serde_json::Value, n: usize) -> (r: Result<Vec<(String, usize)>, LoanwordError>)
    requires
        json_model(*a) is Arr,
        n == json_model(*a)->Arr_0.len(),
    ensures
        match (r, class_names(json_model(*a)->Arr_0, n as nat)) {
            (Ok(v), Ok(m)) => names_model(v@) == m && names_distinct(m),
            (Err(e), Err(m)) => e.0@ == m,
            _ => false,
        },
{
    let ghost items = json_model(*a)->Arr_0;
    let mut out: Vec<(String, usize)> = Vec::new();
    let mut i: usize = 0;
    while i < n
        invariant
            json_model(*a) is Arr,
            items == json_model(*a)->Arr_0,
            n == items.len(),
            i <= n,
            class_names(items, i as nat) is Ok,
            class_names(items, i as nat)->Ok_0 == names_model(out@),
            names_distinct(names_model(out@)),
        decreases n - i,
    {
        let row = json_at(a, i);
        let ghost k = (i + 1) as nat;
        let kind = match kind_of(row) {
            Ok(s) => s,
            Err(e) => {
                proof { lemma_class_names_err(items, k, n as nat); }
                return Err(e);
            },
        };
        proof { reveal_strlit("class"); }
        if crate::text::str_eq(kind.as_str(), "class") {
            let name = match str_at(row, "name", "class row name") {
                Ok(s) => s,
                Err(e) => {
                    proof { lemma_class_names_err(items, k, n as nat); }
                    return Err(e);
                },
            };
            if find_index(&out, name.as_str()).is_some() {
                proof {
                    reveal_strlit("duplicate class ");
                    lemma_class_names_err(items, k, n as nat);
                }
                let quoted = debug_of(name.as_str());
                return Err(LoanwordError(crate::text::join2("duplicate class ", quoted.as_str())));
            }
            let ghost before = out@;
            let ghost nv = name@;
            proof {
                lemma_find_name_none(names_model(before), nv);
            }
            out.push((name, i));
            proof {
                assert(names_model(out@) =~= names_model(before).push((nv, i as usize)));
                let nm = names_model(out@);
                assert forall|p: int, q: int| 0 <= p < q < nm.len() implies (#[trigger] nm[p]).0 != (#[trigger] nm[q]).0 by {
                    if q == nm.len() - 1 {
                        if nm[p].0 == nm[q].0 {
                            assert(names_model(before)[p].0 == nv);
                        }
                    }
                }
            }
        }
        i = i + 1;
    }
    Ok(out)
}

} // verus!

verus! {

/// Decodes one raw row onto the table built so far.
fn decode_row_into(
    row: &serde_json::Value,
    names: &Vec<(String, usize)>,
    rows: &mut Vec<Row>,
    unions: &mut Vec<(usize, UnionDef)>,
    classes: &mut Vec<(usize, ClassDef)>,
) -> (r: Result<(), LoanwordError>)
    requires
        names_distinct(names_model(names@)),
    ensures
        match (r, decode_row(json_model(*row), names_model(names@), table_model(old(rows)@, old(unions)@, old(classes)@))) {
            (Ok(()), Ok(t)) => table_model(final(rows)@, final(unions)@, final(classes)@) =~= t,
            (Err(e), Err(m)) => e.0@ == m,
            _ => false,
        },
{
    let ghost t = table_model(rows@, unions@, classes@);
    let ghost old_rows = rows@;
    let kind = kind_of(row)?;
    proof {
        reveal_strlit("num");
        reveal_strlit("bool");
        reveal_strlit("void");
        reveal_strlit("str");
        reveal_strlit("arr");
        reveal_strlit("obj");
        reveal_strlit("union");
        reveal_strlit("cref");
        reveal_strlit("class");
    }
    let k = kind.as_str();
    let plain = if crate::text::str_eq(k, "num") {
        Some(TsTy::Num)
    } else if crate::text::str_eq(k, "bool") {
        Some(TsTy::Bool)
    } else if crate::text::str_eq(k, "void") {
        Some(TsTy::Void)
    } else if crate::text::str_eq(k, "str") {
        Some(TsTy::Str)
    } else {
        None
    };
    if let Some(ty) = plain {
        rows.push(Row::Ty(ty));
        proof {
            assert(rows_model(rows@) =~= t.rows.push(RowM::Ty(ty)));
        }
        return Ok(());
    }
    if crate::text::str_eq(k, "arr") {
        let key = field(row, "elem")?;
        let elem = resolve_ty(rows, key)?;
        if let TsTy::Arr(_) = elem {
            return Err(refusal("nested arrays are fenced in TS-0 (D-049)"));
        }
        let ghost pushed = RowM::Ty(TsTy::Arr(Box::new(elem)));
        rows.push(Row::Ty(TsTy::Arr(Box::new(elem))));
        proof {
            assert(rows_model(rows@) =~= t.rows.push(pushed));
        }
        Ok(())
    } else if crate::text::str_eq(k, "obj") {
        let kind_lit = str_at(row, "kind", "obj row kind")?;
        let (entries, n) = arr_at(row, "fields", "obj row fields")?;
        let fields = field_list(entries, n, rows, false)?;
        let def = VariantDef { kind: kind_lit, fields };
        let ghost pushed = RowM::Obj(def@);
        rows.push(Row::Obj(def));
        proof {
            assert(rows_model(rows@) =~= t.rows.push(pushed));
        }
        Ok(())
    } else if crate::text::str_eq(k, "union") {
        let (refs, n) = arr_at(row, "variants", "union row variants")?;
        let variants = variants_of(refs, n, rows)?;
        if variants.len() == 0 {
            return Err(refusal("a union needs at least one variant"));
        }
        let own = rows.len();
        let def = UnionDef { variants };
        let ghost dv = def@;
        rows.push(Row::Ty(TsTy::Union(own)));
        unions.push((own, def));
        proof {
            assert(rows_model(rows@) =~= t.rows.push(RowM::Ty(TsTy::Union(own))));
            assert(unions@.map_values(|p: (usize, UnionDef)| (p.0, p.1@)) =~= t.unions.push((own, dv)));
        }
        Ok(())
    } else if crate::text::str_eq(k, "cref") {
        let name = str_at(row, "name", "cref name")?;
        match find_index(names, name.as_str()) {
            Some(index) => {
                rows.push(Row::Ty(TsTy::Class(index)));
                proof {
                    assert(rows_model(rows@) =~= t.rows.push(RowM::Ty(TsTy::Class(index))));
                }
                Ok(())
            },
            None => {
                proof { reveal_strlit("cref to unknown class "); }
                let quoted = debug_of(name.as_str());
                Err(LoanwordError(crate::text::join2("cref to unknown class ", quoted.as_str())))
            },
        }
    } else if crate::text::str_eq(k, "class") {
        let name = str_at(row, "name", "class row name")?;
        let (entries, n) = arr_at(row, "fields", "class row fields")?;
        let fields = field_list(entries, n, rows, true)?;
        let own = rows.len();
        let def = ClassDef { name, fields };
        let ghost dv = def@;
        classes.push((own, def));
        rows.push(Row::Ty(TsTy::Class(own)));
        proof {
            assert(rows_model(rows@) =~= t.rows.push(RowM::Ty(TsTy::Class(own))));
            assert(classes@.map_values(|p: (usize, ClassDef)| (p.0, p.1@)) =~= t.classes.push((own, dv)));
        }
        Ok(())
    } else {
        proof { reveal_strlit("unsupported interned type "); }
        let quoted = debug_of(k);
        Err(LoanwordError(crate::text::join2("unsupported interned type ", quoted.as_str())))
    }
}

proof fn lemma_decode_rows_err(raws: Seq<JsonModel>, names: Seq<(Seq<char>, usize)>, k: nat, n: nat)
    requires
        k <= n,
        decode_rows(raws, names, k) is Err,
    ensures
        decode_rows(raws, names, n) == decode_rows(raws, names, k),
    decreases n,
{
    if n > k {
        lemma_decode_rows_err(raws, names, k, (n - 1) as nat);
    }
}

/// The type table of the raw rows, in one ordered pass.
fn decode_table(a: &serde_json::Value, n: usize, names: &Vec<(String, usize)>)
    -> (r: Result<(Vec<Row>, Vec<(usize, UnionDef)>, Vec<(usize, ClassDef)>), LoanwordError>)
    requires
        json_model(*a) is Arr,
        n == json_model(*a)->Arr_0.len(),
        names_distinct(names_model(names@)),
    ensures
        match (r, decode_rows(json_model(*a)->Arr_0, names_model(names@), n as nat)) {
            (Ok((rs, us, cs)), Ok(m)) => table_model(rs@, us@, cs@) =~= m,
            (Err(e), Err(m)) => e.0@ == m,
            _ => false,
        },
{
    let ghost items = json_model(*a)->Arr_0;
    let ghost nm = names_model(names@);
    let mut rows: Vec<Row> = Vec::new();
    let mut unions: Vec<(usize, UnionDef)> = Vec::new();
    let mut classes: Vec<(usize, ClassDef)> = Vec::new();
    proof {
        assert(table_model(rows@, unions@, classes@) =~= empty_table());
    }
    let mut i: usize = 0;
    while i < n
        invariant
            json_model(*a) is Arr,
            items == json_model(*a)->Arr_0,
            nm == names_model(names@),
            names_distinct(nm),
            n == items.len(),
            i <= n,
            decode_rows(items, nm, i as nat) is Ok,
            decode_rows(items, nm, i as nat)->Ok_0 =~= table_model(rows@, unions@, classes@),
        decreases n - i,
    {
        let raw = json_at(a, i);
        match decode_row_into(raw, names, &mut rows, &mut unions, &mut classes) {
            Ok(()) => {},
            Err(e) => {
                proof { lemma_decode_rows_err(items, nm, (i + 1) as nat, n as nat); }
                return Err(e);
            },
        }
        i = i + 1;
    }
    Ok((rows, unions, classes))
}

} // verus!

verus! {

// ---- declarations ----

/// The first `n` parameters: each a name and a type reference.
pub open spec fn param_list(items: Seq<JsonModel>, rows: Seq<RowM>, n: nat) -> Result<Seq<(Seq<char>, TsTy)>, Seq<char>>
    decreases n,
{
    if n == 0 {
        Ok(Seq::empty())
    } else {
        match param_list(items, rows, (n - 1) as nat) {
            Err(m) => Err(m),
            Ok(ps) => match str_field(items[n - 1], "name"@, "param name"@) {
                Err(m) => Err(m),
                Ok(name) => match ty_at(items[n - 1], "ty"@, rows) {
                    Err(m) => Err(m),
                    Ok(t) => Ok(ps.push((name, t))),
                },
            },
        }
    }
}

/// The parameter list under `key`.
pub open spec fn params_of(node: JsonModel, key: Seq<char>, rows: Seq<RowM>) -> Result<Seq<(Seq<char>, TsTy)>, Seq<char>> {
    match arr_field(node, key, "params must be an array"@) {
        Err(m) => Err(m),
        Ok(items) => param_list(items, rows, items.len()),
    }
}

/// A function or method node: its name, parameters, result type and
/// body, read in that order.
pub open spec fn callable_of(node: JsonModel, rows: Seq<RowM>, name_msg: Seq<char>, body_msg: Seq<char>) -> Result<FnM, Seq<char>> {
    match str_field(node, "name"@, name_msg) {
        Err(m) => Err(m),
        Ok(name) => match params_of(node, "params"@, rows) {
            Err(m) => Err(m),
            Ok(params) => match ty_at(node, "ret"@, rows) {
                Err(m) => Err(m),
                Ok(ret) => match arr_field(node, "body"@, body_msg) {
                    Err(m) => Err(m),
                    Ok(body) => Ok(FnM { name, params, ret, body }),
                },
            },
        },
    }
}

/// Whether a constructor assignment is `this.f = this`.
pub open spec fn is_self_set(set: JsonModel) -> bool {
    match get_field(set, "self"@) {
        Ok(JsonModel::Bool(b)) => b,
        _ => false,
    }
}

/// The first `n` constructor assignments.
pub open spec fn set_list(items: Seq<JsonModel>, n: nat) -> Result<Seq<(Seq<char>, Option<JsonModel>)>, Seq<char>>
    decreases n,
{
    if n == 0 {
        Ok(Seq::empty())
    } else {
        match set_list(items, (n - 1) as nat) {
            Err(m) => Err(m),
            Ok(ss) => match str_field(items[n - 1], "name"@, "set name"@) {
                Err(m) => Err(m),
                Ok(name) => if is_self_set(items[n - 1]) {
                    Ok(ss.push((name, None)))
                } else {
                    match get_field(items[n - 1], "e"@) {
                        Err(m) => Err(m),
                        Ok(e) => Ok(ss.push((name, Some(e)))),
                    }
                },
            },
        }
    }
}

/// The first `n` methods of a class.
pub open spec fn method_list(items: Seq<JsonModel>, rows: Seq<RowM>, n: nat) -> Result<Seq<FnM>, Seq<char>>
    decreases n,
{
    if n == 0 {
        Ok(Seq::empty())
    } else {
        match method_list(items, rows, (n - 1) as nat) {
            Err(m) => Err(m),
            Ok(ms) => match callable_of(items[n - 1], rows, "method name"@, "method body"@) {
                Err(m) => Err(m),
                Ok(f) => Ok(ms.push(f)),
            },
        }
    }
}

/// A class declaration: its row, constructor assignments, methods,
/// name and constructor parameters, read in that order.
pub open spec fn class_decl_of(decl: JsonModel, rows: Seq<RowM>) -> Result<ClassDeclM, Seq<char>> {
    match index_field(decl, "ty"@, "class ty ref"@) {
        Err(m) => Err(m),
        Ok(ty) => match get_field(decl, "ctor"@) {
            Err(m) => Err(m),
            Ok(ctor) => match arr_field(ctor, "sets"@, "ctor sets"@) {
                Err(m) => Err(m),
                Ok(set_items) => match set_list(set_items, set_items.len()) {
                    Err(m) => Err(m),
                    Ok(sets) => match arr_field(decl, "methods"@, "class methods"@) {
                        Err(m) => Err(m),
                        Ok(method_items) => match method_list(method_items, rows, method_items.len()) {
                            Err(m) => Err(m),
                            Ok(methods) => match str_field(decl, "name"@, "class name"@) {
                                Err(m) => Err(m),
                                Ok(name) => match params_of(ctor, "params"@, rows) {
                                    Err(m) => Err(m),
                                    Ok(params) => Ok(ClassDeclM {
                                        ty: ty as usize,
                                        name,
                                        ctor: CtorM { params, sets },
                                        methods,
                                    }),
                                },
                            },
                        },
                    },
                },
            },
        },
    }
}

/// The first `n` declarations: functions and classes, each list in
/// declaration order.
pub open spec fn decode_decls(decls: Seq<JsonModel>, rows: Seq<RowM>, n: nat) -> Result<(Seq<FnM>, Seq<ClassDeclM>), Seq<char>>
    decreases n,
{
    if n == 0 {
        Ok((Seq::empty(), Seq::empty()))
    } else {
        match decode_decls(decls, rows, (n - 1) as nat) {
            Err(m) => Err(m),
            Ok((fns, cds)) => match node_kind(decls[n - 1]) {
                Err(m) => Err(m),
                Ok(k) => if k == "fn"@ {
                    match callable_of(decls[n - 1], rows, "fn name"@, "fn body"@) {
                        Err(m) => Err(m),
                        Ok(f) => Ok((fns.push(f), cds)),
                    }
                } else if k == "class"@ {
                    match class_decl_of(decls[n - 1], rows) {
                        Err(m) => Err(m),
                        Ok(c) => Ok((fns, cds.push(c))),
                    }
                } else {
                    Err("unsupported decl kind "@ + debug_text(k))
                },
            },
        }
    }
}

} // verus!

verus! {

proof fn lemma_param_list_err(items: Seq<JsonModel>, rows: Seq<RowM>, k: nat, n: nat)
    requires
        k <= n,
        param_list(items, rows, k) is Err,
    ensures
        param_list(items, rows, n) == param_list(items, rows, k),
    decreases n,
{
    if n > k {
        lemma_param_list_err(items, rows, k, (n - 1) as nat);
    }
}

/// The parameter list under `key`.
fn params_at(node: &serde_json::Value, key: &str, rows: &Vec<Row>) -> (r: Result<Vec<(String, TsTy)>, LoanwordError>)
    ensures
        match (r, params_of(json_model(*node), key@, rows_model(rows@))) {
            (Ok(v), Ok(m)) => named(v@) == m,
            (Err(e), Err(m)) => e.0@ == m,
            _ => false,
        },
{
    let (a, n) = arr_at(node, key, "params must be an array")?;
    let ghost items = json_model(*a)->Arr_0;
    let ghost rm = rows_model(rows@);
    let mut out: Vec<(String, TsTy)> = Vec::new();
    let mut i: usize = 0;
    while i < n
        invariant
            json_model(*a) is Arr,
            items == json_model(*a)->Arr_0,
            arr_field(json_model(*node), key@, "params must be an array"@) == Ok::<Seq<JsonModel>, Seq<char>>(items),
            rm == rows_model(rows@),
            n == items.len(),
            i <= n,
            out@.len() == i,
            param_list(items, rm, i as nat) is Ok,
            param_list(items, rm, i as nat)->Ok_0 == named(out@),
        decreases n - i,
    {
        let param = json_at(a, i);
        let ghost k = (i + 1) as nat;
        let name = match str_at(param, "name", "param name") {
            Ok(s) => s,
            Err(e) => {
                proof { lemma_param_list_err(items, rm, k, n as nat); }
                return Err(e);
            },
        };
        let t = match type_at(param, "ty", rows) {
            Ok(t) => t,
            Err(e) => {
                proof { lemma_param_list_err(items, rm, k, n as nat); }
                return Err(e);
            },
        };
        let ghost before = out@;
        let ghost nv = name@;
        out.push((name, t));
        proof {
            assert(named(out@) =~= named(before).push((nv, t)));
        }
        i = i + 1;
    }
    Ok(out)
}

/// A function or method node: name, parameters, result type, body.
fn callable_at(node: &serde_json::Value, rows: &Vec<Row>, name_msg: &str, body_msg: &str)
    -> (r: Result<(String, Vec<(String, TsTy)>, TsTy, Vec<serde_json::Value>), LoanwordError>)
    ensures
        match (r, callable_of(json_model(*node), rows_model(rows@), name_msg@, body_msg@)) {
            (Ok(c), Ok(m)) => c.0@ == m.name && named(c.1@) == m.params && c.2 == m.ret && values_model(c.3@) == m.body,
            (Err(e), Err(m)) => e.0@ == m,
            _ => false,
        },
{
    let name = str_at(node, "name", name_msg)?;
    let params = params_at(node, "params", rows)?;
    let ret = type_at(node, "ret", rows)?;
    let (a, n) = arr_at(node, "body", body_msg)?;
    let body = values_of(a, n);
    Ok((name, params, ret, body))
}

proof fn lemma_set_list_err(items: Seq<JsonModel>, k: nat, n: nat)
    requires
        k <= n,
        set_list(items, k) is Err,
    ensures
        set_list(items, n) == set_list(items, k),
    decreases n,
{
    if n > k {
        lemma_set_list_err(items, k, (n - 1) as nat);
    }
}

/// The constructor assignments.
fn sets_at(a: &serde_json::Value, n: usize) -> (r: Result<Vec<(String, Option<serde_json::Value>)>, LoanwordError>)
    requires
        json_model(*a) is Arr,
        n == json_model(*a)->Arr_0.len(),
    ensures
        match (r, set_list(json_model(*a)->Arr_0, n as nat)) {
            (Ok(v), Ok(m)) => sets_model(v@) == m,
            (Err(e), Err(m)) => e.0@ == m,
            _ => false,
        },
{
    let ghost items = json_model(*a)->Arr_0;
    let mut out: Vec<(String, Option<serde_json::Value>)> = Vec::new();
    let mut i: usize = 0;
    while i < n
        invariant
            json_model(*a) is Arr,
            items == json_model(*a)->Arr_0,
            n == items.len(),
            i <= n,
            out@.len() == i,
            set_list(items, i as nat) is Ok,
            set_list(items, i as nat)->Ok_0 == sets_model(out@),
        decreases n - i,
    {
        let set = json_at(a, i);
        let ghost k = (i + 1) as nat;
        let name = match str_at(set, "name", "set name") {
            Ok(s) => s,
            Err(e) => {
                proof { lemma_set_list_err(items, k, n as nat); }
                return Err(e);
            },
        };
        let is_self = match json_get(set, "self") {
            Some(flag) => {
                proof {
                    let es = json_model(*set)->Obj_0;
                    let j = choose|j: int| 0 <= j < es.len() && (#[trigger] es[j]).0 == "self"@ && json_model(*flag) == es[j].1;
                    lemma_get_is_lookup(es, "self"@, j);
                }
                match json_bool(flag) {
                    Some(b) => b,
                    None => false,
                }
            },
            None => false,
        };
        let rhs = if is_self {
            None
        } else {
            match field(set, "e") {
                Ok(e) => Some(json_clone(e)),
                Err(e) => {
                    proof { lemma_set_list_err(items, k, n as nat); }
                    return Err(e);
                },
            }
        };
        let ghost before = out@;
        let ghost entry = (name@, match &rhs {
            Some(e) => Some(json_model(*e)),
            None => None,
        });
        out.push((name, rhs));
        proof {
            assert(sets_model(out@) =~= sets_model(before).push(entry));
        }
        i = i + 1;
    }
    Ok(out)
}

proof fn lemma_method_list_err(items: Seq<JsonModel>, rows: Seq<RowM>, k: nat, n: nat)
    requires
        k <= n,
        method_list(items, rows, k) is Err,
    ensures
        method_list(items, rows, n) == method_list(items, rows, k),
    decreases n,
{
    if n > k {
        lemma_method_list_err(items, rows, k, (n - 1) as nat);
    }
}

/// The methods of a class.
fn methods_at(a: &serde_json::Value, n: usize, rows: &Vec<Row>) -> (r: Result<Vec<MethodDecl>, LoanwordError>)
    requires
        json_model(*a) is Arr,
        n == json_model(*a)->Arr_0.len(),
    ensures
        match (r, method_list(json_model(*a)->Arr_0, rows_model(rows@), n as nat)) {
            (Ok(v), Ok(m)) => v@.map_values(|d: MethodDecl| d@) == m,
            (Err(e), Err(m)) => e.0@ == m,
            _ => false,
        },
{
    let ghost items = json_model(*a)->Arr_0;
    let ghost rm = rows_model(rows@);
    let mut out: Vec<MethodDecl> = Vec::new();
    let mut i: usize = 0;
    while i < n
        invariant
            json_model(*a) is Arr,
            items == json_model(*a)->Arr_0,
            rm == rows_model(rows@),
            n == items.len(),
            i <= n,
            out@.len() == i,
            method_list(items, rm, i as nat) is Ok,
            method_list(items, rm, i as nat)->Ok_0 == out@.map_values(|d: MethodDecl| d@),
        decreases n - i,
    {
        let node = json_at(a, i);
        let (name, params, ret, body) = match callable_at(node, rows, "method name", "method body") {
            Ok(c) => c,
            Err(e) => {
                proof { lemma_method_list_err(items, rm, (i + 1) as nat, n as nat); }
                return Err(e);
            },
        };
        let m = MethodDecl { name, params, ret, body };
        let ghost mv = m@;
        let ghost before = out@;
        out.push(m);
        proof {
            assert(out@.map_values(|d: MethodDecl| d@) =~= before.map_values(|d: MethodDecl| d@).push(mv));
        }
        i = i + 1;
    }
    Ok(out)
}

/// A class declaration.
fn class_decl_at(decl: &serde_json::Value, rows: &Vec<Row>) -> (r: Result<ClassDecl, LoanwordError>)
    ensures
        match (r, class_decl_of(json_model(*decl), rows_model(rows@))) {
            (Ok(c), Ok(m)) => c@ == m,
            (Err(e), Err(m)) => e.0@ == m,
            _ => false,
        },
{
    let ty = index_at(decl, "ty", "class ty ref")?;
    let ctor_node = field(decl, "ctor")?;
    let (set_items, set_count) = arr_at(ctor_node, "sets", "ctor sets")?;
    let sets = sets_at(set_items, set_count)?;
    let (method_items, method_count) = arr_at(decl, "methods", "class methods")?;
    let methods = methods_at(method_items, method_count, rows)?;
    let name = str_at(decl, "name", "class name")?;
    let params = params_at(ctor_node, "params", rows)?;
    Ok(ClassDecl { ty: ty as usize, name, ctor: CtorDecl { params, sets }, methods })
}

proof fn lemma_decode_decls_err(decls: Seq<JsonModel>, rows: Seq<RowM>, k: nat, n: nat)
    requires
        k <= n,
        decode_decls(decls, rows, k) is Err,
    ensures
        decode_decls(decls, rows, n) == decode_decls(decls, rows, k),
    decreases n,
{
    if n > k {
        lemma_decode_decls_err(decls, rows, k, (n - 1) as nat);
    }
}

/// The declarations: functions and classes, each in declaration order.
fn decls_at(a: &serde_json::Value, n: usize, rows: &Vec<Row>) -> (r: Result<(Vec<TsFn>, Vec<ClassDecl>), LoanwordError>)
    requires
        json_model(*a) is Arr,
        n == json_model(*a)->Arr_0.len(),
    ensures
        match (r, decode_decls(json_model(*a)->Arr_0, rows_model(rows@), n as nat)) {
            (Ok((fs, cs)), Ok((mf, mc))) => fs@.map_values(|f: TsFn| f@) == mf && cs@.map_values(|c: ClassDecl| c@) == mc,
            (Err(e), Err(m)) => e.0@ == m,
            _ => false,
        },
{
    let ghost items = json_model(*a)->Arr_0;
    let ghost rm = rows_model(rows@);
    let mut functions: Vec<TsFn> = Vec::new();
    let mut class_decls: Vec<ClassDecl> = Vec::new();
    let mut i: usize = 0;
    while i < n
        invariant
            json_model(*a) is Arr,
            items == json_model(*a)->Arr_0,
            rm == rows_model(rows@),
            n == items.len(),
            i <= n,
            decode_decls(items, rm, i as nat) is Ok,
            decode_decls(items, rm, i as nat)->Ok_0.0 == functions@.map_values(|f: TsFn| f@),
            decode_decls(items, rm, i as nat)->Ok_0.1 == class_decls@.map_values(|c: ClassDecl| c@),
        decreases n - i,
    {
        let decl = json_at(a, i);
        let ghost k = (i + 1) as nat;
        let kind = match kind_of(decl) {
            Ok(s) => s,
            Err(e) => {
                proof { lemma_decode_decls_err(items, rm, k, n as nat); }
                return Err(e);
            },
        };
        proof {
            reveal_strlit("fn");
            reveal_strlit("class");
        }
        if crate::text::str_eq(kind.as_str(), "fn") {
            let (name, params, ret, body) = match callable_at(decl, rows, "fn name", "fn body") {
                Ok(c) => c,
                Err(e) => {
                    proof { lemma_decode_decls_err(items, rm, k, n as nat); }
                    return Err(e);
                },
            };
            let f = TsFn { name, params, ret, body };
            let ghost fv = f@;
            let ghost before = functions@;
            functions.push(f);
            proof {
                assert(functions@.map_values(|f: TsFn| f@) =~= before.map_values(|f: TsFn| f@).push(fv));
            }
        } else if crate::text::str_eq(kind.as_str(), "class") {
            let c = match class_decl_at(decl, rows) {
                Ok(c) => c,
                Err(e) => {
                    proof { lemma_decode_decls_err(items, rm, k, n as nat); }
                    return Err(e);
                },
            };
            let ghost cv = c@;
            let ghost before = class_decls@;
            class_decls.push(c);
            proof {
                assert(class_decls@.map_values(|c: ClassDecl| c@) =~= before.map_values(|c: ClassDecl| c@).push(cv));
            }
        } else {
            proof {
                reveal_strlit("unsupported decl kind ");
                lemma_decode_decls_err(items, rm, k, n as nat);
            }
            let quoted = debug_of(kind.as_str());
            return Err(LoanwordError(crate::text::join2("unsupported decl kind ", quoted.as_str())));
        }
        i = i + 1;
    }
    Ok((functions, class_decls))
}

} // verus!

verus! {

// ---- the document ----

/// The byte offset of each line start among the first `n` characters:
/// 0, then one past each line feed.
pub open spec fn line_starts_upto(s: Seq<char>, n: nat) -> Seq<usize>
    decreases n,
{
    if n == 0 {
        seq![0usize]
    } else {
        let prev = line_starts_upto(s, (n - 1) as nat);
        if s[n - 1] == '\n' {
            prev.push(byte_offset(s, n as int) as usize)
        } else {
            prev
        }
    }
}

pub open spec fn line_starts_of(s: Seq<char>) -> Seq<usize> {
    line_starts_upto(s, s.len())
}

/// How `{:?}` prints an `Option<i64>`.
pub open spec fn version_text(v: Option<i64>) -> Seq<char> {
    match v {
        None => "None"@,
        Some(i) => "Some("@ + decimal(i as int) + ")"@,
    }
}

pub open spec fn as_i64_of(m: JsonModel) -> Option<i64> {
    match m {
        JsonModel::Num(_, i, _) => i,
        _ => None,
    }
}

/// A verified document, decoded: the version must be 1; then the
/// embedded source, the file name (`<loanword>` where it is no string),
/// the type table, the declarations and the top-level statements.
pub open spec fn decode_document(doc: JsonModel) -> Result<ArtifactM, Seq<char>> {
    match get_field(doc, "loanword"@) {
        Err(m) => Err(m),
        Ok(v) => if as_i64_of(v) != Some(1i64) {
            Err("unsupported loanword version "@ + version_text(as_i64_of(v)) + " (v1 frozen at M9)"@)
        } else {
            match str_field(doc, "source"@, "non-string source"@) {
                Err(m) => Err(m),
                Ok(source) => match get_field(doc, "file"@) {
                    Err(m) => Err(m),
                    Ok(f) => {
                        let file = match f {
                            JsonModel::Str(s) => s,
                            _ => "<loanword>"@,
                        };
                        match arr_field(doc, "types"@, "types must be an array"@) {
                            Err(m) => Err(m),
                            Ok(raws) => match class_names(raws, raws.len()) {
                                Err(m) => Err(m),
                                Ok(names) => match decode_rows(raws, names, raws.len()) {
                                    Err(m) => Err(m),
                                    Ok(table) => match arr_field(doc, "decls"@, "decls must be an array"@) {
                                        Err(m) => Err(m),
                                        Ok(decls) => match decode_decls(decls, table.rows, decls.len()) {
                                            Err(m) => Err(m),
                                            Ok((functions, class_decls)) => match arr_field(doc, "stmts"@, "stmts"@) {
                                                Err(m) => Err(m),
                                                Ok(top) => Ok(ArtifactM {
                                                    functions,
                                                    top,
                                                    line_starts: line_starts_of(source),
                                                    file,
                                                    table,
                                                    class_decls,
                                                }),
                                            },
                                        },
                                    },
                                },
                            },
                        }
                    },
                },
            }
        },
    }
}

/// What an artifact text decodes to: it must be JSON, carry a valid
/// content id, and decode as a version-1 document.
pub open spec fn parse_spec(text: Seq<char>) -> Result<ArtifactM, Seq<char>> {
    match json_parsed(text) {
        None => Err("artifact is not JSON: "@ + json_error(text)),
        Some(doc) => match content_id_check(doc) {
            Err(m) => Err(m),
            Ok(()) => decode_document(doc),
        },
    }
}

/// The line starts of `source`.
fn line_starts_in(source: &str) -> (r: Vec<usize>)
    ensures
        r@ == line_starts_of(source@),
{
    let (chars, offsets) = chars_with_offsets(source);
    let mut starts: Vec<usize> = Vec::new();
    starts.push(0);
    let mut k: usize = 0;
    while k < chars.len()
        invariant
            chars@ == source@,
            offsets@.len() == source@.len() + 1,
            forall|j: int| 0 <= j <= source@.len() ==> #[trigger] offsets@[j] == byte_offset(source@, j),
            k <= chars@.len(),
            starts@ == line_starts_upto(source@, k as nat),
        decreases chars@.len() - k,
    {
        if chars[k] == '\n' {
            starts.push(offsets[k + 1]);
        }
        k = k + 1;
    }
    starts
}

/// Parses an artifact: JSON, then its content id, then the version-1
/// document.
pub fn parse_artifact(text: &str) -> (r: Result<Artifact, LoanwordError>)
    ensures
        match (r, parse_spec(text@)) {
            (Ok(a), Ok(m)) => a@ == m,
            (Err(e), Err(m)) => e.0@ == m,
            _ => false,
        },
{
    let document = match json_parse(text) {
        Ok(d) => d,
        Err(m) => {
            proof { reveal_strlit("artifact is not JSON: "); }
            return Err(LoanwordError(crate::text::join2("artifact is not JSON: ", m.as_str())));
        },
    };
    verify_sha(&document)?;
    let version_node = field(&document, "loanword")?;
    let version = json_i64(version_node);
    let supported = match version {
        Some(v) => v == 1,
        None => false,
    };
    if !supported {
        let mut m = chars_of("unsupported loanword version ");
        match version {
            Some(v) => {
                push_str(&mut m, "Some(");
                let mut digits = decimal_chars(v);
                m.append(&mut digits);
                push_str(&mut m, ")");
            },
            None => push_str(&mut m, "None"),
        }
        push_str(&mut m, " (v1 frozen at M9)");
        proof {
            reveal_strlit("unsupported loanword version ");
            reveal_strlit("Some(");
            reveal_strlit(")");
            reveal_strlit("None");
            reveal_strlit(" (v1 frozen at M9)");
        }
        return Err(LoanwordError(string_of(&m)));
    }
    let source = str_at(&document, "source", "non-string source")?;
    let file_node = field(&document, "file")?;
    let file = match json_str(file_node) {
        Some(s) => s,
        None => "<loanword>".to_owned(),
    };
    let line_starts = line_starts_in(source.as_str());
    let (raw_rows, row_count) = arr_at(&document, "types", "types must be an array")?;
    let names = scan_classes(raw_rows, row_count)?;
    let (types, unions, classes) = decode_table(raw_rows, row_count, &names)?;
    let (decls, decl_count) = arr_at(&document, "decls", "decls must be an array")?;
    let (functions, class_decls) = decls_at(decls, decl_count, &types)?;
    let (stmts, stmt_count) = arr_at(&document, "stmts", "stmts")?;
    let top = values_of(stmts, stmt_count);
    let artifact = Artifact { functions, top, line_starts, file, types, unions, classes, class_decls };
    proof {
        let m = parse_spec(text@)->Ok_0;
        assert(artifact@.table =~= m.table);
        assert(artifact@ =~= m);
    }
    Ok(artifact)
}

} // verus!

verus! {

/// The position of the first entry keyed `key`.
pub open spec fn first_keyed<T>(s: Seq<(usize, T)>, key: usize) -> Option<int> {
    if exists|i: int| 0 <= i < s.len() && (#[trigger] s[i]).0 == key {
        Some(choose|i: int| 0 <= i < s.len() && (#[trigger] s[i]).0 == key && forall|j: int| 0 <= j < i ==> (#[trigger] s[j]).0 != key)
    } else {
        None
    }
}

proof fn lemma_first_keyed<T>(s: Seq<(usize, T)>, key: usize, i: int)
    requires
        0 <= i < s.len(),
        s[i].0 == key,
        forall|j: int| 0 <= j < i ==> (#[trigger] s[j]).0 != key,
    ensures
        first_keyed(s, key) == Some(i),
{
    let c = choose|c: int| 0 <= c < s.len() && (#[trigger] s[c]).0 == key && forall|j: int| 0 <= j < c ==> (#[trigger] s[j]).0 != key;
    assert(0 <= c < s.len() && s[c].0 == key && forall|j: int| 0 <= j < c ==> (#[trigger] s[j]).0 != key);
    if c < i {
        assert(s[c].0 != key);
    } else if c > i {
        assert(s[i].0 != key);
    }
}

/// The refusal `<before><index><after>`.
fn index_refusal(before: &str, index: usize, after: &str) -> (e: LoanwordError)
    ensures
        e.0@ == before@ + decimal_digits(index as nat) + after@,
{
    let mut m = chars_of(before);
    let mut digits = digits_of(index as u64);
    m.append(&mut digits);
    push_str(&mut m, after);
    LoanwordError(string_of(&m))
}

/// Where the definition of the union row at `index` stands in `unions`.
pub open spec fn union_entry(types: Seq<Row>, unions: Seq<(usize, UnionDef)>, index: usize) -> Option<int> {
    if index < types.len() {
        match types[index as int] {
            Row::Ty(TsTy::Union(j)) => first_keyed(unions, j),
            _ => None,
        }
    } else {
        None
    }
}

impl Artifact {
    /// The union definition of the union row at `index`.
    pub fn union_at(&self, index: usize) -> (r: Result<&UnionDef, LoanwordError>)
        ensures
            match r {
                Ok(d) => union_entry(self.types@, self.unions@, index) is Some
                    && self.unions@[union_entry(self.types@, self.unions@, index)->Some_0].1 == *d,
                Err(e) => e.0@ == "type ref "@ + decimal_digits(index as nat) + " is not a union row (D-072)"@
                    && union_entry(self.types@, self.unions@, index) is None,
            },
    {
        proof {
            reveal_strlit("type ref ");
            reveal_strlit(" is not a union row (D-072)");
        }
        if index < self.types.len() {
            if let Row::Ty(TsTy::Union(j)) = &self.types[index] {
                let mut k: usize = 0;
                while k < self.unions.len()
                    invariant
                        index < self.types@.len(),
                        self.types@[index as int] == Row::Ty(TsTy::Union(*j)),
                        k <= self.unions@.len(),
                        forall|p: int| 0 <= p < k ==> (#[trigger] self.unions@[p]).0 != *j,
                    decreases self.unions@.len() - k,
                {
                    if self.unions[k].0 == *j {
                        proof { lemma_first_keyed(self.unions@, *j, k as int); }
                        return Ok(&self.unions[k].1);
                    }
                    k = k + 1;
                }
            }
        }
        Err(index_refusal("type ref ", index, " is not a union row (D-072)"))
    }

    /// The class definition of the class row at `index`.
    pub fn class_at(&self, index: usize) -> (r: Result<&ClassDef, LoanwordError>)
        ensures
            match r {
                Ok(d) => first_keyed(self.classes@, index) is Some
                    && self.classes@[first_keyed(self.classes@, index)->Some_0].1 == *d,
                Err(e) => e.0@ == "type ref "@ + decimal_digits(index as nat) + " is not a class row (D-073)"@
                    && first_keyed(self.classes@, index) is None,
            },
    {
        proof {
            reveal_strlit("type ref ");
            reveal_strlit(" is not a class row (D-073)");
        }
        let mut k: usize = 0;
        while k < self.classes.len()
            invariant
                k <= self.classes@.len(),
                forall|p: int| 0 <= p < k ==> (#[trigger] self.classes@[p]).0 != index,
            decreases self.classes@.len() - k,
        {
            if self.classes[k].0 == index {
                proof { lemma_first_keyed(self.classes@, index, k as int); }
                return Ok(&self.classes[k].1);
            }
            k = k + 1;
        }
        Err(index_refusal("type ref ", index, " is not a class row (D-073)"))
    }

    /// The first declaration of the class row `index`.
    pub fn class_decl(&self, index: usize) -> (r: Result<&ClassDecl, LoanwordError>)
        ensures
            match r {
                Ok(d) => exists|k: int| 0 <= k < self.class_decls@.len() && self.class_decls@[k] == *d
                    && d.ty == index && forall|p: int| 0 <= p < k ==> (#[trigger] self.class_decls@[p]).ty != index,
                Err(e) => e.0@ == "class row "@ + decimal_digits(index as nat) + " has no declaration"@
                    && forall|p: int| 0 <= p < self.class_decls@.len() ==> (#[trigger] self.class_decls@[p]).ty != index,
            },
    {
        proof {
            reveal_strlit("class row ");
            reveal_strlit(" has no declaration");
        }
        let mut k: usize = 0;
        while k < self.class_decls.len()
            invariant
                k <= self.class_decls@.len(),
                forall|p: int| 0 <= p < k ==> (#[trigger] self.class_decls@[p]).ty != index,
            decreases self.class_decls@.len() - k,
        {
            if self.class_decls[k].ty == index {
                return Ok(&self.class_decls[k]);
            }
            k = k + 1;
        }
        Err(index_refusal("class row ", index, " has no declaration"))
    }
}

} // verus!

verus! {

/// The decoded artifact depends on the JSON document alone: two texts
/// that read as the same document (whatever their whitespace or key
/// order) decode alike.
pub proof fn law_decoding_depends_on_the_document(t1: Seq<char>, t2: Seq<char>)
    requires
        json_parsed(t1) is Some,
        json_parsed(t1) == json_parsed(t2),
    ensures
        parse_spec(t1) == parse_spec(t2),
{
}

} // verus!

verus! {

/// The table defines a union keyed `j`.
pub open spec fn has_union(t: TableM, j: usize) -> bool {
    exists|k: int| 0 <= k < t.unions.len() && (#[trigger] t.unions[k]).0 == j
}

/// The table defines a class keyed `j`.
pub open spec fn has_class(t: TableM, j: usize) -> bool {
    exists|k: int| 0 <= k < t.classes.len() && (#[trigger] t.classes[k]).0 == j
}

/// Every union and class `ty` names is defined in the table.
pub open spec fn resolves(t: TableM, ty: TsTy) -> bool
    decreases ty,
{
    match ty {
        TsTy::Union(j) => has_union(t, j),
        TsTy::Class(j) => has_class(t, j),
        TsTy::Arr(e) => resolves(t, *e),
        _ => true,
    }
}

/// While the table is being built: unions defined already, classes
/// named by a class row anywhere in the raw rows.
spec fn refs_ok(raws: Seq<JsonModel>, unions: Seq<(usize, Seq<VariantM>)>, ty: TsTy) -> bool
    decreases ty,
{
    match ty {
        TsTy::Union(j) => exists|k: int| 0 <= k < unions.len() && (#[trigger] unions[k]).0 == j,
        TsTy::Class(j) => j < raws.len() && node_kind(raws[j as int]) == Ok::<Seq<char>, Seq<char>>("class"@),
        TsTy::Arr(e) => refs_ok(raws, unions, *e),
        _ => true,
    }
}

proof fn lemma_refs_ok_grow(raws: Seq<JsonModel>, unions: Seq<(usize, Seq<VariantM>)>, more: (usize, Seq<VariantM>), ty: TsTy)
    requires
        refs_ok(raws, unions, ty),
    ensures
        refs_ok(raws, unions.push(more), ty),
    decreases ty,
{
    match ty {
        TsTy::Union(j) => {
            let k = choose|k: int| 0 <= k < unions.len() && (#[trigger] unions[k]).0 == j;
            assert(unions.push(more)[k] == unions[k]);
        },
        TsTy::Arr(e) => lemma_refs_ok_grow(raws, unions, more, *e),
        _ => {},
    }
}

proof fn lemma_refs_resolve(raws: Seq<JsonModel>, t: TableM, ty: TsTy)
    requires
        refs_ok(raws, t.unions, ty),
        forall|j: int| 0 <= j < raws.len() && node_kind(raws[j]) == Ok::<Seq<char>, Seq<char>>("class"@)
            ==> #[trigger] has_class(t, j as usize),
    ensures
        resolves(t, ty),
    decreases ty,
{
    match ty {
        TsTy::Arr(e) => lemma_refs_resolve(raws, t, *e),
        TsTy::Class(j) => {
            assert(has_class(t, j as int as usize));
        },
        _ => {},
    }
}

/// Every prescanned name is that of a class row.
proof fn lemma_class_names_rows(raws: Seq<JsonModel>, n: nat)
    requires
        n <= raws.len(),
        raws.len() <= usize::MAX,
        class_names(raws, n) is Ok,
    ensures
        forall|k: int| 0 <= k < class_names(raws, n)->Ok_0.len() ==> {
            let j = (#[trigger] class_names(raws, n)->Ok_0[k]).1;
            &&& j < n
            &&& node_kind(raws[j as int]) == Ok::<Seq<char>, Seq<char>>("class"@)
        },
    decreases n,
{
    reveal_strlit("class");
    if n > 0 {
        let m = (n - 1) as nat;
        if class_names(raws, m) is Err {
            assert(class_names(raws, n) == class_names(raws, m));
        }
        lemma_class_names_rows(raws, m);
        let prev = class_names(raws, m)->Ok_0;
        let cur = class_names(raws, n)->Ok_0;
        assert forall|k: int| 0 <= k < cur.len() implies {
            let j = (#[trigger] cur[k]).1;
            &&& j < n
            &&& node_kind(raws[j as int]) == Ok::<Seq<char>, Seq<char>>("class"@)
        } by {
            if k < prev.len() {
                assert(cur[k] == prev[k]);
            }
        }
    }
}

/// The table built so far: one row per raw row, every row's type
/// resolving, every class row defined.
spec fn table_ok(raws: Seq<JsonModel>, t: TableM, n: nat) -> bool {
    &&& t.rows.len() == n
    &&& forall|i: int| 0 <= i < n ==> (#[trigger] t.rows[i] matches RowM::Ty(ty) ==> refs_ok(raws, t.unions, ty))
    &&& forall|j: int| 0 <= j < n && node_kind(raws[j]) == Ok::<Seq<char>, Seq<char>>("class"@) ==> #[trigger] has_class(t, j as usize)
}

proof fn lemma_rows_len(raws: Seq<JsonModel>, names: Seq<(Seq<char>, usize)>, n: nat)
    requires
        decode_rows(raws, names, n) is Ok,
    ensures
        decode_rows(raws, names, n)->Ok_0.rows.len() == n,
    decreases n,
{
    if n > 0 {
        let m = (n - 1) as nat;
        if decode_rows(raws, names, m) is Err {
            assert(decode_rows(raws, names, n) == decode_rows(raws, names, m));
        }
        lemma_rows_len(raws, names, m);
    }
}

proof fn lemma_find_name_some(names: Seq<(Seq<char>, usize)>, name: Seq<char>)
    requires
        find_name(names, name) is Some,
    ensures
        exists|c: int| 0 <= c < names.len() && (#[trigger] names[c]).0 == name && names[c].1 == find_name(names, name)->Some_0,
    decreases names.len(),
{
    if names[0].0 == name {
        assert(names[0].0 == name);
    } else {
        lemma_find_name_some(names.drop_first(), name);
        let c = choose|c: int| 0 <= c < names.drop_first().len() && (#[trigger] names.drop_first()[c]).0 == name
            && names.drop_first()[c].1 == find_name(names.drop_first(), name)->Some_0;
        assert(names[c + 1] == names.drop_first()[c]);
    }
}

/// Class rows before `m` stay defined when the classes do not change.
proof fn lemma_classes_kept(raws: Seq<JsonModel>, t: TableM, t2: TableM, m: nat)
    requires
        m < raws.len(),
        t2.classes == t.classes,
        node_kind(raws[m as int]) != Ok::<Seq<char>, Seq<char>>("class"@),
        forall|j: int| 0 <= j < m && node_kind(raws[j]) == Ok::<Seq<char>, Seq<char>>("class"@) ==> #[trigger] has_class(t, j as usize),
    ensures
        forall|j: int| 0 <= j < m + 1 && node_kind(raws[j]) == Ok::<Seq<char>, Seq<char>>("class"@) ==> #[trigger] has_class(t2, j as usize),
{
    assert forall|j: int| 0 <= j < m + 1 && node_kind(raws[j]) == Ok::<Seq<char>, Seq<char>>("class"@) implies #[trigger] has_class(t2, j as usize) by {
        assert(has_class(t, j as usize));
    }
}

/// Decoding one more row keeps the table sound.
proof fn lemma_row_step(raws: Seq<JsonModel>, names: Seq<(Seq<char>, usize)>, t: TableM, t2: TableM, m: nat)
    requires
        m < raws.len(),
        raws.len() <= usize::MAX,
        table_ok(raws, t, m),
        decode_row(raws[m as int], names, t) == Ok::<TableM, Seq<char>>(t2),
        forall|k: int| 0 <= k < names.len() ==> {
            let j = (#[trigger] names[k]).1;
            &&& j < raws.len()
            &&& node_kind(raws[j as int]) == Ok::<Seq<char>, Seq<char>>("class"@)
        },
    ensures
        table_ok(raws, t2, m + 1),
{
    let row = raws[m as int];
    let k = node_kind(row)->Ok_0;
    let n = m + 1;
    reveal_strlit("num");
    reveal_strlit("bool");
    reveal_strlit("void");
    reveal_strlit("str");
    reveal_strlit("arr");
    reveal_strlit("obj");
    reveal_strlit("union");
    reveal_strlit("cref");
    reveal_strlit("class");
    assert("union"@[0] != "class"@[0]);
    assert("cref"@[1] != "class"@[1]);
    // Rows before the new one keep resolving when the unions grow.
    let keep = |u2: Seq<(usize, Seq<VariantM>)>| forall|i: int| 0 <= i < m ==> (#[trigger] t.rows[i] matches RowM::Ty(ty) ==> refs_ok(raws, u2, ty));
    if k == "num"@ || k == "bool"@ || k == "void"@ || k == "str"@ || k == "obj"@ {
        assert(t2.unions == t.unions && t2.classes == t.classes);
        lemma_classes_kept(raws, t, t2, m);
    } else if k == "arr"@ {
        let key = get_field(row, "elem"@)->Ok_0;
        let elem = row_ty(t.rows, key)->Ok_0;
        assert(t2.rows[m as int] == RowM::Ty(TsTy::Arr(Box::new(elem))));
        match key {
            JsonModel::Num(_, _, Some(u)) => {
                assert(t.rows[u as int] == RowM::Ty(elem));
                assert(refs_ok(raws, t.unions, elem));
            },
            _ => {},
        }
        lemma_classes_kept(raws, t, t2, m);
    } else if k == "union"@ {
        let refs = arr_field(row, "variants"@, "union row variants"@)->Ok_0;
        let vs = union_variants(refs, t.rows, refs.len())->Ok_0;
        let x = (m as usize, vs);
        assert(t2.unions == t.unions.push(x));
        assert(t2.unions[t.unions.len() as int].0 == m as usize);
        assert forall|i: int| 0 <= i < m implies (#[trigger] t2.rows[i] matches RowM::Ty(ty) ==> refs_ok(raws, t2.unions, ty)) by {
            assert(t2.rows[i] == t.rows[i]);
            if let RowM::Ty(ty) = t.rows[i] {
                lemma_refs_ok_grow(raws, t.unions, x, ty);
            }
        }
        lemma_classes_kept(raws, t, t2, m);
    } else if k == "cref"@ {
        let name = str_field(row, "name"@, "cref name"@)->Ok_0;
        lemma_find_name_some(names, name);
        lemma_classes_kept(raws, t, t2, m);
    } else if k == "class"@ {
        let name = str_field(row, "name"@, "class row name"@)->Ok_0;
        assert(t2.classes[t.classes.len() as int].0 == m as usize);
        assert forall|j: int| 0 <= j < n && node_kind(raws[j]) == Ok::<Seq<char>, Seq<char>>("class"@) implies #[trigger] has_class(t2, j as usize) by {
            if j < m {
                assert(has_class(t, j as usize));
                let c = choose|c: int| 0 <= c < t.classes.len() && (#[trigger] t.classes[c]).0 == j as usize;
                assert(t2.classes[c] == t.classes[c]);
            }
        }
    }
    assert forall|i: int| 0 <= i < n implies (#[trigger] t2.rows[i] matches RowM::Ty(ty) ==> refs_ok(raws, t2.unions, ty)) by {
        if i < m {
            assert(t2.rows[i] == t.rows[i]);
        }
    }
}

proof fn lemma_decode_rows_ok(raws: Seq<JsonModel>, names: Seq<(Seq<char>, usize)>, n: nat)
    requires
        n <= raws.len(),
        raws.len() <= usize::MAX,
        decode_rows(raws, names, n) is Ok,
        forall|k: int| 0 <= k < names.len() ==> {
            let j = (#[trigger] names[k]).1;
            &&& j < raws.len()
            &&& node_kind(raws[j as int]) == Ok::<Seq<char>, Seq<char>>("class"@)
        },
    ensures
        table_ok(raws, decode_rows(raws, names, n)->Ok_0, n),
    decreases n,
{
    if n > 0 {
        let m = (n - 1) as nat;
        if decode_rows(raws, names, m) is Err {
            assert(decode_rows(raws, names, n) == decode_rows(raws, names, m));
        }
        lemma_decode_rows_ok(raws, names, m);
        lemma_row_step(raws, names, decode_rows(raws, names, m)->Ok_0, decode_rows(raws, names, n)->Ok_0, m);
    }
}

/// In a decoded artifact every union and class a row's type names is
/// defined: a class reference may point forward, to a class row later
/// in the table, and still resolve.
pub proof fn law_decoded_types_resolve(text: Seq<char>)
    requires
        parse_spec(text) is Ok,
        parse_spec(text)->Ok_0.table.rows.len() <= usize::MAX,
    ensures
        forall|i: int| 0 <= i < parse_spec(text)->Ok_0.table.rows.len()
            ==> (#[trigger] parse_spec(text)->Ok_0.table.rows[i] matches RowM::Ty(ty)
                ==> resolves(parse_spec(text)->Ok_0.table, ty)),
{
    let doc = json_parsed(text)->Some_0;
    let raws = arr_field(doc, "types"@, "types must be an array"@)->Ok_0;
    let names = class_names(raws, raws.len())->Ok_0;
    lemma_rows_len(raws, names, raws.len());
    lemma_class_names_rows(raws, raws.len());
    lemma_decode_rows_ok(raws, names, raws.len());
    let t = decode_rows(raws, names, raws.len())->Ok_0;
    assert(parse_spec(text)->Ok_0.table == t);
    assert forall|i: int| 0 <= i < t.rows.len() implies (#[trigger] t.rows[i] matches RowM::Ty(ty) ==> resolves(t, ty)) by {
        if let RowM::Ty(ty) = t.rows[i] {
            lemma_refs_resolve(raws, t, ty);
        }
    }
}

} // verus!

verus! {

/// A primitive type row decodes to the type its kind names, appended to
/// the table and touching nothing else: `num` to a number, `bool` to a
/// boolean, `void` to void and `str` to a string. Distinct primitive
/// kinds thus give distinct types.
pub proof fn law_primitive_rows(row: JsonModel, names: Seq<(Seq<char>, usize)>, t: TableM)
    ensures
        node_kind(row) == Ok::<Seq<char>, Seq<char>>("num"@) ==> decode_row(row, names, t)
            == Ok::<TableM, Seq<char>>(TableM { rows: t.rows.push(RowM::Ty(TsTy::Num)), unions: t.unions, classes: t.classes }),
        node_kind(row) == Ok::<Seq<char>, Seq<char>>("bool"@) ==> decode_row(row, names, t)
            == Ok::<TableM, Seq<char>>(TableM { rows: t.rows.push(RowM::Ty(TsTy::Bool)), unions: t.unions, classes: t.classes }),
        node_kind(row) == Ok::<Seq<char>, Seq<char>>("void"@) ==> decode_row(row, names, t)
            == Ok::<TableM, Seq<char>>(TableM { rows: t.rows.push(RowM::Ty(TsTy::Void)), unions: t.unions, classes: t.classes }),
        node_kind(row) == Ok::<Seq<char>, Seq<char>>("str"@) ==> decode_row(row, names, t)
            == Ok::<TableM, Seq<char>>(TableM { rows: t.rows.push(RowM::Ty(TsTy::Str)), unions: t.unions, classes: t.classes }),
{
    reveal_strlit("num");
    reveal_strlit("bool");
    reveal_strlit("void");
    reveal_strlit("str");
    assert("num"@.len() == 3 && "bool"@.len() == 4 && "void"@.len() == 4 && "str"@.len() == 3);
    assert("num"@[0] != "str"@[0] && "bool"@[0] != "void"@[0]);
}

} // verus!

verus! {

/// An array row decodes to an array of the type its `elem` field refers
/// to, unless that is itself an array; a class reference decodes to the
/// class of the row that declares the named class.
pub proof fn law_array_and_reference_rows(row: JsonModel, names: Seq<(Seq<char>, usize)>, t: TableM)
    ensures
        node_kind(row) == Ok::<Seq<char>, Seq<char>>("arr"@) && (get_field(row, "elem"@) matches Ok(key)
            && row_ty(t.rows, key) matches Ok(elem) && !(elem is Arr)) ==> decode_row(row, names, t)
            == Ok::<TableM, Seq<char>>(TableM {
                rows: t.rows.push(RowM::Ty(TsTy::Arr(Box::new(row_ty(t.rows, get_field(row, "elem"@)->Ok_0)->Ok_0)))),
                unions: t.unions,
                classes: t.classes,
            }),
        node_kind(row) == Ok::<Seq<char>, Seq<char>>("arr"@) && (get_field(row, "elem"@) matches Ok(key)
            && row_ty(t.rows, key) matches Ok(elem) && elem is Arr) ==> decode_row(row, names, t) is Err,
        node_kind(row) == Ok::<Seq<char>, Seq<char>>("cref"@) && (str_field(row, "name"@, "cref name"@) matches Ok(name)
            && find_name(names, name) matches Some(index)) ==> decode_row(row, names, t)
            == Ok::<TableM, Seq<char>>(TableM {
                rows: t.rows.push(RowM::Ty(TsTy::Class(find_name(names, str_field(row, "name"@, "cref name"@)->Ok_0)->Some_0))),
                unions: t.unions,
                classes: t.classes,
            }),
{
    reveal_strlit("num");
    reveal_strlit("bool");
    reveal_strlit("void");
    reveal_strlit("str");
    reveal_strlit("arr");
    reveal_strlit("obj");
    reveal_strlit("union");
    reveal_strlit("cref");
    assert("num"@[0] != "arr"@[0] && "str"@[0] != "arr"@[0] && "obj"@[0] != "arr"@[0]);
    assert("bool"@[0] != "cref"@[0] && "void"@[0] != "cref"@[0] && "union"@.len() != "cref"@.len());
    assert("num"@.len() != "cref"@.len() && "str"@.len() != "cref"@.len() && "arr"@.len() != "cref"@.len());
    assert("obj"@.len() != "cref"@.len());
    assert("bool"@.len() != "arr"@.len() && "void"@.len() != "arr"@.len());
}

} // verus!
