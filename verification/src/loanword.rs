//! The loanword consumer: a typed-AST artifact arrives as canonical
//! JSON carrying a SHA-256 content id; it is decoded into function and
//! class declarations over an interned table of type rows. The JSON
//! itself is serde_json's; its digest is sha2's.

pub mod artifact;

use vstd::prelude::*;
use sha2::Digest;
use crate::text::{chars_of, push_str, string_of};

verus! {

#[derive(Debug)]
pub struct LoanwordError(pub String);

impl LoanwordError {
    /// `loanword: <message>`.
    pub fn text(&self) -> (s: String)
        ensures
            s@ == "loanword: "@ + self.0@,
    {
        crate::text::join2("loanword: ", self.0.as_str())
    }
}

#[verifier::external_type_specification]
#[verifier::external_body]
pub struct ExJsonValue(serde_json::Value);

/// What a JSON value holds. A number carries its printed form and its
/// readings as `i64` and as `u64`, where it has them; an object's
/// entries come in ascending order of key.
pub enum JsonModel {
    Null,
    Bool(bool),
    Num(Seq<char>, Option<i64>, Option<u64>),
    Str(Seq<char>),
    Arr(Seq<JsonModel>),
    Obj(Seq<(Seq<char>, JsonModel)>),
}

/// The JSON value `v` holds.
pub uninterp spec fn json_model(v: serde_json::Value) -> JsonModel;

/// The document `serde_json::from_str` reads from `text`, if it is JSON.
pub uninterp spec fn json_parsed(text: Seq<char>) -> Option<JsonModel>;

/// The message of the error `serde_json::from_str` reports on `text`.
pub uninterp spec fn json_error(text: Seq<char>) -> Seq<char>;

/// The text serde_json's `Display` prints for a value (compact: no
/// whitespace; a string quoted, with escapes).
pub uninterp spec fn json_display(m: JsonModel) -> Seq<char>;

/// The lowercase hex SHA-256 digest of the UTF-8 bytes of `s`.
pub uninterp spec fn sha256_hex(s: Seq<char>) -> Seq<char>;

/// Keys in strictly ascending order.
pub open spec fn keys_ascending(es: Seq<(Seq<char>, JsonModel)>) -> bool {
    forall|i: int, j: int| 0 <= i < j < es.len() ==> crate::text::lex_le((#[trigger] es[i]).0, (#[trigger] es[j]).0)
        && es[i].0 != es[j].0
}

/// `serde_json::from_str::<Value>`: the document, or the error's text.
#[verifier::external_body]
fn json_parse(text: &str) -> (r: Result<serde_json::Value, String>)
    ensures
        match r {
            Ok(v) => json_parsed(text@) == Some(json_model(v)),
            Err(m) => json_parsed(text@) is None && m@ == json_error(text@),
        },
{
    serde_json::from_str::<serde_json::Value>(text).map_err(|e| e.to_string())
}

/// `as_object` and the map's keys, in the map's (ascending) order.
#[verifier::external_body]
fn json_keys(v: &serde_json::Value) -> (r: Option<Vec<String>>)
    ensures
        match json_model(*v) {
            JsonModel::Obj(es) => keys_ascending(es) && (r matches Some(ks) && ks@.len() == es.len()
                && forall|i: int| 0 <= i < es.len() ==> (#[trigger] ks@[i])@ == es[i].0),
            _ => r is None,
        },
{
    v.as_object().map(|m| m.keys().cloned().collect())
}

/// `get(key)`: the value under `key` in an object.
#[verifier::external_body]
fn json_get<'a>(v: &'a serde_json::Value, key: &str) -> (r: Option<&'a serde_json::Value>)
    ensures
        match json_model(*v) {
            JsonModel::Obj(es) => keys_ascending(es) && match r {
                Some(c) => exists|i: int| 0 <= i < es.len() && (#[trigger] es[i]).0 == key@ && json_model(*c) == es[i].1,
                None => forall|i: int| 0 <= i < es.len() ==> (#[trigger] es[i]).0 != key@,
            },
            _ => r is None,
        },
{
    v.get(key)
}

/// `as_array` and its length.
#[verifier::external_body]
fn json_len(v: &serde_json::Value) -> (r: Option<usize>)
    ensures
        match json_model(*v) {
            JsonModel::Arr(items) => items.len() <= usize::MAX && r == Some(items.len() as usize),
            _ => r is None,
        },
{
    v.as_array().map(|a| a.len())
}

/// The `i`-th item of an array.
#[verifier::external_body]
fn json_at(v: &serde_json::Value, i: usize) -> (r: &serde_json::Value)
    requires
        json_model(*v) is Arr,
        i < json_model(*v)->Arr_0.len(),
    ensures
        json_model(*r) == json_model(*v)->Arr_0[i as int],
{
    &v.as_array().unwrap()[i]
}

/// `as_str`, copied out.
#[verifier::external_body]
fn json_str(v: &serde_json::Value) -> (r: Option<String>)
    ensures
        match json_model(*v) {
            JsonModel::Str(s) => r matches Some(t) && t@ == s,
            _ => r is None,
        },
{
    v.as_str().map(|s| s.to_owned())
}

/// `as_u64`.
#[verifier::external_body]
fn json_u64(v: &serde_json::Value) -> (r: Option<u64>)
    ensures
        match json_model(*v) {
            JsonModel::Num(_, _, u) => r == u,
            _ => r is None,
        },
{
    v.as_u64()
}

/// `as_i64`.
#[verifier::external_body]
fn json_i64(v: &serde_json::Value) -> (r: Option<i64>)
    ensures
        match json_model(*v) {
            JsonModel::Num(_, i, _) => r == i,
            _ => r is None,
        },
{
    v.as_i64()
}

/// `as_bool`.
#[verifier::external_body]
fn json_bool(v: &serde_json::Value) -> (r: Option<bool>)
    ensures
        match json_model(*v) {
            JsonModel::Bool(b) => r == Some(b),
            _ => r is None,
        },
{
    v.as_bool()
}

/// `clone`: the same value.
#[verifier::external_body]
fn json_clone(v: &serde_json::Value) -> (r: serde_json::Value)
    ensures
        json_model(r) == json_model(*v),
{
    v.clone()
}

/// `to_string`: the value as serde_json's `Display` prints it.
#[verifier::external_body]
pub(crate) fn json_text(v: &serde_json::Value) -> (r: String)
    ensures
        r@ == json_display(json_model(*v)),
{
    v.to_string()
}

/// `Value::String`: the string value holding `s`.
#[verifier::external_body]
fn json_string(s: &str) -> (r: serde_json::Value)
    ensures
        json_model(r) == JsonModel::Str(s@),
{
    serde_json::Value::String(s.to_owned())
}

/// `Sha256::digest` of the text's bytes, printed in lowercase hex.
#[verifier::external_body]
fn sha256_text(s: &str) -> (r: String)
    ensures
        r@ == sha256_hex(s@),
{
    format!("{:x}", sha2::Sha256::digest(s.as_bytes()))
}

} // verus!

verus! {

/// The canonical JSON text of a value: no whitespace, object keys in
/// (the map's) ascending order, scalars as serde_json prints them.
pub open spec fn canonical_spec(m: JsonModel) -> Seq<char>
    decreases m, 0int,
{
    match m {
        JsonModel::Obj(es) => "{"@ + canonical_entries(es, es.len() as int) + "}"@,
        JsonModel::Arr(items) => "["@ + canonical_items(items, items.len() as int) + "]"@,
        _ => json_display(m),
    }
}

/// The first `k` entries, each `"key":value`, comma separated.
pub open spec fn canonical_entries(es: Seq<(Seq<char>, JsonModel)>, k: int) -> Seq<char>
    decreases es, k,
{
    if k <= 0 || k > es.len() {
        Seq::empty()
    } else {
        canonical_entries(es, k - 1) + (if k > 1 { ","@ } else { Seq::empty() }) + json_display(JsonModel::Str(es[k - 1].0)) + ":"@
            + canonical_spec(es[k - 1].1)
    }
}

/// The first `k` items, comma separated.
pub open spec fn canonical_items(items: Seq<JsonModel>, k: int) -> Seq<char>
    decreases items, k,
{
    if k <= 0 || k > items.len() {
        Seq::empty()
    } else {
        canonical_items(items, k - 1) + (if k > 1 { ","@ } else { Seq::empty() }) + canonical_spec(items[k - 1])
    }
}

/// The entries without the one keyed `key`.
pub open spec fn drop_key(es: Seq<(Seq<char>, JsonModel)>, key: Seq<char>) -> Seq<(Seq<char>, JsonModel)>
    decreases es.len(),
{
    if es.len() == 0 {
        es
    } else {
        let init = drop_key(es.drop_last(), key);
        if es.last().0 == key {
            init
        } else {
            init.push(es.last())
        }
    }
}

/// Appends the canonical text of `v` to `out`.
fn canonical(v: &serde_json::Value, out: &mut Vec<char>)
    ensures
        final(out)@ == old(out)@ + canonical_spec(json_model(*v)),
    decreases json_model(*v),
{
    match json_keys(v) {
        Some(keys) => {
            canonical_object(v, &keys, None, out);
        },
        None => match json_len(v) {
            Some(n) => {
                let ghost items = json_model(*v)->Arr_0;
                let ghost start = out@;
                proof {
                    reveal_strlit("[");
                    reveal_strlit("]");
                    reveal_strlit(",");
                }
                out.push('[');
                let mut i: usize = 0;
                while i < n
                    invariant
                        json_model(*v) is Arr,
                        items == json_model(*v)->Arr_0,
                        n == items.len(),
                        i <= n,
                        out@ == start + "["@ + canonical_items(items, i as int),
                    decreases n - i,
                {
                    let ghost prev = out@;
                    proof {
                        reveal_strlit(",");
                        reveal_strlit("[");
                    }
                    if i > 0 {
                        out.push(',');
                    }
                    let ghost sep = out@;
                    assert(sep =~= prev + (if i > 0 { ","@ } else { Seq::<char>::empty() }));
                    let item = json_at(v, i);
                    proof {
                        assert(decreases_to!(json_model(*v) => items));
                        assert(decreases_to!(items => items[i as int]));
                    }
                    canonical(item, out);
                    proof {
                        let k = (i + 1) as int;
                        assert(canonical_items(items, k) == canonical_items(items, k - 1)
                            + (if k > 1 { ","@ } else { Seq::<char>::empty() }) + canonical_spec(items[k - 1]));
                        assert(out@ =~= start + "["@ + canonical_items(items, k));
                    }
                    i = i + 1;
                }
                out.push(']');
                proof {
                    assert(out@ =~= start + canonical_spec(json_model(*v)));
                }
            },
            None => {
                let text = json_text(v);
                push_str(out, text.as_str());
            },
        },
    }
}

/// Appends the canonical text of the object `v` (whose keys are `keys`),
/// leaving out the entry keyed `skip`.
fn canonical_object(v: &serde_json::Value, keys: &Vec<String>, skip: Option<&str>, out: &mut Vec<char>)
    requires
        json_model(*v) is Obj,
        keys_ascending(json_model(*v)->Obj_0),
        keys@.len() == json_model(*v)->Obj_0.len(),
        forall|i: int| 0 <= i < keys@.len() ==> (#[trigger] keys@[i])@ == json_model(*v)->Obj_0[i].0,
    ensures
        final(out)@ == old(out)@ + canonical_spec(JsonModel::Obj(match skip {
            None => json_model(*v)->Obj_0,
            Some(k) => drop_key(json_model(*v)->Obj_0, k@),
        })),
    decreases json_model(*v), 1int,
{
    let ghost es = json_model(*v)->Obj_0;
    let ghost start = out@;
    proof {
        reveal_strlit("{");
        reveal_strlit("}");
        reveal_strlit(",");
        reveal_strlit(":");
        assert(es.take(0) =~= Seq::<(Seq<char>, JsonModel)>::empty());
    }
    out.push('{');
    let mut emitted: usize = 0;
    let mut index: usize = 0;
    while index < keys.len()
        invariant
            json_model(*v) is Obj,
            es == json_model(*v)->Obj_0,
            keys_ascending(es),
            keys@.len() == es.len(),
            forall|i: int| 0 <= i < keys@.len() ==> (#[trigger] keys@[i])@ == es[i].0,
            index <= keys@.len(),
            ({
                let kept = match skip {
                    None => es.take(index as int),
                    Some(k) => drop_key(es.take(index as int), k@),
                };
                &&& emitted == kept.len()
                &&& kept.len() <= index
                &&& out@ == start + "{"@ + canonical_entries(kept, kept.len() as int)
            }),
        decreases keys@.len() - index,
    {
        let ghost prefix = es.take(index as int);
        let ghost kept = match skip {
            None => prefix,
            Some(k) => drop_key(prefix, k@),
        };
        proof {
            if let Some(k) = skip {
                lemma_drop_key_len(prefix, k@);
            }
            assert(es.take(index + 1).drop_last() =~= prefix);
            assert(es.take(index + 1).last() == es[index as int]);
        }
        let key = &keys[index];
        let skipped = match skip {
            Some(k) => crate::text::str_eq(key.as_str(), k),
            None => false,
        };
        if !skipped {
            let ghost prev = out@;
            proof {
                reveal_strlit(",");
                reveal_strlit(":");
                reveal_strlit("{");
            }
            if emitted > 0 {
                out.push(',');
            }
            let key_value = json_string(key.as_str());
            let text = json_text(&key_value);
            push_str(out, text.as_str());
            out.push(':');
            let ghost head = out@;
            assert(head =~= prev + (if emitted > 0 { ","@ } else { Seq::<char>::empty() }) + json_display(JsonModel::Str(key@)) + ":"@);
            let child = match json_get(v, key.as_str()) {
                Some(c) => c,
                None => {
                    proof {
                        assert(es[index as int].0 == key@);
                    }
                    return;
                },
            };
            proof {
                let j = choose|j: int| 0 <= j < es.len() && (#[trigger] es[j]).0 == key@ && json_model(*child) == es[j].1;
                if j != index {
                    if j < index {
                        assert(es[j].0 != es[index as int].0);
                    } else {
                        assert(es[index as int].0 != es[j].0);
                    }
                }
                assert(json_model(*child) == es[index as int].1);
                assert(decreases_to!(json_model(*v) => es));
                assert(decreases_to!(es => es[index as int]));
                assert(decreases_to!(es[index as int] => es[index as int].1));
            }
            let ghost before = out@;
            canonical(child, out);
            proof {
                let kept2 = kept.push(es[index as int]);
                assert(match skip {
                    None => es.take(index + 1),
                    Some(k) => drop_key(es.take(index + 1), k@),
                } == kept2);
                let k2 = kept2.len() as int;
                assert(kept2.drop_last() == kept);
                assert(canonical_entries(kept2, k2 - 1) == canonical_entries(kept, kept.len() as int)) by {
                    lemma_entries_prefix(kept2, kept, k2 - 1);
                }
                assert(kept2[k2 - 1] == es[index as int]);
                assert(es[index as int].0 == key@);
                assert(canonical_entries(kept2, k2) == canonical_entries(kept2, k2 - 1)
                    + (if k2 > 1 { ","@ } else { Seq::<char>::empty() }) + json_display(JsonModel::Str(kept2[k2 - 1].0)) + ":"@
                    + canonical_spec(kept2[k2 - 1].1));
                assert(out@ =~= start + "{"@ + canonical_entries(kept2, k2));
            }
            emitted = emitted + 1;
        } else {
            proof {
                let k = skip->Some_0;
                assert(drop_key(es.take(index + 1), k@) == kept);
            }
        }
        index = index + 1;
    }
    out.push('}');
    proof {
        assert(es.take(keys@.len() as int) =~= es);
    }
}

proof fn lemma_drop_key_len(es: Seq<(Seq<char>, JsonModel)>, key: Seq<char>)
    ensures
        drop_key(es, key).len() <= es.len(),
    decreases es.len(),
{
    if es.len() > 0 {
        lemma_drop_key_len(es.drop_last(), key);
    }
}

/// The canonical text of the first `k` entries depends on those entries
/// alone.
proof fn lemma_entries_prefix(a: Seq<(Seq<char>, JsonModel)>, b: Seq<(Seq<char>, JsonModel)>, k: int)
    requires
        0 <= k <= b.len(),
        k <= a.len(),
        forall|i: int| 0 <= i < k ==> a[i] == b[i],
    ensures
        canonical_entries(a, k) == canonical_entries(b, k),
    decreases k,
{
    if k > 0 {
        lemma_entries_prefix(a, b, k - 1);
    }
}

} // verus!

verus! {

/// The value under `key`, if the entries hold one.
pub open spec fn lookup(es: Seq<(Seq<char>, JsonModel)>, key: Seq<char>) -> Option<JsonModel> {
    if exists|i: int| 0 <= i < es.len() && (#[trigger] es[i]).0 == key {
        Some(es[choose|i: int| 0 <= i < es.len() && (#[trigger] es[i]).0 == key].1)
    } else {
        None
    }
}

/// The bytes the content id is the hash of: the canonical text of the
/// document without its `sha256` entry.
pub open spec fn content_bytes(es: Seq<(Seq<char>, JsonModel)>) -> Seq<char> {
    canonical_spec(JsonModel::Obj(drop_key(es, "sha256"@)))
}

/// The content id check: the document is an object whose `sha256`
/// string is the SHA-256 of its content bytes.
pub open spec fn content_id_check(doc: JsonModel) -> Result<(), Seq<char>> {
    match doc {
        JsonModel::Obj(es) => match lookup(es, "sha256"@) {
            Some(JsonModel::Str(claimed)) => {
                let actual = sha256_hex(content_bytes(es));
                if actual == claimed {
                    Ok(())
                } else {
                    Err("content id mismatch: artifact claims "@ + claimed + ", canonical bytes hash to "@ + actual)
                }
            },
            _ => Err("artifact has no sha256 content id"@),
        },
        _ => Err("artifact root must be an object"@),
    }
}

/// `get` finds the one entry of an object with that key.
proof fn lemma_get_is_lookup(es: Seq<(Seq<char>, JsonModel)>, key: Seq<char>, i: int)
    requires
        keys_ascending(es),
        0 <= i < es.len(),
        es[i].0 == key,
    ensures
        lookup(es, key) == Some(es[i].1),
{
    let j = choose|j: int| 0 <= j < es.len() && (#[trigger] es[j]).0 == key;
    if j < i {
        assert(es[j].0 != es[i].0);
    } else if i < j {
        assert(es[i].0 != es[j].0);
    }
}

/// Verifies the artifact's content id: the SHA-256 of the canonical
/// bytes of the document without its `sha256` field.
fn verify_sha(document: &serde_json::Value) -> (r: Result<(), LoanwordError>)
    ensures
        match (r, content_id_check(json_model(*document))) {
            (Ok(()), Ok(())) => true,
            (Err(e), Err(m)) => e.0@ == m,
            _ => false,
        },
{
    let keys = match json_keys(document) {
        Some(k) => k,
        None => {
            return Err(LoanwordError("artifact root must be an object".to_owned()));
        },
    };
    let ghost es = json_model(*document)->Obj_0;
    let claimed = match json_get(document, "sha256") {
        Some(c) => {
            proof {
                let i = choose|i: int| 0 <= i < es.len() && (#[trigger] es[i]).0 == "sha256"@ && json_model(*c) == es[i].1;
                lemma_get_is_lookup(es, "sha256"@, i);
            }
            match json_str(c) {
                Some(s) => s,
                None => {
                    return Err(LoanwordError("artifact has no sha256 content id".to_owned()));
                },
            }
        },
        None => {
            return Err(LoanwordError("artifact has no sha256 content id".to_owned()));
        },
    };
    let mut bytes: Vec<char> = Vec::new();
    canonical_object(document, &keys, Some("sha256"), &mut bytes);
    let text = string_of(&bytes);
    let actual = sha256_text(text.as_str());
    if !crate::text::str_eq(actual.as_str(), claimed.as_str()) {
        let mut m = chars_of("content id mismatch: artifact claims ");
        push_str(&mut m, claimed.as_str());
        push_str(&mut m, ", canonical bytes hash to ");
        push_str(&mut m, actual.as_str());
        return Err(LoanwordError(string_of(&m)));
    }
    Ok(())
}

} // verus!

verus! {

proof fn lemma_drop_absent(es: Seq<(Seq<char>, JsonModel)>, key: Seq<char>)
    requires
        forall|i: int| 0 <= i < es.len() ==> (#[trigger] es[i]).0 != key,
    ensures
        drop_key(es, key) == es,
    decreases es.len(),
{
    if es.len() > 0 {
        lemma_drop_absent(es.drop_last(), key);
        assert(es.drop_last().push(es.last()) =~= es);
    }
}

proof fn lemma_drop_inserted(es: Seq<(Seq<char>, JsonModel)>, p: int, entry: (Seq<char>, JsonModel))
    requires
        0 <= p <= es.len(),
        forall|i: int| 0 <= i < es.len() ==> (#[trigger] es[i]).0 != entry.0,
    ensures
        drop_key(es.insert(p, entry), entry.0) == es,
    decreases es.len(),
{
    let es2 = es.insert(p, entry);
    if p == es.len() {
        assert(es2.drop_last() =~= es);
        lemma_drop_absent(es, entry.0);
    } else {
        assert(es2.drop_last() =~= es.drop_last().insert(p, entry));
        assert(es2.last() == es.last());
        lemma_drop_inserted(es.drop_last(), p, entry);
        assert(es.drop_last().push(es.last()) =~= es);
    }
}

/// Sealing verifies: an object that carries, under `sha256`, the SHA-256
/// of the canonical text of its other entries passes the content id
/// check, wherever the key order puts that entry.
pub proof fn law_sealed_document_verifies(es: Seq<(Seq<char>, JsonModel)>, p: int)
    requires
        0 <= p <= es.len(),
        forall|i: int| 0 <= i < es.len() ==> (#[trigger] es[i]).0 != "sha256"@,
        keys_ascending(es.insert(p, ("sha256"@, JsonModel::Str(sha256_hex(canonical_spec(JsonModel::Obj(es))))))),
    ensures
        content_id_check(JsonModel::Obj(es.insert(p, ("sha256"@, JsonModel::Str(sha256_hex(canonical_spec(JsonModel::Obj(es)))))))) == Ok::<(), Seq<char>>(()),
{
    let entry = ("sha256"@, JsonModel::Str(sha256_hex(canonical_spec(JsonModel::Obj(es)))));
    let es2 = es.insert(p, entry);
    lemma_drop_inserted(es, p, entry);
    assert(es2[p] == entry);
    lemma_get_is_lookup(es2, "sha256"@, p);
}

} // verus!
