//! Golden cases and the `// frk-case:` directive format. A case is a
//! directory holding `case.mlir` and `expected.out`; directives in the
//! source (`entry=`, `result=`, `runners=`) override the defaults.
//! Walking the corpus on disk is the caller's part; this module decides
//! what a case's source text says and how discovered cases are ordered.

use std::path::PathBuf;
use vstd::prelude::*;
use crate::text::{
    chars_of, debug_of, debug_text, find_char, slice_chars, string_of, trim, trim_bounds,
};

verus! {

#[verifier::external_type_specification]
#[verifier::external_body]
pub struct ExPathBuf(PathBuf);

#[verifier::external_type_specification]
#[verifier::external_body]
pub struct ExIoError(std::io::Error);

/// The result type an entry function returns. v0 supports exactly one.
#[derive(Clone, Copy, Debug, PartialEq, Eq)]
pub enum ResultKind {
    I64,
}

/// One golden case: a directory holding `case.mlir` + `expected.out`.
#[derive(Debug)]
pub struct Case {
    /// Root-relative name with `/` separators, e.g. `upstream/add_i64`.
    pub name: String,
    pub dir: PathBuf,
    pub source_path: PathBuf,
    pub expected_path: PathBuf,
    /// Entry function symbol (directive `entry=`, default `main`).
    pub entry: String,
    /// Entry result rendering (directive `result=`, default `i64`).
    pub result: ResultKind,
    /// Runner names this case applies to (directive `runners=a,b`);
    /// `None` means every runner.
    pub runners: Option<Vec<String>>,
}

/// The runner names of a `runners=` list, as text.
pub open spec fn names_of(v: Seq<String>) -> Seq<Seq<char>> {
    v.map_values(|s: String| s@)
}

impl Case {
    /// Whether the case's `runners=` directive admits `runner`.
    pub open spec fn spec_applies_to(&self, runner: Seq<char>) -> bool {
        match self.runners {
            None => true,
            Some(list) => names_of(list@).contains(runner),
        }
    }

    pub fn applies_to(&self, runner: &str) -> (r: bool)
        ensures
            r == self.spec_applies_to(runner@),
    {
        match &self.runners {
            None => true,
            Some(list) => {
                let wanted = runner.to_owned();
                let mut i: usize = 0;
                while i < list.len()
                    invariant
                        i <= list@.len(),
                        wanted@ == runner@,
                        self.spec_applies_to(runner@) == names_of(list@).contains(runner@),
                        forall|j: int| 0 <= j < i ==> list@[j]@ != runner@,
                    decreases list@.len() - i,
                {
                    if list[i] == wanted {
                        assert(list@[i as int]@ == runner@);
                        assert(names_of(list@)[i as int] == runner@);
                        assert(names_of(list@).contains(runner@));
                        return true;
                    }
                    i = i + 1;
                }
                assert(!names_of(list@).contains(runner@)) by {
                    if names_of(list@).contains(runner@) {
                        let j = choose|j: int| 0 <= j < names_of(list@).len() && names_of(list@)[j] == runner@;
                        assert(list@[j]@ == runner@);
                    }
                }
                false
            },
        }
    }
}

#[derive(Debug)]
pub enum CaseError {
    Io(PathBuf, std::io::Error),
    Directive { case: PathBuf, message: String },
    EmptyCorpus(PathBuf),
    /// Every case's `runners=` directive excluded this runner — almost
    /// certainly a typo'd runner name, never a green suite.
    NothingApplies { root: PathBuf, runner: String },
}

/// What a case's directives set.
#[derive(Debug)]
pub struct Directives {
    pub entry: String,
    pub result: ResultKind,
    pub runners: Option<Vec<String>>,
}

/// The directive settings as text.
pub struct DirectiveState {
    pub entry: Seq<char>,
    pub result: ResultKind,
    pub runners: Option<Seq<Seq<char>>>,
}

impl Directives {
    pub open spec fn state(&self) -> DirectiveState {
        DirectiveState {
            entry: self.entry@,
            result: self.result,
            runners: match self.runners {
                None => None,
                Some(v) => Some(names_of(v@)),
            },
        }
    }
}

/// The defaults before any directive: entry `main`, result `i64`, every
/// runner.
pub open spec fn default_directives() -> DirectiveState {
    DirectiveState { entry: "main"@, result: ResultKind::I64, runners: None }
}

/// Index of the first LF at or after `i`, or the length.
pub open spec fn next_newline(c: Seq<char>, i: int) -> int
    decreases c.len() - i,
{
    if i < 0 || i >= c.len() || c[i] == '\n' {
        i
    } else {
        next_newline(c, i + 1)
    }
}

pub proof fn lemma_next_newline(c: Seq<char>, i: int)
    requires
        0 <= i <= c.len(),
    ensures
        i <= next_newline(c, i) <= c.len(),
        forall|j: int| i <= j < next_newline(c, i) ==> #[trigger] c[j] != '\n',
        next_newline(c, i) < c.len() ==> c[next_newline(c, i)] == '\n',
    decreases c.len() - i,
{
    if i < c.len() && c[i] != '\n' {
        lemma_next_newline(c, i + 1);
    }
}

/// The line starting at `i`, as `str::lines` yields it: up to the next
/// LF, without the LF and without a CR just before that LF.
pub open spec fn line_at(c: Seq<char>, i: int) -> Seq<char> {
    let k = next_newline(c, i);
    let raw = c.subrange(i, k);
    if k < c.len() && raw.len() > 0 && raw.last() == '\r' {
        raw.drop_last()
    } else {
        raw
    }
}

/// The directive a line carries, if any: the text after the
/// `// frk-case:` marker of the trimmed line, itself trimmed.
pub open spec fn directive_of(line: Seq<char>) -> Option<Seq<char>> {
    let t = trim(line);
    let p = "// frk-case:"@;
    if t.len() >= p.len() && t.subrange(0, p.len() as int) == p {
        Some(trim(t.subrange(p.len() as int, t.len() as int)))
    } else {
        None
    }
}

/// The pieces of `s` between the separators `sep`, from index `i` on.
pub open spec fn split_from(s: Seq<char>, i: int, sep: char) -> Seq<Seq<char>>
    decreases s.len() - i,
{
    if i < 0 || i > s.len() {
        Seq::empty()
    } else {
        let k = first_index_from(s, i, sep);
        if k < s.len() {
            proof {
                lemma_first_index(s, i, sep);
            }
            seq![s.subrange(i, k)] + split_from(s, k + 1, sep)
        } else {
            seq![s.subrange(i, s.len() as int)]
        }
    }
}

/// Index of the first `sep` at or after `i`, or the length.
pub open spec fn first_index_from(s: Seq<char>, i: int, sep: char) -> int
    decreases s.len() - i,
{
    if i < 0 || i >= s.len() || s[i] == sep {
        i
    } else {
        first_index_from(s, i + 1, sep)
    }
}

pub proof fn lemma_first_index(s: Seq<char>, i: int, sep: char)
    requires
        0 <= i <= s.len(),
    ensures
        i <= first_index_from(s, i, sep) <= s.len(),
        forall|j: int| i <= j < first_index_from(s, i, sep) ==> #[trigger] s[j] != sep,
        first_index_from(s, i, sep) < s.len() ==> s[first_index_from(s, i, sep)] == sep,
    decreases s.len() - i,
{
    if i < s.len() && s[i] != sep {
        lemma_first_index(s, i + 1, sep);
    }
}

/// The names of a `runners=` list: its comma-separated pieces, trimmed.
pub open spec fn runner_list(value: Seq<char>) -> Seq<Seq<char>> {
    split_from(value, 0, ',').map_values(|p: Seq<char>| trim(p))
}

/// Applies one directive's text to the settings so far.
pub open spec fn apply_directive(st: DirectiveState, d: Seq<char>) -> Result<DirectiveState, Seq<char>> {
    let k = first_index_from(d, 0, '=');
    if k >= d.len() {
        Err("expected key=value, got "@ + debug_text(d))
    } else {
        let key = trim(d.subrange(0, k));
        let value = trim(d.subrange(k + 1, d.len() as int));
        if key == "entry"@ && value.len() > 0 {
            Ok(DirectiveState { entry: value, ..st })
        } else if key == "result"@ && value == "i64"@ {
            Ok(DirectiveState { result: ResultKind::I64, ..st })
        } else if key == "result"@ {
            Err("unsupported result type "@ + debug_text(value) + " (v0: i64)"@)
        } else if key == "runners"@ {
            let names = runner_list(value);
            if names.len() == 0 || exists|j: int| 0 <= j < names.len() && names[j].len() == 0 {
                Err("runners needs a comma-separated list, got "@ + debug_text(value))
            } else {
                Ok(DirectiveState { runners: Some(names), ..st })
            }
        } else {
            Err("unknown key "@ + debug_text(key) + " (known: entry, result, runners)"@)
        }
    }
}

/// The settings the lines of `c` from index `i` on produce, starting
/// from `st`; the first bad directive's message otherwise.
pub open spec fn directives_from(c: Seq<char>, i: int, st: DirectiveState) -> Result<DirectiveState, Seq<char>>
    decreases c.len() - i,
{
    if i < 0 || i >= c.len() {
        Ok(st)
    } else {
        proof {
            lemma_next_newline(c, i);
        }
        let k = next_newline(c, i);
        let st2 = match directive_of(line_at(c, i)) {
            None => Ok(st),
            Some(d) => apply_directive(st, d),
        };
        match st2 {
            Ok(st2) => if k < c.len() {
                directives_from(c, k + 1, st2)
            } else {
                Ok(st2)
            },
            Err(m) => Err(m),
        }
    }
}

/// What the directives of a case source set.
pub open spec fn directives_spec(source: Seq<char>) -> Result<DirectiveState, Seq<char>> {
    directives_from(source, 0, default_directives())
}

} // verus!

verus! {

fn string_of_range(chars: &Vec<char>, s: usize, e: usize) -> (r: String)
    requires
        s <= e <= chars@.len(),
    ensures
        r@ == chars@.subrange(s as int, e as int),
{
    let v = slice_chars(chars, s, e);
    string_of(&v)
}

fn debug_range(chars: &Vec<char>, s: usize, e: usize) -> (r: String)
    requires
        s <= e <= chars@.len(),
    ensures
        r@ == debug_text(chars@.subrange(s as int, e as int)),
{
    let text = string_of_range(chars, s, e);
    debug_of(text.as_str())
}

/// The trimmed, comma-separated names of `value[s..e]`; `None` when a
/// name is empty.
fn runner_names(chars: &Vec<char>, s: usize, e: usize) -> (r: Option<Vec<String>>)
    requires
        s <= e <= chars@.len(),
    ensures
        ({
            let names = runner_list(chars@.subrange(s as int, e as int));
            match r {
                Some(v) => names_of(v@) == names && names.len() > 0
                    && forall|j: int| 0 <= j < names.len() ==> names[j].len() > 0,
                None => names.len() == 0 || exists|j: int| 0 <= j < names.len() && names[j].len() == 0,
            }
        }),
{
    let ghost value = chars@.subrange(s as int, e as int);
    let ghost all = split_from(value, 0, ',');
    let mut names: Vec<String> = Vec::new();
    let mut ok = true;
    let mut i = s;
    let mut done = false;
    let ghost mut pieces: Seq<Seq<char>> = Seq::empty();
    proof {
        assert(all == pieces + split_from(value, (i - s) as int, ','));
    }
    while !done
        invariant
            s <= i <= e <= chars@.len(),
            value == chars@.subrange(s as int, e as int),
            all == split_from(value, 0, ','),
            done ==> all == pieces,
            !done ==> all == pieces + split_from(value, (i - s) as int, ','),
            ok ==> names_of(names@) == pieces.map_values(|p: Seq<char>| trim(p)),
            ok == forall|j: int| 0 <= j < pieces.len() ==> trim(#[trigger] pieces[j]).len() > 0,
            !done ==> i - s <= value.len(),
        decreases e - i + (if done { 0int } else { 1int }),
    {
        proof {
            lemma_first_index(value, (i - s) as int, ',');
        }
        let found = find_char(chars, i, e, ',');
        let k = match found {
            Some(k) => k,
            None => e,
        };
        assert(value.subrange((i - s) as int, (k - s) as int) == chars@.subrange(i as int, k as int));
        assert(first_index_from(value, (i - s) as int, ',') == k - s) by {
            assert forall|j: int| (i - s) <= j < (k - s) implies #[trigger] value[j] != ',' by {
                assert(value[j] == chars@[s + j]);
            }
            lemma_first_index_exact(value, (i - s) as int, (k - s) as int, ',');
        }
        let (ts, te) = trim_bounds(chars, i, k);
        let ghost piece = chars@.subrange(i as int, k as int);
        if te == ts {
            ok = false;
        }
        let ghost old_names = names@;
        let ghost was_ok = ok;
        if ok {
            names.push(string_of_range(chars, ts, te));
        }
        proof {
            let old_pieces = pieces;
            pieces = pieces.push(piece);
            assert(trim(pieces[pieces.len() - 1]) == chars@.subrange(ts as int, te as int));
            if ok {
                assert(names_of(names@) =~= names_of(old_names).push(chars@.subrange(ts as int, te as int)));
                assert(pieces.map_values(|p: Seq<char>| trim(p)) =~= old_pieces.map_values(|p: Seq<char>| trim(p)).push(trim(piece)));
            }
            assert forall|j: int| 0 <= j < old_pieces.len() implies pieces[j] == old_pieces[j] by {}
            if was_ok && !ok {
                assert(!(trim(pieces[pieces.len() - 1]).len() > 0));
            }
        }
        match found {
            Some(k) => {
                i = k + 1;
            },
            None => {
                done = true;
            },
        }
    }
    let ghost listed = runner_list(value);
    assert(listed =~= all.map_values(|p: Seq<char>| trim(p)));
    assert(all.len() > 0) by {
        lemma_split_nonempty(value, 0, ',');
    }
    if ok {
        Some(names)
    } else {
        assert(exists|j: int| 0 <= j < listed.len() && listed[j].len() == 0) by {
            let j = choose|j: int| 0 <= j < pieces.len() && !(trim(#[trigger] pieces[j]).len() > 0);
            assert(listed[j] == trim(pieces[j]));
        }
        None
    }
}

proof fn lemma_first_index_exact(s: Seq<char>, i: int, k: int, sep: char)
    requires
        0 <= i <= k <= s.len(),
        forall|j: int| i <= j < k ==> #[trigger] s[j] != sep,
        k < s.len() ==> s[k] == sep,
    ensures
        first_index_from(s, i, sep) == k,
    decreases k - i,
{
    if i < k {
        lemma_first_index_exact(s, i + 1, k, sep);
    }
}

proof fn lemma_split_nonempty(s: Seq<char>, i: int, sep: char)
    requires
        0 <= i <= s.len(),
    ensures
        split_from(s, i, sep).len() > 0,
{
    lemma_first_index(s, i, sep);
}

} // verus!

verus! {

fn apply_directive_text(st: &mut Directives, chars: &Vec<char>, s: usize, e: usize) -> (r: Result<(), String>)
    requires
        s <= e <= chars@.len(),
    ensures
        match (r, apply_directive(old(st).state(), chars@.subrange(s as int, e as int))) {
            (Ok(()), Ok(x)) => final(st).state() == x,
            (Err(m), Err(x)) => m@ == x,
            _ => false,
        },
{
    let ghost d = chars@.subrange(s as int, e as int);
    proof {
        lemma_first_index(d, 0, '=');
    }
    let found = find_char(chars, s, e, '=');
    let k = match found {
        None => {
            assert(first_index_from(d, 0, '=') == d.len()) by {
                assert forall|j: int| 0 <= j < d.len() implies #[trigger] d[j] != '=' by {
                    assert(d[j] == chars@[s + j]);
                }
                lemma_first_index_exact(d, 0, d.len() as int, '=');
            }
            let shown = debug_range(chars, s, e);
            return Err(crate::text::join2("expected key=value, got ", shown.as_str()));
        },
        Some(k) => k,
    };
    assert(first_index_from(d, 0, '=') == k - s) by {
        assert forall|j: int| 0 <= j < k - s implies #[trigger] d[j] != '=' by {
            assert(d[j] == chars@[s + j]);
        }
        lemma_first_index_exact(d, 0, (k - s) as int, '=');
    }
    assert(d.subrange(0, (k - s) as int) == chars@.subrange(s as int, k as int));
    assert(d.subrange((k - s) + 1, d.len() as int) == chars@.subrange(k + 1, e as int));
    let (ks, ke) = trim_bounds(chars, s, k);
    let (vs, ve) = trim_bounds(chars, k + 1, e);
    if range_is_lit(chars, ks, ke, "entry") && ve > vs {
        st.entry = string_of_range(chars, vs, ve);
        Ok(())
    } else if range_is_lit(chars, ks, ke, "result") && range_is_lit(chars, vs, ve, "i64") {
        st.result = ResultKind::I64;
        Ok(())
    } else if range_is_lit(chars, ks, ke, "result") {
        let shown = debug_range(chars, vs, ve);
        Err(crate::text::join3("unsupported result type ", shown.as_str(), " (v0: i64)"))
    } else if range_is_lit(chars, ks, ke, "runners") {
        match runner_names(chars, vs, ve) {
            Some(names) => {
                st.runners = Some(names);
                Ok(())
            },
            None => {
                let shown = debug_range(chars, vs, ve);
                Err(crate::text::join2("runners needs a comma-separated list, got ", shown.as_str()))
            },
        }
    } else {
        let shown = debug_range(chars, ks, ke);
        Err(crate::text::join3("unknown key ", shown.as_str(), " (known: entry, result, runners)"))
    }
}

fn range_is_lit(chars: &Vec<char>, s: usize, e: usize, lit: &str) -> (r: bool)
    requires
        s <= e <= chars@.len(),
    ensures
        r == (chars@.subrange(s as int, e as int) == lit@),
{
    crate::text::range_is(chars, s, e, lit)
}

/// Reads the `// frk-case:` directives of a case source: the entry
/// symbol, the result rendering and the runner list, or the message of
/// the first bad directive.
pub fn parse_directives(source: &str) -> (r: Result<Directives, String>)
    ensures
        match (r, directives_spec(source@)) {
            (Ok(d), Ok(st)) => d.state() == st,
            (Err(m), Err(x)) => m@ == x,
            _ => false,
        },
{
    let chars = chars_of(source);
    let ghost c = chars@;
    let n = chars.len();
    let prefix = chars_of("// frk-case:");
    let plen = prefix.len();
    let mut st = Directives { entry: "main".to_owned(), result: ResultKind::I64, runners: None };
    let mut i: usize = 0;
    while i < n
        invariant
            i <= n,
            n == c.len(),
            c == chars@,
            c == source@,
            prefix@ == "// frk-case:"@,
            plen == prefix@.len(),
            directives_spec(source@) == directives_from(c, i as int, st.state()),
        decreases n - i,
    {
        proof {
            lemma_next_newline(c, i as int);
        }
        let k = match find_char(&chars, i, n, '\n') {
            Some(k) => k,
            None => n,
        };
        assert(next_newline(c, i as int) == k) by {
            lemma_next_newline_exact(c, i as int, k as int);
        }
        let le = if k < n && k > i && chars[k - 1] == '\r' { k - 1 } else { k };
        assert(line_at(c, i as int) == c.subrange(i as int, le as int));
        let (ts, te) = trim_bounds(&chars, i, le);
        let is_directive = te - ts >= plen && range_is_lit(&chars, ts, ts + plen, "// frk-case:");
        let ghost t = c.subrange(ts as int, te as int);
        if is_directive {
            assert(t.subrange(0, plen as int) == c.subrange(ts as int, ts + plen));
            let (ds, de) = trim_bounds(&chars, ts + plen, te);
            assert(t.subrange(plen as int, t.len() as int) == c.subrange(ts + plen, te as int));
            assert(directive_of(line_at(c, i as int)) == Some(c.subrange(ds as int, de as int)));
            match apply_directive_text(&mut st, &chars, ds, de) {
                Ok(()) => {},
                Err(m) => {
                    return Err(m);
                },
            }
        } else {
            assert(directive_of(line_at(c, i as int)) is None) by {
                if t.len() >= plen {
                    assert(t.subrange(0, plen as int) == c.subrange(ts as int, ts + plen));
                }
            }
        }
        i = if k < n { k + 1 } else { n };
    }
    Ok(st)
}

proof fn lemma_next_newline_exact(c: Seq<char>, i: int, k: int)
    requires
        0 <= i <= k <= c.len(),
        forall|j: int| i <= j < k ==> c[j] != '\n',
        k < c.len() ==> c[k] == '\n',
    ensures
        next_newline(c, i) == k,
    decreases k - i,
{
    if i < k {
        lemma_next_newline_exact(c, i + 1, k);
    }
}

} // verus!

verus! {

/// Cases in order of name.
pub open spec fn sorted_by_name(v: Seq<Case>) -> bool {
    forall|i: int, j: int| 0 <= i < j < v.len() ==> crate::text::lex_le(v[i].name@, v[j].name@)
}

/// No two cases share a name.
pub open spec fn distinct_case_names(v: Seq<Case>) -> bool {
    forall|i: int, j: int| 0 <= i < j < v.len() ==> (#[trigger] v[i]).name@ != (#[trigger] v[j]).name@
}

/// Finishes discovery over the cases found under `root`: sorted by name
/// so reports and diffs are deterministic; zero cases is an error, never
/// a vacuous green. One case per directory gives distinct names, which
/// then ascend strictly.
pub fn discover(root: PathBuf, found: Vec<Case>) -> (r: Result<Vec<Case>, CaseError>)
    ensures
        found@.len() == 0 ==> (r matches Err(CaseError::EmptyCorpus(p)) && p == root),
        found@.len() > 0 ==> (r matches Ok(v) && v@.to_multiset() == found@.to_multiset()
            && sorted_by_name(v@) && (distinct_case_names(found@) ==> distinct_case_names(v@))),
{
    broadcast use vstd::seq_lib::group_to_multiset_ensures;
    if found.len() == 0 {
        return Err(CaseError::EmptyCorpus(root));
    }
    let ghost original = found@;
    let mut rest = found;
    let mut sorted: Vec<Case> = Vec::new();
    while rest.len() > 0
        invariant
            rest@.to_multiset().add(sorted@.to_multiset()) == original.to_multiset(),
            sorted_by_name(sorted@),
            distinct_case_names(original) ==> distinct_case_names(sorted@),
            rest@ == original.take(rest@.len() as int),
            rest@.len() <= original.len(),
            forall|i: int| 0 <= i < sorted@.len() ==> exists|k: int|
                rest@.len() <= k < original.len() && (#[trigger] sorted@[i]).name@ == #[trigger] original[k].name@,
        decreases rest@.len(),
    {
        let ghost before_rest = rest@;
        let item = rest.pop().unwrap();
        assert(before_rest == rest@.push(item));
        assert(rest@ == original.take(rest@.len() as int));
        assert(item == original[rest@.len() as int]);
        proof {
            if distinct_case_names(original) {
                assert forall|i: int| 0 <= i < sorted@.len() implies (#[trigger] sorted@[i]).name@ != item.name@ by {
                    let k = choose|k: int| before_rest.len() <= k < original.len() && sorted@[i].name@ == #[trigger] original[k].name@;
                    assert(original[rest@.len() as int].name@ != original[k].name@);
                }
            }
        }
        let mut p: usize = 0;
        while p < sorted.len() && !crate::text::text_le(item.name.as_str(), sorted[p].name.as_str())
            invariant
                p <= sorted@.len(),
                forall|i: int| 0 <= i < p ==> !crate::text::lex_le(item.name@, #[trigger] sorted@[i].name@),
            decreases sorted@.len() - p,
        {
            p = p + 1;
        }
        let ghost before = sorted@;
        let ghost it = item;
        proof {
            let s = before.insert(p as int, item);
            assert forall|i: int, j: int| 0 <= i < j < s.len() implies
                crate::text::lex_le(#[trigger] s[i].name@, #[trigger] s[j].name@) by {
                if i < p && j == p {
                    crate::text::lemma_lex_total(item.name@, before[i].name@);
                } else if i == p && j > p {
                    if j - 1 > p {
                        assert(crate::text::lex_le(before[p as int].name@, before[j - 1].name@));
                        crate::text::lemma_lex_trans(item.name@, before[p as int].name@, before[j - 1].name@);
                    }
                } else if i < p && j > p {
                    assert(s[i] == before[i] && s[j] == before[j - 1]);
                } else if j < p {
                    assert(s[i] == before[i] && s[j] == before[j]);
                } else {
                    assert(s[i] == before[i - 1] && s[j] == before[j - 1]);
                }
            }
        }
        sorted.insert(p, item);
        proof {
            if distinct_case_names(original) {
            assert forall|i: int, j: int| 0 <= i < j < sorted@.len() implies
                (#[trigger] sorted@[i]).name@ != (#[trigger] sorted@[j]).name@ by {
                if i == p {
                    assert(sorted@[j] == before[j - 1]);
                } else if j == p {
                    assert(sorted@[i] == before[i]);
                } else if j < p {
                    assert(sorted@[i] == before[i] && sorted@[j] == before[j]);
                } else if i < p {
                    assert(sorted@[i] == before[i] && sorted@[j] == before[j - 1]);
                } else {
                    assert(sorted@[i] == before[i - 1] && sorted@[j] == before[j - 1]);
                }
            }
            }
            assert forall|i: int| 0 <= i < sorted@.len() implies exists|k: int|
                rest@.len() <= k < original.len() && (#[trigger] sorted@[i]).name@ == #[trigger] original[k].name@ by {
                if i == p {
                    assert(sorted@[i].name@ == original[rest@.len() as int].name@);
                } else if i < p {
                    assert(sorted@[i] == before[i]);
                } else {
                    assert(sorted@[i] == before[i - 1]);
                }
            }
            vstd::seq_lib::to_multiset_build(rest@, it);
            vstd::seq_lib::to_multiset_insert(before, p as int, it);
            assert(sorted@ == before.insert(p as int, it));
            assert(rest@.to_multiset().add(sorted@.to_multiset()) =~= original.to_multiset());
        }
    }
    assert(rest@ == Seq::<Case>::empty());
    assert(rest@.to_multiset().add(sorted@.to_multiset()) =~= sorted@.to_multiset());
    Ok(sorted)
}

} // verus!

verus! {

/// Builds the case whose directory `dir` holds `source_path` (read as
/// `source`) and `expected_path`, named `name` relative to the corpus
/// root. A bad directive is reported against the source file.
pub fn load(name: String, dir: PathBuf, source_path: PathBuf, expected_path: PathBuf, source: &str) -> (r: Result<Case, CaseError>)
    ensures
        match (r, directives_spec(source@)) {
            (Ok(c), Ok(st)) => c.name == name && c.dir == dir && c.source_path == source_path
                && c.expected_path == expected_path && c.entry@ == st.entry && c.result == st.result
                && match (c.runners, st.runners) {
                    (None, None) => true,
                    (Some(v), Some(w)) => names_of(v@) == w,
                    _ => false,
                },
            (Err(CaseError::Directive { case, message }), Err(m)) => case == source_path && message@ == m,
            _ => false,
        },
{
    match parse_directives(source) {
        Ok(d) => Ok(Case {
            name,
            dir,
            source_path,
            expected_path,
            entry: d.entry,
            result: d.result,
            runners: d.runners,
        }),
        Err(message) => Err(CaseError::Directive { case: source_path, message }),
    }
}

} // verus!

verus! {

/// `parts` joined by `/`.
pub open spec fn slash_joined(parts: Seq<Seq<char>>) -> Seq<char>
    decreases parts.len(),
{
    if parts.len() == 0 {
        Seq::empty()
    } else if parts.len() == 1 {
        parts[0]
    } else {
        slash_joined(parts.drop_last()) + "/"@ + parts.last()
    }
}

/// The name of the case whose directory is reached from the corpus root
/// through the directories `parts`: their names joined by `/`.
pub fn case_name(parts: &Vec<String>) -> (s: String)
    ensures
        s@ == slash_joined(parts@.map_values(|p: String| p@)),
{
    let ghost ps = parts@.map_values(|p: String| p@);
    let mut text: Vec<char> = Vec::new();
    let mut k: usize = 0;
    while k < parts.len()
        invariant
            k <= parts@.len(),
            ps == parts@.map_values(|p: String| p@),
            text@ == slash_joined(ps.take(k as int)),
        decreases parts@.len() - k,
    {
        if k > 0 {
            crate::text::push_str(&mut text, "/");
        }
        crate::text::push_str(&mut text, parts[k].as_str());
        proof {
            assert(ps.take(k + 1).drop_last() =~= ps.take(k as int));
            assert(ps.take(k + 1).last() == parts@[k as int]@);
            if k == 0 {
                assert(ps.take(1) =~= seq![parts@[0]@]);
            }
        }
        k = k + 1;
    }
    assert(ps.take(parts@.len() as int) =~= ps);
    crate::text::string_of(&text)
}

} // verus!
