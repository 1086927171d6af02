//! The scheme reader: source text to `Datum` trees. Lexical surface:
//! parens, symbols, decimal integers (optional leading `-`), booleans
//! `#t`/`#f`, `;` line comments, `'d` as sugar for `(quote d)`, and
//! datum spans as byte offsets into the UTF-8 source.

use vstd::prelude::*;
use crate::text::{byte_offset, chars_of, chars_with_offsets, string_of};
use crate::harness::canon::{decimal, decimal_chars};

verus! {

/// A byte range `[start, end)` of the source.
#[derive(Clone, Copy, Debug, PartialEq, Eq)]
pub struct Span {
    pub start: usize,
    pub end: usize,
}

#[derive(Debug, PartialEq)]
pub enum Datum {
    /// A symbol (identifier or operator name).
    Symbol(String, Span),
    /// A fixnum literal.
    Int(i64, Span),
    /// `#t` / `#f`.
    Bool(bool, Span),
    /// A proper list `( d… )`.
    List(Vec<Datum>, Span),
}

/// The mathematical shape of a datum: symbol text as characters, list
/// items as a sequence, spans as byte offsets.
pub enum DatumModel {
    Symbol(Seq<char>, int, int),
    Int(int, int, int),
    Bool(bool, int, int),
    List(Seq<DatumModel>, int, int),
}

impl DatumModel {
    pub open spec fn start(self) -> int {
        match self {
            DatumModel::Symbol(_, s, _) => s,
            DatumModel::Int(_, s, _) => s,
            DatumModel::Bool(_, s, _) => s,
            DatumModel::List(_, s, _) => s,
        }
    }

    pub open spec fn end(self) -> int {
        match self {
            DatumModel::Symbol(_, _, e) => e,
            DatumModel::Int(_, _, e) => e,
            DatumModel::Bool(_, _, e) => e,
            DatumModel::List(_, _, e) => e,
        }
    }
}

pub open spec fn datum_model(d: Datum) -> DatumModel
    decreases d,
{
    match d {
        Datum::Symbol(s, sp) => DatumModel::Symbol(s@, sp.start as int, sp.end as int),
        Datum::Int(v, sp) => DatumModel::Int(v as int, sp.start as int, sp.end as int),
        Datum::Bool(b, sp) => DatumModel::Bool(b, sp.start as int, sp.end as int),
        Datum::List(items, sp) => DatumModel::List(
            Seq::new(
                items@.len(),
                |i: int|
                    if 0 <= i < items@.len() {
                        datum_model(items@[i])
                    } else {
                        DatumModel::Int(0, 0, 0)
                    },
            ),
            sp.start as int,
            sp.end as int,
        ),
    }
}

impl View for Datum {
    type V = DatumModel;

    open spec fn view(&self) -> DatumModel {
        datum_model(*self)
    }
}

impl Datum {
    pub fn span(&self) -> (s: Span)
        ensures
            s.start == self@.start(),
            s.end == self@.end(),
    {
        match self {
            Datum::Symbol(_, s) => *s,
            Datum::Int(_, s) => *s,
            Datum::Bool(_, s) => *s,
            Datum::List(_, s) => *s,
        }
    }
}

} // verus!

verus! {

/// ASCII whitespace as Rust's `u8::is_ascii_whitespace` defines it.
pub open spec fn is_ws(c: char) -> bool {
    c == ' ' || c == '\t' || c == '\n' || c == '\x0C' || c == '\r'
}

/// Characters that end an atom.
pub open spec fn is_delimiter(c: char) -> bool {
    is_ws(c) || c == '(' || c == ')' || c == ';' || c == '\''
}

/// One token, positioned by character index into the source.
#[derive(Clone, Copy, Debug, PartialEq, Eq)]
pub enum Tok {
    Open(usize),
    Close(usize),
    Quote(usize),
    /// The characters `[start, end)`.
    Atom(usize, usize),
}

/// Where an atom starting before `k` ends: the first delimiter at or
/// after `k`, or the end of the text.
pub open spec fn atom_end(c: Seq<char>, k: int) -> int
    decreases c.len() - k,
{
    if k >= c.len() || k < 0 || is_delimiter(c[k]) {
        k
    } else {
        atom_end(c, k + 1)
    }
}

/// Where a `;` comment containing position `k` ends: the next LF at or
/// after `k`, or the end of the text.
pub open spec fn comment_end(c: Seq<char>, k: int) -> int
    decreases c.len() - k,
{
    if k >= c.len() || k < 0 || c[k] == '\n' {
        k
    } else {
        comment_end(c, k + 1)
    }
}

pub proof fn lemma_atom_end(c: Seq<char>, k: int)
    requires
        0 <= k <= c.len(),
    ensures
        k <= atom_end(c, k) <= c.len(),
        forall|j: int| k <= j < atom_end(c, k) ==> !is_delimiter(#[trigger] c[j]),
        atom_end(c, k) < c.len() ==> is_delimiter(c[atom_end(c, k)]),
    decreases c.len() - k,
{
    if k < c.len() && !is_delimiter(c[k]) {
        lemma_atom_end(c, k + 1);
    }
}

pub proof fn lemma_comment_end(c: Seq<char>, k: int)
    requires
        0 <= k <= c.len(),
    ensures
        k <= comment_end(c, k) <= c.len(),
        forall|j: int| k <= j < comment_end(c, k) ==> #[trigger] c[j] != '\n',
        comment_end(c, k) < c.len() ==> c[comment_end(c, k)] == '\n',
    decreases c.len() - k,
{
    if k < c.len() && c[k] != '\n' {
        lemma_comment_end(c, k + 1);
    }
}

/// The tokens of `c` from character `k` on.
pub open spec fn tokens_from(c: Seq<char>, k: int) -> Seq<Tok>
    decreases c.len() - k,
{
    if k >= c.len() || k < 0 {
        Seq::empty()
    } else if is_ws(c[k]) {
        tokens_from(c, k + 1)
    } else if c[k] == ';' {
        proof {
            lemma_comment_end(c, k + 1);
        }
        tokens_from(c, comment_end(c, k + 1))
    } else if c[k] == '\'' {
        seq![Tok::Quote(k as usize)] + tokens_from(c, k + 1)
    } else if c[k] == '(' {
        seq![Tok::Open(k as usize)] + tokens_from(c, k + 1)
    } else if c[k] == ')' {
        seq![Tok::Close(k as usize)] + tokens_from(c, k + 1)
    } else {
        proof {
            lemma_atom_end(c, k + 1);
        }
        seq![Tok::Atom(k as usize, atom_end(c, k + 1) as usize)] + tokens_from(c, atom_end(c, k + 1))
    }
}

fn is_ws_char(c: char) -> (b: bool)
    ensures
        b == is_ws(c),
{
    c == ' ' || c == '\t' || c == '\n' || c == '\x0C' || c == '\r'
}

fn is_delimiter_char(c: char) -> (b: bool)
    ensures
        b == is_delimiter(c),
{
    is_ws_char(c) || c == '(' || c == ')' || c == ';' || c == '\''
}

fn tokenize(chars: &Vec<char>) -> (toks: Vec<Tok>)
    ensures
        toks@ == tokens_from(chars@, 0),
        forall|j: int| 0 <= j < toks@.len() ==> tok_wf(#[trigger] toks@[j], chars@),
{
    let n = chars.len();
    let ghost c = chars@;
    let mut toks: Vec<Tok> = Vec::new();
    let mut i: usize = 0;
    while i < n
        invariant
            n == c.len(),
            c == chars@,
            i <= n,
            tokens_from(c, 0) == toks@ + tokens_from(c, i as int),
            forall|j: int| 0 <= j < toks@.len() ==> tok_wf(#[trigger] toks@[j], c),
        decreases n - i,
    {
        let ch = chars[i];
        if is_ws_char(ch) {
            i = i + 1;
        } else if ch == ';' {
            proof {
                lemma_comment_end(c, i + 1);
            }
            let ghost target = comment_end(c, i + 1);
            i = i + 1;
            while i < n && chars[i] != '\n'
                invariant
                    n == c.len(),
                    c == chars@,
                    i <= target <= n,
                    comment_end(c, i as int) == target,
                decreases n - i,
            {
                proof {
                    lemma_comment_end(c, i + 1);
                }
                i = i + 1;
            }
        } else if ch == '\'' || ch == '(' || ch == ')' {
            let t = if ch == '\'' {
                Tok::Quote(i)
            } else if ch == '(' {
                Tok::Open(i)
            } else {
                Tok::Close(i)
            };
            let ghost before = toks@;
            toks.push(t);
            assert(toks@ + tokens_from(c, i + 1) == before + (seq![t] + tokens_from(c, i + 1)));
            i = i + 1;
        } else {
            let start = i;
            proof {
                lemma_atom_end(c, i + 1);
            }
            let ghost target = atom_end(c, i + 1);
            i = i + 1;
            while i < n && !is_delimiter_char(chars[i])
                invariant
                    n == c.len(),
                    c == chars@,
                    start < i <= target <= n,
                    atom_end(c, i as int) == target,
                decreases n - i,
            {
                proof {
                    lemma_atom_end(c, i + 1);
                }
                i = i + 1;
            }
            let t = Tok::Atom(start, i);
            let ghost before = toks@;
            toks.push(t);
            assert(toks@ + tokens_from(c, i as int) == before + (seq![t] + tokens_from(c, i as int)));
        }
    }
    assert(toks@ + Seq::<Tok>::empty() == toks@);
    toks
}

/// A token's positions lie inside the text `c` and its punctuation
/// matches the character there.
pub open spec fn tok_wf(t: Tok, c: Seq<char>) -> bool {
    match t {
        Tok::Open(k) => k < c.len() && c[k as int] == '(',
        Tok::Close(k) => k < c.len() && c[k as int] == ')',
        Tok::Quote(k) => k < c.len() && c[k as int] == '\'',
        Tok::Atom(s, e) => s < e <= c.len(),
    }
}

} // verus!

verus! {

pub open spec fn is_digit(c: char) -> bool {
    '0' <= c <= '9'
}

pub open spec fn digit_value(c: char) -> int {
    (c as u32) as int - ('0' as u32) as int
}

/// The value of a run of decimal digits.
pub open spec fn digits_value(t: Seq<char>) -> int
    decreases t.len(),
{
    if t.len() == 0 {
        0
    } else {
        digits_value(t.drop_last()) * 10 + digit_value(t.last())
    }
}

/// A fixnum literal: an optional leading `-`, then one or more digits.
pub open spec fn is_fixnum_text(t: Seq<char>) -> bool {
    let body = fixnum_body(t);
    body.len() > 0 && forall|i: int| 0 <= i < body.len() ==> is_digit(#[trigger] body[i])
}

/// The digits of a fixnum literal, without its sign.
pub open spec fn fixnum_body(t: Seq<char>) -> Seq<char> {
    if t.len() > 0 && t[0] == '-' { t.skip(1) } else { t }
}

/// The integer a fixnum literal denotes.
pub open spec fn fixnum_value(t: Seq<char>) -> int {
    if t.len() > 0 && t[0] == '-' {
        -digits_value(fixnum_body(t))
    } else {
        digits_value(fixnum_body(t))
    }
}

pub open spec fn fits_i64(v: int) -> bool {
    i64::MIN <= v <= i64::MAX
}

proof fn lemma_digits_prefix_le(t: Seq<char>, k: int)
    requires
        0 <= k <= t.len(),
        forall|i: int| 0 <= i < t.len() ==> is_digit(#[trigger] t[i]),
    ensures
        0 <= digits_value(t.take(k)) <= digits_value(t),
    decreases t.len() - k,
{
    if k < t.len() {
        lemma_digits_prefix_le(t, k + 1);
        assert(t.take(k + 1).drop_last() == t.take(k));
        let d = t.take(k + 1).last();
        assert(is_digit(d));
    } else {
        assert(t.take(k) == t);
        lemma_digits_nonneg(t);
    }
}

proof fn lemma_digits_nonneg(t: Seq<char>)
    requires
        forall|i: int| 0 <= i < t.len() ==> is_digit(#[trigger] t[i]),
    ensures
        digits_value(t) >= 0,
    decreases t.len(),
{
    if t.len() > 0 {
        let p = t.drop_last();
        assert(forall|i: int| 0 <= i < p.len() ==> p[i] == t[i]);
        lemma_digits_nonneg(p);
        assert(is_digit(t[t.len() - 1]));
    }
}

/// Parses the fixnum text `chars[start..end]`; `None` when the value
/// does not fit in an `i64`.
fn parse_fixnum(chars: &Vec<char>, start: usize, end: usize) -> (r: Option<i64>)
    requires
        start < end <= chars@.len(),
        is_fixnum_text(chars@.subrange(start as int, end as int)),
    ensures
        match r {
            Some(v) => v as int == fixnum_value(chars@.subrange(start as int, end as int)),
            None => !fits_i64(fixnum_value(chars@.subrange(start as int, end as int))),
        },
{
    let ghost t = chars@.subrange(start as int, end as int);
    let negative = chars[start] == '-';
    let body_start = if negative { start + 1 } else { start };
    let ghost body = chars@.subrange(body_start as int, end as int);
    assert(body == fixnum_body(t));
    assert(forall|i: int| 0 <= i < body.len() ==> is_digit(#[trigger] body[i]));
    proof {
        lemma_digits_nonneg(body);
    }
    let mut magnitude: u64 = 0;
    let mut j = body_start;
    assert(chars@.subrange(body_start as int, body_start as int) == Seq::<char>::empty());
    while j < end
        invariant
            body_start <= j <= end,
            end <= chars@.len(),
            body == chars@.subrange(body_start as int, end as int),
            body == fixnum_body(t),
            t == chars@.subrange(start as int, end as int),
            t.len() > 0,
            negative == (t[0] == '-'),
            forall|i: int| 0 <= i < body.len() ==> is_digit(#[trigger] body[i]),
            magnitude as int == digits_value(chars@.subrange(body_start as int, j as int)),
        decreases end - j,
    {
        let ch = chars[j];
        assert(body[j - body_start] == ch);
        assert(is_digit(body[j - body_start]));
        let d = (ch as u32 - '0' as u32) as u64;
        assert(d as int == digit_value(ch));
        assert(chars@.subrange(body_start as int, j + 1).drop_last()
            == chars@.subrange(body_start as int, j as int));
        assert(chars@.subrange(body_start as int, j + 1) == body.take(j + 1 - body_start));
        assert(digits_value(chars@.subrange(body_start as int, j + 1))
            == magnitude as int * 10 + d as int);
        proof {
            lemma_digits_prefix_le(body, j + 1 - body_start);
        }
        match magnitude.checked_mul(10) {
            Some(m) => match m.checked_add(d) {
                Some(next) => {
                    magnitude = next;
                },
                None => {
                    return None;
                },
            },
            None => {
                return None;
            },
        }
        j = j + 1;
    }
    assert(chars@.subrange(body_start as int, end as int) == body);
    if negative {
        if magnitude <= 0x8000_0000_0000_0000u64 {
            Some((0i128 - magnitude as i128) as i64)
        } else {
            None
        }
    } else {
        if magnitude <= 0x7fff_ffff_ffff_ffffu64 {
            Some(magnitude as i64)
        } else {
            None
        }
    }
}

} // verus!

verus! {

/// Why a read failed.
#[derive(Clone, Copy, Debug, PartialEq, Eq)]
pub enum ReadFailure {
    /// A `'` with no datum after it.
    EndOfInput,
    /// A `(` with no matching `)`.
    Unterminated,
    /// A `)` with no open list, at this byte offset.
    UnexpectedClose(usize),
    /// The fixnum literal in characters `[start, end)` does not fit an
    /// `i64`.
    IntRange(usize, usize),
}

/// The datum an atom token denotes.
pub open spec fn atom_model(c: Seq<char>, s: int, e: int) -> Result<DatumModel, ReadFailure> {
    let t = c.subrange(s, e);
    let bs = byte_offset(c, s) as int;
    let be = byte_offset(c, e) as int;
    if t == seq!['#', 't'] {
        Ok(DatumModel::Bool(true, bs, be))
    } else if t == seq!['#', 'f'] {
        Ok(DatumModel::Bool(false, bs, be))
    } else if is_fixnum_text(t) {
        if fits_i64(fixnum_value(t)) {
            Ok(DatumModel::Int(fixnum_value(t), bs, be))
        } else {
            Err(ReadFailure::IntRange(s as usize, e as usize))
        }
    } else {
        Ok(DatumModel::Symbol(t, bs, be))
    }
}

/// Reads one datum starting at token `p`: the datum and the index of
/// the first token after it.
pub open spec fn read_datum_spec(c: Seq<char>, t: Seq<Tok>, p: int) -> Result<(DatumModel, int), ReadFailure>
    decreases t.len() - p, 0int,
{
    if p < 0 || p >= t.len() {
        Err(ReadFailure::EndOfInput)
    } else {
        match t[p] {
            Tok::Quote(k) => match read_datum_spec(c, t, p + 1) {
                Ok((quoted, next)) => {
                    let start = byte_offset(c, k as int) as int;
                    Ok((
                        DatumModel::List(
                            seq![DatumModel::Symbol("quote"@, start, start + 1), quoted],
                            start,
                            quoted.end(),
                        ),
                        next,
                    ))
                },
                Err(f) => Err(f),
            },
            Tok::Atom(s, e) => match atom_model(c, s as int, e as int) {
                Ok(d) => Ok((d, p + 1)),
                Err(f) => Err(f),
            },
            Tok::Open(k) => read_items_spec(c, t, p + 1, byte_offset(c, k as int) as int, Seq::empty()),
            Tok::Close(k) => Err(ReadFailure::UnexpectedClose(byte_offset(c, k as int) as usize)),
        }
    }
}

/// Reads the items of a list opened at byte `start` from token `p` on,
/// `acc` holding the items read so far.
pub open spec fn read_items_spec(
    c: Seq<char>,
    t: Seq<Tok>,
    p: int,
    start: int,
    acc: Seq<DatumModel>,
) -> Result<(DatumModel, int), ReadFailure>
    decreases t.len() - p, 1int,
{
    if p < 0 || p >= t.len() {
        Err(ReadFailure::Unterminated)
    } else {
        match t[p] {
            Tok::Close(k) => Ok((DatumModel::List(acc, start, byte_offset(c, k as int) as int + 1), p + 1)),
            _ => match read_datum_spec(c, t, p) {
                Ok((d, next)) => if p < next <= t.len() {
                    read_items_spec(c, t, next, start, acc.push(d))
                } else {
                    Err(ReadFailure::Unterminated)
                },
                Err(f) => Err(f),
            },
        }
    }
}

/// Reads every datum from token `p` on.
pub open spec fn read_all_spec(c: Seq<char>, t: Seq<Tok>, p: int, acc: Seq<DatumModel>) -> Result<Seq<DatumModel>, ReadFailure>
    decreases t.len() - p,
{
    if p < 0 || p >= t.len() {
        Ok(acc)
    } else {
        match read_datum_spec(c, t, p) {
            Ok((d, next)) => if p < next <= t.len() {
                read_all_spec(c, t, next, acc.push(d))
            } else {
                Err(ReadFailure::EndOfInput)
            },
            Err(f) => Err(f),
        }
    }
}

/// What reading the source text `c` yields.
pub open spec fn read_spec(c: Seq<char>) -> Result<Seq<DatumModel>, ReadFailure> {
    read_all_spec(c, tokens_from(c, 0), 0, Seq::empty())
}

/// The message a failure is reported with.
pub open spec fn failure_message(c: Seq<char>, f: ReadFailure) -> Seq<char> {
    match f {
        ReadFailure::EndOfInput => "unexpected end of input"@,
        ReadFailure::Unterminated => "unterminated list: missing `)`"@,
        ReadFailure::UnexpectedClose(at) => "unexpected `)` at byte "@ + decimal_digits_of(at as nat),
        ReadFailure::IntRange(s, e) => "integer literal out of range: "@ + c.subrange(s as int, e as int),
    }
}

pub open spec fn decimal_digits_of(n: nat) -> Seq<char> {
    crate::harness::canon::decimal_digits(n)
}

pub open spec fn models(v: Seq<Datum>) -> Seq<DatumModel> {
    v.map_values(|d: Datum| d@)
}

/// Byte offsets of a character text, one per character index and one
/// for its end.
pub open spec fn offsets_of(c: Seq<char>, offs: Seq<usize>) -> bool {
    &&& offs.len() == c.len() + 1
    &&& forall|k: int| 0 <= k <= c.len() ==> #[trigger] offs[k] == byte_offset(c, k)
}

fn read_atom(chars: &Vec<char>, offs: &Vec<usize>, s: usize, e: usize) -> (r: Result<Datum, ReadFailure>)
    requires
        s < e <= chars@.len(),
        offsets_of(chars@, offs@),
    ensures
        match (r, atom_model(chars@, s as int, e as int)) {
            (Ok(d), Ok(m)) => d@ == m,
            (Err(f), Err(g)) => f == g,
            _ => false,
        },
{
    let ghost c = chars@;
    let ghost t = c.subrange(s as int, e as int);
    let span = Span { start: offs[s], end: offs[e] };
    if e - s == 2 && chars[s] == '#' && (chars[s + 1] == 't' || chars[s + 1] == 'f') {
        assert(t == seq!['#', chars[s + 1]]);
        return Ok(Datum::Bool(chars[s + 1] == 't', span));
    }
    assert(t != seq!['#', 't'] && t != seq!['#', 'f']) by {
        if t.len() == 2 {
            assert(t[0] == chars@[s as int] && t[1] == chars@[s + 1]);
        }
    }
    // A fixnum: optional leading '-' then all digits (and not a bare '-').
    let body_start = if chars[s] == '-' { s + 1 } else { s };
    assert(fixnum_body(t) == c.subrange(body_start as int, e as int));
    let mut all_digits = body_start < e;
    let mut j = body_start;
    while j < e
        invariant
            body_start <= j <= e <= c.len(),
            c == chars@,
            all_digits == (body_start < e && forall|i: int| body_start <= i < j ==> is_digit(#[trigger] c[i])),
        decreases e - j,
    {
        let ch = chars[j];
        if !('0' <= ch && ch <= '9') {
            all_digits = false;
        }
        j = j + 1;
    }
    assert(all_digits == is_fixnum_text(t)) by {
        let body = fixnum_body(t);
        if all_digits {
            assert forall|i: int| 0 <= i < body.len() implies is_digit(#[trigger] body[i]) by {
                assert(body[i] == c[body_start + i]);
            }
        }
        if is_fixnum_text(t) {
            assert forall|i: int| body_start <= i < e implies is_digit(#[trigger] c[i]) by {
                assert(body[i - body_start] == c[i]);
            }
        }
    }
    if all_digits {
        match parse_fixnum(chars, s, e) {
            Some(v) => Ok(Datum::Int(v, span)),
            None => Err(ReadFailure::IntRange(s, e)),
        }
    } else {
        let mut text: Vec<char> = Vec::new();
        let mut k = s;
        while k < e
            invariant
                s <= k <= e <= c.len(),
                c == chars@,
                text@ == c.subrange(s as int, k as int),
            decreases e - k,
        {
            text.push(chars[k]);
            assert(c.subrange(s as int, k + 1) == c.subrange(s as int, k as int).push(c[k as int]));
            k = k + 1;
        }
        Ok(Datum::Symbol(string_of(&text), span))
    }
}

} // verus!

verus! {

pub proof fn lemma_list_model(items: Vec<Datum>, sp: Span)
    ensures
        Datum::List(items, sp)@ == DatumModel::List(models(items@), sp.start as int, sp.end as int),
{
    let m = datum_model(Datum::List(items, sp));
    if let DatumModel::List(s, a, b) = m {
        assert(s.len() == items@.len());
        assert forall|i: int| 0 <= i < s.len() implies s[i] == models(items@)[i] by {
            assert(s[i] == datum_model(items@[i]));
        }
        assert(s =~= models(items@));
    }
}

proof fn lemma_models_push(v: Seq<Datum>, d: Datum)
    ensures
        models(v.push(d)) == models(v).push(d@),
{
    assert(models(v.push(d)) =~= models(v).push(d@));
}

proof fn lemma_ascii_offset(c: Seq<char>, offs: Seq<usize>, k: int)
    requires
        offsets_of(c, offs),
        0 <= k < c.len(),
        (c[k] as u32) < 0x80,
    ensures
        offs[k] + 1 == offs[k + 1],
{
    crate::text::lemma_byte_offset_step(c, k);
}

fn read_datum(tokens: &Vec<Tok>, position: usize, chars: &Vec<char>, offs: &Vec<usize>) -> (r: Result<(Datum, usize), ReadFailure>)
    requires
        position <= tokens@.len(),
        offsets_of(chars@, offs@),
        forall|j: int| 0 <= j < tokens@.len() ==> tok_wf(#[trigger] tokens@[j], chars@),
    ensures
        match (r, read_datum_spec(chars@, tokens@, position as int)) {
            (Ok((d, next)), Ok((m, n2))) => d@ == m && next == n2 && position < next <= tokens@.len(),
            (Err(f), Err(g)) => f == g,
            _ => false,
        },
    decreases tokens@.len() - position,
{
    let ghost c = chars@;
    let ghost t = tokens@;
    if position >= tokens.len() {
        return Err(ReadFailure::EndOfInput);
    }
    match tokens[position] {
        Tok::Quote(k) => {
            assert(tok_wf(t[position as int], c));
            match read_datum(tokens, position + 1, chars, offs) {
                Ok((quoted, next)) => {
                    let start = offs[k];
                    proof {
                        lemma_ascii_offset(c, offs@, k as int);
                    }
                    let end = quoted.span().end;
                    let sym = Datum::Symbol("quote".to_owned(), Span { start, end: start + 1 });
                    let mut items: Vec<Datum> = Vec::new();
                    items.push(sym);
                    items.push(quoted);
                    let span = Span { start, end };
                    proof {
                        lemma_list_model(items, span);
                        assert(models(items@) =~= seq![
                            DatumModel::Symbol("quote"@, start as int, start + 1),
                            quoted@,
                        ]);
                    }
                    Ok((Datum::List(items, span), next))
                },
                Err(f) => Err(f),
            }
        },
        Tok::Atom(s, e) => {
            assert(tok_wf(t[position as int], c));
            match read_atom(chars, offs, s, e) {
                Ok(d) => Ok((d, position + 1)),
                Err(f) => Err(f),
            }
        },
        Tok::Close(k) => {
            assert(tok_wf(t[position as int], c));
            Err(ReadFailure::UnexpectedClose(offs[k]))
        },
        Tok::Open(k) => {
            assert(tok_wf(t[position as int], c));
            let start = offs[k];
            let mut items: Vec<Datum> = Vec::new();
            let mut pos = position + 1;
            assert(models(items@) == Seq::<DatumModel>::empty());
            loop
                invariant
                    position < pos <= t.len(),
                    t == tokens@,
                    c == chars@,
                    offsets_of(c, offs@),
                    forall|j: int| 0 <= j < t.len() ==> tok_wf(#[trigger] t[j], c),
                    start == offs@[k as int],
                    read_datum_spec(c, t, position as int)
                        == read_items_spec(c, t, pos as int, start as int, models(items@)),
                decreases t.len() - pos,
            {
                if pos >= tokens.len() {
                    return Err(ReadFailure::Unterminated);
                }
                match tokens[pos] {
                    Tok::Close(e) => {
                        assert(tok_wf(t[pos as int], c));
                        proof {
                            lemma_ascii_offset(c, offs@, e as int);
                        }
                        let span = Span { start, end: offs[e] + 1 };
                        proof {
                            lemma_list_model(items, span);
                        }
                        return Ok((Datum::List(items, span), pos + 1));
                    },
                    _ => {
                        match read_datum(tokens, pos, chars, offs) {
                            Ok((d, next)) => {
                                proof {
                                    lemma_models_push(items@, d);
                                }
                                items.push(d);
                                pos = next;
                            },
                            Err(f) => {
                                return Err(f);
                            },
                        }
                    },
                }
            }
        },
    }
}

fn failure_text(chars: &Vec<char>, f: ReadFailure) -> (m: String)
    requires
        match f {
            ReadFailure::IntRange(s, e) => s <= e <= chars@.len(),
            _ => true,
        },
    ensures
        m@ == failure_message(chars@, f),
{
    match f {
        ReadFailure::EndOfInput => "unexpected end of input".to_owned(),
        ReadFailure::Unterminated => "unterminated list: missing `)`".to_owned(),
        ReadFailure::UnexpectedClose(at) => {
            let mut text = chars_of("unexpected `)` at byte ");
            let mut digits = crate::harness::canon::digits_of(at as u64);
            text.append(&mut digits);
            string_of(&text)
        },
        ReadFailure::IntRange(s, e) => {
            let mut text = chars_of("integer literal out of range: ");
            let ghost prefix = text@;
            let mut k = s;
            while k < e
                invariant
                    s <= k <= e <= chars@.len(),
                    text@ == prefix + chars@.subrange(s as int, k as int),
                decreases e - k,
            {
                text.push(chars[k]);
                assert(chars@.subrange(s as int, k + 1) == chars@.subrange(s as int, k as int).push(chars@[k as int]));
                k = k + 1;
            }
            string_of(&text)
        },
    }
}

proof fn lemma_read_failure_bounds(c: Seq<char>, t: Seq<Tok>, p: int)
    requires
        forall|j: int| 0 <= j < t.len() ==> tok_wf(#[trigger] t[j], c),
    ensures
        read_datum_spec(c, t, p) matches Err(ReadFailure::IntRange(s, e)) ==> s <= e <= c.len(),
    decreases t.len() - p, 0int,
{
    if 0 <= p < t.len() {
        assert(tok_wf(t[p], c));
        match t[p] {
            Tok::Quote(_) => lemma_read_failure_bounds(c, t, p + 1),
            Tok::Open(k) => lemma_items_failure_bounds(c, t, p + 1, byte_offset(c, k as int) as int, Seq::empty()),
            _ => {},
        }
    }
}

proof fn lemma_items_failure_bounds(c: Seq<char>, t: Seq<Tok>, p: int, start: int, acc: Seq<DatumModel>)
    requires
        forall|j: int| 0 <= j < t.len() ==> tok_wf(#[trigger] t[j], c),
    ensures
        read_items_spec(c, t, p, start, acc) matches Err(ReadFailure::IntRange(s, e)) ==> s <= e <= c.len(),
    decreases t.len() - p, 1int,
{
    if 0 <= p < t.len() {
        match t[p] {
            Tok::Close(_) => {},
            _ => {
                lemma_read_failure_bounds(c, t, p);
                match read_datum_spec(c, t, p) {
                    Ok((d, next)) => if p < next <= t.len() {
                        lemma_items_failure_bounds(c, t, next, start, acc.push(d));
                    },
                    Err(_) => {},
                }
            },
        }
    }
}

/// Reads every top-level datum in `source`.
pub fn read(source: &str) -> (r: Result<Vec<Datum>, String>)
    ensures
        match (r, read_spec(source@)) {
            (Ok(v), Ok(m)) => models(v@) == m,
            (Err(msg), Err(f)) => msg@ == failure_message(source@, f),
            _ => false,
        },
{
    let (chars, offs) = crate::text::chars_with_offsets(source);
    let tokens = tokenize(&chars);
    let ghost c = chars@;
    let ghost t = tokens@;
    let mut position: usize = 0;
    let mut data: Vec<Datum> = Vec::new();
    assert(models(data@) == Seq::<DatumModel>::empty());
    while position < tokens.len()
        invariant
            position <= t.len(),
            t == tokens@,
            c == chars@,
            c == source@,
            t == tokens_from(c, 0),
            offsets_of(c, offs@),
            forall|j: int| 0 <= j < t.len() ==> tok_wf(#[trigger] t[j], c),
            read_spec(c) == read_all_spec(c, t, position as int, models(data@)),
        decreases t.len() - position,
    {
        match read_datum(&tokens, position, &chars, &offs) {
            Ok((d, next)) => {
                proof {
                    lemma_models_push(data@, d);
                }
                data.push(d);
                position = next;
            },
            Err(f) => {
                proof {
                    lemma_read_failure_bounds(c, t, position as int);
                }
                return Err(failure_text(&chars, f));
            },
        }
    }
    Ok(data)
}

} // verus!
