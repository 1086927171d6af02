//! Lexer for the femto_lua subset of Lua 5.1: names, keywords, numbers,
//! short strings with escapes, operators and punctuation, `--` line
//! comments. Long strings and long comments are refused. Offsets are
//! byte offsets into the source.

use vstd::prelude::*;
use crate::text::string_of;
use vstd::string::StringSliceAdditionalSpecFns;

verus! {

/// A number literal as written: a hexadecimal integer by its value, a
/// decimal literal by its text, which Rust's `f64` parser accepts (the
/// caller converts it).
#[derive(Clone, Debug, PartialEq, Eq)]
pub enum NumLit {
    Hex(u64),
    Decimal(String),
}

#[derive(Clone, Debug, PartialEq)]
pub enum Token {
    Name(String),
    Number(NumLit),
    Str(String),
    // keywords
    And, Break, Do, Else, Elseif, End, False, For, Function, If, In,
    Local, Nil, Not, Or, Repeat, Return, Then, True, Until, While,
    // symbols
    Plus, Minus, Star, Slash, Percent, Caret, Hash,
    EqEq, NotEq, LessEq, GreaterEq, Less, Greater, Assign,
    LParen, RParen, LBrace, RBrace, LBracket, RBracket,
    Semi, Colon, Comma, Dot, Concat, Dots,
}

#[derive(Debug)]
pub struct LexError {
    pub offset: usize,
    pub message: String,
}

#[derive(Debug)]
pub struct Spanned {
    pub token: Token,
    pub start: usize,
}

pub enum NumModel {
    Hex(u64),
    Decimal(Seq<char>),
}

/// A token as a mathematical value: texts as characters; every other
/// token as itself.
pub enum Lexeme {
    Name(Seq<char>),
    Number(NumModel),
    Str(Seq<char>),
    Other(Token),
}

impl Token {
    pub open spec fn lexeme(self) -> Lexeme {
        match self {
            Token::Name(s) => Lexeme::Name(s@),
            Token::Number(NumLit::Hex(v)) => Lexeme::Number(NumModel::Hex(v)),
            Token::Number(NumLit::Decimal(s)) => Lexeme::Number(NumModel::Decimal(s@)),
            Token::Str(s) => Lexeme::Str(s@),
            other => Lexeme::Other(other),
        }
    }
}

/// The spanned tokens as (lexeme, start) pairs.
pub open spec fn lexemes(v: Seq<Spanned>) -> Seq<(Lexeme, int)> {
    v.map_values(|s: Spanned| (s.token.lexeme(), s.start as int))
}

/// A lexing failure: byte offset and message.
pub type Fail = (int, Seq<char>);

pub open spec fn byte_at(b: Seq<u8>, i: int) -> Option<u8> {
    if 0 <= i < b.len() { Some(b[i]) } else { None }
}

pub open spec fn is_digit(x: u8) -> bool {
    48 <= x <= 57
}

pub open spec fn digit_at(b: Seq<u8>, j: int) -> bool {
    0 <= j < b.len() && is_digit(b[j])
}

pub open spec fn is_hex_digit(x: u8) -> bool {
    is_digit(x) || (97 <= x <= 102) || (65 <= x <= 70)
}

pub open spec fn is_alpha(x: u8) -> bool {
    (97 <= x <= 122) || (65 <= x <= 90)
}

pub open spec fn is_word_byte(x: u8) -> bool {
    is_alpha(x) || is_digit(x) || x == 95
}

/// ASCII bytes read as characters.
pub open spec fn ascii_text(b: Seq<u8>) -> Seq<char> {
    b.map_values(|x: u8| x as char)
}

/// The byte classes the lexer scans runs of.
#[derive(Clone, Copy, Debug, PartialEq, Eq)]
pub enum ByteClass {
    NotNewline,
    Digit,
    HexDigit,
    Word,
}

pub open spec fn in_class(k: ByteClass, x: u8) -> bool {
    match k {
        ByteClass::NotNewline => x != 10,
        ByteClass::Digit => is_digit(x),
        ByteClass::HexDigit => is_hex_digit(x),
        ByteClass::Word => is_word_byte(x),
    }
}

/// The first index from `i` on whose byte is not in class `k`, or the
/// end.
pub open spec fn scan_while(b: Seq<u8>, i: int, k: ByteClass) -> int
    decreases b.len() - i,
{
    if i < 0 || i >= b.len() || !in_class(k, b[i]) {
        i
    } else {
        scan_while(b, i + 1, k)
    }
}

pub proof fn lemma_scan_while(b: Seq<u8>, i: int, k: ByteClass)
    requires
        0 <= i <= b.len(),
    ensures
        i <= scan_while(b, i, k) <= b.len(),
        forall|j: int| i <= j < scan_while(b, i, k) ==> in_class(k, #[trigger] b[j]),
        scan_while(b, i, k) < b.len() ==> !in_class(k, b[scan_while(b, i, k)]),
    decreases b.len() - i,
{
    if i < b.len() && in_class(k, b[i]) {
        lemma_scan_while(b, i + 1, k);
    }
}

pub open spec fn digit_val(x: u8) -> int {
    x as int - 48
}

pub open spec fn hex_val(x: u8) -> int {
    if is_digit(x) { x as int - 48 } else if 97 <= x <= 102 { x as int - 87 } else { x as int - 55 }
}

/// The value of hexadecimal digits.
pub open spec fn hex_value(t: Seq<u8>) -> int
    decreases t.len(),
{
    if t.len() == 0 { 0 } else { hex_value(t.drop_last()) * 16 + hex_val(t.last()) }
}

/// The value of decimal digits.
pub open spec fn dec_value(t: Seq<u8>) -> int
    decreases t.len(),
{
    if t.len() == 0 { 0 } else { dec_value(t.drop_last()) * 10 + digit_val(t.last()) }
}

pub open spec fn keyword(w: Seq<char>) -> Option<Token> {
    if w == "and"@ { Some(Token::And) }
    else if w == "break"@ { Some(Token::Break) }
    else if w == "do"@ { Some(Token::Do) }
    else if w == "else"@ { Some(Token::Else) }
    else if w == "elseif"@ { Some(Token::Elseif) }
    else if w == "end"@ { Some(Token::End) }
    else if w == "false"@ { Some(Token::False) }
    else if w == "for"@ { Some(Token::For) }
    else if w == "function"@ { Some(Token::Function) }
    else if w == "if"@ { Some(Token::If) }
    else if w == "in"@ { Some(Token::In) }
    else if w == "local"@ { Some(Token::Local) }
    else if w == "nil"@ { Some(Token::Nil) }
    else if w == "not"@ { Some(Token::Not) }
    else if w == "or"@ { Some(Token::Or) }
    else if w == "repeat"@ { Some(Token::Repeat) }
    else if w == "return"@ { Some(Token::Return) }
    else if w == "then"@ { Some(Token::Then) }
    else if w == "true"@ { Some(Token::True) }
    else if w == "until"@ { Some(Token::Until) }
    else if w == "while"@ { Some(Token::While) }
    else { None }
}

/// A one-byte token that never starts a longer one.
pub open spec fn single_token(c: u8) -> Option<Token> {
    if c == 45 { Some(Token::Minus) }
    else if c == 43 { Some(Token::Plus) }
    else if c == 42 { Some(Token::Star) }
    else if c == 47 { Some(Token::Slash) }
    else if c == 37 { Some(Token::Percent) }
    else if c == 94 { Some(Token::Caret) }
    else if c == 35 { Some(Token::Hash) }
    else if c == 40 { Some(Token::LParen) }
    else if c == 41 { Some(Token::RParen) }
    else if c == 123 { Some(Token::LBrace) }
    else if c == 125 { Some(Token::RBrace) }
    else if c == 93 { Some(Token::RBracket) }
    else if c == 59 { Some(Token::Semi) }
    else if c == 58 { Some(Token::Colon) }
    else if c == 44 { Some(Token::Comma) }
    else { None }
}

pub open spec fn hex_char(d: int) -> char {
    if d < 10 { (d + 48) as char } else { (d + 87) as char }
}

/// Two lowercase hexadecimal digits.
pub open spec fn hex2(x: u8) -> Seq<char> {
    seq![hex_char(x as int / 16), hex_char(x as int % 16)]
}

/// A number literal from `start`: `0x` hex digits, or decimal digits
/// with an optional fraction and an optional exponent.
pub open spec fn number_spec(b: Seq<u8>, start: int) -> Result<(NumModel, int), Fail> {
    if byte_at(b, start) == Some(48u8) && (byte_at(b, start + 1) == Some(120u8) || byte_at(b, start + 1) == Some(88u8)) {
        let hs = start + 2;
        let he = scan_while(b, hs, ByteClass::HexDigit);
        let v = hex_value(b.subrange(hs, he));
        if hs == he || v > u64::MAX {
            Err((start, "bad hex literal"@))
        } else {
            Ok((NumModel::Hex(v as u64), he))
        }
    } else {
        let a = scan_while(b, start, ByteClass::Digit);
        let c = if byte_at(b, a) == Some(46u8) { scan_while(b, a + 1, ByteClass::Digit) } else { a };
        if byte_at(b, c) == Some(101u8) || byte_at(b, c) == Some(69u8) {
            let d = if byte_at(b, c + 1) == Some(43u8) || byte_at(b, c + 1) == Some(45u8) { c + 2 } else { c + 1 };
            let f = scan_while(b, d, ByteClass::Digit);
            if f == d {
                Err((start, "bad number literal"@))
            } else {
                Ok((NumModel::Decimal(ascii_text(b.subrange(start, f))), f))
            }
        } else {
            Ok((NumModel::Decimal(ascii_text(b.subrange(start, c))), c))
        }
    }
}

/// The byte a one-character escape stands for.
pub open spec fn simple_escape(e: u8) -> Option<u8> {
    if e == 110 { Some(10u8) }
    else if e == 116 { Some(9u8) }
    else if e == 114 { Some(13u8) }
    else if e == 97 { Some(7u8) }
    else if e == 98 { Some(8u8) }
    else if e == 102 { Some(12u8) }
    else if e == 118 { Some(11u8) }
    else if e == 92 { Some(92u8) }
    else if e == 34 { Some(34u8) }
    else if e == 39 { Some(39u8) }
    else { None }
}

/// How many decimal digits (at most three) start at `j`.
pub open spec fn escape_digits(b: Seq<u8>, j: int) -> int {
    if digit_at(b, j) {
        if digit_at(b, j + 1) {
            if digit_at(b, j + 2) { 3 } else { 2 }
        } else {
            1
        }
    } else {
        0
    }
}

/// The body of a short string from `i`, closed by `q`; the string
/// started at `start`.
pub open spec fn string_body(b: Seq<u8>, i: int, q: u8, start: int, acc: Seq<u8>) -> Result<(Seq<u8>, int), Fail>
    decreases b.len() - i,
{
    if i < 0 || i >= b.len() || b[i] == 10 {
        Err((start, "unterminated string"@))
    } else if b[i] == 92 {
        if i + 1 >= b.len() {
            Err((i, "dangling escape"@))
        } else {
            let e = b[i + 1];
            match simple_escape(e) {
                Some(d) => string_body(b, i + 2, q, start, acc.push(d)),
                None => if is_digit(e) {
                    let n = escape_digits(b, i + 1);
                    let v = dec_value(b.subrange(i + 1, i + 1 + n));
                    if v > 255 {
                        Err((i, "\\ddd escape above 255"@))
                    } else if v >= 128 {
                        Err((i + n - 1, "non-ASCII literal byte (fenced, D-056)"@))
                    } else if n >= 1 {
                        string_body(b, i + n + 1, q, start, acc.push(v as u8))
                    } else {
                        Err((i, Seq::empty()))
                    }
                } else {
                    Err((i, "unsupported escape \\"@ + seq![e as char]))
                },
            }
        }
    } else if b[i] == q {
        Ok((acc, i + 1))
    } else if b[i] >= 128 {
        Err((i, "non-ASCII literal byte (fenced, D-056)"@))
    } else {
        string_body(b, i + 1, q, start, acc.push(b[i]))
    }
}

pub open spec fn prepend(x: (Lexeme, int), r: Result<Seq<(Lexeme, int)>, Fail>) -> Result<Seq<(Lexeme, int)>, Fail> {
    match r {
        Ok(s) => Ok(seq![x] + s),
        Err(e) => Err(e),
    }
}

pub open spec fn tok(t: Token, i: int) -> (Lexeme, int) {
    (Lexeme::Other(t), i)
}

/// The tokens of `b` from byte `i` on, each with its start; or the
/// first failure.
pub open spec fn lex_from(b: Seq<u8>, i: int) -> Result<Seq<(Lexeme, int)>, Fail>
    decreases b.len() - i,
{
    if i < 0 || i >= b.len() {
        Ok(Seq::empty())
    } else {
        let c = b[i];
        let next = byte_at(b, i + 1);
        if c == 32 || c == 9 || c == 13 || c == 10 {
            lex_from(b, i + 1)
        } else if c == 45 && next == Some(45u8) {
            if byte_at(b, i + 2) == Some(91u8) && byte_at(b, i + 3) == Some(91u8) {
                Err((i, "long comments are fenced in v0.1 (D-052)"@))
            } else {
                let e = scan_while(b, i, ByteClass::NotNewline);
                if i < e <= b.len() { lex_from(b, e) } else { Err((i, Seq::empty())) }
            }
        } else if single_token(c) is Some {
            prepend(tok(single_token(c)->0, i), lex_from(b, i + 1))
        } else if c == 91 {
            if next == Some(91u8) {
                Err((i, "long strings are fenced in v0.1 (D-052)"@))
            } else {
                prepend(tok(Token::LBracket, i), lex_from(b, i + 1))
            }
        } else if c == 61 {
            if next == Some(61u8) {
                prepend(tok(Token::EqEq, i), lex_from(b, i + 2))
            } else {
                prepend(tok(Token::Assign, i), lex_from(b, i + 1))
            }
        } else if c == 126 {
            if next == Some(61u8) {
                prepend(tok(Token::NotEq, i), lex_from(b, i + 2))
            } else {
                Err((i, "stray ~"@))
            }
        } else if c == 60 {
            if next == Some(61u8) {
                prepend(tok(Token::LessEq, i), lex_from(b, i + 2))
            } else {
                prepend(tok(Token::Less, i), lex_from(b, i + 1))
            }
        } else if c == 62 {
            if next == Some(61u8) {
                prepend(tok(Token::GreaterEq, i), lex_from(b, i + 2))
            } else {
                prepend(tok(Token::Greater, i), lex_from(b, i + 1))
            }
        } else if c == 46 && next == Some(46u8) {
            if byte_at(b, i + 2) == Some(46u8) {
                prepend(tok(Token::Dots, i), lex_from(b, i + 3))
            } else {
                prepend(tok(Token::Concat, i), lex_from(b, i + 2))
            }
        } else if is_digit(c) || (c == 46 && digit_at(b, i + 1)) {
            match number_spec(b, i) {
                Err(f) => Err(f),
                Ok((m, e)) => if i < e <= b.len() {
                    prepend((Lexeme::Number(m), i), lex_from(b, e))
                } else {
                    Err((i, Seq::empty()))
                },
            }
        } else if c == 46 {
            prepend(tok(Token::Dot, i), lex_from(b, i + 1))
        } else if c == 39 || c == 34 {
            match string_body(b, i + 1, c, i, Seq::empty()) {
                Err(f) => Err(f),
                Ok((text, e)) => if i < e <= b.len() {
                    prepend((Lexeme::Str(ascii_text(text)), i), lex_from(b, e))
                } else {
                    Err((i, Seq::empty()))
                },
            }
        } else if is_alpha(c) || c == 95 {
            let e = scan_while(b, i, ByteClass::Word);
            let w = ascii_text(b.subrange(i, e));
            if i < e <= b.len() {
                prepend(
                    match keyword(w) {
                        Some(k) => (Lexeme::Other(k), i),
                        None => (Lexeme::Name(w), i),
                    },
                    lex_from(b, e),
                )
            } else {
                Err((i, Seq::empty()))
            }
        } else {
            Err((i, "unexpected byte 0x"@ + hex2(c)))
        }
    }
}

/// The tokens of a whole source text, lexed from its UTF-8 bytes.
pub open spec fn lex_spec(source: Seq<u8>) -> Result<Seq<(Lexeme, int)>, Fail> {
    lex_from(source, 0)
}

} // verus!

verus! {

fn in_class_exec(k: ByteClass, x: u8) -> (r: bool)
    ensures
        r == in_class(k, x),
{
    match k {
        ByteClass::NotNewline => x != 10,
        ByteClass::Digit => 48 <= x && x <= 57,
        ByteClass::HexDigit => (48 <= x && x <= 57) || (97 <= x && x <= 102) || (65 <= x && x <= 70),
        ByteClass::Word => (97 <= x && x <= 122) || (65 <= x && x <= 90) || (48 <= x && x <= 57) || x == 95,
    }
}

fn scan(bytes: &[u8], i: usize, k: ByteClass) -> (r: usize)
    requires
        i <= bytes@.len(),
    ensures
        r as int == scan_while(bytes@, i as int, k),
        i <= r <= bytes@.len(),
{
    proof {
        lemma_scan_while(bytes@, i as int, k);
    }
    let mut j = i;
    while j < bytes.len() && in_class_exec(k, bytes[j])
        invariant
            i <= j <= bytes@.len(),
            scan_while(bytes@, i as int, k) == scan_while(bytes@, j as int, k),
        decreases bytes@.len() - j,
    {
        j = j + 1;
    }
    j
}

fn byte_is(bytes: &[u8], i: usize, x: u8) -> (r: bool)
    ensures
        r == (byte_at(bytes@, i as int) == Some(x)),
{
    i < bytes.len() && bytes[i] == x
}

fn digit_at_exec(bytes: &[u8], i: usize) -> (r: bool)
    ensures
        r == digit_at(bytes@, i as int),
{
    i < bytes.len() && 48 <= bytes[i] && bytes[i] <= 57
}

/// The characters of `bytes[s..e]`, each byte read as a character.
fn ascii_string(bytes: &[u8], s: usize, e: usize) -> (r: String)
    requires
        s <= e <= bytes@.len(),
    ensures
        r@ == ascii_text(bytes@.subrange(s as int, e as int)),
{
    let mut v: Vec<char> = Vec::new();
    let mut k = s;
    while k < e
        invariant
            s <= k <= e <= bytes@.len(),
            v@ == ascii_text(bytes@.subrange(s as int, k as int)),
        decreases e - k,
    {
        let ch = bytes[k] as char;
        proof {
            assert(ascii_text(bytes@.subrange(s as int, k + 1)) =~= ascii_text(bytes@.subrange(s as int, k as int)).push(ch));
        }
        v.push(ch);
        k = k + 1;
    }
    string_of(&v)
}

/// Whether `bytes[s..e]`, read as characters, spells `lit`.
fn ascii_range_is(bytes: &[u8], s: usize, e: usize, lit: &str) -> (r: bool)
    requires
        s <= e <= bytes@.len(),
    ensures
        r == (ascii_text(bytes@.subrange(s as int, e as int)) == lit@),
{
    let l = crate::text::chars_of(lit);
    if e - s != l.len() {
        return false;
    }
    let ghost w = ascii_text(bytes@.subrange(s as int, e as int));
    let mut k: usize = 0;
    while k < l.len()
        invariant
            s <= e <= bytes@.len(),
            e - s == l@.len(),
            l@ == lit@,
            w == ascii_text(bytes@.subrange(s as int, e as int)),
            k <= l@.len(),
            forall|j: int| 0 <= j < k ==> w[j] == l@[j],
        decreases l@.len() - k,
    {
        if bytes[s + k] as char != l[k] {
            assert(w[k as int] != lit@[k as int]);
            return false;
        }
        k = k + 1;
    }
    assert(w =~= lit@);
    true
}

fn keyword_of(bytes: &[u8], s: usize, e: usize) -> (r: Option<Token>)
    requires
        s <= e <= bytes@.len(),
    ensures
        r == keyword(ascii_text(bytes@.subrange(s as int, e as int))),
{
    let is = |lit: &str| -> (b: bool)
        requires s <= e <= bytes@.len(),
        ensures b == (ascii_text(bytes@.subrange(s as int, e as int)) == lit@),
        { ascii_range_is(bytes, s, e, lit) };
    if is("and") { Some(Token::And) }
    else if is("break") { Some(Token::Break) }
    else if is("do") { Some(Token::Do) }
    else if is("else") { Some(Token::Else) }
    else if is("elseif") { Some(Token::Elseif) }
    else if is("end") { Some(Token::End) }
    else if is("false") { Some(Token::False) }
    else if is("for") { Some(Token::For) }
    else if is("function") { Some(Token::Function) }
    else if is("if") { Some(Token::If) }
    else if is("in") { Some(Token::In) }
    else if is("local") { Some(Token::Local) }
    else if is("nil") { Some(Token::Nil) }
    else if is("not") { Some(Token::Not) }
    else if is("or") { Some(Token::Or) }
    else if is("repeat") { Some(Token::Repeat) }
    else if is("return") { Some(Token::Return) }
    else if is("then") { Some(Token::Then) }
    else if is("true") { Some(Token::True) }
    else if is("until") { Some(Token::Until) }
    else if is("while") { Some(Token::While) }
    else { None }
}

fn single_of(c: u8) -> (r: Option<Token>)
    ensures
        r == single_token(c),
{
    if c == 45 { Some(Token::Minus) }
    else if c == 43 { Some(Token::Plus) }
    else if c == 42 { Some(Token::Star) }
    else if c == 47 { Some(Token::Slash) }
    else if c == 37 { Some(Token::Percent) }
    else if c == 94 { Some(Token::Caret) }
    else if c == 35 { Some(Token::Hash) }
    else if c == 40 { Some(Token::LParen) }
    else if c == 41 { Some(Token::RParen) }
    else if c == 123 { Some(Token::LBrace) }
    else if c == 125 { Some(Token::RBrace) }
    else if c == 93 { Some(Token::RBracket) }
    else if c == 59 { Some(Token::Semi) }
    else if c == 58 { Some(Token::Colon) }
    else if c == 44 { Some(Token::Comma) }
    else { None }
}

proof fn lemma_hex_prefix(t: Seq<u8>, k: int)
    requires
        0 <= k <= t.len(),
        forall|i: int| 0 <= i < t.len() ==> is_hex_digit(#[trigger] t[i]),
    ensures
        0 <= hex_value(t.take(k)) <= hex_value(t),
    decreases t.len() - k,
{
    if k < t.len() {
        lemma_hex_prefix(t, k + 1);
        assert(t.take(k + 1).drop_last() == t.take(k));
        assert(is_hex_digit(t.take(k + 1).last()));
    } else {
        assert(t.take(k) == t);
        lemma_hex_nonneg(t);
    }
}

proof fn lemma_hex_nonneg(t: Seq<u8>)
    requires
        forall|i: int| 0 <= i < t.len() ==> is_hex_digit(#[trigger] t[i]),
    ensures
        hex_value(t) >= 0,
    decreases t.len(),
{
    if t.len() > 0 {
        let p = t.drop_last();
        assert(forall|i: int| 0 <= i < p.len() ==> p[i] == t[i]);
        lemma_hex_nonneg(p);
        assert(is_hex_digit(t[t.len() - 1]));
    }
}

fn hex_digit_value(x: u8) -> (v: u64)
    requires
        is_hex_digit(x),
    ensures
        v as int == hex_val(x),
        v < 16,
{
    if 48 <= x && x <= 57 {
        (x - 48) as u64
    } else if 97 <= x && x <= 102 {
        (x - 87) as u64
    } else {
        (x - 55) as u64
    }
}

/// A number literal at `start`.
fn number(bytes: &[u8], start: usize) -> (r: Result<(NumLit, usize), LexError>)
    requires
        start < bytes@.len(),
        is_digit(bytes@[start as int]) || (bytes@[start as int] == 46 && digit_at(bytes@, start + 1)),
    ensures
        match (r, number_spec(bytes@, start as int)) {
            (Ok((lit, e)), Ok((m, f))) => Token::Number(lit).lexeme() == Lexeme::Number(m) && e == f,
            (Err(x), Err((o, msg))) => x.offset == o && x.message@ == msg,
            _ => false,
        },
        r matches Ok((_, e)) ==> start < e <= bytes@.len(),
{
    let ghost b = bytes@;
    if bytes[start] == 48 && (byte_is(bytes, start + 1, 120) || byte_is(bytes, start + 1, 88)) {
        let hs = start + 2;
        let he = scan(bytes, hs, ByteClass::HexDigit);
        proof {
            lemma_scan_while(b, hs as int, ByteClass::HexDigit);
        }
        let ghost text = b.subrange(hs as int, he as int);
        proof {
            assert forall|q: int| 0 <= q < text.len() implies is_hex_digit(#[trigger] text[q]) by {
                assert(text[q] == b[hs + q]);
                assert(in_class(ByteClass::HexDigit, b[hs + q]));
            }
        }
        if hs == he {
            return Err(LexError { offset: start, message: "bad hex literal".to_owned() });
        }
        let mut value: u64 = 0;
        let mut k = hs;
        while k < he
            invariant
                hs <= k <= he <= b.len(),
                b == bytes@,
                hs == start + 2,
                start < b.len(),
                b[start as int] == 48,
                byte_at(b, start + 1) == Some(120u8) || byte_at(b, start + 1) == Some(88u8),
                he as int == scan_while(b, hs as int, ByteClass::HexDigit),
                text == b.subrange(hs as int, he as int),
                forall|q: int| 0 <= q < text.len() ==> is_hex_digit(#[trigger] text[q]),
                value as int == hex_value(b.subrange(hs as int, k as int)),
            decreases he - k,
        {
            assert(b.subrange(hs as int, k + 1).drop_last() == b.subrange(hs as int, k as int));
            assert(b.subrange(hs as int, k + 1) == text.take(k + 1 - hs));
            assert(text[k - hs] == b[k as int]);
            let d = hex_digit_value(bytes[k]);
            proof {
                lemma_hex_prefix(text, k + 1 - hs);
            }
            if value > (0xffff_ffff_ffff_ffffu64 - d) / 16 {
                assert(hex_value(b.subrange(hs as int, k + 1)) > u64::MAX) by (nonlinear_arith)
                    requires
                        hex_value(b.subrange(hs as int, k + 1)) == value * 16 + d,
                        value > (0xffff_ffff_ffff_ffffu64 - d) / 16,
                        d < 16;
                assert(text.take(k + 1 - hs) == b.subrange(hs as int, k + 1));
                return Err(LexError { offset: start, message: "bad hex literal".to_owned() });
            }
            value = value * 16 + d;
            k = k + 1;
        }
        return Ok((NumLit::Hex(value), he));
    }
    let a = scan(bytes, start, ByteClass::Digit);
    let c = if byte_is(bytes, a, 46) { scan(bytes, a + 1, ByteClass::Digit) } else { a };
    proof {
        lemma_scan_while(b, start as int, ByteClass::Digit);
        if c != a {
            lemma_scan_while(b, a + 1, ByteClass::Digit);
        }
    }
    if byte_is(bytes, c, 101) || byte_is(bytes, c, 69) {
        let d = if byte_is(bytes, c + 1, 43) || byte_is(bytes, c + 1, 45) { c + 2 } else { c + 1 };
        let f = scan(bytes, d, ByteClass::Digit);
        if f == d {
            return Err(LexError { offset: start, message: "bad number literal".to_owned() });
        }
        return Ok((NumLit::Decimal(ascii_string(bytes, start, f)), f));
    }
    Ok((NumLit::Decimal(ascii_string(bytes, start, c)), c))
}

fn simple_escape_of(e: u8) -> (r: Option<u8>)
    ensures
        r == simple_escape(e),
{
    if e == 110 { Some(10u8) }
    else if e == 116 { Some(9u8) }
    else if e == 114 { Some(13u8) }
    else if e == 97 { Some(7u8) }
    else if e == 98 { Some(8u8) }
    else if e == 102 { Some(12u8) }
    else if e == 118 { Some(11u8) }
    else if e == 92 { Some(92u8) }
    else if e == 34 { Some(34u8) }
    else if e == 39 { Some(39u8) }
    else { None }
}

fn text_err(offset: usize, prefix: &str, tail: Vec<char>) -> (e: LexError)
    ensures
        e.offset == offset,
        e.message@ == prefix@ + tail@,
{
    let mut v = crate::text::chars_of(prefix);
    let mut t = tail;
    v.append(&mut t);
    LexError { offset, message: string_of(&v) }
}

/// The body of a short string that opened at `start` with quote `q`.
fn string_lit(bytes: &[u8], start: usize, q: u8) -> (r: Result<(String, usize), LexError>)
    requires
        start < bytes@.len(),
    ensures
        match (r, string_body(bytes@, start + 1, q, start as int, Seq::empty())) {
            (Ok((s, e)), Ok((text, f))) => s@ == ascii_text(text) && e == f,
            (Err(x), Err((o, msg))) => x.offset == o && x.message@ == msg,
            _ => false,
        },
        r matches Ok((_, e)) ==> start < e <= bytes@.len(),
{
    let ghost b = bytes@;
    let n = bytes.len();
    let ghost goal = string_body(b, start + 1, q, start as int, Seq::empty());
    let mut acc: Vec<u8> = Vec::new();
    let mut i = start + 1;
    loop
        invariant
            start < i <= b.len() + 1,
            n == b.len(),
            b == bytes@,
            start < b.len(),
            goal == string_body(b, i as int, q, start as int, acc@),
            goal == string_body(b, start + 1, q, start as int, Seq::empty()),
        decreases b.len() + 1 - i,
    {
        if i >= bytes.len() || bytes[i] == 10 {
            return Err(LexError { offset: start, message: "unterminated string".to_owned() });
        }
        let c = bytes[i];
        if c == 92 {
            if i + 1 >= bytes.len() {
                return Err(LexError { offset: i, message: "dangling escape".to_owned() });
            }
            let e = bytes[i + 1];
            match simple_escape_of(e) {
                Some(d) => {
                    acc.push(d);
                    i = i + 2;
                },
                None => {
                    if 48 <= e && e <= 57 {
                        let ghost cnt = escape_digits(b, i + 1);
                        let mut value: u32 = 0;
                        let mut digits: usize = 0;
                        let j = i + 1;
                        while digits < 3 && digits < n - j && digit_at_exec(bytes, j + digits)
                            invariant
                                i + 1 < b.len(),
                                j == i + 1,
                                n == b.len(),
                                b == bytes@,
                                digits <= 3,
                                digit_at(b, i + 1),
                                digits >= 2 ==> digit_at(b, i + 2),
                                digits >= 3 ==> digit_at(b, i + 3),
                                value as int == dec_value(b.subrange(i + 1, i + 1 + digits)),
                                value <= 999,
                                digits == 0 ==> value == 0,
                                digits == 1 ==> value <= 9,
                                digits == 2 ==> value <= 99,
                                digits <= cnt,
                                cnt == escape_digits(b, i + 1),
                            decreases 3 - digits,
                        {
                            assert(b.subrange(i + 1, i + 2 + digits).drop_last() == b.subrange(i + 1, i + 1 + digits));
                            value = value * 10 + (bytes[j + digits] - 48) as u32;
                            digits = digits + 1;
                        }
                        assert(digits == cnt);
                        if value > 255 {
                            return Err(LexError { offset: i, message: "\\ddd escape above 255".to_owned() });
                        }
                        if value >= 128 {
                            return Err(LexError {
                                offset: i + digits - 1,
                                message: "non-ASCII literal byte (fenced, D-056)".to_owned(),
                            });
                        }
                        acc.push(value as u8);
                        i = i + digits + 1;
                    } else {
                        let mut tail: Vec<char> = Vec::new();
                        tail.push(e as char);
                        assert(tail@ == seq![e as char]);
                        return Err(text_err(i, "unsupported escape \\", tail));
                    }
                },
            }
        } else if c == q {
            return Ok((ascii_string_of(&acc), i + 1));
        } else if c >= 128 {
            return Err(LexError { offset: i, message: "non-ASCII literal byte (fenced, D-056)".to_owned() });
        } else {
            acc.push(c);
            i = i + 1;
        }
    }
}

fn ascii_string_of(v: &Vec<u8>) -> (r: String)
    ensures
        r@ == ascii_text(v@),
{
    let s = v.as_slice();
    let r = ascii_string(s, 0, s.len());
    assert(s@.subrange(0, s@.len() as int) == v@);
    r
}

fn hex_char_of(d: u8) -> (c: char)
    requires
        d < 16,
    ensures
        c == hex_char(d as int),
{
    if d < 10 { (d + 48) as char } else { (d + 87) as char }
}

pub open spec fn prepend_all(p: Seq<(Lexeme, int)>, r: Result<Seq<(Lexeme, int)>, Fail>) -> Result<Seq<(Lexeme, int)>, Fail> {
    match r {
        Ok(s) => Ok(p + s),
        Err(e) => Err(e),
    }
}

proof fn lemma_prepend_step(p: Seq<(Lexeme, int)>, x: (Lexeme, int), r: Result<Seq<(Lexeme, int)>, Fail>)
    ensures
        prepend_all(p.push(x), r) == prepend_all(p, prepend(x, r)),
{
    if let Ok(s) = r {
        assert(p.push(x) + s == p + (seq![x] + s));
    }
}

proof fn lemma_push_token(v: Seq<Spanned>, s: Spanned)
    ensures
        lexemes(v.push(s)) == lexemes(v).push((s.token.lexeme(), s.start as int)),
{
    assert(lexemes(v.push(s)) =~= lexemes(v).push((s.token.lexeme(), s.start as int)));
}

/// Lexes femto_lua source text.
pub fn lex(source: &str) -> (r: Result<Vec<Spanned>, LexError>)
    ensures
        match (r, lex_spec(source.spec_bytes())) {
            (Ok(v), Ok(s)) => lexemes(v@) == s,
            (Err(e), Err((o, m))) => e.offset == o && e.message@ == m,
            _ => false,
        },
{
    let bytes = source.as_bytes();
    let ghost b = bytes@;
    let n = bytes.len();
    let mut tokens: Vec<Spanned> = Vec::new();
    let mut i: usize = 0;
    assert(lexemes(tokens@) =~= Seq::<(Lexeme, int)>::empty());
    assert(Seq::<(Lexeme, int)>::empty() + Seq::<(Lexeme, int)>::empty() =~= Seq::<(Lexeme, int)>::empty());
    while i < n
        invariant
            i <= n,
            n == b.len(),
            b == bytes@,
            b == source.spec_bytes(),
            lex_spec(b) == prepend_all(lexemes(tokens@), lex_from(b, i as int)),
        decreases n - i,
    {
        let c = bytes[i];
        let ghost before = tokens@;
        let mut push: Option<(Token, usize)> = None;
        if c == 32 || c == 9 || c == 13 || c == 10 {
            i = i + 1;
        } else if c == 45 && byte_is(bytes, i + 1, 45) {
            if byte_is(bytes, i + 2, 91) && byte_is(bytes, i + 3, 91) {
                return Err(LexError { offset: i, message: "long comments are fenced in v0.1 (D-052)".to_owned() });
            }
            proof {
                lemma_scan_while(b, i as int, ByteClass::NotNewline);
            }
            i = scan(bytes, i, ByteClass::NotNewline);
        } else if single_of(c).is_some() {
            push = Some((single_of(c).unwrap(), 1));
        } else if c == 91 {
            if byte_is(bytes, i + 1, 91) {
                return Err(LexError { offset: i, message: "long strings are fenced in v0.1 (D-052)".to_owned() });
            }
            push = Some((Token::LBracket, 1));
        } else if c == 61 {
            push = if byte_is(bytes, i + 1, 61) { Some((Token::EqEq, 2)) } else { Some((Token::Assign, 1)) };
        } else if c == 126 {
            if !byte_is(bytes, i + 1, 61) {
                return Err(LexError { offset: i, message: "stray ~".to_owned() });
            }
            push = Some((Token::NotEq, 2));
        } else if c == 60 {
            push = if byte_is(bytes, i + 1, 61) { Some((Token::LessEq, 2)) } else { Some((Token::Less, 1)) };
        } else if c == 62 {
            push = if byte_is(bytes, i + 1, 61) { Some((Token::GreaterEq, 2)) } else { Some((Token::Greater, 1)) };
        } else if c == 46 && byte_is(bytes, i + 1, 46) {
            push = if byte_is(bytes, i + 2, 46) { Some((Token::Dots, 3)) } else { Some((Token::Concat, 2)) };
        } else if (48 <= c && c <= 57) || (c == 46 && digit_at_exec(bytes, i + 1)) {
            match number(bytes, i) {
                Err(e) => {
                    return Err(e);
                },
                Ok((lit, e)) => {
                    let s = Spanned { token: Token::Number(lit), start: i };
                    proof {
                        lemma_push_token(tokens@, s);
                        lemma_prepend_step(lexemes(tokens@), (s.token.lexeme(), i as int), lex_from(b, e as int));
                    }
                    tokens.push(s);
                    i = e;
                },
            }
        } else if c == 46 {
            push = Some((Token::Dot, 1));
        } else if c == 39 || c == 34 {
            match string_lit(bytes, i, c) {
                Err(e) => {
                    return Err(e);
                },
                Ok((text, e)) => {
                    let s = Spanned { token: Token::Str(text), start: i };
                    proof {
                        lemma_push_token(tokens@, s);
                        lemma_prepend_step(lexemes(tokens@), (s.token.lexeme(), i as int), lex_from(b, e as int));
                    }
                    tokens.push(s);
                    i = e;
                },
            }
        } else if (97 <= c && c <= 122) || (65 <= c && c <= 90) || c == 95 {
            let e = scan(bytes, i, ByteClass::Word);
            proof {
                lemma_scan_while(b, i as int, ByteClass::Word);
            }
            let t = match keyword_of(bytes, i, e) {
                Some(k) => k,
                None => Token::Name(ascii_string(bytes, i, e)),
            };
            let s = Spanned { token: t, start: i };
            proof {
                lemma_push_token(tokens@, s);
                lemma_prepend_step(lexemes(tokens@), (s.token.lexeme(), i as int), lex_from(b, e as int));
            }
            tokens.push(s);
            i = e;
        } else {
            let mut tail: Vec<char> = Vec::new();
            tail.push(hex_char_of(c / 16));
            tail.push(hex_char_of(c % 16));
            assert(tail@ == hex2(c));
            return Err(text_err(i, "unexpected byte 0x", tail));
        }
        if let Some((t, w)) = push {
            let s = Spanned { token: t, start: i };
            proof {
                lemma_push_token(tokens@, s);
                lemma_prepend_step(lexemes(tokens@), (s.token.lexeme(), i as int), lex_from(b, i + w));
            }
            tokens.push(s);
            i = i + w;
        }
    }
    Ok(tokens)
}

} // verus!

verus! {

/// The arithmetic operators are the bytes written: `+` is `Plus`, `-`
/// not followed by another `-` is `Minus`, `*` is `Star`, `/` is
/// `Slash`, `%` is `Percent`; `..` not followed by a third `.` is
/// `Concat`, each token at its first byte.
pub proof fn law_operator_lexemes(b: Seq<u8>, i: int)
    requires
        0 <= i < b.len(),
    ensures
        b[i] == 43 ==> lex_from(b, i) == prepend(tok(Token::Plus, i), lex_from(b, i + 1)),
        b[i] == 45 && byte_at(b, i + 1) != Some(45u8) ==> lex_from(b, i) == prepend(tok(Token::Minus, i), lex_from(b, i + 1)),
        b[i] == 42 ==> lex_from(b, i) == prepend(tok(Token::Star, i), lex_from(b, i + 1)),
        b[i] == 47 ==> lex_from(b, i) == prepend(tok(Token::Slash, i), lex_from(b, i + 1)),
        b[i] == 37 ==> lex_from(b, i) == prepend(tok(Token::Percent, i), lex_from(b, i + 1)),
        b[i] == 46 && byte_at(b, i + 1) == Some(46u8) && byte_at(b, i + 2) != Some(46u8)
            ==> lex_from(b, i) == prepend(tok(Token::Concat, i), lex_from(b, i + 2)),
{
}

} // verus!
