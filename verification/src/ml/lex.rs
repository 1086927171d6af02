//! Lexer for the ml_core subset: integers, identifiers, keywords,
//! punctuation, nested `(* *)` comments, and `;;` as noise. Offsets are
//! byte offsets into the UTF-8 source.

use vstd::prelude::*;
use crate::text::{byte_offset, chars_with_offsets, string_of};

verus! {

#[derive(Clone, Debug, PartialEq, Eq)]
pub enum Token {
    Int(i64),
    LIdent(String),
    UIdent(String),
    // Keywords.
    Let,
    Rec,
    And,
    In,
    Fun,
    If,
    Then,
    Else,
    Match,
    With,
    Type,
    Of,
    True,
    False,
    // Symbols.
    LParen,
    RParen,
    Comma,
    Arrow,
    Bar,
    Underscore,
    Plus,
    Minus,
    Star,
    Slash,
    Equal,
    NotEqual,
    Less,
    Greater,
    LessEq,
    GreaterEq,
    AndAnd,
    OrOr,
}

/// A token as a mathematical value: identifier text as characters;
/// every other token as itself.
pub enum Lexeme {
    LIdent(Seq<char>),
    UIdent(Seq<char>),
    Other(Token),
}

impl Token {
    pub open spec fn lexeme(self) -> Lexeme {
        match self {
            Token::LIdent(s) => Lexeme::LIdent(s@),
            Token::UIdent(s) => Lexeme::UIdent(s@),
            other => Lexeme::Other(other),
        }
    }
}

#[derive(Clone, Debug)]
pub struct Spanned {
    pub token: Token,
    pub offset: usize,
}

#[derive(Debug)]
pub struct LexError {
    pub offset: usize,
    pub message: String,
}

/// The keyword a word spells, if any (`_` alone is the wildcard).
pub open spec fn keyword(w: Seq<char>) -> Option<Token> {
    if w == "let"@ { Some(Token::Let) }
    else if w == "rec"@ { Some(Token::Rec) }
    else if w == "and"@ { Some(Token::And) }
    else if w == "in"@ { Some(Token::In) }
    else if w == "fun"@ { Some(Token::Fun) }
    else if w == "if"@ { Some(Token::If) }
    else if w == "then"@ { Some(Token::Then) }
    else if w == "else"@ { Some(Token::Else) }
    else if w == "match"@ { Some(Token::Match) }
    else if w == "with"@ { Some(Token::With) }
    else if w == "type"@ { Some(Token::Type) }
    else if w == "of"@ { Some(Token::Of) }
    else if w == "true"@ { Some(Token::True) }
    else if w == "false"@ { Some(Token::False) }
    else if w == "_"@ { Some(Token::Underscore) }
    else { None }
}

/// The token a word lexes to: its keyword, else an upper- or
/// lower-case identifier by its first character.
pub open spec fn word_lexeme(w: Seq<char>) -> Lexeme {
    match keyword(w) {
        Some(t) => Lexeme::Other(t),
        None => if w.len() > 0 && 'A' <= w[0] <= 'Z' {
            Lexeme::UIdent(w)
        } else {
            Lexeme::LIdent(w)
        },
    }
}

pub open spec fn is_ascii_digit(c: char) -> bool {
    '0' <= c <= '9'
}

pub open spec fn is_word_start(c: char) -> bool {
    ('a' <= c <= 'z') || ('A' <= c <= 'Z') || c == '_'
}

pub open spec fn is_word_char(c: char) -> bool {
    ('a' <= c <= 'z') || ('A' <= c <= 'Z') || ('0' <= c <= '9') || c == '_' || c == '\''
}

/// The end of a run of characters satisfying `digit`-or-`word` from `k`.
pub open spec fn run_end(c: Seq<char>, k: int, word: bool) -> int
    decreases c.len() - k,
{
    if k < 0 || k >= c.len() || !(if word { is_word_char(c[k]) } else { is_ascii_digit(c[k]) }) {
        k
    } else {
        run_end(c, k + 1, word)
    }
}

pub proof fn lemma_run_end(c: Seq<char>, k: int, word: bool)
    requires
        0 <= k <= c.len(),
    ensures
        k <= run_end(c, k, word) <= c.len(),
        forall|j: int| k <= j < run_end(c, k, word) ==> (if word { is_word_char(#[trigger] c[j]) } else { is_ascii_digit(c[j]) }),
        run_end(c, k, word) < c.len() ==> !(if word { is_word_char(c[run_end(c, k, word)]) } else { is_ascii_digit(c[run_end(c, k, word)]) }),
    decreases c.len() - k,
{
    if k < c.len() && (if word { is_word_char(c[k]) } else { is_ascii_digit(c[k]) }) {
        lemma_run_end(c, k + 1, word);
    }
}

/// Where a comment whose body starts at `i` with `depth` open levels
/// ends (just past its last `*)`), or `None` when input runs out first.
pub open spec fn comment_close(c: Seq<char>, i: int, depth: nat) -> Option<int>
    decreases c.len() - i, depth,
{
    if depth == 0 {
        Some(i)
    } else if i < 0 || i + 1 >= c.len() {
        None
    } else if c[i] == '(' && c[i + 1] == '*' {
        comment_close(c, i + 2, depth + 1)
    } else if c[i] == '*' && c[i + 1] == ')' {
        comment_close(c, i + 2, (depth - 1) as nat)
    } else {
        comment_close(c, i + 1, depth)
    }
}

pub proof fn lemma_comment_close(c: Seq<char>, i: int, depth: nat)
    requires
        0 <= i,
    ensures
        comment_close(c, i, depth) matches Some(e) ==> i <= e && (depth > 0 ==> e <= c.len()),
    decreases c.len() - i, depth,
{
    if depth > 0 && i + 1 < c.len() {
        if c[i] == '(' && c[i + 1] == '*' {
            lemma_comment_close(c, i + 2, depth + 1);
        } else if c[i] == '*' && c[i + 1] == ')' {
            lemma_comment_close(c, i + 2, (depth - 1) as nat);
        } else {
            lemma_comment_close(c, i + 1, depth);
        }
    }
}

/// The value of a run of decimal digits.
pub open spec fn digits_value(t: Seq<char>) -> int
    decreases t.len(),
{
    if t.len() == 0 {
        0
    } else {
        digits_value(t.drop_last()) * 10 + ((t.last() as u32) as int - ('0' as u32) as int)
    }
}

/// The first byte of a character's UTF-8 encoding, read as a character
/// (the Latin-1 reading the lexer reports non-ASCII input with).
pub open spec fn lead_byte_char(ch: char) -> char {
    (vstd::utf8::encode_scalar(ch as u32)[0] as u32) as char
}

/// The text `format!("{:?}", c)` renders for a character: quoted, with
/// Rust's debug escapes.
pub uninterp spec fn debug_char_text(c: char) -> Seq<char>;

/// A single-character token.
pub open spec fn single_token(ch: char) -> Option<Token> {
    if ch == '(' { Some(Token::LParen) }
    else if ch == ')' { Some(Token::RParen) }
    else if ch == ',' { Some(Token::Comma) }
    else if ch == '|' { Some(Token::Bar) }
    else if ch == '+' { Some(Token::Plus) }
    else if ch == '-' { Some(Token::Minus) }
    else if ch == '*' { Some(Token::Star) }
    else if ch == '/' { Some(Token::Slash) }
    else if ch == '=' { Some(Token::Equal) }
    else if ch == '<' { Some(Token::Less) }
    else if ch == '>' { Some(Token::Greater) }
    else { None }
}

/// A two-character token.
pub open spec fn double_token(a: char, b: char) -> Option<Token> {
    if a == '|' && b == '|' { Some(Token::OrOr) }
    else if a == '&' && b == '&' { Some(Token::AndAnd) }
    else if a == '-' && b == '>' { Some(Token::Arrow) }
    else if a == '<' && b == '>' { Some(Token::NotEqual) }
    else if a == '<' && b == '=' { Some(Token::LessEq) }
    else if a == '>' && b == '=' { Some(Token::GreaterEq) }
    else { None }
}

/// A lexing failure: byte offset and message.
pub type LexFailure = (int, Seq<char>);

pub open spec fn prepend(x: (Lexeme, int), r: Result<Seq<(Lexeme, int)>, LexFailure>) -> Result<Seq<(Lexeme, int)>, LexFailure> {
    match r {
        Ok(s) => Ok(seq![x] + s),
        Err(e) => Err(e),
    }
}

/// The tokens of `c` from character `k` on, each with its byte offset;
/// or the first failure.
pub open spec fn lex_from(c: Seq<char>, k: int) -> Result<Seq<(Lexeme, int)>, LexFailure>
    decreases c.len() - k,
{
    if k < 0 || k >= c.len() {
        Ok(Seq::empty())
    } else {
        let ch = c[k];
        let off = byte_offset(c, k) as int;
        let next = if k + 1 < c.len() { c[k + 1] } else { ' ' };
        if ch == ' ' || ch == '\t' || ch == '\r' || ch == '\n' {
            lex_from(c, k + 1)
        } else if ch == '(' && k + 1 < c.len() && next == '*' {
            proof {
                lemma_comment_close(c, k + 2, 1);
            }
            match comment_close(c, k + 2, 1) {
                Some(e) => lex_from(c, e),
                None => Err((off, "unterminated comment"@)),
            }
        } else if k + 1 < c.len() && double_token(ch, next) is Some {
            prepend((Lexeme::Other(double_token(ch, next)->0), off), lex_from(c, k + 2))
        } else if ch == ';' && k + 1 < c.len() && next == ';' {
            lex_from(c, k + 2)
        } else if single_token(ch) is Some {
            prepend((Lexeme::Other(single_token(ch)->0), off), lex_from(c, k + 1))
        } else if is_ascii_digit(ch) {
            proof {
                lemma_run_end(c, k, false);
            }
            let e = run_end(c, k, false);
            let text = c.subrange(k, e);
            if digits_value(text) <= i64::MAX {
                prepend((Lexeme::Other(Token::Int(digits_value(text) as i64)), off), lex_from(c, e))
            } else {
                Err((off, "integer literal out of range: "@ + text))
            }
        } else if is_word_start(ch) {
            proof {
                lemma_run_end(c, k + 1, true);
            }
            let e = run_end(c, k + 1, true);
            prepend((word_lexeme(c.subrange(k, e)), off), lex_from(c, e))
        } else {
            Err((off, "unexpected character "@ + debug_char_text(lead_byte_char(ch))))
        }
    }
}

/// The tokens of a whole source text.
pub open spec fn lex_spec(c: Seq<char>) -> Result<Seq<(Lexeme, int)>, LexFailure> {
    lex_from(c, 0)
}

/// The spanned tokens as (lexeme, offset) pairs.
pub open spec fn lexemes(v: Seq<Spanned>) -> Seq<(Lexeme, int)> {
    v.map_values(|s: Spanned| (s.token.lexeme(), s.offset as int))
}

/// Every integer token holds a non-negative value (literals carry no
/// sign).
pub open spec fn ints_nonneg(t: Seq<(Lexeme, int)>) -> bool {
    forall|j: int| 0 <= j < t.len() ==> match #[trigger] t[j].0 {
        Lexeme::Other(Token::Int(v)) => v >= 0,
        _ => true,
    }
}

/// How a token reads in messages: an integer in decimal, an identifier
/// as its name, any other token by its variant's name.
pub open spec fn lexeme_text(l: Lexeme) -> Seq<char> {
    match l {
        Lexeme::LIdent(n) => n,
        Lexeme::UIdent(n) => n,
        Lexeme::Other(t) => token_text(t),
    }
}

pub open spec fn token_text(t: Token) -> Seq<char> {
    match t {
            Token::Int(v) => crate::harness::canon::decimal(v as int),
            Token::LIdent(n) => n@,
            Token::UIdent(n) => n@,
            Token::Let => "Let"@,
            Token::Rec => "Rec"@,
            Token::And => "And"@,
            Token::In => "In"@,
            Token::Fun => "Fun"@,
            Token::If => "If"@,
            Token::Then => "Then"@,
            Token::Else => "Else"@,
            Token::Match => "Match"@,
            Token::With => "With"@,
            Token::Type => "Type"@,
            Token::Of => "Of"@,
            Token::True => "True"@,
            Token::False => "False"@,
            Token::LParen => "LParen"@,
            Token::RParen => "RParen"@,
            Token::Comma => "Comma"@,
            Token::Arrow => "Arrow"@,
            Token::Bar => "Bar"@,
            Token::Underscore => "Underscore"@,
            Token::Plus => "Plus"@,
            Token::Minus => "Minus"@,
            Token::Star => "Star"@,
            Token::Slash => "Slash"@,
            Token::Equal => "Equal"@,
            Token::NotEqual => "NotEqual"@,
            Token::Less => "Less"@,
            Token::Greater => "Greater"@,
            Token::LessEq => "LessEq"@,
            Token::GreaterEq => "GreaterEq"@,
            Token::AndAnd => "AndAnd"@,
            Token::OrOr => "OrOr"@,
    }
}

impl Token {
    /// The token as messages show it.
    pub fn text(&self) -> (s: String)
        ensures
            s@ == token_text(*self),
    {
        match self {
            Token::Int(v) => string_of(&crate::harness::canon::decimal_chars(*v)),
            Token::LIdent(n) => n.clone(),
            Token::UIdent(n) => n.clone(),
            Token::Let => "Let".to_owned(),
            Token::Rec => "Rec".to_owned(),
            Token::And => "And".to_owned(),
            Token::In => "In".to_owned(),
            Token::Fun => "Fun".to_owned(),
            Token::If => "If".to_owned(),
            Token::Then => "Then".to_owned(),
            Token::Else => "Else".to_owned(),
            Token::Match => "Match".to_owned(),
            Token::With => "With".to_owned(),
            Token::Type => "Type".to_owned(),
            Token::Of => "Of".to_owned(),
            Token::True => "True".to_owned(),
            Token::False => "False".to_owned(),
            Token::LParen => "LParen".to_owned(),
            Token::RParen => "RParen".to_owned(),
            Token::Comma => "Comma".to_owned(),
            Token::Arrow => "Arrow".to_owned(),
            Token::Bar => "Bar".to_owned(),
            Token::Underscore => "Underscore".to_owned(),
            Token::Plus => "Plus".to_owned(),
            Token::Minus => "Minus".to_owned(),
            Token::Star => "Star".to_owned(),
            Token::Slash => "Slash".to_owned(),
            Token::Equal => "Equal".to_owned(),
            Token::NotEqual => "NotEqual".to_owned(),
            Token::Less => "Less".to_owned(),
            Token::Greater => "Greater".to_owned(),
            Token::LessEq => "LessEq".to_owned(),
            Token::GreaterEq => "GreaterEq".to_owned(),
            Token::AndAnd => "AndAnd".to_owned(),
            Token::OrOr => "OrOr".to_owned(),
        }
    }
}

} // verus!

verus! {

/// Trusted: calls std's `Debug for char` through `format!("{:?}", ..)`.
/// The quoting and escaping rules are std's; the contract only names
/// the result as a function of the character.
#[verifier::external_body]
fn debug_char(c: char) -> (r: String)
    ensures
        r@ == debug_char_text(c),
{
    format!("{:?}", c)
}

fn lead_byte(ch: char) -> (b: char)
    ensures
        b == lead_byte_char(ch),
{
    broadcast use vstd::utf8::char_is_scalar;
    let u = ch as u32;
    let byte: u8 = if u <= 0x7F {
        (u & 0x7F) as u8
    } else if u <= 0x7FF {
        0xC0 | ((u >> 6) & 0x1F) as u8
    } else if u <= 0xFFFF {
        0xE0 | ((u >> 12) & 0x0F) as u8
    } else {
        0xF0 | ((u >> 18) & 0x7) as u8
    };
    byte as char
}

fn keyword_of(chars: &Vec<char>, s: usize, e: usize) -> (r: Option<Token>)
    requires
        s <= e <= chars@.len(),
    ensures
        r == keyword(chars@.subrange(s as int, e as int)),
{
    let is = |lit: &str| -> (b: bool)
        requires s <= e <= chars@.len(),
        ensures b == (chars@.subrange(s as int, e as int) == lit@),
        { crate::text::range_is(chars, s, e, lit) };
    if is("let") { Some(Token::Let) }
    else if is("rec") { Some(Token::Rec) }
    else if is("and") { Some(Token::And) }
    else if is("in") { Some(Token::In) }
    else if is("fun") { Some(Token::Fun) }
    else if is("if") { Some(Token::If) }
    else if is("then") { Some(Token::Then) }
    else if is("else") { Some(Token::Else) }
    else if is("match") { Some(Token::Match) }
    else if is("with") { Some(Token::With) }
    else if is("type") { Some(Token::Type) }
    else if is("of") { Some(Token::Of) }
    else if is("true") { Some(Token::True) }
    else if is("false") { Some(Token::False) }
    else if is("_") { Some(Token::Underscore) }
    else { None }
}

fn single_of(ch: char) -> (r: Option<Token>)
    ensures
        r == single_token(ch),
{
    if ch == '(' { Some(Token::LParen) }
    else if ch == ')' { Some(Token::RParen) }
    else if ch == ',' { Some(Token::Comma) }
    else if ch == '|' { Some(Token::Bar) }
    else if ch == '+' { Some(Token::Plus) }
    else if ch == '-' { Some(Token::Minus) }
    else if ch == '*' { Some(Token::Star) }
    else if ch == '/' { Some(Token::Slash) }
    else if ch == '=' { Some(Token::Equal) }
    else if ch == '<' { Some(Token::Less) }
    else if ch == '>' { Some(Token::Greater) }
    else { None }
}

fn double_of(a: char, b: char) -> (r: Option<Token>)
    ensures
        r == double_token(a, b),
{
    if a == '|' && b == '|' { Some(Token::OrOr) }
    else if a == '&' && b == '&' { Some(Token::AndAnd) }
    else if a == '-' && b == '>' { Some(Token::Arrow) }
    else if a == '<' && b == '>' { Some(Token::NotEqual) }
    else if a == '<' && b == '=' { Some(Token::LessEq) }
    else if a == '>' && b == '=' { Some(Token::GreaterEq) }
    else { None }
}

pub open spec fn prepend_all(p: Seq<(Lexeme, int)>, r: Result<Seq<(Lexeme, int)>, LexFailure>) -> Result<Seq<(Lexeme, int)>, LexFailure> {
    match r {
        Ok(s) => Ok(p + s),
        Err(e) => Err(e),
    }
}

proof fn lemma_prepend_step(p: Seq<(Lexeme, int)>, x: (Lexeme, int), r: Result<Seq<(Lexeme, int)>, LexFailure>)
    ensures
        prepend_all(p.push(x), r) == prepend_all(p, prepend(x, r)),
{
    if let Ok(s) = r {
        assert(p.push(x) + s == p + (seq![x] + s));
    }
}

proof fn lemma_digits_prefix(t: Seq<char>, k: int)
    requires
        0 <= k <= t.len(),
        forall|i: int| 0 <= i < t.len() ==> is_ascii_digit(#[trigger] t[i]),
    ensures
        0 <= digits_value(t.take(k)) <= digits_value(t),
    decreases t.len() - k,
{
    if k < t.len() {
        lemma_digits_prefix(t, k + 1);
        assert(t.take(k + 1).drop_last() == t.take(k));
        assert(is_ascii_digit(t.take(k + 1).last()));
    } else {
        assert(t.take(k) == t);
        lemma_digits_nonneg(t);
    }
}

proof fn lemma_digits_nonneg(t: Seq<char>)
    requires
        forall|i: int| 0 <= i < t.len() ==> is_ascii_digit(#[trigger] t[i]),
    ensures
        digits_value(t) >= 0,
    decreases t.len(),
{
    if t.len() > 0 {
        let p = t.drop_last();
        assert(forall|i: int| 0 <= i < p.len() ==> p[i] == t[i]);
        lemma_digits_nonneg(p);
        assert(is_ascii_digit(t[t.len() - 1]));
    }
}

/// Lexes ml_core source text.
pub fn lex(source: &str) -> (r: Result<Vec<Spanned>, LexError>)
    ensures
        match (r, lex_spec(source@)) {
            (Ok(v), Ok(s)) => lexemes(v@) == s,
            (Err(e), Err((off, msg))) => e.offset == off && e.message@ == msg,
            _ => false,
        },
        r matches Ok(v) ==> ints_nonneg(lexemes(v@)),
{
    let (chars, offs) = chars_with_offsets(source);
    let ghost c = chars@;
    let n = chars.len();
    let mut tokens: Vec<Spanned> = Vec::new();
    let mut i: usize = 0;
    assert(lexemes(tokens@) == Seq::<(Lexeme, int)>::empty());
    assert(Seq::<(Lexeme, int)>::empty() + Seq::<(Lexeme, int)>::empty() == Seq::<(Lexeme, int)>::empty());
    while i < n
        invariant
            i <= n,
            n == c.len(),
            c == chars@,
            c == source@,
            crate::scheme::reader::offsets_of(c, offs@),
            lex_spec(c) == prepend_all(lexemes(tokens@), lex_from(c, i as int)),
            ints_nonneg(lexemes(tokens@)),
        decreases n - i,
    {
        let ch = chars[i];
        let off = offs[i];
        let next = if i + 1 < n { chars[i + 1] } else { ' ' };
        let ghost before = tokens@;
        if ch == ' ' || ch == '\t' || ch == '\r' || ch == '\n' {
            i = i + 1;
        } else if ch == '(' && i + 1 < n && next == '*' {
            proof {
                lemma_comment_close(c, i + 2, 1);
            }
            let start = off;
            let mut depth: usize = 1;
            let mut j = i + 2;
            assert(lex_from(c, i as int) == (match comment_close(c, i + 2, 1) {
                Some(e) => lex_from(c, e),
                None => Err((start as int, "unterminated comment"@)),
            }));
            while depth > 0
                invariant
                    i + 2 <= j <= n,
                    n == c.len(),
                    c == chars@,
                    c == source@,
                    depth <= j,
                    comment_close(c, i + 2, 1) == comment_close(c, j as int, depth as nat),
                    lex_spec(c) == prepend_all(lexemes(tokens@), lex_from(c, i as int)),
                    lex_from(c, i as int) == (match comment_close(c, i + 2, 1) {
                        Some(e) => lex_from(c, e),
                        None => Err((start as int, "unterminated comment"@)),
                    }),
                decreases n - j, depth,
            {
                if n - j <= 1 {
                    assert(comment_close(c, j as int, depth as nat) is None);
                    return Err(LexError { offset: start, message: "unterminated comment".to_owned() });
                }
                if chars[j] == '(' && chars[j + 1] == '*' {
                    depth = depth + 1;
                    j = j + 2;
                } else if chars[j] == '*' && chars[j + 1] == ')' {
                    depth = depth - 1;
                    j = j + 2;
                } else {
                    j = j + 1;
                }
            }
            assert(comment_close(c, j as int, depth as nat) == Some(j as int));
            i = j;
        } else if i + 1 < n && double_of(ch, next).is_some() {
            let t = double_of(ch, next).unwrap();
            tokens.push(Spanned { token: t, offset: off });
            proof {
                assert(lexemes(tokens@) == lexemes(before).push((t.lexeme(), off as int)));
                lemma_prepend_step(lexemes(before), (t.lexeme(), off as int), lex_from(c, i + 2));
            }
            i = i + 2;
        } else if ch == ';' && i + 1 < n && next == ';' {
            i = i + 2;
        } else if single_of(ch).is_some() {
            let t = single_of(ch).unwrap();
            tokens.push(Spanned { token: t, offset: off });
            proof {
                assert(lexemes(tokens@) == lexemes(before).push((t.lexeme(), off as int)));
                lemma_prepend_step(lexemes(before), (t.lexeme(), off as int), lex_from(c, i + 1));
            }
            i = i + 1;
        } else if '0' <= ch && ch <= '9' {
            proof {
                lemma_run_end(c, i as int, false);
            }
            let start = i;
            let ghost e = run_end(c, i as int, false);
            let ghost text = c.subrange(i as int, e);
            proof {
                assert forall|q: int| 0 <= q < text.len() implies is_ascii_digit(#[trigger] text[q]) by {
                    assert(text[q] == c[i + q]);
                }
            }
            let mut value: u64 = 0;
            let mut overflow = false;
            while i < n && '0' <= chars[i] && chars[i] <= '9'
                invariant
                    start <= i <= e <= n,
                    n == c.len(),
                    c == chars@,
                    e == run_end(c, start as int, false),
                    text == c.subrange(start as int, e),
                    forall|q: int| 0 <= q < text.len() ==> is_ascii_digit(#[trigger] text[q]),
                    run_end(c, i as int, false) == e,
                    !overflow ==> value as int == digits_value(c.subrange(start as int, i as int)),
                    !overflow ==> value <= i64::MAX,
                    overflow ==> digits_value(text) > i64::MAX,
                decreases n - i,
            {
                proof {
                    lemma_run_end(c, i + 1, false);
                }
                if !overflow {
                    let d = (chars[i] as u32 - '0' as u32) as u64;
                    assert(c.subrange(start as int, i + 1).drop_last() == c.subrange(start as int, i as int));
                    assert(c.subrange(start as int, i + 1) == text.take(i + 1 - start));
                    proof {
                        lemma_digits_prefix(text, i + 1 - start);
                    }
                    if value > (0x7fff_ffff_ffff_ffffu64 - d) / 10 {
                        overflow = true;
                    } else {
                        value = value * 10 + d;
                    }
                }
                i = i + 1;
            }
            assert(c.subrange(start as int, i as int) == text);
            if overflow {
                let t = crate::text::slice_chars(&chars, start, i);
                let mut msg = crate::text::chars_of("integer literal out of range: ");
                let mut tt = t;
                msg.append(&mut tt);
                return Err(LexError { offset: off, message: string_of(&msg) });
            }
            let t = Token::Int(value as i64);
            tokens.push(Spanned { token: t, offset: off });
            proof {
                assert(lexemes(tokens@) == lexemes(before).push((t.lexeme(), off as int)));
                lemma_prepend_step(lexemes(before), (t.lexeme(), off as int), lex_from(c, i as int));
            }
        } else if ('a' <= ch && ch <= 'z') || ('A' <= ch && ch <= 'Z') || ch == '_' {
            proof {
                lemma_run_end(c, i + 1, true);
            }
            let start = i;
            let ghost e = run_end(c, i + 1, true);
            i = i + 1;
            while i < n && (('a' <= chars[i] && chars[i] <= 'z') || ('A' <= chars[i] && chars[i] <= 'Z')
                || ('0' <= chars[i] && chars[i] <= '9') || chars[i] == '_' || chars[i] == '\'')
                invariant
                    start < i <= e <= n,
                    n == c.len(),
                    c == chars@,
                    run_end(c, i as int, true) == e,
                decreases n - i,
            {
                proof {
                    lemma_run_end(c, i + 1, true);
                }
                i = i + 1;
            }
            let t = match keyword_of(&chars, start, i) {
                Some(k) => k,
                None => {
                    let w = crate::text::slice_chars(&chars, start, i);
                    if 'A' <= chars[start] && chars[start] <= 'Z' {
                        Token::UIdent(string_of(&w))
                    } else {
                        Token::LIdent(string_of(&w))
                    }
                },
            };
            tokens.push(Spanned { token: t, offset: off });
            proof {
                assert(t.lexeme() == word_lexeme(c.subrange(start as int, i as int)));
                assert(lexemes(tokens@) == lexemes(before).push((t.lexeme(), off as int)));
                lemma_prepend_step(lexemes(before), (t.lexeme(), off as int), lex_from(c, i as int));
            }
        } else {
            let shown = debug_char(lead_byte(ch));
            let mut msg = crate::text::chars_of("unexpected character ");
            let mut s = crate::text::chars_of(shown.as_str());
            msg.append(&mut s);
            return Err(LexError { offset: off, message: string_of(&msg) });
        }
    }
    Ok(tokens)
}

} // verus!

verus! {

/// The comparison operators lex as written, the longest match first:
/// `<=` and `<>` and `>=` are one token each; a `<`, `>` or `=` not so
/// continued is `Less`, `Greater` or `Equal`. Each token carries the
/// byte offset of its first character.
pub proof fn law_comparison_lexemes(c: Seq<char>, k: int)
    requires
        0 <= k < c.len(),
    ensures
        ({
            let off = byte_offset(c, k) as int;
            let next = if k + 1 < c.len() { c[k + 1] } else { ' ' };
            &&& c[k] == '<' && next == '=' ==> lex_from(c, k) == prepend((Lexeme::Other(Token::LessEq), off), lex_from(c, k + 2))
            &&& c[k] == '<' && next == '>' ==> lex_from(c, k) == prepend((Lexeme::Other(Token::NotEqual), off), lex_from(c, k + 2))
            &&& c[k] == '>' && next == '=' ==> lex_from(c, k) == prepend((Lexeme::Other(Token::GreaterEq), off), lex_from(c, k + 2))
            &&& c[k] == '<' && next != '=' && next != '>' ==> lex_from(c, k) == prepend((Lexeme::Other(Token::Less), off), lex_from(c, k + 1))
            &&& c[k] == '>' && next != '=' ==> lex_from(c, k) == prepend((Lexeme::Other(Token::Greater), off), lex_from(c, k + 1))
            &&& c[k] == '=' ==> lex_from(c, k) == prepend((Lexeme::Other(Token::Equal), off), lex_from(c, k + 1))
        }),
{
}

} // verus!
