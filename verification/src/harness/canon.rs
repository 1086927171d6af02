//! The canonicalization filter: the single place where raw runner or
//! oracle output is turned into the bytes that goldens and differential
//! comparisons judge. CRLF and lone CR become LF; non-empty output gains
//! a final LF if it lacks one; interior bytes and extra trailing LFs are
//! left alone (the filter hides line-ending flavor, not bugs).

use vstd::prelude::*;
use crate::text::{chars_of, string_of};

verus! {

/// Line endings normalized: `\r\n` and a lone `\r` both become `\n`.
pub open spec fn normalize_newlines(s: Seq<char>) -> Seq<char>
    decreases s.len(),
{
    if s.len() == 0 {
        Seq::empty()
    } else if s[0] == '\r' && s.len() > 1 && s[1] == '\n' {
        seq!['\n'] + normalize_newlines(s.subrange(2, s.len() as int))
    } else if s[0] == '\r' {
        seq!['\n'] + normalize_newlines(s.subrange(1, s.len() as int))
    } else {
        seq![s[0]] + normalize_newlines(s.subrange(1, s.len() as int))
    }
}

/// The canonical form of raw output.
pub open spec fn canonical(s: Seq<char>) -> Seq<char> {
    let t = normalize_newlines(s);
    if t.len() > 0 && t.last() != '\n' {
        t.push('\n')
    } else {
        t
    }
}

/// Text already in canonical form: no CR anywhere, and, when non-empty,
/// a final LF.
pub open spec fn is_canonical(s: Seq<char>) -> bool {
    &&& forall|i: int| 0 <= i < s.len() ==> s[i] != '\r'
    &&& s.len() > 0 ==> s.last() == '\n'
}

proof fn lemma_normalize_no_cr(s: Seq<char>)
    ensures
        forall|i: int|
            0 <= i < normalize_newlines(s).len() ==> #[trigger] normalize_newlines(s)[i] != '\r',
        normalize_newlines(s).len() <= s.len(),
        s.len() > 0 ==> normalize_newlines(s).len() > 0,
        s.len() > 0 && s.last() == '\n' ==> normalize_newlines(s).last() == '\n',
    decreases s.len(),
{
    if s.len() > 0 {
        let k: int = if s[0] == '\r' && s.len() > 1 && s[1] == '\n' { 2 } else { 1 };
        let rest = s.subrange(k, s.len() as int);
        lemma_normalize_no_cr(rest);
        let head: char = if s[0] == '\r' { '\n' } else { s[0] };
        assert(normalize_newlines(s) == seq![head] + normalize_newlines(rest));
        if s.len() > k {
            assert(rest.last() == s.last());
        }
    }
}

proof fn lemma_normalize_identity(s: Seq<char>)
    requires
        forall|i: int| 0 <= i < s.len() ==> s[i] != '\r',
    ensures
        normalize_newlines(s) == s,
    decreases s.len(),
{
    if s.len() > 0 {
        let rest = s.subrange(1, s.len() as int);
        assert(forall|i: int| 0 <= i < rest.len() ==> rest[i] == s[i + 1]);
        lemma_normalize_identity(rest);
        assert(s == seq![s[0]] + rest);
    }
}

/// The output of the filter is canonical, and empty exactly when the
/// input is empty.
pub proof fn lemma_canonical_shape(s: Seq<char>)
    ensures
        is_canonical(canonical(s)),
        canonical(s).len() == 0 <==> s.len() == 0,
{
    lemma_normalize_no_cr(s);
    let t = normalize_newlines(s);
    if t.len() > 0 && t.last() != '\n' {
        assert forall|i: int| 0 <= i < t.push('\n').len() implies t.push('\n')[i] != '\r' by {
            if i < t.len() {
                assert(t.push('\n')[i] == t[i]);
            }
        }
    }
}

/// Canonical text passes through the filter unchanged.
pub proof fn lemma_canonical_fixes_canonical(s: Seq<char>)
    requires
        is_canonical(s),
    ensures
        canonical(s) == s,
{
    lemma_normalize_identity(s);
}

/// Canonicalization is idempotent: filtering twice equals filtering
/// once.
pub proof fn lemma_canonical_idempotent(s: Seq<char>)
    ensures
        canonical(canonical(s)) == canonical(s),
{
    lemma_canonical_shape(s);
    lemma_canonical_fixes_canonical(canonical(s));
}

/// Normalizes raw runner or oracle output to canonical text.
pub fn canonicalize(raw: &str) -> (out: String)
    ensures
        out@ == canonical(raw@),
{
    let input = chars_of(raw);
    let n = input.len();
    let mut out: Vec<char> = Vec::new();
    let mut i: usize = 0;
    assert(input@.subrange(0, n as int) == input@);
    while i < n
        invariant
            n == input@.len(),
            i <= n,
            input@ == raw@,
            out@ + normalize_newlines(input@.subrange(i as int, n as int))
                == normalize_newlines(raw@),
        decreases n - i,
    {
        let ghost rest = input@.subrange(i as int, n as int);
        let c = input[i];
        if c == '\r' && i + 1 < n && input[i + 1] == '\n' {
            assert(rest.subrange(2, rest.len() as int) == input@.subrange(i + 2, n as int));
            out.push('\n');
            i = i + 2;
        } else if c == '\r' {
            assert(rest.subrange(1, rest.len() as int) == input@.subrange(i + 1, n as int));
            out.push('\n');
            i = i + 1;
        } else {
            assert(rest.subrange(1, rest.len() as int) == input@.subrange(i + 1, n as int));
            out.push(c);
            i = i + 1;
        }
        proof {
            let ghost prev = out@.drop_last();
            assert(out@ == prev + seq![out@.last()]);
        }
        assert(out@ + normalize_newlines(input@.subrange(i as int, n as int))
            == normalize_newlines(raw@)) by {
            let last = out@.last();
            let prev = out@.drop_last();
            assert(prev + (seq![last] + normalize_newlines(input@.subrange(i as int, n as int)))
                == out@ + normalize_newlines(input@.subrange(i as int, n as int)));
        }
    }
    assert(input@.subrange(n as int, n as int) == Seq::<char>::empty());
    assert(out@ + Seq::<char>::empty() == out@);
    let len = out.len();
    if len > 0 && out[len - 1] != '\n' {
        out.push('\n');
    }
    string_of(&out)
}

/// The decimal digit character for `d < 10`.
pub open spec fn digit_char(d: nat) -> char {
    if d == 0 { '0' }
    else if d == 1 { '1' }
    else if d == 2 { '2' }
    else if d == 3 { '3' }
    else if d == 4 { '4' }
    else if d == 5 { '5' }
    else if d == 6 { '6' }
    else if d == 7 { '7' }
    else if d == 8 { '8' }
    else { '9' }
}

/// The decimal digits of `n`, most significant first, no leading zeros.
pub open spec fn decimal_digits(n: nat) -> Seq<char>
    decreases n,
{
    if n < 10 {
        seq![digit_char(n)]
    } else {
        decimal_digits(n / 10).push(digit_char(n % 10))
    }
}

/// The decimal rendering of an integer: a `-` sign for negatives, then
/// its digits.
pub open spec fn decimal(v: int) -> Seq<char> {
    if v < 0 {
        seq!['-'] + decimal_digits((-v) as nat)
    } else {
        decimal_digits(v as nat)
    }
}

fn digit_of(d: u64) -> (c: char)
    requires
        d < 10,
    ensures
        c == digit_char(d as nat),
{
    if d == 0 { '0' }
    else if d == 1 { '1' }
    else if d == 2 { '2' }
    else if d == 3 { '3' }
    else if d == 4 { '4' }
    else if d == 5 { '5' }
    else if d == 6 { '6' }
    else if d == 7 { '7' }
    else if d == 8 { '8' }
    else { '9' }
}

/// The decimal digits of an unsigned integer.
pub fn digits_of(magnitude: u64) -> (out: Vec<char>)
    ensures
        out@ == decimal_digits(magnitude as nat),
{
    let ghost mag = magnitude as nat;
    let mut m = magnitude;
    let mut digits: Vec<char> = Vec::new();
    while m >= 10
        invariant
            decimal_digits(mag) == decimal_digits(m as nat) + digits@,
        decreases m,
    {
        let d = digit_of(m % 10);
        digits.insert(0, d);
        assert(decimal_digits(m as nat) == decimal_digits((m / 10) as nat).push(d));
        assert(decimal_digits((m / 10) as nat) + digits@
            == decimal_digits((m / 10) as nat).push(d) + digits@.subrange(1, digits@.len() as int));
        m = m / 10;
    }
    let d = digit_of(m);
    digits.insert(0, d);
    assert(digits@ == seq![d] + digits@.subrange(1, digits@.len() as int));
    digits
}

/// The decimal characters of an integer, as `decimal` describes them.
pub fn decimal_chars(value: i64) -> (out: Vec<char>)
    ensures
        out@ == decimal(value as int),
{
    let magnitude: u64 = if value < 0 { (0i128 - value as i128) as u64 } else { value as u64 };
    let mut digits = digits_of(magnitude);
    if value < 0 {
        digits.insert(0, '-');
        assert(digits@ == seq!['-'] + digits@.subrange(1, digits@.len() as int));
    }
    digits
}

/// Renders an entry function's `i64` result: its decimal text and one
/// LF, the definition of a golden's output.
pub fn render_i64(value: i64) -> (out: String)
    ensures
        out@ == decimal(value as int).push('\n'),
{
    let mut chars = decimal_chars(value);
    chars.push('\n');
    string_of(&chars)
}

proof fn lemma_digits_shape(n: nat)
    ensures
        decimal_digits(n).len() > 0,
        forall|i: int|
            0 <= i < decimal_digits(n).len() ==> #[trigger] decimal_digits(n)[i] != '\r'
                && decimal_digits(n)[i] != '\n',
    decreases n,
{
    if n >= 10 {
        lemma_digits_shape(n / 10);
        let p = decimal_digits(n / 10);
        let q = p.push(digit_char(n % 10));
        assert forall|i: int| 0 <= i < q.len() implies #[trigger] q[i] != '\r' && q[i] != '\n' by {
            if i < p.len() {
                assert(q[i] == p[i]);
            }
        }
    }
}

/// The value of a decimal digit character (`0` for any other).
pub open spec fn digit_value(c: char) -> nat {
    if c == '1' { 1 }
    else if c == '2' { 2 }
    else if c == '3' { 3 }
    else if c == '4' { 4 }
    else if c == '5' { 5 }
    else if c == '6' { 6 }
    else if c == '7' { 7 }
    else if c == '8' { 8 }
    else if c == '9' { 9 }
    else { 0 }
}

/// `c` is one of `0`..`9`.
pub open spec fn is_digit(c: char) -> bool {
    c == '0' || c == '1' || c == '2' || c == '3' || c == '4' || c == '5' || c == '6' || c == '7' || c == '8' || c == '9'
}

/// The number a string of decimal digits spells, most significant first.
pub open spec fn digits_value(s: Seq<char>) -> nat
    decreases s.len(),
{
    if s.len() == 0 {
        0
    } else {
        digits_value(s.drop_last()) * 10 + digit_value(s.last())
    }
}

/// Reads an optionally signed decimal.
pub open spec fn parse_decimal(s: Seq<char>) -> int {
    if s.len() > 0 && s[0] == '-' {
        -(digits_value(s.subrange(1, s.len() as int)) as int)
    } else {
        digits_value(s) as int
    }
}

proof fn lemma_digit_read_back(d: nat)
    requires
        d < 10,
    ensures
        digit_value(digit_char(d)) == d,
        is_digit(digit_char(d)),
        (digit_char(d) == '0') == (d == 0),
{
}

proof fn lemma_digits_read_back(n: nat)
    ensures
        digits_value(decimal_digits(n)) == n,
        forall|i: int| 0 <= i < decimal_digits(n).len() ==> is_digit(#[trigger] decimal_digits(n)[i]),
        decimal_digits(n)[0] == '0' ==> n == 0,
    decreases n,
{
    if n >= 10 {
        lemma_digits_read_back(n / 10);
        let p = decimal_digits(n / 10);
        let q = p.push(digit_char(n % 10));
        assert(q.drop_last() == p);
        lemma_digit_read_back(n % 10);
        assert(q.last() == digit_char(n % 10));
        assert(decimal_digits(n) == q);
        assert(digits_value(q) == digits_value(p) * 10 + digit_value(q.last()));
        assert(n == (n / 10) * 10 + n % 10);
        assert(digits_value(q) == n);
        assert forall|i: int| 0 <= i < q.len() implies is_digit(#[trigger] q[i]) by {
            if i < p.len() {
                assert(q[i] == p[i]);
            }
        }
        assert(q[0] == p[0]);
    } else {
        lemma_digit_read_back(n);
        let q = decimal_digits(n);
        assert(q == seq![digit_char(n)]);
        assert(q.drop_last() =~= Seq::<char>::empty());
        assert(digits_value(q.drop_last()) == 0);
        assert(q.last() == digit_char(n));
        assert(digits_value(q) == n);
    }
}

/// A rendered decimal reads back as the value it renders: an optional
/// `-` and then digits, with no leading zero but for `0` itself.
pub proof fn law_decimal_reads_back(v: int)
    ensures
        parse_decimal(decimal(v)) == v,
        decimal(v).len() > 0,
        forall|i: int| 0 <= i < decimal(v).len() && !(i == 0 && v < 0) ==> is_digit(#[trigger] decimal(v)[i]),
        (decimal(v)[0] == '-') == (v < 0),
        v != 0 ==> decimal(v)[if v < 0 { 1int } else { 0int }] != '0',
{
    let mag: nat = if v < 0 { (-v) as nat } else { v as nat };
    lemma_digits_read_back(mag);
    lemma_digits_shape(mag);
    let d = decimal(v);
    if v < 0 {
        assert(d.subrange(1, d.len() as int) =~= decimal_digits(mag));
        assert forall|i: int| 0 <= i < d.len() && i != 0 implies is_digit(#[trigger] d[i]) by {
            assert(d[i] == decimal_digits(mag)[i - 1]);
        }
        assert(d[1] == decimal_digits(mag)[0]);
    } else {
        assert(!is_digit('-'));
    }
}

/// A rendered result is already canonical: the filter leaves it alone.
pub proof fn lemma_render_is_canonical(v: int)
    ensures
        is_canonical(decimal(v).push('\n')),
        canonical(decimal(v).push('\n')) == decimal(v).push('\n'),
{
    let mag: nat = if v < 0 { (-v) as nat } else { v as nat };
    lemma_digits_shape(mag);
    let d = decimal(v);
    assert forall|i: int| 0 <= i < d.len() implies d[i] != '\r' by {
        if v < 0 {
            if i > 0 {
                assert(d[i] == decimal_digits(mag)[i - 1]);
            }
        }
    }
    assert forall|i: int| 0 <= i < d.push('\n').len() implies d.push('\n')[i] != '\r' by {
        if i < d.len() {
            assert(d.push('\n')[i] == d[i]);
        }
    }
    lemma_canonical_fixes_canonical(d.push('\n'));
}

} // verus!
