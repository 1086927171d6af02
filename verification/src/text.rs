//! Small conversions between `str`/`String` and character vectors, the
//! shape every verified scanner in this crate works on.

use vstd::prelude::*;

verus! {

/// The characters of `s`, in order.
pub fn chars_of(s: &str) -> (v: Vec<char>)
    ensures
        v@ == s@,
{
    broadcast use vstd::string::group_string_axioms;
    let mut v: Vec<char> = Vec::new();
    for c in it: s.chars()
        invariant
            v@ == it.seq().take(it.index() as int),
            it.seq() == s@,
    {
        v.push(c);
    }
    v
}

} // verus!

verus! {

/// A `String` holding exactly the characters of `v`.
///
/// Trusted: calls std's `FromIterator<&char> for String` (`collect`),
/// whose documentation says it appends every character of the iterator
/// in order; the contract claims nothing more than that.
#[verifier::external_body]
pub fn string_of(v: &[char]) -> (s: String)
    ensures
        s@ == v@,
{
    v.iter().collect()
}

} // verus!

verus! {

/// The UTF-8 encoding length of a character.
pub open spec fn char_width(c: char) -> nat {
    vstd::utf8::encode_scalar(c as u32).len()
}

/// Byte offset, in the UTF-8 encoding of `s`, of the character at index
/// `k`.
pub open spec fn byte_offset(s: Seq<char>, k: int) -> nat {
    vstd::utf8::encode_utf8(s.take(k)).len()
}

/// UTF-8 encoding distributes over concatenation.
pub proof fn lemma_encode_concat(a: Seq<char>, b: Seq<char>)
    ensures
        vstd::utf8::encode_utf8(a + b) == vstd::utf8::encode_utf8(a) + vstd::utf8::encode_utf8(b),
    decreases a.len(),
{
    if a.len() > 0 {
        assert((a + b).drop_first() == a.drop_first() + b);
        lemma_encode_concat(a.drop_first(), b);
    } else {
        assert(a + b == b);
    }
}

/// Advancing one character advances the byte offset by that
/// character's width.
pub proof fn lemma_byte_offset_step(s: Seq<char>, k: int)
    requires
        0 <= k < s.len(),
    ensures
        byte_offset(s, k + 1) == byte_offset(s, k) + char_width(s[k]),
{
    assert(s.take(k + 1) == s.take(k) + seq![s[k]]);
    lemma_encode_concat(s.take(k), seq![s[k]]);
    assert(seq![s[k]].drop_first() == Seq::<char>::empty());
    assert(vstd::utf8::encode_utf8(Seq::<char>::empty()) == Seq::<u8>::empty());
    assert(vstd::utf8::encode_utf8(seq![s[k]]) == vstd::utf8::encode_scalar(s[k] as u32)
        + vstd::utf8::encode_utf8(Seq::<char>::empty()));
}

/// Byte offsets never exceed the full encoding length.
pub proof fn lemma_byte_offset_bound(s: Seq<char>, k: int)
    requires
        0 <= k <= s.len(),
    ensures
        byte_offset(s, k) <= vstd::utf8::encode_utf8(s).len(),
{
    assert(s == s.take(k) + s.skip(k));
    lemma_encode_concat(s.take(k), s.skip(k));
}

/// The UTF-8 width of `c`, 1 to 4 bytes.
pub fn utf8_width(c: char) -> (w: usize)
    ensures
        w == char_width(c),
        1 <= w <= 4,
        w == 1 <==> (c as u32) < 0x80,
{
    broadcast use vstd::utf8::char_is_scalar;
    let u = c as u32;
    if u <= 0x7F {
        1
    } else if u <= 0x7FF {
        2
    } else if u <= 0xFFFF {
        3
    } else {
        4
    }
}

/// The characters of `s` and, for every index `k` from 0 through the
/// length, the byte offset of character `k` in the UTF-8 encoding.
pub fn chars_with_offsets(s: &str) -> (res: (Vec<char>, Vec<usize>))
    ensures
        res.0@ == s@,
        res.1@.len() == s@.len() + 1,
        forall|k: int| 0 <= k <= s@.len() ==> #[trigger] res.1@[k] == byte_offset(s@, k),
{
    let total = s.as_bytes().len();
    let chars = chars_of(s);
    let n = chars.len();
    let mut offsets: Vec<usize> = Vec::new();
    offsets.push(0);
    assert(s@.take(0) == Seq::<char>::empty());
    let mut at: usize = 0;
    let mut k: usize = 0;
    while k < n
        invariant
            n == chars@.len(),
            chars@ == s@,
            k <= n,
            total == vstd::utf8::encode_utf8(s@).len(),
            at == byte_offset(s@, k as int),
            offsets@.len() == k + 1,
            forall|j: int| 0 <= j <= k ==> #[trigger] offsets@[j] == byte_offset(s@, j),
        decreases n - k,
    {
        let w = utf8_width(chars[k]);
        proof {
            lemma_byte_offset_step(s@, k as int);
            lemma_byte_offset_bound(s@, k + 1);
        }
        at = at + w;
        k = k + 1;
        offsets.push(at);
    }
    (chars, offsets)
}

} // verus!

verus! {

/// Unicode `White_Space`, the set `char::is_whitespace` tests.
pub open spec fn is_whitespace(c: char) -> bool {
    c == '\t' || c == '\n' || c == '\x0B' || c == '\x0C' || c == '\r' || c == ' '
        || c == '\u{85}' || c == '\u{A0}' || c == '\u{1680}'
        || ('\u{2000}' <= c && c <= '\u{200A}') || c == '\u{2028}' || c == '\u{2029}'
        || c == '\u{202F}' || c == '\u{205F}' || c == '\u{3000}'
}

pub fn is_whitespace_char(c: char) -> (b: bool)
    ensures
        b == is_whitespace(c),
{
    c == '\t' || c == '\n' || c == '\x0B' || c == '\x0C' || c == '\r' || c == ' '
        || c == '\u{85}' || c == '\u{A0}' || c == '\u{1680}'
        || ('\u{2000}' <= c && c <= '\u{200A}') || c == '\u{2028}' || c == '\u{2029}'
        || c == '\u{202F}' || c == '\u{205F}' || c == '\u{3000}'
}

/// `t` without leading and trailing whitespace, as `str::trim` gives it.
pub open spec fn trim(t: Seq<char>) -> Seq<char>
    decreases t.len(),
{
    if t.len() > 0 && is_whitespace(t[0]) {
        trim(t.subrange(1, t.len() as int))
    } else if t.len() > 0 && is_whitespace(t.last()) {
        trim(t.drop_last())
    } else {
        t
    }
}

/// The bounds `[s', e')` of `chars[s..e]` trimmed of whitespace.
pub fn trim_bounds(chars: &Vec<char>, s: usize, e: usize) -> (r: (usize, usize))
    requires
        s <= e <= chars@.len(),
    ensures
        s <= r.0 <= r.1 <= e,
        chars@.subrange(r.0 as int, r.1 as int) == trim(chars@.subrange(s as int, e as int)),
{
    let ghost c = chars@;
    let mut i = s;
    while i < e && is_whitespace_char(chars[i])
        invariant
            s <= i <= e <= c.len(),
            c == chars@,
            trim(c.subrange(s as int, e as int)) == trim(c.subrange(i as int, e as int)),
        decreases e - i,
    {
        assert(c.subrange(i as int, e as int).subrange(1, (e - i) as int) == c.subrange(i + 1, e as int));
        i = i + 1;
    }
    let mut j = e;
    while j > i && is_whitespace_char(chars[j - 1])
        invariant
            s <= i <= j <= e <= c.len(),
            c == chars@,
            i == j || !is_whitespace(c[i as int]),
            trim(c.subrange(s as int, e as int)) == trim(c.subrange(i as int, j as int)),
        decreases j - i,
    {
        assert(c.subrange(i as int, j as int).drop_last() == c.subrange(i as int, j - 1));
        j = j - 1;
    }
    (i, j)
}

/// A fresh vector holding `chars[s..e]`.
pub fn slice_chars(chars: &Vec<char>, s: usize, e: usize) -> (v: Vec<char>)
    requires
        s <= e <= chars@.len(),
    ensures
        v@ == chars@.subrange(s as int, e as int),
{
    let mut v: Vec<char> = Vec::new();
    let mut k = s;
    while k < e
        invariant
            s <= k <= e <= chars@.len(),
            v@ == chars@.subrange(s as int, k as int),
        decreases e - k,
    {
        v.push(chars[k]);
        assert(chars@.subrange(s as int, k + 1) == chars@.subrange(s as int, k as int).push(chars@[k as int]));
        k = k + 1;
    }
    v
}

/// The first index in `[s, e)` holding `ch`.
pub fn find_char(chars: &Vec<char>, s: usize, e: usize, ch: char) -> (r: Option<usize>)
    requires
        s <= e <= chars@.len(),
    ensures
        match r {
            Some(k) => s <= k < e && chars@[k as int] == ch
                && forall|j: int| s <= j < k ==> chars@[j] != ch,
            None => forall|j: int| s <= j < e ==> chars@[j] != ch,
        },
{
    let mut k = s;
    while k < e
        invariant
            s <= k <= e <= chars@.len(),
            forall|j: int| s <= j < k ==> chars@[j] != ch,
        decreases e - k,
    {
        if chars[k] == ch {
            return Some(k);
        }
        k = k + 1;
    }
    None
}

/// Whether two texts hold the same characters.
pub fn str_eq(a: &str, b: &str) -> (r: bool)
    ensures
        r == (a@ == b@),
{
    let x = a.to_owned();
    let y = b.to_owned();
    x == y
}

/// The text `format!("{:?}", s)` renders for a string: quoted, with
/// Rust's debug escapes.
pub uninterp spec fn debug_text(s: Seq<char>) -> Seq<char>;

/// Trusted: calls std's `Debug for str` through `format!("{:?}", ..)`.
/// The quoting and escaping rules are std's; the contract only names
/// the result as a function of the text's characters.
#[verifier::external_body]
pub fn debug_of(s: &str) -> (r: String)
    ensures
        r@ == debug_text(s@),
{
    format!("{:?}", s)
}

} // verus!

verus! {

/// Whether `chars[s..e]` holds exactly the characters of `lit`.
pub fn range_is(chars: &Vec<char>, s: usize, e: usize, lit: &str) -> (r: bool)
    requires
        s <= e <= chars@.len(),
    ensures
        r == (chars@.subrange(s as int, e as int) == lit@),
{
    let l = chars_of(lit);
    if e - s != l.len() {
        return false;
    }
    let mut k: usize = 0;
    while k < l.len()
        invariant
            s <= e <= chars@.len(),
            e - s == l@.len(),
            l@ == lit@,
            k <= l@.len(),
            forall|j: int| 0 <= j < k ==> chars@[s + j] == l@[j],
        decreases l@.len() - k,
    {
        if chars[s + k] != l[k] {
            assert(chars@.subrange(s as int, e as int)[k as int] != lit@[k as int]);
            return false;
        }
        k = k + 1;
    }
    assert(chars@.subrange(s as int, e as int) =~= lit@);
    true
}

/// `a`, then the characters of `mid`, then `b`, as one `String`.
pub fn join3(a: &str, mid: &str, b: &str) -> (r: String)
    ensures
        r@ == a@ + mid@ + b@,
{
    let mut v = chars_of(a);
    let mut m = chars_of(mid);
    let mut t = chars_of(b);
    v.append(&mut m);
    v.append(&mut t);
    string_of(&v)
}

} // verus!

verus! {

/// `a`, then the characters of `b`, as one `String`.
pub fn join2(a: &str, b: &str) -> (r: String)
    ensures
        r@ == a@ + b@,
{
    let mut v = chars_of(a);
    let mut m = chars_of(b);
    v.append(&mut m);
    string_of(&v)
}

} // verus!

verus! {

/// Lexicographic order on texts by code point: `a` comes no later than
/// `b`. For UTF-8 strings this is the order `str`'s `Ord` gives.
pub open spec fn lex_le(a: Seq<char>, b: Seq<char>) -> bool
    decreases a.len(),
{
    if a.len() == 0 {
        true
    } else if b.len() == 0 {
        false
    } else if a[0] != b[0] {
        a[0] < b[0]
    } else {
        lex_le(a.subrange(1, a.len() as int), b.subrange(1, b.len() as int))
    }
}

pub proof fn lemma_lex_total(a: Seq<char>, b: Seq<char>)
    ensures
        lex_le(a, b) || lex_le(b, a),
    decreases a.len(),
{
    if a.len() > 0 && b.len() > 0 && a[0] == b[0] {
        lemma_lex_total(a.subrange(1, a.len() as int), b.subrange(1, b.len() as int));
    }
}

pub proof fn lemma_lex_trans(a: Seq<char>, b: Seq<char>, c: Seq<char>)
    requires
        lex_le(a, b),
        lex_le(b, c),
    ensures
        lex_le(a, c),
    decreases a.len(),
{
    if a.len() > 0 && b.len() > 0 && c.len() > 0 && a[0] == b[0] && b[0] == c[0] {
        lemma_lex_trans(
            a.subrange(1, a.len() as int),
            b.subrange(1, b.len() as int),
            c.subrange(1, c.len() as int),
        );
    }
}

/// Whether `a` orders no later than `b`.
pub fn text_le(a: &str, b: &str) -> (r: bool)
    ensures
        r == lex_le(a@, b@),
{
    let x = chars_of(a);
    let y = chars_of(b);
    let mut i: usize = 0;
    assert(x@.subrange(0, x@.len() as int) == x@);
    assert(y@.subrange(0, y@.len() as int) == y@);
    while i < x.len() && i < y.len() && x[i] == y[i]
        invariant
            i <= x@.len(),
            i <= y@.len(),
            lex_le(a@, b@) == lex_le(x@.subrange(i as int, x@.len() as int), y@.subrange(i as int, y@.len() as int)),
            x@ == a@,
            y@ == b@,
        decreases x@.len() - i,
    {
        assert(x@.subrange(i as int, x@.len() as int).subrange(1, x@.len() - i) == x@.subrange(i + 1, x@.len() as int));
        assert(y@.subrange(i as int, y@.len() as int).subrange(1, y@.len() - i) == y@.subrange(i + 1, y@.len() as int));
        i = i + 1;
    }
    if i == x.len() {
        true
    } else if i == y.len() {
        false
    } else {
        x[i] < y[i]
    }
}

} // verus!

verus! {

/// Appends the characters of `s`.
pub fn push_str(v: &mut Vec<char>, s: &str)
    ensures
        final(v)@ == old(v)@ + s@,
{
    let mut m = chars_of(s);
    v.append(&mut m);
}

} // verus!

verus! {

pub proof fn lemma_lex_antisym(a: Seq<char>, b: Seq<char>)
    requires
        lex_le(a, b),
        lex_le(b, a),
    ensures
        a == b,
    decreases a.len(),
{
    if a.len() > 0 && b.len() > 0 {
        lemma_lex_antisym(a.subrange(1, a.len() as int), b.subrange(1, b.len() as int));
        assert(a == seq![a[0]] + a.subrange(1, a.len() as int));
        assert(b == seq![b[0]] + b.subrange(1, b.len() as int));
    }
}

} // verus!

verus! {

/// Strictly ascending texts.
pub open spec fn ascending(list: Seq<String>) -> bool {
    forall|a: int, b: int| 0 <= a < b < list.len() ==> lex_le((#[trigger] list[a])@, (#[trigger] list[b])@)
        && list[a]@ != list[b]@
}

/// Some string of `list` holds the text `x`.
pub open spec fn has_text(list: Seq<String>, x: Seq<char>) -> bool {
    exists|i: int| 0 <= i < list.len() && (#[trigger] list[i])@ == x
}

/// Inserts `item` into the strictly ascending `list` unless present.
pub fn insert_sorted(list: &mut Vec<String>, item: String)
    requires
        forall|a: int, b: int| 0 <= a < b < old(list)@.len() ==> lex_le((#[trigger] old(list)@[a])@, (#[trigger] old(list)@[b])@)
            && old(list)@[a]@ != old(list)@[b]@,
    ensures
        forall|a: int, b: int| 0 <= a < b < final(list)@.len() ==> lex_le((#[trigger] final(list)@[a])@, (#[trigger] final(list)@[b])@)
            && final(list)@[a]@ != final(list)@[b]@,
        forall|x: Seq<char>| #[trigger] has_text(final(list)@, x) <==> (x == item@ || has_text(old(list)@, x)),
{
    let ghost before = list@;
    let mut p: usize = 0;
    while p < list.len() && !text_le(item.as_str(), list[p].as_str())
        invariant
            p <= list@.len(),
            list@ == before,
            forall|i: int| 0 <= i < p ==> !lex_le(item@, #[trigger] list@[i]@),
        decreases list@.len() - p,
    {
        p = p + 1;
    }
    if p < list.len() && list[p] == item {
        return;
    }
    proof {
        let s = before.insert(p as int, item);
        assert forall|a: int, b: int| 0 <= a < b < s.len() implies lex_le((#[trigger] s[a])@, (#[trigger] s[b])@)
            && s[a]@ != s[b]@ by {
            let x = item@;
            if a < p && b == p {
                lemma_lex_total(x, before[a]@);
            } else if a == p && b > p {
                if b - 1 > p {
                    assert(lex_le(before[p as int]@, before[b - 1]@) && before[p as int]@ != before[b - 1]@);
                    lemma_lex_trans(x, before[p as int]@, before[b - 1]@);
                    if x == before[b - 1]@ {
                        lemma_lex_antisym(x, before[p as int]@);
                    }
                }
            } else if a < p && b > p {
                assert(s[a] == before[a] && s[b] == before[b - 1]);
            } else if b < p {
                assert(s[a] == before[a] && s[b] == before[b]);
            } else {
                assert(s[a] == before[a - 1] && s[b] == before[b - 1]);
            }
        }
        assert forall|x: Seq<char>| #[trigger] has_text(s, x) <==> (x == item@ || has_text(before, x)) by {
            if exists|i: int| 0 <= i < s.len() && (#[trigger] s[i])@ == x {
                let i = choose|i: int| 0 <= i < s.len() && (#[trigger] s[i])@ == x;
                if i < p {
                    assert(before[i]@ == x);
                } else if i > p {
                    assert(before[i - 1]@ == x);
                }
            }
            if exists|i: int| 0 <= i < before.len() && (#[trigger] before[i])@ == x {
                let i = choose|i: int| 0 <= i < before.len() && (#[trigger] before[i])@ == x;
                if i < p {
                    assert(s[i]@ == x);
                } else {
                    assert(s[i + 1]@ == x);
                }
            }
            if x == item@ {
                assert(s[p as int]@ == x);
            }
        }
    }
    list.insert(p, item);
}

} // verus!

verus! {

/// The texts a list of strings holds, as a set.
pub open spec fn text_set(list: Seq<String>) -> Set<Seq<char>> {
    Set::new(|x: Seq<char>| has_text(list, x))
}

pub open spec fn texts_of(v: Seq<String>) -> Seq<Seq<char>> {
    v.map_values(|s: String| s@)
}

/// Whether some string of `list` holds `x`.
pub fn contains_text(list: &Vec<String>, x: &str) -> (r: bool)
    ensures
        r == has_text(list@, x@),
{
    let mut i: usize = 0;
    while i < list.len()
        invariant
            i <= list@.len(),
            forall|j: int| 0 <= j < i ==> (#[trigger] list@[j])@ != x@,
        decreases list@.len() - i,
    {
        if str_eq(list[i].as_str(), x) {
            return true;
        }
        i = i + 1;
    }
    false
}

/// Appends copies of `names`; what was there stays a prefix.
pub fn extend_texts(list: &mut Vec<String>, names: &Vec<String>)
    ensures
        final(list)@.len() >= old(list)@.len(),
        final(list)@.subrange(0, old(list)@.len() as int) == old(list)@,
        text_set(final(list)@) == text_set(old(list)@).union(texts_of(names@).to_set()),
{
    let ghost start = list@;
    let mut i: usize = 0;
    while i < names.len()
        invariant
            i <= names@.len(),
            list@.len() == start.len() + i,
            list@.subrange(0, start.len() as int) == start,
            forall|j: int| 0 <= j < i ==> (#[trigger] list@[start.len() + j])@ == names@[j]@,
        decreases names@.len() - i,
    {
        list.push(names[i].clone());
        i = i + 1;
    }
    assert(list@.subrange(0, start.len() as int) =~= start);
    assert forall|x: Seq<char>| #[trigger] text_set(list@).contains(x) <==> text_set(start).union(texts_of(names@).to_set()).contains(x) by {
        if has_text(list@, x) {
            let k = choose|k: int| 0 <= k < list@.len() && (#[trigger] list@[k])@ == x;
            if k < start.len() {
                assert(start[k] == list@[k]);
            } else {
                let j = k - start.len();
                assert(list@[start.len() + j]@ == names@[j]@);
                assert(texts_of(names@)[j] == x);
            }
        }
        if has_text(start, x) {
            let k = choose|k: int| 0 <= k < start.len() && (#[trigger] start[k])@ == x;
            assert(list@[k] == start[k]);
        }
        if texts_of(names@).to_set().contains(x) {
            let k = choose|k: int| 0 <= k < texts_of(names@).len() && texts_of(names@)[k] == x;
            assert(list@[start.len() + k]@ == x);
        }
    }
    assert(text_set(list@) =~= text_set(start).union(texts_of(names@).to_set()));
}

} // verus!

verus! {

/// Pushing a string adds its text to the set.
pub proof fn lemma_text_set_push(prev: Seq<String>, s: String)
    ensures
        text_set(prev.push(s)) == text_set(prev).insert(s@),
{
    let next = prev.push(s);
    assert forall|x: Seq<char>| #[trigger] text_set(next).contains(x) <==> text_set(prev).insert(s@).contains(x) by {
        if has_text(next, x) {
            let k = choose|k: int| 0 <= k < next.len() && (#[trigger] next[k])@ == x;
            if k < prev.len() {
                assert(prev[k] == next[k]);
            }
        }
        if has_text(prev, x) {
            let k = choose|k: int| 0 <= k < prev.len() && (#[trigger] prev[k])@ == x;
            assert(next[k] == prev[k]);
        }
        if x == s@ {
            assert(next[prev.len() as int] == s);
        }
    }
    assert(text_set(next) =~= text_set(prev).insert(s@));
}

} // verus!

verus! {

/// A copy of a list of strings.
pub fn copy_texts(v: &Vec<String>) -> (r: Vec<String>)
    ensures
        r@ == v@,
{
    let mut out: Vec<String> = Vec::new();
    let mut i: usize = 0;
    while i < v.len()
        invariant
            i <= v@.len(),
            out@ == v@.subrange(0, i as int),
        decreases v@.len() - i,
    {
        out.push(v[i].clone());
        proof {
            assert(out@ =~= v@.subrange(0, i + 1));
        }
        i = i + 1;
    }
    proof {
        assert(out@ =~= v@);
    }
    out
}

} // verus!
