//! Texts: the order in which the store keeps them, the classes of their
//! characters, and a few comparisons.

use vstd::prelude::*;
use vstd::utf8::{decode_utf8, encode_utf8, encode_utf8_decode_utf8, is_ascii_chars, is_ascii_chars_encode_utf8};

verus! {

/// `String::push`: the text with `c` added at its end.
pub assume_specification[ String::push ](s: &mut String, c: char)
    ensures
        final(s)@ == old(s)@.push(c),
;

/// Lexicographic order on byte strings.
pub open spec fn bytes_lt(a: Seq<u8>, b: Seq<u8>) -> bool
    decreases a.len(),
{
    if b.len() == 0 {
        false
    } else if a.len() == 0 {
        true
    } else if a[0] == b[0] {
        bytes_lt(a.drop_first(), b.drop_first())
    } else {
        a[0] < b[0]
    }
}

/// The order of texts as the store keeps them: byte by byte over their
/// UTF-8 encoding.
pub open spec fn str_lt(a: Seq<char>, b: Seq<char>) -> bool {
    bytes_lt(encode_utf8(a), encode_utf8(b))
}

/// No byte string comes before itself.
pub proof fn lemma_bytes_lt_irreflexive(a: Seq<u8>)
    ensures
        !bytes_lt(a, a),
    decreases a.len(),
{
    if a.len() > 0 {
        lemma_bytes_lt_irreflexive(a.drop_first());
    }
}

/// The order of byte strings is transitive.
pub proof fn lemma_bytes_lt_transitive(a: Seq<u8>, b: Seq<u8>, c: Seq<u8>)
    requires
        bytes_lt(a, b),
        bytes_lt(b, c),
    ensures
        bytes_lt(a, c),
    decreases a.len(),
{
    if a.len() > 0 && b.len() > 0 && c.len() > 0 && a[0] == b[0] && b[0] == c[0] {
        lemma_bytes_lt_transitive(a.drop_first(), b.drop_first(), c.drop_first());
    }
}

/// Of two different byte strings one comes before the other.
pub proof fn lemma_bytes_lt_total(a: Seq<u8>, b: Seq<u8>)
    ensures
        a == b || bytes_lt(a, b) || bytes_lt(b, a),
    decreases a.len(),
{
    if a.len() > 0 && b.len() > 0 && a[0] == b[0] {
        lemma_bytes_lt_total(a.drop_first(), b.drop_first());
        if a.drop_first() == b.drop_first() {
            assert(a =~= seq![a[0]] + a.drop_first());
            assert(b =~= seq![b[0]] + b.drop_first());
        }
    } else if a.len() == 0 && b.len() == 0 {
        assert(a =~= b);
    }
}

/// No text comes before itself.
pub proof fn lemma_str_lt_irreflexive(a: Seq<char>)
    ensures
        !str_lt(a, a),
{
    lemma_bytes_lt_irreflexive(encode_utf8(a));
}

/// The order of texts is transitive.
pub proof fn lemma_str_lt_transitive(a: Seq<char>, b: Seq<char>, c: Seq<char>)
    requires
        str_lt(a, b),
        str_lt(b, c),
    ensures
        str_lt(a, c),
{
    lemma_bytes_lt_transitive(encode_utf8(a), encode_utf8(b), encode_utf8(c));
}

/// Of two different texts one comes before the other.
pub proof fn lemma_str_lt_total(a: Seq<char>, b: Seq<char>)
    ensures
        a == b || str_lt(a, b) || str_lt(b, a),
{
    lemma_bytes_lt_total(encode_utf8(a), encode_utf8(b));
    if encode_utf8(a) == encode_utf8(b) {
        encode_utf8_decode_utf8(a);
        encode_utf8_decode_utf8(b);
        assert(decode_utf8(encode_utf8(a)) == a);
        assert(decode_utf8(encode_utf8(b)) == b);
    }
}

/// Byte strings that agree up to a position where the first holds the
/// smaller byte stand in that order.
pub proof fn lemma_bytes_lt_at(a: Seq<u8>, b: Seq<u8>, i: int)
    requires
        0 <= i < a.len(),
        i < b.len(),
        a.take(i) == b.take(i),
        a[i] < b[i],
    ensures
        bytes_lt(a, b),
    decreases i,
{
    if i > 0 {
        assert(a[0] == a.take(i)[0] && b[0] == b.take(i)[0]);
        assert(a.drop_first().take(i - 1) =~= a.take(i).drop_first());
        assert(b.drop_first().take(i - 1) =~= b.take(i).drop_first());
        lemma_bytes_lt_at(a.drop_first(), b.drop_first(), i - 1);
    }
}

/// ASCII texts that agree up to a position where the first holds the
/// smaller character stand in that order.
pub proof fn lemma_ascii_lt_at(a: Seq<char>, b: Seq<char>, i: int)
    requires
        is_ascii_chars(a),
        is_ascii_chars(b),
        0 <= i < a.len(),
        i < b.len(),
        a.take(i) == b.take(i),
        a[i] < b[i],
    ensures
        str_lt(a, b),
{
    is_ascii_chars_encode_utf8(a);
    is_ascii_chars_encode_utf8(b);
    let x = encode_utf8(a);
    let y = encode_utf8(b);
    assert(x.take(i) =~= y.take(i)) by {
        assert forall|k: int| 0 <= k < i implies x[k] == y[k] by {
            assert(a[k] == a.take(i)[k] && b[k] == b.take(i)[k]);
            assert(x[k] == a[k] as u8 && y[k] == b[k] as u8);
        }
    }
    assert(x[i] == a[i] as u8 && y[i] == b[i] as u8);
    lemma_bytes_lt_at(x, y, i);
}

/// How one text stands to another in the order of [`str_lt`].
#[derive(Clone, Copy, Debug, PartialEq, Eq, Structural)]
pub enum Rank {
    Before,
    Same,
    After,
}

/// How text `a` stands to text `b`.
pub open spec fn rank_of(a: Seq<char>, b: Seq<char>) -> Rank {
    if a == b {
        Rank::Same
    } else if str_lt(a, b) {
        Rank::Before
    } else {
        Rank::After
    }
}

/// Compares two texts byte by byte.
pub fn rank(a: &str, b: &str) -> (r: Rank)
    ensures
        r == rank_of(a@, b@),
{
    let x = a.as_bytes();
    let y = b.as_bytes();
    let mut i: usize = 0;
    assert(x@.skip(0) =~= x@ && y@.skip(0) =~= y@);
    while i < x.len() && i < y.len()
        invariant
            i <= x.len(),
            i <= y.len(),
            x@ == encode_utf8(a@),
            y@ == encode_utf8(b@),
            x@.take(i as int) == y@.take(i as int),
            bytes_lt(x@, y@) == bytes_lt(x@.skip(i as int), y@.skip(i as int)),
            bytes_lt(y@, x@) == bytes_lt(y@.skip(i as int), x@.skip(i as int)),
        decreases x.len() - i,
    {
        let ghost xs = x@.skip(i as int);
        let ghost ys = y@.skip(i as int);
        assert(xs[0] == x@[i as int] && ys[0] == y@[i as int]);
        if x[i] < y[i] {
            proof {
                lemma_witness_differs(a@, b@, i as int);
            }
            return Rank::Before;
        }
        if x[i] > y[i] {
            proof {
                lemma_witness_differs(a@, b@, i as int);
            }
            return Rank::After;
        }
        assert(xs.drop_first() =~= x@.skip(i + 1));
        assert(ys.drop_first() =~= y@.skip(i + 1));
        assert(x@.take(i + 1) =~= x@.take(i as int).push(x@[i as int]));
        assert(y@.take(i + 1) =~= y@.take(i as int).push(y@[i as int]));
        i += 1;
    }
    proof {
        if x.len() == y.len() {
            assert(x@.take(i as int) =~= x@);
            assert(y@.take(i as int) =~= y@);
            encode_utf8_decode_utf8(a@);
            encode_utf8_decode_utf8(b@);
        } else {
            lemma_length_differs(a@, b@);
        }
    }
    if x.len() == y.len() {
        Rank::Same
    } else if x.len() < y.len() {
        Rank::Before
    } else {
        Rank::After
    }
}

proof fn lemma_witness_differs(a: Seq<char>, b: Seq<char>, i: int)
    requires
        0 <= i < encode_utf8(a).len(),
        i < encode_utf8(b).len(),
        encode_utf8(a)[i] != encode_utf8(b)[i],
    ensures
        a != b,
{
}

proof fn lemma_length_differs(a: Seq<char>, b: Seq<char>)
    requires
        encode_utf8(a).len() != encode_utf8(b).len(),
    ensures
        a != b,
{
}

/// Whether two texts are the same.
pub fn same_text(a: &str, b: &str) -> (r: bool)
    ensures
        r == (a@ == b@),
{
    match rank(a, b) {
        Rank::Same => true,
        _ => false,
    }
}

/// A decimal digit of ASCII, `0` to `9`. Digits of other scripts are none.
pub open spec fn is_digit(c: char) -> bool {
    '0' <= c <= '9'
}

/// A letter, a digit or the underscore of ASCII. Letters and digits
/// outside ASCII are no word characters.
pub open spec fn is_word_char(c: char) -> bool {
    ('a' <= c <= 'z') || ('A' <= c <= 'Z') || ('0' <= c <= '9') || c == '_'
}

/// `lit` stands in `s` at position `at`.
pub open spec fn has_at(s: Seq<char>, at: int, lit: Seq<char>) -> bool {
    0 <= at && at + lit.len() <= s.len() && s.subrange(at, at + lit.len()) == lit
}

/// Every character of `s[from..to]` is a digit.
pub open spec fn digits_between(s: Seq<char>, from: int, to: int) -> bool {
    0 <= from <= to <= s.len() && forall|i: int| from <= i < to ==> is_digit(#[trigger] s[i])
}

/// Every character of `s[from..to]` is a word character.
pub open spec fn words_between(s: Seq<char>, from: int, to: int) -> bool {
    0 <= from <= to <= s.len() && forall|i: int| from <= i < to ==> is_word_char(#[trigger] s[i])
}

/// Whether `c` is a decimal digit of ASCII.
pub fn digit(c: char) -> (r: bool)
    ensures
        r == is_digit(c),
{
    c >= '0' && c <= '9'
}

/// Whether `c` is a letter, a digit or the underscore of ASCII.
pub fn word_char(c: char) -> (r: bool)
    ensures
        r == is_word_char(c),
{
    (c >= 'a' && c <= 'z') || (c >= 'A' && c <= 'Z') || (c >= '0' && c <= '9') || c == '_'
}

/// The characters of `s`, in order.
pub fn chars_of(s: &str) -> (v: Vec<char>)
    ensures
        v@ == s@,
{
    let mut v: Vec<char> = Vec::new();
    for c in it: s.chars()
        invariant
            v@ == it.seq().take(it.index() as int),
            it.seq() == s@,
    {
        v.push(c);
    }
    v
}

/// Whether `lit` stands in `v` at position `at`.
pub fn lit_at(v: &Vec<char>, at: usize, lit: &str) -> (r: bool)
    ensures
        r == has_at(v@, at as int, lit@),
{
    let l = chars_of(lit);
    if at > v.len() || l.len() > v.len() - at {
        return false;
    }
    let mut i: usize = 0;
    while i < l.len()
        invariant
            i <= l.len(),
            at + l.len() <= v.len(),
            l@ == lit@,
            forall|j: int| 0 <= j < i ==> v@[at + j] == l@[j],
        decreases l.len() - i,
    {
        if v[at + i] != l[i] {
            proof {
                let sub = v@.subrange(at as int, at + l.len());
                assert(sub[i as int] == v@[at + i]);
            }
            return false;
        }
        i += 1;
    }
    assert(v@.subrange(at as int, at + l.len()) =~= l@);
    true
}

/// Whether every character of `v[from..to]` is a digit.
pub fn all_digits(v: &Vec<char>, from: usize, to: usize) -> (r: bool)
    ensures
        r == digits_between(v@, from as int, to as int),
{
    if from > to || to > v.len() {
        return false;
    }
    let mut i: usize = from;
    while i < to
        invariant
            from <= i <= to <= v.len(),
            forall|j: int| from <= j < i ==> is_digit(#[trigger] v@[j]),
        decreases to - i,
    {
        if !digit(v[i]) {
            return false;
        }
        i += 1;
    }
    true
}

/// Whether every character of `v[from..to]` is a word character.
pub fn all_words(v: &Vec<char>, from: usize, to: usize) -> (r: bool)
    ensures
        r == words_between(v@, from as int, to as int),
{
    if from > to || to > v.len() {
        return false;
    }
    let mut i: usize = from;
    while i < to
        invariant
            from <= i <= to <= v.len(),
            forall|j: int| from <= j < i ==> is_word_char(#[trigger] v@[j]),
        decreases to - i,
    {
        if !word_char(v[i]) {
            return false;
        }
        i += 1;
    }
    true
}

/// `c` in lower case where it is a capital letter of ASCII, else `c`.
pub open spec fn ascii_lower(c: char) -> char {
    if 'A' <= c <= 'Z' {
        ((c as u8 + 32) as u8) as char
    } else {
        c
    }
}

/// `s` with its capital letters of ASCII in lower case.
pub open spec fn ascii_lowered(s: Seq<char>) -> Seq<char> {
    Seq::new(s.len(), |i: int| ascii_lower(s[i]))
}

/// `s` ends in `tail`, up to the case of ASCII letters.
pub open spec fn ends_like(s: Seq<char>, tail: Seq<char>) -> bool {
    tail.len() <= s.len() && ascii_lowered(s.skip(s.len() - tail.len())) == ascii_lowered(tail)
}

/// `c` in lower case where it is a capital letter of ASCII, else `c`.
pub fn lower(c: char) -> (r: char)
    ensures
        r == ascii_lower(c),
{
    if c >= 'A' && c <= 'Z' {
        ((c as u8) + 32) as char
    } else {
        c
    }
}

/// Whether `s` ends in `tail`, up to the case of ASCII letters.
pub fn ends_with_like(s: &str, tail: &str) -> (r: bool)
    ensures
        r == ends_like(s@, tail@),
{
    let v = chars_of(s);
    let t = chars_of(tail);
    if t.len() > v.len() {
        return false;
    }
    let base: usize = v.len() - t.len();
    let ghost a = ascii_lowered(v@.skip(base as int));
    let ghost b = ascii_lowered(t@);
    let mut i: usize = 0;
    while i < t.len()
        invariant
            i <= t.len(),
            base + t.len() == v.len(),
            v@ == s@,
            t@ == tail@,
            a == ascii_lowered(v@.skip(base as int)),
            b == ascii_lowered(t@),
            forall|j: int| 0 <= j < i ==> a[j] == b[j],
        decreases t.len() - i,
    {
        if lower(v[base + i]) != lower(t[i]) {
            assert(a[i as int] != b[i as int]);
            return false;
        }
        i += 1;
    }
    assert(a =~= b);
    true
}

} // verus!
