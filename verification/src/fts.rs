//! Matching a query against an indexed text.
//!
//! A text is read as the words it holds: the runs of letters and digits,
//! with ASCII letters in lower case. Every other ASCII character ends a
//! word; characters outside ASCII count as letters and stay as they are. A
//! query matches a text where the query's words stand in the text one after
//! the other, the last of them as the beginning of a word.

use vstd::prelude::*;
use crate::text::{ascii_lower, chars_of, lower};

verus! {

/// A character that stands in a word: a letter or digit of ASCII, or any
/// character outside ASCII. Outside ASCII no character is told from a
/// letter, whatever Unicode calls it, and none changes its case: a mark or
/// a blank outside ASCII ends no word here.
pub open spec fn is_token_char(c: char) -> bool {
    ('a' <= c <= 'z') || ('A' <= c <= 'Z') || ('0' <= c <= '9') || c > '\x7f'
}

/// The words that end within `text`, and the beginning of the word that
/// `text` ends in.
pub open spec fn scan(text: Seq<char>) -> (Seq<Seq<char>>, Seq<char>)
    decreases text.len(),
{
    if text.len() == 0 {
        (Seq::empty(), Seq::empty())
    } else {
        let (done, word) = scan(text.drop_last());
        if is_token_char(text.last()) {
            (done, word.push(ascii_lower(text.last())))
        } else if word.len() > 0 {
            (done.push(word), Seq::empty())
        } else {
            (done, word)
        }
    }
}

/// The words of `text`.
pub open spec fn tokens(text: Seq<char>) -> Seq<Seq<char>> {
    let (done, word) = scan(text);
    if word.len() > 0 {
        done.push(word)
    } else {
        done
    }
}

/// The words of `phrase` stand in `doc` from position `k` on, the last of
/// them as the beginning of a word.
pub open spec fn phrase_at(doc: Seq<Seq<char>>, phrase: Seq<Seq<char>>, k: int) -> bool {
    &&& phrase.len() > 0
    &&& 0 <= k
    &&& k + phrase.len() <= doc.len()
    &&& forall|i: int| 0 <= i < phrase.len() - 1 ==> #[trigger] doc[k + i] == phrase[i]
    &&& phrase.last().is_prefix_of(doc[k + phrase.len() - 1])
}

/// The words of `phrase` stand somewhere in `doc`. A phrase without words
/// stands nowhere.
pub open spec fn phrase_in(doc: Seq<Seq<char>>, phrase: Seq<Seq<char>>) -> bool {
    exists|k: int| phrase_at(doc, phrase, k)
}

/// The query `query` matches the text `text`.
pub open spec fn text_matches(text: Seq<char>, query: Seq<char>) -> bool {
    phrase_in(tokens(text), tokens(query))
}

/// The words held in `v`.
pub open spec fn listed(v: Vec<Vec<char>>) -> Seq<Seq<char>> {
    Seq::new(v.len() as nat, |i: int| v[i]@)
}

fn token_char(c: char) -> (r: bool)
    ensures
        r == is_token_char(c),
{
    (c >= 'a' && c <= 'z') || (c >= 'A' && c <= 'Z') || (c >= '0' && c <= '9') || c > '\x7f'
}

/// The words of `text`.
pub fn words(text: &str) -> (r: Vec<Vec<char>>)
    ensures
        listed(r) == tokens(text@),
{
    let v = chars_of(text);
    let mut done: Vec<Vec<char>> = Vec::new();
    let mut word: Vec<char> = Vec::new();
    let mut i: usize = 0;
    while i < v.len()
        invariant
            i <= v.len(),
            v@ == text@,
            (listed(done), word@) == scan(v@.take(i as int)),
        decreases v.len() - i,
    {
        assert(v@.take(i + 1).drop_last() =~= v@.take(i as int));
        let ghost before = listed(done);
        let c = v[i];
        if token_char(c) {
            word.push(lower(c));
        } else if word.len() > 0 {
            done.push(word);
            assert(listed(done) =~= before.push(scan(v@.take(i as int)).1));
            word = Vec::new();
        }
        i += 1;
    }
    assert(v@.take(i as int) =~= v@);
    if word.len() > 0 {
        let ghost before = listed(done);
        let ghost last = word@;
        done.push(word);
        assert(listed(done) =~= before.push(last));
    }
    done
}

fn same_word(a: &Vec<char>, b: &Vec<char>) -> (r: bool)
    ensures
        r == (a@ == b@),
{
    if a.len() != b.len() {
        return false;
    }
    let mut i: usize = 0;
    while i < a.len()
        invariant
            i <= a.len(),
            a.len() == b.len(),
            forall|j: int| 0 <= j < i ==> a@[j] == b@[j],
        decreases a.len() - i,
    {
        if a[i] != b[i] {
            return false;
        }
        i += 1;
    }
    assert(a@ =~= b@);
    true
}

fn begins(word: &Vec<char>, start: &Vec<char>) -> (r: bool)
    ensures
        r == start@.is_prefix_of(word@),
{
    if start.len() > word.len() {
        return false;
    }
    let mut i: usize = 0;
    while i < start.len()
        invariant
            i <= start.len() <= word.len(),
            forall|j: int| 0 <= j < i ==> word@[j] == start@[j],
        decreases start.len() - i,
    {
        if word[i] != start[i] {
            assert(word@.subrange(0, start@.len() as int)[i as int] != start@[i as int]);
            return false;
        }
        i += 1;
    }
    assert(start@ =~= word@.subrange(0, start@.len() as int));
    true
}

fn stands_at(doc: &Vec<Vec<char>>, phrase: &Vec<Vec<char>>, k: usize) -> (r: bool)
    requires
        phrase.len() > 0,
        k + phrase.len() <= doc.len(),
    ensures
        r == phrase_at(listed(*doc), listed(*phrase), k as int),
{
    let n: usize = phrase.len();
    let mut i: usize = 0;
    while i < n - 1
        invariant
            i <= n - 1,
            n == phrase.len(),
            k + n <= doc.len(),
            forall|j: int| 0 <= j < i ==> #[trigger] listed(*doc)[k + j] == listed(*phrase)[j],
        decreases n - 1 - i,
    {
        if !same_word(&doc[k + i], &phrase[i]) {
            assert(listed(*doc)[k + i] != listed(*phrase)[i as int]);
            return false;
        }
        i += 1;
    }
    assert(listed(*phrase).last() == phrase[n - 1]@);
    assert(listed(*doc)[k + n - 1] == doc[k + n - 1]@);
    begins(&doc[k + n - 1], &phrase[n - 1])
}

/// Whether the words of `phrase` stand somewhere in `doc`, the last of them
/// as the beginning of a word.
pub fn contains_phrase(doc: &Vec<Vec<char>>, phrase: &Vec<Vec<char>>) -> (r: bool)
    ensures
        r == phrase_in(listed(*doc), listed(*phrase)),
{
    if phrase.len() == 0 || phrase.len() > doc.len() {
        return false;
    }
    let last: usize = doc.len() - phrase.len();
    let mut k: usize = 0;
    while k <= last
        invariant
            k <= last + 1,
            phrase.len() > 0,
            last + phrase.len() == doc.len(),
            forall|j: int| 0 <= j < k ==> !phrase_at(listed(*doc), listed(*phrase), j),
        decreases last + 1 - k,
    {
        if stands_at(doc, phrase, k) {
            return true;
        }
        k += 1;
    }
    false
}

/// Whether the query `query` matches the text `text`.
pub fn matches_text(text: &str, query: &str) -> (r: bool)
    ensures
        r == text_matches(text@, query@),
{
    let doc = words(text);
    let phrase = words(query);
    contains_phrase(&doc, &phrase)
}

} // verus!
