//! The grammar of archive file names.
//!
//! A file name has the shape
//!
//! ```text
//! <domain>-<inf|shallow>-<8 digits>-<6 digits>[-<5 word chars>][-aborted][-<digits|meta>].<json|warc.gz>
//! ```
//!
//! The domain may itself hold hyphens, so the split is anchored on the
//! fixed-shape fields that follow it; the longest domain wins.
//!
//! The grammar is one of ASCII: digits are `0` to `9`, word characters the
//! letters `a` to `z` and `A` to `Z`, the digits and the underscore, and a
//! domain is made of word characters, dots, at signs, blanks and hyphens.
//! A name with any other character follows no part of it.

use vstd::prelude::*;
use vstd::utf8::is_ascii_chars;
use crate::grammar::law_names_are_ascii;
use crate::text::{
    all_digits, all_words, chars_of, digits_between, has_at, is_word_char, lit_at, word_char, words_between,
};

verus! {

/// The fields read off a file name. `ident` is empty where the name has none;
/// `aborted` is `"aborted"` where the name carries that token and empty otherwise.
#[derive(Debug, Clone)]
pub struct FilenameParts {
    pub domain: String,
    pub depth: String,
    pub date: String,
    pub time: String,
    pub ident: String,
    pub aborted: String,
    pub extension: String,
}

/// The mathematical value of a [`FilenameParts`].
pub ghost struct FilenameFields {
    pub domain: Seq<char>,
    pub depth: Seq<char>,
    pub date: Seq<char>,
    pub time: Seq<char>,
    pub ident: Seq<char>,
    pub aborted: Seq<char>,
    pub extension: Seq<char>,
}

impl View for FilenameParts {
    type V = FilenameFields;

    open spec fn view(&self) -> FilenameFields {
        FilenameFields {
            domain: self.domain@,
            depth: self.depth@,
            date: self.date@,
            time: self.time@,
            ident: self.ident@,
            aborted: self.aborted@,
            extension: self.extension@,
        }
    }
}

/// A character that may stand in the domain field.
pub open spec fn is_domain_char(c: char) -> bool {
    is_word_char(c) || c == '.' || c == '@' || c == ' ' || c == '-'
}

/// Every character of `s[from..to]` may stand in a domain.
pub open spec fn domain_between(s: Seq<char>, from: int, to: int) -> bool {
    0 <= from <= to <= s.len() && forall|i: int| from <= i < to ==> is_domain_char(#[trigger] s[i])
}

/// The extension that `s` ends in, with its leading dot counted in the length.
pub open spec fn extension_of(s: Seq<char>) -> Option<Seq<char>> {
    if has_at(s, s.len() - ".warc.gz"@.len(), ".warc.gz"@) {
        Some("warc.gz"@)
    } else if has_at(s, s.len() - ".json"@.len(), ".json"@) {
        Some("json"@)
    } else {
        None
    }
}

/// The depth token that follows a domain ending at `p`.
pub open spec fn depth_at(s: Seq<char>, p: int) -> Option<Seq<char>> {
    if has_at(s, p, "-inf-"@) {
        Some("inf"@)
    } else if has_at(s, p, "-shallow-"@) {
        Some("shallow"@)
    } else {
        None
    }
}

/// `s[from..to]` is an optional suffix: nothing, `-meta`, or a hyphen and digits.
pub open spec fn suffix_fits(s: Seq<char>, from: int, to: int) -> bool {
    ||| from == to
    ||| (has_at(s, from, "-meta"@) && from + "-meta"@.len() == to)
    ||| (from + 2 <= to && s[from] == '-' && digits_between(s, from + 1, to))
}

/// How `s[from..to]` reads as an optional `-aborted` and an optional suffix:
/// whether the token is there, or `None` where the text is neither.
pub open spec fn aborted_fits(s: Seq<char>, from: int, to: int) -> Option<bool> {
    let after = from + "-aborted"@.len();
    if has_at(s, from, "-aborted"@) && after <= to && suffix_fits(s, after, to) {
        Some(true)
    } else if suffix_fits(s, from, to) {
        Some(false)
    } else {
        None
    }
}

/// `s[from..from + 6]` is a hyphen and a five-character identifier.
pub open spec fn ident_at(s: Seq<char>, from: int, to: int) -> bool {
    from + 6 <= to && s[from] == '-' && words_between(s, from + 1, from + 6)
}

/// How `s[from..to]`, the text between the time and the extension, reads:
/// whether an identifier and the `aborted` token are there. An identifier is
/// read wherever one fits.
pub open spec fn tail_fits(s: Seq<char>, from: int, to: int) -> Option<(bool, bool)> {
    if ident_at(s, from, to) && aborted_fits(s, from + 6, to) is Some {
        Some((true, aborted_fits(s, from + 6, to)->0))
    } else {
        match aborted_fits(s, from, to) {
            Some(a) => Some((false, a)),
            None => None,
        }
    }
}

/// The fields of `s` where its domain is `s[0..p]`, if the rest fits the grammar.
pub open spec fn split_at(s: Seq<char>, p: int) -> Option<FilenameFields> {
    match (depth_at(s, p), extension_of(s)) {
        (Some(depth), Some(extension)) => {
            let date = p + depth.len() + 2;
            let time = date + 9;
            let tail = time + 6;
            let end = s.len() - extension.len() - 1;
            if 1 <= p && domain_between(s, 0, p) && digits_between(s, date, date + 8)
                && has_at(s, date + 8, "-"@) && digits_between(s, time, tail) && tail <= end {
                match tail_fits(s, tail, end) {
                    Some((ident, aborted)) => Some(
                        FilenameFields {
                            domain: s.subrange(0, p),
                            depth,
                            date: s.subrange(date, date + 8),
                            time: s.subrange(time, tail),
                            ident: if ident {
                                s.subrange(tail + 1, tail + 6)
                            } else {
                                Seq::empty()
                            },
                            aborted: if aborted {
                                "aborted"@
                            } else {
                                Seq::empty()
                            },
                            extension,
                        },
                    ),
                    None => None,
                }
            } else {
                None
            }
        },
        _ => None,
    }
}

/// The fields of `s` for the longest domain of at most `p` characters that
/// fits, if any does.
pub open spec fn split_upto(s: Seq<char>, p: int) -> Option<FilenameFields>
    decreases p,
{
    if p < 1 {
        None
    } else if split_at(s, p) is Some {
        split_at(s, p)
    } else {
        split_upto(s, p - 1)
    }
}

/// What a file name parses to: its fields under the longest domain that
/// fits, or `None` where the name does not follow the grammar.
pub open spec fn parsed(s: Seq<char>) -> Option<FilenameFields> {
    split_upto(s, s.len() as int)
}

fn domain_char(c: char) -> (r: bool)
    ensures
        r == is_domain_char(c),
{
    word_char(c) || c == '.' || c == '@' || c == ' ' || c == '-'
}

/// The length of the longest prefix of `v` made of domain characters.
fn domain_prefix(v: &Vec<char>) -> (n: usize)
    ensures
        n <= v.len(),
        domain_between(v@, 0, n as int),
        n < v.len() ==> !is_domain_char(v@[n as int]),
{
    let mut n: usize = 0;
    while n < v.len() && domain_char(v[n])
        invariant
            n <= v.len(),
            domain_between(v@, 0, n as int),
        decreases v.len() - n,
    {
        n += 1;
    }
    n
}

fn suffix_ok(v: &Vec<char>, from: usize, to: usize) -> (r: bool)
    requires
        from <= to <= v.len(),
    ensures
        r == suffix_fits(v@, from as int, to as int),
{
    proof {
        reveal_strlit("-meta");
    }
    if from == to {
        return true;
    }
    if to - from == 5 && lit_at(v, from, "-meta") {
        return true;
    }
    to - from >= 2 && v[from] == '-' && all_digits(v, from + 1, to)
}

fn aborted_ok(v: &Vec<char>, from: usize, to: usize) -> (r: Option<bool>)
    requires
        from <= to <= v.len(),
    ensures
        r == aborted_fits(v@, from as int, to as int),
{
    proof {
        reveal_strlit("-aborted");
    }
    if to - from >= 8 && lit_at(v, from, "-aborted") && suffix_ok(v, from + 8, to) {
        Some(true)
    } else if suffix_ok(v, from, to) {
        Some(false)
    } else {
        None
    }
}

fn tail_ok(v: &Vec<char>, from: usize, to: usize) -> (r: Option<(bool, bool)>)
    requires
        from <= to <= v.len(),
    ensures
        r == tail_fits(v@, from as int, to as int),
{
    if to - from >= 6 && v[from] == '-' && all_words(v, from + 1, from + 6) {
        match aborted_ok(v, from + 6, to) {
            Some(a) => {
                return Some((true, a));
            },
            None => {},
        }
    }
    match aborted_ok(v, from, to) {
        Some(a) => Some((false, a)),
        None => None,
    }
}

/// The extension of `v` and the number of characters it takes with its dot.
fn extension_ok(v: &Vec<char>) -> (r: Option<(String, usize)>)
    ensures
        match r {
            Some((e, n)) => extension_of(v@) == Some(e@) && n == e@.len() + 1 && n <= v.len(),
            None => extension_of(v@) is None,
        },
{
    proof {
        reveal_strlit(".warc.gz");
        reveal_strlit("warc.gz");
        reveal_strlit(".json");
        reveal_strlit("json");
    }
    let n: usize = v.len();
    if n >= 8 && lit_at(v, n - 8, ".warc.gz") {
        Some((String::from_str("warc.gz"), 8))
    } else if n >= 5 && lit_at(v, n - 5, ".json") {
        Some((String::from_str("json"), 5))
    } else {
        None
    }
}

/// The depth token after a domain that ends at `p`, and its length.
fn depth_ok(v: &Vec<char>, p: usize) -> (r: Option<(String, usize)>)
    ensures
        match r {
            Some((d, n)) => depth_at(v@, p as int) == Some(d@) && n == d@.len() && n <= 7,
            None => depth_at(v@, p as int) is None,
        },
{
    proof {
        reveal_strlit("inf");
        reveal_strlit("shallow");
    }
    if lit_at(v, p, "-inf-") {
        Some((String::from_str("inf"), 3))
    } else if lit_at(v, p, "-shallow-") {
        Some((String::from_str("shallow"), 7))
    } else {
        None
    }
}

/// The owned text of `s[from..to]`.
fn piece(s: &str, from: usize, to: usize) -> (r: String)
    requires
        from <= to <= s@.len(),
    ensures
        r@ == s@.subrange(from as int, to as int),
{
    s.substring_char(from, to).to_owned()
}

/// Reads `filename` with its domain ending at `p`.
fn split_here(filename: &str, v: &Vec<char>, p: usize, domain_max: usize) -> (r: Option<FilenameParts>)
    requires
        v@ == filename@,
        domain_max <= v.len(),
        domain_between(v@, 0, domain_max as int),
        domain_max < v.len() ==> !is_domain_char(v@[domain_max as int]),
    ensures
        match r {
            Some(parts) => split_at(filename@, p as int) == Some(parts@),
            None => split_at(filename@, p as int) is None,
        },
{
    proof {
        reveal_strlit("-");
        reveal_strlit("aborted");
    }
    let n: usize = v.len();
    if p < 1 || p > domain_max {
        proof {
            if p > domain_max && split_at(v@, p as int) is Some {
                assert(is_domain_char(v@[domain_max as int]));
            }
        }
        return None;
    }
    let (depth, depth_len) = match depth_ok(v, p) {
        Some(d) => d,
        None => {
            return None;
        },
    };
    let (extension, ext_len) = match extension_ok(v) {
        Some(e) => e,
        None => {
            return None;
        },
    };
    let end: usize = n - ext_len;
    if end < 17 || p > end - 17 || depth_len > end - 17 - p {
        return None;
    }
    let date: usize = p + depth_len + 2;
    let time: usize = date + 9;
    let tail: usize = time + 6;
    if !(all_digits(v, date, date + 8) && lit_at(v, date + 8, "-") && all_digits(v, time, tail)) {
        return None;
    }
    match tail_ok(v, tail, end) {
        Some((ident, aborted)) => Some(
            FilenameParts {
                domain: piece(filename, 0, p),
                depth,
                date: piece(filename, date, date + 8),
                time: piece(filename, time, tail),
                ident: if ident {
                    piece(filename, tail + 1, tail + 6)
                } else {
                    String::new()
                },
                aborted: if aborted {
                    String::from_str("aborted")
                } else {
                    String::new()
                },
                extension,
            },
        ),
        None => None,
    }
}

/// Reads the fields off a file name, or returns `None` where the name does
/// not follow the grammar. Nothing else is done with the name.
///
/// The grammar is one of ASCII: a name that holds a letter, a digit or any
/// other character outside ASCII is no name, and `None` is returned.
pub fn parse_filename(filename: &str) -> (r: Option<FilenameParts>)
    ensures
        match r {
            Some(parts) => parsed(filename@) == Some(parts@),
            None => parsed(filename@) is None,
        },
        !is_ascii_chars(filename@) ==> r is None,
{
    let v = chars_of(filename);
    let domain_max: usize = domain_prefix(&v);
    let mut p: usize = v.len();
    while p >= 1
        invariant
            p <= v.len(),
            v@ == filename@,
            domain_max <= v.len(),
            domain_between(v@, 0, domain_max as int),
            domain_max < v.len() ==> !is_domain_char(v@[domain_max as int]),
            parsed(filename@) == split_upto(filename@, p as int),
        decreases p,
    {
        match split_here(filename, &v, p, domain_max) {
            Some(parts) => {
                proof {
                    law_names_are_ascii(filename@);
                }
                return Some(parts);
            },
            None => {},
        }
        p -= 1;
    }
    None
}

} // verus!
