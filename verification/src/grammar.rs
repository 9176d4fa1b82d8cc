//! The grammar of file names, said once more as the pieces that a name is
//! put together from, and shown to be what the parser reads.

use vstd::prelude::*;
use crate::filename::{
    aborted_fits, depth_at, extension_of, ident_at, is_domain_char, parsed, split_at, split_upto, suffix_fits,
    tail_fits, FilenameFields,
};
use crate::text::{has_at, is_digit, is_word_char};
use vstd::utf8::is_ascii_chars;

verus! {

/// The pieces of a file name.
pub ghost struct Pieces {
    pub domain: Seq<char>,
    pub depth: Seq<char>,
    pub date: Seq<char>,
    pub time: Seq<char>,
    pub ident: Option<Seq<char>>,
    pub aborted: bool,
    pub suffix: Option<Seq<char>>,
    pub extension: Seq<char>,
}

/// Every character of `s` is one that `class` holds of.
pub open spec fn all_of(s: Seq<char>, class: spec_fn(char) -> bool) -> bool {
    forall|i: int| 0 <= i < s.len() ==> class(#[trigger] s[i])
}

/// The digits.
pub open spec fn digit_class() -> spec_fn(char) -> bool {
    |c: char| is_digit(c)
}

/// The letters, digits and the underscore.
pub open spec fn word_class() -> spec_fn(char) -> bool {
    |c: char| is_word_char(c)
}

/// The characters of a domain.
pub open spec fn domain_class() -> spec_fn(char) -> bool {
    |c: char| is_domain_char(c)
}

/// A hyphen and `part`, where there is a part.
pub open spec fn hyphened(part: Option<Seq<char>>) -> Seq<char> {
    match part {
        Some(p) => "-"@ + p,
        None => Seq::empty(),
    }
}

impl Pieces {
    /// Every piece has the shape that the grammar gives it: a domain of
    /// one character or more, letters, digits, underscores, dots, at
    /// signs, blanks and hyphens; the depth `inf` or `shallow`; a date of
    /// eight digits; a time of six digits; an identifier, where there is
    /// one, of five letters, digits or underscores; a suffix, where there
    /// is one, of digits or the word `meta`; the extension `json` or
    /// `warc.gz`.
    pub open spec fn well_formed(self) -> bool {
        &&& self.domain.len() >= 1
        &&& all_of(self.domain, domain_class())
        &&& (self.depth == "inf"@ || self.depth == "shallow"@)
        &&& self.date.len() == 8
        &&& all_of(self.date, digit_class())
        &&& self.time.len() == 6
        &&& all_of(self.time, digit_class())
        &&& (self.ident matches Some(x) ==> x.len() == 5 && all_of(x, word_class()))
        &&& (self.suffix matches Some(x) ==> x == "meta"@ || (x.len() >= 1 && all_of(x, digit_class())))
        &&& (self.extension == "json"@ || self.extension == "warc.gz"@)
    }

    /// The domain, the depth, the date and the time, with hyphens between
    /// them.
    pub open spec fn head(self) -> Seq<char> {
        self.domain + "-"@ + self.depth + "-"@ + self.date + "-"@ + self.time
    }

    /// The identifier, the token `aborted` and the suffix, each after a
    /// hyphen, as far as they are there.
    pub open spec fn tail(self) -> Seq<char> {
        hyphened(self.ident) + (if self.aborted {
            "-aborted"@
        } else {
            Seq::empty()
        }) + hyphened(self.suffix)
    }

    /// The file name that the pieces make.
    pub open spec fn text(self) -> Seq<char> {
        self.head() + self.tail() + "."@ + self.extension
    }

    /// The fields that the pieces are read as.
    pub open spec fn fields(self) -> FilenameFields {
        FilenameFields {
            domain: self.domain,
            depth: self.depth,
            date: self.date,
            time: self.time,
            ident: match self.ident {
                Some(x) => x,
                None => Seq::empty(),
            },
            aborted: if self.aborted {
                "aborted"@
            } else {
                Seq::empty()
            },
            extension: self.extension,
        }
    }
}

/// A text is its parts put together.
proof fn lemma_cut(s: Seq<char>, a: int, b: int, c: int)
    requires
        0 <= a <= b <= c <= s.len(),
    ensures
        s.subrange(a, c) == s.subrange(a, b) + s.subrange(b, c),
{
    assert(s.subrange(a, c) =~= s.subrange(a, b) + s.subrange(b, c));
}

/// The suffix that `s[from..to]` is read as.
pub open spec fn suffix_read(s: Seq<char>, from: int, to: int) -> Option<Seq<char>> {
    if from == to {
        None
    } else {
        Some(s.subrange(from + 1, to))
    }
}

/// The suffix has the shape that the grammar gives it.
pub open spec fn suffix_shaped(suffix: Option<Seq<char>>) -> bool {
    suffix matches Some(x) ==> x == "meta"@ || (x.len() >= 1 && all_of(x, digit_class()))
}

/// What fits as a suffix is a hyphen and a suffix, or nothing.
proof fn lemma_suffix_sound(s: Seq<char>, from: int, to: int)
    requires
        0 <= from <= to <= s.len(),
        suffix_fits(s, from, to),
    ensures
        s.subrange(from, to) == hyphened(suffix_read(s, from, to)),
        suffix_shaped(suffix_read(s, from, to)),
{
    reveal_strlit("-");
    reveal_strlit("meta");
    reveal_strlit("-meta");
    if from == to {
        assert(s.subrange(from, to) =~= Seq::empty());
    } else {
        let x = s.subrange(from + 1, to);
        if has_at(s, from, "-meta"@) && from + "-meta"@.len() == to {
            let whole = s.subrange(from, to);
            assert(whole == "-meta"@);
            assert(whole[0] == '-');
            assert forall|i: int| 0 <= i < 4 implies x[i] == "meta"@[i] by {
                assert(whole[i + 1] == "-meta"@[i + 1]);
            }
            assert(x =~= "meta"@);
        } else {
            assert(s[from] == '-');
            assert forall|i: int| 0 <= i < x.len() implies digit_class()(#[trigger] x[i]) by {
                assert(is_digit(s[from + 1 + i]));
            }
        }
        assert(s.subrange(from, to) =~= "-"@ + x);
    }
}

/// The token `aborted` after a hyphen, where it is there.
pub open spec fn aborted_text(aborted: bool) -> Seq<char> {
    if aborted {
        "-aborted"@
    } else {
        Seq::empty()
    }
}

/// What fits as an optional token `aborted` and an optional suffix is
/// these two.
proof fn lemma_aborted_sound(s: Seq<char>, from: int, to: int)
    requires
        0 <= from <= to <= s.len(),
        aborted_fits(s, from, to) is Some,
    ensures
        ({
            let aborted = aborted_fits(s, from, to)->0;
            let after = if aborted {
                from + 8
            } else {
                from
            };
            &&& from <= after <= to
            &&& s.subrange(from, to) == aborted_text(aborted) + hyphened(suffix_read(s, after, to))
            &&& suffix_shaped(suffix_read(s, after, to))
        }),
{
    reveal_strlit("-aborted");
    let aborted = aborted_fits(s, from, to)->0;
    let after = if aborted {
        from + 8
    } else {
        from
    };
    lemma_suffix_sound(s, after, to);
    lemma_cut(s, from, after, to);
    if aborted {
        assert(s.subrange(from, after) == "-aborted"@);
    } else {
        assert(s.subrange(from, after) =~= Seq::<char>::empty());
    }
}

/// The identifier has the shape that the grammar gives it.
pub open spec fn ident_shaped(ident: Option<Seq<char>>) -> bool {
    ident matches Some(x) ==> x.len() == 5 && all_of(x, word_class())
}

/// The pieces that the text between the time and the extension is read
/// as: the identifier, the token `aborted` and the suffix.
pub open spec fn tail_read(s: Seq<char>, from: int, to: int) -> (Option<Seq<char>>, bool, Option<Seq<char>>) {
    let (ident, aborted) = tail_fits(s, from, to)->0;
    let after_ident = if ident {
        from + 6
    } else {
        from
    };
    let after_aborted = if aborted {
        after_ident + 8
    } else {
        after_ident
    };
    (
        if ident {
            Some(s.subrange(from + 1, from + 6))
        } else {
            None
        },
        aborted,
        suffix_read(s, after_aborted, to),
    )
}

/// What fits between the time and the extension is an identifier, the
/// token and a suffix, as far as they are read.
proof fn lemma_tail_sound(s: Seq<char>, from: int, to: int)
    requires
        0 <= from <= to <= s.len(),
        tail_fits(s, from, to) is Some,
    ensures
        ({
            let (ident, aborted, suffix) = tail_read(s, from, to);
            &&& s.subrange(from, to) == hyphened(ident) + aborted_text(aborted) + hyphened(suffix)
            &&& ident_shaped(ident)
            &&& suffix_shaped(suffix)
        }),
{
    reveal_strlit("-");
    let (ident, aborted) = tail_fits(s, from, to)->0;
    let after_ident = if ident {
        from + 6
    } else {
        from
    };
    assert(aborted_fits(s, after_ident, to) == Some(aborted));
    lemma_aborted_sound(s, after_ident, to);
    lemma_cut(s, from, after_ident, to);
    if ident {
        let x = s.subrange(from + 1, from + 6);
        assert(s[from] == '-');
        assert forall|i: int| 0 <= i < x.len() implies word_class()(#[trigger] x[i]) by {
            assert(is_word_char(s[from + 1 + i]));
        }
        assert(s.subrange(from, after_ident) =~= "-"@ + x);
    } else {
        assert(s.subrange(from, after_ident) =~= Seq::<char>::empty());
    }
    let (i2, a2, suffix) = tail_read(s, from, to);
    assert(s.subrange(from, to) =~= hyphened(i2) + (aborted_text(a2) + hyphened(suffix)));
    assert(hyphened(i2) + (aborted_text(a2) + hyphened(suffix)) =~= hyphened(i2) + aborted_text(a2) + hyphened(
        suffix,
    ));
}

/// The depth that is read after the domain stands between two hyphens.
proof fn lemma_depth_sound(s: Seq<char>, p: int)
    requires
        depth_at(s, p) is Some,
    ensures
        ({
            let depth = depth_at(s, p)->0;
            &&& depth == "inf"@ || depth == "shallow"@
            &&& 0 <= p
            &&& p + depth.len() + 2 <= s.len()
            &&& s.subrange(p, p + depth.len() + 2) == "-"@ + depth + "-"@
        }),
{
    reveal_strlit("-");
    reveal_strlit("inf");
    reveal_strlit("shallow");
    reveal_strlit("-inf-");
    reveal_strlit("-shallow-");
    let depth = depth_at(s, p)->0;
    if has_at(s, p, "-inf-"@) {
        assert("-inf-"@ =~= "-"@ + "inf"@ + "-"@);
    } else {
        assert("-shallow-"@ =~= "-"@ + "shallow"@ + "-"@);
    }
}

/// The extension that is read stands at the end, after a dot.
proof fn lemma_extension_sound(s: Seq<char>)
    requires
        extension_of(s) is Some,
    ensures
        ({
            let extension = extension_of(s)->0;
            &&& extension == "json"@ || extension == "warc.gz"@
            &&& 0 <= s.len() - extension.len() - 1
            &&& s.subrange(s.len() - extension.len() - 1, s.len() as int) == "."@ + extension
        }),
{
    reveal_strlit(".");
    reveal_strlit("json");
    reveal_strlit("warc.gz");
    reveal_strlit(".json");
    reveal_strlit(".warc.gz");
    if has_at(s, s.len() - ".warc.gz"@.len(), ".warc.gz"@) {
        assert(".warc.gz"@ =~= "."@ + "warc.gz"@);
    } else {
        assert(".json"@ =~= "."@ + "json"@);
    }
}

/// The pieces that `s` is read as where its domain is `s[0..p]`.
pub open spec fn pieces_at(s: Seq<char>, p: int) -> Pieces {
    let depth = depth_at(s, p)->0;
    let extension = extension_of(s)->0;
    let date = p + depth.len() + 2;
    let time = date + 9;
    let tail = time + 6;
    let end = s.len() - extension.len() - 1;
    let (ident, aborted, suffix) = tail_read(s, tail, end);
    Pieces {
        domain: s.subrange(0, p),
        depth,
        date: s.subrange(date, date + 8),
        time: s.subrange(time, tail),
        ident,
        aborted,
        suffix,
        extension,
    }
}

/// What the parser reads with the domain `s[0..p]` is made of well-formed
/// pieces that make `s`.
pub proof fn lemma_split_at_sound(s: Seq<char>, p: int)
    requires
        split_at(s, p) is Some,
    ensures
        pieces_at(s, p).well_formed(),
        pieces_at(s, p).text() == s,
        pieces_at(s, p).fields() == split_at(s, p)->0,
{
    let pieces = pieces_at(s, p);
    let depth = depth_at(s, p)->0;
    let extension = extension_of(s)->0;
    let date = p + depth.len() + 2;
    let time = date + 9;
    let tail = time + 6;
    let end = s.len() - extension.len() - 1;
    lemma_depth_sound(s, p);
    lemma_extension_sound(s);
    lemma_tail_sound(s, tail, end);
    assert forall|i: int| 0 <= i < pieces.domain.len() implies domain_class()(#[trigger] pieces.domain[i]) by {
        assert(is_domain_char(s[i]));
    }
    assert forall|i: int| 0 <= i < pieces.date.len() implies digit_class()(#[trigger] pieces.date[i]) by {
        assert(is_digit(s[date + i]));
    }
    assert forall|i: int| 0 <= i < pieces.time.len() implies digit_class()(#[trigger] pieces.time[i]) by {
        assert(is_digit(s[time + i]));
    }
    assert(s.subrange(date + 8, time) == "-"@) by {
        reveal_strlit("-");
    }
    lemma_cut(s, 0, p, date);
    lemma_cut(s, 0, date, date + 8);
    lemma_cut(s, 0, date + 8, time);
    lemma_cut(s, 0, time, tail);
    assert(s.subrange(0, tail) == pieces.head()) by {
        assert(s.subrange(0, p) + ("-"@ + depth + "-"@) =~= s.subrange(0, p) + "-"@ + depth + "-"@);
    }
    lemma_cut(s, 0, tail, end);
    lemma_cut(s, 0, end, s.len() as int);
    assert(s.subrange(0, s.len() as int) =~= s);
    assert(pieces.text() == s) by {
        assert(pieces.head() + pieces.tail() + ("."@ + extension) =~= pieces.head() + pieces.tail() + "."@
            + extension);
    }
    assert(pieces.fields() == split_at(s, p)->0) by {
        reveal_strlit("aborted");
    }
}

/// A part of a text that is made of two texts.
proof fn lemma_parts(s: Seq<char>, from: int, to: int, a: Seq<char>, b: Seq<char>)
    requires
        0 <= from <= to <= s.len(),
        s.subrange(from, to) == a + b,
    ensures
        from + a.len() + b.len() == to,
        s.subrange(from, from + a.len()) == a,
        s.subrange(from + a.len(), to) == b,
{
    let whole = s.subrange(from, to);
    assert(whole.len() == to - from);
    assert((a + b).len() == a.len() + b.len());
    assert forall|i: int| 0 <= i < a.len() implies s[from + i] == a[i] by {
        assert(whole[i] == s[from + i]);
        assert((a + b)[i] == a[i]);
    }
    assert forall|i: int| 0 <= i < b.len() implies s[from + a.len() + i] == b[i] by {
        assert(whole[a.len() + i] == s[from + a.len() + i]);
        assert((a + b)[a.len() + i] == b[i]);
    }
    assert(s.subrange(from, from + a.len()) =~= a);
    assert(s.subrange(from + a.len(), to) =~= b);
}

/// A hyphen and a suffix, or nothing, fits as a suffix.
proof fn lemma_suffix_complete(s: Seq<char>, from: int, to: int, suffix: Option<Seq<char>>)
    requires
        0 <= from <= to <= s.len(),
        s.subrange(from, to) == hyphened(suffix),
        suffix_shaped(suffix),
    ensures
        suffix_fits(s, from, to),
{
    reveal_strlit("-");
    reveal_strlit("meta");
    reveal_strlit("-meta");
    match suffix {
        Some(x) => {
            lemma_parts(s, from, to, "-"@, x);
            assert(s.subrange(from, from + 1)[0] == '-');
            if x == "meta"@ {
                assert(s.subrange(from, to) =~= "-meta"@) by {
                    assert("-"@ + "meta"@ =~= "-meta"@);
                }
            } else {
                assert forall|i: int| from + 1 <= i < to implies is_digit(#[trigger] s[i]) by {
                    assert(s.subrange(from + 1, to)[i - from - 1] == x[i - from - 1]);
                    assert(digit_class()(x[i - from - 1]));
                }
            }
        },
        None => {
            assert(s.subrange(from, to).len() == 0);
        },
    }
}

/// The token `aborted`, where it is there, and a suffix, where there is
/// one, fit as these two.
proof fn lemma_aborted_complete(s: Seq<char>, from: int, to: int, aborted: bool, suffix: Option<Seq<char>>)
    requires
        0 <= from <= to <= s.len(),
        s.subrange(from, to) == aborted_text(aborted) + hyphened(suffix),
        suffix_shaped(suffix),
    ensures
        aborted_fits(s, from, to) is Some,
{
    reveal_strlit("-aborted");
    lemma_parts(s, from, to, aborted_text(aborted), hyphened(suffix));
    if aborted {
        lemma_suffix_complete(s, from + 8, to, suffix);
    } else {
        assert(s.subrange(from, to) =~= hyphened(suffix));
        lemma_suffix_complete(s, from, to, suffix);
    }
}

/// An identifier, the token and a suffix, as far as they are there, fit
/// between the time and the extension.
proof fn lemma_tail_complete(
    s: Seq<char>,
    from: int,
    to: int,
    ident: Option<Seq<char>>,
    aborted: bool,
    suffix: Option<Seq<char>>,
)
    requires
        0 <= from <= to <= s.len(),
        s.subrange(from, to) == hyphened(ident) + aborted_text(aborted) + hyphened(suffix),
        ident_shaped(ident),
        suffix_shaped(suffix),
    ensures
        tail_fits(s, from, to) is Some,
{
    reveal_strlit("-");
    let rest = aborted_text(aborted) + hyphened(suffix);
    assert(hyphened(ident) + aborted_text(aborted) + hyphened(suffix) =~= hyphened(ident) + rest);
    lemma_parts(s, from, to, hyphened(ident), rest);
    match ident {
        Some(x) => {
            lemma_parts(s, from, from + 6, "-"@, x);
            assert(s.subrange(from, from + 1)[0] == '-');
            assert forall|i: int| from + 1 <= i < from + 6 implies is_word_char(#[trigger] s[i]) by {
                assert(s.subrange(from + 1, from + 6)[i - from - 1] == x[i - from - 1]);
                assert(word_class()(x[i - from - 1]));
            }
            lemma_aborted_complete(s, from + 6, to, aborted, suffix);
        },
        None => {
            lemma_aborted_complete(s, from, to, aborted, suffix);
        },
    }
}

/// A depth between two hyphens is read as that depth.
proof fn lemma_depth_complete(s: Seq<char>, p: int, depth: Seq<char>)
    requires
        0 <= p,
        p + depth.len() + 2 <= s.len(),
        depth == "inf"@ || depth == "shallow"@,
        s.subrange(p, p + depth.len() + 2) == "-"@ + depth + "-"@,
    ensures
        depth_at(s, p) == Some(depth),
{
    reveal_strlit("-");
    reveal_strlit("inf");
    reveal_strlit("shallow");
    reveal_strlit("-inf-");
    reveal_strlit("-shallow-");
    let part = s.subrange(p, p + depth.len() + 2);
    if depth == "inf"@ {
        assert(part =~= "-inf-"@);
    } else {
        assert(part =~= "-shallow-"@);
        assert(part[1] == 's');
        if has_at(s, p, "-inf-"@) {
            assert(s.subrange(p, p + 5)[1] == 'i');
        }
    }
}

/// An extension after a dot at the end is read as that extension.
proof fn lemma_extension_complete(s: Seq<char>, extension: Seq<char>)
    requires
        extension == "json"@ || extension == "warc.gz"@,
        0 <= s.len() - extension.len() - 1,
        s.subrange(s.len() - extension.len() - 1, s.len() as int) == "."@ + extension,
    ensures
        extension_of(s) == Some(extension),
{
    reveal_strlit(".");
    reveal_strlit("json");
    reveal_strlit("warc.gz");
    reveal_strlit(".json");
    reveal_strlit(".warc.gz");
    let part = s.subrange(s.len() - extension.len() - 1, s.len() as int);
    if extension == "warc.gz"@ {
        assert(part =~= ".warc.gz"@);
    } else {
        assert(part =~= ".json"@);
        assert(part[4] == 'n');
        if has_at(s, s.len() - ".warc.gz"@.len(), ".warc.gz"@) {
            assert(s.subrange(s.len() - 8, s.len() as int)[7] == 'z');
        }
    }
}

/// What well-formed pieces make is read by the parser with their domain.
pub proof fn lemma_split_at_complete(pieces: Pieces)
    requires
        pieces.well_formed(),
    ensures
        split_at(pieces.text(), pieces.domain.len() as int) is Some,
{
    let s = pieces.text();
    let p = pieces.domain.len() as int;
    let date = p + pieces.depth.len() + 2;
    let time = date + 9;
    let tail = time + 6;
    let end = tail + pieces.tail().len();
    assert("-"@.len() == 1 && "."@.len() == 1) by {
        reveal_strlit("-");
        reveal_strlit(".");
    }
    let a = pieces.domain;
    let b = "-"@ + pieces.depth + "-"@;
    let c = pieces.date;
    let d = "-"@;
    let e = pieces.time;
    let f = pieces.tail();
    let g = "."@ + pieces.extension;
    assert(s =~= a + (b + (c + (d + (e + (f + g))))));
    assert(s.subrange(0, s.len() as int) =~= s);
    lemma_parts(s, 0, s.len() as int, a, b + (c + (d + (e + (f + g)))));
    lemma_parts(s, p, s.len() as int, b, c + (d + (e + (f + g))));
    lemma_parts(s, date, s.len() as int, c, d + (e + (f + g)));
    lemma_parts(s, date + 8, s.len() as int, d, e + (f + g));
    lemma_parts(s, time, s.len() as int, e, f + g);
    lemma_parts(s, tail, s.len() as int, f, g);
    lemma_depth_complete(s, p, pieces.depth);
    lemma_extension_complete(s, pieces.extension);
    lemma_tail_complete(s, tail, end, pieces.ident, pieces.aborted, pieces.suffix);
    assert forall|i: int| 0 <= i < p implies is_domain_char(#[trigger] s[i]) by {
        assert(s.subrange(0, p)[i] == a[i]);
        assert(domain_class()(a[i]));
    }
    assert forall|i: int| date <= i < date + 8 implies is_digit(#[trigger] s[i]) by {
        assert(s.subrange(date, date + 8)[i - date] == c[i - date]);
        assert(digit_class()(c[i - date]));
    }
    assert forall|i: int| time <= i < tail implies is_digit(#[trigger] s[i]) by {
        assert(s.subrange(time, tail)[i - time] == e[i - time]);
        assert(digit_class()(e[i - time]));
    }
    assert(has_at(s, date + 8, "-"@));
}

/// Where a domain of `n` characters at most fits, the longest such domain
/// is the one that is read.
proof fn lemma_split_upto_found(s: Seq<char>, n: int) -> (p: int)
    requires
        split_upto(s, n) is Some,
    ensures
        1 <= p <= n,
        split_at(s, p) == split_upto(s, n),
        forall|q: int| p < q <= n ==> #[trigger] split_at(s, q) is None,
    decreases n,
{
    if split_at(s, n) is Some {
        n
    } else {
        lemma_split_upto_found(s, n - 1)
    }
}

/// Where a domain of `p` characters fits, a domain of `p` characters or
/// more is read.
proof fn lemma_split_upto_finds(s: Seq<char>, n: int, p: int)
    requires
        1 <= p <= n,
        split_at(s, p) is Some,
    ensures
        split_upto(s, n) is Some,
        split_upto(s, n)->0.domain.len() >= p,
    decreases n,
{
    if split_at(s, n) is Some {
        if depth_at(s, n) is Some {
            lemma_depth_sound(s, n);
        }
    } else {
        lemma_split_upto_finds(s, n - 1, p);
    }
}

/// The pieces make a file name that is read as these fields.
pub open spec fn reads_as(pieces: Pieces, s: Seq<char>, fields: FilenameFields) -> bool {
    pieces.well_formed() && pieces.text() == s && pieces.fields() == fields
}

/// What the parser reads off a name, the name says: the name is made of
/// well-formed pieces, and the fields are those of the pieces.
pub proof fn law_parser_sound(s: Seq<char>)
    requires
        parsed(s) is Some,
    ensures
        exists|pieces: Pieces| reads_as(pieces, s, parsed(s)->0),
{
    let p = lemma_split_upto_found(s, s.len() as int);
    lemma_split_at_sound(s, p);
    assert(reads_as(pieces_at(s, p), s, parsed(s)->0));
}

/// Every name that is made of well-formed pieces is read by the parser,
/// with a domain no shorter than that of the pieces.
pub proof fn law_parser_complete(pieces: Pieces)
    requires
        pieces.well_formed(),
    ensures
        parsed(pieces.text()) is Some,
        parsed(pieces.text())->0.domain.len() >= pieces.domain.len(),
{
    lemma_split_at_complete(pieces);
    let s = pieces.text();
    let p = pieces.domain.len() as int;
    assert(p <= s.len()) by {
        assert(s.len() == pieces.head().len() + pieces.tail().len() + "."@.len() + pieces.extension.len());
        assert(pieces.head().len() >= p);
    }
    lemma_split_upto_finds(s, s.len() as int, p);
}

/// A name that the parser does not read is made of no well-formed pieces.
pub proof fn law_parser_declines(s: Seq<char>, pieces: Pieces)
    requires
        parsed(s) is None,
        pieces.well_formed(),
    ensures
        pieces.text() != s,
{
    law_parser_complete(pieces);
}

/// The character at a position of a part of a text.
proof fn lemma_part_char(s: Seq<char>, from: int, to: int, t: Seq<char>, i: int)
    requires
        0 <= from <= to <= s.len(),
        s.subrange(from, to) == t,
        0 <= i < t.len(),
    ensures
        from + i < to,
        s[from + i] == t[i],
{
    assert(s.subrange(from, to)[i] == s[from + i]);
}

/// A suffix does not begin like the token `aborted`: nothing but a suffix
/// is read where a suffix stands alone.
proof fn lemma_suffix_is_no_token(s: Seq<char>, from: int, to: int, suffix: Option<Seq<char>>)
    requires
        0 <= from <= to <= s.len(),
        s.subrange(from, to) == hyphened(suffix),
        suffix_shaped(suffix),
    ensures
        !(has_at(s, from, "-aborted"@) && from + "-aborted"@.len() <= to),
{
    reveal_strlit("-aborted");
    reveal_strlit("-");
    reveal_strlit("meta");
    if has_at(s, from, "-aborted"@) && from + 8 <= to {
        match suffix {
            Some(x) => {
                assert(hyphened(suffix).len() == 1 + x.len());
                assert(x != "meta"@);
                lemma_part_char(s, from, to, hyphened(suffix), 1);
                assert(hyphened(suffix)[1] == x[0]);
                assert(digit_class()(x[0]));
                assert(s.subrange(from, from + 8)[1] == 'a');
            },
            None => {
                assert(hyphened(suffix).len() == 0);
            },
        }
    }
}

/// The token `aborted`, where it is there, and a suffix, where there is
/// one, are read as what they are.
proof fn lemma_aborted_exact(s: Seq<char>, from: int, to: int, aborted: bool, suffix: Option<Seq<char>>)
    requires
        0 <= from <= to <= s.len(),
        s.subrange(from, to) == aborted_text(aborted) + hyphened(suffix),
        suffix_shaped(suffix),
    ensures
        aborted_fits(s, from, to) == Some(aborted),
{
    lemma_parts(s, from, to, aborted_text(aborted), hyphened(suffix));
    if aborted {
        assert("-aborted"@.len() == 8) by {
            reveal_strlit("-aborted");
        }
        lemma_suffix_complete(s, from + 8, to, suffix);
        assert(has_at(s, from, "-aborted"@));
    } else {
        assert(s.subrange(from, to) =~= hyphened(suffix));
        lemma_suffix_complete(s, from, to, suffix);
        lemma_suffix_is_no_token(s, from, to, suffix);
    }
}

/// The pieces read a suffix of five digits, and nothing else, between the
/// time and the extension: the one case in which the parser reads an
/// identifier where the pieces have none.
pub open spec fn digits_as_suffix(pieces: Pieces) -> bool {
    pieces.ident is None && !pieces.aborted && pieces.suffix is Some && pieces.suffix->0.len() == 5 && all_of(
        pieces.suffix->0,
        digit_class(),
    )
}

/// An identifier that stands after the time is read, with the token and
/// the suffix after it.
proof fn lemma_tail_with_ident(
    s: Seq<char>,
    from: int,
    to: int,
    x: Seq<char>,
    aborted: bool,
    suffix: Option<Seq<char>>,
)
    requires
        0 <= from <= to <= s.len(),
        s.subrange(from, to) == hyphened(Some(x)) + (aborted_text(aborted) + hyphened(suffix)),
        ident_shaped(Some(x)),
        suffix_shaped(suffix),
    ensures
        tail_fits(s, from, to) == Some((true, aborted)),
        s.subrange(from + 1, from + 6) == x,
{
    assert("-"@.len() == 1 && "-"@[0] == '-') by {
        reveal_strlit("-");
    }
    let rest = aborted_text(aborted) + hyphened(suffix);
    assert(hyphened(Some(x)).len() == 6);
    lemma_parts(s, from, to, hyphened(Some(x)), rest);
    lemma_parts(s, from, from + 6, "-"@, x);
    lemma_part_char(s, from, from + 1, "-"@, 0);
    assert forall|i: int| from + 1 <= i < from + 6 implies is_word_char(#[trigger] s[i]) by {
        lemma_part_char(s, from + 1, from + 6, x, i - from - 1);
        assert(word_class()(x[i - from - 1]));
    }
    lemma_aborted_exact(s, from + 6, to, aborted, suffix);
    assert(ident_at(s, from, to));
}

/// Five digits that stand alone after the time are read as an identifier.
proof fn lemma_tail_with_digits(s: Seq<char>, from: int, to: int, x: Seq<char>)
    requires
        0 <= from <= to <= s.len(),
        s.subrange(from, to) == hyphened(Some(x)),
        x.len() == 5,
        all_of(x, digit_class()),
    ensures
        tail_fits(s, from, to) == Some((true, false)),
        to == from + 6,
        s.subrange(from + 1, from + 6) == x,
{
    assert("-"@.len() == 1 && "-"@[0] == '-') by {
        reveal_strlit("-");
    }
    assert("-aborted"@.len() == 8) by {
        reveal_strlit("-aborted");
    }
    assert(hyphened(Some(x)).len() == 6);
    lemma_parts(s, from, to, "-"@, x);
    lemma_part_char(s, from, from + 1, "-"@, 0);
    assert forall|i: int| from + 1 <= i < from + 6 implies is_word_char(#[trigger] s[i]) by {
        lemma_part_char(s, from + 1, from + 6, x, i - from - 1);
        assert(digit_class()(x[i - from - 1]));
    }
    assert(ident_at(s, from, to));
    assert(suffix_fits(s, from + 6, to));
    assert(aborted_fits(s, from + 6, to) == Some(false));
}

/// Without an identifier, and but for five digits that stand alone, no
/// identifier is read: what would follow it is neither the token nor a
/// suffix.
proof fn lemma_tail_without_ident(s: Seq<char>, from: int, to: int, aborted: bool, suffix: Option<Seq<char>>)
    requires
        0 <= from <= to <= s.len(),
        s.subrange(from, to) == aborted_text(aborted) + hyphened(suffix),
        suffix_shaped(suffix),
        !(!aborted && suffix is Some && suffix->0.len() == 5 && all_of(suffix->0, digit_class())),
    ensures
        tail_fits(s, from, to) == Some((false, aborted)),
{
    reveal_strlit("-");
    reveal_strlit("-aborted");
    reveal_strlit("-meta");
    reveal_strlit("meta");
    let rest = aborted_text(aborted) + hyphened(suffix);
    lemma_aborted_exact(s, from, to, aborted, suffix);
    if ident_at(s, from, to) && aborted_fits(s, from + 6, to) is Some {
        // Six characters stand there, and what follows them is read as a
        // token or a suffix: this cannot be.
        if aborted {
            assert(rest.len() >= 8);
            lemma_part_char(s, from, to, rest, 6);
            assert(rest[6] == 'e');
            assert(!has_at(s, from + 6, "-aborted"@)) by {
                if has_at(s, from + 6, "-aborted"@) {
                    assert(s.subrange(from + 6, from + 14)[0] == '-');
                }
            }
            assert(!has_at(s, from + 6, "-meta"@)) by {
                if has_at(s, from + 6, "-meta"@) {
                    assert(s.subrange(from + 6, from + 11)[0] == '-');
                }
            }
        } else {
            match suffix {
                Some(x) => {
                    assert(rest =~= "-"@ + x);
                    assert(rest.len() == 1 + x.len());
                    assert(x != "meta"@);
                    assert(x.len() > 5);
                    lemma_part_char(s, from, to, rest, 6);
                    assert(rest[6] == x[5]);
                    assert(digit_class()(x[5]));
                    assert(!has_at(s, from + 6, "-aborted"@)) by {
                        if has_at(s, from + 6, "-aborted"@) {
                            assert(s.subrange(from + 6, from + 14)[0] == '-');
                        }
                    }
                    assert(!has_at(s, from + 6, "-meta"@)) by {
                        if has_at(s, from + 6, "-meta"@) {
                            assert(s.subrange(from + 6, from + 11)[0] == '-');
                        }
                    }
                },
                None => {
                    assert(rest.len() == 0);
                },
            }
        }
    }
}

/// What the parser reads between the time and the extension where pieces
/// stand there: their identifier and their token, but for five digits
/// that stand alone, which it reads as an identifier.
proof fn lemma_tail_exact(s: Seq<char>, from: int, to: int, pieces: Pieces)
    requires
        0 <= from <= to <= s.len(),
        s.subrange(from, to) == pieces.tail(),
        ident_shaped(pieces.ident),
        suffix_shaped(pieces.suffix),
    ensures
        tail_fits(s, from, to) == if digits_as_suffix(pieces) {
            Some((true, false))
        } else {
            Some((pieces.ident is Some, pieces.aborted))
        },
        digits_as_suffix(pieces) ==> s.subrange(from + 1, from + 6) == pieces.suffix->0,
        pieces.ident is Some ==> s.subrange(from + 1, from + 6) == pieces.ident->0,
{
    let rest = aborted_text(pieces.aborted) + hyphened(pieces.suffix);
    assert(pieces.tail() =~= hyphened(pieces.ident) + rest);
    match pieces.ident {
        Some(x) => {
            lemma_tail_with_ident(s, from, to, x, pieces.aborted, pieces.suffix);
        },
        None => {
            assert(pieces.tail() =~= rest);
            if digits_as_suffix(pieces) {
                assert(rest =~= hyphened(pieces.suffix));
                lemma_tail_with_digits(s, from, to, pieces.suffix->0);
            } else {
                lemma_tail_without_ident(s, from, to, pieces.aborted, pieces.suffix);
            }
        },
    }
}

/// The parts of what well-formed pieces make.
proof fn lemma_text_parts(pieces: Pieces)
    requires
        pieces.well_formed(),
    ensures
        ({
            let s = pieces.text();
            let p = pieces.domain.len() as int;
            let date = p + pieces.depth.len() + 2;
            let tail = date + 15;
            let end = tail + pieces.tail().len();
            &&& end + 1 + pieces.extension.len() == s.len()
            &&& s.subrange(0, p) == pieces.domain
            &&& s.subrange(p, date) == "-"@ + pieces.depth + "-"@
            &&& s.subrange(date, date + 8) == pieces.date
            &&& s.subrange(date + 8, date + 9) == "-"@
            &&& s.subrange(date + 9, tail) == pieces.time
            &&& s.subrange(tail, end) == pieces.tail()
            &&& s.subrange(end, s.len() as int) == "."@ + pieces.extension
        }),
{
    let s = pieces.text();
    let p = pieces.domain.len() as int;
    let date = p + pieces.depth.len() + 2;
    let time = date + 9;
    let tail = time + 6;
    assert("-"@.len() == 1 && "."@.len() == 1) by {
        reveal_strlit("-");
        reveal_strlit(".");
    }
    let a = pieces.domain;
    let b = "-"@ + pieces.depth + "-"@;
    let c = pieces.date;
    let d = "-"@;
    let e = pieces.time;
    let f = pieces.tail();
    let g = "."@ + pieces.extension;
    assert(s =~= a + (b + (c + (d + (e + (f + g))))));
    assert(s.subrange(0, s.len() as int) =~= s);
    lemma_parts(s, 0, s.len() as int, a, b + (c + (d + (e + (f + g)))));
    lemma_parts(s, p, s.len() as int, b, c + (d + (e + (f + g))));
    lemma_parts(s, date, s.len() as int, c, d + (e + (f + g)));
    lemma_parts(s, date + 8, s.len() as int, d, e + (f + g));
    lemma_parts(s, time, s.len() as int, e, f + g);
    lemma_parts(s, tail, s.len() as int, f, g);
}

/// Well-formed pieces that make `s` are read by the parser, where it
/// takes their domain, as what they are: with their depth, date, time and
/// extension, and with their identifier and token, but for five digits
/// that stand alone after the time, which are read as an identifier.
pub proof fn lemma_split_at_exact(pieces: Pieces)
    requires
        pieces.well_formed(),
    ensures
        split_at(pieces.text(), pieces.domain.len() as int) == Some(
            if digits_as_suffix(pieces) {
                FilenameFields { ident: pieces.suffix->0, ..pieces.fields() }
            } else {
                pieces.fields()
            },
        ),
{
    let s = pieces.text();
    let p = pieces.domain.len() as int;
    let date = p + pieces.depth.len() + 2;
    let tail = date + 15;
    let end = tail + pieces.tail().len();
    lemma_text_parts(pieces);
    lemma_split_at_complete(pieces);
    lemma_depth_complete(s, p, pieces.depth);
    lemma_extension_complete(s, pieces.extension);
    lemma_tail_exact(s, tail, end, pieces);
    let read = split_at(s, p)->0;
    let flags = tail_fits(s, tail, end)->0;
    assert(read.aborted == (if flags.1 {
        "aborted"@
    } else {
        Seq::<char>::empty()
    }));
}

/// A depth can begin at position `q`: a hyphen stands there, then `inf` or
/// `shallow`, then a hyphen.
pub open spec fn depth_begins(s: Seq<char>, q: int) -> bool {
    has_at(s, q, "-inf-"@) || has_at(s, q, "-shallow-"@)
}

/// What stands where a depth begins.
proof fn lemma_depth_chars(s: Seq<char>, q: int)
    requires
        depth_begins(s, q),
    ensures
        0 <= q,
        q + 4 < s.len(),
        s[q] == '-',
        s[q + 1] == 'i' || s[q + 1] == 's',
        s[q + 1] == 'i' ==> s[q + 4] == '-',
        s[q + 1] == 's' ==> q + 8 < s.len() && s[q + 6] == 'o',
{
    reveal_strlit("-inf-");
    reveal_strlit("-shallow-");
    if has_at(s, q, "-inf-"@) {
        let part = s.subrange(q, q + 5);
        assert(part[0] == '-' && part[1] == 'i' && part[4] == '-');
    } else {
        let part = s.subrange(q, q + 9);
        assert(part[0] == '-' && part[1] == 's' && part[6] == 'o');
    }
}

/// No depth begins within the depth, the date or the time of well-formed
/// pieces.
proof fn lemma_no_depth_in_head(pieces: Pieces, q: int)
    requires
        pieces.well_formed(),
        pieces.domain.len() < q < pieces.domain.len() + pieces.depth.len() + 17,
    ensures
        !depth_begins(pieces.text(), q),
{
    let s = pieces.text();
    let p = pieces.domain.len() as int;
    let dl = pieces.depth.len() as int;
    let date = p + dl + 2;
    let time = date + 9;
    let tail = date + 15;
    lemma_text_parts(pieces);
    reveal_strlit("-");
    reveal_strlit("inf");
    reveal_strlit("shallow");
    if depth_begins(s, q) {
        lemma_depth_chars(s, q);
        if q < p + dl + 1 {
            // Within the depth: a letter stands there.
            let part = "-"@ + pieces.depth + "-"@;
            lemma_part_char(s, p, date, part, q - p);
            assert(part[q - p] == pieces.depth[q - p - 1]);
        } else if q == p + dl + 1 {
            // At the hyphen before the date: a digit follows.
            lemma_part_char(s, date, date + 8, pieces.date, 0);
            assert(digit_class()(pieces.date[0]));
        } else if q < date + 8 {
            lemma_part_char(s, date, date + 8, pieces.date, q - date);
            assert(digit_class()(pieces.date[q - date]));
        } else if q == date + 8 {
            // At the hyphen before the time: a digit follows.
            lemma_part_char(s, time, tail, pieces.time, 0);
            assert(digit_class()(pieces.time[0]));
        } else {
            lemma_part_char(s, time, tail, pieces.time, q - time);
            assert(digit_class()(pieces.time[q - time]));
        }
    }
}

/// No depth begins within the extension of well-formed pieces, nor at the
/// dot before it.
proof fn lemma_no_depth_in_extension(pieces: Pieces, q: int)
    requires
        pieces.well_formed(),
        pieces.text().len() - pieces.extension.len() - 1 <= q,
    ensures
        !depth_begins(pieces.text(), q),
{
    let s = pieces.text();
    lemma_text_parts(pieces);
    reveal_strlit(".");
    reveal_strlit("json");
    reveal_strlit("warc.gz");
    if depth_begins(s, q) {
        lemma_depth_chars(s, q);
        let end = s.len() - pieces.extension.len() - 1;
        let part = "."@ + pieces.extension;
        lemma_part_char(s, end, s.len() as int, part, q - end);
        if q > end {
            assert(part[q - end] == pieces.extension[q - end - 1]);
        }
    }
}

/// The three parts of the tail of well-formed pieces, where they stand in
/// what the pieces make.
proof fn lemma_tail_parts(pieces: Pieces)
    requires
        pieces.well_formed(),
    ensures
        ({
            let s = pieces.text();
            let a0 = (pieces.domain.len() + pieces.depth.len() + 17) as int;
            let a1 = a0 + hyphened(pieces.ident).len() as int;
            let a2 = a1 + aborted_text(pieces.aborted).len() as int;
            let end = a2 + hyphened(pieces.suffix).len() as int;
            &&& end + 1 + pieces.extension.len() == s.len()
            &&& s.subrange(a0, a1) == hyphened(pieces.ident)
            &&& s.subrange(a1, a2) == aborted_text(pieces.aborted)
            &&& s.subrange(a2, end) == hyphened(pieces.suffix)
            &&& s[end] == '.'
        }),
{
    let s = pieces.text();
    let a0 = (pieces.domain.len() + pieces.depth.len() + 17) as int;
    let rest = aborted_text(pieces.aborted) + hyphened(pieces.suffix);
    lemma_text_parts(pieces);
    assert(pieces.tail() =~= hyphened(pieces.ident) + rest);
    let end = a0 + pieces.tail().len() as int;
    lemma_parts(s, a0, end, hyphened(pieces.ident), rest);
    lemma_parts(s, a0 + hyphened(pieces.ident).len(), end, aborted_text(pieces.aborted), hyphened(pieces.suffix));
    reveal_strlit(".");
    lemma_part_char(s, end, s.len() as int, "."@ + pieces.extension, 0);
}

/// No depth begins within the identifier of well-formed pieces.
proof fn lemma_no_depth_in_ident(pieces: Pieces, q: int)
    requires
        pieces.well_formed(),
        pieces.ident is Some,
        pieces.domain.len() + pieces.depth.len() + 17 <= q < pieces.domain.len() + pieces.depth.len() + 23,
    ensures
        !depth_begins(pieces.text(), q),
{
    let s = pieces.text();
    let a0 = (pieces.domain.len() + pieces.depth.len() + 17) as int;
    let a1 = a0 + 6;
    let a2 = a1 + aborted_text(pieces.aborted).len() as int;
    let end = a2 + hyphened(pieces.suffix).len() as int;
    let x = pieces.ident->0;
    lemma_tail_parts(pieces);
    reveal_strlit("-");
    reveal_strlit("-aborted");
    assert(hyphened(pieces.ident) =~= "-"@ + x);
    if depth_begins(s, q) {
        lemma_depth_chars(s, q);
        if q == a0 {
            if s[q + 1] == 'i' {
                lemma_part_char(s, a0, a1, hyphened(pieces.ident), 4);
                assert(hyphened(pieces.ident)[4] == x[3]);
                assert(word_class()(x[3]));
            } else {
                // The seventh character is a hyphen or the dot.
                if pieces.aborted {
                    lemma_part_char(s, a1, a2, aborted_text(pieces.aborted), 0);
                } else if pieces.suffix is Some {
                    lemma_part_char(s, a2, end, hyphened(pieces.suffix), 0);
                }
            }
        } else {
            lemma_part_char(s, a0, a1, hyphened(pieces.ident), q - a0);
            assert(hyphened(pieces.ident)[q - a0] == x[q - a0 - 1]);
            assert(word_class()(x[q - a0 - 1]));
        }
    }
}

/// The token `aborted` after its hyphen holds no hyphen, and begins with
/// an `a`.
proof fn lemma_aborted_letters(k: int)
    requires
        1 <= k < 8,
    ensures
        "-aborted"@.len() == 8,
        "-aborted"@[k] != '-',
        "-aborted"@[1] == 'a',
{
    reveal_strlit("-aborted");
}

/// No depth begins within the token `aborted` of well-formed pieces.
proof fn lemma_no_depth_in_aborted(pieces: Pieces, q: int)
    requires
        pieces.well_formed(),
        pieces.aborted,
        0 <= q - (pieces.domain.len() + pieces.depth.len() + 17 + hyphened(pieces.ident).len()) < 8,
    ensures
        !depth_begins(pieces.text(), q),
{
    let s = pieces.text();
    let a1 = (pieces.domain.len() + pieces.depth.len() + 17 + hyphened(pieces.ident).len()) as int;
    lemma_tail_parts(pieces);
    lemma_aborted_letters(1);
    if depth_begins(s, q) {
        lemma_depth_chars(s, q);
        if q == a1 {
            lemma_part_char(s, a1, a1 + 8, "-aborted"@, 1);
        } else {
            lemma_aborted_letters(q - a1);
            lemma_part_char(s, a1, a1 + 8, "-aborted"@, q - a1);
        }
    }
}

/// No depth begins within the suffix of well-formed pieces.
proof fn lemma_no_depth_in_suffix(pieces: Pieces, q: int)
    requires
        pieces.well_formed(),
        pieces.suffix is Some,
        0 <= q - (pieces.domain.len() + pieces.depth.len() + 17 + hyphened(pieces.ident).len() + aborted_text(
            pieces.aborted,
        ).len()) < hyphened(pieces.suffix).len(),
    ensures
        !depth_begins(pieces.text(), q),
{
    let s = pieces.text();
    let a2 = (pieces.domain.len() + pieces.depth.len() + 17 + hyphened(pieces.ident).len() + aborted_text(
        pieces.aborted,
    ).len()) as int;
    let end = a2 + hyphened(pieces.suffix).len() as int;
    let x = pieces.suffix->0;
    lemma_tail_parts(pieces);
    reveal_strlit("-");
    reveal_strlit("meta");
    assert(hyphened(pieces.suffix) =~= "-"@ + x);
    if depth_begins(s, q) {
        lemma_depth_chars(s, q);
        if q == a2 {
            lemma_part_char(s, a2, end, hyphened(pieces.suffix), 1);
            assert(hyphened(pieces.suffix)[1] == x[0]);
            if x != "meta"@ {
                assert(digit_class()(x[0]));
            }
        } else {
            lemma_part_char(s, a2, end, hyphened(pieces.suffix), q - a2);
            assert(hyphened(pieces.suffix)[q - a2] == x[q - a2 - 1]);
            if x != "meta"@ {
                assert(digit_class()(x[q - a2 - 1]));
            }
        }
    }
}

/// After the domain of well-formed pieces no depth begins: the fields of
/// fixed shape anchor the domain.
pub proof fn lemma_domain_anchored(pieces: Pieces, q: int)
    requires
        pieces.well_formed(),
        pieces.domain.len() < q,
    ensures
        !depth_begins(pieces.text(), q),
{
    let s = pieces.text();
    let a0 = (pieces.domain.len() + pieces.depth.len() + 17) as int;
    let a1 = a0 + hyphened(pieces.ident).len() as int;
    let a2 = a1 + aborted_text(pieces.aborted).len() as int;
    let end = a2 + hyphened(pieces.suffix).len() as int;
    lemma_tail_parts(pieces);
    assert("-"@.len() == 1 && "-aborted"@.len() == 8) by {
        reveal_strlit("-");
        reveal_strlit("-aborted");
    }
    if q < a0 {
        lemma_no_depth_in_head(pieces, q);
    } else if q < a1 {
        lemma_no_depth_in_ident(pieces, q);
    } else if q < a2 {
        lemma_no_depth_in_aborted(pieces, q);
    } else if q < end {
        lemma_no_depth_in_suffix(pieces, q);
    } else {
        lemma_no_depth_in_extension(pieces, q);
    }
}

/// What well-formed pieces make is read by the parser as what they are:
/// with their domain, depth, date, time and extension, and with their
/// identifier and token, but for five digits that stand alone after the
/// time, which are read as an identifier.
pub proof fn law_parser_exact(pieces: Pieces)
    requires
        pieces.well_formed(),
    ensures
        parsed(pieces.text()) == Some(
            if digits_as_suffix(pieces) {
                FilenameFields { ident: pieces.suffix->0, ..pieces.fields() }
            } else {
                pieces.fields()
            },
        ),
{
    let s = pieces.text();
    let p = pieces.domain.len() as int;
    law_parser_complete(pieces);
    lemma_split_at_exact(pieces);
    let q = lemma_split_upto_found(s, s.len() as int);
    if q > p {
        lemma_domain_anchored(pieces, q);
        assert(depth_at(s, q) is Some);
    } else if q < p {
        lemma_text_parts(pieces);
        assert(p <= s.len());
        assert(split_at(s, p) is Some);
    }
}

/// Texts of ASCII put together are of ASCII.
proof fn lemma_ascii_joined(a: Seq<char>, b: Seq<char>)
    requires
        is_ascii_chars(a),
        is_ascii_chars(b),
    ensures
        is_ascii_chars(a + b),
{
    assert forall|i: int| 0 <= i < (a + b).len() implies '\0' <= #[trigger] (a + b)[i] <= '\u{7f}' by {
        if i < a.len() {
            assert((a + b)[i] == a[i]);
        } else {
            assert((a + b)[i] == b[i - a.len()]);
        }
    }
}

/// A text of characters of one of the grammar's classes is of ASCII.
proof fn lemma_class_ascii(s: Seq<char>)
    requires
        all_of(s, domain_class()) || all_of(s, word_class()) || all_of(s, digit_class()),
    ensures
        is_ascii_chars(s),
{
    assert forall|i: int| 0 <= i < s.len() implies '\0' <= #[trigger] s[i] <= '\u{7f}' by {
        if all_of(s, domain_class()) {
            assert(domain_class()(s[i]));
        } else if all_of(s, word_class()) {
            assert(word_class()(s[i]));
        } else {
            assert(digit_class()(s[i]));
        }
    }
}

/// What well-formed pieces make is of ASCII.
proof fn lemma_text_ascii(pieces: Pieces)
    requires
        pieces.well_formed(),
    ensures
        is_ascii_chars(pieces.text()),
{
    reveal_strlit("-");
    reveal_strlit(".");
    reveal_strlit("inf");
    reveal_strlit("shallow");
    reveal_strlit("json");
    reveal_strlit("warc.gz");
    reveal_strlit("meta");
    reveal_strlit("-aborted");
    let none = Seq::<char>::empty();
    assert(is_ascii_chars(none));
    assert(is_ascii_chars("-"@) && is_ascii_chars("."@) && is_ascii_chars("-aborted"@));
    assert(is_ascii_chars(pieces.depth));
    assert(is_ascii_chars(pieces.extension));
    lemma_class_ascii(pieces.domain);
    lemma_class_ascii(pieces.date);
    lemma_class_ascii(pieces.time);
    match pieces.ident {
        Some(x) => {
            lemma_class_ascii(x);
            lemma_ascii_joined("-"@, x);
        },
        None => {},
    }
    match pieces.suffix {
        Some(x) => {
            if x != "meta"@ {
                lemma_class_ascii(x);
            }
            lemma_ascii_joined("-"@, x);
        },
        None => {},
    }
    let token = if pieces.aborted {
        "-aborted"@
    } else {
        none
    };
    lemma_ascii_joined(hyphened(pieces.ident), token);
    lemma_ascii_joined(hyphened(pieces.ident) + token, hyphened(pieces.suffix));
    lemma_ascii_joined(pieces.domain, "-"@);
    lemma_ascii_joined(pieces.domain + "-"@, pieces.depth);
    lemma_ascii_joined(pieces.domain + "-"@ + pieces.depth, "-"@);
    lemma_ascii_joined(pieces.domain + "-"@ + pieces.depth + "-"@, pieces.date);
    lemma_ascii_joined(pieces.domain + "-"@ + pieces.depth + "-"@ + pieces.date, "-"@);
    lemma_ascii_joined(pieces.domain + "-"@ + pieces.depth + "-"@ + pieces.date + "-"@, pieces.time);
    lemma_ascii_joined(pieces.head(), pieces.tail());
    lemma_ascii_joined(pieces.head() + pieces.tail(), "."@);
    lemma_ascii_joined(pieces.head() + pieces.tail() + "."@, pieces.extension);
}

/// A name that holds a character outside ASCII is no name of the
/// grammar: the parser reads only names of ASCII.
pub proof fn law_names_are_ascii(s: Seq<char>)
    requires
        parsed(s) is Some,
    ensures
        is_ascii_chars(s),
{
    law_parser_sound(s);
    let pieces = choose|pieces: Pieces| reads_as(pieces, s, parsed(s)->0);
    lemma_text_ascii(pieces);
}

} // verus!
