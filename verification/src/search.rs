//! Preparing a search: the query as the full-text index takes it, and the
//! link that a user typed as the domain and address to look for.

use vstd::prelude::*;
use crate::text::{ascii_lowered, chars_of, has_at, lit_at, lower};
use vstd::utf8::is_ascii_chars;

verus! {

/// `idna::Errors`: why `idna` rejects a domain. Nothing is known of what it
/// holds.
#[verifier::external_type_specification]
#[verifier::external_body]
pub struct ExIdnaErrors(idna::Errors);

/// The ASCII form that `idna::domain_to_ascii` gives a domain, or `None`
/// where it rejects the domain.
pub uninterp spec fn idna_ascii(domain: Seq<char>) -> Option<Seq<char>>;

/// The most characters of a label, a part of the text between dots, that
/// is handed to the conversion outside plain ASCII.
pub const MAX_LABEL: usize = 63;

/// `xn--` stands in the text at position `i`, in whatever case.
pub open spec fn punycode_at(s: Seq<char>, i: int) -> bool {
    has_at(ascii_lowered(s), i, "xn--"@)
}

/// A label of the text may be in Punycode: `xn--` stands in it, in
/// whatever case.
pub open spec fn mentions_punycode(s: Seq<char>) -> bool {
    exists|i: int| punycode_at(s, i)
}

/// A dot stands among the 64 characters of the text from position `i` on.
pub open spec fn dot_within(s: Seq<char>, i: int) -> bool {
    exists|k: int| i <= k <= i + MAX_LABEL && #[trigger] s[k] == '.'
}

/// No label of the text has more than 63 characters: among any 64
/// characters in a row stands a dot.
pub open spec fn labels_short(s: Seq<char>) -> bool {
    forall|i: int| 0 <= i && i + MAX_LABEL < s.len() ==> #[trigger] dot_within(s, i)
}

/// The text can be handed to the conversion: it is of ASCII alone, with no
/// label in Punycode, or none of its labels has more than 63 characters.
pub open spec fn convertible(s: Seq<char>) -> bool {
    labels_short(s) || (is_ascii_chars(s) && !mentions_punycode(s))
}

/// `idna::domain_to_ascii`: the domain converted to its ASCII form by the
/// rules of UTS #46 as the crate sets them by default, or the crate's
/// error where the domain breaks them. The result depends on the domain
/// alone.
///
/// The crate's Punycode encoder adds to a 32-bit number without a check,
/// and can leave its range on a label of some thousand characters. So the
/// conversion is only called where no label reaches the encoder, or none
/// can be that long: a text of ASCII without `xn--` is never encoded; and
/// the crate parts the text at its dots, which its mapping and
/// normalisation keep, so that a label of 63 characters grows to fewer
/// than 3500, which is short of what the encoder can take.
#[verifier::external_body]
fn domain_to_ascii(domain: &str) -> (r: Result<String, idna::Errors>)
    requires
        convertible(domain@),
    ensures
        match r {
            Ok(ascii) => idna_ascii(domain@) == Some(ascii@),
            Err(_) => idna_ascii(domain@) is None,
        },
{
    idna::domain_to_ascii(domain)
}

/// `s` with every double quote written twice.
pub open spec fn doubled(s: Seq<char>) -> Seq<char>
    decreases s.len(),
{
    if s.len() == 0 {
        Seq::empty()
    } else if s.last() == '"' {
        doubled(s.drop_last()).push('"').push('"')
    } else {
        doubled(s.drop_last()).push(s.last())
    }
}

/// The query that asks the full-text index for texts that hold the words of
/// `query` one after the other, the last as the beginning of a word:
/// `query` between double quotes, its own double quotes doubled, and a
/// star.
pub open spec fn fts_query(query: Seq<char>) -> Seq<char> {
    seq!['"'] + doubled(query) + seq!['"', '*']
}

/// Writes `query` as the full-text index takes it.
pub fn format_fts_query(query: &str) -> (r: String)
    ensures
        r@ == fts_query(query@),
{
    let v = chars_of(query);
    let mut r = String::new();
    r.push('"');
    let mut i: usize = 0;
    while i < v.len()
        invariant
            i <= v.len(),
            r@ =~= seq!['"'] + doubled(v@.take(i as int)),
        decreases v.len() - i,
    {
        assert(v@.take(i + 1).drop_last() =~= v@.take(i as int));
        if v[i] == '"' {
            r.push('"');
            r.push('"');
        } else {
            r.push(v[i]);
        }
        i += 1;
    }
    assert(v@.take(i as int) =~= v@);
    r.push('"');
    r.push('*');
    assert(r@ =~= fts_query(query@));
    r
}

/// `s` without `prefix` at its beginning, or `s` where it does not begin
/// with it.
pub open spec fn without_prefix(s: Seq<char>, prefix: Seq<char>) -> Seq<char> {
    if has_at(s, 0, prefix) {
        s.skip(prefix.len() as int)
    } else {
        s
    }
}

/// A link as it is looked for: without `https://`, `http://`, `ftp://` and
/// `www.` at its beginning, each taken off once, in this order.
pub open spec fn bare_link(query: Seq<char>) -> Seq<char> {
    without_prefix(
        without_prefix(without_prefix(without_prefix(query, "https://"@), "http://"@), "ftp://"@),
        "www."@,
    )
}

/// The domain to look for, from what the conversion to ASCII gave: the
/// converted domain, or the empty text where there is none.
pub open spec fn domain_or_empty(ascii: Option<Seq<char>>) -> Seq<char> {
    match ascii {
        Some(d) => d,
        None => Seq::empty(),
    }
}

/// What a link is looked up by.
#[derive(Debug, Clone)]
pub struct LinkQuery {
    /// The host of the link in its ASCII form, for the domains of the
    /// index.
    pub domain: String,
    /// The link without its scheme and `www.`, for the addresses of the
    /// index.
    pub url: String,
}

fn strip<'a>(s: &'a str, prefix: &str) -> (r: &'a str)
    ensures
        r@ == without_prefix(s@, prefix@),
{
    let v = chars_of(s);
    if lit_at(&v, 0, prefix) {
        let n: usize = prefix.unicode_len();
        assert(s@.skip(n as int) =~= s@.subrange(n as int, s@.len() as int));
        s.substring_char(n, v.len())
    } else {
        s
    }
}

/// The domain to look for, from what the conversion to ASCII gave.
pub fn query_domain(ascii: Option<String>) -> (r: String)
    ensures
        r@ == domain_or_empty(ascii.deep_view()),
{
    match ascii {
        Some(d) => d,
        None => String::new(),
    }
}

/// The domain that a host is looked for by: its ASCII form where it can
/// be converted and the conversion takes it, else the empty text.
pub open spec fn link_domain(host: Seq<char>) -> Seq<char> {
    if convertible(host) {
        domain_or_empty(idna_ascii(host))
    } else {
        Seq::empty()
    }
}

/// Whether `xn--` stands in the text, in whatever case.
fn has_punycode(s: &str) -> (r: bool)
    ensures
        r == mentions_punycode(s@),
{
    let v = chars_of(s);
    let mut low: Vec<char> = Vec::new();
    let mut k: usize = 0;
    while k < v.len()
        invariant
            k <= v.len(),
            v@ == s@,
            low@ =~= ascii_lowered(v@).take(k as int),
        decreases v.len() - k,
    {
        low.push(lower(v[k]));
        k += 1;
    }
    assert(low@ =~= ascii_lowered(s@));
    assert("xn--"@.len() == 4) by {
        reveal_strlit("xn--");
    }
    let mut i: usize = 0;
    while i < low.len()
        invariant
            i <= low.len(),
            low@ == ascii_lowered(s@),
            "xn--"@.len() == 4,
            forall|j: int| 0 <= j < i ==> !punycode_at(s@, j),
        decreases low.len() - i,
    {
        if lit_at(&low, i, "xn--") {
            assert(punycode_at(s@, i as int));
            return true;
        }
        i += 1;
    }
    assert forall|j: int| !punycode_at(s@, j) by {}
    false
}

/// Whether no label of the text has more than 63 characters.
fn has_short_labels(s: &str) -> (r: bool)
    ensures
        r == labels_short(s@),
{
    let v = chars_of(s);
    let mut run: usize = 0;
    let mut i: usize = 0;
    while i < v.len()
        invariant
            i <= v.len(),
            v@ == s@,
            run <= MAX_LABEL,
            run <= i,
            forall|k: int| i - run <= k < i ==> v@[k] != '.',
            run < i ==> v@[i - run - 1] == '.',
            forall|j: int| 0 <= j && j + MAX_LABEL < i ==> #[trigger] dot_within(s@, j),
        decreases v.len() - i,
    {
        if v[i] == '.' {
            run = 0;
        } else if run == MAX_LABEL {
            assert(!dot_within(s@, i - MAX_LABEL));
            return false;
        } else {
            run += 1;
        }
        i += 1;
        assert forall|j: int| 0 <= j && j + MAX_LABEL < i implies #[trigger] dot_within(s@, j) by {
            if j + MAX_LABEL == i - 1 {
                assert(s@[i - run - 1] == '.');
            }
        }
    }
    true
}

/// Whether the text can be handed to the conversion.
pub fn can_convert(s: &str) -> (r: bool)
    ensures
        r == convertible(s@),
{
    has_short_labels(s) || (s.is_ascii() && !has_punycode(s))
}

/// The number of characters of the text before its first slash: all of
/// them where it has none.
pub open spec fn host_len(s: Seq<char>) -> int
    decreases s.len(),
{
    if s.len() == 0 || s[0] == '/' {
        0
    } else {
        1 + host_len(s.drop_first())
    }
}

/// The host of a link without its scheme: the text before its first
/// slash, all of it where it has none.
pub open spec fn host_of(bare: Seq<char>) -> Seq<char> {
    bare.take(host_len(bare))
}

/// The host ends at the first slash of the text, or at its end.
pub proof fn lemma_host_len(s: Seq<char>)
    ensures
        0 <= host_len(s) <= s.len(),
        forall|k: int| 0 <= k < host_len(s) ==> s[k] != '/',
        host_len(s) < s.len() ==> s[host_len(s)] == '/',
    decreases s.len(),
{
    if s.len() > 0 && s[0] != '/' {
        let rest = s.drop_first();
        lemma_host_len(rest);
        assert forall|k: int| 0 <= k < host_len(s) implies s[k] != '/' by {
            if k > 0 {
                assert(rest[k - 1] == s[k]);
            }
        }
        if host_len(s) < s.len() {
            assert(rest[host_len(rest)] == s[host_len(s)]);
        }
    }
}

/// The position `n` is where the host of the text ends, if no slash
/// stands before it and a slash or the end of the text stands at it.
pub proof fn lemma_host_ends(s: Seq<char>, n: int)
    requires
        0 <= n <= s.len(),
        forall|k: int| 0 <= k < n ==> s[k] != '/',
        n < s.len() ==> s[n] == '/',
    ensures
        host_len(s) == n,
{
    lemma_host_len(s);
    if host_len(s) < n {
        assert(s[host_len(s)] == '/');
    }
}

/// The host of a link without its scheme.
pub fn host(bare: &str) -> (r: &str)
    ensures
        r@ == host_of(bare@),
{
    let v = chars_of(bare);
    let mut i: usize = 0;
    while i < v.len() && v[i] != '/'
        invariant
            i <= v.len(),
            v@ == bare@,
            forall|k: int| 0 <= k < i ==> v@[k] != '/',
        decreases v.len() - i,
    {
        i += 1;
    }
    proof {
        lemma_host_ends(bare@, i as int);
    }
    assert(bare@.take(i as int) =~= bare@.subrange(0, i as int));
    bare.substring_char(0, i)
}

/// Prepares the link `query` for the search: takes off its scheme and
/// `www.`, and converts the host of what is left, the text before its
/// first slash, to the ASCII form of a domain. The domains of the index
/// are looked for by that form, the addresses by the link with its path.
/// A host that cannot be handed to the conversion is looked for by the
/// empty domain, as one that the conversion rejects.
pub fn link_query(query: &str) -> (r: LinkQuery)
    ensures
        r.url@ == bare_link(query@),
        r.domain@ == link_domain(host_of(bare_link(query@))),
{
    let bare = strip(strip(strip(strip(query, "https://"), "http://"), "ftp://"), "www.");
    let name = host(bare);
    let ascii = if can_convert(name) {
        match domain_to_ascii(name) {
            Ok(d) => Some(d),
            Err(_) => None,
        }
    } else {
        None
    };
    LinkQuery { domain: query_domain(ascii), url: bare.to_owned() }
}

} // verus!
