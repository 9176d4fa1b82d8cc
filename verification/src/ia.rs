//! The remote catalog: what it tells about items and their files, what it
//! is asked, and how its answers are read.
//!
//! The calls themselves are made elsewhere. Here stand the requests, the
//! cursor that leads from one page of items to the next, and the reading
//! of sizes, which the catalog gives as numbers or as texts.

use vstd::prelude::*;
use crate::text::{chars_of, is_digit};
use crate::time::{rfc3339_text, Timestamp};

verus! {

/// How the client names itself to the catalog.
pub const USER_AGENT: &'static str = "ArchiveBotViewer/2.0 (ArchiveTeam)";

/// Where the catalog is searched.
pub const SEARCH_URL: &'static str = "https://archive.org/services/search/v1/scrape";

/// Under which address an item's details are found.
pub const ITEM_URL: &'static str = "https://archive.org/details/";

/// Under which address an item's files are found.
pub const DOWNLOAD_URL: &'static str = "https://archive.org/download/";

/// One entry of the remote catalog.
#[derive(Debug, Clone)]
pub struct ItemInfo {
    pub identifier: String,
    pub addeddate: Timestamp,
    pub publicdate: Timestamp,
    pub imagecount: Option<i64>,
}

/// The mathematical value of an [`ItemInfo`].
pub ghost struct ItemInfoView {
    pub identifier: Seq<char>,
    pub addeddate: Timestamp,
    pub publicdate: Timestamp,
    pub imagecount: Option<i64>,
}

impl DeepView for ItemInfo {
    type V = ItemInfoView;

    open spec fn deep_view(&self) -> ItemInfoView {
        ItemInfoView {
            identifier: self.identifier@,
            addeddate: self.addeddate,
            publicdate: self.publicdate,
            imagecount: self.imagecount,
        }
    }
}

/// What the catalog records of one file.
#[derive(Debug, Clone)]
pub struct FileDetails {
    pub size: i64,
}

impl DeepView for FileDetails {
    type V = i64;

    open spec fn deep_view(&self) -> i64 {
        self.size
    }
}

/// The file listing of one item: each file's name with its details, in the
/// order in which the listing gave them.
#[derive(Debug, Clone)]
pub struct ItemDetails {
    pub files: Vec<(String, FileDetails)>,
}

impl DeepView for ItemDetails {
    type V = Seq<(Seq<char>, i64)>;

    open spec fn deep_view(&self) -> Seq<(Seq<char>, i64)> {
        self.files.deep_view()
    }
}

/// The metadata document that a crawl leaves beside its archives.
#[derive(Debug, Clone)]
pub struct JsonMetadata {
    pub url: Option<String>,
    pub started_by: Option<String>,
}

impl DeepView for JsonMetadata {
    type V = (Option<Seq<char>>, Option<Seq<char>>);

    open spec fn deep_view(&self) -> (Option<Seq<char>>, Option<Seq<char>>) {
        (self.url.deep_view(), self.started_by.deep_view())
    }
}

impl JsonMetadata {
    /// The address the crawl started from, or the empty text.
    pub fn url_or_empty(&self) -> (r: String)
        ensures
            r@ == match self.url {
                Some(u) => u@,
                None => Seq::empty(),
            },
    {
        match &self.url {
            Some(u) => u.clone(),
            None => String::new(),
        }
    }

    /// Who started the crawl, or the empty text.
    pub fn started_by_or_empty(&self) -> (r: String)
        ensures
            r@ == match self.started_by {
                Some(u) => u@,
                None => Seq::empty(),
            },
    {
        match &self.started_by {
            Some(u) => u.clone(),
            None => String::new(),
        }
    }
}

/// The words that ask the catalog for the collection's items, added at
/// `after` or later where the text of an instant is given.
pub open spec fn search_words(after: Option<Seq<char>>) -> Seq<char> {
    match after {
        Some(date) => "collection:archivebot addeddate:["@ + date + " TO 2999-01-01]"@,
        None => "collection:archivebot"@,
    }
}

/// The parameters of a search request: the words, the fields wanted, the
/// order, and the cursor where the search goes on from one.
pub open spec fn search_params(after: Option<Seq<char>>, cursor: Option<Seq<char>>) -> Seq<
    (Seq<char>, Seq<char>),
> {
    let fixed = seq![
        ("q"@, search_words(after)),
        ("fields"@, "identifier,addeddate,publicdate,imagecount"@),
        ("sorts"@, "addeddate asc"@),
    ];
    match cursor {
        Some(c) => fixed.push(("cursor"@, c)),
        None => fixed,
    }
}

/// The words that ask the catalog for the collection's items, added at
/// `after` or later where the text of an instant is given.
pub fn search_query(after: Option<&str>) -> (r: String)
    ensures
        r@ == search_words(
            match after {
                Some(d) => Some(d@),
                None => None,
            },
        ),
{
    match after {
        Some(date) => {
            let q = "collection:archivebot addeddate:[".to_owned();
            let q = q.concat(date);
            q.concat(" TO 2999-01-01]")
        },
        None => "collection:archivebot".to_owned(),
    }
}

/// The address of the details of item `identifier`, to be asked for with
/// `output=json`.
pub fn item_files_url(identifier: &str) -> (r: String)
    ensures
        r@ == ITEM_URL@ + identifier@,
{
    ITEM_URL.to_owned().concat(identifier)
}

/// The address of the file `filename` of item `identifier`.
pub fn item_file_url(identifier: &str, filename: &str) -> (r: String)
    ensures
        r@ == DOWNLOAD_URL@ + identifier@ + "/"@ + filename@,
{
    DOWNLOAD_URL.to_owned().concat(identifier).concat("/").concat(filename)
}

/// Where a client stands in the catalog: the pages are read forward only,
/// each from the cursor that came with the page before.
#[derive(Debug, Clone)]
pub struct IAClient {
    cursor: Option<String>,
}

impl View for IAClient {
    type V = Option<Seq<char>>;

    /// The cursor that the next page is asked for with.
    closed spec fn view(&self) -> Option<Seq<char>> {
        self.cursor.deep_view()
    }
}

impl IAClient {
    /// A client at the beginning of the catalog.
    pub fn new() -> (r: IAClient)
        ensures
            r@ is None,
    {
        IAClient { cursor: None }
    }

    /// The cursor that the next page is asked for with.
    pub fn cursor(&self) -> (r: Option<String>)
        ensures
            r.deep_view() == self@,
    {
        match &self.cursor {
            Some(c) => Some(c.clone()),
            None => None,
        }
    }

    /// Whether the page before came with a cursor to go on from.
    pub fn has_more_items(&self) -> (r: bool)
        ensures
            r == (self@ is Some),
    {
        self.cursor.is_some()
    }

    /// The parameters of the request for the next page of the items added
    /// at `after_date` or later; `None` where `after_date` cannot be
    /// written down.
    pub fn items_request(&self, after_date: Option<Timestamp>) -> (r: Option<Vec<(String, String)>>)
        ensures
            match after_date {
                Some(t) => match rfc3339_text(t.secs, t.nanos) {
                    Some(text) => r.deep_view() == Some(search_params(Some(text), self@)),
                    None => r is None,
                },
                None => r.deep_view() == Some(search_params(None, self@)),
            },
    {
        let words = match after_date {
            Some(t) => match t.to_rfc3339() {
                Some(text) => search_query(Some(text.as_str())),
                None => {
                    return None;
                },
            },
            None => search_query(None),
        };
        Some(self.items_request_for(words))
    }

    /// The parameters of the request for the next page of what `words`
    /// asks for.
    fn items_request_for(&self, words: String) -> (r: Vec<(String, String)>)
        ensures
            r.deep_view() == (match self@ {
                Some(c) => seq![
                    ("q"@, words@),
                    ("fields"@, "identifier,addeddate,publicdate,imagecount"@),
                    ("sorts"@, "addeddate asc"@),
                    ("cursor"@, c),
                ],
                None => seq![
                    ("q"@, words@),
                    ("fields"@, "identifier,addeddate,publicdate,imagecount"@),
                    ("sorts"@, "addeddate asc"@),
                ],
            }),
    {
        let mut query: Vec<(String, String)> = Vec::new();
        query.push(("q".to_owned(), words));
        query.push(("fields".to_owned(), "identifier,addeddate,publicdate,imagecount".to_owned()));
        query.push(("sorts".to_owned(), "addeddate asc".to_owned()));
        match &self.cursor {
            Some(c) => {
                query.push(("cursor".to_owned(), c.clone()));
                assert(query.deep_view() =~= seq![
                    ("q"@, words@),
                    ("fields"@, "identifier,addeddate,publicdate,imagecount"@),
                    ("sorts"@, "addeddate asc"@),
                    ("cursor"@, c@),
                ]);
            },
            None => {
                assert(query.deep_view() =~= seq![
                    ("q"@, words@),
                    ("fields"@, "identifier,addeddate,publicdate,imagecount"@),
                    ("sorts"@, "addeddate asc"@),
                ]);
            },
        }
        query
    }

    /// Takes in the cursor that came with a page: the next page is asked
    /// for from it; without one, the catalog has no more pages.
    pub fn items_fetched(&mut self, cursor: Option<String>)
        ensures
            final(self)@ == cursor.deep_view(),
    {
        self.cursor = cursor;
    }
}

/// Why a call to the catalog failed.
#[derive(Debug, Clone, Copy, PartialEq, Eq, Structural)]
pub enum RemoteError {
    /// The catalog answered with a status outside 200 to 299.
    Status(u16),
    /// The answer could not be read.
    Malformed,
    /// The catalog could not be reached.
    Network,
}

/// Whether an answer of this status is taken: only a status from 200 to
/// 299 is.
pub fn check_status(status: u16) -> (r: Result<(), RemoteError>)
    ensures
        r == if 200 <= status < 300 {
            Ok::<(), RemoteError>(())
        } else {
            Err::<(), RemoteError>(RemoteError::Status(status))
        },
{
    if status >= 200 && status < 300 {
        Ok(())
    } else {
        Err(RemoteError::Status(status))
    }
}

/// The size of a file as the catalog gives it: a number, or a text that
/// holds one.
#[derive(Debug, Clone)]
pub enum SizeValue {
    /// A text.
    Text(String),
    /// A number that is a 64-bit integer.
    Integer(i64),
    /// A number that is not a 64-bit integer.
    OtherNumber,
    /// Anything else.
    Other,
}

/// Why a size could not be read.
#[derive(Debug, Clone, Copy, PartialEq, Eq, Structural)]
pub enum SizeError {
    /// The text is not an integer of 64 bits.
    InvalidText,
    /// The number is not an integer of 64 bits.
    InvalidNumber,
    /// The value is neither a number nor a text.
    WrongType,
}

/// The number that the decimal digits `s` write.
pub open spec fn digits_value(s: Seq<char>) -> int
    decreases s.len(),
{
    if s.len() == 0 {
        0
    } else {
        digits_value(s.drop_last()) * 10 + (s.last() as int - '0' as int)
    }
}

/// Every character of `s` is a decimal digit.
pub open spec fn all_digits(s: Seq<char>) -> bool {
    forall|i: int| 0 <= i < s.len() ==> is_digit(#[trigger] s[i])
}

/// The integer that the text `s` writes: an optional sign, `+` or `-`, and
/// one decimal digit or more, with nothing before, between or after.
/// `None` where the text is not of this shape or the integer does not fit
/// 64 bits.
pub open spec fn integer_of(s: Seq<char>) -> Option<i64> {
    let signed = s.len() > 0 && (s[0] == '-' || s[0] == '+');
    let digits = if signed {
        s.skip(1)
    } else {
        s
    };
    let value = if signed && s[0] == '-' {
        -digits_value(digits)
    } else {
        digits_value(digits)
    };
    if digits.len() > 0 && all_digits(digits) && i64::MIN <= value <= i64::MAX {
        Some(value as i64)
    } else {
        None
    }
}

/// Digits write no negative number, and more digits write no smaller one.
proof fn lemma_digits_grow(s: Seq<char>, n: int)
    requires
        all_digits(s),
        0 <= n <= s.len(),
    ensures
        0 <= digits_value(s.take(n)) <= digits_value(s),
    decreases s.len() - n,
{
    lemma_digits_positive(s.take(n));
    if n < s.len() {
        assert(s.take(n + 1).drop_last() =~= s.take(n));
        lemma_digits_grow(s, n + 1);
    } else {
        assert(s.take(n) =~= s);
    }
}

proof fn lemma_digits_positive(s: Seq<char>)
    requires
        all_digits(s),
    ensures
        0 <= digits_value(s),
    decreases s.len(),
{
    if s.len() > 0 {
        lemma_digits_positive(s.drop_last());
    }
}

/// The integer that the text `s` writes, as `str::parse` reads it.
pub fn parse_i64(s: &str) -> (r: Option<i64>)
    ensures
        r == integer_of(s@),
{
    let v = chars_of(s);
    let n: usize = v.len();
    let signed = n > 0 && (v[0] == '-' || v[0] == '+');
    let negative = signed && v[0] == '-';
    let from: usize = if signed {
        1
    } else {
        0
    };
    let ghost digits = if signed {
        v@.skip(1)
    } else {
        v@
    };
    if from == n {
        return None;
    }
    let mut value: i128 = 0;
    let mut i: usize = from;
    while i < n
        invariant
            from <= i <= n,
            n == v.len(),
            v@ == s@,
            from < n,
            signed == (n > 0 && (v@[0] == '-' || v@[0] == '+')),
            negative == (signed && v@[0] == '-'),
            from == if signed { 1int } else { 0int },
            digits == if signed { v@.skip(1) } else { v@ },
            digits =~= v@.skip(from as int),
            forall|j: int| 0 <= j < i - from ==> is_digit(#[trigger] digits[j]),
            value == digits_value(digits.take(i - from)),
            0 <= value <= 0x8000_0000_0000_0000,
        decreases n - i,
    {
        let c = v[i];
        assert(digits[i - from] == c);
        if !(c >= '0' && c <= '9') {
            return None;
        }
        assert(digits.take(i - from + 1).drop_last() =~= digits.take(i - from));
        let d: i128 = (c as u8 - 48) as i128;
        value = value * 10 + d;
        if value > 0x8000_0000_0000_0000 {
            proof {
                // The digits still to come cannot make the number smaller.
                assert(value == digits_value(digits.take(i - from + 1)));
                if all_digits(digits) {
                    lemma_digits_grow(digits, i - from + 1);
                }
            }
            return None;
        }
        i += 1;
    }
    assert(digits.take(i - from) =~= digits);
    if negative {
        Some((-value) as i64)
    } else if value > 0x7fff_ffff_ffff_ffff {
        None
    } else {
        Some(value as i64)
    }
}

/// The size that the catalog's value stands for.
pub open spec fn size_of(value: SizeValue) -> Result<i64, SizeError> {
    match value {
        SizeValue::Text(s) => match integer_of(s@) {
            Some(n) => Ok(n),
            None => Err(SizeError::InvalidText),
        },
        SizeValue::Integer(n) => Ok(n),
        SizeValue::OtherNumber => Err(SizeError::InvalidNumber),
        SizeValue::Other => Err(SizeError::WrongType),
    }
}

/// Reads a file's size off the catalog's value: a number as it is, a text
/// as the integer it writes.
pub fn parse_int(value: &SizeValue) -> (r: Result<i64, SizeError>)
    ensures
        r == size_of(*value),
{
    match value {
        SizeValue::Text(s) => match parse_i64(s.as_str()) {
            Some(n) => Ok(n),
            None => Err(SizeError::InvalidText),
        },
        SizeValue::Integer(n) => Ok(*n),
        SizeValue::OtherNumber => Err(SizeError::InvalidNumber),
        SizeValue::Other => Err(SizeError::WrongType),
    }
}

impl Default for FileDetails {
    /// The details of a file whose size the catalog does not give.
    fn default() -> (r: FileDetails)
        ensures
            r.size == 0,
    {
        FileDetails { size: 0 }
    }
}

} // verus!
