//! Rows kept in the order of their keys.
//!
//! A key is a pair of texts; a table with a single key column leaves the
//! second text empty. Keys are ordered by their first text, then by their
//! second.

use vstd::prelude::*;
use crate::text::{lemma_str_lt_irreflexive, lemma_str_lt_total, lemma_str_lt_transitive, rank, str_lt, Rank};

verus! {

/// The key of a row.
pub type Key = (Seq<char>, Seq<char>);

/// The order of keys.
pub open spec fn key_lt(a: Key, b: Key) -> bool {
    str_lt(a.0, b.0) || (a.0 == b.0 && str_lt(a.1, b.1))
}

/// No key comes before itself.
pub proof fn lemma_key_lt_irreflexive(a: Key)
    ensures
        !key_lt(a, a),
{
    lemma_str_lt_irreflexive(a.0);
    lemma_str_lt_irreflexive(a.1);
}

/// The order of keys is transitive.
pub proof fn lemma_key_lt_transitive(a: Key, b: Key, c: Key)
    requires
        key_lt(a, b),
        key_lt(b, c),
    ensures
        key_lt(a, c),
{
    lemma_str_lt_irreflexive(a.0);
    lemma_str_lt_irreflexive(b.0);
    if str_lt(a.0, b.0) && str_lt(b.0, c.0) {
        lemma_str_lt_transitive(a.0, b.0, c.0);
    } else if a.0 == b.0 && b.0 == c.0 {
        lemma_str_lt_transitive(a.1, b.1, c.1);
    }
}

/// Of two different keys one comes before the other.
pub proof fn lemma_key_lt_total(a: Key, b: Key)
    ensures
        a == b || key_lt(a, b) || key_lt(b, a),
{
    lemma_str_lt_total(a.0, b.0);
    lemma_str_lt_total(a.1, b.1);
}

/// The text without characters comes before every other text.
pub proof fn lemma_empty_is_first(k: Key)
    ensures
        k == (Seq::<char>::empty(), Seq::<char>::empty()) || key_lt((Seq::empty(), Seq::empty()), k),
{
    let e = (Seq::<char>::empty(), Seq::<char>::empty());
    lemma_key_lt_total(e, k);
    assert(vstd::utf8::encode_utf8(Seq::<char>::empty()) =~= Seq::<u8>::empty());
}

/// How key `a` stands to key `b`.
pub open spec fn key_rank_of(a: Key, b: Key) -> Rank {
    if a == b {
        Rank::Same
    } else if key_lt(a, b) {
        Rank::Before
    } else {
        Rank::After
    }
}

/// Compares the key `(a0, a1)` with the key `(b0, b1)`.
pub fn key_rank(a0: &str, a1: &str, b0: &str, b1: &str) -> (r: Rank)
    ensures
        r == key_rank_of((a0@, a1@), (b0@, b1@)),
{
    proof {
        lemma_str_lt_irreflexive(a0@);
        lemma_key_lt_total((a0@, a1@), (b0@, b1@));
        lemma_str_lt_total(a0@, b0@);
        if str_lt(a0@, b0@) && str_lt(b0@, a0@) {
            lemma_str_lt_transitive(a0@, b0@, a0@);
        }
    }
    match rank(a0, b0) {
        Rank::Before => Rank::Before,
        Rank::After => Rank::After,
        Rank::Same => rank(a1, b1),
    }
}

/// A row with a key.
pub trait Keyed: DeepView {
    /// The key of a row with this value.
    spec fn key_of(v: Self::V) -> Key;

    /// The two texts of this row's key.
    fn key_texts(&self) -> (r: (&str, &str))
        ensures
            (r.0@, r.1@) == Self::key_of(self.deep_view()),
    ;
}

/// The keys of `rows`, in order.
pub open spec fn keys_of<R: Keyed>(rows: Seq<R::V>) -> Seq<Key> {
    Seq::new(rows.len(), |i: int| R::key_of(rows[i]))
}

/// The keys ascend strictly: none occurs twice.
pub open spec fn ascending(keys: Seq<Key>) -> bool {
    forall|i: int, j: int| 0 <= i < j < keys.len() ==> key_lt(#[trigger] keys[i], #[trigger] keys[j])
}

/// `p` is where `k` stands, or would be put, among ascending `keys`.
pub open spec fn is_place(keys: Seq<Key>, k: Key, p: int) -> bool {
    &&& 0 <= p <= keys.len()
    &&& forall|i: int| 0 <= i < p ==> key_lt(#[trigger] keys[i], k)
    &&& forall|i: int| p <= i < keys.len() ==> !key_lt(#[trigger] keys[i], k)
}

/// The number of keys that come before `k`.
pub open spec fn place(keys: Seq<Key>, k: Key) -> int
    decreases keys.len(),
{
    if keys.len() == 0 {
        0
    } else {
        place(keys.drop_last(), k) + if key_lt(keys.last(), k) {
            1int
        } else {
            0int
        }
    }
}

/// Where the keys before a position come before `k` and the others do
/// not, the position is the number of keys that come before `k`.
pub proof fn lemma_place(keys: Seq<Key>, k: Key, p: int)
    requires
        is_place(keys, k, p),
    ensures
        place(keys, k) == p,
    decreases keys.len(),
{
    if keys.len() > 0 {
        let rest = keys.drop_last();
        if p == keys.len() {
            assert(key_lt(keys[keys.len() - 1], k));
            assert forall|i: int| 0 <= i < p - 1 implies key_lt(#[trigger] rest[i], k) by {
                assert(rest[i] == keys[i]);
            }
            lemma_place(rest, k, p - 1);
        } else {
            assert(!key_lt(keys[keys.len() - 1], k));
            assert forall|i: int| 0 <= i < p implies key_lt(#[trigger] rest[i], k) by {
                assert(rest[i] == keys[i]);
            }
            assert forall|i: int| p <= i < rest.len() implies !key_lt(#[trigger] rest[i], k) by {
                assert(rest[i] == keys[i]);
            }
            lemma_place(rest, k, p);
        }
    }
}

/// The row with key `k` among `rows`, whose keys ascend.
pub open spec fn find_row<R: Keyed>(rows: Seq<R::V>, k: Key) -> Option<R::V> {
    let p = place(keys_of::<R>(rows), k);
    if p < rows.len() && R::key_of(rows[p]) == k {
        Some(rows[p])
    } else {
        None
    }
}

/// Among ascending keys the row at a position is the row that its key
/// finds.
pub proof fn lemma_find_row_at<R: Keyed>(rows: Seq<R::V>, i: int)
    requires
        ascending(keys_of::<R>(rows)),
        0 <= i < rows.len(),
    ensures
        find_row::<R>(rows, R::key_of(rows[i])) == Some(rows[i]),
        place(keys_of::<R>(rows), R::key_of(rows[i])) == i,
{
    let keys = keys_of::<R>(rows);
    let k = R::key_of(rows[i]);
    assert(keys[i] == k);
    assert forall|j: int| 0 <= j < i implies key_lt(#[trigger] keys[j], k) by {
    }
    assert forall|j: int| i <= j < keys.len() implies !key_lt(#[trigger] keys[j], k) by {
        lemma_key_lt_irreflexive(k);
        if j > i {
            assert(key_lt(keys[i], keys[j]));
            if key_lt(keys[j], k) {
                lemma_key_lt_transitive(k, keys[j], k);
            }
        }
    }
    lemma_place(keys, k, i);
}

/// The row that a key finds has that key, and stands at the key's place.
pub proof fn lemma_find_row_some<R: Keyed>(rows: Seq<R::V>, k: Key)
    requires
        find_row::<R>(rows, k) is Some,
    ensures
        0 <= place(keys_of::<R>(rows), k) < rows.len(),
        rows[place(keys_of::<R>(rows), k)] == find_row::<R>(rows, k)->0,
        R::key_of(find_row::<R>(rows, k)->0) == k,
{
    lemma_place_bounds(keys_of::<R>(rows), k);
}

/// The place of a key lies within the table or at its end.
pub proof fn lemma_place_bounds(keys: Seq<Key>, k: Key)
    ensures
        0 <= place(keys, k) <= keys.len(),
    decreases keys.len(),
{
    if keys.len() > 0 {
        lemma_place_bounds(keys.drop_last(), k);
    }
}

/// Finds where the key `(k0, k1)` stands among `rows`, and whether a row
/// with that key is there.
pub fn locate<R: Keyed>(rows: &Vec<R>, k0: &str, k1: &str) -> (r: (usize, bool))
    requires
        ascending(keys_of::<R>(rows.deep_view())),
    ensures
        is_place(keys_of::<R>(rows.deep_view()), (k0@, k1@), r.0 as int),
        r.0 == place(keys_of::<R>(rows.deep_view()), (k0@, k1@)),
        r.1 == (r.0 < rows.len() && R::key_of(rows.deep_view()[r.0 as int]) == (k0@, k1@)),
        r.1 == keys_of::<R>(rows.deep_view()).contains((k0@, k1@)),
        r.1 == find_row::<R>(rows.deep_view(), (k0@, k1@)).is_some(),
{
    let ghost keys = keys_of::<R>(rows.deep_view());
    let ghost k = (k0@, k1@);
    let mut lo: usize = 0;
    let mut hi: usize = rows.len();
    let mut found = false;
    while lo < hi
        invariant
            0 <= lo <= hi <= rows.len(),
            keys == keys_of::<R>(rows.deep_view()),
            k == (k0@, k1@),
            ascending(keys),
            forall|i: int| 0 <= i < lo ==> key_lt(#[trigger] keys[i], k),
            forall|i: int| hi <= i < keys.len() ==> !key_lt(#[trigger] keys[i], k),
            found ==> hi < rows.len() && keys[hi as int] == k,
            !found ==> forall|i: int| hi <= i < keys.len() ==> keys[i] != k,
        decreases hi - lo,
    {
        let mid: usize = lo + (hi - lo) / 2;
        let texts = rows[mid].key_texts();
        assert(keys[mid as int] == (texts.0@, texts.1@));
        match key_rank(texts.0, texts.1, k0, k1) {
            Rank::Before => {
                assert forall|i: int| 0 <= i < mid + 1 implies key_lt(#[trigger] keys[i], k) by {
                    if i < mid {
                        lemma_key_lt_transitive(keys[i], keys[mid as int], k);
                    }
                }
                lo = mid + 1;
            },
            Rank::Same => {
                proof {
                    lemma_key_lt_irreflexive(k);
                }
                assert forall|i: int| mid <= i < keys.len() implies !key_lt(#[trigger] keys[i], k) by {
                    if i > mid && key_lt(keys[i], k) {
                        lemma_key_lt_transitive(keys[mid as int], keys[i], k);
                    }
                }
                found = true;
                hi = mid;
            },
            Rank::After => {
                assert forall|i: int| mid <= i < keys.len() implies !key_lt(#[trigger] keys[i], k)
                    && keys[i] != k by {
                    lemma_key_lt_total(keys[mid as int], k);
                    lemma_key_lt_irreflexive(k);
                    if i > mid {
                        if key_lt(keys[i], k) {
                            lemma_key_lt_transitive(keys[mid as int], keys[i], k);
                        }
                        if keys[i] == k {
                        }
                    }
                    if key_lt(keys[mid as int], k) {
                    }
                }
                found = false;
                hi = mid;
            },
        }
    }
    proof {
        lemma_place(keys, k, lo as int);
        if lo < rows.len() {
            assert(keys[lo as int] == R::key_of(rows.deep_view()[lo as int]));
        }
        if !found {
            assert forall|i: int| 0 <= i < keys.len() implies keys[i] != k by {
                if i < lo {
                    lemma_key_lt_irreflexive(k);
                }
            }
        }
    }
    (lo, found)
}

/// `rows` with `row` put in at the place of its key, unless a row with that
/// key is already there: then `rows` unchanged.
pub open spec fn with_row<R: Keyed>(rows: Seq<R::V>, row: R::V) -> Seq<R::V> {
    let keys = keys_of::<R>(rows);
    if keys.contains(R::key_of(row)) {
        rows
    } else {
        rows.insert(place(keys, R::key_of(row)), row)
    }
}

/// Putting a row in keeps the keys ascending, and the row's key is there
/// afterwards.
pub proof fn lemma_with_row<R: Keyed>(rows: Seq<R::V>, row: R::V)
    requires
        ascending(keys_of::<R>(rows)),
    ensures
        ascending(keys_of::<R>(with_row::<R>(rows, row))),
        keys_of::<R>(with_row::<R>(rows, row)).contains(R::key_of(row)),
        forall|k: Key|
            keys_of::<R>(with_row::<R>(rows, row)).contains(k) <==> (k == R::key_of(row) || keys_of::<R>(
                rows,
            ).contains(k)),
{
    let keys = keys_of::<R>(rows);
    let k = R::key_of(row);
    let after = with_row::<R>(rows, row);
    let keys_after = keys_of::<R>(after);
    if !keys.contains(k) {
        let p = lemma_place_exists(keys, k);
        lemma_place(keys, k, p);
        assert(keys_after =~= keys.insert(p, k));
        assert forall|i: int, j: int| 0 <= i < j < keys_after.len() implies key_lt(
            #[trigger] keys_after[i],
            #[trigger] keys_after[j],
        ) by {
            if j == p {
                assert(keys_after[i] == keys[i]);
            } else if i == p {
                assert(keys_after[j] == keys[j - 1]);
                assert(keys.contains(keys[j - 1]));
                lemma_key_lt_total(keys[j - 1], k);
            } else {
                let a = if i < p { i } else { i - 1 };
                let b = if j < p { j } else { j - 1 };
                assert(keys_after[i] == keys[a] && keys_after[j] == keys[b]);
            }
        }
        assert(keys_after[p] == k);
        assert forall|x: Key| keys_after.contains(x) <==> (x == k || keys.contains(x)) by {
            if keys_after.contains(x) {
                let i = choose|i: int| 0 <= i < keys_after.len() && keys_after[i] == x;
                if i < p {
                    assert(keys[i] == x);
                } else if i > p {
                    assert(keys[i - 1] == x);
                }
            }
            if keys.contains(x) {
                let i = choose|i: int| 0 <= i < keys.len() && keys[i] == x;
                if i < p {
                    assert(keys_after[i] == x);
                } else {
                    assert(keys_after[i + 1] == x);
                }
            }
        }
    }
}

/// `rows` with each of `new` put in, one after the other.
pub open spec fn with_rows<R: Keyed>(rows: Seq<R::V>, new: Seq<R::V>) -> Seq<R::V>
    decreases new.len(),
{
    if new.len() == 0 {
        rows
    } else {
        with_row::<R>(with_rows::<R>(rows, new.drop_last()), new.last())
    }
}

/// Putting rows in keeps the keys ascending; the keys that were there and
/// the keys of the new rows are there afterwards, and no others.
pub proof fn lemma_with_rows<R: Keyed>(rows: Seq<R::V>, new: Seq<R::V>)
    requires
        ascending(keys_of::<R>(rows)),
    ensures
        ascending(keys_of::<R>(with_rows::<R>(rows, new))),
        forall|k: Key|
            keys_of::<R>(with_rows::<R>(rows, new)).contains(k) <==> (keys_of::<R>(rows).contains(k)
                || keys_of::<R>(new).contains(k)),
    decreases new.len(),
{
    let after = with_rows::<R>(rows, new);
    if new.len() == 0 {
        assert forall|k: Key| keys_of::<R>(after).contains(k) <==> (keys_of::<R>(rows).contains(k)
            || keys_of::<R>(new).contains(k)) by {
            if keys_of::<R>(new).contains(k) {
                let i = choose|i: int| 0 <= i < keys_of::<R>(new).len() && keys_of::<R>(new)[i] == k;
            }
        }
    } else {
        let before = with_rows::<R>(rows, new.drop_last());
        lemma_with_rows::<R>(rows, new.drop_last());
        lemma_with_row::<R>(before, new.last());
        let head = keys_of::<R>(new.drop_last());
        let all = keys_of::<R>(new);
        assert(head =~= all.drop_last());
        assert(all.last() == R::key_of(new.last()));
        assert forall|k: Key| keys_of::<R>(after).contains(k) <==> (keys_of::<R>(rows).contains(k)
            || all.contains(k)) by {
            if all.contains(k) {
                let i = choose|i: int| 0 <= i < all.len() && all[i] == k;
                if i < all.len() - 1 {
                    assert(head[i] == k);
                }
            }
            if head.contains(k) {
                let i = choose|i: int| 0 <= i < head.len() && head[i] == k;
                assert(all[i] == k);
            }
            if k == R::key_of(new.last()) {
                assert(all[all.len() - 1] == k);
            }
        }
    }
}

/// Rows whose keys are all there change nothing when they are put in.
pub proof fn lemma_with_rows_known<R: Keyed>(rows: Seq<R::V>, new: Seq<R::V>)
    requires
        forall|i: int| 0 <= i < new.len() ==> keys_of::<R>(rows).contains(R::key_of(#[trigger] new[i])),
    ensures
        with_rows::<R>(rows, new) == rows,
    decreases new.len(),
{
    if new.len() > 0 {
        assert forall|i: int| 0 <= i < new.drop_last().len() implies keys_of::<R>(rows).contains(
            R::key_of(#[trigger] new.drop_last()[i]),
        ) by {
            assert(new.drop_last()[i] == new[i]);
        }
        lemma_with_rows_known::<R>(rows, new.drop_last());
        assert(keys_of::<R>(rows).contains(R::key_of(new[new.len() - 1])));
    }
}

/// Putting the same rows in twice is putting them in once.
pub proof fn lemma_with_rows_twice<R: Keyed>(rows: Seq<R::V>, new: Seq<R::V>)
    requires
        ascending(keys_of::<R>(rows)),
    ensures
        with_rows::<R>(with_rows::<R>(rows, new), new) == with_rows::<R>(rows, new),
{
    lemma_with_rows::<R>(rows, new);
    let after = with_rows::<R>(rows, new);
    assert forall|i: int| 0 <= i < new.len() implies keys_of::<R>(after).contains(
        R::key_of(#[trigger] new[i]),
    ) by {
        assert(keys_of::<R>(new)[i] == R::key_of(new[i]));
        assert(keys_of::<R>(new).contains(R::key_of(new[i])));
    }
    lemma_with_rows_known::<R>(after, new);
}

/// Among ascending keys every key has its place.
pub proof fn lemma_place_exists(keys: Seq<Key>, k: Key) -> (p: int)
    requires
        ascending(keys),
    ensures
        is_place(keys, k, p),
    decreases keys.len(),
{
    if keys.len() == 0 {
        0
    } else {
        let rest = keys.drop_last();
        assert forall|i: int, j: int| 0 <= i < j < rest.len() implies key_lt(
            #[trigger] rest[i],
            #[trigger] rest[j],
        ) by {
            assert(rest[i] == keys[i] && rest[j] == keys[j]);
        }
        let q = lemma_place_exists(rest, k);
        if key_lt(keys.last(), k) {
            assert forall|i: int| 0 <= i < keys.len() implies key_lt(#[trigger] keys[i], k) by {
                if i < keys.len() - 1 {
                    lemma_key_lt_transitive(keys[i], keys.last(), k);
                }
            }
            keys.len() as int
        } else {
            assert forall|i: int| 0 <= i < q implies key_lt(#[trigger] keys[i], k) by {
                assert(rest[i] == keys[i]);
            }
            assert forall|i: int| q <= i < keys.len() implies !key_lt(#[trigger] keys[i], k) by {
                if i < rest.len() {
                    assert(rest[i] == keys[i]);
                }
            }
            q
        }
    }
}

/// Puts `row` into `rows` at the place of its key, unless a row with that
/// key is there already. Returns whether the row went in.
pub fn insert_absent<R: Keyed>(rows: &mut Vec<R>, row: R) -> (inserted: bool)
    requires
        ascending(keys_of::<R>(old(rows).deep_view())),
    ensures
        final(rows).deep_view() == with_row::<R>(old(rows).deep_view(), row.deep_view()),
        ascending(keys_of::<R>(final(rows).deep_view())),
        inserted == !keys_of::<R>(old(rows).deep_view()).contains(R::key_of(row.deep_view())),
{
    let ghost before = rows.deep_view();
    let ghost value = row.deep_view();
    let texts = row.key_texts();
    let (p, found) = locate(rows, texts.0, texts.1);
    proof {
        lemma_place(keys_of::<R>(before), R::key_of(value), p as int);
        lemma_with_row::<R>(before, value);
    }
    if found {
        false
    } else {
        rows.insert(p, row);
        assert(rows.deep_view() =~= before.insert(p as int, value));
        true
    }
}

/// A change `f` that only touches rows with key `k`, and leaves keys as they
/// are, changes at most the row at the place of `k`.
pub proof fn lemma_change_by_key<R: Keyed>(
    rows: Seq<R::V>,
    k: Key,
    at: int,
    f: spec_fn(R::V) -> R::V,
)
    requires
        ascending(keys_of::<R>(rows)),
        is_place(keys_of::<R>(rows), k, at),
        forall|v: R::V| R::key_of(v) != k ==> #[trigger] f(v) == v,
        forall|v: R::V| R::key_of(#[trigger] f(v)) == R::key_of(v),
    ensures
        rows.map_values(f) == if at < rows.len() && R::key_of(rows[at]) == k {
            rows.update(at, f(rows[at]))
        } else {
            rows
        },
        keys_of::<R>(rows.map_values(f)) == keys_of::<R>(rows),
{
    let keys = keys_of::<R>(rows);
    let want = if at < rows.len() && R::key_of(rows[at]) == k {
        rows.update(at, f(rows[at]))
    } else {
        rows
    };
    let got = rows.map_values(f);
    assert forall|j: int| 0 <= j < rows.len() implies got[j] == want[j] by {
        if j != at && R::key_of(rows[j]) == k {
            assert(keys[j] == k);
            lemma_key_lt_irreflexive(k);
            if j > at {
                assert(keys[at] == R::key_of(rows[at]));
                lemma_key_lt_total(keys[at], k);
                if key_lt(k, keys[at]) {
                    assert(key_lt(keys[at], keys[j]));
                }
            }
        }
    }
    assert(got =~= want);
    assert(keys_of::<R>(got) =~= keys);
}

/// Among ascending keys no key stands at two positions.
pub proof fn lemma_key_once<R: Keyed>(rows: Seq<R::V>, i: int, j: int)
    requires
        ascending(keys_of::<R>(rows)),
        0 <= i < rows.len(),
        0 <= j < rows.len(),
        R::key_of(rows[i]) == R::key_of(rows[j]),
    ensures
        i == j,
{
    let keys = keys_of::<R>(rows);
    assert(keys[i] == keys[j]);
    lemma_key_lt_irreflexive(keys[i]);
    if i < j {
        assert(key_lt(keys[i], keys[j]));
    } else if j < i {
        assert(key_lt(keys[j], keys[i]));
    }
}

/// The rows that a query with `LIMIT limit OFFSET offset` keeps of `rows`:
/// `offset` rows are passed over, and `limit` rows at most are kept. A
/// negative offset passes over none, a negative limit keeps all.
pub open spec fn window<T>(rows: Seq<T>, limit: i64, offset: i64) -> Seq<T> {
    let from = if offset < 0 {
        0
    } else if offset > rows.len() {
        rows.len() as int
    } else {
        offset as int
    };
    let to = if limit < 0 || from + limit > rows.len() {
        rows.len() as int
    } else {
        from + limit
    };
    rows.subrange(from, to)
}

/// Keeps of `rows` what `LIMIT limit OFFSET offset` keeps.
pub fn window_of<T>(rows: Vec<T>, limit: i64, offset: i64) -> (r: Vec<T>)
    ensures
        r@ == window(rows@, limit, offset),
{
    let mut rows = rows;
    let ghost all = rows@;
    let n: usize = rows.len();
    let from: usize = if offset < 0 {
        0
    } else if offset as u64 > n as u64 {
        n
    } else {
        offset as usize
    };
    let to: usize = if limit < 0 || limit as u64 > (n - from) as u64 {
        n
    } else {
        from + limit as usize
    };
    rows.truncate(to);
    let r = rows.split_off(from);
    assert(r@ =~= all.subrange(from as int, to as int));
    r
}

/// The views of a window are the window of the views.
pub proof fn lemma_window_views<T: DeepView>(rows: Vec<T>, kept: Vec<T>, limit: i64, offset: i64)
    requires
        kept@ == window(rows@, limit, offset),
    ensures
        kept.deep_view() == window(rows.deep_view(), limit, offset),
{
    assert(kept.deep_view() =~= window(rows.deep_view(), limit, offset));
}

/// One more row: what `filter` makes of the first `i + 1` rows, from what
/// it makes of the first `i`.
pub proof fn lemma_filter_step<V>(rows: Seq<V>, keep: spec_fn(V) -> bool, i: int)
    requires
        0 <= i < rows.len(),
    ensures
        rows.take(i + 1).filter(keep) == if keep(rows[i]) {
            rows.take(i).filter(keep).push(rows[i])
        } else {
            rows.take(i).filter(keep)
        },
{
    reveal(Seq::filter);
    assert(rows.take(i + 1).drop_last() =~= rows.take(i));
}

/// Of no rows the filter keeps none.
pub proof fn lemma_filter_none<V>(keep: spec_fn(V) -> bool)
    ensures
        Seq::<V>::empty().filter(keep) == Seq::<V>::empty(),
{
    reveal(Seq::filter);
}

} // verus!
