//! The counters of every job are the sums of what the files assigned to it
//! add: this holds of an empty store, and every operation of the store
//! keeps it. No file is stored with a negative size, so no counter is
//! negative and aggregation lowers none.

use vstd::prelude::*;
use crate::database::JobDelta;
use crate::filename::parsed;
use crate::jobs::{aggregate, assignments, delta_of, job_id_of, job_index, merge};
use crate::model::{
    assign, bump, bumped, can_bump, file_assigned, file_columns, files_assigned, job_of, job_updated,
    jobless_filter, jobs_updated, lemma_sizes_stored, matching, new_job, sizes_counted, sizes_given,
    DatabaseView, PAGE_SIZE,
};
use crate::records::{FileRecord, FileView, JobRecord, JobView};
use crate::ia::ItemInfoView;
use crate::model::new_files;
use crate::stages::{grown, indexed_job, lemma_assigned_keys, lemma_matching_member};
use crate::table::with_rows;
use crate::time::Timestamp;
use crate::table::{
    ascending, find_row, key_lt, keys_of, lemma_change_by_key, lemma_key_lt_irreflexive, lemma_find_row_at,
    lemma_find_row_some, lemma_place, lemma_place_exists, lemma_with_row, place, with_row, Key, Keyed,
};

verus! {

/// Four amounts: aborts, archives, metadata documents and bytes.
pub ghost struct Amounts {
    pub aborts: int,
    pub warcs: int,
    pub jsons: int,
    pub size: int,
}

impl Amounts {
    /// No amounts.
    pub open spec fn zero() -> Amounts {
        Amounts { aborts: 0, warcs: 0, jsons: 0, size: 0 }
    }

    /// These amounts and `other` together.
    pub open spec fn plus(self, other: Amounts) -> Amounts {
        Amounts {
            aborts: self.aborts + other.aborts,
            warcs: self.warcs + other.warcs,
            jsons: self.jsons + other.jsons,
            size: self.size + other.size,
        }
    }

    /// None of these amounts is under that of `other`.
    pub open spec fn at_least(self, other: Amounts) -> bool {
        self.aborts >= other.aborts && self.warcs >= other.warcs && self.jsons >= other.jsons && self.size
            >= other.size
    }

    /// These amounts less `other`.
    pub open spec fn minus(self, other: Amounts) -> Amounts {
        Amounts {
            aborts: self.aborts - other.aborts,
            warcs: self.warcs - other.warcs,
            jsons: self.jsons - other.jsons,
            size: self.size - other.size,
        }
    }
}

/// The sum of what `weigh` makes of each of `s`.
pub open spec fn total<T>(s: Seq<T>, weigh: spec_fn(T) -> Amounts) -> Amounts
    decreases s.len(),
{
    if s.len() == 0 {
        Amounts::zero()
    } else {
        total(s.drop_last(), weigh).plus(weigh(s.last()))
    }
}

/// One element changed: the sum changes by the difference of its weights.
pub proof fn lemma_total_update<T>(s: Seq<T>, weigh: spec_fn(T) -> Amounts, i: int, v: T)
    requires
        0 <= i < s.len(),
    ensures
        total(s.update(i, v), weigh) == total(s, weigh).minus(weigh(s[i])).plus(weigh(v)),
    decreases s.len(),
{
    let t = s.update(i, v);
    if i == s.len() - 1 {
        assert(t.drop_last() =~= s.drop_last());
    } else {
        assert(t.drop_last() =~= s.drop_last().update(i, v));
        lemma_total_update(s.drop_last(), weigh, i, v);
    }
}

/// One element put in: the sum grows by its weight.
pub proof fn lemma_total_insert<T>(s: Seq<T>, weigh: spec_fn(T) -> Amounts, p: int, v: T)
    requires
        0 <= p <= s.len(),
    ensures
        total(s.insert(p, v), weigh) == total(s, weigh).plus(weigh(v)),
    decreases s.len(),
{
    let t = s.insert(p, v);
    if p == s.len() {
        assert(t.drop_last() =~= s);
    } else {
        assert(t.drop_last() =~= s.drop_last().insert(p, v));
        assert(t.last() == s.last());
        lemma_total_insert(s.drop_last(), weigh, p, v);
    }
}

/// Elements of the same weights have the same sum.
pub proof fn lemma_total_same<T, U>(s: Seq<T>, t: Seq<U>, ws: spec_fn(T) -> Amounts, wt: spec_fn(U) -> Amounts)
    requires
        s.len() == t.len(),
        forall|i: int| 0 <= i < s.len() ==> #[trigger] ws(s[i]) == wt(t[i]),
    ensures
        total(s, ws) == total(t, wt),
    decreases s.len(),
{
    if s.len() > 0 {
        assert forall|i: int| 0 <= i < s.drop_last().len() implies #[trigger] ws(s.drop_last()[i]) == wt(
            t.drop_last()[i],
        ) by {
            assert(ws(s[i]) == wt(t[i]));
        }
        lemma_total_same(s.drop_last(), t.drop_last(), ws, wt);
        assert(ws(s[s.len() - 1]) == wt(t[s.len() - 1]));
    }
}

/// Elements without weight add nothing to the sum.
pub proof fn lemma_total_nothing<T>(s: Seq<T>, weigh: spec_fn(T) -> Amounts)
    requires
        forall|i: int| 0 <= i < s.len() ==> #[trigger] weigh(s[i]) == Amounts::zero(),
    ensures
        total(s, weigh) == Amounts::zero(),
    decreases s.len(),
{
    if s.len() > 0 {
        assert forall|i: int| 0 <= i < s.drop_last().len() implies #[trigger] weigh(s.drop_last()[i])
            == Amounts::zero() by {
            assert(weigh(s[i]) == Amounts::zero());
        }
        lemma_total_nothing(s.drop_last(), weigh);
        assert(weigh(s[s.len() - 1]) == Amounts::zero());
    }
}

/// The amounts of `d`.
pub open spec fn amounts_of(d: JobDelta) -> Amounts {
    Amounts { aborts: d.aborts, warcs: d.warcs, jsons: d.jsons, size: d.size }
}

/// The counters of `j`.
pub open spec fn counters_of(j: JobView) -> Amounts {
    Amounts { aborts: j.aborts as int, warcs: j.warcs as int, jsons: j.jsons as int, size: j.size as int }
}

/// What a file named `name` of `size` bytes adds to job `id`: what the
/// fields of its name say, where the name follows the grammar and names
/// that job.
pub open spec fn worth(name: Seq<char>, size: i64, id: Seq<char>) -> Amounts {
    match parsed(name) {
        Some(f) => if job_id_of(f) == id {
            amounts_of(delta_of(f, size as int))
        } else {
            Amounts::zero()
        },
        None => Amounts::zero(),
    }
}

/// What a file adds to job `id`: its worth, where it is assigned to that
/// job.
pub open spec fn share_of(id: Seq<char>) -> spec_fn(FileView) -> Amounts {
    |f: FileView|
        if f.job_id == Some(id) {
            worth(f.filename, f.size, id)
        } else {
            Amounts::zero()
        }
}

/// What an entry adds to job `id`: its amounts, where it is for that job.
pub open spec fn amount_of(id: Seq<char>) -> spec_fn(JobDelta) -> Amounts {
    |d: JobDelta|
        if d.job_id == id {
            amounts_of(d)
        } else {
            Amounts::zero()
        }
}

/// What a row of a page, given as item, name and size, adds to job `id`.
pub open spec fn row_worth(id: Seq<char>) -> spec_fn((Seq<char>, Seq<char>, i64)) -> Amounts {
    |r: (Seq<char>, Seq<char>, i64)| worth(r.1, r.2, id)
}

/// Where a job is among the entries, the entry at its position is for it.
pub proof fn lemma_job_index_found(deltas: Seq<JobDelta>, id: Seq<char>)
    ensures
        0 <= job_index(deltas, id) <= deltas.len(),
        job_index(deltas, id) < deltas.len() ==> deltas[job_index(deltas, id)].job_id == id,
        forall|k: int| 0 <= k < job_index(deltas, id) ==> (#[trigger] deltas[k]).job_id != id,
    decreases deltas.len(),
{
    if deltas.len() > 0 && deltas[0].job_id != id {
        let rest = deltas.drop_first();
        lemma_job_index_found(rest, id);
        assert forall|k: int| 0 <= k < job_index(deltas, id) implies (#[trigger] deltas[k]).job_id != id by {
            if k > 0 {
                assert(rest[k - 1] == deltas[k]);
            }
        }
        if job_index(deltas, id) < deltas.len() {
            assert(rest[job_index(rest, id)] == deltas[job_index(deltas, id)]);
        }
    }
}

/// The entries hold an entry for job `id`.
pub open spec fn has_entry(deltas: Seq<JobDelta>, id: Seq<char>) -> bool {
    exists|k: int| 0 <= k < deltas.len() && (#[trigger] deltas[k]).job_id == id
}

/// Merging an entry adds its amounts to what the entries add to its job,
/// and to no other job; afterwards the entries hold its job, beside the
/// jobs they held.
pub proof fn lemma_merge(acc: Seq<JobDelta>, d: JobDelta, id: Seq<char>)
    ensures
        total(merge(acc, d), amount_of(id)) == total(acc, amount_of(id)).plus(amount_of(id)(d)),
        has_entry(merge(acc, d), id) <==> (has_entry(acc, id) || d.job_id == id),
{
    lemma_job_index_found(acc, d.job_id);
    let i = job_index(acc, d.job_id);
    let after = merge(acc, d);
    if i < acc.len() {
        lemma_total_update(acc, amount_of(id), i, after[i]);
        assert(after[i].job_id == acc[i].job_id);
        if has_entry(after, id) {
            let k = choose|k: int| 0 <= k < after.len() && (#[trigger] after[k]).job_id == id;
            assert(acc[k].job_id == id);
        }
        if has_entry(acc, id) {
            let k = choose|k: int| 0 <= k < acc.len() && (#[trigger] acc[k]).job_id == id;
            assert(after[k].job_id == id);
        }
        if d.job_id == id {
            assert(after[i].job_id == id);
        }
    } else {
        assert(after.drop_last() =~= acc);
        if has_entry(after, id) {
            let k = choose|k: int| 0 <= k < after.len() && (#[trigger] after[k]).job_id == id;
            if k < acc.len() {
                assert(acc[k].job_id == id);
            }
        }
        if has_entry(acc, id) {
            let k = choose|k: int| 0 <= k < acc.len() && (#[trigger] acc[k]).job_id == id;
            assert(after[k].job_id == id);
        }
        if d.job_id == id {
            assert(after[acc.len() as int].job_id == id);
        }
    }
}

/// A row of the page has a name that follows the grammar and names job
/// `id`.
pub open spec fn names_job(page: Seq<(Seq<char>, Seq<char>, i64)>, id: Seq<char>) -> bool {
    exists|k: int|
        0 <= k < page.len() && parsed((#[trigger] page[k]).1) is Some && job_id_of(parsed(page[k].1)->0) == id
}

/// What a page's entries add to a job is what its rows are worth to the
/// job; and the page has an entry for every job that one of its rows
/// names, and for no other.
pub proof fn lemma_aggregate_totals(page: Seq<(Seq<char>, Seq<char>, i64)>, id: Seq<char>)
    ensures
        total(aggregate(page), amount_of(id)) == total(page, row_worth(id)),
        has_entry(aggregate(page), id) <==> names_job(page, id),
    decreases page.len(),
{
    if page.len() > 0 {
        let rest = page.drop_last();
        lemma_aggregate_totals(rest, id);
        match parsed(page.last().1) {
            Some(f) => {
                lemma_merge(aggregate(rest), delta_of(f, page.last().2 as int), id);
            },
            None => {},
        }
        if names_job(rest, id) {
            let k = choose|k: int|
                0 <= k < rest.len() && parsed((#[trigger] rest[k]).1) is Some && job_id_of(
                    parsed(rest[k].1)->0,
                ) == id;
            assert(page[k] == rest[k]);
        }
        if names_job(page, id) {
            let k = choose|k: int|
                0 <= k < page.len() && parsed((#[trigger] page[k]).1) is Some && job_id_of(
                    parsed(page[k].1)->0,
                ) == id;
            if k < rest.len() {
                assert(rest[k] == page[k]);
            }
        }
        if parsed(page.last().1) is Some && job_id_of(parsed(page.last().1)->0) == id {
            assert(page[page.len() - 1] == page.last());
        }
    }
}

/// The counters of job `id`, or no amounts where the store has no such
/// job.
pub open spec fn counters_at(jobs: Seq<JobView>, id: Seq<char>) -> Amounts {
    match job_of(jobs, id) {
        Some(j) => counters_of(j),
        None => Amounts::zero(),
    }
}

/// The job `after` is the job `before` but for its counters: it has the
/// identifier, short identifier, domain, address, initiator and index row
/// of `before`.
pub open spec fn same_job(before: JobView, after: JobView) -> bool {
    after == (JobView {
        aborts: after.aborts,
        warcs: after.warcs,
        jsons: after.jsons,
        size: after.size,
        ..before
    })
}

/// Job `id` is in `after` what it is in `before` but for its counters, if
/// `before` holds it.
pub open spec fn job_kept(before: Seq<JobView>, after: Seq<JobView>, id: Seq<char>) -> bool {
    job_of(before, id) matches Some(j) ==> job_of(after, id) is Some && same_job(j, job_of(after, id)->0)
}

/// Adding an entry's amounts adds them to the counters of its job, and to
/// no other; afterwards the store has its job, beside the jobs it had, and
/// every job that it had is as it was but for its counters.
pub proof fn lemma_job_updated(jobs: Seq<JobView>, d: JobDelta, id: Seq<char>)
    requires
        ascending(keys_of::<JobRecord>(jobs)),
        job_updated(jobs, d) is Some,
    ensures
        ascending(keys_of::<JobRecord>(job_updated(jobs, d)->0)),
        counters_at(job_updated(jobs, d)->0, id) == counters_at(jobs, id).plus(amount_of(id)(d)),
        job_of(job_updated(jobs, d)->0, id) is Some <==> (job_of(jobs, id) is Some || d.job_id == id),
        job_kept(jobs, job_updated(jobs, d)->0, id),
{
    let fresh = new_job(d);
    let key = (d.job_id, Seq::<char>::empty());
    let with = with_row::<JobRecord>(jobs, fresh);
    let after = job_updated(jobs, d)->0;
    lemma_with_row::<JobRecord>(jobs, fresh);
    let p = lemma_place_exists(keys_of::<JobRecord>(with), key);
    lemma_place(keys_of::<JobRecord>(with), key, p);
    // The job of the entry stands at its place once it is there.
    let w = choose|w: int| 0 <= w < keys_of::<JobRecord>(with).len() && keys_of::<JobRecord>(with)[w] == key;
    assert(JobRecord::key_of(with[w]) == key);
    lemma_find_row_at::<JobRecord>(with, w);
    assert(w == p);
    lemma_change_by_key::<JobRecord>(with, key, p, bump(d));
    assert(after == with.update(p, bump(d)(with[p])));
    assert(can_bump(with[p], d));
    assert(keys_of::<JobRecord>(after) == keys_of::<JobRecord>(with));
    lemma_find_row_at::<JobRecord>(after, p);
    let q = lemma_place_exists(keys_of::<JobRecord>(jobs), key);
    lemma_place(keys_of::<JobRecord>(jobs), key, q);
    let known = keys_of::<JobRecord>(jobs).contains(key);
    if known {
        let v = choose|v: int| 0 <= v < keys_of::<JobRecord>(jobs).len() && keys_of::<JobRecord>(jobs)[v] == key;
        assert(JobRecord::key_of(jobs[v]) == key);
        lemma_find_row_at::<JobRecord>(jobs, v);
        assert(with == jobs);
        assert(p == q && q == v);
        assert(job_of(jobs, d.job_id) == Some(jobs[p]));
    } else {
        if job_of(jobs, d.job_id) is Some {
            lemma_find_row_some::<JobRecord>(jobs, key);
            assert(keys_of::<JobRecord>(jobs)[place(keys_of::<JobRecord>(jobs), key)] == key);
        }
        assert(job_of(jobs, d.job_id) is None);
        assert(with == jobs.insert(q, fresh));
        assert(with[q] == fresh);
        assert(JobRecord::key_of(with[q]) == key);
        lemma_find_row_at::<JobRecord>(with, q);
        assert(p == q);
    }
    if id == d.job_id {
        assert(job_of(after, id) == Some(after[p]));
        assert(after[p] == bumped(with[p], d));
        assert(counters_of(after[p]) == counters_of(with[p]).plus(amounts_of(d)));
    } else {
        let other = (id, Seq::<char>::empty());
        // A job of another identifier is in the store afterwards just as it
        // was before, with the counters it had.
        if job_of(jobs, id) is Some {
            lemma_find_row_some::<JobRecord>(jobs, other);
            let a = place(keys_of::<JobRecord>(jobs), other);
            let b = if known || a < q {
                a
            } else {
                a + 1
            };
            assert(with[b] == jobs[a]);
            assert(after[b] == jobs[a]);
            lemma_find_row_at::<JobRecord>(after, b);
        } else if job_of(after, id) is Some {
            lemma_find_row_some::<JobRecord>(after, other);
            let b = place(keys_of::<JobRecord>(after), other);
            assert(b != p);
            assert(after[b] == with[b]);
            let a = if known || b < q {
                b
            } else {
                b - 1
            };
            assert(jobs[a] == with[b]);
            lemma_find_row_at::<JobRecord>(jobs, a);
        }
    }
}

/// Adding the amounts of entries adds what they add up to to the counters
/// of each job; afterwards the store has the jobs of the entries, beside
/// the jobs it had, and every job that it had is as it was but for its
/// counters.
pub proof fn lemma_jobs_updated(jobs: Seq<JobView>, ds: Seq<JobDelta>, id: Seq<char>)
    requires
        ascending(keys_of::<JobRecord>(jobs)),
        jobs_updated(jobs, ds) is Some,
    ensures
        ascending(keys_of::<JobRecord>(jobs_updated(jobs, ds)->0)),
        counters_at(jobs_updated(jobs, ds)->0, id) == counters_at(jobs, id).plus(total(ds, amount_of(id))),
        job_of(jobs_updated(jobs, ds)->0, id) is Some <==> (job_of(jobs, id) is Some || has_entry(ds, id)),
        job_kept(jobs, jobs_updated(jobs, ds)->0, id),
    decreases ds.len(),
{
    if ds.len() > 0 {
        let before = jobs_updated(jobs, ds.drop_last())->0;
        lemma_jobs_updated(jobs, ds.drop_last(), id);
        lemma_job_updated(before, ds.last(), id);
        if has_entry(ds.drop_last(), id) {
            let k = choose|k: int| 0 <= k < ds.drop_last().len() && (#[trigger] ds.drop_last()[k]).job_id == id;
            assert(ds[k].job_id == id);
        }
        if has_entry(ds, id) {
            let k = choose|k: int| 0 <= k < ds.len() && (#[trigger] ds[k]).job_id == id;
            if k < ds.len() - 1 {
                assert(ds.drop_last()[k].job_id == id);
            }
        }
        if ds.last().job_id == id {
            assert(ds[ds.len() - 1].job_id == id);
        }
    }
}

/// The key of a row of a page.
pub open spec fn row_key(r: (Seq<char>, Seq<char>, i64)) -> Key {
    (r.0, r.1)
}

/// The rows of the page are files of the table that have no job, each
/// once, in the order of their keys.
pub open spec fn is_page_of(files: Seq<FileView>, page: Seq<(Seq<char>, Seq<char>, i64)>) -> bool {
    &&& forall|a: int, b: int|
        0 <= a < b < page.len() ==> key_lt(row_key(#[trigger] page[a]), row_key(#[trigger] page[b]))
    &&& forall|k: int|
        0 <= k < page.len() ==> {
            let f = find_row::<FileRecord>(files, row_key(#[trigger] page[k]));
            f is Some && f->0.job_id is None && f->0.size == page[k].2
        }
}

/// Every assignment of a page names a row of the page.
pub proof fn lemma_assignment_source(page: Seq<(Seq<char>, Seq<char>, i64)>, k: int) -> (i: int)
    requires
        0 <= k < assignments(page).len(),
    ensures
        0 <= i < page.len(),
        assignments(page)[k].0 == page[i].0,
        assignments(page)[k].1 == page[i].1,
    decreases page.len(),
{
    let rest = page.drop_last();
    if k < assignments(rest).len() {
        let i = lemma_assignment_source(rest, k);
        assert(rest[i] == page[i]);
        i
    } else {
        page.len() - 1
    }
}

/// Assigning leaves a file that no assignment names as it is.
pub proof fn lemma_assigned_untouched(
    files: Seq<FileView>,
    list: Seq<(Seq<char>, Seq<char>, Seq<char>)>,
    i: int,
)
    requires
        0 <= i < files.len(),
        forall|k: int| 0 <= k < list.len() ==> ((#[trigger] list[k]).0, list[k].1) != FileRecord::key_of(files[i]),
    ensures
        files_assigned(files, list).len() == files.len(),
        files_assigned(files, list)[i] == files[i],
    decreases list.len(),
{
    if list.len() > 0 {
        assert forall|k: int| 0 <= k < list.drop_last().len() implies ((#[trigger] list.drop_last()[k]).0, list.drop_last()[k].1)
            != FileRecord::key_of(files[i]) by {
            assert(list.drop_last()[k] == list[k]);
        }
        lemma_assigned_untouched(files, list.drop_last(), i);
        assert((list[list.len() - 1].0, list[list.len() - 1].1) != FileRecord::key_of(files[i]));
    }
}

/// Assigning the files of a page to their jobs adds to the shares of each
/// job what the rows of the page are worth to it.
pub proof fn lemma_assigned_shares(files: Seq<FileView>, page: Seq<(Seq<char>, Seq<char>, i64)>, id: Seq<char>)
    requires
        ascending(keys_of::<FileRecord>(files)),
        is_page_of(files, page),
    ensures
        total(files_assigned(files, assignments(page)), share_of(id)) == total(files, share_of(id)).plus(
            total(page, row_worth(id)),
        ),
    decreases page.len(),
{
    if page.len() > 0 {
        let rest = page.drop_last();
        let r = page.last();
        assert forall|a: int, b: int| 0 <= a < b < rest.len() implies key_lt(
            row_key(#[trigger] rest[a]),
            row_key(#[trigger] rest[b]),
        ) by {
            assert(rest[a] == page[a] && rest[b] == page[b]);
        }
        assert forall|k: int| 0 <= k < rest.len() implies {
            let f = find_row::<FileRecord>(files, row_key(#[trigger] rest[k]));
            f is Some && f->0.job_id is None && f->0.size == rest[k].2
        } by {
            assert(rest[k] == page[k]);
        }
        lemma_assigned_shares(files, rest, id);
        match parsed(r.1) {
            Some(f) => {
                let a = (r.0, r.1, job_id_of(f));
                let before = files_assigned(files, assignments(rest));
                let after = files_assigned(files, assignments(page));
                assert(assignments(page).drop_last() =~= assignments(rest));
                assert(after == file_assigned(before, a));
                assert(page[page.len() - 1] == r);
                lemma_find_row_some::<FileRecord>(files, row_key(r));
                let m = place(keys_of::<FileRecord>(files), row_key(r));
                assert(FileRecord::key_of(files[m]) == row_key(r));
                // No earlier row of the page has the key of this one.
                assert forall|k: int| 0 <= k < assignments(rest).len() implies ((#[trigger] assignments(rest)[k]).0, assignments(
                    rest,
                )[k].1) != FileRecord::key_of(files[m]) by {
                    let i = lemma_assignment_source(rest, k);
                    assert(rest[i] == page[i]);
                    assert(key_lt(row_key(page[i]), row_key(page[page.len() - 1])));
                    lemma_key_lt_irreflexive(row_key(r));
                }
                lemma_assigned_untouched(files, assignments(rest), m);
                lemma_assigned_keys(files, assignments(rest));
                assert(keys_of::<FileRecord>(before).len() == before.len());
                lemma_find_row_at::<FileRecord>(before, m);
                let p = lemma_place_exists(keys_of::<FileRecord>(before), row_key(r));
                lemma_place(keys_of::<FileRecord>(before), row_key(r), p);
                lemma_change_by_key::<FileRecord>(before, row_key(r), m, assign(a));
                assert(after == before.update(m, assign(a)(before[m])));
                lemma_total_update(before, share_of(id), m, assign(a)(before[m]));
            },
            None => {},
        }
    }
}

/// A page of an ascending table ascends.
pub proof fn lemma_matching_ascends<R: Keyed>(rows: Seq<R::V>, keep: spec_fn(R::V) -> bool, limit: int)
    requires
        ascending(keys_of::<R>(rows)),
    ensures
        ascending(keys_of::<R>(matching(rows, keep, limit))),
    decreases rows.len(),
{
    if rows.len() > 0 {
        let head = rows.drop_last();
        assert forall|a: int, b: int| 0 <= a < b < head.len() implies key_lt(
            #[trigger] keys_of::<R>(head)[a],
            #[trigger] keys_of::<R>(head)[b],
        ) by {
            assert(keys_of::<R>(rows)[a] == keys_of::<R>(head)[a]);
            assert(keys_of::<R>(rows)[b] == keys_of::<R>(head)[b]);
        }
        lemma_matching_ascends::<R>(head, keep, limit);
        let before = matching(head, keep, limit);
        let picked = matching(rows, keep, limit);
        assert forall|a: int, b: int| 0 <= a < b < picked.len() implies key_lt(
            #[trigger] keys_of::<R>(picked)[a],
            #[trigger] keys_of::<R>(picked)[b],
        ) by {
            if b < before.len() {
                assert(keys_of::<R>(before)[a] == keys_of::<R>(picked)[a]);
                assert(keys_of::<R>(before)[b] == keys_of::<R>(picked)[b]);
            } else {
                let m = lemma_matching_member(head, keep, limit, a);
                assert(head[m] == rows[m]);
                assert(keys_of::<R>(rows)[m] == R::key_of(rows[m]));
                assert(keys_of::<R>(rows)[rows.len() - 1] == R::key_of(rows.last()));
            }
        }
    }
}

/// A page of files without a job is a page of the store's files.
pub proof fn lemma_page_rows(db: DatabaseView, after: Key)
    requires
        db.wf(),
    ensures
        is_page_of(db.files, db.files_without_job_id(after)),
{
    let keep = jobless_filter(after);
    let picked = matching(db.files, keep, PAGE_SIZE as int);
    let page = db.files_without_job_id(after);
    lemma_matching_ascends::<FileRecord>(db.files, keep, PAGE_SIZE as int);
    assert forall|a: int, b: int| 0 <= a < b < page.len() implies key_lt(
        row_key(#[trigger] page[a]),
        row_key(#[trigger] page[b]),
    ) by {
        assert(keys_of::<FileRecord>(picked)[a] == row_key(page[a]));
        assert(keys_of::<FileRecord>(picked)[b] == row_key(page[b]));
    }
    assert forall|k: int| 0 <= k < page.len() implies {
        let f = find_row::<FileRecord>(db.files, row_key(#[trigger] page[k]));
        f is Some && f->0.job_id is None && f->0.size == page[k].2
    } by {
        let j = lemma_matching_member(db.files, keep, PAGE_SIZE as int, k);
        assert(page[k] == file_columns()(picked[k]));
        lemma_find_row_at::<FileRecord>(db.files, j);
    }
}

/// Every file that has a job has a job that the store holds.
pub open spec fn jobs_known(files: Seq<FileView>, jobs: Seq<JobView>) -> bool {
    forall|i: int|
        0 <= i < files.len() && (#[trigger] files[i]).job_id is Some ==> job_of(jobs, files[i].job_id->0) is Some
}

/// The counters of every job are what the files assigned to it add up to,
/// and every file that is assigned is assigned to a job of the store.
pub open spec fn consistent(db: DatabaseView) -> bool {
    &&& forall|i: int|
        0 <= i < db.jobs.len() ==> counters_of(#[trigger] db.jobs[i]) == total(
            db.files,
            share_of(db.jobs[i].id),
        )
    &&& jobs_known(db.files, db.jobs)
}

/// Assigning files to jobs that the store holds leaves every assigned file
/// with a job that the store holds.
pub proof fn lemma_assigned_known(
    files: Seq<FileView>,
    list: Seq<(Seq<char>, Seq<char>, Seq<char>)>,
    jobs: Seq<JobView>,
)
    requires
        jobs_known(files, jobs),
        forall|k: int| 0 <= k < list.len() ==> job_of(jobs, (#[trigger] list[k]).2) is Some,
    ensures
        jobs_known(files_assigned(files, list), jobs),
    decreases list.len(),
{
    if list.len() > 0 {
        assert forall|k: int| 0 <= k < list.drop_last().len() implies job_of(
            jobs,
            (#[trigger] list.drop_last()[k]).2,
        ) is Some by {
            assert(list.drop_last()[k] == list[k]);
        }
        lemma_assigned_known(files, list.drop_last(), jobs);
        let before = files_assigned(files, list.drop_last());
        let after = files_assigned(files, list);
        assert(job_of(jobs, list[list.len() - 1].2) is Some);
        assert forall|i: int| 0 <= i < after.len() && (#[trigger] after[i]).job_id is Some implies job_of(
            jobs,
            after[i].job_id->0,
        ) is Some by {
            assert(after[i] == assign(list.last())(before[i]));
            if before[i].job_id is Some {
                assert(job_of(jobs, before[i].job_id->0) is Some);
            }
        }
    }
}

/// The job of every assignment of a page is named by a row of the page.
pub proof fn lemma_assignment_job(page: Seq<(Seq<char>, Seq<char>, i64)>, k: int)
    requires
        0 <= k < assignments(page).len(),
    ensures
        names_job(page, assignments(page)[k].2),
    decreases page.len(),
{
    let rest = page.drop_last();
    if k < assignments(rest).len() {
        lemma_assignment_job(rest, k);
        let id = assignments(page)[k].2;
        let i = choose|i: int|
            0 <= i < rest.len() && parsed((#[trigger] rest[i]).1) is Some && job_id_of(parsed(rest[i].1)->0) == id;
        assert(page[i] == rest[i]);
    } else {
        assert(parsed(page[page.len() - 1].1) is Some);
    }
}

/// Writing what a page of files without a job amounts to keeps the
/// counters of every job at what the files assigned to it add up to.
pub proof fn lemma_page_consistent(db: DatabaseView, after: Key)
    requires
        db.wf(),
        consistent(db),
        db.update_jobs(
            aggregate(db.files_without_job_id(after)),
            assignments(db.files_without_job_id(after)),
        ) is Some,
    ensures
        ({
            let page = db.files_without_job_id(after);
            let next = db.update_jobs(aggregate(page), assignments(page))->0;
            next.wf() && consistent(next)
        }),
{
    let page = db.files_without_job_id(after);
    let ds = aggregate(page);
    let list = assignments(page);
    let next = db.update_jobs(ds, list)->0;
    lemma_page_rows(db, after);
    lemma_assigned_keys(db.files, list);
    lemma_jobs_updated(db.jobs, ds, Seq::empty());
    assert(next.wf());
    assert forall|i: int| 0 <= i < next.jobs.len() implies counters_of(#[trigger] next.jobs[i]) == total(
        next.files,
        share_of(next.jobs[i].id),
    ) by {
        let id = next.jobs[i].id;
        lemma_find_row_at::<JobRecord>(next.jobs, i);
        lemma_jobs_updated(db.jobs, ds, id);
        lemma_aggregate_totals(page, id);
        lemma_assigned_shares(db.files, page, id);
        match job_of(db.jobs, id) {
            Some(j) => {
                lemma_find_row_some::<JobRecord>(db.jobs, (id, Seq::empty()));
            },
            None => {
                assert forall|m: int| 0 <= m < db.files.len() implies #[trigger] share_of(id)(db.files[m])
                    == Amounts::zero() by {
                    if db.files[m].job_id == Some(id) {
                        assert(job_of(db.jobs, db.files[m].job_id->0) is Some);
                    }
                }
                lemma_total_nothing(db.files, share_of(id));
            },
        }
    }
    assert forall|i: int| 0 <= i < db.files.len() && (#[trigger] db.files[i]).job_id is Some implies job_of(
        next.jobs,
        db.files[i].job_id->0,
    ) is Some by {
        lemma_jobs_updated(db.jobs, ds, db.files[i].job_id->0);
    }
    assert forall|k: int| 0 <= k < list.len() implies job_of(next.jobs, (#[trigger] list[k]).2) is Some by {
        lemma_assignment_job(page, k);
        lemma_aggregate_totals(page, list[k].2);
        lemma_jobs_updated(db.jobs, ds, list[k].2);
    }
    lemma_assigned_known(db.files, list, next.jobs);
}

proof fn lemma_aggregate_from_consistent(db: DatabaseView, after: Key)
    requires
        db.wf(),
        consistent(db),
    ensures
        db.aggregate_from(after).0.wf(),
        consistent(db.aggregate_from(after).0),
    decreases crate::stages::rows_after::<FileRecord>(db.files, after),
{
    let page = db.files_without_job_id(after);
    if page.len() > 0 && crate::jobs::fits(aggregate(page)) {
        match db.update_jobs(aggregate(page), assignments(page)) {
            Some(next) => {
                lemma_page_consistent(db, after);
                crate::stages::lemma_page_advances(db, after);
                lemma_aggregate_from_consistent(next, crate::stages::last_key(page));
            },
            None => {},
        }
    }
}

/// An empty store is consistent.
pub proof fn law_counters_start()
    ensures
        DatabaseView::empty().wf(),
        consistent(DatabaseView::empty()),
{
    assert(keys_of::<JobRecord>(Seq::empty()) =~= Seq::<Key>::empty());
    assert(keys_of::<FileRecord>(Seq::empty()) =~= Seq::<Key>::empty());
    assert(keys_of::<crate::records::ItemRecord>(Seq::empty()) =~= Seq::<Key>::empty());
}

/// Aggregation keeps the counters of every job at what the files assigned
/// to the job add up to, whether it goes through all pages or fails on
/// one.
pub proof fn law_counters_kept_by_aggregation(db: DatabaseView)
    requires
        db.wf(),
        consistent(db),
    ensures
        db.populate_jobs().0.wf(),
        consistent(db.populate_jobs().0),
{
    lemma_aggregate_from_consistent(db, (Seq::empty(), Seq::empty()));
}

/// A store with the same files, and the same jobs with the same counters,
/// is consistent where the other is.
pub proof fn lemma_consistent_carried(a: DatabaseView, b: DatabaseView)
    requires
        consistent(a),
        ascending(keys_of::<JobRecord>(a.jobs)),
        ascending(keys_of::<JobRecord>(b.jobs)),
        b.files == a.files,
        b.jobs.len() == a.jobs.len(),
        forall|i: int|
            0 <= i < a.jobs.len() ==> (#[trigger] b.jobs[i]).id == a.jobs[i].id && counters_of(b.jobs[i])
                == counters_of(a.jobs[i]),
    ensures
        consistent(b),
{
    assert forall|i: int| 0 <= i < b.jobs.len() implies counters_of(#[trigger] b.jobs[i]) == total(
        b.files,
        share_of(b.jobs[i].id),
    ) by {
        assert(counters_of(a.jobs[i]) == total(a.files, share_of(a.jobs[i].id)));
    }
    assert forall|i: int| 0 <= i < b.files.len() && (#[trigger] b.files[i]).job_id is Some implies job_of(
        b.jobs,
        b.files[i].job_id->0,
    ) is Some by {
        let id = a.files[i].job_id->0;
        assert(job_of(a.jobs, id) is Some);
        lemma_find_row_some::<JobRecord>(a.jobs, (id, Seq::empty()));
        let p = place(keys_of::<JobRecord>(a.jobs), (id, Seq::empty()));
        assert(b.jobs[p].id == id);
        lemma_find_row_at::<JobRecord>(b.jobs, p);
    }
}

/// Files that are stored anew have no job: the shares of every job stay
/// what they were, and every assigned file is one that was assigned.
pub proof fn lemma_new_files(files: Seq<FileView>, new: Seq<FileView>, jobs: Seq<JobView>, id: Seq<char>)
    requires
        forall|k: int| 0 <= k < new.len() ==> (#[trigger] new[k]).job_id is None,
        jobs_known(files, jobs),
    ensures
        total(with_rows::<FileRecord>(files, new), share_of(id)) == total(files, share_of(id)),
        jobs_known(with_rows::<FileRecord>(files, new), jobs),
    decreases new.len(),
{
    if new.len() > 0 {
        assert forall|k: int| 0 <= k < new.drop_last().len() implies (#[trigger] new.drop_last()[k]).job_id is None by {
            assert(new.drop_last()[k] == new[k]);
        }
        lemma_new_files(files, new.drop_last(), jobs, id);
        let before = with_rows::<FileRecord>(files, new.drop_last());
        let after = with_rows::<FileRecord>(files, new);
        let row = new.last();
        assert(new[new.len() - 1].job_id is None);
        if !keys_of::<FileRecord>(before).contains(FileRecord::key_of(row)) {
            let p = place(keys_of::<FileRecord>(before), FileRecord::key_of(row));
            crate::table::lemma_place_bounds(keys_of::<FileRecord>(before), FileRecord::key_of(row));
            lemma_total_insert(before, share_of(id), p, row);
            assert forall|i: int| 0 <= i < after.len() && (#[trigger] after[i]).job_id is Some implies job_of(
                jobs,
                after[i].job_id->0,
            ) is Some by {
                if i < p {
                    assert(after[i] == before[i]);
                } else if i > p {
                    assert(after[i] == before[i - 1]);
                }
            }
        }
    }
}

/// Storing items and files, and marking items as listed, keeps the
/// counters of every job at what the files assigned to it add up to.
pub proof fn law_counters_kept_by_storing(
    db: DatabaseView,
    infos: Seq<ItemInfoView>,
    item: Seq<char>,
    files: Seq<(Seq<char>, i64)>,
    now: Timestamp,
)
    requires
        db.wf(),
        consistent(db),
    ensures
        consistent(db.add_ia_items(infos)),
        consistent(db.add_item_files(item, files)),
        consistent(db.set_ia_item_refresh_date(item, now)),
        consistent(DatabaseView { last_update: Some(now), ..db }),
{
    lemma_consistent_carried(db, db.add_ia_items(infos));
    lemma_consistent_carried(db, db.set_ia_item_refresh_date(item, now));
    lemma_consistent_carried(db, DatabaseView { last_update: Some(now), ..db });
    let after = db.add_item_files(item, files);
    assert forall|i: int| 0 <= i < after.jobs.len() implies counters_of(#[trigger] after.jobs[i]) == total(
        after.files,
        share_of(after.jobs[i].id),
    ) by {
        lemma_new_files(db.files, new_files(item, files), db.jobs, after.jobs[i].id);
    }
    lemma_new_files(db.files, new_files(item, files), db.jobs, Seq::empty());
}

/// Recomputing the statistics, giving a job its address and indexing the
/// jobs keep the counters of every job at what the files assigned to it
/// add up to.
pub proof fn law_counters_kept_by_the_rest(
    db: DatabaseView,
    job: Seq<char>,
    url: Seq<char>,
    started_by: Seq<char>,
    indexed: DatabaseView,
)
    requires
        db.wf(),
        consistent(db),
        grown(db, indexed),
        indexed.wf(),
    ensures
        consistent(db.populate_daily_stats().0),
        consistent(db.add_job_url(job, url, started_by)),
        consistent(indexed),
{
    lemma_consistent_carried(db, db.populate_daily_stats().0);
    let named = db.add_job_url(job, url, started_by);
    assert(keys_of::<JobRecord>(named.jobs) =~= keys_of::<JobRecord>(db.jobs));
    lemma_consistent_carried(db, named);
    assert forall|i: int|
        0 <= i < db.jobs.len() implies (#[trigger] indexed.jobs[i]).id == db.jobs[i].id && counters_of(
        indexed.jobs[i],
    ) == counters_of(db.jobs[i]) by {
        assert(indexed_job(db.jobs[i], indexed.jobs[i], indexed.search_index));
    }
    lemma_consistent_carried(db, indexed);
}

/// Where no element weighs less than nothing, the sum is not less than
/// nothing.
proof fn lemma_total_at_least<T>(s: Seq<T>, weigh: spec_fn(T) -> Amounts)
    requires
        forall|i: int| 0 <= i < s.len() ==> (#[trigger] weigh(s[i])).at_least(Amounts::zero()),
    ensures
        total(s, weigh).at_least(Amounts::zero()),
    decreases s.len(),
{
    if s.len() > 0 {
        assert forall|i: int| 0 <= i < s.drop_last().len() implies (#[trigger] weigh(s.drop_last()[i])).at_least(
            Amounts::zero(),
        ) by {
            assert(s.drop_last()[i] == s[i]);
        }
        lemma_total_at_least(s.drop_last(), weigh);
        assert(weigh(s[s.len() - 1]).at_least(Amounts::zero()));
    }
}

/// Assigning files to jobs leaves their sizes as they are.
proof fn lemma_sizes_assigned(files: Seq<FileView>, list: Seq<(Seq<char>, Seq<char>, Seq<char>)>)
    requires
        sizes_counted(files),
    ensures
        sizes_counted(files_assigned(files, list)),
    decreases list.len(),
{
    if list.len() > 0 {
        lemma_sizes_assigned(files, list.drop_last());
        let before = files_assigned(files, list.drop_last());
        let after = files_assigned(files, list);
        assert forall|i: int| 0 <= i < after.len() implies (#[trigger] after[i]).size >= 0 by {
            assert(after[i] == assign(list.last())(before[i]));
            assert(before[i].size >= 0);
        }
    }
}

/// Writing what a page of files without a job amounts to lowers no counter
/// of a job, where no file has a negative size.
proof fn lemma_page_rises(db: DatabaseView, after: Key, id: Seq<char>)
    requires
        db.wf(),
        sizes_counted(db.files),
        db.update_jobs(
            aggregate(db.files_without_job_id(after)),
            assignments(db.files_without_job_id(after)),
        ) is Some,
    ensures
        ({
            let page = db.files_without_job_id(after);
            let next = db.update_jobs(aggregate(page), assignments(page))->0;
            next.wf() && sizes_counted(next.files) && counters_at(next.jobs, id).at_least(counters_at(db.jobs, id))
        }),
{
    let page = db.files_without_job_id(after);
    let ds = aggregate(page);
    let list = assignments(page);
    lemma_page_rows(db, after);
    lemma_assigned_keys(db.files, list);
    lemma_sizes_assigned(db.files, list);
    lemma_jobs_updated(db.jobs, ds, id);
    lemma_aggregate_totals(page, id);
    assert forall|k: int| 0 <= k < page.len() implies (#[trigger] row_worth(id)(page[k])).at_least(
        Amounts::zero(),
    ) by {
        let f = find_row::<FileRecord>(db.files, row_key(page[k]));
        lemma_find_row_some::<FileRecord>(db.files, row_key(page[k]));
        assert(page[k].2 >= 0);
    }
    lemma_total_at_least(page, row_worth(id));
}

proof fn lemma_aggregate_from_rises(db: DatabaseView, after: Key, id: Seq<char>)
    requires
        db.wf(),
        sizes_counted(db.files),
    ensures
        sizes_counted(db.aggregate_from(after).0.files),
        counters_at(db.aggregate_from(after).0.jobs, id).at_least(counters_at(db.jobs, id)),
    decreases crate::stages::rows_after::<FileRecord>(db.files, after),
{
    let page = db.files_without_job_id(after);
    if page.len() > 0 && crate::jobs::fits(aggregate(page)) {
        match db.update_jobs(aggregate(page), assignments(page)) {
            Some(next) => {
                lemma_page_rises(db, after, id);
                crate::stages::lemma_page_advances(db, after);
                lemma_aggregate_from_rises(next, crate::stages::last_key(page), id);
            },
            None => {},
        }
    }
}

/// Storing a listing whose sizes are not negative leaves no file with a
/// negative size, in a store where no file has one.
pub proof fn law_sizes_kept_by_storing(db: DatabaseView, item: Seq<char>, files: Seq<(Seq<char>, i64)>)
    requires
        sizes_counted(db.files),
        sizes_given(files),
    ensures
        sizes_counted(db.add_item_files(item, files).files),
{
    assert forall|k: int| 0 <= k < files.len() implies (#[trigger] new_files(item, files)[k]).size >= 0 by {
        assert(files[k].1 >= 0);
    }
    lemma_sizes_stored(db.files, new_files(item, files));
}

/// Aggregation lowers no counter of a job, and gives no file a negative
/// size, in a store where no file has one; whether it goes through all
/// pages or fails on one.
pub proof fn law_counters_never_fall(db: DatabaseView, id: Seq<char>)
    requires
        db.wf(),
        sizes_counted(db.files),
    ensures
        sizes_counted(db.populate_jobs().0.files),
        counters_at(db.populate_jobs().0.jobs, id).at_least(counters_at(db.jobs, id)),
{
    lemma_aggregate_from_rises(db, (Seq::empty(), Seq::empty()), id);
}

/// In a store where the counters of every job are what its files add up to
/// and no file has a negative size, no counter of a job is negative.
pub proof fn law_counters_not_negative(db: DatabaseView, i: int)
    requires
        consistent(db),
        sizes_counted(db.files),
        0 <= i < db.jobs.len(),
    ensures
        counters_of(db.jobs[i]).at_least(Amounts::zero()),
{
    let id = db.jobs[i].id;
    assert forall|k: int| 0 <= k < db.files.len() implies (#[trigger] share_of(id)(db.files[k])).at_least(
        Amounts::zero(),
    ) by {
        assert(db.files[k].size >= 0);
    }
    lemma_total_at_least(db.files, share_of(id));
}

} // verus!
