//! The stages of a cycle that work on the store alone, as functions of what
//! the store holds.

use vstd::prelude::*;
use crate::jobs::{aggregate, assignments, fits};
use crate::sync::{step_of, wind_up, ActionView, EventView, PhaseView};
use crate::model::{
    file_assigned, files_assigned, has_row, indexed, job_of, jobless_filter, matching, unindexed_filter,
    DatabaseView, PAGE_SIZE,
};
use crate::ia::ItemInfoView;
use crate::records::{FileRecord, FileView, JobRecord, JobView, SearchEntryView};
use crate::time::Timestamp;
use crate::table::{
    ascending, key_lt, keys_of, lemma_change_by_key, lemma_key_lt_irreflexive, lemma_key_lt_transitive,
    lemma_place_exists, lemma_place, Key, Keyed,
};

verus! {

/// The number of rows whose key comes after `k`.
pub open spec fn rows_after<R: Keyed>(rows: Seq<R::V>, k: Key) -> nat
    decreases rows.len(),
{
    if rows.len() == 0 {
        0
    } else {
        rows_after::<R>(rows.drop_last(), k) + if key_lt(k, R::key_of(rows.last())) {
            1nat
        } else {
            0nat
        }
    }
}

/// Fewer rows come after a later key.
pub proof fn lemma_rows_after_later<R: Keyed>(rows: Seq<R::V>, k: Key, later: Key)
    requires
        key_lt(k, later),
    ensures
        rows_after::<R>(rows, later) <= rows_after::<R>(rows, k),
    decreases rows.len(),
{
    if rows.len() > 0 {
        lemma_rows_after_later::<R>(rows.drop_last(), k, later);
        if key_lt(later, R::key_of(rows.last())) {
            lemma_key_lt_transitive(k, later, R::key_of(rows.last()));
        }
    }
}

/// Strictly fewer rows come after the key of a row than after a key before
/// it.
pub proof fn lemma_rows_after_member<R: Keyed>(rows: Seq<R::V>, k: Key, i: int)
    requires
        0 <= i < rows.len(),
        key_lt(k, R::key_of(rows[i])),
    ensures
        rows_after::<R>(rows, R::key_of(rows[i])) < rows_after::<R>(rows, k),
    decreases rows.len(),
{
    let later = R::key_of(rows[i]);
    if i == rows.len() - 1 {
        lemma_rows_after_later::<R>(rows.drop_last(), k, later);
        lemma_key_lt_irreflexive(later);
    } else {
        assert(rows.drop_last()[i] == rows[i]);
        lemma_rows_after_member::<R>(rows.drop_last(), k, i);
        if key_lt(later, R::key_of(rows.last())) {
            lemma_key_lt_transitive(k, later, R::key_of(rows.last()));
        }
    }
}

/// As many rows come after a key in tables with the same keys.
pub proof fn lemma_rows_after_same_keys<R: Keyed>(a: Seq<R::V>, b: Seq<R::V>, k: Key)
    requires
        keys_of::<R>(a) == keys_of::<R>(b),
    ensures
        rows_after::<R>(a, k) == rows_after::<R>(b, k),
    decreases a.len(),
{
    assert(a.len() == keys_of::<R>(a).len());
    assert(b.len() == keys_of::<R>(b).len());
    if a.len() > 0 {
        assert(keys_of::<R>(a.drop_last()) =~= keys_of::<R>(a).drop_last());
        assert(keys_of::<R>(b.drop_last()) =~= keys_of::<R>(b).drop_last());
        assert(keys_of::<R>(a)[a.len() - 1] == R::key_of(a.last()));
        assert(keys_of::<R>(b)[b.len() - 1] == R::key_of(b.last()));
        lemma_rows_after_same_keys::<R>(a.drop_last(), b.drop_last(), k);
    }
}

/// Every row of `matching` is a row of the table that the filter holds of.
pub proof fn lemma_matching_member<V>(rows: Seq<V>, keep: spec_fn(V) -> bool, limit: int, i: int) -> (j: int)
    requires
        0 <= i < matching(rows, keep, limit).len(),
    ensures
        0 <= j < rows.len(),
        rows[j] == matching(rows, keep, limit)[i],
        keep(rows[j]),
    decreases rows.len(),
{
    let before = matching(rows.drop_last(), keep, limit);
    if i < before.len() {
        let j = lemma_matching_member(rows.drop_last(), keep, limit, i);
        assert(rows.drop_last()[j] == rows[j]);
        j
    } else {
        rows.len() - 1
    }
}

/// A page holds every row of the table that its filter holds of, up to the
/// key of its last row: a row that is left out comes after a full page.
pub proof fn lemma_matching_complete<R: Keyed>(
    rows: Seq<R::V>,
    keep: spec_fn(R::V) -> bool,
    limit: int,
    j: int,
) -> (i: int)
    requires
        ascending(keys_of::<R>(rows)),
        0 <= j < rows.len(),
        keep(rows[j]),
        limit > 0,
    ensures
        ({
            let picked = matching(rows, keep, limit);
            if 0 <= i < picked.len() {
                picked[i] == rows[j]
            } else {
                picked.len() == limit && key_lt(R::key_of(picked.last()), R::key_of(rows[j]))
            }
        }),
    decreases rows.len(),
{
    let picked = matching(rows, keep, limit);
    let head = rows.drop_last();
    let before = matching(head, keep, limit);
    assert forall|a: int, b: int| 0 <= a < b < head.len() implies key_lt(
        #[trigger] keys_of::<R>(head)[a],
        #[trigger] keys_of::<R>(head)[b],
    ) by {
        assert(keys_of::<R>(rows)[a] == keys_of::<R>(head)[a]);
        assert(keys_of::<R>(rows)[b] == keys_of::<R>(head)[b]);
    }
    if j == rows.len() - 1 {
        if before.len() < limit {
            before.len() as int
        } else {
            assert(before.len() > 0);
            let m = lemma_matching_member(head, keep, limit, before.len() - 1);
            assert(head[m] == rows[m]);
            assert(keys_of::<R>(rows)[m] == R::key_of(rows[m]));
            assert(keys_of::<R>(rows)[j] == R::key_of(rows[j]));
            lemma_matching_len(head, keep, limit);
            -1
        }
    } else {
        assert(head[j] == rows[j]);
        let i = lemma_matching_complete::<R>(head, keep, limit, j);
        if 0 <= i < before.len() {
            i
        } else {
            -1
        }
    }
}

/// A page holds no more rows than its limit.
pub proof fn lemma_matching_len<V>(rows: Seq<V>, keep: spec_fn(V) -> bool, limit: int)
    requires
        limit >= 0,
    ensures
        matching(rows, keep, limit).len() <= limit,
    decreases rows.len(),
{
    if rows.len() > 0 {
        lemma_matching_len(rows.drop_last(), keep, limit);
    }
}

/// An empty page means that the filter holds of no row.
pub proof fn lemma_matching_none<V>(rows: Seq<V>, keep: spec_fn(V) -> bool, limit: int, j: int)
    requires
        limit > 0,
        matching(rows, keep, limit).len() == 0,
        0 <= j < rows.len(),
    ensures
        !keep(rows[j]),
    decreases rows.len(),
{
    if j < rows.len() - 1 {
        assert(rows.drop_last()[j] == rows[j]);
        lemma_matching_none(rows.drop_last(), keep, limit, j);
    }
}

/// Assigning files to jobs leaves the keys of the files as they are.
pub proof fn lemma_assigned_keys(files: Seq<FileView>, list: Seq<(Seq<char>, Seq<char>, Seq<char>)>)
    ensures
        keys_of::<FileRecord>(files_assigned(files, list)) == keys_of::<FileRecord>(files),
    decreases list.len(),
{
    if list.len() > 0 {
        lemma_assigned_keys(files, list.drop_last());
        let before = files_assigned(files, list.drop_last());
        assert(keys_of::<FileRecord>(file_assigned(before, list.last())) =~= keys_of::<FileRecord>(before));
    }
}

/// The key of the last file of a page.
pub open spec fn last_key(page: Seq<(Seq<char>, Seq<char>, i64)>) -> Key {
    (page.last().0, page.last().1)
}

impl DatabaseView {
    /// The store after the files after key `after` that have no job are
    /// aggregated page by page, and whether every page was written. Each
    /// page is summed up per job and written as a whole; a page that would
    /// take a counter out of its range is not written, nor are the pages
    /// after it.
    pub open spec fn aggregate_from(self, after: Key) -> (DatabaseView, bool)
        decreases rows_after::<FileRecord>(self.files, after),
    {
        let page = self.files_without_job_id(after);
        if page.len() == 0 {
            (self, true)
        } else if !fits(aggregate(page)) {
            (self, false)
        } else {
            match self.update_jobs(aggregate(page), assignments(page)) {
                Some(next) => {
                    proof {
                        lemma_page_advances(self, after);
                    }
                    next.aggregate_from(last_key(page))
                },
                None => (self, false),
            }
        }
    }

    /// The store after all files that have no job are aggregated, and
    /// whether every page was written.
    pub open spec fn populate_jobs(self) -> (DatabaseView, bool) {
        self.aggregate_from((Seq::empty(), Seq::empty()))
    }
}

/// After a page is written, fewer files come after its last key than came
/// after the key it was read from.
pub proof fn lemma_page_advances(db: DatabaseView, after: Key)
    requires
        db.files_without_job_id(after).len() > 0,
    ensures
        forall|jobs: Seq<crate::database::JobDelta>, list: Seq<(Seq<char>, Seq<char>, Seq<char>)>|
            db.update_jobs(jobs, list) is Some ==> rows_after::<FileRecord>(
                (#[trigger] db.update_jobs(jobs, list))->0.files,
                last_key(db.files_without_job_id(after)),
            ) < rows_after::<FileRecord>(db.files, after),
{
    let page = db.files_without_job_id(after);
    let picked = matching(db.files, jobless_filter(after), PAGE_SIZE as int);
    let j = lemma_matching_member(db.files, jobless_filter(after), PAGE_SIZE as int, picked.len() - 1);
    assert(last_key(page) == FileRecord::key_of(db.files[j]));
    lemma_rows_after_member::<FileRecord>(db.files, after, j);
    assert forall|jobs: Seq<crate::database::JobDelta>, list: Seq<(Seq<char>, Seq<char>, Seq<char>)>|
        db.update_jobs(jobs, list) is Some implies rows_after::<FileRecord>(
        (#[trigger] db.update_jobs(jobs, list))->0.files,
        last_key(page),
    ) < rows_after::<FileRecord>(db.files, after) by {
        lemma_assigned_keys(db.files, list);
        lemma_rows_after_same_keys::<FileRecord>(files_assigned(db.files, list), db.files, last_key(page));
    }
}

/// The index holds a row numbered `row` with this domain and address.
pub open spec fn holds_entry(index: Seq<SearchEntryView>, row: i64, domain: Seq<char>, url: Seq<char>) -> bool {
    exists|k: int|
        0 <= k < index.len() && (#[trigger] index[k]) == (SearchEntryView { rowid: row, domain, url })
}

/// What indexing may make of job `b`: the same job, with an index row
/// where it had none, or with another one.
pub open spec fn indexed_job(b: JobView, a: JobView, index: Seq<SearchEntryView>) -> bool {
    &&& a == JobView { search_id: a.search_id, ..b }
    &&& b.search_id is Some ==> a.search_id is Some
    &&& a.search_id != b.search_id ==> holds_entry(index, a.search_id->0, b.domain, b.url)
}

/// What indexing may make of a store: nothing but the jobs' index rows and
/// the index change; the index keeps its rows and takes new ones at its
/// end; and a job whose index row changed finds its domain and address in
/// the index under its new row.
pub open spec fn grown(before: DatabaseView, after: DatabaseView) -> bool {
    &&& after.items == before.items
    &&& after.files == before.files
    &&& after.daily_stats == before.daily_stats
    &&& after.last_update == before.last_update
    &&& after.jobs.len() == before.jobs.len()
    &&& forall|i: int|
        0 <= i < before.jobs.len() ==> indexed_job(
            #[trigger] before.jobs[i],
            after.jobs[i],
            after.search_index,
        )
    &&& before.search_index.is_prefix_of(after.search_index)
}

/// Indexing after indexing is indexing.
pub proof fn lemma_grown_transitive(a: DatabaseView, b: DatabaseView, c: DatabaseView)
    requires
        grown(a, b),
        grown(b, c),
    ensures
        grown(a, c),
{
    assert forall|i: int| 0 <= i < a.jobs.len() implies indexed_job(
        #[trigger] a.jobs[i],
        c.jobs[i],
        c.search_index,
    ) by {
        assert(indexed_job(a.jobs[i], b.jobs[i], b.search_index));
        assert(indexed_job(b.jobs[i], c.jobs[i], c.search_index));
        if c.jobs[i].search_id != a.jobs[i].search_id {
            if c.jobs[i].search_id == b.jobs[i].search_id {
                let k = choose|k: int|
                    0 <= k < b.search_index.len() && (#[trigger] b.search_index[k]) == (SearchEntryView {
                        rowid: b.jobs[i].search_id->0,
                        domain: a.jobs[i].domain,
                        url: a.jobs[i].url,
                    });
                assert(c.search_index[k] == b.search_index[k]);
            }
        }
    }
}

/// Giving one job its index row is indexing.
pub proof fn lemma_search_row_grows(db: DatabaseView, id: Seq<char>, row: i64)
    requires
        db.wf(),
    ensures
        match db.add_job_search_row(id, row) {
            Some(v) => grown(db, v) && v.wf() && (job_of(db.jobs, id) is Some ==> has_row(v.search_index, row)),
            None => true,
        },
{
    match db.add_job_search_row(id, row) {
        Some(v) => {
            let k = (id, Seq::<char>::empty());
            let p = lemma_place_exists(keys_of::<JobRecord>(db.jobs), k);
            lemma_place(keys_of::<JobRecord>(db.jobs), k, p);
            if job_of(db.jobs, id) is Some {
                let j = db.jobs[p];
                lemma_change_by_key::<JobRecord>(db.jobs, k, p, indexed(id, row));
                let n = db.search_index.len() as int;
                assert(v.search_index[n] == (SearchEntryView { rowid: row, domain: j.domain, url: j.url }));
                assert forall|i: int| 0 <= i < db.jobs.len() implies indexed_job(
                    #[trigger] db.jobs[i],
                    v.jobs[i],
                    v.search_index,
                ) by {
                    if i == p {
                    }
                }
                assert(db.search_index =~= v.search_index.subrange(0, n));
                assert forall|a: int, b: int| 0 <= a < b < v.search_index.len() implies (
                #[trigger] v.search_index[a]).rowid != (#[trigger] v.search_index[b]).rowid by {
                    if b < n {
                        assert(db.search_index[a].rowid != db.search_index[b].rowid);
                    } else {
                        assert(v.search_index[a] == db.search_index[a]);
                    }
                }
            } else {
                assert(db.search_index =~= v.search_index.subrange(0, v.search_index.len() as int));
            }
        },
        None => {},
    }
}

/// Giving jobs their index rows is indexing.
pub proof fn lemma_search_rows_grow(db: DatabaseView, rows: Seq<(Seq<char>, i64)>)
    requires
        db.wf(),
    ensures
        match db.add_job_search_rows(rows) {
            Some(v) => grown(db, v) && v.wf(),
            None => true,
        },
    decreases rows.len(),
{
    if rows.len() == 0 {
        assert(db.search_index =~= db.search_index.subrange(0, db.search_index.len() as int));
    } else {
        lemma_search_rows_grow(db, rows.drop_last());
        match db.add_job_search_rows(rows.drop_last()) {
            Some(before) => {
                lemma_search_row_grows(before, rows.last().0, rows.last().1);
                match before.add_job_search_row(rows.last().0, rows.last().1) {
                    Some(v) => {
                        lemma_grown_transitive(db, before, v);
                    },
                    None => {},
                }
            },
            None => {},
        }
    }
}

/// Indexing leaves the keys of the jobs as they are.
pub proof fn lemma_grown_keys(before: DatabaseView, after: DatabaseView)
    requires
        grown(before, after),
    ensures
        keys_of::<JobRecord>(after.jobs) == keys_of::<JobRecord>(before.jobs),
{
    assert forall|i: int| 0 <= i < before.jobs.len() implies JobRecord::key_of(after.jobs[i])
        == JobRecord::key_of(before.jobs[i]) by {
        assert(indexed_job(before.jobs[i], after.jobs[i], after.search_index));
    }
    assert(keys_of::<JobRecord>(after.jobs) =~= keys_of::<JobRecord>(before.jobs));
}

/// After a page of jobs is indexed, fewer jobs come after its last
/// identifier than came after the identifier it was read from.
pub proof fn lemma_index_page_advances(db: DatabaseView, after: Seq<char>, next: DatabaseView)
    requires
        db.jobs_without_search(after).len() > 0,
        grown(db, next),
    ensures
        rows_after::<JobRecord>(next.jobs, (db.jobs_without_search(after).last(), Seq::empty()))
            < rows_after::<JobRecord>(db.jobs, (after, Seq::empty())),
{
    let picked = matching(db.jobs, unindexed_filter(after), PAGE_SIZE as int);
    let j = lemma_matching_member(db.jobs, unindexed_filter(after), PAGE_SIZE as int, picked.len() - 1);
    let last = (db.jobs_without_search(after).last(), Seq::<char>::empty());
    assert(last == JobRecord::key_of(db.jobs[j]));
    lemma_rows_after_member::<JobRecord>(db.jobs, (after, Seq::empty()), j);
    lemma_grown_keys(db, next);
    lemma_rows_after_same_keys::<JobRecord>(next.jobs, db.jobs, last);
}

/// The instant 3000-01-01T00:00:00Z.
pub open spec fn year_3000() -> Timestamp {
    Timestamp { secs: 32_503_680_000, nanos: 0 }
}

/// The catalog entries of the test data: one item.
pub open spec fn test_items() -> Seq<ItemInfoView> {
    seq![
        ItemInfoView {
            identifier: "test_item_1"@,
            addeddate: year_3000(),
            publicdate: year_3000(),
            imagecount: Some(123i64),
        },
    ]
}

/// The file listing of the test data's item: an archive and a metadata
/// document of one job.
pub open spec fn test_files() -> Seq<(Seq<char>, i64)> {
    seq![
        ("example.com-inf-30000101-000000-abcde.warc.gz"@, 123i64),
        ("example.com-inf-30000101-000000-abcde.json"@, 123i64),
    ]
}

impl DatabaseView {
    /// The store with the test data's item and files, listed at `now`.
    pub open spec fn with_test_data(self, now: Timestamp) -> DatabaseView {
        self.add_ia_items(test_items()).add_item_files("test_item_1"@, test_files()).set_ia_item_refresh_date(
            "test_item_1"@,
            now,
        )
    }

    /// The job of the test data with its address and initiator.
    pub open spec fn with_test_url(self) -> DatabaseView {
        self.add_job_url("30000101000000abcde"@, "http://example.com/hello-world/"@, "username"@)
    }
}

/// Every job that one of `rows` names has an index row.
pub open spec fn rows_indexed(jobs: Seq<JobView>, rows: Seq<(Seq<char>, i64)>) -> bool {
    forall|i: int, k: int|
        0 <= i < jobs.len() && 0 <= k < rows.len() && (#[trigger] jobs[i]).id == (#[trigger] rows[k]).0
            ==> jobs[i].search_id is Some
}

/// After jobs are given their index rows, every job that was named has
/// one.
pub proof fn lemma_search_rows_indexed(db: DatabaseView, rows: Seq<(Seq<char>, i64)>)
    requires
        db.wf(),
    ensures
        db.add_job_search_rows(rows) matches Some(v) ==> rows_indexed(v.jobs, rows),
    decreases rows.len(),
{
    if rows.len() > 0 {
        lemma_search_rows_indexed(db, rows.drop_last());
        lemma_search_rows_grow(db, rows.drop_last());
        match db.add_job_search_rows(rows.drop_last()) {
            Some(before) => {
                let id = rows.last().0;
                let row = rows.last().1;
                lemma_search_row_grows(before, id, row);
                match before.add_job_search_row(id, row) {
                    Some(v) => {
                        let key = (id, Seq::<char>::empty());
                        let p = lemma_place_exists(keys_of::<JobRecord>(before.jobs), key);
                        lemma_place(keys_of::<JobRecord>(before.jobs), key, p);
                        assert forall|i: int, k: int|
                            0 <= i < v.jobs.len() && 0 <= k < rows.len() && (#[trigger] v.jobs[i]).id == (
                            #[trigger] rows[k]).0 implies v.jobs[i].search_id is Some by {
                            assert(indexed_job(before.jobs[i], v.jobs[i], v.search_index));
                            if k < rows.len() - 1 {
                                assert(rows.drop_last()[k] == rows[k]);
                                assert(before.jobs[i].search_id is Some);
                            } else {
                                if job_of(before.jobs, id) is Some {
                                    lemma_change_by_key::<JobRecord>(before.jobs, key, p, indexed(id, row));
                                    assert(v.jobs[i] == indexed(id, row)(before.jobs[i]));
                                } else {
                                    assert(keys_of::<JobRecord>(before.jobs)[i] == key);
                                    assert(keys_of::<JobRecord>(before.jobs).contains(key));
                                    crate::table::lemma_key_once::<JobRecord>(before.jobs, i, i);
                                    lemma_key_lt_irreflexive(key);
                                    if i < p {
                                        assert(key_lt(keys_of::<JobRecord>(before.jobs)[i], key));
                                    } else {
                                        assert(!key_lt(keys_of::<JobRecord>(before.jobs)[i], key));
                                        if i > p {
                                            assert(key_lt(
                                                keys_of::<JobRecord>(before.jobs)[p],
                                                keys_of::<JobRecord>(before.jobs)[i],
                                            ));
                                            crate::table::lemma_key_lt_total(
                                                keys_of::<JobRecord>(before.jobs)[p],
                                                key,
                                            );
                                        }
                                    }
                                }
                            }
                        }
                    },
                    None => {},
                }
            },
            None => {},
        }
    }
}

/// Every job that one of `ids` names has an index row.
pub open spec fn named_indexed(jobs: Seq<JobView>, ids: Seq<Seq<char>>) -> bool {
    forall|i: int, k: int|
        0 <= i < jobs.len() && 0 <= k < ids.len() && (#[trigger] jobs[i]).id == #[trigger] ids[k]
            ==> jobs[i].search_id is Some
}

/// Every job without an index row, but for one without an identifier, has
/// an identifier after `after`.
pub open spec fn indexed_upto(db: DatabaseView, after: Seq<char>) -> bool {
    forall|i: int|
        0 <= i < db.jobs.len() && (#[trigger] db.jobs[i]).search_id is None && db.jobs[i].id.len() > 0
            ==> key_lt((after, Seq::empty()), JobRecord::key_of(db.jobs[i]))
}

/// Before any page is read, every job with an identifier comes after the
/// beginning.
pub proof fn lemma_indexed_upto_start(db: DatabaseView)
    ensures
        indexed_upto(db, Seq::empty()),
{
    assert forall|i: int|
        0 <= i < db.jobs.len() && (#[trigger] db.jobs[i]).search_id is None && db.jobs[i].id.len() > 0 implies key_lt(
        (Seq::empty(), Seq::empty()),
        JobRecord::key_of(db.jobs[i]),
    ) by {
        crate::table::lemma_empty_is_first(JobRecord::key_of(db.jobs[i]));
    }
}

/// When no page is left, every job with an identifier has an index row.
pub proof fn lemma_indexed_upto_end(db: DatabaseView, after: Seq<char>)
    requires
        indexed_upto(db, after),
        db.jobs_without_search(after).len() == 0,
    ensures
        all_indexed(db),
{
    assert forall|i: int| 0 <= i < db.jobs.len() && (#[trigger] db.jobs[i]).id.len() > 0 implies db.jobs[i].search_id is Some by {
        lemma_matching_none(db.jobs, unindexed_filter(after), PAGE_SIZE as int, i);
        crate::text::lemma_str_lt_irreflexive(after);
    }
}

/// After a page of jobs is indexed, every job without an index row comes
/// after the page's last job.
pub proof fn lemma_indexed_upto_step(
    db: DatabaseView,
    after: Seq<char>,
    rows: Seq<(Seq<char>, i64)>,
    next: DatabaseView,
)
    requires
        db.wf(),
        indexed_upto(db, after),
        db.jobs_without_search(after).len() > 0,
        rows.len() == db.jobs_without_search(after).len(),
        forall|k: int| 0 <= k < rows.len() ==> (#[trigger] rows[k]).0 == db.jobs_without_search(after)[k],
        db.add_job_search_rows(rows) == Some(next),
    ensures
        indexed_upto(next, db.jobs_without_search(after).last()),
{
    let page = db.jobs_without_search(after);
    let keep = unindexed_filter(after);
    let picked = matching(db.jobs, keep, PAGE_SIZE as int);
    lemma_search_rows_grow(db, rows);
    lemma_search_rows_indexed(db, rows);
    assert forall|i: int|
        0 <= i < next.jobs.len() && (#[trigger] next.jobs[i]).search_id is None && next.jobs[i].id.len()
            > 0 implies key_lt((page.last(), Seq::empty()), JobRecord::key_of(next.jobs[i])) by {
        assert(indexed_job(db.jobs[i], next.jobs[i], next.search_index));
        assert(db.jobs[i].search_id is None);
        crate::text::lemma_str_lt_irreflexive(after);
        crate::text::lemma_str_lt_irreflexive(Seq::<char>::empty());
        assert(keep(db.jobs[i]));
        let at = lemma_matching_complete::<JobRecord>(db.jobs, keep, PAGE_SIZE as int, i);
        if 0 <= at < picked.len() {
            assert(page[at] == db.jobs[i].id);
            assert(rows[at].0 == next.jobs[i].id);
        } else {
            assert(page.last() == picked.last().id);
        }
    }
}

/// Every job has an index row, but for a job without an identifier.
pub open spec fn all_indexed(db: DatabaseView) -> bool {
    forall|i: int| 0 <= i < db.jobs.len() && (#[trigger] db.jobs[i]).id.len() > 0 ==> db.jobs[i].search_id is Some
}

/// The cycle aggregates as the store's own stage does: on a page of files
/// without a job it asks for what the page amounts to to be written, and
/// then for the page after the last file; on an empty page it goes on to
/// the statistics; and where a page fails, it ends there.
pub proof fn law_cycle_aggregates(db: DatabaseView, after: Key)
    ensures
        ({
            let rows = db.files_without_job_id(after);
            let asked = step_of(PhaseView::SelectingFiles, EventView::FileRows { rows });
            let writing = PhaseView::WritingJobs { last_id: rows.last().0, last_filename: rows.last().1 };
            if rows.len() == 0 {
                &&& asked == (PhaseView::RecomputingStats, ActionView::RecomputeStats)
                &&& db.aggregate_from(after) == (db, true)
            } else if !fits(aggregate(rows)) {
                &&& asked == wind_up()
                &&& db.aggregate_from(after) == (db, false)
            } else {
                &&& asked == (writing, ActionView::WriteJobs { jobs: aggregate(rows), assigned: assignments(rows) })
                &&& match db.update_jobs(aggregate(rows), assignments(rows)) {
                    Some(next) => {
                        &&& db.aggregate_from(after) == next.aggregate_from(last_key(rows))
                        &&& step_of(writing, EventView::Done) == (
                            PhaseView::SelectingFiles,
                            ActionView::SelectFiles { after_id: last_key(rows).0, after_filename: last_key(rows).1 },
                        )
                    },
                    None => {
                        &&& db.aggregate_from(after) == (db, false)
                        &&& step_of(writing, EventView::Failed) == wind_up()
                    },
                }
            }
        }),
{
}

/// Aggregation leaves the items, the statistics, the search index and
/// the watermark as they are.
pub proof fn lemma_aggregation_keeps_rest(db: DatabaseView, after: Key)
    ensures
        db.aggregate_from(after).0.items == db.items,
        db.aggregate_from(after).0.daily_stats == db.daily_stats,
        db.aggregate_from(after).0.search_index == db.search_index,
        db.aggregate_from(after).0.last_update == db.last_update,
    decreases rows_after::<FileRecord>(db.files, after),
{
    let page = db.files_without_job_id(after);
    if page.len() > 0 && fits(aggregate(page)) {
        match db.update_jobs(aggregate(page), assignments(page)) {
            Some(next) => {
                lemma_page_advances(db, after);
                lemma_aggregation_keeps_rest(next, last_key(page));
            },
            None => {},
        }
    }
}

} // verus!
