//! What indexing makes of the store: every job that had no row of the
//! search index gets one of its own, and nothing else changes.

use vstd::prelude::*;
use crate::counters::lemma_matching_ascends;
use crate::idgen::{advance, law_successive_rows_differ, lemma_advance_sum, made_with};
use crate::model::{has_row, indexed, job_of, matching, unindexed_filter, DatabaseView, PAGE_SIZE};
use crate::records::{JobRecord, JobView, SearchEntryView};
use crate::stages::{lemma_matching_member, lemma_search_row_grows, rows_after};
use crate::table::{
    ascending, key_lt, keys_of, lemma_change_by_key, lemma_find_row_at, lemma_find_row_some, lemma_key_lt_irreflexive,
    lemma_key_lt_transitive, lemma_key_once, lemma_place, lemma_place_exists, place, Key, Keyed,
};

verus! {

/// The jobs that `rows` names are jobs of the store without an index row,
/// each named once.
pub open spec fn names_unindexed(jobs: Seq<JobView>, rows: Seq<(Seq<char>, i64)>) -> bool {
    &&& forall|a: int, b: int| 0 <= a < b < rows.len() ==> (#[trigger] rows[a]).0 != (#[trigger] rows[b]).0
    &&& forall|a: int|
        0 <= a < rows.len() ==> job_of(jobs, (#[trigger] rows[a]).0) is Some && job_of(jobs, rows[a].0)->0.search_id
            is None
}

/// The row numbers of `rows` are free: the index holds none of them, and
/// none stands twice among them.
pub open spec fn numbers_free(index: Seq<SearchEntryView>, rows: Seq<(Seq<char>, i64)>) -> bool {
    &&& forall|a: int| 0 <= a < rows.len() ==> !has_row(index, (#[trigger] rows[a]).1)
    &&& forall|a: int, b: int| 0 <= a < b < rows.len() ==> (#[trigger] rows[a]).1 != (#[trigger] rows[b]).1
}

/// The index rows that `rows` adds: for each job its row number with the
/// job's domain and address.
pub open spec fn entries_of(jobs: Seq<JobView>, rows: Seq<(Seq<char>, i64)>) -> Seq<SearchEntryView> {
    Seq::new(
        rows.len(),
        |a: int|
            SearchEntryView {
                rowid: rows[a].1,
                domain: job_of(jobs, rows[a].0)->0.domain,
                url: job_of(jobs, rows[a].0)->0.url,
            },
    )
}

/// What `rows` makes of a job: the job that they name takes its row
/// number, every other job stays as it is.
pub open spec fn job_numbered(before: JobView, after: JobView, rows: Seq<(Seq<char>, i64)>) -> bool {
    &&& after == JobView { search_id: after.search_id, ..before }
    &&& forall|a: int| 0 <= a < rows.len() && (#[trigger] rows[a]).0 == before.id ==> after.search_id == Some(rows[a].1)
    &&& (forall|a: int| 0 <= a < rows.len() ==> (#[trigger] rows[a]).0 != before.id) ==> after == before
}

/// What a page of rows makes of the store: the jobs take their row
/// numbers, and the index takes their entries at its end.
pub open spec fn page_indexed(db: DatabaseView, rows: Seq<(Seq<char>, i64)>, v: DatabaseView) -> bool {
    &&& v.items == db.items
    &&& v.files == db.files
    &&& v.daily_stats == db.daily_stats
    &&& v.last_update == db.last_update
    &&& v.jobs.len() == db.jobs.len()
    &&& forall|i: int| 0 <= i < db.jobs.len() ==> job_numbered(#[trigger] db.jobs[i], v.jobs[i], rows)
    &&& v.search_index == db.search_index + entries_of(db.jobs, rows)
}

/// Free numbers stay free when the last row is left out.
proof fn lemma_numbers_free_head(index: Seq<SearchEntryView>, rows: Seq<(Seq<char>, i64)>)
    requires
        rows.len() > 0,
        numbers_free(index, rows),
    ensures
        numbers_free(index, rows.drop_last()),
{
    let head = rows.drop_last();
    assert forall|a: int| 0 <= a < head.len() implies !has_row(index, (#[trigger] head[a]).1) by {
        assert(head[a] == rows[a]);
    }
    assert forall|a: int, b: int| 0 <= a < b < head.len() implies (#[trigger] head[a]).1 != (#[trigger] head[b]).1 by {
        assert(head[a] == rows[a] && head[b] == rows[b]);
    }
}

/// Rows that name jobs without an index row, each once, are written where
/// their numbers are free, and only there; written, they give every job
/// its number and the index one entry for each.
pub proof fn lemma_page_indexed(db: DatabaseView, rows: Seq<(Seq<char>, i64)>)
    requires
        db.wf(),
        names_unindexed(db.jobs, rows),
    ensures
        match db.add_job_search_rows(rows) {
            Some(v) => page_indexed(db, rows, v) && v.wf() && numbers_free(db.search_index, rows),
            None => !numbers_free(db.search_index, rows),
        },
    decreases rows.len(),
{
    if rows.len() == 0 {
        assert(db.search_index + entries_of(db.jobs, rows) =~= db.search_index);
    } else {
        let head = rows.drop_last();
        let last = rows.len() - 1;
        let id = rows[last].0;
        let row = rows[last].1;
        assert forall|a: int, b: int| 0 <= a < b < head.len() implies (#[trigger] head[a]).0 != (#[trigger] head[b]).0 by {
            assert(head[a] == rows[a] && head[b] == rows[b]);
        }
        assert forall|a: int| 0 <= a < head.len() implies job_of(db.jobs, (#[trigger] head[a]).0) is Some && job_of(
            db.jobs,
            head[a].0,
        )->0.search_id is None by {
            assert(head[a] == rows[a]);
        }
        lemma_page_indexed(db, head);
        if numbers_free(db.search_index, rows) {
            lemma_numbers_free_head(db.search_index, rows);
        }
        match db.add_job_search_rows(head) {
            Some(before) => {
                let key = (id, Seq::<char>::empty());
                assert(job_of(db.jobs, rows[last].0) is Some);
                lemma_find_row_some::<JobRecord>(db.jobs, key);
                let p = place(keys_of::<JobRecord>(db.jobs), key);
                assert(job_numbered(db.jobs[p], before.jobs[p], head));
                assert forall|a: int| 0 <= a < head.len() implies (#[trigger] head[a]).0 != id by {
                    assert(head[a] == rows[a]);
                }
                assert(before.jobs[p] == db.jobs[p]);
                assert(keys_of::<JobRecord>(before.jobs) =~= keys_of::<JobRecord>(db.jobs)) by {
                    assert forall|i: int| 0 <= i < db.jobs.len() implies JobRecord::key_of(before.jobs[i])
                        == JobRecord::key_of(db.jobs[i]) by {
                        assert(job_numbered(db.jobs[i], before.jobs[i], head));
                    }
                }
                lemma_find_row_at::<JobRecord>(before.jobs, p);
                assert(job_of(before.jobs, id) == Some(db.jobs[p]));
                let n = db.search_index.len() as int;
                if has_row(before.search_index, row) {
                    let k = choose|k: int| 0 <= k < before.search_index.len() && (#[trigger] before.search_index[k]).rowid == row;
                    if k < n {
                        assert(db.search_index[k].rowid == row);
                    } else {
                        assert(entries_of(db.jobs, head)[k - n].rowid == head[k - n].1);
                        assert(head[k - n] == rows[k - n]);
                    }
                } else {
                    let v = before.add_job_search_row(id, row)->0;
                    lemma_search_row_grows(before, id, row);
                    let pp = lemma_place_exists(keys_of::<JobRecord>(before.jobs), key);
                    lemma_place(keys_of::<JobRecord>(before.jobs), key, pp);
                    lemma_change_by_key::<JobRecord>(before.jobs, key, p, indexed(id, row));
                    assert forall|i: int| 0 <= i < db.jobs.len() implies job_numbered(
                        #[trigger] db.jobs[i],
                        v.jobs[i],
                        rows,
                    ) by {
                        assert(job_numbered(db.jobs[i], before.jobs[i], head));
                        if i == p {
                            assert forall|a: int| 0 <= a < rows.len() && (#[trigger] rows[a]).0 == db.jobs[i].id implies v.jobs[i].search_id
                                == Some(rows[a].1) by {
                                if a < last {
                                    assert(head[a] == rows[a]);
                                }
                            }
                            assert(rows[last].0 == db.jobs[i].id);
                        } else {
                            assert(v.jobs[i] == before.jobs[i]);
                            assert forall|a: int| 0 <= a < rows.len() && (#[trigger] rows[a]).0 == db.jobs[i].id implies v.jobs[i].search_id
                                == Some(rows[a].1) by {
                                if a < last {
                                    assert(head[a] == rows[a]);
                                } else {
                                    lemma_key_once::<JobRecord>(db.jobs, i, p);
                                }
                            }
                            if forall|a: int| 0 <= a < rows.len() ==> (#[trigger] rows[a]).0 != db.jobs[i].id {
                                assert forall|a: int| 0 <= a < head.len() implies (#[trigger] head[a]).0 != db.jobs[i].id by {
                                    assert(head[a] == rows[a]);
                                }
                            }
                        }
                    }
                    assert(v.search_index =~= db.search_index + entries_of(db.jobs, rows)) by {
                        assert(before.search_index == db.search_index + entries_of(db.jobs, head));
                        assert forall|a: int| 0 <= a < head.len() implies entries_of(db.jobs, head)[a] == entries_of(
                            db.jobs,
                            rows,
                        )[a] by {
                            assert(head[a] == rows[a]);
                        }
                    }
                    assert forall|a: int| 0 <= a < rows.len() implies !has_row(db.search_index, (#[trigger] rows[a]).1) by {
                        if a < last {
                            assert(head[a] == rows[a]);
                        } else if has_row(db.search_index, row) {
                            let k = choose|k: int| 0 <= k < n && (#[trigger] db.search_index[k]).rowid == row;
                            assert(before.search_index[k].rowid == row);
                        }
                    }
                    assert forall|a: int, b: int| 0 <= a < b < rows.len() implies (#[trigger] rows[a]).1 != (
                    #[trigger] rows[b]).1 by {
                        if b < last {
                            assert(head[a] == rows[a] && head[b] == rows[b]);
                        } else if rows[a].1 == row {
                            assert(head[a] == rows[a]);
                            assert(before.search_index[n + a].rowid == row);
                        }
                    }
                }
            },
            None => {},
        }
    }
}

/// The job is as it was, but that it may have taken an index row where it
/// had none; a row that it had it keeps.
pub open spec fn kept_job(before: JobView, after: JobView) -> bool {
    &&& after == JobView { search_id: after.search_id, ..before }
    &&& before.search_id is Some ==> after.search_id == before.search_id
}

/// The job took an index row where it had none.
pub open spec fn newly_indexed(before: JobView, after: JobView) -> bool {
    before.search_id is None && after.search_id is Some
}

/// The index row of a job that took one: its row number, with the domain
/// and the address that the job had.
pub open spec fn entry_for(before: JobView, after: JobView) -> SearchEntryView {
    SearchEntryView { rowid: after.search_id->0, domain: before.domain, url: before.url }
}

/// The index row at position `k` is the row of a job that took one.
pub open spec fn row_has_job(before: DatabaseView, after: DatabaseView, k: int) -> bool {
    exists|i: int|
        0 <= i < before.jobs.len() && newly_indexed(before.jobs[i], after.jobs[i]) && #[trigger] entry_for(
            before.jobs[i],
            after.jobs[i],
        ) == after.search_index[k]
}

/// The job at position `i` has its row among the rows that the index
/// took.
pub open spec fn job_has_row(before: DatabaseView, after: DatabaseView, i: int) -> bool {
    exists|k: int|
        before.search_index.len() <= k < after.search_index.len() && #[trigger] after.search_index[k] == entry_for(
            before.jobs[i],
            after.jobs[i],
        )
}

/// No two jobs that took an index row took the same.
pub open spec fn rows_apart(before: DatabaseView, after: DatabaseView) -> bool {
    forall|i: int, j: int|
        0 <= i < j < before.jobs.len() && newly_indexed(#[trigger] before.jobs[i], after.jobs[i]) && newly_indexed(
            #[trigger] before.jobs[j],
            after.jobs[j],
        ) ==> after.jobs[i].search_id != after.jobs[j].search_id
}

/// What indexing makes of a store. Items, files, statistics and the
/// watermark stay. Every job stays as it was, with its counters, domain
/// and address, and keeps the index row that it had. The index keeps its
/// rows and takes new ones at its end: one for each job that took a row,
/// holding that job's domain and address under the job's row number, and
/// no others; no two jobs took the same row number.
pub open spec fn indexed_more(before: DatabaseView, after: DatabaseView) -> bool {
    &&& after.items == before.items
    &&& after.files == before.files
    &&& after.daily_stats == before.daily_stats
    &&& after.last_update == before.last_update
    &&& after.jobs.len() == before.jobs.len()
    &&& forall|i: int| 0 <= i < before.jobs.len() ==> kept_job(#[trigger] before.jobs[i], after.jobs[i])
    &&& before.search_index.is_prefix_of(after.search_index)
    &&& forall|k: int|
        before.search_index.len() <= k < after.search_index.len() ==> #[trigger] row_has_job(before, after, k)
    &&& forall|i: int|
        0 <= i < before.jobs.len() && newly_indexed(before.jobs[i], after.jobs[i]) ==> #[trigger] job_has_row(
            before,
            after,
            i,
        )
    &&& rows_apart(before, after)
}

/// Indexing nothing is indexing.
pub proof fn lemma_indexed_more_same(db: DatabaseView)
    ensures
        indexed_more(db, db),
{
    assert(db.search_index.is_prefix_of(db.search_index));
}

/// A page of rows written is indexing.
pub proof fn lemma_page_more(db: DatabaseView, rows: Seq<(Seq<char>, i64)>, v: DatabaseView)
    requires
        db.wf(),
        names_unindexed(db.jobs, rows),
        numbers_free(db.search_index, rows),
        page_indexed(db, rows, v),
    ensures
        indexed_more(db, v),
{
    let n = db.search_index.len() as int;
    assert(db.search_index =~= v.search_index.subrange(0, n));
    assert forall|i: int| 0 <= i < db.jobs.len() implies kept_job(#[trigger] db.jobs[i], v.jobs[i]) by {
        assert(job_numbered(db.jobs[i], v.jobs[i], rows));
        if db.jobs[i].search_id is Some {
            assert forall|a: int| 0 <= a < rows.len() implies (#[trigger] rows[a]).0 != db.jobs[i].id by {
                if rows[a].0 == db.jobs[i].id {
                    lemma_find_row_at::<JobRecord>(db.jobs, i);
                }
            }
        }
    }
    assert forall|k: int| n <= k < v.search_index.len() implies #[trigger] row_has_job(db, v, k) by {
        let a = k - n;
        let key = (rows[a].0, Seq::<char>::empty());
        assert(job_of(db.jobs, rows[a].0) is Some);
        lemma_find_row_some::<JobRecord>(db.jobs, key);
        let p = place(keys_of::<JobRecord>(db.jobs), key);
        assert(job_numbered(db.jobs[p], v.jobs[p], rows));
        assert(v.search_index[k] == entries_of(db.jobs, rows)[a]);
        assert(entry_for(db.jobs[p], v.jobs[p]) == v.search_index[k]);
    }
    assert forall|i: int| 0 <= i < db.jobs.len() && newly_indexed(db.jobs[i], v.jobs[i]) implies #[trigger] job_has_row(
        db,
        v,
        i,
    ) by {
        assert(job_numbered(db.jobs[i], v.jobs[i], rows));
        let a = choose|a: int| 0 <= a < rows.len() && (#[trigger] rows[a]).0 == db.jobs[i].id;
        lemma_find_row_at::<JobRecord>(db.jobs, i);
        assert(v.search_index[n + a] == entries_of(db.jobs, rows)[a]);
        assert(v.search_index[n + a] == entry_for(db.jobs[i], v.jobs[i]));
    }
    assert forall|i: int, j: int|
        0 <= i < j < db.jobs.len() && newly_indexed(#[trigger] db.jobs[i], v.jobs[i]) && newly_indexed(
            #[trigger] db.jobs[j],
            v.jobs[j],
        ) implies v.jobs[i].search_id != v.jobs[j].search_id by {
        assert(job_numbered(db.jobs[i], v.jobs[i], rows));
        assert(job_numbered(db.jobs[j], v.jobs[j], rows));
        let a = choose|a: int| 0 <= a < rows.len() && (#[trigger] rows[a]).0 == db.jobs[i].id;
        let b = choose|b: int| 0 <= b < rows.len() && (#[trigger] rows[b]).0 == db.jobs[j].id;
        if db.jobs[i].id == db.jobs[j].id {
            lemma_key_once::<JobRecord>(db.jobs, i, j);
        }
        if a < b {
            assert(rows[a].1 != rows[b].1);
        } else {
            assert(rows[b].1 != rows[a].1);
        }
    }
}

/// Indexing after indexing is indexing.
pub proof fn lemma_indexed_more_on(a: DatabaseView, b: DatabaseView, c: DatabaseView)
    requires
        indexed_more(a, b),
        indexed_more(b, c),
        c.wf(),
    ensures
        indexed_more(a, c),
{
    let la = a.search_index.len() as int;
    let lb = b.search_index.len() as int;
    assert(a.search_index =~= c.search_index.subrange(0, la)) by {
        assert(a.search_index == b.search_index.subrange(0, la));
        assert(b.search_index == c.search_index.subrange(0, lb));
    }
    assert forall|i: int| 0 <= i < a.jobs.len() implies kept_job(#[trigger] a.jobs[i], c.jobs[i]) by {
        assert(kept_job(a.jobs[i], b.jobs[i]));
        assert(kept_job(b.jobs[i], c.jobs[i]));
    }
    assert forall|k: int| la <= k < c.search_index.len() implies #[trigger] row_has_job(a, c, k) by {
        if k < lb {
            assert(row_has_job(a, b, k));
            let i = choose|i: int|
                0 <= i < a.jobs.len() && newly_indexed(a.jobs[i], b.jobs[i]) && #[trigger] entry_for(
                    a.jobs[i],
                    b.jobs[i],
                ) == b.search_index[k];
            assert(kept_job(b.jobs[i], c.jobs[i]));
            assert(c.search_index[k] == b.search_index[k]);
            assert(entry_for(a.jobs[i], c.jobs[i]) == c.search_index[k]);
        } else {
            assert(row_has_job(b, c, k));
            let i = choose|i: int|
                0 <= i < b.jobs.len() && newly_indexed(b.jobs[i], c.jobs[i]) && #[trigger] entry_for(
                    b.jobs[i],
                    c.jobs[i],
                ) == c.search_index[k];
            assert(kept_job(a.jobs[i], b.jobs[i]));
            assert(entry_for(a.jobs[i], c.jobs[i]) == c.search_index[k]);
        }
    }
    assert forall|i: int| 0 <= i < a.jobs.len() && newly_indexed(a.jobs[i], c.jobs[i]) implies #[trigger] job_has_row(
        a,
        c,
        i,
    ) by {
        lemma_row_of(a, b, c, i);
    }
    assert forall|i: int, j: int|
        0 <= i < j < a.jobs.len() && newly_indexed(#[trigger] a.jobs[i], c.jobs[i]) && newly_indexed(
            #[trigger] a.jobs[j],
            c.jobs[j],
        ) implies c.jobs[i].search_id != c.jobs[j].search_id by {
        assert(kept_job(a.jobs[i], b.jobs[i]) && kept_job(b.jobs[i], c.jobs[i]));
        assert(kept_job(a.jobs[j], b.jobs[j]) && kept_job(b.jobs[j], c.jobs[j]));
        if c.jobs[i].search_id == c.jobs[j].search_id {
            let ki = lemma_row_of(a, b, c, i);
            let kj = lemma_row_of(a, b, c, j);
            if b.jobs[i].search_id is Some && b.jobs[j].search_id is Some {
                assert(b.jobs[i].search_id != b.jobs[j].search_id);
            } else if b.jobs[i].search_id is None && b.jobs[j].search_id is None {
                assert(c.jobs[i].search_id != c.jobs[j].search_id);
            } else {
                assert(ki != kj);
                if ki < kj {
                    assert(c.search_index[ki].rowid != c.search_index[kj].rowid);
                } else {
                    assert(c.search_index[kj].rowid != c.search_index[ki].rowid);
                }
            }
        }
    }
}

/// The row of a job that took one in two rounds of indexing: among the
/// rows of the first round where it took it there, else of the second.
proof fn lemma_row_of(a: DatabaseView, b: DatabaseView, c: DatabaseView, i: int) -> (k: int)
    requires
        indexed_more(a, b),
        indexed_more(b, c),
        0 <= i < a.jobs.len(),
        newly_indexed(a.jobs[i], c.jobs[i]),
    ensures
        a.search_index.len() <= k < c.search_index.len(),
        c.search_index[k] == entry_for(a.jobs[i], c.jobs[i]),
        (b.jobs[i].search_id is Some) == (k < b.search_index.len()),
        job_has_row(a, c, i),
{
    let lb = b.search_index.len() as int;
    assert(kept_job(a.jobs[i], b.jobs[i]));
    assert(kept_job(b.jobs[i], c.jobs[i]));
    assert(b.search_index == c.search_index.subrange(0, lb));
    if b.jobs[i].search_id is Some {
        assert(job_has_row(a, b, i));
        let k = choose|k: int|
            a.search_index.len() <= k < b.search_index.len() && #[trigger] b.search_index[k] == entry_for(
                a.jobs[i],
                b.jobs[i],
            );
        assert(c.search_index[k] == b.search_index[k]);
        assert(c.search_index[k] == entry_for(a.jobs[i], c.jobs[i]));
        k
    } else {
        assert(job_has_row(b, c, i));
        let k = choose|k: int|
            b.search_index.len() <= k < c.search_index.len() && #[trigger] c.search_index[k] == entry_for(
                b.jobs[i],
                c.jobs[i],
            );
        assert(a.search_index.len() <= lb);
        assert(c.search_index[k] == entry_for(a.jobs[i], c.jobs[i]));
        k
    }
}

/// The rows name the jobs `ids`, one after the other, with row numbers
/// made one after the other from `counter` on.
pub open spec fn rows_drawn(ids: Seq<Seq<char>>, counter: u16, rows: Seq<(Seq<char>, i64)>) -> bool {
    &&& rows.len() == ids.len()
    &&& forall|a: int|
        0 <= a < rows.len() ==> (#[trigger] rows[a]).0 == ids[a] && made_with(rows[a].1, advance(counter, a as nat))
}

/// A page of jobs without an index row names such jobs, each once.
pub proof fn lemma_page_names(db: DatabaseView, after: Seq<char>, rows: Seq<(Seq<char>, i64)>)
    requires
        db.wf(),
        rows.len() == db.jobs_without_search(after).len(),
        forall|a: int| 0 <= a < rows.len() ==> (#[trigger] rows[a]).0 == db.jobs_without_search(after)[a],
    ensures
        names_unindexed(db.jobs, rows),
{
    let keep = unindexed_filter(after);
    let picked = matching(db.jobs, keep, PAGE_SIZE as int);
    lemma_matching_ascends::<JobRecord>(db.jobs, keep, PAGE_SIZE as int);
    assert forall|a: int, b: int| 0 <= a < b < rows.len() implies (#[trigger] rows[a]).0 != (#[trigger] rows[b]).0 by {
        assert(key_lt(keys_of::<JobRecord>(picked)[a], keys_of::<JobRecord>(picked)[b]));
        lemma_key_lt_irreflexive(keys_of::<JobRecord>(picked)[a]);
    }
    assert forall|a: int| 0 <= a < rows.len() implies job_of(db.jobs, (#[trigger] rows[a]).0) is Some && job_of(
        db.jobs,
        rows[a].0,
    )->0.search_id is None by {
        let j = lemma_matching_member(db.jobs, keep, PAGE_SIZE as int, a);
        lemma_find_row_at::<JobRecord>(db.jobs, j);
    }
}

/// No row comes after a key that none of the rows comes after.
proof fn lemma_rows_after_none<R: Keyed>(rows: Seq<R::V>, k: Key)
    requires
        forall|i: int| 0 <= i < rows.len() ==> !key_lt(k, R::key_of(#[trigger] rows[i])),
    ensures
        rows_after::<R>(rows, k) == 0,
    decreases rows.len(),
{
    if rows.len() > 0 {
        assert forall|i: int| 0 <= i < rows.drop_last().len() implies !key_lt(
            k,
            R::key_of(#[trigger] rows.drop_last()[i]),
        ) by {
            assert(rows.drop_last()[i] == rows[i]);
        }
        lemma_rows_after_none::<R>(rows.drop_last(), k);
        assert(!key_lt(k, R::key_of(rows[rows.len() - 1])));
    }
}

/// No more rows come after a key than there are.
pub proof fn lemma_rows_after_bound<R: Keyed>(rows: Seq<R::V>, k: Key)
    ensures
        rows_after::<R>(rows, k) <= rows.len(),
    decreases rows.len(),
{
    if rows.len() > 0 {
        lemma_rows_after_bound::<R>(rows.drop_last(), k);
    }
}

/// A page is no longer than the rows between the key it was read from and
/// the key of its last row: the rows of a page and the rows after it are
/// no more than the rows after the key it was read from.
pub proof fn lemma_page_counts<R: Keyed>(rows: Seq<R::V>, keep: spec_fn(R::V) -> bool, limit: int, after: Key)
    requires
        ascending(keys_of::<R>(rows)),
        forall|v: R::V| #[trigger] keep(v) ==> key_lt(after, R::key_of(v)),
    ensures
        ({
            let page = matching(rows, keep, limit);
            page.len() <= rows_after::<R>(rows, after) && (page.len() > 0 ==> page.len() + rows_after::<R>(
                rows,
                R::key_of(page.last()),
            ) <= rows_after::<R>(rows, after))
        }),
    decreases rows.len(),
{
    if rows.len() > 0 {
        let head = rows.drop_last();
        let x = rows.last();
        let before = matching(head, keep, limit);
        let page = matching(rows, keep, limit);
        assert forall|a: int, b: int| 0 <= a < b < head.len() implies key_lt(
            #[trigger] keys_of::<R>(head)[a],
            #[trigger] keys_of::<R>(head)[b],
        ) by {
            assert(keys_of::<R>(rows)[a] == keys_of::<R>(head)[a]);
            assert(keys_of::<R>(rows)[b] == keys_of::<R>(head)[b]);
        }
        lemma_page_counts::<R>(head, keep, limit, after);
        assert forall|i: int| 0 <= i < head.len() implies key_lt(R::key_of(#[trigger] head[i]), R::key_of(x)) by {
            assert(keys_of::<R>(rows)[i] == R::key_of(head[i]));
            assert(keys_of::<R>(rows)[rows.len() - 1] == R::key_of(x));
        }
        if keep(x) && before.len() < limit {
            // The last row is the last of the page: no row comes after it.
            assert forall|i: int| 0 <= i < head.len() implies !key_lt(R::key_of(x), R::key_of(#[trigger] head[i])) by {
                if key_lt(R::key_of(x), R::key_of(head[i])) {
                    lemma_key_lt_transitive(R::key_of(x), R::key_of(head[i]), R::key_of(x));
                    lemma_key_lt_irreflexive(R::key_of(x));
                }
            }
            lemma_rows_after_none::<R>(head, R::key_of(x));
            lemma_key_lt_irreflexive(R::key_of(x));
            assert(page.last() == x);
        } else if page.len() > 0 {
            let m = lemma_matching_member(head, keep, limit, before.len() - 1);
            let last = R::key_of(before.last());
            assert(key_lt(after, last));
            assert(key_lt(last, R::key_of(x)));
            lemma_key_lt_transitive(after, last, R::key_of(x));
        }
    }
}

/// The rows of the index were made one after the other from `counter` on.
pub open spec fn made_in_order(index: Seq<SearchEntryView>, counter: u16) -> bool {
    forall|k: int| 0 <= k < index.len() ==> made_with((#[trigger] index[k]).rowid, advance(counter, k as nat))
}

/// Rows that go on where the rows of the index end, fewer than 65536 with
/// them, have free numbers.
pub proof fn lemma_numbers_go_on(
    index: Seq<SearchEntryView>,
    counter: u16,
    ids: Seq<Seq<char>>,
    rows: Seq<(Seq<char>, i64)>,
)
    requires
        made_in_order(index, counter),
        rows_drawn(ids, advance(counter, index.len()), rows),
        index.len() + rows.len() <= 0x1_0000,
    ensures
        numbers_free(index, rows),
{
    let n = index.len();
    assert forall|a: int| 0 <= a < rows.len() implies made_with(
        (#[trigger] rows[a]).1,
        advance(counter, (n + a) as nat),
    ) by {
        lemma_advance_sum(counter, n, a as nat);
    }
    assert forall|a: int| 0 <= a < rows.len() implies !has_row(index, (#[trigger] rows[a]).1) by {
        if has_row(index, rows[a].1) {
            let k = choose|k: int| 0 <= k < index.len() && (#[trigger] index[k]).rowid == rows[a].1;
            law_successive_rows_differ(counter, k as nat, (n + a) as nat, index[k].rowid, rows[a].1);
        }
    }
    assert forall|a: int, b: int| 0 <= a < b < rows.len() implies (#[trigger] rows[a]).1 != (#[trigger] rows[b]).1 by {
        law_successive_rows_differ(counter, (n + a) as nat, (n + b) as nat, rows[a].1, rows[b].1);
    }
}

/// The jobs `ids` were given row numbers made one after the other from
/// `counter` on: all of them, which made `after` of `before`, or, where a
/// number was not free, none of them.
pub open spec fn indexed_with(
    before: DatabaseView,
    ids: Seq<Seq<char>>,
    counter: u16,
    after: DatabaseView,
    done: bool,
) -> bool {
    exists|rows: Seq<(Seq<char>, i64)>|
        #[trigger] rows_drawn(ids, counter, rows) && match before.add_job_search_rows(rows) {
            Some(v) => done && after == v,
            None => !done && after == before,
        }
}

/// The counter moved on from `from` to `to` by `least` row numbers or
/// more.
pub open spec fn moved_on(from: u16, to: u16, least: int) -> bool {
    exists|n: nat| n >= least && to == #[trigger] advance(from, n)
}

/// The most jobs that are sure to get different row numbers whatever the
/// clock shows: as many as there are counters.
pub const COUNTERS: usize = 0x1_0000;

/// One of `rows` has the row number `n`.
pub open spec fn names_number(rows: Seq<(Seq<char>, i64)>, n: i64) -> bool {
    exists|a: int| 0 <= a < rows.len() && (#[trigger] rows[a]).1 == n
}

/// The row numbers of `index` are among those of `before` and of `rows`.
pub open spec fn numbers_from(
    index: Seq<SearchEntryView>,
    before: Seq<SearchEntryView>,
    rows: Seq<(Seq<char>, i64)>,
) -> bool {
    forall|k: int|
        0 <= k < index.len() ==> has_row(before, (#[trigger] index[k]).rowid) || names_number(
            rows,
            index[k].rowid,
        )
}

/// Rows with free numbers are written, whatever jobs they name; the index
/// then holds no numbers but those it held and theirs.
pub proof fn lemma_free_rows_written(db: DatabaseView, rows: Seq<(Seq<char>, i64)>)
    requires
        numbers_free(db.search_index, rows),
    ensures
        db.add_job_search_rows(rows) is Some,
        numbers_from(db.add_job_search_rows(rows)->0.search_index, db.search_index, rows),
    decreases rows.len(),
{
    if rows.len() == 0 {
        assert forall|k: int| 0 <= k < db.search_index.len() implies has_row(
            db.search_index,
            (#[trigger] db.search_index[k]).rowid,
        ) by {}
    } else {
        let head = rows.drop_last();
        let last = rows.len() - 1;
        lemma_numbers_free_head(db.search_index, rows);
        lemma_free_rows_written(db, head);
        let mid = db.add_job_search_rows(head)->0;
        let n = rows[last].1;
        if has_row(mid.search_index, n) {
            let k = choose|k: int| 0 <= k < mid.search_index.len() && (#[trigger] mid.search_index[k]).rowid == n;
            assert(has_row(db.search_index, mid.search_index[k].rowid) || names_number(head, mid.search_index[k].rowid));
            if names_number(head, n) {
                let a = choose|a: int| 0 <= a < head.len() && (#[trigger] head[a]).1 == n;
                assert(head[a] == rows[a]);
                assert(rows[a].1 != rows[last].1);
            }
        }
        let after = mid.add_job_search_row(rows[last].0, n)->0;
        assert forall|k: int| 0 <= k < after.search_index.len() implies has_row(
            db.search_index,
            (#[trigger] after.search_index[k]).rowid,
        ) || names_number(rows, after.search_index[k].rowid) by {
            if k < mid.search_index.len() {
                assert(after.search_index[k] == mid.search_index[k]);
                let m = mid.search_index[k].rowid;
                if names_number(head, m) {
                    let a = choose|a: int| 0 <= a < head.len() && (#[trigger] head[a]).1 == m;
                    assert(rows[a] == head[a]);
                }
            } else {
                assert(rows[last].1 == n);
            }
        }
    }
}

/// Rows drawn for an empty index, no more than there are counters, are
/// written.
pub proof fn lemma_first_rows_written(
    db: DatabaseView,
    ids: Seq<Seq<char>>,
    counter: u16,
    rows: Seq<(Seq<char>, i64)>,
)
    requires
        db.search_index.len() == 0,
        rows_drawn(ids, counter, rows),
        ids.len() <= COUNTERS,
    ensures
        db.add_job_search_rows(rows) is Some,
{
    assert(advance(counter, 0) == counter) by {
        crate::idgen::lemma_advance_value(counter, 0);
    }
    lemma_numbers_go_on(db.search_index, counter, ids, rows);
    lemma_free_rows_written(db, rows);
}

} // verus!
