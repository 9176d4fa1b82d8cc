//! What holds of the store and its stages whatever they are run on:
//! storing again what is stored changes nothing, aggregation takes up
//! every file once, and recomputing the statistics over the same data
//! leaves them as they are.

use vstd::prelude::*;
use crate::filename::parsed;
use crate::ia::ItemInfoView;
use crate::counters::{job_kept, lemma_jobs_updated};
use crate::jobs::{aggregate, assignments, fits, job_id_of};

use crate::model::{
    assign, bytes_of_day, days_ascend, file_columns, files_assigned, jobless_filter, jobs_updated,
    lemma_stats_place, matching, new_files, new_items, stat_put, stats_place, DatabaseView, PAGE_SIZE,
    STATS_BATCH,
};
use crate::records::{DailyStat, FileRecord, FileView, ItemRecord};
use crate::stages::{
    last_key, lemma_matching_complete, lemma_matching_member, lemma_matching_none, lemma_page_advances,
    rows_after,
};
use crate::table::{ascending, key_lt, keys_of, lemma_with_rows, lemma_with_rows_twice, Key, Keyed};
use crate::stages::lemma_assigned_keys;
use crate::table::lemma_empty_is_first;
use crate::time::Timestamp;

verus! {

/// Storing catalog entries keeps every identifier once, and storing the
/// same entries again changes nothing.
pub proof fn law_storing_items_twice(db: DatabaseView, infos: Seq<ItemInfoView>)
    requires
        db.wf(),
    ensures
        db.add_ia_items(infos).wf(),
        db.add_ia_items(infos).add_ia_items(infos) == db.add_ia_items(infos),
{
    lemma_with_rows::<ItemRecord>(db.items, new_items(infos));
    lemma_with_rows_twice::<ItemRecord>(db.items, new_items(infos));
}

/// Storing an item's files keeps every file once, and storing the same
/// files again changes nothing.
pub proof fn law_storing_files_twice(db: DatabaseView, item: Seq<char>, files: Seq<(Seq<char>, i64)>)
    requires
        db.wf(),
    ensures
        db.add_item_files(item, files).wf(),
        db.add_item_files(item, files).add_item_files(item, files) == db.add_item_files(item, files),
{
    lemma_with_rows::<FileRecord>(db.files, new_files(item, files));
    lemma_with_rows_twice::<FileRecord>(db.files, new_files(item, files));
}

/// Listing an item's files again with the same listing leaves the files as
/// they are, whenever it is done; done at the same time, it leaves the
/// items as they are too.
pub proof fn law_listing_files_twice(
    db: DatabaseView,
    item: Seq<char>,
    files: Seq<(Seq<char>, i64)>,
    now: Timestamp,
    later: Timestamp,
)
    requires
        db.wf(),
    ensures
        ({
            let once = db.add_item_files(item, files).set_ia_item_refresh_date(item, now);
            let twice = once.add_item_files(item, files).set_ia_item_refresh_date(item, later);
            &&& twice.files == once.files
            &&& later == now ==> twice == once
        }),
{
    law_storing_files_twice(db, item, files);
    let once = db.add_item_files(item, files).set_ia_item_refresh_date(item, now);
    let twice = once.add_item_files(item, files).set_ia_item_refresh_date(item, now);
    assert(twice.items =~= once.items);
}

/// A page of files none of whose names follows the grammar adds nothing to
/// any job and assigns no file.
pub proof fn lemma_nothing_to_aggregate(page: Seq<(Seq<char>, Seq<char>, i64)>)
    requires
        forall|i: int| 0 <= i < page.len() ==> parsed((#[trigger] page[i]).1) is None,
    ensures
        aggregate(page) == Seq::<crate::database::JobDelta>::empty(),
        assignments(page) == Seq::<(Seq<char>, Seq<char>, Seq<char>)>::empty(),
    decreases page.len(),
{
    if page.len() > 0 {
        assert forall|i: int| 0 <= i < page.drop_last().len() implies parsed(
            (#[trigger] page.drop_last()[i]).1,
        ) is None by {
            assert(page.drop_last()[i] == page[i]);
        }
        lemma_nothing_to_aggregate(page.drop_last());
        assert(parsed(page[page.len() - 1].1) is None);
    }
}

/// Every file that has no job has a name that does not follow the
/// grammar.
pub open spec fn all_aggregated(db: DatabaseView) -> bool {
    forall|i: int|
        0 <= i < db.files.len() ==> ((#[trigger] db.files[i]).job_id is None ==> parsed(db.files[i].filename)
            is None)
}

proof fn lemma_aggregate_from_settled(db: DatabaseView, after: Key)
    requires
        all_aggregated(db),
    ensures
        db.aggregate_from(after) == (db, true),
    decreases rows_after::<FileRecord>(db.files, after),
{
    let page = db.files_without_job_id(after);
    if page.len() > 0 {
        let picked = matching(db.files, jobless_filter(after), PAGE_SIZE as int);
        assert forall|i: int| 0 <= i < page.len() implies parsed((#[trigger] page[i]).1) is None by {
            let j = lemma_matching_member(db.files, jobless_filter(after), PAGE_SIZE as int, i);
            assert(page[i] == file_columns()(picked[i]));
            assert(db.files[j].job_id is None);
        }
        lemma_nothing_to_aggregate(page);
        assert(jobs_updated(db.jobs, aggregate(page)) == Some(db.jobs));
        assert(files_assigned(db.files, assignments(page)) == db.files);
        assert(db.update_jobs(aggregate(page), assignments(page)) == Some(db));
        lemma_page_advances(db, after);
        lemma_aggregate_from_settled(db, last_key(page));
    }
}

/// Aggregation takes up no file that has a job: where every file without a
/// job has a name outside the grammar, and so where no file is without a
/// job, running it changes nothing, and no counter moves.
pub proof fn law_aggregation_settled(db: DatabaseView)
    requires
        all_aggregated(db),
    ensures
        db.populate_jobs() == (db, true),
{
    lemma_aggregate_from_settled(db, (Seq::empty(), Seq::empty()));
}

/// The job that a parsed file of a page is assigned to stands in the
/// page's assignments.
proof fn lemma_assignment_listed(page: Seq<(Seq<char>, Seq<char>, i64)>, i: int) -> (k: int)
    requires
        0 <= i < page.len(),
        parsed(page[i].1) is Some,
    ensures
        0 <= k < assignments(page).len(),
        assignments(page)[k].0 == page[i].0,
        assignments(page)[k].1 == page[i].1,
    decreases page.len(),
{
    if i == page.len() - 1 {
        assignments(page).len() - 1
    } else {
        assert(page.drop_last()[i] == page[i]);
        lemma_assignment_listed(page.drop_last(), i)
    }
}

/// Assigning leaves every file as it is but for its job; a file that is
/// named in the list has a job afterwards, and a file that has none
/// afterwards had none before.
proof fn lemma_assigned(files: Seq<FileView>, list: Seq<(Seq<char>, Seq<char>, Seq<char>)>, i: int)
    requires
        0 <= i < files.len(),
    ensures
        files_assigned(files, list).len() == files.len(),
        files_assigned(files, list)[i] == (FileView { job_id: files_assigned(files, list)[i].job_id, ..files[i] }),
        files[i].job_id is Some ==> files_assigned(files, list)[i].job_id is Some,
        forall|k: int|
            0 <= k < list.len() && (#[trigger] list[k]).0 == files[i].ia_item_id && list[k].1
                == files[i].filename ==> files_assigned(files, list)[i].job_id is Some,
    decreases list.len(),
{
    if list.len() > 0 {
        lemma_assigned(files, list.drop_last(), i);
        let before = files_assigned(files, list.drop_last());
        assert(files_assigned(files, list)[i] == assign(list.last())(before[i]));
        assert forall|k: int|
            0 <= k < list.len() && (#[trigger] list[k]).0 == files[i].ia_item_id && list[k].1
                == files[i].filename implies files_assigned(files, list)[i].job_id is Some by {
            if k < list.len() - 1 {
                assert(list.drop_last()[k] == list[k]);
            }
        }
    }
}

/// Every file that has no job and a name that follows the grammar comes
/// after `after`.
pub open spec fn aggregated_upto(db: DatabaseView, after: Key) -> bool {
    forall|i: int|
        0 <= i < db.files.len() && (#[trigger] db.files[i]).job_id is None && parsed(db.files[i].filename)
            is Some ==> key_lt(after, FileRecord::key_of(db.files[i]))
}

proof fn lemma_aggregate_from_complete(db: DatabaseView, after: Key)
    requires
        db.wf(),
        aggregated_upto(db, after),
        db.aggregate_from(after).1,
    ensures
        all_aggregated(db.aggregate_from(after).0),
    decreases rows_after::<FileRecord>(db.files, after),
{
    let page = db.files_without_job_id(after);
    let keep = jobless_filter(after);
    let picked = matching(db.files, keep, PAGE_SIZE as int);
    if page.len() == 0 {
        assert forall|i: int| 0 <= i < db.files.len() && (#[trigger] db.files[i]).job_id is None implies parsed(
            db.files[i].filename,
        ) is None by {
            lemma_matching_none(db.files, keep, PAGE_SIZE as int, i);
        }
    } else {
        let list = assignments(page);
        let next = db.update_jobs(aggregate(page), list)->0;
        let last = last_key(page);
        lemma_page_advances(db, after);
        lemma_assigned_keys(db.files, list);
        lemma_jobs_keep_order(db.jobs, aggregate(page));
        assert(next.wf());
        assert(keys_of::<FileRecord>(next.files).len() == next.files.len());
        assert(keys_of::<FileRecord>(db.files).len() == db.files.len());
        assert forall|i: int|
            0 <= i < next.files.len() && (#[trigger] next.files[i]).job_id is None && parsed(
                next.files[i].filename,
            ) is Some implies key_lt(last, FileRecord::key_of(next.files[i])) by {
            lemma_assigned(db.files, list, i);
            assert(db.files[i].job_id is None);
            assert(keep(db.files[i]));
            let at = lemma_matching_complete::<FileRecord>(db.files, keep, PAGE_SIZE as int, i);
            if 0 <= at < picked.len() {
                assert(page[at] == file_columns()(picked[at]));
                let k = lemma_assignment_listed(page, at);
            } else {
                assert(page.last() == file_columns()(picked.last()));
            }
        }
        lemma_aggregate_from_complete(next, last);
    }
}

/// Adding amounts to jobs keeps every job's identifier once.
pub proof fn lemma_jobs_keep_order(jobs: Seq<crate::records::JobView>, ds: Seq<crate::database::JobDelta>)
    requires
        ascending(keys_of::<crate::records::JobRecord>(jobs)),
    ensures
        jobs_updated(jobs, ds) matches Some(after) ==> ascending(keys_of::<crate::records::JobRecord>(after)),
    decreases ds.len(),
{
    if ds.len() > 0 {
        lemma_jobs_keep_order(jobs, ds.drop_last());
        match jobs_updated(jobs, ds.drop_last()) {
            Some(before) => {
                let with = crate::table::with_row::<crate::records::JobRecord>(before, crate::model::new_job(ds.last()));
                crate::table::lemma_with_row::<crate::records::JobRecord>(before, crate::model::new_job(ds.last()));
                match crate::model::job_updated(before, ds.last()) {
                    Some(after) => {
                        assert(keys_of::<crate::records::JobRecord>(after) =~= keys_of::<crate::records::JobRecord>(
                            with,
                        ));
                    },
                    None => {},
                }
            },
            None => {},
        }
    }
}

/// After aggregation has gone through all pages, every file whose name
/// follows the grammar has a job.
pub proof fn law_aggregation_complete(db: DatabaseView)
    requires
        db.wf(),
        db.populate_jobs().1,
    ensures
        all_aggregated(db.populate_jobs().0),
{
    let e = (Seq::<char>::empty(), Seq::<char>::empty());
    assert forall|i: int|
        0 <= i < db.files.len() && (#[trigger] db.files[i]).job_id is None && parsed(db.files[i].filename)
            is Some implies key_lt(e, FileRecord::key_of(db.files[i])) by {
        lemma_empty_is_first(FileRecord::key_of(db.files[i]));
    }
    lemma_aggregate_from_complete(db, e);
}

/// Aggregation run again changes nothing: it takes up no file that has a
/// job, so no counter moves.
pub proof fn law_aggregation_twice(db: DatabaseView)
    requires
        db.wf(),
        db.populate_jobs().1,
    ensures
        db.populate_jobs().0.populate_jobs() == (db.populate_jobs().0, true),
{
    law_aggregation_complete(db);
    law_aggregation_settled(db.populate_jobs().0);
}

/// The statistic that recomputing writes for the day of the item at
/// position `i`.
pub open spec fn stat_of(db: DatabaseView, i: int) -> DailyStat {
    let date = db.items[i].public_date.day();
    DailyStat { date, size: bytes_of_day(db.items, db.files, date) as i64 }
}

/// The bytes of the day of the item at position `i` fit a 64-bit integer.
pub open spec fn day_fits(db: DatabaseView, i: int) -> bool {
    let total = bytes_of_day(db.items, db.files, db.items[i].public_date.day());
    i64::MIN <= total <= i64::MAX
}

/// The statistics hold `s` at the place of its day.
pub open spec fn holds_stat(stats: Seq<DailyStat>, s: DailyStat) -> bool {
    let p = stats_place(stats, s.date);
    0 <= p < stats.len() && stats[p] == s
}

/// Among ascending days, a statistic stands at the place of its day.
proof fn lemma_holds_at(stats: Seq<DailyStat>, k: int)
    requires
        days_ascend(stats),
        0 <= k < stats.len(),
    ensures
        holds_stat(stats, stats[k]),
{
    assert forall|i: int| 0 <= i < k implies (#[trigger] stats[i]).date.days < stats[k].date.days by {
    }
    assert forall|i: int| k <= i < stats.len() implies (#[trigger] stats[i]).date.days
        >= stats[k].date.days by {
        if i > k {
            assert(stats[k].date.days < stats[i].date.days);
        }
    }
    lemma_stats_place(stats, stats[k].date, k);
}

/// The place of a day parts the earlier days from the others.
proof fn lemma_stats_place_parts(stats: Seq<DailyStat>, date: crate::time::Date)
    requires
        days_ascend(stats),
    ensures
        0 <= stats_place(stats, date) <= stats.len(),
        forall|i: int| 0 <= i < stats_place(stats, date) ==> (#[trigger] stats[i]).date.days < date.days,
        forall|i: int|
            stats_place(stats, date) <= i < stats.len() ==> (#[trigger] stats[i]).date.days >= date.days,
    decreases stats.len(),
{
    if stats.len() > 0 {
        let rest = stats.drop_last();
        assert forall|i: int, j: int| 0 <= i < j < rest.len() implies (#[trigger] rest[i]).date.days < (
        #[trigger] rest[j]).date.days by {
            assert(rest[i] == stats[i] && rest[j] == stats[j]);
        }
        lemma_stats_place_parts(rest, date);
        let q = stats_place(rest, date);
        assert forall|i: int| 0 <= i < stats_place(stats, date) implies (#[trigger] stats[i]).date.days
            < date.days by {
            if i < rest.len() {
                assert(rest[i] == stats[i]);
                if i >= q {
                    assert(rest[i].date.days >= date.days);
                    assert(stats[i].date.days < stats[stats.len() - 1].date.days);
                }
            }
        }
        assert forall|i: int| stats_place(stats, date) <= i < stats.len() implies (#[trigger] stats[i]).date.days
            >= date.days by {
            if i < rest.len() {
                assert(rest[i] == stats[i]);
            }
        }
    }
}

/// Writing a statistic keeps the days ascending; the statistic is there
/// afterwards, beside those of the other days that were there; and
/// writing a statistic that is there changes nothing.
proof fn lemma_stat_put(stats: Seq<DailyStat>, s: DailyStat)
    requires
        days_ascend(stats),
    ensures
        days_ascend(stat_put(stats, s)),
        holds_stat(stat_put(stats, s), s),
        holds_stat(stats, s) ==> stat_put(stats, s) == stats,
{
    lemma_stats_place_parts(stats, s.date);
    let p = stats_place(stats, s.date);
    let after = stat_put(stats, s);
    if p < stats.len() && stats[p].date == s.date {
        assert(after[p] == s);
        assert forall|i: int, j: int| 0 <= i < j < after.len() implies (#[trigger] after[i]).date.days < (
        #[trigger] after[j]).date.days by {
            assert(stats[i].date.days < stats[j].date.days);
        }
        lemma_holds_at(after, p);
        if holds_stat(stats, s) {
            assert(after =~= stats);
        }
    } else {
        assert(after[p] == s);
        assert forall|i: int, j: int| 0 <= i < j < after.len() implies (#[trigger] after[i]).date.days < (
        #[trigger] after[j]).date.days by {
            let a = if i < p { i } else { i - 1 };
            let b = if j < p { j } else { j - 1 };
            if i != p && j != p {
                assert(stats[a].date.days < stats[b].date.days);
            } else if i == p {
                assert(stats[b].date.days >= s.date.days);
                if stats[b].date.days == s.date.days {
                    if b > p {
                        assert(stats[p].date.days < stats[b].date.days);
                    }
                }
            } else {
                assert(stats[a].date.days < s.date.days);
            }
        }
        lemma_holds_at(after, p);
    }
}

/// Writing a statistic leaves the statistics of the other days where they
/// are held.
proof fn lemma_stat_put_keeps(stats: Seq<DailyStat>, s: DailyStat, x: DailyStat)
    requires
        days_ascend(stats),
        holds_stat(stats, x),
        x.date != s.date,
    ensures
        holds_stat(stat_put(stats, s), x),
{
    lemma_stat_put(stats, s);
    lemma_stats_place_parts(stats, s.date);
    let p = stats_place(stats, s.date);
    let k = stats_place(stats, x.date);
    let after = stat_put(stats, s);
    if p < stats.len() && stats[p].date == s.date {
        assert(after[k] == x);
        lemma_holds_at(after, k);
    } else if k < p {
        assert(after[k] == x);
        lemma_holds_at(after, k);
    } else {
        assert(after[k + 1] == x);
        lemma_holds_at(after, k + 1);
    }
}

/// The item at position `i` has the statistic of its day in `stats`, and
/// the bytes of its day fit.
pub open spec fn counted(db: DatabaseView, stats: Seq<DailyStat>, i: int) -> bool {
    day_fits(db, i) && holds_stat(stats, stat_of(db, i))
}

/// Every item from position `from` to before position `to` has the
/// statistic of its day in `stats`.
pub open spec fn counted_between(db: DatabaseView, stats: Seq<DailyStat>, from: int, to: int) -> bool {
    forall|i: int| from <= i < to ==> #[trigger] counted(db, stats, i)
}

/// Every item before position `n` has the statistic of its day in `stats`.
pub open spec fn counted_upto(db: DatabaseView, stats: Seq<DailyStat>, n: int) -> bool {
    counted_between(db, stats, 0, n)
}

/// One more statistic written: the items that were counted stay counted,
/// and the item whose day was written is counted.
proof fn lemma_counted_step(db: DatabaseView, before: Seq<DailyStat>, k: int, i: int)
    requires
        days_ascend(before),
        0 <= k < db.items.len(),
        0 <= i < db.items.len(),
        day_fits(db, k),
        counted(db, before, i) || i == k,
    ensures
        counted(db, stat_put(before, stat_of(db, k)), i),
{
    let s = stat_of(db, k);
    lemma_stat_put(before, s);
    if stat_of(db, i).date == s.date {
        assert(stat_of(db, i) == s);
    } else {
        lemma_stat_put_keeps(before, s, stat_of(db, i));
    }
}

/// What a batch of recomputing that is written leaves: the statistics of
/// the batch's items, beside those of the items before that were there.
proof fn lemma_stats_batch(db: DatabaseView, stats: Seq<DailyStat>, from: int, to: int)
    requires
        days_ascend(stats),
        0 <= from <= to <= db.items.len(),
        counted_upto(db, stats, from),
    ensures
        db.stats_batch(stats, from, to) matches Some(r) ==> days_ascend(r) && counted_upto(db, r, to),
    decreases to - from,
{
    if to > from {
        lemma_stats_batch(db, stats, from, to - 1);
        match db.stats_batch(stats, from, to - 1) {
            Some(before) => {
                if day_fits(db, to - 1) {
                    let s = stat_of(db, to - 1);
                    lemma_stat_put(before, s);
                    let r = stat_put(before, s);
                    assert(db.stats_batch(stats, from, to) == Some(r));
                    assert forall|i: int| 0 <= i < to implies #[trigger] counted(db, r, i) by {
                        if i < to - 1 {
                            assert(counted(db, before, i));
                        }
                        lemma_counted_step(db, before, to - 1, i);
                    }
                } else {
                    assert(db.stats_batch(stats, from, to) is None);
                }
            },
            None => {},
        }
    }
}

/// What recomputing that is written in full leaves: the statistic of every
/// item's day.
proof fn lemma_stats_from(db: DatabaseView, stats: Seq<DailyStat>, from: int)
    requires
        days_ascend(stats),
        0 <= from <= db.items.len(),
        counted_upto(db, stats, from),
    ensures
        days_ascend(db.stats_from(stats, from).0),
        db.stats_from(stats, from).1 ==> counted_upto(db, db.stats_from(stats, from).0, db.items.len() as int),
    decreases db.items.len() - from,
{
    if from < db.items.len() {
        let to = if from + STATS_BATCH <= db.items.len() {
            from + STATS_BATCH
        } else {
            db.items.len() as int
        };
        lemma_stats_batch(db, stats, from, to);
        match db.stats_batch(stats, from, to) {
            Some(after) => {
                lemma_stats_from(db, after, to);
            },
            None => {},
        }
    }
}

/// Recomputing over statistics that hold every item's day writes what is
/// there.
proof fn lemma_stats_batch_fixed(db: DatabaseView, stats: Seq<DailyStat>, from: int, to: int)
    requires
        days_ascend(stats),
        0 <= from <= to <= db.items.len(),
        counted_upto(db, stats, db.items.len() as int),
    ensures
        db.stats_batch(stats, from, to) == Some(stats),
    decreases to - from,
{
    if to > from {
        lemma_stats_batch_fixed(db, stats, from, to - 1);
        assert(counted(db, stats, to - 1));
        lemma_stat_put(stats, stat_of(db, to - 1));
    }
}

proof fn lemma_stats_from_fixed(db: DatabaseView, stats: Seq<DailyStat>, from: int)
    requires
        days_ascend(stats),
        0 <= from <= db.items.len(),
        counted_upto(db, stats, db.items.len() as int),
    ensures
        db.stats_from(stats, from) == (stats, true),
    decreases db.items.len() - from,
{
    if from < db.items.len() {
        let to = if from + STATS_BATCH <= db.items.len() {
            from + STATS_BATCH
        } else {
            db.items.len() as int
        };
        lemma_stats_batch_fixed(db, stats, from, to);
        lemma_stats_from_fixed(db, stats, to);
    }
}

/// Recomputing the daily statistics again, over the same items and files,
/// changes nothing.
pub proof fn law_daily_stats_twice(db: DatabaseView)
    requires
        db.wf(),
        db.populate_daily_stats().1,
    ensures
        db.populate_daily_stats().0.wf(),
        db.populate_daily_stats().0.populate_daily_stats() == (db.populate_daily_stats().0, true),
{
    lemma_stats_from(db, db.daily_stats, 0);
    let once = db.populate_daily_stats().0;
    assert forall|i: int| 0 <= i < once.items.len() implies #[trigger] counted(once, once.daily_stats, i) by {
        assert(stat_of(once, i) == stat_of(db, i));
        assert(counted(db, once.daily_stats, i));
    }
    lemma_stats_from_fixed(once, once.daily_stats, 0);
}

/// After the daily statistics are recomputed in full, the statistics
/// hold, for the day of every item, the bytes of all files of the items
/// that became public on that day.
pub proof fn law_daily_stats_counted(db: DatabaseView, i: int)
    requires
        db.wf(),
        db.populate_daily_stats().1,
        0 <= i < db.items.len(),
    ensures
        day_fits(db, i),
        holds_stat(db.populate_daily_stats().0.daily_stats, stat_of(db, i)),
        db.populate_daily_stats().0.daily_stats.contains(stat_of(db, i)),
{
    lemma_stats_from(db, db.daily_stats, 0);
    let stats = db.populate_daily_stats().0.daily_stats;
    assert(counted(db, stats, i));
    assert(stats[stats_place(stats, stat_of(db, i).date)] == stat_of(db, i));
}

/// What aggregation may make of a file: the file stays as it is but for
/// its job; a job that it had it keeps; and where it had none, it has none
/// or the job that its name gives.
pub open spec fn own_job(before: FileView, after: FileView) -> bool {
    &&& after == FileView { job_id: after.job_id, ..before }
    &&& match before.job_id {
        Some(_) => after.job_id == before.job_id,
        None => after.job_id is None || (parsed(before.filename) is Some && after.job_id == Some(
            job_id_of(parsed(before.filename)->0),
        )),
    }
}

/// Every file of `after` is what aggregation may make of the file at its
/// place in `before`.
pub open spec fn own_jobs(before: Seq<FileView>, after: Seq<FileView>) -> bool {
    &&& after.len() == before.len()
    &&& forall|i: int| 0 <= i < before.len() ==> own_job(#[trigger] before[i], after[i])
}

/// Every assignment gives a file the job that the file's name gives.
pub open spec fn rightful(list: Seq<(Seq<char>, Seq<char>, Seq<char>)>) -> bool {
    forall|k: int|
        0 <= k < list.len() ==> parsed((#[trigger] list[k]).1) is Some && list[k].2 == job_id_of(
            parsed(list[k].1)->0,
        )
}

/// The assignments of a page give each file the job of its name.
proof fn lemma_assignments_rightful(page: Seq<(Seq<char>, Seq<char>, i64)>)
    ensures
        rightful(assignments(page)),
    decreases page.len(),
{
    if page.len() > 0 {
        lemma_assignments_rightful(page.drop_last());
        let rest = assignments(page.drop_last());
        let list = assignments(page);
        assert forall|k: int| 0 <= k < list.len() implies parsed((#[trigger] list[k]).1) is Some && list[k].2
            == job_id_of(parsed(list[k].1)->0) by {
            if k < rest.len() {
                assert(list[k] == rest[k]);
            }
        }
    }
}

/// Rightful assignments that name no file with a job give every file its
/// own job, or leave it as it is.
proof fn lemma_assigned_own(files: Seq<FileView>, list: Seq<(Seq<char>, Seq<char>, Seq<char>)>, i: int)
    requires
        0 <= i < files.len(),
        rightful(list),
        files[i].job_id is Some ==> forall|k: int|
            0 <= k < list.len() ==> ((#[trigger] list[k]).0, list[k].1) != FileRecord::key_of(files[i]),
    ensures
        files_assigned(files, list).len() == files.len(),
        own_job(files[i], files_assigned(files, list)[i]),
    decreases list.len(),
{
    if list.len() > 0 {
        let head = list.drop_last();
        assert forall|k: int| 0 <= k < head.len() implies parsed((#[trigger] head[k]).1) is Some && head[k].2
            == job_id_of(parsed(head[k].1)->0) by {
            assert(head[k] == list[k]);
        }
        if files[i].job_id is Some {
            assert forall|k: int| 0 <= k < head.len() implies ((#[trigger] head[k]).0, head[k].1)
                != FileRecord::key_of(files[i]) by {
                assert(head[k] == list[k]);
            }
        }
        lemma_assigned_own(files, head, i);
        let before = files_assigned(files, head);
        let last = list[list.len() - 1];
        assert(files_assigned(files, list)[i] == assign(list.last())(before[i]));
        assert(parsed(last.1) is Some && last.2 == job_id_of(parsed(last.1)->0));
        if files[i].job_id is Some {
            assert((last.0, last.1) != FileRecord::key_of(files[i]));
        }
    }
}

/// Writing a page gives every file of the page its own job, and leaves
/// the other files as they are.
proof fn lemma_page_own(db: DatabaseView, after: Key)
    requires
        db.wf(),
    ensures
        own_jobs(
            db.files,
            files_assigned(db.files, assignments(db.files_without_job_id(after))),
        ),
{
    let page = db.files_without_job_id(after);
    let list = assignments(page);
    lemma_assignments_rightful(page);
    crate::counters::lemma_page_rows(db, after);
    assert forall|i: int| 0 <= i < db.files.len() implies own_job(
        #[trigger] db.files[i],
        files_assigned(db.files, list)[i],
    ) && files_assigned(db.files, list).len() == db.files.len() by {
        if db.files[i].job_id is Some {
            assert forall|k: int| 0 <= k < list.len() implies ((#[trigger] list[k]).0, list[k].1)
                != FileRecord::key_of(db.files[i]) by {
                let p = crate::counters::lemma_assignment_source(page, k);
                crate::table::lemma_find_row_at::<FileRecord>(db.files, i);
                if (list[k].0, list[k].1) == FileRecord::key_of(db.files[i]) {
                    assert(crate::counters::row_key(page[p]) == FileRecord::key_of(db.files[i]));
                }
            }
        }
        lemma_assigned_own(db.files, list, i);
    }
    lemma_assigned_keys(db.files, list);
    assert(keys_of::<FileRecord>(files_assigned(db.files, list)).len() == files_assigned(db.files, list).len());
    assert(keys_of::<FileRecord>(db.files).len() == db.files.len());
}

proof fn lemma_aggregate_from_own(db: DatabaseView, after: Key)
    requires
        db.wf(),
    ensures
        own_jobs(db.files, db.aggregate_from(after).0.files),
    decreases rows_after::<FileRecord>(db.files, after),
{
    let page = db.files_without_job_id(after);
    if page.len() > 0 && fits(aggregate(page)) {
        match db.update_jobs(aggregate(page), assignments(page)) {
            Some(next) => {
                lemma_page_own(db, after);
                lemma_page_advances(db, after);
                lemma_assigned_keys(db.files, assignments(page));
                lemma_jobs_keep_order(db.jobs, aggregate(page));
                assert(next.wf());
                lemma_aggregate_from_own(next, last_key(page));
                let last = next.aggregate_from(last_key(page)).0.files;
                assert forall|i: int| 0 <= i < db.files.len() implies own_job(#[trigger] db.files[i], last[i]) by {
                    assert(own_job(db.files[i], next.files[i]));
                    assert(own_job(next.files[i], last[i]));
                }
            },
            None => {},
        }
    }
}

/// Aggregation leaves every file as it is but for its job. A file that
/// had a job keeps it; a file that had none gets the job that its name
/// gives, and no other; and once aggregation has gone through all pages,
/// every file without a job whose name follows the grammar has got it.
pub proof fn law_aggregation_assigns(db: DatabaseView)
    requires
        db.wf(),
    ensures
        own_jobs(db.files, db.populate_jobs().0.files),
        db.populate_jobs().1 ==> forall|i: int|
            0 <= i < db.files.len() && (#[trigger] db.files[i]).job_id is None && parsed(db.files[i].filename)
                is Some ==> db.populate_jobs().0.files[i].job_id == Some(
                job_id_of(parsed(db.files[i].filename)->0),
            ),
{
    lemma_aggregate_from_own(db, (Seq::empty(), Seq::empty()));
    if db.populate_jobs().1 {
        law_aggregation_complete(db);
        let after = db.populate_jobs().0.files;
        assert forall|i: int|
            0 <= i < db.files.len() && (#[trigger] db.files[i]).job_id is None && parsed(db.files[i].filename)
                is Some implies after[i].job_id == Some(job_id_of(parsed(db.files[i].filename)->0)) by {
            assert(own_job(db.files[i], after[i]));
            assert(after[i].filename == db.files[i].filename);
        }
    }
}

proof fn lemma_aggregate_from_keeps_jobs(db: DatabaseView, after: Key, id: Seq<char>)
    requires
        db.wf(),
    ensures
        job_kept(db.jobs, db.aggregate_from(after).0.jobs, id),
    decreases rows_after::<FileRecord>(db.files, after),
{
    let page = db.files_without_job_id(after);
    if page.len() > 0 && fits(aggregate(page)) {
        match db.update_jobs(aggregate(page), assignments(page)) {
            Some(next) => {
                lemma_jobs_updated(db.jobs, aggregate(page), id);
                lemma_page_advances(db, after);
                lemma_assigned_keys(db.files, assignments(page));
                assert(next.wf());
                lemma_aggregate_from_keeps_jobs(next, last_key(page), id);
            },
            None => {},
        }
    }
}

/// Aggregation leaves every job that the store holds in the store, with
/// its short identifier, domain, address, initiator and index row: only
/// its counters move. This holds whether aggregation goes through all
/// pages or fails on one.
pub proof fn law_aggregation_keeps_jobs(db: DatabaseView, id: Seq<char>)
    requires
        db.wf(),
    ensures
        job_kept(db.jobs, db.populate_jobs().0.jobs, id),
{
    lemma_aggregate_from_keeps_jobs(db, (Seq::empty(), Seq::empty()), id);
}

/// No item of the store became public on the day `date`.
pub open spec fn no_item_of_day(db: DatabaseView, date: crate::time::Date) -> bool {
    forall|i: int| 0 <= i < db.items.len() ==> (#[trigger] db.items[i]).public_date.day() != date
}

proof fn lemma_stats_batch_keeps(db: DatabaseView, stats: Seq<DailyStat>, from: int, to: int, x: DailyStat)
    requires
        days_ascend(stats),
        0 <= from <= to <= db.items.len(),
        holds_stat(stats, x),
        no_item_of_day(db, x.date),
    ensures
        db.stats_batch(stats, from, to) matches Some(r) ==> days_ascend(r) && holds_stat(r, x),
    decreases to - from,
{
    if to > from {
        lemma_stats_batch_keeps(db, stats, from, to - 1, x);
        match db.stats_batch(stats, from, to - 1) {
            Some(before) => {
                if day_fits(db, to - 1) {
                    let s = stat_of(db, to - 1);
                    assert(db.items[to - 1].public_date.day() != x.date);
                    lemma_stat_put(before, s);
                    lemma_stat_put_keeps(before, s, x);
                }
            },
            None => {},
        }
    }
}

proof fn lemma_stats_from_keeps(db: DatabaseView, stats: Seq<DailyStat>, from: int, x: DailyStat)
    requires
        days_ascend(stats),
        0 <= from <= db.items.len(),
        holds_stat(stats, x),
        no_item_of_day(db, x.date),
    ensures
        holds_stat(db.stats_from(stats, from).0, x),
    decreases db.items.len() - from,
{
    if from < db.items.len() {
        let to = if from + STATS_BATCH <= db.items.len() {
            from + STATS_BATCH
        } else {
            db.items.len() as int
        };
        lemma_stats_batch_keeps(db, stats, from, to, x);
        match db.stats_batch(stats, from, to) {
            Some(after) => {
                lemma_stats_from_keeps(db, after, to, x);
            },
            None => {},
        }
    }
}

/// Recomputing the daily statistics leaves the statistic of a day on
/// which no item became public as it is, whether all batches are written
/// or one fails.
pub proof fn law_daily_stats_keeps_other_days(db: DatabaseView, k: int)
    requires
        db.wf(),
        0 <= k < db.daily_stats.len(),
        no_item_of_day(db, db.daily_stats[k].date),
    ensures
        holds_stat(db.populate_daily_stats().0.daily_stats, db.daily_stats[k]),
        db.populate_daily_stats().0.daily_stats.contains(db.daily_stats[k]),
{
    lemma_holds_at(db.daily_stats, k);
    lemma_stats_from_keeps(db, db.daily_stats, 0, db.daily_stats[k]);
    let stats = db.populate_daily_stats().0.daily_stats;
    assert(stats[stats_place(stats, db.daily_stats[k].date)] == db.daily_stats[k]);
}

} // verus!
