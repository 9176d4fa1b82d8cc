//! The metadata store: the items of the catalog, their files, the jobs
//! derived from the files, the daily statistics and the search index.
//!
//! The store keeps its tables in memory, each in the order of its keys, and
//! is the measure of what a store behind the cycle has to do: an item or a
//! file is stored once and then left as it is, pages are read forward from
//! a key, counters are only ever added to, and a write that fails leaves
//! nothing behind. What each operation makes of the store is said over
//! [`DatabaseView`].

use vstd::prelude::*;
use crate::ia::{FileDetails, ItemInfo};
use crate::idgen::{advance, made_with, IdGenerator};
use crate::indexing::{lemma_first_rows_written, COUNTERS};
use crate::model::{
    assign, bump, bytes_of_day, can_bump, days_ascend, described, distinct_rows, stat_put, STATS_BATCH,
    file_and_job, file_columns, files_assigned, has_row, indexed, item_identifier, job_identifier, job_of,
    job_updated, jobless_filter, jobs_updated, lemma_jobs_updated_fails, lemma_matching_step,
    lemma_sizes_stored, sizes_counted, sizes_given,
    lemma_stats_place, lemma_search_rows_fail, lemma_stats_batch_fails, new_files, new_items, matching,
    metadata_filter, new_file, new_item, new_job, readdressed, refresh_filter, stamped, stripped,
    unindexed_filter, DatabaseView, PAGE_SIZE, REFRESH_WINDOW_SECS,
};
use crate::records::{DailyStat, FileRecord, ItemRecord, JobRecord, SearchIndexEntry};
use crate::table::{
    ascending, insert_absent, key_rank, keys_of, lemma_change_by_key, lemma_key_once, lemma_with_row, locate,
    Keyed,
};
use crate::text::{ends_with_like, rank, Rank};
use crate::time::{Date, Timestamp};

verus! {

/// What one page of files adds to one job.
#[derive(Debug, Clone)]
pub struct UpdateJobArgs {
    pub short_id: String,
    pub job_id: String,
    pub domain: String,
    pub abort_inc: i64,
    pub warc_inc: i64,
    pub json_inc: i64,
    pub size_inc: i64,
}

/// The mathematical value of what is added to one job. The amounts are
/// unbounded here.
pub ghost struct JobDelta {
    pub short_id: Seq<char>,
    pub job_id: Seq<char>,
    pub domain: Seq<char>,
    pub aborts: int,
    pub warcs: int,
    pub jsons: int,
    pub size: int,
}

impl DeepView for UpdateJobArgs {
    type V = JobDelta;

    open spec fn deep_view(&self) -> JobDelta {
        JobDelta {
            short_id: self.short_id@,
            job_id: self.job_id@,
            domain: self.domain@,
            aborts: self.abort_inc as int,
            warcs: self.warc_inc as int,
            jsons: self.json_inc as int,
            size: self.size_inc as int,
        }
    }
}

/// The job that one file is assigned to.
#[derive(Debug, Clone)]
pub struct UpdateFilesJobArgs {
    pub ia_item_id: String,
    pub filename: String,
    pub job_id: String,
}

impl DeepView for UpdateFilesJobArgs {
    type V = (Seq<char>, Seq<char>, Seq<char>);

    open spec fn deep_view(&self) -> (Seq<char>, Seq<char>, Seq<char>) {
        (self.ia_item_id@, self.filename@, self.job_id@)
    }
}

/// Why the store refused to write.
#[derive(Debug, Clone, Copy, PartialEq, Eq, Structural)]
pub enum StoreError {
    /// A counter or a sum would have left the range of 64-bit integers.
    OutOfRange,
    /// A row number of the search index would have been used twice.
    Constraint,
}

/// A file name without one leading slash.
fn strip_slash(name: &str) -> (r: &str)
    ensures
        r@ == stripped(name@),
{
    let n: usize = name.unicode_len();
    if n > 0 && name.get_char(0) == '/' {
        assert(name@.skip(1) =~= name@.subrange(1, n as int));
        name.substring_char(1, n)
    } else {
        name
    }
}

fn copy_job(j: &JobRecord) -> (r: JobRecord)
    ensures
        r.deep_view() == j.deep_view(),
{
    JobRecord {
        id: j.id.clone(),
        short_id: j.short_id.clone(),
        domain: j.domain.clone(),
        url: j.url.clone(),
        started_by: j.started_by.clone(),
        aborts: j.aborts,
        warcs: j.warcs,
        jsons: j.jsons,
        size: j.size,
        search_id: j.search_id,
    }
}

fn copy_index(index: &Vec<SearchIndexEntry>) -> (r: Vec<SearchIndexEntry>)
    ensures
        r.deep_view() == index.deep_view(),
{
    let mut r: Vec<SearchIndexEntry> = Vec::new();
    let mut i: usize = 0;
    while i < index.len()
        invariant
            i <= index.len(),
            r.deep_view() =~= index.deep_view().take(i as int),
        decreases index.len() - i,
    {
        let ghost before = r.deep_view();
        let e = &index[i];
        r.push(SearchIndexEntry { rowid: e.rowid, domain: e.domain.clone(), url: e.url.clone() });
        assert(r.deep_view() =~= before.push(index.deep_view()[i as int]));
        i += 1;
    }
    assert(index.deep_view().take(i as int) =~= index.deep_view());
    r
}

/// Puts `s` in place of the statistic for its day, or in at the place of
/// its day.
fn put_stat(stats: &mut Vec<DailyStat>, s: DailyStat)
    requires
        days_ascend(old(stats)@),
    ensures
        final(stats)@ == stat_put(old(stats)@, s),
        days_ascend(final(stats)@),
{
    let ghost before = stats@;
    let mut p: usize = 0;
    while p < stats.len() && stats[p].date.days < s.date.days
        invariant
            p <= stats.len(),
            stats@ == before,
            forall|i: int| 0 <= i < p ==> (#[trigger] before[i]).date.days < s.date.days,
        decreases stats.len() - p,
    {
        p += 1;
    }
    proof {
        assert forall|i: int| p <= i < before.len() implies (#[trigger] before[i]).date.days
            >= s.date.days by {
            if i > p {
                assert(before[p as int].date.days < before[i].date.days);
            }
        }
        lemma_stats_place(before, s.date, p as int);
    }
    if p < stats.len() && stats[p].date.days == s.date.days {
        stats.set(p, s);
        assert forall|i: int, j: int| 0 <= i < j < stats@.len() implies (#[trigger] stats@[i]).date.days < (
        #[trigger] stats@[j]).date.days by {
            assert(before[i].date.days < before[j].date.days);
        }
    } else {
        stats.insert(p, s);
        assert forall|i: int, j: int| 0 <= i < j < stats@.len() implies (#[trigger] stats@[i]).date.days < (
        #[trigger] stats@[j]).date.days by {
            let a = if i < p { i } else { i - 1 };
            let b = if j < p { j } else { j - 1 };
            if i != p && j != p {
                assert(before[a].date.days < before[b].date.days);
            } else if i == p {
                assert(before[b].date.days >= s.date.days);
            } else {
                assert(before[a].date.days < s.date.days);
            }
        }
    }
}

/// Whether the index holds a row numbered `row`.
fn index_has(index: &Vec<SearchIndexEntry>, row: i64) -> (r: bool)
    ensures
        r == has_row(index.deep_view(), row),
{
    let mut i: usize = 0;
    while i < index.len()
        invariant
            i <= index.len(),
            forall|j: int| 0 <= j < i ==> (#[trigger] index.deep_view()[j]).rowid != row,
        decreases index.len() - i,
    {
        if index[i].rowid == row {
            assert(index.deep_view()[i as int].rowid == row);
            return true;
        }
        i += 1;
    }
    false
}

fn copy_jobs(jobs: &Vec<JobRecord>) -> (r: Vec<JobRecord>)
    ensures
        r.deep_view() == jobs.deep_view(),
{
    let mut r: Vec<JobRecord> = Vec::new();
    let mut i: usize = 0;
    while i < jobs.len()
        invariant
            i <= jobs.len(),
            r.deep_view() =~= jobs.deep_view().take(i as int),
        decreases jobs.len() - i,
    {
        let ghost before = r.deep_view();
        let job = copy_job(&jobs[i]);
        r.push(job);
        assert(r.deep_view() =~= before.push(jobs.deep_view()[i as int]));
        i += 1;
    }
    assert(jobs.deep_view().take(i as int) =~= jobs.deep_view());
    r
}

/// `a + b`, where it is a 64-bit integer.
fn sum(a: i64, b: i64) -> (r: Option<i64>)
    ensures
        match r {
            Some(s) => s == a + b,
            None => a + b < i64::MIN || a + b > i64::MAX,
        },
{
    let s: i128 = a as i128 + b as i128;
    if s < -0x8000_0000_0000_0000i128 || s > 0x7fff_ffff_ffff_ffffi128 {
        None
    } else {
        Some(s as i64)
    }
}

/// The metadata store: items, their files, the jobs derived from them, the
/// daily statistics and the search index. No identifier occurs twice in a
/// table.
#[derive(Debug, Clone)]
pub struct Database {
    pub(crate) items: Vec<ItemRecord>,
    pub(crate) files: Vec<FileRecord>,
    pub(crate) jobs: Vec<JobRecord>,
    pub(crate) daily_stats: Vec<DailyStat>,
    pub(crate) search_index: Vec<SearchIndexEntry>,
    pub(crate) last_update: Option<Timestamp>,
    pub(crate) id_generator: IdGenerator,
}

impl View for Database {
    type V = DatabaseView;

    closed spec fn view(&self) -> DatabaseView {
        DatabaseView {
            items: self.items.deep_view(),
            files: self.files.deep_view(),
            jobs: self.jobs.deep_view(),
            daily_stats: self.daily_stats@,
            search_index: self.search_index.deep_view(),
            last_update: self.last_update,
        }
    }
}

impl Database {
    /// The store keeps its tables in order, each key once.
    pub open spec fn wf(&self) -> bool {
        self@.wf()
    }

    /// What the view is made of.
    pub(crate) proof fn lemma_view(&self)
        ensures
            self@ == (DatabaseView {
                items: self.items.deep_view(),
                files: self.files.deep_view(),
                jobs: self.jobs.deep_view(),
                daily_stats: self.daily_stats@,
                search_index: self.search_index.deep_view(),
                last_update: self.last_update,
            }),
    {
    }

    /// The counter that the next row number of the search index takes.
    pub closed spec fn counter(&self) -> u16 {
        self.id_generator@
    }

    /// An empty store.
    pub fn new() -> (db: Database)
        ensures
            db@ == DatabaseView::empty(),
            db.wf(),
    {
        let db = Database {
            items: Vec::new(),
            files: Vec::new(),
            jobs: Vec::new(),
            daily_stats: Vec::new(),
            search_index: Vec::new(),
            last_update: None,
            id_generator: IdGenerator::new(),
        };
        assert(db@.items =~= Seq::empty());
        assert(db@.files =~= Seq::empty());
        assert(db@.jobs =~= Seq::empty());
        assert(db@.search_index =~= Seq::empty());
        db
    }

    /// When the last cycle was attempted; the epoch where none ever was.
    pub fn get_last_update(&self) -> (r: Timestamp)
        ensures
            r == match self@.last_update {
                Some(t) => t,
                None => Timestamp { secs: 0, nanos: 0 },
            },
    {
        match self.last_update {
            Some(t) => t,
            None => Timestamp::epoch(),
        }
    }

    /// Records that a cycle was attempted at `now`.
    pub fn set_last_update(&mut self, now: Timestamp)
        ensures
            final(self)@ == (DatabaseView { last_update: Some(now), ..old(self)@ }),
            final(self).counter() == old(self).counter(),
    {
        self.last_update = Some(now);
    }

    /// Stores the catalog entries `items`. An entry whose identifier the
    /// store knows changes nothing.
    pub fn add_ia_items(&mut self, items: &Vec<ItemInfo>)
        requires
            old(self).wf(),
        ensures
            final(self)@ == old(self)@.add_ia_items(items.deep_view()),
            final(self).wf(),
            final(self).counter() == old(self).counter(),
    {
        let ghost infos = items.deep_view();
        let mut i: usize = 0;
        assert(new_items(infos.take(0)) =~= Seq::empty());
        while i < items.len()
            invariant
                i <= items.len(),
                infos == items.deep_view(),
                self@ == old(self)@.add_ia_items(infos.take(i as int)),
                self.wf(),
                self.counter() == old(self).counter(),
            decreases items.len() - i,
        {
            let info = &items[i];
            proof {
                assert(new_items(infos.take(i + 1)).drop_last() =~= new_items(infos.take(i as int)));
                assert(new_items(infos.take(i + 1)).last() == new_item(info.deep_view()));
            }
            let row = ItemRecord {
                identifier: info.identifier.clone(),
                added_date: info.addeddate,
                public_date: info.publicdate,
                image_count: info.imagecount,
                refresh_date: None,
            };
            assert(row.deep_view() == new_item(info.deep_view()));
            insert_absent(&mut self.items, row);
            i += 1;
        }
        assert(infos.take(i as int) =~= infos);
    }

    /// The identifiers after `after_id` of the items whose files have never
    /// been listed or that became public within the three days before
    /// `now`, ascending, one page at most.
    pub fn get_ia_items_needing_refresh(&self, after_id: &str, now: Timestamp) -> (r: Vec<String>)
        requires
            self.wf(),
            now.secs - REFRESH_WINDOW_SECS >= i64::MIN,
        ensures
            r.deep_view() == self@.ia_items_needing_refresh(after_id@, now),
    {
        let cutoff = now.minus_secs(REFRESH_WINDOW_SECS);
        let ghost keep = refresh_filter(after_id@, cutoff);
        let ghost rows = self.items.deep_view();
        let mut out: Vec<String> = Vec::new();
        let mut i: usize = 0;
        while i < self.items.len()
            invariant
                i <= self.items.len(),
                rows == self.items.deep_view(),
                keep == refresh_filter(after_id@, cutoff),
                out.deep_view() =~= matching(rows.take(i as int), keep, PAGE_SIZE as int).map_values(
                    item_identifier(),
                ),
            decreases self.items.len() - i,
        {
            let item = &self.items[i];
            proof {
                lemma_matching_step(rows, keep, PAGE_SIZE as int, i as int);
                assert(rows[i as int] == item.deep_view());
            }
            let due = match item.refresh_date {
                None => true,
                Some(_) => cutoff.is_before(&item.public_date),
            };
            let later = match rank(after_id, item.identifier.as_str()) {
                Rank::Before => true,
                _ => false,
            };
            proof {
                crate::text::lemma_str_lt_irreflexive(after_id@);
                assert(keep(rows[i as int]) == (due && later));
            }
            let ghost picked = matching(rows.take(i as int), keep, PAGE_SIZE as int);
            if due && later && out.len() < PAGE_SIZE {
                out.push(item.identifier.clone());
                assert(picked.push(rows[i as int]).map_values(item_identifier()) =~= picked.map_values(
                    item_identifier(),
                ).push(rows[i as int].identifier));
            }
            i += 1;
        }
        assert(rows.take(i as int) =~= rows);
        out
    }

    /// Marks the files of item `identifier` as listed at `now`.
    pub fn set_ia_item_refresh_date(&mut self, identifier: &str, now: Timestamp)
        requires
            old(self).wf(),
        ensures
            final(self)@ == old(self)@.set_ia_item_refresh_date(identifier@, now),
            final(self).wf(),
            final(self).counter() == old(self).counter(),
    {
        let (at, found) = locate(&self.items, identifier, "");
        let ghost before = self.items.deep_view();
        proof {
            reveal_strlit("");
            assert(""@ =~= Seq::<char>::empty());
        }
        if found {
            self.items[at].refresh_date = Some(now);
        }
        proof {
            lemma_change_by_key::<ItemRecord>(
                before,
                (identifier@, Seq::empty()),
                at as int,
                stamped(identifier@, now),
            );
            assert(self.items.deep_view() =~= before.map_values(stamped(identifier@, now)));
        }
    }

    /// Stores the files of item `identifier`, each with its name, less one
    /// leading slash, and its size. A file that the store knows changes
    /// nothing.
    ///
    /// A size is a number of bytes: none may be negative. So no file of the
    /// store has a negative size, and no counter of a job ever falls.
    pub fn add_item_files(&mut self, identifier: &str, files: &Vec<(String, FileDetails)>)
        requires
            old(self).wf(),
            sizes_given(files.deep_view()),
        ensures
            final(self)@ == old(self)@.add_item_files(identifier@, files.deep_view()),
            final(self).wf(),
            final(self).counter() == old(self).counter(),
            sizes_counted(old(self)@.files) ==> sizes_counted(final(self)@.files),
    {
        let ghost list = files.deep_view();
        let mut i: usize = 0;
        assert(new_files(identifier@, list.take(0)) =~= Seq::empty());
        while i < files.len()
            invariant
                i <= files.len(),
                list == files.deep_view(),
                self@ == old(self)@.add_item_files(identifier@, list.take(i as int)),
                self.wf(),
                self.counter() == old(self).counter(),
            decreases files.len() - i,
        {
            let file = &files[i];
            proof {
                assert(new_files(identifier@, list.take(i + 1)).drop_last() =~= new_files(
                    identifier@,
                    list.take(i as int),
                ));
                assert(list[i as int] == file.deep_view());
                assert(new_files(identifier@, list.take(i + 1)).last() == new_file(
                    identifier@,
                    file.0@,
                    file.1.size,
                ));
            }
            let row = FileRecord {
                ia_item_id: identifier.to_owned(),
                filename: strip_slash(file.0.as_str()).to_owned(),
                size: file.1.size,
                job_id: None,
            };
            assert(row.deep_view() == new_file(identifier@, file.0@, file.1.size));
            insert_absent(&mut self.files, row);
            i += 1;
        }
        assert(list.take(i as int) =~= list);
        proof {
            if sizes_counted(old(self)@.files) {
                assert forall|k: int| 0 <= k < list.len() implies (#[trigger] new_files(identifier@, list)[k]).size
                    >= 0 by {
                    assert(list[k].1 >= 0);
                }
                lemma_sizes_stored(old(self)@.files, new_files(identifier@, list));
            }
        }
    }

    /// The files after the key `(after_id, after_filename)` that have no
    /// job, as item, name and size, ascending, one page at most.
    pub fn get_files_without_job_id(&self, after_id: &str, after_filename: &str) -> (r: Vec<
        (String, String, i64),
    >)
        requires
            self.wf(),
        ensures
            r.deep_view() == self@.files_without_job_id((after_id@, after_filename@)),
    {
        let ghost keep = jobless_filter((after_id@, after_filename@));
        let ghost rows = self.files.deep_view();
        let mut out: Vec<(String, String, i64)> = Vec::new();
        let mut i: usize = 0;
        while i < self.files.len()
            invariant
                i <= self.files.len(),
                rows == self.files.deep_view(),
                keep == jobless_filter((after_id@, after_filename@)),
                out.deep_view() =~= matching(rows.take(i as int), keep, PAGE_SIZE as int).map_values(
                    file_columns(),
                ),
            decreases self.files.len() - i,
        {
            let file = &self.files[i];
            proof {
                lemma_matching_step(rows, keep, PAGE_SIZE as int, i as int);
                assert(rows[i as int] == file.deep_view());
                crate::table::lemma_key_lt_irreflexive((after_id@, after_filename@));
            }
            let later = match key_rank(
                after_id,
                after_filename,
                file.ia_item_id.as_str(),
                file.filename.as_str(),
            ) {
                Rank::Before => true,
                _ => false,
            };
            let ghost picked = matching(rows.take(i as int), keep, PAGE_SIZE as int);
            if file.job_id.is_none() && later && out.len() < PAGE_SIZE {
                out.push((file.ia_item_id.clone(), file.filename.clone(), file.size));
                assert(picked.push(rows[i as int]).map_values(file_columns()) =~= picked.map_values(
                    file_columns(),
                ).push((rows[i as int].ia_item_id, rows[i as int].filename, rows[i as int].size)));
            }
            i += 1;
        }
        assert(rows.take(i as int) =~= rows);
        out
    }

    /// Adds the amounts of `jobs_args_list` to their jobs, creating each job
    /// that is missing with its short identifier and domain, and assigns
    /// the files of `files_args_list` to their jobs. All of it is written,
    /// or, where a counter would leave its range, nothing.
    pub fn update_jobs(
        &mut self,
        jobs_args_list: &Vec<UpdateJobArgs>,
        files_args_list: &Vec<UpdateFilesJobArgs>,
    ) -> (r: Result<(), StoreError>)
        requires
            old(self).wf(),
        ensures
            final(self).wf(),
            final(self).counter() == old(self).counter(),
            match old(self)@.update_jobs(jobs_args_list.deep_view(), files_args_list.deep_view()) {
                Some(v) => r is Ok && final(self)@ == v,
                None => r == Err::<(), StoreError>(StoreError::OutOfRange) && final(self)@ == old(self)@,
            },
    {
        let ghost ds = jobs_args_list.deep_view();
        let ghost list = files_args_list.deep_view();
        let ghost jobs_before = self.jobs.deep_view();
        let mut jobs = copy_jobs(&self.jobs);
        let mut i: usize = 0;
        while i < jobs_args_list.len()
            invariant
                i <= jobs_args_list.len(),
                ds == jobs_args_list.deep_view(),
                jobs_before == self.jobs.deep_view(),
                self@ == old(self)@,
                self.wf(),
                self.counter() == old(self).counter(),
                jobs_updated(jobs_before, ds.take(i as int)) == Some(jobs.deep_view()),
                ascending(keys_of::<JobRecord>(jobs.deep_view())),
            decreases jobs_args_list.len() - i,
        {
            let args = &jobs_args_list[i];
            let ghost d = args.deep_view();
            let ghost before = jobs.deep_view();
            proof {
                assert(ds.take(i + 1).drop_last() =~= ds.take(i as int));
                assert(ds.take(i + 1).last() == d);
                lemma_with_row::<JobRecord>(before, new_job(d));
                reveal_strlit("");
                assert(""@ =~= Seq::<char>::empty());
            }
            let row = JobRecord {
                id: args.job_id.clone(),
                short_id: args.short_id.clone(),
                domain: args.domain.clone(),
                url: String::new(),
                started_by: String::new(),
                aborts: 0,
                warcs: 0,
                jsons: 0,
                size: 0,
                search_id: None,
            };
            assert(row.deep_view() == new_job(d));
            insert_absent(&mut jobs, row);
            let ghost with = jobs.deep_view();
            let (at, found) = locate(&jobs, args.job_id.as_str(), "");
            assert(found);
            let job = &jobs[at];
            assert(with[at as int] == job.deep_view());
            proof {
                assert forall|j: int| 0 <= j < with.len() && (#[trigger] with[j]).id == d.job_id implies j
                    == at by {
                    lemma_key_once::<JobRecord>(with, j, at as int);
                }
            }
            match (
                sum(job.aborts, args.abort_inc),
                sum(job.warcs, args.warc_inc),
                sum(job.jsons, args.json_inc),
                sum(job.size, args.size_inc),
            ) {
                (Some(aborts), Some(warcs), Some(jsons), Some(size)) => {
                    let entry = &mut jobs[at];
                    entry.aborts = aborts;
                    entry.warcs = warcs;
                    entry.jsons = jsons;
                    entry.size = size;
                    proof {
                        lemma_change_by_key::<JobRecord>(
                            with,
                            (d.job_id, Seq::empty()),
                            at as int,
                            bump(d),
                        );
                        assert(jobs.deep_view() =~= with.map_values(bump(d)));
                        assert(job_updated(before, d) == Some(jobs.deep_view()));
                    }
                },
                _ => {
                    proof {
                        assert(!can_bump(with[at as int], d));
                        assert(job_updated(before, d) is None);
                        lemma_jobs_updated_fails(jobs_before, ds, i + 1);
                    }
                    return Err(StoreError::OutOfRange);
                },
            }
            i += 1;
        }
        assert(ds.take(i as int) =~= ds);
        self.jobs = jobs;
        let ghost files_before = self.files.deep_view();
        let mut k: usize = 0;
        while k < files_args_list.len()
            invariant
                k <= files_args_list.len(),
                list == files_args_list.deep_view(),
                self@ == (DatabaseView {
                    jobs: jobs_updated(jobs_before, ds)->0,
                    files: files_assigned(files_before, list.take(k as int)),
                    ..old(self)@
                }),
                jobs_updated(jobs_before, ds) is Some,
                jobs_before == old(self)@.jobs,
                files_before == old(self)@.files,
                self.wf(),
                self.counter() == old(self).counter(),
            decreases files_args_list.len() - k,
        {
            let args = &files_args_list[k];
            let ghost a = args.deep_view();
            let ghost before = self.files.deep_view();

            proof {
                assert(list.take(k + 1).drop_last() =~= list.take(k as int));
                assert(list.take(k + 1).last() == a);
            }
            let (at, found) = locate(&self.files, args.ia_item_id.as_str(), args.filename.as_str());
            if found {
                self.files[at].job_id = Some(args.job_id.clone());
            }
            proof {
                lemma_change_by_key::<FileRecord>(before, (a.0, a.1), at as int, assign(a));
                assert(self.files.deep_view() =~= before.map_values(assign(a)));
                assert(keys_of::<FileRecord>(self.files.deep_view()) == keys_of::<FileRecord>(before));
            }
            k += 1;
        }
        assert(list.take(k as int) =~= list);
        Ok(())
    }

    /// The files after the key `(after_id, after_filename)` with a name
    /// ending in `.json` whose job has no address yet, as item, name and
    /// job, ascending, one page at most.
    pub fn get_jobs_without_url(&self, after_id: &str, after_filename: &str) -> (r: Vec<
        (String, String, String),
    >)
        requires
            self.wf(),
        ensures
            r.deep_view() == self@.jobs_without_url((after_id@, after_filename@)),
    {
        let ghost keep = metadata_filter(self.jobs.deep_view(), (after_id@, after_filename@));
        let ghost rows = self.files.deep_view();
        let mut out: Vec<(String, String, String)> = Vec::new();
        let mut i: usize = 0;
        while i < self.files.len()
            invariant
                i <= self.files.len(),
                self.wf(),
                rows == self.files.deep_view(),
                keep == metadata_filter(self.jobs.deep_view(), (after_id@, after_filename@)),
                out.deep_view() =~= matching(rows.take(i as int), keep, PAGE_SIZE as int).map_values(
                    file_and_job(),
                ),
            decreases self.files.len() - i,
        {
            let file = &self.files[i];
            proof {
                lemma_matching_step(rows, keep, PAGE_SIZE as int, i as int);
                assert(rows[i as int] == file.deep_view());
                crate::table::lemma_key_lt_irreflexive((after_id@, after_filename@));
                reveal_strlit("");
                assert(""@ =~= Seq::<char>::empty());
            }
            let ghost picked = matching(rows.take(i as int), keep, PAGE_SIZE as int);
            match &file.job_id {
                Some(job) => {
                    let later = match key_rank(
                        after_id,
                        after_filename,
                        file.ia_item_id.as_str(),
                        file.filename.as_str(),
                    ) {
                        Rank::Before => true,
                        _ => false,
                    };
                    let (at, found) = locate(&self.jobs, job.as_str(), "");
                    let open = found && self.jobs[at].url.as_str().is_empty();
                    if found {
                        assert(self.jobs.deep_view()[at as int] == self.jobs[at as int].deep_view());
                    }
                    if later && open && ends_with_like(file.filename.as_str(), ".json") && out.len()
                        < PAGE_SIZE {
                        out.push((file.ia_item_id.clone(), file.filename.clone(), job.clone()));
                        assert(picked.push(rows[i as int]).map_values(file_and_job())
                            =~= picked.map_values(file_and_job()).push(
                            (rows[i as int].ia_item_id, rows[i as int].filename, rows[i as int].job_id->0),
                        ));
                    }
                },
                None => {},
            }
            i += 1;
        }
        assert(rows.take(i as int) =~= rows);
        out
    }

    /// Gives job `job_id` its address and initiator. The job's row of the
    /// search index takes the address too.
    pub fn add_job_url(&mut self, job_id: &str, url: &str, started_by: &str)
        requires
            old(self).wf(),
        ensures
            final(self)@ == old(self)@.add_job_url(job_id@, url@, started_by@),
            final(self).wf(),
            final(self).counter() == old(self).counter(),
    {
        proof {
            reveal_strlit("");
            assert(""@ =~= Seq::<char>::empty());
        }
        let ghost jobs_before = self.jobs.deep_view();
        let ghost index_before = self.search_index.deep_view();
        let (at, found) = locate(&self.jobs, job_id, "");
        let mut row: Option<i64> = None;
        if found {
            let job = &mut self.jobs[at];
            job.url = url.to_owned();
            job.started_by = started_by.to_owned();
            row = job.search_id;
        }
        proof {
            lemma_change_by_key::<JobRecord>(
                jobs_before,
                (job_id@, Seq::empty()),
                at as int,
                described(job_id@, url@, started_by@),
            );
            assert(self.jobs.deep_view() =~= jobs_before.map_values(described(job_id@, url@, started_by@)));
        }
        let ghost change = readdressed(row, url@);
        let mut i: usize = 0;
        while i < self.search_index.len()
            invariant
                i <= self.search_index.len(),
                self.search_index.len() == index_before.len(),
                change == readdressed(row, url@),
                forall|j: int| 0 <= j < i ==> (#[trigger] self.search_index.deep_view()[j]) == change(index_before[j]),
                forall|j: int|
                    i <= j < index_before.len() ==> (#[trigger] self.search_index.deep_view()[j])
                        == index_before[j],
                self.jobs.deep_view() == jobs_before.map_values(described(job_id@, url@, started_by@)),
                self.items.deep_view() == old(self)@.items,
                self.files.deep_view() == old(self)@.files,
                self.daily_stats@ == old(self)@.daily_stats,
                self.last_update == old(self)@.last_update,
                self.id_generator@ == old(self).id_generator@,
            decreases self.search_index.len() - i,
        {
            let ghost prev = self.search_index@;
            let ghost prev_view = self.search_index.deep_view();
            assert(self.search_index.deep_view()[i as int] == index_before[i as int]);
            if row == Some(self.search_index[i].rowid) {
                self.search_index[i].url = url.to_owned();
            }
            assert forall|j: int| 0 <= j < index_before.len() && j != i implies (
            #[trigger] self.search_index.deep_view()[j]) == prev_view[j] by {
                assert(self.search_index@[j] == prev[j]);
            }
            assert(self.search_index.deep_view()[i as int] == change(index_before[i as int]));
            i += 1;
        }
        proof {
            let after = self.search_index.deep_view();
            assert(after =~= index_before.map_values(change));
            assert forall|a: int, b: int| 0 <= a < b < after.len() implies (#[trigger] after[a]).rowid != (
            #[trigger] after[b]).rowid by {
                assert(index_before[a].rowid != index_before[b].rowid);
            }
        }
    }

    /// The identifiers after `after_id` of the jobs that the search index
    /// does not hold, ascending, one page at most.
    pub fn get_jobs_without_search(&self, after_id: &str) -> (r: Vec<String>)
        requires
            self.wf(),
        ensures
            r.deep_view() == self@.jobs_without_search(after_id@),
    {
        let ghost keep = unindexed_filter(after_id@);
        let ghost rows = self.jobs.deep_view();
        let mut out: Vec<String> = Vec::new();
        let mut i: usize = 0;
        while i < self.jobs.len()
            invariant
                i <= self.jobs.len(),
                rows == self.jobs.deep_view(),
                keep == unindexed_filter(after_id@),
                out.deep_view() =~= matching(rows.take(i as int), keep, PAGE_SIZE as int).map_values(
                    job_identifier(),
                ),
            decreases self.jobs.len() - i,
        {
            let job = &self.jobs[i];
            proof {
                lemma_matching_step(rows, keep, PAGE_SIZE as int, i as int);
                assert(rows[i as int] == job.deep_view());
                crate::text::lemma_str_lt_irreflexive(after_id@);
            }
            let later = match rank(after_id, job.id.as_str()) {
                Rank::Before => true,
                _ => false,
            };
            let ghost picked = matching(rows.take(i as int), keep, PAGE_SIZE as int);
            if job.search_id.is_none() && later && out.len() < PAGE_SIZE {
                out.push(job.id.clone());
                assert(picked.push(rows[i as int]).map_values(job_identifier()) =~= picked.map_values(
                    job_identifier(),
                ).push(rows[i as int].id));
            }
            i += 1;
        }
        assert(rows.take(i as int) =~= rows);
        out
    }

    /// Gives each job of `rows` the index row beside it, holding the job's
    /// domain and address as they stand. A job that the store does not know
    /// gets none. All of it is written, or, where a row number would be
    /// used twice, nothing.
    pub fn add_job_search_rows_with(&mut self, rows: &Vec<(String, i64)>) -> (r: Result<(), StoreError>)
        requires
            old(self).wf(),
        ensures
            final(self).wf(),
            final(self).counter() == old(self).counter(),
            match old(self)@.add_job_search_rows(rows.deep_view()) {
                Some(v) => r is Ok && final(self)@ == v,
                None => r == Err::<(), StoreError>(StoreError::Constraint) && final(self)@ == old(self)@,
            },
    {
        proof {
            reveal_strlit("");
            assert(""@ =~= Seq::<char>::empty());
        }
        let ghost list = rows.deep_view();
        let mut jobs = copy_jobs(&self.jobs);
        let mut index = copy_index(&self.search_index);
        let mut i: usize = 0;
        while i < rows.len()
            invariant
                i <= rows.len(),
                list == rows.deep_view(),
                self@ == old(self)@,
                self.wf(),
                self.id_generator@ == old(self).id_generator@,
                old(self)@.add_job_search_rows(list.take(i as int)) == Some(
                    DatabaseView { jobs: jobs.deep_view(), search_index: index.deep_view(), ..old(self)@ },
                ),
                ascending(keys_of::<JobRecord>(jobs.deep_view())),
                distinct_rows(index.deep_view()),
            decreases rows.len() - i,
        {
            let pair = &rows[i];
            let ghost jobs_before = jobs.deep_view();
            let ghost index_before = index.deep_view();
            proof {
                assert(list.take(i + 1).drop_last() =~= list.take(i as int));
                assert(list.take(i + 1).last() == pair.deep_view());
                reveal_strlit("");
                assert(""@ =~= Seq::<char>::empty());
            }
            let (at, found) = locate(&jobs, pair.0.as_str(), "");
            let ghost db = DatabaseView {
                jobs: jobs_before,
                search_index: index_before,
                ..old(self)@
            };
            assert(job_of(jobs_before, pair.0@) == if found {
                Some(jobs_before[at as int])
            } else {
                None
            });
            if found {
                if index_has(&index, pair.1) {
                    assert(db.add_job_search_row(pair.0@, pair.1) is None);
                    proof {
                        lemma_search_rows_fail(old(self)@, list, i + 1);
                    }
                    return Err(StoreError::Constraint);
                }
                let job = &mut jobs[at];
                job.search_id = Some(pair.1);
                let entry = SearchIndexEntry {
                    rowid: pair.1,
                    domain: job.domain.clone(),
                    url: job.url.clone(),
                };
                index.push(entry);
                proof {
                    lemma_change_by_key::<JobRecord>(
                        jobs_before,
                        (pair.0@, Seq::empty()),
                        at as int,
                        indexed(pair.0@, pair.1),
                    );
                    assert(jobs.deep_view() =~= jobs_before.map_values(indexed(pair.0@, pair.1)));
                    assert(index.deep_view() =~= index_before.push(
                        crate::records::SearchEntryView {
                            rowid: pair.1,
                            domain: jobs_before[at as int].domain,
                            url: jobs_before[at as int].url,
                        },
                    ));
                    let after = index.deep_view();
                    assert forall|a: int, b: int| 0 <= a < b < after.len() implies (#[trigger] after[a]).rowid
                        != (#[trigger] after[b]).rowid by {
                        if b < index_before.len() {
                            assert(index_before[a].rowid != index_before[b].rowid);
                        } else {
                            assert(after[a] == index_before[a]);
                        }
                    }
                    assert(db.add_job_search_row(pair.0@, pair.1) == Some(
                        DatabaseView { jobs: jobs.deep_view(), search_index: index.deep_view(), ..old(self)@ },
                    ));
                }
            } else {
                assert(db.add_job_search_row(pair.0@, pair.1) == Some(db));
            }
            i += 1;
        }
        assert(list.take(i as int) =~= list);
        self.jobs = jobs;
        self.search_index = index;
        Ok(())
    }

    /// Gives each job of `job_ids` a new row of the search index, numbered
    /// by the store's generator at the time of the system clock, and
    /// holding the job's domain and address as they stand. All of it is
    /// written, or, where a row number would be used twice, nothing; the
    /// generator has moved on either way. With an empty index, and no more
    /// jobs than the generator has counters, all of it is written.
    pub fn add_job_search_rows(&mut self, job_ids: &Vec<String>) -> (r: Result<(), StoreError>)
        requires
            old(self).wf(),
        ensures
            final(self).wf(),
            final(self).counter() == advance(old(self).counter(), job_ids.len() as nat),
            old(self)@.search_index.len() == 0 && job_ids.len() <= COUNTERS ==> r is Ok,
            exists|rows: Seq<(Seq<char>, i64)>|
                {
                    &&& rows.len() == job_ids.len()
                    &&& forall|i: int|
                        0 <= i < rows.len() ==> (#[trigger] rows[i]).0 == job_ids[i]@ && made_with(
                            rows[i].1,
                            advance(old(self).counter(), i as nat),
                        )
                    &&& match old(self)@.add_job_search_rows(rows) {
                        Some(v) => r is Ok && final(self)@ == v,
                        None => r == Err::<(), StoreError>(StoreError::Constraint) && final(self)@ == old(
                            self,
                        )@,
                    }
                },
    {
        let mut rows: Vec<(String, i64)> = Vec::new();
        let mut i: usize = 0;
        while i < job_ids.len()
            invariant
                i <= job_ids.len(),
                rows.len() == i,
                self@ == old(self)@,
                self.wf(),
                self.id_generator@ == advance(old(self).id_generator@, i as nat),
                forall|j: int|
                    0 <= j < i ==> (#[trigger] rows.deep_view()[j]).0 == job_ids[j]@ && made_with(
                        rows.deep_view()[j].1,
                        advance(old(self).id_generator@, j as nat),
                    ),
            decreases job_ids.len() - i,
        {
            let ghost before = rows.deep_view();
            let id = self.id_generator.generate();
            rows.push((job_ids[i].clone(), id));
            proof {
                let after = rows.deep_view();
                assert forall|j: int| 0 <= j < i + 1 implies (#[trigger] after[j]).0 == job_ids[j]@
                    && made_with(after[j].1, advance(old(self).id_generator@, j as nat)) by {
                    if j < i {
                        assert(after[j] == before[j]);
                    }
                }
            }
            i += 1;
        }
        let r = self.add_job_search_rows_with(&rows);
        assert(rows.deep_view().len() == job_ids.len());
        proof {
            if old(self)@.search_index.len() == 0 && job_ids.len() <= COUNTERS {
                let ids = job_ids.deep_view();
                assert forall|a: int| 0 <= a < ids.len() implies (#[trigger] rows.deep_view()[a]).0 == ids[a] by {
                    assert(ids[a] == job_ids[a]@);
                }
                lemma_first_rows_written(old(self)@, ids, old(self).counter(), rows.deep_view());
            }
        }
        r
    }

    /// The bytes of all files whose item became public on `date`, where
    /// they fit a 64-bit integer.
    fn day_total(&self, date: Date) -> (r: Option<i64>)
        requires
            self.wf(),
        ensures
            match r {
                Some(t) => t == bytes_of_day(self@.items, self@.files, date),
                None => {
                    let t = bytes_of_day(self@.items, self@.files, date);
                    t < i64::MIN || t > i64::MAX
                },
            },
    {
        let ghost items = self.items.deep_view();
        let ghost files = self.files.deep_view();
        let mut total: i128 = 0;
        let mut i: usize = 0;
        while i < self.files.len()
            invariant
                i <= self.files.len(),
                self.wf(),
                items == self.items.deep_view(),
                files == self.files.deep_view(),
                total == bytes_of_day(items, files.take(i as int), date),
                -i * 0x8000_0000_0000_0000 <= total <= i * 0x8000_0000_0000_0000,
            decreases self.files.len() - i,
        {
            let file = &self.files[i];
            proof {
                assert(files.take(i + 1).drop_last() =~= files.take(i as int));
                assert(files.take(i + 1).last() == file.deep_view());
                reveal_strlit("");
                assert(""@ =~= Seq::<char>::empty());
            }
            let (at, found) = locate(&self.items, file.ia_item_id.as_str(), "");
            if found && self.items[at].public_date.date() == date {
                assert(items[at as int] == self.items[at as int].deep_view());
                total = total + file.size as i128;
            }
            i += 1;
        }
        assert(files.take(i as int) =~= files);
        if total < -0x8000_0000_0000_0000i128 || total > 0x7fff_ffff_ffff_ffffi128 {
            None
        } else {
            Some(total as i64)
        }
    }

    /// Recomputes, for the day on which each item became public, the bytes
    /// of all files of the items of that day, and writes them over the
    /// day's statistic. A hundred items are written together; where a
    /// day's bytes do not fit a 64-bit integer, its batch and those after
    /// it are not written.
    pub fn populate_daily_stats(&mut self) -> (r: Result<(), StoreError>)
        requires
            old(self).wf(),
        ensures
            final(self).wf(),
            final(self).counter() == old(self).counter(),
            final(self)@ == old(self)@.populate_daily_stats().0,
            r is Ok == old(self)@.populate_daily_stats().1,
            r is Err ==> r == Err::<(), StoreError>(StoreError::OutOfRange),
    {
        let ghost db = self@;
        let mut from: usize = 0;
        while from < self.items.len()
            invariant
                from <= self.items.len(),
                db == old(self)@,
                self.wf(),
                self.id_generator@ == old(self).id_generator@,
                self@ == (DatabaseView { daily_stats: self.daily_stats@, ..db }),
                db.stats_from(db.daily_stats, 0) == db.stats_from(self.daily_stats@, from as int),
            decreases self.items.len() - from,
        {
            let to: usize = if self.items.len() - from >= STATS_BATCH {
                from + STATS_BATCH
            } else {
                self.items.len()
            };
            let ghost start = self.daily_stats@;
            let mut stats: Vec<DailyStat> = Vec::new();
            let mut c: usize = 0;
            while c < self.daily_stats.len()
                invariant
                    c <= self.daily_stats.len(),
                    stats@ =~= self.daily_stats@.take(c as int),
                decreases self.daily_stats.len() - c,
            {
                stats.push(self.daily_stats[c]);
                c += 1;
            }
            assert(stats@ =~= start);
            let mut k: usize = from;
            while k < to
                invariant
                    from <= k <= to <= self.items.len(),
                    db == old(self)@,
                    self.wf(),
                    self.id_generator@ == old(self).id_generator@,
                    self@ == (DatabaseView { daily_stats: start, ..db }),
                    db.stats_batch(start, from as int, k as int) == Some(stats@),
                    days_ascend(stats@),
                    db.stats_from(db.daily_stats, 0) == db.stats_from(start, from as int),
                    to == if from + STATS_BATCH <= self.items.len() {
                        from + STATS_BATCH
                    } else {
                        self.items.len() as int
                    },
                decreases to - k,
            {
                let date = self.items[k].public_date.date();
                assert(db.items[k as int] == self.items[k as int].deep_view());
                match self.day_total(date) {
                    Some(size) => {
                        put_stat(&mut stats, DailyStat { date, size });
                    },
                    None => {
                        proof {
                            assert(db.stats_batch(start, from as int, k + 1) is None);
                            lemma_stats_batch_fails(db, start, from as int, k + 1, to as int);
                        }
                        return Err(StoreError::OutOfRange);
                    },
                }
                k += 1;
            }
            self.daily_stats = stats;
            from = to;
        }
        Ok(())
    }
}

} // verus!
