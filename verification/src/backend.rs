//! The core as the presentation layer sees it: the stages that work on the
//! store, the search and the listings.

use vstd::prelude::*;
use crate::database::{Database, StoreError};
use crate::fixture::{
    law_test_data_described, law_test_data_indexed, test_address, test_catalog, test_data_stored, test_listing,
    TEST_ITEM,
};
use crate::jobs::aggregate_files;
use crate::model::DatabaseView;
use crate::ia::{FileDetails, ItemInfo};
use crate::records::{FileRecord, JobRecord};
use crate::search::{bare_link, host_of, link_domain, link_query};
use crate::idgen::{advance, lemma_advance_sum, made_with};
use crate::indexing::{
    entries_of, indexed_more, lemma_indexed_more_on, lemma_indexed_more_same, lemma_numbers_go_on,
    lemma_page_counts, lemma_page_indexed, lemma_page_more, lemma_page_names, lemma_rows_after_bound,
    indexed_with, made_in_order, moved_on, rows_drawn, COUNTERS,
};
use crate::model::{fallback_window, matching, sizes_given, unindexed_filter, PAGE_SIZE};
use crate::records::JobView;
use crate::stages::{lemma_aggregation_keeps_rest, lemma_grown_keys, lemma_rows_after_same_keys};
use crate::table::{key_lt, Keyed};
use crate::stages::{
    all_indexed, grown, indexed_upto, lemma_grown_transitive, lemma_index_page_advances,
    lemma_indexed_upto_end, lemma_indexed_upto_start, lemma_indexed_upto_step, lemma_page_advances,
    lemma_search_rows_grow, lemma_search_rows_indexed, named_indexed, rows_after, test_files, test_items,
};
use crate::model::REFRESH_WINDOW_SECS;
use crate::sync::{Action, ActionView, Event, EventView};
use crate::time::{Date, Timestamp};

verus! {

/// One result of a search.
#[derive(Debug, Clone)]
pub struct SearchResult {
    pub result_type: String,
    pub job_id: String,
    pub domain: String,
    pub url: String,
}

/// A job that an audit lists.
#[derive(Debug, Clone)]
pub struct AuditItem {
    pub job_id: String,
    pub domain: String,
}

/// A job of one domain.
#[derive(Debug, Clone)]
pub struct DomainRow {
    pub job_id: String,
    pub url: String,
}

/// A file of one item.
#[derive(Debug, Clone)]
pub struct ItemRow {
    pub filename: String,
    pub size: i64,
    pub job_id: String,
}

/// A job in the listing of all jobs.
#[derive(Debug, Clone)]
pub struct JobsRow {
    pub job_id: String,
    pub domain: String,
    pub url: String,
}

/// A file of one job.
#[derive(Debug, Clone)]
pub struct JobRow {
    pub ia_item_id: String,
    pub filename: String,
    pub size: i64,
}

/// The bytes that count under one name.
#[derive(Debug, Clone)]
pub struct CostRow {
    pub who: String,
    pub size: i64,
}

impl DeepView for SearchResult {
    type V = (Seq<char>, Seq<char>, Seq<char>, Seq<char>);

    open spec fn deep_view(&self) -> (Seq<char>, Seq<char>, Seq<char>, Seq<char>) {
        (self.result_type@, self.job_id@, self.domain@, self.url@)
    }
}

impl DeepView for AuditItem {
    type V = (Seq<char>, Seq<char>);

    open spec fn deep_view(&self) -> (Seq<char>, Seq<char>) {
        (self.job_id@, self.domain@)
    }
}

impl DeepView for DomainRow {
    type V = (Seq<char>, Seq<char>);

    open spec fn deep_view(&self) -> (Seq<char>, Seq<char>) {
        (self.job_id@, self.url@)
    }
}

impl DeepView for ItemRow {
    /// The file's name, its job and its size.
    type V = (Seq<char>, Seq<char>, i64);

    open spec fn deep_view(&self) -> (Seq<char>, Seq<char>, i64) {
        (self.filename@, self.job_id@, self.size)
    }
}

impl DeepView for JobsRow {
    type V = (Seq<char>, Seq<char>, Seq<char>);

    open spec fn deep_view(&self) -> (Seq<char>, Seq<char>, Seq<char>) {
        (self.job_id@, self.domain@, self.url@)
    }
}

impl DeepView for JobRow {
    type V = (Seq<char>, Seq<char>, i64);

    open spec fn deep_view(&self) -> (Seq<char>, Seq<char>, i64) {
        (self.ia_item_id@, self.filename@, self.size)
    }
}

impl DeepView for CostRow {
    type V = (Seq<char>, i64);

    open spec fn deep_view(&self) -> (Seq<char>, i64) {
        (self.who@, self.size)
    }
}

/// A search result of kind `kind` for the row `row`, given as job, domain
/// and address.
pub open spec fn labelled(kind: Seq<char>) -> spec_fn((Seq<char>, Seq<char>, Seq<char>)) -> (
    Seq<char>,
    Seq<char>,
    Seq<char>,
    Seq<char>,
) {
    |row: (Seq<char>, Seq<char>, Seq<char>)| (kind, row.0, row.1, row.2)
}

/// The rows `rows`, each as a search result of kind `kind`.
pub fn search_results(rows: Vec<(String, String, String)>, kind: &str) -> (r: Vec<SearchResult>)
    ensures
        r.deep_view() == rows.deep_view().map_values(labelled(kind@)),
{
    let mut out: Vec<SearchResult> = Vec::new();
    let mut i: usize = 0;
    while i < rows.len()
        invariant
            i <= rows.len(),
            out.deep_view() =~= rows.deep_view().take(i as int).map_values(labelled(kind@)),
        decreases rows.len() - i,
    {
        let row = &rows[i];
        let ghost before = out.deep_view();
        assert(rows.deep_view()[i as int] == row.deep_view());
        out.push(
            SearchResult {
                result_type: kind.to_owned(),
                job_id: row.0.clone(),
                domain: row.1.clone(),
                url: row.2.clone(),
            },
        );
        assert(out.deep_view() =~= before.push((kind@, row.0@, row.1@, row.2@)));
        i += 1;
    }
    assert(rows.deep_view().take(i as int) =~= rows.deep_view());
    out
}

/// The core over its store.
#[derive(Debug, Clone)]
pub struct Backend {
    pub database: Database,
}

impl View for Backend {
    type V = DatabaseView;

    open spec fn view(&self) -> DatabaseView {
        self.database@
    }
}

impl Backend {
    /// The store keeps its tables in order, each key once.
    pub open spec fn wf(&self) -> bool {
        self.database.wf()
    }

    /// A core over an empty store.
    pub fn new() -> (r: Backend)
        ensures
            r@ == DatabaseView::empty(),
            r.wf(),
    {
        Backend { database: Database::new() }
    }

    /// Assigns every file that has no job, and whose name follows the
    /// grammar, to its job, page by page in the order of the files' keys,
    /// and adds what each page amounts to to the jobs' counters. A page
    /// that would take a counter out of its range fails, and is not
    /// written, nor are the pages after it.
    pub fn populate_jobs(&mut self) -> (r: Result<(), StoreError>)
        requires
            old(self).wf(),
        ensures
            final(self).wf(),
            final(self).database.counter() == old(self).database.counter(),
            final(self)@ == old(self)@.populate_jobs().0,
            r is Ok == old(self)@.populate_jobs().1,
            r is Err ==> r == Err::<(), StoreError>(StoreError::OutOfRange),
    {
        let mut after_id = String::new();
        let mut after_filename = String::new();
        loop
            invariant
                self.wf(),
                self.database.counter() == old(self).database.counter(),
                old(self)@.populate_jobs() == self@.aggregate_from((after_id@, after_filename@)),
            decreases rows_after::<FileRecord>(self@.files, (after_id@, after_filename@)),
        {
            let files = self.database.get_files_without_job_id(after_id.as_str(), after_filename.as_str());
            if files.len() == 0 {
                return Ok(());
            }
            let (jobs, assigned) = match aggregate_files(&files) {
                Some(page) => page,
                None => {
                    return Err(StoreError::OutOfRange);
                },
            };
            proof {
                lemma_page_advances(self@, (after_id@, after_filename@));
            }
            match self.database.update_jobs(&jobs, &assigned) {
                Ok(()) => {},
                Err(e) => {
                    return Err(e);
                },
            }
            let last = &files[files.len() - 1];
            assert(files.deep_view().last() == last.deep_view());
            after_id = last.0.clone();
            after_filename = last.1.clone();
        }
    }

    /// Recomputes the daily statistics from the files as they stand.
    pub fn populate_daily_stats(&mut self) -> (r: Result<(), StoreError>)
        requires
            old(self).wf(),
        ensures
            final(self).wf(),
            final(self).database.counter() == old(self).database.counter(),
            final(self)@ == old(self)@.populate_daily_stats().0,
            r is Ok == old(self)@.populate_daily_stats().1,
            r is Err ==> r == Err::<(), StoreError>(StoreError::OutOfRange),
    {
        self.database.populate_daily_stats()
    }

    /// Gives every job that the search index does not hold a new row of the
    /// index with the job's domain and address, page by page in the order
    /// of the jobs' identifiers; the row numbers come from the store's
    /// generator at the time of the system clock. Nothing else changes: a
    /// job keeps the row that it had, and the index takes one row for each
    /// job that took one.
    ///
    /// A page with a row number that the index holds already fails, and is
    /// not written, nor are the pages after it. That cannot happen where
    /// the index is empty and the jobs are no more than the generator has
    /// counters; and where no job lacks a row, nothing is done. Where no
    /// page fails, every job with an identifier has its row afterwards.
    pub fn populate_search(&mut self) -> (r: Result<(), StoreError>)
        requires
            old(self).wf(),
        ensures
            final(self).wf(),
            grown(old(self)@, final(self)@),
            indexed_more(old(self)@, final(self)@),
            r is Ok ==> all_indexed(final(self)@),
            r is Err ==> r == Err::<(), StoreError>(StoreError::Constraint),
            old(self)@.jobs_without_search(Seq::empty()).len() == 0 ==> r is Ok && final(self)@ == old(self)@,
            old(self)@.search_index.len() == 0 && old(self)@.jobs.len() <= COUNTERS ==> r is Ok,
            r is Ok ==> final(self).database.counter() == advance(
                old(self).database.counter(),
                (final(self)@.search_index.len() - old(self)@.search_index.len()) as nat,
            ),
            moved_on(
                old(self).database.counter(),
                final(self).database.counter(),
                final(self)@.search_index.len() - old(self)@.search_index.len(),
            ),
    {
        let mut after_id = String::new();
        let ghost start = self.database.counter();
        let ghost sure = self@.search_index.len() == 0 && self@.jobs.len() <= COUNTERS;
        let ghost mut untouched = true;
        proof {
            assert(self@.search_index.is_prefix_of(self@.search_index));
            lemma_indexed_upto_start(self@);
            lemma_indexed_more_same(self@);
            lemma_rows_after_bound::<JobRecord>(self@.jobs, (Seq::empty(), Seq::empty()));
        }
        loop
            invariant
                self.wf(),
                grown(old(self)@, self@),
                indexed_more(old(self)@, self@),
                indexed_upto(self@, after_id@),
                start == old(self).database.counter(),
                sure == (old(self)@.search_index.len() == 0 && old(self)@.jobs.len() <= COUNTERS),
                self.database.counter() == advance(
                    start,
                    (self@.search_index.len() - old(self)@.search_index.len()) as nat,
                ),
                sure ==> made_in_order(self@.search_index, start),
                sure ==> self@.search_index.len() + rows_after::<JobRecord>(self@.jobs, (after_id@, Seq::empty()))
                    <= self@.jobs.len(),
                untouched ==> self@ == old(self)@ && after_id@ == Seq::<char>::empty(),
                !untouched ==> old(self)@.jobs_without_search(Seq::empty()).len() > 0,
            decreases rows_after::<JobRecord>(self@.jobs, (after_id@, Seq::empty())),
        {
            let job_ids = self.database.get_jobs_without_search(after_id.as_str());
            if job_ids.len() == 0 {
                proof {
                    lemma_indexed_upto_end(self@, after_id@);
                    assert(self.database.counter() == advance(
                        start,
                        (self@.search_index.len() - old(self)@.search_index.len()) as nat,
                    ));
                }
                return Ok(());
            }
            let ghost before = self@;
            let ghost counter = self.database.counter();
            let ghost ids = job_ids.deep_view();
            let ghost grew = (before.search_index.len() - old(self)@.search_index.len()) as nat;
            let r = self.database.add_job_search_rows(&job_ids);
            proof {
                let rows = choose|rows: Seq<(Seq<char>, i64)>|
                    {
                        &&& rows.len() == job_ids.len()
                        &&& forall|i: int|
                            0 <= i < rows.len() ==> (#[trigger] rows[i]).0 == job_ids[i]@ && made_with(
                                rows[i].1,
                                advance(counter, i as nat),
                            )
                        &&& match before.add_job_search_rows(rows) {
                            Some(v) => r is Ok && self@ == v,
                            None => r == Err::<(), StoreError>(StoreError::Constraint) && self@ == before,
                        }
                    };
                assert forall|k: int| 0 <= k < rows.len() implies (#[trigger] rows[k]).0 == ids[k] by {
                    assert(job_ids.deep_view()[k] == job_ids[k]@);
                }
                assert(rows_drawn(ids, counter, rows));
                lemma_search_rows_grow(before, rows);
                assert(before.search_index.is_prefix_of(before.search_index));
                lemma_grown_transitive(old(self)@, before, self@);
                lemma_page_names(before, after_id@, rows);
                lemma_page_indexed(before, rows);
                lemma_advance_sum(start, grew, rows.len());
                let keep = unindexed_filter(after_id@);
                assert forall|v: JobView| #[trigger] keep(v) implies key_lt(
                    (after_id@, Seq::empty()),
                    JobRecord::key_of(v),
                ) by {}
                lemma_page_counts::<JobRecord>(before.jobs, keep, PAGE_SIZE as int, (after_id@, Seq::empty()));
                let picked = matching(before.jobs, keep, PAGE_SIZE as int);
                assert(picked.len() == ids.len());
                assert(JobRecord::key_of(picked.last()) == (ids.last(), Seq::<char>::empty()));
                if sure {
                    lemma_numbers_go_on(before.search_index, start, ids, rows);
                }
                if r is Ok {
                    lemma_page_more(before, rows, self@);
                    lemma_indexed_more_on(old(self)@, before, self@);
                    lemma_indexed_upto_step(before, after_id@, rows, self@);
                    lemma_index_page_advances(before, after_id@, self@);
                    lemma_grown_keys(before, self@);
                    lemma_rows_after_same_keys::<JobRecord>(
                        self@.jobs,
                        before.jobs,
                        (ids.last(), Seq::empty()),
                    );
                    let n = before.search_index.len() as int;
                    assert(self@.search_index.len() == n + rows.len());
                    if sure {
                        assert forall|k: int| 0 <= k < self@.search_index.len() implies made_with(
                            (#[trigger] self@.search_index[k]).rowid,
                            advance(start, k as nat),
                        ) by {
                            if k < n {
                                assert(self@.search_index[k] == before.search_index[k]);
                            } else {
                                assert(self@.search_index[k] == entries_of(before.jobs, rows)[k - n]);
                                lemma_advance_sum(start, n as nat, (k - n) as nat);
                            }
                        }
                    }
                    untouched = false;
                } else {
                    assert(moved_on(start, self.database.counter(), grew as int)) by {
                        assert(self.database.counter() == advance(start, grew + rows.len()));
                    }
                }
            }
            match r {
                Ok(()) => {},
                Err(e) => {
                    return Err(e);
                },
            }
            let last = &job_ids[job_ids.len() - 1];
            assert(job_ids.deep_view().last() == last@);
            after_id = last.clone();
        }
    }

    /// Loads the test data, an item with an archive and a metadata document
    /// of one job, as listed at `now`, and runs the stages that work on the
    /// store over it: the files are aggregated, the statistics recomputed,
    /// the job is given its address and initiator, and the jobs are
    /// indexed. Stops at the first stage that fails.
    ///
    /// On an empty store every stage succeeds, and the store then holds
    /// the item, its two files, their one job with its counters, address,
    /// initiator and index row, and the statistics of the item's day.
    pub fn populate_test_data(&mut self, now: Timestamp) -> (r: Result<(), StoreError>)
        requires
            old(self).wf(),
        ensures
            final(self).wf(),
            ({
                let loaded = old(self)@.with_test_data(now);
                let (aggregated, aggregated_all) = loaded.populate_jobs();
                let (counted, counted_all) = aggregated.populate_daily_stats();
                if !aggregated_all {
                    r is Err && final(self)@ == aggregated
                } else if !counted_all {
                    r is Err && final(self)@ == counted
                } else {
                    let described = counted.with_test_url();
                    &&& grown(described, final(self)@)
                    &&& indexed_more(described, final(self)@)
                    &&& r is Ok ==> all_indexed(final(self)@)
                    &&& r is Err ==> r == Err::<(), StoreError>(StoreError::Constraint)
                    &&& described.search_index.len() == 0 && described.jobs.len() <= COUNTERS ==> r is Ok
                }
            }),
            old(self)@ == DatabaseView::empty() ==> r is Ok && test_data_stored(final(self)@, now),
            old(self)@.search_index.len() <= final(self)@.search_index.len(),
            r is Ok ==> final(self).database.counter() == advance(
                old(self).database.counter(),
                (final(self)@.search_index.len() - old(self)@.search_index.len()) as nat,
            ),
            moved_on(
                old(self).database.counter(),
                final(self).database.counter(),
                final(self)@.search_index.len() - old(self)@.search_index.len(),
            ),
    {
        proof {
            if old(self)@ == DatabaseView::empty() {
                law_test_data_described(now);
            }
            lemma_aggregation_keeps_rest(old(self)@.with_test_data(now), (Seq::empty(), Seq::empty()));
            assert(old(self).database.counter() == advance(old(self).database.counter(), 0));
        }
        let items = test_catalog();
        self.database.add_ia_items(&items);
        let files = test_listing();
        assert(sizes_given(test_files()));
        proof {
            reveal_strlit("test_item_1");
        }
        self.database.add_item_files(TEST_ITEM, &files);
        self.database.set_ia_item_refresh_date(TEST_ITEM, now);
        match self.populate_jobs() {
            Ok(()) => {},
            Err(e) => {
                return Err(e);
            },
        }
        match self.populate_daily_stats() {
            Ok(()) => {},
            Err(e) => {
                return Err(e);
            },
        }
        let job = test_address();
        self.database.add_job_url(job.job_id.as_str(), job.url.as_str(), job.started_by.as_str());
        let ghost described = self@;
        let r = self.populate_search();
        proof {
            if old(self)@ == DatabaseView::empty() {
                law_test_data_indexed(described, self@, now);
            }
        }
        r
    }

    /// Does what the cycle asks for, at time `now`, where the store can do
    /// it, and returns what came of it. Returns `None`, and does nothing,
    /// where the action is a remote call or a wait.
    pub fn perform(&mut self, action: Action, now: Timestamp) -> (r: Option<Event>)
        requires
            old(self).wf(),
            now.secs - REFRESH_WINDOW_SECS >= i64::MIN,
        ensures
            final(self).wf(),
            final(self).database.counter() == match action.deep_view() {
                ActionView::IndexJobs { job_ids } => advance(old(self).database.counter(), job_ids.len()),
                _ => old(self).database.counter(),
            },
            match action.deep_view() {
                ActionView::ReadClock => final(self)@ == old(self)@ && r.deep_view() == Some(
                    EventView::Clock {
                        now,
                        last_update: match old(self)@.last_update {
                            Some(t) => t,
                            None => Timestamp { secs: 0, nanos: 0 },
                        },
                    },
                ),
                ActionView::StoreItems { items } => final(self)@ == old(self)@.add_ia_items(items)
                    && r.deep_view() == Some(EventView::Done),
                ActionView::SelectItems { after_id } => final(self)@ == old(self)@ && r.deep_view() == Some(
                    EventView::Identifiers { ids: old(self)@.ia_items_needing_refresh(after_id, now) },
                ),
                ActionView::StoreFiles { identifier, files } => if sizes_given(files) {
                    final(self)@ == old(self)@.add_item_files(identifier, files) && r.deep_view() == Some(
                        EventView::Done,
                    )
                } else {
                    final(self)@ == old(self)@ && r.deep_view() == Some(EventView::Failed)
                },
                ActionView::StampRefresh { identifier } => final(self)@
                    == old(self)@.set_ia_item_refresh_date(identifier, now) && r.deep_view() == Some(
                    EventView::Done,
                ),
                ActionView::SelectFiles { after_id, after_filename } => final(self)@ == old(self)@
                    && r.deep_view() == Some(
                    EventView::FileRows { rows: old(self)@.files_without_job_id((after_id, after_filename)) },
                ),
                ActionView::WriteJobs { jobs, assigned } => match old(self)@.update_jobs(jobs, assigned) {
                    Some(v) => final(self)@ == v && r.deep_view() == Some(EventView::Done),
                    None => final(self)@ == old(self)@ && r.deep_view() == Some(EventView::Failed),
                },
                ActionView::RecomputeStats => final(self)@ == old(self)@.populate_daily_stats().0
                    && r.deep_view() == Some(
                    if old(self)@.populate_daily_stats().1 {
                        EventView::Done
                    } else {
                        EventView::Failed
                    },
                ),
                ActionView::SelectJobs { after_id } => final(self)@ == old(self)@ && r.deep_view() == Some(
                    EventView::JobIds { ids: old(self)@.jobs_without_search(after_id) },
                ),
                ActionView::IndexJobs { job_ids } => {
                    &&& r.deep_view() == Some(EventView::Done) || r.deep_view() == Some(EventView::Failed)
                    &&& indexed_with(
                        old(self)@,
                        job_ids,
                        old(self).database.counter(),
                        final(self)@,
                        r.deep_view() == Some(EventView::Done),
                    )
                    &&& job_ids.len() == 0 ==> r.deep_view() == Some(EventView::Done) && final(self)@ == old(self)@
                    &&& old(self)@.search_index.len() == 0 && job_ids.len() <= COUNTERS ==> r.deep_view() == Some(
                        EventView::Done,
                    )
                    &&& grown(old(self)@, final(self)@)
                    &&& r.deep_view() == Some(EventView::Done) ==> named_indexed(final(self)@.jobs, job_ids)
                },
                ActionView::WriteWatermark => final(self)@ == (DatabaseView {
                    last_update: Some(now),
                    ..old(self)@
                }) && r.deep_view() == Some(EventView::Done),
                _ => final(self)@ == old(self)@ && r is None,
            },
    {
        match action {
            Action::ReadClock => Some(Event::Clock { now, last_update: self.database.get_last_update() }),
            Action::StoreItems { items } => {
                self.database.add_ia_items(&items);
                Some(Event::Done)
            },
            Action::SelectItems { after_id } => Some(
                Event::Identifiers { ids: self.database.get_ia_items_needing_refresh(after_id.as_str(), now) },
            ),
            Action::StoreFiles { identifier, files } => {
                if sizes_valid(&files.files) {
                    self.database.add_item_files(identifier.as_str(), &files.files);
                    Some(Event::Done)
                } else {
                    Some(Event::Failed)
                }
            },
            Action::StampRefresh { identifier } => {
                self.database.set_ia_item_refresh_date(identifier.as_str(), now);
                Some(Event::Done)
            },
            Action::SelectFiles { after_id, after_filename } => Some(
                Event::FileRows {
                    rows: self.database.get_files_without_job_id(after_id.as_str(), after_filename.as_str()),
                },
            ),
            Action::WriteJobs { jobs, assigned } => match self.database.update_jobs(&jobs, &assigned) {
                Ok(()) => Some(Event::Done),
                Err(_) => Some(Event::Failed),
            },
            Action::RecomputeStats => match self.database.populate_daily_stats() {
                Ok(()) => Some(Event::Done),
                Err(_) => Some(Event::Failed),
            },
            Action::SelectJobs { after_id } => Some(
                Event::JobIds { ids: self.database.get_jobs_without_search(after_id.as_str()) },
            ),
            Action::IndexJobs { job_ids } => {
                let ghost before = self@;
                let ghost counter = self.database.counter();
                let r = self.database.add_job_search_rows(&job_ids);
                proof {
                    let rows = choose|rows: Seq<(Seq<char>, i64)>|
                        {
                            &&& rows.len() == job_ids.len()
                            &&& forall|i: int|
                                0 <= i < rows.len() ==> (#[trigger] rows[i]).0 == job_ids[i]@ && made_with(
                                    rows[i].1,
                                    advance(counter, i as nat),
                                )
                            &&& match before.add_job_search_rows(rows) {
                                Some(v) => r is Ok && self@ == v,
                                None => r == Err::<(), StoreError>(StoreError::Constraint) && self@ == before,
                            }
                        };
                    lemma_search_rows_grow(before, rows);
                    lemma_search_rows_indexed(before, rows);
                    assert(before.search_index.is_prefix_of(before.search_index));
                    let ids = job_ids.deep_view();
                    assert forall|a: int| 0 <= a < rows.len() implies (#[trigger] rows[a]).0 == ids[a] by {
                        assert(job_ids.deep_view()[a] == job_ids[a]@);
                    }
                    assert(rows_drawn(ids, counter, rows));
                    if ids.len() == 0 {
                        assert(before.add_job_search_rows(rows) == Some(before));
                    }
                    if r is Ok {
                        assert forall|i: int, k: int|
                            0 <= i < self@.jobs.len() && 0 <= k < ids.len() && (#[trigger] self@.jobs[i]).id
                                == #[trigger] ids[k] implies self@.jobs[i].search_id is Some by {
                            assert(rows[k].0 == job_ids[k]@);
                        }
                    }
                }
                match r {
                    Ok(()) => Some(Event::Done),
                    Err(_) => Some(Event::Failed),
                }
            },
            Action::WriteWatermark => {
                self.database.set_last_update(now);
                Some(Event::Done)
            },
            _ => None,
        }
    }

    /// The jobs that `query` names, as results of kind `job`.
    pub fn search_job(&self, query: &str, limit: i64, offset: i64) -> (r: Vec<SearchResult>)
        ensures
            r.deep_view() == self@.search_job_id(query@, offset, limit).map_values(labelled("job"@)),
    {
        search_results(self.database.search_job_id(query, offset, limit), "job")
    }

    /// The jobs that the link `query` leads to, as results of kind
    /// `domain`: those whose indexed domain matches the host of the link,
    /// the text between its scheme and `www.` and its first slash, in its
    /// ASCII form and, where `full` is set, those whose indexed address
    /// matches the link without its scheme and `www.`.
    pub fn search_link(&self, query: &str, full: bool, limit: i64, offset: i64) -> (r: Vec<SearchResult>)
        ensures
            r.deep_view() == (if full {
                self@.search_full(
                    link_domain(host_of(bare_link(query@))),
                    bare_link(query@),
                    offset,
                    limit,
                )
            } else {
                self@.search_domain(link_domain(host_of(bare_link(query@))), offset, limit)
            }).map_values(labelled("domain"@)),
    {
        let link = link_query(query);
        let rows = if full {
            self.database.search_full(link.domain.as_str(), link.url.as_str(), offset, limit)
        } else {
            self.database.search_domain(link.domain.as_str(), offset, limit)
        };
        search_results(rows, "domain")
    }

    /// Everything that `query` finds: the jobs it names, then the jobs it
    /// leads to as a link.
    pub fn search(&self, query: &str, full: bool, limit: i64, offset: i64) -> (r: Vec<SearchResult>)
        ensures
            r.deep_view() == self@.search_job_id(query@, offset, limit).map_values(labelled("job"@)) + (if full {
                self@.search_full(
                    link_domain(host_of(bare_link(query@))),
                    bare_link(query@),
                    offset,
                    limit,
                )
            } else {
                self@.search_domain(link_domain(host_of(bare_link(query@))), offset, limit)
            }).map_values(labelled("domain"@)),
    {
        let mut rows = self.search_job(query, limit, offset);
        let mut links = self.search_link(query, full, limit, offset);
        let ghost a = rows.deep_view();
        let ghost b = links.deep_view();
        rows.append(&mut links);
        assert(rows.deep_view() =~= a + b);
        rows
    }

    /// When the last cycle was attempted; the epoch where none ever was.
    pub fn get_last_update(&self) -> (r: Timestamp)
        ensures
            r == match self@.last_update {
                Some(t) => t,
                None => Timestamp { secs: 0, nanos: 0 },
            },
    {
        self.database.get_last_update()
    }

    /// The jobs without a metadata document.
    pub fn get_audit_no_json_items(&self) -> (r: Vec<AuditItem>)
        ensures
            r.deep_view() == self@.no_json_jobs(),
    {
        audit_items(self.database.get_no_json_jobs())
    }

    /// The jobs without an archive.
    pub fn get_audit_no_warc_items(&self) -> (r: Vec<AuditItem>)
        ensures
            r.deep_view() == self@.no_warc_jobs(),
    {
        audit_items(self.database.get_no_warc_jobs())
    }

    /// The statistics, as day and bytes, ascending by day.
    pub fn get_daily_stats(&self) -> (r: Vec<(Date, i64)>)
        ensures
            r@ == self@.daily_stat_rows(),
    {
        self.database.get_daily_stats()
    }

    /// A window of the jobs' domains, each once, ascending.
    pub fn get_domains(&self, limit: i64, offset: i64) -> (r: Vec<String>)
        ensures
            r.deep_view() == self@.domains(limit, offset),
    {
        self.database.get_domains(limit, offset)
    }

    /// The jobs of domain `domain`.
    pub fn get_domain(&self, domain: &str) -> (r: Vec<DomainRow>)
        ensures
            r.deep_view() == self@.jobs_by_domain(domain@),
    {
        let rows = self.database.get_jobs_by_domain(domain);
        let mut out: Vec<DomainRow> = Vec::new();
        let mut i: usize = 0;
        while i < rows.len()
            invariant
                i <= rows.len(),
                out.deep_view() =~= rows.deep_view().take(i as int),
            decreases rows.len() - i,
        {
            let row = &rows[i];
            let ghost before = out.deep_view();
            assert(rows.deep_view()[i as int] == row.deep_view());
            out.push(DomainRow { job_id: row.0.clone(), url: row.1.clone() });
            assert(out.deep_view() =~= before.push((row.0@, row.1@)));
            i += 1;
        }
        assert(rows.deep_view().take(i as int) =~= rows.deep_view());
        out
    }

    /// A window of the items' identifiers, ascending.
    pub fn get_items(&self, limit: i64, offset: i64) -> (r: Vec<String>)
        ensures
            r.deep_view() == self@.item_ids(limit, offset),
    {
        self.database.get_items(limit, offset)
    }

    /// The files of item `identifier`.
    pub fn get_item(&self, identifier: &str) -> (r: Vec<ItemRow>)
        ensures
            r.deep_view() == self@.files_by_item(identifier@),
    {
        let rows = self.database.get_files_by_item(identifier);
        let mut out: Vec<ItemRow> = Vec::new();
        let mut i: usize = 0;
        while i < rows.len()
            invariant
                i <= rows.len(),
                out.deep_view() =~= rows.deep_view().take(i as int),
            decreases rows.len() - i,
        {
            let row = &rows[i];
            let ghost before = out.deep_view();
            assert(rows.deep_view()[i as int] == row.deep_view());
            out.push(ItemRow { filename: row.0.clone(), job_id: row.1.clone(), size: row.2 });
            assert(out.deep_view() =~= before.push((row.0@, row.1@, row.2)));
            i += 1;
        }
        assert(rows.deep_view().take(i as int) =~= rows.deep_view());
        out
    }

    /// A window of the jobs, ascending by identifier.
    pub fn get_jobs(&self, limit: i64, offset: i64) -> (r: Vec<JobsRow>)
        ensures
            r.deep_view() == self@.job_rows(limit, offset),
    {
        let rows = self.database.get_jobs(limit, offset);
        let mut out: Vec<JobsRow> = Vec::new();
        let mut i: usize = 0;
        while i < rows.len()
            invariant
                i <= rows.len(),
                out.deep_view() =~= rows.deep_view().take(i as int),
            decreases rows.len() - i,
        {
            let row = &rows[i];
            let ghost before = out.deep_view();
            assert(rows.deep_view()[i as int] == row.deep_view());
            out.push(JobsRow { job_id: row.0.clone(), domain: row.1.clone(), url: row.2.clone() });
            assert(out.deep_view() =~= before.push((row.0@, row.1@, row.2@)));
            i += 1;
        }
        assert(rows.deep_view().take(i as int) =~= rows.deep_view());
        out
    }

    /// The files of job `job_id`. Where the job has none, `job_id` is read
    /// as a query, and the files of the first hundred jobs that it names
    /// are returned, one job after the other.
    pub fn get_job(&self, job_id: &str) -> (r: Vec<JobRow>)
        ensures
            r.deep_view() == self@.job_files(job_id@),
    {
        let mut rows = job_rows(self.database.get_files_by_job(job_id));
        if let Some((offset, limit)) = job_fallback(rows.len()) {
            let named = self.database.search_job_id(job_id, offset, limit);
            let ghost ids = named.deep_view().map_values(|r: (Seq<char>, Seq<char>, Seq<char>)| r.0);
            let mut i: usize = 0;
            assert(ids.take(0) =~= Seq::empty());
            assert(rows.deep_view() =~= Seq::empty());
            while i < named.len()
                invariant
                    i <= named.len(),
                    ids == named.deep_view().map_values(|r: (Seq<char>, Seq<char>, Seq<char>)| r.0),
                    rows.deep_view() == self@.files_of_jobs(ids.take(i as int)),
                decreases named.len() - i,
            {
                proof {
                    assert(ids.take(i + 1).drop_last() =~= ids.take(i as int));
                    assert(ids.take(i + 1).last() == named[i as int].0@);
                }
                let mut more = job_rows(self.database.get_files_by_job(named[i].0.as_str()));
                let ghost a = rows.deep_view();
                let ghost b = more.deep_view();
                rows.append(&mut more);
                assert(rows.deep_view() =~= a + b);
                i += 1;
            }
            assert(ids.take(i as int) =~= ids);
        }
        rows
    }

    /// The bytes of the jobs by who started them, the most bytes first.
    pub fn get_cost_leaderboard(&self) -> (r: Result<Vec<CostRow>, StoreError>)
        ensures
            match r {
                Ok(board) => self@.cost_leaderboard() == Some(board.deep_view()),
                Err(e) => e == StoreError::OutOfRange && self@.cost_leaderboard() is None,
            },
    {
        let rows = match self.database.get_cost_leaderboard() {
            Ok(rows) => rows,
            Err(e) => {
                return Err(e);
            },
        };
        let mut out: Vec<CostRow> = Vec::new();
        let mut i: usize = 0;
        while i < rows.len()
            invariant
                i <= rows.len(),
                out.deep_view() =~= rows.deep_view().take(i as int),
            decreases rows.len() - i,
        {
            let row = &rows[i];
            let ghost before = out.deep_view();
            assert(rows.deep_view()[i as int] == row.deep_view());
            out.push(CostRow { who: row.0.clone(), size: row.1 });
            assert(out.deep_view() =~= before.push((row.0@, row.1)));
            i += 1;
        }
        assert(rows.deep_view().take(i as int) =~= rows.deep_view());
        Ok(out)
    }
}

/// Whether every size of a listing is a number of bytes: none negative.
pub fn sizes_valid(files: &Vec<(String, FileDetails)>) -> (r: bool)
    ensures
        r == sizes_given(files.deep_view()),
{
    let mut i: usize = 0;
    while i < files.len()
        invariant
            i <= files.len(),
            forall|k: int| 0 <= k < i ==> (#[trigger] files.deep_view()[k]).1 >= 0,
        decreases files.len() - i,
    {
        assert(files.deep_view()[i as int] == files[i as int].deep_view());
        if files[i].1.size < 0 {
            return false;
        }
        i += 1;
    }
    true
}

/// Where a job that lists `found` files is looked for once more: a job
/// without files is read as a query, and the first hundred jobs that it
/// names are taken, given as offset and limit. `None` for a job with
/// files.
pub fn job_fallback(found: usize) -> (r: Option<(i64, i64)>)
    ensures
        r == fallback_window(found as nat),
{
    if found == 0 {
        Some((0, 100))
    } else {
        None
    }
}

/// The rows `rows`, given as item, name and size, as the files of a job.
fn job_rows(rows: Vec<(String, String, i64)>) -> (r: Vec<JobRow>)
    ensures
        r.deep_view() == rows.deep_view(),
{
    let mut out: Vec<JobRow> = Vec::new();
    let mut i: usize = 0;
    while i < rows.len()
        invariant
            i <= rows.len(),
            out.deep_view() =~= rows.deep_view().take(i as int),
        decreases rows.len() - i,
    {
        let row = &rows[i];
        let ghost before = out.deep_view();
        assert(rows.deep_view()[i as int] == row.deep_view());
        out.push(JobRow { ia_item_id: row.0.clone(), filename: row.1.clone(), size: row.2 });
        assert(out.deep_view() =~= before.push((row.0@, row.1@, row.2)));
        i += 1;
    }
    assert(rows.deep_view().take(i as int) =~= rows.deep_view());
    out
}

/// The rows `rows`, given as job and domain, as audit items.
fn audit_items(rows: Vec<(String, String)>) -> (r: Vec<AuditItem>)
    ensures
        r.deep_view() == rows.deep_view(),
{
    let mut out: Vec<AuditItem> = Vec::new();
    let mut i: usize = 0;
    while i < rows.len()
        invariant
            i <= rows.len(),
            out.deep_view() =~= rows.deep_view().take(i as int),
        decreases rows.len() - i,
    {
        let row = &rows[i];
        let ghost before = out.deep_view();
        assert(rows.deep_view()[i as int] == row.deep_view());
        out.push(AuditItem { job_id: row.0.clone(), domain: row.1.clone() });
        assert(out.deep_view() =~= before.push((row.0@, row.1@)));
        i += 1;
    }
    assert(rows.deep_view().take(i as int) =~= rows.deep_view());
    out
}

} // verus!
