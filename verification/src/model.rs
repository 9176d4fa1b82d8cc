//! What the metadata store holds, as mathematical values, and what each of
//! its operations makes of that.

use vstd::prelude::*;
use crate::database::JobDelta;
use crate::ia::ItemInfoView;
use crate::records::{DailyStat, FileRecord, FileView, ItemRecord, ItemView, JobRecord, JobView, SearchEntryView};
use crate::table::{ascending, find_row, key_lt, keys_of, window, with_row, with_rows, Key, Keyed};
use crate::fts::text_matches;
use crate::text::{ascii_lowered, ends_like, str_lt};
use vstd::utf8::is_ascii_chars;
use crate::time::{Date, Timestamp};

verus! {

/// The number of rows that a keyset read returns at most.
pub const PAGE_SIZE: usize = 10_000;

/// Items that became public less than this many seconds ago are refreshed
/// again.
pub const REFRESH_WINDOW_SECS: i64 = 259_200;

/// The first `limit` rows of `rows` that `keep` holds of, in their order.
pub open spec fn matching<V>(rows: Seq<V>, keep: spec_fn(V) -> bool, limit: int) -> Seq<V>
    decreases rows.len(),
{
    if rows.len() == 0 {
        Seq::empty()
    } else {
        let before = matching(rows.drop_last(), keep, limit);
        if keep(rows.last()) && before.len() < limit {
            before.push(rows.last())
        } else {
            before
        }
    }
}

/// A page is the beginning of the rows that the filter holds of: all of
/// them where they are no more than the limit, else as many as the limit.
pub proof fn law_page_is_first_matches<V>(rows: Seq<V>, keep: spec_fn(V) -> bool, limit: int)
    requires
        limit >= 0,
    ensures
        matching(rows, keep, limit) == if rows.filter(keep).len() <= limit {
            rows.filter(keep)
        } else {
            rows.filter(keep).take(limit)
        },
    decreases rows.len(),
{
    reveal(Seq::filter);
    if rows.len() > 0 {
        let head = rows.drop_last();
        law_page_is_first_matches(head, keep, limit);
        let all = rows.filter(keep);
        let before = head.filter(keep);
        if keep(rows.last()) {
            assert(all == before.push(rows.last()));
            if before.len() < limit {
                assert(all.len() <= limit);
            } else if before.len() == limit {
                assert(all.take(limit) =~= before);
            } else {
                assert(all.take(limit) =~= before.take(limit));
            }
        }
    } else {
        assert(rows.filter(keep).len() == 0);
    }
}

/// One more row: what `matching` makes of the first `i + 1` rows, from what
/// it makes of the first `i`.
pub proof fn lemma_matching_step<V>(rows: Seq<V>, keep: spec_fn(V) -> bool, limit: int, i: int)
    requires
        0 <= i < rows.len(),
    ensures
        matching(rows.take(i + 1), keep, limit) == if keep(rows[i]) && matching(
            rows.take(i),
            keep,
            limit,
        ).len() < limit {
            matching(rows.take(i), keep, limit).push(rows[i])
        } else {
            matching(rows.take(i), keep, limit)
        },
{
    assert(rows.take(i + 1).drop_last() =~= rows.take(i));
}

/// The item rows that catalog entries are first stored as.
pub open spec fn new_items(infos: Seq<ItemInfoView>) -> Seq<ItemView> {
    Seq::new(infos.len(), |i: int| new_item(infos[i]))
}

/// The file rows that the listed files of item `item`, each given as name
/// and size, are first stored as.
pub open spec fn new_files(item: Seq<char>, files: Seq<(Seq<char>, i64)>) -> Seq<FileView> {
    Seq::new(files.len(), |i: int| new_file(item, files[i].0, files[i].1))
}

/// The item row that a catalog entry is first stored as.
pub open spec fn new_item(info: ItemInfoView) -> ItemView {
    ItemView {
        identifier: info.identifier,
        added_date: info.addeddate,
        public_date: info.publicdate,
        image_count: info.imagecount,
        refresh_date: None,
    }
}

/// The item's files have never been listed, or the item became public after
/// `cutoff`.
pub open spec fn needs_refresh(v: ItemView, cutoff: Timestamp) -> bool {
    v.refresh_date is None || v.public_date.total_nanos() > cutoff.total_nanos()
}

/// The items after `after` that need a refresh.
pub open spec fn refresh_filter(after: Seq<char>, cutoff: Timestamp) -> spec_fn(ItemView) -> bool {
    |v: ItemView| needs_refresh(v, cutoff) && str_lt(after, v.identifier)
}

/// The files after `after` that have no job.
pub open spec fn jobless_filter(after: Key) -> spec_fn(FileView) -> bool {
    |f: FileView| f.job_id is None && key_lt(after, FileRecord::key_of(f))
}

/// The identifier of an item.
pub open spec fn item_identifier() -> spec_fn(ItemView) -> Seq<char> {
    |v: ItemView| v.identifier
}

/// The item, the name and the size of a file.
pub open spec fn file_columns() -> spec_fn(FileView) -> (Seq<char>, Seq<char>, i64) {
    |f: FileView| (f.ia_item_id, f.filename, f.size)
}

/// The item `v` with its listing marked as fetched at `now`, if it is item `id`.
pub open spec fn stamped(id: Seq<char>, now: Timestamp) -> spec_fn(ItemView) -> ItemView {
    |v: ItemView|
        if v.identifier == id {
            ItemView { refresh_date: Some(now), ..v }
        } else {
            v
        }
}

/// A file name as the store keeps it: without one leading slash.
pub open spec fn stripped(name: Seq<char>) -> Seq<char> {
    if name.len() > 0 && name[0] == '/' {
        name.skip(1)
    } else {
        name
    }
}

/// The file row that a listed file is first stored as.
pub open spec fn new_file(item: Seq<char>, name: Seq<char>, size: i64) -> FileView {
    FileView { ia_item_id: item, filename: stripped(name), size, job_id: None }
}

/// The job row that a job is first stored as.
pub open spec fn new_job(d: JobDelta) -> JobView {
    JobView {
        id: d.job_id,
        short_id: d.short_id,
        domain: d.domain,
        url: Seq::empty(),
        started_by: Seq::empty(),
        aborts: 0,
        warcs: 0,
        jsons: 0,
        size: 0,
        search_id: None,
    }
}

/// The counters of `j` can take the amounts of `d`.
pub open spec fn can_bump(j: JobView, d: JobDelta) -> bool {
    &&& i64::MIN <= j.aborts + d.aborts <= i64::MAX
    &&& i64::MIN <= j.warcs + d.warcs <= i64::MAX
    &&& i64::MIN <= j.jsons + d.jsons <= i64::MAX
    &&& i64::MIN <= j.size + d.size <= i64::MAX
}

/// `j` with the amounts of `d` added to its counters.
pub open spec fn bumped(j: JobView, d: JobDelta) -> JobView {
    JobView {
        aborts: (j.aborts + d.aborts) as i64,
        warcs: (j.warcs + d.warcs) as i64,
        jsons: (j.jsons + d.jsons) as i64,
        size: (j.size + d.size) as i64,
        ..j
    }
}

/// Job `j` with the amounts of `d` added, if it is the job of `d`.
pub open spec fn bump(d: JobDelta) -> spec_fn(JobView) -> JobView {
    |j: JobView|
        if j.id == d.job_id {
            bumped(j, d)
        } else {
            j
        }
}

/// The jobs after one job's amounts are added: the job is created where it
/// is missing, then its counters grow. `None` where a counter would leave
/// its range.
pub open spec fn job_updated(jobs: Seq<JobView>, d: JobDelta) -> Option<Seq<JobView>> {
    let with = with_row::<JobRecord>(jobs, new_job(d));
    if exists|i: int| 0 <= i < with.len() && (#[trigger] with[i]).id == d.job_id && !can_bump(with[i], d) {
        None
    } else {
        Some(with.map_values(bump(d)))
    }
}

/// The jobs after the amounts of `ds` are added one after the other.
pub open spec fn jobs_updated(jobs: Seq<JobView>, ds: Seq<JobDelta>) -> Option<Seq<JobView>>
    decreases ds.len(),
{
    if ds.len() == 0 {
        Some(jobs)
    } else {
        match jobs_updated(jobs, ds.drop_last()) {
            Some(before) => job_updated(before, ds.last()),
            None => None,
        }
    }
}

/// File `f` with the job of `a`, if it is the file that `a` names.
pub open spec fn assign(a: (Seq<char>, Seq<char>, Seq<char>)) -> spec_fn(FileView) -> FileView {
    |f: FileView|
        if f.ia_item_id == a.0 && f.filename == a.1 {
            FileView { job_id: Some(a.2), ..f }
        } else {
            f
        }
}

/// Once a counter has left its range, adding more amounts does not bring it
/// back.
pub proof fn lemma_jobs_updated_fails(jobs: Seq<JobView>, ds: Seq<JobDelta>, n: int)
    requires
        0 <= n <= ds.len(),
        jobs_updated(jobs, ds.take(n)) is None,
    ensures
        jobs_updated(jobs, ds) is None,
    decreases ds.len(),
{
    if n < ds.len() {
        assert(ds.drop_last().take(n) =~= ds.take(n));
        lemma_jobs_updated_fails(jobs, ds.drop_last(), n);
    } else {
        assert(ds.take(n) =~= ds);
    }
}

/// The files after the file named by `a` is assigned to the job of `a`.
pub open spec fn file_assigned(files: Seq<FileView>, a: (Seq<char>, Seq<char>, Seq<char>)) -> Seq<
    FileView,
> {
    files.map_values(assign(a))
}

/// The files after each assignment of `list` is made, one after the other.
pub open spec fn files_assigned(
    files: Seq<FileView>,
    list: Seq<(Seq<char>, Seq<char>, Seq<char>)>,
) -> Seq<FileView>
    decreases list.len(),
{
    if list.len() == 0 {
        files
    } else {
        file_assigned(files_assigned(files, list.drop_last()), list.last())
    }
}

/// The files after `after` whose names end in `.json`, whatever the case
/// of the letters, and whose job has no address yet.
pub open spec fn metadata_filter(jobs: Seq<JobView>, after: Key) -> spec_fn(FileView) -> bool {
    |f: FileView|
        key_lt(after, FileRecord::key_of(f)) && ends_like(f.filename, ".json"@) && match f.job_id {
            Some(id) => match job_of(jobs, id) {
                Some(j) => j.url.len() == 0,
                None => false,
            },
            None => false,
        }
}

/// The item, the name and the job of a file that has a job.
pub open spec fn file_and_job() -> spec_fn(FileView) -> (Seq<char>, Seq<char>, Seq<char>) {
    |f: FileView| (f.ia_item_id, f.filename, f.job_id->0)
}

/// The jobs after `after` that the search index does not hold.
pub open spec fn unindexed_filter(after: Seq<char>) -> spec_fn(JobView) -> bool {
    |j: JobView| j.search_id is None && str_lt(after, j.id)
}

/// The identifier of a job.
pub open spec fn job_identifier() -> spec_fn(JobView) -> Seq<char> {
    |j: JobView| j.id
}

/// Job `j` with this address and initiator, if it is job `id`.
pub open spec fn described(id: Seq<char>, url: Seq<char>, started_by: Seq<char>) -> spec_fn(
    JobView,
) -> JobView {
    |j: JobView|
        if j.id == id {
            JobView { url, started_by, ..j }
        } else {
            j
        }
}

/// The index row `e` with this address, if it is the row `row`.
pub open spec fn readdressed(row: Option<i64>, url: Seq<char>) -> spec_fn(SearchEntryView) -> SearchEntryView {
    |e: SearchEntryView|
        if row == Some(e.rowid) {
            SearchEntryView { url, ..e }
        } else {
            e
        }
}

/// Job `j` with the index row `row`, if it is job `id`.
pub open spec fn indexed(id: Seq<char>, row: i64) -> spec_fn(JobView) -> JobView {
    |j: JobView|
        if j.id == id {
            JobView { search_id: Some(row), ..j }
        } else {
            j
        }
}

/// The job with identifier `id`.
pub open spec fn job_of(jobs: Seq<JobView>, id: Seq<char>) -> Option<JobView> {
    find_row::<JobRecord>(jobs, (id, Seq::empty()))
}

/// The item with identifier `id`.
pub open spec fn item_of(items: Seq<ItemView>, id: Seq<char>) -> Option<ItemView> {
    find_row::<ItemRecord>(items, (id, Seq::empty()))
}

/// The file named `name` of item `item`.
pub open spec fn file_of(files: Seq<FileView>, item: Seq<char>, name: Seq<char>) -> Option<FileView> {
    find_row::<FileRecord>(files, (item, name))
}

/// The index holds a row numbered `row`.
pub open spec fn has_row(index: Seq<SearchEntryView>, row: i64) -> bool {
    exists|i: int| 0 <= i < index.len() && (#[trigger] index[i]).rowid == row
}

/// A batch that fails on its first items fails as a whole.
pub proof fn lemma_stats_batch_fails(db: DatabaseView, stats: Seq<DailyStat>, from: int, k: int, to: int)
    requires
        from <= k <= to,
        db.stats_batch(stats, from, k) is None,
    ensures
        db.stats_batch(stats, from, to) is None,
    decreases to - k,
{
    if k < to {
        lemma_stats_batch_fails(db, stats, from, k, to - 1);
    }
}

/// Once a row number has been refused, the rows that follow are not
/// written either.
pub proof fn lemma_search_rows_fail(db: DatabaseView, rows: Seq<(Seq<char>, i64)>, n: int)
    requires
        0 <= n <= rows.len(),
        db.add_job_search_rows(rows.take(n)) is None,
    ensures
        db.add_job_search_rows(rows) is None,
    decreases rows.len(),
{
    if n < rows.len() {
        assert(rows.drop_last().take(n) =~= rows.take(n));
        lemma_search_rows_fail(db, rows.drop_last(), n);
    } else {
        assert(rows.take(n) =~= rows);
    }
}

/// Where a job that lists `found` files is looked for once more: a job
/// without files is read as a query, and the first hundred jobs that it
/// names are taken, given as offset and limit; a job with files is not
/// looked for again.
pub open spec fn fallback_window(found: nat) -> Option<(i64, i64)> {
    if found == 0 {
        Some((0i64, 100i64))
    } else {
        None
    }
}

/// Every size of a listing is a number of bytes: none is negative.
pub open spec fn sizes_given(files: Seq<(Seq<char>, i64)>) -> bool {
    forall|i: int| 0 <= i < files.len() ==> (#[trigger] files[i]).1 >= 0
}

/// Every file of the store has a size that is a number of bytes: none is
/// negative.
pub open spec fn sizes_counted(files: Seq<FileView>) -> bool {
    forall|i: int| 0 <= i < files.len() ==> (#[trigger] files[i]).size >= 0
}

/// Files of sizes that are not negative, stored beside such files, leave
/// no file with a negative size.
pub proof fn lemma_sizes_stored(files: Seq<FileView>, new: Seq<FileView>)
    requires
        sizes_counted(files),
        sizes_counted(new),
    ensures
        sizes_counted(with_rows::<FileRecord>(files, new)),
    decreases new.len(),
{
    if new.len() > 0 {
        assert forall|i: int| 0 <= i < new.drop_last().len() implies (#[trigger] new.drop_last()[i]).size >= 0 by {
            assert(new.drop_last()[i] == new[i]);
        }
        lemma_sizes_stored(files, new.drop_last());
        let before = with_rows::<FileRecord>(files, new.drop_last());
        let after = with_rows::<FileRecord>(files, new);
        let row = new.last();
        assert(new[new.len() - 1].size >= 0);
        let p = crate::table::place(keys_of::<FileRecord>(before), FileRecord::key_of(row));
        crate::table::lemma_place_bounds(keys_of::<FileRecord>(before), FileRecord::key_of(row));
        assert forall|i: int| 0 <= i < after.len() implies (#[trigger] after[i]).size >= 0 by {
            if after != before {
                if i < p {
                    assert(after[i] == before[i]);
                } else if i > p {
                    assert(after[i] == before[i - 1]);
                }
            }
        }
    }
}

/// The jobs without a metadata document.
pub open spec fn lacks_jsons() -> spec_fn(JobView) -> bool {
    |j: JobView| j.jsons == 0
}

/// The jobs without an archive.
pub open spec fn lacks_warcs() -> spec_fn(JobView) -> bool {
    |j: JobView| j.warcs == 0
}

/// The jobs of domain `domain`.
pub open spec fn in_domain(domain: Seq<char>) -> spec_fn(JobView) -> bool {
    |j: JobView| j.domain == domain
}

/// The first five characters of `query`, or all of it where it is shorter.
pub open spec fn short_of(query: Seq<char>) -> Seq<char> {
    if query.len() > 5 {
        query.take(5)
    } else {
        query
    }
}

/// The jobs that `query` names: by their identifier, or by their short
/// identifier with the first five characters of `query`.
pub open spec fn named_by(query: Seq<char>) -> spec_fn(JobView) -> bool {
    |j: JobView| j.id == query || j.short_id == short_of(query)
}

/// The files of job `job`.
pub open spec fn of_job(job: Seq<char>) -> spec_fn(FileView) -> bool {
    |f: FileView| f.job_id == Some(job)
}

/// The files of item `item`.
pub open spec fn of_item(item: Seq<char>) -> spec_fn(FileView) -> bool {
    |f: FileView| f.ia_item_id == item
}

/// The job that holds the index row `row`.
pub open spec fn holds_row(row: i64) -> spec_fn(JobView) -> bool {
    |j: JobView| j.search_id == Some(row)
}

/// The identifier and the domain of a job.
pub open spec fn id_and_domain() -> spec_fn(JobView) -> (Seq<char>, Seq<char>) {
    |j: JobView| (j.id, j.domain)
}

/// The identifier and the address of a job.
pub open spec fn id_and_url() -> spec_fn(JobView) -> (Seq<char>, Seq<char>) {
    |j: JobView| (j.id, j.url)
}

/// The identifier, the domain and the address of a job.
pub open spec fn job_columns() -> spec_fn(JobView) -> (Seq<char>, Seq<char>, Seq<char>) {
    |j: JobView| (j.id, j.domain, j.url)
}

/// A file's name, its job, or the empty text where it has none, and its
/// size.
pub open spec fn name_job_size() -> spec_fn(FileView) -> (Seq<char>, Seq<char>, i64) {
    |f: FileView|
        (
            f.filename,
            match f.job_id {
                Some(job) => job,
                None => Seq::empty(),
            },
            f.size,
        )
}

/// The day and the bytes of a statistic.
pub open spec fn stat_columns() -> spec_fn(DailyStat) -> (Date, i64) {
    |s: DailyStat| (s.date, s.size)
}

/// The first of `rows` that `keep` holds of.
pub open spec fn first_match<V>(rows: Seq<V>, keep: spec_fn(V) -> bool) -> Option<V>
    decreases rows.len(),
{
    if rows.len() == 0 {
        None
    } else if keep(rows[0]) {
        Some(rows[0])
    } else {
        first_match(rows.drop_first(), keep)
    }
}

/// The index rows whose domain matches `domain`.
pub open spec fn domain_hit(domain: Seq<char>) -> spec_fn(SearchEntryView) -> bool {
    |e: SearchEntryView| text_matches(e.domain, domain)
}

/// The index rows whose domain matches `domain` or whose address matches
/// `url`.
pub open spec fn full_hit(domain: Seq<char>, url: Seq<char>) -> spec_fn(SearchEntryView) -> bool {
    |e: SearchEntryView| text_matches(e.domain, domain) || text_matches(e.url, url)
}

/// The rows that a search returns: for each index row that `hit` holds
/// of, in the order of the index, the identifier of the job that holds the
/// row, with the row's domain and address. An index row that no job holds
/// returns nothing.
pub open spec fn search_rows(
    jobs: Seq<JobView>,
    index: Seq<SearchEntryView>,
    hit: spec_fn(SearchEntryView) -> bool,
) -> Seq<(Seq<char>, Seq<char>, Seq<char>)>
    decreases index.len(),
{
    if index.len() == 0 {
        Seq::empty()
    } else {
        let rest = search_rows(jobs, index.drop_last(), hit);
        let e = index.last();
        match first_match(jobs, holds_row(e.rowid)) {
            Some(j) => if hit(e) {
                rest.push((j.id, e.domain, e.url))
            } else {
                rest
            },
            None => rest,
        }
    }
}

/// The domains of `jobs`, each once, ascending.
pub open spec fn domains_of(jobs: Seq<JobView>) -> Seq<Seq<char>>
    decreases jobs.len(),
{
    if jobs.len() == 0 {
        Seq::empty()
    } else {
        with_row::<String>(domains_of(jobs.drop_last()), jobs.last().domain)
    }
}

/// The name under which the bytes of a job count: the first four
/// characters of who started it, in lower case.
pub open spec fn nick_of(started_by: Seq<char>) -> Seq<char> {
    ascii_lowered(if started_by.len() > 4 {
        started_by.take(4)
    } else {
        started_by
    })
}

/// The bytes of the jobs that count under `nick`.
pub open spec fn bytes_of_nick(jobs: Seq<JobView>, nick: Seq<char>) -> int
    decreases jobs.len(),
{
    if jobs.len() == 0 {
        0
    } else {
        bytes_of_nick(jobs.drop_last(), nick) + if nick_of(jobs.last().started_by) == nick {
            jobs.last().size as int
        } else {
            0
        }
    }
}

/// The names under which the bytes of `jobs` count, each once, ascending.
pub open spec fn nicks_of(jobs: Seq<JobView>) -> Seq<Seq<char>>
    decreases jobs.len(),
{
    if jobs.len() == 0 {
        Seq::empty()
    } else {
        with_row::<String>(nicks_of(jobs.drop_last()), nick_of(jobs.last().started_by))
    }
}

/// The number of rows at the head of `board` whose bytes are no fewer than
/// `size`.
pub open spec fn rank_place(board: Seq<(Seq<char>, i64)>, size: i64) -> int
    decreases board.len(),
{
    if board.len() == 0 || board[0].1 < size {
        0
    } else {
        1 + rank_place(board.drop_first(), size)
    }
}

/// The first `n` of `nicks` with their bytes, the most bytes first; names
/// with the same bytes stay in their order. `None` where the bytes of a
/// name do not fit a 64-bit integer.
pub open spec fn leaderboard(jobs: Seq<JobView>, nicks: Seq<Seq<char>>, n: int) -> Option<
    Seq<(Seq<char>, i64)>,
>
    decreases n,
{
    if n <= 0 {
        Some(Seq::empty())
    } else {
        match leaderboard(jobs, nicks, n - 1) {
            Some(board) => {
                let total = bytes_of_nick(jobs, nicks[n - 1]);
                if i64::MIN <= total <= i64::MAX {
                    Some(board.insert(rank_place(board, total as i64), (nicks[n - 1], total as i64)))
                } else {
                    None
                }
            },
            None => None,
        }
    }
}

/// The statistics ascend by day: no day has two.
pub open spec fn days_ascend(stats: Seq<DailyStat>) -> bool {
    forall|i: int, j: int|
        0 <= i < j < stats.len() ==> (#[trigger] stats[i]).date.days < (#[trigger] stats[j]).date.days
}

/// The number of items whose statistics are written together.
pub const STATS_BATCH: usize = 100;

/// The day on which item `id` became public.
pub open spec fn day_of_item(items: Seq<ItemView>, id: Seq<char>) -> Option<Date> {
    match item_of(items, id) {
        Some(v) => Some(v.public_date.day()),
        None => None,
    }
}

/// The bytes of all of `files` whose item became public on `date`.
pub open spec fn bytes_of_day(items: Seq<ItemView>, files: Seq<FileView>, date: Date) -> int
    decreases files.len(),
{
    if files.len() == 0 {
        0
    } else {
        bytes_of_day(items, files.drop_last(), date) + if day_of_item(items, files.last().ia_item_id)
            == Some(date) {
            files.last().size as int
        } else {
            0
        }
    }
}

/// The number of statistics for days before `date`.
pub open spec fn stats_place(stats: Seq<DailyStat>, date: Date) -> int
    decreases stats.len(),
{
    if stats.len() == 0 {
        0
    } else {
        stats_place(stats.drop_last(), date) + if stats.last().date.days < date.days {
            1int
        } else {
            0int
        }
    }
}

/// The place of a day is where the earlier days end.
pub proof fn lemma_stats_place(stats: Seq<DailyStat>, date: Date, p: int)
    requires
        0 <= p <= stats.len(),
        forall|i: int| 0 <= i < p ==> (#[trigger] stats[i]).date.days < date.days,
        forall|i: int| p <= i < stats.len() ==> (#[trigger] stats[i]).date.days >= date.days,
    ensures
        stats_place(stats, date) == p,
    decreases stats.len(),
{
    if stats.len() > 0 {
        let rest = stats.drop_last();
        let q = if p == stats.len() {
            p - 1
        } else {
            p
        };
        assert forall|i: int| 0 <= i < q implies (#[trigger] rest[i]).date.days < date.days by {
            assert(rest[i] == stats[i]);
        }
        assert forall|i: int| q <= i < rest.len() implies (#[trigger] rest[i]).date.days >= date.days by {
            assert(rest[i] == stats[i]);
        }
        lemma_stats_place(rest, date, q);
        if p == stats.len() {
            assert(stats[p - 1].date.days < date.days);
        } else {
            assert(stats[stats.len() - 1].date.days >= date.days);
        }
    }
}

/// The statistics with `s` in place of the one for its day, or put in at
/// the place of its day where there was none.
pub open spec fn stat_put(stats: Seq<DailyStat>, s: DailyStat) -> Seq<DailyStat> {
    let p = stats_place(stats, s.date);
    if p < stats.len() && stats[p].date == s.date {
        stats.update(p, s)
    } else {
        stats.insert(p, s)
    }
}

/// No row number of the search index is used twice.
pub open spec fn distinct_rows(index: Seq<SearchEntryView>) -> bool {
    forall|i: int, j: int|
        0 <= i < j < index.len() ==> (#[trigger] index[i]).rowid != (#[trigger] index[j]).rowid
}

/// Everything the store holds.
pub ghost struct DatabaseView {
    /// The items, ascending by identifier.
    pub items: Seq<ItemView>,
    /// The files, ascending by item and name.
    pub files: Seq<FileView>,
    /// The jobs, ascending by identifier.
    pub jobs: Seq<JobView>,
    pub daily_stats: Seq<DailyStat>,
    pub search_index: Seq<SearchEntryView>,
    /// When the last cycle was attempted, if one ever was.
    pub last_update: Option<Timestamp>,
}

impl DatabaseView {
    /// No key occurs twice, and the keyed tables ascend by key.
    pub open spec fn wf(self) -> bool {
        &&& ascending(keys_of::<ItemRecord>(self.items))
        &&& ascending(keys_of::<FileRecord>(self.files))
        &&& ascending(keys_of::<JobRecord>(self.jobs))
        &&& days_ascend(self.daily_stats)
        &&& distinct_rows(self.search_index)
    }

    /// An empty store.
    pub open spec fn empty() -> DatabaseView {
        DatabaseView {
            items: Seq::empty(),
            files: Seq::empty(),
            jobs: Seq::empty(),
            daily_stats: Seq::empty(),
            search_index: Seq::empty(),
            last_update: None,
        }
    }

    /// The store after the catalog entries `infos` are stored, one after the
    /// other; an entry whose identifier is known changes nothing.
    pub open spec fn add_ia_items(self, infos: Seq<ItemInfoView>) -> DatabaseView {
        DatabaseView { items: with_rows::<ItemRecord>(self.items, new_items(infos)), ..self }
    }

    /// The identifiers after `after` of the items that need their files
    /// listed at time `now`, ascending, one page at most.
    pub open spec fn ia_items_needing_refresh(self, after: Seq<char>, now: Timestamp) -> Seq<Seq<char>> {
        let cutoff = now.earlier(REFRESH_WINDOW_SECS as int);
        matching(self.items, refresh_filter(after, cutoff), PAGE_SIZE as int).map_values(
            item_identifier(),
        )
    }

    /// The store after item `id` is marked as listed at time `now`.
    pub open spec fn set_ia_item_refresh_date(self, id: Seq<char>, now: Timestamp) -> DatabaseView {
        DatabaseView { items: self.items.map_values(stamped(id, now)), ..self }
    }

    /// The store after the files `files` of item `item`, each given as name
    /// and size, are stored one after the other; a file that is known
    /// changes nothing.
    pub open spec fn add_item_files(self, item: Seq<char>, files: Seq<(Seq<char>, i64)>) -> DatabaseView {
        DatabaseView { files: with_rows::<FileRecord>(self.files, new_files(item, files)), ..self }
    }

    /// The files after key `after` that have no job, as item, name and size,
    /// ascending, one page at most.
    pub open spec fn files_without_job_id(self, after: Key) -> Seq<(Seq<char>, Seq<char>, i64)> {
        matching(self.files, jobless_filter(after), PAGE_SIZE as int).map_values(file_columns())
    }

    /// The store after the amounts `ds` are added to their jobs and the
    /// assignments `list` are made; `None` where a counter would leave its
    /// range, and nothing is written then.
    pub open spec fn update_jobs(
        self,
        ds: Seq<JobDelta>,
        list: Seq<(Seq<char>, Seq<char>, Seq<char>)>,
    ) -> Option<DatabaseView> {
        match jobs_updated(self.jobs, ds) {
            Some(jobs) => Some(DatabaseView { jobs, files: files_assigned(self.files, list), ..self }),
            None => None,
        }
    }

    /// The files after key `after` with a name ending in `.json` whose job
    /// has no address yet, as item, name and job, ascending, one page at
    /// most.
    pub open spec fn jobs_without_url(self, after: Key) -> Seq<(Seq<char>, Seq<char>, Seq<char>)> {
        matching(self.files, metadata_filter(self.jobs, after), PAGE_SIZE as int).map_values(file_and_job())
    }

    /// The store after job `id` is given its address and initiator; the
    /// job's row of the search index takes the address too.
    pub open spec fn add_job_url(self, id: Seq<char>, url: Seq<char>, started_by: Seq<char>) -> DatabaseView {
        let row = match job_of(self.jobs, id) {
            Some(j) => j.search_id,
            None => None,
        };
        DatabaseView {
            jobs: self.jobs.map_values(described(id, url, started_by)),
            search_index: self.search_index.map_values(readdressed(row, url)),
            ..self
        }
    }

    /// The identifiers after `after` of the jobs that the search index does
    /// not hold, ascending, one page at most.
    pub open spec fn jobs_without_search(self, after: Seq<char>) -> Seq<Seq<char>> {
        matching(self.jobs, unindexed_filter(after), PAGE_SIZE as int).map_values(job_identifier())
    }

    /// The store after job `id` is given the index row `row`, holding the
    /// job's domain and address; an unknown job changes nothing. `None`
    /// where the index holds a row of that number already.
    pub open spec fn add_job_search_row(self, id: Seq<char>, row: i64) -> Option<DatabaseView> {
        match job_of(self.jobs, id) {
            Some(j) => if has_row(self.search_index, row) {
                None
            } else {
                Some(
                    DatabaseView {
                        jobs: self.jobs.map_values(indexed(id, row)),
                        search_index: self.search_index.push(
                            SearchEntryView { rowid: row, domain: j.domain, url: j.url },
                        ),
                        ..self
                    },
                )
            },
            None => Some(self),
        }
    }

    /// The store after each job of `rows` is given the index row beside
    /// it, one after the other; `None` where a row number would be used
    /// twice.
    pub open spec fn add_job_search_rows(self, rows: Seq<(Seq<char>, i64)>) -> Option<DatabaseView>
        decreases rows.len(),
    {
        if rows.len() == 0 {
            Some(self)
        } else {
            match self.add_job_search_rows(rows.drop_last()) {
                Some(before) => before.add_job_search_row(rows.last().0, rows.last().1),
                None => None,
            }
        }
    }

    /// The statistics `stats` after the days of the items at positions
    /// `from` to `to - 1` are recomputed, one after the other; `None`
    /// where a day's bytes do not fit a 64-bit integer.
    pub open spec fn stats_batch(self, stats: Seq<DailyStat>, from: int, to: int) -> Option<Seq<DailyStat>>
        decreases to - from,
    {
        if to <= from {
            Some(stats)
        } else {
            match self.stats_batch(stats, from, to - 1) {
                Some(before) => {
                    let date = self.items[to - 1].public_date.day();
                    let total = bytes_of_day(self.items, self.files, date);
                    if i64::MIN <= total <= i64::MAX {
                        Some(stat_put(before, DailyStat { date, size: total as i64 }))
                    } else {
                        None
                    }
                },
                None => None,
            }
        }
    }

    /// The statistics `stats` after the days of the items from position
    /// `from` on are recomputed in batches of a hundred items, and whether
    /// every batch was written. A batch with a day whose bytes do not fit
    /// is not written, nor are the batches after it.
    pub open spec fn stats_from(self, stats: Seq<DailyStat>, from: int) -> (Seq<DailyStat>, bool)
        decreases self.items.len() - from,
    {
        if from < 0 || from >= self.items.len() {
            (stats, true)
        } else {
            let to = if from + STATS_BATCH <= self.items.len() {
                from + STATS_BATCH
            } else {
                self.items.len() as int
            };
            match self.stats_batch(stats, from, to) {
                Some(after) => self.stats_from(after, to),
                None => (stats, false),
            }
        }
    }

    /// The store after the statistics of every item's day are recomputed
    /// from the files as they stand, and whether all of them were written.
    /// Statistics of days on which no item became public stay as they are.
    pub open spec fn populate_daily_stats(self) -> (DatabaseView, bool) {
        let (stats, done) = self.stats_from(self.daily_stats, 0);
        (DatabaseView { daily_stats: stats, ..self }, done)
    }

    /// The jobs without a metadata document, as identifier and domain.
    pub open spec fn no_json_jobs(self) -> Seq<(Seq<char>, Seq<char>)> {
        self.jobs.filter(lacks_jsons()).map_values(id_and_domain())
    }

    /// The jobs without an archive, as identifier and domain.
    pub open spec fn no_warc_jobs(self) -> Seq<(Seq<char>, Seq<char>)> {
        self.jobs.filter(lacks_warcs()).map_values(id_and_domain())
    }

    /// The statistics, as day and bytes, ascending by day.
    pub open spec fn daily_stat_rows(self) -> Seq<(Date, i64)> {
        self.daily_stats.map_values(stat_columns())
    }

    /// A window of the jobs' domains, each once, ascending.
    pub open spec fn domains(self, limit: i64, offset: i64) -> Seq<Seq<char>> {
        window(domains_of(self.jobs), limit, offset)
    }

    /// A window of the items' identifiers, ascending.
    pub open spec fn item_ids(self, limit: i64, offset: i64) -> Seq<Seq<char>> {
        window(self.items.map_values(item_identifier()), limit, offset)
    }

    /// A window of the jobs, as identifier, domain and address, ascending
    /// by identifier.
    pub open spec fn job_rows(self, limit: i64, offset: i64) -> Seq<(Seq<char>, Seq<char>, Seq<char>)> {
        window(self.jobs.map_values(job_columns()), limit, offset)
    }

    /// The jobs of domain `domain`, as identifier and address.
    pub open spec fn jobs_by_domain(self, domain: Seq<char>) -> Seq<(Seq<char>, Seq<char>)> {
        self.jobs.filter(in_domain(domain)).map_values(id_and_url())
    }

    /// The files of job `job`, as item, name and size.
    pub open spec fn files_by_job(self, job: Seq<char>) -> Seq<(Seq<char>, Seq<char>, i64)> {
        self.files.filter(of_job(job)).map_values(file_columns())
    }

    /// The files of item `item`, as name, job and size.
    pub open spec fn files_by_item(self, item: Seq<char>) -> Seq<(Seq<char>, Seq<char>, i64)> {
        self.files.filter(of_item(item)).map_values(name_job_size())
    }

    /// A window of the jobs that `query` names, ascending by identifier. A
    /// query with a character outside ASCII names none.
    pub open spec fn search_job_id(self, query: Seq<char>, offset: i64, limit: i64) -> Seq<
        (Seq<char>, Seq<char>, Seq<char>),
    > {
        if is_ascii_chars(query) {
            window(self.jobs.filter(named_by(query)).map_values(job_columns()), limit, offset)
        } else {
            Seq::empty()
        }
    }

    /// A window of the jobs whose indexed domain matches `query`.
    pub open spec fn search_domain(self, query: Seq<char>, offset: i64, limit: i64) -> Seq<
        (Seq<char>, Seq<char>, Seq<char>),
    > {
        window(search_rows(self.jobs, self.search_index, domain_hit(query)), limit, offset)
    }

    /// A window of the jobs whose indexed domain matches `query_domain` or
    /// whose indexed address matches `query_url`.
    pub open spec fn search_full(self, query_domain: Seq<char>, query_url: Seq<char>, offset: i64, limit: i64) -> Seq<
        (Seq<char>, Seq<char>, Seq<char>),
    > {
        window(search_rows(self.jobs, self.search_index, full_hit(query_domain, query_url)), limit, offset)
    }

    /// The bytes of the jobs by the first four characters of who started
    /// them, the most bytes first; `None` where the bytes of a name do not
    /// fit a 64-bit integer.
    pub open spec fn cost_leaderboard(self) -> Option<Seq<(Seq<char>, i64)>> {
        leaderboard(self.jobs, nicks_of(self.jobs), nicks_of(self.jobs).len() as int)
    }

    /// The files of each job of `jobs`, one job after the other.
    pub open spec fn files_of_jobs(self, jobs: Seq<Seq<char>>) -> Seq<(Seq<char>, Seq<char>, i64)>
        decreases jobs.len(),
    {
        if jobs.len() == 0 {
            Seq::empty()
        } else {
            self.files_of_jobs(jobs.drop_last()) + self.files_by_job(jobs.last())
        }
    }

    /// The files of job `job` or, where it has none, the files of the
    /// first hundred jobs that `job` names.
    pub open spec fn job_files(self, job: Seq<char>) -> Seq<(Seq<char>, Seq<char>, i64)> {
        let direct = self.files_by_job(job);
        match fallback_window(direct.len()) {
            Some((offset, limit)) => self.files_of_jobs(
                self.search_job_id(job, offset, limit).map_values(|r: (Seq<char>, Seq<char>, Seq<char>)| r.0),
            ),
            None => direct,
        }
    }
}

} // verus!
