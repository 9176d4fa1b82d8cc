//! The test data on an empty store: what its stages leave behind.

use vstd::prelude::*;
use crate::filename::{is_domain_char, parsed, FilenameFields};
use crate::grammar::{all_of, digit_class, domain_class, law_parser_exact, word_class, Pieces};
use crate::database::JobDelta;
use crate::ia::{FileDetails, ItemInfo};
use crate::jobs::{aggregate, assignments, delta_of, fits, job_id_of, job_index, merge};
use crate::indexing::{indexed_more, job_has_row, kept_job, newly_indexed, row_has_job};
use crate::model::{
    bump, bytes_of_day, can_bump, day_of_item, described, file_assigned, file_columns, files_assigned, item_of,
    job_updated, jobless_filter, jobs_updated, matching, new_files, new_item, new_items, new_job, stamped,
    stat_put, stats_place, DatabaseView, PAGE_SIZE,
};
use crate::records::{DailyStat, FileRecord, FileView, ItemRecord, ItemView, JobRecord, JobView, SearchEntryView};
use crate::stages::{all_indexed, last_key, test_files, test_items, year_3000};
use crate::table::{
    key_lt, keys_of, lemma_empty_is_first, lemma_key_lt_irreflexive, lemma_key_lt_transitive, place, with_row,
    with_rows, Key, Keyed,
};
use crate::time::Timestamp;
use crate::text::{is_digit, is_word_char, lemma_ascii_lt_at};
use vstd::utf8::is_ascii_chars;

verus! {

/// The identifier of the job of the test data.
pub open spec fn test_job_id() -> Seq<char> {
    "30000101000000abcde"@
}

/// The identifier of the item of the test data.
pub const TEST_ITEM: &'static str = "test_item_1";

/// The catalog entries of the test data: one item, public since the year
/// 3000.
pub fn test_catalog() -> (r: Vec<ItemInfo>)
    ensures
        r.deep_view() == test_items(),
{
    let mut items: Vec<ItemInfo> = Vec::new();
    items.push(
        ItemInfo {
            identifier: TEST_ITEM.to_owned(),
            addeddate: Timestamp { secs: 32_503_680_000, nanos: 0 },
            publicdate: Timestamp { secs: 32_503_680_000, nanos: 0 },
            imagecount: Some(123),
        },
    );
    assert(items.deep_view() =~= test_items());
    items
}

/// The file listing of the test data's item: an archive and a metadata
/// document of one job, of 123 bytes each.
pub fn test_listing() -> (r: Vec<(String, FileDetails)>)
    ensures
        r.deep_view() == test_files(),
{
    let mut files: Vec<(String, FileDetails)> = Vec::new();
    files.push(("example.com-inf-30000101-000000-abcde.warc.gz".to_owned(), FileDetails { size: 123 }));
    files.push(("example.com-inf-30000101-000000-abcde.json".to_owned(), FileDetails { size: 123 }));
    assert(files.deep_view() =~= test_files());
    files
}

/// The job of the test data with the address and the initiator that it is
/// given.
pub struct TestAddress {
    pub job_id: String,
    pub url: String,
    pub started_by: String,
}

/// The address and the initiator that the job of the test data is given.
pub fn test_address() -> (r: TestAddress)
    ensures
        r.job_id@ == test_job_id(),
        r.url@ == test_job().url,
        r.started_by@ == test_job().started_by,
{
    TestAddress {
        job_id: "30000101000000abcde".to_owned(),
        url: "http://example.com/hello-world/".to_owned(),
        started_by: "username".to_owned(),
    }
}

/// The fields of a file name of the test data's job with extension
/// `extension`.
pub open spec fn test_fields(extension: Seq<char>) -> FilenameFields {
    FilenameFields {
        domain: "example.com"@,
        depth: "inf"@,
        date: "30000101"@,
        time: "000000"@,
        ident: "abcde"@,
        aborted: Seq::empty(),
        extension,
    }
}

/// The pieces of a file name of the test data's job with extension
/// `extension`.
spec fn test_pieces(extension: Seq<char>) -> Pieces {
    Pieces {
        domain: "example.com"@,
        depth: "inf"@,
        date: "30000101"@,
        time: "000000"@,
        ident: Some("abcde"@),
        aborted: false,
        suffix: None,
        extension,
    }
}

/// The pieces of the test data's names are well formed.
proof fn lemma_test_pieces(extension: Seq<char>)
    requires
        extension == "json"@ || extension == "warc.gz"@,
    ensures
        test_pieces(extension).well_formed(),
        test_pieces(extension).fields() == test_fields(extension),
        job_id_of(test_fields(extension)) == test_job_id(),
{
    reveal_strlit("example.com");
    reveal_strlit("inf");
    reveal_strlit("30000101");
    reveal_strlit("000000");
    reveal_strlit("abcde");
    reveal_strlit("30000101000000abcde");
    let p = test_pieces(extension);
    assert(all_of(p.domain, domain_class())) by {
        assert forall|i: int| 0 <= i < p.domain.len() implies domain_class()(#[trigger] p.domain[i]) by {
            assert(is_domain_char(p.domain[i]));
        }
    }
    assert(all_of(p.date, digit_class())) by {
        assert forall|i: int| 0 <= i < p.date.len() implies digit_class()(#[trigger] p.date[i]) by {
            assert(is_digit(p.date[i]));
        }
    }
    assert(all_of(p.time, digit_class())) by {
        assert forall|i: int| 0 <= i < p.time.len() implies digit_class()(#[trigger] p.time[i]) by {
            assert(is_digit(p.time[i]));
        }
    }
    assert(all_of("abcde"@, word_class())) by {
        assert forall|i: int| 0 <= i < "abcde"@.len() implies word_class()(#[trigger] "abcde"@[i]) by {
            assert(is_word_char("abcde"@[i]));
        }
    }
    assert(job_id_of(test_fields(extension)) =~= test_job_id());
}

/// The names of the test data's files are read as the fields of the test
/// data's job.
pub proof fn lemma_test_names()
    ensures
        parsed("example.com-inf-30000101-000000-abcde.warc.gz"@) == Some(test_fields("warc.gz"@)),
        parsed("example.com-inf-30000101-000000-abcde.json"@) == Some(test_fields("json"@)),
        job_id_of(test_fields("warc.gz"@)) == test_job_id(),
        job_id_of(test_fields("json"@)) == test_job_id(),
{
    lemma_test_pieces("warc.gz"@);
    lemma_test_pieces("json"@);
    law_parser_exact(test_pieces("warc.gz"@));
    law_parser_exact(test_pieces("json"@));
    reveal_strlit("example.com");
    reveal_strlit("inf");
    reveal_strlit("30000101");
    reveal_strlit("000000");
    reveal_strlit("abcde");
    reveal_strlit("-");
    reveal_strlit(".");
    reveal_strlit("json");
    reveal_strlit("warc.gz");
    reveal_strlit("example.com-inf-30000101-000000-abcde.warc.gz");
    reveal_strlit("example.com-inf-30000101-000000-abcde.json");
    assert(test_pieces("warc.gz"@).text() =~= "example.com-inf-30000101-000000-abcde.warc.gz"@);
    assert(test_pieces("json"@).text() =~= "example.com-inf-30000101-000000-abcde.json"@);
}

/// The archive of the test data as it is first stored.
pub open spec fn test_archive() -> FileView {
    FileView {
        ia_item_id: "test_item_1"@,
        filename: "example.com-inf-30000101-000000-abcde.warc.gz"@,
        size: 123,
        job_id: None,
    }
}

/// The metadata document of the test data as it is first stored.
pub open spec fn test_document() -> FileView {
    FileView {
        ia_item_id: "test_item_1"@,
        filename: "example.com-inf-30000101-000000-abcde.json"@,
        size: 123,
        job_id: None,
    }
}

/// The file `f` with the job of the test data.
pub open spec fn in_test_job(f: FileView) -> FileView {
    FileView { job_id: Some(test_job_id()), ..f }
}

/// The job of the test data once its two files are counted.
pub open spec fn test_job_counted() -> JobView {
    JobView {
        id: test_job_id(),
        short_id: "abcde"@,
        domain: "example.com"@,
        url: Seq::empty(),
        started_by: Seq::empty(),
        aborts: 0,
        warcs: 1,
        jsons: 1,
        size: 123,
        search_id: None,
    }
}

/// What the two files of the test data amount to.
spec fn test_amounts() -> JobDelta {
    JobDelta {
        short_id: "abcde"@,
        job_id: test_job_id(),
        domain: "example.com"@,
        aborts: 0,
        warcs: 1,
        jsons: 1,
        size: 123,
    }
}

/// The name of the metadata document comes before that of the archive:
/// they part where `json` and `warc.gz` begin.
proof fn lemma_test_order()
    ensures
        key_lt(FileRecord::key_of(test_document()), FileRecord::key_of(test_archive())),
{
    reveal_strlit("example.com-inf-30000101-000000-abcde.warc.gz");
    reveal_strlit("example.com-inf-30000101-000000-abcde.json");
    let a = test_document().filename;
    let b = test_archive().filename;
    assert(is_ascii_chars(a));
    assert(is_ascii_chars(b));
    assert(a.take(38) =~= b.take(38));
    assert(a[38] == 'j' && b[38] == 'w');
    lemma_ascii_lt_at(a, b, 38);
}

/// The names of the two files differ, the metadata document comes before
/// the archive in the order of the keys, and neither key is the empty key.
proof fn lemma_test_keys()
    ensures
        test_archive().filename != test_document().filename,
        key_lt(FileRecord::key_of(test_document()), FileRecord::key_of(test_archive())),
        !key_lt(FileRecord::key_of(test_archive()), FileRecord::key_of(test_document())),
        key_lt((Seq::empty(), Seq::empty()), FileRecord::key_of(test_archive())),
        key_lt((Seq::empty(), Seq::empty()), FileRecord::key_of(test_document())),
{
    lemma_test_order();
    if key_lt(FileRecord::key_of(test_archive()), FileRecord::key_of(test_document())) {
        lemma_key_lt_transitive(
            FileRecord::key_of(test_document()),
            FileRecord::key_of(test_archive()),
            FileRecord::key_of(test_document()),
        );
        lemma_key_lt_irreflexive(FileRecord::key_of(test_document()));
    }
    reveal_strlit("example.com-inf-30000101-000000-abcde.warc.gz");
    reveal_strlit("example.com-inf-30000101-000000-abcde.json");
    reveal_strlit("test_item_1");
    lemma_empty_is_first(FileRecord::key_of(test_archive()));
    lemma_empty_is_first(FileRecord::key_of(test_document()));
    assert("test_item_1"@.len() == 11);
    assert(test_archive().filename.len() == 45);
    assert(test_document().filename.len() == 42);
}

/// A page of the two files of the test data amounts to one entry for
/// their job, and assigns both to it.
proof fn lemma_test_page()
    ensures
        aggregate(seq![file_columns()(test_document()), file_columns()(test_archive())]) == seq![test_amounts()],
        assignments(seq![file_columns()(test_document()), file_columns()(test_archive())]) == seq![
            (test_document().ia_item_id, test_document().filename, test_job_id()),
            (test_archive().ia_item_id, test_archive().filename, test_job_id()),
        ],
{
    let a = test_document();
    let b = test_archive();
    lemma_test_names();
    reveal_strlit("warc.gz");
    reveal_strlit("json");
    reveal_strlit("abcde");
    let page = seq![file_columns()(a), file_columns()(b)];
    let first = page.drop_last();
    assert(first =~= seq![file_columns()(a)]);
    assert(first.drop_last() =~= Seq::empty());
    assert(aggregate(first.drop_last()) =~= Seq::empty());
    assert(assignments(first.drop_last()) =~= Seq::empty());
    assert(page.last() == file_columns()(b));
    assert(first.last() == file_columns()(a));
    let da = delta_of(parsed(a.filename)->0, 123);
    let db = delta_of(parsed(b.filename)->0, 123);
    assert(job_index(Seq::<JobDelta>::empty(), da.job_id) == 0);
    assert(aggregate(first) =~= seq![da]);
    assert(seq![da].drop_first() =~= Seq::<JobDelta>::empty());
    assert(job_index(seq![da], db.job_id) == 0);
    assert(parsed(page.last().1) == Some(parsed(b.filename)->0));
    assert(aggregate(page) == merge(aggregate(first), db));
    assert("warc.gz"@.len() != "json"@.len());
    assert(da.aborts + db.aborts == 0);
    assert(da.warcs + db.warcs == 1);
    assert(da.jsons + db.jsons == 1);
    assert(da.size + db.size == 123);
    assert(merge(seq![da], db) =~= seq![test_amounts()]);
    assert(assignments(first) =~= seq![(a.ia_item_id, a.filename, test_job_id())]);
    assert(assignments(page) =~= seq![
        (a.ia_item_id, a.filename, test_job_id()),
        (b.ia_item_id, b.filename, test_job_id()),
    ]);
}

/// Both files of a pair of rows are unassigned files after the empty key.
proof fn lemma_test_matching(a: FileView, b: FileView, keep: spec_fn(FileView) -> bool)
    requires
        keep(a),
        keep(b),
    ensures
        matching(seq![a, b], keep, PAGE_SIZE as int) == seq![a, b],
{
    let rows = seq![a, b];
    assert(rows.drop_last() =~= seq![a]);
    assert(seq![a].drop_last() =~= Seq::<FileView>::empty());
    assert(matching(Seq::<FileView>::empty(), keep, PAGE_SIZE as int) =~= Seq::<FileView>::empty());
    assert(matching(seq![a], keep, PAGE_SIZE as int) =~= seq![a]);
    assert(matching(rows, keep, PAGE_SIZE as int) =~= seq![a, b]);
}

/// None of a pair of rows that a filter holds of neither is taken.
proof fn lemma_test_matching_none(a: FileView, b: FileView, keep: spec_fn(FileView) -> bool)
    requires
        !keep(a),
        !keep(b),
    ensures
        matching(seq![a, b], keep, PAGE_SIZE as int) == Seq::<FileView>::empty(),
{
    let rows = seq![a, b];
    assert(rows.drop_last() =~= seq![a]);
    assert(seq![a].drop_last() =~= Seq::<FileView>::empty());
    assert(matching(Seq::<FileView>::empty(), keep, PAGE_SIZE as int) =~= Seq::<FileView>::empty());
    assert(matching(seq![a], keep, PAGE_SIZE as int) =~= Seq::<FileView>::empty());
    assert(matching(rows, keep, PAGE_SIZE as int) =~= Seq::<FileView>::empty());
}

/// Aggregation over the two files of the test data in a store without
/// jobs writes one page: it leaves their job with its counters and
/// assigns both files to it.
pub proof fn lemma_test_aggregated(db: DatabaseView)
    requires
        db.files == seq![test_document(), test_archive()],
        db.jobs == Seq::<JobView>::empty(),
    ensures
        db.populate_jobs() == (
            DatabaseView { jobs: seq![test_job_counted()], files: test_files_assigned(), ..db },
            true,
        ),
{
    let a = test_document();
    let b = test_archive();
    let start: Key = (Seq::empty(), Seq::empty());
    lemma_test_keys();
    lemma_test_matching(a, b, jobless_filter(start));
    let page = db.files_without_job_id(start);
    assert(page =~= seq![file_columns()(a), file_columns()(b)]);
    lemma_test_page();
    let d = test_amounts();
    let list = assignments(page);
    assert(aggregate(page) == seq![d]);
    assert(fits(seq![d]));
    // The job is made and takes the amounts.
    assert(seq![d].drop_last() =~= Seq::<JobDelta>::empty());
    assert(jobs_updated(db.jobs, Seq::<JobDelta>::empty()) == Some(db.jobs));
    assert(keys_of::<JobRecord>(Seq::<JobView>::empty()) =~= Seq::<Key>::empty());
    assert(place(Seq::<Key>::empty(), JobRecord::key_of(new_job(d))) == 0);
    let with = with_row::<JobRecord>(Seq::<JobView>::empty(), new_job(d));
    assert(with =~= seq![new_job(d)]);
    assert(can_bump(new_job(d), d));
    assert(with.map_values(bump(d)) =~= seq![test_job_counted()]);
    assert(job_updated(Seq::<JobView>::empty(), d) == Some(seq![test_job_counted()]));
    assert(jobs_updated(db.jobs, seq![d]) == Some(seq![test_job_counted()]));
    // Both files take the job.
    let to_a = (a.ia_item_id, a.filename, test_job_id());
    let to_b = (b.ia_item_id, b.filename, test_job_id());
    assert(list.drop_last() =~= seq![to_a]);
    assert(seq![to_a].drop_last() =~= Seq::<(Seq<char>, Seq<char>, Seq<char>)>::empty());
    assert(files_assigned(db.files, Seq::<(Seq<char>, Seq<char>, Seq<char>)>::empty()) == db.files);
    assert(file_assigned(db.files, to_a) =~= seq![in_test_job(a), b]);
    assert(files_assigned(db.files, seq![to_a]) == seq![in_test_job(a), b]);
    assert(file_assigned(seq![in_test_job(a), b], to_b) =~= seq![in_test_job(a), in_test_job(b)]);
    assert(files_assigned(db.files, list) == seq![in_test_job(a), in_test_job(b)]);
    let next = DatabaseView { jobs: seq![test_job_counted()], files: seq![in_test_job(a), in_test_job(b)], ..db };
    assert(db.update_jobs(aggregate(page), list) == Some(next));
    // The next page is empty.
    lemma_test_matching_none(in_test_job(a), in_test_job(b), jobless_filter(last_key(page)));
    assert(next.files_without_job_id(last_key(page)) =~= Seq::empty());
    assert(next.aggregate_from(last_key(page)) == (next, true));
    assert(db.aggregate_from(start) == (next, true));
}

/// The item of the test data once its files are listed at `now`.
pub open spec fn test_item(now: Timestamp) -> ItemView {
    ItemView {
        identifier: "test_item_1"@,
        added_date: year_3000(),
        public_date: year_3000(),
        image_count: Some(123i64),
        refresh_date: Some(now),
    }
}

/// The statistics of the day of the test data: the bytes of both files.
pub open spec fn test_stat() -> DailyStat {
    DailyStat { date: year_3000().day(), size: 246 }
}

/// An empty store with the test data holds its item and its two files, the
/// metadata document before the archive, and nothing else.
pub proof fn lemma_test_loaded(now: Timestamp)
    ensures
        DatabaseView::empty().with_test_data(now) == (DatabaseView {
            items: seq![test_item(now)],
            files: seq![test_document(), test_archive()],
            ..DatabaseView::empty()
        }),
{
    reveal_strlit("example.com-inf-30000101-000000-abcde.warc.gz");
    reveal_strlit("example.com-inf-30000101-000000-abcde.json");
    lemma_test_keys();
    let none = DatabaseView::empty();
    let loaded = none.with_test_data(now);
    // The item.
    let infos = test_items();
    let fresh = new_items(infos);
    assert(fresh =~= seq![new_item(infos[0])]);
    assert(fresh.drop_last() =~= Seq::<ItemView>::empty());
    assert(keys_of::<ItemRecord>(Seq::<ItemView>::empty()) =~= Seq::<Key>::empty());
    assert(place(Seq::<Key>::empty(), ItemRecord::key_of(fresh[0])) == 0);
    assert(with_row::<ItemRecord>(Seq::<ItemView>::empty(), fresh[0]) =~= seq![fresh[0]]);
    assert(with_rows::<ItemRecord>(none.items, Seq::<ItemView>::empty()) == none.items);
    assert(fresh.last() == fresh[0]);
    assert(with_rows::<ItemRecord>(none.items, fresh) =~= seq![fresh[0]]);
    assert(seq![fresh[0]].map_values(stamped("test_item_1"@, now)) =~= seq![test_item(now)]);
    assert(loaded.items == seq![test_item(now)]);
    // The files.
    let archive = test_archive();
    let document = test_document();
    let listed = new_files("test_item_1"@, test_files());
    assert(listed =~= seq![archive, document]);
    assert(listed.drop_last() =~= seq![archive]);
    assert(seq![archive].drop_last() =~= Seq::<FileView>::empty());
    assert(keys_of::<FileRecord>(Seq::<FileView>::empty()) =~= Seq::<Key>::empty());
    assert(place(Seq::<Key>::empty(), FileRecord::key_of(archive)) == 0);
    assert(with_row::<FileRecord>(Seq::<FileView>::empty(), archive) =~= seq![archive]);
    assert(with_rows::<FileRecord>(none.files, Seq::<FileView>::empty()) == none.files);
    assert(seq![archive].last() == archive);
    assert(with_rows::<FileRecord>(none.files, seq![archive]) == seq![archive]);
    assert(listed.last() == document);
    let keys = keys_of::<FileRecord>(seq![archive]);
    assert(keys =~= seq![FileRecord::key_of(archive)]);
    assert(keys.drop_last() =~= Seq::<Key>::empty());
    assert(place(Seq::<Key>::empty(), FileRecord::key_of(document)) == 0);
    assert(!keys.contains(FileRecord::key_of(document)));
    let both = with_row::<FileRecord>(seq![archive], document);
    assert(place(keys, FileRecord::key_of(document)) == 0);
    assert(both =~= seq![document, archive]);
    assert(with_rows::<FileRecord>(none.files, listed) == both);
    assert(loaded.files == both);
}

/// The statistics over the item and the two files of the test data, in a
/// store without statistics, are those of one day with the bytes of both
/// files, and all of them are written.
pub proof fn lemma_test_counted(db: DatabaseView, now: Timestamp)
    requires
        db.items == seq![test_item(now)],
        db.files == test_files_assigned(),
        db.daily_stats == Seq::<DailyStat>::empty(),
    ensures
        db.populate_daily_stats() == (DatabaseView { daily_stats: seq![test_stat()], ..db }, true),
{
    let a = test_document();
    let b = test_archive();
    let date = year_3000().day();
    let key = ItemRecord::key_of(test_item(now));
    // The item is found by its identifier.
    let keys = keys_of::<ItemRecord>(db.items);
    assert(keys =~= seq![key]);
    assert(keys.drop_last() =~= Seq::<Key>::empty());
    lemma_key_lt_irreflexive(key);
    assert(place(Seq::<Key>::empty(), key) == 0);
    assert(place(keys, key) == 0);
    assert(item_of(db.items, "test_item_1"@) == Some(test_item(now)));
    assert(day_of_item(db.items, "test_item_1"@) == Some(date));
    // The bytes of its day.
    assert(db.files.drop_last() =~= seq![in_test_job(a)]);
    assert(seq![in_test_job(a)].drop_last() =~= Seq::<FileView>::empty());
    assert(bytes_of_day(db.items, Seq::<FileView>::empty(), date) == 0);
    assert(bytes_of_day(db.items, seq![in_test_job(a)], date) == 123);
    assert(bytes_of_day(db.items, db.files, date) == 246);
    // One batch of one item.
    let none = Seq::<DailyStat>::empty();
    assert(db.stats_batch(none, 0, 0) == Some(none));
    assert(stats_place(none, date) == 0);
    assert(stat_put(none, test_stat()) =~= seq![test_stat()]);
    assert(db.stats_batch(none, 0, 1) == Some(seq![test_stat()]));
    assert(db.stats_from(seq![test_stat()], 1) == (seq![test_stat()], true));
    assert(db.stats_from(none, 0) == (seq![test_stat()], true));
}

/// The job of the test data with its counters, address and initiator,
/// before it is indexed.
pub open spec fn test_job() -> JobView {
    JobView { url: "http://example.com/hello-world/"@, started_by: "username"@, ..test_job_counted() }
}

/// The two files of the test data with their job, the metadata document
/// before the archive.
pub open spec fn test_files_assigned() -> Seq<FileView> {
    seq![in_test_job(test_document()), in_test_job(test_archive())]
}

/// The store holds the test data, listed at `now`, and nothing else, as
/// the stages before indexing leave it: the item, its two files with
/// their job, the job with its counters, address and initiator, and the
/// statistics of the item's day.
pub open spec fn test_data_described(db: DatabaseView, now: Timestamp) -> bool {
    &&& db.items == seq![test_item(now)]
    &&& db.files == test_files_assigned()
    &&& db.jobs == seq![test_job()]
    &&& db.daily_stats == seq![test_stat()]
    &&& db.search_index == Seq::<SearchEntryView>::empty()
    &&& db.last_update is None
}

/// The store holds the test data, listed at `now`, and nothing else, as
/// all stages leave it: as before indexing, with the job under an index
/// row of its own that holds its domain and address.
pub open spec fn test_data_stored(db: DatabaseView, now: Timestamp) -> bool {
    &&& db.items == seq![test_item(now)]
    &&& db.files == test_files_assigned()
    &&& db.jobs.len() == 1
    &&& db.jobs[0].search_id is Some
    &&& db.jobs[0] == JobView { search_id: db.jobs[0].search_id, ..test_job() }
    &&& db.daily_stats == seq![test_stat()]
    &&& db.search_index == seq![
        SearchEntryView {
            rowid: db.jobs[0].search_id->0,
            domain: "example.com"@,
            url: "http://example.com/hello-world/"@,
        },
    ]
    &&& db.last_update is None
}

/// On an empty store the stages before indexing all succeed over the test
/// data, and leave one job: that of the two files, with one archive, one
/// metadata document, no abort and the bytes of the archive, under its
/// address and initiator.
pub proof fn law_test_data_described(now: Timestamp)
    ensures
        ({
            let loaded = DatabaseView::empty().with_test_data(now);
            let (aggregated, aggregated_all) = loaded.populate_jobs();
            let (counted, counted_all) = aggregated.populate_daily_stats();
            aggregated_all && counted_all && test_data_described(counted.with_test_url(), now)
        }),
{
    reveal_strlit("30000101000000abcde");
    let loaded = DatabaseView::empty().with_test_data(now);
    lemma_test_loaded(now);
    lemma_test_aggregated(loaded);
    let aggregated = loaded.populate_jobs().0;
    lemma_test_counted(aggregated, now);
    let counted = aggregated.populate_daily_stats().0;
    let last = counted.with_test_url();
    assert(counted.jobs.map_values(
        described("30000101000000abcde"@, "http://example.com/hello-world/"@, "username"@),
    ) =~= seq![test_job()]);
    assert(last.search_index =~= Seq::<SearchEntryView>::empty());
}

/// Once the test data's job is indexed, the store holds the test data
/// with the job under an index row of its own.
pub proof fn law_test_data_indexed(before: DatabaseView, after: DatabaseView, now: Timestamp)
    requires
        test_data_described(before, now),
        indexed_more(before, after),
        all_indexed(after),
        after.wf(),
    ensures
        test_data_stored(after, now),
{
    reveal_strlit("30000101000000abcde");
    assert(kept_job(before.jobs[0], after.jobs[0]));
    assert(after.jobs[0].id.len() > 0);
    assert(newly_indexed(before.jobs[0], after.jobs[0]));
    assert(job_has_row(before, after, 0));
    let e = SearchEntryView {
        rowid: after.jobs[0].search_id->0,
        domain: "example.com"@,
        url: "http://example.com/hello-world/"@,
    };
    assert forall|k: int| 0 <= k < after.search_index.len() implies after.search_index[k] == e by {
        assert(row_has_job(before, after, k));
    }
    if after.search_index.len() > 1 {
        assert(after.search_index[0].rowid != after.search_index[1].rowid);
    }
    assert(after.search_index =~= seq![e]);
}

} // verus!
