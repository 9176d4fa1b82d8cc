use archivebot_viewer::database::{Database, StoreError, UpdateFilesJobArgs, UpdateJobArgs};
use archivebot_viewer::ia::{FileDetails, ItemInfo};
use archivebot_viewer::time::Timestamp;

fn at(secs: i64) -> Timestamp {
    Timestamp { secs, nanos: 0 }
}

fn item(id: &str, public: i64) -> ItemInfo {
    ItemInfo { identifier: id.to_string(), addeddate: at(public), publicdate: at(public), imagecount: None }
}

fn file(name: &str, size: i64) -> (String, FileDetails) {
    (name.to_string(), FileDetails { size })
}

fn delta(job: &str, short: &str, domain: &str, aborts: i64, warcs: i64, jsons: i64, size: i64) -> UpdateJobArgs {
    UpdateJobArgs {
        short_id: short.to_string(),
        job_id: job.to_string(),
        domain: domain.to_string(),
        abort_inc: aborts,
        warc_inc: warcs,
        json_inc: jsons,
        size_inc: size,
    }
}

fn assign(item: &str, name: &str, job: &str) -> UpdateFilesJobArgs {
    UpdateFilesJobArgs { ia_item_id: item.to_string(), filename: name.to_string(), job_id: job.to_string() }
}

const DAY: i64 = 86_400;

#[test]
fn the_watermark_is_the_epoch_until_it_is_set() {
    let mut db = Database::new();
    assert_eq!(db.get_last_update(), at(0));
    db.set_last_update(Timestamp { secs: 5, nanos: 7 });
    assert_eq!(db.get_last_update(), Timestamp { secs: 5, nanos: 7 });
}

#[test]
fn an_item_that_is_known_keeps_what_was_stored_first() {
    let mut db = Database::new();
    db.add_ia_items(&vec![item("a", 100)]);
    db.set_ia_item_refresh_date("a", at(500));
    db.add_ia_items(&vec![ItemInfo {
        identifier: "a".to_string(),
        addeddate: at(1),
        publicdate: at(2),
        imagecount: Some(9),
    }]);
    let stored = db.item("a").unwrap();
    assert_eq!(stored.added_date, at(100));
    assert_eq!(stored.public_date, at(100));
    assert_eq!(stored.image_count, None);
    assert_eq!(stored.refresh_date, Some(at(500)));
    assert!(db.item("b").is_none());
    assert_eq!(db.get_items(-1, 0).len(), 1);
}

#[test]
fn items_need_a_refresh_when_never_listed_or_lately_public() {
    let mut db = Database::new();
    let now = at(100 * DAY);
    db.add_ia_items(&vec![
        item("never", 10 * DAY),
        item("old", 10 * DAY),
        item("recent", 98 * DAY),
        item("edge", 97 * DAY),
        item("", 10 * DAY),
    ]);
    db.set_ia_item_refresh_date("old", now);
    db.set_ia_item_refresh_date("recent", now);
    db.set_ia_item_refresh_date("edge", now);
    db.set_ia_item_refresh_date("absent", now);
    assert_eq!(db.get_ia_items_needing_refresh("", now), vec!["never".to_string(), "recent".to_string()]);
    assert_eq!(db.get_ia_items_needing_refresh("never", now), vec!["recent".to_string()]);
    assert_eq!(db.get_ia_items_needing_refresh("o", now), vec!["recent".to_string()]);
    assert!(db.get_ia_items_needing_refresh("recent", now).is_empty());
    // Public exactly three days ago is not after the cutoff; a nanosecond later is.
    let a_little_earlier = Timestamp { secs: 100 * DAY - 1, nanos: 999_999_999 };
    assert_eq!(
        db.get_ia_items_needing_refresh("", a_little_earlier),
        vec!["edge".to_string(), "never".to_string(), "recent".to_string()]
    );
}

#[test]
fn a_page_holds_ten_thousand_rows_at_most() {
    let mut db = Database::new();
    let mut items = Vec::new();
    for i in 0..10_003 {
        items.push(item(&format!("item{:05}", i), 0));
    }
    db.add_ia_items(&items);
    let first = db.get_ia_items_needing_refresh("", at(0));
    assert_eq!(first.len(), 10_000);
    assert_eq!(first[0], "item00000");
    assert_eq!(first[9_999], "item09999");
    let second = db.get_ia_items_needing_refresh(&first[9_999], at(0));
    assert_eq!(second, vec!["item10000".to_string(), "item10001".to_string(), "item10002".to_string()]);
    assert!(db.get_ia_items_needing_refresh(&second[2], at(0)).is_empty());
}

#[test]
fn files_are_kept_in_the_order_of_item_and_name() {
    let mut db = Database::new();
    db.add_item_files("b", &vec![file("z", 1), file("/a", 2)]);
    db.add_item_files("a", &vec![file("m", 3), file("//n", 4)]);
    db.add_item_files("ab", &vec![file("", 5)]);
    let rows = db.get_files_without_job_id("", "");
    let keys: Vec<(String, String, i64)> = vec![
        ("a".to_string(), "/n".to_string(), 4),
        ("a".to_string(), "m".to_string(), 3),
        ("ab".to_string(), "".to_string(), 5),
        ("b".to_string(), "a".to_string(), 2),
        ("b".to_string(), "z".to_string(), 1),
    ];
    assert_eq!(rows, keys);
    let rows = db.get_files_without_job_id("a", "m");
    assert_eq!(rows.len(), 3);
    assert_eq!(rows[0].0, "ab");
    let rows = db.get_files_without_job_id("b", "a");
    assert_eq!(rows, vec![("b".to_string(), "z".to_string(), 1)]);
    assert!(db.get_files_without_job_id("b", "z").is_empty());
    assert_eq!(db.file("b", "a").unwrap().size, 2);
    assert!(db.file("b", "/a").is_none());
}

#[test]
fn text_is_ordered_by_its_bytes() {
    let mut db = Database::new();
    db.add_ia_items(&vec![item("b", 0), item("B", 0), item("\u{e9}", 0), item("a", 0), item("ab", 0), item("a\u{10348}", 0), item("a\u{ffff}", 0)]);
    assert_eq!(
        db.get_items(-1, 0),
        vec![
            "B".to_string(),
            "a".to_string(),
            "ab".to_string(),
            "a\u{ffff}".to_string(),
            "a\u{10348}".to_string(),
            "b".to_string(),
            "\u{e9}".to_string()
        ]
    );
}

#[test]
fn updating_jobs_creates_them_and_adds_to_their_counters() {
    let mut db = Database::new();
    db.add_item_files("i", &vec![file("f1", 10), file("f2", 20)]);
    db.update_jobs(
        &vec![delta("j1", "s1", "d1", 1, 2, 3, 4), delta("j0", "s0", "d0", 0, 1, 0, 5)],
        &vec![assign("i", "f1", "j1"), assign("i", "nothing", "j1")],
    )
    .unwrap();
    db.update_jobs(&vec![delta("j1", "other", "other", 1, 1, 1, 1), delta("j1", "x", "y", 0, 0, 0, -2)], &vec![])
        .unwrap();
    let j1 = db.job("j1").unwrap();
    assert_eq!(j1.short_id, "s1");
    assert_eq!(j1.domain, "d1");
    assert_eq!(j1.url, "");
    assert_eq!(j1.started_by, "");
    assert_eq!((j1.aborts, j1.warcs, j1.jsons, j1.size), (2, 3, 4, 3));
    assert_eq!(j1.search_id, None);
    let j0 = db.job("j0").unwrap();
    assert_eq!((j0.aborts, j0.warcs, j0.jsons, j0.size), (0, 1, 0, 5));
    assert_eq!(db.file("i", "f1").unwrap().job_id, Some("j1".to_string()));
    assert_eq!(db.file("i", "f2").unwrap().job_id, None);
    assert_eq!(db.get_files_without_job_id("", ""), vec![("i".to_string(), "f2".to_string(), 20)]);
    assert_eq!(db.get_files_by_job("j1"), vec![("i".to_string(), "f1".to_string(), 10)]);
    let jobs = db.get_jobs(-1, 0);
    assert_eq!(jobs.len(), 2);
    assert_eq!(jobs[0].0, "j0");
    assert_eq!(jobs[1].0, "j1");
}

#[test]
fn a_counter_out_of_range_writes_nothing() {
    let mut db = Database::new();
    db.add_item_files("i", &vec![file("f1", 10)]);
    db.update_jobs(&vec![delta("j1", "s", "d", 0, 0, 0, i64::MAX)], &vec![]).unwrap();
    let r = db.update_jobs(
        &vec![delta("new", "s", "d", 1, 1, 1, 1), delta("j1", "s", "d", 0, 0, 0, 1)],
        &vec![assign("i", "f1", "j1")],
    );
    assert_eq!(r, Err(StoreError::OutOfRange));
    assert!(db.job("new").is_none());
    assert_eq!(db.job("j1").unwrap().size, i64::MAX);
    assert_eq!(db.file("i", "f1").unwrap().job_id, None);
    let r = db.update_jobs(&vec![delta("j1", "s", "d", i64::MIN, 0, 0, 0), delta("j1", "s", "d", -1, 0, 0, 0)], &vec![]);
    assert_eq!(r, Err(StoreError::OutOfRange));
    assert_eq!(db.job("j1").unwrap().aborts, 0);
}

#[test]
fn the_statistics_of_a_day_are_the_bytes_of_its_items_files() {
    let mut db = Database::new();
    db.add_ia_items(&vec![item("a", 3 * DAY + 5), item("b", 3 * DAY + DAY - 1), item("c", 4 * DAY), item("d", -1)]);
    db.add_item_files("a", &vec![file("x", 1), file("y", 2)]);
    db.add_item_files("b", &vec![file("x", 4)]);
    db.add_item_files("c", &vec![file("x", 8)]);
    db.add_item_files("nobody", &vec![file("x", 16)]);
    db.populate_daily_stats().unwrap();
    let stats = db.get_daily_stats();
    assert_eq!(stats.len(), 3);
    assert_eq!((stats[0].0.days, stats[0].1), (-1, 0));
    assert_eq!((stats[1].0.days, stats[1].1), (3, 7));
    assert_eq!((stats[2].0.days, stats[2].1), (4, 8));

    // A second run over the same data leaves the same rows.
    db.populate_daily_stats().unwrap();
    assert_eq!(db.get_daily_stats(), stats);

    // New files are counted, the statistic is written over.
    db.add_item_files("c", &vec![file("z", 100)]);
    db.populate_daily_stats().unwrap();
    let stats = db.get_daily_stats();
    assert_eq!((stats[2].0.days, stats[2].1), (4, 108));
}

#[test]
fn statistics_that_do_not_fit_fail_their_batch() {
    let mut db = Database::new();
    let mut items = Vec::new();
    for i in 0..150 {
        items.push(item(&format!("item{:03}", i), (i as i64) * DAY));
    }
    db.add_ia_items(&items);
    db.add_item_files("item010", &vec![file("x", 7)]);
    db.add_item_files("item120", &vec![file("x", i64::MAX), file("y", 1)]);
    assert_eq!(db.populate_daily_stats(), Err(StoreError::OutOfRange));
    // The first hundred items were written, the batch with the failure was not.
    let stats = db.get_daily_stats();
    assert_eq!(stats.len(), 100);
    assert_eq!((stats[10].0.days, stats[10].1), (10, 7));
    assert_eq!(stats[99].0.days, 99);
}

#[test]
fn metadata_files_are_listed_until_their_job_has_an_address() {
    let mut db = Database::new();
    db.add_item_files("i", &vec![file("a.json", 1), file("b.JSON", 1), file("c.warc.gz", 1), file("d.json", 1), file("e.json", 1)]);
    db.update_jobs(
        &vec![delta("j1", "", "d", 0, 0, 0, 0), delta("j2", "", "d", 0, 0, 0, 0)],
        &vec![assign("i", "a.json", "j1"), assign("i", "b.JSON", "j2"), assign("i", "c.warc.gz", "j2"), assign("i", "e.json", "gone")],
    )
    .unwrap();
    let rows = db.get_jobs_without_url("", "");
    assert_eq!(
        rows,
        vec![
            ("i".to_string(), "a.json".to_string(), "j1".to_string()),
            ("i".to_string(), "b.JSON".to_string(), "j2".to_string())
        ]
    );
    assert_eq!(db.get_jobs_without_url("i", "a.json").len(), 1);
    db.add_job_url("j1", "http://d/", "me");
    let rows = db.get_jobs_without_url("", "");
    assert_eq!(rows, vec![("i".to_string(), "b.JSON".to_string(), "j2".to_string())]);
    let j1 = db.job("j1").unwrap();
    assert_eq!(j1.url, "http://d/");
    assert_eq!(j1.started_by, "me");
}

#[test]
fn indexing_gives_each_job_a_row_of_its_own() {
    let mut db = Database::new();
    db.update_jobs(&vec![delta("j1", "", "one.com", 0, 0, 0, 0), delta("j2", "", "two.com", 0, 0, 0, 0)], &vec![]).unwrap();
    assert_eq!(db.get_jobs_without_search(""), vec!["j1".to_string(), "j2".to_string()]);
    assert_eq!(db.get_jobs_without_search("j1"), vec!["j2".to_string()]);
    db.add_job_search_rows_with(&vec![("j1".to_string(), 77), ("unknown".to_string(), 78)]).unwrap();
    assert_eq!(db.job("j1").unwrap().search_id, Some(77));
    assert_eq!(db.get_jobs_without_search(""), vec!["j2".to_string()]);
    assert_eq!(db.search_domain("one", 0, -1), vec![("j1".to_string(), "one.com".to_string(), "".to_string())]);

    // A row number that is taken fails the whole call.
    let r = db.add_job_search_rows_with(&vec![("j2".to_string(), 5), ("j2".to_string(), 77)]);
    assert_eq!(r, Err(StoreError::Constraint));
    assert_eq!(db.job("j2").unwrap().search_id, None);
    assert!(db.search_domain("two", 0, -1).is_empty());
    // A row number that no job took is free.
    db.add_job_search_rows_with(&vec![("j2".to_string(), 78)]).unwrap();
    assert_eq!(db.job("j2").unwrap().search_id, Some(78));

    // Row numbers from the generator differ from each other.
    db.update_jobs(&vec![delta("j3", "", "three.com", 0, 0, 0, 0), delta("j4", "", "four.com", 0, 0, 0, 0)], &vec![]).unwrap();
    db.add_job_search_rows(&db.get_jobs_without_search("")).unwrap();
    let a = db.job("j3").unwrap().search_id.unwrap();
    let b = db.job("j4").unwrap().search_id.unwrap();
    assert_ne!(a, b);
    assert_eq!((b & 0xffff), ((a & 0xffff) + 1) & 0xffff);
    assert!(db.get_jobs_without_search("").is_empty());
}

#[test]
fn listings_are_windows_over_ordered_rows() {
    let mut db = Database::new();
    db.update_jobs(
        &vec![
            delta("j3", "", "b.com", 0, 1, 0, 0),
            delta("j1", "", "a.com", 0, 0, 1, 0),
            delta("j2", "", "b.com", 0, 1, 1, 0),
            delta("j4", "", "C.com", 0, 0, 0, 0),
        ],
        &vec![],
    )
    .unwrap();
    assert_eq!(db.get_domains(-1, 0), vec!["C.com".to_string(), "a.com".to_string(), "b.com".to_string()]);
    assert_eq!(db.get_domains(1, 1), vec!["a.com".to_string()]);
    assert_eq!(db.get_domains(5, 2), vec!["b.com".to_string()]);
    assert!(db.get_domains(5, 3).is_empty());
    assert!(db.get_domains(5, 30).is_empty());
    assert!(db.get_domains(0, 0).is_empty());
    assert_eq!(db.get_domains(i64::MAX, -5).len(), 3);
    assert_eq!(db.get_jobs(2, 1).len(), 2);
    assert_eq!(db.get_jobs(2, 1)[0].0, "j2");
    assert_eq!(
        db.get_jobs_by_domain("b.com"),
        vec![("j2".to_string(), "".to_string()), ("j3".to_string(), "".to_string())]
    );
    assert_eq!(
        db.get_no_json_jobs(),
        vec![("j3".to_string(), "b.com".to_string()), ("j4".to_string(), "C.com".to_string())]
    );
    assert_eq!(
        db.get_no_warc_jobs(),
        vec![("j1".to_string(), "a.com".to_string()), ("j4".to_string(), "C.com".to_string())]
    );
}

#[test]
fn the_leaderboard_sums_by_the_first_four_letters_in_lower_case() {
    let mut db = Database::new();
    db.update_jobs(
        &vec![
            delta("j1", "", "d", 0, 0, 0, 10),
            delta("j2", "", "d", 0, 0, 0, 5),
            delta("j3", "", "d", 0, 0, 0, 20),
            delta("j4", "", "d", 0, 0, 0, 15),
            delta("j5", "", "d", 0, 0, 0, 15),
            delta("j6", "", "d", 0, 0, 0, 1),
        ],
        &vec![],
    )
    .unwrap();
    db.add_job_url("j1", "", "Alice");
    db.add_job_url("j2", "", "alicia");
    db.add_job_url("j3", "", "bob");
    db.add_job_url("j4", "", "ALIC");
    db.add_job_url("j5", "", "Zed");
    let board = db.get_cost_leaderboard().unwrap();
    assert_eq!(
        board,
        vec![("alic".to_string(), 30), ("bob".to_string(), 20), ("zed".to_string(), 15), ("".to_string(), 1)]
    );
    db.update_jobs(&vec![delta("j7", "", "d", 0, 0, 0, i64::MAX)], &vec![]).unwrap();
    db.add_job_url("j7", "", "alice");
    assert_eq!(db.get_cost_leaderboard(), Err(StoreError::OutOfRange));
}

#[test]
fn recomputing_leaves_the_statistics_of_other_days_as_they_are() {
    let mut db = Database::new();
    db.add_ia_items(&vec![item("a", 3 * DAY)]);
    db.add_item_files("a", &vec![file("x", 1), file("y", 2)]);
    db.populate_daily_stats().unwrap();
    assert_eq!(db.get_daily_stats().len(), 1);

    db.add_ia_items(&vec![item("b", 5 * DAY), item("c", DAY)]);
    db.add_item_files("b", &vec![file("x", 4)]);
    db.populate_daily_stats().unwrap();
    let stats = db.get_daily_stats();
    assert_eq!(stats.len(), 3);
    assert_eq!((stats[0].0.days, stats[0].1), (1, 0));
    assert_eq!((stats[1].0.days, stats[1].1), (3, 3));
    assert_eq!((stats[2].0.days, stats[2].1), (5, 4));
}
