use archivebot_viewer::backend::Backend;
use archivebot_viewer::database::Database;
use archivebot_viewer::ia::{FileDetails, ItemInfo};
use archivebot_viewer::jobs::aggregate_files;
use archivebot_viewer::time::Timestamp;

fn at(secs: i64) -> Timestamp {
    Timestamp { secs, nanos: 0 }
}

#[test]
fn two_files_of_one_job_aggregate_into_one_job() {
    let files = vec![
        ("item".to_string(), "a.com-inf-20200101-000000-x1y2z.warc.gz".to_string(), 100),
        ("item".to_string(), "a.com-inf-20200101-000000-x1y2z.json".to_string(), 50),
    ];
    let (jobs, assigned) = aggregate_files(&files).unwrap();
    assert_eq!(jobs.len(), 1);
    assert_eq!(jobs[0].job_id, "20200101000000x1y2z");
    assert_eq!(jobs[0].short_id, "x1y2z");
    assert_eq!(jobs[0].domain, "a.com");
    assert_eq!(jobs[0].warc_inc, 1);
    assert_eq!(jobs[0].json_inc, 1);
    assert_eq!(jobs[0].abort_inc, 0);
    assert_eq!(jobs[0].size_inc, 100);
    assert_eq!(assigned.len(), 2);
    assert_eq!(assigned[0].filename, "a.com-inf-20200101-000000-x1y2z.warc.gz");
    assert_eq!(assigned[1].job_id, "20200101000000x1y2z");
}

#[test]
fn test_data_gives_one_job_that_the_search_finds() {
    let mut backend = Backend::new();
    backend.populate_test_data(at(1_700_000_000)).unwrap();

    let jobs = backend.get_jobs(1000, 0);
    assert_eq!(jobs.len(), 1);
    assert_eq!(jobs[0].job_id, "30000101000000abcde");
    assert_eq!(jobs[0].domain, "example.com");
    assert_eq!(jobs[0].url, "http://example.com/hello-world/");

    let job = backend.database.job("30000101000000abcde").unwrap();
    assert_eq!(job.warcs, 1);
    assert_eq!(job.jsons, 1);
    assert_eq!(job.aborts, 0);
    assert_eq!(job.size, 123);
    assert_eq!(job.short_id, "abcde");
    assert_eq!(job.started_by, "username");
    assert!(job.search_id.is_some());

    let found = backend.search("example.com", true, 1000, 0);
    assert_eq!(found.len(), 1);
    assert_eq!(found[0].result_type, "domain");
    assert_eq!(found[0].job_id, "30000101000000abcde");
    assert_eq!(found[0].domain, "example.com");
    assert_eq!(found[0].url, "http://example.com/hello-world/");

    let stats = backend.get_daily_stats();
    assert_eq!(stats.len(), 1);
    assert_eq!(stats[0].0.days, 376_200);
    assert_eq!(stats[0].1, 246);
}

#[test]
fn storing_items_and_files_twice_changes_nothing() {
    let mut db = Database::new();
    let items = vec![
        ItemInfo { identifier: "b".to_string(), addeddate: at(10), publicdate: at(20), imagecount: None },
        ItemInfo { identifier: "a".to_string(), addeddate: at(11), publicdate: at(21), imagecount: Some(3) },
    ];
    db.add_ia_items(&items);
    db.add_ia_items(&items);
    assert_eq!(db.get_items(-1, 0), vec!["a".to_string(), "b".to_string()]);

    let files = vec![
        ("/x.json".to_string(), FileDetails { size: 5 }),
        ("x.json".to_string(), FileDetails { size: 7 }),
    ];
    db.add_item_files("a", &files);
    db.add_item_files("a", &files);
    let listed = db.get_files_by_item("a");
    assert_eq!(listed.len(), 1);
    assert_eq!(listed[0], ("x.json".to_string(), String::new(), 5));
}

#[test]
fn aggregating_more_files_lowers_no_counter() {
    let mut backend = Backend::new();
    let first = vec![
        ("a.com-inf-20200101-000000-x1y2z-00000.warc.gz".to_string(), FileDetails { size: 100 }),
        ("a.com-inf-20200101-000000-x1y2z.json".to_string(), FileDetails { size: 50 }),
    ];
    backend.database.add_item_files("item", &first);
    backend.populate_jobs().unwrap();
    let before = backend.database.job("20200101000000x1y2z").unwrap();
    assert_eq!((before.aborts, before.warcs, before.jsons, before.size), (0, 1, 1, 100));

    let second = vec![
        ("a.com-inf-20200101-000000-x1y2z-00001.warc.gz".to_string(), FileDetails { size: 0 }),
        ("a.com-inf-20200101-000000-x1y2z-aborted-00002.warc.gz".to_string(), FileDetails { size: 7 }),
        ("b.org-shallow-20200102-000000-aaaaa.json".to_string(), FileDetails { size: 9 }),
    ];
    backend.database.add_item_files("item", &second);
    backend.populate_jobs().unwrap();
    let after = backend.database.job("20200101000000x1y2z").unwrap();
    assert_eq!((after.aborts, after.warcs, after.jsons, after.size), (1, 3, 1, 107));
    assert!(after.aborts >= before.aborts && after.warcs >= before.warcs);
    assert!(after.jsons >= before.jsons && after.size >= before.size);
}

#[test]
fn the_first_jobs_of_an_empty_index_are_always_indexed() {
    let mut backend = Backend::new();
    let mut files = Vec::new();
    for i in 0..300 {
        files.push((format!("a.com-inf-20200101-{:06}-x1y2z.json", i), FileDetails { size: 1 }));
    }
    backend.database.add_item_files("item", &files);
    backend.populate_jobs().unwrap();
    assert_eq!(backend.get_jobs(1000, 0).len(), 300);
    backend.populate_search().unwrap();
    let mut rows = Vec::new();
    for job in backend.get_jobs(1000, 0) {
        rows.push(backend.database.job(&job.job_id).unwrap().search_id.unwrap());
    }
    rows.sort();
    rows.dedup();
    assert_eq!(rows.len(), 300);
    // Nothing is left to index: a second run changes nothing.
    backend.populate_search().unwrap();
    assert_eq!(backend.search("a.com", false, -1, 0).len(), 300);
}

#[test]
fn the_test_data_leaves_both_files_with_the_job_in_the_order_of_their_names() {
    let mut backend = Backend::new();
    backend.populate_test_data(at(1_700_000_000)).unwrap();
    let files = backend.get_item("test_item_1");
    assert_eq!(files.len(), 2);
    assert_eq!(files[0].filename, "example.com-inf-30000101-000000-abcde.json");
    assert_eq!(files[1].filename, "example.com-inf-30000101-000000-abcde.warc.gz");
    assert_eq!(files[0].job_id, "30000101000000abcde");
    assert_eq!(files[1].job_id, "30000101000000abcde");
    assert_eq!((files[0].size, files[1].size), (123, 123));
    let stats = backend.get_daily_stats();
    assert_eq!(stats.len(), 1);
    assert_eq!(stats[0].1, 246);
    let job = backend.database.job("30000101000000abcde").unwrap();
    let found = backend.search_link("example.com", false, -1, 0);
    assert_eq!(found.len(), 1);
    assert_eq!(job.search_id.is_some(), true);
}

#[test]
fn aggregation_gives_each_file_the_job_of_its_name_and_no_other() {
    let mut backend = Backend::new();
    let files = vec![
        ("a.com-inf-20200101-000000-x1y2z.json".to_string(), FileDetails { size: 5 }),
        ("b.org-shallow-20131101-162719-aborted.json".to_string(), FileDetails { size: 6 }),
        ("notes.txt".to_string(), FileDetails { size: 7 }),
    ];
    backend.database.add_item_files("item", &files);
    backend.populate_jobs().unwrap();
    let rows = backend.get_item("item");
    assert_eq!(rows.len(), 3);
    assert_eq!((rows[0].filename.as_str(), rows[0].job_id.as_str()), ("a.com-inf-20200101-000000-x1y2z.json", "20200101000000x1y2z"));
    assert_eq!((rows[1].filename.as_str(), rows[1].job_id.as_str()), ("b.org-shallow-20131101-162719-aborted.json", "20131101162719"));
    assert_eq!((rows[2].filename.as_str(), rows[2].job_id.as_str()), ("notes.txt", ""));

    let more = vec![("a.com-inf-20200101-000000-x1y2z-meta.warc.gz".to_string(), FileDetails { size: 8 })];
    backend.database.add_item_files("item", &more);
    backend.populate_jobs().unwrap();
    let rows = backend.get_item("item");
    assert_eq!(rows.len(), 4);
    // A hyphen comes before a dot: the new file stands first.
    assert_eq!(rows[0].filename, "a.com-inf-20200101-000000-x1y2z-meta.warc.gz");
    assert_eq!(rows[0].job_id, "20200101000000x1y2z");
    assert_eq!(rows[1].job_id, "20200101000000x1y2z");
    assert_eq!(rows[2].job_id, "20131101162719");
    assert_eq!(rows[3].job_id, "");
    assert_eq!((rows[0].size, rows[1].size, rows[2].size, rows[3].size), (8, 5, 6, 7));
}

#[test]
fn aggregation_moves_the_counters_of_a_job_and_nothing_else_of_it() {
    let mut backend = Backend::new();
    let first = vec![("a.com-inf-20200101-000000-x1y2z.json".to_string(), FileDetails { size: 5 })];
    backend.database.add_item_files("item", &first);
    backend.populate_jobs().unwrap();
    backend.database.add_job_url("20200101000000x1y2z", "http://a.com/", "alice");
    backend.populate_search().unwrap();
    let before = backend.database.job("20200101000000x1y2z").unwrap();
    assert!(before.search_id.is_some());

    // A file of the same job under the name of another domain.
    let second = vec![
        ("b.org-shallow-20200101-000000-x1y2z-00000.warc.gz".to_string(), FileDetails { size: 9 }),
        ("c.net-inf-20200102-000000-aaaaa.json".to_string(), FileDetails { size: 1 }),
    ];
    backend.database.add_item_files("item", &second);
    backend.populate_jobs().unwrap();
    let after = backend.database.job("20200101000000x1y2z").unwrap();
    assert_eq!(after.id, before.id);
    assert_eq!(after.short_id, "x1y2z");
    assert_eq!(after.domain, "a.com");
    assert_eq!(after.url, "http://a.com/");
    assert_eq!(after.started_by, "alice");
    assert_eq!(after.search_id, before.search_id);
    assert_eq!((after.aborts, after.warcs, after.jsons, after.size), (0, 1, 1, 9));
    let other = backend.database.job("20200102000000aaaaa").unwrap();
    assert_eq!((other.domain.as_str(), other.url.as_str(), other.search_id), ("c.net", "", None));
}
