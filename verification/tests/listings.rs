use archivebot_viewer::backend::{job_fallback, search_results, sizes_valid, Backend};
use archivebot_viewer::queries::short_query;
use archivebot_viewer::database::{StoreError, UpdateFilesJobArgs, UpdateJobArgs};
use archivebot_viewer::ia::{FileDetails, ItemDetails};
use archivebot_viewer::sync::{Action, Event};
use archivebot_viewer::time::Timestamp;

fn delta(job: &str, short: &str, domain: &str, warcs: i64, jsons: i64, size: i64) -> UpdateJobArgs {
    UpdateJobArgs {
        short_id: short.to_string(),
        job_id: job.to_string(),
        domain: domain.to_string(),
        abort_inc: 0,
        warc_inc: warcs,
        json_inc: jsons,
        size_inc: size,
    }
}

fn assign(item: &str, name: &str, job: &str) -> UpdateFilesJobArgs {
    UpdateFilesJobArgs { ia_item_id: item.to_string(), filename: name.to_string(), job_id: job.to_string() }
}

fn sample() -> Backend {
    let mut backend = Backend::new();
    let files = vec![
        ("w1".to_string(), FileDetails { size: 10 }),
        ("w2".to_string(), FileDetails { size: 20 }),
        ("loose".to_string(), FileDetails { size: 30 }),
    ];
    backend.database.add_item_files("item", &files);
    backend
        .database
        .update_jobs(
            &vec![delta("20200101000000aaaaa", "aaaaa", "a.com", 2, 0, 30), delta("20200102000000bbbbb", "bbbbb", "b.org", 0, 1, 0)],
            &vec![assign("item", "w1", "20200101000000aaaaa"), assign("item", "w2", "20200101000000aaaaa")],
        )
        .unwrap();
    backend.database.add_job_url("20200101000000aaaaa", "http://a.com/", "alice");
    backend
}

#[test]
fn the_audits_list_the_jobs_that_lack_a_kind_of_file() {
    let backend = sample();
    let no_json = backend.get_audit_no_json_items();
    assert_eq!(no_json.len(), 1);
    assert_eq!(no_json[0].job_id, "20200101000000aaaaa");
    assert_eq!(no_json[0].domain, "a.com");
    let no_warc = backend.get_audit_no_warc_items();
    assert_eq!(no_warc.len(), 1);
    assert_eq!(no_warc[0].job_id, "20200102000000bbbbb");
    assert_eq!(no_warc[0].domain, "b.org");
}

#[test]
fn a_domain_lists_its_jobs_and_an_item_its_files() {
    let backend = sample();
    let rows = backend.get_domain("a.com");
    assert_eq!(rows.len(), 1);
    assert_eq!(rows[0].job_id, "20200101000000aaaaa");
    assert_eq!(rows[0].url, "http://a.com/");
    assert!(backend.get_domain("A.com").is_empty());
    assert_eq!(backend.get_domains(10, 0), vec!["a.com".to_string(), "b.org".to_string()]);

    let rows = backend.get_item("item");
    assert_eq!(rows.len(), 3);
    assert_eq!((rows[0].filename.as_str(), rows[0].job_id.as_str(), rows[0].size), ("loose", "", 30));
    assert_eq!((rows[1].filename.as_str(), rows[1].job_id.as_str(), rows[1].size), ("w1", "20200101000000aaaaa", 10));
    assert!(backend.get_item("other").is_empty());
    assert_eq!(backend.get_items(10, 0), Vec::<String>::new());
}

#[test]
fn a_job_lists_its_files_or_those_of_the_jobs_it_names() {
    let backend = sample();
    let rows = backend.get_job("20200101000000aaaaa");
    assert_eq!(rows.len(), 2);
    assert_eq!((rows[0].ia_item_id.as_str(), rows[0].filename.as_str(), rows[0].size), ("item", "w1", 10));
    assert_eq!(rows[1].filename, "w2");
    // By its short identifier the job is found through the search.
    assert_eq!(backend.get_job("aaaaa").len(), 2);
    // A job without files, and a name that names none, list nothing.
    assert!(backend.get_job("20200102000000bbbbb").is_empty());
    assert!(backend.get_job("ccccc").is_empty());
}

#[test]
fn the_costs_are_listed_by_who_started_the_jobs() {
    let backend = sample();
    let board = backend.get_cost_leaderboard().unwrap();
    assert_eq!(board.len(), 2);
    assert_eq!((board[0].who.as_str(), board[0].size), ("alic", 30));
    assert_eq!((board[1].who.as_str(), board[1].size), ("", 0));
    let mut backend = backend;
    backend
        .database
        .update_jobs(&vec![delta("j1", "", "d", 0, 0, i64::MAX), delta("j2", "", "d", 0, 0, 1)], &vec![])
        .unwrap();
    assert!(matches!(backend.get_cost_leaderboard(), Err(StoreError::OutOfRange)));
}

#[test]
fn rows_are_labelled_with_their_kind() {
    let rows = vec![("j".to_string(), "d".to_string(), "u".to_string())];
    let results = search_results(rows, "job");
    assert_eq!(results.len(), 1);
    assert_eq!(results[0].result_type, "job");
    assert_eq!(results[0].job_id, "j");
    assert_eq!(results[0].domain, "d");
    assert_eq!(results[0].url, "u");
    assert!(search_results(Vec::new(), "domain").is_empty());
}

#[test]
fn the_store_does_what_the_cycle_asks_for_and_leaves_the_rest() {
    let mut backend = sample();
    let now = Timestamp { secs: 1_000, nanos: 0 };
    assert!(backend.perform(Action::Pause { millis: 500 }, now).is_none());
    assert!(backend.perform(Action::Sleep { secs: 1 }, now).is_none());
    assert!(backend.perform(Action::Stop, now).is_none());
    assert!(backend.perform(Action::FetchItemFiles { identifier: "item".to_string() }, now).is_none());
    assert!(backend
        .perform(Action::FetchItems { after_date: now, cursor: None }, now)
        .is_none());

    let event = backend.perform(Action::ReadClock, now).unwrap();
    assert!(matches!(event, Event::Clock { now: n, last_update } if n == now && last_update == Timestamp::epoch()));
    let event = backend.perform(Action::WriteWatermark, now).unwrap();
    assert!(matches!(event, Event::Done));
    assert_eq!(backend.get_last_update(), now);

    let event = backend
        .perform(Action::SelectFiles { after_id: String::new(), after_filename: String::new() }, now)
        .unwrap();
    match event {
        Event::FileRows { rows } => assert_eq!(rows, vec![("item".to_string(), "loose".to_string(), 30)]),
        _ => panic!("rows expected"),
    }
    let event = backend
        .perform(
            Action::WriteJobs { jobs: vec![delta("20200101000000aaaaa", "", "", 0, 0, i64::MAX)], assigned: vec![] },
            now,
        )
        .unwrap();
    assert!(matches!(event, Event::Failed));
    let event = backend
        .perform(
            Action::StoreFiles {
                identifier: "item2".to_string(),
                files: ItemDetails { files: vec![("x".to_string(), FileDetails { size: 1 })] },
            },
            now,
        )
        .unwrap();
    assert!(matches!(event, Event::Done));
    assert_eq!(backend.get_item("item2").len(), 1);
    let event = backend.perform(Action::SelectJobs { after_id: String::new() }, now).unwrap();
    let ids = match event {
        Event::JobIds { ids } => ids,
        _ => panic!("identifiers expected"),
    };
    assert_eq!(ids.len(), 2);
    let event = backend.perform(Action::IndexJobs { job_ids: ids }, now).unwrap();
    assert!(matches!(event, Event::Done));
    assert_eq!(backend.search("a.com", false, 10, 0).len(), 1);
}

#[test]
fn a_listing_with_a_negative_size_is_not_stored() {
    let mut backend = Backend::new();
    let now = Timestamp { secs: 1_000, nanos: 0 };
    let files = vec![
        ("good".to_string(), FileDetails { size: 0 }),
        ("bad".to_string(), FileDetails { size: -1 }),
    ];
    assert!(!sizes_valid(&files));
    assert!(sizes_valid(&vec![("good".to_string(), FileDetails { size: 0 })]));
    assert!(sizes_valid(&Vec::new()));
    let event = backend
        .perform(Action::StoreFiles { identifier: "item".to_string(), files: ItemDetails { files } }, now)
        .unwrap();
    assert!(matches!(event, Event::Failed));
    assert!(backend.get_item("item").is_empty());
}

#[test]
fn a_job_without_files_is_looked_for_among_the_first_hundred() {
    assert_eq!(job_fallback(0), Some((0, 100)));
    assert_eq!(job_fallback(1), None);
    assert_eq!(job_fallback(usize::MAX), None);
}

#[test]
fn a_short_identifier_is_the_first_five_characters_of_an_ascii_query() {
    assert_eq!(short_query("abcdefgh"), Some("abcde".to_string()));
    assert_eq!(short_query("abcde"), Some("abcde".to_string()));
    assert_eq!(short_query("abc"), Some("abc".to_string()));
    assert_eq!(short_query(""), Some(String::new()));
    assert_eq!(short_query("abcd\u{e9}"), None);
    assert_eq!(short_query("abcdefgh\u{e9}"), None);
}
