use archivebot_viewer::backend::Backend;
use archivebot_viewer::enrich::{EnrichAction, EnrichEvent, EnrichPhase};
use archivebot_viewer::ia::{FileDetails, ItemDetails, ItemInfo, JsonMetadata};
use archivebot_viewer::sync::{Action, Event, Phase, CYCLE_SLEEP_SECS, MIN_SPACING_SECS, OVERLAP_SECS, PAUSE_MILLIS};
use archivebot_viewer::time::Timestamp;

fn at(secs: i64) -> Timestamp {
    Timestamp { secs, nanos: 0 }
}

fn item(id: &str, public: i64) -> ItemInfo {
    ItemInfo { identifier: id.to_string(), addeddate: at(public), publicdate: at(public), imagecount: Some(1) }
}

fn listing(files: &[(&str, i64)]) -> ItemDetails {
    ItemDetails { files: files.iter().map(|f| (f.0.to_string(), FileDetails { size: f.1 })).collect() }
}

/// A catalog of two pages and three items with their files.
fn remote(action: &Action) -> Option<Event> {
    match action {
        Action::FetchItems { after_date, cursor } => {
            assert_eq!(*after_date, at(1_000_000 - OVERLAP_SECS));
            match cursor.as_deref() {
                None => Some(Event::Items { items: vec![item("two", 20), item("one", 10)], cursor: Some("next".to_string()) }),
                Some("next") => Some(Event::Items { items: vec![item("three", 30), item("one", 99)], cursor: None }),
                _ => Some(Event::Failed),
            }
        }
        Action::FetchItemFiles { identifier } => match identifier.as_str() {
            "one" => Some(Event::Files {
                files: listing(&[
                    ("a.com-inf-20200101-000000-aaaaa-00000.warc.gz", 100),
                    ("a.com-inf-20200101-000000-aaaaa.json", 5),
                    ("notes.txt", 1),
                ]),
            }),
            "two" => Some(Event::Files { files: listing(&[("a.com-inf-20200101-000000-aaaaa-00001.warc.gz", 200)]) }),
            "three" => Some(Event::Files { files: listing(&[("b.org-shallow-20200102-000000-aborted.json", 7)]) }),
            _ => Some(Event::Failed),
        },
        Action::Pause { millis } => {
            assert_eq!(*millis, PAUSE_MILLIS);
            Some(Event::Done)
        }
        _ => None,
    }
}

/// Runs the cycle until it sleeps or stops, and returns the actions it asked for.
fn run_cycle(backend: &mut Backend, now: Timestamp, fail_on: Option<&str>) -> Vec<String> {
    let mut trace = Vec::new();
    let (mut phase, mut action) = Phase::start();
    loop {
        let name = format!("{:?}", action);
        let name = name.split(|c: char| !c.is_alphanumeric()).next().unwrap().to_string();
        trace.push(name.clone());
        if let Action::Sleep { secs } = &action {
            assert_eq!(*secs, CYCLE_SLEEP_SECS);
            assert!(phase.interruptible());
            return trace;
        }
        if let Action::Stop = &action {
            return trace;
        }
        let event = if fail_on == Some(name.as_str()) {
            Event::Failed
        } else {
            match remote(&action) {
                Some(event) => event,
                None => backend.perform(action, now).unwrap(),
            }
        };
        if trace.len() > 1 {
            assert!(!phase.interruptible());
        }
        let next = phase.step(event);
        phase = next.0;
        action = next.1;
    }
}

#[test]
fn a_cycle_goes_through_its_stages_in_order() {
    let mut backend = Backend::new();
    backend.database.set_last_update(at(1_000_000));
    let now = at(1_000_000 + MIN_SPACING_SECS);
    let trace = run_cycle(&mut backend, now, None);
    let expected = vec![
        "ReadClock",
        "FetchItems", "StoreItems", "FetchItems", "StoreItems",
        "SelectItems",
        "FetchItemFiles", "StoreFiles", "StampRefresh", "Pause",
        "FetchItemFiles", "StoreFiles", "StampRefresh", "Pause",
        "FetchItemFiles", "StoreFiles", "StampRefresh", "Pause",
        "SelectItems",
        "SelectFiles", "WriteJobs", "SelectFiles",
        "RecomputeStats",
        "SelectJobs", "IndexJobs", "SelectJobs",
        "WriteWatermark",
        "Sleep",
    ];
    assert_eq!(trace, expected);

    assert_eq!(backend.get_last_update(), now);
    assert_eq!(backend.get_items(-1, 0), vec!["one".to_string(), "three".to_string(), "two".to_string()]);
    let one = backend.database.item("one").unwrap();
    assert_eq!(one.public_date, at(10));
    assert_eq!(one.refresh_date, Some(now));
    let job = backend.database.job("20200101000000aaaaa").unwrap();
    assert_eq!((job.aborts, job.warcs, job.jsons, job.size), (0, 2, 1, 300));
    assert_eq!(job.domain, "a.com");
    assert!(job.search_id.is_some());
    let job = backend.database.job("20200102000000").unwrap();
    assert_eq!((job.aborts, job.warcs, job.jsons, job.size), (1, 0, 1, 0));
    assert_eq!(job.short_id, "");
    assert_eq!(backend.get_jobs(-1, 0).len(), 2);
    assert_eq!(backend.database.file("one", "notes.txt").unwrap().job_id, None);
    assert_eq!(backend.get_job("20200101000000aaaaa").len(), 3);
    assert_eq!(backend.get_job("aaaaa").len(), 3);
    assert!(backend.get_job("zzzzz").is_empty());
    assert_eq!(backend.search("a.com", false, 10, 0).len(), 1);
    let stats = backend.get_daily_stats();
    assert_eq!(stats.len(), 1);
    assert_eq!(stats[0].1, 313);
}

#[test]
fn a_second_cycle_over_the_same_catalog_changes_no_counter() {
    let mut backend = Backend::new();
    backend.database.set_last_update(at(1_000_000));
    let now = at(1_000_000 + MIN_SPACING_SECS);
    run_cycle(&mut backend, now, None);
    let jobs = backend.get_jobs(-1, 0);
    let before = backend.database.job("20200101000000aaaaa").unwrap();

    // The items were listed just now, and they are no longer lately public.
    backend.database.set_last_update(at(1_000_000));
    let trace = run_cycle(&mut backend, now, None);
    let expected = vec![
        "ReadClock",
        "FetchItems", "StoreItems", "FetchItems", "StoreItems",
        "SelectItems",
        "SelectFiles", "WriteJobs", "SelectFiles",
        "RecomputeStats",
        "SelectJobs",
        "WriteWatermark",
        "Sleep",
    ];
    assert_eq!(trace, expected);
    let after = backend.database.job("20200101000000aaaaa").unwrap();
    assert_eq!((after.aborts, after.warcs, after.jsons, after.size), (before.aborts, before.warcs, before.jsons, before.size));
    assert_eq!(after.search_id, before.search_id);
    assert_eq!(backend.get_jobs(-1, 0).len(), jobs.len());
    assert_eq!(backend.get_items(-1, 0).len(), 3);
    assert_eq!(backend.database.get_files_without_job_id("", "").len(), 1);
}

#[test]
fn no_stage_runs_before_four_hours_have_passed() {
    let mut backend = Backend::new();
    backend.database.set_last_update(at(1_000_000));
    let now = Timestamp { secs: 1_000_000 + MIN_SPACING_SECS - 1, nanos: 999_999_999 };
    let trace = run_cycle(&mut backend, now, None);
    assert_eq!(trace, vec!["ReadClock", "Sleep"]);
    assert_eq!(backend.get_last_update(), at(1_000_000));
    assert!(backend.get_items(-1, 0).is_empty());
}

#[test]
fn a_failing_stage_ends_the_cycle_and_the_watermark_is_set() {
    for (failing, expected) in [
        ("FetchItems", vec!["ReadClock", "FetchItems", "WriteWatermark", "Sleep"]),
        ("StoreItems", vec!["ReadClock", "FetchItems", "StoreItems", "WriteWatermark", "Sleep"]),
        (
            "FetchItemFiles",
            vec!["ReadClock", "FetchItems", "StoreItems", "FetchItems", "StoreItems", "SelectItems", "FetchItemFiles", "WriteWatermark", "Sleep"],
        ),
        (
            "SelectFiles",
            vec![
                "ReadClock", "FetchItems", "StoreItems", "FetchItems", "StoreItems", "SelectItems",
                "FetchItemFiles", "StoreFiles", "StampRefresh", "Pause",
                "FetchItemFiles", "StoreFiles", "StampRefresh", "Pause",
                "FetchItemFiles", "StoreFiles", "StampRefresh", "Pause",
                "SelectItems", "SelectFiles", "WriteWatermark", "Sleep",
            ],
        ),
    ] {
        let mut backend = Backend::new();
        backend.database.set_last_update(at(1_000_000));
        let now = at(1_000_000 + MIN_SPACING_SECS);
        let trace = run_cycle(&mut backend, now, Some(failing));
        assert_eq!(trace, expected);
        assert_eq!(backend.get_last_update(), now);
        assert!(backend.get_jobs(-1, 0).is_empty());
    }
}

#[test]
fn the_run_stops_where_the_watermark_cannot_be_read_or_written() {
    let mut backend = Backend::new();
    assert_eq!(run_cycle(&mut backend, at(1_000_000), Some("ReadClock")), vec!["ReadClock", "Stop"]);
    backend.database.set_last_update(at(1_000_000));
    let trace = run_cycle(&mut backend, at(2_000_000), Some("WriteWatermark"));
    assert_eq!(trace.last().unwrap(), "Stop");
    assert_eq!(trace[trace.len() - 2], "WriteWatermark");
    let (phase, action) = Phase::Stopped.step(Event::Done);
    assert!(matches!(phase, Phase::Stopped));
    assert!(matches!(action, Action::Stop));
}

#[test]
fn after_the_wait_the_clock_is_read_again() {
    let (phase, action) = Phase::Sleeping.step(Event::Done);
    assert!(matches!(phase, Phase::Idle));
    assert!(matches!(action, Action::ReadClock));
    let (phase, action) = Phase::WritingWatermark.step(Event::Done);
    assert!(matches!(phase, Phase::Sleeping));
    assert!(matches!(action, Action::Sleep { secs: 21_600 }));
}

#[test]
fn an_event_that_was_not_asked_for_ends_the_cycle() {
    let (phase, action) = Phase::SelectingFiles.step(Event::JobIds { ids: vec!["x".to_string()] });
    assert!(matches!(phase, Phase::WritingWatermark));
    assert!(matches!(action, Action::WriteWatermark));
    let (phase, _) = Phase::Pausing { ids: vec![], at: 0 }.step(Event::Done);
    assert!(matches!(phase, Phase::WritingWatermark));
    let (phase, _) = Phase::SelectingFiles.step(Event::FileRows {
        rows: vec![
            ("i".to_string(), "a.com-inf-20200101-000000-aaaaa-0.warc.gz".to_string(), i64::MAX),
            ("i".to_string(), "a.com-inf-20200101-000000-aaaaa-1.warc.gz".to_string(), i64::MAX),
        ],
    });
    assert!(matches!(phase, Phase::WritingWatermark));
}

#[test]
fn the_enrichment_gives_each_job_the_address_of_its_document() {
    let mut backend = Backend::new();
    backend.populate_test_data(at(5)).unwrap();
    backend.database.add_job_url("30000101000000abcde", "", "");
    let mut trace = Vec::new();
    let (mut phase, mut action) = EnrichPhase::start();
    let complete = loop {
        let event = match &action {
            EnrichAction::SelectMetadata { after_id, after_filename } => {
                trace.push("select");
                EnrichEvent::Rows { rows: backend.database.get_jobs_without_url(after_id, after_filename) }
            }
            EnrichAction::FetchDocument { identifier, filename } => {
                trace.push("fetch");
                assert_eq!(identifier, "test_item_1");
                assert_eq!(filename, "example.com-inf-30000101-000000-abcde.json");
                EnrichEvent::Document { document: JsonMetadata { url: Some("http://example.com/".to_string()), started_by: None } }
            }
            EnrichAction::StoreUrl { job_id, url, started_by } => {
                trace.push("store");
                backend.database.add_job_url(job_id, url, started_by);
                EnrichEvent::Done
            }
            EnrichAction::Pause { millis } => {
                trace.push("pause");
                assert_eq!(*millis, 500);
                EnrichEvent::Done
            }
            EnrichAction::Finish { complete } => break *complete,
        };
        let next = phase.step(event);
        phase = next.0;
        action = next.1;
    };
    assert!(complete);
    assert_eq!(trace, vec!["select", "fetch", "store", "pause", "select"]);
    let job = backend.database.job("30000101000000abcde").unwrap();
    assert_eq!(job.url, "http://example.com/");
    assert_eq!(job.started_by, "");
    assert_eq!(backend.search("example.com", true, 10, 0).len(), 1);
}

#[test]
fn the_enrichment_gives_up_on_the_first_failure() {
    let (phase, _) = EnrichPhase::start();
    let rows = vec![("i".to_string(), "f.json".to_string(), "j".to_string())];
    let (phase, action) = phase.step(EnrichEvent::Rows { rows });
    assert!(matches!(action, EnrichAction::FetchDocument { .. }));
    let (phase, action) = phase.step(EnrichEvent::Failed);
    assert!(matches!(phase, EnrichPhase::Finished));
    assert!(matches!(action, EnrichAction::Finish { complete: false }));
    let (_, action) = phase.step(EnrichEvent::Done);
    assert!(matches!(action, EnrichAction::Finish { complete: false }));
}
