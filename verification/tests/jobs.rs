use archivebot_viewer::filename::parse_filename;
use archivebot_viewer::jobs::{aggregate_files, job_id, skipped_files};

fn row(item: &str, name: &str, size: i64) -> (String, String, i64) {
    (item.to_string(), name.to_string(), size)
}

#[test]
fn the_job_of_a_file_is_named_by_date_time_and_identifier() {
    let parts = parse_filename("a.com-inf-20200101-000000-x1y2z.warc.gz").unwrap();
    assert_eq!(job_id(&parts), "20200101000000x1y2z");
    let parts = parse_filename("a.com-inf-20131101-162719-aborted.json").unwrap();
    assert_eq!(job_id(&parts), "20131101162719");
}

#[test]
fn an_empty_page_aggregates_to_nothing() {
    let (jobs, assigned) = aggregate_files(&Vec::new()).unwrap();
    assert!(jobs.is_empty());
    assert!(assigned.is_empty());
}

#[test]
fn files_outside_the_grammar_are_passed_over() {
    let files = vec![
        row("i", "readme.txt", 10),
        row("i", "a.com-inf-20200101-000000-x1y2z.warc.gz", 100),
        row("i", "a.com-inf-20200101-000000-x1y2z.warc", 1000),
    ];
    let (jobs, assigned) = aggregate_files(&files).unwrap();
    assert_eq!(jobs.len(), 1);
    assert_eq!(jobs[0].size_inc, 100);
    assert_eq!(assigned.len(), 1);
    assert_eq!(assigned[0].ia_item_id, "i");
    assert_eq!(assigned[0].filename, "a.com-inf-20200101-000000-x1y2z.warc.gz");
    assert_eq!(assigned[0].job_id, "20200101000000x1y2z");
}

#[test]
fn jobs_come_in_the_order_of_their_first_file() {
    let files = vec![
        row("i", "b.org-inf-20200102-000000-bbbbb-00000.warc.gz", 7),
        row("i", "a.com-inf-20200101-000000-aaaaa-aborted.json", 50),
        row("j", "b.org-inf-20200102-000000-bbbbb-00001.warc.gz", 8),
        row("j", "b.org-inf-20200102-000000-bbbbb-aborted-meta.warc.gz", 9),
        row("j", "other.net-shallow-20200102-000000-bbbbb.json", 3),
    ];
    let (jobs, assigned) = aggregate_files(&files).unwrap();
    assert_eq!(jobs.len(), 2);
    assert_eq!(jobs[0].job_id, "20200102000000bbbbb");
    assert_eq!(jobs[0].short_id, "bbbbb");
    assert_eq!(jobs[0].domain, "b.org");
    assert_eq!(jobs[0].warc_inc, 3);
    assert_eq!(jobs[0].json_inc, 1);
    assert_eq!(jobs[0].abort_inc, 1);
    assert_eq!(jobs[0].size_inc, 24);
    assert_eq!(jobs[1].job_id, "20200101000000aaaaa");
    assert_eq!(jobs[1].domain, "a.com");
    assert_eq!(jobs[1].warc_inc, 0);
    assert_eq!(jobs[1].json_inc, 1);
    assert_eq!(jobs[1].abort_inc, 1);
    assert_eq!(jobs[1].size_inc, 0);
    assert_eq!(assigned.len(), 5);
    assert_eq!(assigned[4].job_id, "20200102000000bbbbb");
}

#[test]
fn bytes_that_do_not_fit_the_counters_fail_the_page() {
    let files = vec![
        row("i", "a.com-inf-20200101-000000-aaaaa-00000.warc.gz", i64::MAX),
        row("i", "a.com-inf-20200101-000000-aaaaa-00001.warc.gz", 1),
    ];
    assert!(aggregate_files(&files).is_none());
    let files = vec![
        row("i", "a.com-inf-20200101-000000-aaaaa-00000.warc.gz", i64::MAX),
        row("i", "a.com-inf-20200101-000000-aaaaa-00001.warc.gz", 1),
        row("i", "a.com-inf-20200101-000000-aaaaa-00002.warc.gz", -1),
    ];
    let (jobs, _) = aggregate_files(&files).unwrap();
    assert_eq!(jobs[0].size_inc, i64::MAX);
    assert_eq!(jobs[0].warc_inc, 3);
}

#[test]
fn the_files_that_are_passed_over_are_counted() {
    let files = vec![
        row("i", "readme.txt", 10),
        row("i", "a.com-inf-20200101-000000-x1y2z.warc.gz", 100),
        row("i", "", 0),
        row("i", "a.com-inf-20200101-000000-x1y2z.json", 1),
    ];
    assert_eq!(skipped_files(&files), 2);
    assert_eq!(skipped_files(&Vec::new()), 0);
}
