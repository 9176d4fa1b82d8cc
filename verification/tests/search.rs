use archivebot_viewer::backend::Backend;
use archivebot_viewer::database::{Database, UpdateFilesJobArgs, UpdateJobArgs};
use archivebot_viewer::fts::matches_text;
use archivebot_viewer::search::{can_convert, format_fts_query, host, link_query, query_domain};

#[test]
fn the_query_is_quoted_for_the_index() {
    assert_eq!(format_fts_query("example.com"), "\"example.com\"*");
    assert_eq!(format_fts_query(""), "\"\"*");
    assert_eq!(format_fts_query("a\"b"), "\"a\"\"b\"*");
    assert_eq!(format_fts_query("\"\""), "\"\"\"\"\"\"*");
}

#[test]
fn a_link_loses_its_scheme_and_www_and_takes_its_ascii_form() {
    let link = link_query("https://www.Example.COM/path");
    assert_eq!(link.url, "Example.COM/path");
    assert_eq!(link.domain, "example.com");

    let link = link_query("http://example.com");
    assert_eq!(link.url, "example.com");
    assert_eq!(link.domain, "example.com");

    let link = link_query("ftp://www.example.com");
    assert_eq!(link.url, "example.com");

    // Each prefix is taken off once, in its order.
    let link = link_query("https://http://ftp://www.www.example.com");
    assert_eq!(link.url, "www.example.com");
    let link = link_query("www.https://example.com");
    assert_eq!(link.url, "https://example.com");
}

#[test]
fn a_domain_outside_ascii_is_looked_for_in_punycode() {
    let link = link_query("https://www.b\u{fc}cher.de");
    assert_eq!(link.url, "b\u{fc}cher.de");
    assert_eq!(link.domain, "xn--bcher-kva.de");
}

#[test]
fn a_link_that_is_no_domain_is_looked_for_as_the_empty_text() {
    assert_eq!(query_domain(None), "");
    assert_eq!(query_domain(Some("example.com".to_string())), "example.com");
    let link = link_query("xn--\u{fc}.com");
    assert_eq!(link.domain, "");
    assert_eq!(link.url, "xn--\u{fc}.com");
}

#[test]
fn a_query_matches_its_words_in_a_row_the_last_as_a_beginning() {
    assert!(matches_text("example.com", "example.com"));
    assert!(matches_text("example.com", "EXAMPLE"));
    assert!(matches_text("example.com", "exam"));
    assert!(matches_text("example.com", "example.c"));
    assert!(matches_text("www.example.com", "example.com"));
    assert!(matches_text("http://example.com/hello-world/", "example.com/hello"));
    assert!(matches_text("http://example.com/hello-world/", "example.com"));
    assert!(!matches_text("example.com", "exam.com"));
    assert!(!matches_text("example.com", "com.example"));
    assert!(!matches_text("example.com", "example.com/path"));
    assert!(!matches_text("example.com", ""));
    assert!(!matches_text("example.com", "..."));
    assert!(!matches_text("", "a"));
}

fn store_with_job(id: &str, domain: &str, url: &str) -> Backend {
    let mut backend = Backend::new();
    let jobs = vec![UpdateJobArgs {
        short_id: "abcde".to_string(),
        job_id: id.to_string(),
        domain: domain.to_string(),
        abort_inc: 0,
        warc_inc: 1,
        json_inc: 1,
        size_inc: 10,
    }];
    let files: Vec<UpdateFilesJobArgs> = Vec::new();
    backend.database.update_jobs(&jobs, &files).unwrap();
    backend.database.add_job_url(id, url, "someone");
    backend.populate_search().unwrap();
    backend
}

#[test]
fn a_link_with_scheme_www_and_capitals_finds_the_job_of_its_domain() {
    let backend = store_with_job("30000101000000abcde", "example.com", "http://example.com/hello-world/");
    let found = backend.search_link("https://www.Example.COM/path", true, 1000, 0);
    assert_eq!(found.len(), 1);
    assert_eq!(found[0].result_type, "domain");
    assert_eq!(found[0].job_id, "30000101000000abcde");
    assert_eq!(found[0].domain, "example.com");
    assert_eq!(found[0].url, "http://example.com/hello-world/");
    let found = backend.search("https://www.Example.COM/path", true, 1000, 0);
    assert_eq!(found.len(), 1);
    assert_eq!(found[0].job_id, "30000101000000abcde");

    let found = backend.search("https://www.Example.COM", false, 1000, 0);
    assert_eq!(found.len(), 1);
    assert_eq!(found[0].domain, "example.com");

    // The job is found by the host of the link: the path plays no part.
    let found = backend.search("https://www.Example.COM/path", false, 1000, 0);
    assert_eq!(found.len(), 1);
    assert_eq!(found[0].domain, "example.com");
    let found = backend.search("http://example.com/", false, 1000, 0);
    assert_eq!(found.len(), 1);

    let found = backend.search("other.org/hello-world", false, 1000, 0);
    assert!(found.is_empty());
    let found = backend.search("other.org", true, 1000, 0);
    assert!(found.is_empty());
}

#[test]
fn a_job_of_another_domain_is_found_by_its_address_in_full_mode_alone() {
    let backend = store_with_job("20200101000000abcde", "other.org", "http://example.com/path/index.html");
    let found = backend.search_link("https://www.Example.COM/path", true, 1000, 0);
    assert_eq!(found.len(), 1);
    assert_eq!(found[0].domain, "other.org");
    let found = backend.search_link("https://www.Example.COM/path", false, 1000, 0);
    assert!(found.is_empty());
    let found = backend.search_link("https://www.Example.COM/elsewhere", true, 1000, 0);
    assert!(found.is_empty());
}

#[test]
fn the_host_of_a_link_ends_at_its_first_slash() {
    assert_eq!(host("Example.COM/path"), "Example.COM");
    assert_eq!(host("example.com"), "example.com");
    assert_eq!(host("example.com/"), "example.com");
    assert_eq!(host("a/b/c"), "a");
    assert_eq!(host("/path"), "");
    assert_eq!(host(""), "");
    assert_eq!(host("b\u{fc}cher.de/\u{fc}/x"), "b\u{fc}cher.de");
    let link = link_query("https://www.b\u{fc}cher.de/lesen/heute");
    assert_eq!(link.domain, "xn--bcher-kva.de");
    assert_eq!(link.url, "b\u{fc}cher.de/lesen/heute");
}

#[test]
fn a_job_is_found_by_its_identifier_and_by_its_short_identifier() {
    let backend = store_with_job("20200101000000abcde", "example.com", "");
    let found = backend.search("20200101000000abcde", false, 1000, 0);
    assert_eq!(found.len(), 1);
    assert_eq!(found[0].result_type, "job");
    let found = backend.search_job("abcde", 1000, 0);
    assert_eq!(found.len(), 1);
    let found = backend.search_job("abcdefgh", 1000, 0);
    assert_eq!(found.len(), 1);
    let found = backend.search_job("abcd", 1000, 0);
    assert!(found.is_empty());
    let found = backend.search_job("abcd\u{e9}", 1000, 0);
    assert!(found.is_empty());
}

#[test]
fn an_address_given_later_reaches_the_index() {
    let mut db = Database::new();
    let jobs = vec![UpdateJobArgs {
        short_id: String::new(),
        job_id: "20200101000000".to_string(),
        domain: "example.com".to_string(),
        abort_inc: 0,
        warc_inc: 0,
        json_inc: 0,
        size_inc: 0,
    }];
    db.update_jobs(&jobs, &Vec::new()).unwrap();
    db.add_job_search_rows(&vec!["20200101000000".to_string()]).unwrap();
    assert!(db.search_full("", "hello", 0, -1).is_empty());
    db.add_job_url("20200101000000", "http://example.com/hello", "me");
    let found = db.search_full("", "hello", 0, -1);
    assert_eq!(found.len(), 1);
    assert_eq!(found[0].0, "20200101000000");
    assert_eq!(found[0].2, "http://example.com/hello");
}

#[test]
fn a_long_label_outside_plain_ascii_is_not_converted() {
    assert!(can_convert("example.com"));
    assert!(can_convert(&"a".repeat(5000)));
    assert!(can_convert(&format!("{}\u{fc}", "a".repeat(62))));
    assert!(!can_convert(&format!("{}\u{fc}", "a".repeat(63))));
    assert!(can_convert("xn--bcher-kva.de"));
    assert!(can_convert(&format!("{}.Xn--bcher-kva.de", "a".repeat(60))));
    assert!(!can_convert(&format!("{}.Xn--bcher-kva.de", "a".repeat(64))));
    // Many short labels make a long text that is converted.
    let many = format!("{}b\u{fc}cher.de", "abc.".repeat(40));
    assert!(can_convert(&many));
    assert_eq!(link_query(&many).domain, format!("{}xn--bcher-kva.de", "abc.".repeat(40)));
    assert!(can_convert(&format!("{}.{}\u{fc}", "a".repeat(63), "b".repeat(62))));
    assert!(!can_convert(&format!("{}.{}\u{fc}.c", "a".repeat(63), "b".repeat(63))));

    // Some thousand characters before one far up in Unicode: never handed on.
    let long = format!("{}\u{1062cd}", "a".repeat(3999));
    let link = link_query(&long);
    assert_eq!(link.domain, "");
    assert_eq!(link.url, long);
    let long = format!("https://{}/path", "a".repeat(5000));
    let link = link_query(&long);
    assert_eq!(link.domain.len(), 5000);
    // A long path does not keep the host from being converted.
    let link = link_query(&format!("https://b\u{fc}cher.de/{}", "\u{fc}".repeat(500)));
    assert_eq!(link.domain, "xn--bcher-kva.de");
}

#[test]
fn a_link_finds_the_job_whose_domain_is_its_ascii_form() {
    let backend = store_with_job("20200101000000abcde", "xn--bcher-kva.de", "");
    let found = backend.search("https://www.B\u{dc}CHER.de", true, -1, 0);
    assert_eq!(found.len(), 1);
    assert_eq!(found[0].job_id, "20200101000000abcde");
    assert_eq!(found[0].domain, "xn--bcher-kva.de");
    let found = backend.search_link("HTTP://EXAMPLE.COM", true, -1, 0);
    assert!(found.is_empty());

    // Capitals in the address of the query play no part.
    let backend = store_with_job("20200101000000abcde", "other.org", "http://example.com/Path/index.html");
    let found = backend.search_link("https://www.Example.COM/PATH", true, -1, 0);
    assert_eq!(found.len(), 1);
    assert_eq!(found[0].url, "http://example.com/Path/index.html");
}
