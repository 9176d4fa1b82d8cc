use archivebot_viewer::filename::parse_filename;

#[test]
fn test_parse_filename_legacy() {
    let parts = parse_filename("irclog.perlgeek.de-inf-20131101-162719-aborted.json").unwrap();

    assert_eq!(&parts.domain, "irclog.perlgeek.de");
    assert_eq!(&parts.depth, "inf");
    assert_eq!(&parts.date, "20131101");
    assert_eq!(&parts.time, "162719");
    assert_eq!(&parts.ident, "");
    assert_eq!(&parts.aborted, "aborted");
    assert_eq!(&parts.extension, "json");
}

#[test]
fn test_parse_filename() {
    let parts =
        parse_filename("www15.atpages.jp-inf-20151231-051440-9v9p7-00000.warc.gz").unwrap();

    assert_eq!(&parts.domain, "www15.atpages.jp");
    assert_eq!(&parts.depth, "inf");
    assert_eq!(&parts.date, "20151231");
    assert_eq!(&parts.time, "051440");
    assert_eq!(&parts.ident, "9v9p7");
    assert_eq!(&parts.aborted, "");
    assert_eq!(&parts.extension, "warc.gz");
}

#[test]
fn test_parse_filename_meta() {
    let parts =
        parse_filename("www.youtube.com-shallow-20200206-145902-8jjc9-meta.warc.gz").unwrap();

    assert_eq!(&parts.domain, "www.youtube.com");
    assert_eq!(&parts.depth, "shallow");
    assert_eq!(&parts.date, "20200206");
    assert_eq!(&parts.time, "145902");
    assert_eq!(&parts.ident, "8jjc9");
    assert_eq!(&parts.aborted, "");
    assert_eq!(&parts.extension, "warc.gz");
}

#[test]
fn test_parse_filename_domain_symbols() {
    let parts =
        parse_filename("a-b.c@_d-inf-shallow-20200101-010203-metaa-aborted-meta.warc.gz")
            .unwrap();

    assert_eq!(&parts.domain, "a-b.c@_d-inf");
    assert_eq!(&parts.depth, "shallow");
    assert_eq!(&parts.date, "20200101");
    assert_eq!(&parts.time, "010203");
    assert_eq!(&parts.ident, "metaa");
    assert_eq!(&parts.aborted, "aborted");
    assert_eq!(&parts.extension, "warc.gz");
}

#[test]
fn test_parse_filename_json() {
    let parts = parse_filename("www.testroniclabs.com-inf-20191014-171816-36aoc.json").unwrap();

    assert_eq!(&parts.domain, "www.testroniclabs.com");
    assert_eq!(&parts.depth, "inf");
    assert_eq!(&parts.date, "20191014");
    assert_eq!(&parts.time, "171816");
    assert_eq!(&parts.ident, "36aoc");
    assert_eq!(&parts.aborted, "");
    assert_eq!(&parts.extension, "json");
}

#[test]
fn names_outside_the_grammar_do_not_parse() {
    assert!(parse_filename("").is_none());
    assert!(parse_filename("example.com").is_none());
    assert!(parse_filename("example.com-inf-20200101-000000.txt").is_none());
    assert!(parse_filename("example.com-deep-20200101-000000.json").is_none());
    assert!(parse_filename("example.com-inf-2020010-000000.json").is_none());
    assert!(parse_filename("example.com-inf-20200101-00000.json").is_none());
    assert!(parse_filename("example.com-inf-20200101-000000-abcd.json").is_none());
    assert!(parse_filename("example.com-inf-20200101-000000-abcdef.json").is_none());
    assert!(parse_filename("-inf-20200101-000000.json").is_none());
    assert!(parse_filename("exa/mple.com-inf-20200101-000000.json").is_none());
    assert!(parse_filename("example.com-inf-20200101-000000.JSON").is_none());
    assert!(parse_filename("example.com-inf-20200101-000000.warc").is_none());
    assert!(parse_filename("b\u{fc}cher.de-inf-20200101-000000.json").is_none());
}

#[test]
fn the_separators_of_the_grammar_are_required() {
    // The dot before the extension is a dot.
    assert!(parse_filename("example.com-inf-20200101-000000-abcdeXjson").is_none());
    // An identifier, the aborted token and a suffix each come after a hyphen.
    assert!(parse_filename("example.com-inf-20200101-000000abcde.json").is_none());
    assert!(parse_filename("example.com-inf-20200101-000000-abcdeaborted.json").is_none());
    assert!(parse_filename("example.com-inf-20200101-000000-.json").is_none());
    assert!(parse_filename("example.com-inf-20200101-000000-abcde-.json").is_none());
}

#[test]
fn the_shortest_name_parses() {
    let parts = parse_filename("a-inf-20200101-000000.json").unwrap();
    assert_eq!(&parts.domain, "a");
    assert_eq!(&parts.depth, "inf");
    assert_eq!(&parts.date, "20200101");
    assert_eq!(&parts.time, "000000");
    assert_eq!(&parts.ident, "");
    assert_eq!(&parts.aborted, "");
    assert_eq!(&parts.extension, "json");
}

#[test]
fn five_digits_after_the_time_are_an_identifier() {
    let parts = parse_filename("a.com-inf-20200101-000000-00000.warc.gz").unwrap();
    assert_eq!(&parts.ident, "00000");
    let parts = parse_filename("a.com-inf-20200101-000000-0000.warc.gz").unwrap();
    assert_eq!(&parts.ident, "");
    let parts = parse_filename("a.com-inf-20200101-000000-000000.warc.gz").unwrap();
    assert_eq!(&parts.ident, "");
    let parts = parse_filename("a.com-inf-20200101-000000-meta.warc.gz").unwrap();
    assert_eq!(&parts.ident, "");
}

#[test]
fn every_optional_part_may_stand_alone_or_with_the_others() {
    let parts = parse_filename("a b_c.d-shallow-20200101-000000-ab_de-aborted-12.json").unwrap();
    assert_eq!(&parts.domain, "a b_c.d");
    assert_eq!(&parts.depth, "shallow");
    assert_eq!(&parts.ident, "ab_de");
    assert_eq!(&parts.aborted, "aborted");
    let parts = parse_filename("a.com-inf-20200101-000000-aborted-meta.warc.gz").unwrap();
    assert_eq!(&parts.ident, "");
    assert_eq!(&parts.aborted, "aborted");
    let parts = parse_filename("a.com-inf-20200101-000000-abcde-aborted.warc.gz").unwrap();
    assert_eq!(&parts.ident, "abcde");
    assert_eq!(&parts.aborted, "aborted");
    // The aborted token comes before the suffix, never after it.
    assert!(parse_filename("a.com-inf-20200101-000000-abcde-12-aborted.warc.gz").is_none());
}

#[test]
fn the_domain_takes_all_that_the_fixed_fields_leave() {
    let parts = parse_filename("x-inf-20200101-000000-inf-20210202-111111.json").unwrap();
    assert_eq!(&parts.domain, "x-inf-20200101-000000");
    assert_eq!(&parts.date, "20210202");
    assert_eq!(&parts.time, "111111");
}

#[test]
fn a_name_with_a_character_outside_ascii_is_no_name() {
    assert!(parse_filename("b\u{fc}cher.de-inf-20200101-000000.json").is_none());
    assert!(parse_filename("a.com-inf-2020010\u{661}-000000.json").is_none());
    assert!(parse_filename("a.com-inf-20200101-000000-abcd\u{e9}.json").is_none());
    assert!(parse_filename("a.com-inf-20200101-000000-\u{663}.json").is_none());
    assert!(parse_filename("a.com-inf-20200101-000000\u{2024}json").is_none());
    assert!(parse_filename("bucher.de-inf-20200101-000000.json").is_some());
}
