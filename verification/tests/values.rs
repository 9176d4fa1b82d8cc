use archivebot_viewer::ia::{
    check_status, item_file_url, item_files_url, parse_i64, parse_int, search_query, FileDetails, IAClient,
    JsonMetadata, RemoteError, SizeError, SizeValue,
};
use archivebot_viewer::idgen::{millis_of_reading, IdGenerator};
use archivebot_viewer::time::{Date, Timestamp};
use archivebot_viewer::web::{
    listing_status, running_totals, BackendAction, HandlerError, Pagination, SearchQuery, PAGE_LIMIT,
};

#[test]
fn a_row_number_packs_milliseconds_over_a_counter() {
    let mut ids = IdGenerator::seeded(0x1_0005);
    assert_eq!(ids.generate_at(1), 65_536 + 5);
    assert_eq!(ids.generate_at(1), 65_536 + 6);
    assert_eq!(ids.generate_at(2), 2 * 65_536 + 7);
    assert_eq!(ids.generate_at(1_700_000_000_000), (1_700_000_000_000i64 << 16) | 8);
    assert_eq!(ids.generate_at(0), 9);
}

#[test]
fn the_counter_of_row_numbers_wraps() {
    let mut ids = IdGenerator::seeded(0xffff);
    assert_eq!(ids.generate_at(3), 3 * 65_536 + 65_535);
    assert_eq!(ids.generate_at(3), 3 * 65_536);
    assert_eq!(ids.generate_at(3), 3 * 65_536 + 1);
}

#[test]
fn milliseconds_beyond_48_bits_lose_their_high_bits() {
    let mut ids = IdGenerator::seeded(0);
    assert_eq!(ids.generate_at(1u128 << 47), i64::MIN);
    assert_eq!(ids.generate_at((1u128 << 48) + 1), 65_536 + 1);
    assert_eq!(ids.generate_at((1u128 << 48) - 1), -65_536 + 2);
    assert_eq!(ids.generate_at(u128::MAX), -65_536 + 3);
}

#[test]
fn row_numbers_by_the_clock_grow() {
    let mut ids = IdGenerator::new();
    let a = ids.generate();
    let b = ids.generate();
    assert!(a > 0);
    assert_eq!((b & 0xffff), ((a & 0xffff) + 1) & 0xffff);
    assert!((b >> 16) >= (a >> 16));
    // The clock stands after the year 2020.
    assert!((a >> 16) > 1_577_836_800_000);
}

#[test]
fn instants_are_compared_to_the_nanosecond() {
    let a = Timestamp { secs: 10, nanos: 5 };
    let b = Timestamp { secs: 10, nanos: 6 };
    let c = Timestamp { secs: -1, nanos: 999_999_999 };
    assert!(a.is_before(&b));
    assert!(!b.is_before(&a));
    assert!(!a.is_before(&a));
    assert!(c.is_before(&Timestamp::epoch()));
    assert!(Timestamp { secs: i64::MIN, nanos: 0 }.is_before(&Timestamp { secs: i64::MAX, nanos: 0 }));
    assert!(b.within(&a, 1));
    assert!(!b.within(&a, 0));
    assert!(!Timestamp { secs: 14_410, nanos: 5 }.within(&a, 14_400));
    assert!(Timestamp { secs: 14_410, nanos: 4 }.within(&a, 14_400));
    assert_eq!(a.minus_secs(11), Timestamp { secs: -1, nanos: 5 });
}

#[test]
fn the_day_of_an_instant_is_counted_from_1970() {
    assert_eq!(Timestamp { secs: 0, nanos: 0 }.date(), Date { days: 0 });
    assert_eq!(Timestamp { secs: 86_399, nanos: 999 }.date(), Date { days: 0 });
    assert_eq!(Timestamp { secs: 86_400, nanos: 0 }.date(), Date { days: 1 });
    assert_eq!(Timestamp { secs: -1, nanos: 0 }.date(), Date { days: -1 });
    assert_eq!(Timestamp { secs: -86_400, nanos: 0 }.date(), Date { days: -1 });
    assert_eq!(Timestamp { secs: -86_401, nanos: 0 }.date(), Date { days: -2 });
    assert_eq!(Timestamp { secs: 32_503_680_000, nanos: 0 }.date(), Date { days: 376_200 });
    assert_eq!(Timestamp { secs: i64::MIN, nanos: 0 }.date(), Date { days: -106_751_991_167_301 });
    assert_eq!(Timestamp { secs: i64::MAX, nanos: 0 }.date(), Date { days: 106_751_991_167_300 });
}

#[test]
fn an_instant_is_written_with_whole_seconds_and_z() {
    assert_eq!(Timestamp { secs: 1_672_531_200, nanos: 0 }.to_rfc3339(), Some("2023-01-01T00:00:00Z".to_string()));
    assert_eq!(Timestamp { secs: 0, nanos: 0 }.to_rfc3339(), Some("1970-01-01T00:00:00Z".to_string()));
    assert_eq!(
        Timestamp { secs: -604_800, nanos: 999_999_999 }.to_rfc3339(),
        Some("1969-12-25T00:00:00Z".to_string())
    );
    assert_eq!(Timestamp { secs: 951_827_696, nanos: 5 }.to_rfc3339(), Some("2000-02-29T12:34:56Z".to_string()));
    assert_eq!(Timestamp { secs: i64::MAX, nanos: 0 }.to_rfc3339(), None);
    assert_eq!(Timestamp { secs: 0, nanos: 2_000_000_000 }.to_rfc3339(), None);
}

#[test]
fn the_catalog_is_asked_for_the_collection_since_a_date() {
    assert_eq!(search_query(None), "collection:archivebot");
    assert_eq!(
        search_query(Some("2023-01-01T00:00:00Z")),
        "collection:archivebot addeddate:[2023-01-01T00:00:00Z TO 2999-01-01]"
    );
    let mut client = IAClient::new();
    assert!(!client.has_more_items());
    let request = client.items_request(Some(Timestamp { secs: 1_672_531_200, nanos: 0 })).unwrap();
    assert_eq!(
        request,
        vec![
            ("q".to_string(), "collection:archivebot addeddate:[2023-01-01T00:00:00Z TO 2999-01-01]".to_string()),
            ("fields".to_string(), "identifier,addeddate,publicdate,imagecount".to_string()),
            ("sorts".to_string(), "addeddate asc".to_string()),
        ]
    );
    client.items_fetched(Some("W3siaWRlbnRpZmllciI6".to_string()));
    assert!(client.has_more_items());
    let request = client.items_request(None).unwrap();
    assert_eq!(request.len(), 4);
    assert_eq!(request[0], ("q".to_string(), "collection:archivebot".to_string()));
    assert_eq!(request[3], ("cursor".to_string(), "W3siaWRlbnRpZmllciI6".to_string()));
    client.items_fetched(None);
    assert!(!client.has_more_items());
    assert_eq!(client.items_request(None).unwrap().len(), 3);
    assert!(client.items_request(Some(Timestamp { secs: i64::MAX, nanos: 0 })).is_none());
}

#[test]
fn the_addresses_of_an_item_and_its_files() {
    assert_eq!(item_files_url("test_item_1"), "https://archive.org/details/test_item_1");
    assert_eq!(item_file_url("test_item_1", "a.json"), "https://archive.org/download/test_item_1/a.json");
}

#[test]
fn a_text_is_an_integer_as_the_language_reads_it() {
    assert_eq!(parse_i64("0"), Some(0));
    assert_eq!(parse_i64("123"), Some(123));
    assert_eq!(parse_i64("-5"), Some(-5));
    assert_eq!(parse_i64("+7"), Some(7));
    assert_eq!(parse_i64("007"), Some(7));
    assert_eq!(parse_i64("-0"), Some(0));
    assert_eq!(parse_i64("9223372036854775807"), Some(i64::MAX));
    assert_eq!(parse_i64("-9223372036854775808"), Some(i64::MIN));
    assert_eq!(parse_i64("0000000000000000000000000000000000000009223372036854775807"), Some(i64::MAX));
    assert_eq!(parse_i64("9223372036854775808"), None);
    assert_eq!(parse_i64("-9223372036854775809"), None);
    assert_eq!(parse_i64("99999999999999999999999999999999999999999999999999"), None);
    assert_eq!(parse_i64(""), None);
    assert_eq!(parse_i64("+"), None);
    assert_eq!(parse_i64("-"), None);
    assert_eq!(parse_i64("--1"), None);
    assert_eq!(parse_i64("+-1"), None);
    assert_eq!(parse_i64("1 "), None);
    assert_eq!(parse_i64(" 1"), None);
    assert_eq!(parse_i64("1_000"), None);
    assert_eq!(parse_i64("12a"), None);
    assert_eq!(parse_i64("1.0"), None);
    assert_eq!(parse_i64("\u{663}"), None);
    for text in ["0", "-5", "+7", "007", "9223372036854775808", "", "+", "1 ", "1_000", "\u{663}", "-9223372036854775808"] {
        assert_eq!(parse_i64(text), text.parse::<i64>().ok());
    }
}

#[test]
fn a_size_is_a_number_or_a_text_that_holds_one() {
    assert_eq!(parse_int(&SizeValue::Integer(123)), Ok(123));
    assert_eq!(parse_int(&SizeValue::Text("123".to_string())), Ok(123));
    assert_eq!(parse_int(&SizeValue::Text("-1".to_string())), Ok(-1));
    assert_eq!(parse_int(&SizeValue::Text("12.5".to_string())), Err(SizeError::InvalidText));
    assert_eq!(parse_int(&SizeValue::Text("".to_string())), Err(SizeError::InvalidText));
    assert_eq!(parse_int(&SizeValue::OtherNumber), Err(SizeError::InvalidNumber));
    assert_eq!(parse_int(&SizeValue::Other), Err(SizeError::WrongType));
    assert_eq!(FileDetails::default().size, 0);
}

#[test]
fn a_metadata_document_may_lack_its_fields() {
    let full = JsonMetadata { url: Some("http://a/".to_string()), started_by: Some("me".to_string()) };
    assert_eq!(full.url_or_empty(), "http://a/");
    assert_eq!(full.started_by_or_empty(), "me");
    let empty = JsonMetadata { url: None, started_by: None };
    assert_eq!(empty.url_or_empty(), "");
    assert_eq!(empty.started_by_or_empty(), "");
}

#[test]
fn pages_are_a_thousand_rows() {
    assert_eq!(PAGE_LIMIT, 1000);
    assert_eq!(Pagination { page: 1 }.offset(), 0);
    assert_eq!(Pagination { page: 2 }.offset(), 1000);
    assert_eq!(Pagination { page: 0 }.offset(), -1000);
    assert_eq!(Pagination { page: i32::MAX }.offset(), 2_147_483_646_000);
    assert_eq!(Pagination { page: i32::MIN }.offset(), -2_147_483_649_000);
    assert_eq!(SearchQuery::match_default(), "domain");
    assert_eq!(listing_status(0), 404);
    assert_eq!(listing_status(3), 200);
}

#[test]
fn an_error_is_answered_with_its_status() {
    assert_eq!(HandlerError::new_status_code(404).status(), 404);
    assert_eq!(HandlerError { failed: true, status_code: Some(404) }.status(), 500);
    assert_eq!(HandlerError { failed: true, status_code: None }.status(), 500);
    assert_eq!(HandlerError { failed: false, status_code: None }.status(), 500);
}

#[test]
fn the_backend_actions_have_names() {
    assert_eq!(BackendAction::parse("live"), Some(BackendAction::Live));
    assert_eq!(BackendAction::parse("dev"), Some(BackendAction::Dev));
    assert_eq!(BackendAction::parse("none"), Some(BackendAction::Disabled));
    assert_eq!(BackendAction::parse("Live"), None);
    assert_eq!(BackendAction::parse(""), None);
    for action in [BackendAction::Live, BackendAction::Dev, BackendAction::Disabled] {
        assert_eq!(BackendAction::parse(action.name()), Some(action));
    }
}

#[test]
fn the_statistics_run_up_to_their_total() {
    let rows = vec![(Date { days: 1 }, 5), (Date { days: 2 }, -2), (Date { days: 4 }, 10)];
    assert_eq!(
        running_totals(&rows),
        Some(vec![(Date { days: 1 }, 5, 5), (Date { days: 2 }, -2, 3), (Date { days: 4 }, 10, 13)])
    );
    assert_eq!(running_totals(&Vec::new()), Some(Vec::new()));
    let rows = vec![(Date { days: 1 }, i64::MAX), (Date { days: 2 }, 1), (Date { days: 3 }, -1)];
    assert_eq!(running_totals(&rows), None);
}

#[test]
fn only_a_status_of_success_is_taken() {
    assert_eq!(check_status(200), Ok(()));
    assert_eq!(check_status(204), Ok(()));
    assert_eq!(check_status(299), Ok(()));
    assert_eq!(check_status(199), Err(RemoteError::Status(199)));
    assert_eq!(check_status(300), Err(RemoteError::Status(300)));
    assert_eq!(check_status(304), Err(RemoteError::Status(304)));
    assert_eq!(check_status(404), Err(RemoteError::Status(404)));
    assert_eq!(check_status(503), Err(RemoteError::Status(503)));
    assert_eq!(check_status(0), Err(RemoteError::Status(0)));
}

#[test]
fn a_clock_before_1970_reads_as_the_epoch() {
    assert_eq!(millis_of_reading(None), 0);
    assert_eq!(millis_of_reading(Some(0)), 0);
    assert_eq!(millis_of_reading(Some(1_700_000_000_123)), 1_700_000_000_123);
    assert_eq!(millis_of_reading(Some(u128::MAX)), u128::MAX);
}
