use rserver::form::form_content;
use rserver::form::memo_id_from_target;
use rserver::text::parse_i32;
use rserver::web_dealer::http_def::HttpError;

#[test]
fn form_content_reads_value() {
    assert_eq!(form_content("content=hello").unwrap(), "hello");
}

#[test]
fn form_content_takes_piece_between_separators() {
    assert_eq!(form_content("content=a=b").unwrap(), "a");
}

#[test]
fn form_content_trims_the_body_first() {
    assert_eq!(form_content("  content=milk \r\n").unwrap(), "milk");
}

#[test]
fn form_content_trims_unicode_whitespace() {
    assert_eq!(form_content("\u{000B}content=milk\u{3000}").unwrap(), "milk");
}

#[test]
fn memo_id_trims_unicode_whitespace() {
    assert_eq!(memo_id_from_target("\u{00A0}/form/memo/7\u{000C}").unwrap(), 7);
}

#[test]
fn form_content_without_separator_is_broken() {
    assert!(matches!(form_content("nocontent"), Err(HttpError::RequestIsBroken)));
    assert!(matches!(form_content(""), Err(HttpError::RequestIsBroken)));
}

#[test]
fn memo_id_from_plain_path() {
    assert_eq!(memo_id_from_target("/form/memo/42").unwrap(), 42);
}

#[test]
fn memo_id_ignores_query_string() {
    assert_eq!(memo_id_from_target("/form/memo/42?x=1").unwrap(), 42);
}

#[test]
fn memo_id_negative_and_signed() {
    assert_eq!(memo_id_from_target("/form/memo/-3").unwrap(), -3);
    assert_eq!(memo_id_from_target("/form/memo/+5").unwrap(), 5);
}

#[test]
fn memo_id_query_only_path_is_broken() {
    let r = memo_id_from_target("/form/memo?id=7");
    assert!(matches!(r, Err(HttpError::RequestIsBroken)));
}

#[test]
fn memo_id_surrounding_space_is_trimmed() {
    assert_eq!(memo_id_from_target(" /form/memo/7 ").unwrap(), 7);
}

#[test]
fn memo_id_range_limits() {
    assert_eq!(memo_id_from_target("/m/2147483647").unwrap(), 2147483647);
    assert!(matches!(
        memo_id_from_target("/m/2147483648"),
        Err(HttpError::RequestIsBroken)
    ));
    assert_eq!(memo_id_from_target("/m/-2147483648").unwrap(), -2147483648);
    assert!(matches!(
        memo_id_from_target("/m/-2147483649"),
        Err(HttpError::RequestIsBroken)
    ));
}

#[test]
fn parse_i32_strictness() {
    assert_eq!(parse_i32("0"), Some(0));
    assert_eq!(parse_i32("007"), Some(7));
    assert_eq!(parse_i32(""), None);
    assert_eq!(parse_i32("+"), None);
    assert_eq!(parse_i32("-"), None);
    assert_eq!(parse_i32("12a"), None);
    assert_eq!(parse_i32(" 1"), None);
    assert_eq!(parse_i32("--1"), None);
}
