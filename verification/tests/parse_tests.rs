use rserver::web_dealer::http_def::HttpError;
use rserver::web_dealer::http_def::HttpRequest;
use rserver::web_dealer::http_def::HttpRequestMethod;
use rserver::web_dealer::http_def::RequestHeaderKind;

#[test]
fn parse_simple_get() {
    let req = HttpRequest::parse("GET / HTTP/1.1\r\n\r\nhello").unwrap();
    assert_eq!(req.method, HttpRequestMethod::Get);
    assert_eq!(req.target, "/");
    assert_eq!(req.ver, "HTTP/1.1");
    assert_eq!(req.body, "hello");
    assert_eq!(req.remained_header, "");
}

#[test]
fn parse_round_trip_reassembles() {
    let raw = "POST /form/memo HTTP/1.1\r\n\r\ncontent=milk";
    let req = HttpRequest::parse(raw).unwrap();
    let rebuilt = format!(
        "{} {} {}\r\n\r\n{}",
        req.method.token(),
        req.target,
        req.ver,
        req.body
    );
    assert_eq!(rebuilt, raw);
}

#[test]
fn parse_body_keeps_later_separators() {
    let req = HttpRequest::parse("POST /x HTTP/1.1\r\n\r\nA\r\n\r\nB").unwrap();
    assert_eq!(req.body, "A\r\n\r\nB");
}

#[test]
fn parse_missing_separator_is_broken() {
    let r = HttpRequest::parse("GET / HTTP/1.1");
    assert!(matches!(r, Err(HttpError::RequestIsBroken)));
}

#[test]
fn parse_two_tokens_is_broken() {
    let r = HttpRequest::parse("GET /\r\n\r\n");
    assert!(matches!(r, Err(HttpError::RequestIsBroken)));
}

#[test]
fn parse_four_tokens_is_broken() {
    let r = HttpRequest::parse("GET / HTTP/1.1 extra\r\n\r\n");
    assert!(matches!(r, Err(HttpError::RequestIsBroken)));
}

#[test]
fn parse_double_space_is_broken() {
    let r = HttpRequest::parse("GET  / HTTP/1.1\r\n\r\n");
    assert!(matches!(r, Err(HttpError::RequestIsBroken)));
}

#[test]
fn parse_empty_target_is_broken() {
    let r = HttpRequest::parse("GET  HTTP/1.1\r\n\r\n");
    assert!(matches!(r, Err(HttpError::RequestIsBroken)));
}

#[test]
fn parse_empty_version_is_accepted() {
    let req = HttpRequest::parse("GET / \r\n\r\n").unwrap();
    assert_eq!(req.target, "/");
    assert_eq!(req.ver, "");
}

#[test]
fn parse_trims_unicode_whitespace_in_header_values() {
    let req =
        HttpRequest::parse("GET / HTTP/1.1\r\nContent-Length:\u{00A0}42\u{2003}\r\n\r\n").unwrap();
    let v = req.header.get(&RequestHeaderKind::MessageLength).unwrap();
    assert_eq!(v, "42");
}

#[test]
fn parse_head_is_undefined_method() {
    let r = HttpRequest::parse("HEAD / HTTP/1.1\r\n\r\n");
    assert!(matches!(r, Err(HttpError::UndifineMethod)));
}

#[test]
fn parse_lower_case_method_is_undefined() {
    let r = HttpRequest::parse("get / HTTP/1.1\r\n\r\n");
    assert!(matches!(r, Err(HttpError::UndifineMethod)));
}

#[test]
fn parse_all_supported_methods() {
    let cases = [
        ("GET", HttpRequestMethod::Get),
        ("POST", HttpRequestMethod::Post),
        ("PUT", HttpRequestMethod::Put),
        ("DELETE", HttpRequestMethod::Delete),
    ];
    for (tok, m) in cases {
        let raw = format!("{} /p HTTP/1.1\r\n\r\n", tok);
        let req = HttpRequest::parse(&raw).unwrap();
        assert_eq!(req.method, m);
    }
}

#[test]
fn parse_records_content_length() {
    let req = HttpRequest::parse("POST /form HTTP/1.1\r\nContent-Length: 12\r\n\r\nbody").unwrap();
    let v = req.header.get(&RequestHeaderKind::MessageLength).unwrap();
    assert_eq!(v, "12");
}

#[test]
fn parse_ignores_other_headers() {
    let req = HttpRequest::parse("GET / HTTP/1.1\r\nHost: example\r\n\r\n").unwrap();
    assert!(req.header.get(&RequestHeaderKind::MessageLength).is_none());
}

#[test]
fn parse_content_length_value_runs_to_line_end() {
    let req = HttpRequest::parse("GET / HTTP/1.1\r\nContent-Length: 5:6\r\n\r\n").unwrap();
    let v = req.header.get(&RequestHeaderKind::MessageLength).unwrap();
    assert_eq!(v, "5:6");
}

#[test]
fn parse_content_length_without_colon_is_broken() {
    let r = HttpRequest::parse("GET / HTTP/1.1\r\nContent-Length\r\n\r\n");
    assert!(matches!(r, Err(HttpError::RequestIsBroken)));
}

#[test]
fn parse_last_content_length_wins() {
    let req =
        HttpRequest::parse("GET / HTTP/1.1\r\nContent-Length: 1\r\nContent-Length: 2\r\n\r\n")
            .unwrap();
    let v = req.header.get(&RequestHeaderKind::MessageLength).unwrap();
    assert_eq!(v, "2");
}

#[test]
fn parse_target_and_version_verbatim() {
    let req = HttpRequest::parse("GET /a/b?q=1%20x HTTP/9.9\r\n\r\n").unwrap();
    assert_eq!(req.target, "/a/b?q=1%20x");
    assert_eq!(req.ver, "HTTP/9.9");
}

#[test]
fn default_request_is_empty_and_unknown() {
    let req = HttpRequest::default();
    assert_eq!(req.method, HttpRequestMethod::Unknown);
    assert_eq!(req.target, "");
    assert_eq!(req.ver, "");
    assert_eq!(req.body, "");
}

#[test]
fn method_from_token_strict() {
    assert!(matches!(
        HttpRequestMethod::from_token("GET"),
        Ok(HttpRequestMethod::Get)
    ));
    assert!(matches!(
        HttpRequestMethod::from_token("OPTIONS"),
        Err(HttpError::UndifineMethod)
    ));
    assert!(matches!(
        HttpRequestMethod::from_token(""),
        Err(HttpError::UndifineMethod)
    ));
}
