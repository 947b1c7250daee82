use rserver::web_dealer::dealer_error::DealerError;
use rserver::web_dealer::http_def::HttpError;
use rserver::web_dealer::http_def::HttpResponse;
use rserver::web_dealer::http_def::HttpResponseState;

#[test]
fn status_codes() {
    assert_eq!(HttpResponseState::Complete.code(), "200");
    assert_eq!(HttpResponseState::NotFound.code(), "404");
}

#[test]
fn status_reasons() {
    assert_eq!(HttpResponseState::Complete.reason(), "OK");
    assert_eq!(HttpResponseState::NotFound.reason(), "Not Found");
}

#[test]
fn wire_format_complete() {
    let resp = HttpResponse {
        state: HttpResponseState::Complete,
        ver: "HTTP/1.1".to_string(),
        body: "hello".to_string(),
    };
    assert_eq!(resp.to_wire(), "HTTP/1.1 200 OK\r\n\r\nhello");
}

#[test]
fn wire_format_not_found() {
    let resp = HttpResponse {
        state: HttpResponseState::NotFound,
        ver: "HTTP/1.1".to_string(),
        body: "missing".to_string(),
    };
    assert_eq!(resp.to_wire(), "HTTP/1.1 404 Not Found\r\n\r\nmissing");
}

#[test]
fn wire_format_has_no_header_section() {
    let resp = HttpResponse {
        state: HttpResponseState::Complete,
        ver: "HTTP/1.1".to_string(),
        body: String::new(),
    };
    let wire = resp.to_wire();
    assert!(wire.ends_with("\r\n\r\n"));
    assert_eq!(wire.matches("\r\n").count(), 2);
}

#[test]
fn error_messages() {
    assert_eq!(
        HttpError::UndifineMethod.message(),
        "Http request method is undifined."
    );
    assert_eq!(
        HttpError::RequestIsBroken.message(),
        "Http request is broken so can't deserialize."
    );
    assert_eq!(HttpError::FailGetControl.message(), "Http get request is failed.");
    assert_eq!(
        HttpError::InternalErrorDiesel.message(),
        "Internal database error occured."
    );
    assert_eq!(
        HttpError::InternalErrorTera.message(),
        "Internal template engine error occured."
    );
}

#[test]
fn dealer_error_message() {
    assert_eq!(DealerError::CannotListen.message(), "Can not listen for address");
}
