use rserver::web_dealer::dispatch;
use rserver::web_dealer::default_version;
use rserver::web_dealer::find_route;
use rserver::web_dealer::finish_response;
use rserver::web_dealer::plan_request;
use rserver::web_dealer::service_file_path;
use rserver::web_dealer::target_file_path;
use rserver::web_dealer::Route;
use rserver::web_dealer::RoutePlan;
use rserver::web_dealer::WebResource;
use rserver::web_dealer::http_def::HttpError;
use rserver::web_dealer::http_def::HttpRequest;
use rserver::web_dealer::http_def::HttpRequestMethod;
use rserver::web_dealer::http_def::HttpResponse;
use rserver::web_dealer::http_def::HttpResponseState;

fn route(method: &str, req_dir: &str, res_dir: Option<&str>, id: u32) -> Route<u32> {
    Route::new(
        method.to_string(),
        (req_dir.to_string(), res_dir.map(|s| s.to_string())),
        id,
    )
    .unwrap()
}

fn get_request(target: &str) -> HttpRequest {
    let raw = format!("GET {} HTTP/1.1\r\n\r\n", target);
    HttpRequest::parse(&raw).unwrap()
}

#[test]
fn route_new_rejects_unsupported_methods() {
    for tok in ["HEAD", "OPTIONS", "TRACE", "CONNECT", "get", ""] {
        let r = Route::<u32>::new(tok.to_string(), ("/".to_string(), None), 0);
        assert!(matches!(r, Err(HttpError::UndifineMethod)));
    }
}

#[test]
fn route_accessors() {
    let r = route("GET", "/", Some("/static/index.html"), 7);
    assert_eq!(*r.method(), HttpRequestMethod::Get);
    assert_eq!(r.req_dir(), "/");
    assert_eq!(r.res_dir().as_deref(), Some("/static/index.html"));
    assert_eq!(*r.service(), 7);
}

#[test]
fn last_matching_route_wins() {
    let routes = vec![route("GET", "/x", None, 1), route("GET", "/x", None, 2)];
    let (i, resolved) = dispatch(&routes, &get_request("/x")).unwrap();
    assert_eq!(i, 1);
    assert_eq!(*routes[i].service(), 2);
    assert_eq!(resolved, "/x");
}

#[test]
fn path_rewrite_uses_resource_path() {
    let routes = vec![route("GET", "/", Some("/static/index.html"), 1)];
    let (i, resolved) = dispatch(&routes, &get_request("/")).unwrap();
    assert_eq!(i, 0);
    assert_eq!(resolved, "/static/index.html");
}

#[test]
fn no_rewrite_hands_raw_target_over() {
    let routes = vec![route("GET", "/a.html", None, 1)];
    let (_, resolved) = dispatch(&routes, &get_request("/a.html")).unwrap();
    assert_eq!(resolved, "/a.html");
}

#[test]
fn get_matching_is_exact() {
    let routes = vec![route("GET", "/form", None, 1)];
    let r = dispatch(&routes, &get_request("/form/x"));
    assert!(matches!(r, Err(HttpError::FailGetControl)));
}

#[test]
fn delete_matches_by_substring() {
    let routes = vec![route("DELETE", "/form/memo", None, 1)];
    let raw = "DELETE /form/memo?id=7 HTTP/1.1\r\n\r\n";
    let req = HttpRequest::parse(raw).unwrap();
    let (i, resolved) = dispatch(&routes, &req).unwrap();
    assert_eq!(i, 0);
    assert_eq!(resolved, "/form/memo?id=7");

    let raw2 = "DELETE /form/memo/99 HTTP/1.1\r\n\r\n";
    let req2 = HttpRequest::parse(raw2).unwrap();
    assert!(dispatch(&routes, &req2).is_ok());
}

#[test]
fn put_matches_by_substring() {
    let routes = vec![route("PUT", "/form/memo", None, 1)];
    let req = HttpRequest::parse("PUT /form/memo/3 HTTP/1.1\r\n\r\ncontent=x").unwrap();
    assert!(dispatch(&routes, &req).is_ok());
}

#[test]
fn unsupported_method_is_refused() {
    let routes = vec![route("GET", "/", None, 1)];
    let mut req = get_request("/");
    req.method = HttpRequestMethod::Head;
    let r = dispatch(&routes, &req);
    assert!(matches!(r, Err(HttpError::UndifineMethod)));
}

#[test]
fn find_route_reports_last_match_only() {
    let routes = vec![
        route("GET", "/a", None, 1),
        route("GET", "/b", None, 2),
        route("GET", "/a", None, 3),
    ];
    assert_eq!(find_route(&routes, &HttpRequestMethod::Get, "/a"), Some(2));
    assert_eq!(find_route(&routes, &HttpRequestMethod::Get, "/b"), Some(1));
    assert_eq!(find_route(&routes, &HttpRequestMethod::Get, "/c"), None);
    assert_eq!(find_route(&routes, &HttpRequestMethod::Post, "/a"), None);
}

#[test]
fn plan_invokes_matched_route() {
    let routes = vec![
        route("GET", "/", Some("/static/index.html"), 1),
        route("GET", "/x", None, 2),
    ];
    match plan_request(&routes, "GET / HTTP/1.1\r\n\r\n") {
        RoutePlan::Invoke { index, resolved, request } => {
            assert_eq!(index, 0);
            assert_eq!(resolved, "/static/index.html");
            assert_eq!(request.target, "/");
        }
        RoutePlan::Fallback { .. } => panic!("expected an invocation"),
    }
}

#[test]
fn plan_falls_back_on_unregistered_path() {
    let routes = vec![route("GET", "/x", None, 1)];
    match plan_request(&routes, "GET /nowhere HTTP/1.1\r\n\r\n") {
        RoutePlan::Fallback { ver } => assert_eq!(ver, "HTTP/1.1"),
        RoutePlan::Invoke { .. } => panic!("expected the fallback"),
    }
}

#[test]
fn plan_falls_back_on_broken_request() {
    let routes = vec![route("GET", "/", None, 1)];
    match plan_request(&routes, "garbage") {
        RoutePlan::Fallback { ver } => assert_eq!(ver, default_version()),
        RoutePlan::Invoke { .. } => panic!("expected the fallback"),
    }
}

#[test]
fn unmatched_request_gets_fallback_body() {
    let routes = vec![route("GET", "/x", None, 1)];
    let plan = plan_request(&routes, "GET /nowhere HTTP/1.1\r\n\r\n");
    let ver = match plan {
        RoutePlan::Fallback { ver } => ver,
        RoutePlan::Invoke { .. } => panic!("expected the fallback"),
    };
    let resp = finish_response(
        Err(HttpError::FailGetControl),
        ver,
        "<h1>404</h1>".to_string(),
    );
    assert_eq!(resp.state, HttpResponseState::NotFound);
    assert_eq!(resp.to_wire(), "HTTP/1.1 404 Not Found\r\n\r\n<h1>404</h1>");
}

#[test]
fn finish_passes_success_through() {
    let ok = HttpResponse {
        state: HttpResponseState::Complete,
        ver: "HTTP/1.1".to_string(),
        body: "page".to_string(),
    };
    let resp = finish_response(Ok(ok), "HTTP/1.1".to_string(), "unused".to_string());
    assert_eq!(resp.state, HttpResponseState::Complete);
    assert_eq!(resp.body, "page");
}

#[test]
fn file_path_helpers() {
    assert_eq!(service_file_path("/static/index.html"), "./static/index.html");
    assert_eq!(target_file_path("/"), "./static/index.html");
    assert_eq!(target_file_path("/a.html"), "./a.html");
}

#[test]
fn web_resource_shares_its_value() {
    let res = WebResource::new(5u32);
    assert_eq!(*res.get_ref(), 5);
    let arc = res.into_inner();
    assert_eq!(*arc, 5);
}
