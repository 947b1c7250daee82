//! The dealer's verified core: the route table, the dispatch decision that
//! picks a handler for a parsed request, and the fallback that answers
//! everything else.
//!
//! The pieces that touch the outside world — the listening socket, the worker
//! threads, the handlers' own business logic — live outside the library; they
//! feed raw request text in and carry the planned invocation out.

pub mod dealer_error;
pub mod http_def;

use crate::text::contains_sub;
use crate::text::contains_str;
use crate::text::str_eq;
use crate::web_dealer::http_def::is_supported_method;
use crate::web_dealer::http_def::method_of_token;
use crate::web_dealer::http_def::parse_spec;
use crate::web_dealer::http_def::wire_spec;
use crate::web_dealer::http_def::HttpError;
use crate::web_dealer::http_def::HttpRequest;
use crate::web_dealer::http_def::HttpRequestMethod;
use crate::web_dealer::http_def::HttpRequestView;
use crate::web_dealer::http_def::HttpResponse;
use crate::web_dealer::http_def::HttpResponseState;
use crate::web_dealer::http_def::HttpResponseView;
use std::sync::Arc;
use vstd::prelude::*;

verus! {

/// The view of an optional string.
pub open spec fn view_opt(o: Option<String>) -> Option<Seq<char>> {
    match o {
        Some(s) => Some(s@),
        None => None,
    }
}

/// One entry of the route table: a supported method, the request path it is
/// keyed on, an optional rewritten resource path, and the handler payload
/// that serves it.  The payload is opaque data to the table.
#[derive(Debug, Clone)]
pub struct Route<H> {
    method: HttpRequestMethod,
    req_dir: String,
    res_dir: Option<String>,
    service: H,
}

impl<H> Route<H> {
    /// The method this route is keyed on.
    pub closed spec fn spec_method(&self) -> HttpRequestMethod {
        self.method
    }

    /// The request path this route is keyed on.
    pub closed spec fn spec_req_dir(&self) -> Seq<char> {
        self.req_dir@
    }

    /// The optional rewritten resource path.
    pub closed spec fn spec_res_dir(&self) -> Option<Seq<char>> {
        view_opt(self.res_dir)
    }

    /// The handler payload.
    pub closed spec fn spec_service(&self) -> H {
        self.service
    }

    /// Build a route.  The method token goes through the strict lookup
    /// table, so a route can only ever carry GET, POST, PUT or DELETE.
    pub fn new(method: String, dir: (String, Option<String>), service: H) -> (r: Result<
        Self,
        HttpError,
    >)
        ensures
            match r {
                Ok(route) => method_of_token(method@) == Ok::<HttpRequestMethod, HttpError>(
                    route.spec_method(),
                ) && is_supported_method(route.spec_method()) && route.spec_req_dir() == dir.0@
                    && route.spec_res_dir() == view_opt(dir.1) && route.spec_service() == service,
                Err(e) => method_of_token(method@) == Err::<HttpRequestMethod, HttpError>(e),
            },
    {
        match HttpRequestMethod::from_token(method.as_str()) {
            Ok(m) => Ok(Route { method: m, req_dir: dir.0, res_dir: dir.1, service }),
            Err(e) => Err(e),
        }
    }

    /// The method this route is keyed on.
    pub fn method(&self) -> (r: &HttpRequestMethod)
        ensures
            *r == self.spec_method(),
    {
        &self.method
    }

    /// The request path this route is keyed on.
    pub fn req_dir(&self) -> (r: &String)
        ensures
            r@ == self.spec_req_dir(),
    {
        &self.req_dir
    }

    /// The optional rewritten resource path.
    pub fn res_dir(&self) -> (r: &Option<String>)
        ensures
            view_opt(*r) == self.spec_res_dir(),
    {
        &self.res_dir
    }

    /// The handler payload.
    pub fn service(&self) -> (r: &H)
        ensures
            *r == self.spec_service(),
    {
        &self.service
    }
}

/// Whether a route answers a request: the methods must agree; GET and POST
/// routes require the target to equal the registered path exactly, while PUT
/// and DELETE routes match every target that contains the registered path.
pub open spec fn route_matches<H>(r: Route<H>, m: HttpRequestMethod, target: Seq<char>) -> bool {
    &&& r.spec_method() == m
    &&& match m {
        HttpRequestMethod::Get | HttpRequestMethod::Post => r.spec_req_dir() == target,
        HttpRequestMethod::Put | HttpRequestMethod::Delete => contains_sub(
            target,
            r.spec_req_dir(),
        ),
        _ => false,
    }
}

/// The index of the winning route: the last matching one in table order.
pub open spec fn last_match<H>(
    routes: Seq<Route<H>>,
    m: HttpRequestMethod,
    target: Seq<char>,
) -> Option<int>
    decreases routes.len(),
{
    if routes.len() == 0 {
        None
    } else if route_matches(routes.last(), m, target) {
        Some(routes.len() - 1)
    } else {
        last_match(routes.drop_last(), m, target)
    }
}

/// What `last_match` returns: a matching index after which nothing matches,
/// or `None` when nothing matches at all.
pub proof fn lemma_last_match_props<H>(
    routes: Seq<Route<H>>,
    m: HttpRequestMethod,
    target: Seq<char>,
)
    ensures
        match last_match(routes, m, target) {
            Some(i) => 0 <= i < routes.len() && route_matches(routes[i], m, target) && forall|
                j: int,
            | i < j < routes.len() ==> !route_matches(routes[j], m, target),
            None => forall|j: int| 0 <= j < routes.len() ==> !route_matches(routes[j], m, target),
        },
    decreases routes.len(),
{
    if routes.len() > 0 && !route_matches(routes.last(), m, target) {
        lemma_last_match_props(routes.drop_last(), m, target);
        assert(forall|j: int|
            0 <= j < routes.len() - 1 ==> routes.drop_last()[j] == routes[j]);
    }
}

/// The path the winning route hands its handler: the registered resource
/// path when one is present, and the raw request target otherwise.
pub open spec fn resolved_path_spec<H>(r: Route<H>, target: Seq<char>) -> Seq<char> {
    match r.spec_res_dir() {
        Some(p) => p,
        None => target,
    }
}

/// The dispatch decision for a parsed request: a method outside the
/// supported four is refused; a supported request picks the last matching
/// route and the path to hand its handler; a supported request no route
/// matches fails and will be served the fallback.  Only the winning route's
/// handler is ever invoked — routes that match but are overridden by a later
/// registration are not run.
pub open spec fn dispatch_spec<H>(
    routes: Seq<Route<H>>,
    m: HttpRequestMethod,
    target: Seq<char>,
) -> Result<(int, Seq<char>), HttpError> {
    if !is_supported_method(m) {
        Err(HttpError::UndifineMethod)
    } else {
        match last_match(routes, m, target) {
            None => Err(HttpError::FailGetControl),
            Some(i) => Ok((i, resolved_path_spec(routes[i], target))),
        }
    }
}

fn route_matches_exec<H>(route: &Route<H>, m: &HttpRequestMethod, target: &str) -> (b: bool)
    ensures
        b == route_matches(*route, *m, target@),
{
    if route.method != *m {
        return false;
    }
    match m {
        HttpRequestMethod::Get | HttpRequestMethod::Post => str_eq(
            route.req_dir.as_str(),
            target,
        ),
        HttpRequestMethod::Put | HttpRequestMethod::Delete => contains_str(
            target,
            route.req_dir.as_str(),
        ),
        _ => false,
    }
}

/// Scan the whole table and keep the last matching route's index.
pub fn find_route<H>(routes: &Vec<Route<H>>, method: &HttpRequestMethod, target: &str) -> (r:
    Option<usize>)
    ensures
        match r {
            Some(i) => last_match(routes@, *method, target@) == Some(i as int),
            None => last_match(routes@, *method, target@) == None::<int>,
        },
{
    let mut best: Option<usize> = None;
    let mut j: usize = 0;
    while j < routes.len()
        invariant
            j <= routes@.len(),
            match best {
                Some(i) => i < j && last_match(routes@.subrange(0, j as int), *method, target@)
                    == Some(i as int),
                None => last_match(routes@.subrange(0, j as int), *method, target@)
                    == None::<int>,
            },
        decreases routes@.len() - j,
    {
        if route_matches_exec(&routes[j], method, target) {
            best = Some(j);
        }
        proof {
            assert(routes@.subrange(0, j + 1).drop_last() =~= routes@.subrange(0, j as int));
            assert(routes@.subrange(0, j + 1).last() == routes@[j as int]);
        }
        j += 1;
    }
    proof {
        assert(routes@.subrange(0, routes@.len() as int) =~= routes@);
    }
    best
}

/// Decide which route serves a parsed request, and with which path.
pub fn dispatch<H>(routes: &Vec<Route<H>>, req: &HttpRequest) -> (r: Result<
    (usize, String),
    HttpError,
>)
    ensures
        match r {
            Ok(ip) => dispatch_spec(routes@, req.method, req.target@) == Ok::<
                (int, Seq<char>),
                HttpError,
            >((ip.0 as int, ip.1@)),
            Err(e) => dispatch_spec(routes@, req.method, req.target@) == Err::<
                (int, Seq<char>),
                HttpError,
            >(e),
        },
{
    let supported = match req.method {
        HttpRequestMethod::Get => true,
        HttpRequestMethod::Post => true,
        HttpRequestMethod::Put => true,
        HttpRequestMethod::Delete => true,
        _ => false,
    };
    if !supported {
        return Err(HttpError::UndifineMethod);
    }
    match find_route(routes, &req.method, req.target.as_str()) {
        None => Err(HttpError::FailGetControl),
        Some(i) => {
            proof {
                lemma_last_match_props(routes@, req.method, req.target@);
            }
            let resolved = match &routes[i].res_dir {
                Some(p) => p.clone(),
                None => req.target.clone(),
            };
            Ok((i, resolved))
        },
    }
}

/// The protocol version the fallback response carries when the request could
/// not even be parsed.
pub open spec fn default_version_spec() -> Seq<char> {
    "HTTP/1.1"@
}

/// The protocol version the fallback response carries when the request could
/// not even be parsed.
pub fn default_version() -> (r: String)
    ensures
        r@ == default_version_spec(),
{
    "HTTP/1.1".to_owned()
}

/// What one connection should do next, once its raw request text is in hand:
/// invoke the handler of a matched route, or serve the fallback.
pub enum RoutePlan {
    Invoke { index: usize, resolved: String, request: HttpRequest },
    Fallback { ver: String },
}

/// The connection handler's decision path: parse the raw text, dispatch on
/// the route table, and fall back on any failure.  The fallback echoes the
/// request's version when parsing succeeded and uses the default version
/// otherwise.
pub fn plan_request<H>(routes: &Vec<Route<H>>, raw: &str) -> (r: RoutePlan)
    ensures
        match r {
            RoutePlan::Invoke { index, resolved, request } => parse_spec(raw@) == Ok::<
                HttpRequestView,
                HttpError,
            >(request@) && dispatch_spec(routes@, request@.method, request@.target) == Ok::<
                (int, Seq<char>),
                HttpError,
            >((index as int, resolved@)),
            RoutePlan::Fallback { ver } => match parse_spec(raw@) {
                Ok(v) => ver@ == v.ver && (dispatch_spec(routes@, v.method, v.target) is Err),
                Err(_) => ver@ == default_version_spec(),
            },
        },
{
    let req = match HttpRequest::parse(raw) {
        Ok(req) => req,
        Err(_) => {
            return RoutePlan::Fallback { ver: default_version() };
        },
    };
    match dispatch(routes, &req) {
        Ok((index, resolved)) => RoutePlan::Invoke { index, resolved, request: req },
        Err(_) => RoutePlan::Fallback { ver: req.ver },
    }
}

/// Turn a handler outcome into the response that goes on the wire: a
/// successful outcome passes through unchanged, and every failure is served
/// as status 404 with the fallback body.
pub fn finish_response(
    outcome: Result<HttpResponse, HttpError>,
    ver: String,
    fallback_body: String,
) -> (r: HttpResponse)
    ensures
        match outcome {
            Ok(resp) => r == resp,
            Err(_) => r@.state == HttpResponseState::NotFound && r@.ver == ver@ && r@.body
                == fallback_body@,
        },
{
    match outcome {
        Ok(resp) => resp,
        Err(_) => HttpResponse { state: HttpResponseState::NotFound, ver, body: fallback_body },
    }
}

/// The on-disk path a generic file-serving handler reads: a dot prepended to
/// the path it was handed.
pub fn service_file_path(route_dir: &str) -> (r: String)
    ensures
        r@ == "."@ + route_dir@,
{
    let mut out = ".".to_owned();
    out.append(route_dir);
    out
}

/// The on-disk path serving a raw target reads: the root is rewritten to the
/// index page, anything else gets a dot prepended.
pub open spec fn target_file_path_spec(target: Seq<char>) -> Seq<char> {
    if target == "/"@ {
        "./static/index.html"@
    } else {
        "."@ + target
    }
}

/// The on-disk path serving a raw target reads.
pub fn target_file_path(target: &str) -> (r: String)
    ensures
        r@ == target_file_path_spec(target@),
{
    if str_eq(target, "/") {
        "./static/index.html".to_owned()
    } else {
        let mut out = ".".to_owned();
        out.append(target);
        out
    }
}

/// The marker every shared-resource handle carries.
pub trait Resource {

}

/// A shared, reference-counted handle to one collaborator (a pool, a
/// renderer), handed read-only to every connection handler.
#[derive(Debug)]
pub struct WebResource<T>(Arc<T>);

impl<T> WebResource<T> {
    /// The value this handle shares.
    pub closed spec fn spec_inner(&self) -> T {
        *self.0
    }

    /// Wrap a value for sharing.
    pub fn new(data: T) -> (r: WebResource<T>)
        ensures
            r.spec_inner() == data,
    {
        WebResource(Arc::new(data))
    }

    /// Borrow the shared value.
    pub fn get_ref(&self) -> (r: &T)
        ensures
            *r == self.spec_inner(),
    {
        &*self.0
    }

    /// Give the underlying reference-counted handle up.
    pub fn into_inner(self) -> (r: Arc<T>)
        ensures
            *r == self.spec_inner(),
    {
        self.0
    }
}

impl<T> Resource for WebResource<T> {

}

/// Route precedence: when two routes both match a request, dispatch picks
/// the one registered later (or one registered later still), never the
/// earlier one.
pub proof fn lemma_route_precedence<H>(
    routes: Seq<Route<H>>,
    m: HttpRequestMethod,
    target: Seq<char>,
    i: int,
    j: int,
)
    requires
        is_supported_method(m),
        0 <= i < j < routes.len(),
        route_matches(routes[i], m, target),
        route_matches(routes[j], m, target),
    ensures
        match dispatch_spec(routes, m, target) {
            Ok(ip) => j <= ip.0 < routes.len() && route_matches(routes[ip.0], m, target),
            Err(_) => false,
        },
{
    lemma_last_match_props(routes, m, target);
    match last_match(routes, m, target) {
        None => {
            assert(route_matches(routes[j], m, target));
        },
        Some(k) => {
            if k < j {
                assert(!route_matches(routes[j], m, target));
            }
        },
    }
}

/// Path rewrite: a route registered with a resource path hands its handler
/// that path; a route without one hands its handler the raw request target.
pub proof fn lemma_path_rewrite<H>(r: Route<H>, target: Seq<char>)
    ensures
        match r.spec_res_dir() {
            Some(p) => resolved_path_spec(r, target) == p,
            None => resolved_path_spec(r, target) == target,
        },
{
}

/// Substring matching: a PUT or DELETE route answers every target that
/// contains its registered path — a query string or a trailing path segment
/// does not prevent the match.
pub proof fn lemma_substring_route_matches<H>(
    r: Route<H>,
    m: HttpRequestMethod,
    target: Seq<char>,
)
    requires
        m == HttpRequestMethod::Put || m == HttpRequestMethod::Delete,
        r.spec_method() == m,
        contains_sub(target, r.spec_req_dir()),
    ensures
        route_matches(r, m, target),
{
}

/// Fallback on no match: a supported request that matches no route is
/// refused by dispatch, and the response built from the fallback body goes
/// on the wire as a 404 status line followed by that body.
pub proof fn lemma_unmatched_request_fallback<H>(
    routes: Seq<Route<H>>,
    m: HttpRequestMethod,
    target: Seq<char>,
    ver: Seq<char>,
    fallback_body: Seq<char>,
)
    requires
        is_supported_method(m),
        forall|j: int| 0 <= j < routes.len() ==> !route_matches(routes[j], m, target),
    ensures
        dispatch_spec(routes, m, target) == Err::<(int, Seq<char>), HttpError>(
            HttpError::FailGetControl,
        ),
        wire_spec(
            (HttpResponseView { state: HttpResponseState::NotFound, ver, body: fallback_body }),
        ) == ver + " 404 Not Found\r\n\r\n"@ + fallback_body,
{
    lemma_last_match_props(routes, m, target);
    if let Some(i) = last_match(routes, m, target) {
        assert(route_matches(routes[i], m, target));
    }
    reveal_strlit(" ");
    reveal_strlit("404");
    reveal_strlit("Not Found");
    reveal_strlit("\r\n\r\n");
    reveal_strlit(" 404 Not Found\r\n\r\n");
    assert(" "@ + "404"@ + " "@ + "Not Found"@ + "\r\n\r\n"@ =~= " 404 Not Found\r\n\r\n"@);
    assert(wire_spec(
        (HttpResponseView { state: HttpResponseState::NotFound, ver, body: fallback_body }),
    ) =~= ver + " 404 Not Found\r\n\r\n"@ + fallback_body);
}

} // verus!
