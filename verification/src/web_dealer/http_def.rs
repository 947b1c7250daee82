//! The HTTP data model: methods, requests, responses and their errors, with
//! the request parser and the response serializer.

use crate::text::find_first;
use crate::text::occurs_at;
use crate::text::find_str;
use crate::text::lemma_find_from_props;
use crate::text::lemma_split_on_len;
use crate::text::split_on;
use crate::text::split_str;
use crate::text::str_eq;
use crate::text::trim_spec;
use crate::text::trim_str;
use vstd::prelude::*;

verus! {

/// The header names the parser recognizes.  Every other header line is
/// ignored.
#[derive(Debug, Clone, Copy, PartialEq, Eq, Structural)]
pub enum RequestHeaderKind {
    MessageLength,
}

/// A decoded request method.  `Unknown` is a decoded-but-invalid state; the
/// strict token table used for routing never produces it.
#[derive(Debug, Clone, Copy, PartialEq, Eq, Structural)]
pub enum HttpRequestMethod {
    Get,
    Post,
    Put,
    Delete,
    Head,
    Options,
    Trace,
    Connect,
    Unknown,
}

/// The errors of the request/response layer.
#[derive(Debug, Clone, Copy, PartialEq, Eq, Structural)]
pub enum HttpError {
    UndifineMethod,
    RequestIsBroken,
    FailGetControl,
    InternalErrorDiesel,
    InternalErrorTera,
}

impl HttpError {
    /// A human-readable description of the error.
    pub fn message(&self) -> (r: String)
        ensures
            r@ == match *self {
                HttpError::UndifineMethod => "Http request method is undifined."@,
                HttpError::RequestIsBroken => "Http request is broken so can't deserialize."@,
                HttpError::FailGetControl => "Http get request is failed."@,
                HttpError::InternalErrorDiesel => "Internal database error occured."@,
                HttpError::InternalErrorTera => "Internal template engine error occured."@,
            },
    {
        match self {
            HttpError::UndifineMethod => "Http request method is undifined.".to_owned(),
            HttpError::RequestIsBroken => "Http request is broken so can't deserialize.".to_owned(),
            HttpError::FailGetControl => "Http get request is failed.".to_owned(),
            HttpError::InternalErrorDiesel => "Internal database error occured.".to_owned(),
            HttpError::InternalErrorTera => "Internal template engine error occured.".to_owned(),
        }
    }
}

/// The strict token table: exactly these four tokens are accepted when a
/// request is parsed; anything else is an `UndifineMethod` error, never
/// `Unknown`.
pub open spec fn method_of_token(t: Seq<char>) -> Result<HttpRequestMethod, HttpError> {
    if t == "GET"@ {
        Ok(HttpRequestMethod::Get)
    } else if t == "POST"@ {
        Ok(HttpRequestMethod::Post)
    } else if t == "PUT"@ {
        Ok(HttpRequestMethod::Put)
    } else if t == "DELETE"@ {
        Ok(HttpRequestMethod::Delete)
    } else {
        Err(HttpError::UndifineMethod)
    }
}

/// The methods a route may carry and a request may be dispatched on.
pub open spec fn is_supported_method(m: HttpRequestMethod) -> bool {
    m == HttpRequestMethod::Get || m == HttpRequestMethod::Post || m == HttpRequestMethod::Put
        || m == HttpRequestMethod::Delete
}

/// The wire token of a supported method.
pub open spec fn token_of_method(m: HttpRequestMethod) -> Seq<char> {
    match m {
        HttpRequestMethod::Get => "GET"@,
        HttpRequestMethod::Post => "POST"@,
        HttpRequestMethod::Put => "PUT"@,
        HttpRequestMethod::Delete => "DELETE"@,
        _ => Seq::<char>::empty(),
    }
}

impl HttpRequestMethod {
    /// Decode a method token by the strict lookup table.
    pub fn from_token(s: &str) -> (r: Result<Self, HttpError>)
        ensures
            r == method_of_token(s@),
    {
        if str_eq(s, "GET") {
            Ok(HttpRequestMethod::Get)
        } else if str_eq(s, "POST") {
            Ok(HttpRequestMethod::Post)
        } else if str_eq(s, "PUT") {
            Ok(HttpRequestMethod::Put)
        } else if str_eq(s, "DELETE") {
            Ok(HttpRequestMethod::Delete)
        } else {
            Err(HttpError::UndifineMethod)
        }
    }

    /// The wire token of a supported method.
    pub fn token(&self) -> (r: String)
        requires
            is_supported_method(*self),
        ensures
            r@ == token_of_method(*self),
    {
        match self {
            HttpRequestMethod::Get => "GET".to_owned(),
            HttpRequestMethod::Post => "POST".to_owned(),
            HttpRequestMethod::Put => "PUT".to_owned(),
            HttpRequestMethod::Delete => "DELETE".to_owned(),
            _ => String::new(),
        }
    }
}

impl Default for HttpRequestMethod {
    /// A freshly built request defaults to the decoded-but-invalid state.
    fn default() -> (r: Self)
        ensures
            r == HttpRequestMethod::Unknown,
    {
        HttpRequestMethod::Unknown
    }
}

/// The recognized headers of one request, seen as a map from header kind to
/// raw value.  Only `Content-Length` is recognized today.
#[derive(Debug, Clone)]
pub struct RequestHeaders {
    message_length: Option<String>,
}

impl View for RequestHeaders {
    type V = Map<RequestHeaderKind, Seq<char>>;

    closed spec fn view(&self) -> Map<RequestHeaderKind, Seq<char>> {
        match self.message_length {
            Some(v) => Map::<RequestHeaderKind, Seq<char>>::empty().insert(
                RequestHeaderKind::MessageLength,
                v@,
            ),
            None => Map::<RequestHeaderKind, Seq<char>>::empty(),
        }
    }
}

impl RequestHeaders {
    /// An empty header map.
    pub fn new() -> (r: Self)
        ensures
            r@ == Map::<RequestHeaderKind, Seq<char>>::empty(),
    {
        RequestHeaders { message_length: None }
    }

    /// Record (or overwrite) the `Content-Length` value.
    pub fn set_message_length(&mut self, v: String)
        ensures
            final(self)@ == old(self)@.insert(RequestHeaderKind::MessageLength, v@),
    {
        self.message_length = Some(v);
        proof {
            assert(self@ =~= old(self)@.insert(RequestHeaderKind::MessageLength, v@));
        }
    }

    /// Look a recorded header up.
    pub fn get(&self, kind: &RequestHeaderKind) -> (r: Option<&String>)
        ensures
            match r {
                Some(v) => self@.contains_key(*kind) && self@[*kind] == v@,
                None => !self@.contains_key(*kind),
            },
    {
        match kind {
            RequestHeaderKind::MessageLength => {
                match &self.message_length {
                    Some(v) => Some(v),
                    None => None,
                }
            },
        }
    }
}

/// The mathematical shape of a parsed request.
pub struct HttpRequestView {
    pub method: HttpRequestMethod,
    pub target: Seq<char>,
    pub ver: Seq<char>,
    pub header: Map<RequestHeaderKind, Seq<char>>,
    pub body: Seq<char>,
    pub remained_header: Seq<char>,
}

/// One parsed request: the first-line fields, the recognized headers, and the
/// raw body.
#[derive(Debug, Clone)]
pub struct HttpRequest {
    pub method: HttpRequestMethod,
    pub target: String,
    pub ver: String,
    pub header: RequestHeaders,
    pub body: String,
    pub remained_header: String,
}

impl View for HttpRequest {
    type V = HttpRequestView;

    open spec fn view(&self) -> HttpRequestView {
        HttpRequestView {
            method: self.method,
            target: self.target@,
            ver: self.ver@,
            header: self.header@,
            body: self.body@,
            remained_header: self.remained_header@,
        }
    }
}

impl Default for HttpRequest {
    /// An empty request: unknown method, empty fields, no headers.
    fn default() -> (r: Self)
        ensures
            r@.method == HttpRequestMethod::Unknown,
            r@.target == Seq::<char>::empty(),
            r@.ver == Seq::<char>::empty(),
            r@.header == Map::<RequestHeaderKind, Seq<char>>::empty(),
            r@.body == Seq::<char>::empty(),
            r@.remained_header == Seq::<char>::empty(),
    {
        HttpRequest {
            method: HttpRequestMethod::Unknown,
            target: String::new(),
            ver: String::new(),
            header: RequestHeaders::new(),
            body: String::new(),
            remained_header: String::new(),
        }
    }
}

/// How one header line changes the recognized-header map: the line is split
/// at its first colon; a line whose trimmed name reads `Content-Length`
/// records its trimmed value, a recognized name without a colon is a broken
/// request, and every other line is ignored.
pub open spec fn header_line_apply(
    m: Map<RequestHeaderKind, Seq<char>>,
    line: Seq<char>,
) -> Result<Map<RequestHeaderKind, Seq<char>>, HttpError> {
    match find_first(line, ":"@) {
        None => if trim_spec(line) == "Content-Length"@ {
            Err(HttpError::RequestIsBroken)
        } else {
            Ok(m)
        },
        Some(i) => if trim_spec(line.subrange(0, i)) == "Content-Length"@ {
            Ok(
                m.insert(
                    RequestHeaderKind::MessageLength,
                    trim_spec(line.subrange(i + ":"@.len(), line.len() as int)),
                ),
            )
        } else {
            Ok(m)
        },
    }
}

/// The recognized-header map produced by a run of header lines, applied in
/// order; the first broken line wins.
pub open spec fn headers_spec(lines: Seq<Seq<char>>) -> Result<
    Map<RequestHeaderKind, Seq<char>>,
    HttpError,
>
    decreases lines.len(),
{
    if lines.len() == 0 {
        Ok(Map::<RequestHeaderKind, Seq<char>>::empty())
    } else {
        match headers_spec(lines.drop_last()) {
            Err(e) => Err(e),
            Ok(m) => header_line_apply(m, lines.last()),
        }
    }
}

/// A broken header line decides the whole run.
pub proof fn lemma_headers_spec_err(lines: Seq<Seq<char>>, k: int)
    requires
        0 <= k <= lines.len(),
        headers_spec(lines.subrange(0, k)) is Err,
    ensures
        headers_spec(lines) == headers_spec(lines.subrange(0, k)),
    decreases lines.len() - k,
{
    if k == lines.len() {
        assert(lines.subrange(0, k) =~= lines);
    } else {
        assert(lines.subrange(0, k + 1).drop_last() =~= lines.subrange(0, k));
        lemma_headers_spec_err(lines, k + 1);
    }
}

/// What parsing a raw request yields.  The text is cut at the first blank
/// line into head and body; the head's first line must carry exactly three
/// space-separated tokens (method, target, version), and the target token
/// must be nonempty; later head lines feed the recognized-header map; the
/// method token goes through the strict table.  Anything else is a broken
/// request.
pub open spec fn parse_spec(s: Seq<char>) -> Result<HttpRequestView, HttpError> {
    match find_first(s, "\r\n\r\n"@) {
        None => Err(HttpError::RequestIsBroken),
        Some(i) => {
            let head = s.subrange(0, i);
            let body = s.subrange(i + "\r\n\r\n"@.len(), s.len() as int);
            let lines = split_on(head, "\r\n"@);
            let toks = split_on(lines[0], " "@);
            if toks.len() != 3 || toks[1].len() == 0 {
                Err(HttpError::RequestIsBroken)
            } else {
                match headers_spec(lines.drop_first()) {
                    Err(e) => Err(e),
                    Ok(h) => match method_of_token(toks[0]) {
                        Err(e) => Err(e),
                        Ok(m) => Ok(
                            HttpRequestView {
                                method: m,
                                target: toks[1],
                                ver: toks[2],
                                header: h,
                                body: body,
                                remained_header: Seq::<char>::empty(),
                            },
                        ),
                    },
                }
            }
        },
    }
}

impl HttpRequest {
    /// Parse one raw request.  A successfully parsed request never carries
    /// an empty target.
    #[verifier::loop_isolation(false)]
    pub fn parse(s: &str) -> (r: Result<HttpRequest, HttpError>)
        ensures
            match r {
                Ok(req) => parse_spec(s@) == Ok::<HttpRequestView, HttpError>(req@),
                Err(e) => parse_spec(s@) == Err::<HttpRequestView, HttpError>(e),
            },
            r matches Ok(req) ==> req.target@.len() > 0,
    {
        proof {
            reveal_strlit("\r\n\r\n");
            reveal_strlit("\r\n");
            reveal_strlit(" ");
            reveal_strlit(":");
            reveal_strlit("Content-Length");
        }
        let i = match find_str(s, "\r\n\r\n", 0) {
            Some(i) => i,
            None => {
                return Err(HttpError::RequestIsBroken);
            },
        };
        proof {
            lemma_find_from_props(s@, "\r\n\r\n"@, 0);
        }
        let n = s.unicode_len();
        let head = s.substring_char(0, i);
        let body = s.substring_char(i + 4, n);
        let lines: Vec<String> = split_str(head, "\r\n");
        proof {
            lemma_split_on_len(head@, "\r\n"@);
        }
        let toks: Vec<String> = split_str(lines[0].as_str(), " ");
        if toks.len() != 3 {
            return Err(HttpError::RequestIsBroken);
        }
        if toks[1].as_str().is_empty() {
            return Err(HttpError::RequestIsBroken);
        }
        let ghost line_views = split_on(head@, "\r\n"@);
        let ghost rest = line_views.drop_first();
        let mut header = RequestHeaders::new();
        proof {
            assert(rest.subrange(0, 0) =~= Seq::<Seq<char>>::empty());
        }
        let mut k: usize = 1;
        while k < lines.len()
            invariant
                1 <= k <= lines@.len(),
                headers_spec(rest.subrange(0, k - 1)) == Ok::<
                    Map<RequestHeaderKind, Seq<char>>,
                    HttpError,
                >(header@),
            decreases lines@.len() - k,
        {
            let line = &lines[k];
            let ghost m0 = header@;
            match find_str(line.as_str(), ":", 0) {
                Some(ci) => {
                    proof {
                        lemma_find_from_props(line@, ":"@, 0);
                    }
                    let key = trim_str(line.as_str().substring_char(0, ci));
                    if str_eq(key, "Content-Length") {
                        let line_len = line.as_str().unicode_len();
                        let value = trim_str(
                            line.as_str().substring_char(ci + 1, line_len),
                        ).to_owned();
                        header.set_message_length(value);
                    }
                },
                None => {
                    let key = trim_str(line.as_str());
                    if str_eq(key, "Content-Length") {
                        proof {
                            assert(header_line_apply(m0, rest[k - 1]) == Err::<
                                Map<RequestHeaderKind, Seq<char>>,
                                HttpError,
                            >(HttpError::RequestIsBroken));
                            assert(rest.subrange(0, k as int).drop_last() =~= rest.subrange(
                                0,
                                k - 1,
                            ));
                            assert(headers_spec(rest.subrange(0, k as int)) == Err::<
                                Map<RequestHeaderKind, Seq<char>>,
                                HttpError,
                            >(HttpError::RequestIsBroken));
                            lemma_headers_spec_err(rest, k as int);
                            assert(rest =~= line_views.drop_first());
                        }
                        return Err(HttpError::RequestIsBroken);
                    }
                },
            }
            proof {
                assert(rest.subrange(0, k as int).drop_last() =~= rest.subrange(0, k - 1));
                assert(rest.subrange(0, k as int).last() == rest[k - 1]);
                assert(headers_spec(rest.subrange(0, k as int)) == Ok::<
                    Map<RequestHeaderKind, Seq<char>>,
                    HttpError,
                >(header@));
            }
            k += 1;
        }
        proof {
            assert(rest.subrange(0, k - 1) =~= rest);
        }
        let m = match HttpRequestMethod::from_token(toks[0].as_str()) {
            Ok(m) => m,
            Err(e) => {
                return Err(e);
            },
        };
        let req = HttpRequest {
            method: m,
            target: toks[1].clone(),
            ver: toks[2].clone(),
            header,
            body: body.to_owned(),
            remained_header: String::new(),
        };
        proof {
            assert(parse_spec(s@) == Ok::<HttpRequestView, HttpError>(req@));
        }
        Ok(req)
    }
}

/// The marker every response representation carries.
pub trait Response {

}

/// The status of a response.
#[derive(Debug, Clone, Copy, PartialEq, Eq, Structural)]
pub enum HttpResponseState {
    Complete,
    NotFound,
}

/// The numeric code of a status, as wire text.
pub open spec fn code_spec(st: HttpResponseState) -> Seq<char> {
    match st {
        HttpResponseState::Complete => "200"@,
        HttpResponseState::NotFound => "404"@,
    }
}

/// The reason phrase of a status.
pub open spec fn reason_spec(st: HttpResponseState) -> Seq<char> {
    match st {
        HttpResponseState::Complete => "OK"@,
        HttpResponseState::NotFound => "Not Found"@,
    }
}

impl HttpResponseState {
    /// The numeric code of this status, as wire text.
    pub fn code(&self) -> (r: String)
        ensures
            r@ == code_spec(*self),
    {
        match self {
            HttpResponseState::Complete => "200".to_owned(),
            HttpResponseState::NotFound => "404".to_owned(),
        }
    }

    /// The reason phrase of this status.
    pub fn reason(&self) -> (r: String)
        ensures
            r@ == reason_spec(*self),
    {
        match self {
            HttpResponseState::Complete => "OK".to_owned(),
            HttpResponseState::NotFound => "Not Found".to_owned(),
        }
    }
}

/// The mathematical shape of a response.
pub struct HttpResponseView {
    pub state: HttpResponseState,
    pub ver: Seq<char>,
    pub body: Seq<char>,
}

/// One response: a status, the echoed protocol version, and the body.
#[derive(Debug, Clone)]
pub struct HttpResponse {
    pub state: HttpResponseState,
    pub ver: String,
    pub body: String,
}

impl Response for HttpResponse {

}

impl View for HttpResponse {
    type V = HttpResponseView;

    open spec fn view(&self) -> HttpResponseView {
        HttpResponseView { state: self.state, ver: self.ver@, body: self.body@ }
    }
}

/// The wire text of a response: status line, a blank line, then the body.
/// No header section is ever emitted.
pub open spec fn wire_spec(v: HttpResponseView) -> Seq<char> {
    v.ver + " "@ + code_spec(v.state) + " "@ + reason_spec(v.state) + "\r\n\r\n"@ + v.body
}

impl HttpResponse {
    /// Serialize this response to its wire text.
    pub fn to_wire(&self) -> (r: String)
        ensures
            r@ == wire_spec(self@),
    {
        let mut out = self.ver.clone();
        out.append(" ");
        let code = self.state.code();
        out.append(code.as_str());
        out.append(" ");
        let reason = self.state.reason();
        out.append(reason.as_str());
        out.append("\r\n\r\n");
        out.append(self.body.as_str());
        proof {
            assert(out@ =~= wire_spec(self@));
        }
        out
    }
}

/// A token that may stand in the request line: free of spaces and line ends.
pub open spec fn token_clean(s: Seq<char>) -> bool {
    forall|i: int| 0 <= i < s.len() ==> ((#[trigger] s[i]) != ' ' && s[i] != '\r' && s[i] != '\n')
}

/// A header line as it may stand in the head section: free of line ends.
pub open spec fn line_clean(s: Seq<char>) -> bool {
    forall|i: int| 0 <= i < s.len() ==> ((#[trigger] s[i]) != '\r' && s[i] != '\n')
}

/// The request line assembled from its three tokens.
pub open spec fn request_line(tok: Seq<char>, t: Seq<char>, v: Seq<char>) -> Seq<char> {
    tok + " "@ + t + " "@ + v
}

proof fn lemma_split_two(t: Seq<char>, v: Seq<char>)
    requires
        token_clean(t),
        token_clean(v),
    ensures
        split_on(t + " "@ + v, " "@) == seq![t, v],
{
    reveal_strlit(" ");
    let s = t + " "@ + v;
    assert(s.subrange(t.len() as int, t.len() as int + 1) =~= " "@);
    assert(occurs_at(s, " "@, t.len() as int));
    assert forall|k: int| 0 <= k < t.len() && k < s.len() implies s[k] != (" "@)[0] by {
        assert(s[k] == t[k]);
    }
    crate::text::lemma_no_occurrence_without_first_char(s, " "@, t.len() as int);
    crate::text::lemma_find_from_some(s, " "@, 0, t.len() as int);
    let rest = s.subrange(t.len() as int + 1, s.len() as int);
    assert(split_on(s, " "@) == seq![s.subrange(0, t.len() as int)] + split_on(rest, " "@));
    assert(s.subrange(0, t.len() as int) =~= t);
    assert(rest =~= v);
    assert forall|k: int| 0 <= k implies !occurs_at(v, " "@, k) by {
        if occurs_at(v, " "@, k) {
            assert(v.subrange(k, k + 1)[0] == v[k]);
            assert(v[k] == ' ');
        }
    }
    crate::text::lemma_find_from_none(v, " "@, 0);
    assert(split_on(v, " "@) == seq![v]);
    assert(seq![t] + seq![v] =~= seq![t, v]);
}

proof fn lemma_split_request_line(tok: Seq<char>, t: Seq<char>, v: Seq<char>)
    requires
        token_clean(tok),
        token_clean(t),
        token_clean(v),
    ensures
        split_on(request_line(tok, t, v), " "@) == seq![tok, t, v],
        line_clean(request_line(tok, t, v)),
{
    reveal_strlit(" ");
    let rl = request_line(tok, t, v);
    let rest = t + " "@ + v;
    assert(rl =~= tok + " "@ + rest);
    assert(rl.subrange(tok.len() as int, tok.len() as int + 1) =~= " "@);
    assert(occurs_at(rl, " "@, tok.len() as int));
    assert forall|k: int| 0 <= k < tok.len() && k < rl.len() implies rl[k] != (" "@)[0] by {
        assert(rl[k] == tok[k]);
    }
    crate::text::lemma_no_occurrence_without_first_char(rl, " "@, tok.len() as int);
    crate::text::lemma_find_from_some(rl, " "@, 0, tok.len() as int);
    assert(split_on(rl, " "@) == seq![rl.subrange(0, tok.len() as int)] + split_on(
        rl.subrange(tok.len() as int + 1, rl.len() as int),
        " "@,
    ));
    assert(rl.subrange(0, tok.len() as int) =~= tok);
    assert(rl.subrange(tok.len() as int + 1, rl.len() as int) =~= rest);
    lemma_split_two(t, v);
    assert(seq![tok] + seq![t, v] =~= seq![tok, t, v]);
    assert forall|i: int| 0 <= i < rl.len() implies ((#[trigger] rl[i]) != '\r' && rl[i] != '\n')
        by {
        if i < tok.len() {
            assert(rl[i] == tok[i]);
        } else if i == tok.len() {
            assert(rl[i] == (" "@)[0]);
        } else if i < tok.len() + 1 + t.len() {
            assert(rl[i] == t[i - tok.len() - 1]);
        } else if i == tok.len() + 1 + t.len() {
            assert(rl[i] == (" "@)[0]);
        } else {
            assert(rl[i] == v[i - (tok.len() + t.len() + 2)]);
        }
    }
}

/// Parse round-trip, assembled form: a request put together from three clean
/// tokens, no header lines and an arbitrary body parses back to exactly
/// those pieces — or to the strict table's error when the method token is
/// not recognized.
pub proof fn lemma_parse_well_formed(tok: Seq<char>, t: Seq<char>, v: Seq<char>, b: Seq<char>)
    requires
        token_clean(tok),
        token_clean(t),
        t.len() > 0,
        token_clean(v),
    ensures
        ({
            let s = request_line(tok, t, v) + "\r\n\r\n"@ + b;
            match method_of_token(tok) {
                Ok(m) => parse_spec(s) == Ok::<HttpRequestView, HttpError>(
                    (HttpRequestView {
                        method: m,
                        target: t,
                        ver: v,
                        header: Map::<RequestHeaderKind, Seq<char>>::empty(),
                        body: b,
                        remained_header: Seq::<char>::empty(),
                    }),
                ),
                Err(e) => parse_spec(s) == Err::<HttpRequestView, HttpError>(e),
            }
        }),
{
    reveal_strlit(" ");
    reveal_strlit("\r\n");
    reveal_strlit("\r\n\r\n");
    lemma_split_request_line(tok, t, v);
    let rl = request_line(tok, t, v);
    let s = rl + "\r\n\r\n"@ + b;
    assert(s.subrange(rl.len() as int, rl.len() as int + 4) =~= "\r\n\r\n"@);
    assert(occurs_at(s, "\r\n\r\n"@, rl.len() as int));
    assert forall|k: int| 0 <= k < rl.len() && k < s.len() implies s[k] != ("\r\n\r\n"@)[0] by {
        assert(s[k] == rl[k]);
    }
    crate::text::lemma_no_occurrence_without_first_char(s, "\r\n\r\n"@, rl.len() as int);
    crate::text::lemma_find_from_some(s, "\r\n\r\n"@, 0, rl.len() as int);
    assert(find_first(s, "\r\n\r\n"@) == Some(rl.len() as int));
    assert(s.subrange(0, rl.len() as int) =~= rl);
    assert(s.subrange(rl.len() as int + 4, s.len() as int) =~= b);
    assert forall|k: int| 0 <= k implies !occurs_at(rl, "\r\n"@, k) by {
        if occurs_at(rl, "\r\n"@, k) {
            assert(rl.subrange(k, k + 2)[0] == rl[k]);
            assert(rl[k] == '\r');
        }
    }
    crate::text::lemma_find_from_none(rl, "\r\n"@, 0);
    assert(split_on(rl, "\r\n"@) == seq![rl]);
    assert(seq![rl][0] == rl);
    assert(seq![rl].drop_first() =~= Seq::<Seq<char>>::empty());
    assert(headers_spec(Seq::<Seq<char>>::empty()) == Ok::<
        Map<RequestHeaderKind, Seq<char>>,
        HttpError,
    >(Map::<RequestHeaderKind, Seq<char>>::empty()));
    assert(seq![tok, t, v][0] == tok);
    assert(seq![tok, t, v][1] == t);
    assert(seq![tok, t, v][2] == v);
}

/// Parse round-trip with one header line: a request carrying a single clean,
/// nonempty header line parses to the same first-line pieces and body, with
/// the header map that line produces — or to that line's own error, or to
/// the strict table's error for the method token.
pub proof fn lemma_parse_well_formed_with_header(
    tok: Seq<char>,
    t: Seq<char>,
    v: Seq<char>,
    hdr: Seq<char>,
    b: Seq<char>,
)
    requires
        token_clean(tok),
        token_clean(t),
        t.len() > 0,
        token_clean(v),
        line_clean(hdr),
        hdr.len() > 0,
    ensures
        ({
            let s = request_line(tok, t, v) + "\r\n"@ + hdr + "\r\n\r\n"@ + b;
            match headers_spec(seq![hdr]) {
                Err(e) => parse_spec(s) == Err::<HttpRequestView, HttpError>(e),
                Ok(h) => match method_of_token(tok) {
                    Ok(m) => parse_spec(s) == Ok::<HttpRequestView, HttpError>(
                        (HttpRequestView {
                            method: m,
                            target: t,
                            ver: v,
                            header: h,
                            body: b,
                            remained_header: Seq::<char>::empty(),
                        }),
                    ),
                    Err(e) => parse_spec(s) == Err::<HttpRequestView, HttpError>(e),
                },
            }
        }),
{
    reveal_strlit(" ");
    reveal_strlit("\r\n");
    reveal_strlit("\r\n\r\n");
    lemma_split_request_line(tok, t, v);
    let rl = request_line(tok, t, v);
    let head = rl + "\r\n"@ + hdr;
    let s = head + "\r\n\r\n"@ + b;
    assert(s =~= rl + "\r\n"@ + hdr + "\r\n\r\n"@ + b);
    assert(s.subrange(head.len() as int, head.len() as int + 4) =~= "\r\n\r\n"@);
    assert(occurs_at(s, "\r\n\r\n"@, head.len() as int));
    assert forall|k: int| 0 <= k < head.len() implies !occurs_at(s, "\r\n\r\n"@, k) by {
        if occurs_at(s, "\r\n\r\n"@, k) {
            if k < rl.len() {
                assert(s.subrange(k, k + 4)[0] == s[k]);
                assert(s[k] == rl[k]);
                assert(rl[k] == '\r');
            } else if k == rl.len() {
                assert(s.subrange(k, k + 4)[2] == s[k + 2]);
                assert(s[k + 2] == hdr[0]);
                assert(hdr[0] == '\r');
            } else if k == rl.len() + 1 {
                assert(s.subrange(k, k + 4)[0] == s[k]);
                assert(s[k] == ("\r\n"@)[1]);
            } else {
                assert(s.subrange(k, k + 4)[0] == s[k]);
                assert(s[k] == hdr[k - rl.len() - 2]);
            }
        }
    }
    crate::text::lemma_find_from_some(s, "\r\n\r\n"@, 0, head.len() as int);
    assert(find_first(s, "\r\n\r\n"@) == Some(head.len() as int));
    assert(s.subrange(0, head.len() as int) =~= head);
    assert(s.subrange(head.len() as int + 4, s.len() as int) =~= b);
    assert(head.subrange(rl.len() as int, rl.len() as int + 2) =~= "\r\n"@);
    assert(occurs_at(head, "\r\n"@, rl.len() as int));
    assert forall|k: int| 0 <= k < rl.len() && k < head.len() implies head[k] != ("\r\n"@)[0] by {
        assert(head[k] == rl[k]);
    }
    crate::text::lemma_no_occurrence_without_first_char(head, "\r\n"@, rl.len() as int);
    crate::text::lemma_find_from_some(head, "\r\n"@, 0, rl.len() as int);
    assert(split_on(head, "\r\n"@) == seq![head.subrange(0, rl.len() as int)] + split_on(
        head.subrange(rl.len() as int + 2, head.len() as int),
        "\r\n"@,
    ));
    assert(head.subrange(0, rl.len() as int) =~= rl);
    assert(head.subrange(rl.len() as int + 2, head.len() as int) =~= hdr);
    assert forall|k: int| 0 <= k implies !occurs_at(hdr, "\r\n"@, k) by {
        if occurs_at(hdr, "\r\n"@, k) {
            assert(hdr.subrange(k, k + 2)[0] == hdr[k]);
            assert(hdr[k] == '\r');
        }
    }
    crate::text::lemma_find_from_none(hdr, "\r\n"@, 0);
    assert(split_on(hdr, "\r\n"@) == seq![hdr]);
    assert(seq![rl] + seq![hdr] =~= seq![rl, hdr]);
    assert(seq![rl, hdr][0] == rl);
    assert(seq![rl, hdr].drop_first() =~= seq![hdr]);
    assert(seq![hdr].drop_last() =~= Seq::<Seq<char>>::empty());
    assert(headers_spec(Seq::<Seq<char>>::empty()) == Ok::<
        Map<RequestHeaderKind, Seq<char>>,
        HttpError,
    >(Map::<RequestHeaderKind, Seq<char>>::empty()));
    assert(seq![hdr].len() == 1);
    assert(seq![hdr].last() == hdr);
    assert(headers_spec(seq![hdr]) == header_line_apply(
        Map::<RequestHeaderKind, Seq<char>>::empty(),
        hdr,
    ));
    assert(seq![tok, t, v][0] == tok);
    assert(seq![tok, t, v][1] == t);
    assert(seq![tok, t, v][2] == v);
}

/// The head section assembled from a first line and a run of further lines,
/// joined by line ends.
pub open spec fn head_of(first: Seq<char>, lines: Seq<Seq<char>>) -> Seq<char>
    decreases lines.len(),
{
    if lines.len() == 0 {
        first
    } else {
        first + "\r\n"@ + head_of(lines[0], lines.drop_first())
    }
}

/// The shape of a well-joined head: every carriage return starts a line end,
/// and no second carriage return follows it immediately.
spec fn head_shape(h: Seq<char>) -> bool {
    forall|k: int|
        0 <= k < h.len() && (#[trigger] h[k]) == '\r' ==> k + 2 < h.len() && h[k + 1] == '\n' && h[
            k + 2] != '\r'
}

proof fn lemma_head_block(first: Seq<char>, lines: Seq<Seq<char>>)
    requires
        line_clean(first),
        forall|i: int| 0 <= i < lines.len() ==> line_clean(#[trigger] lines[i]) && lines[i].len()
            > 0,
    ensures
        split_on(head_of(first, lines), "\r\n"@) == seq![first] + lines,
        head_shape(head_of(first, lines)),
        head_of(first, lines).len() >= first.len(),
        first.len() > 0 ==> head_of(first, lines)[0] == first[0],
    decreases lines.len(),
{
    reveal_strlit("\r\n");
    let h = head_of(first, lines);
    if lines.len() == 0 {
        assert forall|k: int| 0 <= k implies !occurs_at(first, "\r\n"@, k) by {
            if occurs_at(first, "\r\n"@, k) {
                assert(first.subrange(k, k + 2)[0] == first[k]);
                assert(first[k] == '\r');
            }
        }
        crate::text::lemma_find_from_none(first, "\r\n"@, 0);
        assert(split_on(first, "\r\n"@) == seq![first]);
        assert(seq![first] + lines =~= seq![first]);
    } else {
        assert forall|i: int|
            0 <= i < lines.drop_first().len() implies line_clean(
            #[trigger] lines.drop_first()[i],
        ) && lines.drop_first()[i].len() > 0 by {
            assert(lines.drop_first()[i] == lines[i + 1]);
        }
        lemma_head_block(lines[0], lines.drop_first());
        let tail = head_of(lines[0], lines.drop_first());
        assert(h == first + "\r\n"@ + tail);
        assert(h.subrange(first.len() as int, first.len() as int + 2) =~= "\r\n"@);
        assert(occurs_at(h, "\r\n"@, first.len() as int));
        assert forall|k: int| 0 <= k < first.len() && k < h.len() implies h[k] != ("\r\n"@)[0] by {
            assert(h[k] == first[k]);
        }
        crate::text::lemma_no_occurrence_without_first_char(h, "\r\n"@, first.len() as int);
        crate::text::lemma_find_from_some(h, "\r\n"@, 0, first.len() as int);
        assert(split_on(h, "\r\n"@) == seq![h.subrange(0, first.len() as int)] + split_on(
            h.subrange(first.len() as int + 2, h.len() as int),
            "\r\n"@,
        ));
        assert(h.subrange(0, first.len() as int) =~= first);
        assert(h.subrange(first.len() as int + 2, h.len() as int) =~= tail);
        assert(seq![first] + (seq![lines[0]] + lines.drop_first()) =~= seq![first] + lines);
        assert(tail[0] == lines[0][0]);
        assert forall|k: int|
            0 <= k < h.len() && (#[trigger] h[k]) == '\r' implies k + 2 < h.len() && h[k + 1]
            == '\n' && h[k + 2] != '\r' by {
            if k < first.len() {
                assert(h[k] == first[k]);
            } else if k == first.len() {
                assert(h[k + 1] == ("\r\n"@)[1]);
                assert(h[k + 2] == tail[0]);
                assert(lines[0][0] != '\r');
            } else if k == first.len() + 1 {
                assert(h[k] == ("\r\n"@)[1]);
            } else {
                let k2 = k - first.len() - 2;
                assert(h[k] == tail[k2]);
                assert(tail[k2 + 2] != '\r');
                assert(h[k + 1] == tail[k2 + 1]);
                assert(h[k + 2] == tail[k2 + 2]);
            }
        }
    }
}

/// A run of header lines that each carry a colon never breaks the parse:
/// each line is either recorded or ignored.
pub proof fn lemma_headers_spec_ok(lines: Seq<Seq<char>>)
    requires
        forall|i: int| 0 <= i < lines.len() ==> crate::text::contains_sub(
            #[trigger] lines[i],
            ":"@,
        ),
    ensures
        headers_spec(lines) is Ok,
    decreases lines.len(),
{
    reveal_strlit(":");
    if lines.len() > 0 {
        assert forall|i: int|
            0 <= i < lines.drop_last().len() implies crate::text::contains_sub(
            #[trigger] lines.drop_last()[i],
            ":"@,
        ) by {
            assert(lines.drop_last()[i] == lines[i]);
        }
        lemma_headers_spec_ok(lines.drop_last());
        let line = lines.last();
        assert(crate::text::contains_sub(line, ":"@));
        crate::text::lemma_find_from_props(line, ":"@, 0);
        if find_first(line, ":"@) is None {
            let k = choose|k: int| occurs_at(line, ":"@, k);
            assert(occurs_at(line, ":"@, k));
            assert(0 <= k);
        }
    }
}

/// Parse round-trip with an arbitrary header block: a request assembled from
/// three clean tokens, any run of clean, nonempty header lines and an
/// arbitrary body parses back to exactly those pieces — or to the header
/// run's own error, or to the strict table's error for the method token.
pub proof fn lemma_parse_well_formed_with_header_block(
    tok: Seq<char>,
    t: Seq<char>,
    v: Seq<char>,
    hdrs: Seq<Seq<char>>,
    b: Seq<char>,
)
    requires
        token_clean(tok),
        token_clean(t),
        t.len() > 0,
        token_clean(v),
        forall|i: int| 0 <= i < hdrs.len() ==> line_clean(#[trigger] hdrs[i]) && hdrs[i].len() > 0,
    ensures
        ({
            let s = head_of(request_line(tok, t, v), hdrs) + "\r\n\r\n"@ + b;
            match headers_spec(hdrs) {
                Err(e) => parse_spec(s) == Err::<HttpRequestView, HttpError>(e),
                Ok(h) => match method_of_token(tok) {
                    Ok(m) => parse_spec(s) == Ok::<HttpRequestView, HttpError>(
                        (HttpRequestView {
                            method: m,
                            target: t,
                            ver: v,
                            header: h,
                            body: b,
                            remained_header: Seq::<char>::empty(),
                        }),
                    ),
                    Err(e) => parse_spec(s) == Err::<HttpRequestView, HttpError>(e),
                },
            }
        }),
{
    reveal_strlit(" ");
    reveal_strlit("\r\n");
    reveal_strlit("\r\n\r\n");
    lemma_split_request_line(tok, t, v);
    let rl = request_line(tok, t, v);
    lemma_head_block(rl, hdrs);
    let head = head_of(rl, hdrs);
    let s = head + "\r\n\r\n"@ + b;
    assert(s.subrange(head.len() as int, head.len() as int + 4) =~= "\r\n\r\n"@);
    assert(occurs_at(s, "\r\n\r\n"@, head.len() as int));
    assert forall|k: int| 0 <= k < head.len() implies !occurs_at(s, "\r\n\r\n"@, k) by {
        if occurs_at(s, "\r\n\r\n"@, k) {
            assert(s.subrange(k, k + 4)[0] == s[k]);
            assert(s[k] == head[k]);
            assert(head[k] == '\r');
            assert(k + 2 < head.len() && head[k + 2] != '\r');
            assert(s.subrange(k, k + 4)[2] == s[k + 2]);
            assert(s[k + 2] == head[k + 2]);
        }
    }
    crate::text::lemma_find_from_some(s, "\r\n\r\n"@, 0, head.len() as int);
    assert(find_first(s, "\r\n\r\n"@) == Some(head.len() as int));
    assert(s.subrange(0, head.len() as int) =~= head);
    assert(s.subrange(head.len() as int + 4, s.len() as int) =~= b);
    assert((seq![rl] + hdrs)[0] == rl);
    assert((seq![rl] + hdrs).drop_first() =~= hdrs);
    assert(seq![tok, t, v][0] == tok);
    assert(seq![tok, t, v][1] == t);
    assert(seq![tok, t, v][2] == v);
}

/// Parse round-trip, general form: a request assembled from a supported
/// method, a nonempty clean target, a clean version, any run of clean,
/// nonempty header lines that each carry a colon, and an arbitrary body
/// parses back with exactly that method, target, version and body.
pub proof fn lemma_parse_round_trip_header_block(
    m: HttpRequestMethod,
    t: Seq<char>,
    v: Seq<char>,
    hdrs: Seq<Seq<char>>,
    b: Seq<char>,
)
    requires
        is_supported_method(m),
        token_clean(t),
        t.len() > 0,
        token_clean(v),
        forall|i: int| 0 <= i < hdrs.len() ==> line_clean(#[trigger] hdrs[i]) && hdrs[i].len() > 0
            && crate::text::contains_sub(hdrs[i], ":"@),
    ensures
        ({
            let r = parse_spec(head_of(request_line(token_of_method(m), t, v), hdrs) + "\r\n\r\n"@
                + b);
            r is Ok && r->Ok_0.method == m && r->Ok_0.target == t && r->Ok_0.ver == v
                && r->Ok_0.body == b
        }),
{
    lemma_supported_token_facts(m);
    lemma_headers_spec_ok(hdrs);
    lemma_parse_well_formed_with_header_block(token_of_method(m), t, v, hdrs, b);
}

/// Parse round-trip: a request assembled from a supported method, clean
/// target and version tokens, no header lines and an arbitrary body parses
/// back to exactly those pieces, so reassembling the parsed fields gives the
/// original text.
pub proof fn lemma_parse_round_trip(
    m: HttpRequestMethod,
    t: Seq<char>,
    v: Seq<char>,
    b: Seq<char>,
)
    requires
        is_supported_method(m),
        token_clean(t),
        t.len() > 0,
        token_clean(v),
    ensures
        parse_spec(request_line(token_of_method(m), t, v) + "\r\n\r\n"@ + b) == Ok::<
            HttpRequestView,
            HttpError,
        >(
            (HttpRequestView {
                method: m,
                target: t,
                ver: v,
                header: Map::<RequestHeaderKind, Seq<char>>::empty(),
                body: b,
                remained_header: Seq::<char>::empty(),
            }),
        ),
{
    lemma_supported_token_facts(m);
    lemma_parse_well_formed(token_of_method(m), t, v, b);
}

/// A supported method's wire token is clean and decodes back to that method.
pub proof fn lemma_supported_token_facts(m: HttpRequestMethod)
    requires
        is_supported_method(m),
    ensures
        token_clean(token_of_method(m)),
        method_of_token(token_of_method(m)) == Ok::<HttpRequestMethod, HttpError>(m),
{
    reveal_strlit("GET");
    reveal_strlit("POST");
    reveal_strlit("PUT");
    reveal_strlit("DELETE");
    let tok = token_of_method(m);
    assert(token_clean(tok)) by {
        assert forall|i: int| 0 <= i < tok.len() implies ((#[trigger] tok[i]) != ' ' && tok[i]
            != '\r' && tok[i] != '\n') by {
            match m {
                HttpRequestMethod::Get => {
                    assert(i == 0 || i == 1 || i == 2);
                },
                HttpRequestMethod::Post => {
                    assert(i == 0 || i == 1 || i == 2 || i == 3);
                },
                HttpRequestMethod::Put => {
                    assert(i == 0 || i == 1 || i == 2);
                },
                HttpRequestMethod::Delete => {
                    assert(i == 0 || i == 1 || i == 2 || i == 3 || i == 4 || i == 5);
                },
                _ => {
                },
            }
        }
    }
    assert(method_of_token(tok) == Ok::<HttpRequestMethod, HttpError>(m)) by {
        match m {
            HttpRequestMethod::Get => {
            },
            HttpRequestMethod::Post => {
                assert(("POST"@)[0] != ("GET"@)[0]);
            },
            HttpRequestMethod::Put => {
                assert(("PUT"@)[0] != ("GET"@)[0]);
                assert(("PUT"@)[1] != ("POST"@)[1]);
            },
            HttpRequestMethod::Delete => {
                assert(("DELETE"@)[0] != ("GET"@)[0]);
                assert(("DELETE"@)[0] != ("POST"@)[0]);
                assert(("DELETE"@)[0] != ("PUT"@)[0]);
            },
            _ => {
            },
        }
    }
}

/// Method strictness: a request whose first token the strict table does not
/// recognize is refused as `UndifineMethod`, however well-formed the rest of
/// the request is.
pub proof fn lemma_parse_unrecognized_method(
    tok: Seq<char>,
    t: Seq<char>,
    v: Seq<char>,
    b: Seq<char>,
)
    requires
        token_clean(tok),
        token_clean(t),
        t.len() > 0,
        token_clean(v),
        method_of_token(tok) is Err,
    ensures
        parse_spec(request_line(tok, t, v) + "\r\n\r\n"@ + b) == Err::<HttpRequestView, HttpError>(
            HttpError::UndifineMethod,
        ),
{
    lemma_parse_well_formed(tok, t, v, b);
}

/// A `Content-Length` header line records its trimmed value under the
/// message-length kind, whatever the map held before.
pub proof fn lemma_content_length_line(
    m: Map<RequestHeaderKind, Seq<char>>,
    value: Seq<char>,
)
    ensures
        header_line_apply(m, "Content-Length:"@ + value) == Ok::<
            Map<RequestHeaderKind, Seq<char>>,
            HttpError,
        >(m.insert(RequestHeaderKind::MessageLength, trim_spec(value))),
{
    reveal_strlit("Content-Length:");
    reveal_strlit("Content-Length");
    reveal_strlit(":");
    let key = "Content-Length"@;
    let line = "Content-Length:"@ + value;
    assert(line.subrange(14, 15) =~= ":"@);
    assert(occurs_at(line, ":"@, 14));
    assert forall|k: int| 0 <= k < 14 && k < line.len() implies line[k] != (":"@)[0] by {
        assert(line[k] == ("Content-Length:"@)[k]);
        assert(k == 0 || k == 1 || k == 2 || k == 3 || k == 4 || k == 5 || k == 6 || k == 7 || k
            == 8 || k == 9 || k == 10 || k == 11 || k == 12 || k == 13);
    }
    crate::text::lemma_no_occurrence_without_first_char(line, ":"@, 14);
    crate::text::lemma_find_from_some(line, ":"@, 0, 14);
    assert(find_first(line, ":"@) == Some(14int));
    assert(line.subrange(0, 14) =~= key);
    assert(crate::text::trim_start_spec(key) == key);
    assert(crate::text::trim_end_spec(key) == key);
    assert(trim_spec(key) == key);
    assert(line.subrange(15, line.len() as int) =~= value);
}

/// Parse round-trip with a `Content-Length` header: the request parses back
/// to its assembled pieces, and the header map holds the trimmed value under
/// the message-length kind.
pub proof fn lemma_parse_round_trip_content_length(
    m: HttpRequestMethod,
    t: Seq<char>,
    v: Seq<char>,
    value: Seq<char>,
    b: Seq<char>,
)
    requires
        is_supported_method(m),
        token_clean(t),
        t.len() > 0,
        token_clean(v),
        line_clean(value),
    ensures
        parse_spec(
            request_line(token_of_method(m), t, v) + "\r\n"@ + ("Content-Length:"@ + value)
                + "\r\n\r\n"@ + b,
        ) == Ok::<HttpRequestView, HttpError>(
            (HttpRequestView {
                method: m,
                target: t,
                ver: v,
                header: Map::<RequestHeaderKind, Seq<char>>::empty().insert(
                    RequestHeaderKind::MessageLength,
                    trim_spec(value),
                ),
                body: b,
                remained_header: Seq::<char>::empty(),
            }),
        ),
{
    reveal_strlit("Content-Length:");
    lemma_supported_token_facts(m);
    let hdr = "Content-Length:"@ + value;
    assert(line_clean(hdr)) by {
        assert forall|i: int| 0 <= i < hdr.len() implies ((#[trigger] hdr[i]) != '\r' && hdr[i]
            != '\n') by {
            if i < 15 {
                assert(hdr[i] == ("Content-Length:"@)[i]);
                assert(i == 0 || i == 1 || i == 2 || i == 3 || i == 4 || i == 5 || i == 6 || i == 7
                    || i == 8 || i == 9 || i == 10 || i == 11 || i == 12 || i == 13 || i == 14);
            } else {
                assert(hdr[i] == value[i - 15]);
            }
        }
    }
    assert(hdr.len() > 0);
    lemma_parse_well_formed_with_header(token_of_method(m), t, v, hdr, b);
    lemma_content_length_line(Map::<RequestHeaderKind, Seq<char>>::empty(), value);
    assert(seq![hdr].drop_last() =~= Seq::<Seq<char>>::empty());
    assert(headers_spec(Seq::<Seq<char>>::empty()) == Ok::<
        Map<RequestHeaderKind, Seq<char>>,
        HttpError,
    >(Map::<RequestHeaderKind, Seq<char>>::empty()));
    assert(seq![hdr].len() == 1);
    assert(seq![hdr].last() == hdr);
    assert(headers_spec(seq![hdr]) == header_line_apply(
        Map::<RequestHeaderKind, Seq<char>>::empty(),
        hdr,
    ));
}

/// A successfully parsed request never carries an empty target.
pub proof fn lemma_parse_target_nonempty(s: Seq<char>)
    ensures
        parse_spec(s) matches Ok(v) ==> v.target.len() > 0,
{
}

/// A request whose first line carries an empty target token is broken.
pub proof fn lemma_parse_empty_target(s: Seq<char>, i: int)
    requires
        find_first(s, "\r\n\r\n"@) == Some(i),
        split_on(split_on(s.subrange(0, i), "\r\n"@)[0], " "@)[1].len() == 0,
    ensures
        parse_spec(s) == Err::<HttpRequestView, HttpError>(HttpError::RequestIsBroken),
{
}

/// A request without the blank line separating head from body is broken.
pub proof fn lemma_parse_missing_separator(s: Seq<char>)
    requires
        !crate::text::contains_sub(s, "\r\n\r\n"@),
    ensures
        parse_spec(s) == Err::<HttpRequestView, HttpError>(HttpError::RequestIsBroken),
{
    assert forall|k: int| 0 <= k implies !occurs_at(s, "\r\n\r\n"@, k) by {
        if occurs_at(s, "\r\n\r\n"@, k) {
            assert(crate::text::contains_sub(s, "\r\n\r\n"@));
        }
    }
    crate::text::lemma_find_from_none(s, "\r\n\r\n"@, 0);
}

/// A request whose first line does not split into exactly three
/// space-separated tokens is broken.
pub proof fn lemma_parse_bad_request_line(s: Seq<char>, i: int)
    requires
        find_first(s, "\r\n\r\n"@) == Some(i),
        split_on(split_on(s.subrange(0, i), "\r\n"@)[0], " "@).len() != 3,
    ensures
        parse_spec(s) == Err::<HttpRequestView, HttpError>(HttpError::RequestIsBroken),
{
}

} // verus!
