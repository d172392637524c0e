//! The router: a registered list of path-prefix routes, matched against a
//! request's first path segment in registration order, and the fixed
//! handlers this server dispatches to.

use vstd::prelude::*;
use vstd::string::*;
use crate::error::HttpError;
use crate::headers::{assoc_insert, hmap, Headers};
use crate::http::{
    HttpRequest, HttpResponse, ReqView, RespView, StatusCode,
};
use crate::storage::FileStorage;
use crate::strutil::{
    first_seg, first_seg_exec, split1, split1_exec, str_eq, strip_rep, strip_rep_exec, trim,
    trim_exec,
};

verus! {

/// The handlers this server knows, one per registered route.
#[derive(Debug, Clone, Copy, PartialEq, Eq, Structural)]
pub enum Handler {
    /// `GET /` answers an empty 200.
    Root,
    /// `GET /echo/<value>` answers `<value>` as plain text.
    Echo,
    /// `GET /user-agent` answers the request's `User-Agent` header.
    UserAgent,
    /// `GET`/`POST /files/<name>` read and write the file storage.
    Files,
}

/// A registered route: a path whose first segment is compared against the
/// request path's first segment, and the handler that answers.
#[derive(Debug)]
pub struct Route {
    path: String,
    handler: Handler,
}

impl View for Route {
    type V = (Seq<char>, Handler);

    closed spec fn view(&self) -> (Seq<char>, Handler) {
        (self.path@, self.handler)
    }
}

impl Route {
    /// A route for `path`, answered by `handler`.
    pub fn new(path: &str, handler: Handler) -> (r: Self)
        ensures
            r@ == (path@, handler),
    {
        Self { path: path.to_owned(), handler }
    }
}

/// What a request resolves to: a finished response, or a file action the
/// caller performs against its storage before building the response with
/// [`Router::file_read_response`] or [`Router::file_write_response`].
#[derive(Debug)]
pub enum Resolution {
    /// The response is complete.
    Done(HttpResponse),
    /// Read the named file; its contents become a 200 response with these
    /// headers, or a 404 if it is absent.
    ReadFile { name: String, headers: Headers },
    /// Write these contents under the named file; success becomes a 201
    /// response, failure a 500.
    WriteFile { name: String, contents: Vec<u8> },
}

/// The model of a resolution.
pub enum ResolutionView {
    Done(RespView),
    ReadFile(Seq<char>, Seq<(Seq<char>, Seq<char>)>),
    WriteFile(Seq<char>, Seq<u8>),
}

impl View for Resolution {
    type V = ResolutionView;

    open spec fn view(&self) -> ResolutionView {
        match self {
            Resolution::Done(r) => ResolutionView::Done(r@),
            Resolution::ReadFile { name, headers } => ResolutionView::ReadFile(name@, headers@),
            Resolution::WriteFile { name, contents } => ResolutionView::WriteFile(
                name@,
                contents@,
            ),
        }
    }
}

/// Does an `Accept-Encoding` value ask for gzip? Its comma-separated,
/// whitespace-trimmed tokens must contain exactly `gzip`.
pub open spec fn accepts_gzip(v: Seq<char>) -> bool {
    exists|i: int|
        0 <= i < split1(v, ',').len() && trim(#[trigger] split1(v, ',')[i]) == "gzip"@
}

/// The headers after content negotiation: `Content-Encoding: gzip` is
/// added exactly when the request's `Accept-Encoding` asks for gzip.
pub open spec fn spec_accept_encoding(
    req_headers: Seq<(Seq<char>, Seq<char>)>,
    headers: Seq<(Seq<char>, Seq<char>)>,
) -> Seq<(Seq<char>, Seq<char>)> {
    let m = hmap(req_headers);
    if m.contains_key("Accept-Encoding"@) && accepts_gzip(m["Accept-Encoding"@]) {
        assoc_insert(headers, "Content-Encoding"@, "gzip"@)
    } else {
        headers
    }
}

/// Inspects the request's `Accept-Encoding` header and sets
/// `Content-Encoding: gzip` on the response headers being built when its
/// token list contains `gzip`.
pub fn accept_encoding(request: &HttpRequest, headers: &mut Headers)
    ensures
        final(headers)@ == spec_accept_encoding(request@.headers, old(headers)@),
{
    let encoding_str = match request.headers.get("Accept-Encoding") {
        None => {
            return ;
        },
        Some(v) => v,
    };
    let ghost v = encoding_str@;
    let ghost rh = request@.headers;
    let tokens = split1_exec(encoding_str.as_str(), ',');
    let n = tokens.len();
    let mut i: usize = 0;
    while i < n
        invariant
            0 <= i <= n,
            n == tokens@.len(),
            crate::strutil::views(tokens@) == split1(v, ','),
            hmap(rh).contains_key("Accept-Encoding"@),
            hmap(rh)["Accept-Encoding"@] == v,
            rh == request@.headers,
            headers@ == old(headers)@,
            forall|j: int| 0 <= j < i ==> trim(#[trigger] split1(v, ',')[j]) != "gzip"@,
        decreases n - i,
    {
        let t = trim_exec(tokens[i].as_str());
        proof {
            assert(tokens@[i as int]@ == crate::strutil::views(tokens@)[i as int]);
        }
        if str_eq(t.as_str(), "gzip") {
            headers.insert("Content-Encoding", "gzip");
            proof {
                assert(accepts_gzip(v)) by {
                    assert(trim(split1(v, ',')[i as int]) == "gzip"@);
                }
            }
            return ;
        }
        i = i + 1;
    }
    proof {
        assert(!accepts_gzip(v));
    }
}

/// The response headers a route starts from: its content type, then
/// content negotiation.
pub open spec fn spec_route_headers(req: ReqView, ct: Seq<char>) -> Seq<(Seq<char>, Seq<char>)> {
    spec_accept_encoding(
        req.headers,
        assoc_insert(Seq::<(Seq<char>, Seq<char>)>::empty(), "Content-Type"@, ct),
    )
}

/// A 405 response naming the methods the route allows.
pub open spec fn spec_method_not_allowed(allow: Seq<char>) -> RespView {
    (RespView {
        status: StatusCode::NOT_ALLOWED,
        headers: assoc_insert(Seq::<(Seq<char>, Seq<char>)>::empty(), "Allow"@, allow),
        body: Seq::<u8>::empty(),
    })
}

/// The request's `User-Agent` header value, empty when absent.
pub open spec fn spec_user_agent(req: ReqView) -> Seq<char> {
    if hmap(req.headers).contains_key("User-Agent"@) {
        hmap(req.headers)["User-Agent"@]
    } else {
        Seq::<char>::empty()
    }
}

/// What each handler decides for a request: a finished response for the
/// root, echo and user-agent routes, a storage action for the file route;
/// any other method than the route's own answers 405 with an `Allow`
/// header.
pub open spec fn spec_dispatch(h: Handler, req: ReqView) -> ResolutionView {
    match h {
        Handler::Root => if req.line.method == "GET"@ {
            ResolutionView::Done(
                (RespView {
                    status: StatusCode::OK,
                    headers: Seq::<(Seq<char>, Seq<char>)>::empty(),
                    body: Seq::<u8>::empty(),
                }),
            )
        } else {
            ResolutionView::Done(spec_method_not_allowed("GET"@))
        },
        Handler::Echo => if req.line.method == "GET"@ {
            ResolutionView::Done(
                (RespView {
                    status: StatusCode::OK,
                    headers: spec_route_headers(req, "text/plain"@),
                    body: vstd::utf8::encode_utf8(strip_rep(req.line.path, "/echo/"@)),
                }),
            )
        } else {
            ResolutionView::Done(spec_method_not_allowed("GET"@))
        },
        Handler::UserAgent => if req.line.method == "GET"@ {
            ResolutionView::Done(
                (RespView {
                    status: StatusCode::OK,
                    headers: spec_route_headers(req, "text/plain"@),
                    body: vstd::utf8::encode_utf8(spec_user_agent(req)),
                }),
            )
        } else {
            ResolutionView::Done(spec_method_not_allowed("GET"@))
        },
        Handler::Files => {
            let name = strip_rep(req.line.path, "/files/"@);
            if req.line.method == "GET"@ {
                ResolutionView::ReadFile(name, spec_route_headers(req, "application/octet-stream"@))
            } else if req.line.method == "POST"@ {
                ResolutionView::WriteFile(name, req.body)
            } else {
                ResolutionView::Done(spec_method_not_allowed("GET, POST"@))
            }
        },
    }
}

/// The first registered route, from `i` on, whose path's first segment
/// equals the request path's.
pub open spec fn spec_match_from(
    routes: Seq<(Seq<char>, Handler)>,
    path: Seq<char>,
    i: int,
) -> Option<int>
    decreases routes.len() - i,
{
    if i < 0 || i >= routes.len() {
        None
    } else if first_seg(routes[i].0) == first_seg(path) {
        Some(i)
    } else {
        spec_match_from(routes, path, i + 1)
    }
}

/// What the router decides for a request: the first route whose path's
/// first segment matches dispatches; no match answers 404.
pub open spec fn spec_resolve(routes: Seq<(Seq<char>, Handler)>, req: ReqView) -> ResolutionView {
    match spec_match_from(routes, req.line.path, 0) {
        None => ResolutionView::Done(
            (RespView {
                status: StatusCode::NOT_FOUND,
                headers: Seq::<(Seq<char>, Seq<char>)>::empty(),
                body: Seq::<u8>::empty(),
            }),
        ),
        Some(i) => spec_dispatch(routes[i].1, req),
    }
}

/// What a completed file read means as a response: found contents are a
/// 200 with the negotiated headers, an absent file is a bare 404.
pub open spec fn spec_file_read_response(
    found: Option<Seq<u8>>,
    headers: Seq<(Seq<char>, Seq<char>)>,
) -> RespView {
    match found {
        Some(b) => (RespView { status: StatusCode::OK, headers: headers, body: b }),
        None => (RespView {
            status: StatusCode::NOT_FOUND,
            headers: Seq::<(Seq<char>, Seq<char>)>::empty(),
            body: Seq::<u8>::empty(),
        }),
    }
}

/// What a completed file write means as a response: a bare 201 on
/// success, a bare 500 on failure.
pub open spec fn spec_file_write_response(ok: bool) -> RespView {
    if ok {
        (RespView {
            status: StatusCode::CREATED,
            headers: Seq::<(Seq<char>, Seq<char>)>::empty(),
            body: Seq::<u8>::empty(),
        })
    } else {
        (RespView {
            status: StatusCode::INTERNAL_SERVER_ERROR,
            headers: Seq::<(Seq<char>, Seq<char>)>::empty(),
            body: Seq::<u8>::empty(),
        })
    }
}

/// What resolving against a storage mapping yields: the response, and the
/// mapping afterwards.
pub open spec fn spec_resolve_with(
    routes: Seq<(Seq<char>, Handler)>,
    req: ReqView,
    fs: Map<Seq<char>, Seq<u8>>,
) -> (RespView, Map<Seq<char>, Seq<u8>>) {
    match spec_resolve(routes, req) {
        ResolutionView::Done(r) => (r, fs),
        ResolutionView::ReadFile(name, hs) => (
            spec_file_read_response(
                if fs.contains_key(name) {
                    Some(fs[name])
                } else {
                    None
                },
                hs,
            ),
            fs,
        ),
        ResolutionView::WriteFile(name, contents) => (
            spec_file_write_response(true),
            fs.insert(name, contents),
        ),
    }
}

/// Router resolution is deterministic: one request model and one storage
/// state admit exactly one response and one storage state after.
pub proof fn lemma_resolve_deterministic(
    routes: Seq<(Seq<char>, Handler)>,
    req1: ReqView,
    req2: ReqView,
    fs1: Map<Seq<char>, Seq<u8>>,
    fs2: Map<Seq<char>, Seq<u8>>,
)
    requires
        req1 == req2,
        fs1 == fs2,
    ensures
        spec_resolve_with(routes, req1, fs1) == spec_resolve_with(routes, req2, fs2),
{
}

/// The router: registered routes, in order.
#[derive(Debug)]
pub struct Router {
    routes: Vec<Route>,
}

impl View for Router {
    type V = Seq<(Seq<char>, Handler)>;

    closed spec fn view(&self) -> Seq<(Seq<char>, Handler)> {
        Seq::new(self.routes@.len(), |i: int| self.routes@[i]@)
    }
}

impl Router {
    /// A router with no routes.
    pub fn new() -> (r: Self)
        ensures
            r@ == Seq::<(Seq<char>, Handler)>::empty(),
    {
        let r = Self { routes: Vec::new() };
        proof {
            assert(r@ =~= Seq::<(Seq<char>, Handler)>::empty());
        }
        r
    }

    /// Registers a route after the existing ones.
    pub fn add_route(&mut self, route: Route)
        ensures
            final(self)@ == old(self)@.push(route@),
    {
        let ghost r0 = self@;
        let ghost rv = route@;
        self.routes.push(route);
        proof {
            assert(self@ =~= r0.push(rv));
        }
    }

    /// Registers a route for `path`, answered by `handler`.
    pub fn create_route(&mut self, path: &str, handler: Handler)
        ensures
            final(self)@ == old(self)@.push((path@, handler)),
    {
        self.add_route(Route::new(path, handler));
    }

    /// The first segment of a path: what remains after stripping one
    /// leading `/`, if there is one, up to the next `/` or the end.
    pub fn parse_path(&self, path: &str) -> (r: String)
        ensures
            r@ == first_seg(path@),
    {
        first_seg_exec(path)
    }

    /// Resolves a request to a finished response or a file action, by the
    /// first route whose path's first segment matches the request path's.
    pub fn dispatch(&self, request: &HttpRequest) -> (r: Resolution)
        ensures
            r@ == spec_resolve(self@, request@),
    {
        let req_seg = self.parse_path(request.line.path.as_str());
        let n = self.routes.len();
        let mut i: usize = 0;
        while i < n
            invariant
                0 <= i <= n,
                n == self@.len(),
                req_seg@ == first_seg(request@.line.path),
                spec_match_from(self@, request@.line.path, 0) == spec_match_from(
                    self@,
                    request@.line.path,
                    i as int,
                ),
            decreases n - i,
        {
            let route_seg = self.parse_path(self.routes[i].path.as_str());
            proof {
                assert(self@[i as int] == self.routes@[i as int]@);
            }
            if str_eq(req_seg.as_str(), route_seg.as_str()) {
                return Self::run_handler(self.routes[i].handler, request);
            }
            i = i + 1;
        }
        Resolution::Done(HttpResponse::not_found())
    }

    /// Runs the handler's decision for a request.
    fn run_handler(h: Handler, request: &HttpRequest) -> (r: Resolution)
        ensures
            r@ == spec_dispatch(h, request@),
    {
        let is_get = str_eq(request.line.method.as_str(), "GET");
        match h {
            Handler::Root => {
                if is_get {
                    let resp = HttpResponse::ok(&[], Headers::new());
                    proof {
                        assert(resp@.body =~= Seq::<u8>::empty());
                        assert(resp@.headers =~= Seq::<(Seq<char>, Seq<char>)>::empty());
                    }
                    Resolution::Done(resp)
                } else {
                    Resolution::Done(Self::method_not_allowed_response("GET"))
                }
            },
            Handler::Echo => {
                if is_get {
                    let headers = Self::route_headers(request, "text/plain");
                    proof {
                        reveal_strlit("/echo/");
                    }
                    let rem = strip_rep_exec(request.line.path.as_str(), "/echo/");
                    let body = rem.as_str().as_bytes_vec();
                    Resolution::Done(HttpResponse::new(StatusCode::OK, body.as_slice(), headers))
                } else {
                    Resolution::Done(Self::method_not_allowed_response("GET"))
                }
            },
            Handler::UserAgent => {
                if is_get {
                    let headers = Self::route_headers(request, "text/plain");
                    let ua = match request.headers.get("User-Agent") {
                        Some(v) => v.clone(),
                        None => String::new(),
                    };
                    let body = ua.as_str().as_bytes_vec();
                    Resolution::Done(HttpResponse::new(StatusCode::OK, body.as_slice(), headers))
                } else {
                    Resolution::Done(Self::method_not_allowed_response("GET"))
                }
            },
            Handler::Files => {
                proof {
                    reveal_strlit("/files/");
                }
                let name = strip_rep_exec(request.line.path.as_str(), "/files/");
                if is_get {
                    let headers = Self::route_headers(request, "application/octet-stream");
                    Resolution::ReadFile { name, headers }
                } else if str_eq(request.line.method.as_str(), "POST") {
                    let contents = vstd::slice::slice_to_vec(request.body.as_slice());
                    Resolution::WriteFile { name, contents }
                } else {
                    Resolution::Done(Self::method_not_allowed_response("GET, POST"))
                }
            },
        }
    }

    /// The response headers a route starts from.
    fn route_headers(request: &HttpRequest, ct: &str) -> (r: Headers)
        ensures
            r@ == spec_route_headers(request@, ct@),
    {
        let mut headers = Headers::new();
        headers.insert("Content-Type", ct);
        accept_encoding(request, &mut headers);
        headers
    }

    /// A 405 response naming the allowed methods.
    fn method_not_allowed_response(allow: &str) -> (r: HttpResponse)
        ensures
            r@ == spec_method_not_allowed(allow@),
    {
        let mut r = HttpResponse::method_not_allowed();
        r.headers.insert("Allow", allow);
        r
    }

    /// What a completed file read answers: the contents as a 200 with the
    /// negotiated headers, or a bare 404 for an absent file.
    pub fn file_read_response(found: Option<Vec<u8>>, headers: Headers) -> (r: HttpResponse)
        ensures
            r@ == spec_file_read_response(
                match found {
                    Some(b) => Some(b@),
                    None => None,
                },
                headers@,
            ),
    {
        match found {
            Some(b) => HttpResponse::new(StatusCode::OK, b.as_slice(), headers),
            None => HttpResponse::not_found(),
        }
    }

    /// What a completed file write answers: a bare 201 on success, a bare
    /// 500 on failure.
    pub fn file_write_response(ok: bool) -> (r: HttpResponse)
        ensures
            r@ == spec_file_write_response(ok),
    {
        if ok {
            HttpResponse::created()
        } else {
            HttpResponse::internal_server_error()
        }
    }

    /// Resolves a request to a response, performing file actions against
    /// the given storage.
    pub fn resolve(&self, request: &HttpRequest, storage: &mut FileStorage) -> (r: HttpResponse)
        ensures
            r@ == spec_resolve_with(self@, request@, old(storage).as_map()).0,
            final(storage).as_map() == spec_resolve_with(self@, request@, old(storage).as_map()).1,
    {
        match self.dispatch(request) {
            Resolution::Done(resp) => resp,
            Resolution::ReadFile { name, headers } => {
                Self::file_read_response(storage.read(name.as_str()), headers)
            },
            Resolution::WriteFile { name, contents } => {
                storage.write(name.as_str(), contents.as_slice());
                Self::file_write_response(true)
            },
        }
    }
}

/// The router this server runs: the root, echo, user-agent and files
/// routes, in that order.
pub fn make_router() -> (r: Router)
    ensures
        r@ == seq![
            ("/"@, Handler::Root),
            ("/echo"@, Handler::Echo),
            ("/user-agent"@, Handler::UserAgent),
            ("/files"@, Handler::Files),
        ],
{
    let mut router = Router::new();
    router.create_route("/", Handler::Root);
    router.create_route("/echo", Handler::Echo);
    router.create_route("/user-agent", Handler::UserAgent);
    router.create_route("/files", Handler::Files);
    proof {
        assert(router@ =~= seq![
            ("/"@, Handler::Root),
            ("/echo"@, Handler::Echo),
            ("/user-agent"@, Handler::UserAgent),
            ("/files"@, Handler::Files),
        ]);
    }
    router
}

} // verus!
