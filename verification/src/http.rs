//! The HTTP/1.1 wire codec: requests parsed from CRLF-separated lines,
//! responses serialized to bytes, with `Content-Length` body framing and
//! optional gzip content encoding.

use vstd::prelude::*;
use vstd::string::*;
use crate::error::HttpError;
use crate::headers::{
    assoc_insert, hmap, keys_unique, lemma_assoc_insert_absent, Headers,
};
use crate::strutil::{
    all_digits, dec_of, digits_val, find_sep2, first_sep2, has_sep2, is_ws, join2, join_crlf,
    lemma_first_sep2_from_exact, lemma_join2_split2, lemma_no_sep2_concat, lemma_split2_prefix,
    lemma_split_ws_space, lemma_split_ws_token, parse_usize, push_dec, sep2_at, split2,
    split2_exec, split_ws, split_ws_exec, str_eq, views,
};

verus! {

/// The model of a request line: three whitespace-separated tokens.
pub struct LineView {
    pub method: Seq<char>,
    pub path: Seq<char>,
    pub version: Seq<char>,
}

/// The request line of an HTTP request.
#[derive(Debug, PartialEq)]
pub struct RequestLine {
    pub method: String,
    pub path: String,
    pub version: String,
}

impl View for RequestLine {
    type V = LineView;

    open spec fn view(&self) -> LineView {
        (LineView { method: self.method@, path: self.path@, version: self.version@ })
    }
}

/// What parsing a request line yields: the first three whitespace-separated
/// tokens as method, path and version, the version pinned to `HTTP/1.1`.
pub open spec fn spec_parse_request_line(line: Seq<char>) -> Result<LineView, HttpError> {
    let toks = split_ws(line);
    if toks.len() == 0 {
        Err(HttpError::MissingMethod)
    } else if toks.len() == 1 {
        Err(HttpError::MissingPath)
    } else if toks.len() == 2 {
        Err(HttpError::MissingVersion)
    } else if toks[2] != "HTTP/1.1"@ {
        Err(HttpError::UnsupportedVersion)
    } else {
        Ok((LineView { method: toks[0], path: toks[1], version: toks[2] }))
    }
}

impl RequestLine {
    /// Builds a request line from its three parts.
    pub fn new(method: &str, path: &str, version: &str) -> (r: Self)
        ensures
            r@.method == method@,
            r@.path == path@,
            r@.version == version@,
    {
        Self { method: method.to_owned(), path: path.to_owned(), version: version.to_owned() }
    }

    /// Parses a request line from one line of text.
    pub fn from_line(line: &str) -> (r: Result<Self, HttpError>)
        ensures
            match r {
                Ok(rl) => spec_parse_request_line(line@) == Ok::<LineView, HttpError>(rl@),
                Err(e) => spec_parse_request_line(line@) == Err::<LineView, HttpError>(e),
            },
    {
        let toks = split_ws_exec(line);
        proof {
            assert(views(toks@).len() == toks@.len());
        }
        if toks.len() == 0 {
            return Err(HttpError::MissingMethod);
        }
        if toks.len() == 1 {
            return Err(HttpError::MissingPath);
        }
        if toks.len() == 2 {
            return Err(HttpError::MissingVersion);
        }
        if !str_eq(toks[2].as_str(), "HTTP/1.1") {
            proof {
                assert(views(toks@)[2] == toks@[2]@);
            }
            return Err(HttpError::UnsupportedVersion);
        }
        let r = Self {
            method: toks[0].clone(),
            path: toks[1].clone(),
            version: toks[2].clone(),
        };
        proof {
            assert(views(toks@)[0] == toks@[0]@);
            assert(views(toks@)[1] == toks@[1]@);
            assert(views(toks@)[2] == toks@[2]@);
        }
        Ok(r)
    }
}

/// An HTTP status: the closed set this server can answer with.
#[allow(non_camel_case_types)]
#[derive(Debug, Clone, Copy, PartialEq, Eq, Structural)]
pub enum StatusCode {
    OK,
    CREATED,
    NOT_FOUND,
    NOT_ALLOWED,
    INTERNAL_SERVER_ERROR,
}

/// The status line text of each status: code and canonical reason phrase.
pub open spec fn status_text(s: StatusCode) -> Seq<char> {
    match s {
        StatusCode::OK => "200 OK"@,
        StatusCode::CREATED => "201 Created"@,
        StatusCode::NOT_FOUND => "404 Not Found"@,
        StatusCode::NOT_ALLOWED => "405 Method Not Allowed"@,
        StatusCode::INTERNAL_SERVER_ERROR => "500 Internal Server Error"@,
    }
}

impl StatusCode {
    /// The code and canonical reason phrase of this status.
    pub fn as_str(&self) -> (r: &'static str)
        ensures
            r@ == status_text(*self),
    {
        match self {
            StatusCode::OK => "200 OK",
            StatusCode::CREATED => "201 Created",
            StatusCode::NOT_FOUND => "404 Not Found",
            StatusCode::NOT_ALLOWED => "405 Method Not Allowed",
            StatusCode::INTERNAL_SERVER_ERROR => "500 Internal Server Error",
        }
    }
}

/// The headers of a request.
pub type RequestHeaders = Headers;

/// The headers of a response.
pub type ResponseHeaders = Headers;

/// The model of a parsed request.
pub struct ReqView {
    pub line: LineView,
    pub headers: Seq<(Seq<char>, Seq<char>)>,
    pub connection: Seq<char>,
    pub body: Seq<u8>,
}

/// A parsed HTTP request.
#[derive(Debug)]
pub struct HttpRequest {
    pub line: RequestLine,
    pub headers: Headers,
    pub connection: String,
    pub body: Vec<u8>,
}

impl View for HttpRequest {
    type V = ReqView;

    open spec fn view(&self) -> ReqView {
        (ReqView {
            line: self.line@,
            headers: self.headers@,
            connection: self.connection@,
            body: self.body@,
        })
    }
}

/// The connection mode a header mapping asks for: the `Connection` header's
/// value, defaulting to `keep-alive`.
pub open spec fn spec_connection(headers: Seq<(Seq<char>, Seq<char>)>) -> Seq<char> {
    if hmap(headers).contains_key("Connection"@) {
        hmap(headers)["Connection"@]
    } else {
        "keep-alive"@
    }
}

/// What parsing one header line yields: the name before the first `": "`,
/// the value after it. A line without the separator is refused, and so is
/// an empty name; an empty value is accepted.
pub open spec fn spec_parse_header_line(line: Seq<char>) -> Result<
    (Seq<char>, Seq<char>),
    HttpError,
> {
    match first_sep2(line, ':', ' ') {
        None => Err(HttpError::MissingHeaderValue),
        Some(j) => if j == 0 {
            Err(HttpError::MissingHeaderKey)
        } else {
            Ok((line.subrange(0, j), line.skip(j + 2)))
        },
    }
}

/// How many lines precede the first empty line.
pub open spec fn header_prefix_len(lines: Seq<Seq<char>>) -> int
    decreases lines.len(),
{
    if lines.len() == 0 || lines[0].len() == 0 {
        0
    } else {
        1 + header_prefix_len(lines.drop_first())
    }
}

pub proof fn lemma_header_prefix_len_is(lines: Seq<Seq<char>>, n: int)
    requires
        0 <= n <= lines.len(),
        forall|k: int| 0 <= k < n ==> #[trigger] lines[k].len() > 0,
        n == lines.len() || lines[n].len() == 0,
    ensures
        header_prefix_len(lines) == n,
    decreases n,
{
    if n > 0 {
        lemma_header_prefix_len_is(lines.drop_first(), n - 1);
    }
}

/// What parsing a run of header lines yields: each line parsed in turn,
/// a later occurrence of a name overwriting the earlier one; the first
/// bad line's error.
pub open spec fn spec_fold_headers(lines: Seq<Seq<char>>) -> Result<
    Seq<(Seq<char>, Seq<char>)>,
    HttpError,
>
    decreases lines.len(),
{
    if lines.len() == 0 {
        Ok(Seq::empty())
    } else {
        match spec_fold_headers(lines.drop_last()) {
            Err(e) => Err(e),
            Ok(h) => match spec_parse_header_line(lines.last()) {
                Err(e) => Err(e),
                Ok(kv) => Ok(assoc_insert(h, kv.0, kv.1)),
            },
        }
    }
}

/// An error in some prefix of the lines is the whole run's error.
pub proof fn lemma_fold_headers_err(lines: Seq<Seq<char>>, i: int, m: int)
    requires
        0 <= i <= m <= lines.len(),
        spec_fold_headers(lines.take(i)) is Err,
    ensures
        spec_fold_headers(lines.take(m)) == spec_fold_headers(lines.take(i)),
    decreases m - i,
{
    if m > i {
        lemma_fold_headers_err(lines, i, m - 1);
        assert(lines.take(m).drop_last() =~= lines.take(m - 1));
    }
}

/// What parsing header lines yields: the lines before the first empty
/// line, folded in order.
pub open spec fn spec_parse_headers(lines: Seq<Seq<char>>) -> Result<
    Seq<(Seq<char>, Seq<char>)>,
    HttpError,
> {
    spec_fold_headers(lines.take(header_prefix_len(lines)))
}

/// What parsing a body yields, given the parsed headers and the remaining
/// lines: the lines rejoined with CRLF, encoded as UTF-8, provided their
/// byte length equals the `Content-Length` value; no header or a zero
/// value means an empty body, whatever follows.
pub open spec fn spec_parse_body(
    headers: Seq<(Seq<char>, Seq<char>)>,
    body_lines: Seq<Seq<char>>,
) -> Result<Seq<u8>, HttpError> {
    let m = hmap(headers);
    if m.contains_key("Content-Length"@) {
        let clv = m["Content-Length"@];
        if !(clv.len() > 0 && all_digits(clv) && digits_val(clv) <= usize::MAX) {
            Err(HttpError::InvalidContentLength)
        } else if digits_val(clv) == 0 {
            Ok(Seq::empty())
        } else {
            let joined = vstd::utf8::encode_utf8(join2(body_lines, '\r', '\n'));
            if joined.len() == digits_val(clv) {
                Ok(joined)
            } else {
                Err(HttpError::InvalidContentLength)
            }
        }
    } else {
        Ok(Seq::<u8>::empty())
    }
}

/// What parsing a request split into a request line, header lines and body
/// lines yields.
pub open spec fn spec_parse_lines(
    line0: Seq<char>,
    hlines: Seq<Seq<char>>,
    blines: Seq<Seq<char>>,
) -> Result<ReqView, HttpError> {
    match spec_parse_request_line(line0) {
        Err(e) => Err(e),
        Ok(rl) => match spec_parse_headers(hlines) {
            Err(e) => Err(e),
            Ok(h) => match spec_parse_body(h, blines) {
                Err(e) => Err(e),
                Ok(b) => Ok(
                    (ReqView { line: rl, headers: h, connection: spec_connection(h), body: b }),
                ),
            },
        },
    }
}

/// The lines from `start` on; none if `start` is past the end.
pub open spec fn tail_from(lines: Seq<Seq<char>>, start: int) -> Seq<Seq<char>> {
    if start <= lines.len() {
        lines.skip(start)
    } else {
        Seq::empty()
    }
}

/// What parsing a sequence of lines as a whole request yields: the first
/// line is the request line, the lines before the first empty line after
/// it are the headers, and what follows that empty line is the body.
pub open spec fn spec_parse_strings(lines: Seq<Seq<char>>) -> Result<ReqView, HttpError> {
    if lines.len() == 0 {
        Err(HttpError::MissingRequestLine)
    } else {
        let rest = lines.drop_first();
        let hn = header_prefix_len(rest);
        spec_parse_lines(lines[0], rest.take(hn), tail_from(rest, hn + 1))
    }
}

/// What parsing a whole request string yields: the string split on CRLF,
/// parsed as lines.
pub open spec fn spec_parse_request(s: Seq<char>) -> Result<ReqView, HttpError> {
    spec_parse_strings(split2(s, '\r', '\n'))
}

/// Does the parse result `r` denote the model result `s`?
pub open spec fn parse_models(r: Result<HttpRequest, HttpError>, s: Result<
    ReqView,
    HttpError,
>) -> bool {
    match r {
        Ok(q) => s == Ok::<ReqView, HttpError>(q@),
        Err(e) => s == Err::<ReqView, HttpError>(e),
    }
}

/// The characters that `String::from_utf8_lossy` decodes from `b`: the
/// UTF-8 decoding with each invalid sequence replaced.
pub uninterp spec fn utf8_lossy(b: Seq<u8>) -> Seq<char>;

/// Relies on `String::from_utf8_lossy` of std: the result is a function of
/// the bytes alone, and on valid UTF-8 input it is exactly the UTF-8
/// decoding of the bytes.
#[verifier::external_body]
fn utf8_lossy_exec(bytes: &[u8]) -> (r: String)
    ensures
        r@ == utf8_lossy(bytes@),
        vstd::utf8::valid_utf8(bytes@) ==> r@ == vstd::utf8::decode_utf8(bytes@),
{
    String::from_utf8_lossy(bytes).into_owned()
}

impl HttpRequest {
    /// Assembles a request, deriving the connection mode from the headers.
    pub fn new(line: RequestLine, headers: Headers, body: Vec<u8>) -> (r: Self)
        ensures
            r@.line == line@,
            r@.headers == headers@,
            r@.connection == spec_connection(headers@),
            r@.body == body@,
    {
        let connection = match headers.get("Connection") {
            Some(v) => v.clone(),
            None => "keep-alive".to_owned(),
        };
        Self { line, headers, connection, body }
    }

    /// Parses the header lines before the first empty line into a mapping.
    fn parse_headers(header_lines: &[String]) -> (r: Result<Headers, HttpError>)
        ensures
            match r {
                Ok(h) => spec_parse_headers(views(header_lines@)) == Ok::<
                    Seq<(Seq<char>, Seq<char>)>,
                    HttpError,
                >(h@),
                Err(e) => spec_parse_headers(views(header_lines@)) == Err::<
                    Seq<(Seq<char>, Seq<char>)>,
                    HttpError,
                >(e),
            },
    {
        let ghost lines = views(header_lines@);
        let n = header_lines.len();
        let mut headers = Headers::new();
        let mut i: usize = 0;
        proof {
            assert(lines.take(0) =~= Seq::<Seq<char>>::empty());
        }
        while i < n
            invariant
                0 <= i <= n,
                n == header_lines@.len(),
                lines == views(header_lines@),
                forall|k: int| 0 <= k < i ==> #[trigger] lines[k].len() > 0,
                spec_fold_headers(lines.take(i as int)) == Ok::<
                    Seq<(Seq<char>, Seq<char>)>,
                    HttpError,
                >(headers@),
            decreases n - i,
        {
            let line = header_lines[i].as_str();
            if line.is_empty() {
                proof {
                    lemma_header_prefix_len_is(lines, i as int);
                }
                return Ok(headers);
            }
            proof {
                assert(lines.take(i + 1).drop_last() =~= lines.take(i as int));
                assert(lines.take(i + 1).last() == lines[i as int]);
            }
            match find_sep2(line, ':', ' ') {
                None => {
                    proof {
                        lemma_header_prefix_len_is_ge(lines, i + 1);
                        lemma_fold_headers_err(
                            lines,
                            i + 1,
                            header_prefix_len(lines),
                        );
                    }
                    return Err(HttpError::MissingHeaderValue);
                },
                Some(j) => {
                    if j == 0 {
                        proof {
                            lemma_header_prefix_len_is_ge(lines, i + 1);
                            lemma_fold_headers_err(
                                lines,
                                i + 1,
                                header_prefix_len(lines),
                            );
                        }
                        return Err(HttpError::MissingHeaderKey);
                    }
                    proof {
                        crate::strutil::lemma_first_sep2_from_bounds(line@, ':', ' ', 0);
                    }
                    let ln = line.unicode_len();
                    let key = line.substring_char(0, j);
                    let value = line.substring_char(j + 2, ln);
                    proof {
                        assert(value@ =~= line@.skip(j + 2));
                    }
                    headers.insert(key, value);
                },
            }
            i = i + 1;
        }
        proof {
            lemma_header_prefix_len_is(lines, n as int);
            assert(lines.take(n as int) =~= lines);
        }
        Ok(headers)
    }

    /// Checks the body lines against the `Content-Length` header and
    /// yields the body bytes.
    fn parse_body(headers: &Headers, body_lines: &[String]) -> (r: Result<Vec<u8>, HttpError>)
        ensures
            match r {
                Ok(b) => spec_parse_body(headers@, views(body_lines@)) == Ok::<
                    Seq<u8>,
                    HttpError,
                >(b@),
                Err(e) => spec_parse_body(headers@, views(body_lines@)) == Err::<
                    Seq<u8>,
                    HttpError,
                >(e),
            },
    {
        let clv = match headers.get("Content-Length") {
            None => {
                return Ok(Vec::new());
            },
            Some(v) => v,
        };
        let content_length = match parse_usize(clv.as_str()) {
            None => {
                return Err(HttpError::InvalidContentLength);
            },
            Some(v) => v,
        };
        if content_length == 0 {
            return Ok(Vec::new());
        }
        let joined = join_crlf(body_lines);
        let body = joined.as_str().as_bytes_vec();
        if body.len() != content_length {
            return Err(HttpError::InvalidContentLength);
        }
        Ok(body)
    }

    /// Parses a request from its request line, header lines and body lines.
    pub fn from_lines(request_line: &str, header_lines: &[String], body_lines: &[String]) -> (r:
        Result<Self, HttpError>)
        ensures
            parse_models(r, spec_parse_lines(request_line@, views(header_lines@), views(body_lines@))),
    {
        let line = match RequestLine::from_line(request_line) {
            Err(e) => {
                return Err(e);
            },
            Ok(l) => l,
        };
        let headers = match Self::parse_headers(header_lines) {
            Err(e) => {
                return Err(e);
            },
            Ok(h) => h,
        };
        let body = match Self::parse_body(&headers, body_lines) {
            Err(e) => {
                return Err(e);
            },
            Ok(b) => b,
        };
        Ok(Self::new(line, headers, body))
    }

    /// Parses a request from a sequence of lines: request line first, then
    /// headers up to the first empty line, then the body.
    pub fn from_strings(strings: &[String]) -> (r: Result<Self, HttpError>)
        ensures
            parse_models(r, spec_parse_strings(views(strings@))),
    {
        let ghost lines = views(strings@);
        let n = strings.len();
        if n == 0 {
            return Err(HttpError::MissingRequestLine);
        }
        let mut b: usize = 1;
        while b < n && !strings[b].as_str().is_empty()
            invariant
                1 <= b <= n,
                n == strings@.len(),
                lines == views(strings@),
                forall|k: int| 1 <= k < b ==> #[trigger] lines[k].len() > 0,
            decreases n - b,
        {
            b = b + 1;
        }
        proof {
            let rest = lines.drop_first();
            assert(forall|k: int| 0 <= k < b - 1 ==> #[trigger] rest[k].len() > 0);
            lemma_header_prefix_len_is(rest, b - 1);
        }
        let header_lines = clone_range(strings, 1, b);
        let body_lines = if b < n {
            clone_range(strings, b + 1, n)
        } else {
            Vec::new()
        };
        proof {
            if b >= n {
                assert(views(body_lines@) =~= Seq::<Seq<char>>::empty());
            }
        }
        let r = Self::from_lines(strings[0].as_str(), header_lines.as_slice(), body_lines.as_slice());
        proof {
            let rest = lines.drop_first();
            let hn = header_prefix_len(rest);
            assert(hn == b - 1);
            assert(views(header_lines@) =~= rest.take(hn));
            assert(views(body_lines@) =~= tail_from(rest, hn + 1));
            assert(lines[0] == strings@[0]@);
        }
        r
    }

    /// Parses a request from one string, splitting it on CRLF.
    pub fn from_string(string: &str) -> (r: Result<Self, HttpError>)
        ensures
            parse_models(r, spec_parse_request(string@)),
    {
        let lines = split2_exec(string, '\r', '\n');
        Self::from_strings(lines.as_slice())
    }

    /// Parses a request from raw bytes, read as UTF-8 with invalid
    /// sequences replaced.
    pub fn from_bytes(bytes: &[u8]) -> (r: Result<Self, HttpError>)
        ensures
            parse_models(r, spec_parse_request(utf8_lossy(bytes@))),
            vstd::utf8::valid_utf8(bytes@) ==> parse_models(
                r,
                spec_parse_request(vstd::utf8::decode_utf8(bytes@)),
            ),
    {
        let string = utf8_lossy_exec(bytes);
        Self::from_string(string.as_str())
    }
}

// ---------------------------------------------------------------------------
// Responses.
// ---------------------------------------------------------------------------

/// The model of a response.
pub struct RespView {
    pub status: StatusCode,
    pub headers: Seq<(Seq<char>, Seq<char>)>,
    pub body: Seq<u8>,
}

/// An HTTP response: a status, headers, and the logical body. The
/// `Content-Length` header is never stored here; serialization computes it
/// from the bytes actually transmitted.
#[derive(Debug)]
pub struct HttpResponse {
    pub status_code: StatusCode,
    pub headers: Headers,
    pub body: Vec<u8>,
}

impl View for HttpResponse {
    type V = RespView;

    open spec fn view(&self) -> RespView {
        (RespView { status: self.status_code, headers: self.headers@, body: self.body@ })
    }
}

/// The text of the serialized header lines, one `name: value` line per
/// pair, each ending in CRLF, in order.
pub open spec fn header_lines_text(h: Seq<(Seq<char>, Seq<char>)>) -> Seq<char>
    decreases h.len(),
{
    if h.len() == 0 {
        Seq::empty()
    } else {
        header_lines_text(h.drop_last()) + h.last().0 + ": "@ + h.last().1 + "\r\n"@
    }
}

/// The status line of a response.
pub open spec fn spec_status_line(status: StatusCode) -> Seq<char> {
    "HTTP/1.1 "@ + status_text(status) + "\r\n"@
}

/// The status line followed by the serialized headers.
pub open spec fn spec_response_head(status: StatusCode, headers: Seq<(Seq<char>, Seq<char>)>) -> Seq<
    char,
> {
    spec_status_line(status) + header_lines_text(headers)
}

/// Do the headers ask for a gzip-compressed body?
pub open spec fn gzip_requested(headers: Seq<(Seq<char>, Seq<char>)>) -> bool {
    hmap(headers).contains_key("Content-Encoding"@) && hmap(headers)["Content-Encoding"@]
        == "gzip"@
}

/// The bytes that flate2's gzip encoder, at the default compression level,
/// produces for `b`.
pub uninterp spec fn gzip_of(b: Seq<u8>) -> Seq<u8>;

/// The bytes a response's body is transmitted as: the gzip compression of
/// the body when the headers ask for it, the body itself otherwise.
pub open spec fn spec_out_body(headers: Seq<(Seq<char>, Seq<char>)>, body: Seq<u8>) -> Seq<u8> {
    if gzip_requested(headers) {
        gzip_of(body)
    } else {
        body
    }
}

/// The serialized bytes of a response whose transmitted body is `out`: the
/// head, then for a non-empty logical body a `Content-Length` line holding
/// the transmitted length, the blank line, and the transmitted bytes. An
/// empty logical body gets no `Content-Length` and no body bytes.
pub open spec fn spec_response_bytes(
    status: StatusCode,
    headers: Seq<(Seq<char>, Seq<char>)>,
    body: Seq<u8>,
    out: Seq<u8>,
) -> Seq<u8> {
    if body.len() == 0 {
        vstd::utf8::encode_utf8(spec_response_head(status, headers) + "\r\n"@)
    } else {
        vstd::utf8::encode_utf8(
            spec_response_head(status, headers) + "Content-Length: "@ + dec_of(out.len())
                + "\r\n\r\n"@,
        ) + out
    }
}

/// Relies on flate2's `write::GzEncoder` with `Compression::default()`:
/// the compressed stream is a function of the input bytes alone — the
/// gzip header it writes carries a zero time stamp and a fixed
/// operating-system byte, for reproducible output.
#[verifier::external_body]
fn gzip_compress(body: &Vec<u8>) -> (r: Option<Vec<u8>>)
    ensures
        r is Some ==> r->0@ == gzip_of(body@),
{
    let mut enc = flate2::write::GzEncoder::new(Vec::new(), flate2::Compression::default());
    if std::io::Write::write_all(&mut enc, body.as_slice()).is_err() {
        return None;
    }
    enc.finish().ok()
}

impl HttpResponse {
    /// Builds a response from its parts.
    pub fn new(status_code: StatusCode, body: &[u8], headers: Headers) -> (r: Self)
        ensures
            r@.status == status_code,
            r@.headers == headers@,
            r@.body == body@,
    {
        Self { status_code, headers, body: vstd::slice::slice_to_vec(body) }
    }

    /// A 200 OK response.
    pub fn ok(body: &[u8], headers: Headers) -> (r: Self)
        ensures
            r@.status == StatusCode::OK,
            r@.headers == headers@,
            r@.body == body@,
    {
        Self::new(StatusCode::OK, body, headers)
    }

    /// A bare response: the given status, no headers, no body.
    pub fn from_status_code(status_code: StatusCode) -> (r: Self)
        ensures
            r@.status == status_code,
            r@.headers == Seq::<(Seq<char>, Seq<char>)>::empty(),
            r@.body == Seq::<u8>::empty(),
    {
        let r = Self::new(status_code, &[], Headers::new());
        proof {
            assert(r@.body =~= Seq::<u8>::empty());
        }
        r
    }

    /// A 201 Created response.
    pub fn created() -> (r: Self)
        ensures
            r@.status == StatusCode::CREATED,
            r@.headers == Seq::<(Seq<char>, Seq<char>)>::empty(),
            r@.body == Seq::<u8>::empty(),
    {
        Self::from_status_code(StatusCode::CREATED)
    }

    /// A 404 Not Found response.
    pub fn not_found() -> (r: Self)
        ensures
            r@.status == StatusCode::NOT_FOUND,
            r@.headers == Seq::<(Seq<char>, Seq<char>)>::empty(),
            r@.body == Seq::<u8>::empty(),
    {
        Self::from_status_code(StatusCode::NOT_FOUND)
    }

    /// A 405 Method Not Allowed response.
    pub fn method_not_allowed() -> (r: Self)
        ensures
            r@.status == StatusCode::NOT_ALLOWED,
            r@.headers == Seq::<(Seq<char>, Seq<char>)>::empty(),
            r@.body == Seq::<u8>::empty(),
    {
        Self::from_status_code(StatusCode::NOT_ALLOWED)
    }

    /// A 500 Internal Server Error response.
    pub fn internal_server_error() -> (r: Self)
        ensures
            r@.status == StatusCode::INTERNAL_SERVER_ERROR,
            r@.headers == Seq::<(Seq<char>, Seq<char>)>::empty(),
            r@.body == Seq::<u8>::empty(),
    {
        Self::from_status_code(StatusCode::INTERNAL_SERVER_ERROR)
    }

    /// The bytes this response's body is transmitted as; `None` only when
    /// the headers ask for gzip and the encoder fails.
    fn encode_body_content(&self) -> (r: Option<Vec<u8>>)
        ensures
            r is Some ==> r->0@ == spec_out_body(self.headers@, self.body@),
            !gzip_requested(self.headers@) ==> r is Some,
    {
        match self.headers.get("Content-Encoding") {
            Some(v) => {
                if str_eq(v.as_str(), "gzip") {
                    gzip_compress(&self.body)
                } else {
                    Some(vstd::slice::slice_to_vec(self.body.as_slice()))
                }
            },
            None => Some(vstd::slice::slice_to_vec(self.body.as_slice())),
        }
    }

    /// Serializes this response around the given transmitted body bytes:
    /// total, and exact for every value the encoder may hand back.
    pub fn to_bytes_with(&self, out: &Vec<u8>) -> (r: Vec<u8>)
        ensures
            r@ == spec_response_bytes(self.status_code, self.headers@, self.body@, out@),
    {
        let ghost hs = self.headers@;
        let mut head = String::new();
        head.append("HTTP/1.1 ");
        head.append(self.status_code.as_str());
        head.append("\r\n");
        proof {
            assert(head@ =~= spec_status_line(self.status_code) + header_lines_text(hs.take(0)));
        }
        let n = self.headers.len();
        let mut i: usize = 0;
        while i < n
            invariant
                0 <= i <= n,
                n == hs.len(),
                hs == self.headers@,
                head@ == spec_status_line(self.status_code) + header_lines_text(hs.take(i as int)),
            decreases n - i,
        {
            head.append(self.headers.key_at(i).as_str());
            head.append(": ");
            head.append(self.headers.val_at(i).as_str());
            head.append("\r\n");
            proof {
                assert(hs.take(i + 1).drop_last() =~= hs.take(i as int));
                assert(hs.take(i + 1).last() == hs[i as int]);
                assert(head@ =~= spec_status_line(self.status_code) + header_lines_text(
                    hs.take(i + 1),
                ));
            }
            i = i + 1;
        }
        proof {
            assert(hs.take(n as int) =~= hs);
        }
        if self.body.len() == 0 {
            head.append("\r\n");
            let bytes = head.as_str().as_bytes_vec();
            return bytes;
        }
        head.append("Content-Length: ");
        push_dec(&mut head, out.len());
        head.append("\r\n\r\n");
        let mut bytes = head.as_str().as_bytes_vec();
        proof {
            assert(head@ =~= spec_response_head(self.status_code, hs) + "Content-Length: "@
                + dec_of(out@.len()) + "\r\n\r\n"@);
        }
        let mut tail = vstd::slice::slice_to_vec(out.as_slice());
        bytes.append(&mut tail);
        bytes
    }

    /// Serializes this response to wire bytes; `None` only when the
    /// headers ask for gzip and the encoder fails.
    pub fn to_bytes(&self) -> (r: Option<Vec<u8>>)
        ensures
            !gzip_requested(self.headers@) ==> r is Some,
            r is Some ==> r->0@ == spec_response_bytes(
                self.status_code,
                self.headers@,
                self.body@,
                spec_out_body(self.headers@, self.body@),
            ),
    {
        match self.encode_body_content() {
            None => None,
            Some(out) => Some(self.to_bytes_with(&out)),
        }
    }

    /// Serializes this response and reads the bytes back as text, with
    /// invalid UTF-8 sequences replaced; `None` only when the headers ask
    /// for gzip and the encoder fails.
    pub fn to_string(&self) -> (r: Option<String>)
        ensures
            !gzip_requested(self.headers@) ==> r is Some,
            r is Some ==> r->0@ == utf8_lossy(
                spec_response_bytes(
                    self.status_code,
                    self.headers@,
                    self.body@,
                    spec_out_body(self.headers@, self.body@),
                ),
            ),
    {
        match self.to_bytes() {
            None => None,
            Some(b) => Some(utf8_lossy_exec(b.as_slice())),
        }
    }
}

// ---------------------------------------------------------------------------
// Request serialization and the parse/serialize round trip.
// ---------------------------------------------------------------------------

/// The text of one serialized header line, without its CRLF.
pub open spec fn header_line_text(kv: (Seq<char>, Seq<char>)) -> Seq<char> {
    kv.0 + ": "@ + kv.1
}

/// The serialized header lines, one per pair, without their CRLFs.
pub open spec fn lines_of(h: Seq<(Seq<char>, Seq<char>)>) -> Seq<Seq<char>> {
    Seq::new(h.len(), |i: int| header_line_text(h[i]))
}

/// The head of a serialized request: request line, header lines, and the
/// blank line, each ending in CRLF.
pub open spec fn spec_request_head(v: ReqView) -> Seq<char> {
    v.line.method + " "@ + v.line.path + " "@ + v.line.version + "\r\n"@ + header_lines_text(
        v.headers,
    ) + "\r\n"@
}

/// The characters of a serialized request: the head followed by the body
/// read as UTF-8.
pub open spec fn spec_request_chars(v: ReqView) -> Seq<char> {
    spec_request_head(v) + vstd::utf8::decode_utf8(v.body)
}

/// The bytes of a serialized request.
pub open spec fn spec_request_bytes(v: ReqView) -> Seq<u8> {
    vstd::utf8::encode_utf8(spec_request_head(v)) + v.body
}

/// A non-empty token without whitespace.
pub open spec fn token_ok(t: Seq<char>) -> bool {
    t.len() > 0 && (forall|k: int| 0 <= k < t.len() ==> !is_ws(t[k]))
}

/// A header name the wire format carries faithfully: non-empty, without
/// the `": "` separator, without CRLF.
pub open spec fn header_name_ok(k: Seq<char>) -> bool {
    k.len() > 0 && !has_sep2(k, ':', ' ') && !has_sep2(k, '\r', '\n')
}

/// A header value the wire format carries faithfully: without CRLF.
pub open spec fn header_value_ok(vv: Seq<char>) -> bool {
    !has_sep2(vv, '\r', '\n')
}

/// The `Content-Length` header matches the body: present with the body's
/// length as its value for a non-empty body, absent or zero-valued for an
/// empty one.
pub open spec fn content_length_ok(v: ReqView) -> bool {
    let m = hmap(v.headers);
    if m.contains_key("Content-Length"@) {
        let clv = m["Content-Length"@];
        clv.len() > 0 && all_digits(clv) && digits_val(clv) <= usize::MAX && digits_val(clv)
            == v.body.len()
    } else {
        v.body.len() == 0
    }
}

/// A request model the wire format can carry faithfully: non-empty
/// whitespace-free tokens, the `HTTP/1.1` version, unique well-formed
/// header names, CRLF-free header values, a valid-UTF-8 body whose length
/// the `Content-Length` header states, and the connection mode the headers
/// derive.
pub open spec fn req_wf(v: ReqView) -> bool {
    &&& token_ok(v.line.method)
    &&& token_ok(v.line.path)
    &&& v.line.version == "HTTP/1.1"@
    &&& keys_unique(v.headers)
    &&& (forall|i: int|
        0 <= i < v.headers.len() ==> header_name_ok(#[trigger] v.headers[i].0) && header_value_ok(
            v.headers[i].1,
        ))
    &&& vstd::utf8::valid_utf8(v.body)
    &&& content_length_ok(v)
    &&& v.connection == spec_connection(v.headers)
}

/// UTF-8 encoding distributes over concatenation.
pub proof fn lemma_encode_utf8_concat(a: Seq<char>, b: Seq<char>)
    ensures
        vstd::utf8::encode_utf8(a + b) == vstd::utf8::encode_utf8(a) + vstd::utf8::encode_utf8(b),
    decreases a.len(),
{
    if a.len() == 0 {
        assert(a + b =~= b);
        assert(vstd::utf8::encode_utf8(a) + vstd::utf8::encode_utf8(b) =~= vstd::utf8::encode_utf8(
            b,
        ));
    } else {
        lemma_encode_utf8_concat(a.drop_first(), b);
        assert((a + b).drop_first() =~= a.drop_first() + b);
        assert((a + b)[0] == a[0]);
        assert(vstd::utf8::encode_utf8(a + b) =~= vstd::utf8::encode_utf8(a)
            + vstd::utf8::encode_utf8(b));
    }
}

/// Parsing the serialized form of one header line yields its pair back.
proof fn lemma_parse_header_line_of(k: Seq<char>, vv: Seq<char>)
    requires
        k.len() > 0,
        !has_sep2(k, ':', ' '),
    ensures
        spec_parse_header_line(header_line_text((k, vv))) == Ok::<(Seq<char>, Seq<char>), HttpError>(
            (k, vv),
        ),
{
    reveal_strlit(": ");
    let line = header_line_text((k, vv));
    let n = k.len() as int;
    assert(line[n] == ':' && line[n + 1] == ' ');
    assert(sep2_at(line, ':', ' ', n));
    assert forall|j: int| 0 <= j < n implies !sep2_at(line, ':', ' ', j) by {
        if j + 2 <= n {
            assert(!sep2_at(k, ':', ' ', j));
            assert(line[j] == k[j] && line[j + 1] == k[j + 1]);
        } else {
            assert(line[j + 1] == ':');
        }
    }
    lemma_first_sep2_from_exact(line, ':', ' ', 0, n);
    assert(line.subrange(0, n) =~= k);
    assert(line.skip(n + 2) =~= vv);
}

/// A well-formed header line is free of CRLF.
proof fn lemma_header_line_no_crlf(k: Seq<char>, vv: Seq<char>)
    requires
        !has_sep2(k, '\r', '\n'),
        !has_sep2(vv, '\r', '\n'),
    ensures
        !has_sep2(header_line_text((k, vv)), '\r', '\n'),
{
    reveal_strlit(": ");
    assert(!has_sep2(": "@, '\r', '\n')) by {
        assert forall|j: int| !sep2_at(": "@, '\r', '\n', j) by {
            if 0 <= j && j + 2 <= 2 {
                assert(": "@[0] == ':');
            }
        }
    }
    lemma_no_sep2_concat(k, ": "@, '\r', '\n');
    assert((k + ": "@).last() == ' ');
    lemma_no_sep2_concat(k + ": "@, vv, '\r', '\n');
    assert(header_line_text((k, vv)) =~= (k + ": "@) + vv);
}

/// The serialized header lines unfold from the left.
proof fn lemma_hlt_left(h: Seq<(Seq<char>, Seq<char>)>)
    requires
        h.len() > 0,
    ensures
        header_lines_text(h) == header_line_text(h[0]) + "\r\n"@ + header_lines_text(
            h.drop_first(),
        ),
    decreases h.len(),
{
    if h.len() == 1 {
        assert(h.drop_last() =~= Seq::<(Seq<char>, Seq<char>)>::empty());
        assert(h.drop_first() =~= Seq::<(Seq<char>, Seq<char>)>::empty());
        assert(h.last() == h[0]);
        assert(header_lines_text(h) =~= header_line_text(h[0]) + "\r\n"@ + header_lines_text(
            h.drop_first(),
        ));
    } else {
        lemma_hlt_left(h.drop_last());
        assert(h.drop_last()[0] == h[0]);
        assert(h.drop_last().drop_first() =~= h.drop_first().drop_last());
        assert(h.drop_first().last() == h.last());
        assert(header_lines_text(h.drop_first()) == header_lines_text(h.drop_first().drop_last())
            + header_line_text(h.drop_first().last()) + "\r\n"@);
        assert(header_lines_text(h) =~= header_line_text(h[0]) + "\r\n"@ + header_lines_text(
            h.drop_first(),
        ));
    }
}

/// Splitting the serialized header lines followed by any tail peels off
/// exactly the lines.
proof fn lemma_split2_header_lines(h: Seq<(Seq<char>, Seq<char>)>, tail: Seq<char>)
    requires
        forall|i: int|
            0 <= i < h.len() ==> header_name_ok(#[trigger] h[i].0) && header_value_ok(h[i].1),
    ensures
        split2(header_lines_text(h) + tail, '\r', '\n') == lines_of(h) + split2(tail, '\r', '\n'),
    decreases h.len(),
{
    if h.len() == 0 {
        assert(header_lines_text(h) + tail =~= tail);
        assert(lines_of(h) + split2(tail, '\r', '\n') =~= split2(tail, '\r', '\n'));
    } else {
        lemma_hlt_left(h);
        let line0 = header_line_text(h[0]);
        lemma_header_line_no_crlf(h[0].0, h[0].1);
        reveal_strlit("\r\n");
        assert("\r\n"@ =~= seq!['\r', '\n']);
        let rest_text = header_lines_text(h.drop_first()) + tail;
        assert(header_lines_text(h) + tail =~= line0 + seq!['\r', '\n'] + rest_text);
        lemma_split2_prefix(line0, rest_text, '\r', '\n');
        lemma_split2_header_lines(h.drop_first(), tail);
        assert(lines_of(h) =~= seq![line0] + lines_of(h.drop_first()));
        assert(split2(header_lines_text(h) + tail, '\r', '\n') =~= lines_of(h) + split2(
            tail,
            '\r',
            '\n',
        ));
    }
}

/// Folding the serialized lines of a unique-named header list restores
/// the list.
proof fn lemma_fold_header_lines(h: Seq<(Seq<char>, Seq<char>)>)
    requires
        keys_unique(h),
        forall|i: int|
            0 <= i < h.len() ==> header_name_ok(#[trigger] h[i].0) && header_value_ok(h[i].1),
    ensures
        spec_fold_headers(lines_of(h)) == Ok::<Seq<(Seq<char>, Seq<char>)>, HttpError>(h),
    decreases h.len(),
{
    if h.len() == 0 {
        assert(lines_of(h) =~= Seq::<Seq<char>>::empty());
        assert(h =~= Seq::<(Seq<char>, Seq<char>)>::empty());
    } else {
        let hd = h.drop_last();
        assert(keys_unique(hd)) by {
            assert forall|i: int, j: int| 0 <= i < j < hd.len() implies hd[i].0 != hd[j].0 by {
                assert(hd[i] == h[i] && hd[j] == h[j]);
            }
        }
        assert forall|i: int|
            0 <= i < hd.len() implies header_name_ok(#[trigger] hd[i].0) && header_value_ok(
            hd[i].1,
        ) by {
            assert(hd[i] == h[i]);
            assert(header_name_ok(h[i].0) && header_value_ok(h[i].1));
        }
        lemma_fold_header_lines(hd);
        assert(lines_of(h).drop_last() =~= lines_of(hd));
        assert(lines_of(h).last() == header_line_text(h.last()));
        assert(h.last() == h[h.len() - 1]);
        assert(header_name_ok(h[h.len() - 1].0));
        lemma_parse_header_line_of(h.last().0, h.last().1);
        assert(h.last() == (h.last().0, h.last().1));
        assert forall|i: int| 0 <= i < hd.len() implies hd[i].0 != h.last().0 by {
            assert(hd[i] == h[i]);
            assert(h[i].0 != h[h.len() - 1].0);
        }
        lemma_assoc_insert_absent(hd, h.last().0, h.last().1);
        assert(hd.push((h.last().0, h.last().1)) =~= h);
        assert(spec_fold_headers(lines_of(h).drop_last()) == Ok::<
            Seq<(Seq<char>, Seq<char>)>,
            HttpError,
        >(hd));
        assert(spec_parse_header_line(lines_of(h).last()) == Ok::<
            (Seq<char>, Seq<char>),
            HttpError,
        >((h.last().0, h.last().1)));
        assert(lines_of(h).len() == h.len());
        assert(spec_fold_headers(lines_of(h)) == Ok::<Seq<(Seq<char>, Seq<char>)>, HttpError>(
            assoc_insert(hd, h.last().0, h.last().1),
        ));
        assert(assoc_insert(hd, h.last().0, h.last().1) == h);
    }
}

/// Round trip: a well-formed request survives serialization and parsing
/// unchanged — over the characters, and over the wire bytes, which are
/// valid UTF-8 and decode to those characters.
pub proof fn lemma_request_round_trip(v: ReqView)
    requires
        req_wf(v),
    ensures
        spec_parse_request(spec_request_chars(v)) == Ok::<ReqView, HttpError>(v),
        vstd::utf8::valid_utf8(spec_request_bytes(v)),
        vstd::utf8::decode_utf8(spec_request_bytes(v)) == spec_request_chars(v),
        spec_parse_request(vstd::utf8::decode_utf8(spec_request_bytes(v))) == Ok::<
            ReqView,
            HttpError,
        >(v),
{
    reveal_strlit(" ");
    reveal_strlit("\r\n");
    reveal_strlit("HTTP/1.1");
    let m = v.line.method;
    let p = v.line.path;
    let ver = v.line.version;
    let d = vstd::utf8::decode_utf8(v.body);
    let line = m + " "@ + p + " "@ + ver;
    let s = spec_request_chars(v);
    // The request line splits into its three tokens.
    assert(token_ok(ver)) by {
        assert(ver.len() == 8);
        assert forall|k: int| 0 <= k < ver.len() implies !is_ws(ver[k]) by {
            if k == 0 {
            } else if k == 1 {
            } else if k == 2 {
            } else if k == 3 {
            } else if k == 4 {
            } else if k == 5 {
            } else if k == 6 {
            } else {
                assert(k == 7);
            }
        }
    }
    assert(" "@ =~= seq![' ']);
    let r2 = seq![' '] + ver;
    let r3 = p + r2;
    let r4 = seq![' '] + r3;
    assert(line =~= m + r4);
    assert(ver + Seq::<char>::empty() =~= ver);
    lemma_split_ws_token(ver, Seq::<char>::empty());
    assert(split_ws(Seq::<char>::empty()) =~= Seq::<Seq<char>>::empty());
    lemma_split_ws_space(' ', ver);
    lemma_split_ws_token(p, r2);
    lemma_split_ws_space(' ', r3);
    lemma_split_ws_token(m, r4);
    assert(split_ws(line) =~= seq![m, p, ver]);
    assert(spec_parse_request_line(line) == Ok::<LineView, HttpError>(v.line));
    // The request line holds no carriage return, hence no CRLF.
    assert(!has_sep2(line, '\r', '\n')) by {
        let lm = m.len() as int;
        let lp = p.len() as int;
        assert forall|j: int| !sep2_at(line, '\r', '\n', j) by {
            if 0 <= j && j + 2 <= line.len() {
                assert(is_ws('\r'));
                if j < lm {
                    assert(line[j] == m[j]);
                } else if j == lm {
                    assert(line[j] == ' ');
                } else if j < lm + 1 + lp {
                    assert(line[j] == p[j - lm - 1]);
                } else if j == lm + 1 + lp {
                    assert(line[j] == ' ');
                } else {
                    assert(line[j] == ver[j - lm - lp - 2]);
                }
            }
        }
    }
    // Split the serialized characters into lines.
    let hlt = header_lines_text(v.headers);
    let rest1 = hlt + ("\r\n"@ + d);
    assert(s =~= line + seq!['\r', '\n'] + rest1);
    lemma_split2_prefix(line, rest1, '\r', '\n');
    lemma_split2_header_lines(v.headers, "\r\n"@ + d);
    assert(!has_sep2(Seq::<char>::empty(), '\r', '\n')) by {
        assert(forall|j: int| !sep2_at(Seq::<char>::empty(), '\r', '\n', j));
    }
    assert("\r\n"@ + d =~= Seq::<char>::empty() + seq!['\r', '\n'] + d);
    lemma_split2_prefix(Seq::<char>::empty(), d, '\r', '\n');
    let dsplit = split2(d, '\r', '\n');
    let lines = split2(s, '\r', '\n');
    assert(lines =~= seq![line] + lines_of(v.headers) + seq![Seq::<char>::empty()] + dsplit);
    // The line structure: request line, header lines, blank, body lines.
    let hn = v.headers.len() as int;
    let rest = lines.drop_first();
    assert(rest =~= lines_of(v.headers) + seq![Seq::<char>::empty()] + dsplit);
    assert forall|k: int| 0 <= k < hn implies #[trigger] rest[k].len() > 0 by {
        assert(rest[k] == header_line_text(v.headers[k]));
        assert(v.headers[k].0.len() > 0);
    }
    assert(rest[hn].len() == 0);
    lemma_header_prefix_len_is(rest, hn);
    assert(rest.take(hn) =~= lines_of(v.headers));
    // The header lines parse back to the header list.
    let hl = lines_of(v.headers);
    lemma_fold_header_lines(v.headers);
    assert forall|k: int| 0 <= k < hn implies #[trigger] hl[k].len() > 0 by {
        assert(hl[k] == header_line_text(v.headers[k]));
        assert(v.headers[k].0.len() > 0);
    }
    lemma_header_prefix_len_is(hl, hn);
    assert(hl.take(hn) =~= hl);
    assert(spec_parse_headers(hl) == Ok::<Seq<(Seq<char>, Seq<char>)>, HttpError>(v.headers));
    // The body lines rejoin to the body.
    let blines = tail_from(rest, hn + 1);
    assert(blines =~= dsplit);
    lemma_join2_split2(d, '\r', '\n');
    vstd::utf8::decode_utf8_encode_utf8(v.body);
    assert(vstd::utf8::encode_utf8(join2(blines, '\r', '\n')) == v.body);
    assert(spec_parse_body(v.headers, blines) == Ok::<Seq<u8>, HttpError>(v.body)) by {
        if hmap(v.headers).contains_key("Content-Length"@) {
            let clv = hmap(v.headers)["Content-Length"@];
            if digits_val(clv) == 0 {
                assert(v.body.len() == 0);
                assert(Seq::<u8>::empty() =~= v.body);
            }
        } else {
            assert(Seq::<u8>::empty() =~= v.body);
        }
    }
    // Assemble.
    assert(spec_parse_strings(lines) == Ok::<ReqView, HttpError>(v));
    // The wire bytes are the UTF-8 encoding of the characters.
    lemma_encode_utf8_concat(spec_request_head(v), d);
    assert(spec_request_bytes(v) =~= vstd::utf8::encode_utf8(s));
    vstd::utf8::encode_utf8_valid_utf8(s);
    vstd::utf8::encode_utf8_decode_utf8(s);
}

impl HttpRequest {
    /// Serializes this request to wire bytes, for building test fixtures
    /// and exercising the parser: head as UTF-8 text, body verbatim.
    pub fn to_request_bytes(&self) -> (r: Vec<u8>)
        ensures
            r@ == spec_request_bytes(self@),
    {
        let ghost hs = self.headers@;
        let mut head = String::new();
        head.append(self.line.method.as_str());
        head.append(" ");
        head.append(self.line.path.as_str());
        head.append(" ");
        head.append(self.line.version.as_str());
        head.append("\r\n");
        proof {
            assert(head@ =~= self.line@.method + " "@ + self.line@.path + " "@ + self.line@.version
                + "\r\n"@ + header_lines_text(hs.take(0)));
        }
        let n = self.headers.len();
        let mut i: usize = 0;
        while i < n
            invariant
                0 <= i <= n,
                n == hs.len(),
                hs == self.headers@,
                head@ == self.line@.method + " "@ + self.line@.path + " "@ + self.line@.version
                    + "\r\n"@ + header_lines_text(hs.take(i as int)),
            decreases n - i,
        {
            head.append(self.headers.key_at(i).as_str());
            head.append(": ");
            head.append(self.headers.val_at(i).as_str());
            head.append("\r\n");
            proof {
                assert(hs.take(i + 1).drop_last() =~= hs.take(i as int));
                assert(hs.take(i + 1).last() == hs[i as int]);
                assert(head@ =~= self.line@.method + " "@ + self.line@.path + " "@
                    + self.line@.version + "\r\n"@ + header_lines_text(hs.take(i + 1)));
            }
            i = i + 1;
        }
        head.append("\r\n");
        proof {
            assert(hs.take(n as int) =~= hs);
            assert(head@ =~= spec_request_head(self@));
        }
        let mut bytes = head.as_str().as_bytes_vec();
        let mut body = vstd::slice::slice_to_vec(self.body.as_slice());
        bytes.append(&mut body);
        bytes
    }
}

/// Clones the strings at positions `lo` up to `hi`.
fn clone_range(xs: &[String], lo: usize, hi: usize) -> (r: Vec<String>)
    requires
        lo <= hi <= xs@.len(),
    ensures
        views(r@) == views(xs@).subrange(lo as int, hi as int),
{
    let mut r: Vec<String> = Vec::new();
    let mut i: usize = lo;
    proof {
        assert(views(r@) =~= views(xs@).subrange(lo as int, lo as int));
    }
    while i < hi
        invariant
            lo <= i <= hi <= xs@.len(),
            views(r@) == views(xs@).subrange(lo as int, i as int),
        decreases hi - i,
    {
        let ghost r0 = r@;
        r.push(xs[i].clone());
        proof {
            assert(views(r0).len() == r0.len());
            assert(views(r0).len() == i - lo);
            assert(r@.len() == i + 1 - lo);
            assert forall|t: int| 0 <= t < r@.len() implies views(r@)[t] == views(xs@).subrange(
                lo as int,
                i + 1,
            )[t] by {
                assert(views(r@)[t] == r@[t]@);
                if t < r0.len() {
                    assert(r@[t] == r0[t]);
                    assert(views(r0)[t] == views(xs@).subrange(lo as int, i as int)[t]);
                    assert(views(r0)[t] == r0[t]@);
                } else {
                    assert(r@[t] == xs@[i as int]);
                    assert(views(xs@).subrange(lo as int, i + 1)[t] == xs@[i as int]@);
                }
            }
            assert(views(r@) =~= views(xs@).subrange(lo as int, i + 1));
        }
        i = i + 1;
    }
    r
}

/// A run of lines that reaches `n` without an empty one has at least `n`
/// header lines.
pub proof fn lemma_header_prefix_len_is_ge(lines: Seq<Seq<char>>, n: int)
    requires
        0 <= n <= lines.len(),
        forall|k: int| 0 <= k < n ==> #[trigger] lines[k].len() > 0,
    ensures
        header_prefix_len(lines) >= n,
        header_prefix_len(lines) <= lines.len(),
    decreases lines.len(),
{
    if lines.len() > 0 && lines[0].len() > 0 {
        if n > 0 {
            lemma_header_prefix_len_is_ge(lines.drop_first(), n - 1);
        } else {
            lemma_header_prefix_len_is_ge(lines.drop_first(), 0);
        }
    }
}

} // verus!
