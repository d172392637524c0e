//! The per-connection request/response cycle: one complete request's
//! bytes in, one response's bytes out, and the decision whether the
//! connection stays open. The blocking socket I/O around this lives with
//! the caller; everything here is the decision logic.

use vstd::prelude::*;
use vstd::string::*;
use crate::error::HttpError;
use crate::headers::hmap;
use crate::http::{
    gzip_requested, spec_out_body, spec_parse_request, spec_response_bytes, utf8_lossy,
    HttpRequest, ReqView,
};
use crate::router::{spec_resolve, spec_resolve_with, Resolution, Router};
use crate::storage::FileStorage;
use crate::strutil::str_eq;

verus! {

/// A running server: the address it binds and the router it dispatches
/// through.
#[derive(Debug)]
pub struct Server {
    pub addr: String,
    pub router: Router,
}

impl Server {
    /// A server for `addr`, dispatching through `router`.
    pub fn new(addr: &str, router: Router) -> (s: Server)
        ensures
            s.addr@ == addr@,
            s.router@ == router@,
    {
        Server { addr: addr.to_owned(), router }
    }
}

/// Does a parsed request keep its connection open for another request?
pub open spec fn spec_keep_alive(req: ReqView) -> bool {
    req.connection == "keep-alive"@
}

/// What one complete request's bytes decide: the resolution to perform
/// and whether to keep the connection, or `None` for a parse failure,
/// which closes the connection.
pub fn handle_bytes(router: &Router, bytes: &[u8]) -> (r: Option<(Resolution, bool)>)
    ensures
        match spec_parse_request(utf8_lossy(bytes@)) {
            Err(_) => r is None,
            Ok(v) => r is Some && ({
                let t = r->0;
                t.0@ == spec_resolve(router@, v) && t.1 == spec_keep_alive(v)
            }),
        },
{
    let request = match HttpRequest::from_bytes(bytes) {
        Err(_) => {
            return None;
        },
        Ok(q) => q,
    };
    let resolution = router.dispatch(&request);
    let keep = str_eq(request.connection.as_str(), "keep-alive");
    Some((resolution, keep))
}

/// One full request/response cycle against an in-memory storage: parse,
/// resolve, serialize. `None` with the storage unchanged for a parse
/// failure; after a successful parse the storage reflects the request,
/// and `None` can only mean the gzip encoder failed.
pub fn handle_request_bytes(router: &Router, storage: &mut FileStorage, bytes: &[u8]) -> (r:
    Option<(Vec<u8>, bool)>)
    ensures
        match spec_parse_request(utf8_lossy(bytes@)) {
            Err(_) => r is None && final(storage)@ == old(storage)@,
            Ok(v) => ({
                let rv = spec_resolve_with(router@, v, old(storage).as_map()).0;
                &&& final(storage).as_map() == spec_resolve_with(
                    router@,
                    v,
                    old(storage).as_map(),
                ).1
                &&& (!gzip_requested(rv.headers) ==> r is Some)
                &&& (r is Some ==> ({
                    let t = r->0;
                    t.0@ == spec_response_bytes(
                        rv.status,
                        rv.headers,
                        rv.body,
                        spec_out_body(rv.headers, rv.body),
                    ) && t.1 == spec_keep_alive(v)
                }))
            }),
        },
{
    let request = match HttpRequest::from_bytes(bytes) {
        Err(_) => {
            return None;
        },
        Ok(q) => q,
    };
    let response = router.resolve(&request, storage);
    let keep = str_eq(request.connection.as_str(), "keep-alive");
    match response.to_bytes() {
        None => None,
        Some(b) => Some((b, keep)),
    }
}

} // verus!
