use std::path::PathBuf;
use vstd::prelude::*;

verus! {

/// `std::path::PathBuf`, held opaque: a response that writes a file carries
/// one.
#[verifier::external_type_specification]
#[verifier::external_body]
pub struct ExPathBuf(PathBuf);

/// `std::io::Error`, held opaque: the failure to read a rendered page.
#[verifier::external_type_specification]
#[verifier::external_body]
pub struct ExIoError(std::io::Error);

/// The status that a statically rendered page is answered with.
#[derive(Debug, Clone, Copy, PartialEq, Eq, Structural)]
pub enum StaticStatusCode {
    OK,
    NotFound,
    InternalServerError,
}

/// What to do with a request for a statically rendered route.
#[derive(Debug)]
pub enum StaticResponse {
    ReturnResponse { body: String, status: StaticStatusCode, content_type: Option<&'static str> },
    RenderDynamic,
    RenderNotFound,
    WriteFile { body: String, path: PathBuf },
}

/// Why the file that holds a rendered page could not be read: it is not
/// there, or something else went wrong.
#[derive(Debug, Clone, Copy, PartialEq, Eq, Structural)]
pub enum ReadFailure {
    NotFound,
    Other,
}

/// The content type of a rendered page.
pub open spec fn html_type() -> Seq<char> {
    "text/html"@
}

/// Whether `r` answers with `body` and `status`, and with `content_type`
/// where one is given, none otherwise.
pub open spec fn responds(
    r: StaticResponse,
    body: Seq<char>,
    status: StaticStatusCode,
    content_type: Option<Seq<char>>,
) -> bool {
    match r {
        StaticResponse::ReturnResponse { body: b, status: s, content_type: c } => {
            &&& b@ == body
            &&& s == status
            &&& match (c, content_type) {
                (Some(x), Some(y)) => x@ == y,
                (None, None) => true,
                _ => false,
            }
        },
        _ => false,
    }
}

/// A page served as it was read, with `status`.
fn page(body: String, status: StaticStatusCode) -> (r: StaticResponse)
    ensures
        responds(r, body@, status, Some(html_type())),
{
    StaticResponse::ReturnResponse { body, status, content_type: Some("text/html") }
}

/// A short plain answer with `status`.
fn plain(text: &str, status: StaticStatusCode) -> (r: StaticResponse)
    ensures
        responds(r, text@, status, None),
{
    StaticResponse::ReturnResponse { body: String::from_str(text), status, content_type: None }
}

/// Whether the kind of `e` (`std::io::Error::kind`) is
/// `std::io::ErrorKind::NotFound`.
pub uninterp spec fn io_error_is_not_found(e: std::io::Error) -> bool;

/// `std::io::Error::kind`, told apart into a missing file (`NotFound`) and
/// anything else: the result is `NotFound` exactly where the kind of `e` is
/// `ErrorKind::NotFound`.
#[verifier::external_body]
fn read_failure_of(e: &std::io::Error) -> (f: ReadFailure)
    ensures
        (f == ReadFailure::NotFound) == io_error_is_not_found(*e),
{
    match e.kind() {
        std::io::ErrorKind::NotFound => ReadFailure::NotFound,
        _ => ReadFailure::Other,
    }
}

/// The answer to a request for a route rendered up front, from the outcome
/// of reading its file: the page; the not-found page where the file is
/// missing; an internal server error otherwise.
pub fn upfront_route_response(res: Result<String, ReadFailure>) -> (r: StaticResponse)
    ensures
        match res {
            Ok(body) => responds(r, body@, StaticStatusCode::OK, Some(html_type())),
            Err(ReadFailure::NotFound) => r is RenderNotFound,
            Err(ReadFailure::Other) => responds(
                r,
                "Internal Server Error"@,
                StaticStatusCode::InternalServerError,
                None,
            ),
        },
{
    match res {
        Ok(body) => page(body, StaticStatusCode::OK),
        Err(ReadFailure::NotFound) => StaticResponse::RenderNotFound,
        Err(ReadFailure::Other) => plain(
            "Internal Server Error",
            StaticStatusCode::InternalServerError,
        ),
    }
}

/// The answer to a request for a route rendered up front, from the outcome
/// of reading its file.
pub fn upfront_static_route(res: Result<String, std::io::Error>) -> (r: StaticResponse)
    ensures
        match res {
            Ok(body) => responds(r, body@, StaticStatusCode::OK, Some(html_type())),
            Err(e) => if io_error_is_not_found(e) {
                r is RenderNotFound
            } else {
                responds(r, "Internal Server Error"@, StaticStatusCode::InternalServerError, None)
            },
        },
{
    match res {
        Ok(body) => upfront_route_response(Ok(body)),
        Err(e) => upfront_route_response(Err(read_failure_of(&e))),
    }
}

/// The answer to a request that matched no route, from the outcome of
/// reading the file of the not-found page: that page with a not-found
/// status; a plain "Not Found" where the file is missing; an internal server
/// error otherwise.
pub fn not_found_page_response(res: Result<String, ReadFailure>) -> (r: StaticResponse)
    ensures
        match res {
            Ok(body) => responds(r, body@, StaticStatusCode::NotFound, Some(html_type())),
            Err(ReadFailure::NotFound) => responds(r, "Not Found"@, StaticStatusCode::OK, None),
            Err(ReadFailure::Other) => responds(
                r,
                "Internal Server Error"@,
                StaticStatusCode::InternalServerError,
                None,
            ),
        },
{
    match res {
        Ok(body) => page(body, StaticStatusCode::NotFound),
        Err(ReadFailure::NotFound) => plain("Not Found", StaticStatusCode::OK),
        Err(ReadFailure::Other) => plain(
            "Internal Server Error",
            StaticStatusCode::InternalServerError,
        ),
    }
}

/// The answer to a request that matched no route, from the outcome of
/// reading the file of the not-found page.
pub fn not_found_page(res: Result<String, std::io::Error>) -> (r: StaticResponse)
    ensures
        match res {
            Ok(body) => responds(r, body@, StaticStatusCode::NotFound, Some(html_type())),
            Err(e) => if io_error_is_not_found(e) {
                responds(r, "Not Found"@, StaticStatusCode::OK, None)
            } else {
                responds(r, "Internal Server Error"@, StaticStatusCode::InternalServerError, None)
            },
        },
{
    match res {
        Ok(body) => not_found_page_response(Ok(body)),
        Err(e) => not_found_page_response(Err(read_failure_of(&e))),
    }
}

/// The answer to a request for a route rendered on first request: the page
/// where its file could be read; otherwise render it now.
pub fn incremental_static_route(res: Result<String, std::io::Error>) -> (r: StaticResponse)
    ensures
        match res {
            Ok(body) => responds(r, body@, StaticStatusCode::OK, Some(html_type())),
            Err(_) => r is RenderDynamic,
        },
{
    match res {
        Ok(body) => page(body, StaticStatusCode::OK),
        Err(_) => StaticResponse::RenderDynamic,
    }
}

} // verus!
