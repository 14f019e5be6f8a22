use vstd::prelude::*;

use crate::bytes::{dec_digits, is_prefix, spec_find, starts_with, subvec, usize_to_dec};
use crate::headers::{get_model, HeaderList};
use crate::request::{Request, RequestModel};
use crate::response::{Response, ResponseModel, Status};
use vstd::string::StrSliceExecFns;
use vstd::string::StringSliceAdditionalSpecFns;

verus! {

/// The `Content-Length` header line announcing `n` body bytes.
pub open spec fn content_length_line(n: nat) -> Seq<u8> {
    "Content-Length: ".spec_bytes() + dec_digits(n)
}

/// A fresh `Content-Length` line for `n` body bytes.
pub fn content_length_line_vec(n: usize) -> (r: Vec<u8>)
    ensures
        r@ == content_length_line(n as nat),
{
    let mut r = "Content-Length: ".as_bytes_vec();
    let mut d = usize_to_dec(n);
    r.append(&mut d);
    r
}

/// The headers of a plain-text response with an `n`-byte body.
pub open spec fn text_headers(n: nat) -> Seq<Seq<u8>> {
    seq!["Content-Type: text/plain".spec_bytes(), content_length_line(n)]
}

/// The headers of an octet-stream response with an `n`-byte body.
pub open spec fn octet_headers(n: nat) -> Seq<Seq<u8>> {
    seq!["Content-Type: application/octet-stream".spec_bytes(), content_length_line(n)]
}

/// A 404 with no headers and no body.
pub open spec fn not_found_model() -> ResponseModel {
    ResponseModel {
        status: Status::NotFound,
        headers: Seq::<Seq<u8>>::empty(),
        body: Seq::<u8>::empty(),
    }
}

/// A plain-text 200 carrying `body`.
pub open spec fn text_model(body: Seq<u8>) -> ResponseModel {
    ResponseModel { status: Status::Okay, headers: text_headers(body.len()), body }
}

/// A plain-text 200 response carrying `body`.
fn text_response(body: Vec<u8>) -> (r: Response)
    ensures
        r@ == text_model(body@),
{
    let mut lines: Vec<Vec<u8>> = Vec::new();
    lines.push("Content-Type: text/plain".as_bytes_vec());
    lines.push(content_length_line_vec(body.len()));
    let r = Response { status: Status::Okay, headers: HeaderList { lines }, body };
    proof {
        assert(r@.headers =~~= text_headers(r@.body.len()));
    }
    r
}

/// The echo segment of a target that starts with `/echo/`: the bytes after
/// that prefix, up to the next slash or the end.
pub open spec fn echo_segment(target: Seq<u8>) -> Seq<u8> {
    let rest = target.skip("/echo/".spec_bytes().len() as int);
    match spec_find(rest, seq![47u8]) {
        Some(i) => rest.subrange(0, i),
        None => rest,
    }
}

/// The filename of a target that starts with `/files/`: everything after
/// that prefix, verbatim.
pub open spec fn file_name(target: Seq<u8>) -> Seq<u8> {
    target.skip("/files/".spec_bytes().len() as int)
}

/// The mathematical value of a routing decision.
pub enum RouteModel {
    Respond(ResponseModel),
    FileRead(Seq<u8>),
    FileWrite(Seq<u8>, Seq<u8>),
}

/// What the router decides for a request: either a finished response, or
/// the one filesystem action whose outcome the response still depends on.
pub enum RouteAction {
    /// The response is already determined.
    Respond(Response),
    /// Read the named file under the serving directory, then answer with
    /// `file_get_response`.
    FileRead(Vec<u8>),
    /// Write the given body to the named file under the serving directory,
    /// then answer with `file_post_response`.
    FileWrite(Vec<u8>, Vec<u8>),
}

impl View for RouteAction {
    type V = RouteModel;

    open spec fn view(&self) -> RouteModel {
        match self {
            RouteAction::Respond(resp) => RouteModel::Respond(resp@),
            RouteAction::FileRead(name) => RouteModel::FileRead(name@),
            RouteAction::FileWrite(name, body) => RouteModel::FileWrite(name@, body@),
        }
    }
}

/// The routing rules, first match wins: `/` is an empty 200; `/user-agent`
/// echoes the `User-Agent` header as plain text; `/echo/...` echoes the
/// segment after the prefix, except that `/echo/` alone, with nothing after
/// the prefix, lacks a segment to look up and falls through to an empty
/// 404; `/files/...` reads the named file on `GET` and writes it on any
/// other method; anything else is an empty 404.
pub open spec fn spec_route(req: RequestModel) -> RouteModel {
    if req.target == "/".spec_bytes() {
        RouteModel::Respond(
            ResponseModel {
                status: Status::Okay,
                headers: Seq::<Seq<u8>>::empty(),
                body: Seq::<u8>::empty(),
            },
        )
    } else if req.target == "/user-agent".spec_bytes() {
        RouteModel::Respond(text_model(get_model(req.headers, "User-Agent".spec_bytes())))
    } else if req.target == "/echo/".spec_bytes() {
        RouteModel::Respond(not_found_model())
    } else if is_prefix(req.target, "/echo/".spec_bytes()) {
        RouteModel::Respond(text_model(echo_segment(req.target)))
    } else if is_prefix(req.target, "/files/".spec_bytes()) {
        if req.method == "GET".spec_bytes() {
            RouteModel::FileRead(file_name(req.target))
        } else {
            RouteModel::FileWrite(file_name(req.target), req.body)
        }
    } else {
        RouteModel::Respond(not_found_model())
    }
}

/// Dispatch a parsed request against the fixed, ordered route table.
pub fn route(request: &Request) -> (r: RouteAction)
    ensures
        r@ == spec_route(request@),
{
    let root = "/".as_bytes_vec();
    if crate::bytes::bytes_eq(&request.target, &root) {
        return RouteAction::Respond(Response::empty(Status::Okay));
    }
    let user_agent_path = "/user-agent".as_bytes_vec();
    if crate::bytes::bytes_eq(&request.target, &user_agent_path) {
        let name = "User-Agent".as_bytes_vec();
        let ua = request.headers.get(&name);
        return RouteAction::Respond(text_response(ua));
    }
    let echo_prefix = "/echo/".as_bytes_vec();
    if crate::bytes::bytes_eq(&request.target, &echo_prefix) {
        return RouteAction::Respond(Response::empty(Status::NotFound));
    }
    if starts_with(&request.target, &echo_prefix) {
        let rest = subvec(&request.target, echo_prefix.len(), request.target.len());
        proof {
            assert(rest@ =~= request@.target.skip("/echo/".spec_bytes().len() as int));
        }
        let mut slash: Vec<u8> = Vec::new();
        slash.push(47);
        proof {
            assert(slash@ =~= seq![47u8]);
        }
        let seg = match crate::bytes::find_sub(&rest, &slash) {
            Some(i) => {
                proof {
                    crate::bytes::lemma_spec_find(rest@, seq![47u8]);
                    assert(crate::bytes::match_at(rest@, seq![47u8], i as int));
                }
                subvec(&rest, 0, i)
            },
            None => rest,
        };
        return RouteAction::Respond(text_response(seg));
    }
    let files_prefix = "/files/".as_bytes_vec();
    if starts_with(&request.target, &files_prefix) {
        let name = subvec(&request.target, files_prefix.len(), request.target.len());
        proof {
            assert(name@ =~= file_name(request@.target));
        }
        let get = "GET".as_bytes_vec();
        if crate::bytes::bytes_eq(&request.method, &get) {
            return RouteAction::FileRead(name);
        } else {
            let body = subvec(&request.body, 0, request.body.len());
            proof {
                assert(body@ =~= request@.body);
            }
            return RouteAction::FileWrite(name, body);
        }
    }
    RouteAction::Respond(Response::empty(Status::NotFound))
}

/// The response once a requested file has been read: its bytes as an
/// octet-stream 200, or an empty 404 when the read failed.
pub fn file_get_response(contents: Option<Vec<u8>>) -> (r: Response)
    ensures
        contents matches Some(c) ==> r@ == (ResponseModel {
            status: Status::Okay,
            headers: octet_headers(c@.len()),
            body: c@,
        }),
        contents is None ==> r@ == not_found_model(),
{
    match contents {
        Some(c) => {
            let mut lines: Vec<Vec<u8>> = Vec::new();
            lines.push("Content-Type: application/octet-stream".as_bytes_vec());
            lines.push(content_length_line_vec(c.len()));
            let r = Response { status: Status::Okay, headers: HeaderList { lines }, body: c };
            proof {
                assert(r@.headers =~~= octet_headers(r@.body.len()));
            }
            r
        },
        None => Response::empty(Status::NotFound),
    }
}

/// The response once a posted file has been written: an empty 201 on
/// success, an empty 404 on failure (a missing directory included).
pub fn file_post_response(ok: bool) -> (r: Response)
    ensures
        ok ==> r@ == (ResponseModel {
            status: Status::Created,
            headers: Seq::<Seq<u8>>::empty(),
            body: Seq::<u8>::empty(),
        }),
        !ok ==> r@ == not_found_model(),
{
    if ok {
        Response::empty(Status::Created)
    } else {
        Response::empty(Status::NotFound)
    }
}

/// A target that matches none of the four routes gets an empty 404 with no
/// headers, whatever the method, headers and body of the request.
pub proof fn lemma_unknown_route(req: RequestModel)
    requires
        req.target != "/".spec_bytes(),
        req.target != "/user-agent".spec_bytes(),
        !is_prefix(req.target, "/echo/".spec_bytes()),
        !is_prefix(req.target, "/files/".spec_bytes()),
    ensures
        spec_route(req) == RouteModel::Respond(not_found_model()),
{
}

} // verus!
