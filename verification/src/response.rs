use vstd::prelude::*;

use crate::bytes::{crlf, crlf_vec, subvec};
use crate::headers::{serialize_model, set_line_model, HeaderList};
use vstd::string::StringSliceAdditionalSpecFns;
use vstd::string::StrSliceExecFns;

verus! {

/// The three response statuses this server ever produces.
#[derive(Clone, Copy, PartialEq, Eq, Structural, Debug)]
pub enum Status {
    Okay,
    NotFound,
    Created,
}

/// The status line for `s`, as bytes on the wire.
pub open spec fn status_line(s: Status) -> Seq<u8> {
    match s {
        Status::Okay => "HTTP/1.1 200 OK".spec_bytes(),
        Status::NotFound => "HTTP/1.1 404 Not Found".spec_bytes(),
        Status::Created => "HTTP/1.1 201 Created".spec_bytes(),
    }
}

impl Status {
    /// The full status line for this status.
    pub fn to_string(&self) -> (r: String)
        ensures
            r@ == match *self {
                Status::Okay => "HTTP/1.1 200 OK"@,
                Status::NotFound => "HTTP/1.1 404 Not Found"@,
                Status::Created => "HTTP/1.1 201 Created"@,
            },
    {
        match self {
            Status::Okay => "HTTP/1.1 200 OK".to_owned(),
            Status::NotFound => "HTTP/1.1 404 Not Found".to_owned(),
            Status::Created => "HTTP/1.1 201 Created".to_owned(),
        }
    }

    /// The full status line for this status, as bytes.
    pub fn line_bytes(&self) -> (r: Vec<u8>)
        ensures
            r@ == status_line(*self),
    {
        match self {
            Status::Okay => "HTTP/1.1 200 OK".as_bytes_vec(),
            Status::NotFound => "HTTP/1.1 404 Not Found".as_bytes_vec(),
            Status::Created => "HTTP/1.1 201 Created".as_bytes_vec(),
        }
    }
}

/// The mathematical value of a response.
pub struct ResponseModel {
    pub status: Status,
    pub headers: Seq<Seq<u8>>,
    pub body: Seq<u8>,
}

/// A response under construction: a status, a header list, and a body.
pub struct Response {
    pub status: Status,
    pub headers: HeaderList,
    pub body: Vec<u8>,
}

impl View for Response {
    type V = ResponseModel;

    open spec fn view(&self) -> ResponseModel {
        ResponseModel { status: self.status, headers: self.headers@, body: self.body@ }
    }
}

impl Response {
    /// An empty response with the given status: no headers, no body.
    pub fn empty(status: Status) -> (r: Response)
        ensures
            r@.status == status,
            r@.headers == Seq::<Seq<u8>>::empty(),
            r@.body == Seq::<u8>::empty(),
    {
        Response { status, headers: HeaderList::new(), body: Vec::new() }
    }
}

/// Set one header line on a response: any line with the same name is
/// removed, and the given line is appended at the end of its header list.
pub fn handle_header(response: &mut Response, header: &Vec<u8>)
    ensures
        final(response)@.headers == set_line_model(old(response)@.headers, header@),
        final(response)@.status == old(response)@.status,
        final(response)@.body == old(response)@.body,
{
    let line = subvec(header, 0, header.len());
    proof {
        assert(line@ =~= header@);
    }
    response.headers.set_line(line);
}

/// The exact wire form of a response: status line, CRLF, the serialized
/// headers, a blank line, then the body bytes unchanged.
pub open spec fn response_wire(r: ResponseModel) -> Seq<u8> {
    status_line(r.status) + crlf() + serialize_model(r.headers) + crlf() + crlf() + r.body
}

/// Render a response into the bytes written to the connection.
pub fn serialize_response(response: &Response) -> (r: Vec<u8>)
    ensures
        r@ == response_wire(response@),
{
    let mut r = response.status.line_bytes();
    let mut sep = crlf_vec();
    r.append(&mut sep);
    let mut hs = response.headers.serialize();
    r.append(&mut hs);
    let mut sep2 = crlf_vec();
    r.append(&mut sep2);
    let mut sep3 = crlf_vec();
    r.append(&mut sep3);
    let mut body = subvec(&response.body, 0, response.body.len());
    r.append(&mut body);
    proof {
        assert(r@ =~= response_wire(response@));
    }
    r
}

} // verus!
