use vstd::prelude::*;

use crate::bytes::{contains_seq, dec_digits, find_sub, lemma_find_contains};
use crate::headers::set_model;
use crate::request::{Request, RequestModel};
use crate::response::{response_wire, serialize_response, Response, ResponseModel};
use std::io::Write;
use vstd::string::StrSliceExecFns;
use vstd::string::StringSliceAdditionalSpecFns;

verus! {

/// What gzip decompression gives back for a sequence of compressed bytes:
/// the decoded payload, or nothing for a stream that does not decode. The
/// decoding of a gzip stream is fully determined by its bytes.
pub uninterp spec fn gunzip_of(s: Seq<u8>) -> Option<Seq<u8>>;

/// Relies on flate2's `write::GzEncoder` at the default compression level,
/// writing into a `Vec`: such a sink never errors and never writes short,
/// so writing and finishing cannot fail, and the finished stream is a gzip
/// encoding of exactly the bytes written — decompressing it (as flate2's
/// `read::GzDecoder` does) gives them back.
#[verifier::external_body]
fn gzip_compress(data: &Vec<u8>) -> (r: Vec<u8>)
    ensures
        gunzip_of(r@) == Some(data@),
{
    let mut enc = flate2::write::GzEncoder::new(Vec::new(), flate2::Compression::default());
    enc.write_all(data.as_slice()).expect("writing into a Vec cannot fail");
    enc.finish().expect("writing into a Vec cannot fail")
}

/// The bytes `gzip`, as searched for in `Accept-Encoding`.
pub open spec fn gzip_pat() -> Seq<u8> {
    seq![103u8, 122u8, 105u8, 112u8]
}

/// The request asks for gzip: its `Accept-Encoding` value holds the
/// substring `gzip`.
pub open spec fn wants_gzip(req: RequestModel) -> bool {
    contains_seq(
        crate::headers::get_model(req.headers, "Accept-Encoding".spec_bytes()),
        gzip_pat(),
    )
}

/// A response after compression: same status, `Content-Encoding` set to
/// `gzip`, `Content-Length` replaced by the compressed length, and the
/// compressed bytes as the body.
pub open spec fn negotiated(resp: ResponseModel, compressed: Seq<u8>) -> ResponseModel {
    ResponseModel {
        status: resp.status,
        headers: set_model(
            set_model(resp.headers, "Content-Encoding".spec_bytes(), "gzip".spec_bytes()),
            "Content-Length".spec_bytes(),
            dec_digits(compressed.len()),
        ),
        body: compressed,
    }
}

/// Install compressed bytes on a response: set the two headers and replace
/// the body.
pub fn apply_gzip(response: Response, compressed: Vec<u8>) -> (r: Response)
    ensures
        r@ == negotiated(response@, compressed@),
{
    let mut r = response;
    let ce_name = "Content-Encoding".as_bytes_vec();
    let ce_value = "gzip".as_bytes_vec();
    r.headers.set(&ce_name, &ce_value);
    let cl_name = "Content-Length".as_bytes_vec();
    let cl_value = crate::bytes::usize_to_dec(compressed.len());
    r.headers.set(&cl_name, &cl_value);
    r.body = compressed;
    r
}

/// Negotiate the content encoding: when the request asks for gzip, the
/// response comes back with its body compressed and its headers adjusted —
/// always, since compressing into memory cannot fail; otherwise it passes
/// through unchanged.
pub fn negotiate(request: &Request, response: Response) -> (r: Response)
    ensures
        !wants_gzip(request@) ==> r@ == response@,
        wants_gzip(request@) ==> exists|c: Seq<u8>|
            gunzip_of(c) == Some(response@.body) && r@ == negotiated(response@, c),
{
    let name = "Accept-Encoding".as_bytes_vec();
    let accept = request.headers.get(&name);
    let mut pat: Vec<u8> = Vec::new();
    pat.push(103);
    pat.push(122);
    pat.push(105);
    pat.push(112);
    proof {
        assert(pat@ =~= gzip_pat());
        lemma_find_contains(accept@, gzip_pat());
    }
    match find_sub(&accept, &pat) {
        Some(_) => {
            let compressed = gzip_compress(&response.body);
            let ghost c = compressed@;
            let r = apply_gzip(response, compressed);
            proof {
                assert(gunzip_of(c) == Some(response@.body) && r@ == negotiated(response@, c));
            }
            r
        },
        None => response,
    }
}

/// Negotiate the encoding and render the response: the exact wire bytes of
/// the response as routed, compressed first when the request asked for
/// gzip.
pub fn finish_response(request: &Request, response: Response) -> (r: Vec<u8>)
    ensures
        !wants_gzip(request@) ==> r@ == response_wire(response@),
        wants_gzip(request@) ==> exists|c: Seq<u8>|
            gunzip_of(c) == Some(response@.body) && r@ == response_wire(
                negotiated(response@, c),
            ),
{
    let negotiated_response = negotiate(request, response);
    serialize_response(&negotiated_response)
}

} // verus!
