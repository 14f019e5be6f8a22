use vstd::prelude::*;

use crate::bytes::{
    contains_seq, crlf, crlf_free, crlf_vec, find_sub, join_with, lemma_crlf_free_no_crlf,
    lemma_spec_find, lemma_split_join_crlf, lemma_split_on_first, match_at, spec_find, split_on,
    split_vec, strip_nul, strip_trailing_nul, subvec,
};
use crate::headers::{get_model, parse_model, serialize_model, HeaderList};

verus! {

/// The blank line that separates a request's head from its body.
pub open spec fn crlf2() -> Seq<u8> {
    seq![13u8, 10u8, 13u8, 10u8]
}

/// The byte that separates the request line's tokens.
pub open spec fn space() -> Seq<u8> {
    seq![32u8]
}

/// A fresh vector holding one space.
fn space_vec() -> (r: Vec<u8>)
    ensures
        r@ == space(),
{
    let mut r: Vec<u8> = Vec::new();
    r.push(32);
    proof {
        assert(r@ =~= space());
    }
    r
}

/// A fresh vector holding two CRLFs.
fn crlf2_vec() -> (r: Vec<u8>)
    ensures
        r@ == crlf2(),
{
    let mut r = crlf_vec();
    let mut s = crlf_vec();
    r.append(&mut s);
    proof {
        assert(r@ =~= crlf2());
    }
    r
}

/// The head of a stripped buffer: everything before the first blank line,
/// or the whole buffer if it has none.
pub open spec fn head_of(s: Seq<u8>) -> Seq<u8> {
    match spec_find(s, crlf2()) {
        Some(i) => s.subrange(0, i),
        None => s,
    }
}

/// The body of a stripped buffer: everything after the first blank line,
/// taken verbatim; empty if there is no blank line.
pub open spec fn body_of(s: Seq<u8>) -> Seq<u8> {
    match spec_find(s, crlf2()) {
        Some(i) => s.skip(i + 4),
        None => Seq::<u8>::empty(),
    }
}

/// The request line: the head up to its first CRLF, or the whole head.
pub open spec fn request_line_of(head: Seq<u8>) -> Seq<u8> {
    match spec_find(head, crlf()) {
        Some(j) => head.subrange(0, j),
        None => head,
    }
}

/// The raw header block: the head after its first CRLF; empty if the head
/// is a single line.
pub open spec fn header_block_of(head: Seq<u8>) -> Seq<u8> {
    match spec_find(head, crlf()) {
        Some(j) => head.skip(j + 2),
        None => Seq::<u8>::empty(),
    }
}

/// The space-separated tokens of a request line.
pub open spec fn tokens_of(line: Seq<u8>) -> Seq<Seq<u8>> {
    split_on(line, space())
}

/// A stripped buffer parses successfully exactly when its request line
/// supplies three non-empty tokens: method, target and version. Anything
/// past the third token is ignored.
pub open spec fn parse_ok(s: Seq<u8>) -> bool {
    let t = tokens_of(request_line_of(head_of(s)));
    t.len() >= 3 && t[0].len() > 0 && t[1].len() > 0 && t[2].len() > 0
}

/// The mathematical value of a request.
pub struct RequestModel {
    pub method: Seq<u8>,
    pub target: Seq<u8>,
    pub version: Seq<u8>,
    pub headers: Seq<Seq<u8>>,
    pub body: Seq<u8>,
}

/// The request read from a stripped buffer on which `parse_ok` holds.
pub open spec fn parsed_request(s: Seq<u8>) -> RequestModel {
    let t = tokens_of(request_line_of(head_of(s)));
    RequestModel {
        method: t[0],
        target: t[1],
        version: t[2],
        headers: parse_model(header_block_of(head_of(s))),
        body: body_of(s),
    }
}

/// A malformed request line: the buffer could not supply a method, a target
/// and a version. The connection is closed without a response.
#[derive(Clone, Copy, PartialEq, Eq, Structural, Debug)]
pub struct ParseError;

/// One parsed request: the request line's three tokens, the header lines,
/// and the body bytes.
pub struct Request {
    pub method: Vec<u8>,
    pub target: Vec<u8>,
    pub version: Vec<u8>,
    pub headers: HeaderList,
    pub body: Vec<u8>,
}

impl View for Request {
    type V = RequestModel;

    open spec fn view(&self) -> RequestModel {
        RequestModel {
            method: self.method@,
            target: self.target@,
            version: self.version@,
            headers: self.headers@,
            body: self.body@,
        }
    }
}

/// The trimmed value of the first request header named `header`; empty if
/// the request has no such header.
pub fn get_header(request: &Request, header: &Vec<u8>) -> (r: Vec<u8>)
    ensures
        r@ == get_model(request@.headers, header@),
{
    request.headers.get(header)
}

/// Parse one buffer, as read from the connection in a single fixed-size
/// read, into a request: strip the trailing NUL padding, split head from
/// body at the first blank line, take the request line's first three tokens
/// as method, target and version, and the remaining head lines as headers.
pub fn parse_request(input: &Vec<u8>) -> (r: Result<Request, ParseError>)
    ensures
        r is Ok <==> parse_ok(strip_nul(input@)),
        r matches Ok(req) ==> req@ == parsed_request(strip_nul(input@)),
{
    let stripped = strip_trailing_nul(input);
    let ghost s = stripped@;
    let sep4 = crlf2_vec();
    let slen = stripped.len();
    let (head, body) = match find_sub(&stripped, &sep4) {
        Some(i) => {
            proof {
                lemma_spec_find(s, crlf2());
                assert(match_at(s, crlf2(), i as int));
            }
            let h = subvec(&stripped, 0, i);
            let b = subvec(&stripped, i + 4, slen);
            proof {
                assert(b@ =~= body_of(s));
            }
            (h, b)
        },
        None => (stripped, Vec::new()),
    };
    proof {
        assert(head@ == head_of(s));
        assert(body@ == body_of(s));
    }
    let sep2 = crlf_vec();
    let hlen = head.len();
    let (line, block) = match find_sub(&head, &sep2) {
        Some(j) => {
            proof {
                lemma_spec_find(head@, crlf());
                assert(match_at(head@, crlf(), j as int));
            }
            let l = subvec(&head, 0, j);
            let bl = subvec(&head, j + 2, hlen);
            proof {
                assert(bl@ =~= header_block_of(head_of(s)));
            }
            (l, bl)
        },
        None => (head, Vec::new()),
    };
    proof {
        assert(line@ == request_line_of(head_of(s)));
        assert(block@ == header_block_of(head_of(s)));
    }
    let sp = space_vec();
    let toks = split_vec(&line, &sp);
    proof {
        assert(toks.deep_view() == tokens_of(request_line_of(head_of(s))));
    }
    if toks.len() < 3 {
        return Err(ParseError);
    }
    proof {
        assert(toks@[0]@ =~= toks.deep_view()[0]);
        assert(toks@[1]@ =~= toks.deep_view()[1]);
        assert(toks@[2]@ =~= toks.deep_view()[2]);
    }
    if toks[0].len() == 0 || toks[1].len() == 0 || toks[2].len() == 0 {
        return Err(ParseError);
    }
    let method = subvec(&toks[0], 0, toks[0].len());
    let target = subvec(&toks[1], 0, toks[1].len());
    let version = subvec(&toks[2], 0, toks[2].len());
    let headers = HeaderList::parse(&block);
    proof {
        assert(method@ =~= toks.deep_view()[0]);
        assert(target@ =~= toks.deep_view()[1]);
        assert(version@ =~= toks.deep_view()[2]);
    }
    Ok(Request { method, target, version, headers, body })
}

/// In a sequence of CRLF-joined pieces followed by a blank line and a tail,
/// the first blank line is the one after the pieces — no earlier window can
/// be one, because the pieces hold no CR or LF and none but possibly the
/// first is empty.
proof fn lemma_first_crlf2(pieces: Seq<Seq<u8>>, tail: Seq<u8>)
    requires
        pieces.len() >= 1,
        forall|k: int| 0 <= k < pieces.len() ==> crlf_free(#[trigger] pieces[k]),
        forall|k: int| 1 <= k < pieces.len() ==> (#[trigger] pieces[k]).len() > 0,
    ensures
        spec_find(join_with(pieces, crlf()) + crlf2() + tail, crlf2()) == Some(
            join_with(pieces, crlf()).len() as int,
        ),
    decreases pieces.len(),
{
    let c = crlf();
    let p2 = crlf2();
    let j = join_with(pieces, c);
    let s = j + p2 + tail;
    let n = j.len() as int;
    assert(match_at(s, p2, n)) by {
        assert(s.subrange(n, n + 4) =~= p2);
    }
    if pieces.len() == 1 {
        assert(j == pieces[0]);
        assert forall|i: int| 0 <= i < n implies !match_at(s, p2, i) by {
            if match_at(s, p2, i) {
                assert(s.subrange(i, i + 4)[0] == s[i]);
                assert(s[i] == pieces[0][i]);
            }
        }
    } else {
        let rest = pieces.skip(1);
        let jr = join_with(rest, c);
        let p0 = pieces[0].len() as int;
        assert(j == pieces[0] + c + jr);
        let s2 = jr + p2 + tail;
        assert(s =~= (pieces[0] + c) + s2);
        lemma_first_crlf2(rest, tail);
        let m = jr.len() as int;
        lemma_spec_find(s2, p2);
        assert(n == p0 + 2 + m);
        assert(rest[0].len() > 0);
        assert(jr[0] == rest[0][0]) by {
            if rest.len() == 1 {
                assert(jr == rest[0]);
            } else {
                assert(jr == rest[0] + c + join_with(rest.skip(1), c));
            }
        }
        assert forall|i: int| 0 <= i < n implies !match_at(s, p2, i) by {
            if match_at(s, p2, i) {
                if i < p0 {
                    assert(s.subrange(i, i + 4)[0] == s[i]);
                    assert(s[i] == pieces[0][i]);
                } else if i == p0 {
                    assert(s.subrange(i, i + 4)[2] == s[i + 2]);
                    assert(s[p0 + 2] == s2[0]);
                    assert(s2[0] == jr[0]);
                } else if i == p0 + 1 {
                    assert(s.subrange(i, i + 4)[0] == s[i]);
                    assert(s[p0 + 1] == 10);
                } else {
                    let i2 = i - p0 - 2;
                    assert(s.subrange(i, i + 4) =~= s2.subrange(i2, i2 + 4));
                    assert(match_at(s2, p2, i2));
                }
            }
        }
    }
    lemma_spec_find(s, p2);
    match spec_find(s, p2) {
        None => {
            assert(match_at(s, p2, n));
            assert(false);
        },
        Some(i0) => {
            assert(!(i0 < n) && !(n < i0));
        },
    }
}

/// Parsing undoes framing. A buffer built as a request line, a CRLF, a
/// serialized header list, a blank line and a body parses back to exactly
/// that request line, that header list and that body — so re-serializing
/// the parsed headers gives the serialized list back unchanged. The lines
/// hold no CR or LF and are not empty, and the body does not end in NUL
/// (padding would be stripped).
pub proof fn lemma_parse_round_trip(reqline: Seq<u8>, h: Seq<Seq<u8>>, body: Seq<u8>)
    requires
        crlf_free(reqline),
        h.len() >= 1,
        forall|k: int| 0 <= k < h.len() ==> (#[trigger] h[k]).len() > 0 && crlf_free(h[k]),
        body.len() == 0 || body[body.len() - 1] != 0,
    ensures
        ({
            let s = reqline + crlf() + serialize_model(h) + crlf2() + body;
            &&& strip_nul(s) == s
            &&& request_line_of(head_of(s)) == reqline
            &&& parsed_request(s).headers == h
            &&& parsed_request(s).body == body
        }),
{
    let c = crlf();
    let p2 = crlf2();
    let pieces = seq![reqline] + h;
    let head = join_with(pieces, c);
    let s = reqline + c + serialize_model(h) + p2 + body;
    assert(pieces[0] == reqline);
    assert(pieces.skip(1) =~= h);
    assert(head == pieces[0] + c + join_with(pieces.skip(1), c));
    assert(s =~= head + p2 + body);
    assert forall|k: int| 0 <= k < pieces.len() implies crlf_free(#[trigger] pieces[k]) by {
        if k >= 1 {
            assert(pieces[k] == h[k - 1]);
        }
    }
    assert forall|k: int| 1 <= k < pieces.len() implies (#[trigger] pieces[k]).len() > 0 by {
        assert(pieces[k] == h[k - 1]);
    }
    lemma_first_crlf2(pieces, body);
    let n = head.len() as int;
    assert(spec_find(s, p2) == Some(n));
    lemma_spec_find(s, p2);
    assert(head_of(s) =~= head);
    assert(body_of(s) =~= body);
    assert(s.len() == n + 4 + body.len());
    if body.len() == 0 {
        assert(s[s.len() - 1] == p2[3]);
    } else {
        assert(s[s.len() - 1] == body[body.len() - 1]);
    }
    assert(strip_nul(s) == s);
    assert forall|k: int| 0 <= k < pieces.len() implies !contains_seq(
        #[trigger] pieces[k],
        crlf(),
    ) by {
        lemma_crlf_free_no_crlf(pieces[k]);
    }
    lemma_split_join_crlf(pieces);
    lemma_split_on_first(head, c);
    match spec_find(head, c) {
        None => {
            assert(split_on(head, c) == seq![head]);
            assert(pieces.len() == split_on(head, c).len());
            assert(false);
        },
        Some(i) => {
            let block = head.skip(i + 2);
            assert(seq![head.subrange(0, i)] + split_on(block, c) == pieces);
            assert(head.subrange(0, i) == (seq![head.subrange(0, i)] + split_on(block, c))[0]);
            assert(request_line_of(head) == reqline);
            assert(split_on(block, c) =~= (seq![head.subrange(0, i)] + split_on(
                block,
                c,
            )).skip(1));
            assert(split_on(block, c) == h);
            if block.len() == 0 {
                assert(split_on(block, c) == seq![block]);
                assert(h[0] == block);
                assert(false);
            }
            assert(parse_model(block) == h);
            assert(header_block_of(head) == block);
        },
    }
}

} // verus!
