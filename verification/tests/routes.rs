use flate2::read::GzDecoder;
use httpwire::gzip::finish_response;
use httpwire::request::parse_request;
use httpwire::response::{serialize_response, Response, Status};
use httpwire::router::{file_get_response, file_post_response, route, RouteAction};
use std::io::Read;

fn respond(raw: &[u8]) -> Response {
    let req = parse_request(&raw.to_vec()).unwrap();
    match route(&req) {
        RouteAction::Respond(resp) => resp,
        _ => panic!("expected a finished response"),
    }
}

fn wire(raw: &[u8]) -> Vec<u8> {
    let req = parse_request(&raw.to_vec()).unwrap();
    let resp = match route(&req) {
        RouteAction::Respond(resp) => resp,
        _ => panic!("expected a finished response"),
    };
    finish_response(&req, resp)
}

fn header_lines(resp: &Response) -> Vec<String> {
    resp.headers.lines.iter().map(|l| String::from_utf8(l.clone()).unwrap()).collect()
}

#[test]
fn root_is_an_empty_ok() {
    let resp = respond(b"GET / HTTP/1.1\r\n\r\n");
    assert_eq!(resp.status, Status::Okay);
    assert_eq!(resp.headers.lines.len(), 0);
    assert_eq!(resp.body, Vec::<u8>::new());
}

#[test]
fn echo_route_echoes_the_segment() {
    let resp = respond(b"GET /echo/hello HTTP/1.1\r\n\r\n");
    assert_eq!(resp.status, Status::Okay);
    assert_eq!(
        header_lines(&resp),
        vec!["Content-Type: text/plain".to_string(), "Content-Length: 5".to_string()]
    );
    assert_eq!(resp.body, b"hello".to_vec());
}

#[test]
fn echo_route_full_wire_bytes() {
    let out = wire(b"GET /echo/hello HTTP/1.1\r\n\r\n");
    assert_eq!(
        out,
        b"HTTP/1.1 200 OK\r\nContent-Type: text/plain\r\nContent-Length: 5\r\n\r\nhello".to_vec()
    );
}

#[test]
fn echo_route_takes_only_the_third_segment() {
    let resp = respond(b"GET /echo/a/b HTTP/1.1\r\n\r\n");
    assert_eq!(resp.body, b"a".to_vec());
}

#[test]
fn echo_with_nothing_after_the_prefix_is_not_found() {
    // no segment to look up: the default rule answers instead
    let resp = respond(b"GET /echo/ HTTP/1.1\r\n\r\n");
    assert_eq!(resp.status, Status::NotFound);
    assert_eq!(resp.headers.lines.len(), 0);
    assert_eq!(resp.body, Vec::<u8>::new());
    let out = wire(b"GET /echo/ HTTP/1.1\r\n\r\n");
    assert_eq!(out, b"HTTP/1.1 404 Not Found\r\n\r\n\r\n".to_vec());
}

#[test]
fn echo_with_an_empty_third_segment_echoes_it() {
    // /echo//b does have a third slash-delimited segment; it is empty
    let resp = respond(b"GET /echo//b HTTP/1.1\r\n\r\n");
    assert_eq!(resp.status, Status::Okay);
    assert_eq!(resp.body, Vec::<u8>::new());
    assert_eq!(
        header_lines(&resp),
        vec!["Content-Type: text/plain".to_string(), "Content-Length: 0".to_string()]
    );
}

#[test]
fn user_agent_route_echoes_the_header() {
    let resp = respond(b"GET /user-agent HTTP/1.1\r\nUser-Agent: test-client/1.0\r\n\r\n");
    assert_eq!(resp.status, Status::Okay);
    assert_eq!(resp.body, b"test-client/1.0".to_vec());
    assert_eq!(
        header_lines(&resp),
        vec!["Content-Type: text/plain".to_string(), "Content-Length: 15".to_string()]
    );
}

#[test]
fn user_agent_route_with_absent_header_is_empty() {
    let resp = respond(b"GET /user-agent HTTP/1.1\r\n\r\n");
    assert_eq!(resp.status, Status::Okay);
    assert_eq!(resp.body, Vec::<u8>::new());
}

#[test]
fn files_get_routes_to_a_read() {
    let req = parse_request(&b"GET /files/foo.txt HTTP/1.1\r\n\r\n".to_vec()).unwrap();
    match route(&req) {
        RouteAction::FileRead(name) => assert_eq!(name, b"foo.txt".to_vec()),
        _ => panic!("expected a file read"),
    }
}

#[test]
fn files_get_hit_and_miss_responses() {
    let hit = file_get_response(Some(b"bar".to_vec()));
    assert_eq!(hit.status, Status::Okay);
    assert_eq!(hit.body, b"bar".to_vec());
    assert_eq!(
        header_lines(&hit),
        vec![
            "Content-Type: application/octet-stream".to_string(),
            "Content-Length: 3".to_string()
        ]
    );
    let miss = file_get_response(None);
    assert_eq!(miss.status, Status::NotFound);
    assert_eq!(miss.headers.lines.len(), 0);
    assert_eq!(miss.body, Vec::<u8>::new());
}

#[test]
fn files_post_routes_to_a_write_and_answers_created() {
    let req =
        parse_request(&b"POST /files/new.txt HTTP/1.1\r\nContent-Length: 11\r\n\r\nhello world".to_vec())
            .unwrap();
    let (name, body) = match route(&req) {
        RouteAction::FileWrite(name, body) => (name, body),
        _ => panic!("expected a file write"),
    };
    assert_eq!(name, b"new.txt".to_vec());
    assert_eq!(body, b"hello world".to_vec());
    let created = file_post_response(true);
    assert_eq!(created.status, Status::Created);
    assert_eq!(created.body, Vec::<u8>::new());
    let failed = file_post_response(false);
    assert_eq!(failed.status, Status::NotFound);
    // what was written comes back on a later read
    let read_back = file_get_response(Some(body));
    assert_eq!(read_back.body, b"hello world".to_vec());
}

#[test]
fn unknown_targets_get_an_empty_404() {
    for raw in [
        b"GET /nope HTTP/1.1\r\n\r\n".to_vec(),
        b"GET /echo HTTP/1.1\r\n\r\n".to_vec(),
        b"GET /files HTTP/1.1\r\n\r\n".to_vec(),
        b"DELETE /something/else HTTP/1.1\r\n\r\n".to_vec(),
    ] {
        let resp = respond(&raw);
        assert_eq!(resp.status, Status::NotFound);
        assert_eq!(resp.headers.lines.len(), 0);
        assert_eq!(resp.body, Vec::<u8>::new());
    }
}

#[test]
fn not_found_full_wire_bytes() {
    let out = wire(b"GET /nope HTTP/1.1\r\n\r\n");
    assert_eq!(out, b"HTTP/1.1 404 Not Found\r\n\r\n\r\n".to_vec());
}

#[test]
fn gzip_negotiation_compresses_the_body() {
    let out = wire(b"GET /echo/abc HTTP/1.1\r\nAccept-Encoding: gzip\r\n\r\n");
    let head_end = out.windows(4).position(|w| w == b"\r\n\r\n").unwrap();
    let head = String::from_utf8(out[..head_end].to_vec()).unwrap();
    assert!(head.contains("Content-Encoding: gzip"));
    let body = &out[head_end + 4..];
    assert!(head.contains(&format!("Content-Length: {}", body.len())));
    let mut decoder = GzDecoder::new(body);
    let mut decoded = Vec::new();
    decoder.read_to_end(&mut decoded).unwrap();
    assert_eq!(decoded, b"abc".to_vec());
}

#[test]
fn gzip_negotiation_on_substring_match() {
    let out = wire(b"GET /echo/abc HTTP/1.1\r\nAccept-Encoding: br, gzip, deflate\r\n\r\n");
    let head_end = out.windows(4).position(|w| w == b"\r\n\r\n").unwrap();
    let head = String::from_utf8(out[..head_end].to_vec()).unwrap();
    assert!(head.contains("Content-Encoding: gzip"));
}

#[test]
fn identity_encoding_passes_the_body_through() {
    let out = wire(b"GET /echo/abc HTTP/1.1\r\nAccept-Encoding: identity\r\n\r\n");
    assert_eq!(
        out,
        b"HTTP/1.1 200 OK\r\nContent-Type: text/plain\r\nContent-Length: 3\r\n\r\nabc".to_vec()
    );
    let head_end = out.windows(4).position(|w| w == b"\r\n\r\n").unwrap();
    let head = String::from_utf8(out[..head_end].to_vec()).unwrap();
    assert!(!head.contains("Content-Encoding"));
}

#[test]
fn serializer_renders_status_headers_blank_line_body() {
    let resp = file_get_response(Some(b"bar".to_vec()));
    let out = serialize_response(&resp);
    assert_eq!(
        out,
        b"HTTP/1.1 200 OK\r\nContent-Type: application/octet-stream\r\nContent-Length: 3\r\n\r\nbar"
            .to_vec()
    );
}

#[test]
fn query_strings_are_matched_verbatim() {
    // no query parsing: the segment after /echo/ keeps the suffix
    let resp = respond(b"GET /echo/x?y=1 HTTP/1.1\r\n\r\n");
    assert_eq!(resp.body, b"x?y=1".to_vec());
}

#[test]
fn file_names_may_hold_slashes() {
    let req = parse_request(&b"GET /files/a/b.txt HTTP/1.1\r\n\r\n".to_vec()).unwrap();
    match route(&req) {
        RouteAction::FileRead(name) => assert_eq!(name, b"a/b.txt".to_vec()),
        _ => panic!("expected a file read"),
    }
}

#[test]
fn content_length_renders_multi_digit_decimals() {
    let body = vec![b'x'; 12345];
    let resp = file_get_response(Some(body));
    assert_eq!(
        String::from_utf8(resp.headers.lines[1].clone()).unwrap(),
        "Content-Length: 12345"
    );
}
