use httpwire::headers::HeaderList;
use httpwire::request::{get_header, parse_request};
use httpwire::response::Status;

fn lines_of(h: &HeaderList) -> Vec<String> {
    h.lines.iter().map(|l| String::from_utf8(l.clone()).unwrap()).collect()
}

#[test]
fn set_is_idempotent_on_value() {
    let mut h = HeaderList::new();
    let name = b"Content-Type".to_vec();
    let value = b"text/plain".to_vec();
    h.set(&name, &value);
    h.set(&name, &value);
    assert_eq!(lines_of(&h), vec!["Content-Type: text/plain".to_string()]);
}

#[test]
fn set_replaces_and_moves_to_end() {
    let mut h = HeaderList::new();
    h.set(&b"A".to_vec(), &b"1".to_vec());
    h.set(&b"B".to_vec(), &b"2".to_vec());
    assert_eq!(lines_of(&h), vec!["A: 1".to_string(), "B: 2".to_string()]);
    h.set(&b"A".to_vec(), &b"3".to_vec());
    assert_eq!(lines_of(&h), vec!["B: 2".to_string(), "A: 3".to_string()]);
}

#[test]
fn headers_round_trip_through_wire_form() {
    let mut h = HeaderList::new();
    h.set(&b"Host".to_vec(), &b"localhost:4221".to_vec());
    h.set(&b"User-Agent".to_vec(), &b"curl/7.64.1".to_vec());
    h.set(&b"Accept".to_vec(), &b"*/*".to_vec());
    let wire = h.serialize();
    let reparsed = HeaderList::parse(&wire);
    assert_eq!(reparsed.serialize(), wire);
    assert_eq!(lines_of(&reparsed), lines_of(&h));
}

#[test]
fn empty_header_list_serializes_to_nothing() {
    let h = HeaderList::new();
    assert_eq!(h.serialize(), Vec::<u8>::new());
    let back = HeaderList::parse(&Vec::new());
    assert_eq!(back.lines.len(), 0);
}

#[test]
fn parse_single_bare_line_without_crlf() {
    let h = HeaderList::parse(&b"Host: example".to_vec());
    assert_eq!(lines_of(&h), vec!["Host: example".to_string()]);
}

#[test]
fn get_trims_and_takes_everything_after_first_colon() {
    let mut h = HeaderList::new();
    h.set_line(b"User-Agent:   test-client/1.0  ".to_vec());
    assert_eq!(h.get(&b"User-Agent".to_vec()), b"test-client/1.0".to_vec());
    h.set_line(b"X-Odd: a:b:c".to_vec());
    assert_eq!(h.get(&b"X-Odd".to_vec()), b"a:b:c".to_vec());
}

#[test]
fn get_of_absent_header_is_empty() {
    let mut h = HeaderList::new();
    h.set(&b"A".to_vec(), &b"1".to_vec());
    assert_eq!(h.get(&b"B".to_vec()), Vec::<u8>::new());
}

#[test]
fn get_matches_the_exact_name_only() {
    let mut h = HeaderList::new();
    h.set(&b"Content-Type".to_vec(), &b"text/plain".to_vec());
    assert_eq!(h.get(&b"Content".to_vec()), Vec::<u8>::new());
}

#[test]
fn parse_request_splits_head_and_body() {
    let raw = b"POST /files/x HTTP/1.1\r\nContent-Length: 5\r\n\r\nhello".to_vec();
    let req = parse_request(&raw).unwrap();
    assert_eq!(req.method, b"POST".to_vec());
    assert_eq!(req.target, b"/files/x".to_vec());
    assert_eq!(req.version, b"HTTP/1.1".to_vec());
    assert_eq!(req.body, b"hello".to_vec());
}

#[test]
fn parse_request_strips_nul_padding() {
    let mut raw = b"GET / HTTP/1.1\r\n\r\n".to_vec();
    raw.resize(1024, 0);
    let req = parse_request(&raw).unwrap();
    assert_eq!(req.method, b"GET".to_vec());
    assert_eq!(req.target, b"/".to_vec());
    assert_eq!(req.version, b"HTTP/1.1".to_vec());
    assert_eq!(req.body, Vec::<u8>::new());
}

#[test]
fn parse_request_reads_headers_after_request_line() {
    let raw = b"GET /user-agent HTTP/1.1\r\nHost: h\r\nUser-Agent: ua\r\n\r\n".to_vec();
    let req = parse_request(&raw).unwrap();
    assert_eq!(req.headers.lines.len(), 2);
    assert_eq!(get_header(&req, &b"User-Agent".to_vec()), b"ua".to_vec());
    assert_eq!(get_header(&req, &b"Host".to_vec()), b"h".to_vec());
}

#[test]
fn malformed_request_line_is_an_error() {
    assert!(parse_request(&b"garbage".to_vec()).is_err());
    assert!(parse_request(&b"GET /\r\n\r\n".to_vec()).is_err());
    assert!(parse_request(&b"GET  / HTTP/1.1\r\n\r\n".to_vec()).is_err());
}

#[test]
fn empty_buffer_is_an_error() {
    assert!(parse_request(&Vec::new()).is_err());
    assert!(parse_request(&vec![0u8; 1024]).is_err());
}

#[test]
fn tokens_past_the_third_are_ignored() {
    let req = parse_request(&b"GET / HTTP/1.1 junk\r\n\r\n".to_vec()).unwrap();
    assert_eq!(req.version, b"HTTP/1.1".to_vec());
}

#[test]
fn status_lines_are_exact() {
    assert_eq!(Status::Okay.to_string(), "HTTP/1.1 200 OK");
    assert_eq!(Status::NotFound.to_string(), "HTTP/1.1 404 Not Found");
    assert_eq!(Status::Created.to_string(), "HTTP/1.1 201 Created");
}
