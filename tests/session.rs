use toy_http_server::body::{read_body, BodyError, BodyReader};
use toy_http_server::head::HeadError;
use toy_http_server::session::{fixed_response, serve, Action, Session, SessionEnd};
use toy_http_server::ToyHttpServer;

const RESPONSE: &[u8] = b"HTTP/1.1 200 OK\r\nContent-Type: text/plain\r\nContent-Length: 12\r\n\r\nHello world!";

#[test]
fn response_is_the_fixed_bytes() {
    assert_eq!(fixed_response(), RESPONSE.to_vec());
}

#[test]
fn body_of_five_bytes() {
    assert_eq!(read_body(5, b"hello"), Ok(b"hello".to_vec()));
    assert_eq!(read_body(5, b"hello world"), Ok(b"hello".to_vec()));
    assert_eq!(read_body(0, b""), Ok(Vec::new()));
}

#[test]
fn long_body_in_several_reads() {
    let input: Vec<u8> = (0..1300u32).map(|i| (i % 251) as u8).collect();
    assert_eq!(read_body(1300, &input), Ok(input.clone()));
    assert_eq!(read_body(1301, &input), Err(BodyError::PeerClosedMidBody));
}

#[test]
fn short_body_is_a_mid_body_close() {
    assert_eq!(read_body(5, b"hel"), Err(BodyError::PeerClosedMidBody));
}

#[test]
fn body_reader_counts_down() {
    let mut r = BodyReader::new(5);
    assert_eq!(r.remaining(), 5);
    assert_eq!(r.accept(b"he"), Ok(false));
    assert_eq!(r.remaining(), 3);
    assert_eq!(r.accept(b""), Err(BodyError::PeerClosedMidBody));
    assert_eq!(r.accept(b"llo"), Ok(true));
    assert_eq!(r.into_body(), b"hello".to_vec());
}

#[test]
fn session_with_body_then_mid_body_close() {
    let r = serve(b"POST / HTTP/1.1\r\nContent-Length: 5\r\n\r\nhelloPOST / HTTP/1.1\r\nContent-Length: 9\r\n\r\nhel");
    assert_eq!(r.responses, 1);
    assert_eq!(r.end, SessionEnd::PeerClosedMidBody);
    assert_eq!(r.output, RESPONSE.to_vec());
}

#[test]
fn two_requests_on_one_connection() {
    let r = serve(b"POST /a HTTP/1.1\r\nContent-Length: 5\r\n\r\nhelloGET /b HTTP/1.0\r\n\r\n");
    assert_eq!(r.responses, 2);
    assert_eq!(r.end, SessionEnd::Clean);
    assert_eq!(r.output, [RESPONSE, RESPONSE].concat());
}

#[test]
fn hundred_requests_hundred_responses() {
    let one = b"GET /path HTTP/1.1\r\nHost: localhost\r\n\r\n";
    let input: Vec<u8> = one.iter().copied().cycle().take(one.len() * 100).collect();
    let r = serve(&input);
    assert_eq!(r.responses, 100);
    assert_eq!(r.end, SessionEnd::Clean);
    assert_eq!(r.output, RESPONSE.repeat(100));
}

#[test]
fn bad_request_ends_the_session() {
    let r = serve(b"GET / HTTP/1.1\r\n\r\nGET / HTTP/2.0\r\n\r\nGET / HTTP/1.1\r\n\r\n");
    assert_eq!(r.responses, 1);
    assert_eq!(r.end, SessionEnd::BadHead(HeadError::UnsupportedVersion));
}

#[test]
fn partial_header_is_a_clean_end() {
    let r = serve(b"GET / HTTP/1.1\r\nHost");
    assert_eq!(r.responses, 0);
    assert_eq!(r.end, SessionEnd::Clean);
    assert!(r.output.is_empty());
}

#[test]
fn malformed_first_request() {
    let r = serve(b"hello\r\n\r\n");
    assert_eq!(r.end, SessionEnd::BadHead(HeadError::MalformedStatusLine));
    assert_eq!(r.responses, 0);
}

fn feed_head(s: &mut Session, bytes: &[u8]) -> Vec<Action> {
    bytes.iter().map(|&b| s.on_header_byte(b)).collect()
}

#[test]
fn machine_reads_head_body_and_answers() {
    let mut s = Session::new();
    let head = b"POST / HTTP/1.1\r\nContent-Length: 5\r\n\r\n";
    let actions = feed_head(&mut s, head);
    assert!(actions[..head.len() - 1].iter().all(|a| *a == Action::ReadHeaderByte));
    assert_eq!(actions[head.len() - 1], Action::ReadBody(5));
    assert_eq!(s.on_body_bytes(b"he"), Action::ReadBody(3));
    assert_eq!(s.on_body_bytes(b"llo"), Action::Respond);
    let actions = feed_head(&mut s, b"GET / HTTP/1.1\r\n\r\n");
    assert_eq!(actions.last(), Some(&Action::Respond));
    assert_eq!(s.on_end_of_input(), Action::Close(SessionEnd::Clean));
}

#[test]
fn machine_closes_on_bad_head() {
    let mut s = Session::new();
    let actions = feed_head(&mut s, b"DELETE / HTTP/1.1\r\n\r\n");
    assert_eq!(actions.last(), Some(&Action::Close(SessionEnd::BadHead(HeadError::UnsupportedMethod))));
}

#[test]
fn machine_mid_body_close() {
    let mut s = Session::new();
    feed_head(&mut s, b"PUT / HTTP/1.1\r\nContent-Length: 4\r\n\r\n");
    assert_eq!(s.on_body_bytes(b"ab"), Action::ReadBody(2));
    assert_eq!(s.on_body_bytes(b""), Action::Close(SessionEnd::PeerClosedMidBody));
    let mut t = Session::new();
    feed_head(&mut t, b"PUT / HTTP/1.1\r\nContent-Length: 4\r\n\r\n");
    assert_eq!(t.on_end_of_input(), Action::Close(SessionEnd::PeerClosedMidBody));
}

#[test]
fn zero_length_body_answers_at_once() {
    let mut s = Session::new();
    let actions = feed_head(&mut s, b"POST / HTTP/1.1\r\nContent-Length: 0\r\n\r\n");
    assert_eq!(actions.last(), Some(&Action::Respond));
}

#[test]
fn server_keeps_its_endpoint() {
    let server = ToyHttpServer::new("127.0.0.1", 8080);
    assert_eq!(server.host(), "127.0.0.1");
    assert_eq!(server.port(), 8080);
}
