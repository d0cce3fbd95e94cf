use toy_http_server::head::{
    find_declared_length, parse_decimal_bytes, parse_request_head, parse_status_line, HeadError, Method,
    RequestHead, Version,
};

#[test]
fn get_with_path_parses() {
    assert_eq!(parse_status_line(b"GET /path HTTP/1.1"), Ok((Method::Get, Version::Http11)));
}

#[test]
fn post_and_put_parse() {
    assert_eq!(parse_status_line(b"POST /a HTTP/1.0"), Ok((Method::Post, Version::Http10)));
    assert_eq!(parse_status_line(b"PUT * HTTP/0.9"), Ok((Method::Put, Version::Http09)));
}

#[test]
fn delete_is_refused() {
    assert_eq!(parse_status_line(b"DELETE / HTTP/1.1"), Err(HeadError::UnsupportedMethod));
}

#[test]
fn http2_is_refused() {
    assert_eq!(parse_status_line(b"GET / HTTP/2.0"), Err(HeadError::UnsupportedVersion));
}

#[test]
fn malformed_status_lines_are_refused() {
    for line in [
        &b"get / HTTP/1.1"[..],
        b"GET  HTTP/1.1",
        b"GET / HTTP/1.1 ",
        b"GET /a b HTTP/1.1",
        b"GET / HTTP/1x1",
        b"GET / HTTP/a.1",
        b"GET / FTP/1.1",
        b"",
        b"GET",
    ] {
        assert_eq!(parse_status_line(line), Err(HeadError::MalformedStatusLine));
    }
}

#[test]
fn head_with_content_length() {
    let head = parse_request_head(b"POST /x HTTP/1.1\r\nContent-Length: 5\r\n\r\n");
    assert_eq!(
        head,
        Ok(RequestHead { method: Method::Post, version: Version::Http11, declared_body_length: Some(5) })
    );
}

#[test]
fn field_name_ignores_case_and_value_is_trimmed() {
    let head = parse_request_head(b"GET / HTTP/1.1\r\nHost: a\r\ncOnTeNt-LeNgTh:\t 42 \r\n\r\n");
    assert_eq!(head.map(|h| h.declared_body_length), Ok(Some(42)));
}

#[test]
fn content_type_is_not_the_length_field() {
    let head = parse_request_head(b"GET / HTTP/1.1\r\nContent-Type: 7\r\n\r\n");
    assert_eq!(head.map(|h| h.declared_body_length), Ok(None));
}

#[test]
fn first_matching_field_decides() {
    let head = parse_request_head(b"GET / HTTP/1.1\r\nContent-Length: x\r\nContent-Length: 3\r\n\r\n");
    assert_eq!(head.map(|h| h.declared_body_length), Ok(None));
    let head = parse_request_head(b"GET / HTTP/1.1\r\nContent-Length: 3\r\nContent-Length: 9\r\n\r\n");
    assert_eq!(head.map(|h| h.declared_body_length), Ok(Some(3)));
}

#[test]
fn line_without_colon_is_skipped() {
    let head = parse_request_head(b"GET / HTTP/1.1\r\nContent-Length\r\nContent-Length: 8\r\n\r\n");
    assert_eq!(head.map(|h| h.declared_body_length), Ok(Some(8)));
}

#[test]
fn bad_status_line_refuses_the_head() {
    assert_eq!(
        parse_request_head(b"DELETE / HTTP/1.1\r\nContent-Length: 5\r\n\r\n"),
        Err(HeadError::UnsupportedMethod)
    );
}

#[test]
fn decimal_values() {
    assert_eq!(parse_decimal_bytes(b"0"), Some(0));
    assert_eq!(parse_decimal_bytes(b"123"), Some(123));
    assert_eq!(parse_decimal_bytes(b"+7"), Some(7));
    assert_eq!(parse_decimal_bytes(b""), None);
    assert_eq!(parse_decimal_bytes(b"+"), None);
    assert_eq!(parse_decimal_bytes(b"-1"), None);
    assert_eq!(parse_decimal_bytes(b"1 2"), None);
    assert_eq!(parse_decimal_bytes(b"18446744073709551615"), Some(usize::MAX));
    assert_eq!(parse_decimal_bytes(b"18446744073709551616"), None);
    assert_eq!(parse_decimal_bytes(b"99999999999999999999x"), None);
}

#[test]
fn declared_length_search_from_offset() {
    let s = b"Content-Length: 12\r\n\r\n";
    assert_eq!(find_declared_length(s, 0), Some(12));
    assert_eq!(find_declared_length(s, 20), None);
}

#[test]
fn status_lines_within_header_blocks() {
    let get = parse_request_head(b"GET /path HTTP/1.1\r\n\r\n");
    assert_eq!(get, Ok(RequestHead { method: Method::Get, version: Version::Http11, declared_body_length: None }));
    assert_eq!(parse_request_head(b"DELETE / HTTP/1.1\r\n\r\n"), Err(HeadError::UnsupportedMethod));
    assert_eq!(parse_request_head(b"GET / HTTP/2.0\r\n\r\n"), Err(HeadError::UnsupportedVersion));
}
