use toy_http_server::scanner::{read_headers, HeaderScanner};

#[test]
fn block_ends_at_first_terminator() {
    let input = b"GET / HTTP/1.1\r\nHost: x\r\n\r\nextra\r\n\r\n";
    let block = match read_headers(input) {
        Ok(block) => block,
        Err(_) => panic!("terminator not found"),
    };
    assert_eq!(block, b"GET / HTTP/1.1\r\nHost: x\r\n\r\n".to_vec());
}

#[test]
fn block_is_exactly_the_terminator() {
    let block = match read_headers(b"\r\n\r\nrest") {
        Ok(block) => block,
        Err(_) => panic!("terminator not found"),
    };
    assert_eq!(block, b"\r\n\r\n".to_vec());
}

#[test]
fn missing_terminator_is_incomplete_with_all_bytes() {
    let input = b"GET / HTTP/1.1\r\nHost: x\r\n\r";
    match read_headers(input) {
        Ok(_) => panic!("no terminator was sent"),
        Err(e) => assert_eq!(e.partial, input.to_vec()),
    }
}

#[test]
fn empty_input_is_incomplete() {
    match read_headers(b"") {
        Ok(_) => panic!("no terminator was sent"),
        Err(e) => assert!(e.partial.is_empty()),
    }
}

#[test]
fn scanner_reports_terminator_on_its_last_byte() {
    let mut s = HeaderScanner::new();
    let bytes = b"A\r\n\r\n";
    let mut seen = Vec::new();
    for &b in bytes.iter() {
        seen.push(s.push(b));
    }
    assert_eq!(seen, vec![false, false, false, false, true]);
    assert_eq!(s.len(), 5);
    assert_eq!(s.take_block(), bytes.to_vec());
    assert_eq!(s.len(), 0);
}

#[test]
fn split_terminators_do_not_count() {
    let mut s = HeaderScanner::new();
    let mut done = false;
    for &b in b"\r\nx\r\n".iter() {
        done = s.push(b);
    }
    assert!(!done);
}
