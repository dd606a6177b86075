use minihttp::frame::{FrameScanner, ScanEvent};

fn feed(scanner: &mut FrameScanner, bytes: &[u8]) -> Vec<ScanEvent> {
    let mut events = Vec::new();
    for b in bytes {
        events.push(scanner.push(*b));
    }
    events
}

#[test]
fn request_line_and_headers_are_carved() {
    let mut scanner = FrameScanner::new();
    let events = feed(&mut scanner, b"get /index HTTP/1.1\r\n");
    assert!(matches!(events.last(), Some(ScanEvent::GotRequestLine)));
    assert_eq!(scanner.method(), &b"GET".to_vec());
    assert_eq!(scanner.protocol(), &b"HTTP/1.1".to_vec());

    let events = feed(&mut scanner, b"Content-Length: 5\r\n");
    assert!(events.iter().all(|e| matches!(e, ScanEvent::Progress)));
    assert_eq!(scanner.content_length(), Some(5));

    let events = feed(&mut scanner, b"\r\n");
    assert!(matches!(events.last(), Some(ScanEvent::HeadersDone)));
    assert_eq!(scanner.raw(), &b"get /index HTTP/1.1\r\nContent-Length: 5\r\n\r\n".to_vec());
}

#[test]
fn bad_request_line_is_reported() {
    let mut scanner = FrameScanner::new();
    let events = feed(&mut scanner, b"GET /\r\n");
    assert!(matches!(events.last(), Some(ScanEvent::BadRequestLine)));
}

#[test]
fn finish_parses_a_partial_request_line() {
    let mut scanner = FrameScanner::new();
    feed(&mut scanner, b"GET / HTTP/1.0");
    let ev = scanner.finish();
    assert!(matches!(ev, ScanEvent::GotRequestLine));
    assert_eq!(scanner.method(), &b"GET".to_vec());
    assert_eq!(scanner.protocol(), &b"HTTP/1.0".to_vec());
}

#[test]
fn finish_of_a_short_line_is_malformed() {
    let mut scanner = FrameScanner::new();
    feed(&mut scanner, b"GET /");
    let ev = scanner.finish();
    assert!(matches!(ev, ScanEvent::BadRequestLine));
}

#[test]
fn content_length_value_is_trimmed() {
    let mut scanner = FrameScanner::new();
    feed(&mut scanner, b"GET / HTTP/1.1\r\nContent-Length:   41  \r\n");
    assert_eq!(scanner.content_length(), Some(41));
}
