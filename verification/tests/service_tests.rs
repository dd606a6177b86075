use minihttp::policy::{parse_methods, MethodPolicy};
use minihttp::service::{handle_request, Connection};

fn unrestricted() -> MethodPolicy {
    MethodPolicy::unrestricted()
}

#[test]
fn get_with_body_is_echoed() {
    // A plain GET with a body: 200, computed Content-Length of banner
    // plus captured head plus body, then banner, head and body.
    let request = b"GET / HTTP/1.1\r\nHost: x\r\nContent-Length: 5\r\n\r\nhello";
    let raw_head = b"GET / HTTP/1.1\r\nHost: x\r\nContent-Length: 5\r\n\r\n";
    let policy = unrestricted();
    let out = handle_request(request, &policy);
    let mut expected = Vec::new();
    expected.extend_from_slice(b"HTTP/1.1 200 OK\r\n");
    expected.extend_from_slice(b"Content-Type: text/plain; charset=utf-8\r\n");
    expected.extend_from_slice(format!("Content-Length: {}\r\n", 12 + raw_head.len() + 5).as_bytes());
    expected.extend_from_slice(b"\r\n");
    expected.extend_from_slice(b"Hello HTTP\n\n");
    expected.extend_from_slice(raw_head);
    expected.extend_from_slice(b"hello");
    assert_eq!(out, expected);
}

#[test]
fn head_gets_headers_only() {
    // HEAD: status 200 and Content-Type, then the bare end of the
    // header block; no banner, no Content-Length, no echo.
    let out = handle_request(b"HEAD / HTTP/1.1\r\n\r\n", &unrestricted());
    assert_eq!(
        out,
        b"HTTP/1.1 200 OK\r\nContent-Type: text/plain; charset=utf-8\r\n\r\n".to_vec()
    );
}

#[test]
fn two_token_request_line_is_malformed() {
    // "GET /" alone: no protocol token, two tokens, so 500 and no body.
    let out = handle_request(b"GET /", &unrestricted());
    assert_eq!(out, b"HTTP/1.0 500 Internal Server Error\r\n\r\n".to_vec());
}

#[test]
fn denied_method_gets_405_and_no_body_read() {
    let policy = MethodPolicy { allow: None, deny: parse_methods(b"OPTIONS") };
    let out = handle_request(b"OPTIONS /x HTTP/1.0\r\n\r\n", &policy);
    assert_eq!(out, b"HTTP/1.0 405 Method Not Allowed\r\n\r\n".to_vec());
    assert!(out.starts_with(b"HTTP/1.0 405"));
}

#[test]
fn denied_method_closes_at_the_request_line() {
    // Fed incrementally, the connection refuses further input right
    // after the request line: nothing past it is ever consumed.
    let policy = MethodPolicy { allow: None, deny: parse_methods(b"OPTIONS") };
    let mut conn = Connection::new(&policy);
    let mut out = Vec::new();
    let request = b"OPTIONS /x HTTP/1.0\r\n";
    let mut open = true;
    for (i, b) in request.iter().enumerate() {
        open = conn.push_byte(*b, &mut out);
        if i + 1 < request.len() {
            assert!(open, "closed before the request line ended");
        }
    }
    assert!(!open);
    assert_eq!(out, b"HTTP/1.0 405 Method Not Allowed\r\n\r\n".to_vec());
}

#[test]
fn four_token_request_line_is_malformed() {
    let out = handle_request(b"GET / HTTP/1.1 X\r\n\r\n", &unrestricted());
    assert_eq!(out, b"HTTP/1.0 500 Internal Server Error\r\n\r\n".to_vec());
}

#[test]
fn repeated_spaces_still_make_three_tokens() {
    let out = handle_request(b"HEAD  /  HTTP/1.1\r\n\r\n", &unrestricted());
    assert_eq!(
        out,
        b"HTTP/1.1 200 OK\r\nContent-Type: text/plain; charset=utf-8\r\n\r\n".to_vec()
    );
}

#[test]
fn unparseable_content_length_is_absent() {
    // A Content-Length that does not parse is treated as absent: the
    // body is taken to be empty and nothing past the headers is read.
    let request = b"GET / HTTP/1.1\r\nContent-Length: abc\r\n\r\nbody";
    let raw_head = b"GET / HTTP/1.1\r\nContent-Length: abc\r\n\r\n";
    let out = handle_request(request, &unrestricted());
    let mut expected = Vec::new();
    expected.extend_from_slice(b"HTTP/1.1 200 OK\r\n");
    expected.extend_from_slice(b"Content-Type: text/plain; charset=utf-8\r\n");
    expected.extend_from_slice(format!("Content-Length: {}\r\n", 12 + raw_head.len()).as_bytes());
    expected.extend_from_slice(b"\r\n");
    expected.extend_from_slice(b"Hello HTTP\n\n");
    expected.extend_from_slice(raw_head);
    assert_eq!(out, expected);
}

#[test]
fn later_content_length_overrides_earlier() {
    // A later unparseable Content-Length does not keep the earlier
    // value alive: the length collapses to absent.
    let request = b"GET / HTTP/1.1\r\nContent-Length: 5\r\nContent-Length: x\r\n\r\nhello";
    let raw_head = b"GET / HTTP/1.1\r\nContent-Length: 5\r\nContent-Length: x\r\n\r\n";
    let out = handle_request(request, &unrestricted());
    let mut expected = Vec::new();
    expected.extend_from_slice(b"HTTP/1.1 200 OK\r\n");
    expected.extend_from_slice(b"Content-Type: text/plain; charset=utf-8\r\n");
    expected.extend_from_slice(format!("Content-Length: {}\r\n", 12 + raw_head.len()).as_bytes());
    expected.extend_from_slice(b"\r\n");
    expected.extend_from_slice(b"Hello HTTP\n\n");
    expected.extend_from_slice(raw_head);
    assert_eq!(out, expected);
}

#[test]
fn header_name_is_case_insensitive() {
    let request = b"GET / HTTP/1.1\r\nCONTENT-LENGTH: 2\r\n\r\nok";
    let out = handle_request(request, &unrestricted());
    assert!(out.ends_with(b"ok"));
}

#[test]
fn echo_stops_early_at_end_of_stream() {
    // Content-Length announces 5 bytes but the stream ends after 2:
    // the echo sends what arrived and the connection closes.
    let request = b"GET / HTTP/1.1\r\nContent-Length: 5\r\n\r\nab";
    let out = handle_request(request, &unrestricted());
    assert!(out.ends_with(b"\r\n\r\nab"));
}

#[test]
fn header_line_without_colon_is_skipped() {
    let request = b"GET / HTTP/1.1\r\nnot a header\r\nContent-Length: 2\r\n\r\nok";
    let out = handle_request(request, &unrestricted());
    assert!(out.ends_with(b"ok"));
}

#[test]
fn lowercase_method_is_uppercased_for_policy() {
    let policy = MethodPolicy { allow: None, deny: parse_methods(b"post") };
    let out = handle_request(b"post / HTTP/1.1\r\n\r\n", &policy);
    assert_eq!(out, b"HTTP/1.1 405 Method Not Allowed\r\n\r\n".to_vec());
}

#[test]
fn empty_input_is_malformed() {
    let out = handle_request(b"", &unrestricted());
    assert_eq!(out, b"HTTP/1.0 500 Internal Server Error\r\n\r\n".to_vec());
}
