use tcp2http::parse::error::ParseError;
use tcp2http::parse::iter::ParseBuffer;
use tcp2http::parse::parse_utils::{match_header_name_vector, parse_method, parse_token};
use tcp2http::parse::parser::{parse_header_iter, HeaderMap, Request, Status};
#[test]
fn test_get_with_common_headers() {
    let mut headers = HeaderMap::new();
    let mut req = Request::new(&mut headers);
    let input = "GET /index.html HTTP/1.1\r\n\
                     Host: example.com\r\n\
                     User-Agent: Mozilla/5.0\r\n\
                     Accept: text/html\r\n\
                     Connection: keep-alive\r\n\r\n";

    let result = req.parse_header(input.as_bytes());
    assert_eq!(result, Ok(Status::Complete(())));
    assert_eq!(req.method, Some("GET"));
    assert_eq!(req.uri, Some("/index.html"));
    assert_eq!(req.version, Some(1));
    assert_eq!(
        req.headers.get("Host"),
        Some(&b"example.com"[..])
    );
    assert_eq!(
        req.headers.get("User-Agent"),
        Some(&b"Mozilla/5.0"[..])
    );
    assert_eq!(
        req.headers.get("Accept"),
        Some(&b"text/html"[..])
    );
    assert_eq!(
        req.headers.get("Connection"),
        Some(&b"keep-alive"[..])
    );
}

#[test]
fn test_post_with_content_headers() {
    let mut headers = HeaderMap::new();
    let mut req = Request::new(&mut headers);
    let input = "POST /submit HTTP/1.1\r\n\
                     Host: example.com\r\n\
                     Content-Type: application/json\r\n\
                     Content-Length: 42\r\n\r\n";

    let result = req.parse_header(input.as_bytes());
    assert_eq!(result, Ok(Status::Complete(())));
    assert_eq!(req.method, Some("POST"));
    assert_eq!(req.uri, Some("/submit"));
    assert_eq!(
        req.headers.get("Content-Type"),
        Some(&b"application/json"[..])
    );
    assert_eq!(
        req.headers.get("Content-Length"),
        Some(&b"42"[..])
    );
}

#[test]
fn test_http10_request() {
    let mut headers = HeaderMap::new();
    let mut req = Request::new(&mut headers);
    let input = "GET / HTTP/1.0\r\n\
                     Host: example.com\r\n\r\n";

    let result = req.parse_header(input.as_bytes());
    assert_eq!(result, Ok(Status::Complete(())));
    assert_eq!(req.version, Some(0));
}

#[test]
fn test_header_with_ows() {
    let mut headers = HeaderMap::new();
    let mut req = Request::new(&mut headers);
    let input = "GET / HTTP/1.1\r\n\
                     Host:   example.com   \r\n\r\n";

    let result = req.parse_header(input.as_bytes());
    assert_eq!(result, Ok(Status::Complete(())));
    assert_eq!(
        req.headers.get("Host"),
        Some(&b"example.com"[..])
    );
}

#[test]
fn test_multiple_headers_same_name() {
    let mut headers = HeaderMap::new();
    let mut req = Request::new(&mut headers);
    let input = "GET / HTTP/1.1\r\n\
                     Accept: text/html\r\n\
                     Accept: application/json\r\n\r\n";

    let result = req.parse_header(input.as_bytes());
    assert_eq!(result, Ok(Status::Complete(())));
}

#[test]
fn test_leading_crlf_tolerated() {
    let mut headers = HeaderMap::new();
    let mut req = Request::new(&mut headers);
    let input = "\r\nGET /index.html HTTP/1.1\r\n\
                     Host: example.com\r\n\r\n";

    let result = req.parse_header(input.as_bytes());
    assert_eq!(result, Ok(Status::Complete(())));
    assert_eq!(req.method, Some("GET"));
}

#[test]
fn parse_request_test_test_partial_empty() {
    let mut headers = HeaderMap::new();
    let mut req = Request::new(&mut headers);
    let result = req.parse_header(b"");
    assert_eq!(result, Ok(Status::Partial));
}

#[test]
fn test_partial_incomplete_request_line() {
    let mut headers = HeaderMap::new();
    let mut req = Request::new(&mut headers);
    let result = req.parse_header(b"GET /index.html");
    assert_eq!(result, Ok(Status::Partial));
}

#[test]
fn test_partial_incomplete_header() {
    let mut headers = HeaderMap::new();
    let mut req = Request::new(&mut headers);
    let result = req.parse_header(b"GET / HTTP/1.1\r\nHost: example");
    assert_eq!(result, Ok(Status::Partial));
}

#[test]
fn test_partial_missing_final_crlf() {
    let mut headers = HeaderMap::new();
    let mut req = Request::new(&mut headers);
    let result = req.parse_header(b"GET / HTTP/1.1\r\nHost: example.com\r\n");
    assert_eq!(result, Ok(Status::Partial));
}

#[test]
fn test_error_bare_cr_in_header_value() {
    let mut headers = HeaderMap::new();
    let mut req = Request::new(&mut headers);
    let result = req.parse_header(b"GET / HTTP/1.1\r\nHost: exam\rple\r\n\r\n");
    assert!(matches!(result, Err(ParseError::NewLine)));
}

#[test]
fn test_empty_header_value() {
    let mut headers = HeaderMap::new();
    let mut req = Request::new(&mut headers);
    let result = req.parse_header(b"GET / HTTP/1.1\r\nX-Empty:\r\n\r\n");
    assert_eq!(result, Ok(Status::Complete(())));
    assert_eq!(req.headers.get("X-Empty"), Some(&b""[..]));
}

#[test]
fn test_no_headers() {
    let mut headers = HeaderMap::new();
    let mut req = Request::new(&mut headers);
    let result = req.parse_header(b"GET / HTTP/1.1\r\n\r\n");
    assert_eq!(result, Ok(Status::Complete(())));
    assert_eq!(req.method, Some("GET"));
}

#[test]
fn test_error_empty_header_name() {
    let mut headers = HeaderMap::new();
    let mut req = Request::new(&mut headers);
    let result = req.parse_header(b"GET / HTTP/1.1\r\n: value\r\n\r\n");
    assert!(matches!(result, Err(ParseError::HeaderName)));
}

#[test]
fn test_partial_mid_value() {
    let mut headers = HeaderMap::new();
    let mut req = Request::new(&mut headers);
    let result = req.parse_header(b"GET / HTTP/1.1\r\nHost: exam");
    assert_eq!(result, Ok(Status::Partial));
}

#[test]
fn test_bare_lf_line_ending() {
    let mut headers = HeaderMap::new();
    let mut req = Request::new(&mut headers);
    let result = req.parse_header(b"GET / HTTP/1.1\nHost: example.com\n\n");
    assert_eq!(result, Ok(Status::Complete(())));
}

#[test]
fn short_final_header_is_read() {
    let mut headers = HeaderMap::new();
    let mut req = Request::new(&mut headers);
    assert_eq!(req.parse_header(b"GET / HTTP/1.1\r\nA:\r\n\r\n"), Ok(Status::Complete(())));
    assert_eq!(req.headers.get("A"), Some(&b""[..]));

    let mut headers = HeaderMap::new();
    let mut req = Request::new(&mut headers);
    assert_eq!(req.parse_header(b"GET / HTTP/1.1\nA:b\n\n"), Ok(Status::Complete(())));
    assert_eq!(req.headers.get("A"), Some(&b"b"[..]));
}

#[test]
fn short_header_block() {
    let mut b = ParseBuffer::new(b"A: b\r\n\r\n");
    let mut h = HeaderMap::new();
    assert!(matches!(parse_header_iter(&mut b, &mut h), Ok(Status::Complete(_))));
    assert_eq!(h.get("A"), Some(&b"b"[..]));

    let mut b = ParseBuffer::new(b"X:  a b \t\nY:\t\n\r\n");
    let mut h = HeaderMap::new();
    assert!(matches!(parse_header_iter(&mut b, &mut h), Ok(Status::Complete(_))));
    assert_eq!(h.get("X"), Some(&b"a b"[..]));
    assert_eq!(h.get("Y"), Some(&b""[..]));
}

#[test]
fn header_name_scan_from_cursor() {
    let mut b = ParseBuffer::new(b"Host:x");
    match_header_name_vector(&mut b);
    assert_eq!(b.cursor, 4);
    let mut b = ParseBuffer::new(b"Content-Type: text/html");
    match_header_name_vector(&mut b);
    assert_eq!(b.cursor, 12);
}

#[test]
fn parse_head_counts_head_bytes() {
    let mut headers = HeaderMap::new();
    let mut req = Request::new(&mut headers);
    let input = b"\r\nGET /a?b=c HTTP/1.0\r\nHost: x\r\n\r\nBODY";
    assert_eq!(req.parse_head(input), Ok(Status::Complete(input.len() - 4)));
    assert_eq!(req.uri, Some("/a?b=c"));
    assert_eq!(req.version, Some(0));
}

#[test]
fn control_byte_in_header_value_is_an_error() {
    let mut headers = HeaderMap::new();
    let mut req = Request::new(&mut headers);
    let result = req.parse_header(b"GET / HTTP/1.1\r\nX-A: a\x01b\r\n\r\n");
    assert_eq!(result, Err(ParseError::HeaderValue));
}

#[test]
fn truncated_heads_ask_for_more_bytes() {
    let head: &[u8] = b"GET /a HTTP/1.1\r\nHost: x\r\n\r\n";
    for j in 0..head.len() {
        let mut headers = HeaderMap::new();
        let mut req = Request::new(&mut headers);
        let r = req.parse_head(&head[..j]);
        if j == 4 {
            assert_eq!(r, Err(ParseError::Token));
        } else {
            assert_eq!(r, Ok(Status::Partial), "prefix of length {}", j);
        }
    }
}

#[test]
fn method_reads_as_token() {
    for input in [&b"GET / HTTP/1.1"[..], b"POST / HTTP/1.1", b"PUT / HTTP/1.1", b"GE", b"G3T /"] {
        let mut a = ParseBuffer::new(input);
        let mut b = ParseBuffer::new(input);
        assert_eq!(parse_method(&mut a), parse_token(&mut b));
        assert_eq!(a.cursor, b.cursor);
        assert_eq!(a.start, b.start);
    }
    let mut a = ParseBuffer::new(b"POSTX / HTTP/1.1");
    assert_eq!(parse_method(&mut a), Ok(Status::Complete("POST")));
}
