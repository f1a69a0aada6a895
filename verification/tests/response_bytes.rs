use tcp2http::parse::error::ParseError;
use tcp2http::parse::parser::{push_decimal, HeaderMap, Response, Status};

#[test]
fn build_default_response() {
    let mut h = HeaderMap::new();
    let res = Response::new(&mut h);
    assert_eq!(res.build(), b"HTTP/1.1 200 OK\r\nContent-Length: 0\r\n\r\n".to_vec());
}

#[test]
fn build_with_status_headers_and_body() {
    let mut h = HeaderMap::new();
    h.insert("Server", b"tcp2http");
    h.insert("X-A", b"1");
    h.insert("Server", b"again");
    let mut res = Response::new(&mut h);
    res.status_code = Some(404);
    res.reason = Some("Not Found");
    res.body.extend_from_slice(b"nothing here");
    assert_eq!(
        res.build(),
        b"HTTP/1.1 404 Not Found\r\nServer: again\r\nX-A: 1\r\nContent-Length: 12\r\n\r\nnothing here".to_vec()
    );
}

#[test]
fn build_code_without_reason() {
    let mut h = HeaderMap::new();
    let mut res = Response::new(&mut h);
    res.status_code = Some(7);
    assert_eq!(res.build(), b"HTTP/1.1 7 \r\nContent-Length: 0\r\n\r\n".to_vec());
}

#[test]
fn built_status_line_parses_back() {
    let mut h = HeaderMap::new();
    h.insert("Content-Type", b"text/html");
    let mut res = Response::new(&mut h);
    res.status_code = Some(500);
    res.reason = Some("Internal Server Error");
    let bytes = res.build();
    let mut h2 = HeaderMap::new();
    let mut back = Response::new(&mut h2);
    assert_eq!(back.parse_header(&bytes), Ok(Status::Complete(())));
    assert_eq!(back.status_code, Some(500));
    assert_eq!(back.reason, Some("Internal Server Error"));
    assert_eq!(back.version, Some(1));
    assert_eq!(back.headers.get("Content-Type"), Some(&b"text/html"[..]));
    assert_eq!(back.headers.get("Content-Length"), Some(&b"0"[..]));
}

#[test]
fn decimal_digits() {
    let mut v = Vec::new();
    push_decimal(&mut v, 0);
    push_decimal(&mut v, 9);
    v.push(b' ');
    push_decimal(&mut v, 1234567);
    assert_eq!(v, b"09 1234567".to_vec());
}

#[test]
fn header_map_insert_replaces() {
    let mut h = HeaderMap::new();
    h.insert("Accept", b"text/html");
    h.insert("Accept", b"application/json");
    assert_eq!(h.get("Accept"), Some(&b"application/json"[..]));
    assert_eq!(h.get("accept"), None);
}

#[test]
fn parse_error_descriptions() {
    let all = [
        (ParseError::HeaderName, "invalid header name"),
        (ParseError::HeaderValue, "invalid header value"),
        (ParseError::NewLine, "invalid new line"),
        (ParseError::StatusCode, "invalid response status"),
        (ParseError::Token, "invalid token"),
        (ParseError::TooManyHeaders, "too many headers"),
        (ParseError::Version, "invalid HTTP version"),
        (ParseError::Reason, "invalid reason"),
        (ParseError::ReasonInvalidCode, "invalid reason code"),
    ];
    for (e, m) in all.iter() {
        assert_eq!(e.description_str(), *m);
    }
}

#[test]
fn response_reason_separator_error() {
    let mut h = HeaderMap::new();
    let mut res = Response::new(&mut h);
    assert_eq!(res.parse_header(b"HTTP/1.1 200X\r\n\r\n"), Err(ParseError::Reason));
}
