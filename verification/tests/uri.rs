use tcp2http::parse::parse_utils::Uri as UtilsUri;
use tcp2http::parse::uri::Uri;

#[test]
fn uri_split_path_and_query() {
    let mut u = Uri::new(b"/api/users?id=100&group=admin");
    u.split();
    assert_eq!(u.path, Some(&b"/api/users"[..]));
    assert_eq!(u.query, Some(&b"id=100&group=admin"[..]));
}

#[test]
fn uri_split_without_query() {
    let mut u = Uri::new(b"/a/b/c/d/e/f/g/h/long/path");
    u.split();
    assert_eq!(u.path, Some(&b"/a/b/c/d/e/f/g/h/long/path"[..]));
    assert_eq!(u.query, None);
}

#[test]
fn uri_split_question_in_first_block_and_tail() {
    let mut u = Uri::new(b"/ab?c");
    u.split();
    assert_eq!(u.path, Some(&b"/ab"[..]));
    assert_eq!(u.query, Some(&b"c"[..]));

    let mut u = Uri::new(b"/abcdefghij?k=v");
    u.split();
    assert_eq!(u.path, Some(&b"/abcdefghij"[..]));
    assert_eq!(u.query, Some(&b"k=v"[..]));

    let mut u = Uri::new(b"/p?");
    u.split();
    assert_eq!(u.path, Some(&b"/p"[..]));
    assert_eq!(u.query, Some(&b""[..]));
}

#[test]
fn uri_split_query_pairs() {
    let mut u = Uri::new(b"/s?id=100&group=admin&id=7&flag&&=x");
    u.split();
    u.split_query_string();
    assert_eq!(u.query_map.get("id"), Some(&vec!["100", "7"]));
    assert_eq!(u.query_map.get("group"), Some(&vec!["admin"]));
    assert_eq!(u.query_map.get("flag"), Some(&vec![""]));
    assert_eq!(u.query_map.get(""), Some(&vec!["x"]));
    assert_eq!(u.query_map.get("missing"), None);
}

#[test]
fn uri_query_value_with_equals_and_bad_utf8() {
    let raw: &[u8] = b"/s?a=b=c&k=\xff";
    let mut u = Uri::new(raw);
    u.split();
    u.split_query_string();
    assert_eq!(u.query_map.get("a"), Some(&vec!["b=c"]));
    assert_eq!(u.query_map.get("k"), Some(&vec![""]));
}

#[test]
fn uri_without_query_adds_nothing() {
    let mut u = Uri::new(b"/plain");
    u.split();
    u.split_query_string();
    assert_eq!(u.query_map.get("plain"), None);
}

#[test]
fn uri_reachable_from_parse_utils() {
    let mut u = UtilsUri::new(b"/x?y=z");
    u.split();
    assert_eq!(u.path, Some(&b"/x"[..]));
}
