use tcp2http::parse::parser::{HeaderMap, Request, Response};
use tcp2http::parse::uri::Uri;
use tcp2http::router::context::Context;
use tcp2http::router::engine::{build_not_found, Engine};
use tcp2http::router::error::RouterError;
use tcp2http::router::radix_tree::{check_not_null, longest_common_prefix, Node, RadixTree};

const NOT_FOUND: &[u8] = b"HTTP/1.1 404 Not Found\r\nContent-Length: 0\r\n\r\n";

fn hello(ctx: &mut Context) {
    ctx.html("<h1>Hello, world!</h1>");
    ctx.status(200);
}

fn posted(ctx: &mut Context) {
    ctx.string("created");
    ctx.status(201);
}

fn echo_query(ctx: &mut Context) {
    let v = ctx.key_query_or_not("name").unwrap_or("nobody");
    ctx.header("X-Name", "set");
    ctx.status(if v == "ann" { 200 } else { 404 });
}

fn engine() -> Engine<'static, fn(&mut Context)> {
    let mut e: Engine<'static, fn(&mut Context)> = Engine::new();
    e.get(b"/", hello as fn(&mut Context));
    e.post(b"/", posted as fn(&mut Context));
    e.get(b"/q", echo_query as fn(&mut Context));
    e
}

#[test]
fn lcp_readme_example() {
    assert_eq!(longest_common_prefix(b"apple", b"application"), 4);
    assert_eq!(longest_common_prefix(b"app", b"apple"), 3);
    assert_eq!(longest_common_prefix(b"", b"x"), 0);
    assert_eq!(longest_common_prefix(b"le", b"lication"), 1);
}

#[test]
fn check_not_null_cases() {
    assert_eq!(check_not_null(b""), Err(RouterError::NullKey));
    assert_eq!(check_not_null(b"a"), Ok(()));
}

#[test]
fn radix_readme_insert_example() {
    let mut tree: RadixTree<&str> = RadixTree::new(Node::default());
    assert_eq!(tree.insert(b"app", "one"), Ok(()));
    assert_eq!(tree.insert(b"apple", "two"), Ok(()));
    assert_eq!(tree.insert(b"application", "three"), Ok(()));
    assert_eq!(tree.find(b"app"), Some(&"one"));
    assert_eq!(tree.find(b"apple"), Some(&"two"));
    assert_eq!(tree.find(b"application"), Some(&"three"));
    assert_eq!(tree.find(b"appl"), None);

    let root = tree.root();
    assert_eq!(root.child_count(), 1);
    let app = root.child(0);
    assert_eq!(app.prefix(), b"app");
    assert_eq!(app.value(), Some(&"one"));
    assert_eq!(app.child_count(), 1);
    let l = app.child(0);
    assert_eq!(l.prefix(), b"l");
    assert_eq!(l.value(), None);
    assert_eq!(l.child_count(), 2);
    assert_eq!(l.child(0).prefix(), b"e");
    assert_eq!(l.child(0).value(), Some(&"two"));
    assert_eq!(l.child(0).child_count(), 0);
    assert_eq!(l.child(1).prefix(), b"ication");
    assert_eq!(l.child(1).value(), Some(&"three"));
    assert_eq!(l.child(1).child_count(), 0);
}

#[test]
fn radix_insert_order_gives_same_lookups() {
    let keys: [&[u8]; 5] = [b"romane", b"romanus", b"roman", b"rubicon", b"r"];
    let mut a: RadixTree<usize> = RadixTree::new(Node::default());
    let mut b: RadixTree<usize> = RadixTree::new(Node::default());
    for (i, k) in keys.iter().enumerate() {
        a.insert(k, i).unwrap();
    }
    for (i, k) in keys.iter().enumerate().rev() {
        b.insert(k, i).unwrap();
    }
    for k in keys.iter() {
        assert_eq!(a.find(k), b.find(k));
    }
    assert_eq!(a.find(b"rom"), None);
    assert_eq!(b.find(b"rom"), None);
}

#[test]
fn router_error_descriptions() {
    assert_eq!(RouterError::DuplicateKey.description_str(), "Key already exists");
    assert_eq!(RouterError::NullKey.description_str(), "Key does not exist");
    assert_eq!(RouterError::NullValue.description_str(), "Value does not exist");
}

#[test]
fn not_found_bytes() {
    assert_eq!(build_not_found(), NOT_FOUND.to_vec());
}

#[test]
fn context_status_reasons() {
    let mut rh = HeaderMap::new();
    let mut qh = HeaderMap::new();
    let req = Request::new(&mut qh);
    let mut res = Response::new(&mut rh);
    let mut ctx = Context::new(&req, &mut res, Uri::new(b"/"));
    let table: [(u16, &str); 11] = [
        (200, "OK"),
        (201, "Created"),
        (204, "No Content"),
        (301, "Moved Permanently"),
        (302, "Found"),
        (400, "Bad Request"),
        (401, "Unauthorized"),
        (403, "Forbidden"),
        (404, "Not Found"),
        (500, "Internal) Server Error"),
        (418, "Unknown"),
    ];
    for (code, reason) in table.iter() {
        ctx.status(*code);
        assert_eq!(ctx.res.status_code, Some(*code));
        assert_eq!(ctx.res.reason, Some(*reason));
    }
}

#[test]
fn context_body_and_headers() {
    let mut rh = HeaderMap::new();
    let mut qh = HeaderMap::new();
    let req = Request::new(&mut qh);
    let mut res = Response::new(&mut rh);
    {
        let mut ctx = Context::new(&req, &mut res, Uri::new(b"/"));
        ctx.html("<p>a</p>");
        ctx.string("b");
        ctx.header("X-One", "1").header("X-One", "2");
    }
    assert_eq!(res.body, b"<p>a</p>b".to_vec());
    assert_eq!(res.headers.get("Content-Type"), Some(&b"text/plain; charset=utf-8"[..]));
    assert_eq!(res.headers.get("X-One"), Some(&b"2"[..]));
}

#[test]
fn context_query_access() {
    let mut rh = HeaderMap::new();
    let mut qh = HeaderMap::new();
    let req = Request::new(&mut qh);
    let mut res = Response::new(&mut rh);
    let mut uri = Uri::new(b"/search?tag=a&tag=b&q=rust");
    uri.split();
    uri.split_query_string();
    let ctx = Context::new(&req, &mut res, uri);
    assert_eq!(ctx.query("q"), "rust");
    assert_eq!(ctx.query("tag"), "a");
    assert_eq!(ctx.key_query_or_not("tag"), Some("a"));
    assert_eq!(ctx.key_query_or_not("none"), None);
    assert_eq!(ctx.query_array("tag"), &["a", "b"][..]);
    assert!(ctx.query_array("none").is_empty());
    assert_eq!(ctx.path(), b"/search");
}

#[test]
fn context_path_defaults_to_root() {
    let mut rh = HeaderMap::new();
    let mut qh = HeaderMap::new();
    let req = Request::new(&mut qh);
    let mut res = Response::new(&mut rh);
    let ctx = Context::new(&req, &mut res, Uri::new(b"/unsplit"));
    assert_eq!(ctx.path(), b"/");
}

#[test]
fn dispatch_get_route() {
    let e = engine();
    let mut rh = HeaderMap::new();
    let mut qh = HeaderMap::new();
    let mut req = Request::new(&mut qh);
    req.method = Some("GET");
    req.uri = Some("/");
    let mut res = Response::new(&mut rh);
    let out = e.dispatch(&req, &mut res);
    let body = "<h1>Hello, world!</h1>";
    let expected = format!(
        "HTTP/1.1 200 OK\r\nContent-Type: text/html; charset=utf-8\r\nContent-Length: {}\r\n\r\n{}",
        body.len(),
        body
    );
    assert_eq!(out, expected.into_bytes());
    assert_eq!(res.status_code, Some(200));
}

#[test]
fn dispatch_post_route_and_defaults() {
    let e = engine();
    let mut rh = HeaderMap::new();
    let mut qh = HeaderMap::new();
    let mut req = Request::new(&mut qh);
    req.method = Some("POST");
    let mut res = Response::new(&mut rh);
    let out = e.dispatch(&req, &mut res);
    let expected = "HTTP/1.1 201 Created\r\nContent-Type: text/plain; charset=utf-8\r\nContent-Length: 7\r\n\r\ncreated";
    assert_eq!(out, expected.as_bytes().to_vec());

    let mut rh2 = HeaderMap::new();
    let mut qh2 = HeaderMap::new();
    let req2 = Request::new(&mut qh2);
    let mut res2 = Response::new(&mut rh2);
    let out2 = e.dispatch(&req2, &mut res2);
    assert!(out2.starts_with(b"HTTP/1.1 200 OK\r\n"));
}

#[test]
fn dispatch_with_query() {
    let e = engine();
    let mut rh = HeaderMap::new();
    let mut qh = HeaderMap::new();
    let mut req = Request::new(&mut qh);
    req.uri = Some("/q?name=ann");
    let mut res = Response::new(&mut rh);
    let out = e.dispatch(&req, &mut res);
    assert_eq!(out, b"HTTP/1.1 200 OK\r\nX-Name: set\r\nContent-Length: 0\r\n\r\n".to_vec());
}

#[test]
fn dispatch_not_found_cases() {
    let e = engine();
    for (m, u) in [(Some("GET"), Some("/missing")), (Some("PUT"), Some("/")), (Some("GET"), Some("?x=1"))] {
        let mut rh = HeaderMap::new();
        let mut qh = HeaderMap::new();
        let mut req = Request::new(&mut qh);
        req.method = m;
        req.uri = u;
        let mut res = Response::new(&mut rh);
        let out = e.dispatch(&req, &mut res);
        assert_eq!(out, NOT_FOUND.to_vec());
        assert_eq!(res.status_code, None);
        assert!(res.body.is_empty());
    }
}

#[test]
fn engine_ignores_empty_and_duplicate_paths() {
    let mut e = engine();
    e.get(b"", posted as fn(&mut Context));
    e.get(b"/", posted as fn(&mut Context));
    let mut rh = HeaderMap::new();
    let mut qh = HeaderMap::new();
    let mut req = Request::new(&mut qh);
    req.method = Some("GET");
    req.uri = Some("/");
    let mut res = Response::new(&mut rh);
    let out = e.dispatch(&req, &mut res);
    assert!(out.starts_with(b"HTTP/1.1 200 OK\r\n"));
}
