use crate::parse::iter::bytes_eq;
use crate::parse::parse_utils::{lemma_scan_while_mid, scan_while};
use crate::parse::parser::{response_bytes, text_of, Request, Response};
use crate::parse::tchar::QUESTION;
use crate::parse::uri::{other_than, query_pairs_from, Uri};
use crate::router::context::Context;
use crate::router::radix_tree::{Node, RadixTree};
use vstd::prelude::*;
use vstd::string::StringSliceAdditionalSpecFns;

verus! {

/// The path of a request target: what comes before its first `?`, or all of it.
pub open spec fn target_path(raw: Seq<u8>) -> Seq<u8> {
    let q = scan_while(raw, 0, other_than(QUESTION));
    if q < raw.len() {
        raw.subrange(0, q)
    } else {
        raw
    }
}

/// The query map of a request target: the pairs of what follows its first `?`, and none when
/// there is no `?`.
pub open spec fn target_query(raw: Seq<u8>) -> Map<Seq<u8>, Seq<Seq<u8>>> {
    let q = scan_while(raw, 0, other_than(QUESTION));
    if q < raw.len() {
        query_pairs_from(raw.subrange(q + 1, raw.len() as int), 0, Map::empty())
    } else {
        Map::empty()
    }
}

/// The answer to a request that no route takes.
pub open spec fn not_found_bytes() -> Seq<u8> {
    "HTTP/1.1 404 Not Found\r\n".spec_bytes() + "Content-Length: 0\r\n\r\n".spec_bytes()
}

/// The bytes of a text, or of `default` when there is none.
pub open spec fn text_or(t: Option<&str>, default: Seq<u8>) -> Seq<u8> {
    match t {
        Some(s) => s.spec_bytes(),
        None => default,
    }
}

/// The answer to a request that no route takes.
pub fn build_not_found() -> (r: Vec<u8>)
    ensures
        r@ == not_found_bytes(),
{
    let mut buf: Vec<u8> = Vec::with_capacity(1024);
    buf.extend_from_slice("HTTP/1.1 404 Not Found\r\n".as_bytes());
    buf.extend_from_slice("Content-Length: 0\r\n\r\n".as_bytes());
    assert(buf@ =~= not_found_bytes());
    buf
}

/// The routes of a server: one tree of paths for `GET` and one for `POST`, each path
/// with its handler.
pub struct Engine<'a, H> {
    get_tree: RadixTree<'a, H>,
    post_tree: RadixTree<'a, H>,
}

impl<'a, H> Engine<'a, H> {
    /// The `GET` routes.
    pub closed spec fn get_routes(&self) -> Map<Seq<u8>, H> {
        self.get_tree@
    }

    /// The `POST` routes.
    pub closed spec fn post_routes(&self) -> Map<Seq<u8>, H> {
        self.post_tree@
    }

    /// How many `GET` routes were added.
    pub closed spec fn get_count(&self) -> nat {
        self.get_tree.inserted()
    }

    /// How many `POST` routes were added.
    pub closed spec fn post_count(&self) -> nat {
        self.post_tree.inserted()
    }

    /// Both trees are well formed.
    pub closed spec fn wf(&self) -> bool {
        self.get_tree.wf() && self.post_tree.wf()
    }

    /// An engine with no routes.
    pub fn new() -> (r: Self)
        ensures
            r.wf(),
            r.get_routes() == Map::<Seq<u8>, H>::empty(),
            r.post_routes() == Map::<Seq<u8>, H>::empty(),
            r.get_count() == 0,
            r.post_count() == 0,
    {
        let g = RadixTree::new(Node::default());
        let p = RadixTree::new(Node::default());
        let r = Self { get_tree: g, post_tree: p };
        assert(r.get_routes() =~= Map::<Seq<u8>, H>::empty());
        assert(r.post_routes() =~= Map::<Seq<u8>, H>::empty());
        r
    }

    /// Adds `handler` for `GET` requests to `path`; a path that is empty or already taken
    /// is ignored.
    pub fn get(&mut self, path: &'a [u8], handler: H) -> (r: &mut Self)
        requires
            old(self).wf(),
            old(self).get_count() < usize::MAX,
        ensures
            r.wf(),
            r.get_routes() == (if path@.len() > 0 && !old(self).get_routes().contains_key(path@) {
                old(self).get_routes().insert(path@, handler)
            } else {
                old(self).get_routes()
            }),
            r.get_count() == (if path@.len() > 0 && !old(self).get_routes().contains_key(path@) {
                old(self).get_count() + 1
            } else {
                old(self).get_count()
            }),
            r.post_routes() == old(self).post_routes(),
            r.post_count() == old(self).post_count(),
            *final(self) == *final(r),
    {
        let _ = self.get_tree.insert(path, handler);
        self
    }

    /// Adds `handler` for `POST` requests to `path`; a path that is empty or already taken
    /// is ignored.
    pub fn post(&mut self, path: &'a [u8], handler: H) -> (r: &mut Self)
        requires
            old(self).wf(),
            old(self).post_count() < usize::MAX,
        ensures
            r.wf(),
            r.post_routes() == (if path@.len() > 0 && !old(self).post_routes().contains_key(path@) {
                old(self).post_routes().insert(path@, handler)
            } else {
                old(self).post_routes()
            }),
            r.post_count() == (if path@.len() > 0 && !old(self).post_routes().contains_key(path@) {
                old(self).post_count() + 1
            } else {
                old(self).post_count()
            }),
            r.get_routes() == old(self).get_routes(),
            r.get_count() == old(self).get_count(),
            *final(self) == *final(r),
    {
        let _ = self.post_tree.insert(path, handler);
        self
    }
}

/// A handler that can be called on every context whose response headers and query are
/// well formed.
pub open spec fn accepts_all<H: Fn(&mut Context)>(h: H) -> bool {
    forall|c: &mut Context|
        #![trigger call_requires(h, (c,))]
        c.res.headers.wf() && c.uri.wf() ==> call_requires(h, (c,))
}

impl<'a, H: Fn(&mut Context)> Engine<'a, H> {
    /// Every route's handler can be called on every well-formed context.
    pub open spec fn handlers_ready(&self) -> bool {
        &&& forall|k: Seq<u8>| #[trigger] self.get_routes().contains_key(k) ==> accepts_all(self.get_routes()[k])
        &&& forall|k: Seq<u8>| #[trigger] self.post_routes().contains_key(k) ==> accepts_all(self.post_routes()[k])
    }

    /// Answers a request: looks its path up among the routes of its method (`GET` when the
    /// request has none; the path is the target up to its first `?`, `/` when there is no
    /// target), runs the handler found on a context over the request, `res` and the split
    /// target (its path and its query pairs), and returns the bytes of the response the handler
    /// left; with no such route, or another method, the answer is `404 Not Found` and `res` is
    /// left as it was.
    pub fn dispatch<'h, 'b>(&self, req: &Request<'h, 'b>, res: &mut Response<'h, 'b>) -> (r: Vec<u8>)
        requires
            self.wf(),
            self.handlers_ready(),
            old(res).headers.wf(),
        ensures
            ({
                let m = text_or(req.method, "GET".spec_bytes());
                let p = target_path(text_or(req.uri, "/".spec_bytes()));
                let routes = if m == "GET".spec_bytes() {
                    self.get_routes()
                } else if m == "POST".spec_bytes() {
                    self.post_routes()
                } else {
                    Map::<Seq<u8>, H>::empty()
                };
                if routes.contains_key(p) {
                    &&& exists|c: &mut Context<'h, 'b, '_>|
                        {
                            &&& call_ensures(routes[p], (c,), ())
                            &&& c.req == req
                            &&& *c.res == *old(res)
                            &&& *final(c.res) == *final(res)
                            &&& c.uri.path matches Some(x) && x@ == p
                            &&& c.uri.query_map.wf()
                            &&& c.uri.query_map@ == target_query(text_or(req.uri, "/".spec_bytes()))
                        }
                    &&& r@ == response_bytes(
                        final(res).status_code,
                        text_of(final(res).reason),
                        final(res).headers.fields(),
                        final(res).body@,
                    )
                } else {
                    &&& r@ == not_found_bytes()
                    &&& *final(res) == *old(res)
                }
            }),
    {
        let method = match req.method {
            Some(m) => m,
            None => "GET",
        };
        let target = match req.uri {
            Some(u) => u,
            None => "/",
        };
        let path = target.as_bytes();
        let mut uri = Uri::new(path);
        uri.split();
        uri.split_query_string();
        let path: &[u8] = match uri.path {
            Some(p) => p,
            None => {
                proof {
                    assert(false);
                }
                vstd::pervasive::unreached()
            },
        };
        proof {
            let t = target.spec_bytes();
            let q = scan_while(t, 0, other_than(QUESTION));
            assert(t.subrange(0, t.len() as int) =~= t);
        }
        let is_get = bytes_eq(method.as_bytes(), "GET".as_bytes());
        let is_post = bytes_eq(method.as_bytes(), "POST".as_bytes());
        let ghost routes = if is_get {
            self.get_routes()
        } else {
            self.post_routes()
        };
        let tree = if is_get {
            &self.get_tree
        } else if is_post {
            &self.post_tree
        } else {
            return build_not_found();
        };
        match tree.find(path) {
            Some(handle) => {
                proof {
                    assert(routes.contains_key(path@));
                    assert(accepts_all(routes[path@]));
                }
                let mut ctx = Context::new(req, res, uri);
                handle(&mut ctx);
                res.build()
            },
            None => build_not_found(),
        }
    }
}

/// A route's path (which holds no `?`) is the path of a target that is the path itself, or
/// the path followed by `?` and a query.
pub proof fn law_route_target(p: Seq<u8>, q: Seq<u8>)
    requires
        forall|i: int| 0 <= i < p.len() ==> p[i] != QUESTION,
    ensures
        target_path(p) == p,
        target_path(p + seq![QUESTION] + q) == p,
{
    lemma_scan_while_mid(p, 0, p.len() as int, other_than(QUESTION));
    assert(p.subrange(0, p.len() as int) =~= p);
    let t = p + seq![QUESTION] + q;
    assert forall|i: int| 0 <= i < p.len() implies t[i] != QUESTION by {
        assert(t[i] == p[i]);
    }
    lemma_scan_while_mid(t, 0, p.len() as int, other_than(QUESTION));
    assert(t[p.len() as int] == QUESTION);
    assert(t.subrange(0, p.len() as int) =~= p);
}

} // verus!
