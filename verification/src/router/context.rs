use crate::parse::parser::{Request, Response};
use crate::parse::uri::{texts, Uri};
use vstd::prelude::*;
use vstd::string::StringSliceAdditionalSpecFns;

verus! {

/// The reason phrase that goes with a status code.
pub open spec fn reason_phrase(code: u16) -> Seq<char> {
    if code == 200 {
        "OK"@
    } else if code == 201 {
        "Created"@
    } else if code == 204 {
        "No Content"@
    } else if code == 301 {
        "Moved Permanently"@
    } else if code == 302 {
        "Found"@
    } else if code == 400 {
        "Bad Request"@
    } else if code == 401 {
        "Unauthorized"@
    } else if code == 403 {
        "Forbidden"@
    } else if code == 404 {
        "Not Found"@
    } else if code == 500 {
        "Internal) Server Error"@
    } else {
        "Unknown"@
    }
}

/// What a handler sees of one request: the request, the response it fills in, and the
/// request target split into path and query.
pub struct Context<'h, 'b, 'r> {
    pub req: &'r Request<'h, 'b>,
    pub res: &'r mut Response<'h, 'b>,
    pub uri: Uri<'b>,
}

impl<'h, 'b, 'r> Context<'h, 'b, 'r> {
    /// A context over `req`, `res` and `uri`.
    pub fn new(req: &'r Request<'h, 'b>, res: &'r mut Response<'h, 'b>, uri: Uri<'b>) -> (r: Self)
        ensures
            r.req == req,
            *r.res == *old(res),
            *final(r.res) == *final(res),
            r.uri == uri,
    {
        Self { req, res, uri }
    }

    /// Sets the status code of the response and the reason phrase that goes with it.
    pub fn status(&mut self, code: u16) -> (r: &mut Self)
        ensures
            r.req == old(self).req,
            r.uri == old(self).uri,
            r.res.status_code == Some(code),
            r.res.reason matches Some(t) && t@ == reason_phrase(code),
            r.res.version == old(self).res.version,
            *r.res.headers == *old(self).res.headers,
            r.res.body == old(self).res.body,
            *final(self) == *final(r),
    {
        self.res.status_code = Some(code);
        self.res.reason = match code {
            200 => Some("OK"),
            201 => Some("Created"),
            204 => Some("No Content"),
            301 => Some("Moved Permanently"),
            302 => Some("Found"),
            400 => Some("Bad Request"),
            401 => Some("Unauthorized"),
            403 => Some("Forbidden"),
            404 => Some("Not Found"),
            500 => Some("Internal) Server Error"),
            _ => Some("Unknown"),
        };
        self
    }

    /// Sets response header `name` to `value`.
    pub fn header(&mut self, name: &'static str, value: &'static str) -> (r: &mut Self)
        requires
            old(self).res.headers.wf(),
        ensures
            r.req == old(self).req,
            r.uri == old(self).uri,
            r.res.status_code == old(self).res.status_code,
            r.res.reason == old(self).res.reason,
            r.res.version == old(self).res.version,
            r.res.headers.wf(),
            r.res.headers@ == old(self).res.headers@.insert(name.spec_bytes(), value.spec_bytes()),
            r.res.body == old(self).res.body,
            *final(self) == *final(r),
    {
        self.res.headers.insert(name, value.as_bytes());
        self
    }

    /// Sends `html` as an HTML body: sets the content type and appends the text to the body.
    pub fn html(&mut self, html: &'static str)
        requires
            old(self).res.headers.wf(),
        ensures
            final(self).req == old(self).req,
            final(self).uri == old(self).uri,
            final(self).res.status_code == old(self).res.status_code,
            final(self).res.reason == old(self).res.reason,
            final(self).res.version == old(self).res.version,
            final(self).res.headers.wf(),
            final(self).res.headers@ == old(self).res.headers@.insert(
                "Content-Type".spec_bytes(),
                "text/html; charset=utf-8".spec_bytes(),
            ),
            final(self).res.body@ == old(self).res.body@ + html.spec_bytes(),
    {
        self.header("Content-Type", "text/html; charset=utf-8");
        let ghost b0 = self.res.body@;
        self.res.body.extend_from_slice(html.as_bytes());
        assert(self.res.body@ =~= b0 + html.spec_bytes());
    }

    /// Sends `s` as a plain-text body: sets the content type and appends the text to the body.
    pub fn string(&mut self, s: &'static str)
        requires
            old(self).res.headers.wf(),
        ensures
            final(self).req == old(self).req,
            final(self).uri == old(self).uri,
            final(self).res.status_code == old(self).res.status_code,
            final(self).res.reason == old(self).res.reason,
            final(self).res.version == old(self).res.version,
            final(self).res.headers.wf(),
            final(self).res.headers@ == old(self).res.headers@.insert(
                "Content-Type".spec_bytes(),
                "text/plain; charset=utf-8".spec_bytes(),
            ),
            final(self).res.body@ == old(self).res.body@ + s.spec_bytes(),
    {
        self.header("Content-Type", "text/plain; charset=utf-8");
        let ghost b0 = self.res.body@;
        self.res.body.extend_from_slice(s.as_bytes());
        assert(self.res.body@ =~= b0 + s.spec_bytes());
    }

    /// The first value of query key `key`; the key must have one.
    pub fn query(&self, key: &str) -> (r: &'b str)
        requires
            self.uri.query_map.wf(),
            self.uri.query_map@.contains_key(key.spec_bytes()),
            self.uri.query_map@[key.spec_bytes()].len() > 0,
        ensures
            r.spec_bytes() == self.uri.query_map@[key.spec_bytes()][0],
    {
        match self.uri.query_map.get(key) {
            Some(v) => {
                assert(texts(v@)[0] == v@[0].spec_bytes());
                v[0]
            },
            None => {
                proof {
                    assert(false);
                }
                vstd::pervasive::unreached()
            },
        }
    }

    /// The first value of query key `key`, if it has one.
    pub fn key_query_or_not(&self, key: &str) -> (r: Option<&'b str>)
        requires
            self.uri.query_map.wf(),
        ensures
            r is Some <==> self.uri.query_map@.contains_key(key.spec_bytes())
                && self.uri.query_map@[key.spec_bytes()].len() > 0,
            r matches Some(t) ==> t.spec_bytes() == self.uri.query_map@[key.spec_bytes()][0],
    {
        match self.uri.query_map.get(key) {
            Some(v) => {
                if v.len() > 0 {
                    assert(texts(v@)[0] == v@[0].spec_bytes());
                    Some(v[0])
                } else {
                    None
                }
            },
            None => None,
        }
    }

    /// All values of query key `key`, in order; none when the key is absent.
    pub fn query_array(&self, key: &str) -> (r: &[&'b str])
        requires
            self.uri.query_map.wf(),
        ensures
            texts(r@) == (if self.uri.query_map@.contains_key(key.spec_bytes()) {
                self.uri.query_map@[key.spec_bytes()]
            } else {
                Seq::<Seq<u8>>::empty()
            }),
    {
        match self.uri.query_map.get(key) {
            Some(v) => v.as_slice(),
            None => {
                let e: &[&'b str] = &[];
                assert(texts(e@) =~= Seq::<Seq<u8>>::empty());
                e
            },
        }
    }

    /// The path of the request target, `/` when it has none.
    pub fn path(&self) -> (r: &'b [u8])
        ensures
            r@ == (match self.uri.path {
                Some(p) => p@,
                None => seq![0x2Fu8],
            }),
    {
        match self.uri.path {
            Some(p) => p,
            None => {
                let root: &'b [u8] = &[0x2Fu8];
                assert(root@ =~= seq![0x2Fu8]);
                root
            },
        }
    }
}

} // verus!
