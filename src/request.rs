//! The request of one connection, and the collector that builds it from the
//! parser's events.

use vstd::prelude::*;
use vstd::string::*;
use crate::headers::{Entry, Headers, copy_strings, insert_pairs, strs};
use crate::parser::{Event, ParseEvent};
use crate::query::{Query, query_entries};
use crate::text::{split_on, split_str, slice_of};

verus! {

/// `url` without its leading `/`.
pub open spec fn strip_slash(url: Seq<char>) -> Seq<char> {
    if url.len() > 0 && url[0] == '/' {
        url.drop_first()
    } else {
        url
    }
}

/// The path components of `url`: the pieces between `/` after the leading one.
pub open spec fn path_components_of(url: Seq<char>) -> Seq<Seq<char>> {
    split_on(strip_slash(url), '/')
}

/// An HTTP request; it does not change once built.
#[derive(Debug)]
pub struct Request {
    http_version: (u16, u16),
    method: String,
    scheme: String,
    path: Vec<String>,
    path_str: String,
    query: Option<Query>,
    headers: Headers,
    content_length: Option<u64>,
}

impl Request {
    pub closed spec fn spec_http_version(&self) -> (u16, u16) {
        self.http_version
    }

    pub closed spec fn spec_method(&self) -> Seq<char> {
        self.method@
    }

    pub closed spec fn spec_scheme(&self) -> Seq<char> {
        self.scheme@
    }

    pub closed spec fn spec_path(&self) -> Seq<char> {
        self.path_str@
    }

    pub closed spec fn spec_components(&self) -> Seq<Seq<char>> {
        strs(self.path@)
    }

    pub closed spec fn spec_query(&self) -> Option<Query> {
        self.query
    }

    pub closed spec fn spec_headers(&self) -> Headers {
        self.headers
    }

    pub closed spec fn spec_content_length(&self) -> Option<u64> {
        self.content_length
    }

    pub fn new(
        method: &str,
        scheme: &str,
        url: &str,
        query: Option<Query>,
        version: (u16, u16),
        headers: Headers,
        content_length: Option<u64>,
    ) -> (r: Request)
        ensures
            r.spec_http_version() == version,
            r.spec_method() == method@,
            r.spec_scheme() == scheme@,
            r.spec_path() == url@,
            r.spec_components() == path_components_of(url@),
            r.spec_query() == query,
            r.spec_headers() == headers,
            r.spec_content_length() == content_length,
    {
        let n = url.unicode_len();
        let rest = if n > 0 && url.get_char(0) == '/' {
            slice_of(url, 1, n)
        } else {
            slice_of(url, 0, n)
        };
        proof {
            assert(rest@ =~= strip_slash(url@));
        }
        let path = split_str(rest.as_str(), '/');
        assert(strs(path@) =~= path_components_of(url@));
        Request {
            http_version: version,
            method: String::from_str(method),
            scheme: String::from_str(scheme),
            path,
            path_str: String::from_str(url),
            query,
            headers,
            content_length,
        }
    }

    pub fn http_version(&self) -> (r: (u16, u16))
        ensures
            r == self.spec_http_version(),
    {
        self.http_version
    }

    pub fn method(&self) -> (r: &str)
        ensures
            r@ == self.spec_method(),
    {
        self.method.as_str()
    }

    pub fn scheme(&self) -> (r: &str)
        ensures
            r@ == self.spec_scheme(),
    {
        self.scheme.as_str()
    }

    /// The path as received (percent-decoded).
    pub fn path(&self) -> (r: &str)
        ensures
            r@ == self.spec_path(),
    {
        self.path_str.as_str()
    }

    pub fn path_components(&self) -> (r: Vec<String>)
        ensures
            strs(r@) == self.spec_components(),
    {
        copy_strings(&self.path)
    }

    pub fn query(&self) -> (r: &Option<Query>)
        ensures
            *r == self.spec_query(),
    {
        &self.query
    }

    pub fn content_length(&self) -> (r: Option<u64>)
        ensures
            r == self.spec_content_length(),
    {
        self.content_length
    }

    pub fn headers(&self) -> (r: &Headers)
        ensures
            *r == self.spec_headers(),
    {
        &self.headers
    }
}

/// The version numbers of a `D.D` version text.
pub open spec fn version_pair(v: Seq<char>) -> Option<(u16, u16)> {
    if v.len() == 3 && '0' as u32 <= v[0] as u32 <= '9' as u32 && v[1] == '.' && '0' as u32
        <= v[2] as u32 <= '9' as u32 {
        Some(((v[0] as u32 - '0' as u32) as u16, (v[2] as u32 - '0' as u32) as u16))
    } else {
        None
    }
}

/// Collects the parser's events of one request.
pub struct RequestBuilder {
    method: String,
    url: String,
    query: Option<String>,
    version: String,
    headers: Vec<(String, Vec<String>)>,
}

impl RequestBuilder {
    pub closed spec fn spec_method(&self) -> Seq<char> {
        self.method@
    }

    pub closed spec fn spec_url(&self) -> Seq<char> {
        self.url@
    }

    pub closed spec fn spec_query(&self) -> Option<Seq<char>> {
        match self.query {
            Some(q) => Some(q@),
            None => None,
        }
    }

    pub closed spec fn spec_version(&self) -> Seq<char> {
        self.version@
    }

    /// The header events received, in order.
    pub closed spec fn spec_headers(&self) -> Seq<Entry> {
        self.headers@.map_values(|p: (String, Vec<String>)| (p.0@, strs(p.1@)))
    }

    /// A collector that has seen no event.
    pub fn new() -> (r: RequestBuilder)
        ensures
            r.spec_method() == Seq::<char>::empty(),
            r.spec_url() == Seq::<char>::empty(),
            r.spec_query() is None,
            r.spec_version() == Seq::<char>::empty(),
            r.spec_headers() == Seq::<Entry>::empty(),
    {
        let r = RequestBuilder {
            method: String::new(),
            url: String::new(),
            query: None,
            version: String::new(),
            headers: Vec::new(),
        };
        assert(r.spec_headers() =~= Seq::<Entry>::empty());
        r
    }

    /// Records one event.
    pub fn on_event(&mut self, ev: ParseEvent)
        ensures
            match ev@ {
                Event::Method(m) => final(self).spec_method() == m,
                _ => final(self).spec_method() == old(self).spec_method(),
            },
            match ev@ {
                Event::Url(u) => final(self).spec_url() == u,
                _ => final(self).spec_url() == old(self).spec_url(),
            },
            match ev@ {
                Event::Query(q) => final(self).spec_query() == Some(q),
                _ => final(self).spec_query() == old(self).spec_query(),
            },
            match ev@ {
                Event::HttpVersion(v) => final(self).spec_version() == v,
                _ => final(self).spec_version() == old(self).spec_version(),
            },
            match ev@ {
                Event::Header(n, vs) => final(self).spec_headers() == old(self).spec_headers().push(
                    (n, vs),
                ),
                _ => final(self).spec_headers() == old(self).spec_headers(),
            },
    {
        match ev {
            ParseEvent::Method(m) => {
                self.method = m;
            },
            ParseEvent::Url(u) => {
                self.url = u;
            },
            ParseEvent::Query(q) => {
                self.query = Some(q);
            },
            ParseEvent::HttpVersion(v) => {
                self.version = v;
            },
            ParseEvent::Header(n, vs) => {
                self.headers.push((n, vs));
                assert(self.spec_headers() =~= old(self).spec_headers().push((ev@->Header_0, ev@->Header_1)));
            },
            _ => {},
        }
    }

    /// The request, once a `D.D` version has been received; the query is
    /// read here from the collected query text, and the header values of a
    /// repeated name are kept in order.
    pub fn build_request(&self) -> (r: Option<Request>)
        ensures
            match version_pair(self.spec_version()) {
                Some(v) => r matches Some(req) && req.spec_http_version() == v
                    && req.spec_method() == self.spec_method()
                    && req.spec_scheme() == seq!['h', 't', 't', 'p']
                    && req.spec_path() == self.spec_url()
                    && req.spec_components() == path_components_of(self.spec_url())
                    && req.spec_content_length() is None
                    && req.spec_headers().wf()
                    && req.spec_headers()@ == insert_pairs(Seq::empty(), self.spec_headers())
                    && match self.spec_query() {
                        Some(q) => req.spec_query() matches Some(qq) && qq.wf() && qq@
                            == query_entries(q),
                        None => req.spec_query() is None,
                    },
                None => r is None,
            },
    {
        let version = match parse_version(self.version.as_str()) {
            Some(v) => v,
            None => return None,
        };
        let query = match &self.query {
            Some(q) => Some(Query::from_str(q.as_str())),
            None => None,
        };
        let mut data: Vec<(String, Vec<String>)> = Vec::new();
        let mut i: usize = 0;
        while i < self.headers.len()
            invariant
                i <= self.headers@.len(),
                data@.len() == i,
                forall|k: int|
                    0 <= k < i ==> (#[trigger] data@[k]).0@ == self.headers@[k].0@ && strs(
                        data@[k].1@,
                    ) == strs(self.headers@[k].1@),
            decreases self.headers@.len() - i,
        {
            data.push((self.headers[i].0.clone(), copy_strings(&self.headers[i].1)));
            i = i + 1;
        }
        assert(data@.map_values(|p: (String, Vec<String>)| (p.0@, strs(p.1@)))
            =~= self.spec_headers());
        let headers = Headers::with_data(data);
        proof {
            reveal_strlit("http");
        }
        Some(
            Request::new(
                self.method.as_str(),
                "http",
                self.url.as_str(),
                query,
                version,
                headers,
                None,
            ),
        )
    }
}

fn parse_version(v: &str) -> (r: Option<(u16, u16)>)
    ensures
        r == version_pair(v@),
{
    if v.unicode_len() != 3 {
        return None;
    }
    let a = v.get_char(0);
    let dot = v.get_char(1);
    let b = v.get_char(2);
    if '0' as u32 <= a as u32 && a as u32 <= '9' as u32 && dot == '.' && '0' as u32 <= b as u32
        && b as u32 <= '9' as u32 {
        Some(((a as u32 - '0' as u32) as u16, (b as u32 - '0' as u32) as u16))
    } else {
        None
    }
}

} // verus!
