//! Serving a request from a root directory: resolving its path, deciding
//! between 200, 404 and 500 from what the file system reports, and the bodies
//! and headers of each reply. The file system itself is read by the caller.

use vstd::prelude::*;
use vstd::string::*;
use crate::headers::{insert_value, strs};
use crate::response::{Response, ResponseError, ResponseModel};
use crate::text::{chars_of, decimal, decimal_string, signed_decimal, signed_decimal_string};

verus! {

/// Which requests a handler answers: single files only, or also directory
/// listings.
#[derive(Debug, Clone, Copy, PartialEq, Eq, Structural)]
pub enum Mode {
    File,
    Directory,
}

/// What a metadata lookup of the resolved path reported.
#[derive(Debug, Clone, Copy, PartialEq, Eq, Structural)]
pub enum Metadata {
    /// The path does not exist.
    NotFound,
    /// The lookup failed for another reason.
    Failed,
    /// A regular file of this many bytes.
    File(u64),
    /// A directory.
    Directory,
    /// Something else (a socket, a device).
    Other,
}

/// How a request is answered.
#[derive(Debug, Clone, Copy, PartialEq, Eq, Structural)]
pub enum Outcome {
    /// 404 with the body `404 - Not Found`.
    NotFound,
    /// 500 with the body `500 - Internal Server Error`.
    InternalError,
    /// 200 with the file's bytes, of this length.
    SendFile(u64),
    /// 200 with an HTML listing of the directory.
    ListDirectory,
}

pub open spec fn outcome_of(mode: Mode, meta: Metadata) -> Outcome {
    match meta {
        Metadata::NotFound => Outcome::NotFound,
        Metadata::Failed => Outcome::InternalError,
        Metadata::File(len) => Outcome::SendFile(len),
        Metadata::Directory => if mode == Mode::Directory {
            Outcome::ListDirectory
        } else {
            Outcome::NotFound
        },
        Metadata::Other => Outcome::NotFound,
    }
}

/// `p` joined with the component `c`, as `Path::join` joins a name without `/`.
pub open spec fn join_path(p: Seq<char>, c: Seq<char>) -> Seq<char> {
    if p.len() == 0 {
        c
    } else if p.last() == '/' {
        p + c
    } else {
        p + seq!['/'] + c
    }
}

/// The root joined with each component in turn.
pub open spec fn resolve_path(root: Seq<char>, comps: Seq<Seq<char>>) -> Seq<char>
    decreases comps.len(),
{
    if comps.len() == 0 {
        root
    } else {
        join_path(resolve_path(root, comps.drop_last()), comps.last())
    }
}

/// The registered MIME type of the extension of `path`, if there is one.
pub uninterp spec fn mime_of(path: Seq<char>) -> Option<Seq<char>>;

/// Relies on `conduit_mime_types::mime_for_path`: the type registered for the
/// extension of the path.
#[verifier::external_body]
fn mime_lookup(path: &str) -> (r: Option<String>)
    ensures
        match r {
            Some(s) => mime_of(path@) == Some(s@),
            None => mime_of(path@) is None,
        },
{
    match conduit_mime_types::mime_for_path(std::path::Path::new(path)) {
        Some(m) => Some(m.to_string()),
        None => None,
    }
}

/// What percent-encoding the UTF-8 bytes of `s` gives under the default
/// encode set.
pub uninterp spec fn href_encoded(s: Seq<char>) -> Seq<char>;

/// A character that the default encode set leaves as it is: printable ASCII
/// other than space and `"`, `#`, `<`, `>`, `` ` ``, `?`, `{`, `}`.
pub open spec fn passes_unencoded(c: char) -> bool {
    let n = c as u32;
    &&& 0x21 <= n <= 0x7e
    &&& c != '"' && c != '#' && c != '<' && c != '>'
    &&& c != '`' && c != '?' && c != '{' && c != '}'
}

/// Relies on `url::percent_encoding::percent_encode` with `DEFAULT_ENCODE_SET`:
/// the encoded form of `s`, in which each byte outside the set stands as it is.
#[verifier::external_body]
fn percent_encode_str(s: &str) -> (r: String)
    ensures
        r@ == href_encoded(s@),
        (forall|i: int| 0 <= i < s@.len() ==> passes_unencoded(#[trigger] s@[i])) ==> r@ == s@,
{
    url::percent_encoding::percent_encode(s.as_bytes(), url::percent_encoding::DEFAULT_ENCODE_SET).to_string()
}

/// The content type of a file whose extension has the registered type `mime`;
/// `text/plain` where none is registered.
pub open spec fn content_type_of(mime: Option<Seq<char>>) -> Seq<char> {
    match mime {
        Some(m) => m,
        None => "text/plain"@,
    }
}

pub fn content_type_for(mime: Option<&str>) -> (r: String)
    ensures
        r@ == content_type_of(
            match mime {
                Some(m) => Some(m@),
                None => None,
            },
        ),
{
    match mime {
        Some(m) => String::from_str(m),
        None => String::from_str("text/plain"),
    }
}

/// The name shown for a directory entry: directories get a trailing `/`.
pub open spec fn display_name(name: Seq<char>, is_dir: bool) -> Seq<char> {
    if is_dir {
        name + seq!['/']
    } else {
        name
    }
}

/// One list item of a listing.
pub open spec fn item_html(href: Seq<char>, name: Seq<char>) -> Seq<char> {
    "<li><a href=\""@ + href + "\">"@ + name + "</a></li>"@
}

/// The list items of a listing of `entries` under the request path `base`,
/// in the order given; entries with an empty name are left out.
pub open spec fn items_html(base: Seq<char>, entries: Seq<(Seq<char>, bool)>) -> Seq<char>
    decreases entries.len(),
{
    if entries.len() == 0 {
        Seq::empty()
    } else {
        let prev = items_html(base, entries.drop_last());
        let (name, is_dir) = entries.last();
        if name.len() == 0 {
            prev
        } else {
            let shown = display_name(name, is_dir);
            prev + item_html(href_encoded(base + shown), shown)
        }
    }
}

/// The HTML document of a listing.
pub open spec fn listing_html(base: Seq<char>, entries: Seq<(Seq<char>, bool)>) -> Seq<char> {
    "<html><body><ul>"@ + items_html(base, entries) + "</ul></body></html>"@
}

pub open spec fn entries_view(v: Seq<(String, bool)>) -> Seq<(Seq<char>, bool)> {
    v.map_values(|e: (String, bool)| (e.0@, e.1))
}

/// One list item: an anchor to `href` showing `name`.
pub fn listing_item(href: &str, name: &str) -> (r: String)
    ensures
        r@ == item_html(href@, name@),
{
    let mut r = String::from_str("<li><a href=\"");
    r.append(href);
    r.append("\">");
    r.append(name);
    r.append("</a></li>");
    r
}

/// The HTML listing of `entries` (name, is a directory) under the request
/// path `base`, in the order given.
pub fn render_listing(base: &str, entries: &Vec<(String, bool)>) -> (r: String)
    ensures
        r@ == listing_html(base@, entries_view(entries@)),
{
    let ghost ev = entries_view(entries@);
    let mut items = String::new();
    let mut i: usize = 0;
    while i < entries.len()
        invariant
            ev == entries_view(entries@),
            i <= entries@.len(),
            items@ == items_html(base@, ev.take(i as int)),
        decreases entries@.len() - i,
    {
        proof {
            assert(ev.take(i + 1).drop_last() =~= ev.take(i as int));
            reveal_strlit("/");
        }
        let name = &entries[i].0;
        if name.as_str().unicode_len() > 0 {
            let mut shown = String::from_str(name.as_str());
            if entries[i].1 {
                shown.append("/");
            }
            assert(shown@ == display_name(name@, entries@[i as int].1));
            let mut target = String::from_str(base);
            target.append(shown.as_str());
            let href = percent_encode_str(target.as_str());
            let item = listing_item(href.as_str(), shown.as_str());
            items.append(item.as_str());
        }
        i = i + 1;
    }
    assert(ev.take(entries@.len() as int) =~= ev);
    let mut r = String::from_str("<html><body><ul>");
    r.append(items.as_str());
    r.append("</ul></body></html>");
    r
}

/// `a` comes no later than `b` in the order of names: character by character,
/// by code point, a prefix first.
pub open spec fn name_le(a: Seq<char>, b: Seq<char>) -> bool
    decreases a.len(),
{
    if a.len() == 0 {
        true
    } else if b.len() == 0 {
        false
    } else if a[0] as u32 != b[0] as u32 {
        (a[0] as u32) < (b[0] as u32)
    } else {
        name_le(a.drop_first(), b.drop_first())
    }
}

/// Each entry's name comes no later than the next one's.
pub open spec fn sorted_by_name(e: Seq<(Seq<char>, bool)>) -> bool {
    forall|j: int| 0 <= j && j + 1 < e.len() ==> name_le(#[trigger] e[j].0, e[j + 1].0)
}

proof fn lemma_name_le_total(a: Seq<char>, b: Seq<char>)
    ensures
        name_le(a, b) || name_le(b, a),
    decreases a.len(),
{
    if a.len() > 0 && b.len() > 0 && a[0] as u32 == b[0] as u32 {
        lemma_name_le_total(a.drop_first(), b.drop_first());
    }
}

proof fn lemma_name_le_skip(a: Seq<char>, b: Seq<char>, i: int)
    requires
        0 <= i <= a.len(),
        i <= b.len(),
        forall|j: int| 0 <= j < i ==> a[j] as u32 == b[j] as u32,
    ensures
        name_le(a, b) == name_le(a.skip(i), b.skip(i)),
    decreases i,
{
    if i == 0 {
        assert(a.skip(0) =~= a);
        assert(b.skip(0) =~= b);
    } else {
        let a1 = a.drop_first();
        let b1 = b.drop_first();
        assert forall|j: int| 0 <= j < i - 1 implies a1[j] as u32 == b1[j] as u32 by {
            assert(a1[j] == a[j + 1] && b1[j] == b[j + 1]);
        }
        lemma_name_le_skip(a1, b1, i - 1);
        assert(a1.skip(i - 1) =~= a.skip(i));
        assert(b1.skip(i - 1) =~= b.skip(i));
    }
}

/// Whether the name `a` comes no later than `b`.
pub fn names_in_order(a: &str, b: &str) -> (r: bool)
    ensures
        r == name_le(a@, b@),
{
    let x = chars_of(a);
    let y = chars_of(b);
    let mut i: usize = 0;
    while i < x.len() && i < y.len() && x[i] as u32 == y[i] as u32
        invariant
            x@ == a@,
            y@ == b@,
            i <= x@.len(),
            i <= y@.len(),
            forall|j: int| 0 <= j < i ==> a@[j] as u32 == b@[j] as u32,
        decreases x@.len() - i,
    {
        i = i + 1;
    }
    proof {
        lemma_name_le_skip(a@, b@, i as int);
        let sa = a@.skip(i as int);
        let sb = b@.skip(i as int);
        if i < x@.len() && i < y@.len() {
            assert(sa[0] == a@[i as int] && sb[0] == b@[i as int]);
        }
    }
    if i == x.len() {
        true
    } else if i == y.len() {
        false
    } else {
        (x[i] as u32) < (y[i] as u32)
    }
}

/// The entries ordered by name; entries of equal names keep their order.
pub fn sort_entries(entries: &Vec<(String, bool)>) -> (r: Vec<(String, bool)>)
    ensures
        sorted_by_name(entries_view(r@)),
        entries_view(r@).to_multiset() == entries_view(entries@).to_multiset(),
{
    let ghost ev = entries_view(entries@);
    let mut out: Vec<(String, bool)> = Vec::new();
    let mut i: usize = 0;
    proof {
        assert(entries_view(out@) =~= ev.take(0));
    }
    while i < entries.len()
        invariant
            ev == entries_view(entries@),
            i <= entries@.len(),
            sorted_by_name(entries_view(out@)),
            entries_view(out@).to_multiset() == ev.take(i as int).to_multiset(),
        decreases entries@.len() - i,
    {
        let item = (entries[i].0.clone(), entries[i].1);
        let mut p: usize = 0;
        while p < out.len() && names_in_order(out[p].0.as_str(), item.0.as_str())
            invariant
                p <= out@.len(),
                p > 0 ==> name_le(out@[p - 1].0@, item.0@),
            decreases out@.len() - p,
        {
            p = p + 1;
        }
        let ghost before = entries_view(out@);
        proof {
            if p < out@.len() {
                lemma_name_le_total(out@[p as int].0@, item.0@);
            }
        }
        out.insert(p, item);
        proof {
            let now = entries_view(out@);
            let x = (item.0@, item.1);
            assert(now =~= before.insert(p as int, x));
            assert(ev.take(i + 1) =~= ev.take(i as int).push(ev[i as int]));
            assert(ev[i as int] == x);
            ev.take(i as int).to_multiset_ensures();
            vstd::seq_lib::to_multiset_insert(before, p as int, x);
            assert(ev.take(i as int).push(x).to_multiset() =~= ev.take(i as int).to_multiset().insert(
                x,
            ));
            assert forall|j: int| 0 <= j && j + 1 < now.len() implies name_le(
                #[trigger] now[j].0,
                now[j + 1].0,
            ) by {
                if j + 1 < p {
                    assert(now[j] == before[j] && now[j + 1] == before[j + 1]);
                } else if j + 1 == p {
                    assert(now[j] == before[j] && now[j + 1] == x);
                } else if j == p {
                    assert(now[j] == x && now[j + 1] == before[j]);
                } else {
                    assert(now[j] == before[j - 1] && now[j + 1] == before[j]);
                }
            }
        }
        i = i + 1;
    }
    assert(ev.take(entries@.len() as int) =~= ev);
    out
}

/// The body of an error reply: `<status> - <description>`.
pub open spec fn error_body(status: i32, description: Seq<char>) -> Seq<char> {
    signed_decimal(status as int) + " - "@ + description
}

/// Serves files, and in directory mode listings, from a root directory.
#[derive(Debug)]
pub struct ServerHandler {
    root: String,
    mode: Mode,
}

impl ServerHandler {
    pub closed spec fn spec_root(&self) -> Seq<char> {
        self.root@
    }

    pub closed spec fn spec_mode(&self) -> Mode {
        self.mode
    }

    pub fn new(root: &str, mode: Mode) -> (r: ServerHandler)
        ensures
            r.spec_root() == root@,
            r.spec_mode() == mode,
    {
        ServerHandler { root: String::from_str(root), mode }
    }

    pub fn root(&self) -> (r: &str)
        ensures
            r@ == self.spec_root(),
    {
        self.root.as_str()
    }

    pub fn mode(&self) -> (r: Mode)
        ensures
            r == self.spec_mode(),
    {
        self.mode
    }

    /// The file-system path of a request's path components under the root.
    pub fn resolve(&self, components: &Vec<String>) -> (r: String)
        ensures
            r@ == resolve_path(self.spec_root(), strs(components@)),
    {
        let ghost cs = strs(components@);
        let mut p = String::from_str(self.root.as_str());
        let mut i: usize = 0;
        while i < components.len()
            invariant
                cs == strs(components@),
                i <= components@.len(),
                p@ == resolve_path(self.spec_root(), cs.take(i as int)),
            decreases components@.len() - i,
        {
            proof {
                assert(cs.take(i + 1).drop_last() =~= cs.take(i as int));
                reveal_strlit("/");
            }
            let n = p.as_str().unicode_len();
            if n == 0 {
                p = String::from_str(components[i].as_str());
            } else {
                if p.as_str().get_char(n - 1) != '/' {
                    p.append("/");
                }
                p.append(components[i].as_str());
            }
            i = i + 1;
        }
        assert(cs.take(components@.len() as int) =~= cs);
        p
    }

    /// How to answer, given what the metadata lookup of the resolved path
    /// reported.
    pub fn decide(&self, meta: Metadata) -> (r: Outcome)
        ensures
            r == outcome_of(self.spec_mode(), meta),
    {
        match meta {
            Metadata::NotFound => Outcome::NotFound,
            Metadata::Failed => Outcome::InternalError,
            Metadata::File(len) => Outcome::SendFile(len),
            Metadata::Directory => match self.mode {
                Mode::Directory => Outcome::ListDirectory,
                Mode::File => Outcome::NotFound,
            },
            Metadata::Other => Outcome::NotFound,
        }
    }

    /// Sets `404 Not Found` and returns the body `404 - Not Found`.
    pub fn send_not_found(&self, res: &mut Response) -> (r: Result<String, ResponseError>)
        requires
            old(res).wf(),
        ensures
            final(res).wf(),
            old(res)@.started ==> r == Err::<String, ResponseError>(ResponseError::AlreadyStarted)
                && final(res)@ == old(res)@,
            !old(res)@.started ==> (r matches Ok(b) && b@ == "404 - Not Found"@ && final(res)@
                == (ResponseModel { status: 404, status_text: "Not Found"@, ..old(res)@ })),
    {
        match res.with_status(404, "Not Found") {
            Ok(()) => Ok(String::from_str("404 - Not Found")),
            Err(e) => Err(e),
        }
    }

    /// Sets the status and returns the body `<status> - <description>`.
    pub fn send_error(&self, res: &mut Response, status: i32, description: &str) -> (r: Result<
        String,
        ResponseError,
    >)
        requires
            old(res).wf(),
        ensures
            final(res).wf(),
            old(res)@.started ==> r == Err::<String, ResponseError>(ResponseError::AlreadyStarted)
                && final(res)@ == old(res)@,
            !old(res)@.started ==> (r matches Ok(b) && b@ == error_body(status, description@)
                && final(res)@ == (ResponseModel {
                status,
                status_text: description@,
                ..old(res)@
            })),
    {
        match res.with_status(status, description) {
            Ok(()) => {
                let mut b = signed_decimal_string(status);
                b.append(" - ");
                b.append(description);
                Ok(b)
            },
            Err(e) => Err(e),
        }
    }

    /// Sets `Content-Type` from the MIME type registered for the file's
    /// extension and `Content-Length` to its size; the caller then sends the
    /// file's bytes.
    pub fn send_file(&self, resource: &str, len: u64, res: &mut Response) -> (r: Result<
        (),
        ResponseError,
    >)
        requires
            old(res).wf(),
        ensures
            final(res).wf(),
            old(res)@.started ==> r == Err::<(), ResponseError>(ResponseError::AlreadyStarted)
                && final(res)@ == old(res)@,
            !old(res)@.started ==> (r is Ok && final(res)@ == (ResponseModel {
                headers: insert_value(
                    insert_value(
                        old(res)@.headers,
                        "Content-Type"@,
                        content_type_of(mime_of(resource@)),
                    ),
                    "Content-Length"@,
                    decimal(len as nat),
                ),
                ..old(res)@
            })),
    {
        let mime = mime_lookup(resource);
        let ct = match &mime {
            Some(m) => content_type_for(Some(m.as_str())),
            None => content_type_for(None),
        };
        let length = decimal_string(len);
        match res.with_header("Content-Type", ct.as_str()) {
            Ok(()) => {},
            Err(e) => return Err(e),
        }
        res.with_header("Content-Length", length.as_str())
    }

    /// The metadata of a lookup that failed: whether the path was not found,
    /// or the lookup failed otherwise.
    pub fn lookup_error(not_found: bool) -> (r: Metadata)
        ensures
            r == (if not_found {
                Metadata::NotFound
            } else {
                Metadata::Failed
            }),
    {
        if not_found {
            Metadata::NotFound
        } else {
            Metadata::Failed
        }
    }

    /// Sets the reply of an outcome without content and returns its body:
    /// `404 Not Found` for `NotFound`, `500 Internal Server Error` otherwise.
    pub fn send_failure(&self, res: &mut Response, outcome: Outcome) -> (r: Result<
        String,
        ResponseError,
    >)
        requires
            old(res).wf(),
        ensures
            final(res).wf(),
            old(res)@.started ==> r == Err::<String, ResponseError>(ResponseError::AlreadyStarted)
                && final(res)@ == old(res)@,
            !old(res)@.started && outcome == Outcome::NotFound ==> (r matches Ok(b) && b@
                == "404 - Not Found"@ && final(res)@ == (ResponseModel {
                status: 404,
                status_text: "Not Found"@,
                ..old(res)@
            })),
            !old(res)@.started && outcome != Outcome::NotFound ==> (r matches Ok(b) && b@
                == error_body(500, "Internal Server Error"@) && final(res)@ == (ResponseModel {
                status: 500,
                status_text: "Internal Server Error"@,
                ..old(res)@
            })),
    {
        match outcome {
            Outcome::NotFound => self.send_not_found(res),
            _ => self.send_error(res, 500, "Internal Server Error"),
        }
    }

    /// Sets the `Content-Type` of an HTML listing.
    pub fn send_listing(&self, res: &mut Response) -> (r: Result<(), ResponseError>)
        requires
            old(res).wf(),
        ensures
            final(res).wf(),
            old(res)@.started ==> r == Err::<(), ResponseError>(ResponseError::AlreadyStarted)
                && final(res)@ == old(res)@,
            !old(res)@.started ==> (r is Ok && final(res)@ == (ResponseModel {
                headers: insert_value(
                    old(res)@.headers,
                    "Content-Type"@,
                    "text/html; charset=utf-8"@,
                ),
                ..old(res)@
            })),
    {
        res.with_header("Content-Type", "text/html; charset=utf-8")
    }
}

} // verus!
