//! The streaming request parser. It is fed the request one line at a time,
//! as read from the connection, and answers each line with the events that
//! it produces: `MessageBegin`, `Method`, `Url`, an optional `Query`,
//! `HttpVersion`, one `Header` per header line, then `HeadersComplete` and
//! `MessageComplete`.

use vstd::prelude::*;
use vstd::string::*;
use crate::headers::{header_line, split_header_line, strs};
use crate::text::{chars_of, slice_of, trim, trim_str};

verus! {

/// Why a request could not be read.
#[derive(Debug, Clone, Copy, PartialEq, Eq, Structural)]
pub enum ParseError {
    /// The request line does not match `METHOD SP PATH[?QUERY] SP HTTP/D.D CRLF`.
    MalformedRequestLine,
    /// A header line does not hold exactly one `": "`.
    InvalidHeaderLine,
}

pub open spec fn is_upper(c: char) -> bool {
    'A' as u32 <= c as u32 <= 'Z' as u32
}

pub open spec fn is_digit(c: char) -> bool {
    '0' as u32 <= c as u32 <= '9' as u32
}

/// `s` ends in ` HTTP/D.D\r\n`.
pub open spec fn has_version_tail(s: Seq<char>) -> bool {
    let t = s.len() - 11;
    &&& s.len() >= 11
    &&& s[t] == ' ' && s[t + 1] == 'H' && s[t + 2] == 'T' && s[t + 3] == 'T'
    &&& s[t + 4] == 'P' && s[t + 5] == '/'
    &&& is_digit(s[t + 6]) && s[t + 7] == '.' && is_digit(s[t + 8])
    &&& s[t + 9] == '\r' && s[t + 10] == '\n'
}

pub open spec fn first_of(s: Seq<char>, c: char) -> int {
    choose|m: int| 0 <= m < s.len() && s[m] == c && forall|j: int| 0 <= j < m ==> s[j] != c
}

pub open spec fn holds(s: Seq<char>, c: char) -> bool {
    exists|i: int| 0 <= i < s.len() && s[i] == c
}

/// The parts of a request line, as written: method, path, query, version.
pub struct RawLine {
    pub method: Seq<char>,
    pub url: Seq<char>,
    pub query: Option<Seq<char>>,
    pub version: Seq<char>,
}

/// The path and optional query of the target `m`: the path runs to the first
/// `?` and is not empty; a query follows that `?`, is not empty and holds no `#`.
pub open spec fn split_target(m: Seq<char>) -> Option<(Seq<char>, Option<Seq<char>>)> {
    if holds(m, '?') {
        let q = first_of(m, '?');
        let query = m.skip(q + 1);
        if q > 0 && query.len() > 0 && !holds(query, '#') {
            Some((m.take(q), Some(query)))
        } else {
            None
        }
    } else if m.len() > 0 {
        Some((m, None))
    } else {
        None
    }
}

/// The parts of a request line whose first space is at `m` and whose tail
/// starts at `t`.
pub open spec fn request_parts(s: Seq<char>, m: int, t: int) -> Option<RawLine> {
    if m >= 1 && m < t && (forall|j: int| 0 <= j < m ==> is_upper(#[trigger] s[j])) {
        match split_target(s.subrange(m + 1, t)) {
            Some(pq) => Some(
                RawLine { method: s.take(m), url: pq.0, query: pq.1, version: s.subrange(t + 6, t + 9) },
            ),
            None => None,
        }
    } else {
        None
    }
}

/// A request line `METHOD SP PATH[?QUERY] SP HTTP/D.D\r\n`, where METHOD is
/// one or more of `A`..`Z`.
#[verifier::opaque]
pub open spec fn request_line(s: Seq<char>) -> Option<RawLine> {
    if has_version_tail(s) && holds(s, ' ') {
        request_parts(s, first_of(s, ' '), s.len() - 11)
    } else {
        None
    }
}

/// The parts of a request line, as written.
pub struct RequestLine {
    pub method: String,
    pub url: String,
    pub query: Option<String>,
    pub version: String,
}

impl RequestLine {
    pub open spec fn matches_raw(&self, raw: RawLine) -> bool {
        &&& self.method@ == raw.method
        &&& self.url@ == raw.url
        &&& self.version@ == raw.version
        &&& match raw.query {
            Some(q) => self.query matches Some(t) && t@ == q,
            None => self.query is None,
        }
    }
}

fn find_char(cs: &Vec<char>, from: usize, to: usize, c: char) -> (r: usize)
    requires
        from <= to <= cs@.len(),
    ensures
        from <= r <= to,
        forall|j: int| from <= j < r ==> cs@[j] != c,
        r < to ==> cs@[r as int] == c,
{
    let mut i = from;
    while i < to && cs[i] != c
        invariant
            from <= i <= to <= cs@.len(),
            forall|j: int| from <= j < i ==> cs@[j] != c,
        decreases to - i,
    {
        i = i + 1;
    }
    i
}

proof fn lemma_first_of(s: Seq<char>, c: char, i: int)
    requires
        0 <= i < s.len(),
        s[i] == c,
        forall|j: int| 0 <= j < i ==> s[j] != c,
    ensures
        holds(s, c),
        first_of(s, c) == i,
{
    let f = first_of(s, c);
    if f < i {
        assert(s[f] != c);
    }
    if f > i {
        assert(s[i] != c);
    }
}

fn is_digit_char(c: char) -> (r: bool)
    ensures
        r == is_digit(c),
{
    '0' as u32 <= c as u32 && c as u32 <= '9' as u32
}

fn has_tail(cs: &Vec<char>) -> (r: bool)
    requires
        cs@.len() >= 11,
    ensures
        r == has_version_tail(cs@),
{
    let t = cs.len() - 11;
    cs[t] == ' ' && cs[t + 1] == 'H' && cs[t + 2] == 'T' && cs[t + 3] == 'T' && cs[t + 4] == 'P'
        && cs[t + 5] == '/' && is_digit_char(cs[t + 6]) && cs[t + 7] == '.' && is_digit_char(
        cs[t + 8],
    ) && cs[t + 9] == '\r' && cs[t + 10] == '\n'
}

fn all_upper(cs: &Vec<char>, m: usize) -> (r: bool)
    requires
        m <= cs@.len(),
    ensures
        r == forall|j: int| 0 <= j < m ==> is_upper(#[trigger] cs@[j]),
{
    let mut k: usize = 0;
    while k < m
        invariant
            m <= cs@.len(),
            k <= m,
            forall|j: int| 0 <= j < k ==> is_upper(#[trigger] cs@[j]),
        decreases m - k,
    {
        if !('A' as u32 <= cs[k] as u32 && cs[k] as u32 <= 'Z' as u32) {
            assert(!is_upper(cs@[k as int]));
            return false;
        }
        k = k + 1;
    }
    true
}

/// Splits a request line into its parts, or `None` where it does not match
/// the grammar.
pub fn split_request_line(line: &str) -> (r: Option<RequestLine>)
    ensures
        match request_line(line@) {
            Some(raw) => r matches Some(l) && l.matches_raw(raw),
            None => r is None,
        },
{
    reveal(request_line);
    let ghost s = line@;
    let cs = chars_of(line);
    let n = cs.len();
    if n < 11 {
        return None;
    }
    let t = n - 11;
    if !has_tail(&cs) {
        return None;
    }
    let m = find_char(&cs, 0, n, ' ');
    proof {
        // the tail holds a space, so one is found
        assert(cs@[t as int] == ' ');
        lemma_first_of(s, ' ', m as int);
    }
    if m == 0 || m == t {
        return None;
    }
    split_parts(line, &cs, m, t)
}

fn split_parts(line: &str, cs: &Vec<char>, m: usize, t: usize) -> (r: Option<RequestLine>)
    requires
        cs@ == line@,
        0 < m < t,
        t + 11 == cs@.len(),
    ensures
        match request_parts(line@, m as int, t as int) {
            Some(raw) => r matches Some(l) && l.matches_raw(raw),
            None => r is None,
        },
{
    let ghost s = line@;
    // bounds t + 9 by the length of the line
    let _len = cs.len();
    if !all_upper(cs, m) {
        return None;
    }
    let version = slice_of(line, t + 6, t + 9);
    let method = slice_of(line, 0, m);
    match split_target_str(line, cs, m + 1, t) {
        Some(pq) => Some(RequestLine { method, url: pq.0, query: pq.1, version }),
        None => None,
    }
}

#[verifier::rlimit(40)]
fn split_target_str(line: &str, cs: &Vec<char>, a: usize, t: usize) -> (r: Option<
    (String, Option<String>),
>)
    requires
        cs@ == line@,
        a <= t <= cs@.len(),
    ensures
        match split_target(line@.subrange(a as int, t as int)) {
            Some(pq) => r matches Some(p) && p.0@ == pq.0 && match pq.1 {
                Some(q) => p.1 matches Some(x) && x@ == q,
                None => p.1 is None,
            },
            None => r is None,
        },
{
    let ghost s = line@;
    let ghost target = s.subrange(a as int, t as int);
    let q = find_char(cs, a, t, '?');
    if q < t {
        proof {
            lemma_first_of(target, '?', q - a);
        }
        let h = find_char(cs, q + 1, t, '#');
        if q == a || q + 1 == t || h < t {
            proof {
                let query = target.skip(q - a + 1);
                if h < t {
                    assert(query[h - q - 1] == '#');
                }
            }
            return None;
        }
        proof {
            let query = target.skip(q - a + 1);
            assert forall|i: int| 0 <= i < query.len() implies query[i] != '#' by {
                assert(query[i] == s[q + 1 + i]);
            }
            assert(target.take(q - a) =~= s.subrange(a as int, q as int));
            assert(query =~= s.subrange(q + 1, t as int));
        }
        Some((slice_of(line, a, q), Some(slice_of(line, q + 1, t))))
    } else {
        proof {
            assert forall|i: int| 0 <= i < target.len() implies target[i] != '?' by {
                assert(target[i] == s[a + i]);
            }
        }
        if a == t {
            return None;
        }
        Some((slice_of(line, a, t), None))
    }
}

/// What percent-decoding `s` gives, read as UTF-8 with invalid sequences
/// replaced.
pub uninterp spec fn percent_decoded(s: Seq<char>) -> Seq<char>;

/// Relies on `url::percent_encoding::percent_decode` and
/// `PercentDecode::decode_utf8_lossy`: the decoded text of `s`; every byte
/// other than `%` passes unchanged, so a text without `%` decodes to itself.
#[verifier::external_body]
fn percent_decode_str(s: &str) -> (r: String)
    ensures
        r@ == percent_decoded(s@),
        (forall|i: int| 0 <= i < s@.len() ==> s@[i] != '%') ==> r@ == s@,
{
    url::percent_encoding::percent_decode(s.as_bytes()).decode_utf8_lossy().into_owned()
}

/// One event of the parser.
#[derive(Debug)]
pub enum ParseEvent {
    MessageBegin,
    Method(String),
    Url(String),
    Query(String),
    HttpVersion(String),
    Header(String, Vec<String>),
    HeadersComplete,
    MessageComplete,
}

/// The value of a `ParseEvent`.
pub enum Event {
    MessageBegin,
    Method(Seq<char>),
    Url(Seq<char>),
    Query(Seq<char>),
    HttpVersion(Seq<char>),
    Header(Seq<char>, Seq<Seq<char>>),
    HeadersComplete,
    MessageComplete,
}

impl View for ParseEvent {
    type V = Event;

    open spec fn view(&self) -> Event {
        match self {
            ParseEvent::MessageBegin => Event::MessageBegin,
            ParseEvent::Method(s) => Event::Method(s@),
            ParseEvent::Url(s) => Event::Url(s@),
            ParseEvent::Query(s) => Event::Query(s@),
            ParseEvent::HttpVersion(s) => Event::HttpVersion(s@),
            ParseEvent::Header(n, vs) => Event::Header(n@, strs(vs@)),
            ParseEvent::HeadersComplete => Event::HeadersComplete,
            ParseEvent::MessageComplete => Event::MessageComplete,
        }
    }
}

pub open spec fn events_view(v: Seq<ParseEvent>) -> Seq<Event> {
    v.map_values(|e: ParseEvent| e@)
}

/// The events of a well-formed request line, in order; the path and query
/// are percent-decoded.
pub open spec fn line_events(raw: RawLine) -> Seq<Event> {
    let head = seq![
        Event::MessageBegin,
        Event::Method(raw.method),
        Event::Url(percent_decoded(raw.url)),
    ];
    let with_query = match raw.query {
        Some(q) => head.push(Event::Query(percent_decoded(q))),
        None => head,
    };
    with_query.push(Event::HttpVersion(raw.version))
}

/// Where the parser stands.
#[derive(Debug, Clone, Copy, PartialEq, Eq, Structural)]
pub enum ParserState {
    /// Waiting for the request line.
    RequestLine,
    /// Reading header lines.
    Headers,
    /// The request was read to its end, or the peer closed before sending.
    Done,
    /// The input did not match the grammar; nothing more is read.
    Failed,
}

/// `line` without its line end: a final `\n`, then a `\r` before it.
pub open spec fn strip_line_end(line: Seq<char>) -> Seq<char> {
    if line.len() > 0 && line.last() == '\n' {
        let l = line.drop_last();
        if l.len() > 0 && l.last() == '\r' {
            l.drop_last()
        } else {
            l
        }
    } else {
        line
    }
}

/// What feeding `line` in state `st` gives: the result and the next state.
pub open spec fn step(st: ParserState, line: Seq<char>) -> (
    Result<Seq<Event>, ParseError>,
    ParserState,
) {
    match st {
        ParserState::RequestLine => if line.len() == 0 {
            (Ok(Seq::empty()), ParserState::Done)
        } else {
            match request_line(line) {
                Some(raw) => (Ok(line_events(raw)), ParserState::Headers),
                None => (Err(ParseError::MalformedRequestLine), ParserState::Failed),
            }
        },
        ParserState::Headers => {
            let l = strip_line_end(line);
            if line.len() == 0 || trim(l).len() == 0 {
                (
                    Ok(seq![Event::HeadersComplete, Event::MessageComplete]),
                    ParserState::Done,
                )
            } else {
                match header_line(l) {
                    Some(h) => (Ok(seq![Event::Header(h.0, h.1)]), ParserState::Headers),
                    None => (Err(ParseError::InvalidHeaderLine), ParserState::Failed),
                }
            }
        },
        _ => (Ok(Seq::empty()), st),
    }
}

/// A malformed request line ends the parse with an error and no events, and
/// a parser that has finished, by completing or by failing, takes no further
/// input: every later line gives no events and leaves it where it was.
pub proof fn lemma_failure_is_final(line: Seq<char>, later: Seq<char>)
    ensures
        line.len() > 0 && request_line(line) is None ==> step(ParserState::RequestLine, line)
            == (Err::<Seq<Event>, ParseError>(ParseError::MalformedRequestLine), ParserState::Failed),
        step(ParserState::Failed, later) == (Ok::<Seq<Event>, ParseError>(Seq::empty()), ParserState::Failed),
        step(ParserState::Done, later) == (Ok::<Seq<Event>, ParseError>(Seq::empty()), ParserState::Done),
{
}

/// The events of a request come in the order of the grammar: a well-formed
/// request line gives `MessageBegin`, `Method`, `Url`, a `Query` exactly when
/// the line holds a `?`, then `HttpVersion`, each once; after it, each line
/// gives one `Header`, or ends the headers with `HeadersComplete` and
/// `MessageComplete`, or fails.
pub proof fn lemma_event_order(line: Seq<char>, later: Seq<char>)
    requires
        request_line(line) is Some,
    ensures
        ({
            let raw = request_line(line)->Some_0;
            let (r, st) = step(ParserState::RequestLine, line);
            &&& st == ParserState::Headers
            &&& r matches Ok(evs) && {
                &&& evs[0] == Event::MessageBegin
                &&& evs[1] == Event::Method(raw.method)
                &&& evs[2] == Event::Url(percent_decoded(raw.url))
                &&& match raw.query {
                    Some(q) => evs.len() == 5 && evs[3] == Event::Query(percent_decoded(q))
                        && evs[4] == Event::HttpVersion(raw.version),
                    None => evs.len() == 4 && evs[3] == Event::HttpVersion(raw.version),
                }
            }
            &&& (raw.query is Some <==> holds(line, '?'))
        }),
        ({
            let (r, st) = step(ParserState::Headers, later);
            match r {
                Ok(evs) => (st == ParserState::Headers && evs.len() == 1 && evs[0] is Header) || (
                st == ParserState::Done && evs == seq![
                    Event::HeadersComplete,
                    Event::MessageComplete,
                ]),
                Err(_) => st == ParserState::Failed,
            }
        }),
{
    lemma_query_marks(line);
    let raw = request_line(line)->Some_0;
    let evs = line_events(raw);
    assert(evs[0] == Event::MessageBegin);
}

proof fn lemma_first_exists(s: Seq<char>, c: char, k: int)
    requires
        0 <= k < s.len(),
        s[k] == c,
    ensures
        0 <= first_of(s, c) <= k,
        s[first_of(s, c)] == c,
        forall|j: int| 0 <= j < first_of(s, c) ==> s[j] != c,
    decreases k,
{
    if exists|j: int| 0 <= j < k && s[j] == c {
        let j = choose|j: int| 0 <= j < k && s[j] == c;
        lemma_first_exists(s, c, j);
    } else {
        lemma_first_of(s, c, k);
    }
}

proof fn lemma_query_marks(line: Seq<char>)
    requires
        request_line(line) is Some,
    ensures
        line.len() > 0,
        request_line(line)->Some_0.query is Some <==> holds(line, '?'),
{
    reveal(request_line);
    let m = first_of(line, ' ');
    let t = line.len() - 11;
    let target = line.subrange(m + 1, t);
    assert(has_version_tail(line));
    assert(line[t] == ' ');
    lemma_first_exists(line, ' ', t);
    assert(request_parts(line, m, t) is Some);
    assert(split_target(target) is Some);
    assert(request_line(line)->Some_0.query == split_target(target)->Some_0.1);
    if holds(line, '?') {
        let i = choose|i: int| 0 <= i < line.len() && line[i] == '?';
        if i < m {
            assert(is_upper(line[i]));
        } else if i == m {
        } else if i >= t {
            assert(has_version_tail(line));
            assert(line[i] != '?');
        } else {
            assert(target[i - m - 1] == '?');
            assert(holds(target, '?'));
        }
    }
    if holds(target, '?') {
        let i = choose|i: int| 0 <= i < target.len() && target[i] == '?';
        assert(line[m + 1 + i] == '?');
    }
}

/// A request parser for one connection.
pub struct Parser {
    state: ParserState,
}

impl Parser {
    pub closed spec fn spec_state(&self) -> ParserState {
        self.state
    }

    /// A parser waiting for the request line.
    pub fn request() -> (r: Parser)
        ensures
            r.spec_state() == ParserState::RequestLine,
    {
        Parser { state: ParserState::RequestLine }
    }

    pub fn state(&self) -> (r: ParserState)
        ensures
            r == self.spec_state(),
    {
        self.state
    }

    /// The parser has nothing more to read.
    pub fn is_finished(&self) -> (r: bool)
        ensures
            r == (self.spec_state() == ParserState::Done || self.spec_state()
                == ParserState::Failed),
    {
        self.state == ParserState::Done || self.state == ParserState::Failed
    }

    /// Feeds one line as read from the connection, with its line end; an
    /// empty line stands for the end of the stream.
    pub fn feed(&mut self, line: &str) -> (r: Result<Vec<ParseEvent>, ParseError>)
        ensures
            final(self).spec_state() == step(old(self).spec_state(), line@).1,
            match step(old(self).spec_state(), line@).0 {
                Ok(evs) => r matches Ok(v) && events_view(v@) == evs,
                Err(e) => r == Err::<Vec<ParseEvent>, ParseError>(e),
            },
    {
        let n = line.unicode_len();
        match self.state {
            ParserState::RequestLine => {
                if n == 0 {
                    self.state = ParserState::Done;
                    let out: Vec<ParseEvent> = Vec::new();
                    assert(events_view(out@) =~= Seq::<Event>::empty());
                    return Ok(out);
                }
                match request_line_events(line) {
                    Ok(v) => {
                        self.state = ParserState::Headers;
                        Ok(v)
                    },
                    Err(e) => {
                        self.state = ParserState::Failed;
                        Err(e)
                    },
                }
            },
            ParserState::Headers => {
                match header_events(line) {
                    Ok(v) => {
                        assert(events_view(v@).len() == v@.len());
                        if v.len() == 1 {
                            self.state = ParserState::Headers;
                        } else {
                            self.state = ParserState::Done;
                        }
                        Ok(v)
                    },
                    Err(e) => {
                        self.state = ParserState::Failed;
                        Err(e)
                    },
                }
            },
            _ => {
                let out: Vec<ParseEvent> = Vec::new();
                assert(events_view(out@) =~= Seq::<Event>::empty());
                Ok(out)
            },
        }
    }
}

/// The events of a request line.
fn request_line_events(line: &str) -> (r: Result<Vec<ParseEvent>, ParseError>)
    ensures
        match request_line(line@) {
            Some(raw) => r matches Ok(v) && events_view(v@) == line_events(raw),
            None => r == Err::<Vec<ParseEvent>, ParseError>(ParseError::MalformedRequestLine),
        },
{
    let mut out: Vec<ParseEvent> = Vec::new();
    match split_request_line(line) {
        Some(l) => {
            let ghost raw = request_line(line@)->Some_0;
            out.push(ParseEvent::MessageBegin);
            out.push(ParseEvent::Method(l.method));
            out.push(ParseEvent::Url(percent_decode_str(l.url.as_str())));
            match l.query {
                Some(q) => {
                    out.push(ParseEvent::Query(percent_decode_str(q.as_str())));
                },
                None => {},
            }
            out.push(ParseEvent::HttpVersion(l.version));
            proof {
                let ev = events_view(out@);
                let want = line_events(raw);
                assert(ev.len() == want.len());
                assert forall|i: int| 0 <= i < ev.len() implies ev[i] == want[i] by {}
                assert(ev =~= want);
            }
            Ok(out)
        },
        None => Err(ParseError::MalformedRequestLine),
    }
}

/// The events of a line read after the request line.
fn header_events(line: &str) -> (r: Result<Vec<ParseEvent>, ParseError>)
    ensures
        ({
            let l = strip_line_end(line@);
            if line@.len() == 0 || trim(l).len() == 0 {
                r matches Ok(v) && events_view(v@) == seq![Event::HeadersComplete, Event::MessageComplete]
            } else {
                match header_line(l) {
                    Some(h) => r matches Ok(v) && events_view(v@) == seq![Event::Header(h.0, h.1)],
                    None => r == Err::<Vec<ParseEvent>, ParseError>(ParseError::InvalidHeaderLine),
                }
            }
        }),
{
    let mut out: Vec<ParseEvent> = Vec::new();
    let n = line.unicode_len();
    let stripped = strip_line_end_str(line);
    let t = trim_str(stripped.as_str());
    if n == 0 || t.as_str().unicode_len() == 0 {
        out.push(ParseEvent::HeadersComplete);
        out.push(ParseEvent::MessageComplete);
        assert(events_view(out@) =~= seq![Event::HeadersComplete, Event::MessageComplete]);
        return Ok(out);
    }
    match split_header_line(stripped.as_str()) {
        Some(h) => {
            out.push(ParseEvent::Header(h.0, h.1));
            let ghost hv = header_line(stripped@)->Some_0;
            assert(events_view(out@) =~= seq![Event::Header(hv.0, hv.1)]);
            Ok(out)
        },
        None => Err(ParseError::InvalidHeaderLine),
    }
}

fn strip_line_end_str(line: &str) -> (r: String)
    ensures
        r@ == strip_line_end(line@),
{
    let n = line.unicode_len();
    if n > 0 && line.get_char(n - 1) == '\n' {
        if n > 1 && line.get_char(n - 2) == '\r' {
            let r = slice_of(line, 0, n - 2);
            assert(r@ =~= strip_line_end(line@));
            r
        } else {
            let r = slice_of(line, 0, n - 1);
            assert(r@ =~= strip_line_end(line@));
            r
        }
    } else {
        let r = slice_of(line, 0, n);
        assert(r@ =~= line@);
        r
    }
}

} // verus!
