//! The response of one connection. Its status, version and headers may change
//! until it is started; starting it adds `Date` and `Connection: close`, gives
//! the head to write, and after that every change is refused.

use vstd::prelude::*;
use vstd::string::*;
use crate::headers::{Entry, Headers, format_entries, insert_value};
use crate::text::{signed_decimal, signed_decimal_string};

verus! {

/// Why a change to a response was refused.
#[derive(Debug, Clone, Copy, PartialEq, Eq, Structural)]
pub enum ResponseError {
    /// The response was already started.
    AlreadyStarted,
}

/// The plain values of a response.
pub struct ResponseModel {
    pub version: Seq<char>,
    pub status: i32,
    pub status_text: Seq<char>,
    pub headers: Seq<Entry>,
    pub started: bool,
}

/// The status line `HTTP/<version> <status> <reason>\r\n`.
pub open spec fn status_line(m: ResponseModel) -> Seq<char> {
    seq!['H', 'T', 'T', 'P', '/'] + m.version + seq![' '] + signed_decimal(m.status as int) + seq![
        ' ',
    ] + m.status_text + seq!['\r', '\n']
}

/// The head of a response: status line, header lines and a blank line.
pub open spec fn head_text(m: ResponseModel) -> Seq<char> {
    status_line(m) + format_entries(m.headers) + seq!['\r', '\n']
}

/// The headers after starting: `Date` with `date`, then `Connection: close`.
pub open spec fn final_headers(h: Seq<Entry>, date: Seq<char>) -> Seq<Entry> {
    insert_value(
        insert_value(h, seq!['D', 'a', 't', 'e'], date),
        seq!['C', 'o', 'n', 'n', 'e', 'c', 't', 'i', 'o', 'n'],
        seq!['c', 'l', 'o', 's', 'e'],
    )
}

/// The response `m` started with the date `date`.
pub open spec fn started_with(m: ResponseModel, date: Seq<char>) -> ResponseModel {
    ResponseModel { headers: final_headers(m.headers, date), started: true, ..m }
}

/// What starting `m` with the date `date` gives: the head to write and the
/// response after it, or a refusal that leaves `m` as it was.
pub open spec fn start_result(m: ResponseModel, date: Seq<char>) -> (
    Result<Seq<char>, ResponseError>,
    ResponseModel,
) {
    if m.started {
        (Err(ResponseError::AlreadyStarted), m)
    } else {
        (Ok(head_text(started_with(m, date))), started_with(m, date))
    }
}

/// A response under construction.
#[derive(Debug)]
pub struct Response {
    http_version: String,
    status: i32,
    status_text: String,
    headers: Headers,
    headers_written: bool,
}

impl View for Response {
    type V = ResponseModel;

    closed spec fn view(&self) -> ResponseModel {
        ResponseModel {
            version: self.http_version@,
            status: self.status,
            status_text: self.status_text@,
            headers: self.headers@,
            started: self.headers_written,
        }
    }
}

pub open spec fn is_digit_char(c: char) -> bool {
    '0' as u32 <= c as u32 <= '9' as u32
}

pub open spec fn is_day_abbr(d: Seq<char>) -> bool {
    d == seq!['S', 'u', 'n'] || d == seq!['M', 'o', 'n'] || d == seq!['T', 'u', 'e'] || d
        == seq!['W', 'e', 'd'] || d == seq!['T', 'h', 'u'] || d == seq!['F', 'r', 'i'] || d
        == seq!['S', 'a', 't']
}

pub open spec fn is_month_abbr(m: Seq<char>) -> bool {
    m == seq!['J', 'a', 'n'] || m == seq!['F', 'e', 'b'] || m == seq!['M', 'a', 'r'] || m
        == seq!['A', 'p', 'r'] || m == seq!['M', 'a', 'y'] || m == seq!['J', 'u', 'n'] || m
        == seq!['J', 'u', 'l'] || m == seq!['A', 'u', 'g'] || m == seq!['S', 'e', 'p'] || m
        == seq!['O', 'c', 't'] || m == seq!['N', 'o', 'v'] || m == seq!['D', 'e', 'c']
}

/// An HTTP date `Www, DD Mmm YYYY HH:MM:SS GMT` (RFC 822 form, in UTC); the
/// year is written in full.
pub open spec fn is_http_date(d: Seq<char>) -> bool {
    let n = d.len() as int;
    &&& n >= 26
    &&& is_day_abbr(d.take(3)) && d[3] == ',' && d[4] == ' '
    &&& is_digit_char(d[5]) && is_digit_char(d[6]) && d[7] == ' '
    &&& is_month_abbr(d.subrange(8, 11)) && d[11] == ' '
    &&& forall|i: int| 12 <= i < n - 13 ==> is_digit_char(#[trigger] d[i]) || d[i] == '-'
    &&& d[n - 13] == ' '
    &&& is_digit_char(d[n - 12]) && is_digit_char(d[n - 11]) && d[n - 10] == ':'
    &&& is_digit_char(d[n - 9]) && is_digit_char(d[n - 8]) && d[n - 7] == ':'
    &&& is_digit_char(d[n - 6]) && is_digit_char(d[n - 5])
    &&& d.skip(n - 4) == seq![' ', 'G', 'M', 'T']
}

/// Relies on `time::now_utc` and `Tm::rfc822`: the current time in UTC,
/// written with the format `%a, %d %b %Y %T GMT`.
#[verifier::external_body]
fn http_date_now() -> (r: String)
    ensures
        is_http_date(r@),
{
    time::now_utc().rfc822().to_string()
}

impl Response {
    pub closed spec fn wf(&self) -> bool {
        self.headers.wf()
    }

    /// A `200 OK` response for HTTP 1.0 with no headers.
    pub fn new() -> (r: Response)
        ensures
            r.wf(),
            r@ == (ResponseModel {
                version: seq!['1', '.', '0'],
                status: 200,
                status_text: seq!['O', 'K'],
                headers: Seq::empty(),
                started: false,
            }),
    {
        proof {
            reveal_strlit("1.0");
            reveal_strlit("OK");
        }
        let r = Response {
            http_version: String::from_str("1.0"),
            status: 200,
            status_text: String::from_str("OK"),
            headers: Headers::new(),
            headers_written: false,
        };
        assert(r@.version =~= seq!['1', '.', '0']);
        assert(r@.status_text =~= seq!['O', 'K']);
        r
    }

    pub fn http_version(&self) -> (r: &str)
        ensures
            r@ == self@.version,
    {
        self.http_version.as_str()
    }

    /// `HTTP/` followed by the version.
    pub fn http_version_text(&self) -> (r: String)
        ensures
            r@ == seq!['H', 'T', 'T', 'P', '/'] + self@.version,
    {
        let mut r = String::from_str("HTTP/");
        r.append(self.http_version.as_str());
        proof {
            reveal_strlit("HTTP/");
            assert(r@ =~= seq!['H', 'T', 'T', 'P', '/'] + self@.version);
        }
        r
    }

    pub fn status(&self) -> (r: (i32, &str))
        ensures
            r.0 == self@.status,
            r.1@ == self@.status_text,
    {
        (self.status, self.status_text.as_str())
    }

    pub fn is_started(&self) -> (r: bool)
        ensures
            r == self@.started,
    {
        self.headers_written
    }

    pub fn with_http_version(&mut self, version: &str) -> (r: Result<(), ResponseError>)
        requires
            old(self).wf(),
        ensures
            final(self).wf(),
            old(self)@.started ==> r == Err::<(), ResponseError>(ResponseError::AlreadyStarted)
                && final(self)@ == old(self)@,
            !old(self)@.started ==> r is Ok && final(self)@ == (ResponseModel {
                version: version@,
                ..old(self)@
            }),
    {
        if self.headers_written {
            return Err(ResponseError::AlreadyStarted);
        }
        self.http_version = String::from_str(version);
        Ok(())
    }

    pub fn with_status(&mut self, status: i32, status_text: &str) -> (r: Result<(), ResponseError>)
        requires
            old(self).wf(),
        ensures
            final(self).wf(),
            old(self)@.started ==> r == Err::<(), ResponseError>(ResponseError::AlreadyStarted)
                && final(self)@ == old(self)@,
            !old(self)@.started ==> r is Ok && final(self)@ == (ResponseModel {
                status,
                status_text: status_text@,
                ..old(self)@
            }),
    {
        if self.headers_written {
            return Err(ResponseError::AlreadyStarted);
        }
        self.status = status;
        self.status_text = String::from_str(status_text);
        Ok(())
    }

    /// Appends `value` to the values of the header `name`.
    pub fn with_header(&mut self, name: &str, value: &str) -> (r: Result<(), ResponseError>)
        requires
            old(self).wf(),
        ensures
            final(self).wf(),
            old(self)@.started ==> r == Err::<(), ResponseError>(ResponseError::AlreadyStarted)
                && final(self)@ == old(self)@,
            !old(self)@.started ==> r is Ok && final(self)@ == (ResponseModel {
                headers: insert_value(old(self)@.headers, name@, value@),
                ..old(self)@
            }),
    {
        if self.headers_written {
            return Err(ResponseError::AlreadyStarted);
        }
        self.headers.insert(name, value);
        Ok(())
    }

    /// Starts the response with the given HTTP date: adds the `Date` and
    /// `Connection: close` headers, marks the response started and returns
    /// the head to write before the body. A started response is refused and
    /// left as it was.
    pub fn start_with_date(&mut self, date: &str) -> (r: Result<String, ResponseError>)
        requires
            old(self).wf(),
        ensures
            final(self).wf(),
            old(self)@.started ==> r == Err::<String, ResponseError>(ResponseError::AlreadyStarted)
                && final(self)@ == old(self)@,
            final(self)@ == start_result(old(self)@, date@).1,
            match start_result(old(self)@, date@).0 {
                Ok(h) => r matches Ok(x) && x@ == h,
                Err(e) => r == Err::<String, ResponseError>(e),
            },
    {
        if self.headers_written {
            return Err(ResponseError::AlreadyStarted);
        }
        proof {
            reveal_strlit("Date");
            reveal_strlit("Connection");
            reveal_strlit("close");
            reveal_strlit("HTTP/");
            reveal_strlit(" ");
            reveal_strlit("\r\n");
            assert("Date"@ =~= seq!['D', 'a', 't', 'e']);
            assert("Connection"@ =~= seq!['C', 'o', 'n', 'n', 'e', 'c', 't', 'i', 'o', 'n']);
            assert("close"@ =~= seq!['c', 'l', 'o', 's', 'e']);
        }
        self.headers.insert("Date", date);
        self.headers.insert("Connection", "close");
        self.headers_written = true;
        let mut head = String::from_str("HTTP/");
        head.append(self.http_version.as_str());
        head.append(" ");
        let code = signed_decimal_string(self.status);
        head.append(code.as_str());
        head.append(" ");
        head.append(self.status_text.as_str());
        head.append("\r\n");
        let lines = self.headers.to_string();
        head.append(lines.as_str());
        head.append("\r\n");
        proof {
            assert(self@ =~= started_with(old(self)@, date@));
            assert(head@ =~= head_text(self@));
        }
        Ok(head)
    }

    /// Starts the response with the current date, as `start_with_date` does.
    pub fn start(&mut self) -> (r: Result<String, ResponseError>)
        requires
            old(self).wf(),
        ensures
            final(self).wf(),
            old(self)@.started ==> r == Err::<String, ResponseError>(ResponseError::AlreadyStarted)
                && final(self)@ == old(self)@,
            !old(self)@.started ==> (r matches Ok(h) && exists|date: Seq<char>|
                is_http_date(date) && final(self)@ == started_with(old(self)@, date) && h@
                    == head_text(final(self)@)),
    {
        if self.headers_written {
            return Err(ResponseError::AlreadyStarted);
        }
        let date = http_date_now();
        self.start_with_date(date.as_str())
    }
}

/// Starting a response twice: the first start succeeds with the head of the
/// started response; the second is refused and leaves that response, and so
/// the first head, unchanged.
pub proof fn lemma_start_once(m: ResponseModel, first_date: Seq<char>, second_date: Seq<char>)
    requires
        !m.started,
    ensures
        ({
            let (r1, m1) = start_result(m, first_date);
            let (r2, m2) = start_result(m1, second_date);
            &&& r1 == Ok::<Seq<char>, ResponseError>(head_text(m1))
            &&& r2 == Err::<Seq<char>, ResponseError>(ResponseError::AlreadyStarted)
            &&& m2 == m1
        }),
{
}

} // verus!
