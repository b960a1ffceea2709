use mahardhika::parser::{split_request_line, ParseError, ParseEvent, Parser, ParserState};

fn texts(events: &[ParseEvent]) -> Vec<String> {
    events
        .iter()
        .map(|e| match e {
            ParseEvent::MessageBegin => "begin".to_string(),
            ParseEvent::Method(m) => format!("method:{}", m),
            ParseEvent::Url(u) => format!("url:{}", u),
            ParseEvent::Query(q) => format!("query:{}", q),
            ParseEvent::HttpVersion(v) => format!("version:{}", v),
            ParseEvent::Header(n, vs) => format!("header:{}={}", n, vs.join("|")),
            ParseEvent::HeadersComplete => "headers_complete".to_string(),
            ParseEvent::MessageComplete => "message_complete".to_string(),
        })
        .collect()
}

#[test]
fn request_line_events_in_order() {
    let mut p = Parser::request();
    let evs = p.feed("GET /a?x=1 HTTP/1.1\r\n").unwrap();
    assert_eq!(
        texts(&evs),
        vec!["begin", "method:GET", "url:/a", "query:x=1", "version:1.1"]
    );
    assert_eq!(p.state(), ParserState::Headers);
}

#[test]
fn header_line_event() {
    let mut p = Parser::request();
    p.feed("GET / HTTP/1.0\r\n").unwrap();
    let evs = p.feed("Accept: text/html, text/plain\r\n").unwrap();
    assert_eq!(texts(&evs), vec!["header:Accept=text/html|text/plain"]);
    match &evs[0] {
        ParseEvent::Header(n, vs) => {
            assert_eq!(n, "Accept");
            assert_eq!(vs, &vec!["text/html".to_string(), "text/plain".to_string()]);
        }
        _ => panic!("expected a header event"),
    }
}

#[test]
fn blank_line_completes_the_request() {
    let mut p = Parser::request();
    p.feed("GET / HTTP/1.0\r\n").unwrap();
    let evs = p.feed("\r\n").unwrap();
    assert_eq!(texts(&evs), vec!["headers_complete", "message_complete"]);
    assert!(p.is_finished());
    assert_eq!(p.state(), ParserState::Done);
    assert!(p.feed("X: y\r\n").unwrap().is_empty());
}

#[test]
fn end_of_stream_before_request_is_clean() {
    let mut p = Parser::request();
    let evs = p.feed("").unwrap();
    assert!(evs.is_empty());
    assert_eq!(p.state(), ParserState::Done);
}

#[test]
fn malformed_request_line_is_refused() {
    let mut p = Parser::request();
    assert_eq!(p.feed("garbage\r\n").unwrap_err(), ParseError::MalformedRequestLine);
    assert_eq!(p.state(), ParserState::Failed);
    assert!(p.feed("GET / HTTP/1.1\r\n").unwrap().is_empty());
    // a fresh parser for the next connection still works
    let mut q = Parser::request();
    assert_eq!(q.feed("GET / HTTP/1.1\r\n").unwrap().len(), 4);
}

#[test]
fn lowercase_or_empty_method_is_refused() {
    assert!(split_request_line("get / HTTP/1.1\r\n").is_none());
    assert!(split_request_line(" / HTTP/1.1\r\n").is_none());
    assert!(split_request_line("GET / HTTP/1.1\n").is_none());
    assert!(split_request_line("GET / HTTP/x.1\r\n").is_none());
    assert!(split_request_line("GET  HTTP/1.1\r\n").is_none());
}

#[test]
fn query_with_hash_or_empty_is_refused() {
    assert!(split_request_line("GET /a?x#y HTTP/1.1\r\n").is_none());
    assert!(split_request_line("GET /a? HTTP/1.1\r\n").is_none());
    assert!(split_request_line("GET ?x HTTP/1.1\r\n").is_none());
}

#[test]
fn request_line_parts() {
    let l = split_request_line("POST /p/q?a=1?b HTTP/2.0\r\n").unwrap();
    assert_eq!(l.method, "POST");
    assert_eq!(l.url, "/p/q");
    assert_eq!(l.query.as_deref(), Some("a=1?b"));
    assert_eq!(l.version, "2.0");
    let l = split_request_line("GET /a b HTTP/1.1\r\n").unwrap();
    assert_eq!(l.url, "/a b");
    assert!(l.query.is_none());
}

#[test]
fn path_and_query_are_percent_decoded() {
    let mut p = Parser::request();
    let evs = p.feed("GET /a%20b?x=%41 HTTP/1.1\r\n").unwrap();
    assert_eq!(texts(&evs)[2], "url:/a b");
    assert_eq!(texts(&evs)[3], "query:x=A");
}

#[test]
fn invalid_header_line_is_refused() {
    let mut p = Parser::request();
    p.feed("GET / HTTP/1.1\r\n").unwrap();
    assert_eq!(p.feed("NoSeparator\r\n").unwrap_err(), ParseError::InvalidHeaderLine);
    let mut p = Parser::request();
    p.feed("GET / HTTP/1.1\r\n").unwrap();
    assert_eq!(p.feed("A: b: c\r\n").unwrap_err(), ParseError::InvalidHeaderLine);
    assert_eq!(p.state(), ParserState::Failed);
}

#[test]
fn end_of_stream_in_headers_completes() {
    let mut p = Parser::request();
    p.feed("GET / HTTP/1.1\r\n").unwrap();
    let evs = p.feed("").unwrap();
    assert_eq!(texts(&evs), vec!["headers_complete", "message_complete"]);
}
