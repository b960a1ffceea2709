use mahardhika::parser::{ParseEvent, Parser};
use mahardhika::request::RequestBuilder;

fn build(lines: &[&str]) -> Option<mahardhika::request::Request> {
    let mut p = Parser::request();
    let mut b = RequestBuilder::new();
    for l in lines {
        for ev in p.feed(l).unwrap() {
            b.on_event(ev);
        }
    }
    b.build_request()
}

#[test]
fn builds_request_from_events() {
    let r = build(&["GET /a/b/?x=1&x=2 HTTP/1.1\r\n", "Host: h\r\n", "Accept: a, b\r\n", "\r\n"])
        .unwrap();
    assert_eq!(r.method(), "GET");
    assert_eq!(r.scheme(), "http");
    assert_eq!(r.path(), "/a/b/");
    assert_eq!(r.path_components(), vec!["a", "b", ""]);
    assert_eq!(r.http_version(), (1, 1));
    assert_eq!(r.content_length(), None);
    assert_eq!(r.headers().find("Accept").unwrap(), vec!["a", "b"]);
    let q = r.query().as_ref().unwrap();
    assert_eq!(q.get("x").unwrap(), vec!["1", "2"]);
}

#[test]
fn repeated_header_appends_values() {
    let r = build(&["GET / HTTP/1.0\r\n", "A: 1\r\n", "A: 2, 3\r\n", "\r\n"]).unwrap();
    assert_eq!(r.headers().find("A").unwrap(), vec!["1", "2", "3"]);
    assert!(r.query().is_none());
    assert_eq!(r.path_components(), vec![""]);
}

#[test]
fn no_request_without_version() {
    assert!(RequestBuilder::new().build_request().is_none());
    let mut b = RequestBuilder::new();
    b.on_event(ParseEvent::HttpVersion("11".to_string()));
    assert!(b.build_request().is_none());
}
