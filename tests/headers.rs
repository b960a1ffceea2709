use mahardhika::headers::{split_header_line, Headers};
use mahardhika::parser::ParseError;

#[test]
fn parse_splits_and_trims() {
    let mut h = Headers::new();
    h.parse(" Accept : text/html ,text/plain").unwrap();
    assert_eq!(h.find("Accept").unwrap(), vec!["text/html", "text/plain"]);
    assert!(h.has("Accept"));
    assert!(!h.has("accept"));
    assert!(h.find("Other").is_none());
}

#[test]
fn parse_refuses_line_without_separator() {
    let mut h = Headers::new();
    assert_eq!(h.parse("Accept text/html"), Err(ParseError::InvalidHeaderLine));
    assert!(h.all().is_empty());
}

#[test]
fn insert_keeps_order_of_values() {
    let mut h = Headers::new();
    h.insert("A", "1");
    h.insert("B", "2");
    h.insert("A", "3");
    assert_eq!(h.find("A").unwrap(), vec!["1", "3"]);
    let all = h.all();
    assert_eq!(all.len(), 2);
    assert_eq!(all[0].0, "A");
    assert_eq!(all[1].1, vec!["2".to_string()]);
}

#[test]
fn format_headers() {
    let mut h = Headers::new();
    h.insert("A", "1");
    h.insert("A", "2");
    h.insert("B", "x");
    assert_eq!(h.to_string(), "A: 1, 2\r\nB: x\r\n");
    assert_eq!(Headers::new().to_string(), "");
}

#[test]
fn with_data_merges_repeated_names() {
    let h = Headers::with_data(vec![
        ("A".to_string(), vec!["1".to_string()]),
        ("B".to_string(), vec![]),
        ("A".to_string(), vec!["2".to_string()]),
    ]);
    assert_eq!(h.find("A").unwrap(), vec!["1", "2"]);
    assert!(h.has("B"));
    assert!(h.find("B").is_none());
    assert_eq!(h.to_string(), "A: 1, 2\r\n");
}

#[test]
fn headers_round_trip() {
    let lines = ["Accept: text/html, text/plain", "Host: example.org", "Accept: */*", "X: , y"];
    let mut h = Headers::new();
    for l in lines.iter() {
        h.parse(l).unwrap();
    }
    let text = h.to_string();
    let mut again = Headers::new();
    for l in text.split("\r\n").filter(|l| !l.is_empty()) {
        again.parse(l).unwrap();
    }
    for name in ["Accept", "Host", "X"].iter() {
        assert_eq!(h.find(name), again.find(name));
    }
    assert_eq!(again.find("Accept").unwrap(), vec!["text/html", "text/plain", "*/*"]);
    assert_eq!(again.find("X").unwrap(), vec!["", "y"]);
}

#[test]
fn split_header_line_keeps_name_as_written() {
    let (n, vs) = split_header_line(" Name : a,b ").unwrap();
    assert_eq!(n, " Name ");
    assert_eq!(vs, vec!["a", "b"]);
    assert!(split_header_line("a: b: c").is_none());
}
