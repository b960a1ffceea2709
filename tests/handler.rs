use mahardhika::handler::{
    content_type_for, listing_item, names_in_order, render_listing, sort_entries, Metadata, Mode,
    Outcome, ServerHandler,
};
use mahardhika::response::Response;

#[test]
fn resolve_joins_components() {
    let h = ServerHandler::new("/srv", Mode::File);
    assert_eq!(h.resolve(&vec!["a".to_string(), "b.txt".to_string()]), "/srv/a/b.txt");
    assert_eq!(h.resolve(&vec!["".to_string()]), "/srv/");
    let h = ServerHandler::new("/srv/", Mode::File);
    assert_eq!(h.resolve(&vec!["a".to_string()]), "/srv/a");
    let h = ServerHandler::new("", Mode::File);
    assert_eq!(h.resolve(&vec!["a".to_string()]), "a");
}

#[test]
fn decisions() {
    let f = ServerHandler::new("/srv", Mode::File);
    let d = ServerHandler::new("/srv", Mode::Directory);
    assert_eq!(f.decide(Metadata::NotFound), Outcome::NotFound);
    assert_eq!(f.decide(Metadata::Failed), Outcome::InternalError);
    assert_eq!(f.decide(Metadata::Directory), Outcome::NotFound);
    assert_eq!(d.decide(Metadata::Directory), Outcome::ListDirectory);
    assert_eq!(d.decide(Metadata::File(9)), Outcome::SendFile(9));
    assert_eq!(d.decide(Metadata::Other), Outcome::NotFound);
}

#[test]
fn missing_file_gives_not_found() {
    let h = ServerHandler::new("/srv", Mode::File);
    let path = h.resolve(&vec!["missing.txt".to_string()]);
    assert_eq!(path, "/srv/missing.txt");
    assert_eq!(h.decide(Metadata::NotFound), Outcome::NotFound);
    let mut res = Response::new();
    let body = h.send_not_found(&mut res).unwrap();
    assert_eq!(body, "404 - Not Found");
    assert_eq!(res.status(), (404, "Not Found"));
}

#[test]
fn internal_error_body() {
    let h = ServerHandler::new("/srv", Mode::File);
    let mut res = Response::new();
    let body = h.send_error(&mut res, 500, "Internal Server Error").unwrap();
    assert_eq!(body, "500 - Internal Server Error");
    assert_eq!(res.status(), (500, "Internal Server Error"));
}

#[test]
fn file_gets_type_and_length() {
    let h = ServerHandler::new("/srv", Mode::File);
    let path = h.resolve(&vec!["a.txt".to_string()]);
    assert_eq!(h.decide(Metadata::File(5)), Outcome::SendFile(5));
    let mut res = Response::new();
    h.send_file(&path, 5, &mut res).unwrap();
    let head = res.start_with_date("d").unwrap();
    assert!(head.starts_with("HTTP/1.0 200 OK\r\n"));
    assert!(head.contains("Content-Type: text/plain\r\n"));
    assert!(head.contains("Content-Length: 5\r\n"));
}

#[test]
fn file_type_from_extension() {
    let h = ServerHandler::new("/srv", Mode::File);
    let mut res = Response::new();
    h.send_file("/srv/x.html", 1234567890123, &mut res).unwrap();
    let head = res.start_with_date("d").unwrap();
    assert!(head.contains("Content-Type: text/html\r\n"));
    assert!(head.contains("Content-Length: 1234567890123\r\n"));
    assert_eq!(content_type_for(None), "text/plain");
    assert_eq!(content_type_for(Some("image/png")), "image/png");
}

#[test]
fn directory_listing() {
    let h = ServerHandler::new("/srv", Mode::Directory);
    assert_eq!(h.decide(Metadata::Directory), Outcome::ListDirectory);
    let mut res = Response::new();
    h.send_listing(&mut res).unwrap();
    let head = res.start_with_date("d").unwrap();
    assert!(head.contains("Content-Type: text/html; charset=utf-8\r\n"));
    let body = render_listing("/", &vec![("sub".to_string(), true), ("a.txt".to_string(), false)]);
    assert_eq!(
        body,
        "<html><body><ul><li><a href=\"/sub/\">sub/</a></li><li><a href=\"/a.txt\">a.txt</a></li></ul></body></html>"
    );
}

#[test]
fn listing_encodes_hrefs_and_skips_empty_names() {
    let body = render_listing("/d/", &vec![("a b".to_string(), false), ("".to_string(), true)]);
    assert_eq!(body, "<html><body><ul><li><a href=\"/d/a%20b\">a b</a></li></ul></body></html>");
    assert_eq!(listing_item("h", "n"), "<li><a href=\"h\">n</a></li>");
    assert_eq!(render_listing("/", &vec![]), "<html><body><ul></ul></body></html>");
}

#[test]
fn entries_sorted_by_name() {
    let entries = vec![
        ("b".to_string(), false),
        ("a.txt".to_string(), false),
        ("sub".to_string(), true),
        ("a".to_string(), true),
        ("B".to_string(), false),
    ];
    let sorted = sort_entries(&entries);
    let names: Vec<&str> = sorted.iter().map(|e| e.0.as_str()).collect();
    assert_eq!(names, vec!["B", "a", "a.txt", "b", "sub"]);
    assert!(sorted.contains(&("a".to_string(), true)));
    assert!(sort_entries(&vec![]).is_empty());
}

#[test]
fn name_order() {
    assert!(names_in_order("a", "b"));
    assert!(!names_in_order("b", "a"));
    assert!(names_in_order("a", "ab"));
    assert!(!names_in_order("ab", "a"));
    assert!(names_in_order("", ""));
    assert!(names_in_order("Z", "a"));
}

#[test]
fn sorted_listing_of_root() {
    let entries = vec![("sub".to_string(), true), ("a.txt".to_string(), false)];
    let body = render_listing("/", &sort_entries(&entries));
    assert!(body.contains("<a href=\"/sub/\">sub/</a>"));
    assert!(body.contains("<a href=\"/a.txt\">a.txt</a>"));
    assert!(body.find("a.txt").unwrap() < body.find("sub/").unwrap());
}

#[test]
fn failure_replies() {
    let h = ServerHandler::new("/srv", Mode::File);
    let mut res = Response::new();
    assert_eq!(h.send_failure(&mut res, Outcome::NotFound).unwrap(), "404 - Not Found");
    assert_eq!(res.status(), (404, "Not Found"));
    let mut res = Response::new();
    let body = h.send_failure(&mut res, Outcome::InternalError).unwrap();
    assert_eq!(body, "500 - Internal Server Error");
    assert_eq!(res.status(), (500, "Internal Server Error"));
    assert_eq!(ServerHandler::lookup_error(true), Metadata::NotFound);
    assert_eq!(ServerHandler::lookup_error(false), Metadata::Failed);
}
