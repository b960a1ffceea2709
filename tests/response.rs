use mahardhika::response::{Response, ResponseError};

#[test]
fn start_with_date_writes_head() {
    let mut r = Response::new();
    r.with_header("X", "1").unwrap();
    let head = r.start_with_date("Thu, 22 Mar 2012 14:53:18 GMT").unwrap();
    assert_eq!(
        head,
        "HTTP/1.0 200 OK\r\nX: 1\r\nDate: Thu, 22 Mar 2012 14:53:18 GMT\r\nConnection: close\r\n\r\n"
    );
    assert!(r.is_started());
}

#[test]
fn second_start_is_refused() {
    let mut r = Response::new();
    r.with_status(404, "Not Found").unwrap();
    let first = r.start().unwrap();
    assert!(first.starts_with("HTTP/1.0 404 Not Found\r\n"));
    assert!(first.contains("Connection: close\r\n"));
    assert!(first.contains("Date: "));
    assert!(first.ends_with("\r\n\r\n"));
    assert_eq!(r.start(), Err(ResponseError::AlreadyStarted));
    assert_eq!(r.status(), (404, "Not Found"));
}

#[test]
fn changes_after_start_are_refused() {
    let mut r = Response::new();
    r.start_with_date("d").unwrap();
    assert_eq!(r.with_status(500, "x"), Err(ResponseError::AlreadyStarted));
    assert_eq!(r.with_header("A", "b"), Err(ResponseError::AlreadyStarted));
    assert_eq!(r.with_http_version("1.1"), Err(ResponseError::AlreadyStarted));
    assert_eq!(r.status(), (200, "OK"));
    assert_eq!(r.http_version(), "1.0");
}

#[test]
fn version_and_negative_status() {
    let mut r = Response::new();
    r.with_http_version("1.1").unwrap();
    assert_eq!(r.http_version_text(), "HTTP/1.1");
    r.with_status(-7, "odd").unwrap();
    let head = r.start_with_date("d").unwrap();
    assert!(head.starts_with("HTTP/1.1 -7 odd\r\n"));
}

#[test]
fn start_writes_an_http_date() {
    let mut r = Response::new();
    let head = r.start().unwrap();
    let line = head.lines().find(|l| l.starts_with("Date: ")).unwrap();
    let date = &line["Date: ".len()..];
    assert!(date.ends_with(" GMT"));
    assert_eq!(&date[3..5], ", ");
    assert!(["Sun", "Mon", "Tue", "Wed", "Thu", "Fri", "Sat"].contains(&&date[0..3]));
    assert!(date.len() >= 26);
}
