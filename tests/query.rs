use mahardhika::query::{format_query_param, split_query_pair, Query};

#[test]
fn from_str_collects_values() {
    let q = Query::from_str("a=1&b=2&a=3");
    assert_eq!(q.get("a").unwrap(), vec!["1", "3"]);
    assert_eq!(q.get("b").unwrap(), vec!["2"]);
    assert!(q.get("c").is_none());
    assert_eq!(q.query_string(), Some("a=1&b=2&a=3"));
}

#[test]
fn blank_query_has_no_parameters() {
    let q = Query::from_str("   ");
    assert!(q.get(" ").is_none());
    assert_eq!(q.to_string(), "");
    assert!(Query::new().query_string().is_none());
}

#[test]
fn pieces_without_value_or_key() {
    let q = Query::from_str("flag&=x&&k==v&=");
    assert_eq!(q.get("flag").unwrap(), vec![""]);
    assert_eq!(q.get("x").unwrap(), vec![""]);
    assert_eq!(q.get("k").unwrap(), vec!["=v"]);
}

#[test]
fn format_multi_valued_keys() {
    let q = Query::from_str("a=1&b=2&a=3");
    assert_eq!(q.to_string(), "a[]=1&a[]=3&b=2");
    assert_eq!(format_query_param("k", &vec!["v".to_string()]), "k=v");
    assert_eq!(format_query_param("k", &vec![]), "");
}

#[test]
fn split_pair() {
    assert_eq!(split_query_pair("==k=v=w"), Some(("k".to_string(), "v=w".to_string())));
    assert_eq!(split_query_pair("==="), None);
    assert_eq!(split_query_pair("k"), Some(("k".to_string(), String::new())));
}
