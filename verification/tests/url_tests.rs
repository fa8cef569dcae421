use htpp::{QueryParam, Url, UrlError};

fn empty_queries<const N: usize>() -> [QueryParam<'static>; N] {
    [QueryParam::new(b"", b""); N]
}

#[test]
fn path_and_three_queries() {
    let url = b"/path/path.html/user?query1=value&query2=value&query3=value";
    let mut queries = empty_queries::<10>();
    let parsed = Url::parse(url, &mut queries).unwrap();
    assert_eq!(parsed.path, b"/path/path.html/user");
    let qs = parsed.query_params.unwrap();
    assert_eq!(qs[0].name, b"query1");
    assert_eq!(qs[0].val, b"value");
    assert_eq!(qs[1].name, b"query2");
    assert_eq!(qs[2].name, b"query3");
    assert!(qs[3].name.is_empty());
}

#[test]
fn zero_capacity_buffer_skips_queries() {
    let mut queries = empty_queries::<0>();
    let parsed = Url::parse(b"/abc?x=1&y=2", &mut queries).unwrap();
    assert_eq!(parsed.path, b"/abc");
    assert!(parsed.query_params.is_none());
    let parsed2 = Url::parse(b"/abc", &mut queries).unwrap();
    assert_eq!(parsed2.path, b"/abc");
    assert!(parsed2.query_params.is_none());
}

#[test]
fn path_without_query() {
    let mut queries = empty_queries::<4>();
    let parsed = Url::parse(b"/just/a/path", &mut queries).unwrap();
    assert_eq!(parsed.path, b"/just/a/path");
    assert!(parsed.query_params.is_none());
}

#[test]
fn question_mark_at_end_yields_no_queries() {
    let mut queries = empty_queries::<4>();
    let parsed = Url::parse(b"/a?", &mut queries).unwrap();
    assert_eq!(parsed.path, b"/a");
    assert!(parsed.query_params.is_none());
}

#[test]
fn root_path_alone() {
    let mut queries = empty_queries::<2>();
    let parsed = Url::parse(b"/", &mut queries).unwrap();
    assert_eq!(parsed.path, b"/");
    assert!(parsed.query_params.is_none());
}

#[test]
fn missing_leading_slash_is_path_error() {
    let mut queries = empty_queries::<4>();
    assert_eq!(Url::parse(b"abc", &mut queries).unwrap_err(), UrlError::Path);
    assert_eq!(Url::parse(b"", &mut queries).unwrap_err(), UrlError::Path);
}

#[test]
fn query_without_equals_is_query_error() {
    let mut queries = empty_queries::<4>();
    assert_eq!(Url::parse(b"/a?x", &mut queries).unwrap_err(), UrlError::Query);
}

#[test]
fn empty_query_name_is_query_error() {
    let mut queries = empty_queries::<4>();
    assert_eq!(Url::parse(b"/a?=1", &mut queries).unwrap_err(), UrlError::Query);
    assert_eq!(Url::parse(b"/a?x=1&&y=2", &mut queries).unwrap_err(), UrlError::Query);
}

#[test]
fn empty_query_value_is_allowed() {
    let mut queries = empty_queries::<4>();
    let parsed = Url::parse(b"/a?x=", &mut queries).unwrap();
    let qs = parsed.query_params.unwrap();
    assert_eq!(qs[0].name, b"x");
    assert_eq!(qs[0].val, b"");
}

#[test]
fn duplicate_query_names_are_kept_in_order() {
    let mut queries = empty_queries::<4>();
    let parsed = Url::parse(b"/a?x=1&x=2", &mut queries).unwrap();
    let qs = parsed.query_params.unwrap();
    assert_eq!(qs[0].name, b"x");
    assert_eq!(qs[0].val, b"1");
    assert_eq!(qs[1].name, b"x");
    assert_eq!(qs[1].val, b"2");
}

#[test]
fn too_many_query_params_is_distinct() {
    let mut queries = empty_queries::<1>();
    assert_eq!(
        Url::parse(b"/a?x=1&y=2", &mut queries).unwrap_err(),
        UrlError::TooManyQueryParams
    );
}

#[test]
fn url_path_scan_applies_no_table() {
    let mut queries = empty_queries::<2>();
    let parsed = Url::parse(b"/with space\\and<more>?k=v", &mut queries).unwrap();
    assert_eq!(parsed.path, b"/with space\\and<more>");
    let qs = parsed.query_params.unwrap();
    assert_eq!(qs[0].name, b"k");
    assert_eq!(qs[0].val, b"v");
}

#[test]
fn new_normalizes_empty_path() {
    let url = Url::new(b"", None);
    assert_eq!(url.path, b"/");
    assert!(url.query_params.is_none());
}

#[test]
fn new_keeps_nonempty_path() {
    let queries = [QueryParam::new(b"a", b"1")];
    let url = Url::new(b"/x", Some(&queries));
    assert_eq!(url.path, b"/x");
    assert_eq!(url.query_params.unwrap()[0].name, b"a");
}

#[test]
fn request_path_then_url_parse() {
    let req = b"GET /index.html?query1=value&query2=value HTTP/1.1\r\n\r\n";
    let mut headers = [htpp::Header::new(b"", b""); 10];
    let parsed_req = htpp::Request::parse(req, &mut headers).unwrap();
    let mut queries = empty_queries::<10>();
    let url = Url::parse(parsed_req.path, &mut queries).unwrap();
    assert_eq!(url.path, b"/index.html");
    let qs = url.query_params.unwrap();
    assert_eq!(qs[0].name, b"query1");
    assert_eq!(qs[0].val, b"value");
    assert_eq!(qs[1].name, b"query2");
}
