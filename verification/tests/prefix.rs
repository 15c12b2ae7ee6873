use furss::parse::add_http_prefix;

#[test]
fn testadd_http_prefix_no_prefix() {
    let url = "example.com";
    let expected = "http://example.com";
    assert_eq!(add_http_prefix(url), expected);
}

#[test]
fn testadd_http_prefix_http_prefix() {
    let url = "http://example.com";
    let expected = "http://example.com";
    assert_eq!(add_http_prefix(url), expected);
}

#[test]
fn testadd_http_prefix_https_prefix() {
    let url = "https://example.com";
    let expected = "https://example.com";
    assert_eq!(add_http_prefix(url), expected);
}

#[test]
fn testadd_http_prefix_leading_slash() {
    let url = "/example.com";
    let expected = "http://example.com";
    assert_eq!(add_http_prefix(url), expected);
}

#[test]
fn testadd_http_prefix_multiple_leading_slashes() {
    let url = "///example.com";
    let expected = "http://example.com";
    assert_eq!(add_http_prefix(url), expected);
}

#[test]
fn testadd_http_prefix_complex_url_no_prefix() {
    let url = "example.com/path?query=1";
    let expected = "http://example.com/path?query=1";
    assert_eq!(add_http_prefix(url), expected);
}

#[test]
fn testadd_http_prefix_complex_url_with_http() {
    let url = "http://example.com/path?query=1";
    let expected = "http://example.com/path?query=1";
    assert_eq!(add_http_prefix(url), expected);
}

#[test]
fn testadd_http_prefix_complex_url_with_https() {
    let url = "https://example.com/path?query=1";
    let expected = "https://example.com/path?query=1";
    assert_eq!(add_http_prefix(url), expected);
}

#[test]
fn prefix_of_an_empty_path() {
    assert_eq!(add_http_prefix(""), "http://");
    assert_eq!(add_http_prefix("//"), "http://");
}

#[test]
fn prefix_keeps_non_ascii_text() {
    assert_eq!(add_http_prefix("/exämple.com/ü"), "http://exämple.com/ü");
}

