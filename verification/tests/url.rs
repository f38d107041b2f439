use ruk::request::build_request;
use ruk::url::{choose_address, lookup_target, parse_url, UrlError};

fn parts(url: &str) -> (String, String, u16, String) {
    match parse_url(url) {
        Ok(parts) => (parts.host, parts.authority, parts.port, parts.path),
        Err(error) => panic!("{}: {}", url, error.message()),
    }
}

fn expect(url: &str, host: &str, authority: &str, port: u16, path: &str) {
    assert_eq!(
        parts(url),
        (host.to_string(), authority.to_string(), port, path.to_string())
    );
}

#[test]
fn urls_are_taken_apart() {
    expect("http://example.com", "example.com", "example.com", 80, "/");
    expect("https://example.com", "example.com", "example.com", 443, "/");
    expect("http://example.com/", "example.com", "example.com", 80, "/");
    expect("http://localhost:8080/a/b?c=d#e", "localhost", "localhost:8080", 8080, "/a/b?c=d#e");
}

#[test]
fn port_must_be_a_port() {
    expect("http://h:/x", "h", "h:", 80, "/x");
    expect("https://h:abc", "h", "h:abc", 443, "/");
    expect("http://h:65535", "h", "h:65535", 65535, "/");
    expect("http://h:65536", "h", "h:65536", 80, "/");
    expect("http://h:+81", "h", "h:+81", 81, "/");
    expect("http://h:-1", "h", "h:-1", 80, "/");
    expect("http://h:00090", "h", "h:00090", 90, "/");
}

#[test]
fn last_colon_counts() {
    expect("http://[::1]:9000/", "[::1]", "[::1]:9000", 9000, "/");
    expect("http://user:pw@h", "user", "user:pw@h", 80, "/");
}

#[test]
fn parts_may_be_empty_or_odd() {
    expect("http://", "", "", 80, "/");
    expect("http:///path", "", "", 80, "/path");
    expect("http://a://b", "a", "a:", 80, "//b");
    expect("http://\u{fc}ber.example:81/\u{e9}", "\u{fc}ber.example", "\u{fc}ber.example:81", 81, "/\u{e9}");
}

#[test]
fn urls_without_a_scheme_are_refused() {
    assert!(matches!(parse_url("example.com"), Err(UrlError::MissingScheme)));
    assert!(matches!(parse_url("http:/example.com"), Err(UrlError::MissingScheme)));
    assert!(matches!(parse_url(""), Err(UrlError::MissingScheme)));
    assert_eq!(UrlError::MissingScheme.message(), "Invalid URL: missing scheme");
}

#[test]
fn other_schemes_are_refused() {
    assert!(matches!(parse_url("ftp://example.com"), Err(UrlError::UnsupportedScheme)));
    assert!(matches!(parse_url("HTTP://example.com"), Err(UrlError::UnsupportedScheme)));
    assert!(matches!(parse_url("://example.com"), Err(UrlError::UnsupportedScheme)));
    assert_eq!(UrlError::UnsupportedScheme.message(), "Unsupported scheme");
}

#[test]
fn parts_make_up_the_url() {
    for url in ["http://h:1/p", "https://a.b/c/d", "http://h/"] {
        let (_, authority, _, path) = parts(url);
        let scheme = url.split("://").next().unwrap();
        assert_eq!(format!("{}://{}{}", scheme, authority, path), url);
    }
}

#[test]
fn urls_read_back() {
    for port in [0u16, 9, 80, 8080, 65535] {
        let url = format!("https://host.example:{}/path", port);
        expect(&url, "host.example", &format!("host.example:{}", port), port, "/path");
    }
}

#[test]
fn request_is_built() {
    assert_eq!(
        build_request("/index.html", "example.com:8080"),
        b"GET /index.html HTTP/1.1\r\nHost: example.com:8080\r\nConnection: keep-alive\r\n\r\n"
            .to_vec()
    );
    assert_eq!(
        build_request("/\u{e9}", "h"),
        "GET /\u{e9} HTTP/1.1\r\nHost: h\r\nConnection: keep-alive\r\n\r\n".as_bytes().to_vec()
    );
}

#[test]
fn lookup_target_is_host_and_port() {
    assert_eq!(lookup_target("example.com", 80), "example.com:80");
    assert_eq!(lookup_target("", 0), ":0");
    assert_eq!(lookup_target("h", 65535), "h:65535");
}

#[test]
fn ipv4_is_preferred() {
    assert_eq!(choose_address(&[false, false, true, true]), Some(2));
    assert_eq!(choose_address(&[true, false]), Some(0));
    assert_eq!(choose_address(&[false, false]), Some(0));
    assert_eq!(choose_address(&[]), None);
}
