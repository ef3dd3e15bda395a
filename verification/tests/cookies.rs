use cookie_jar::cookie::{
    url_dir_path, Builder, Cookie, Expires, Host, Origin, Scheme, SetCookie,
};
use cookie_jar::error::{Error, ParseError};

fn https_origin(host: &str, path: &str) -> Origin {
    Origin {
        host: Some(Host::Domain(String::from(host))),
        scheme: Scheme::Https,
        path: String::from(path),
    }
}

fn http_origin(host: &str, path: &str) -> Origin {
    Origin {
        host: Some(Host::Domain(String::from(host))),
        scheme: Scheme::Http,
        path: String::from(path),
    }
}

#[test]
fn test_scheme() {
    assert_eq!(Scheme::Http, Scheme::from_name("http"));
    assert_eq!(Scheme::Https, Scheme::from_name("https"));
    assert_eq!(Scheme::Other(String::from("ftp")), Scheme::from_name("ftp"));
    assert!(Scheme::Https.is_secure());
    assert!(!Scheme::Http.is_secure());
    assert!(Scheme::Http.is_http());
    assert!(Scheme::Https.is_http());
    assert!(!Scheme::Other(String::from("ftp")).is_http());
}

#[test]
fn parse_rfc_examples() {
    let origin = https_origin("www.example.com", "/path/to/page.html");
    let examples = [
        (
            "SID=31d4d96e407aad42",
            Builder::new()
                .host_str("www.example.com")
                .path("/path/to/")
                .pair_str("SID=31d4d96e407aad42")
                .build_cookie()
                .unwrap(),
        ),
        (
            "SID=31d4d96e407aad42; Path=/; Domain=example.com",
            Builder::new()
                .domain("example.com")
                .path("/")
                .pair_str("SID=31d4d96e407aad42")
                .build_cookie()
                .unwrap(),
        ),
        (
            "SID=31d4d96e407aad42; Path=/; Secure; HttpOnly",
            Builder::new()
                .host_str("www.example.com")
                .path("/")
                .pair_str("SID=31d4d96e407aad42")
                .http_only(true)
                .secure(true)
                .build_cookie()
                .unwrap(),
        ),
        (
            "lang=en-US; Path=/; Domain=example.com",
            Builder::new()
                .domain("example.com")
                .path("/")
                .pair_str("lang=en-US")
                .build_cookie()
                .unwrap(),
        ),
    ];

    for (cookie_str, expected) in examples.iter() {
        let cookie = Cookie::parse(cookie_str, &origin, 0).expect("Could not parse cookie");
        assert_eq!(&cookie, expected);
    }
}

#[test]
fn render_rfc_examples() {
    let examples = [
        (
            Builder::new()
                .pair_str("SID=31d4d96e407aad42")
                .build_set_cookie()
                .unwrap(),
            "SID=31d4d96e407aad42",
        ),
        (
            Builder::new()
                .domain("example.com")
                .path("/")
                .pair_str("SID=31d4d96e407aad42")
                .build_set_cookie()
                .unwrap(),
            "SID=31d4d96e407aad42; Path=/; Domain=example.com",
        ),
        (
            Builder::new()
                .path("/")
                .pair_str("SID=31d4d96e407aad42")
                .http_only(true)
                .secure(true)
                .build_set_cookie()
                .unwrap(),
            "SID=31d4d96e407aad42; Path=/; Secure; HttpOnly",
        ),
        (
            Builder::new()
                .domain("example.com")
                .path("/")
                .pair_str("lang=en-US")
                .build_set_cookie()
                .unwrap(),
            "lang=en-US; Path=/; Domain=example.com",
        ),
    ];

    for (cookie, expected) in examples.iter() {
        assert_eq!(&cookie.to_string(), *expected);
    }
}

#[test]
fn round_trip_set_cookie() {
    let built = Builder::new()
        .domain("example.com")
        .path("/docs")
        .pair_str("SID=31d4d96e407aad42")
        .secure(true)
        .http_only(true)
        .build_set_cookie()
        .unwrap();
    let reparsed = SetCookie::parse(&built.to_string(), 0).unwrap();
    assert_eq!(reparsed, built);

    let bare = Builder::new().pair_str("a=\"b7\"").build_set_cookie().unwrap();
    let reparsed = SetCookie::parse(&bare.to_string(), 0).unwrap();
    assert_eq!(reparsed, bare);
}

#[test]
fn max_age_precedence() {
    let now = 1000;
    let first = SetCookie::parse("a=b; Expires=Sun, 06 Nov 1994 08:49:37 GMT; Max-Age=10", now)
        .unwrap();
    let second = SetCookie::parse("a=b; Max-Age=10; Expires=Sun, 06 Nov 1994 08:49:37 GMT", now)
        .unwrap();
    assert_eq!(*first.attributes().expiry(), Expires::AtUtc(1010));
    assert_eq!(*second.attributes().expiry(), Expires::AtUtc(1010));
    assert_eq!(first.attributes().expiry(), second.attributes().expiry());

    // Without Max-Age the Expires date decides, converted to epoch seconds.
    let dated = SetCookie::parse("a=b; Expires=Sun, 06 Nov 1994 08:49:37 GMT", now).unwrap();
    assert_eq!(*dated.attributes().expiry(), Expires::AtUtc(784111777));
}

#[test]
fn expires_rendering() {
    let dated = SetCookie::parse("a=b; Expires=Sun, 06 Nov 1994 08:49:37 GMT", 0).unwrap();
    assert_eq!(dated.to_string(), "a=b; Expires=Sun, 06 Nov 1994 08:49:37 +0000");
}

#[test]
fn expiry_comparisons() {
    let dated = SetCookie::parse("a=b; Expires=Sun, 06 Nov 1994 08:49:37 GMT", 0).unwrap();
    assert!(dated.attributes().expired_since(784111777));
    assert!(dated.attributes().expired_since(784111778));
    assert!(!dated.attributes().expired_since(784111776));

    let forever = SetCookie::parse("a=b", 0).unwrap();
    assert!(!forever.attributes().expired_since(i64::MAX));
    assert!(!forever.attributes().expired());
}

#[test]
fn security_gating() {
    let err = Builder::new()
        .origin(&http_origin("example.com", "/"))
        .pair_str("a=b")
        .secure(true)
        .build_set_cookie()
        .unwrap_err();
    assert_eq!(err, Error::InsecureOrigin);

    let ok = Builder::new()
        .origin(&https_origin("example.com", "/"))
        .pair_str("a=b")
        .secure(true)
        .build_set_cookie()
        .unwrap();
    assert!(ok.attributes().secure());

    let err = Builder::new()
        .origin(&Origin {
            host: Some(Host::Domain(String::from("example.com"))),
            scheme: Scheme::Other(String::from("ftp")),
            path: String::from("/"),
        })
        .pair_str("a=b")
        .http_only(true)
        .build_set_cookie()
        .unwrap_err();
    assert_eq!(err, Error::NonHttpOrigin);

    let ok = Builder::new()
        .origin(&http_origin("example.com", "/"))
        .pair_str("a=b")
        .http_only(true)
        .build_set_cookie()
        .unwrap();
    assert!(ok.attributes().http_only());
}

#[test]
fn build_errors() {
    // A cookie needs both host and path.
    assert_eq!(
        Builder::new().pair_str("a=b").build_cookie().unwrap_err(),
        Error::MissingDomain
    );
    assert_eq!(
        Builder::new().pair_str("a=b").host_str("example.com").build_cookie().unwrap_err(),
        Error::MissingDomain
    );
    // A SetCookie cannot name an IP address.
    assert_eq!(
        Builder::new().pair_str("a=b").host_str("1.2.3.4").build_set_cookie().unwrap_err(),
        Error::HostInvalid
    );
    // A domain that the normalizer refuses.
    assert_eq!(
        Builder::new().pair_str("a=b").domain("exa mple.com").build_set_cookie().unwrap_err(),
        Error::InvalidDomain
    );
    // An origin without a host.
    let opaque = Origin { host: None, scheme: Scheme::Other(String::from("data")), path: String::new() };
    assert_eq!(
        Builder::new().origin(&opaque).pair_str("a=b").build_set_cookie().unwrap_err(),
        Error::InvalidOrigin
    );
    // The first error sticks.
    assert_eq!(
        Builder::new().domain("exa mple.com").pair_str("a=b").host_str("1.2.3.4").build_set_cookie().unwrap_err(),
        Error::InvalidDomain
    );
    // Parse failures surface wrapped.
    assert_eq!(
        SetCookie::parse("a=b; Expires=Sun", 0).unwrap_err(),
        Error::Parse(ParseError::IncompleteDate)
    );
}

#[test]
fn domain_normalization() {
    // The host normalizer lowers the domain to canonical ASCII.
    let c = Builder::new()
        .domain("EXAMPLE.com")
        .path("/")
        .pair_str("a=b")
        .build_set_cookie()
        .unwrap();
    assert_eq!(c.domain(), Some("example.com"));
    assert_eq!(c.path(), Some("/"));
}

#[test]
fn ip_hosts_finalize_host_only() {
    let origin = Origin {
        host: Some(Host::Ip(String::from("127.0.0.1"))),
        scheme: Scheme::Http,
        path: String::from("/"),
    };
    let c = Cookie::parse("a=b; Domain=127.0.0.1", &origin, 0).unwrap();
    assert!(c.attributes().host_only());
    assert_eq!(c.domain(), None);
    assert_eq!(c.host(), &Host::Ip(String::from("127.0.0.1")));
}

#[test]
fn origin_seeds_directory_path() {
    let c = Cookie::parse("a=b", &https_origin("example.com", "/path/to/page.html"), 0).unwrap();
    assert_eq!(c.path(), "/path/to/");
    assert!(c.attributes().host_only());

    assert_eq!(url_dir_path("/path/to/page.html"), "/path/to/");
    assert_eq!(url_dir_path("/path/to/"), "/path/to/");
    assert_eq!(url_dir_path("/"), "/");
    assert_eq!(url_dir_path("nofolder"), "");
}
