use cookie_jar::cookie::{Builder, Cookie, Host, Origin, Scheme};
use cookie_jar::jar::{Clock, Jar};

struct FixedClock(i64);

impl Clock for FixedClock {
    fn now(&self) -> i64 {
        self.0
    }
}

fn origin(host: &str, path: &str) -> Origin {
    Origin {
        host: Some(Host::Domain(String::from(host))),
        scheme: Scheme::Http,
        path: String::from(path),
    }
}

fn domain(d: &str) -> Host {
    Host::Domain(String::from(d))
}

fn build(host: &str, path: &str, pair: &str) -> Cookie {
    Builder::new()
        .host_str(host)
        .path(path)
        .pair_str(pair)
        .build_cookie()
        .unwrap()
}

fn build_suffix(d: &str, path: &str, pair: &str) -> Cookie {
    Builder::new()
        .domain(d)
        .path(path)
        .pair_str(pair)
        .build_cookie()
        .unwrap()
}

fn pairs(jar: &Jar<FixedClock>, host: &Host, path: &str) -> Vec<(String, String)> {
    jar.url_matches(host, path)
        .iter()
        .map(|p| (String::from(p.name()), String::from(p.value())))
        .collect()
}

#[test]
fn host_only_vs_suffix() {
    // Set from http://www.example.com/ with no Domain attribute.
    let mut jar = Jar::<FixedClock>::with_clock(FixedClock(0));
    let c = Cookie::parse("a=b", &origin("www.example.com", "/"), 0).unwrap();
    assert!(c.attributes().host_only());
    jar.add_cookie(c);
    assert_eq!(pairs(&jar, &domain("www.example.com"), "/"), vec![(
        String::from("a"),
        String::from("b"),
    )]);
    assert!(pairs(&jar, &domain("other.example.com"), "/").is_empty());
    assert!(pairs(&jar, &domain("example.com"), "/").is_empty());
    assert!(pairs(&jar, &domain("sub.www.example.com"), "/").is_empty());

    // The same cookie set with Domain=example.com.
    let mut jar = Jar::<FixedClock>::with_clock(FixedClock(0));
    let c = Cookie::parse("a=b; Domain=example.com", &origin("www.example.com", "/"), 0).unwrap();
    assert!(!c.attributes().host_only());
    jar.add_cookie(c);
    let hit = vec![(String::from("a"), String::from("b"))];
    assert_eq!(pairs(&jar, &domain("www.example.com"), "/"), hit);
    assert_eq!(pairs(&jar, &domain("example.com"), "/"), hit);
    assert_eq!(pairs(&jar, &domain("sub.www.example.com"), "/"), hit);
    assert!(pairs(&jar, &domain("another.com"), "/").is_empty());
    assert!(pairs(&jar, &domain("com"), "/").is_empty());
}

#[test]
fn path_scoping() {
    let mut jar = Jar::<FixedClock>::with_clock(FixedClock(0));
    jar.add_cookie(build("example.com", "/path/to/", "a=b"));
    let hit = vec![(String::from("a"), String::from("b"))];
    assert_eq!(pairs(&jar, &domain("example.com"), "/path/to/page.html"), hit);
    assert_eq!(pairs(&jar, &domain("example.com"), "/path/to/sub/x"), hit);
    assert_eq!(pairs(&jar, &domain("example.com"), "/path/to/"), hit);
    assert!(pairs(&jar, &domain("example.com"), "/path/other").is_empty());
    assert!(pairs(&jar, &domain("example.com"), "/").is_empty());

    // A cookie at the root path matches every request path.
    let mut jar = Jar::<FixedClock>::with_clock(FixedClock(0));
    jar.add_cookie(build("example.com", "/", "r=1"));
    assert_eq!(pairs(&jar, &domain("example.com"), "/path/to/page.html"), vec![(
        String::from("r"),
        String::from("1"),
    )]);
    assert_eq!(pairs(&jar, &domain("example.com"), "/"), vec![(
        String::from("r"),
        String::from("1"),
    )]);
}

#[test]
fn replacement_keeps_later_value() {
    let mut jar = Jar::<FixedClock>::with_clock(FixedClock(0));
    jar.add_cookie(build("example.com", "/", "a=first"));
    jar.add_cookie(build("example.com", "/", "a=second"));
    assert_eq!(pairs(&jar, &domain("example.com"), "/"), vec![(
        String::from("a"),
        String::from("second"),
    )]);

    // Different names stack instead of replacing.
    jar.add_cookie(build("example.com", "/", "b=2"));
    let mut got = pairs(&jar, &domain("example.com"), "/");
    got.sort();
    assert_eq!(got, vec![
        (String::from("a"), String::from("second")),
        (String::from("b"), String::from("2")),
    ]);
}

#[test]
fn ip_hosts_are_exact() {
    let mut jar = Jar::<FixedClock>::with_clock(FixedClock(0));
    let ip_origin = Origin {
        host: Some(Host::Ip(String::from("127.0.0.1"))),
        scheme: Scheme::Http,
        path: String::from("/"),
    };
    jar.add_cookie(Cookie::parse("a=b", &ip_origin, 0).unwrap());
    assert_eq!(pairs(&jar, &Host::Ip(String::from("127.0.0.1")), "/x"), vec![(
        String::from("a"),
        String::from("b"),
    )]);
    assert!(pairs(&jar, &Host::Ip(String::from("127.0.0.2")), "/x").is_empty());
    assert!(pairs(&jar, &domain("127.0.0.1"), "/x").is_empty());
}

#[test]
fn jar_keeps_expired_cookies() {
    // The jar stores what it is given; expiry is a caller-side filter.
    let mut jar = Jar::<FixedClock>::with_clock(FixedClock(800_000_000));
    let c = Cookie::parse(
        "a=b; Expires=Sun, 06 Nov 1994 08:49:37 GMT",
        &origin("example.com", "/"),
        0,
    )
    .unwrap();
    assert!(c.attributes().expired_since(800_000_000));
    jar.add_cookie(c);
    assert_eq!(pairs(&jar, &domain("example.com"), "/"), vec![(
        String::from("a"),
        String::from("b"),
    )]);
}

#[test]
fn quoted_value_through_jar() {
    let mut jar = Jar::<FixedClock>::with_clock(FixedClock(0));
    jar.add_cookie(build("example.com", "/", "a=\"b7\""));
    let found = jar.url_matches(&domain("example.com"), "/");
    assert_eq!(found.len(), 1);
    assert_eq!(found[0].as_str(), "a=\"b7\"");
    assert_eq!(found[0].value(), "b7");
}

#[test]
fn suffix_cookies_stack_with_host_cookies() {
    let mut jar = Jar::<FixedClock>::with_clock(FixedClock(0));
    jar.add_cookie(build("www.example.com", "/", "h=1"));
    jar.add_cookie(build_suffix("example.com", "/", "s=2"));
    let mut got = pairs(&jar, &domain("www.example.com"), "/");
    got.sort();
    assert_eq!(got, vec![
        (String::from("h"), String::from("1")),
        (String::from("s"), String::from("2")),
    ]);
    // At the bare domain only the suffix cookie applies.
    assert_eq!(pairs(&jar, &domain("example.com"), "/"), vec![(
        String::from("s"),
        String::from("2"),
    )]);
}

#[test]
fn system_clock_jar() {
    let mut jar = Jar::<cookie_jar::jar::SystemClock>::new();
    jar.add_cookie(build("example.com", "/", "k=v"));
    let found = jar.url_matches(&domain("example.com"), "/a");
    assert_eq!(found.len(), 1);
    assert_eq!(found[0].as_tuple(), ("k", "v"));
}
