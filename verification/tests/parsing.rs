use cookie_jar::error::ParseError;
use cookie_jar::parse::{next_token, maybe_quoted, process_cookie, Argument, Quotable};
use cookie_jar::date::DateTime;

#[test]
fn parse_maybe_quoted() {
    let checks = &[
        ("ABBA", Quotable::Plain(String::from("ABBA"))),
        ("\"ABBA\"", Quotable::Quoted(String::from("\"ABBA\""))),
    ];

    for (text, expected) in checks {
        let quote = maybe_quoted(text).unwrap();
        assert_eq!(&quote, expected);
    }
}

#[test]
fn mod_maybe_quoted() {
    let checks = &[
        ("ABBA", Quotable::Plain(String::from("ABBA"))),
        ("\"ABBA\"", Quotable::Quoted(String::from("\"ABBA\""))),
    ];

    for (text, expected) in checks {
        let quote = maybe_quoted(text).unwrap();
        assert_eq!(&quote, expected);
    }
}

#[test]
fn parse_extract_tokens() {
    let token = next_token("key=value").unwrap();
    assert_eq!(token, "key");
}

#[test]
fn mod_extract_tokens() {
    let token = next_token("key=value").unwrap();
    assert_eq!(token, "key");
}

fn collect_arguments(source: &str) -> (cookie_jar::parse::CookiePair, Vec<Argument>) {
    let (cookie, mut iter) = process_cookie(source).unwrap();
    let mut args = Vec::new();
    while let Some(arg) = iter.next_argument().unwrap() {
        args.push(arg);
    }
    (cookie, args)
}

#[test]
fn parse_fragment_iterator() {
    let (cookie, args) = collect_arguments(
        "some=thing; \
         fragment; \
         Domain=google.com; \
         Expires=Sun, 25 Feb 2018 01:36:48 GMT; \
         Max-Age=3200; \
         other=fragment",
    );
    let expected_args = vec![
        Argument::Extension(String::from("fragment")),
        Argument::Domain(String::from("google.com")),
        Argument::Expires(DateTime { year: 2018, month: 1, day: 25, hour: 1, minute: 36, second: 48 }),
        Argument::MaxAge(3200),
        Argument::Extension(String::from("other=fragment")),
    ];
    assert_eq!(cookie.as_str(), "some=thing");
    assert_eq!(cookie.name(), "some");
    assert_eq!(cookie.value(), "thing");
    assert_eq!(args, expected_args);
}

#[test]
fn mod_fragment_iterator() {
    let (cookie, args) = collect_arguments(
        "some=thing; \
         fragment; \
         Domain=google.com; \
         Expires=Sun, 25 Feb 2018 01:36:48 GMT; \
         Max-Age=3200; \
         other=fragment",
    );
    let expected_args = vec![
        Argument::Extension(String::from("fragment")),
        Argument::Domain(String::from("google.com")),
        Argument::Expires(DateTime { year: 2018, month: 1, day: 25, hour: 1, minute: 36, second: 48 }),
        Argument::MaxAge(3200),
        Argument::Extension(String::from("other=fragment")),
    ];
    assert_eq!(cookie.as_tuple(), ("some", "thing"));
    assert_eq!(args, expected_args);
}

#[test]
fn pair_quoting_preserved() {
    let (cookie, args) = collect_arguments("a=\"b7\"");
    assert!(args.is_empty());
    assert_eq!(cookie.as_str(), "a=\"b7\"");
    assert_eq!(cookie.value(), "b7");
    assert_eq!(cookie.name(), "a");
}

#[test]
fn pair_errors() {
    assert_eq!(process_cookie("").unwrap_err(), ParseError::NotEnoughBytes);
    assert_eq!(process_cookie("=v").unwrap_err(), ParseError::NotEnoughBytes);
    assert_eq!(process_cookie("a").unwrap_err(), ParseError::MissingDelimiter);
    assert_eq!(process_cookie("a=").unwrap_err(), ParseError::NotEnoughBytes);
    assert_eq!(process_cookie("a=\"b").unwrap_err(), ParseError::MissingQuote);
    assert_eq!(process_cookie("a=\"\"").unwrap_err(), ParseError::NotEnoughBytes);
    assert_eq!(process_cookie("a=b c").unwrap_err(), ParseError::InvalidByte);
}

#[test]
fn argument_errors() {
    let (_, mut iter) = process_cookie("a=b; Max-Age=ten").unwrap();
    assert_eq!(iter.next_argument().unwrap_err(), ParseError::InvalidInteger);

    let (_, mut iter) = process_cookie("a=b;bad").unwrap();
    assert_eq!(iter.next_argument().unwrap_err(), ParseError::MissingDelimiter);

    let (_, mut iter) = process_cookie("a=b; ").unwrap();
    assert_eq!(iter.next_argument().unwrap_err(), ParseError::NotEnoughBytes);
}

#[test]
fn max_age_bounds() {
    let (_, mut iter) = process_cookie("a=b; Max-Age=-120").unwrap();
    assert_eq!(iter.next_argument().unwrap(), Some(Argument::MaxAge(-120)));

    let (_, mut iter) = process_cookie("a=b; Max-Age=9223372036854775807").unwrap();
    assert_eq!(
        iter.next_argument().unwrap(),
        Some(Argument::MaxAge(9223372036854775807))
    );

    let (_, mut iter) = process_cookie("a=b; Max-Age=9223372036854775808").unwrap();
    assert_eq!(iter.next_argument().unwrap_err(), ParseError::InvalidInteger);
}

#[test]
fn date_iter_tokens() {
    let mut it = cookie_jar::date::DateIter::new("Sun, 06 Nov");
    assert_eq!(it.next_token().as_deref(), Some("Sun"));
    assert_eq!(it.next_token().as_deref(), Some("06"));
    assert_eq!(it.next_token().as_deref(), Some("Nov"));
    assert_eq!(it.next_token(), None);
}

#[test]
fn date_iter_surrounding_delimiters() {
    let mut it = cookie_jar::date::DateIter::new("  Sun,, 06  ");
    assert_eq!(it.next_token().as_deref(), Some("Sun"));
    assert_eq!(it.next_token().as_deref(), Some("06"));
    assert_eq!(it.next_token(), None);

    let mut empty = cookie_jar::date::DateIter::new(" ,; ");
    assert_eq!(empty.next_token(), None);
}
