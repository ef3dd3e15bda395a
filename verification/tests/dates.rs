use cookie_jar::date::{parse, DateTime};
use cookie_jar::error::ParseError;

fn dt(year: i32, month: u8, day: u8, hour: u8, minute: u8, second: u8) -> DateTime {
    DateTime { year, month, day, hour, minute, second }
}

#[test]
fn parse_date_parse() {
    let parsed = parse(
        "I do delcare that this cookie doth expire on the 14th day of January. \
         On that day it shall entirely expire when the clock reads 12:52:13. \
         It shall not exist beyond the 32nd year of the 21st century",
    )
    .unwrap();
    assert_eq!(parsed, dt(2032, 0, 14, 12, 52, 13));
}

#[test]
fn date_date_parse() {
    let tests: &[(&str, DateTime)] = &[
        (
            "I do delcare that this cookie doth expire on the 14th day of January. \
             On that day it shall entirely expire when the clock reads 12:52:13. \
             It shall not exist beyond the 32nd year of the 21st century",
            dt(2032, 0, 14, 12, 52, 13),
        ),
        ("Sun, 06 Nov 1994 08:49:37 GMT", dt(1994, 10, 6, 8, 49, 37)),
        ("Sunday, 06-Nov-94 08:49:37 GMT", dt(1994, 10, 6, 8, 49, 37)),
        ("Sun Nov  6 08:49:37 1994", dt(1994, 10, 6, 8, 49, 37)),
    ];

    for &(source, expected) in tests {
        let parsed =
            parse(source).unwrap_or_else(|_| panic!("Couldn't parse cookie date '{}'", source));
        assert_eq!(parsed, expected);
    }
}

#[test]
fn two_digit_year_uplift() {
    let cases: &[(&str, i32)] = &[("94", 1994), ("10", 2010), ("69", 2069), ("70", 1970)];
    for &(year, expected) in cases {
        let source = format!("06 Nov {} 08:49:37", year);
        let parsed = parse(&source).unwrap();
        assert_eq!(parsed.year, expected);
        assert_eq!(parsed, dt(expected, 10, 6, 8, 49, 37));
    }
}

#[test]
fn leap_day() {
    assert_eq!(parse("29 Feb 2032 12:00:00").unwrap(), dt(2032, 1, 29, 12, 0, 0));
    assert_eq!(parse("29 Feb 2031 12:00:00").unwrap_err(), ParseError::InvalidDate);
    assert_eq!(parse("29 Feb 2000 12:00:00").unwrap(), dt(2000, 1, 29, 12, 0, 0));
    assert_eq!(parse("29 Feb 1900 12:00:00").unwrap_err(), ParseError::InvalidDate);
}

#[test]
fn date_slot_errors() {
    // No token can fill all four slots.
    assert_eq!(parse("Sun GMT").unwrap_err(), ParseError::IncompleteDate);
    assert_eq!(parse(" Sun").unwrap_err(), ParseError::IncompleteDate);
    assert_eq!(parse("").unwrap_err(), ParseError::IncompleteDate);
    assert_eq!(parse(" ;,- ").unwrap_err(), ParseError::IncompleteDate);
    // Out-of-range time of day.
    assert_eq!(parse("06 Nov 1994 08:72:37").unwrap_err(), ParseError::InvalidDate);
    assert_eq!(parse("06 Nov 1994 25:49:37").unwrap_err(), ParseError::InvalidDate);
    // A trailing digit invalidates a slot candidate: "123" fills no slot,
    // so the day slot is never filled.
    assert_eq!(parse("123 Nov 1994 08:49:37").unwrap_err(), ParseError::IncompleteDate);
}

#[test]
fn surrounding_punctuation_ignored() {
    // The tokenizer tolerates delimiter runs before, between and after
    // the tokens: the date parses independent of surrounding text.
    let expected = dt(1994, 10, 6, 8, 49, 37);
    assert_eq!(parse(" Sun, 06 Nov 1994 08:49:37 GMT ").unwrap(), expected);
    assert_eq!(parse(";;Sunday, 06-Nov-94 08:49:37 GMT--").unwrap(), expected);
    assert_eq!(parse("   Sun Nov  6 08:49:37 1994,,, ").unwrap(), expected);
}

#[test]
fn ambiguity_guards() {
    // "1994" must not be read as a 2-digit day or time field.
    let parsed = parse("1994 Nov 6 08:49:37").unwrap();
    // First token: time fails (no colon), day takes "19"? No - a trailing
    // digit follows, so day rejects it too; year takes 1994 at its turn.
    assert_eq!(parsed, dt(1994, 10, 6, 8, 49, 37));
}

#[test]
fn epoch_conversion() {
    let d = dt(1994, 10, 6, 8, 49, 37);
    assert_eq!(d.to_epoch(), 784111777);
    assert_eq!(dt(1970, 0, 1, 0, 0, 0).to_epoch(), 0);
    assert_eq!(dt(2038, 0, 19, 3, 14, 8).to_epoch(), 2147483648);
    assert_eq!(dt(1969, 11, 31, 23, 59, 59).to_epoch(), -1);
}
