//! The cookie-date parser.
//!
//! Cookie dates have their own grammar, independent of the rest of the
//! cookie string:
//!
//! ```text
//! cookie-date     = *delimiter date-token-list *delimiter
//! date-token-list = date-token *( 1*delimiter date-token )
//! date-token      = 1*non-delimiter
//!
//! day-of-month    = 1*2DIGIT ( non-digit *OCTET )
//! month           = ( "jan" / "feb" / "mar" / "apr" /
//!                     "may" / "jun" / "jul" / "aug" /
//!                     "sep" / "oct" / "nov" / "dec" ) *OCTET
//! year            = 2*4DIGIT ( non-digit *OCTET )
//! time            = hms-time ( non-digit *OCTET )
//! hms-time        = time-field ":" time-field ":" time-field
//! time-field      = 1*2DIGIT
//! ```
//!
//! The text is cut into tokens; each token is tried against the first
//! not-yet-filled of the four slots time, day of month, month, and year,
//! in that order.  A token that fills no slot is discarded silently.
//! Parsing fails unless all four slots are eventually filled and the
//! result is a valid calendar date.

use vstd::prelude::*;

use crate::chars::{
    CharClass, char_in_class, run_len, scan_class, is_digit_char, digit_value, digit,
    digit_to_value, char_eq_ignore_case, eq_ignore_case, all_digits, digits_value, pow10,
    lemma_run_len, lemma_digits_value_bound, lemma_digits_value_step,
};
use crate::error::ParseError;

verus! {

/// A parsed and validated cookie date: a calendar date with a time of
/// day, implicitly in UTC.  The month is counted from zero.
#[derive(Clone, Copy, PartialEq, Eq, Structural, Debug)]
pub struct DateTime {
    /// Full calendar year.
    pub year: i32,
    /// Month of the year, `0` = January through `11` = December.
    pub month: u8,
    /// Day of the month.
    pub day: u8,
    /// Hour of the day.
    pub hour: u8,
    /// Minute of the hour.
    pub minute: u8,
    /// Second of the minute.
    pub second: u8,
}

impl DateTime {
    /// The field ranges that every date produced by the parser satisfies.
    pub open spec fn wf(self) -> bool {
        100 <= self.year <= 9999
            && self.month < 12
            && self.day <= 31
            && self.hour < 24
            && self.minute < 60
            && self.second < 60
    }
}

/// Reads `min` to `max` leading digits of a token.  Returns the value of
/// the digits read and how many characters they occupy; `None` if fewer
/// than `min` digits lead the token or the token is shorter than `min`.
pub open spec fn spec_decode_digits(t: Seq<char>, min: int, max: int) -> Option<(int, int)> {
    let run = run_len(t, CharClass::Digit) as int;
    let used = if run > max { max } else { run };
    if t.len() < min || used < min {
        None
    } else {
        Some((digits_value(t.take(used)), used))
    }
}

/// Decodes an `hms-time`: three 1-2 digit fields separated by `:`, with
/// no digit directly following the seconds field.
pub open spec fn spec_decode_time(t: Seq<char>) -> Option<(int, int, int)> {
    match spec_decode_digits(t, 1, 2) {
        None => None,
        Some((h, u1)) => {
            let r1 = t.skip(u1);
            if !(r1.len() >= 2 && r1[0] == ':') {
                None
            } else {
                match spec_decode_digits(r1.skip(1), 1, 2) {
                    None => None,
                    Some((mi, u2)) => {
                        let r2 = r1.skip(1).skip(u2);
                        if !(r2.len() >= 2 && r2[0] == ':') {
                            None
                        } else {
                            match spec_decode_digits(r2.skip(1), 1, 2) {
                                None => None,
                                Some((se, u3)) => {
                                    let r3 = r2.skip(1).skip(u3);
                                    if r3.len() > 0 && is_digit_char(r3[0]) {
                                        None
                                    } else {
                                        Some((h, mi, se))
                                    }
                                },
                            }
                        }
                    },
                }
            }
        },
    }
}

/// Decodes a day of month: 1-2 digits with no digit directly following.
pub open spec fn spec_decode_day(t: Seq<char>) -> Option<int> {
    match spec_decode_digits(t, 1, 2) {
        None => None,
        Some((d, u)) => if u < t.len() && is_digit_char(t[u]) {
            None
        } else {
            Some(d)
        },
    }
}

/// Case-insensitive match of the first three characters of a token
/// against a month abbreviation given as lowercase letters.
pub open spec fn month_matches(t: Seq<char>, a: char, b: char, c: char) -> bool {
    t.len() >= 3 && eq_ignore_case(t[0], a) && eq_ignore_case(t[1], b) && eq_ignore_case(t[2], c)
}

/// Decodes a month from its abbreviated name, counted from zero.
pub open spec fn spec_decode_month(t: Seq<char>) -> Option<int> {
    if month_matches(t, 'j', 'a', 'n') {
        Some(0)
    } else if month_matches(t, 'f', 'e', 'b') {
        Some(1)
    } else if month_matches(t, 'm', 'a', 'r') {
        Some(2)
    } else if month_matches(t, 'a', 'p', 'r') {
        Some(3)
    } else if month_matches(t, 'm', 'a', 'y') {
        Some(4)
    } else if month_matches(t, 'j', 'u', 'n') {
        Some(5)
    } else if month_matches(t, 'j', 'u', 'l') {
        Some(6)
    } else if month_matches(t, 'a', 'u', 'g') {
        Some(7)
    } else if month_matches(t, 's', 'e', 'p') {
        Some(8)
    } else if month_matches(t, 'o', 'c', 't') {
        Some(9)
    } else if month_matches(t, 'n', 'o', 'v') {
        Some(10)
    } else if month_matches(t, 'd', 'e', 'c') {
        Some(11)
    } else {
        None
    }
}

/// The two-digit year uplift: 00-69 land in the 2000s, 70-99 in the
/// 1900s, larger values stand as written.
pub open spec fn spec_uplift_year(y: int) -> int {
    if 0 <= y <= 69 {
        y + 2000
    } else if 70 <= y <= 99 {
        y + 1900
    } else {
        y
    }
}

/// Decodes a year: 2-4 digits with no digit directly following, then
/// the two-digit uplift.
pub open spec fn spec_decode_year(t: Seq<char>) -> Option<int> {
    match spec_decode_digits(t, 2, 4) {
        None => None,
        Some((y, u)) => if u < t.len() && is_digit_char(t[u]) {
            None
        } else {
            Some(spec_uplift_year(y))
        },
    }
}

/// The four slots that date tokens can fill.
pub ghost struct DateSlots {
    /// Hour, minute and second.
    pub time: Option<(int, int, int)>,
    /// Day of month.
    pub day: Option<int>,
    /// Month of the year, counted from zero.
    pub month: Option<int>,
    /// Full year after uplift.
    pub year: Option<int>,
}

/// The state before any token was seen.
pub open spec fn empty_slots() -> DateSlots {
    DateSlots { time: None, day: None, month: None, year: None }
}

/// Offers a token to the slots: the first not-yet-filled slot whose
/// decoder accepts the token takes it; otherwise the token is discarded.
pub open spec fn spec_fill(sl: DateSlots, t: Seq<char>) -> DateSlots {
    if sl.time is None && spec_decode_time(t) is Some {
        DateSlots { time: spec_decode_time(t), ..sl }
    } else if sl.day is None && spec_decode_day(t) is Some {
        DateSlots { day: spec_decode_day(t), ..sl }
    } else if sl.month is None && spec_decode_month(t) is Some {
        DateSlots { month: spec_decode_month(t), ..sl }
    } else if sl.year is None && spec_decode_year(t) is Some {
        DateSlots { year: spec_decode_year(t), ..sl }
    } else {
        sl
    }
}

/// Folds a list of tokens into the slots, in order.
pub open spec fn spec_gather(toks: Seq<Seq<char>>) -> DateSlots
    decreases toks.len(),
{
    if toks.len() == 0 {
        empty_slots()
    } else {
        spec_fill(spec_gather(toks.drop_last()), toks.last())
    }
}

/// One tokenizer step: skips the run of delimiters at the front, then
/// takes the maximal run of non-delimiters.  Text holding no further
/// token — empty, or trailing delimiters only — yields `None`; the
/// tokenizer cannot fail.
pub open spec fn spec_next_date_token(rem: Seq<char>) -> Option<(Seq<char>, Seq<char>)> {
    let d = run_len(rem, CharClass::DateDelimiter) as int;
    let r2 = rem.skip(d);
    if r2.len() == 0 {
        None
    } else {
        let t = run_len(r2, CharClass::DateToken) as int;
        Some((r2.take(t), r2.skip(t)))
    }
}

/// The date tokens of a text: its maximal non-delimiter runs, in order,
/// whatever delimiter runs lead, separate or trail them.
pub open spec fn spec_date_tokens(rem: Seq<char>) -> Seq<Seq<char>>
    decreases rem.len(),
    via spec_date_tokens_dec
{
    match spec_next_date_token(rem) {
        None => Seq::empty(),
        Some((tok, rest)) => seq![tok] + spec_date_tokens(rest),
    }
}

#[via_fn]
proof fn spec_date_tokens_dec(rem: Seq<char>) {
    lemma_run_len(rem, CharClass::DateDelimiter);
    let d = run_len(rem, CharClass::DateDelimiter) as int;
    if rem.skip(d).len() != 0 {
        // By maximality the character after the delimiter run is a
        // non-delimiter, so the token run is non-empty.
        assert(char_in_class(CharClass::DateToken, rem.skip(d)[0]));
        lemma_run_len(rem.skip(d), CharClass::DateToken);
    }
}

/// A leap year: divisible by 400, or by 4 and not by 100.
pub open spec fn spec_is_leap_year(y: int) -> bool {
    y % 400 == 0 || (y % 4 == 0 && y % 100 != 0)
}

/// The number of days of a month (counted from zero) in a year.
pub open spec fn spec_days_in_month(m: int, y: int) -> int {
    if m == 1 {
        if spec_is_leap_year(y) {
            29
        } else {
            28
        }
    } else if m == 3 || m == 5 || m == 8 || m == 10 {
        30
    } else {
        31
    }
}

/// Validates the filled slots and forms the date.  Unfilled slots fail
/// with `IncompleteDate`; out-of-range fields with `InvalidDate`.
pub open spec fn spec_finish(sl: DateSlots) -> Result<DateTime, ParseError> {
    match (sl.time, sl.day, sl.month, sl.year) {
        (Some((h, mi, se)), Some(d), Some(mo), Some(y)) => {
            if !(0 <= se < 60 && 0 <= mi < 60 && 0 <= h < 24) {
                Err(ParseError::InvalidDate)
            } else if !(0 <= mo < 12 && 0 <= d) {
                Err(ParseError::InvalidDate)
            } else if !(d <= spec_days_in_month(mo, y)) {
                Err(ParseError::InvalidDate)
            } else {
                Ok(DateTime {
                    year: y as i32,
                    month: mo as u8,
                    day: d as u8,
                    hour: h as u8,
                    minute: mi as u8,
                    second: se as u8,
                })
            }
        },
        _ => Err(ParseError::IncompleteDate),
    }
}

/// What parsing a whole cookie-date text yields.
pub open spec fn spec_cookie_date(s: Seq<char>) -> Result<DateTime, ParseError> {
    spec_finish(spec_gather(spec_date_tokens(s)))
}

/// The days of all years before year `y` in the proleptic Gregorian
/// calendar, counted from year 1.
pub open spec fn spec_days_before_year(y: int) -> int {
    365 * (y - 1) + (y - 1) / 4 - (y - 1) / 100 + (y - 1) / 400
}

/// The days of all months of year `y` before month `m` (counted from
/// zero).
pub open spec fn spec_days_before_month(m: int, y: int) -> int {
    let base: int = if m == 0 {
        0
    } else if m == 1 {
        31
    } else if m == 2 {
        59
    } else if m == 3 {
        90
    } else if m == 4 {
        120
    } else if m == 5 {
        151
    } else if m == 6 {
        181
    } else if m == 7 {
        212
    } else if m == 8 {
        243
    } else if m == 9 {
        273
    } else if m == 10 {
        304
    } else {
        334
    };
    base + if m >= 2 && spec_is_leap_year(y) {
        1int
    } else {
        0int
    }
}

/// The days from 1970-01-01 to the start of year 1.
pub open spec fn epoch_day_offset() -> int {
    719162
}

/// The seconds since 1970-01-01T00:00:00 UTC that a date denotes.
pub open spec fn spec_epoch_of(dt: DateTime) -> int {
    (spec_days_before_year(dt.year as int) + spec_days_before_month(
        dt.month as int,
        dt.year as int,
    ) + dt.day - 1 - epoch_day_offset()) * 86400 + dt.hour * 3600 + dt.minute * 60 + dt.second
}

impl DateTime {
    /// The seconds since the Unix epoch that this date denotes.
    pub fn to_epoch(&self) -> (r: i64)
        requires
            self.wf(),
        ensures
            r == spec_epoch_of(*self),
            -62135596800 <= r <= 253402300799,
    {
        let ym1 = (self.year - 1) as u64;
        let dby = 365 * ym1 + ym1 / 4 - ym1 / 100 + ym1 / 400;
        let yy = self.year as u64;
        let leap = yy % 400 == 0 || (yy % 4 == 0 && yy % 100 != 0);
        let m = self.month;
        let base: u64 = if m == 0 {
            0
        } else if m == 1 {
            31
        } else if m == 2 {
            59
        } else if m == 3 {
            90
        } else if m == 4 {
            120
        } else if m == 5 {
            151
        } else if m == 6 {
            181
        } else if m == 7 {
            212
        } else if m == 8 {
            243
        } else if m == 9 {
            273
        } else if m == 10 {
            304
        } else {
            334
        };
        let adj: u64 = if m >= 2 && leap {
            1
        } else {
            0
        };
        let days: i64 = (dby as i64) + (base as i64) + (adj as i64) + (self.day as i64) - 1
            - 719162;
        days * 86400 + (self.hour as i64) * 3600 + (self.minute as i64) * 60 + (self.second as i64)
    }
}

/// The small powers of ten, written out.
proof fn lemma_pow10_small()
    ensures
        pow10(0) == 1,
        pow10(1) == 10,
        pow10(2) == 100,
        pow10(3) == 1000,
        pow10(4) == 10000,
{
    reveal_with_fuel(pow10, 5);
}

/// Reads `min` to `max` leading digits of a token.
fn decode_digits(t: &str, min: usize, max: usize) -> (r: Option<(u16, usize)>)
    requires
        1 <= min <= max <= 4,
    ensures
        match r {
            Some((v, u)) => {
                &&& spec_decode_digits(t@, min as int, max as int) == Some((v as int, u as int))
                &&& min <= u <= max
                &&& u <= t@.len()
                &&& v < pow10(u as nat)
            },
            None => spec_decode_digits(t@, min as int, max as int) is None,
        },
{
    proof {
        lemma_run_len(t@, CharClass::Digit);
        lemma_pow10_small();
    }
    let len = t.unicode_len();
    let run = scan_class(t, CharClass::Digit);
    let used = if run > max {
        max
    } else {
        run
    };
    if len < min || used < min {
        return None;
    }
    let mut v: u16 = 0;
    let mut j: usize = 0;
    while j < used
        invariant
            0 <= j <= used,
            used <= run || used == max,
            used <= max <= 4,
            used <= len,
            run == run_len(t@, CharClass::Digit),
            used == if run > max { max as int } else { run as int },
            len == t@.len(),
            forall|k: int| 0 <= k < run ==> is_digit_char(t@[k]),
            v == digits_value(t@.take(j as int)),
            0 <= v < pow10(j as nat),
        decreases used - j,
    {
        let c = t.get_char(j);
        let d = digit_to_value(c);
        proof {
            lemma_digits_value_step(t@, j as int);
            lemma_pow10_small();
        }
        v = v * 10 + (d as u16);
        j = j + 1;
        proof {
            assert(all_digits(t@.take(j as int))) by {
                assert(forall|k: int| 0 <= k < j ==> t@.take(j as int)[k] == t@[k]);
            }
            lemma_digits_value_bound(t@.take(j as int));
            assert(t@.take(j as int).len() == j as nat);
        }
    }
    proof {
        lemma_pow10_small();
    }
    Some((v, used))
}

/// Decodes an `hms-time` from a token.
#[verifier::rlimit(50)]
fn decode_time(t: &str) -> (r: Option<(u8, u8, u8)>)
    ensures
        match r {
            Some((h, mi, se)) => spec_decode_time(t@) == Some((h as int, mi as int, se as int)),
            None => spec_decode_time(t@) is None,
        },
{
    proof {
        lemma_pow10_small();
    }
    let len = t.unicode_len();
    let (h, u1) = match decode_digits(t, 1, 2) {
        Some(p) => p,
        None => {
            return None;
        },
    };
    // r1 = t[u1..]
    if !(len - u1 >= 2 && t.get_char(u1) == ':') {
        proof {
            assert(t@.skip(u1 as int).len() == len - u1);
            if len - u1 >= 1 {
                assert(t@.skip(u1 as int)[0] == t@[u1 as int]);
            }
        }
        return None;
    }
    proof {
        assert(t@.skip(u1 as int)[0] == t@[u1 as int]);
    }
    let m1 = t.substring_char(u1 + 1, len);
    proof {
        assert(m1@ =~= t@.skip(u1 as int).skip(1));
    }
    let (mi, u2) = match decode_digits(m1, 1, 2) {
        Some(p) => p,
        None => {
            return None;
        },
    };
    // r2 = t[u1 + 1 + u2..]
    let p2 = u1 + 1 + u2;
    proof {
        assert(t@.skip(u1 as int).skip(1).skip(u2 as int) =~= t@.skip(p2 as int));
    }
    if !(len - p2 >= 2 && t.get_char(p2) == ':') {
        proof {
            assert(t@.skip(p2 as int).len() == len - p2);
            if len - p2 >= 1 {
                assert(t@.skip(p2 as int)[0] == t@[p2 as int]);
            }
        }
        return None;
    }
    proof {
        assert(t@.skip(p2 as int)[0] == t@[p2 as int]);
    }
    let m2 = t.substring_char(p2 + 1, len);
    proof {
        assert(m2@ =~= t@.skip(p2 as int).skip(1));
    }
    let (se, u3) = match decode_digits(m2, 1, 2) {
        Some(p) => p,
        None => {
            return None;
        },
    };
    // r3 = t[p2 + 1 + u3..]
    let p3 = p2 + 1 + u3;
    proof {
        assert(t@.skip(p2 as int).skip(1).skip(u3 as int) =~= t@.skip(p3 as int));
        assert(t@.skip(p3 as int).len() == len - p3);
        if len - p3 >= 1 {
            assert(t@.skip(p3 as int)[0] == t@[p3 as int]);
        }
    }
    if p3 < len && digit(t.get_char(p3)) {
        return None;
    }
    Some((h as u8, mi as u8, se as u8))
}

/// Decodes a day of month from a token.
fn decode_day(t: &str) -> (r: Option<u8>)
    ensures
        match r {
            Some(d) => spec_decode_day(t@) == Some(d as int),
            None => spec_decode_day(t@) is None,
        },
{
    proof {
        lemma_pow10_small();
    }
    let len = t.unicode_len();
    let (d, u) = match decode_digits(t, 1, 2) {
        Some(p) => p,
        None => {
            return None;
        },
    };
    if u < len && digit(t.get_char(u)) {
        return None;
    }
    Some(d as u8)
}

/// Decodes a month abbreviation from a token, counted from zero.
fn decode_month(t: &str) -> (r: Option<u8>)
    ensures
        match r {
            Some(m) => spec_decode_month(t@) == Some(m as int),
            None => spec_decode_month(t@) is None,
        },
{
    let len = t.unicode_len();
    if len < 3 {
        return None;
    }
    let a = t.get_char(0);
    let b = t.get_char(1);
    let c = t.get_char(2);
    if char_eq_ignore_case(a, 'j') && char_eq_ignore_case(b, 'a') && char_eq_ignore_case(c, 'n') {
        Some(0)
    } else if char_eq_ignore_case(a, 'f') && char_eq_ignore_case(b, 'e') && char_eq_ignore_case(c, 'b') {
        Some(1)
    } else if char_eq_ignore_case(a, 'm') && char_eq_ignore_case(b, 'a') && char_eq_ignore_case(c, 'r') {
        Some(2)
    } else if char_eq_ignore_case(a, 'a') && char_eq_ignore_case(b, 'p') && char_eq_ignore_case(c, 'r') {
        Some(3)
    } else if char_eq_ignore_case(a, 'm') && char_eq_ignore_case(b, 'a') && char_eq_ignore_case(c, 'y') {
        Some(4)
    } else if char_eq_ignore_case(a, 'j') && char_eq_ignore_case(b, 'u') && char_eq_ignore_case(c, 'n') {
        Some(5)
    } else if char_eq_ignore_case(a, 'j') && char_eq_ignore_case(b, 'u') && char_eq_ignore_case(c, 'l') {
        Some(6)
    } else if char_eq_ignore_case(a, 'a') && char_eq_ignore_case(b, 'u') && char_eq_ignore_case(c, 'g') {
        Some(7)
    } else if char_eq_ignore_case(a, 's') && char_eq_ignore_case(b, 'e') && char_eq_ignore_case(c, 'p') {
        Some(8)
    } else if char_eq_ignore_case(a, 'o') && char_eq_ignore_case(b, 'c') && char_eq_ignore_case(c, 't') {
        Some(9)
    } else if char_eq_ignore_case(a, 'n') && char_eq_ignore_case(b, 'o') && char_eq_ignore_case(c, 'v') {
        Some(10)
    } else if char_eq_ignore_case(a, 'd') && char_eq_ignore_case(b, 'e') && char_eq_ignore_case(c, 'c') {
        Some(11)
    } else {
        None
    }
}

/// Decodes a year from a token, applying the two-digit uplift.
fn decode_year(t: &str) -> (r: Option<u16>)
    ensures
        match r {
            Some(y) => spec_decode_year(t@) == Some(y as int),
            None => spec_decode_year(t@) is None,
        },
{
    proof {
        lemma_pow10_small();
    }
    let len = t.unicode_len();
    let (y, u) = match decode_digits(t, 2, 4) {
        Some(p) => p,
        None => {
            return None;
        },
    };
    if u < len && digit(t.get_char(u)) {
        return None;
    }
    if y <= 69 {
        Some(y + 2000)
    } else if y <= 99 {
        Some(y + 1900)
    } else {
        Some(y)
    }
}

/// A decoded year always lies between 100 and 9999: smaller written
/// values are uplifted, and at most four digits are read.
proof fn lemma_decode_year_bounds(t: Seq<char>)
    ensures
        spec_decode_year(t) matches Some(y) ==> 100 <= y <= 9999,
{
    lemma_pow10_small();
    if spec_decode_year(t) is Some {
        lemma_run_len(t, CharClass::Digit);
        let run = run_len(t, CharClass::Digit) as int;
        let used = if run > 4 { 4int } else { run };
        assert(all_digits(t.take(used))) by {
            assert(forall|k: int| 0 <= k < used ==> t.take(used)[k] == t[k]);
        }
        lemma_digits_value_bound(t.take(used));
        assert(t.take(used).len() == used);
        assert(pow10(used as nat) <= 10000) by {
            lemma_pow10_small();
            assert(used <= 4);
            if used <= 0 {
            } else if used == 1 {
            } else if used == 2 {
            } else if used == 3 {
            }
        }
    }
}

/// Any year that the slot fold fills lies between 100 and 9999.
proof fn lemma_gather_year(toks: Seq<Seq<char>>)
    ensures
        spec_gather(toks).year matches Some(y) ==> 100 <= y <= 9999,
    decreases toks.len(),
{
    if toks.len() > 0 {
        lemma_gather_year(toks.drop_last());
        lemma_decode_year_bounds(toks.last());
    }
}

/// A date formed from slots whose year is in range satisfies the field
/// ranges of `DateTime::wf`.
proof fn lemma_finish_wf(sl: DateSlots)
    requires
        sl.year matches Some(y) ==> 100 <= y <= 9999,
    ensures
        spec_finish(sl) matches Ok(dt) ==> dt.wf(),
{
}

/// A date that the cookie-date parser yields satisfies the field ranges
/// of `DateTime::wf`.
pub proof fn lemma_cookie_date_wf(s: Seq<char>)
    ensures
        spec_cookie_date(s) matches Ok(dt) ==> dt.wf(),
{
    lemma_gather_year(spec_date_tokens(s));
    lemma_finish_wf(spec_gather(spec_date_tokens(s)));
}

/// The partially filled date slots, as the executable parser holds them.
struct Slots {
    time: Option<(u8, u8, u8)>,
    day: Option<u8>,
    month: Option<u8>,
    year: Option<u16>,
}

/// The slots a `Slots` value stands for.
spec fn slots_view(s: Slots) -> DateSlots {
    DateSlots {
        time: match s.time {
            Some((h, mi, se)) => Some((h as int, mi as int, se as int)),
            None => None,
        },
        day: match s.day {
            Some(d) => Some(d as int),
            None => None,
        },
        month: match s.month {
            Some(m) => Some(m as int),
            None => None,
        },
        year: match s.year {
            Some(y) => Some(y as int),
            None => None,
        },
    }
}

/// Validates the filled slots and forms the date.
fn finish(sl: &Slots) -> (r: Result<DateTime, ParseError>)
    ensures
        match r {
            Ok(dt) => spec_finish(slots_view(*sl)) == Ok::<DateTime, ParseError>(dt),
            Err(e) => spec_finish(slots_view(*sl)) == Err::<DateTime, ParseError>(e),
        },
{
    match (sl.time, sl.day, sl.month, sl.year) {
        (Some((h, mi, se)), Some(d), Some(mo), Some(y)) => {
            if !(se < 60 && mi < 60 && h < 24) {
                Err(ParseError::InvalidDate)
            } else if !(mo < 12) {
                Err(ParseError::InvalidDate)
            } else if !(d <= days_in_month(mo, y)) {
                Err(ParseError::InvalidDate)
            } else {
                Ok(DateTime {
                    year: y as i32,
                    month: mo,
                    day: d,
                    hour: h,
                    minute: mi,
                    second: se,
                })
            }
        },
        _ => Err(ParseError::IncompleteDate),
    }
}

/// Returns the number of days of a month (counted from zero) in a year.
fn days_in_month(m: u8, y: u16) -> (r: u8)
    requires
        m < 12,
    ensures
        r == spec_days_in_month(m as int, y as int),
{
    if m == 1 {
        if y % 400 == 0 || (y % 4 == 0 && y % 100 != 0) {
            29
        } else {
            28
        }
    } else if m == 3 || m == 5 || m == 8 || m == 10 {
        30
    } else {
        31
    }
}

/// An iterator over the tokens of a cookie-date text.
pub struct DateIter {
    source: String,
    pos: usize,
}

impl DateIter {
    #[verifier::type_invariant]
    spec fn inv(self) -> bool {
        self.pos <= self.source@.len()
    }

    /// The text the iterator has not consumed yet.
    pub closed spec fn remaining(self) -> Seq<char> {
        self.source@.skip(self.pos as int)
    }

    /// Creates an iterator over the tokens of `source`.
    pub fn new(source: &str) -> (r: DateIter)
        ensures
            r.remaining() == source@,
    {
        let r = DateIter { source: String::from_str(source), pos: 0 };
        proof {
            assert(r.remaining() =~= source@);
        }
        r
    }

    /// Takes the next token: the next maximal run of non-delimiter
    /// characters, skipping any delimiters before it.  `None` means only
    /// delimiters remain, if anything.
    pub fn next_token(&mut self) -> (r: Option<String>)
        ensures
            match r {
                Some(tok) => {
                    &&& spec_next_date_token(old(self).remaining()) == Some(
                        (tok@, final(self).remaining()),
                    )
                    &&& final(self).remaining().len() < old(self).remaining().len()
                },
                None => spec_next_date_token(old(self).remaining()) is None,
            },
    {
        proof {
            use_type_invariant(&*self);
        }
        let len = self.source.as_str().unicode_len();
        let rem = self.source.as_str().substring_char(self.pos, len);
        let rlen = len - self.pos;
        proof {
            assert(rem@ =~= old(self).remaining());
        }
        let d = scan_class(rem, CharClass::DateDelimiter);
        proof {
            lemma_run_len(rem@, CharClass::DateDelimiter);
        }
        if d == rlen {
            proof {
                assert(rem@.skip(d as int).len() == 0);
            }
            return None;
        }
        let r2 = rem.substring_char(d, rlen);
        proof {
            assert(r2@ =~= rem@.skip(d as int));
            // By maximality the first remaining character is no
            // delimiter, so the token run is non-empty.
            assert(char_in_class(CharClass::DateToken, r2@[0]));
            lemma_run_len(r2@, CharClass::DateToken);
        }
        let t = scan_class(r2, CharClass::DateToken);
        proof {
            assert(t >= 1);
        }
        let tok = String::from_str(r2.substring_char(0, t));
        self.pos = self.pos + d + t;
        proof {
            assert(tok@ =~= rem@.skip(d as int).take(t as int));
            assert(self.remaining() =~= rem@.skip(d as int).skip(t as int));
        }
        Some(tok)
    }
}

/// Parses a cookie-date text into a validated date.
pub fn parse(source: &str) -> (r: Result<DateTime, ParseError>)
    ensures
        match r {
            Ok(dt) => spec_cookie_date(source@) == Ok::<DateTime, ParseError>(dt) && dt.wf(),
            Err(e) => spec_cookie_date(source@) == Err::<DateTime, ParseError>(e),
        },
{
    let mut it = DateIter::new(source);
    let ghost mut toks: Seq<Seq<char>> = Seq::empty();
    let mut slots = Slots { time: None, day: None, month: None, year: None };
    proof {
        assert(Seq::<Seq<char>>::empty() + spec_date_tokens(source@) =~= spec_date_tokens(
            source@,
        ));
    }
    loop
        invariant_except_break
            slots_view(slots) == spec_gather(toks),
            spec_date_tokens(source@) == toks + spec_date_tokens(it.remaining()),
        ensures
            slots_view(slots) == spec_gather(toks),
            spec_date_tokens(source@) == toks,
        decreases it.remaining().len(),
    {
        let ghost rem0 = it.remaining();
        match it.next_token() {
            None => {
                proof {
                    assert(spec_date_tokens(rem0) =~= Seq::<Seq<char>>::empty());
                    assert(toks + Seq::<Seq<char>>::empty() =~= toks);
                }
                break;
            },
            Some(tok) => {
                let tk = tok.as_str();
                let ghost sl0 = slots_view(slots);
                let mut done = false;
                if slots.time.is_none() {
                    match decode_time(tk) {
                        Some(v) => {
                            slots.time = Some(v);
                            done = true;
                        },
                        None => {},
                    }
                }
                if !done && slots.day.is_none() {
                    match decode_day(tk) {
                        Some(v) => {
                            slots.day = Some(v);
                            done = true;
                        },
                        None => {},
                    }
                }
                if !done && slots.month.is_none() {
                    match decode_month(tk) {
                        Some(v) => {
                            slots.month = Some(v);
                            done = true;
                        },
                        None => {},
                    }
                }
                if !done && slots.year.is_none() {
                    match decode_year(tk) {
                        Some(v) => {
                            slots.year = Some(v);
                            done = true;
                        },
                        None => {},
                    }
                }
                proof {
                    assert(slots_view(slots) == spec_fill(sl0, tok@));
                    assert(toks.push(tok@).drop_last() =~= toks);
                    assert(toks.push(tok@).last() == tok@);
                    assert(spec_gather(toks.push(tok@)) == spec_fill(spec_gather(toks), tok@));
                    let ts = spec_date_tokens(it.remaining());
                    assert(spec_date_tokens(rem0) == seq![tok@] + ts);
                    assert(toks + (seq![tok@] + ts) =~= toks.push(tok@) + ts);
                    toks = toks.push(tok@);
                }
            },
        }
    }
    proof {
        lemma_gather_year(toks);
        lemma_finish_wf(spec_gather(toks));
    }
    finish(&slots)
}

} // verus!


