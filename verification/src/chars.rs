//! Character classes of the cookie grammar.
//!
//! The grammar distinguishes control characters, HTTP separators, token
//! characters, cookie-value characters, fragment characters, and the
//! delimiter / non-delimiter classes of the cookie-date grammar.  Every
//! class is defined here as a spec predicate together with an executable
//! check, and a scanner returns the maximal run of characters of a class.

use vstd::prelude::*;

verus! {

/// Control characters: `%x00-1F / %x7F`.
pub open spec fn is_ctl_char(c: char) -> bool {
    c as u32 <= 0x1F || c as u32 == 0x7F
}

/// The fixed RFC 2616 separator set.
pub open spec fn is_separator_char(c: char) -> bool {
    c == '(' || c == ')' || c == '<' || c == '>' || c == '@'
        || c == ',' || c == ';' || c == ':' || c == '\\' || c == '"'
        || c == '/' || c == '[' || c == ']' || c == '?' || c == '='
        || c == '{' || c == '}' || c == ' ' || c == '\t'
}

/// A token character: neither a control character nor a separator.
pub open spec fn is_token_char(c: char) -> bool {
    !is_ctl_char(c) && !is_separator_char(c)
}

/// A fragment character: anything but a control character or `;`.
pub open spec fn is_fragment_char(c: char) -> bool {
    !is_ctl_char(c) && c != ';'
}

/// An RFC 6265 cookie-value character:
/// `%x21 / %x23-2B / %x2D-3A / %x3C-5B / %x5D-7E`.
pub open spec fn is_cookie_value_char(c: char) -> bool {
    c as u32 == 0x21
        || (0x23 <= c as u32 && c as u32 <= 0x2B)
        || (0x2D <= c as u32 && c as u32 <= 0x3A)
        || (0x3C <= c as u32 && c as u32 <= 0x5B)
        || (0x5D <= c as u32 && c as u32 <= 0x7E)
}

/// A delimiter of the cookie-date grammar:
/// `%x09 / %x20-2F / %x3B-40 / %x5B-60 / %x7B-7E`.
pub open spec fn is_date_delimiter_char(c: char) -> bool {
    c as u32 == 0x09
        || (0x20 <= c as u32 && c as u32 <= 0x2F)
        || (0x3B <= c as u32 && c as u32 <= 0x40)
        || (0x5B <= c as u32 && c as u32 <= 0x60)
        || (0x7B <= c as u32 && c as u32 <= 0x7E)
}

/// A character of a date token: everything that is not a date delimiter
/// (`%x00-08 / %x0A-1F / DIGIT / ":" / ALPHA / %x7F-` and beyond).
pub open spec fn is_date_token_char(c: char) -> bool {
    !is_date_delimiter_char(c)
}

/// An ASCII decimal digit.
pub open spec fn is_digit_char(c: char) -> bool {
    0x30 <= c as u32 && c as u32 <= 0x39
}

/// The numeric value of an ASCII decimal digit.
pub open spec fn digit_value(c: char) -> int {
    c as u32 - 0x30
}

/// Case-insensitive match of `c` against a lowercase ASCII letter `l`:
/// uppercase letters are folded onto `l`, every other character must
/// equal `l` exactly.
pub open spec fn eq_ignore_case(c: char, l: char) -> bool {
    if 0x41 <= c as u32 && c as u32 <= 0x5A {
        c as u32 + 0x20 == l as u32
    } else {
        c == l
    }
}

/// The character classes that the scanner can match runs of.
#[derive(Clone, Copy, PartialEq, Eq, Structural, Debug)]
pub enum CharClass {
    /// RFC 2616 token characters.
    Token,
    /// Cookie fragment characters (no controls, no `;`).
    Fragment,
    /// RFC 6265 cookie-value characters.
    CookieValue,
    /// Delimiters of the cookie-date grammar.
    DateDelimiter,
    /// Non-delimiters of the cookie-date grammar.
    DateToken,
    /// ASCII decimal digits.
    Digit,
    /// Characters of a path segment: anything but `/`.
    PathSegment,
    /// Characters of a domain label: anything but `.`.
    DomainLabel,
}

/// Membership of a character in a class.
pub open spec fn char_in_class(cls: CharClass, c: char) -> bool {
    match cls {
        CharClass::Token => is_token_char(c),
        CharClass::Fragment => is_fragment_char(c),
        CharClass::CookieValue => is_cookie_value_char(c),
        CharClass::DateDelimiter => is_date_delimiter_char(c),
        CharClass::DateToken => is_date_token_char(c),
        CharClass::Digit => is_digit_char(c),
        CharClass::PathSegment => c != '/',
        CharClass::DomainLabel => c != '.',
    }
}

/// Decides membership of a character in a class.
pub fn check_char(cls: CharClass, c: char) -> (r: bool)
    ensures
        r == char_in_class(cls, c),
{
    let u = c as u32;
    match cls {
        CharClass::Token => !(u <= 0x1F || u == 0x7F) && !separator(c),
        CharClass::Fragment => !(u <= 0x1F || u == 0x7F) && c != ';',
        CharClass::CookieValue => {
            u == 0x21
                || (0x23 <= u && u <= 0x2B)
                || (0x2D <= u && u <= 0x3A)
                || (0x3C <= u && u <= 0x5B)
                || (0x5D <= u && u <= 0x7E)
        },
        CharClass::DateDelimiter => date_delimiter(c),
        CharClass::DateToken => !date_delimiter(c),
        CharClass::Digit => 0x30 <= u && u <= 0x39,
        CharClass::PathSegment => c != '/',
        CharClass::DomainLabel => c != '.',
    }
}

/// Decides whether a character is an RFC 2616 separator.
pub fn separator(c: char) -> (r: bool)
    ensures
        r == is_separator_char(c),
{
    match c {
        '(' | ')' | '<' | '>' | '@'
        | ',' | ';' | ':' | '\\' | '"'
        | '/' | '[' | ']' | '?' | '='
        | '{' | '}' | ' ' | '\t' => true,
        _ => false,
    }
}

/// Decides whether a character is a delimiter of the cookie-date grammar.
pub fn date_delimiter(c: char) -> (r: bool)
    ensures
        r == is_date_delimiter_char(c),
{
    let u = c as u32;
    u == 0x09
        || (0x20 <= u && u <= 0x2F)
        || (0x3B <= u && u <= 0x40)
        || (0x5B <= u && u <= 0x60)
        || (0x7B <= u && u <= 0x7E)
}

/// Decides whether a character is an ASCII decimal digit.
pub fn digit(c: char) -> (r: bool)
    ensures
        r == is_digit_char(c),
{
    let u = c as u32;
    0x30 <= u && u <= 0x39
}

/// Returns the numeric value of an ASCII decimal digit.
pub fn digit_to_value(c: char) -> (v: u8)
    requires
        is_digit_char(c),
    ensures
        v == digit_value(c),
{
    (c as u32 - 0x30) as u8
}

/// Decides the case-insensitive match of `c` against a lowercase letter.
pub fn char_eq_ignore_case(c: char, l: char) -> (r: bool)
    ensures
        r == eq_ignore_case(c, l),
{
    let u = c as u32;
    if 0x41 <= u && u <= 0x5A {
        u + 0x20 == l as u32
    } else {
        c == l
    }
}

/// The length of the maximal prefix of `s` whose characters all lie in
/// the class `cls`.
pub open spec fn run_len(s: Seq<char>, cls: CharClass) -> nat
    decreases s.len(),
{
    if s.len() == 0 || !char_in_class(cls, s[0]) {
        0
    } else {
        1 + run_len(s.drop_first(), cls)
    }
}

/// The maximal run is no longer than the text, all its characters lie in
/// the class, and the character after it (if any) does not.
pub proof fn lemma_run_len(s: Seq<char>, cls: CharClass)
    ensures
        run_len(s, cls) <= s.len(),
        forall|j: int| 0 <= j < run_len(s, cls) ==> char_in_class(cls, s[j]),
        run_len(s, cls) < s.len() ==> !char_in_class(cls, s[run_len(s, cls) as int]),
    decreases s.len(),
{
    if s.len() != 0 && char_in_class(cls, s[0]) {
        lemma_run_len(s.drop_first(), cls);
        assert forall|j: int| 0 <= j < run_len(s, cls) implies char_in_class(cls, s[j]) by {
            if j > 0 {
                assert(s.drop_first()[j - 1] == s[j]);
            }
        }
        if run_len(s, cls) < s.len() {
            assert(s.drop_first()[run_len(s, cls) - 1] == s[run_len(s, cls) as int]);
        }
    }
}

/// A prefix of in-class characters that is either the whole text or is
/// followed by an out-of-class character is the maximal run.
pub proof fn lemma_run_len_is(s: Seq<char>, cls: CharClass, n: int)
    requires
        0 <= n <= s.len(),
        forall|j: int| 0 <= j < n ==> char_in_class(cls, s[j]),
        n < s.len() ==> !char_in_class(cls, s[n]),
    ensures
        run_len(s, cls) == n,
    decreases s.len(),
{
    if n == 0 {
    } else {
        assert forall|j: int| 0 <= j < n - 1 implies char_in_class(cls, s.drop_first()[j]) by {
            assert(s.drop_first()[j] == s[j + 1]);
        }
        if n - 1 < s.drop_first().len() {
            assert(s.drop_first()[n - 1] == s[n]);
        }
        lemma_run_len_is(s.drop_first(), cls, n - 1);
    }
}

/// Every character of `s` is an ASCII decimal digit.
pub open spec fn all_digits(s: Seq<char>) -> bool {
    forall|i: int| 0 <= i < s.len() ==> is_digit_char(s[i])
}

/// The number denoted by a sequence of decimal digits, most significant
/// first.  The empty sequence denotes zero.
pub open spec fn digits_value(s: Seq<char>) -> int
    decreases s.len(),
{
    if s.len() == 0 {
        0
    } else {
        digits_value(s.drop_last()) * 10 + digit_value(s.last())
    }
}

/// Ten to the power `n`.
pub open spec fn pow10(n: nat) -> int
    decreases n,
{
    if n == 0 {
        1
    } else {
        10 * pow10((n - 1) as nat)
    }
}

/// The value of a digit sequence is non-negative and below ten to the
/// power of its length.
pub proof fn lemma_digits_value_bound(s: Seq<char>)
    requires
        all_digits(s),
    ensures
        0 <= digits_value(s) < pow10(s.len()),
    decreases s.len(),
{
    if s.len() > 0 {
        assert(all_digits(s.drop_last())) by {
            assert(forall|i: int|
                0 <= i < s.len() - 1 ==> s.drop_last()[i] == s[i]);
        }
        lemma_digits_value_bound(s.drop_last());
        assert(digits_value(s.drop_last()) <= pow10((s.len() - 1) as nat) - 1);
        assert(digit_value(s.last()) <= 9);
        assert((pow10((s.len() - 1) as nat) - 1) * 10 + 9 < pow10(s.len())) by {
            assert(pow10(s.len()) == 10 * pow10((s.len() - 1) as nat));
        }
        assert(digits_value(s.drop_last()) * 10 <= (pow10((s.len() - 1) as nat) - 1) * 10)
            by (nonlinear_arith)
            requires
                digits_value(s.drop_last()) <= pow10((s.len() - 1) as nat) - 1,
                0 <= digits_value(s.drop_last()),
        ;
    }
}

/// Extending a digit sequence by one digit multiplies its value by ten
/// and adds the digit: stepping form for prefixes.
pub proof fn lemma_digits_value_step(s: Seq<char>, i: int)
    requires
        0 <= i < s.len(),
    ensures
        digits_value(s.take(i + 1)) == digits_value(s.take(i)) * 10 + digit_value(s[i]),
{
    assert(s.take(i + 1).drop_last() =~= s.take(i));
    assert(s.take(i + 1).last() == s[i]);
}

/// The value of a digit sequence is at least the value of any prefix.
pub proof fn lemma_digits_value_prefix(s: Seq<char>, i: int)
    requires
        all_digits(s),
        0 <= i <= s.len(),
    ensures
        digits_value(s.take(i)) <= digits_value(s),
    decreases s.len() - i,
{
    if i == s.len() {
        assert(s.take(i) =~= s);
    } else {
        lemma_digits_value_step(s, i);
        assert(all_digits(s.take(i))) by {
            assert(forall|j: int| 0 <= j < i ==> s.take(i)[j] == s[j]);
        }
        lemma_digits_value_bound(s.take(i));
        assert(digits_value(s.take(i)) * 10 >= digits_value(s.take(i))) by (nonlinear_arith)
            requires
                digits_value(s.take(i)) >= 0,
        ;
        lemma_digits_value_prefix(s, i + 1);
    }
}

/// Returns the length of the maximal prefix of `s` in the class `cls`.
pub fn scan_class(s: &str, cls: CharClass) -> (n: usize)
    ensures
        n == run_len(s@, cls),
{
    let len = s.unicode_len();
    let mut i: usize = 0;
    while i < len
        invariant
            0 <= i <= len,
            len == s@.len(),
            forall|j: int| 0 <= j < i ==> char_in_class(cls, s@[j]),
        decreases len - i,
    {
        if !check_char(cls, s.get_char(i)) {
            proof {
                lemma_run_len_is(s@, cls, i as int);
            }
            return i;
        }
        i = i + 1;
    }
    proof {
        lemma_run_len_is(s@, cls, i as int);
    }
    i
}

} // verus!
