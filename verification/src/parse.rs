//! Decoding of a cookie string into its `name=value` pair and arguments.
//!
//! A cookie string is one fragment (characters up to the first `;` or the
//! end of the text) holding the pair, followed by attributes each
//! introduced by the exact two-character separator `"; "`.

use vstd::prelude::*;

use crate::chars::{
    CharClass, run_len, scan_class, is_token_char, is_cookie_value_char, is_fragment_char,
    is_digit_char, digit, digit_to_value, all_digits, digits_value, lemma_run_len,
    lemma_run_len_is, lemma_digits_value_step, lemma_digits_value_prefix,
};
use crate::date::{DateTime, spec_cookie_date};
use crate::error::ParseError;

verus! {

/// `p` is a prefix of `s`.
pub open spec fn has_prefix(s: Seq<char>, p: Seq<char>) -> bool {
    p.len() <= s.len() && s.take(p.len() as int) == p
}

/// Decides whether the text `p` is a prefix of `s`.
pub fn starts_with_text(s: &str, p: &str) -> (r: bool)
    ensures
        r == has_prefix(s@, p@),
{
    let plen = p.unicode_len();
    let slen = s.unicode_len();
    if slen < plen {
        return false;
    }
    let mut i: usize = 0;
    while i < plen
        invariant
            0 <= i <= plen,
            plen <= slen,
            plen == p@.len(),
            slen == s@.len(),
            forall|j: int| 0 <= j < i ==> s@[j] == p@[j],
        decreases plen - i,
    {
        if s.get_char(i) != p.get_char(i) {
            proof {
                assert(!has_prefix(s@, p@)) by {
                    if has_prefix(s@, p@) {
                        assert(s@.take(plen as int)[i as int] == p@[i as int]);
                    }
                }
            }
            return false;
        }
        i = i + 1;
    }
    proof {
        assert(s@.take(plen as int) =~= p@);
    }
    true
}

/// Decides whether two texts are equal.
pub fn text_eq(a: &str, b: &str) -> (r: bool)
    ensures
        r == (a@ == b@),
{
    let al = a.unicode_len();
    let bl = b.unicode_len();
    if al != bl {
        return false;
    }
    let r = starts_with_text(a, b);
    proof {
        if r {
            assert(a@.take(bl as int) =~= a@);
        }
        if a@ == b@ {
            assert(a@.take(bl as int) =~= b@);
        }
    }
    r
}

/// A value text that may carry a literal pair of wrapping quotes.  Either
/// way it holds the text as written, quotes included.
#[derive(PartialEq, Eq, Debug)]
pub enum Quotable {
    /// The text is wrapped in double quotes.
    Quoted(String),
    /// The text carries no wrapping quotes.
    Plain(String),
}

/// The text starts with a double quote.
pub open spec fn opens_quote(t: Seq<char>) -> bool {
    t.len() >= 1 && t[0] == '"'
}

/// The text is long enough to close its quote and ends with one.
pub open spec fn closes_quote(t: Seq<char>) -> bool {
    t.len() >= 2 && t[t.len() - 1] == '"'
}

/// Classifies a value text by its optional wrapping quotes.  A text that
/// opens a quote and does not close it fails with `MissingQuote`.
pub fn maybe_quoted(text: &str) -> (r: Result<Quotable, ParseError>)
    ensures
        match r {
            Ok(Quotable::Quoted(q)) => opens_quote(text@) && closes_quote(text@) && q@ == text@,
            Ok(Quotable::Plain(p)) => !opens_quote(text@) && p@ == text@,
            Err(e) => e == ParseError::MissingQuote && opens_quote(text@) && !closes_quote(text@),
        },
{
    let len = text.unicode_len();
    if len >= 1 && text.get_char(0) == '"' {
        if len >= 2 && text.get_char(len - 1) == '"' {
            Ok(Quotable::Quoted(String::from_str(text)))
        } else {
            Err(ParseError::MissingQuote)
        }
    } else {
        Ok(Quotable::Plain(String::from_str(text)))
    }
}

/// The maximal token prefix of the text, which must not be empty.
pub open spec fn spec_next_token(s: Seq<char>) -> Result<Seq<char>, ParseError> {
    if run_len(s, CharClass::Token) == 0 {
        Err(ParseError::NotEnoughBytes)
    } else {
        Ok(s.take(run_len(s, CharClass::Token) as int))
    }
}

/// Takes the maximal non-empty run of token characters from the start of
/// the text.
pub fn next_token<'a>(source: &'a str) -> (r: Result<&'a str, ParseError>)
    ensures
        match r {
            Ok(t) => spec_next_token(source@) == Ok::<Seq<char>, ParseError>(t@),
            Err(e) => spec_next_token(source@) == Err::<Seq<char>, ParseError>(e),
        },
{
    let len = source.unicode_len();
    let n = scan_class(source, CharClass::Token);
    proof {
        lemma_run_len(source@, CharClass::Token);
    }
    if n == 0 {
        Err(ParseError::NotEnoughBytes)
    } else {
        Ok(source.substring_char(0, n))
    }
}

/// A decoded cookie `name=value` pair.  The full matched text is kept as
/// written (wrapping quotes of the value included), while `value` strips
/// the quotes.
#[derive(Debug, PartialEq, Eq)]
pub struct CookiePair {
    pair: String,
    name: String,
    value: String,
}

/// What a `CookiePair` stands for.
pub ghost struct CookiePairView {
    /// The full `name=value` text as written.
    pub text: Seq<char>,
    /// The cookie name.
    pub name: Seq<char>,
    /// The cookie value, wrapping quotes stripped.
    pub value: Seq<char>,
}

impl View for CookiePair {
    type V = CookiePairView;

    closed spec fn view(&self) -> CookiePairView {
        CookiePairView { text: self.pair@, name: self.name@, value: self.value@ }
    }
}

/// Every character is a cookie-value character.
pub open spec fn all_cookie_value_chars(s: Seq<char>) -> bool {
    forall|i: int| 0 <= i < s.len() ==> is_cookie_value_char(s[i])
}

/// Every character is a token character.
pub open spec fn all_token_chars(s: Seq<char>) -> bool {
    forall|i: int| 0 <= i < s.len() ==> is_token_char(s[i])
}

/// Every character is a fragment character.
pub open spec fn all_fragment_chars(s: Seq<char>) -> bool {
    forall|i: int| 0 <= i < s.len() ==> is_fragment_char(s[i])
}

/// The text of a well-formed pair consists of fragment characters: its
/// name is token characters, its value cookie-value characters, and the
/// `=` and quotes are fragment characters themselves.
pub proof fn lemma_pair_text_fragment(p: CookiePairView)
    requires
        p.wf(),
    ensures
        all_fragment_chars(p.text),
{
    assert forall|i: int| 0 <= i < p.text.len() implies is_fragment_char(p.text[i]) by {
        let nl = p.name.len() as int;
        if i < nl {
            assert(p.text[i] == p.name[i]);
        } else if i == nl {
            assert(p.text[i] == '=');
        } else if p.quoted() {
            if i == nl + 1 {
                assert(p.text[i] == '"');
            } else if i == p.text.len() - 1 {
                assert(p.text[i] == '"');
            } else {
                assert(p.text[i] == p.value[i - nl - 2]);
            }
        } else {
            assert(p.text[i] == p.value[i - nl - 1]);
        }
    }
}

/// Decoding the text of a well-formed pair yields the pair back.
pub proof fn lemma_pair_encode(p: CookiePairView)
    requires
        p.wf(),
    ensures
        spec_pair_decode(p.text) == Ok::<CookiePairView, ParseError>(p),
{
    let nl = p.name.len() as int;
    assert(run_len(p.text, CharClass::Token) == nl) by {
        assert(forall|j: int| 0 <= j < nl ==> p.text[j] == p.name[j]);
        assert(p.text[nl] == '=');
        assert(!is_token_char('='));
        lemma_run_len_is(p.text, CharClass::Token, nl);
    }
    assert(p.text[nl] == '=');
    let v = p.text.skip(nl + 1);
    if p.quoted() {
        assert(v.len() == p.value.len() + 2);
        assert(v[0] == '"');
        assert(v[v.len() - 1] == '"');
        assert(v.subrange(1, v.len() - 1) =~= p.value);
        assert(all_cookie_value_chars(v.subrange(1, v.len() - 1)));
        assert(spec_value_decode(v) == Ok::<Seq<char>, ParseError>(p.value));
    } else {
        assert(v =~= p.value);
        assert(v[0] == p.value[0]);
        assert(is_cookie_value_char(v[0]));
        assert(v[0] != '"');
        assert(spec_value_decode(v) == Ok::<Seq<char>, ParseError>(p.value));
    }
    assert(p.text.take(nl) =~= p.name);
    assert(spec_pair_decode(p.text)->Ok_0 =~~= p);
}

impl CookiePairView {
    /// The pair is quoted: its text wraps the value in double quotes.
    pub open spec fn quoted(self) -> bool {
        self.text.len() == self.name.len() + 1 + self.value.len() + 2
    }

    /// How a well-formed decoded pair relates its three parts: the text
    /// is the name, `=`, and the value as written, the name is a
    /// non-empty run of token characters, and the value a non-empty run
    /// of cookie-value characters, optionally quote-wrapped in the text.
    pub open spec fn wf(self) -> bool {
        &&& self.name.len() > 0
        &&& all_token_chars(self.name)
        &&& self.value.len() > 0
        &&& all_cookie_value_chars(self.value)
        &&& if self.quoted() {
            self.text =~= self.name + seq!['='] + seq!['"'] + self.value + seq!['"']
        } else {
            self.text =~= self.name + seq!['='] + self.value
        }
    }
}

/// Decodes the value part of a pair fragment: the whole remainder of the
/// fragment, optionally quote-wrapped; the content must be non-empty and
/// all cookie-value characters.
pub open spec fn spec_value_decode(v: Seq<char>) -> Result<Seq<char>, ParseError> {
    if v.len() == 0 {
        Err(ParseError::NotEnoughBytes)
    } else if v[0] == '"' {
        if v.len() < 2 || v[v.len() - 1] != '"' {
            Err(ParseError::MissingQuote)
        } else if v.len() == 2 {
            Err(ParseError::NotEnoughBytes)
        } else if all_cookie_value_chars(v.subrange(1, v.len() - 1)) {
            Ok(v.subrange(1, v.len() - 1))
        } else {
            Err(ParseError::InvalidByte)
        }
    } else if all_cookie_value_chars(v) {
        Ok(v)
    } else {
        Err(ParseError::InvalidByte)
    }
}

/// Decodes a whole pair fragment: a non-empty token run as the name, a
/// literal `=`, and the value as the rest of the fragment.
pub open spec fn spec_pair_decode(frag: Seq<char>) -> Result<CookiePairView, ParseError> {
    let nl = run_len(frag, CharClass::Token) as int;
    if nl == 0 {
        Err(ParseError::NotEnoughBytes)
    } else if nl >= frag.len() || frag[nl] != '=' {
        Err(ParseError::MissingDelimiter)
    } else {
        match spec_value_decode(frag.skip(nl + 1)) {
            Ok(content) => Ok(
                CookiePairView { text: frag, name: frag.take(nl), value: content },
            ),
            Err(e) => Err(e),
        }
    }
}

/// A decode that succeeds yields a well-formed pair.
pub proof fn lemma_pair_decode_wf(frag: Seq<char>)
    ensures
        spec_pair_decode(frag) matches Ok(p) ==> p.wf(),
{
    lemma_run_len(frag, CharClass::Token);
    if spec_pair_decode(frag) is Ok {
        let p = spec_pair_decode(frag)->Ok_0;
        let nl = run_len(frag, CharClass::Token) as int;
        let v = frag.skip(nl + 1);
        assert(all_token_chars(p.name)) by {
            assert(forall|i: int| 0 <= i < nl ==> frag.take(nl)[i] == frag[i]);
        }
        if v[0] == '"' {
            assert(p.quoted());
            assert(p.text =~= p.name + seq!['='] + seq!['"'] + p.value + seq!['"']);
        } else {
            assert(p.value == v);
            assert(!p.quoted());
            assert(p.text =~= p.name + seq!['='] + p.value);
        }
    }
}

/// Decodes a pair fragment into an owned `CookiePair`.
pub(crate) fn decode_pair(frag: &str) -> (r: Result<CookiePair, ParseError>)
    ensures
        match r {
            Ok(p) => spec_pair_decode(frag@) == Ok::<CookiePairView, ParseError>(p@),
            Err(e) => spec_pair_decode(frag@) == Err::<CookiePairView, ParseError>(e),
        },
{
    let len = frag.unicode_len();
    let nl = scan_class(frag, CharClass::Token);
    proof {
        lemma_run_len(frag@, CharClass::Token);
    }
    if nl == 0 {
        return Err(ParseError::NotEnoughBytes);
    }
    if nl >= len || frag.get_char(nl) != '=' {
        return Err(ParseError::MissingDelimiter);
    }
    let vpart = frag.substring_char(nl + 1, len);
    let vlen = len - (nl + 1);
    proof {
        assert(vpart@ =~= frag@.skip(nl + 1));
    }
    if vlen == 0 {
        return Err(ParseError::NotEnoughBytes);
    }
    let content: &str = if vpart.get_char(0) == '"' {
        if vlen < 2 || vpart.get_char(vlen - 1) != '"' {
            return Err(ParseError::MissingQuote);
        }
        if vlen == 2 {
            return Err(ParseError::NotEnoughBytes);
        }
        vpart.substring_char(1, vlen - 1)
    } else {
        vpart
    };
    let clen = content.unicode_len();
    let crun = scan_class(content, CharClass::CookieValue);
    proof {
        lemma_run_len(content@, CharClass::CookieValue);
    }
    if crun < clen {
        proof {
            assert(!all_cookie_value_chars(content@));
        }
        return Err(ParseError::InvalidByte);
    }
    proof {
        assert(all_cookie_value_chars(content@));
    }
    Ok(
        CookiePair {
            pair: String::from_str(frag),
            name: String::from_str(frag.substring_char(0, nl)),
            value: String::from_str(content),
        },
    )
}

impl CookiePair {
    /// The name of the cookie.
    pub fn name(&self) -> (r: &str)
        ensures
            r@ == self@.name,
    {
        self.name.as_str()
    }

    /// The value of the cookie, wrapping quotes stripped.
    pub fn value(&self) -> (r: &str)
        ensures
            r@ == self@.value,
    {
        self.value.as_str()
    }

    /// The `(name, value)` pair of the cookie.
    pub fn as_tuple(&self) -> (r: (&str, &str))
        ensures
            r.0@ == self@.name,
            r.1@ == self@.value,
    {
        (self.name.as_str(), self.value.as_str())
    }

    /// The full `name=value` text as written, quotes preserved.
    pub fn as_str(&self) -> (r: &str)
        ensures
            r@ == self@.text,
    {
        self.pair.as_str()
    }

    /// An owned copy of the pair.
    pub fn clone(&self) -> (r: CookiePair)
        ensures
            r@ == self@,
    {
        CookiePair {
            pair: self.pair.clone(),
            name: self.name.clone(),
            value: self.value.clone(),
        }
    }
}

impl Default for CookiePair {
    /// The empty pair: all three parts are empty text.
    fn default() -> (r: CookiePair)
        ensures
            r@.text.len() == 0,
            r@.name.len() == 0,
            r@.value.len() == 0,
    {
        CookiePair { pair: String::new(), name: String::new(), value: String::new() }
    }
}

/// The value a signed decimal text denotes: an optional sign, then one
/// or more digits and nothing else, within the signed 64-bit range.
pub open spec fn spec_parse_i64(s: Seq<char>) -> Result<int, ParseError> {
    let neg = s.len() > 0 && s[0] == '-';
    let ds = if s.len() > 0 && (s[0] == '-' || s[0] == '+') {
        s.skip(1)
    } else {
        s
    };
    if ds.len() == 0 || !all_digits(ds) {
        Err(ParseError::InvalidInteger)
    } else {
        let v = if neg {
            -digits_value(ds)
        } else {
            digits_value(ds)
        };
        if v < i64::MIN as int || v > i64::MAX as int {
            Err(ParseError::InvalidInteger)
        } else {
            Ok(v)
        }
    }
}

/// Parses a signed decimal count of seconds.
fn parse_i64(s: &str) -> (r: Result<i64, ParseError>)
    ensures
        match r {
            Ok(v) => spec_parse_i64(s@) == Ok::<int, ParseError>(v as int),
            Err(e) => spec_parse_i64(s@) == Err::<int, ParseError>(e),
        },
{
    let len = s.unicode_len();
    if len == 0 {
        return Err(ParseError::InvalidInteger);
    }
    let c0 = s.get_char(0);
    let neg = c0 == '-';
    let start: usize = if c0 == '-' || c0 == '+' {
        1
    } else {
        0
    };
    let ghost ds = if start == 1 { s@.skip(1) } else { s@ };
    if len == start {
        return Err(ParseError::InvalidInteger);
    }
    // Accumulate the negated value so that i64::MIN is reachable.
    let mut acc: i64 = 0;
    let mut i: usize = start;
    while i < len
        invariant
            start <= i <= len,
            start <= 1,
            len == s@.len(),
            len > start,
            (s@[0] == '-' || s@[0] == '+') == (start == 1),
            neg == (s@[0] == '-'),
            ds == if start == 1 { s@.skip(1) } else { s@ },
            ds.len() == len - start,
            forall|j: int| 0 <= j < i - start ==> ds[j] == s@[j + start],
            forall|j: int| 0 <= j < i - start ==> is_digit_char(ds[j]),
            acc == -digits_value(ds.take(i - start)),
            i64::MIN <= acc <= 0,
        decreases len - i,
    {
        let c = s.get_char(i);
        if !digit(c) {
            proof {
                assert(ds[i - start] == s@[i as int]);
                assert(!all_digits(ds));
            }
            return Err(ParseError::InvalidInteger);
        }
        let d = digit_to_value(c);
        let step = match acc.checked_mul(10) {
            Some(m) => m.checked_sub(d as i64),
            None => None,
        };
        proof {
            lemma_digits_value_step(ds, i - start);
            assert(ds[i - start] == s@[i as int]);
        }
        match step {
            Some(next) => {
                acc = next;
            },
            None => {
                // The value read so far already exceeds the 64-bit range,
                // so the whole digit run does too, whatever follows.
                proof {
                    let k = i + 1 - start;
                    assert((acc as int) * 10 - (d as int) < (i64::MIN as int));
                    assert(digits_value(ds.take(k as int)) == -(acc as int) * 10 + d as int);
                    assert(digits_value(ds.take(k as int)) > i64::MAX as int + 1);
                    if all_digits(ds) {
                        lemma_digits_value_prefix(ds, k as int);
                        assert(digits_value(ds) > i64::MAX as int + 1);
                    }
                }
                return Err(ParseError::InvalidInteger);
            },
        }
        i = i + 1;
    }
    proof {
        assert(ds.take(ds.len() as int) =~= ds);
        assert(all_digits(ds));
    }
    if neg {
        Ok(acc)
    } else {
        if acc == i64::MIN {
            return Err(ParseError::InvalidInteger);
        }
        Ok(-acc)
    }
}

/// One decoded cookie attribute.
#[derive(Debug, PartialEq, Eq)]
pub enum Argument {
    /// `Expires=` followed by a cookie-date.
    Expires(DateTime),
    /// `Max-Age=` followed by a signed count of seconds.
    MaxAge(i64),
    /// `Domain=` followed by the domain text.
    Domain(String),
    /// `Path=` followed by the path text.
    Path(String),
    /// The literal `Secure`.
    Secure,
    /// The literal `HttpOnly`.
    HttpOnly,
    /// Any other fragment, retained but ignored by policy.
    Extension(String),
}

/// What an `Argument` stands for.
pub ghost enum ArgumentView {
    /// `Expires=` followed by a cookie-date.
    Expires(DateTime),
    /// `Max-Age=` followed by a signed count of seconds.
    MaxAge(int),
    /// `Domain=` followed by the domain text.
    Domain(Seq<char>),
    /// `Path=` followed by the path text.
    Path(Seq<char>),
    /// The literal `Secure`.
    Secure,
    /// The literal `HttpOnly`.
    HttpOnly,
    /// Any other fragment.
    Extension(Seq<char>),
}

impl View for Argument {
    type V = ArgumentView;

    open spec fn view(&self) -> ArgumentView {
        match self {
            Argument::Expires(dt) => ArgumentView::Expires(*dt),
            Argument::MaxAge(n) => ArgumentView::MaxAge(*n as int),
            Argument::Domain(d) => ArgumentView::Domain(d@),
            Argument::Path(p) => ArgumentView::Path(p@),
            Argument::Secure => ArgumentView::Secure,
            Argument::HttpOnly => ArgumentView::HttpOnly,
            Argument::Extension(x) => ArgumentView::Extension(x@),
        }
    }
}

/// The text `Expires=`.
pub open spec fn expires_text() -> Seq<char> {
    seq!['E', 'x', 'p', 'i', 'r', 'e', 's', '=']
}

/// The text `Max-Age=`.
pub open spec fn max_age_text() -> Seq<char> {
    seq!['M', 'a', 'x', '-', 'A', 'g', 'e', '=']
}

/// The text `Domain=`.
pub open spec fn domain_text() -> Seq<char> {
    seq!['D', 'o', 'm', 'a', 'i', 'n', '=']
}

/// The text `Path=`.
pub open spec fn path_text() -> Seq<char> {
    seq!['P', 'a', 't', 'h', '=']
}

/// The text `Secure`.
pub open spec fn secure_text() -> Seq<char> {
    seq!['S', 'e', 'c', 'u', 'r', 'e']
}

/// The text `HttpOnly`.
pub open spec fn http_only_text() -> Seq<char> {
    seq!['H', 't', 't', 'p', 'O', 'n', 'l', 'y']
}

/// Classifies one attribute fragment by its literal, case-sensitive
/// prefix.  A fragment matching no known attribute is an extension.
pub open spec fn spec_argument(frag: Seq<char>) -> Result<ArgumentView, ParseError> {
    if has_prefix(frag, expires_text()) {
        match spec_cookie_date(frag.skip(8)) {
            Ok(dt) => Ok(ArgumentView::Expires(dt)),
            Err(e) => Err(e),
        }
    } else if has_prefix(frag, max_age_text()) {
        match spec_parse_i64(frag.skip(8)) {
            Ok(n) => Ok(ArgumentView::MaxAge(n)),
            Err(e) => Err(e),
        }
    } else if has_prefix(frag, domain_text()) {
        Ok(ArgumentView::Domain(frag.skip(7)))
    } else if has_prefix(frag, path_text()) {
        Ok(ArgumentView::Path(frag.skip(5)))
    } else if frag == secure_text() {
        Ok(ArgumentView::Secure)
    } else if frag == http_only_text() {
        Ok(ArgumentView::HttpOnly)
    } else {
        Ok(ArgumentView::Extension(frag))
    }
}

/// Decodes one attribute fragment.
fn decode_argument(frag: &str) -> (r: Result<Argument, ParseError>)
    ensures
        match r {
            Ok(a) => spec_argument(frag@) == Ok::<ArgumentView, ParseError>(a@),
            Err(e) => spec_argument(frag@) == Err::<ArgumentView, ParseError>(e),
        },
{
    proof {
        reveal_strlit("Expires=");
        reveal_strlit("Max-Age=");
        reveal_strlit("Domain=");
        reveal_strlit("Path=");
        reveal_strlit("Secure");
        reveal_strlit("HttpOnly");
        assert("Expires="@ =~= expires_text());
        assert("Max-Age="@ =~= max_age_text());
        assert("Domain="@ =~= domain_text());
        assert("Path="@ =~= path_text());
        assert("Secure"@ =~= secure_text());
        assert("HttpOnly"@ =~= http_only_text());
    }
    let len = frag.unicode_len();
    if starts_with_text(frag, "Expires=") {
        let rest = frag.substring_char(8, len);
        proof {
            assert(rest@ =~= frag@.skip(8));
        }
        match crate::date::parse(rest) {
            Ok(dt) => Ok(Argument::Expires(dt)),
            Err(e) => Err(e),
        }
    } else if starts_with_text(frag, "Max-Age=") {
        let rest = frag.substring_char(8, len);
        proof {
            assert(rest@ =~= frag@.skip(8));
        }
        match parse_i64(rest) {
            Ok(n) => Ok(Argument::MaxAge(n)),
            Err(e) => Err(e),
        }
    } else if starts_with_text(frag, "Domain=") {
        let rest = frag.substring_char(7, len);
        proof {
            assert(rest@ =~= frag@.skip(7));
        }
        Ok(Argument::Domain(String::from_str(rest)))
    } else if starts_with_text(frag, "Path=") {
        let rest = frag.substring_char(5, len);
        proof {
            assert(rest@ =~= frag@.skip(5));
        }
        Ok(Argument::Path(String::from_str(rest)))
    } else if len == 6 && starts_with_text(frag, "Secure") {
        proof {
            assert(frag@ =~= frag@.take(6));
        }
        Ok(Argument::Secure)
    } else if len == 8 && starts_with_text(frag, "HttpOnly") {
        proof {
            assert(frag@ =~= frag@.take(8));
        }
        Ok(Argument::HttpOnly)
    } else {
        proof {
            if frag@ == secure_text() {
                assert(has_prefix(frag@, secure_text())) by {
                    assert(frag@.take(6) =~= frag@);
                }
            }
            if frag@ == http_only_text() {
                assert(has_prefix(frag@, http_only_text())) by {
                    assert(frag@.take(8) =~= frag@);
                }
            }
        }
        Ok(Argument::Extension(String::from_str(frag)))
    }
}

/// One step of the attribute list: exhausted text yields `None`; anything
/// else must open with the exact separator `"; "` followed by a non-empty
/// fragment, which is then classified.
pub open spec fn spec_next_argument(rem: Seq<char>) -> Result<
    Option<(ArgumentView, Seq<char>)>,
    ParseError,
> {
    if rem.len() == 0 {
        Ok(None)
    } else if rem.len() < 2 || rem[0] != ';' || rem[1] != ' ' {
        Err(ParseError::MissingDelimiter)
    } else {
        let after = rem.skip(2);
        let fl = run_len(after, CharClass::Fragment) as int;
        if fl == 0 {
            Err(ParseError::NotEnoughBytes)
        } else {
            match spec_argument(after.take(fl)) {
                Ok(a) => Ok(Some((a, after.skip(fl)))),
                Err(e) => Err(e),
            }
        }
    }
}

/// The whole attribute list of the text after the pair, or the first
/// decoding error.
pub open spec fn spec_args_list(rem: Seq<char>) -> Result<Seq<ArgumentView>, ParseError>
    decreases rem.len(),
    via spec_args_list_dec
{
    match spec_next_argument(rem) {
        Err(e) => Err(e),
        Ok(None) => Ok(Seq::empty()),
        Ok(Some((a, rest))) => match spec_args_list(rest) {
            Err(e) => Err(e),
            Ok(l) => Ok(seq![a] + l),
        },
    }
}

#[via_fn]
proof fn spec_args_list_dec(rem: Seq<char>) {
    if rem.len() >= 2 {
        lemma_run_len(rem.skip(2), CharClass::Fragment);
    }
}

/// An iterator over the attributes that follow the pair of a cookie
/// string.
#[derive(Debug)]
pub struct ArgumentIter {
    source: String,
    pos: usize,
}

impl ArgumentIter {
    #[verifier::type_invariant]
    spec fn inv(self) -> bool {
        self.pos <= self.source@.len()
    }

    /// The text the iterator has not consumed yet.
    pub closed spec fn remaining(self) -> Seq<char> {
        self.source@.skip(self.pos as int)
    }

    /// Creates an iterator over the attribute text `source`.
    pub fn new(source: &str) -> (r: ArgumentIter)
        ensures
            r.remaining() == source@,
    {
        let r = ArgumentIter { source: String::from_str(source), pos: 0 };
        proof {
            assert(r.remaining() =~= source@);
        }
        r
    }

    /// Takes the next attribute from the list.  `Ok(None)` means the text
    /// is exhausted.
    pub fn next_argument(&mut self) -> (r: Result<Option<Argument>, ParseError>)
        ensures
            match r {
                Ok(Some(a)) => {
                    &&& spec_next_argument(old(self).remaining()) == Ok::<_, ParseError>(
                        Some((a@, final(self).remaining())),
                    )
                    &&& final(self).remaining().len() < old(self).remaining().len()
                },
                Ok(None) => spec_next_argument(old(self).remaining()) == Ok::<
                    Option<(ArgumentView, Seq<char>)>,
                    ParseError,
                >(None),
                Err(e) => spec_next_argument(old(self).remaining()) == Err::<
                    Option<(ArgumentView, Seq<char>)>,
                    ParseError,
                >(e),
            },
    {
        proof {
            use_type_invariant(&*self);
        }
        let len = self.source.as_str().unicode_len();
        if self.pos == len {
            proof {
                assert(old(self).remaining().len() == 0);
            }
            return Ok(None);
        }
        let rem = self.source.as_str().substring_char(self.pos, len);
        let rlen = len - self.pos;
        proof {
            assert(rem@ =~= old(self).remaining());
        }
        if rlen < 2 || rem.get_char(0) != ';' || rem.get_char(1) != ' ' {
            return Err(ParseError::MissingDelimiter);
        }
        let after = self.source.as_str().substring_char(self.pos + 2, len);
        proof {
            assert(after@ =~= rem@.skip(2));
        }
        let fl = scan_class(after, CharClass::Fragment);
        proof {
            lemma_run_len(after@, CharClass::Fragment);
        }
        if fl == 0 {
            return Err(ParseError::NotEnoughBytes);
        }
        let frag = after.substring_char(0, fl);
        proof {
            assert(frag@ =~= rem@.skip(2).take(fl as int));
        }
        match decode_argument(frag) {
            Ok(a) => {
                self.pos = self.pos + 2 + fl;
                proof {
                    assert(final(self).remaining() =~= rem@.skip(2).skip(fl as int));
                }
                Ok(Some(a))
            },
            Err(e) => Err(e),
        }
    }
}

/// Splitting a cookie string: the maximal non-empty fragment run holds
/// the pair, the rest holds the attributes.
pub open spec fn spec_process_cookie(s: Seq<char>) -> Result<
    (CookiePairView, Seq<char>),
    ParseError,
> {
    let fl = run_len(s, CharClass::Fragment) as int;
    if fl == 0 {
        Err(ParseError::NotEnoughBytes)
    } else {
        match spec_pair_decode(s.take(fl)) {
            Ok(p) => Ok((p, s.skip(fl))),
            Err(e) => Err(e),
        }
    }
}

/// Splits a cookie string into its decoded pair and an iterator over the
/// attributes that follow it.
pub fn process_cookie(source: &str) -> (r: Result<(CookiePair, ArgumentIter), ParseError>)
    ensures
        match r {
            Ok(p) => spec_process_cookie(source@) == Ok::<(CookiePairView, Seq<char>), ParseError>(
                (p.0@, p.1.remaining()),
            ),
            Err(e) => spec_process_cookie(source@) == Err::<
                (CookiePairView, Seq<char>),
                ParseError,
            >(e),
        },
{
    let len = source.unicode_len();
    let fl = scan_class(source, CharClass::Fragment);
    proof {
        lemma_run_len(source@, CharClass::Fragment);
    }
    if fl == 0 {
        return Err(ParseError::NotEnoughBytes);
    }
    let frag = source.substring_char(0, fl);
    proof {
        assert(frag@ =~= source@.take(fl as int));
    }
    match decode_pair(frag) {
        Ok(pair) => {
            let rest = source.substring_char(fl, len);
            proof {
                assert(rest@ =~= source@.skip(fl as int));
            }
            Ok((pair, ArgumentIter::new(rest)))
        },
        Err(e) => Err(e),
    }
}


/// A fragment as the renderer emits it: non-empty, fragment characters
/// only, decoding cleanly.
pub open spec fn good_fragment(f: Seq<char>) -> bool {
    f.len() > 0 && all_fragment_chars(f) && spec_argument(f) is Ok
}

/// The wire text of a list of attribute fragments, each preceded by the
/// exact separator.
pub open spec fn render_args(frags: Seq<Seq<char>>) -> Seq<char>
    decreases frags.len(),
{
    if frags.len() == 0 {
        Seq::empty()
    } else {
        seq![';', ' '] + frags[0] + render_args(frags.drop_first())
    }
}

/// What a list of fragments decodes to, where each decodes cleanly.
pub open spec fn decode_args(frags: Seq<Seq<char>>) -> Seq<ArgumentView>
    decreases frags.len(),
{
    if frags.len() == 0 {
        Seq::empty()
    } else {
        seq![spec_argument(frags[0])->Ok_0] + decode_args(frags.drop_first())
    }
}

/// Rendered attribute text is empty or opens with the separator.
pub proof fn lemma_render_args_head(frags: Seq<Seq<char>>)
    ensures
        render_args(frags).len() == 0 || render_args(frags)[0] == ';',
{
}

/// Rendering a single fragment prepends the separator.
pub proof fn lemma_render_args_single(f: Seq<char>)
    ensures
        render_args(seq![f]) == seq![';', ' '] + f,
{
    let l: Seq<Seq<char>> = seq![f];
    assert(l.drop_first() =~= Seq::<Seq<char>>::empty());
    assert(render_args(l.drop_first()).len() == 0);
    assert(render_args(l) =~= seq![';', ' '] + f);
}

/// Decoding a single fragment yields its one argument.
pub proof fn lemma_decode_args_single(f: Seq<char>)
    ensures
        decode_args(seq![f]) == seq![spec_argument(f)->Ok_0],
{
    let l: Seq<Seq<char>> = seq![f];
    assert(l.drop_first() =~= Seq::<Seq<char>>::empty());
    assert(decode_args(l.drop_first()).len() == 0);
    assert(decode_args(l) =~= seq![spec_argument(f)->Ok_0]);
}

/// Rendering distributes over concatenation of fragment lists.
pub proof fn lemma_render_args_concat(a: Seq<Seq<char>>, b: Seq<Seq<char>>)
    ensures
        render_args(a + b) == render_args(a) + render_args(b),
    decreases a.len(),
{
    if a.len() == 0 {
        assert(a + b =~= b);
        assert(render_args(a) + render_args(b) =~= render_args(b));
    } else {
        assert((a + b)[0] == a[0]);
        assert((a + b).drop_first() =~= a.drop_first() + b);
        lemma_render_args_concat(a.drop_first(), b);
        assert(render_args(a + b) =~= render_args(a) + render_args(b));
    }
}

/// Decoding distributes over concatenation of fragment lists.
pub proof fn lemma_decode_args_concat(a: Seq<Seq<char>>, b: Seq<Seq<char>>)
    ensures
        decode_args(a + b) == decode_args(a) + decode_args(b),
    decreases a.len(),
{
    if a.len() == 0 {
        assert(a + b =~= b);
        assert(decode_args(a) + decode_args(b) =~= decode_args(b));
    } else {
        assert((a + b)[0] == a[0]);
        assert((a + b).drop_first() =~= a.drop_first() + b);
        lemma_decode_args_concat(a.drop_first(), b);
        assert(decode_args(a + b) =~= decode_args(a) + decode_args(b));
    }
}

/// Splitting a rendered attribute list recovers exactly its arguments.
pub proof fn lemma_args_roundtrip(frags: Seq<Seq<char>>)
    requires
        forall|i: int| 0 <= i < frags.len() ==> good_fragment(#[trigger] frags[i]),
    ensures
        spec_args_list(render_args(frags)) == Ok::<Seq<ArgumentView>, ParseError>(
            decode_args(frags),
        ),
    decreases frags.len(),
{
    let s = render_args(frags);
    if frags.len() == 0 {
        assert(spec_args_list(s) == Ok::<Seq<ArgumentView>, ParseError>(Seq::empty()));
    } else {
        let f = frags[0];
        let rest = frags.drop_first();
        assert(good_fragment(f));
        assert(s == seq![';', ' '] + f + render_args(rest));
        assert(s.len() >= 2);
        assert(s[0] == ';');
        assert(s[1] == ' ');
        let after = s.skip(2);
        assert(after =~= f + render_args(rest));
        assert(run_len(after, CharClass::Fragment) == f.len()) by {
            assert(forall|j: int| 0 <= j < f.len() ==> after[j] == f[j]);
            lemma_render_args_head(rest);
            if render_args(rest).len() > 0 {
                assert(after[f.len() as int] == ';');
                assert(!is_fragment_char(';'));
            } else {
                assert(after.len() == f.len());
            }
            lemma_run_len_is(after, CharClass::Fragment, f.len() as int);
        }
        assert(after.take(f.len() as int) =~= f);
        assert(after.skip(f.len() as int) =~= render_args(rest));
        assert(forall|i: int| 0 <= i < rest.len() ==> good_fragment(#[trigger] rest[i])) by {
            assert(forall|i: int| 0 <= i < rest.len() ==> rest[i] == frags[i + 1]);
        }
        lemma_args_roundtrip(rest);
        assert(spec_next_argument(s) == Ok::<Option<(ArgumentView, Seq<char>)>, ParseError>(
            Some((spec_argument(f)->Ok_0, render_args(rest))),
        ));
        assert(decode_args(frags) == seq![spec_argument(f)->Ok_0] + decode_args(rest));
    }
}

/// A `Path` attribute renders and reparses to itself.
pub proof fn lemma_argument_path(p: Seq<char>)
    ensures
        spec_argument(path_text() + p) == Ok::<ArgumentView, ParseError>(ArgumentView::Path(p)),
{
    let f = path_text() + p;
    assert(f[0] == 'P');
    assert(!has_prefix(f, expires_text())) by {
        if has_prefix(f, expires_text()) {
            assert(f.take(8)[0] == f[0]);
        }
    }
    assert(!has_prefix(f, max_age_text())) by {
        if has_prefix(f, max_age_text()) {
            assert(f.take(8)[0] == f[0]);
        }
    }
    assert(!has_prefix(f, domain_text())) by {
        if has_prefix(f, domain_text()) {
            assert(f.take(7)[0] == f[0]);
        }
    }
    assert(has_prefix(f, path_text())) by {
        assert(f.take(5) =~= path_text());
    }
    assert(f.skip(5) =~= p);
}

/// A `Domain` attribute renders and reparses to itself.
pub proof fn lemma_argument_domain(d: Seq<char>)
    ensures
        spec_argument(domain_text() + d) == Ok::<ArgumentView, ParseError>(ArgumentView::Domain(d)),
{
    let f = domain_text() + d;
    assert(f[0] == 'D');
    assert(!has_prefix(f, expires_text())) by {
        if has_prefix(f, expires_text()) {
            assert(f.take(8)[0] == f[0]);
        }
    }
    assert(!has_prefix(f, max_age_text())) by {
        if has_prefix(f, max_age_text()) {
            assert(f.take(8)[0] == f[0]);
        }
    }
    assert(has_prefix(f, domain_text())) by {
        assert(f.take(7) =~= domain_text());
    }
    assert(f.skip(7) =~= d);
}

/// The `Secure` attribute renders and reparses to itself.
pub proof fn lemma_argument_secure()
    ensures
        spec_argument(secure_text()) == Ok::<ArgumentView, ParseError>(ArgumentView::Secure),
{
    let f = secure_text();
    assert(f.len() == 6);
    assert(!has_prefix(f, expires_text()));
    assert(!has_prefix(f, max_age_text()));
    assert(!has_prefix(f, domain_text()));
    assert(!has_prefix(f, path_text())) by {
        if has_prefix(f, path_text()) {
            assert(f.take(5)[0] == f[0]);
        }
    }
}

/// The `HttpOnly` attribute renders and reparses to itself.
pub proof fn lemma_argument_http_only()
    ensures
        spec_argument(http_only_text()) == Ok::<ArgumentView, ParseError>(ArgumentView::HttpOnly),
{
    let f = http_only_text();
    assert(f.len() == 8);
    assert(!has_prefix(f, expires_text())) by {
        if has_prefix(f, expires_text()) {
            assert(f.take(8)[0] == f[0]);
        }
    }
    assert(!has_prefix(f, max_age_text())) by {
        if has_prefix(f, max_age_text()) {
            assert(f.take(8)[0] == f[0]);
        }
    }
    assert(!has_prefix(f, domain_text())) by {
        if has_prefix(f, domain_text()) {
            assert(f.take(7)[0] == f[0]);
        }
    }
    assert(!has_prefix(f, path_text())) by {
        if has_prefix(f, path_text()) {
            assert(f.take(5)[0] == f[0]);
        }
    }
    assert(f != secure_text());
}

} // verus!
