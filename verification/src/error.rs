//! Errors produced while decoding cookie text and finalizing cookies.

use vstd::prelude::*;

verus! {

/// Errors raised while decoding a single header value.  Any of these is
/// fatal to the decode of that one header: no partial cookie is produced.
#[derive(Clone, Copy, PartialEq, Eq, Structural, Debug)]
pub enum ParseError {
    /// A required run of characters (a name, a value, a token) was empty.
    NotEnoughBytes,
    /// The trailing quote of a quoted value was not present.
    MissingQuote,
    /// A delimiter was missing in the cookie string.
    MissingDelimiter,
    /// A character outside the permitted cookie-value set appeared in a value.
    InvalidByte,
    /// Fewer than the four required date slots could be filled.
    IncompleteDate,
    /// The parsed calendar date or time of day was out of range.
    InvalidDate,
    /// A `Max-Age` count of seconds was not a well-formed signed integer.
    InvalidInteger,
}

/// Errors raised while building a cookie, either from a parse failure or
/// from the semantic checks made against an origin and security context.
#[derive(Clone, Copy, PartialEq, Eq, Structural, Debug)]
pub enum Error {
    /// Decoding the header text failed.
    Parse(ParseError),
    /// The origin supplied for the cookie has no host.
    InvalidOrigin,
    /// A domain could not be normalized to a canonical ASCII host.
    InvalidDomain,
    /// No host or no path was available when finalizing a `Cookie`.
    MissingDomain,
    /// A `SetCookie` was finalized with an IP address for a host.
    HostInvalid,
    /// `Secure` was requested over an origin that is not TLS.
    InsecureOrigin,
    /// `HttpOnly` was requested over an origin that is not HTTP(S).
    NonHttpOrigin,
}

} // verus!
