//! An RFC 6265 HTTP cookie engine.
//!
//! The crate parses `Set-Cookie` header text into structured records,
//! resolves attribute semantics (domain and path scoping, secure and
//! http-only gating, expiry precedence), and stores accepted cookies in a
//! jar that answers URL-scoped lookups.

pub mod chars;
pub mod cookie;
pub mod date;
pub mod error;
pub mod jar;
pub mod parse;
