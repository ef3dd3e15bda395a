//! Cookie records and the builder that resolves attributes into them.
//!
//! A `SetCookie` is a server-issued directive, not yet bound to a
//! concrete request host and path; a `Cookie` is fully resolved and
//! ready for jar insertion.  The `Builder` accumulates host, path and
//! attributes from an origin and explicit calls, enforces the security
//! constraints, and finalizes either record.

use vstd::prelude::*;

use crate::chars::{CharClass, run_len};
use crate::date::{DateTime, spec_epoch_of};
use crate::error::{Error, ParseError};
use crate::parse::{
    Argument, ArgumentView, ArgumentIter, CookiePair, CookiePairView, process_cookie,
    spec_process_cookie, spec_next_argument, spec_args_list,
};

verus! {

/// The host a cookie is scoped to: a DNS domain name or an IP literal,
/// both in the canonical ASCII text that the host parser yields.
#[derive(Debug, PartialEq, Eq)]
pub enum Host {
    /// A DNS domain name.
    Domain(String),
    /// An IPv4 or IPv6 literal in canonical text.
    Ip(String),
}

/// What a `Host` stands for.
pub ghost enum HostView {
    /// A DNS domain name.
    Domain(Seq<char>),
    /// An IP literal in canonical text.
    Ip(Seq<char>),
}

impl View for Host {
    type V = HostView;

    open spec fn view(&self) -> HostView {
        match self {
            Host::Domain(d) => HostView::Domain(d@),
            Host::Ip(a) => HostView::Ip(a@),
        }
    }
}

impl Host {
    /// An owned copy of the host.
    pub fn clone_host(&self) -> (r: Host)
        ensures
            r@ == self@,
    {
        match self {
            Host::Domain(d) => Host::Domain(d.clone()),
            Host::Ip(a) => Host::Ip(a.clone()),
        }
    }
}

/// What `url::Host::parse` yields on a given text: a canonical ASCII
/// domain name, a canonical IP literal, or nothing where the text is no
/// valid host.  The result is a function of the text alone.
pub uninterp spec fn host_parse(s: Seq<char>) -> Option<HostView>;

/// Relies on `url::Host::parse`: it normalizes a host string (IDNA
/// ASCII lowering for domain names, textual canonicalization for IP
/// literals) and classifies it as a domain name or an IP address; a
/// domain name it returns is never empty.
#[verifier::external_body]
fn parse_host(text: &str) -> (r: Option<Host>)
    ensures
        match r {
            Some(h) => host_parse(text@) == Some(h@) && (h@ matches HostView::Domain(d)
                ==> d.len() > 0),
            None => host_parse(text@) is None,
        },
{
    match url::Host::parse(text) {
        Ok(url::Host::Domain(d)) => Some(Host::Domain(d)),
        Ok(url::Host::Ipv4(a)) => Some(Host::Ip(a.to_string())),
        Ok(url::Host::Ipv6(a)) => Some(Host::Ip(format!("[{}]", a))),
        Err(_) => None,
    }
}

/// Relies on `time::OffsetDateTime::now_utc` and
/// `OffsetDateTime::unix_timestamp`: the current UTC wall-clock time as
/// seconds since the Unix epoch.  Nothing is promised of the value.
#[verifier::external_body]
pub(crate) fn now_epoch() -> i64 {
    time::OffsetDateTime::now_utc().unix_timestamp()
}

/// The date text that the `time` crate renders for a count of seconds
/// since the Unix epoch, where the count is representable.  The result
/// is a function of the count alone.
pub uninterp spec fn rfc1123_text(epoch: int) -> Option<Seq<char>>;

/// Relies on `time::OffsetDateTime::from_unix_timestamp`, which converts
/// the argument into the crate's datetime value, and on
/// `OffsetDateTime::format` with the RFC 2822 description, which renders
/// it as date text; either can refuse a count outside its range.
#[verifier::external_body]
fn format_epoch(epoch: i64) -> (r: Option<String>)
    ensures
        r.deep_view() == rfc1123_text(epoch as int),
{
    match time::OffsetDateTime::from_unix_timestamp(epoch) {
        Ok(dt) => dt.format(&time::format_description::well_known::Rfc2822).ok(),
        Err(_) => None,
    }
}

/// The transport scheme of an origin URL.
#[derive(Debug, PartialEq, Eq)]
pub enum Scheme {
    /// Plain HTTP.
    Http,
    /// HTTP over TLS.
    Https,
    /// Any other scheme, by name.
    Other(String),
}

/// What a `Scheme` stands for.
pub ghost enum SchemeView {
    /// Plain HTTP.
    Http,
    /// HTTP over TLS.
    Https,
    /// Any other scheme, by name.
    Other(Seq<char>),
}

impl View for Scheme {
    type V = SchemeView;

    open spec fn view(&self) -> SchemeView {
        match self {
            Scheme::Http => SchemeView::Http,
            Scheme::Https => SchemeView::Https,
            Scheme::Other(s) => SchemeView::Other(s@),
        }
    }
}

/// The text `http`.
pub open spec fn http_text() -> Seq<char> {
    seq!['h', 't', 't', 'p']
}

/// The text `https`.
pub open spec fn https_text() -> Seq<char> {
    seq!['h', 't', 't', 'p', 's']
}

/// The scheme a name denotes.
pub open spec fn spec_scheme_of(s: Seq<char>) -> SchemeView {
    if s == http_text() {
        SchemeView::Http
    } else if s == https_text() {
        SchemeView::Https
    } else {
        SchemeView::Other(s)
    }
}

/// The scheme permits `Secure` cookies.
pub open spec fn scheme_is_secure(s: SchemeView) -> bool {
    s is Https
}

/// The scheme permits `HttpOnly` cookies.
pub open spec fn scheme_is_http(s: SchemeView) -> bool {
    s is Http || s is Https
}

impl Scheme {
    /// Classifies a scheme name.
    pub fn from_name(name: &str) -> (r: Scheme)
        ensures
            r@ == spec_scheme_of(name@),
    {
        proof {
            reveal_strlit("http");
            reveal_strlit("https");
            assert("http"@ =~= http_text());
            assert("https"@ =~= https_text());
        }
        let len = name.unicode_len();
        if len == 4 && crate::parse::starts_with_text(name, "http") {
            proof {
                assert(name@ =~= name@.take(4));
            }
            Scheme::Http
        } else if len == 5 && crate::parse::starts_with_text(name, "https") {
            proof {
                assert(name@ =~= name@.take(5));
            }
            Scheme::Https
        } else {
            proof {
                if name@ == http_text() {
                    assert(name@.take(4) =~= name@);
                }
                if name@ == https_text() {
                    assert(name@.take(5) =~= name@);
                }
            }
            Scheme::Other(String::from_str(name))
        }
    }

    /// The scheme is HTTP or HTTPS.
    pub fn is_http(&self) -> (r: bool)
        ensures
            r == scheme_is_http(self@),
    {
        match self {
            Scheme::Http | Scheme::Https => true,
            Scheme::Other(_) => false,
        }
    }

    /// The scheme is HTTPS.
    pub fn is_secure(&self) -> (r: bool)
        ensures
            r == scheme_is_secure(self@),
    {
        match self {
            Scheme::Https => true,
            _ => false,
        }
    }
}

/// What an origin resolver extracted from a request URL: its host where
/// one exists, its scheme, and its path.
pub struct Origin {
    /// The host of the URL, where it has one.
    pub host: Option<Host>,
    /// The transport scheme.
    pub scheme: Scheme,
    /// The path of the URL.
    pub path: String,
}

/// What an `Origin` stands for.
pub ghost struct OriginView {
    /// The host of the URL, where it has one.
    pub host: Option<HostView>,
    /// The transport scheme.
    pub scheme: SchemeView,
    /// The path of the URL.
    pub path: Seq<char>,
}

impl View for Origin {
    type V = OriginView;

    open spec fn view(&self) -> OriginView {
        OriginView {
            host: match &self.host {
                Some(h) => Some(h@),
                None => None,
            },
            scheme: self.scheme@,
            path: self.path@,
        }
    }
}

/// The expiry time of a cookie.
#[derive(Clone, Copy, PartialEq, Eq, Structural, Debug)]
pub enum Expires {
    /// The cookie expires at the given count of seconds since the Unix
    /// epoch, in UTC.
    AtUtc(i64),
    /// The cookie never expires.
    Never,
}

impl Default for Expires {
    /// A cookie expires never unless an attribute says otherwise.
    fn default() -> (r: Expires)
        ensures
            r == Expires::Never,
    {
        Expires::Never
    }
}

/// The directory portion of a URL path: the path up to and including
/// its final `/`, or the whole path where it already ends in one.  A
/// path without any `/` yields empty text.
pub open spec fn spec_dir_path(p: Seq<char>) -> Seq<char>
    decreases p.len(),
{
    if p.len() == 0 {
        p
    } else if p[p.len() - 1] == '/' {
        p
    } else {
        spec_dir_path(p.drop_last())
    }
}

/// The directory portion is the prefix ending right after the last `/`.
proof fn lemma_dir_path_take(p: Seq<char>, k: int)
    requires
        0 <= k <= p.len(),
        k == 0 || p[k - 1] == '/',
        forall|j: int| k <= j < p.len() ==> p[j] != '/',
    ensures
        spec_dir_path(p) == p.take(k),
    decreases p.len(),
{
    if p.len() == 0 {
        assert(p.take(k) =~= p);
    } else if p[p.len() - 1] == '/' {
        assert(k == p.len());
        assert(p.take(k) =~= p);
    } else {
        assert(k < p.len());
        assert(forall|j: int| k <= j < p.len() - 1 ==> p.drop_last()[j] == p[j]);
        lemma_dir_path_take(p.drop_last(), k);
        assert(p.drop_last().take(k) =~= p.take(k));
    }
}

/// Returns the directory portion of a URL path.
pub fn url_dir_path(path: &str) -> (r: String)
    ensures
        r@ == spec_dir_path(path@),
{
    let len = path.unicode_len();
    let mut k: usize = 0;
    let mut j: usize = 0;
    while j < len
        invariant
            0 <= k <= j <= len,
            len == path@.len(),
            k == 0 || path@[k - 1] == '/',
            forall|i: int| k <= i < j ==> path@[i] != '/',
        decreases len - j,
    {
        if path.get_char(j) == '/' {
            k = j + 1;
        }
        j = j + 1;
    }
    proof {
        lemma_dir_path_take(path@, k as int);
    }
    let r = String::from_str(path.substring_char(0, k));
    proof {
        assert(r@ =~= path@.take(k as int));
    }
    r
}

/// The payload of a cookie: its pair, its expiry, and its scoping and
/// security flags.  Immutable once built.
#[derive(Debug, PartialEq, Eq)]
pub struct Attributes {
    pair: CookiePair,
    expiry: Expires,
    host_only: bool,
    secure: bool,
    http_only: bool,
}

/// What an `Attributes` stands for.
pub ghost struct AttrView {
    /// The stored `name=value` pair.
    pub pair: CookiePairView,
    /// When the cookie expires.
    pub expiry: Expires,
    /// The cookie applies to its exact host only, never to subdomains.
    pub host_only: bool,
    /// The cookie may only be sent over TLS.
    pub secure: bool,
    /// The cookie may only be sent over HTTP or HTTPS.
    pub http_only: bool,
}

impl View for Attributes {
    type V = AttrView;

    closed spec fn view(&self) -> AttrView {
        AttrView {
            pair: self.pair@,
            expiry: self.expiry,
            host_only: self.host_only,
            secure: self.secure,
            http_only: self.http_only,
        }
    }
}

/// The attributes before any were decoded: an empty pair, no expiry,
/// host-only scope, no security flags.
pub open spec fn spec_default_attributes() -> AttrView {
    AttrView {
        pair: CookiePairView {
            text: Seq::empty(),
            name: Seq::empty(),
            value: Seq::empty(),
        },
        expiry: Expires::Never,
        host_only: true,
        secure: false,
        http_only: false,
    }
}

/// A cookie is expired at `time` when its expiry lies at or before it; a
/// cookie without expiry never expires.
pub open spec fn spec_expired_since(a: AttrView, time: int) -> bool {
    match a.expiry {
        Expires::Never => false,
        Expires::AtUtc(e) => time >= e,
    }
}

impl Attributes {
    /// The `name=value` pair of the cookie.
    pub fn pair(&self) -> (r: &CookiePair)
        ensures
            r@ == self@.pair,
    {
        &self.pair
    }

    /// The cookie requires a TLS connection.
    pub fn secure(&self) -> (r: bool)
        ensures
            r == self@.secure,
    {
        self.secure
    }

    /// The cookie may only be sent over HTTP or HTTPS.
    pub fn http_only(&self) -> (r: bool)
        ensures
            r == self@.http_only,
    {
        self.http_only
    }

    /// The cookie applies to its exact host only.
    pub fn host_only(&self) -> (r: bool)
        ensures
            r == self@.host_only,
    {
        self.host_only
    }

    /// The expiry of the cookie.
    pub fn expiry(&self) -> (r: &Expires)
        ensures
            *r == self@.expiry,
    {
        &self.expiry
    }

    /// Whether the cookie was expired at the given count of seconds
    /// since the Unix epoch.
    pub fn expired_since(&self, time: i64) -> (r: bool)
        ensures
            r == spec_expired_since(self@, time as int),
    {
        match self.expiry {
            Expires::Never => false,
            Expires::AtUtc(e) => time >= e,
        }
    }

    /// Whether the cookie is expired now, by the wall clock.  A cookie
    /// without expiry is never expired, whatever the clock says.
    pub fn expired(&self) -> (r: bool)
        ensures
            self@.expiry is Never ==> !r,
    {
        self.expired_since(now_epoch())
    }

}

impl Default for Attributes {
    /// The attributes before any were decoded.
    fn default() -> (r: Attributes)
        ensures
            r@ == spec_default_attributes(),
    {
        let r = Attributes {
            pair: Default::default(),
            expiry: Expires::Never,
            host_only: true,
            secure: false,
            http_only: false,
        };
        proof {
            assert(r@.pair.text =~= Seq::<char>::empty());
            assert(r@.pair.name =~= Seq::<char>::empty());
            assert(r@.pair.value =~= Seq::<char>::empty());
        }
        r
    }
}

/// A builder for a cookie: accumulates host, path, scheme and attributes
/// and threads the first error seen; later setter calls cannot displace
/// that error.
pub struct Builder {
    host: Option<Host>,
    path: Option<String>,
    scheme: Option<Scheme>,
    attributes: Attributes,
    error: Option<Error>,
}

/// What a `Builder` stands for.
pub ghost struct BuilderView {
    /// The host set so far, where one was set.
    pub host: Option<HostView>,
    /// The path set so far, where one was set.
    pub path: Option<Seq<char>>,
    /// The scheme of the seeding origin, where one was given.
    pub scheme: Option<SchemeView>,
    /// The attributes accumulated so far.
    pub attributes: AttrView,
    /// The first error seen, where one occurred.
    pub error: Option<Error>,
}

impl View for Builder {
    type V = BuilderView;

    closed spec fn view(&self) -> BuilderView {
        BuilderView {
            host: match &self.host {
                Some(h) => Some(h@),
                None => None,
            },
            path: match &self.path {
                Some(p) => Some(p@),
                None => None,
            },
            scheme: match &self.scheme {
                Some(s) => Some(s@),
                None => None,
            },
            attributes: self.attributes@,
            error: self.error,
        }
    }
}

/// The builder before anything was set.
pub open spec fn spec_builder_empty() -> BuilderView {
    BuilderView {
        host: None,
        path: None,
        scheme: None,
        attributes: spec_default_attributes(),
        error: None,
    }
}

/// Records an error unless an earlier one is already held.
pub open spec fn spec_set_error(b: BuilderView, e: Error) -> BuilderView {
    if b.error is None {
        BuilderView { error: Some(e), ..b }
    } else {
        b
    }
}

/// Seeds the builder from an origin: its host, the directory portion of
/// its path, and its scheme; the cookie starts host-only.  An origin
/// without a host fails with `InvalidOrigin`.
pub open spec fn spec_origin(b: BuilderView, o: OriginView) -> BuilderView {
    match o.host {
        Some(h) => BuilderView {
            host: Some(h),
            path: Some(spec_dir_path(o.path)),
            scheme: Some(o.scheme),
            attributes: AttrView { host_only: true, ..b.attributes },
            ..b
        },
        None => spec_set_error(b, Error::InvalidOrigin),
    }
}

/// Sets an exact host: the cookie becomes host-only.
pub open spec fn spec_host(b: BuilderView, h: HostView) -> BuilderView {
    BuilderView { host: Some(h), attributes: AttrView { host_only: true, ..b.attributes }, ..b }
}

/// Sets an exact host from text through the host normalizer.
pub open spec fn spec_host_str(b: BuilderView, s: Seq<char>) -> BuilderView {
    match host_parse(s) {
        Some(h) => spec_host(b, h),
        None => spec_set_error(b, Error::InvalidDomain),
    }
}

/// Sets a suffix domain from text through the host normalizer: the
/// cookie then applies to the domain and all its subdomains.
pub open spec fn spec_domain(b: BuilderView, s: Seq<char>) -> BuilderView {
    match host_parse(s) {
        Some(h) => BuilderView {
            host: Some(h),
            attributes: AttrView { host_only: false, ..b.attributes },
            ..b
        },
        None => spec_set_error(b, Error::InvalidDomain),
    }
}

/// Sets the path the cookie is scoped to.
pub open spec fn spec_path(b: BuilderView, p: Seq<char>) -> BuilderView {
    BuilderView { path: Some(p), ..b }
}

/// Sets the `name=value` pair.
pub open spec fn spec_pair(b: BuilderView, p: CookiePairView) -> BuilderView {
    BuilderView { attributes: AttrView { pair: p, ..b.attributes }, ..b }
}

/// Sets the pair from text through the pair decoder.
pub open spec fn spec_pair_str(b: BuilderView, s: Seq<char>) -> BuilderView {
    match crate::parse::spec_pair_decode(s) {
        Ok(p) => spec_pair(b, p),
        Err(e) => spec_set_error(b, Error::Parse(e)),
    }
}

/// Sets the expiry to a count of seconds since the Unix epoch.
pub open spec fn spec_expiry_at(b: BuilderView, t: i64) -> BuilderView {
    BuilderView { attributes: AttrView { expiry: Expires::AtUtc(t), ..b.attributes }, ..b }
}

/// Requests or clears `Secure`.  Requesting it over a seeding origin
/// that is not TLS fails with `InsecureOrigin`.
pub open spec fn spec_secure(b: BuilderView, on: bool) -> BuilderView {
    if b.scheme matches Some(s) && on && !scheme_is_secure(s) {
        spec_set_error(b, Error::InsecureOrigin)
    } else {
        BuilderView { attributes: AttrView { secure: on, ..b.attributes }, ..b }
    }
}

/// Requests or clears `HttpOnly`.  Requesting it over a seeding origin
/// that is not HTTP(S) fails with `NonHttpOrigin`.
pub open spec fn spec_http_only(b: BuilderView, on: bool) -> BuilderView {
    if b.scheme matches Some(s) && on && !scheme_is_http(s) {
        spec_set_error(b, Error::NonHttpOrigin)
    } else {
        BuilderView { attributes: AttrView { http_only: on, ..b.attributes }, ..b }
    }
}

impl Builder {
    /// Creates a builder with nothing set.
    pub fn new() -> (r: Builder)
        ensures
            r@ == spec_builder_empty(),
    {
        Builder {
            host: None,
            path: None,
            scheme: None,
            attributes: Default::default(),
            error: None,
        }
    }

    /// Records an error unless an earlier one is already held.
    fn set_error(self, error: Error) -> (r: Builder)
        ensures
            r@ == spec_set_error(self@, error),
    {
        if self.error.is_none() {
            Builder { error: Some(error), ..self }
        } else {
            self
        }
    }

    /// Seeds the builder from the origin the cookie came from.
    pub fn origin(self, origin: &Origin) -> (r: Builder)
        ensures
            r@ == spec_origin(self@, origin@),
    {
        match &origin.host {
            Some(h) => Builder {
                host: Some(h.clone_host()),
                path: Some(url_dir_path(origin.path.as_str())),
                scheme: Some(origin.scheme.clone_scheme()),
                attributes: Attributes { host_only: true, ..self.attributes },
                ..self
            },
            None => self.set_error(Error::InvalidOrigin),
        }
    }

    /// Sets the cookie to match a single exact host.
    pub fn host(self, host: Host) -> (r: Builder)
        ensures
            r@ == spec_host(self@, host@),
    {
        Builder {
            host: Some(host),
            attributes: Attributes { host_only: true, ..self.attributes },
            ..self
        }
    }

    /// Sets the cookie to match the exact host the text denotes.
    pub fn host_str(self, host: &str) -> (r: Builder)
        ensures
            r@ == spec_host_str(self@, host@),
    {
        match parse_host(host) {
            Some(h) => self.host(h),
            None => self.set_error(Error::InvalidDomain),
        }
    }

    /// Sets the cookie to match the domain the text denotes and every
    /// subdomain of it.
    pub fn domain(self, domain: &str) -> (r: Builder)
        ensures
            r@ == spec_domain(self@, domain@),
    {
        match parse_host(domain) {
            Some(h) => Builder {
                host: Some(h),
                attributes: Attributes { host_only: false, ..self.attributes },
                ..self
            },
            None => self.set_error(Error::InvalidDomain),
        }
    }

    /// Sets the path the cookie is scoped to.
    pub fn path(self, path: &str) -> (r: Builder)
        ensures
            r@ == spec_path(self@, path@),
    {
        Builder { path: Some(String::from_str(path)), ..self }
    }

    /// Sets the `name=value` pair of the cookie.
    pub fn pair(self, pair: CookiePair) -> (r: Builder)
        ensures
            r@ == spec_pair(self@, pair@),
    {
        Builder { attributes: Attributes { pair, ..self.attributes }, ..self }
    }

    /// Sets the pair of the cookie from its text.
    pub fn pair_str(self, pair: &str) -> (r: Builder)
        ensures
            r@ == spec_pair_str(self@, pair@),
    {
        match crate::parse::decode_pair(pair) {
            Ok(p) => self.pair(p),
            Err(e) => self.set_error(Error::Parse(e)),
        }
    }

    /// Sets the expiry of the cookie to a calendar date.
    pub fn expiry(self, time: DateTime) -> (r: Builder)
        requires
            time.wf(),
        ensures
            r@ == spec_expiry_at(self@, spec_epoch_of(time) as i64),
    {
        let t = time.to_epoch();
        self.expiry_at(t)
    }

    /// Sets the expiry of the cookie to a count of seconds since the
    /// Unix epoch.
    fn expiry_at(self, t: i64) -> (r: Builder)
        ensures
            r@ == spec_expiry_at(self@, t),
    {
        Builder {
            attributes: Attributes { expiry: Expires::AtUtc(t), ..self.attributes },
            ..self
        }
    }

    /// Requests or clears a secure-connection requirement.
    pub fn secure(self, secure: bool) -> (r: Builder)
        ensures
            r@ == spec_secure(self@, secure),
    {
        let gated = match &self.scheme {
            Some(s) => secure && !s.is_secure(),
            None => false,
        };
        if gated {
            self.set_error(Error::InsecureOrigin)
        } else {
            Builder { attributes: Attributes { secure, ..self.attributes }, ..self }
        }
    }

    /// Requests or clears an HTTP-connections-only requirement.
    pub fn http_only(self, http_only: bool) -> (r: Builder)
        ensures
            r@ == spec_http_only(self@, http_only),
    {
        let gated = match &self.scheme {
            Some(s) => http_only && !s.is_http(),
            None => false,
        };
        if gated {
            self.set_error(Error::NonHttpOrigin)
        } else {
            Builder { attributes: Attributes { http_only, ..self.attributes }, ..self }
        }
    }
}

impl Scheme {
    /// An owned copy of the scheme.
    pub fn clone_scheme(&self) -> (r: Scheme)
        ensures
            r@ == self@,
    {
        match self {
            Scheme::Http => Scheme::Http,
            Scheme::Https => Scheme::Https,
            Scheme::Other(s) => Scheme::Other(s.clone()),
        }
    }
}

/// A server-issued cookie directive, not yet bound to a concrete request
/// host and path: its domain and path stay optional.
#[derive(Debug, PartialEq, Eq)]
pub struct SetCookie {
    domain: Option<String>,
    path: Option<String>,
    attributes: Attributes,
}

/// What a `SetCookie` stands for.
pub ghost struct SetCookieView {
    /// The suffix domain the directive names, where it names one.
    pub domain: Option<Seq<char>>,
    /// The path the directive names, where it names one.
    pub path: Option<Seq<char>>,
    /// The payload of the directive.
    pub attributes: AttrView,
}

impl View for SetCookie {
    type V = SetCookieView;

    closed spec fn view(&self) -> SetCookieView {
        SetCookieView {
            domain: match &self.domain {
                Some(d) => Some(d@),
                None => None,
            },
            path: match &self.path {
                Some(p) => Some(p@),
                None => None,
            },
            attributes: self.attributes@,
        }
    }
}

/// A fully resolved cookie, ready for jar insertion: host and path are
/// both present.
#[derive(Debug, PartialEq, Eq)]
pub struct Cookie {
    host: Host,
    path: String,
    attributes: Attributes,
}

/// What a `Cookie` stands for.
pub ghost struct CookieView {
    /// The host or suffix domain the cookie is scoped to.
    pub host: HostView,
    /// The path the cookie is scoped to.
    pub path: Seq<char>,
    /// The payload of the cookie.
    pub attributes: AttrView,
}

impl View for Cookie {
    type V = CookieView;

    closed spec fn view(&self) -> CookieView {
        CookieView { host: self.host@, path: self.path@, attributes: self.attributes@ }
    }
}

/// Finalizes a `SetCookie`: a held error surfaces; a domain-name host
/// becomes the directive's domain; no host leaves it unset; an IP host
/// fails with `HostInvalid`.
pub open spec fn spec_build_set_cookie(b: BuilderView) -> Result<SetCookieView, Error> {
    match b.error {
        Some(e) => Err(e),
        None => match b.host {
            Some(HostView::Domain(d)) => Ok(
                SetCookieView { domain: Some(d), path: b.path, attributes: b.attributes },
            ),
            None => Ok(SetCookieView { domain: None, path: b.path, attributes: b.attributes }),
            Some(HostView::Ip(_)) => Err(Error::HostInvalid),
        },
    }
}

/// Finalizes a `Cookie`: a held error surfaces; host and path must both
/// be present (else `MissingDomain`); an IP-literal host always
/// finalizes host-only, whatever a `Domain` attribute said.
pub open spec fn spec_build_cookie(b: BuilderView) -> Result<CookieView, Error> {
    match b.error {
        Some(e) => Err(e),
        None => match (b.host, b.path) {
            (Some(h), Some(p)) => Ok(
                CookieView {
                    host: h,
                    path: p,
                    attributes: AttrView {
                        host_only: if h is Ip {
                            true
                        } else {
                            b.attributes.host_only
                        },
                        ..b.attributes
                    },
                },
            ),
            _ => Err(Error::MissingDomain),
        },
    }
}

impl Builder {
    /// Finalizes the directive the builder accumulated.
    pub fn build_set_cookie(self) -> (r: Result<SetCookie, Error>)
        ensures
            match r {
                Ok(c) => spec_build_set_cookie(self@) == Ok::<SetCookieView, Error>(c@),
                Err(e) => spec_build_set_cookie(self@) == Err::<SetCookieView, Error>(e),
            },
    {
        match self.error {
            Some(e) => Err(e),
            None => match self.host {
                Some(Host::Domain(d)) => Ok(
                    SetCookie { domain: Some(d), path: self.path, attributes: self.attributes },
                ),
                None => Ok(SetCookie { domain: None, path: self.path, attributes: self.attributes }),
                Some(Host::Ip(_)) => Err(Error::HostInvalid),
            },
        }
    }

    /// Finalizes the cookie the builder accumulated.
    pub fn build_cookie(self) -> (r: Result<Cookie, Error>)
        ensures
            match r {
                Ok(c) => spec_build_cookie(self@) == Ok::<CookieView, Error>(c@),
                Err(e) => spec_build_cookie(self@) == Err::<CookieView, Error>(e),
            },
    {
        match self.error {
            Some(e) => Err(e),
            None => match (self.host, self.path) {
                (Some(h), Some(p)) => {
                    let ip = match &h {
                        Host::Ip(_) => true,
                        Host::Domain(_) => false,
                    };
                    Ok(
                        Cookie {
                            host: h,
                            path: p,
                            attributes: Attributes {
                                host_only: if ip {
                                    true
                                } else {
                                    self.attributes.host_only
                                },
                                ..self.attributes
                            },
                        },
                    )
                },
                _ => Err(Error::MissingDomain),
            },
        }
    }
}

/// Clamped addition within the signed 64-bit range.
pub open spec fn spec_sat_add(a: int, b: int) -> int {
    if a + b < i64::MIN as int {
        i64::MIN as int
    } else if a + b > i64::MAX as int {
        i64::MAX as int
    } else {
        a + b
    }
}

/// Adds two counts of seconds, clamping at the 64-bit range.
fn sat_add(a: i64, b: i64) -> (r: i64)
    ensures
        r as int == spec_sat_add(a as int, b as int),
{
    match a.checked_add(b) {
        Some(v) => v,
        None => if b > 0 {
            i64::MAX
        } else {
            i64::MIN
        },
    }
}

/// Applies one decoded attribute to the builder.  `uma` records whether
/// a `Max-Age` was seen: from then on `Expires` attributes are ignored,
/// while a later `Max-Age` still overwrites the expiry.
pub open spec fn spec_apply_arg(b: BuilderView, arg: ArgumentView, uma: bool, now: int) -> (
    BuilderView,
    bool,
) {
    match arg {
        ArgumentView::Expires(dt) => if uma {
            (b, uma)
        } else {
            (spec_expiry_at(b, spec_epoch_of(dt) as i64), uma)
        },
        ArgumentView::MaxAge(n) => (spec_expiry_at(b, spec_sat_add(now, n) as i64), true),
        ArgumentView::Domain(d) => (spec_domain(b, d), uma),
        ArgumentView::Path(p) => (spec_path(b, p), uma),
        ArgumentView::Secure => (spec_secure(b, true), uma),
        ArgumentView::HttpOnly => (spec_http_only(b, true), uma),
        ArgumentView::Extension(_) => (b, uma),
    }
}

/// Folds a list of decoded attributes over the builder, in header order.
pub open spec fn spec_fold_args(b: BuilderView, args: Seq<ArgumentView>, uma: bool, now: int)
    -> BuilderView
    decreases args.len(),
{
    if args.len() == 0 {
        b
    } else {
        let s = spec_apply_arg(b, args[0], uma, now);
        spec_fold_args(s.0, args.drop_first(), s.1, now)
    }
}

/// Parsing a header value into the builder: decode the pair, then fold
/// the attribute list; the first decoding error aborts the whole parse.
/// `now` is the current time, used as the base of `Max-Age`.
pub open spec fn spec_builder_parse(b: BuilderView, s: Seq<char>, now: int) -> Result<
    BuilderView,
    ParseError,
> {
    match spec_process_cookie(s) {
        Err(e) => Err(e),
        Ok(pr) => match spec_args_list(pr.1) {
            Err(e) => Err(e),
            Ok(args) => Ok(spec_fold_args(spec_pair(b, pr.0), args, false, now)),
        },
    }
}

impl Builder {
    /// Parses a header value into the builder, folding its attributes in
    /// header order.  `now` is the current time in seconds since the
    /// Unix epoch, the base of `Max-Age`.
    fn parse(self, cookie: &str, now: i64) -> (r: Result<Builder, ParseError>)
        ensures
            match r {
                Ok(b) => spec_builder_parse(self@, cookie@, now as int) == Ok::<
                    BuilderView,
                    ParseError,
                >(b@),
                Err(e) => spec_builder_parse(self@, cookie@, now as int) == Err::<
                    BuilderView,
                    ParseError,
                >(e),
            },
    {
        let ghost b0 = self@;
        let (pair, mut args) = match process_cookie(cookie) {
            Ok(p) => p,
            Err(e) => {
                return Err(e);
            },
        };
        let mut builder = self.pair(pair);
        let mut use_max_age = false;
        loop
            invariant_except_break
                match spec_args_list(args.remaining()) {
                    Ok(future) => spec_builder_parse(b0, cookie@, now as int) == Ok::<
                        BuilderView,
                        ParseError,
                    >(spec_fold_args(builder@, future, use_max_age, now as int)),
                    Err(e) => spec_builder_parse(b0, cookie@, now as int) == Err::<
                        BuilderView,
                        ParseError,
                    >(e),
                },
            ensures
                spec_builder_parse(b0, cookie@, now as int) == Ok::<BuilderView, ParseError>(
                    builder@,
                ),
            decreases args.remaining().len(),
        {
            let ghost rem0 = args.remaining();
            match args.next_argument() {
                Err(e) => {
                    return Err(e);
                },
                Ok(None) => {
                    break;
                },
                Ok(Some(a)) => {
                    let ghost av = a@;
                    let ghost bprev = builder@;
                    let ghost umaprev = use_max_age;
                    match a {
                        Argument::Expires(dt) => {
                            proof {
                                // The date came out of the cookie-date
                                // parser, so its fields are in range.
                                let after = rem0.skip(2);
                                let fl = run_len(after, CharClass::Fragment) as int;
                                let frag = after.take(fl);
                                assert(crate::parse::spec_argument(frag) == Ok::<
                                    ArgumentView,
                                    ParseError,
                                >(av));
                                crate::date::lemma_cookie_date_wf(frag.skip(8));
                                assert(dt.wf());
                            }
                            if !use_max_age {
                                builder = builder.expiry(dt);
                            }
                        },
                        Argument::MaxAge(n) => {
                            let t = sat_add(now, n);
                            builder = builder.expiry_at(t);
                            use_max_age = true;
                        },
                        Argument::Domain(d) => {
                            builder = builder.domain(d.as_str());
                        },
                        Argument::Path(p) => {
                            builder = builder.path(p.as_str());
                        },
                        Argument::Secure => {
                            builder = builder.secure(true);
                        },
                        Argument::HttpOnly => {
                            builder = builder.http_only(true);
                        },
                        Argument::Extension(_) => {},
                    }
                    proof {
                        let st = spec_apply_arg(bprev, av, umaprev, now as int);
                        assert(builder@ == st.0);
                        assert(use_max_age == st.1);
                        if spec_args_list(args.remaining()) is Ok {
                            let future = spec_args_list(args.remaining())->Ok_0;
                            assert(spec_args_list(rem0) == Ok::<Seq<ArgumentView>, ParseError>(
                                seq![av] + future,
                            ));
                            assert((seq![av] + future).drop_first() =~= future);
                            assert((seq![av] + future)[0] == av);
                        }
                    }
                },
            }
        }
        Ok(builder)
    }
}

impl SetCookie {
    /// Parses one `Set-Cookie` header value into a directive.  `now` is
    /// the current time in seconds since the Unix epoch, the base of
    /// `Max-Age`.
    pub fn parse(cookie: &str, now: i64) -> (r: Result<SetCookie, Error>)
        ensures
            match r {
                Ok(c) => spec_set_cookie_parse(cookie@, now as int) == Ok::<SetCookieView, Error>(
                    c@,
                ),
                Err(e) => spec_set_cookie_parse(cookie@, now as int) == Err::<SetCookieView, Error>(
                    e,
                ),
            },
    {
        match Builder::new().parse(cookie, now) {
            Ok(b) => b.build_set_cookie(),
            Err(pe) => Err(Error::Parse(pe)),
        }
    }

    /// The suffix domain the directive names, where it names one.
    pub fn domain(&self) -> (r: Option<&str>)
        ensures
            match r {
                Some(d) => self@.domain == Some(d@),
                None => self@.domain is None,
            },
    {
        match &self.domain {
            Some(d) => Some(d.as_str()),
            None => None,
        }
    }

    /// The path the directive names, where it names one.
    pub fn path(&self) -> (r: Option<&str>)
        ensures
            match r {
                Some(p) => self@.path == Some(p@),
                None => self@.path is None,
            },
    {
        match &self.path {
            Some(p) => Some(p.as_str()),
            None => None,
        }
    }

    /// The payload of the directive.
    pub fn attributes(&self) -> (r: &Attributes)
        ensures
            r@ == self@.attributes,
    {
        &self.attributes
    }
}

/// Parsing one `Set-Cookie` header value from scratch: a parse failure
/// surfaces as `Error::Parse`, then the directive is finalized.
pub open spec fn spec_set_cookie_parse(s: Seq<char>, now: int) -> Result<SetCookieView, Error> {
    match spec_builder_parse(spec_builder_empty(), s, now) {
        Err(pe) => Err(Error::Parse(pe)),
        Ok(b) => spec_build_set_cookie(b),
    }
}

/// Parsing one header value against a concrete origin: the builder is
/// seeded from the origin, then the header is folded in and the cookie
/// finalized.
pub open spec fn spec_cookie_parse(s: Seq<char>, o: OriginView, now: int) -> Result<
    CookieView,
    Error,
> {
    match spec_builder_parse(spec_origin(spec_builder_empty(), o), s, now) {
        Err(pe) => Err(Error::Parse(pe)),
        Ok(b) => spec_build_cookie(b),
    }
}

impl Cookie {
    /// Parses one `Set-Cookie` header value received from the given
    /// origin.  `now` is the current time in seconds since the Unix
    /// epoch, the base of `Max-Age`.
    pub fn parse(set_cookie: &str, origin: &Origin, now: i64) -> (r: Result<Cookie, Error>)
        ensures
            match r {
                Ok(c) => spec_cookie_parse(set_cookie@, origin@, now as int) == Ok::<
                    CookieView,
                    Error,
                >(c@),
                Err(e) => spec_cookie_parse(set_cookie@, origin@, now as int) == Err::<
                    CookieView,
                    Error,
                >(e),
            },
    {
        match Builder::new().origin(origin).parse(set_cookie, now) {
            Ok(b) => b.build_cookie(),
            Err(pe) => Err(Error::Parse(pe)),
        }
    }

    /// The host or suffix domain the cookie is scoped to.
    pub fn host(&self) -> (r: &Host)
        ensures
            r@ == self@.host,
    {
        &self.host
    }

    /// The domain name of the cookie, or `None` where the cookie is
    /// scoped to an IP literal.
    pub fn domain(&self) -> (r: Option<&str>)
        ensures
            match r {
                Some(d) => self@.host == HostView::Domain(d@),
                None => self@.host is Ip,
            },
    {
        match &self.host {
            Host::Domain(d) => Some(d.as_str()),
            Host::Ip(_) => None,
        }
    }

    /// The path the cookie is scoped to.
    pub fn path(&self) -> (r: &str)
        ensures
            r@ == self@.path,
    {
        self.path.as_str()
    }

    /// The payload of the cookie.
    pub fn attributes(&self) -> (r: &Attributes)
        ensures
            r@ == self@.attributes,
    {
        &self.attributes
    }

    /// Takes the cookie apart for storage.
    pub(crate) fn explode(self) -> (r: (Host, String, Attributes))
        ensures
            r.0@ == self@.host,
            r.1@ == self@.path,
            r.2@ == self@.attributes,
    {
        let Cookie { host, path, attributes } = self;
        (host, path, attributes)
    }
}

/// The text `; Path=`.
pub open spec fn path_attr_text() -> Seq<char> {
    seq![';', ' ', 'P', 'a', 't', 'h', '=']
}

/// The text `; Domain=`.
pub open spec fn domain_attr_text() -> Seq<char> {
    seq![';', ' ', 'D', 'o', 'm', 'a', 'i', 'n', '=']
}

/// The text `; Secure`.
pub open spec fn secure_attr_text() -> Seq<char> {
    seq![';', ' ', 'S', 'e', 'c', 'u', 'r', 'e']
}

/// The text `; HttpOnly`.
pub open spec fn http_only_attr_text() -> Seq<char> {
    seq![';', ' ', 'H', 't', 't', 'p', 'O', 'n', 'l', 'y']
}

/// The text `; Expires=`.
pub open spec fn expires_attr_text() -> Seq<char> {
    seq![';', ' ', 'E', 'x', 'p', 'i', 'r', 'e', 's', '=']
}

/// The wire text of a directive: the pair as written, then `Path`,
/// `Domain`, `Secure`, `HttpOnly` and `Expires` in that fixed order,
/// each only where set.  An expiry that the date renderer cannot
/// represent is left out.  `Max-Age` is never rendered.
pub open spec fn spec_render(c: SetCookieView) -> Seq<char> {
    c.attributes.pair.text + (match c.path {
        Some(p) => path_attr_text() + p,
        None => Seq::empty(),
    }) + (match c.domain {
        Some(d) => domain_attr_text() + d,
        None => Seq::empty(),
    }) + (if c.attributes.secure {
        secure_attr_text()
    } else {
        Seq::empty()
    }) + (if c.attributes.http_only {
        http_only_attr_text()
    } else {
        Seq::empty()
    }) + (match c.attributes.expiry {
        Expires::AtUtc(t) => match rfc1123_text(t as int) {
            Some(x) => expires_attr_text() + x,
            None => Seq::empty(),
        },
        Expires::Never => Seq::empty(),
    })
}

impl SetCookie {
    /// Renders the directive as `Set-Cookie` wire text.
    #[verifier::rlimit(100)]
    pub fn to_string(&self) -> (r: String)
        ensures
            r@ == spec_render(self@),
    {
        proof {
            reveal_strlit("; Path=");
            reveal_strlit("; Domain=");
            reveal_strlit("; Secure");
            reveal_strlit("; HttpOnly");
            reveal_strlit("; Expires=");
            assert("; Path="@ =~= path_attr_text());
            assert("; Domain="@ =~= domain_attr_text());
            assert("; Secure"@ =~= secure_attr_text());
            assert("; HttpOnly"@ =~= http_only_attr_text());
            assert("; Expires="@ =~= expires_attr_text());
        }
        let mut out = String::new();
        out.append(self.attributes.pair().as_str());
        match &self.path {
            Some(p) => {
                out.append("; Path=");
                out.append(p.as_str());
            },
            None => {},
        }
        match &self.domain {
            Some(d) => {
                out.append("; Domain=");
                out.append(d.as_str());
            },
            None => {},
        }
        if self.attributes.secure() {
            out.append("; Secure");
        }
        if self.attributes.http_only() {
            out.append("; HttpOnly");
        }
        match self.attributes.expiry() {
            Expires::AtUtc(t) => {
                match format_epoch(*t) {
                    Some(x) => {
                        out.append("; Expires=");
                        out.append(x.as_str());
                    },
                    None => {},
                }
            },
            Expires::Never => {},
        }
        proof {
            assert(out@ =~= spec_render(self@));
        }
        out
    }
}

/// The seconds of the last `Max-Age` attribute of the list, where the
/// list has one.
pub open spec fn last_max_age(args: Seq<ArgumentView>) -> Option<int>
    decreases args.len(),
{
    if args.len() == 0 {
        None
    } else {
        match args.last() {
            ArgumentView::MaxAge(n) => Some(n),
            _ => last_max_age(args.drop_last()),
        }
    }
}

/// The last `Max-Age` of a list, read off its first element and its
/// tail.
proof fn lemma_last_max_age_drop_first(args: Seq<ArgumentView>)
    requires
        args.len() >= 1,
    ensures
        last_max_age(args) == if last_max_age(args.drop_first()) is Some {
            last_max_age(args.drop_first())
        } else {
            match args[0] {
                ArgumentView::MaxAge(n) => Some(n),
                _ => None,
            }
        },
    decreases args.len(),
{
    if args.len() == 1 {
        assert(args.drop_first() =~= Seq::<ArgumentView>::empty());
        assert(args.last() == args[0]);
    } else {
        assert(args.drop_first().last() == args.last());
        if args.last() is MaxAge {
        } else {
            assert(args.drop_first().drop_last() =~= args.drop_last().drop_first());
            lemma_last_max_age_drop_first(args.drop_last());
        }
    }
}

/// A fold over attributes without any `Max-Age`, entered with one
/// already seen, never touches the expiry.
proof fn lemma_fold_no_max_age(b: BuilderView, args: Seq<ArgumentView>, now: int)
    requires
        last_max_age(args) is None,
    ensures
        spec_fold_args(b, args, true, now).attributes.expiry == b.attributes.expiry,
    decreases args.len(),
{
    if args.len() > 0 {
        lemma_last_max_age_drop_first(args);
        let st = spec_apply_arg(b, args[0], true, now);
        assert(st.1 == true);
        assert(st.0.attributes.expiry == b.attributes.expiry);
        lemma_fold_no_max_age(st.0, args.drop_first(), now);
    }
}

/// LAW — `Max-Age` precedence.  Wherever one or more `Max-Age`
/// attributes appear among a header's attributes, the expiry that the
/// fold yields is `now` plus the seconds of the last of them, whatever
/// `Expires` attributes stand before or after them.
pub proof fn lemma_max_age_precedence(b: BuilderView, args: Seq<ArgumentView>, uma: bool, now: int)
    requires
        last_max_age(args) is Some,
    ensures
        spec_fold_args(b, args, uma, now).attributes.expiry == Expires::AtUtc(
            spec_sat_add(now, last_max_age(args)->Some_0) as i64,
        ),
    decreases args.len(),
{
    lemma_last_max_age_drop_first(args);
    let st = spec_apply_arg(b, args[0], uma, now);
    if last_max_age(args.drop_first()) is Some {
        lemma_max_age_precedence(st.0, args.drop_first(), st.1, now);
    } else {
        assert(args[0] is MaxAge);
        assert(st.1 == true);
        assert(st.0.attributes.expiry == Expires::AtUtc(
            spec_sat_add(now, last_max_age(args)->Some_0) as i64,
        ));
        lemma_fold_no_max_age(st.0, args.drop_first(), now);
    }
}


/// The builder and max-age flag after folding a list of attributes.
pub open spec fn spec_fold_state(b: BuilderView, args: Seq<ArgumentView>, uma: bool, now: int) -> (
    BuilderView,
    bool,
)
    decreases args.len(),
{
    if args.len() == 0 {
        (b, uma)
    } else {
        let st = spec_apply_arg(b, args[0], uma, now);
        spec_fold_state(st.0, args.drop_first(), st.1, now)
    }
}

/// The fold is the builder component of the fold state.
proof fn lemma_fold_args_state(b: BuilderView, args: Seq<ArgumentView>, uma: bool, now: int)
    ensures
        spec_fold_args(b, args, uma, now) == spec_fold_state(b, args, uma, now).0,
    decreases args.len(),
{
    if args.len() > 0 {
        let st = spec_apply_arg(b, args[0], uma, now);
        lemma_fold_args_state(st.0, args.drop_first(), st.1, now);
    }
}

/// Folding a concatenation folds the parts in order.
proof fn lemma_fold_state_concat(
    b: BuilderView,
    x: Seq<ArgumentView>,
    y: Seq<ArgumentView>,
    uma: bool,
    now: int,
)
    ensures
        spec_fold_state(b, x + y, uma, now) == spec_fold_state(
            spec_fold_state(b, x, uma, now).0,
            y,
            spec_fold_state(b, x, uma, now).1,
            now,
        ),
    decreases x.len(),
{
    if x.len() == 0 {
        assert(x + y =~= y);
    } else {
        assert((x + y)[0] == x[0]);
        assert((x + y).drop_first() =~= x.drop_first() + y);
        let st = spec_apply_arg(b, x[0], uma, now);
        lemma_fold_state_concat(st.0, x.drop_first(), y, st.1, now);
    }
}

/// Folding a single attribute applies it.
proof fn lemma_fold_state_single(b: BuilderView, a: ArgumentView, uma: bool, now: int)
    ensures
        spec_fold_state(b, seq![a], uma, now) == spec_apply_arg(b, a, uma, now),
{
    assert(seq![a].drop_first() =~= Seq::<ArgumentView>::empty());
    let st = spec_apply_arg(b, a, uma, now);
    assert(spec_fold_state(st.0, Seq::empty(), st.1, now) == st);
}

/// The attribute fragments the renderer emits for a directive without
/// expiry: `Path`, `Domain`, `Secure` and `HttpOnly`, each where set.
pub open spec fn rt_frags(c: SetCookieView) -> Seq<Seq<char>> {
    (match c.path {
        Some(p) => seq![crate::parse::path_text() + p],
        None => Seq::empty(),
    }) + (match c.domain {
        Some(d) => seq![crate::parse::domain_text() + d],
        None => Seq::empty(),
    }) + (if c.attributes.secure {
        seq![crate::parse::secure_text()]
    } else {
        Seq::empty()
    }) + (if c.attributes.http_only {
        seq![crate::parse::http_only_text()]
    } else {
        Seq::empty()
    })
}

/// The hypotheses of the round trip: a directive built only from a
/// well-formed pair, a path and a domain of fragment characters, and the
/// security flags — no expiry; its host-only flag is the builder's:
/// set exactly where no suffix domain is.
pub open spec fn rt_directive(c: SetCookieView) -> bool {
    &&& c.attributes.pair.wf()
    &&& c.attributes.expiry is Never
    &&& (c.path matches Some(p) ==> crate::parse::all_fragment_chars(p))
    &&& (c.domain matches Some(d) ==> crate::parse::all_fragment_chars(d))
    &&& (c.domain is Some ==> !c.attributes.host_only)
    &&& (c.domain is None ==> c.attributes.host_only)
}

/// Every fragment the renderer emits is non-empty, fragment-clean, and
/// reparses to the attribute it renders.
proof fn lemma_rt_good(c: SetCookieView)
    requires
        rt_directive(c),
    ensures
        forall|i: int|
            0 <= i < rt_frags(c).len() ==> crate::parse::good_fragment(#[trigger] rt_frags(c)[i]),
{
    match c.path {
        Some(p) => {
            crate::parse::lemma_argument_path(p);
            let f = crate::parse::path_text() + p;
            assert(crate::parse::all_fragment_chars(f)) by {
                assert forall|i: int| 0 <= i < f.len() implies crate::chars::is_fragment_char(
                    f[i],
                ) by {
                    if i >= 5 {
                        assert(f[i] == p[i - 5]);
                    }
                }
            }
            assert(crate::parse::good_fragment(f));
        },
        None => {},
    }
    match c.domain {
        Some(d) => {
            crate::parse::lemma_argument_domain(d);
            let f = crate::parse::domain_text() + d;
            assert(crate::parse::all_fragment_chars(f)) by {
                assert forall|i: int| 0 <= i < f.len() implies crate::chars::is_fragment_char(
                    f[i],
                ) by {
                    if i >= 7 {
                        assert(f[i] == d[i - 7]);
                    }
                }
            }
            assert(crate::parse::good_fragment(f));
        },
        None => {},
    }
    if c.attributes.secure {
        crate::parse::lemma_argument_secure();
        assert(crate::parse::good_fragment(crate::parse::secure_text()));
    }
    if c.attributes.http_only {
        crate::parse::lemma_argument_http_only();
        assert(crate::parse::good_fragment(crate::parse::http_only_text()));
    }
}

/// The rendered wire text of an expiry-free directive is its pair text
/// followed by the rendered attribute fragments.
#[verifier::rlimit(100)]
proof fn lemma_rt_render(c: SetCookieView)
    requires
        rt_directive(c),
    ensures
        spec_render(c) == c.attributes.pair.text + crate::parse::render_args(rt_frags(c)),
{
    let pathf: Seq<Seq<char>> = match c.path {
        Some(p) => seq![crate::parse::path_text() + p],
        None => Seq::empty(),
    };
    let domf: Seq<Seq<char>> = match c.domain {
        Some(d) => seq![crate::parse::domain_text() + d],
        None => Seq::empty(),
    };
    let secf: Seq<Seq<char>> = if c.attributes.secure {
        seq![crate::parse::secure_text()]
    } else {
        Seq::empty()
    };
    let httpf: Seq<Seq<char>> = if c.attributes.http_only {
        seq![crate::parse::http_only_text()]
    } else {
        Seq::empty()
    };
    crate::parse::lemma_render_args_concat(pathf, domf);
    crate::parse::lemma_render_args_concat(pathf + domf, secf);
    crate::parse::lemma_render_args_concat((pathf + domf) + secf, httpf);
    assert(rt_frags(c) == ((pathf + domf) + secf) + httpf);
    match c.path {
        Some(p) => {
            crate::parse::lemma_render_args_single(crate::parse::path_text() + p);
            assert(crate::parse::render_args(pathf) =~= path_attr_text() + p);
        },
        None => {},
    }
    match c.domain {
        Some(d) => {
            crate::parse::lemma_render_args_single(crate::parse::domain_text() + d);
            assert(crate::parse::render_args(domf) =~= domain_attr_text() + d);
        },
        None => {},
    }
    if c.attributes.secure {
        crate::parse::lemma_render_args_single(crate::parse::secure_text());
        assert(crate::parse::render_args(secf) =~= secure_attr_text());
    }
    if c.attributes.http_only {
        crate::parse::lemma_render_args_single(crate::parse::http_only_text());
        assert(crate::parse::render_args(httpf) =~= http_only_attr_text());
    }
    assert(spec_render(c) =~= c.attributes.pair.text + crate::parse::render_args(rt_frags(c)));
}

/// Splitting the rendered text yields the pair and the attribute text.
proof fn lemma_rt_process(c: SetCookieView)
    requires
        rt_directive(c),
    ensures
        spec_process_cookie(spec_render(c)) == Ok::<(CookiePairView, Seq<char>), ParseError>(
            (c.attributes.pair, crate::parse::render_args(rt_frags(c))),
        ),
{
    let pair = c.attributes.pair;
    let frags = rt_frags(c);
    lemma_rt_render(c);
    let rendered = spec_render(c);
    crate::parse::lemma_pair_text_fragment(pair);
    assert(run_len(rendered, CharClass::Fragment) == pair.text.len()) by {
        assert(forall|j: int| 0 <= j < pair.text.len() ==> rendered[j] == pair.text[j]);
        crate::parse::lemma_render_args_head(frags);
        if crate::parse::render_args(frags).len() > 0 {
            assert(rendered[pair.text.len() as int] == ';');
            assert(!crate::chars::is_fragment_char(';'));
        } else {
            assert(rendered.len() == pair.text.len());
        }
        crate::chars::lemma_run_len_is(rendered, CharClass::Fragment, pair.text.len() as int);
    }
    assert(rendered.take(pair.text.len() as int) =~= pair.text);
    assert(rendered.skip(pair.text.len() as int) =~= crate::parse::render_args(frags));
    crate::parse::lemma_pair_encode(pair);
}

/// Folding the reparsed attributes over a fresh builder holding the pair
/// rebuilds the directive.
#[verifier::rlimit(100)]
proof fn lemma_rt_fold(c: SetCookieView, now: int)
    requires
        rt_directive(c),
        c.domain matches Some(d) ==> host_parse(d) == Some(HostView::Domain(d)),
    ensures
        spec_build_set_cookie(
            spec_fold_args(
                spec_pair(spec_builder_empty(), c.attributes.pair),
                crate::parse::decode_args(rt_frags(c)),
                false,
                now,
            ),
        ) == Ok::<SetCookieView, Error>(c),
{
    let pair = c.attributes.pair;
    let pathf: Seq<Seq<char>> = match c.path {
        Some(p) => seq![crate::parse::path_text() + p],
        None => Seq::empty(),
    };
    let domf: Seq<Seq<char>> = match c.domain {
        Some(d) => seq![crate::parse::domain_text() + d],
        None => Seq::empty(),
    };
    let secf: Seq<Seq<char>> = if c.attributes.secure {
        seq![crate::parse::secure_text()]
    } else {
        Seq::empty()
    };
    let httpf: Seq<Seq<char>> = if c.attributes.http_only {
        seq![crate::parse::http_only_text()]
    } else {
        Seq::empty()
    };
    assert(rt_frags(c) == ((pathf + domf) + secf) + httpf);
    crate::parse::lemma_decode_args_concat(pathf, domf);
    crate::parse::lemma_decode_args_concat(pathf + domf, secf);
    crate::parse::lemma_decode_args_concat((pathf + domf) + secf, httpf);
    let pa = crate::parse::decode_args(pathf);
    let da = crate::parse::decode_args(domf);
    let sa = crate::parse::decode_args(secf);
    let ha = crate::parse::decode_args(httpf);
    let args = crate::parse::decode_args(rt_frags(c));
    assert(args =~= ((pa + da) + sa) + ha);

    let b0 = spec_pair(spec_builder_empty(), pair);
    lemma_fold_args_state(b0, args, false, now);
    lemma_fold_state_concat(b0, (pa + da) + sa, ha, false, now);
    lemma_fold_state_concat(b0, pa + da, sa, false, now);
    lemma_fold_state_concat(b0, pa, da, false, now);
    let s1 = spec_fold_state(b0, pa, false, now);
    match c.path {
        Some(p) => {
            crate::parse::lemma_argument_path(p);
            crate::parse::lemma_decode_args_single(crate::parse::path_text() + p);
            assert(pa =~= seq![ArgumentView::Path(p)]);
            lemma_fold_state_single(b0, ArgumentView::Path(p), false, now);
            assert(s1 == (spec_path(b0, p), false));
        },
        None => {
            assert(s1 == (b0, false));
        },
    }
    let s2 = spec_fold_state(s1.0, da, s1.1, now);
    match c.domain {
        Some(d) => {
            crate::parse::lemma_argument_domain(d);
            crate::parse::lemma_decode_args_single(crate::parse::domain_text() + d);
            assert(da =~= seq![ArgumentView::Domain(d)]);
            lemma_fold_state_single(s1.0, ArgumentView::Domain(d), s1.1, now);
            assert(s2 == (spec_domain(s1.0, d), false));
        },
        None => {
            assert(s2 == (s1.0, s1.1));
        },
    }
    let s3 = spec_fold_state(s2.0, sa, s2.1, now);
    if c.attributes.secure {
        crate::parse::lemma_argument_secure();
        crate::parse::lemma_decode_args_single(crate::parse::secure_text());
        assert(sa =~= seq![ArgumentView::Secure]);
        lemma_fold_state_single(s2.0, ArgumentView::Secure, s2.1, now);
        assert(s3 == (spec_secure(s2.0, true), false));
    } else {
        assert(s3 == (s2.0, s2.1));
    }
    let s4 = spec_fold_state(s3.0, ha, s3.1, now);
    if c.attributes.http_only {
        crate::parse::lemma_argument_http_only();
        crate::parse::lemma_decode_args_single(crate::parse::http_only_text());
        assert(ha =~= seq![ArgumentView::HttpOnly]);
        lemma_fold_state_single(s3.0, ArgumentView::HttpOnly, s3.1, now);
        assert(s4 == (spec_http_only(s3.0, true), false));
    } else {
        assert(s4 == (s3.0, s3.1));
    }
    let bf = s4.0;
    assert(bf.error is None);
    assert(bf.attributes == c.attributes);
    assert(bf.path == c.path);
    match c.domain {
        Some(d) => {
            assert(bf.host == Some(HostView::Domain(d)));
        },
        None => {
            assert(bf.host is None);
        },
    }
    assert(spec_build_set_cookie(bf) == Ok::<SetCookieView, Error>(c));
}

/// LAW — render / parse round trip.  A directive built only from a
/// name=value pair, a path, a suffix domain and the two security flags
/// (no expiry) parses back from its wire text to itself, provided the
/// domain text is in the canonical form the host normalizer yields —
/// which holds of every domain a builder stored, since the builder
/// normalizes what it is given.
pub proof fn lemma_render_parse_round_trip(c: SetCookieView, now: int)
    requires
        rt_directive(c),
    ensures
        (c.domain matches Some(d) ==> host_parse(d) == Some(HostView::Domain(d)))
            ==> spec_set_cookie_parse(spec_render(c), now) == Ok::<SetCookieView, Error>(c),
{
    let canonical = match c.domain {
        Some(d) => host_parse(d) == Some(HostView::Domain(d)),
        None => true,
    };
    if canonical {
        lemma_rt_good(c);
        lemma_rt_process(c);
        crate::parse::lemma_args_roundtrip(rt_frags(c));
        lemma_rt_fold(c, now);
    }
}

} // verus!
