//! Absolute URLs as the rest of the library reads them: their text, scheme,
//! host and origin. Parsing and resolving are done by the `url` crate.

use vstd::prelude::*;

verus! {

#[verifier::external_type_specification]
#[verifier::external_body]
pub struct ExParsedUrl(url::Url);

/// What the library reads of a parsed URL.
///
/// `origin` is `Some((scheme, host, port))` for a tuple origin and `None` for an
/// opaque one; the host is kept in its serialized form.
pub struct UrlView {
    pub href: Seq<char>,
    pub scheme: Seq<char>,
    pub host: Option<Seq<char>>,
    pub origin: Option<(Seq<char>, Seq<char>, u16)>,
}

/// An absolute URL, parsed by the `url` crate.
pub struct WebUrl {
    parsed: url::Url,
    href: String,
    scheme: String,
    host: Option<String>,
    origin: Option<(String, String, u16)>,
}

impl View for WebUrl {
    type V = UrlView;

    closed spec fn view(&self) -> UrlView {
        UrlView {
            href: self.href@,
            scheme: self.scheme@,
            host: match self.host {
                Some(h) => Some(h@),
                None => None,
            },
            origin: match self.origin {
                Some((s, h, p)) => Some((s@, h@, p)),
                None => None,
            },
        }
    }
}

/// The view of an optional URL.
pub open spec fn url_view_opt(u: Option<WebUrl>) -> Option<UrlView> {
    match u {
        Some(v) => Some(v@),
        None => None,
    }
}

/// What `url::Url::parse` makes of a text, or `None` where it reports an error.
pub uninterp spec fn parsed_url(input: Seq<char>) -> Option<UrlView>;

/// What `url::Url::join` makes of `input` resolved against `base`, or `None`
/// where it reports an error.
pub uninterp spec fn joined_url(base: UrlView, input: Seq<char>) -> Option<UrlView>;

/// Two URLs have the same origin: both origins are tuples and the tuples are
/// equal. An opaque origin equals no other origin (`url::Origin::new_opaque`
/// draws a fresh identifier for each one).
pub open spec fn same_origin_spec(a: UrlView, b: UrlView) -> bool {
    match (a.origin, b.origin) {
        (Some(x), Some(y)) => x == y,
        _ => false,
    }
}

/// `url::Url::parse`: the absolute URL that `input` denotes, or `None` where the
/// crate reports a parse error. Claimed: the result is `parsed_url(input)`, its
/// `href` being `Url::as_str`, its `scheme` `Url::scheme`, its `host`
/// `Url::host_str`, its `origin` `Url::origin` (tuple origins with the host
/// serialized, opaque origins as `None`). The WHATWG parsing rules themselves
/// are not spelled out.
#[verifier::external_body]
fn parse_url(input: &str) -> (r: Option<WebUrl>)
    ensures
        url_view_opt(r) == parsed_url(input@),
{
    let u = url::Url::parse(input).ok()?;
    let origin = match u.origin() {
        url::Origin::Tuple(s, h, p) => Some((s, h.to_string(), p)),
        url::Origin::Opaque(_) => None,
    };
    let (href, scheme) = (u.as_str().to_string(), u.scheme().to_string());
    let host = u.host_str().map(|h| h.to_string());
    Some(WebUrl { parsed: u, href, scheme, host, origin })
}

/// `url::Url::join`: `input` resolved against `base`, or `None` where the crate
/// reports a parse error. Claimed: the result is `joined_url(base, input)`, read
/// as for `parse_url`. Resolution itself is not spelled out.
#[verifier::external_body]
fn join_url(base: &WebUrl, input: &str) -> (r: Option<WebUrl>)
    ensures
        url_view_opt(r) == joined_url(base@, input@),
{
    let u = base.parsed.join(input).ok()?;
    let origin = match u.origin() {
        url::Origin::Tuple(s, h, p) => Some((s, h.to_string(), p)),
        url::Origin::Opaque(_) => None,
    };
    let (href, scheme) = (u.as_str().to_string(), u.scheme().to_string());
    let host = u.host_str().map(|h| h.to_string());
    Some(WebUrl { parsed: u, href, scheme, host, origin })
}

impl WebUrl {
    /// Parses an absolute URL.
    pub fn parse(input: &str) -> (r: Option<WebUrl>)
        ensures
            url_view_opt(r) == parsed_url(input@),
    {
        parse_url(input)
    }

    /// Resolves `input` (absolute, or relative to this URL).
    pub fn join(&self, input: &str) -> (r: Option<WebUrl>)
        ensures
            url_view_opt(r) == joined_url(self@, input@),
    {
        join_url(self, input)
    }

    /// The URL's text.
    pub fn as_str(&self) -> (r: &str)
        ensures
            r@ == self@.href,
    {
        self.href.as_str()
    }

    /// The URL's scheme.
    pub fn scheme(&self) -> (r: &str)
        ensures
            r@ == self@.scheme,
    {
        self.scheme.as_str()
    }

    /// Whether the URL's scheme is `scheme`.
    pub fn has_scheme(&self, scheme: &str) -> (r: bool)
        ensures
            r == (self@.scheme == scheme@),
    {
        self.scheme == scheme.to_owned()
    }

    /// Whether the URL has a host.
    pub fn has_host(&self) -> (r: bool)
        ensures
            r == self@.host is Some,
    {
        self.host.is_some()
    }

    /// Whether the two URLs have the same origin (`same_origin_spec`).
    pub fn same_origin(&self, other: &WebUrl) -> (r: bool)
        ensures
            r == same_origin_spec(self@, other@),
    {
        match (&self.origin, &other.origin) {
            (Some(a), Some(b)) => a.0 == b.0 && a.1 == b.1 && a.2 == b.2,
            _ => false,
        }
    }

    /// Whether the two URLs are the same URL (the same text).
    pub fn same_url(&self, other: &WebUrl) -> (r: bool)
        ensures
            r == (self@.href == other@.href),
    {
        self.href == other.href
    }
}

} // verus!
