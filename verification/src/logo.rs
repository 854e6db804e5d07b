//! Service logos: recognising image bytes, reading a response body within a
//! size limit, the URLs tried for a service's icon, and the reply sent for a
//! logo request.

use vstd::prelude::*;
use crate::html::{icon_links, page_icons, urls_view};
use crate::weburl::{joined_url, same_origin_spec, UrlView, WebUrl};

verus! {

/// Largest icon body that is read.
pub const MAX_ICON_BYTES: usize = 262144;

/// Largest home-page body that is read when looking for declared icons.
pub const MAX_PAGE_BYTES: usize = 262144;

/// An icon ready to be served: its bytes and their MIME type.
pub struct Logo {
    pub bytes: Vec<u8>,
    pub mime: &'static str,
}

/// `b` begins with `p`.
pub open spec fn starts_with(b: Seq<u8>, p: Seq<u8>) -> bool {
    p.len() <= b.len() && b.subrange(0, p.len() as int) == p
}

/// The PNG signature.
pub open spec fn png_magic() -> Seq<u8> {
    seq![0x89u8, 0x50, 0x4e, 0x47, 0x0d, 0x0a, 0x1a, 0x0a]
}

/// The header of a Windows icon file.
pub open spec fn ico_magic() -> Seq<u8> {
    seq![0x00u8, 0x00, 0x01, 0x00]
}

/// The start of a JPEG file.
pub open spec fn jpeg_magic() -> Seq<u8> {
    seq![0xffu8, 0xd8, 0xff]
}

/// `GIF87a`.
pub open spec fn gif87_magic() -> Seq<u8> {
    seq![0x47u8, 0x49, 0x46, 0x38, 0x37, 0x61]
}

/// `GIF89a`.
pub open spec fn gif89_magic() -> Seq<u8> {
    seq![0x47u8, 0x49, 0x46, 0x38, 0x39, 0x61]
}

/// `RIFF`.
pub open spec fn riff_magic() -> Seq<u8> {
    seq![0x52u8, 0x49, 0x46, 0x46]
}

/// `WEBP`.
pub open spec fn webp_magic() -> Seq<u8> {
    seq![0x57u8, 0x45, 0x42, 0x50]
}

/// The image type that the first bytes of `b` announce, if any: PNG, ICO, JPEG,
/// GIF, or WebP (a RIFF file with `WEBP` at bytes 8 to 11).
pub open spec fn mime_of(b: Seq<u8>) -> Option<Seq<char>> {
    if starts_with(b, png_magic()) {
        Some("image/png"@)
    } else if starts_with(b, ico_magic()) {
        Some("image/x-icon"@)
    } else if starts_with(b, jpeg_magic()) {
        Some("image/jpeg"@)
    } else if starts_with(b, gif87_magic()) || starts_with(b, gif89_magic()) {
        Some("image/gif"@)
    } else if b.len() >= 12 && starts_with(b, riff_magic()) && b.subrange(8, 12) == webp_magic() {
        Some("image/webp"@)
    } else {
        None
    }
}

/// A prefix of `b` is a prefix of `b` with anything appended.
proof fn lemma_starts_with_append(b: Seq<u8>, x: Seq<u8>, p: Seq<u8>)
    requires
        starts_with(b, p),
    ensures
        starts_with(b + x, p),
{
    assert((b + x).subrange(0, p.len() as int) =~= b.subrange(0, p.len() as int));
}

/// The first byte of anything a header `p` begins.
proof fn lemma_starts_with_first(b: Seq<u8>, p: Seq<u8>)
    requires
        starts_with(b, p),
        p.len() > 0,
    ensures
        b[0] == p[0],
{
    assert(b.subrange(0, p.len() as int)[0] == b[0]);
}

/// Bytes after a recognised image header never change or remove its type: the
/// type is decided by the first twelve bytes at most, and the headers begin with
/// different bytes.
pub proof fn lemma_image_type_prefix(b: Seq<u8>, x: Seq<u8>)
    requires
        mime_of(b) is Some,
    ensures
        mime_of(b + x) == mime_of(b),
{
    let bx = b + x;
    assert(b.len() > 0 ==> bx[0] == b[0]);
    // the header that `b` has, `bx` has too
    if starts_with(b, png_magic()) {
        lemma_starts_with_append(b, x, png_magic());
    } else if starts_with(b, ico_magic()) {
        lemma_starts_with_first(b, ico_magic());
        lemma_starts_with_append(b, x, ico_magic());
    } else if starts_with(b, jpeg_magic()) {
        lemma_starts_with_first(b, jpeg_magic());
        lemma_starts_with_append(b, x, jpeg_magic());
    } else if starts_with(b, gif87_magic()) || starts_with(b, gif89_magic()) {
        if starts_with(b, gif87_magic()) {
            lemma_starts_with_first(b, gif87_magic());
            lemma_starts_with_append(b, x, gif87_magic());
        } else {
            lemma_starts_with_first(b, gif89_magic());
            lemma_starts_with_append(b, x, gif89_magic());
        }
    } else {
        lemma_starts_with_first(b, riff_magic());
        lemma_starts_with_append(b, x, riff_magic());
        assert(bx.subrange(8, 12) =~= b.subrange(8, 12));
    }
    // and no header checked before it, since those begin with other bytes
    if starts_with(bx, png_magic()) {
        lemma_starts_with_first(bx, png_magic());
    }
    if starts_with(bx, ico_magic()) {
        lemma_starts_with_first(bx, ico_magic());
    }
    if starts_with(bx, jpeg_magic()) {
        lemma_starts_with_first(bx, jpeg_magic());
    }
    if starts_with(bx, gif87_magic()) {
        lemma_starts_with_first(bx, gif87_magic());
    }
    if starts_with(bx, gif89_magic()) {
        lemma_starts_with_first(bx, gif89_magic());
    }
}

/// Whether `b` begins with `p`.
fn has_prefix(b: &[u8], p: &Vec<u8>) -> (r: bool)
    ensures
        r == starts_with(b@, p@),
{
    if p.len() > b.len() {
        return false;
    }
    for i in 0..p.len()
        invariant
            p.len() <= b.len(),
            forall|k: int| 0 <= k < i ==> b@[k] == p@[k],
    {
        if b[i] != p[i] {
            assert(b@.subrange(0, p@.len() as int)[i as int] != p@[i as int]);
            return false;
        }
    }
    assert(b@.subrange(0, p@.len() as int) =~= p@);
    true
}

/// The MIME type of an image recognised by its first bytes (`mime_of`).
pub fn image_mime(bytes: &[u8]) -> (r: Option<&'static str>)
    ensures
        match r {
            Some(m) => mime_of(bytes@) == Some(m@),
            None => mime_of(bytes@) is None,
        },
{
    let png = vec![0x89u8, 0x50, 0x4e, 0x47, 0x0d, 0x0a, 0x1a, 0x0a];
    let ico = vec![0x00u8, 0x00, 0x01, 0x00];
    let jpeg = vec![0xffu8, 0xd8, 0xff];
    let gif87 = vec![0x47u8, 0x49, 0x46, 0x38, 0x37, 0x61];
    let gif89 = vec![0x47u8, 0x49, 0x46, 0x38, 0x39, 0x61];
    let riff = vec![0x52u8, 0x49, 0x46, 0x46];
    if has_prefix(bytes, &png) {
        Some("image/png")
    } else if has_prefix(bytes, &ico) {
        Some("image/x-icon")
    } else if has_prefix(bytes, &jpeg) {
        Some("image/jpeg")
    } else if has_prefix(bytes, &gif87) || has_prefix(bytes, &gif89) {
        Some("image/gif")
    } else if bytes.len() >= 12 && has_prefix(bytes, &riff) && bytes[8] == 0x57 && bytes[9] == 0x45
        && bytes[10] == 0x42 && bytes[11] == 0x50 {
        assert(bytes@.subrange(8, 12) =~= webp_magic());
        Some("image/webp")
    } else {
        proof {
            if bytes@.len() >= 12 && starts_with(bytes@, riff_magic()) && bytes@.subrange(8, 12) == webp_magic() {
                assert(bytes@[8] == bytes@.subrange(8, 12)[0]);
                assert(bytes@[9] == bytes@.subrange(8, 12)[1]);
                assert(bytes@[10] == bytes@.subrange(8, 12)[2]);
                assert(bytes@[11] == bytes@.subrange(8, 12)[3]);
            }
        }
        None
    }
}

/// The logo for a body that holds an image: the bytes with their MIME type;
/// `None` when the bytes are no recognised image.
pub fn logo_from_bytes(bytes: Vec<u8>) -> (r: Option<Logo>)
    ensures
        r is Some <==> mime_of(bytes@) is Some,
        r matches Some(l) ==> l.bytes@ == bytes@ && mime_of(bytes@) == Some(l.mime@),
{
    match image_mime(bytes.as_slice()) {
        Some(mime) => Some(Logo { bytes, mime }),
        None => None,
    }
}


/// What to do next while looking for a service's logo among its candidate URLs.
pub enum LogoStep {
    /// Fetch the candidate at this position.
    Fetch(usize),
    /// Stop with the logo found, or with `None` when no candidate gave an image.
    Done(Option<Logo>),
}

/// The next step once `tried` of `count` candidates have been fetched, the last
/// of them giving `last`: stop at the first image; otherwise fetch the next
/// candidate while there is one; otherwise stop with nothing.
pub fn next_logo_step(count: usize, tried: usize, last: Option<Logo>) -> (r: LogoStep)
    ensures
        match last {
            Some(l) => r == LogoStep::Done(Some(l)),
            None => if tried < count {
                r == LogoStep::Fetch(tried)
            } else {
                r == LogoStep::Done(None)
            },
        },
{
    match last {
        Some(l) => LogoStep::Done(Some(l)),
        None => if tried < count {
            LogoStep::Fetch(tried)
        } else {
            LogoStep::Done(None)
        },
    }
}

/// A response body being read under a size limit: the bytes taken so far, never
/// more than the limit.
pub struct LimitedBody {
    bytes: Vec<u8>,
    limit: usize,
}

impl LimitedBody {
    #[verifier::type_invariant]
    spec fn within_limit(self) -> bool {
        self.bytes.len() <= self.limit
    }

    /// The bytes read so far.
    pub closed spec fn content(self) -> Seq<u8> {
        self.bytes@
    }

    /// The most bytes the body may hold.
    pub closed spec fn cap(self) -> nat {
        self.limit as nat
    }

    /// Starts reading a body of at most `limit` bytes. `None` when the response
    /// declares a length above the limit.
    pub fn start(declared_length: Option<u64>, limit: usize) -> (r: Option<LimitedBody>)
        ensures
            r is None <==> (declared_length matches Some(n) && n > limit),
            r matches Some(b) ==> b.content() == Seq::<u8>::empty() && b.cap() == limit,
    {
        if let Some(n) = declared_length {
            if n > limit as u64 {
                return None;
            }
        }
        Some(LimitedBody { bytes: Vec::new(), limit })
    }

    /// Takes the next chunk when the body stays within its limit with it and
    /// answers `true`; otherwise leaves the body as it was and answers `false`
    /// (the read is then abandoned).
    pub fn push_chunk(&mut self, chunk: &[u8]) -> (accepted: bool)
        ensures
            accepted == (old(self).content().len() + chunk@.len() <= old(self).cap()),
            accepted ==> final(self).content() == old(self).content() + chunk@,
            !accepted ==> final(self).content() == old(self).content(),
            final(self).cap() == old(self).cap(),
            final(self).content().len() <= final(self).cap(),
    {
        proof {
            use_type_invariant(&*self);
        }
        if chunk.len() > self.limit - self.bytes.len() {
            return false;
        }
        let mut bytes: Vec<u8> = Vec::new();
        std::mem::swap(&mut bytes, &mut self.bytes);
        bytes.extend_from_slice(chunk);
        self.bytes = bytes;
        true
    }

    /// The bytes read.
    pub fn into_bytes(self) -> (r: Vec<u8>)
        ensures
            r@ == self.content(),
            r@.len() <= self.cap(),
    {
        proof {
            use_type_invariant(&self);
        }
        self.bytes
    }
}

/// The HTTP reply to a logo request.
pub struct LogoReply {
    pub status: u16,
    pub content_type: Option<&'static str>,
    pub cache_control: &'static str,
    pub body: Vec<u8>,
}

/// The reply for a logo request: the image with its type, cacheable for a day;
/// or, when no logo was found, 404 with an empty body, cacheable for a minute.
pub fn logo_reply(logo: Option<Logo>) -> (r: LogoReply)
    ensures
        match logo {
            Some(l) => {
                &&& r.status == 200
                &&& r.content_type == Some(l.mime)
                &&& r.cache_control@ == "public, max-age=86400"@
                &&& r.body@ == l.bytes@
            },
            None => {
                &&& r.status == 404
                &&& r.content_type is None
                &&& r.cache_control@ == "public, max-age=60"@
                &&& r.body@.len() == 0
            },
        },
{
    match logo {
        Some(l) => LogoReply {
            status: 200,
            content_type: Some(l.mime),
            cache_control: "public, max-age=86400",
            body: l.bytes,
        },
        None => LogoReply {
            status: 404,
            content_type: None,
            cache_control: "public, max-age=60",
            body: Vec::new(),
        },
    }
}

/// The well-known places tried after the declared icons, in order.
pub open spec fn fallback_paths() -> Seq<Seq<char>> {
    seq!["/favicon.ico"@, "/Content/Images/Icons/favicon-32x32.png"@, "/web/favicon.ico"@]
}

/// The URLs among `items` that exist, in order.
pub open spec fn present(items: Seq<Option<UrlView>>) -> Seq<UrlView>
    decreases items.len(),
{
    if items.len() == 0 {
        seq![]
    } else {
        let rest = present(items.drop_last());
        match items.last() {
            Some(u) => rest.push(u),
            None => rest,
        }
    }
}

/// Where a service's icon is looked for: the icons its page declares, then the
/// well-known paths resolved against the service URL (those that resolve).
pub open spec fn icon_candidates(declared: Seq<UrlView>, service: UrlView) -> Seq<UrlView> {
    declared + present(fallback_paths().map_values(|p: Seq<char>| joined_url(service, p)))
}

/// The URLs tried, in order, for a service's icon (`icon_candidates`).
pub fn logo_candidates(declared: Vec<WebUrl>, service: &WebUrl) -> (r: Vec<WebUrl>)
    ensures
        urls_view(r@) == icon_candidates(urls_view(declared@), service@),
{
    let mut out = declared;
    let ghost start = urls_view(out@);
    let ghost joins = fallback_paths().map_values(|p: Seq<char>| joined_url(service@, p));
    let a = service.join("/favicon.ico");
    let b = service.join("/Content/Images/Icons/favicon-32x32.png");
    let c = service.join("/web/favicon.ico");
    proof {
        assert(joins[0] == crate::weburl::url_view_opt(a));
        assert(joins[1] == crate::weburl::url_view_opt(b));
        assert(joins[2] == crate::weburl::url_view_opt(c));
        assert(joins.take(1).drop_last() == joins.take(0));
        assert(joins.take(2).drop_last() == joins.take(1));
        assert(joins.take(3).drop_last() == joins.take(2));
        assert(joins.take(3) == joins);
    }
    assert(present(joins.take(0)) == Seq::<UrlView>::empty());
    assert(start + present(joins.take(0)) == start);
    if let Some(u) = a {
        let ghost before = out@;
        out.push(u);
        proof {
            lemma_urls_view_push(before, u);
        }
    }
    assert(urls_view(out@) == start + present(joins.take(1)));
    if let Some(u) = b {
        let ghost before = out@;
        out.push(u);
        proof {
            lemma_urls_view_push(before, u);
        }
    }
    assert(urls_view(out@) == start + present(joins.take(2)));
    if let Some(u) = c {
        let ghost before = out@;
        out.push(u);
        proof {
            lemma_urls_view_push(before, u);
        }
    }
    assert(urls_view(out@) == start + present(joins.take(3)));
    out
}

/// Viewing a list with one more URL.
pub proof fn lemma_urls_view_push(v: Seq<WebUrl>, u: WebUrl)
    ensures
        urls_view(v.push(u)) == urls_view(v).push(u@),
{
    assert(urls_view(v.push(u)) =~= urls_view(v).push(u@));
}

/// Whether a fetched home page may declare the service's icons: the request
/// succeeded and the page (after redirects) has the service's origin.
pub fn page_may_declare_icons(success: bool, page: &WebUrl, service: &WebUrl) -> (r: bool)
    ensures
        r == (success && same_origin_spec(page@, service@)),
{
    success && page.same_origin(service)
}

/// What `String::from_utf8_lossy` makes of a byte sequence.
pub uninterp spec fn utf8_lossy(bytes: Seq<u8>) -> Seq<char>;

/// `String::from_utf8_lossy`: the text of `bytes`, with each invalid UTF-8
/// sequence replaced by U+FFFD. Claimed: the result is `utf8_lossy(bytes)`, and
/// valid UTF-8 is decoded as it stands; where the replacements go is not spelled out.
#[verifier::external_body]
fn decode_lossy(bytes: &[u8]) -> (r: String)
    ensures
        r@ == utf8_lossy(bytes@),
        vstd::utf8::valid_utf8(bytes@) ==> r@ == vstd::utf8::decode_utf8(bytes@),
{
    String::from_utf8_lossy(bytes).into_owned()
}

/// The icons that a fetched home page declares for `service` (see `icon_links`),
/// its body read as UTF-8 with invalid sequences replaced.
pub fn icons_from_page(body: &[u8], page: &WebUrl, service: &WebUrl) -> (r: Vec<WebUrl>)
    ensures
        urls_view(r@) == page_icons(utf8_lossy(body@), page@, service@),
{
    let text = decode_lossy(body);
    icon_links(text.as_str(), page, service)
}


/// Every icon the page declares is tried, in its order, before any fallback; the
/// fallbacks that follow are `/favicon.ico`,
/// `/Content/Images/Icons/favicon-32x32.png` and `/web/favicon.ico` resolved
/// against the service URL, in that order, leaving out those that do not resolve.
pub proof fn lemma_declared_icons_first(declared: Seq<UrlView>, service: UrlView)
    ensures
        icon_candidates(declared, service).len() >= declared.len(),
        icon_candidates(declared, service).take(declared.len() as int) == declared,
        icon_candidates(declared, service).skip(declared.len() as int) == present(
            seq![
                joined_url(service, "/favicon.ico"@),
                joined_url(service, "/Content/Images/Icons/favicon-32x32.png"@),
                joined_url(service, "/web/favicon.ico"@),
            ],
        ),
{
    let fallbacks = fallback_paths().map_values(|p: Seq<char>| joined_url(service, p));
    assert(fallbacks =~= seq![
        joined_url(service, "/favicon.ico"@),
        joined_url(service, "/Content/Images/Icons/favicon-32x32.png"@),
        joined_url(service, "/web/favicon.ico"@),
    ]);
    let all = icon_candidates(declared, service);
    assert(all.take(declared.len() as int) =~= declared);
    assert(all.skip(declared.len() as int) =~= present(fallbacks));
}

} // verus!
