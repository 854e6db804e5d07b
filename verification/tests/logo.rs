use webdash::html::{icon_from_tag, icon_links};
use webdash::logo::{
    icons_from_page, image_mime, logo_candidates, logo_from_bytes, logo_reply, next_logo_step, page_may_declare_icons, LimitedBody, Logo,
    LogoStep, MAX_ICON_BYTES,
};
use webdash::weburl::WebUrl;

fn url(s: &str) -> WebUrl {
    WebUrl::parse(s).unwrap()
}

fn texts(urls: &[WebUrl]) -> Vec<&str> {
    urls.iter().map(|u| u.as_str()).collect()
}

#[test]
fn resolves_icon_from_redirected_homepage() {
    let service = url("https://jellyfin.example.com/");
    let page = url("https://jellyfin.example.com/web/");
    let html = r#"<link rel="shortcut icon" href="favicon.123.ico">"#;
    let icons = icon_links(html, &page, &service);
    assert_eq!(texts(&icons), ["https://jellyfin.example.com/web/favicon.123.ico"]);
}

#[test]
fn extracts_declared_icons_in_order_without_duplicates() {
    let service = url("https://example.com/");
    let page = url("https://example.com/app/");
    let html = r#"
            <link HREF='/favicon.ico' REL='ICON'>
            <link rel="apple-touch-icon" href="touch.png">
            <link rel="shortcut icon" href="/favicon.ico">
            <link rel="stylesheet" href="style.css">
            <link rel="iconography" href="not-an-icon.png">
        "#;

    let icons = icon_links(html, &page, &service);
    assert_eq!(
        texts(&icons),
        ["https://example.com/favicon.ico", "https://example.com/app/touch.png"]
    );
}

#[test]
fn ignores_icons_outside_the_service_origin() {
    let service = url("https://example.com/");
    let html = r#"
            <link rel="icon" href="https://other.example.com/icon.png">
            <link rel="icon" href="//example.com:8443/icon.png">
            <link rel="icon" href="javascript:alert(1)">
            <link rel="icon" href="/safe.png">
        "#;

    let icons = icon_links(html, &service, &service);
    assert_eq!(texts(&icons), ["https://example.com/safe.png"]);
}

#[test]
fn rejects_non_image_responses() {
    assert_eq!(image_mime(b"<html>login</html>"), None);
    assert_eq!(image_mime(b"\x89PNG\r\n\x1a\nrest"), Some("image/png"));
}

#[test]
fn recognises_each_image_kind() {
    assert_eq!(image_mime(b"\x00\x00\x01\x00...."), Some("image/x-icon"));
    assert_eq!(image_mime(b"\xff\xd8\xff\xe0"), Some("image/jpeg"));
    assert_eq!(image_mime(b"GIF87a..."), Some("image/gif"));
    assert_eq!(image_mime(b"GIF89a..."), Some("image/gif"));
    assert_eq!(image_mime(b"RIFF\x10\x00\x00\x00WEBPVP8 "), Some("image/webp"));
    assert_eq!(image_mime(b"RIFF\x10\x00\x00\x00WAVE"), None);
    assert_eq!(image_mime(b"RIFF\x10\x00\x00\x00WEB"), None);
    assert_eq!(image_mime(b""), None);
    assert_eq!(image_mime(b"\x89PNG\r\n\x1a"), None);
}

#[test]
fn link_tags_need_a_word_boundary_and_a_closing_bracket() {
    let service = url("https://example.com/");
    let html = r#"<linked rel="icon" href="/a.png"><LINK rel="icon" href="/b.png"><link rel="icon" href="/c.png""#;
    let icons = icon_links(html, &service, &service);
    assert_eq!(texts(&icons), ["https://example.com/b.png"]);
}

#[test]
fn later_rel_and_href_attributes_win() {
    let service = url("https://example.com/");
    let tag = r#"<link rel="stylesheet" href="/a.css" rel="icon" href="/b.png">"#;
    let icon = icon_from_tag(tag, &service, &service).unwrap();
    assert_eq!(icon.as_str(), "https://example.com/b.png");
    let tag = r#"<link rel="icon" rel="stylesheet" href="/b.png">"#;
    assert!(icon_from_tag(tag, &service, &service).is_none());
    let tag = r#"<link rel="icon">"#;
    assert!(icon_from_tag(tag, &service, &service).is_none());
}

#[test]
fn attribute_quotes_may_differ_and_spaces_surround_equals() {
    let service = url("https://example.com/");
    let tag = "<link rel = 'Apple-Touch-Icon\" href\t=\n\"/t.png'>";
    let icon = icon_from_tag(tag, &service, &service).unwrap();
    assert_eq!(icon.as_str(), "https://example.com/t.png");
}

#[test]
fn candidates_follow_declared_icons_with_fallbacks() {
    let service = url("https://example.com/app");
    let declared = vec![url("https://example.com/x.png")];
    let all = logo_candidates(declared, &service);
    assert_eq!(
        texts(&all),
        [
            "https://example.com/x.png",
            "https://example.com/favicon.ico",
            "https://example.com/Content/Images/Icons/favicon-32x32.png",
            "https://example.com/web/favicon.ico",
        ]
    );
}

#[test]
fn home_page_must_keep_the_service_origin() {
    let service = url("https://example.com/");
    assert!(page_may_declare_icons(true, &url("https://example.com/web/"), &service));
    assert!(!page_may_declare_icons(false, &url("https://example.com/web/"), &service));
    assert!(!page_may_declare_icons(true, &url("https://login.example.com/"), &service));
    assert!(!page_may_declare_icons(true, &url("http://example.com/"), &service));
}

#[test]
fn limited_body_refuses_what_exceeds_the_limit() {
    assert!(LimitedBody::start(Some(11), 10).is_none());
    let mut body = LimitedBody::start(Some(10), 10).unwrap();
    assert!(body.push_chunk(b"hello"));
    assert!(body.push_chunk(b"world"));
    assert!(!body.push_chunk(b"!"));
    assert_eq!(body.into_bytes(), b"helloworld".to_vec());
    let mut body = LimitedBody::start(None, MAX_ICON_BYTES).unwrap();
    assert!(body.push_chunk(&[0u8; 262144]));
    assert!(!body.push_chunk(&[0u8; 1]));
}

#[test]
fn logo_reply_serves_images_and_misses() {
    let logo = logo_from_bytes(b"GIF89a!".to_vec()).unwrap();
    assert_eq!(logo.mime, "image/gif");
    let reply = logo_reply(Some(logo));
    assert_eq!(reply.status, 200);
    assert_eq!(reply.content_type, Some("image/gif"));
    assert_eq!(reply.cache_control, "public, max-age=86400");
    assert_eq!(reply.body, b"GIF89a!".to_vec());
    let reply = logo_reply(None);
    assert_eq!(reply.status, 404);
    assert_eq!(reply.content_type, None);
    assert_eq!(reply.cache_control, "public, max-age=60");
    assert!(reply.body.is_empty());
    assert!(logo_from_bytes(b"<html>".to_vec()).is_none());
    let _unused: Option<Logo> = None;
}

#[test]
fn page_bodies_are_read_as_lossy_utf8() {
    let service = url("https://example.com/");
    let body = b"<link rel=\"icon\" href=\"/\xffa.png\">";
    let icons = icons_from_page(body, &service, &service);
    assert_eq!(texts(&icons), ["https://example.com/%EF%BF%BDa.png"]);
}

#[test]
fn trailing_bytes_keep_the_image_type() {
    let png = b"\x89PNG\r\n\x1a\n".to_vec();
    assert_eq!(image_mime(&png), Some("image/png"));
    let mut longer = png.clone();
    longer.extend_from_slice(b"\x00\x00\x01\x00more");
    assert_eq!(image_mime(&longer), Some("image/png"));
    let webp = b"RIFF\x10\x00\x00\x00WEBPVP8 ".to_vec();
    assert_eq!(image_mime(&webp), Some("image/webp"));
    assert_eq!(image_mime(&webp[..11]), None);
}

#[test]
fn logo_search_stops_at_the_first_image() {
    assert!(matches!(next_logo_step(3, 0, None), LogoStep::Fetch(0)));
    assert!(matches!(next_logo_step(3, 1, None), LogoStep::Fetch(1)));
    assert!(matches!(next_logo_step(3, 3, None), LogoStep::Done(None)));
    assert!(matches!(next_logo_step(0, 0, None), LogoStep::Done(None)));
    let found = Logo { bytes: vec![0xff, 0xd8, 0xff], mime: "image/jpeg" };
    match next_logo_step(3, 2, Some(found)) {
        LogoStep::Done(Some(logo)) => assert_eq!(logo.mime, "image/jpeg"),
        _ => panic!("the first image ends the search"),
    }
}
