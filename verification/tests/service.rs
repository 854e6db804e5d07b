use webdash::index::LogoIndex;
use webdash::service::{
    default_group, partition_services, service_from_labels, services_from_containers, valid_service, is_web_link, Service,
};

fn service(name: &str, url: &str, group: &str) -> Service {
    Service { name: name.into(), url: url.into(), group: group.into(), description: String::new() }
}

#[test]
fn rejects_non_web_urls() {
    let mut service = Service {
        name: "Service".into(),
        url: "javascript:alert(1)".into(),
        group: default_group(),
        description: String::new(),
    };

    assert!(!valid_service(&service));
    service.url = "http://example.com:invalid".into();
    assert!(!valid_service(&service));
    service.url = "https://example.com".into();
    assert!(valid_service(&service));
}

#[test]
fn blank_names_are_rejected() {
    assert!(!valid_service(&service(" \t\u{3000}", "https://example.com", "Services")));
    assert!(!valid_service(&service("", "https://example.com", "Services")));
    assert!(valid_service(&service(" x ", "http://example.com", "Services")));
    assert!(!valid_service(&service("x", "ftp://example.com", "Services")));
}

#[test]
fn default_group_is_services() {
    assert_eq!(default_group(), "Services");
}

#[test]
fn logo_path_is_url_safe_base64_without_padding() {
    assert_eq!(service("a", "https://example.com", "g").logo_path(), "/logo/aHR0cHM6Ly9leGFtcGxlLmNvbQ");
    assert_eq!(service("a", "a", "g").logo_path(), "/logo/YQ");
    assert_eq!(service("a", "ab", "g").logo_path(), "/logo/YWI");
    assert_eq!(service("a", "abc", "g").logo_path(), "/logo/YWJj");
    assert_eq!(service("a", "\u{ff}\u{fe}", "g").logo_path(), "/logo/w7_Dvg");
    assert_eq!(service("a", "", "g").logo_path(), "/logo/");
}

#[test]
fn logo_lookup_follows_the_last_render() {
    let example = service("Example", "https://example.com", "Services");
    let other = service("Other", "https://other.example.com", "Media");
    let key = example.logo_path();
    let key = key.strip_prefix("/logo/").unwrap().to_string();

    let empty = LogoIndex::new();
    assert!(empty.logo_url(&key).is_none());
    let index = LogoIndex::from_services(&vec![other.clone(), example.clone()]);
    assert_eq!(index.logo_url(&key).as_deref(), Some("https://example.com"));
    assert!(index.logo_url("unknown").is_none());
    let later = LogoIndex::from_services(&vec![other]);
    assert!(later.logo_url(&key).is_none());
}

fn labels(pairs: &[(&str, &str)]) -> Vec<(String, String)> {
    pairs.iter().map(|(k, v)| (k.to_string(), v.to_string())).collect()
}

#[test]
fn containers_describe_services_by_labels() {
    let full = labels(&[
        ("dashboard.description", "Media server"),
        ("dashboard.group", "Media"),
        ("dashboard.name", "Jellyfin"),
        ("dashboard.url", "https://jellyfin.example.com"),
    ]);
    let s = service_from_labels(&full).unwrap();
    assert_eq!(s.name, "Jellyfin");
    assert_eq!(s.group, "Media");
    assert_eq!(s.description, "Media server");
    let bare = labels(&[("dashboard.name", "Jellyfin"), ("dashboard.url", "https://jellyfin.example.com")]);
    let s = service_from_labels(&bare).unwrap();
    assert_eq!(s.group, "Services");
    assert_eq!(s.description, "");
    assert!(service_from_labels(&labels(&[("other", "ignore")])).is_none());
    assert!(service_from_labels(&labels(&[("dashboard.name", "x")])).is_none());

    let found = services_from_containers(&vec![
        bare,
        labels(&[("other", "ignore")]),
        labels(&[("dashboard.name", "Bad"), ("dashboard.url", "javascript:alert(1)")]),
    ]);
    assert_eq!(found.len(), 1);
    assert_eq!(found[0].name, "Jellyfin");
}

#[test]
fn invalid_extra_services_are_set_aside_in_order() {
    let (kept, rejected) = partition_services(vec![
        service("a", "https://a.example", "g"),
        service("", "https://b.example", "g"),
        service("c", "mailto:c@example.com", "g"),
        service("d", "http://d.example", "g"),
    ]);
    assert_eq!(kept.iter().map(|s| s.name.as_str()).collect::<Vec<_>>(), ["a", "d"]);
    assert_eq!(rejected.iter().map(|s| s.name.as_str()).collect::<Vec<_>>(), ["", "c"]);
}

#[test]
fn web_links_need_http_and_a_host() {
    let parse = |s: &str| webdash::weburl::WebUrl::parse(s).unwrap();
    assert!(is_web_link(&parse("https://example.com")));
    assert!(is_web_link(&parse("http://10.0.0.2:8096/web/")));
    assert!(!is_web_link(&parse("ftp://example.com")));
    assert!(!is_web_link(&parse("mailto:someone@example.com")));
    assert!(!is_web_link(&parse("javascript:alert(1)")));
}
