use webdash::page::{initial_letter, page_layout};
use webdash::service::Service;

fn service(name: &str, url: &str, group: &str) -> Service {
    Service { name: name.into(), url: url.into(), group: group.into(), description: "d".into() }
}

#[test]
fn sections_follow_group_rank_then_name() {
    let services = vec![
        service("zeta", "https://zeta.example.com/path", "Tools"),
        service("Beta", "http://beta.local:8080/x/y", "Media"),
        service("alpha", "alpha-without-scheme", "Services"),
        service("Gamma", "https://gamma.example.com", "Infrastructure"),
        service("Alpha", "https://alpha2.example.com", "Media"),
        service("ember", "https://ember.example.com", "Admin"),
    ];
    let layout = page_layout(&services);
    assert_eq!(layout.summary, "6 services \u{b7} 5 groups");
    let groups: Vec<&str> = layout.sections.iter().map(|s| s.group.as_str()).collect();
    assert_eq!(groups, ["Services", "Media", "Infrastructure", "Admin", "Tools"]);
    let media = &layout.sections[1];
    assert_eq!(media.count, 2);
    let names: Vec<&str> = media.rows.iter().map(|r| r.service.name.as_str()).collect();
    assert_eq!(names, ["Alpha", "Beta"]);
    assert_eq!(media.rows[1].address, "beta.local:8080");
    assert_eq!(media.rows[1].initial, "B");
    assert_eq!(layout.sections[0].rows[0].address, "alpha-without-scheme");
    assert_eq!(layout.sections[0].rows[0].initial, "A");
}

#[test]
fn equal_names_keep_input_order_and_empty_names_show_question_mark() {
    let services = vec![
        service("b", "https://1.example", "G"),
        service("B", "https://2.example", "G"),
        service("", "https://3.example", "G"),
        service("ß", "https://4.example", "G"),
    ];
    let layout = page_layout(&services);
    assert_eq!(layout.summary, "4 services \u{b7} 1 groups");
    let rows = &layout.sections[0].rows;
    let urls: Vec<&str> = rows.iter().map(|r| r.service.url.as_str()).collect();
    assert_eq!(urls, ["https://3.example", "https://1.example", "https://2.example", "https://4.example"]);
    assert_eq!(rows[0].initial, "?");
    assert_eq!(rows[3].initial, "SS");
}

#[test]
fn empty_page_has_no_sections() {
    let layout = page_layout(&Vec::new());
    assert_eq!(layout.summary, "0 services \u{b7} 0 groups");
    assert!(layout.sections.is_empty());
}

#[test]
fn row_initials_are_the_upper_case_first_letter() {
    assert_eq!(initial_letter("jellyfin"), "J");
    assert_eq!(initial_letter("Sonarr"), "S");
    assert_eq!(initial_letter(""), "?");
    assert_eq!(initial_letter("ß-bar"), "SS");
}
