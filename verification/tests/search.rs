use webdash::search::{favicon_missing, fuzzy_score, open_search, rank_services, shortcut_for, SearchState, Shortcut};
use webdash::service::Service;

fn service(name: &str, group: &str) -> Service {
    Service { name: name.into(), url: format!("https://{}.example.com", name), group: group.into(), description: String::new() }
}

#[test]
fn ranks_contiguous_matches_first() {
    assert!(fuzzy_score("jf", "Jellyfin").is_some());
    assert!(fuzzy_score("son", "Sonarr") > fuzzy_score("son", "Service One"));
    assert_eq!(fuzzy_score("xyz", "Sonarr"), None);
}

#[test]
fn fuzzy_scores_have_exact_values() {
    assert_eq!(fuzzy_score("", "anything"), Some(0));
    assert_eq!(fuzzy_score("  ", ""), Some(0));
    assert_eq!(fuzzy_score("son", "Sonarr"), Some(48));
    assert_eq!(fuzzy_score("son", "Service One"), Some(44));
    assert_eq!(fuzzy_score("S O", "Service One"), Some(29));
    assert_eq!(fuzzy_score("b", "ab"), Some(9));
    assert_eq!(fuzzy_score("ba", "ab"), None);
}

#[test]
fn ranking_orders_by_score_then_name_and_keeps_twelve() {
    let services = vec![service("Service One", "Services"), service("Sonarr", "Media"), service("Radarr", "Media")];
    let ranked = rank_services("son", &services).unwrap();
    assert_eq!(ranked.iter().map(|s| s.name.as_str()).collect::<Vec<_>>(), ["Sonarr", "Service One"]);

    let many: Vec<Service> = (0..20).map(|i| service(&format!("app{:02}", 19 - i), "Services")).collect();
    let ranked = rank_services("", &many).unwrap();
    assert_eq!(ranked.len(), 12);
    assert_eq!(ranked[0].name, "app00");
    assert_eq!(ranked[11].name, "app11");

    let twins = vec![service("Same", "A"), service("Same", "B")];
    let ranked = rank_services("same", &twins).unwrap();
    assert_eq!(ranked.iter().map(|s| s.group.as_str()).collect::<Vec<_>>(), ["A", "B"]);
    assert!(rank_services("zzz", &twins).unwrap().is_empty());
}

#[test]
fn search_keys_move_and_open() {
    let mut state = SearchState::new();
    open_search(&mut state);
    assert!(state.open);
    state.set_query("so".to_string());
    let out = state.on_key("ArrowDown", 3);
    assert!(out.prevent_default);
    assert_eq!(state.selected, 1);
    state.on_key("ArrowUp", 3);
    state.on_key("ArrowUp", 3);
    assert_eq!(state.selected, 2);
    assert_eq!(state.on_key("Enter", 3).navigate_to, Some(2));
    state.selected = 7;
    assert_eq!(state.on_key("Enter", 3).navigate_to, Some(2));
    let out = state.on_key("ArrowDown", 0);
    assert!(!out.prevent_default);
    assert_eq!(state.selected, 7);
    assert_eq!(state.on_key("Enter", 0).navigate_to, None);
    let out = state.on_key("Escape", 0);
    assert!(!out.prevent_default);
    assert!(!state.open);
    state.set_query("x".to_string());
    assert_eq!(state.selected, 0);
    assert_eq!(state.query, "x");
}

#[test]
fn shortcuts_open_and_close_the_panel() {
    assert!(matches!(shortcut_for("k", true, false, false, false), Shortcut::Open));
    assert!(matches!(shortcut_for("K", false, true, false, true), Shortcut::Open));
    assert!(matches!(shortcut_for("k", false, false, false, false), Shortcut::Ignore));
    assert!(matches!(shortcut_for("/", false, false, false, false), Shortcut::Open));
    assert!(matches!(shortcut_for("/", false, false, false, true), Shortcut::Ignore));
    assert!(matches!(shortcut_for("/", false, false, true, false), Shortcut::Ignore));
    assert!(matches!(shortcut_for("Escape", false, false, false, false), Shortcut::Close));
    assert!(matches!(shortcut_for("a", false, false, false, false), Shortcut::Ignore));
    assert!(favicon_missing(true, 0));
    assert!(!favicon_missing(false, 0));
    assert!(!favicon_missing(true, 16));
}

#[test]
fn appending_to_a_candidate_keeps_its_score() {
    assert_eq!(fuzzy_score("son", "Sonarr"), Some(48));
    assert_eq!(fuzzy_score("son", "Sonarr Media"), Some(48));
    assert_eq!(fuzzy_score("jf", "Jellyfin"), fuzzy_score("jf", "Jellyfin Media"));
}

#[test]
fn ascii_case_and_query_whitespace_do_not_matter() {
    assert_eq!(fuzzy_score("SON", "SONARR"), fuzzy_score("son", "Sonarr"));
    assert_eq!(fuzzy_score("s o n", "Sonarr"), Some(48));
    assert_eq!(fuzzy_score("JF", "JELLYFIN"), fuzzy_score("jf", "jellyfin"));
}
