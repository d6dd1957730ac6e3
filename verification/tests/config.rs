use crabbucket::config::{Config, normalize_base, root};
use crabbucket::feed::default_limit;

#[test]
fn a_base_with_a_doubled_slash_does_not_put_one_in_every_url() {
    assert_eq!(normalize_base("/my//repo/"), "/my/repo/");
    assert_eq!(normalize_base("///"), "/");
}

#[test]
fn slashes_and_spaces_are_trimmed_in_any_order() {
    for given in [" / repo / ", "repo /", "/ repo", " //repo// "] {
        assert_eq!(normalize_base(given), "/repo/", "for input {given:?}");
    }
}

#[test]
fn every_spelling_of_a_base_path_normalizes_the_same_way() {
    for given in ["repo", "/repo", "repo/", "/repo/", " /repo/ "] {
        assert_eq!(normalize_base(given), "/repo/", "for input {given:?}");
    }
}

#[test]
fn an_empty_base_is_the_root() {
    for given in ["", "/", "   "] {
        assert_eq!(normalize_base(given), "/", "for input {given:?}");
    }
}

#[test]
fn normalising_a_base_twice_is_normalising_it_once_on_examples() {
    for given in ["", " a//b ", "x/ y", "//", "a b c/", "\t/r/\n"] {
        let once = normalize_base(given);
        assert_eq!(normalize_base(&once), once, "for input {given:?}");
        assert!(once.starts_with('/') && once.ends_with('/'));
    }
}

#[test]
fn slashes_and_spaces_around_a_base_do_not_change_it_on_examples() {
    for (before, after) in [("", ""), ("/ ", " /"), ("////", ""), (" ", "/ / ")] {
        assert_eq!(
            normalize_base(&format!("{before}repo-1{after}")),
            normalize_base("repo-1")
        );
    }
}

#[test]
fn a_blank_configuration_is_served_from_the_root() {
    let config = Config::blank();
    assert_eq!(config.base, "/");
    assert_eq!(root(), "/");
    assert!(!config.search);
    assert!(!config.router);
    assert!(config.url.is_none());
    assert!(config.feeds.is_empty());
    assert!(config.pages.is_empty());
}

#[test]
fn setting_the_base_normalises_it_and_touches_nothing_else() {
    let mut config = Config::blank();
    config.title = "Site".into();
    config.set_base("docs//");
    assert_eq!(config.base, "/docs/");
    assert_eq!(config.title, "Site");
}

#[test]
fn a_feed_carries_twenty_entries_unless_told_otherwise() {
    assert_eq!(default_limit(), 20);
}
