use crabbucket::config::Config;
use crabbucket::content::{Collection, Entry};
use crabbucket::site::{join_path, mark_current, navigation, page_path};
use crabbucket::theme::PageMeta;

#[test]
fn every_route_becomes_a_directory_with_an_index() {
    let out = "dist";
    assert_eq!(page_path(out, ""), "dist/index.html");
    assert_eq!(page_path(out, "about"), "dist/about/index.html");
    assert_eq!(page_path(out, "docs/intro"), "dist/docs/intro/index.html");
}

#[test]
fn joining_onto_a_directory_adds_one_separator() {
    assert_eq!(join_path("dist/", "a"), "dist/a");
    assert_eq!(join_path("", "a"), "a");
    assert_eq!(join_path("dist", "/abs"), "/abs");
}

fn page(title: &str, order: Option<u32>, label: Option<&str>, draft: bool) -> PageMeta {
    PageMeta {
        title: title.to_string(),
        description: None,
        nav_order: order,
        nav_label: label.map(str::to_string),
        draft,
    }
}

fn entry(route: &str, meta: PageMeta) -> Entry<PageMeta> {
    Entry {
        meta,
        route: route.to_string(),
        path: format!("content/{route}.md"),
        html: String::new(),
        headings: Vec::new(),
    }
}

#[test]
fn a_label_falls_back_to_the_title() {
    assert_eq!(page("Title", None, None, false).label(), "Title");
    assert_eq!(page("Title", None, Some("Short"), false).label(), "Short");
}

#[test]
fn navigation_orders_by_position_then_label_and_skips_the_rest() {
    let mut config = Config::blank();
    config.set_base("/repo");
    let content = Collection::new(vec![
        entry("", page("Home", Some(1), None, false)),
        entry("b", page("Beta", Some(2), None, false)),
        entry("a", page("Zed", Some(2), Some("Alpha"), false)),
        entry("draft", page("Draft", Some(0), None, true)),
        entry("hidden", page("Hidden", None, None, false)),
        entry("first", page("First", Some(0), None, false)),
    ]);
    let nav = navigation(&config, &content);
    let labels: Vec<&str> = nav.iter().map(|n| n.label.as_str()).collect();
    assert_eq!(labels, ["First", "Home", "Alpha", "Beta"]);
    let hrefs: Vec<&str> = nav.iter().map(|n| n.href.as_str()).collect();
    assert_eq!(hrefs, ["/repo/first/", "/repo/", "/repo/a/", "/repo/b/"]);
    assert!(nav.iter().all(|n| !n.current));

    let marked = mark_current(&config, &nav, "/a/");
    let current: Vec<bool> = marked.iter().map(|n| n.current).collect();
    assert_eq!(current, [false, false, true, false]);
    assert_eq!(marked[2].label, "Alpha");
}

#[test]
fn pages_that_tie_keep_their_route_order() {
    let config = Config::blank();
    let content = Collection::new(vec![
        entry("y", page("Same", Some(1), None, false)),
        entry("x", page("Same", Some(1), None, false)),
    ]);
    let nav = navigation(&config, &content);
    let hrefs: Vec<&str> = nav.iter().map(|n| n.href.as_str()).collect();
    assert_eq!(hrefs, ["/x/", "/y/"]);
}
