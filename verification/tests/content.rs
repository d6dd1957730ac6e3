use crabbucket::content::{split, Collection, Entry};
use crabbucket::error::Error;
use crabbucket::markdown::Heading;

#[test]
fn frontmatter_and_body_come_apart() {
    let text = "+++\ntitle = \"Hi\"\n+++\n\n# Heading\n";
    let (frontmatter, body, line) = split(text, "t.md").unwrap();
    assert_eq!(frontmatter, "title = \"Hi\"");
    assert_eq!(body, "# Heading\n");
    assert_eq!(line, 5, "the body starts on file line 5");
}

#[test]
fn a_body_containing_a_fence_is_not_cut_short() {
    let text = "+++\ntitle = \"Hi\"\n+++\nbefore\n+++\nafter\n";
    let (frontmatter, body, _) = split(text, "t.md").unwrap();
    assert_eq!(frontmatter, "title = \"Hi\"");
    assert_eq!(body, "before\n+++\nafter\n");
}

#[test]
fn a_file_without_frontmatter_is_an_error_naming_the_file() {
    let err = split("# Heading\n", "t.md").unwrap_err();
    assert!(matches!(err, Error::MissingFrontmatter { .. }));
    assert!(err.to_string().starts_with("t.md:"));
}

#[test]
fn an_unterminated_block_is_an_error_naming_the_file() {
    let err = split("+++\ntitle = \"Hi\"\n", "t.md").unwrap_err();
    assert!(matches!(err, Error::UnterminatedFrontmatter { .. }));
}

#[test]
fn windows_line_endings_split_the_same_way() {
    let text = "+++\r\ntitle = \"Hi\"\r\n+++\r\n\r\n# Heading\r\n";
    let (frontmatter, body, line) = split(text, "t.md").unwrap();
    assert_eq!(frontmatter, "title = \"Hi\"\r");
    assert_eq!(body, "# Heading\r\n");
    assert_eq!(line, 5);
}

#[test]
fn a_fence_without_its_line_ending_is_no_frontmatter() {
    let err = split("+++title = 1\n+++\n", "a.md").unwrap_err();
    assert!(matches!(err, Error::MissingFrontmatter { .. }));
}

#[test]
fn an_empty_body_starts_after_the_closing_fence() {
    let (frontmatter, body, line) = split("+++\n\n+++", "a.md").unwrap();
    assert_eq!(frontmatter, "");
    assert_eq!(body, "");
    assert_eq!(line, 3);
    let err = split("+++\n+++", "a.md").unwrap_err();
    assert!(matches!(err, Error::UnterminatedFrontmatter { .. }));
}

fn entry(route: &str, ids: &[&str]) -> Entry<u32> {
    Entry {
        meta: 0,
        route: route.to_string(),
        path: format!("content/{route}.md"),
        html: String::new(),
        headings: ids
            .iter()
            .map(|id| Heading {
                id: id.to_string(),
                level: 2,
                text: id.to_uppercase(),
            })
            .collect(),
    }
}

#[test]
fn a_collection_is_in_route_order_whatever_order_it_was_given() {
    let c = Collection::new(vec![
        entry("docs/intro", &[]),
        entry("", &[]),
        entry("about", &[]),
        entry("docs", &[]),
    ]);
    let routes: Vec<&str> = c.entries().iter().map(|e| e.route.as_str()).collect();
    assert_eq!(routes, ["", "about", "docs", "docs/intro"]);
    assert_eq!(c.len(), 4);
    assert!(!c.is_empty());
    assert!(Collection::<u32>::new(Vec::new()).is_empty());
}

#[test]
fn anchors_are_each_heading_id_once_in_order() {
    let e = entry("a", &["usage", "install", "usage", "faq"]);
    assert_eq!(e.anchors(), ["faq", "install", "usage"]);
}

#[test]
fn entries_with_the_same_route_keep_the_order_they_came_in() {
    let mut first = entry("docs", &[]);
    first.meta = 1;
    let mut second = entry("docs", &[]);
    second.meta = 2;
    let c = Collection::new(vec![entry("z", &[]), first, entry("a", &[]), second]);
    let metas: Vec<(&str, u32)> = c.entries().iter().map(|e| (e.route.as_str(), e.meta)).collect();
    assert_eq!(metas, [("a", 0), ("docs", 1), ("docs", 2), ("z", 0)]);
}
