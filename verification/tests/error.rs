use crabbucket::directive::Fault;
use crabbucket::error::{Error, Snippet};
use crabbucket::links::{DeadLink, Reason};

#[test]
fn a_snippet_points_at_the_right_column() {
    let source = "title = \"Hi\"\norder = nope\n";
    let at = Snippet::new(source, 21..25, 0);
    assert_eq!(at.line, 2);
    assert_eq!(at.column, 9);
    assert_eq!(at.text, "order = nope");
    assert_eq!(at.width, 4);
}

#[test]
fn line_numbers_are_file_absolute_not_frontmatter_relative() {
    let source = "ttile = \"Hi\"\n";
    let at = Snippet::new(source, 0..5, 1);
    assert_eq!(at.line, 2);
}

#[test]
fn the_frame_puts_the_caret_under_the_span() {
    let err = Error::Schema {
        path: "content/index.md".to_string(),
        message: "unknown field `ttile`".to_string(),
        snippet: Some(Snippet::new("ttile = \"Hi\"\n", 0..5, 1)),
    };

    let rendered = err.render(false);
    let lines: Vec<&str> = rendered.lines().collect();
    assert_eq!(lines[0], "content/index.md:2:1: unknown field `ttile`");
    assert_eq!(lines[1], "  |");
    assert_eq!(lines[2], "2 | ttile = \"Hi\"");
    assert_eq!(lines[3], "  | ^^^^^");
}

#[test]
fn colour_is_a_parameter_and_is_off_by_default() {
    let err = Error::DeadLinks(Vec::new());
    assert!(!err.render(false).contains('\x1b'));
    assert!(err.render(true).contains('\x1b'));
    assert_eq!(err.to_string(), err.render(false));
}

#[test]
fn a_span_past_the_end_of_the_line_does_not_overrun() {
    let at = Snippet::new("a = 1\n", 0..99, 0);
    assert_eq!(at.text, "a = 1");
    assert!(at.width <= at.text.len());
}

#[test]
fn a_crlf_line_is_shown_without_its_carriage_return() {
    let at = Snippet::new("a = 1\r\nb = é\r\n", 11..12, 0);
    assert_eq!(at.line, 2);
    assert_eq!(at.text, "b = é");
    assert_eq!(at.column, 5);
    assert_eq!(at.width, 1);
}

#[test]
fn a_directive_fault_points_at_its_whole_line() {
    let fault = Fault { line: 3, message: "bad".to_string() };
    let err = Error::directive("content/a.md", &fault, "x\n\n:::callout{\n", 4);
    match &err {
        Error::Schema { snippet: Some(at), message, .. } => {
            assert_eq!(at.line, 7);
            assert_eq!(at.column, 1);
            assert_eq!(at.text, ":::callout{");
            assert_eq!(at.width, 11);
            assert_eq!(message, "bad");
        }
        other => panic!("unexpected {other:?}"),
    }
    assert_eq!(err.path(), Some("content/a.md"));
}

#[test]
fn every_kind_of_error_names_its_file() {
    assert_eq!(
        Error::io("dist/x", "permission denied").render(false),
        "dist/x: permission denied"
    );
    assert_eq!(
        Error::MissingFrontmatter { path: "t.md".into() }.render(false),
        "t.md: expected a `+++` frontmatter block at the top of the file"
    );
    assert_eq!(
        Error::UnterminatedFrontmatter { path: "t.md".into() }.render(false),
        "t.md: unterminated `+++` frontmatter block"
    );
    assert_eq!(
        Error::Undated { path: "n.md".into(), collection: "notes".into() }.render(false),
        "n.md: a feed is configured for `notes`, so this page needs a `date`"
    );
    assert_eq!(
        Error::schema("s.toml", "missing field `title`", None, "", 0).render(false),
        "s.toml: missing field `title`"
    );
}

#[test]
fn dead_links_are_all_listed_with_their_pages() {
    let err = Error::DeadLinks(vec![
        DeadLink {
            source: "content/a.md".into(),
            href: "/gone/".into(),
            target: "/gone/".into(),
            reason: Reason::NoSuchRoute,
        },
        DeadLink {
            source: "content/b.md".into(),
            href: "/x.png".into(),
            target: "/x.png".into(),
            reason: Reason::NoSuchAsset,
        },
    ]);
    assert_eq!(
        err.render(false),
        "2 dead internal links:\n  content/a.md: /gone/ -> /gone/ is not a route\n  content/b.md: /x.png -> /x.png is not a file this build writes"
    );
    assert_eq!(err.path(), Some("content/a.md"));
    assert_eq!(Error::DeadLinks(Vec::new()).path(), None);
}
