use crabbucket::directive::{Block, scan};

fn text(block: &Block) -> &str {
    match block {
        Block::Text { source, .. } => source,
        Block::Directive { name, .. } => panic!("expected text, got directive `{name}`"),
    }
}

#[test]
fn a_page_with_no_directives_is_one_block() {
    let blocks = scan("# Hi\n\nBody.\n").unwrap();
    assert_eq!(blocks.len(), 1);
    assert_eq!(text(&blocks[0]), "# Hi\n\nBody.");
}

#[test]
fn a_directive_becomes_its_own_block() {
    let blocks = scan("Before\n\n:::callout{kind = \"warn\"}\nInside\n:::\n\nAfter\n").unwrap();
    assert_eq!(blocks.len(), 3);
    assert_eq!(text(&blocks[0]).trim(), "Before");

    let Block::Directive { name, attrs, body, line } = &blocks[1] else {
        panic!("expected a directive");
    };
    assert_eq!(name, "callout");
    assert_eq!(attrs.get("kind").and_then(|v| v.as_str()), Some("warn"));
    assert_eq!(*line, 3);
    assert_eq!(text(&body[0]).trim(), "Inside");

    assert_eq!(text(&blocks[2]).trim(), "After");
}

#[test]
fn a_directive_inside_a_code_fence_is_left_alone() {
    let source = "```markdown\n:::callout{kind = \"warn\"}\nnot a directive\n:::\n```\n";
    let blocks = scan(source).unwrap();
    assert_eq!(blocks.len(), 1, "the fence was not respected: {blocks:?}");
    assert!(text(&blocks[0]).contains(":::callout"));
}

#[test]
fn tildes_fence_too_and_a_longer_fence_is_needed_to_close_one() {
    let source = "~~~~\n```\n:::callout\n~~~~\n";
    let blocks = scan(source).unwrap();
    assert_eq!(blocks.len(), 1);
}

#[test]
fn directives_nest() {
    let source = ":::callout{kind = \"note\"}\n:::callout{kind = \"warn\"}\ndeep\n:::\n:::\n";
    let blocks = scan(source).unwrap();

    let Block::Directive { body, .. } = &blocks[0] else {
        panic!("expected a directive")
    };
    let Block::Directive { name, .. } = &body[0] else {
        panic!("expected a nested one")
    };
    assert_eq!(name, "callout");
}

#[test]
fn a_directive_with_no_attributes_needs_no_braces() {
    let blocks = scan(":::callout\nhi\n:::\n").unwrap();
    let Block::Directive { attrs, .. } = &blocks[0] else {
        panic!("expected a directive")
    };
    assert_eq!(attrs, &toml::Table::new());
}

#[test]
fn an_unterminated_directive_names_the_line_it_opened_on() {
    let fault = scan("Before\n\n:::callout\nhi\n").unwrap_err();
    assert_eq!(fault.line, 3);
    assert!(fault.message.contains("unterminated"), "got {}", fault.message);
}

#[test]
fn a_stray_close_is_ordinary_text() {
    let blocks = scan("Before\n\n:::\n\nAfter\n").unwrap();
    assert_eq!(blocks.len(), 1);
    assert!(text(&blocks[0]).contains(":::"));
}

#[test]
fn something_that_is_not_a_directive_is_left_as_text() {
    for source in [":::1bad\nx\n:::\n", "::: not a name\n", ":::callout trailing\n"] {
        let blocks = scan(source).unwrap();
        assert!(
            matches!(blocks.first(), Some(Block::Text { .. })),
            "{source:?} was taken for a directive"
        );
    }
}

#[test]
fn bad_attributes_fail_at_the_directives_line() {
    let fault = scan("\n\n:::callout{kind = }\nx\n:::\n").unwrap_err();
    assert_eq!(fault.line, 3);
}

#[test]
fn line_endings_do_not_change_what_the_scanner_sees() {
    let unix = "a\n:::callout{kind = \"x\"}\nb\n:::\n";
    let windows = unix.replace('\n', "\r\n");
    let one = format!("{:?}", scan(unix).unwrap());
    let two = format!("{:?}", scan(&windows).unwrap());
    assert_eq!(one, two);
}

#[test]
fn an_unknown_directive_lists_the_ones_that_exist_in_order() {
    let names = vec!["callout".to_string(), "tabs".to_string()];
    assert_eq!(
        crabbucket::directive::unknown(&names, "calout"),
        "unknown directive `calout`, expected one of `callout`, `tabs`"
    );
}

#[test]
fn a_design_system_with_no_directives_says_so() {
    assert_eq!(
        crabbucket::directive::unknown(&[], "callout"),
        "unknown directive `callout`; this design system has none"
    );
}
