use crabbucket::directive::scan;
use crabbucket::markdown::{render_text, to_html};

#[test]
fn headings_and_emphasis_render() {
    assert_eq!(to_html("# Hi\n"), "<h1>Hi</h1>\n");
    assert!(to_html("*loud*").contains("<em>loud</em>"));
}

#[test]
fn tables_are_enabled() {
    let html = to_html("| a | b |\n|---|---|\n| 1 | 2 |\n");
    assert!(html.contains("<table>"), "got {html}");
}

#[test]
fn only_the_markdown_runs_are_rendered_here() {
    let blocks = scan("# Top\n:::callout\ninside\n:::\nafter *this*\n").unwrap();
    let rendered = render_text(&blocks);
    assert_eq!(rendered.len(), blocks.len());
    assert_eq!(rendered[0].as_deref(), Some("<h1>Top</h1>\n"));
    assert_eq!(rendered[1], None);
    assert_eq!(rendered[2].as_deref(), Some("<p>after <em>this</em></p>\n"));
}
