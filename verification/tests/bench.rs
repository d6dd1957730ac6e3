use crabbucket::bench::{page_body, LOREM};
use crabbucket::content::split;

#[test]
fn a_synthetic_page_is_a_content_file_like_any_other() {
    let body = page_body(7);
    let (frontmatter, rest, line) = split(&body, "page-7.md").unwrap();
    assert_eq!(frontmatter, "title = \"Page 7\"\ndescription = \"Page 7.\"");
    assert!(rest.starts_with("# Page 7\n\n"));
    assert_eq!(line, 6);
}

#[test]
fn a_synthetic_page_has_four_sections_with_code_and_a_table() {
    let body = page_body(12);
    assert_eq!(body.matches("## Heading ").count(), 4);
    assert!(body.contains("pub fn heading_3(page: usize) -> String {\n    format!(\"{page}\")\n}"));
    assert_eq!(body.matches(LOREM).count(), 5);
    assert!(body.ends_with("| Column | Column |\n|---|---|\n| a | b |\n| c | d |\n\n"));
}

#[test]
fn every_generator_gets_the_same_pages_and_its_own_configuration() {
    let files = crabbucket::bench::bench_files(2);
    assert_eq!(files.len(), 24 + 26 + 27);
    assert_eq!(files[0].0, "crabbucket/content/section-0/page-0.md");
    assert_eq!(files[1].0, "crabbucket/content/section-1/page-1.md");
    assert_eq!(files[1].1, page_body(1));
    assert_eq!(files[2], ("crabbucket/content/index.md".to_string(), page_body(0)));
    assert_eq!(files[3].0, "crabbucket/content/section-0/index.md");
    assert_eq!(files[23].0, "crabbucket/site.toml");
    assert_eq!(files[24 + 2].0, "hugo/content/_index.md");
    assert_eq!(files[24 + 23].0, "hugo/layouts/_default/single.html");
    assert_eq!(files[24 + 26 + 26].0, "zola/config.toml");
    assert!(files[24 + 26 + 26].1.contains("[markdown.highlighting]"));
}

#[test]
fn a_page_past_the_twentieth_goes_back_to_the_first_section() {
    let files = crabbucket::bench::bench_files(21);
    assert_eq!(files[20].0, "crabbucket/content/section-0/page-20.md");
    let config = crabbucket::bench::bench_config("hugo");
    assert_eq!(config.len(), 3);
    assert_eq!(config[2], ("hugo.toml".to_string(), "baseURL = \"/\"\ntitle = \"Benchmark\"\n".to_string()));
}
