use crabbucket::routes::{generate, route_of, scan, variant, watch};

#[test]
fn a_path_below_the_root_is_a_route() {
    let root = "content";
    assert_eq!(route_of("content/index.md", root), "");
    assert_eq!(route_of("content/about.md", root), "about");
    assert_eq!(route_of("content/docs/intro.md", root), "docs/intro");
    assert_eq!(route_of("content/docs/index.md", root), "docs");
}

#[test]
fn a_path_outside_the_root_keeps_all_of_itself() {
    assert_eq!(route_of("other/page.md", "content"), "other/page");
    assert_eq!(route_of("content//a/./b.md", "content/"), "a/b");
    assert_eq!(route_of("content/.hidden", "content"), ".hidden");
    assert_eq!(route_of("content/a.b.md", "content"), "a.b");
}

#[test]
fn a_variant_name_is_the_route_in_camel_case() {
    assert_eq!(variant(""), "Index");
    assert_eq!(variant("about"), "About");
    assert_eq!(variant("docs/getting-started"), "DocsGettingStarted");
    assert_eq!(variant("a/b/c"), "ABC");
}

#[test]
fn a_route_that_would_not_be_an_identifier_becomes_one() {
    assert_eq!(variant("2026/notes"), "R2026Notes");
    assert_eq!(variant("docs/v1.0"), "DocsV10");
}

#[test]
fn routes_are_declared_in_path_order_with_the_root_first() {
    let routes = vec!["docs/routing".to_string(), String::new(), "about".to_string()];
    let module = generate(&routes).unwrap();

    let index = module.find("    Index,").expect("no Index");
    let about = module.find("    About,").expect("no About");
    let routing = module.find("    DocsRouting,").expect("no DocsRouting");

    assert!(index < about && about < routing, "declared out of order:\n{module}");
}

#[test]
fn the_generated_enum_carries_every_route_and_its_path() {
    let routes = vec![String::new(), "docs".to_string(), "docs/routing".to_string()];
    let module = generate(&routes).unwrap();

    assert!(module.contains("    Index,"), "got {module}");
    assert!(module.contains("    DocsRouting,"));
    assert!(module.contains("Route::Index => \"\","), "got {module}");
    assert!(module.contains("Route::DocsRouting => \"docs/routing\","));
    assert!(module.contains("pub const ALL: &'static [Route]"));
}

#[test]
fn every_variant_is_documented_with_the_url_it_stands_for() {
    let module = generate(&["docs/routing".to_string()]).unwrap();
    assert!(module.contains("/// `/docs/routing`"), "got {module}");
}

#[test]
fn two_routes_that_would_share_a_name_fail_rather_than_one_winning() {
    let routes = vec![
        "docs/getting-started".to_string(),
        "docs/getting/started".to_string(),
    ];
    let err = generate(&routes).unwrap_err();

    assert!(err.to_string().contains("DocsGettingStarted"), "got {}", err.to_string());
    assert!(err.to_string().contains("docs/getting-started"));
    assert!(err.to_string().contains("docs/getting/started"));
}

#[test]
fn an_empty_site_still_generates_something_that_compiles() {
    let module = generate(&[]).unwrap();
    assert!(module.contains("pub enum Route {"));
    assert!(
        module.contains("pub const ALL: &'static [Route] = &[\n    ];"),
        "got {module}"
    );
}

#[test]
fn the_content_directory_is_watched_as_well_as_the_files_in_it() {
    let found = vec![("about".to_string(), "content/about.md".to_string())];
    let lines = watch("content", &found);

    assert!(lines.contains("cargo::rerun-if-changed=content\n"), "got {lines}");
    assert!(lines.contains("cargo::rerun-if-changed=content/about.md\n"), "got {lines}");
}

#[test]
fn scanning_keeps_content_files_sorted_by_route() {
    let files: Vec<String> = [
        "content/docs/routing.md",
        "content/index.md",
        "content/logo.png",
        "content/about.md",
        "content/docs/index.md",
    ]
    .iter()
    .map(|f| f.to_string())
    .collect();
    let found = scan("content", &files);
    let routes: Vec<&str> = found.iter().map(|(r, _)| r.as_str()).collect();
    assert_eq!(routes, ["", "about", "docs", "docs/routing"]);
    assert_eq!(found[0].1, "content/index.md");
}

#[test]
fn a_route_with_no_letter_or_digit_still_gets_a_name() {
    assert_eq!(variant("-"), "R");
    assert_eq!(variant("--/__"), "R");
}
