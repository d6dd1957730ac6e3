use crabbucket::scaffold::{files, refusal, site_base, site_name, Request, Templates, Theme};
use crabbucket::text::replace_all;

#[test]
fn a_bare_name_is_a_crates_io_dependency() {
    let theme = Theme::parse("my-house-style");

    assert_eq!(theme.name, "my-house-style");
    assert_eq!(theme.dependency, "my-house-style = \"*\"");
    assert_eq!(theme.ident(), "my_house_style", "a dash is not an identifier");
    assert!(theme.pin.contains('*'), "the reader is told to pin it");
}

#[test]
fn anything_with_a_scheme_is_a_git_dependency() {
    let theme = Theme::parse("https://github.com/me/house-style.git");

    assert_eq!(theme.name, "house-style", ".git is not part of the name");
    assert_eq!(
        theme.dependency,
        "house-style = { git = \"https://github.com/me/house-style.git\" }"
    );
    assert!(theme.pin.contains("rev"), "the reader is told to pin it");
}

#[test]
fn a_url_without_the_git_suffix_or_with_a_trailing_slash_works_too() {
    for url in [
        "https://github.com/me/house-style",
        "https://github.com/me/house-style/",
        "ssh://git@example.com/me/house-style.git",
    ] {
        assert_eq!(Theme::parse(url).name, "house-style", "for {url}");
    }
}

#[test]
fn surrounding_whitespace_is_not_part_of_the_name() {
    assert_eq!(Theme::parse("  house-style  ").name, "house-style");
}

#[test]
fn a_fresh_request_names_nothing() {
    let request = Request::new();
    assert!(request.dir.is_empty());
    assert!(!request.router && !request.force);
    assert!(request.base.is_none() && request.theme.is_none());
}

#[test]
fn a_site_is_named_after_its_directory() {
    assert_eq!(site_name("my-site"), "my-site");
    assert_eq!(site_name("work/my-site/"), "my-site");
    assert_eq!(site_name("work/my-site/."), "my-site");
    assert_eq!(site_name("."), "site");
    assert_eq!(site_name(""), "site");
    assert_eq!(site_name("/"), "site");
    assert_eq!(site_name("work/.."), "site");
}

#[test]
fn a_site_is_served_from_its_name_unless_told_otherwise() {
    let mut request = Request::new();
    request.dir = "docs".to_string();
    assert_eq!(site_base(&request, "docs"), "/docs/");
    request.base = Some("/".to_string());
    assert_eq!(site_base(&request, "docs"), "/");
}

#[test]
fn scaffolding_over_something_is_refused_without_force() {
    let mut request = Request::new();
    request.dir = "site".to_string();
    assert_eq!(
        refusal(&request, true).as_deref(),
        Some("site: directory is not empty; pass --force to scaffold into it anyway")
    );
    assert_eq!(refusal(&request, false), None);
    request.force = true;
    assert_eq!(refusal(&request, true), None);
}

fn templates() -> Templates {
    Templates {
        site_toml: "title = \"@NAME@\"\nbase = \"@BASE@\"\nrouter = @ROUTER@\n".to_string(),
        index: "home".to_string(),
        docs: "docs".to_string(),
        not_found: "gone".to_string(),
        turborust: "serve".to_string(),
        pages: "deploy".to_string(),
        crate_cargo: "[package]\nname = \"@NAME@\"\n\n[dependencies]\n@THEME_DEP@ # @PIN@\n".to_string(),
        crate_main: "// @NAME@\nuse @THEME_IDENT@::Theme;\n".to_string(),
        crate_turborust: "name = \"@NAME@\"".to_string(),
        crate_pages: "crate deploy".to_string(),
    }
}

#[test]
fn a_content_site_gets_its_configuration_pages_and_deployment() {
    let planned = files(&templates(), "docs", "/docs/", true, &None);
    let paths: Vec<&str> = planned.iter().map(|(p, _)| *p).collect();
    assert_eq!(
        paths,
        [
            "site.toml",
            "content/index.md",
            "content/docs/index.md",
            "content/404.md",
            "static/.gitkeep",
            "turborust.toml",
            ".github/workflows/pages.yml",
            ".gitignore",
        ]
    );
    assert_eq!(planned[0].1, "title = \"docs\"\nbase = \"/docs/\"\nrouter = true\n");
    assert_eq!(planned[7].1, "/dist\n");
}

#[test]
fn a_site_with_a_design_system_is_a_crate() {
    let theme = Some(Theme::parse("my-house-style"));
    let planned = files(&templates(), "site", "/site/", false, &theme);
    assert_eq!(planned.len(), 10);
    assert_eq!(planned[0].1, "title = \"site\"\nbase = \"/site/\"\nrouter = false\n");
    assert_eq!(planned[5].0, "Cargo.toml");
    assert_eq!(
        planned[5].1,
        "[package]\nname = \"site\"\n\n[dependencies]\nmy-house-style = \"*\" # Replace `*` with a real version requirement.\n"
    );
    assert_eq!(planned[6].1, "// site\nuse my_house_style::Theme;\n");
    assert_eq!(planned[7].1, "name = \"site\"");
    assert_eq!(planned[9], (".gitignore", "/dist\n/target\n".to_string()));
}

#[test]
fn replacing_scans_from_the_left_and_not_into_what_it_wrote() {
    assert_eq!(replace_all("aaa", "aa", "a"), "aa");
    assert_eq!(replace_all("@X@@X@", "@X@", "@X@@X@"), "@X@@X@@X@@X@");
    assert_eq!(replace_all("none here", "@X@", "y"), "none here");
}
