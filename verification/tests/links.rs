use crabbucket::config::Config;
use crabbucket::links::{self, Link, Reason, Rendered, check, hrefs, resolve};

fn config(base: &str) -> Config {
    let mut config = Config::blank();
    config.title = "t".into();
    config.base = base.into();
    config
}

fn routes(pairs: &[(&str, &[&str])]) -> Vec<(String, Vec<String>)> {
    pairs
        .iter()
        .map(|(route, anchors)| {
            (
                route.to_string(),
                anchors.iter().map(|a| a.to_string()).collect(),
            )
        })
        .collect()
}

fn names(names: &[&str]) -> Vec<String> {
    names.iter().map(|name| name.to_string()).collect()
}

fn path(config: &Config, page: &str, href: &str) -> Option<String> {
    resolve(config, page, href).map(|link| link.path)
}

#[test]
fn both_attributes_are_collected() {
    let html = r#"<a href="/a/">a</a><img src="/b.png"><a href="c/">c</a>"#;
    assert_eq!(hrefs(html), ["/a/", "c/", "/b.png"]);
}

#[test]
fn absolute_links_lose_the_base_path() {
    let config = config("/repo/");
    assert_eq!(path(&config, "/repo/", "/repo/docs/").as_deref(), Some("/docs/"));
    assert_eq!(
        path(&config, "/repo/", "/repo/site.css").as_deref(),
        Some("/site.css")
    );
}

#[test]
fn relative_links_resolve_against_the_page() {
    let config = config("/repo/");
    let from_docs = |href| path(&config, "/repo/docs/", href);
    assert_eq!(from_docs("content/").as_deref(), Some("/docs/content/"));
    assert_eq!(from_docs("../about/").as_deref(), Some("/about/"));
    assert_eq!(from_docs("./content/").as_deref(), Some("/docs/content/"));
}

#[test]
fn a_fragment_is_kept_and_a_query_is_not() {
    let config = config("/");
    assert_eq!(
        resolve(&config, "/", "/docs/#install"),
        Some(Link {
            path: "/docs/".into(),
            fragment: Some("install".into())
        })
    );
    assert_eq!(
        resolve(&config, "/", "/docs/?q=1"),
        Some(Link {
            path: "/docs/".into(),
            fragment: None
        })
    );
}

#[test]
fn a_bare_fragment_points_into_its_own_page() {
    let config = config("/repo/");
    assert_eq!(
        resolve(&config, "/repo/docs/", "#install"),
        Some(Link {
            path: "/docs/".into(),
            fragment: Some("install".into())
        })
    );
}

#[test]
fn what_is_not_ours_is_left_alone() {
    let config = config("/");
    for href in ["", "#", "https://example.com/", "//example.com/", "mailto:a@b.c"] {
        assert_eq!(resolve(&config, "/", href), None, "for href {href:?}");
    }
}

#[test]
fn a_link_above_the_base_path_is_not_ours_either() {
    let config = config("/repo/");
    assert_eq!(resolve(&config, "/repo/", "/elsewhere/"), None);
}

#[test]
fn a_dead_route_is_reported_with_the_page_that_wrote_it() {
    let config = config("/repo/");
    let none = names(&[]);
    let pages = [Rendered {
        source: "content/index.md",
        url: "/repo/",
        anchors: &none,
        error_page: false,
        html: r#"<a href="/repo/docs/">ok</a><a href="/repo/gone/">dead</a>"#,
    }];

    let result = check(
        &config,
        &pages,
        &routes(&[("", &[]), ("docs", &[])]),
        &names(&["site.css"]),
    );

    assert_eq!(result.examined, 2);
    assert_eq!(result.dead.len(), 1);
    assert_eq!(result.dead[0].href, "/repo/gone/");
    assert_eq!(result.dead[0].target, "/gone/");
    assert_eq!(result.dead[0].reason, Reason::NoSuchRoute);
    assert_eq!(result.dead[0].source, "content/index.md");
}

#[test]
fn a_missing_asset_is_reported_as_a_file_and_not_as_a_route() {
    let config = config("/");
    let none = names(&[]);
    let pages = [Rendered {
        source: "content/index.md",
        url: "/",
        anchors: &none,
        error_page: false,
        html: r#"<img src="/logo.png">"#,
    }];

    let result = check(&config, &pages, &routes(&[("", &[])]), &names(&["site.css"]));
    assert_eq!(result.dead[0].reason, Reason::NoSuchAsset);
    assert_eq!(
        result.dead[0].describe(),
        "/logo.png -> /logo.png is not a file this build writes"
    );
}

#[test]
fn a_fragment_naming_no_heading_is_dead() {
    let config = config("/");
    let none = names(&[]);
    let pages = [Rendered {
        source: "content/index.md",
        url: "/",
        anchors: &none,
        error_page: false,
        html: r#"<a href="/docs/#install">a</a><a href="/docs/#gone">b</a>"#,
    }];

    let result = check(
        &config,
        &pages,
        &routes(&[("", &[]), ("docs", &["install"])]),
        &names(&[]),
    );

    assert_eq!(result.dead.len(), 1);
    assert_eq!(result.dead[0].href, "/docs/#gone");
    assert_eq!(result.dead[0].target, "/docs/#gone");
    assert_eq!(result.dead[0].reason, Reason::NoSuchAnchor);
}

#[test]
fn a_same_page_fragment_is_checked_against_that_page() {
    let config = config("/");
    let here = names(&["install"]);
    let pages = [Rendered {
        source: "content/docs.md",
        url: "/docs/",
        anchors: &here,
        error_page: false,
        html: r##"<a href="#install">a</a><a href="#gone">b</a>"##,
    }];

    let result = check(&config, &pages, &routes(&[("docs", &["install"])]), &names(&[]));
    assert_eq!(result.dead.len(), 1);
    assert_eq!(result.dead[0].href, "#gone");
}

#[test]
fn a_fragment_on_an_external_link_is_not_our_business() {
    let config = config("/");
    let none = names(&[]);
    let pages = [Rendered {
        source: "content/index.md",
        url: "/",
        anchors: &none,
        error_page: false,
        html: r#"<a href="https://example.com/x/#nope">x</a>"#,
    }];

    let result = check(&config, &pages, &routes(&[("", &[])]), &names(&[]));
    assert!(result.dead.is_empty());
    assert_eq!(result.examined, 0);
}

#[test]
fn a_live_site_reports_nothing() {
    let config = config("/");
    let none = names(&[]);
    let pages = [Rendered {
        source: "content/index.md",
        url: "/",
        anchors: &none,
        error_page: false,
        html: r#"<link href="/site.css"><a href="/docs/">d</a><a href="https://x.example/">x</a>"#,
    }];

    let result = check(
        &config,
        &pages,
        &routes(&[("", &[]), ("docs", &[])]),
        &names(&["site.css"]),
    );

    assert!(result.dead.is_empty());
    assert_eq!(result.examined, 2, "the external link is not checked");
}

#[test]
fn the_same_dead_link_twice_is_reported_once_and_in_order() {
    let config = config("/");
    let none = names(&[]);
    let pages = [
        Rendered {
            source: "content/b.md",
            url: "/b/",
            anchors: &none,
            error_page: false,
            html: r#"<a href="/gone/">x</a><a href="/gone/">x</a>"#,
        },
        Rendered {
            source: "content/a.md",
            url: "/a/",
            anchors: &none,
            error_page: false,
            html: r#"<a href="/zzz/">x</a><a href="/gone/">x</a>"#,
        },
    ];
    let result = check(&config, &pages, &routes(&[("", &[])]), &names(&[]));
    assert_eq!(result.examined, 4);
    let seen: Vec<(&str, &str)> = result
        .dead
        .iter()
        .map(|d| (d.source.as_str(), d.href.as_str()))
        .collect();
    assert_eq!(
        seen,
        [
            ("content/a.md", "/gone/"),
            ("content/a.md", "/zzz/"),
            ("content/b.md", "/gone/")
        ]
    );
}

#[test]
fn a_relative_link_on_the_error_page_is_dead_wherever_it_points() {
    let config = config("/");
    let none = names(&[]);
    let pages = [Rendered {
        source: "content/404.md",
        url: "/404/",
        anchors: &none,
        error_page: true,
        html: r#"<a href="docs/">d</a>"#,
    }];
    let result = check(&config, &pages, &routes(&[("404/docs", &[])]), &names(&[]));
    assert_eq!(result.dead.len(), 1);
    assert_eq!(result.dead[0].reason, Reason::RelativeOnErrorPage);
    assert_eq!(result.dead[0].target, "docs/");
}

#[test]
fn relative_means_not_rooted_not_a_fragment_and_not_a_scheme() {
    assert!(links::is_relative("docs/"));
    assert!(links::is_relative(" ../x "));
    assert!(!links::is_relative("/docs/"));
    assert!(!links::is_relative("#top"));
    assert!(!links::is_relative("https://x/"));
    assert!(!links::is_relative("mailto:a@b"));
    assert!(!links::is_relative("tel:1"));
    assert!(!links::is_relative("data:x"));
    assert!(!links::is_relative("  "));
}

#[test]
fn a_fragment_and_a_query_come_apart() {
    assert_eq!(
        links::split_fragment("/a/?q=1#top"),
        ("/a/".to_string(), Some("top".to_string()))
    );
    assert_eq!(links::split_fragment("/a/#"), ("/a/".to_string(), None));
    assert_eq!(links::split_fragment("x?y"), ("x".to_string(), None));
}

#[test]
fn each_reason_describes_its_target() {
    assert_eq!(Reason::NoSuchRoute.describe("/x/"), "/x/ is not a route");
    assert_eq!(Reason::NoSuchAnchor.describe("/x/#a"), "/x/#a has no such heading");
    assert!(Reason::RelativeOnErrorPage
        .describe("x/")
        .starts_with("x/ is relative"));
}

#[test]
fn a_link_built_for_a_route_is_never_dead() {
    use_own_links("/repo/");
    use_own_links("/");
}

fn use_own_links(base: &str) {
    let config = config(base);
    let mut html = String::new();
    for route in ["", "docs", "docs/intro", "/about//team/"] {
        let url = crabbucket::url::Url::new(&config, route);
        html.push_str(&format!("<a href=\"{}\">x</a>", url.as_str()));
    }
    let anchors: Vec<String> = Vec::new();
    let pages = [Rendered {
        source: "content/docs/intro.md",
        url: "/elsewhere/",
        html: &html,
        anchors: &anchors,
        error_page: false,
    }];
    let table = routes(&[("", &[]), ("docs", &[]), ("docs/intro", &[]), ("about/team", &[])]);
    let result = check(&config, &pages, &table, &[]);
    assert!(result.dead.is_empty(), "{:?}", result.dead);
    assert_eq!(result.examined, 4);
}

#[test]
fn a_path_that_only_begins_like_the_base_is_outside_it() {
    let config = config("/repo/");
    assert_eq!(path(&config, "/repo/", "/repository/"), None);
    assert_eq!(path(&config, "/repo/", "/repo").as_deref(), Some("/"));
}

#[test]
fn a_bare_fragment_is_checked_but_not_counted() {
    let config = config("/");
    let anchors = names(&["install"]);
    let pages = [Rendered {
        source: "content/docs.md",
        url: "/docs/",
        html: r##"<a href="#install">a</a><a href="#gone">b</a>"##,
        anchors: &anchors,
        error_page: false,
    }];
    let result = check(&config, &pages, &routes(&[("docs", &["install"])]), &[]);
    assert_eq!(result.examined, 0);
    assert_eq!(result.dead.len(), 1);
    assert_eq!(result.dead[0].reason, Reason::NoSuchAnchor);
}

#[test]
fn sources_sort_by_path_component_and_not_by_character() {
    let config = config("/");
    let none = names(&[]);
    let pages = [
        Rendered {
            source: "content/a-b/c.md",
            url: "/x/",
            anchors: &none,
            error_page: false,
            html: r#"<a href="/gone/">x</a>"#,
        },
        Rendered {
            source: "content/a/b.md",
            url: "/y/",
            anchors: &none,
            error_page: false,
            html: r#"<a href="/gone/">x</a>"#,
        },
    ];
    let result = check(&config, &pages, &routes(&[("", &[])]), &names(&[]));
    let seen: Vec<&str> = result.dead.iter().map(|d| d.source.as_str()).collect();
    assert_eq!(seen, ["content/a/b.md", "content/a-b/c.md"]);
}

#[test]
fn two_spellings_of_one_source_path_are_one_report_kept_as_first_found() {
    let config = config("/");
    let none = names(&[]);
    let pages = [
        Rendered {
            source: "content//a/./b.md",
            url: "/x/",
            anchors: &none,
            error_page: false,
            html: r#"<a href="/gone/">x</a>"#,
        },
        Rendered {
            source: "content/a/b.md",
            url: "/x/",
            anchors: &none,
            error_page: false,
            html: r#"<a href="/gone/">x</a><a href="/zzz/">x</a>"#,
        },
    ];
    let result = check(&config, &pages, &routes(&[("", &[])]), &names(&[]));
    let seen: Vec<(&str, &str)> = result
        .dead
        .iter()
        .map(|d| (d.source.as_str(), d.href.as_str()))
        .collect();
    assert_eq!(
        seen,
        [("content//a/./b.md", "/gone/"), ("content/a/b.md", "/zzz/")]
    );
}

fn dead(source: &str, href: &str) -> links::DeadLink {
    links::DeadLink {
        source: source.into(),
        href: href.into(),
        target: href.into(),
        reason: Reason::NoSuchRoute,
    }
}

#[test]
fn dead_links_compare_as_reports() {
    assert_eq!(dead("content//a/./b.md", "/x/"), dead("content/a/b.md", "/x/"));
    assert_ne!(dead("content/a/b.md", "/x/"), dead("content/a/b.md", "/y/"));
    assert!(dead("content/a/b.md", "/z/") < dead("content/a-b/c.md", "/a/"));
    assert!(dead("content/a/b.md", "/a/") < dead("content/a/b.md", "/b/"));
    assert_eq!(
        dead("content/a/b.md", "/x/").partial_cmp(&dead("content/a/./b.md", "/x/")),
        Some(std::cmp::Ordering::Equal)
    );
}
