use crabbucket::config::Config;
use crabbucket::url::Url;

fn config(base: &str) -> Config {
    let mut config = Config::blank();
    config.title = "t".into();
    config.base = base.into();
    config
}

#[test]
fn a_doubled_slash_never_reaches_a_url() {
    let config = config("/crabbucket/");
    assert_eq!(
        Url::asset(&config, "notes//archive/feed.xml").as_str(),
        "/crabbucket/notes/archive/feed.xml"
    );
    assert_eq!(
        Url::new(&config, "docs//routing").as_str(),
        "/crabbucket/docs/routing/"
    );
}

#[test]
fn a_project_site_gets_its_repository_prefix() {
    let config = config("/crabbucket/");
    assert_eq!(
        Url::new(&config, "docs/intro").as_str(),
        "/crabbucket/docs/intro/"
    );
    assert_eq!(Url::new(&config, "").as_str(), "/crabbucket/");
}

#[test]
fn a_user_site_gets_no_prefix() {
    let config = config("/");
    assert_eq!(Url::new(&config, "docs/intro").as_str(), "/docs/intro/");
    assert_eq!(Url::new(&config, "/").as_str(), "/");
}

#[test]
fn assets_keep_their_extension_and_gain_no_slash() {
    let config = config("/crabbucket/");
    assert_eq!(
        Url::asset(&config, "site.css").as_str(),
        "/crabbucket/site.css"
    );
    assert_eq!(
        Url::asset(&config, "/site.css").as_str(),
        "/crabbucket/site.css"
    );
}

#[test]
fn squeezing_collapses_every_run_of_slashes() {
    assert_eq!(crabbucket::url::squeeze_str("a///b//c/"), "a/b/c/");
    assert_eq!(crabbucket::url::squeeze_str("//"), "/");
    assert_eq!(crabbucket::url::squeeze_str(""), "");
}

#[test]
fn a_page_url_under_a_normalised_base_starts_there_and_ends_in_a_slash() {
    let mut config = Config::blank();
    config.set_base(" //repo// ");
    for path in ["", "/", "docs", "/docs//intro/", "a b"] {
        let url = Url::new(&config, path);
        assert!(url.as_str().starts_with(&config.base));
        assert!(url.as_str().ends_with('/'));
        assert!(!url.as_str().contains("//"), "{}", url.as_str());
        assert!(!Url::asset(&config, path).as_str().contains("//"));
    }
}

#[test]
fn an_asset_name_without_a_slash_is_appended_to_the_base() {
    let mut config = Config::blank();
    config.set_base("repo");
    let url = Url::asset(&config, "logo.png");
    assert_eq!(url.as_str(), "/repo/logo.png");
    assert!(!url.as_str().ends_with('/'));
}
