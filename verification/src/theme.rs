//! What a design system is handed, and what it must provide.
//!
//! A design system is anything that implements [`Theme`].  It receives one
//! [`Page`] at a time and returns a complete HTML document; it never sees the
//! filesystem, and it never needs to know the base path, because every link
//! it is given is already a [`Url`].

use vstd::prelude::*;

use crate::config::Config;
use crate::url::Url;

verus! {

broadcast use vstd::string::group_string_axioms;

/// The frontmatter every page carries.
#[derive(Debug, Clone)]
pub struct PageMeta {
    /// The page title.
    pub title: String,
    /// A one-line description, used for `<meta name="description">`.
    pub description: Option<String>,
    /// Where the page sits in the primary navigation.  Pages without it are
    /// reachable but not listed.
    pub nav_order: Option<u32>,
    /// The label to use in navigation, if it should differ from the title.
    pub nav_label: Option<String>,
    /// Whether to skip the page entirely.
    pub draft: bool,
}

/// The label a page carries in navigation: its own label if it has one,
/// else its title.
pub open spec fn label_of(meta: PageMeta) -> Seq<char> {
    match meta.nav_label {
        Some(label) => label@,
        None => meta.title@,
    }
}

impl PageMeta {
    /// The label this page should carry in navigation.
    pub fn label(&self) -> (r: &str)
        ensures
            r@ == label_of(*self),
    {
        match &self.nav_label {
            Some(label) => label.as_str(),
            None => self.title.as_str(),
        }
    }
}

/// One entry in the primary navigation.
#[derive(Debug, Clone)]
pub struct NavItem {
    /// The visible label.
    pub label: String,
    /// Where it goes.
    pub href: Url,
    /// Whether it is the page currently being rendered.
    pub current: bool,
}

/// Everything a design system needs to render one page.
pub struct Page<'a> {
    /// The site's configuration, which carries the base path.
    pub config: &'a Config,
    /// The page's frontmatter.
    pub meta: &'a PageMeta,
    /// The page's route, for the site's own reference.
    pub route: &'a str,
    /// The page body, already rendered from Markdown to HTML.
    pub html: &'a str,
    /// The primary navigation, with the current page marked.
    pub nav: &'a [NavItem],
}

/// A design system.
pub trait Theme {
    /// Renders a complete HTML document.
    fn render(&self, page: &Page<'_>) -> String;

    /// The stylesheet written to `site.css`.
    fn stylesheet(&self) -> String;

    /// The client router written to `router.js` when the site asks for one,
    /// or `None` for a design system that ships no router.
    fn router_js(&self) -> Option<&str>;
}

} // verus!
