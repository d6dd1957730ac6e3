//! The vocabulary of the default design system: the layouts a page can ask
//! for and the accents an aside can carry, each with the modifier its class
//! names use.  Its markup is the design system's own; what a page may say to
//! it is here.

use vstd::prelude::*;

use crate::text;

pub mod components;

verus! {

/// The namespace every class in this design system carries.
pub const NS: &'static str = "cb";

/// The placeholder in the router script that stands for the selector of the
/// masthead's navigation.
pub open spec fn nav_placeholder() -> Seq<char> {
    "@NAV@"@
}

/// The router script with every placeholder for the navigation's selector
/// filled in with `nav`.
pub fn router_script(template: &str, nav: &str) -> (r: String)
    ensures
        r@ == text::replaced(template@, nav_placeholder(), nav@),
{
    let placeholder = "@NAV@";
    proof {
        reveal_strlit("@NAV@");
    }
    text::replace_all(template, placeholder, nav)
}

/// The layouts this design system offers.
#[derive(Debug, Clone, Copy, PartialEq, Eq, Structural)]
pub enum Layout {
    /// Prose, centred, no sidebar.  The default.
    Page,
    /// Prose with a sidebar listing the rest of the section.
    Docs,
    /// Wider measure and a larger opening, for a front page.
    Landing,
}

/// The modifier a layout puts on the page shell.
pub open spec fn layout_slug(layout: Layout) -> Seq<char> {
    match layout {
        Layout::Page => "page"@,
        Layout::Docs => "docs"@,
        Layout::Landing => "landing"@,
    }
}

impl Layout {
    /// The modifier suffix this layout puts on the page shell.
    pub fn slug(self) -> (s: &'static str)
        ensures
            s@ == layout_slug(self),
    {
        proof {
            reveal_strlit("page");
            reveal_strlit("docs");
            reveal_strlit("landing");
        }
        match self {
            Layout::Page => "page",
            Layout::Docs => "docs",
            Layout::Landing => "landing",
        }
    }
}

impl Default for Layout {
    fn default() -> (l: Layout)
        ensures
            l == Layout::Page,
    {
        Layout::Page
    }
}

/// The kind of a callout, which decides its accent.
#[derive(Debug, Clone, Copy, PartialEq, Eq, Structural)]
pub enum Kind {
    /// Neutral information.
    Note,
    /// Something the reader can get wrong.
    Warn,
}

/// The modifier a kind of callout uses in its class name.
pub open spec fn kind_slug(kind: Kind) -> Seq<char> {
    match kind {
        Kind::Note => "note"@,
        Kind::Warn => "warn"@,
    }
}

impl Kind {
    /// The modifier suffix used in the class name.
    pub fn slug(self) -> (s: &'static str)
        ensures
            s@ == kind_slug(self),
    {
        proof {
            reveal_strlit("note");
            reveal_strlit("warn");
        }
        match self {
            Kind::Note => "note",
            Kind::Warn => "warn",
        }
    }
}

} // verus!
