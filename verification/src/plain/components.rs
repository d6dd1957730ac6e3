//! What the plain design system's directives accept.  It answers to the
//! same names and attributes as the default one, and ignores what it has no
//! use for: it shows every tab, so no tab is the selected one.

use vstd::prelude::*;

verus! {

/// The kind of a callout.
#[derive(Debug, Clone, Copy, PartialEq, Eq, Structural)]
pub enum Kind {
    /// Neutral information.
    Note,
    /// Something the reader can get wrong.
    Warn,
}

/// The modifier a kind of callout uses in its class name.
pub open spec fn kind_slug(kind: Kind) -> Seq<char> {
    match kind {
        Kind::Note => "note"@,
        Kind::Warn => "warn"@,
    }
}

impl Kind {
    /// The modifier suffix used in the class name.
    pub fn slug(self) -> (s: &'static str)
        ensures
            s@ == kind_slug(self),
    {
        proof {
            reveal_strlit("note");
            reveal_strlit("warn");
        }
        match self {
            Kind::Note => "note",
            Kind::Warn => "warn",
        }
    }
}

impl Default for Kind {
    fn default() -> (k: Kind)
        ensures
            k == Kind::Note,
    {
        Kind::Note
    }
}

/// An aside.
#[derive(Debug)]
pub struct Callout {
    /// Which accent to use.
    pub kind: Kind,
    /// An optional heading above the body.
    pub title: Option<String>,
}

impl Default for Callout {
    fn default() -> (c: Callout)
        ensures
            c.kind == Kind::Note,
            c.title is None,
    {
        Callout { kind: Kind::Note, title: None }
    }
}

/// A card: a heading and a link.
#[derive(Debug)]
pub struct Card {
    /// The card's heading.
    pub title: String,
    /// Where it goes.
    pub href: String,
}

/// A group of tabs.
#[derive(Debug)]
pub struct Tabs {
    /// Ignored: every panel is shown, so there is no choice to remember.
    pub group: Option<String>,
}

impl Default for Tabs {
    fn default() -> (t: Tabs)
        ensures
            t.group is None,
    {
        Tabs { group: None }
    }
}

/// One tab.
#[derive(Debug)]
pub struct Tab {
    /// The label, which becomes the panel's heading.
    pub label: String,
    /// Ignored: every panel is shown.
    pub selected: bool,
}

/// One step.
#[derive(Debug)]
pub struct Step {
    /// The step's heading.  The number comes from a CSS counter.
    pub title: String,
}

/// A directive that takes no attributes.
#[derive(Debug, Default)]
pub struct Bare {}

} // verus!
