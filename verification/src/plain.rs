//! The vocabulary of the plain design system: a document in one column,
//! with an optional summary above its prose.

use vstd::prelude::*;

pub mod components;

verus! {

/// The namespace every class in this design system carries.
pub const NS: &'static str = "pl";

/// The one layout this design system offers; a page asking for `docs` or
/// `landing` gets it too.
#[derive(Debug, Clone, Copy, PartialEq, Eq, Structural)]
pub enum Layout {
    /// A document in one column.
    Page,
}

impl Default for Layout {
    fn default() -> (l: Layout)
        ensures
            l == Layout::Page,
    {
        Layout::Page
    }
}

/// What this design system reads from a page's frontmatter beyond the
/// common fields.
#[derive(Debug, Clone)]
pub struct Extra {
    /// A sentence above the prose.
    pub summary: Option<String>,
}

impl Default for Extra {
    fn default() -> (e: Extra)
        ensures
            e.summary is None,
    {
        Extra { summary: None }
    }
}

} // verus!
