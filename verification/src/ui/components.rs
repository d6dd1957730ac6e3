//! What the default design system's directives accept, and the numbering a
//! page's tabs need.
//!
//! A tab needs two numbers it cannot work out for itself: an id no other tab
//! on the page shares, and its position within its own group.  Directives
//! render depth first, every `tab` before the `tabs` that holds it, so a
//! counter of ids and a counter of positions, the second reset as each group
//! closes, give both.

use vstd::prelude::*;

use crate::text;

verus! {

broadcast use vstd::string::group_string_axioms;

/// The kind of a callout, which decides its accent.
#[derive(Debug, Clone, Copy, PartialEq, Eq, Structural)]
pub enum Kind {
    /// Neutral information.
    Note,
    /// Something the reader can get wrong.
    Warn,
}

/// The modifier a kind of callout uses in its class name.
pub open spec fn kind_slug(kind: Kind) -> Seq<char> {
    match kind {
        Kind::Note => "note"@,
        Kind::Warn => "warn"@,
    }
}

impl Kind {
    /// The modifier suffix used in the class name.
    pub fn slug(self) -> (s: &'static str)
        ensures
            s@ == kind_slug(self),
    {
        proof {
            reveal_strlit("note");
            reveal_strlit("warn");
        }
        match self {
            Kind::Note => "note",
            Kind::Warn => "warn",
        }
    }
}

impl Default for Kind {
    fn default() -> (k: Kind)
        ensures
            k == Kind::Note,
    {
        Kind::Note
    }
}

/// An aside that stands apart from the prose around it.
#[derive(Debug)]
pub struct Callout {
    /// Which accent to use.  Defaults to a note.
    pub kind: Kind,
    /// An optional heading above the body.
    pub title: Option<String>,
}

impl Default for Callout {
    fn default() -> (c: Callout)
        ensures
            c.kind == Kind::Note,
            c.title is None,
    {
        Callout { kind: Kind::Note, title: None }
    }
}

/// A grid of cards; it takes no attributes.
#[derive(Debug, Default)]
pub struct Cards {}

/// A card: a heading and a link.
#[derive(Debug)]
pub struct Card {
    /// The card's heading.
    pub title: String,
    /// Where it goes.  Its link is checked like any other.
    pub href: String,
}

/// A group of tabs.
#[derive(Debug)]
pub struct Tabs {
    /// A name for the group, used to remember the reader's choice.  Two tab
    /// groups sharing a name move together.
    pub group: Option<String>,
}

impl Default for Tabs {
    fn default() -> (t: Tabs)
        ensures
            t.group is None,
    {
        Tabs { group: None }
    }
}

/// The name a group of tabs is remembered by: its own, else `tabs`.
pub open spec fn group_name(props: Tabs) -> Seq<char> {
    match props.group {
        Some(g) => g@,
        None => "tabs"@,
    }
}

impl Tabs {
    /// The name this group is remembered by.
    pub fn name(&self) -> (r: String)
        ensures
            r@ == group_name(*self),
    {
        proof {
            reveal_strlit("tabs");
        }
        match &self.group {
            Some(g) => g.clone(),
            None => String::from_str("tabs"),
        }
    }
}

/// One tab.
#[derive(Debug)]
pub struct Tab {
    /// The label on the tab itself.
    pub label: String,
    /// Whether this tab is the one shown first.  With none selected the first
    /// tab wins.
    pub selected: bool,
}

/// A numbered sequence of steps; it takes no attributes.
#[derive(Debug, Default)]
pub struct Steps {}

/// One step.
#[derive(Debug)]
pub struct Step {
    /// The step's heading.
    pub title: String,
}

/// The names one tab's markup carries: its own element id, the radio group
/// it shares with the rest of its group, and whether it starts checked.
#[derive(Debug, PartialEq, Eq)]
pub struct TabIds {
    /// The id of this tab's radio, which its label points at.
    pub element: String,
    /// The radio group, shared by every tab of one group.
    pub group: String,
    /// Whether the tab is shown first.
    pub checked: bool,
}

/// The names of the tab with page-wide id `id` at position `index` of its
/// group: its group is named after the id of the group's first tab.
pub fn tab_ids(props: &Tab, id: usize, index: usize) -> (r: TabIds)
    requires
        index <= id,
    ensures
        r.element@ == "cb-tab-"@ + text::digits(id as nat),
        r.group@ == "cb-tabs-"@ + text::digits((id - index) as nat),
        r.checked == (props.selected || index == 0),
{
    proof {
        reveal_strlit("cb-tab-");
        reveal_strlit("cb-tabs-");
    }
    let mut element = String::from_str("cb-tab-");
    text::push_decimal(&mut element, id as u64);
    let mut group = String::from_str("cb-tabs-");
    text::push_decimal(&mut group, (id - index) as u64);
    TabIds { element, group, checked: props.selected || index == 0 }
}

/// The two counters a page's tabs are numbered from.
#[derive(Debug)]
pub struct TabCounter {
    next: usize,
    position: usize,
}

impl View for TabCounter {
    /// The next id to hand out, and the position the next tab takes in its
    /// group.
    type V = (nat, nat);

    closed spec fn view(&self) -> (nat, nat) {
        (self.next as nat, self.position as nat)
    }
}

impl TabCounter {
    /// Counters for a page with no tabs yet.
    pub fn new() -> (c: TabCounter)
        ensures
            c@ == (0nat, 0nat),
    {
        TabCounter { next: 0, position: 0 }
    }

    /// Numbers one tab: the next id on the page, and the next position in
    /// its group.
    pub fn tab(&mut self) -> (r: (usize, usize))
        requires
            old(self)@.0 < usize::MAX,
            old(self)@.1 < usize::MAX,
        ensures
            r.0 == old(self)@.0,
            r.1 == old(self)@.1,
            final(self)@ == (old(self)@.0 + 1, old(self)@.1 + 1),
    {
        let r = (self.next, self.position);
        self.next = self.next + 1;
        self.position = self.position + 1;
        r
    }

    /// Closes a group: the next tab starts a new one.
    pub fn close_group(&mut self)
        ensures
            final(self)@ == (old(self)@.0, 0nat),
    {
        self.position = 0;
    }
}

} // verus!
