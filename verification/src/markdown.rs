//! Markdown rendering.
//!
//! CommonMark with the table, footnote, strikethrough, smart punctuation
//! and heading attribute extensions, which is what a documentation page
//! needs.  The rendering itself is `pulldown-cmark`'s.

use vstd::prelude::*;

use pulldown_cmark::{Options, Parser, html};

use crate::directive::Block;

verus! {

/// What `pulldown-cmark` renders `source` to, with the extensions this crate
/// enables.
pub uninterp spec fn markdown_html(source: Seq<char>) -> Seq<char>;

/// A heading on a rendered page.
#[derive(Debug, Clone, PartialEq, Eq)]
pub struct Heading {
    /// Its id, which fragment links point at.
    pub id: String,
    /// Its level, 1 to 6.
    pub level: u8,
    /// Its text.
    pub text: String,
}

/// Renders Markdown to a fragment of HTML (`pulldown_cmark::Parser::new_ext`
/// with the five extensions, then `pulldown_cmark::html::push_html`).
///
/// Claims only that the result is what `markdown_html` names for `source`:
/// the rendering depends on nothing else.
#[verifier::external_body]
pub fn to_html(source: &str) -> (out: String)
    ensures
        out@ == markdown_html(source@),
{
    let mut options = Options::empty();
    options.insert(Options::ENABLE_TABLES);
    options.insert(Options::ENABLE_FOOTNOTES);
    options.insert(Options::ENABLE_STRIKETHROUGH);
    options.insert(Options::ENABLE_SMART_PUNCTUATION);
    options.insert(Options::ENABLE_HEADING_ATTRIBUTES);
    let mut out = String::new();
    html::push_html(&mut out, Parser::new_ext(source, options));
    out
}

/// The HTML of each Markdown run among `blocks`, in order.  A directive has
/// none of its own here: the design system that registered it renders it,
/// around whatever its own body renders to.
pub fn render_text(blocks: &[Block]) -> (r: Vec<Option<String>>)
    ensures
        r.len() == blocks.len(),
        forall|i: int|
            0 <= i < blocks.len() ==> match #[trigger] blocks@[i] {
                Block::Text { source, .. } => r@[i] matches Some(h) && h@ == markdown_html(source@),
                Block::Directive { .. } => r@[i] is None,
            },
{
    let mut out: Vec<Option<String>> = Vec::new();
    let mut i: usize = 0;
    while i < blocks.len()
        invariant
            i <= blocks.len(),
            out.len() == i,
            forall|j: int|
                0 <= j < i ==> match #[trigger] blocks@[j] {
                    Block::Text { source, .. } => out@[j] matches Some(h) && h@ == markdown_html(source@),
                    Block::Directive { .. } => out@[j] is None,
                },
        decreases blocks.len() - i,
    {
        match &blocks[i] {
            Block::Text { source, .. } => out.push(Some(to_html(source.as_str()))),
            Block::Directive { .. } => out.push(None),
        }
        i = i + 1;
    }
    out
}

} // verus!
