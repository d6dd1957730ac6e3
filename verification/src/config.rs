//! The site's own configuration, as read from `site.toml`.
//!
//! The only field that carries real weight is [`Config::base`].  A project
//! site is served from `/repo/` and a user site from `/`, and getting that
//! wrong is the most common way a site ships broken.  It is recorded once,
//! here, and applied in exactly one place, [`crate::url::Url`].

use vstd::prelude::*;

use crate::feed::Feed;
use crate::text::{self, Trim, no_double_slash};
use crate::url::{self, squeeze};

verus! {

broadcast use vstd::string::group_string_axioms;

/// A site's configuration.
#[non_exhaustive]
#[derive(Debug, Clone)]
pub struct Config {
    /// The site's title, used in `<title>` and in feeds.
    pub title: String,
    /// A one-line description of the site.
    pub description: String,
    /// The site's absolute URL, needed only by what cannot be relative:
    /// feeds, sitemaps, and `og:` metadata.
    pub url: Option<String>,
    /// The path the site is served from, with leading and trailing slashes.
    pub base: String,
    /// Whether to build a search index and ship the client that reads it.
    pub search: bool,
    /// The feeds to generate.
    pub feeds: Vec<Feed>,
    /// Pages the site renders itself, held as raw tables.
    pub pages: Vec<toml::Table>,
    /// Whether to emit the client-side router.
    pub router: bool,
}

/// Slashes and white space, the characters a base is trimmed of.
pub open spec fn slash_or_space() -> spec_fn(char) -> bool {
    text::class(Trim::SlashOrSpace)
}

/// A base path in the `/…/` shape: bounded by slashes, with no slash doubled.
pub open spec fn well_based(b: Seq<char>) -> bool {
    &&& b.len() >= 1
    &&& b[0] == '/'
    &&& b.last() == '/'
    &&& no_double_slash(b)
}

/// What a base path normalises to: trimmed of slashes and white space at
/// both ends, in any interleaving, squeezed, and put between two slashes.
pub open spec fn normalized(base: Seq<char>) -> Seq<char> {
    let t = squeeze(text::trim_by(base, slash_or_space()));
    if t.len() == 0 {
        "/"@
    } else {
        "/"@ + t + "/"@
    }
}

/// The default base: the root.
pub fn root() -> (s: String)
    ensures
        s@ == "/"@,
{
    String::from_str("/")
}

/// Forces a base path into the `/…/` shape the rest of the crate assumes.
pub fn normalize_base(base: &str) -> (r: String)
    ensures
        r@ == normalized(base@),
{
    let chars = text::chars_of(base);
    let (a, b) = text::trim_class_bounds(chars.as_slice(), 0, chars.len(), &Trim::SlashOrSpace);
    assert(chars@.subrange(0, chars.len() as int) == chars@);
    let inner = text::copy_range(chars.as_slice(), a, b);
    let squeezed = url::squeeze_chars(inner.as_slice());
    let mut out = String::from_str("/");
    proof {
        reveal_strlit("/");
    }
    if squeezed.len() > 0 {
        text::push_chars(&mut out, squeezed.as_slice());
        text::push_char(&mut out, '/');
        assert(out@ =~= "/"@ + squeezed@ + "/"@);
    }
    out
}

impl Config {
    /// Overrides the base path, normalising it the same way the file does.
    pub fn set_base(&mut self, base: &str)
        ensures
            final(self).base@ == normalized(base@),
            final(self).title == old(self).title,
            final(self).description == old(self).description,
            final(self).url == old(self).url,
            final(self).search == old(self).search,
            final(self).feeds == old(self).feeds,
            final(self).pages == old(self).pages,
            final(self).router == old(self).router,
    {
        self.base = normalize_base(base);
    }

    /// A configuration with nothing in it, served from the root.
    pub fn blank() -> (c: Config)
        ensures
            c.title@ == Seq::<char>::empty(),
            c.description@ == Seq::<char>::empty(),
            c.url is None,
            c.base@ == "/"@,
            !c.search,
            c.feeds@.len() == 0,
            c.pages@.len() == 0,
            !c.router,
    {
        Config {
            title: String::new(),
            description: String::new(),
            url: None,
            base: root(),
            search: false,
            feeds: Vec::new(),
            pages: Vec::new(),
            router: false,
        }
    }
}

// ------------------------------------------------------------------ laws

/// A normalised base is always a path: it begins and ends with a slash, and
/// no slash in it is doubled.
pub proof fn lemma_normalized_is_well_based(base: Seq<char>)
    ensures
        well_based(normalized(base)),
{
    reveal_strlit("/");
    let p = slash_or_space();
    let t = text::trim_by(base, p);
    text::lemma_trim_parts(base, p);
    url::lemma_squeeze(t);
    let q = squeeze(t);
    let n = normalized(base);
    assert(no_double_slash("/"@)) by {
        assert forall|j: int| 0 <= j < "/"@.len() - 1 implies !text::slash_pair("/"@, j) by {}
    }
    if q.len() > 0 {
        assert(q[0] == t[0]);
        assert(!p(t[0]));
        assert(q.last() == t.last());
        assert(!p(t.last()));
        url::lemma_join_no_double_slash("/"@, q);
        url::lemma_join_no_double_slash("/"@ + q, "/"@);
        assert(n[0] == '/');
    }
}

/// What is left once a normalised base is trimmed is its squeezed middle.
proof fn lemma_normalized_middle(base: Seq<char>)
    ensures
        text::trim_by(normalized(base), slash_or_space()) == squeeze(
            text::trim_by(base, slash_or_space()),
        ),
{
    reveal_strlit("/");
    let p = slash_or_space();
    let t = text::trim_by(base, p);
    text::lemma_trim_parts(base, p);
    url::lemma_squeeze(t);
    let q = squeeze(t);
    assert(text::all_in("/"@, p)) by {
        assert forall|j: int| 0 <= j < "/"@.len() implies p("/"@[j]) by {}
    }
    if q.len() == 0 {
        assert(normalized(base) =~= "/"@ + q + Seq::<char>::empty());
        assert(text::all_in(Seq::<char>::empty(), p));
        assert(text::bare(q, p));
        text::lemma_trim_framed("/"@, q, Seq::<char>::empty(), p);
    } else {
        assert(q[0] == t[0]);
        assert(q.last() == t.last());
        assert(text::bare(q, p));
        text::lemma_trim_framed("/"@, q, "/"@, p);
    }
}

/// Normalising a base twice is normalising it once.
pub proof fn lemma_normalize_idempotent(base: Seq<char>)
    ensures
        normalized(normalized(base)) == normalized(base),
{
    lemma_normalized_middle(base);
    url::lemma_squeeze_idempotent(text::trim_by(base, slash_or_space()));
}

/// Any slashes and white space around a base do not change it.
pub proof fn lemma_normalize_ignores_framing(before: Seq<char>, inner: Seq<char>, after: Seq<char>)
    requires
        text::all_in(before, slash_or_space()),
        text::all_in(after, slash_or_space()),
    ensures
        normalized(before + inner + after) == normalized(inner),
{
    text::lemma_trim_reframed(before, inner, after, slash_or_space());
}

} // verus!
