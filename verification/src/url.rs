//! Site-absolute URLs, and the one place the base path is applied.
//!
//! A [`Url`] is the only supported way to link to a page.  The base path is
//! applied here, once, so no page has to know about it; and every URL is
//! squeezed here, so none of them contains a doubled slash.

use vstd::prelude::*;

use crate::config::{self, Config};
use crate::text::{self, Trim, no_double_slash, slash_pair};

verus! {

broadcast use vstd::string::group_string_axioms;

/// `s` with every slash that follows another slash removed.
pub open spec fn squeeze(s: Seq<char>) -> Seq<char>
    decreases s.len(),
{
    if s.len() == 0 {
        Seq::empty()
    } else if s.len() >= 2 && s.last() == '/' && s[s.len() - 2] == '/' {
        squeeze(s.drop_last())
    } else {
        squeeze(s.drop_last()).push(s.last())
    }
}

/// What squeezing keeps: the first and last characters, and nothing doubled.
pub proof fn lemma_squeeze(s: Seq<char>)
    ensures
        no_double_slash(squeeze(s)),
        (squeeze(s).len() == 0) == (s.len() == 0),
        squeeze(s).len() <= s.len(),
        s.len() > 0 ==> squeeze(s)[0] == s[0] && squeeze(s).last() == s.last(),
        forall|j: int| 0 <= j < squeeze(s).len() ==> s.contains(#[trigger] squeeze(s)[j]),
    decreases s.len(),
{
    if s.len() > 0 {
        let p = s.drop_last();
        lemma_squeeze(p);
        let q = squeeze(p);
        if s.len() >= 2 && s.last() == '/' && s[s.len() - 2] == '/' {
            assert(p.last() == s[s.len() - 2]);
            assert(p[0] == s[0]);
            assert forall|j: int| 0 <= j < q.len() implies s.contains(#[trigger] q[j]) by {
                let k = choose|k: int| 0 <= k < p.len() && p[k] == q[j];
                assert(s[k] == q[j]);
            }
        } else {
            let r = q.push(s.last());
            assert forall|j: int| 0 <= j < r.len() - 1 implies !slash_pair(r, j) by {
                if j < r.len() - 2 {
                    assert(!slash_pair(q, j));
                } else {
                    assert(q.last() == p.last());
                    assert(p.last() == s[s.len() - 2]);
                }
            }
            if p.len() > 0 {
                assert(p[0] == s[0]);
            }
            assert forall|j: int| 0 <= j < r.len() implies s.contains(#[trigger] r[j]) by {
                if j < q.len() {
                    let k = choose|k: int| 0 <= k < p.len() && p[k] == q[j];
                    assert(s[k] == r[j]);
                } else {
                    assert(s[s.len() - 1] == r[j]);
                }
            }
        }
    }
}

/// Squeezing a text with no doubled slash leaves it as it is.
pub proof fn lemma_squeeze_plain(s: Seq<char>)
    requires
        no_double_slash(s),
    ensures
        squeeze(s) == s,
    decreases s.len(),
{
    if s.len() > 0 {
        let p = s.drop_last();
        assert forall|j: int| 0 <= j < p.len() - 1 implies !slash_pair(p, j) by {
            assert(!slash_pair(s, j));
        }
        lemma_squeeze_plain(p);
        if s.len() >= 2 {
            assert(!slash_pair(s, s.len() - 2));
        }
        assert(squeeze(s) =~= s);
    }
}

/// Squeezing twice is squeezing once.
pub proof fn lemma_squeeze_idempotent(s: Seq<char>)
    ensures
        squeeze(squeeze(s)) == squeeze(s),
{
    lemma_squeeze(s);
    lemma_squeeze_plain(squeeze(s));
}

/// Two texts with no doubled slash, joined where at most one side has a
/// slash, have none either.
pub proof fn lemma_join_no_double_slash(a: Seq<char>, b: Seq<char>)
    requires
        no_double_slash(a),
        no_double_slash(b),
        a.len() == 0 || b.len() == 0 || !(a.last() == '/' && b[0] == '/'),
    ensures
        no_double_slash(a + b),
{
    let s = a + b;
    assert forall|j: int| 0 <= j < s.len() - 1 implies !slash_pair(s, j) by {
        if j < a.len() - 1 {
            assert(!slash_pair(a, j));
        } else if j == a.len() - 1 {
        } else {
            assert(!slash_pair(b, j - a.len()));
        }
    }
}

/// Collapses runs of slashes, so no URL this module builds contains `//`.
pub fn squeeze_chars(path: &[char]) -> (out: Vec<char>)
    ensures
        out@ == squeeze(path@),
{
    let mut out: Vec<char> = Vec::new();
    let mut last_was_slash = false;
    let mut i: usize = 0;
    while i < path.len()
        invariant
            i <= path.len(),
            out@ == squeeze(path@.take(i as int)),
            last_was_slash == (i > 0 && path@[i - 1] == '/'),
        decreases path.len() - i,
    {
        let c = path[i];
        proof {
            assert(path@.take(i + 1).drop_last() == path@.take(i as int));
            assert(path@.take(i + 1).last() == c);
            if i > 0 {
                assert(path@.take(i + 1)[i - 1] == path@[i - 1]);
            }
        }
        if !(c == '/' && last_was_slash) {
            out.push(c);
        }
        last_was_slash = c == '/';
        i = i + 1;
    }
    assert(path@.take(path.len() as int) == path@);
    out
}

/// Collapses runs of slashes in a string.
pub fn squeeze_str(path: &str) -> (out: String)
    ensures
        out@ == squeeze(path@),
{
    let chars = text::chars_of(path);
    let out = squeeze_chars(chars.as_slice());
    text::string_of(out.as_slice())
}

/// The path of a page: squeezed, with its outer slashes gone.
pub open spec fn page_path(path: Seq<char>) -> Seq<char> {
    squeeze(text::trim_by(path, text::is('/')))
}

/// The URL of the page at `path` under `base`.
pub open spec fn page_url(base: Seq<char>, path: Seq<char>) -> Seq<char> {
    if page_path(path).len() == 0 {
        base
    } else {
        base + page_path(path) + "/"@
    }
}

/// The URL of the asset at `path` under `base`.
pub open spec fn asset_url(base: Seq<char>, path: Seq<char>) -> Seq<char> {
    base + squeeze(text::trim_start_by(path, text::is('/')))
}

/// A URL within the site.
#[derive(Debug, Clone, PartialEq, Eq, PartialOrd, Ord, Hash)]
pub struct Url(String);

impl View for Url {
    type V = Seq<char>;

    closed spec fn view(&self) -> Seq<char> {
        self.0@
    }
}

impl Url {
    /// Builds a URL for a site-relative path such as `docs/getting-started`.
    ///
    /// The leading and trailing slashes of `path` are ignored; the result
    /// always begins with the configured base and, for a non-empty path,
    /// ends in a slash.
    pub fn new(config: &Config, path: &str) -> (u: Url)
        ensures
            u@ == page_url(config.base@, path@),
    {
        let chars = text::chars_of(path);
        let (a, b) = text::trim_class_bounds(chars.as_slice(), 0, chars.len(), &Trim::Only('/'));
        assert(chars@.subrange(0, chars.len() as int) == chars@);
        let inner = text::copy_range(chars.as_slice(), a, b);
        let squeezed = squeeze_chars(inner.as_slice());
        let mut out = config.base.clone();
        if squeezed.len() == 0 {
            Url(out)
        } else {
            text::push_chars(&mut out, squeezed.as_slice());
            text::push_char(&mut out, '/');
            proof {
                reveal_strlit("/");
                assert(out@ =~= config.base@ + page_path(path@) + "/"@);
            }
            Url(out)
        }
    }

    /// Builds a URL for an asset, which, unlike a page, keeps its file
    /// extension and gets no trailing slash.
    pub fn asset(config: &Config, path: &str) -> (u: Url)
        ensures
            u@ == asset_url(config.base@, path@),
    {
        let chars = text::chars_of(path);
        let (a, _) = text::trim_class_bounds(chars.as_slice(), 0, chars.len(), &Trim::Only('/'));
        assert(chars@.subrange(0, chars.len() as int) == chars@);
        let inner = text::copy_range(chars.as_slice(), a, chars.len());
        let squeezed = squeeze_chars(inner.as_slice());
        let mut out = config.base.clone();
        text::push_chars(&mut out, squeezed.as_slice());
        Url(out)
    }

    /// The same URL, owned anew.
    pub fn duplicate(&self) -> (u: Url)
        ensures
            u@ == self@,
    {
        Url(self.0.clone())
    }

    /// The URL as a string slice.
    pub fn as_str(&self) -> (s: &str)
        ensures
            s@ == self@,
    {
        self.0.as_str()
    }
}

// ------------------------------------------------------------------ laws

/// A page URL starts at the base and ends in a slash, so every route is a
/// directory; and no URL ever doubles a slash, page or asset.
pub proof fn lemma_url_shape(base: Seq<char>, path: Seq<char>)
    requires
        config::well_based(base),
    ensures
        text::starts_with(page_url(base, path), base),
        text::ends_with(page_url(base, path), "/"@),
        no_double_slash(page_url(base, path)),
        !text::contains(page_url(base, path), "//"@),
        text::starts_with(asset_url(base, path), base),
        no_double_slash(asset_url(base, path)),
        !text::contains(asset_url(base, path), "//"@),
{
    reveal_strlit("/");
    let t = text::trim_by(path, text::is('/'));
    text::lemma_trim_parts(path, text::is('/'));
    lemma_squeeze(t);
    let p = page_path(path);
    let u = page_url(base, path);
    if p.len() == 0 {
        assert(u.take(base.len() as int) =~= base);
        assert(u.skip(u.len() - 1) =~= "/"@);
    } else {
        assert(p[0] != '/');
        assert(p.last() != '/');
        assert(u.take(base.len() as int) =~= base);
        assert(u.skip(u.len() - 1) =~= "/"@);
        lemma_join_no_double_slash(base, p);
        assert("/"@[0] == '/');
        assert(no_double_slash("/"@)) by {
            assert forall|j: int| 0 <= j < "/"@.len() - 1 implies !slash_pair("/"@, j) by {}
        }
        lemma_join_no_double_slash(base + p, "/"@);
    }
    let s = text::trim_start_by(path, text::is('/'));
    text::lemma_lead(path, text::is('/'));
    lemma_squeeze(s);
    let a = asset_url(base, path);
    assert(a.take(base.len() as int) =~= base);
    if s.len() > 0 {
        assert(s[0] == path[text::lead(path, text::is('/')) as int]);
    }
    lemma_join_no_double_slash(base, squeeze(s));
    text::lemma_no_double_slash(u);
    text::lemma_no_double_slash(a);
}

/// An asset whose name holds no slash is the base followed by the name: it
/// keeps its extension and, for a name that does not end in a slash, gets
/// none.
pub proof fn lemma_asset_is_file(base: Seq<char>, name: Seq<char>)
    requires
        !name.contains('/'),
    ensures
        asset_url(base, name) == base + name,
        text::starts_with(asset_url(base, name), base),
        text::ends_with(asset_url(base, name), name),
{
    if name.len() > 0 {
        text::lemma_lead_is(name, text::is('/'), 0);
    } else {
        text::lemma_lead_is(name, text::is('/'), 0);
    }
    assert(text::trim_start_by(name, text::is('/')) =~= name);
    assert(no_double_slash(name)) by {
        assert forall|j: int| 0 <= j < name.len() - 1 implies !slash_pair(name, j) by {
            assert(name[j] != '/');
        }
    }
    lemma_squeeze_plain(name);
    let a = base + name;
    assert(a.take(base.len() as int) =~= base);
    assert(a.skip(a.len() - name.len()) =~= name);
}

} // verus!
