//! Link checking, which is a build gate rather than a lint.
//!
//! Content is Markdown, so a link written in a page cannot be typed the way
//! a link written in a component can.  The next best thing is to make a dead
//! internal link fail the build rather than fail the reader.  Fragments are
//! checked too, against the heading ids each page has.  External links are
//! not checked: their liveness is not a property of this build.

use vstd::prelude::*;

use crate::config::{self, Config};
use crate::url::{self, page_path, page_url};
use crate::paths::{self, PathPart, components, parts_before};
use crate::text::{self, Rank, Trim, before, find, find_from, join, split_on, starts_with, texts, trim};

verus! {

broadcast use vstd::string::group_string_axioms;

// ------------------------------------------------------------------ hrefs

/// The values of every `attr"…"` in `s` from position `from` on, in order:
/// each runs from just after the attribute to the next double quote.
pub open spec fn values_from(s: Seq<char>, attr: Seq<char>, from: int) -> Seq<Seq<char>>
    decreases s.len() - from,
{
    if from < 0 || from > s.len() || attr.len() == 0 {
        Seq::empty()
    } else {
        match find_from(s, attr, from) {
            None => Seq::empty(),
            Some(start) => match find_from(s, seq!['"'], start + attr.len()) {
                None => Seq::empty(),
                Some(end) => if end + 1 <= from || end + 1 > s.len() {
                    Seq::empty()
                } else {
                    seq![s.subrange(start + attr.len(), end)] + values_from(s, attr, end + 1)
                },
            },
        }
    }
}

/// Every `href` value in a document, then every `src` value.
pub open spec fn hrefs_spec(html: Seq<char>) -> Seq<Seq<char>> {
    values_from(html, "href=\""@, 0) + values_from(html, "src=\""@, 0)
}

/// Each value takes at least two characters of the document.
proof fn lemma_values_count(s: Seq<char>, attr: Seq<char>, from: int)
    requires
        0 <= from <= s.len(),
    ensures
        2 * values_from(s, attr, from).len() <= s.len() - from,
    decreases s.len() - from,
{
    if attr.len() > 0 {
        text::lemma_find_from(s, attr, from);
        match find_from(s, attr, from) {
            None => {},
            Some(start) => {
                text::lemma_find_from(s, seq!['"'], start + attr.len());
                match find_from(s, seq!['"'], start + attr.len()) {
                    None => {},
                    Some(end) => {
                        if !(end + 1 <= from || end + 1 > s.len()) {
                            lemma_values_count(s, attr, end + 1);
                        }
                    },
                }
            },
        }
    }
}

/// A document has no more `href` and `src` values than characters.
pub proof fn lemma_hrefs_count(html: Seq<char>)
    ensures
        hrefs_spec(html).len() <= html.len(),
{
    lemma_values_count(html, "href=\""@, 0);
    lemma_values_count(html, "src=\""@, 0);
}

/// The values of one attribute.
fn values(s: &[char], attr: &[char]) -> (found: Vec<String>)
    requires
        attr.len() > 0,
    ensures
        texts(found@) == values_from(s@, attr@, 0),
{
    let quote = ['"'];
    assert(quote@ =~= seq!['"']);
    let mut found: Vec<String> = Vec::new();
    let mut from: usize = 0;
    loop
        invariant
            from <= s.len(),
            attr.len() > 0,
            quote@ == seq!['"'],
            texts(found@) + values_from(s@, attr@, from as int) == values_from(s@, attr@, 0),
        ensures
            texts(found@) == values_from(s@, attr@, 0),
        decreases s.len() - from,
    {
        let ghost before = texts(found@);
        match text::find_in(s, attr, from) {
            None => {
                assert(values_from(s@, attr@, from as int) =~= Seq::<Seq<char>>::empty());
                assert(before + Seq::<Seq<char>>::empty() =~= before);
                break;
            },
            Some(start) => {
                proof {
                    text::lemma_find_from(s@, attr@, from as int);
                }
                let vstart = start + attr.len();
                match text::find_in(s, &quote, vstart) {
                    None => {
                        assert(values_from(s@, attr@, from as int) =~= Seq::<Seq<char>>::empty());
                        assert(before + Seq::<Seq<char>>::empty() =~= before);
                        break;
                    },
                    Some(end) => {
                        proof {
                            text::lemma_find_from(s@, quote@, vstart as int);
                        }
                        let value = text::copy_range(s, vstart, end);
                        let v = text::string_of(value.as_slice());
                        found.push(v);
                        proof {
                            assert(texts(found@) =~= before.push(v@));
                            assert(values_from(s@, attr@, from as int) == seq![v@] + values_from(
                                s@,
                                attr@,
                                end + 1,
                            ));
                            assert(before + (seq![v@] + values_from(s@, attr@, end + 1)) =~= before.push(
                                v@,
                            ) + values_from(s@, attr@, end + 1));
                        }
                        from = end + 1;
                    },
                }
            },
        }
    }
    found
}

/// Pulls every `href` and `src` value out of a document.
///
/// A real parser is not needed: the input is this crate's own output, where
/// every attribute is written in one form.
pub fn hrefs(html: &str) -> (found: Vec<String>)
    ensures
        texts(found@) == hrefs_spec(html@),
{
    let chars = text::chars_of(html);
    let href = ['h', 'r', 'e', 'f', '=', '"'];
    let src = ['s', 'r', 'c', '=', '"'];
    proof {
        reveal_strlit("href=\"");
        reveal_strlit("src=\"");
        assert(href@ =~= "href=\""@);
        assert(src@ =~= "src=\""@);
    }
    let mut found = values(chars.as_slice(), &href);
    let mut more = values(chars.as_slice(), &src);
    let ghost first = texts(found@);
    let ghost second = texts(more@);
    found.append(&mut more);
    assert(texts(found@) =~= first + second);
    found
}

// ------------------------------------------------------------------ resolving

/// Whether an href is relative, and so depends on where the page is served.
pub open spec fn relative(href: Seq<char>) -> bool {
    let h = trim(href);
    &&& h.len() > 0
    &&& h[0] != '/'
    &&& h[0] != '#'
    &&& !text::contains(h, "://"@)
    &&& !starts_with(h, "mailto:"@)
    &&& !starts_with(h, "tel:"@)
    &&& !starts_with(h, "data:"@)
}

/// Whether an href is relative, and so depends on where the page was served.
pub fn is_relative(href: &str) -> (b: bool)
    ensures
        b == relative(href@),
{
    let chars = text::chars_of(href);
    let h = text::trimmed(chars.as_slice());
    let scheme = [':', '/', '/'];
    let mailto = ['m', 'a', 'i', 'l', 't', 'o', ':'];
    let tel = ['t', 'e', 'l', ':'];
    let data = ['d', 'a', 't', 'a', ':'];
    proof {
        reveal_strlit("://");
        reveal_strlit("mailto:");
        reveal_strlit("tel:");
        reveal_strlit("data:");
        assert(scheme@ =~= "://"@);
        assert(mailto@ =~= "mailto:"@);
        assert(tel@ =~= "tel:"@);
        assert(data@ =~= "data:"@);
    }
    if h.len() == 0 || h[0] == '/' || h[0] == '#' {
        return false;
    }
    let found = text::find_in(h.as_slice(), &scheme, 0);
    proof {
        text::lemma_find_from(h@, scheme@, 0);
        if text::contains(h@, scheme@) {
            let at = choose|at: int| text::occurs_at(h@, scheme@, at);
            assert(find_from(h@, scheme@, 0) is Some);
        }
    }
    found.is_none() && !text::has_prefix(h.as_slice(), &mailto) && !text::has_prefix(
        h.as_slice(),
        &tel,
    ) && !text::has_prefix(h.as_slice(), &data)
}

/// The part of `s` before the first `c`, and whether there was one.
pub open spec fn upto(s: Seq<char>, c: char) -> Seq<char> {
    match find(s, seq![c]) {
        Some(i) => s.take(i),
        None => s,
    }
}

/// An href's path and fragment: the fragment is what follows the first `#`,
/// if anything does, and the path is what precedes it, without any query.
pub open spec fn fragment_parts(h: Seq<char>) -> (Seq<char>, Option<Seq<char>>) {
    match find(h, seq!['#']) {
        Some(i) => (
            upto(h.take(i), '?'),
            if h.len() > i + 1 {
                Some(h.skip(i + 1))
            } else {
                None
            },
        ),
        None => (upto(h, '?'), None),
    }
}

/// The part of `s` before the first `c`.
fn before_char(s: &[char], c: char) -> (r: Vec<char>)
    ensures
        r@ == upto(s@, c),
{
    let pat = [c];
    assert(pat@ =~= seq![c]);
    match text::find_in(s, &pat, 0) {
        Some(i) => {
            proof {
                text::lemma_find_from(s@, pat@, 0);
            }
            text::copy_range(s, 0, i)
        },
        None => {
            assert(s@.subrange(0, s.len() as int) =~= s@);
            text::copy_range(s, 0, s.len())
        },
    }
}

/// Splits an href into its path and its fragment, dropping any query
/// string, which is not part of what is on disk.
pub fn split_fragment(href: &str) -> (r: (String, Option<String>))
    ensures
        r.0@ == fragment_parts(href@).0,
        match r.1 {
            Some(f) => fragment_parts(href@).1 == Some(f@),
            None => fragment_parts(href@).1 is None,
        },
{
    let h = text::chars_of(href);
    let hash = ['#'];
    assert(hash@ =~= seq!['#']);
    match text::find_in(h.as_slice(), &hash, 0) {
        Some(i) => {
            proof {
                text::lemma_find_from(h@, hash@, 0);
            }
            let head = text::copy_range(h.as_slice(), 0, i);
            let path = before_char(head.as_slice(), '?');
            let fragment = if h.len() > i + 1 {
                let tail = text::copy_range(h.as_slice(), i + 1, h.len());
                Some(text::string_of(tail.as_slice()))
            } else {
                None
            };
            (text::string_of(path.as_slice()), fragment)
        },
        None => {
            let path = before_char(h.as_slice(), '?');
            (text::string_of(path.as_slice()), None)
        },
    }
}

/// The path segments that remain once `.` and empty ones are dropped and
/// each `..` has taken away the one before it.
pub open spec fn walk(ps: Seq<Seq<char>>) -> Seq<Seq<char>>
    decreases ps.len(),
{
    if ps.len() == 0 {
        Seq::empty()
    } else {
        let w = walk(ps.drop_last());
        let p = ps.last();
        if p.len() == 0 || p == seq!['.'] {
            w
        } else if p == seq!['.', '.'] {
            if w.len() > 0 {
                w.drop_last()
            } else {
                w
            }
        } else {
            w.push(p)
        }
    }
}

/// Whether an href is someone else's business: empty, a bare `#`, another
/// origin, or a scheme.
pub open spec fn foreign(h: Seq<char>) -> bool {
    ||| h.len() == 0
    ||| h == seq!['#']
    ||| starts_with(h, "//"@)
    ||| text::contains(h, "://"@)
    ||| starts_with(h, "mailto:"@)
    ||| starts_with(h, "data:"@)
    ||| starts_with(h, "tel:"@)
}

/// Where a link written on the page at `page_url` goes, as a path below the
/// base and a fragment; `None` for what is not this site's problem and for
/// anything outside the base path.
pub open spec fn resolve_spec(base: Seq<char>, page_url: Seq<char>, href: Seq<char>) -> Option<
    (Seq<char>, Option<Seq<char>>),
> {
    let h = trim(href);
    if foreign(h) {
        None
    } else {
        let (path, fragment) = fragment_parts(h);
        let joined = if path.len() == 0 {
            page_url
        } else if path[0] == '/' {
            path
        } else {
            page_url + path
        };
        let trailing = joined.len() > 0 && joined.last() == '/';
        let out0 = seq!['/'] + join(walk(split_on(joined, '/')), seq!['/']);
        let out = if trailing && out0.last() != '/' {
            out0.push('/')
        } else {
            out0
        };
        let b = text::trim_end_by(base, text::is('/'));
        if starts_with(out, b) && (out.len() == b.len() || out[b.len() as int] == '/') {
            let rel = out.skip(b.len() as int);
            Some((if rel.len() == 0 { seq!['/'] } else { rel }, fragment))
        } else {
            None
        }
    }
}

/// A link, resolved against the page it appears in.
#[derive(Debug, PartialEq, Eq)]
pub struct Link {
    /// The site-relative path, with the base stripped.
    pub path: String,
    /// The fragment, if the link carried one.
    pub fragment: Option<String>,
}

/// A link as a plain value.
pub open spec fn link_view(l: Link) -> (Seq<char>, Option<Seq<char>>) {
    (
        l.path@,
        match l.fragment {
            Some(f) => Some(f@),
            None => None,
        },
    )
}

/// Whether an href is someone else's business.
fn is_foreign(h: &[char]) -> (b: bool)
    ensures
        b == foreign(h@),
{
    let hash = ['#'];
    let slashes = ['/', '/'];
    let scheme = [':', '/', '/'];
    let mailto = ['m', 'a', 'i', 'l', 't', 'o', ':'];
    let tel = ['t', 'e', 'l', ':'];
    let data = ['d', 'a', 't', 'a', ':'];
    proof {
        reveal_strlit("//");
        reveal_strlit("://");
        reveal_strlit("mailto:");
        reveal_strlit("tel:");
        reveal_strlit("data:");
        assert(hash@ =~= seq!['#']);
        assert(slashes@ =~= "//"@);
        assert(scheme@ =~= "://"@);
        assert(mailto@ =~= "mailto:"@);
        assert(tel@ =~= "tel:"@);
        assert(data@ =~= "data:"@);
    }
    let found = text::find_in(h, &scheme, 0);
    proof {
        text::lemma_find_from(h@, scheme@, 0);
        if text::contains(h@, scheme@) {
            let at = choose|at: int| text::occurs_at(h@, scheme@, at);
            assert(find_from(h@, scheme@, 0) is Some);
        }
    }
    h.len() == 0 || text::equal(h, &hash) || text::has_prefix(h, &slashes) || found.is_some()
        || text::has_prefix(h, &mailto) || text::has_prefix(h, &data) || text::has_prefix(h, &tel)
}

/// The segments a path keeps.
fn walk_segments(pieces: &Vec<Vec<char>>) -> (parts: Vec<Vec<char>>)
    ensures
        parts@.map_values(|l: Vec<char>| l@) == walk(pieces@.map_values(|l: Vec<char>| l@)),
{
    let ghost views = pieces@.map_values(|l: Vec<char>| l@);
    let dot = ['.'];
    let dots = ['.', '.'];
    assert(dot@ =~= seq!['.']);
    assert(dots@ =~= seq!['.', '.']);
    let mut parts: Vec<Vec<char>> = Vec::new();
    let mut i: usize = 0;
    while i < pieces.len()
        invariant
            i <= pieces.len(),
            views == pieces@.map_values(|l: Vec<char>| l@),
            dot@ == seq!['.'],
            dots@ == seq!['.', '.'],
            parts@.map_values(|l: Vec<char>| l@) == walk(views.take(i as int)),
        decreases pieces.len() - i,
    {
        proof {
            assert(views.take(i + 1).drop_last() == views.take(i as int));
            assert(views.take(i + 1).last() == pieces@[i as int]@);
        }
        let p = pieces[i].as_slice();
        if p.len() == 0 || text::equal(p, &dot) {
        } else if text::equal(p, &dots) {
            if parts.len() > 0 {
                parts.pop();
                assert(parts@.map_values(|l: Vec<char>| l@) =~= walk(views.take(i as int)).drop_last());
            }
        } else {
            parts.push(pieces[i].clone());
            assert(parts@.map_values(|l: Vec<char>| l@) =~= walk(views.take(i as int)).push(
                pieces@[i as int]@,
            ));
        }
        i = i + 1;
    }
    assert(views.take(pieces.len() as int) =~= views);
    parts
}

/// Resolves a link against the page it appears in.
///
/// Returns `None` for anything that is not this site's problem: another
/// origin, a scheme, an empty href, a bare `#`, or a path outside the base.
pub fn resolve(config: &Config, page_url: &str, href: &str) -> (r: Option<Link>)
    ensures
        match r {
            Some(l) => resolve_spec(config.base@, page_url@, href@) == Some(link_view(l)),
            None => resolve_spec(config.base@, page_url@, href@) is None,
        },
{
    let raw = text::chars_of(href);
    let h = text::trimmed(raw.as_slice());
    if is_foreign(h.as_slice()) {
        return None;
    }
    let hs = text::string_of(h.as_slice());
    let (path, fragment) = split_fragment(hs.as_str());
    let path_chars = text::chars_of(path.as_str());
    let mut joined: Vec<char> = Vec::new();
    if path_chars.len() == 0 {
        text::extend_chars(&mut joined, page_url);
    } else if path_chars[0] == '/' {
        text::extend_vec(&mut joined, path_chars.as_slice());
    } else {
        text::extend_chars(&mut joined, page_url);
        text::extend_vec(&mut joined, path_chars.as_slice());
    }
    let trailing = joined.len() > 0 && joined[joined.len() - 1] == '/';
    let pieces = text::split_chars(joined.as_slice(), '/');
    assert(pieces@.map_values(|l: Vec<char>| l@) =~= split_on(joined@, '/'));
    let parts = walk_segments(&pieces);
    let slash = ['/'];
    assert(slash@ =~= seq!['/']);
    let joined_parts = text::join_with(&parts, &slash);
    let mut out: Vec<char> = Vec::new();
    out.push('/');
    text::extend_vec(&mut out, joined_parts.as_slice());
    assert(out@ =~= seq!['/'] + joined_parts@);
    if trailing && out[out.len() - 1] != '/' {
        out.push('/');
    }
    let base = text::chars_of(config.base.as_str());
    let end = text::skip_class_back(base.as_slice(), 0, base.len(), &Trim::Only('/'));
    assert(base@.subrange(0, base.len() as int) =~= base@);
    let b = text::copy_range(base.as_slice(), 0, end);
    if !text::has_prefix(out.as_slice(), b.as_slice()) {
        return None;
    }
    if out.len() > b.len() && out[b.len()] != '/' {
        return None;
    }
    let rel = text::copy_range(out.as_slice(), b.len(), out.len());
    assert(rel@ =~= out@.skip(b.len() as int));
    let path_out = if rel.len() == 0 {
        let mut p = String::new();
        text::push_char(&mut p, '/');
        assert(p@ =~= seq!['/']);
        p
    } else {
        text::string_of(rel.as_slice())
    };
    Some(Link { path: path_out, fragment })
}

// ------------------------------------------------------------------ dead links

/// Why a link is dead.
#[derive(Debug, Clone, Copy, PartialEq, Eq, Structural, PartialOrd, Ord)]
pub enum Reason {
    /// Nothing is served at that path.
    NoSuchRoute,
    /// No such file will be written.
    NoSuchAsset,
    /// The page exists, but has no heading with that id.
    NoSuchAnchor,
    /// A relative link on the error page, which is served from every path and
    /// so has no directory to be relative to.
    RelativeOnErrorPage,
}

/// Where a reason sorts among the others: in the order they are declared.
pub open spec fn reason_rank(r: Reason) -> nat {
    match r {
        Reason::NoSuchRoute => 0,
        Reason::NoSuchAsset => 1,
        Reason::NoSuchAnchor => 2,
        Reason::RelativeOnErrorPage => 3,
    }
}

/// The explanation of a reason, for a link that resolved to `target`.
pub open spec fn explain(r: Reason, target: Seq<char>) -> Seq<char> {
    match r {
        Reason::NoSuchRoute => target + " is not a route"@,
        Reason::NoSuchAsset => target + " is not a file this build writes"@,
        Reason::NoSuchAnchor => target + " has no such heading"@,
        Reason::RelativeOnErrorPage => target
            + " is relative, and the error page is served from every path; write it as a site-absolute link"@,
    }
}

impl Reason {
    /// The explanation, for a link that resolved to `target`.
    pub fn describe(self, target: &str) -> (s: String)
        ensures
            s@ == explain(self, target@),
    {
        let mut s = String::from_str(target);
        match self {
            Reason::NoSuchRoute => s.append(" is not a route"),
            Reason::NoSuchAsset => s.append(" is not a file this build writes"),
            Reason::NoSuchAnchor => s.append(" has no such heading"),
            Reason::RelativeOnErrorPage => s.append(
                " is relative, and the error page is served from every path; write it as a site-absolute link",
            ),
        }
        s
    }
}

/// A link that goes nowhere, and the page it was written in.
///
/// Two dead links are equal, and sort, as reports: the source by its path
/// components, then the href, the target and the reason.
#[derive(Debug, Clone, Eq)]
pub struct DeadLink {
    /// The content file that contains the link.
    pub source: String,
    /// The link exactly as written.
    pub href: String,
    /// Where it resolved to, which is what makes the diagnosis obvious.
    pub target: String,
    /// What is wrong with it.
    pub reason: Reason,
}

/// A dead link as a plain value: source, href, target and reason.
pub type DeadView = (Seq<char>, Seq<char>, Seq<char>, Reason);

/// The plain value of a dead link.
pub open spec fn dead_view(d: DeadLink) -> DeadView {
    (d.source@, d.href@, d.target@, d.reason)
}

/// The plain values of a run of dead links.
pub open spec fn dead_views(v: Seq<DeadLink>) -> Seq<DeadView> {
    v.map_values(|d: DeadLink| dead_view(d))
}

impl DeadLink {
    /// The one-line explanation, without the source path.
    pub fn describe(&self) -> (s: String)
        ensures
            s@ == self.href@ + " -> "@ + explain(self.reason, self.target@),
    {
        let mut s = self.href.clone();
        s.append(" -> ");
        let why = self.reason.describe(self.target.as_str());
        s.append(why.as_str());
        s
    }
}

/// What the report order reads of a dead link: the source by its path
/// components, then the href, the target and the reason.
pub type DeadKey = (Seq<PathPart>, Seq<char>, Seq<char>, Reason);

/// The report key of a dead link.
pub open spec fn dead_key(v: DeadView) -> DeadKey {
    (components(v.0), v.1, v.2, v.3)
}

/// Two dead links are the same report: the same path, href, target and
/// reason, as `DeadLink`'s `PartialEq` has it.
pub open spec fn same_dead(a: DeadView, b: DeadView) -> bool {
    dead_key(a) == dead_key(b)
}

/// The order dead links are reported in: by source path, then href, then
/// target, then reason.
pub open spec fn dead_before(a: DeadView, b: DeadView) -> bool {
    let (x, y) = (dead_key(a), dead_key(b));
    ||| parts_before(x.0, y.0)
    ||| (x.0 == y.0 && before(x.1, y.1))
    ||| (x.0 == y.0 && x.1 == y.1 && before(x.2, y.2))
    ||| (x.0 == y.0 && x.1 == y.1 && x.2 == y.2 && reason_rank(x.3) < reason_rank(y.3))
}

/// Each link in the run sorts before every link after it: sorted, and no
/// report twice.
pub open spec fn strictly_sorted(v: Seq<DeadView>) -> bool {
    forall|i: int, j: int| 0 <= i < j < v.len() ==> dead_before(#[trigger] v[i], #[trigger] v[j])
}

/// Some link of the run is the same report as `x`.
pub open spec fn reported(v: Seq<DeadView>, x: DeadView) -> bool {
    exists|k: int| 0 <= k < v.len() && same_dead(#[trigger] v[k], x)
}

/// `x` occurs in `all` with no earlier link the same report as it: the one
/// that a stable sort followed by removing repeats keeps.
pub open spec fn first_report(all: Seq<DeadView>, x: DeadView) -> bool {
    exists|i: int|
        0 <= i < all.len() && #[trigger] all[i] == x && forall|j: int|
            0 <= j < i ==> !same_dead(#[trigger] all[j], x)
}

/// The report order is a strict total order on reports.
pub proof fn lemma_dead_order(a: DeadView, b: DeadView, c: DeadView)
    ensures
        !dead_before(a, a),
        dead_before(a, b) ==> !dead_before(b, a) && !same_dead(a, b),
        dead_before(a, b) && dead_before(b, c) ==> dead_before(a, c),
        dead_before(a, b) && same_dead(b, c) ==> dead_before(a, c),
        same_dead(a, b) || dead_before(a, b) || dead_before(b, a),
{
    paths::lemma_path_order(a.0, b.0, c.0);
    paths::lemma_path_order(a.0, a.0, a.0);
    paths::lemma_path_order(b.0, a.0, c.0);
    text::lemma_before_irreflexive(a.1);
    text::lemma_before_irreflexive(a.2);
    text::lemma_before_total(a.1, b.1);
    text::lemma_before_total(a.2, b.2);
    if before(a.1, b.1) {
        text::lemma_before_asymmetric(a.1, b.1);
    }
    if before(a.2, b.2) {
        text::lemma_before_asymmetric(a.2, b.2);
    }
    if before(a.1, b.1) && before(b.1, c.1) {
        text::lemma_before_transitive(a.1, b.1, c.1);
    }
    if before(a.2, b.2) && before(b.2, c.2) {
        text::lemma_before_transitive(a.2, b.2, c.2);
    }
}

impl PartialEq for DeadLink {
    fn eq(&self, other: &DeadLink) -> (r: bool) {
        proof {
            lemma_dead_order(dead_view(*self), dead_view(*other), dead_view(*self));
        }
        match order_dead(self, other) {
            Rank::Same => true,
            _ => false,
        }
    }
}

impl vstd::std_specs::cmp::PartialEqSpecImpl for DeadLink {
    open spec fn obeys_eq_spec() -> bool {
        true
    }

    open spec fn eq_spec(&self, other: &DeadLink) -> bool {
        same_dead(dead_view(*self), dead_view(*other))
    }
}

impl PartialOrd for DeadLink {
    fn partial_cmp(&self, other: &DeadLink) -> (r: Option<core::cmp::Ordering>) {
        proof {
            lemma_dead_order(dead_view(*self), dead_view(*other), dead_view(*self));
            lemma_dead_order(dead_view(*other), dead_view(*self), dead_view(*other));
        }
        match order_dead(self, other) {
            Rank::Below => Some(core::cmp::Ordering::Less),
            Rank::Same => Some(core::cmp::Ordering::Equal),
            Rank::Above => Some(core::cmp::Ordering::Greater),
        }
    }
}

impl vstd::std_specs::cmp::PartialOrdSpecImpl for DeadLink {
    open spec fn obeys_partial_cmp_spec() -> bool {
        true
    }

    open spec fn partial_cmp_spec(&self, other: &DeadLink) -> Option<core::cmp::Ordering> {
        let (a, b) = (dead_view(*self), dead_view(*other));
        if dead_before(a, b) {
            Some(core::cmp::Ordering::Less)
        } else if dead_before(b, a) {
            Some(core::cmp::Ordering::Greater)
        } else {
            Some(core::cmp::Ordering::Equal)
        }
    }
}

/// Where a reason sorts.
fn reason_number(r: Reason) -> (n: u8)
    ensures
        n == reason_rank(r),
{
    match r {
        Reason::NoSuchRoute => 0,
        Reason::NoSuchAsset => 1,
        Reason::NoSuchAnchor => 2,
        Reason::RelativeOnErrorPage => 3,
    }
}

/// How two dead links compare in the report order.
fn order_dead(a: &DeadLink, b: &DeadLink) -> (r: Rank)
    ensures
        match r {
            Rank::Below => dead_before(dead_view(*a), dead_view(*b)),
            Rank::Same => same_dead(dead_view(*a), dead_view(*b)),
            Rank::Above => dead_before(dead_view(*b), dead_view(*a)),
        },
{
    match paths::compare_paths(a.source.as_str(), b.source.as_str()) {
        Rank::Below => return Rank::Below,
        Rank::Above => return Rank::Above,
        Rank::Same => {},
    }
    let a1 = text::chars_of(a.href.as_str());
    let b1 = text::chars_of(b.href.as_str());
    match text::rank(a1.as_slice(), b1.as_slice()) {
        Rank::Below => return Rank::Below,
        Rank::Above => return Rank::Above,
        Rank::Same => {},
    }
    let a2 = text::chars_of(a.target.as_str());
    let b2 = text::chars_of(b.target.as_str());
    match text::rank(a2.as_slice(), b2.as_slice()) {
        Rank::Below => return Rank::Below,
        Rank::Above => return Rank::Above,
        Rank::Same => {},
    }
    let x = reason_number(a.reason);
    let y = reason_number(b.reason);
    if x < y {
        Rank::Below
    } else if y < x {
        Rank::Above
    } else {
        assert(a.reason == b.reason);
        Rank::Same
    }
}

/// Adds a dead link to a sorted report, unless the same report is already
/// there.
fn insert_sorted(out: &mut Vec<DeadLink>, d: DeadLink)
    requires
        strictly_sorted(dead_views(old(out)@)),
    ensures
        strictly_sorted(dead_views(final(out)@)),
        reported(dead_views(old(out)@), dead_view(d)) ==> final(out)@ == old(out)@,
        !reported(dead_views(old(out)@), dead_view(d)) ==> forall|x: DeadView|
            dead_views(final(out)@).contains(x) <==> (dead_views(old(out)@).contains(x) || x
                == dead_view(d)),
{
    let ghost old_views = dead_views(out@);
    let ghost dv = dead_view(d);
    let mut i: usize = 0;
    loop
        invariant
            i <= out.len(),
            out@ == old(out)@,
            old_views == dead_views(out@),
            dv == dead_view(d),
            strictly_sorted(old_views),
            forall|j: int| 0 <= j < i ==> dead_before(#[trigger] old_views[j], dv),
        ensures
            i <= out.len(),
            out@ == old(out)@,
            forall|j: int| 0 <= j < i ==> dead_before(#[trigger] old_views[j], dv),
            i < out.len() ==> dead_before(dv, old_views[i as int]),
        decreases out.len() - i,
    {
        if i == out.len() {
            break;
        }
        match order_dead(&out[i], &d) {
            Rank::Below => {
                i = i + 1;
            },
            Rank::Same => {
                proof {
                    assert(same_dead(old_views[i as int], dv));
                    assert(reported(old_views, dv));
                }
                return;
            },
            Rank::Above => {
                break;
            },
        }
    }
    proof {
        assert(!reported(old_views, dv)) by {
            if reported(old_views, dv) {
                let k = choose|k: int| 0 <= k < old_views.len() && same_dead(#[trigger] old_views[k], dv);
                if k < i {
                    lemma_dead_order(old_views[k], dv, dv);
                } else {
                    if k > i {
                        lemma_dead_order(dv, old_views[i as int], old_views[k]);
                    }
                    lemma_dead_order(dv, old_views[k], dv);
                }
            }
        }
    }
    out.insert(i, d);
    proof {
        let n = dead_views(out@);
        assert(n =~= old_views.insert(i as int, dv));
        assert forall|p: int, q: int| 0 <= p < q < n.len() implies dead_before(
            #[trigger] n[p],
            #[trigger] n[q],
        ) by {
            if q < i {
                assert(n[p] == old_views[p] && n[q] == old_views[q]);
            } else if q == i {
                assert(n[p] == old_views[p]);
            } else if p < i {
                assert(n[p] == old_views[p] && n[q] == old_views[q - 1]);
                lemma_dead_order(old_views[p], dv, old_views[q - 1]);
                if q - 1 > i {
                    lemma_dead_order(dv, old_views[i as int], old_views[q - 1]);
                }
            } else if p == i {
                assert(n[q] == old_views[q - 1]);
                if q - 1 > i {
                    lemma_dead_order(dv, old_views[i as int], old_views[q - 1]);
                }
            } else {
                assert(n[p] == old_views[p - 1] && n[q] == old_views[q - 1]);
            }
        }
        assert forall|x: DeadView| n.contains(x) <==> (old_views.contains(x) || x == dv) by {
            if n.contains(x) {
                let k = choose|k: int| 0 <= k < n.len() && n[k] == x;
                if k < i {
                    assert(old_views[k] == x);
                } else if k > i {
                    assert(old_views[k - 1] == x);
                }
            }
            if old_views.contains(x) {
                let k = choose|k: int| 0 <= k < old_views.len() && old_views[k] == x;
                if k < i {
                    assert(n[k] == x);
                } else {
                    assert(n[k + 1] == x);
                }
            }
            if x == dv {
                assert(n[i as int] == x);
            }
        }
    }
}

/// What the report keeps while links are found: sorted, holding the first
/// link of each report in `all`, and a link for every report in `all`.
pub open spec fn keeps_reports(dead: Seq<DeadView>, all: Seq<DeadView>) -> bool {
    &&& strictly_sorted(dead)
    &&& forall|x: DeadView| dead.contains(x) <==> first_report(all, x)
    &&& forall|j: int| 0 <= j < all.len() ==> reported(dead, #[trigger] all[j])
}

/// Adding one more dead link, as `insert_sorted` does, keeps the report.
proof fn lemma_keeps_reports(dead: Seq<DeadView>, next: Seq<DeadView>, all: Seq<DeadView>, dv: DeadView)
    requires
        keeps_reports(dead, all),
        strictly_sorted(next),
        reported(dead, dv) ==> next == dead,
        !reported(dead, dv) ==> forall|x: DeadView| next.contains(x) <==> (dead.contains(x) || x == dv),
    ensures
        keeps_reports(next, all.push(dv)),
{
    let all2 = all.push(dv);
    // Whether `dv` repeats a report seen before is the same asked of `dead`
    // or of `all`.
    assert(reported(dead, dv) <==> exists|j: int| 0 <= j < all.len() && same_dead(#[trigger] all[j], dv)) by {
        if reported(dead, dv) {
            let k = choose|k: int| 0 <= k < dead.len() && same_dead(#[trigger] dead[k], dv);
            assert(dead.contains(dead[k]));
            assert(first_report(all, dead[k]));
            let i = choose|i: int|
                0 <= i < all.len() && #[trigger] all[i] == dead[k] && forall|j: int|
                    0 <= j < i ==> !same_dead(#[trigger] all[j], dead[k]);
            assert(same_dead(all[i], dv));
        }
        if exists|j: int| 0 <= j < all.len() && same_dead(#[trigger] all[j], dv) {
            let j = choose|j: int| 0 <= j < all.len() && same_dead(#[trigger] all[j], dv);
            assert(reported(dead, all[j]));
            let k = choose|k: int| 0 <= k < dead.len() && same_dead(#[trigger] dead[k], all[j]);
            assert(same_dead(dead[k], dv));
        }
    }
    assert forall|x: DeadView| first_report(all2, x) <==> (first_report(all, x) || (x == dv
        && !reported(dead, dv))) by {
        if first_report(all, x) {
            let i = choose|i: int|
                0 <= i < all.len() && #[trigger] all[i] == x && forall|j: int|
                    0 <= j < i ==> !same_dead(#[trigger] all[j], x);
            assert(all2[i] == x);
            assert forall|j: int| 0 <= j < i implies !same_dead(#[trigger] all2[j], x) by {
                assert(all2[j] == all[j]);
            }
        }
        if x == dv && !reported(dead, dv) {
            assert(all2[all.len() as int] == x);
            assert forall|j: int| 0 <= j < all.len() implies !same_dead(#[trigger] all2[j], x) by {
                assert(all2[j] == all[j]);
            }
        }
        if first_report(all2, x) {
            let i = choose|i: int|
                0 <= i < all2.len() && #[trigger] all2[i] == x && forall|j: int|
                    0 <= j < i ==> !same_dead(#[trigger] all2[j], x);
            if i < all.len() {
                assert(all[i] == x);
                assert forall|j: int| 0 <= j < i implies !same_dead(#[trigger] all[j], x) by {
                    assert(all2[j] == all[j]);
                    assert(!same_dead(all2[j], x));
                }
            } else {
                assert(x == dv);
                assert forall|j: int| 0 <= j < all.len() implies !same_dead(#[trigger] all[j], dv) by {
                    assert(all2[j] == all[j]);
                    assert(!same_dead(all2[j], x));
                }
            }
        }
    }
    if reported(dead, dv) {
        assert forall|j: int| 0 <= j < all2.len() implies reported(next, #[trigger] all2[j]) by {
            if j < all.len() {
                assert(all2[j] == all[j]);
                assert(reported(dead, all[j]));
            }
        }
    } else {
        assert forall|j: int| 0 <= j < all2.len() implies reported(next, #[trigger] all2[j]) by {
            if j < all.len() {
                assert(all2[j] == all[j]);
                assert(reported(dead, all[j]));
                let k = choose|k: int| 0 <= k < dead.len() && same_dead(#[trigger] dead[k], all[j]);
                assert(dead.contains(dead[k]));
                assert(next.contains(dead[k]));
                let m = choose|m: int| 0 <= m < next.len() && next[m] == dead[k];
                assert(same_dead(next[m], all2[j]));
            } else {
                assert(all2[j] == dv);
                assert(next.contains(dv));
                let m = choose|m: int| 0 <= m < next.len() && next[m] == dv;
                assert(same_dead(next[m], all2[j]));
            }
        }
    }
}

// ------------------------------------------------------------------ checking

/// One rendered page, awaiting checking.
pub struct Rendered<'a> {
    /// The content file it came from, for diagnostics.
    pub source: &'a str,
    /// The URL the page is served at, which relative links resolve against.
    pub url: &'a str,
    /// The rendered HTML.
    pub html: &'a str,
    /// The heading ids on this page, for fragments that point into it.
    pub anchors: &'a [String],
    /// Whether this is the error page, which is served in place of any
    /// missing path and so has no directory for a relative link.
    pub error_page: bool,
}

/// A rendered page as plain values.
pub struct PageView {
    pub source: Seq<char>,
    pub url: Seq<char>,
    pub html: Seq<char>,
    pub anchors: Seq<Seq<char>>,
    pub error_page: bool,
}

/// The plain values of a rendered page.
pub open spec fn page_view(p: Rendered) -> PageView {
    PageView {
        source: p.source@,
        url: p.url@,
        html: p.html@,
        anchors: texts(p.anchors@),
        error_page: p.error_page,
    }
}

/// The plain values of rendered pages.
pub open spec fn page_views(ps: Seq<Rendered>) -> Seq<PageView> {
    ps.map_values(|p: Rendered| page_view(p))
}

/// Every route the build will write, each once, with the heading ids on
/// each.
pub type Routes = Vec<(String, Vec<String>)>;

/// No route occurs twice in a route table: it stands for a map from each
/// route to its heading ids.
pub open spec fn unique_routes(routes: Seq<(Seq<char>, Seq<Seq<char>>)>) -> bool {
    forall|i: int, j: int| 0 <= i < routes.len() && 0 <= j < routes.len() && i != j ==> routes[i].0 != routes[j].0
}

/// The plain values of a route table.
pub open spec fn routes_view(routes: Seq<(String, Vec<String>)>) -> Seq<(Seq<char>, Seq<Seq<char>>)> {
    routes.map_values(|r: (String, Vec<String>)| (r.0@, texts(r.1@)))
}

/// The heading ids of the first route at or after `from` named `key`.
pub open spec fn route_at(routes: Seq<(Seq<char>, Seq<Seq<char>>)>, key: Seq<char>, from: int) -> Option<
    Seq<Seq<char>>,
>
    decreases routes.len() - from,
{
    if from < 0 || from >= routes.len() {
        None
    } else if routes[from].0 == key {
        Some(routes[from].1)
    } else {
        route_at(routes, key, from + 1)
    }
}

/// What is wrong with a link, resolved to `path` and `fragment`, that does
/// not stay on its own page.
pub open spec fn link_reason(
    path: Seq<char>,
    fragment: Option<Seq<char>>,
    routes: Seq<(Seq<char>, Seq<Seq<char>>)>,
    assets: Seq<Seq<char>>,
) -> Option<Reason> {
    if path.len() > 0 && path.last() == '/' {
        match route_at(routes, text::trim_by(path.drop_last(), text::is('/')), 0) {
            None => Some(Reason::NoSuchRoute),
            Some(anchors) => match fragment {
                Some(a) => if anchors.contains(a) {
                    None
                } else {
                    Some(Reason::NoSuchAnchor)
                },
                None => None,
            },
        }
    } else if assets.contains(text::trim_start_by(path, text::is('/'))) {
        None
    } else {
        Some(Reason::NoSuchAsset)
    }
}

/// What checking one link finds: `None` when it is not checked at all,
/// `Some(None)` when it is live, and the dead link otherwise.
pub open spec fn outcome(
    base: Seq<char>,
    page: PageView,
    href: Seq<char>,
    routes: Seq<(Seq<char>, Seq<Seq<char>>)>,
    assets: Seq<Seq<char>>,
) -> Option<Option<DeadView>> {
    match resolve_spec(base, page.url, href) {
        None => None,
        Some((path, fragment)) => Some(
            if page.error_page && relative(href) {
                Some((page.source, href, href, Reason::RelativeOnErrorPage))
            } else if href.len() > 0 && href[0] == '#' {
                match fragment {
                    Some(a) => if page.anchors.contains(a) {
                        None
                    } else {
                        Some((page.source, href, path + seq!['#'] + a, Reason::NoSuchAnchor))
                    },
                    None => None,
                }
            } else {
                match link_reason(path, fragment, routes, assets) {
                    None => None,
                    Some(r) => Some(
                        (
                            page.source,
                            href,
                            if r == Reason::NoSuchAnchor && fragment is Some {
                                path + seq!['#'] + fragment->0
                            } else {
                                path
                            },
                            r,
                        ),
                    ),
                }
            },
        ),
    }
}

/// A link that only names a fragment of the page it is written on.  It is
/// checked against that page's headings, and not counted among the links
/// examined.
pub open spec fn bare_fragment(href: Seq<char>) -> bool {
    href.len() > 0 && href[0] == '#'
}

/// The dead links among `hs`, written on `page`, and how many of the links
/// that are not bare fragments were checked.
pub open spec fn page_links(
    base: Seq<char>,
    page: PageView,
    hs: Seq<Seq<char>>,
    routes: Seq<(Seq<char>, Seq<Seq<char>>)>,
    assets: Seq<Seq<char>>,
) -> (Seq<DeadView>, nat)
    decreases hs.len(),
{
    if hs.len() == 0 {
        (Seq::empty(), 0)
    } else {
        let (d, n) = page_links(base, page, hs.drop_last(), routes, assets);
        let counted: nat = if bare_fragment(hs.last()) {
            0
        } else {
            1
        };
        match outcome(base, page, hs.last(), routes, assets) {
            None => (d, n),
            Some(None) => (d, n + counted),
            Some(Some(x)) => (d.push(x), n + counted),
        }
    }
}

/// The dead links on every page, in page order, and how many links were
/// checked.
pub open spec fn all_links(
    base: Seq<char>,
    pages: Seq<PageView>,
    routes: Seq<(Seq<char>, Seq<Seq<char>>)>,
    assets: Seq<Seq<char>>,
) -> (Seq<DeadView>, nat)
    decreases pages.len(),
{
    if pages.len() == 0 {
        (Seq::empty(), 0)
    } else {
        let (d, n) = all_links(base, pages.drop_last(), routes, assets);
        let (e, m) = page_links(base, pages.last(), hrefs_spec(pages.last().html), routes, assets);
        (d + e, n + m)
    }
}

/// How many characters of HTML the pages hold together.
pub open spec fn html_total(pages: Seq<PageView>) -> nat
    decreases pages.len(),
{
    if pages.len() == 0 {
        0
    } else {
        html_total(pages.drop_last()) + pages.last().html.len()
    }
}

proof fn lemma_page_links_count(
    base: Seq<char>,
    page: PageView,
    hs: Seq<Seq<char>>,
    routes: Seq<(Seq<char>, Seq<Seq<char>>)>,
    assets: Seq<Seq<char>>,
)
    ensures
        page_links(base, page, hs, routes, assets).1 <= hs.len(),
    decreases hs.len(),
{
    if hs.len() > 0 {
        lemma_page_links_count(base, page, hs.drop_last(), routes, assets);
    }
}

proof fn lemma_all_links_count(
    base: Seq<char>,
    pages: Seq<PageView>,
    routes: Seq<(Seq<char>, Seq<Seq<char>>)>,
    assets: Seq<Seq<char>>,
)
    ensures
        all_links(base, pages, routes, assets).1 <= html_total(pages),
    decreases pages.len(),
{
    if pages.len() > 0 {
        lemma_all_links_count(base, pages.drop_last(), routes, assets);
        lemma_page_links_count(base, pages.last(), hrefs_spec(pages.last().html), routes, assets);
        lemma_hrefs_count(pages.last().html);
    }
}

proof fn lemma_html_total_prefix(pages: Seq<PageView>, i: int)
    requires
        0 <= i <= pages.len(),
    ensures
        html_total(pages.take(i)) <= html_total(pages),
    decreases pages.len(),
{
    if i < pages.len() {
        assert(pages.take(i) =~= pages.drop_last().take(i));
        lemma_html_total_prefix(pages.drop_last(), i);
    } else {
        assert(pages.take(i) =~= pages);
    }
}

/// The outcome of a check: what was examined, and what was dead.
#[derive(Debug, Clone, PartialEq, Eq)]
pub struct Check {
    /// Every dead internal link, sorted and deduplicated.
    pub dead: Vec<DeadLink>,
    /// How many internal links were resolved.  External links, bare
    /// fragments and anything outside the base path are not counted.
    pub examined: usize,
}

/// Whether a text is among the strings.
fn holds_text(xs: &[String], x: &[char]) -> (b: bool)
    ensures
        b == texts(xs@).contains(x@),
{
    let mut i: usize = 0;
    while i < xs.len()
        invariant
            i <= xs.len(),
            forall|j: int| 0 <= j < i ==> xs@[j]@ != x@,
        decreases xs.len() - i,
    {
        let c = text::chars_of(xs[i].as_str());
        if text::equal(c.as_slice(), x) {
            assert(texts(xs@)[i as int] == x@);
            return true;
        }
        i = i + 1;
    }
    proof {
        if texts(xs@).contains(x@) {
            let k = choose|k: int| 0 <= k < texts(xs@).len() && texts(xs@)[k] == x@;
            assert(xs@[k]@ == x@);
        }
    }
    false
}

/// The heading ids of the route named `key`.
fn find_route(routes: &[(String, Vec<String>)], key: &[char]) -> (r: Option<usize>)
    ensures
        match r {
            Some(i) => i < routes.len() && route_at(routes_view(routes@), key@, 0) == Some(
                texts(routes@[i as int].1@),
            ),
            None => route_at(routes_view(routes@), key@, 0) is None,
        },
{
    let ghost rv = routes_view(routes@);
    let mut i: usize = 0;
    while i < routes.len()
        invariant
            i <= routes.len(),
            rv == routes_view(routes@),
            route_at(rv, key@, 0) == route_at(rv, key@, i as int),
        decreases routes.len() - i,
    {
        let c = text::chars_of(routes[i].0.as_str());
        if text::equal(c.as_slice(), key) {
            return Some(i);
        }
        i = i + 1;
    }
    None
}

/// A path, a `#`, and an anchor.
fn with_anchor(path: &str, anchor: &str) -> (s: String)
    ensures
        s@ == path@ + seq!['#'] + anchor@,
{
    let mut s = String::from_str(path);
    text::push_char(&mut s, '#');
    s.append(anchor);
    s
}

/// Checks one link written on one page.
fn outcome_of(
    config: &Config,
    page: &Rendered,
    href: &String,
    routes: &[(String, Vec<String>)],
    assets: &[String],
) -> (r: Option<Option<DeadLink>>)
    ensures
        match r {
            None => outcome(config.base@, page_view(*page), href@, routes_view(routes@), texts(assets@)) is None,
            Some(None) => outcome(config.base@, page_view(*page), href@, routes_view(routes@), texts(assets@))
                == Some(None::<DeadView>),
            Some(Some(d)) => outcome(config.base@, page_view(*page), href@, routes_view(routes@), texts(
                assets@,
            )) == Some(Some(dead_view(d))),
        },
{
    let link = match resolve(config, page.url, href.as_str()) {
        None => return None,
        Some(link) => link,
    };
    let source = String::from_str(page.source);
    if page.error_page && is_relative(href.as_str()) {
        return Some(
            Some(
                DeadLink {
                    source,
                    href: href.clone(),
                    target: href.clone(),
                    reason: Reason::RelativeOnErrorPage,
                },
            ),
        );
    }
    let h = text::chars_of(href.as_str());
    if h.len() > 0 && h[0] == '#' {
        match &link.fragment {
            Some(anchor) => {
                let a = text::chars_of(anchor.as_str());
                if holds_text(page.anchors, a.as_slice()) {
                    return Some(None);
                }
                let target = with_anchor(link.path.as_str(), anchor.as_str());
                return Some(
                    Some(
                        DeadLink {
                            source,
                            href: href.clone(),
                            target,
                            reason: Reason::NoSuchAnchor,
                        },
                    ),
                );
            },
            None => return Some(None),
        }
    }
    let path = text::chars_of(link.path.as_str());
    let reason = if path.len() > 0 && path[path.len() - 1] == '/' {
        let (a, b) = text::trim_class_bounds(path.as_slice(), 0, path.len() - 1, &Trim::Only('/'));
        assert(path@.subrange(0, path.len() - 1) =~= path@.drop_last());
        let route = text::copy_range(path.as_slice(), a, b);
        match find_route(routes, route.as_slice()) {
            None => Some(Reason::NoSuchRoute),
            Some(i) => match &link.fragment {
                Some(anchor) => {
                    let x = text::chars_of(anchor.as_str());
                    if holds_text(routes[i].1.as_slice(), x.as_slice()) {
                        None
                    } else {
                        Some(Reason::NoSuchAnchor)
                    }
                },
                None => None,
            },
        }
    } else {
        let (a, _) = text::trim_class_bounds(path.as_slice(), 0, path.len(), &Trim::Only('/'));
        assert(path@.subrange(0, path.len() as int) =~= path@);
        let rest = text::copy_range(path.as_slice(), a, path.len());
        if holds_text(assets, rest.as_slice()) {
            None
        } else {
            Some(Reason::NoSuchAsset)
        }
    };
    match reason {
        None => Some(None),
        Some(r) => {
            let target = match (&link.fragment, r) {
                (Some(anchor), Reason::NoSuchAnchor) => with_anchor(
                    link.path.as_str(),
                    anchor.as_str(),
                ),
                _ => link.path.clone(),
            };
            Some(Some(DeadLink { source, href: href.clone(), target, reason: r }))
        },
    }
}

/// Checks every internal link in every page.
///
/// A link resolving to a directory is checked against `routes`; a link
/// resolving to a file is checked against `assets`; a fragment is checked
/// against the target page's headings.  Anything external is left alone.
/// The dead links come back sorted, each report once: where two links are
/// the same report, the one found first stays.
pub fn check(
    config: &Config,
    pages: &[Rendered],
    routes: &[(String, Vec<String>)],
    assets: &[String],
) -> (r: Check)
    requires
        html_total(page_views(pages@)) <= usize::MAX,
        unique_routes(routes_view(routes@)),
    ensures
        r.examined == all_links(config.base@, page_views(pages@), routes_view(routes@), texts(assets@)).1,
        strictly_sorted(dead_views(r.dead@)),
        forall|x: DeadView|
            dead_views(r.dead@).contains(x) <==> first_report(
                all_links(config.base@, page_views(pages@), routes_view(routes@), texts(assets@)).0,
                x,
            ),
{
    let ghost base = config.base@;
    let ghost pv = page_views(pages@);
    let ghost rv = routes_view(routes@);
    let ghost av = texts(assets@);
    let mut dead: Vec<DeadLink> = Vec::new();
    let mut examined: usize = 0;
    let mut i: usize = 0;
    proof {
        lemma_all_links_count(base, pv, rv, av);
    }
    while i < pages.len()
        invariant
            i <= pages.len(),
            base == config.base@,
            pv == page_views(pages@),
            rv == routes_view(routes@),
            av == texts(assets@),
            html_total(pv) <= usize::MAX,
            examined == all_links(base, pv.take(i as int), rv, av).1,
            keeps_reports(dead_views(dead@), all_links(base, pv.take(i as int), rv, av).0),
        decreases pages.len() - i,
    {
        let page = &pages[i];
        let hs = hrefs(page.html);
        let ghost prior = all_links(base, pv.take(i as int), rv, av);
        let ghost here = pv[i as int];
        assert(here == page_view(*page));
        proof {
            lemma_all_links_count(base, pv.take(i as int), rv, av);
        }
        let mut j: usize = 0;
        while j < hs.len()
            invariant
                i < pages.len(),
                j <= hs.len(),
                *page == pages@[i as int],
                here == page_view(*page),
                base == config.base@,
                pv == page_views(pages@),
                rv == routes_view(routes@),
                av == texts(assets@),
                texts(hs@) == hrefs_spec(here.html),
                html_total(pv) <= usize::MAX,
                prior == all_links(base, pv.take(i as int), rv, av),
                prior.1 <= html_total(pv.take(i as int)),
                examined == prior.1 + page_links(base, here, texts(hs@).take(j as int), rv, av).1,
                keeps_reports(
                    dead_views(dead@),
                    prior.0 + page_links(base, here, texts(hs@).take(j as int), rv, av).0,
                ),
            decreases hs.len() - j,
        {
            let ghost hv = texts(hs@);
            proof {
                assert(hv.take(j + 1).drop_last() =~= hv.take(j as int));
                assert(hv.take(j + 1).last() == hs@[j as int]@);
                lemma_page_links_count(base, here, hv.take(j + 1), rv, av);
                lemma_hrefs_count(here.html);
                lemma_html_total_prefix(pv, i + 1);
                assert(pv.take(i + 1).drop_last() =~= pv.take(i as int));
            }
            let ghost before_dead = page_links(base, here, hv.take(j as int), rv, av).0;
            match outcome_of(config, page, &hs[j], routes, assets) {
                None => {},
                Some(found) => {
                    let h = text::chars_of(hs[j].as_str());
                    if !(h.len() > 0 && h[0] == '#') {
                        examined = examined + 1;
                    }
                    match found {
                        None => {},
                        Some(d) => {
                            let ghost dv = dead_view(d);
                            let ghost old_dead = dead_views(dead@);
                            insert_sorted(&mut dead, d);
                            proof {
                                lemma_keeps_reports(
                                    old_dead,
                                    dead_views(dead@),
                                    prior.0 + before_dead,
                                    dv,
                                );
                                assert((prior.0 + before_dead).push(dv) =~= prior.0
                                    + before_dead.push(dv));
                            }
                        },
                    }
                },
            }
            j = j + 1;
        }
        proof {
            assert(texts(hs@).take(hs.len() as int) =~= texts(hs@));
            assert(pv.take(i + 1).drop_last() =~= pv.take(i as int));
            assert(pv.take(i + 1).last() == here);
            lemma_all_links_count(base, pv.take(i + 1), rv, av);
            lemma_html_total_prefix(pv, i + 1);
        }
        i = i + 1;
    }
    assert(pv.take(pages.len() as int) =~= pv);
    assert(forall|x: DeadView|
        dead_views(dead@).contains(x) <==> first_report(all_links(base, pv, rv, av).0, x));
    Check { dead, examined }
}

// ------------------------------------------------------------------ own links

/// A path piece `resolve` keeps as it is: not empty, not `.`, not `..`.
pub open spec fn plain_piece(p: Seq<char>) -> bool {
    p.len() > 0 && p != seq!['.'] && p != seq!['.', '.']
}

/// No piece of `s` between slashes is `.` or `..`.
pub open spec fn no_dot_pieces(s: Seq<char>) -> bool {
    forall|i: int|
        0 <= i < split_on(s, '/').len() ==> #[trigger] split_on(s, '/')[i] != seq!['.']
            && split_on(s, '/')[i] != seq!['.', '.']
}

proof fn lemma_split_concat(a: Seq<char>, b: Seq<char>)
    ensures
        split_on(a + seq!['/'] + b, '/') == split_on(a, '/') + split_on(b, '/'),
    decreases b.len(),
{
    let s = a + seq!['/'] + b;
    if b.len() == 0 {
        assert(s.drop_last() =~= a);
        assert(split_on(a, '/').push(Seq::empty()) =~= split_on(a, '/') + seq![Seq::<char>::empty()]);
    } else {
        lemma_split_concat(a, b.drop_last());
        assert(s.drop_last() =~= a + seq!['/'] + b.drop_last());
        text::lemma_split_on_len(b.drop_last(), '/');
        let l = split_on(a, '/');
        let r = split_on(b.drop_last(), '/');
        if b.last() == '/' {
            assert((l + r).push(Seq::empty()) =~= l + r.push(Seq::empty()));
        } else {
            let rest = l + r;
            assert(rest.update(rest.len() - 1, rest.last().push(b.last())) =~= l + r.update(
                r.len() - 1,
                r.last().push(b.last()),
            ));
        }
    }
}

proof fn lemma_join_split(s: Seq<char>)
    ensures
        join(split_on(s, '/'), seq!['/']) == s,
    decreases s.len(),
{
    if s.len() > 0 {
        let s0 = s.drop_last();
        lemma_join_split(s0);
        text::lemma_split_on_len(s0, '/');
        let r = split_on(s0, '/');
        if s.last() == '/' {
            let q = r.push(Seq::empty());
            assert(q.drop_last() =~= r);
            assert(join(q, seq!['/']) == join(r, seq!['/']) + seq!['/'] + Seq::<char>::empty());
            assert(s0 + seq!['/'] + Seq::<char>::empty() =~= s);
        } else {
            let q = r.update(r.len() - 1, r.last().push(s.last()));
            if r.len() == 1 {
                assert(join(r, seq!['/']) == r[0]);
                assert(q.len() == 1);
                assert(join(q, seq!['/']) == q[0]);
                assert(q[0] =~= s0.push(s.last()));
            } else {
                assert(q.drop_last() =~= r.drop_last());
                assert(join(q, seq!['/']) == join(r.drop_last(), seq!['/']) + seq!['/'] + q.last());
                assert(join(r, seq!['/']) == join(r.drop_last(), seq!['/']) + seq!['/'] + r.last());
                assert(join(q, seq!['/']) =~= join(r, seq!['/']).push(s.last()));
            }
            assert(s0.push(s.last()) =~= s);
        }
    }
}

/// Between slashes, a text that neither starts with one nor doubles one has
/// only non-empty pieces, but for a last one left empty by a trailing slash.
proof fn lemma_pieces_nonempty(s: Seq<char>)
    requires
        s.len() > 0,
        s[0] != '/',
        text::no_double_slash(s),
    ensures
        forall|j: int| 0 <= j < split_on(s, '/').len() - 1 ==> #[trigger] split_on(s, '/')[j].len() > 0,
        (split_on(s, '/').last().len() == 0) == (s.last() == '/'),
    decreases s.len(),
{
    if s.len() == 1 {
        assert(s.drop_last() =~= Seq::<char>::empty());
    } else {
        let s0 = s.drop_last();
        assert(s0[0] == s[0]);
        assert(text::no_double_slash(s0)) by {
            assert forall|j: int| 0 <= j < s0.len() - 1 implies !#[trigger] text::slash_pair(s0, j) by {
                assert(!text::slash_pair(s, j));
            }
        }
        lemma_pieces_nonempty(s0);
        text::lemma_split_on_len(s0, '/');
        if s.last() == '/' {
            assert(!text::slash_pair(s, s.len() - 2));
            assert(s0.last() == s[s.len() - 2]);
        }
    }
}

/// Walking pieces that are all plain keeps them all, after whatever came
/// before.
proof fn lemma_walk_plain(xs: Seq<Seq<char>>, ys: Seq<Seq<char>>)
    requires
        forall|j: int| 0 <= j < ys.len() ==> plain_piece(#[trigger] ys[j]),
    ensures
        walk(xs + ys) == walk(xs) + ys,
    decreases ys.len(),
{
    if ys.len() == 0 {
        assert(xs + ys =~= xs);
        assert(walk(xs) + ys =~= walk(xs));
    } else {
        let y0 = ys.drop_last();
        assert forall|j: int| 0 <= j < y0.len() implies plain_piece(#[trigger] y0[j]) by {
            assert(y0[j] == ys[j]);
        }
        lemma_walk_plain(xs, y0);
        assert((xs + ys).drop_last() =~= xs + y0);
        assert((xs + ys).last() == ys.last());
        assert(plain_piece(ys.last()));
        assert(walk(xs) + y0.push(ys.last()) =~= walk(xs) + ys);
    }
}

proof fn lemma_trim_noop(s: Seq<char>, p: spec_fn(char) -> bool)
    requires
        s.len() > 0,
        !p(s[0]),
        !p(s.last()),
    ensures
        text::trim_by(s, p) == s,
{
    text::lemma_lead_is(s, p, 0);
    assert(s.skip(0) =~= s);
    text::lemma_trail_is(s, p, 0);
    assert(s.take(s.len() as int) =~= s);
}

/// The pieces of `/m/`, walked and joined again, give back `/m`.
proof fn lemma_walk_framed(m: Seq<char>)
    requires
        forall|j: int| 0 <= j < split_on(m, '/').len() ==> plain_piece(#[trigger] split_on(m, '/')[j]),
    ensures
        seq!['/'] + join(walk(split_on(seq!['/'] + m + seq!['/'], '/')), seq!['/']) == seq!['/'] + m,
{
    let e = Seq::<char>::empty();
    lemma_split_concat(e, m + seq!['/']);
    assert(e + seq!['/'] + (m + seq!['/']) =~= seq!['/'] + m + seq!['/']);
    lemma_split_concat(m, e);
    assert(m + seq!['/'] + e =~= m + seq!['/']);
    let sm = split_on(m, '/');
    assert(split_on(e, '/') =~= seq![e]);
    let pieces = seq![e] + sm + seq![e];
    assert(split_on(seq!['/'] + m + seq!['/'], '/') =~= pieces);
    assert(pieces.drop_last() =~= seq![e] + sm);
    lemma_walk_plain(seq![e], sm);
    assert(seq![e].drop_last() =~= Seq::<Seq<char>>::empty());
    assert(walk(Seq::<Seq<char>>::empty()) =~= Seq::<Seq<char>>::empty());
    assert(seq![e].last() == e);
    assert(walk(seq![e]) =~= Seq::<Seq<char>>::empty());
    assert(walk(pieces) =~= sm);
    lemma_join_split(m);
}

/// A text that neither starts nor ends with a slash, nor doubles one, and
/// has no `.` or `..` piece, has only plain pieces.
proof fn lemma_plain_pieces(m: Seq<char>)
    requires
        m.len() > 0,
        m[0] != '/',
        m.last() != '/',
        text::no_double_slash(m),
        no_dot_pieces(m),
    ensures
        forall|j: int| 0 <= j < split_on(m, '/').len() ==> plain_piece(#[trigger] split_on(m, '/')[j]),
{
    lemma_pieces_nonempty(m);
    text::lemma_split_on_len(m, '/');
    assert forall|j: int| 0 <= j < split_on(m, '/').len() implies plain_piece(#[trigger] split_on(m, '/')[j]) by {
        if j < split_on(m, '/').len() - 1 {
            assert(split_on(m, '/')[j].len() > 0);
        }
    }
}

/// The shape of a page's path: no slash at either end, none doubled.
proof fn lemma_page_path_shape(route: Seq<char>)
    ensures
        text::no_double_slash(page_path(route)),
        page_path(route).len() > 0 ==> page_path(route)[0] != '/' && page_path(route).last() != '/',
{
    let t = text::trim_by(route, text::is('/'));
    text::lemma_trim_parts(route, text::is('/'));
    url::lemma_squeeze(t);
}

/// Where a link the site built to `route` with [`crate::url::Url::new`]
/// resolves: the route's path between slashes, or `/` for the site root.
pub open spec fn own_target(route: Seq<char>) -> Seq<char> {
    if page_path(route).len() == 0 {
        seq!['/']
    } else {
        seq!['/'] + page_path(route) + seq!['/']
    }
}

/// What a base and a page's path must avoid for the page's URL to resolve
/// as itself: a `#` or `?`, which would start a fragment or a query, and a
/// `.` or `..` piece, which would move the path.
pub open spec fn resolvable(base: Seq<char>, route: Seq<char>) -> bool {
    &&& config::well_based(base)
    &&& no_dot_pieces(base)
    &&& no_dot_pieces(page_path(route))
    &&& !base.contains('#')
    &&& !base.contains('?')
    &&& !page_path(route).contains('#')
    &&& !page_path(route).contains('?')
}

/// A page's URL resolves to the page's own path, wherever it is written.
#[verifier::spinoff_prover]
#[verifier::rlimit(80)]
proof fn lemma_resolve_own(base: Seq<char>, from: Seq<char>, route: Seq<char>)
    requires
        resolvable(base, route),
    ensures
        resolve_spec(base, from, page_url(base, route)) == Some::<(Seq<char>, Option<Seq<char>>)>(
            (own_target(route), None),
        ),
{
    reveal_strlit("/");
    reveal_strlit("//");
    reveal_strlit("://");
    reveal_strlit("mailto:");
    reveal_strlit("data:");
    reveal_strlit("tel:");
    let p = page_path(route);
    let u = page_url(base, route);
    let e = Seq::<char>::empty();
    lemma_page_path_shape(route);
    url::lemma_url_shape(base, route);
    assert(u.take(base.len() as int) == base);
    assert(u[0] == base[0]);
    assert(u.skip(u.len() - 1) == "/"@);
    assert(u.last() == u.skip(u.len() - 1)[0]);
    lemma_trim_noop(u, text::ws());
    assert(!foreign(u)) by {
        if starts_with(u, "//"@) {
            assert(text::occurs_at(u, "//"@, 0));
        }
        if text::contains(u, "://"@) {
            let k = choose|k: int| text::occurs_at(u, "://"@, k);
            assert(u.subrange(k, k + 3)[1] == u[k + 1]);
            assert(u.subrange(k, k + 3)[2] == u[k + 2]);
            assert(u.subrange(k + 1, k + 3) =~= "//"@);
            assert(text::occurs_at(u, "//"@, k + 1));
        }
        if starts_with(u, "mailto:"@) {
            assert(u.take(7)[0] == u[0]);
        }
        if starts_with(u, "data:"@) {
            assert(u.take(5)[0] == u[0]);
        }
        if starts_with(u, "tel:"@) {
            assert(u.take(4)[0] == u[0]);
        }
        if u == seq!['#'] {
            assert(u[0] == '#');
        }
    }
    assert(!u.contains('#') && !u.contains('?')) by {
        if p.len() == 0 {
            assert(u == base);
        } else {
            assert(u == base + p + "/"@);
            assert forall|j: int| 0 <= j < u.len() implies u[j] != '#' && u[j] != '?' by {
                if j < base.len() {
                    assert(u[j] == base[j]);
                } else if j < base.len() + p.len() {
                    assert(u[j] == p[j - base.len()]);
                } else {
                    assert(u[j] == '/');
                }
            }
        }
    }
    text::lemma_find_char(u, '#', u.len() as int);
    text::lemma_find_char(u, '?', u.len() as int);
    assert(fragment_parts(u) == (u, None::<Seq<char>>));
    assert(trim(u) == u);
    assert(u.len() > 0 && u[0] == '/' && u.last() == '/');
    let b = text::trim_end_by(base, text::is('/'));
    if base.len() == 1 {
        assert(base =~= seq!['/']);
        text::lemma_trail_is(base, text::is('/'), 1);
        assert(b =~= e);
        if p.len() == 0 {
            assert(u =~= seq!['/']);
            lemma_split_concat(e, e);
            assert(e + seq!['/'] + e =~= u);
            assert(split_on(e, '/') =~= seq![e]);
            let pieces = seq![e, e];
            assert(split_on(u, '/') =~= pieces);
            assert(pieces.drop_last() =~= seq![e]);
            assert(seq![e].drop_last() =~= Seq::<Seq<char>>::empty());
            assert(walk(Seq::<Seq<char>>::empty()) =~= Seq::<Seq<char>>::empty());
            assert(seq![e].last() == e);
            assert(walk(seq![e]) =~= Seq::<Seq<char>>::empty());
            assert(pieces.last() == e);
            assert(walk(pieces) =~= Seq::<Seq<char>>::empty());
            assert(seq!['/'] + join(walk(split_on(u, '/')), seq!['/']) =~= seq!['/']);
            assert(u.skip(0) =~= u);
            assert(u.take(0) =~= b);
        } else {
            lemma_plain_pieces(p);
            assert(u =~= seq!['/'] + p + seq!['/']);
            lemma_walk_framed(p);
            let out = seq!['/'] + p + seq!['/'];
            assert((seq!['/'] + p).last() == p.last());
            assert((seq!['/'] + p).push('/') =~= out);
            assert(out.skip(0) =~= out);
            assert(out.take(0) =~= b);
        }
    } else {
        assert(base.len() >= 3) by {
            if base.len() == 2 {
                assert(text::slash_pair(base, 0));
            }
        }
        let bi = base.subrange(1, base.len() - 1);
        assert(base =~= seq!['/'] + bi + seq!['/']);
        assert(bi[0] == base[1]);
        assert(!text::slash_pair(base, 0));
        assert(bi.last() == base[base.len() - 2]);
        assert(!text::slash_pair(base, base.len() - 2));
        assert(text::no_double_slash(bi)) by {
            assert forall|j: int| 0 <= j < bi.len() - 1 implies !#[trigger] text::slash_pair(bi, j) by {
                assert(!text::slash_pair(base, j + 1));
            }
        }
        lemma_split_concat(e, bi + seq!['/']);
        assert(e + seq!['/'] + (bi + seq!['/']) =~= base);
        lemma_split_concat(bi, e);
        assert(bi + seq!['/'] + e =~= bi + seq!['/']);
        assert(split_on(e, '/') =~= seq![e]);
        assert(split_on(base, '/') =~= seq![e] + split_on(bi, '/') + seq![e]);
        assert(no_dot_pieces(bi)) by {
            assert forall|i: int| 0 <= i < split_on(bi, '/').len() implies #[trigger] split_on(bi, '/')[i]
                != seq!['.'] && split_on(bi, '/')[i] != seq!['.', '.'] by {
                assert(split_on(base, '/')[i + 1] == split_on(bi, '/')[i]);
            }
        }
        lemma_plain_pieces(bi);
        text::lemma_trail_is(base, text::is('/'), 1);
        assert(b =~= seq!['/'] + bi);
        if p.len() == 0 {
            lemma_walk_framed(bi);
            let out = seq!['/'] + bi + seq!['/'];
            assert((seq!['/'] + bi).last() == bi.last());
            assert((seq!['/'] + bi).push('/') =~= out);
            assert(u == base);
            assert(out.take(b.len() as int) =~= b);
            assert(out.skip(b.len() as int) =~= seq!['/']);
        } else {
            lemma_plain_pieces(p);
            let m = bi + seq!['/'] + p;
            lemma_split_concat(bi, p);
            assert forall|j: int| 0 <= j < split_on(m, '/').len() implies plain_piece(
                #[trigger] split_on(m, '/')[j],
            ) by {
                if j < split_on(bi, '/').len() {
                    assert(split_on(m, '/')[j] == split_on(bi, '/')[j]);
                } else {
                    assert(split_on(m, '/')[j] == split_on(p, '/')[j - split_on(bi, '/').len()]);
                }
            }
            assert(u =~= seq!['/'] + m + seq!['/']);
            lemma_walk_framed(m);
            let out = seq!['/'] + m + seq!['/'];
            assert((seq!['/'] + m).last() == p.last());
            assert((seq!['/'] + m).push('/') =~= out);
            assert(out.take(b.len() as int) =~= b);
            assert(out.skip(b.len() as int) =~= seq!['/'] + p + seq!['/']);
        }
    }
}

/// An href that is another site's or another protocol's: once trimmed, it
/// starts with `tel:`, `mailto:`, `data:` or `//`, or holds `://`.
pub open spec fn not_ours(href: Seq<char>) -> bool {
    let h = trim(href);
    ||| starts_with(h, "tel:"@)
    ||| starts_with(h, "mailto:"@)
    ||| starts_with(h, "data:"@)
    ||| starts_with(h, "//"@)
    ||| text::contains(h, "://"@)
}

/// A phone number, a mail address, inline data or another origin is not the
/// site's business: whatever the base and the page, such an href resolves
/// to nothing, so the check neither examines it nor reports it dead.
pub proof fn lemma_not_ours_is_left_alone(
    base: Seq<char>,
    page: PageView,
    href: Seq<char>,
    routes: Seq<(Seq<char>, Seq<Seq<char>>)>,
    assets: Seq<Seq<char>>,
)
    requires
        not_ours(href),
    ensures
        resolve_spec(base, page.url, href) is None,
        outcome(base, page, href, routes, assets) is None,
{
}

/// A page whose every href is not the site's adds no dead link and no
/// examined link to a check.
pub proof fn lemma_page_of_foreign_links(
    base: Seq<char>,
    page: PageView,
    hs: Seq<Seq<char>>,
    routes: Seq<(Seq<char>, Seq<Seq<char>>)>,
    assets: Seq<Seq<char>>,
)
    requires
        forall|i: int| 0 <= i < hs.len() ==> not_ours(#[trigger] hs[i]),
    ensures
        page_links(base, page, hs, routes, assets) == (Seq::<DeadView>::empty(), 0nat),
    decreases hs.len(),
{
    if hs.len() > 0 {
        lemma_page_of_foreign_links(base, page, hs.drop_last(), routes, assets);
        assert(not_ours(hs[hs.len() - 1]));
        lemma_not_ours_is_left_alone(base, page, hs.last(), routes, assets);
    }
}

/// A link the site writes with [`crate::url::Url::new`] to one of its own
/// routes is never reported dead, whatever page it is written on: it
/// resolves to that route, and carries no fragment to miss.
pub proof fn lemma_own_links_are_live(
    base: Seq<char>,
    page: PageView,
    route: Seq<char>,
    routes: Seq<(Seq<char>, Seq<Seq<char>>)>,
    assets: Seq<Seq<char>>,
)
    requires
        resolvable(base, route),
        route_at(routes, page_path(route), 0) is Some,
    ensures
        outcome(base, page, page_url(base, route), routes, assets) == Some(None::<DeadView>),
{
    let p = page_path(route);
    let u = page_url(base, route);
    lemma_resolve_own(base, page.url, route);
    lemma_page_path_shape(route);
    url::lemma_url_shape(base, route);
    assert(u[0] == base[0]) by {
        assert(u.take(base.len() as int)[0] == u[0]);
    }
    assert(!relative(u)) by {
        reveal_strlit("/");
        assert(u.skip(u.len() - 1)[0] == u.last());
        lemma_trim_noop(u, text::ws());
    }
    let path = own_target(route);
    if p.len() == 0 {
        assert(path.drop_last() =~= Seq::<char>::empty());
        text::lemma_lead_is(Seq::<char>::empty(), text::is('/'), 0);
        text::lemma_trail_is(Seq::<char>::empty(), text::is('/'), 0);
        assert(text::trim_by(path.drop_last(), text::is('/')) =~= p);
    } else {
        assert(path.drop_last() =~= seq!['/'] + p);
        let q = seq!['/'] + p;
        text::lemma_lead_is(q, text::is('/'), 1);
        assert(q.skip(1) =~= p);
        text::lemma_trail_is(p, text::is('/'), 0);
        assert(p.take(p.len() as int) =~= p);
        assert(text::trim_by(path.drop_last(), text::is('/')) == p);
    }
}

} // verus!
