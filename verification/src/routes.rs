//! Where a route comes from, and how to turn a set of them into a type.
//!
//! This module answers one question, what route does this file have, and
//! it is the only place that answers it.  The build uses it to decide where
//! a page is written; a site's build script uses it to generate a `Route`
//! enum, so that a link written in Rust stops compiling when the page it
//! points at is renamed.  Paths are `/`-separated text.

use vstd::prelude::*;

use crate::text::{self, Trim, concat, is_alphanumeric, join, pair_leq, split_on, str_debug, to_uppercase, unicode_alnum, unicode_upper};

verus! {

broadcast use vstd::string::group_string_axioms;

// ------------------------------------------------------------------ paths

/// The components of a path: the pieces between its slashes, with empty
/// and `.` pieces dropped, as `Path::components` reads them.
pub open spec fn parts_of(ps: Seq<Seq<char>>) -> Seq<Seq<char>>
    decreases ps.len(),
{
    if ps.len() == 0 {
        Seq::empty()
    } else {
        let w = parts_of(ps.drop_last());
        let p = ps.last();
        if p.len() == 0 || p == seq!['.'] {
            w
        } else {
            w.push(p)
        }
    }
}

/// The components of a path.
pub open spec fn components(path: Seq<char>) -> Seq<Seq<char>> {
    parts_of(split_on(path, '/'))
}

/// The position of the last `.` in a name, if any.
pub open spec fn last_dot(c: Seq<char>) -> Option<int>
    decreases c.len(),
{
    if c.len() == 0 {
        None
    } else if c.last() == '.' {
        Some(c.len() - 1)
    } else {
        last_dot(c.drop_last())
    }
}

/// Where a file name's extension begins: after its last `.`, unless that
/// `.` is the name's first character or the name is `..`.
pub open spec fn extension_dot(c: Seq<char>) -> Option<int> {
    if c == seq!['.', '.'] {
        None
    } else {
        match last_dot(c) {
            Some(d) => if d > 0 {
                Some(d)
            } else {
                None
            },
            None => None,
        }
    }
}

/// The components of `path` below `root`, or all of them when `path` is not
/// below `root`.
pub open spec fn below(path: Seq<char>, root: Seq<char>) -> Seq<Seq<char>> {
    let p = components(path);
    let r = components(root);
    if r.len() <= p.len() && p.take(r.len() as int) == r {
        p.skip(r.len() as int)
    } else {
        p
    }
}

/// Components with the last one's extension dropped.
pub open spec fn without_extension(ps: Seq<Seq<char>>) -> Seq<Seq<char>> {
    if ps.len() == 0 {
        ps
    } else {
        match extension_dot(ps.last()) {
            Some(d) => ps.update(ps.len() - 1, ps.last().take(d)),
            None => ps,
        }
    }
}

/// The route of the content file at `path` below `root`: its path with the
/// extension dropped, where any `index` takes the route of its directory and
/// the root's own `index` is the empty route.
pub open spec fn route_spec(path: Seq<char>, root: Seq<char>) -> Seq<char> {
    let route = join(without_extension(below(path, root)), seq!['/']);
    if route == seq!['i', 'n', 'd', 'e', 'x'] {
        Seq::empty()
    } else if text::ends_with(route, seq!['/', 'i', 'n', 'd', 'e', 'x']) {
        route.take(route.len() - 6)
    } else {
        route
    }
}

/// The components of a path.
fn components_of(path: &str) -> (r: Vec<Vec<char>>)
    ensures
        r@.map_values(|l: Vec<char>| l@) == components(path@),
{
    let chars = text::chars_of(path);
    let pieces = text::split_chars(chars.as_slice(), '/');
    let ghost views = split_on(path@, '/');
    assert(pieces@.map_values(|l: Vec<char>| l@) =~= views);
    let dot = ['.'];
    assert(dot@ =~= seq!['.']);
    let mut out: Vec<Vec<char>> = Vec::new();
    let mut i: usize = 0;
    while i < pieces.len()
        invariant
            i <= pieces.len(),
            views == split_on(path@, '/'),
            pieces@.len() == views.len(),
            forall|j: int| 0 <= j < pieces@.len() ==> #[trigger] pieces@[j]@ == views[j],
            dot@ == seq!['.'],
            out@.map_values(|l: Vec<char>| l@) == parts_of(views.take(i as int)),
        decreases pieces.len() - i,
    {
        proof {
            assert(views.take(i + 1).drop_last() == views.take(i as int));
            assert(views.take(i + 1).last() == pieces@[i as int]@);
        }
        let p = pieces[i].as_slice();
        if !(p.len() == 0 || text::equal(p, &dot)) {
            out.push(pieces[i].clone());
            assert(out@.map_values(|l: Vec<char>| l@) =~= parts_of(views.take(i as int)).push(
                pieces@[i as int]@,
            ));
        }
        i = i + 1;
    }
    assert(views.take(pieces.len() as int) =~= views);
    out
}

/// Where a name's extension begins.
fn find_extension(c: &[char]) -> (r: Option<usize>)
    ensures
        match r {
            Some(d) => extension_dot(c@) == Some(d as int) && d < c.len(),
            None => extension_dot(c@) is None,
        },
{
    let dots = ['.', '.'];
    assert(dots@ =~= seq!['.', '.']);
    if text::equal(c, &dots) {
        return None;
    }
    let mut i = c.len();
    assert(c@.take(c.len() as int) =~= c@);
    while i > 0 && c[i - 1] != '.'
        invariant
            i <= c.len(),
            last_dot(c@) == last_dot(c@.take(i as int)),
        decreases i,
    {
        assert(c@.take(i as int).drop_last() =~= c@.take(i - 1));
        i = i - 1;
    }
    proof {
        assert(c@.take(c.len() as int) =~= c@);
        if i > 0 {
            assert(c@.take(i as int).last() == c@[i - 1]);
        }
    }
    if i > 1 {
        Some(i - 1)
    } else {
        None
    }
}

/// Derives a route from a content file's path below the content root.
///
/// A file's path is its route, with the extension dropped; any `index.md`
/// takes the route of its directory, and the content root's own `index.md`
/// is the empty route, which is the site root.
pub fn route_of(path: &str, root: &str) -> (r: String)
    ensures
        r@ == route_spec(path@, root@),
{
    let p = components_of(path);
    let r = components_of(root);
    let ghost pv = p@.map_values(|l: Vec<char>| l@);
    let ghost rv = r@.map_values(|l: Vec<char>| l@);
    let mut prefix = r.len() <= p.len();
    let mut i: usize = 0;
    while prefix && i < r.len()
        invariant
            i <= r.len(),
            pv == p@.map_values(|l: Vec<char>| l@),
            rv == r@.map_values(|l: Vec<char>| l@),
            prefix ==> r.len() <= p.len() && forall|j: int| 0 <= j < i ==> pv[j] == rv[j],
            !prefix ==> !(rv.len() <= pv.len() && pv.take(rv.len() as int) == rv),
        decreases r.len() - i,
    {
        if !text::equal(p[i].as_slice(), r[i].as_slice()) {
            proof {
                if rv.len() <= pv.len() && pv.take(rv.len() as int) == rv {
                    assert(pv.take(rv.len() as int)[i as int] == pv[i as int]);
                }
            }
            prefix = false;
            i = r.len();
        } else {
            i = i + 1;
        }
    }
    let start = if prefix {
        assert(pv.take(rv.len() as int) =~= rv);
        r.len()
    } else {
        0
    };
    let mut rel: Vec<Vec<char>> = Vec::new();
    let mut k = start;
    while k < p.len()
        invariant
            start <= k <= p.len(),
            pv == p@.map_values(|l: Vec<char>| l@),
            rel@.map_values(|l: Vec<char>| l@) == pv.subrange(start as int, k as int),
        decreases p.len() - k,
    {
        let piece = text::copy_range(p[k].as_slice(), 0, p[k].len());
        assert(piece@ =~= pv[k as int]);
        let ghost before = rel@.map_values(|l: Vec<char>| l@);
        rel.push(piece);
        assert(rel@.map_values(|l: Vec<char>| l@) =~= before.push(piece@));
        assert(pv.subrange(start as int, k + 1) =~= pv.subrange(start as int, k as int).push(
            pv[k as int],
        ));
        k = k + 1;
    }
    assert(rel@.map_values(|l: Vec<char>| l@) =~= below(path@, root@));
    let ghost bv = below(path@, root@);
    if rel.len() > 0 {
        let last = rel.len() - 1;
        match find_extension(rel[last].as_slice()) {
            Some(d) => {
                let stem = text::copy_range(rel[last].as_slice(), 0, d);
                rel.set(last, stem);
                assert(rel@.map_values(|l: Vec<char>| l@) =~= without_extension(bv));
            },
            None => {},
        }
    }
    assert(rel@.map_values(|l: Vec<char>| l@) =~= without_extension(bv));
    let slash = ['/'];
    assert(slash@ =~= seq!['/']);
    let route = text::join_with(&rel, &slash);
    let index = ['i', 'n', 'd', 'e', 'x'];
    let sub_index = ['/', 'i', 'n', 'd', 'e', 'x'];
    assert(index@ =~= seq!['i', 'n', 'd', 'e', 'x']);
    assert(sub_index@ =~= seq!['/', 'i', 'n', 'd', 'e', 'x']);
    if text::equal(route.as_slice(), &index) {
        String::new()
    } else if text::has_suffix(route.as_slice(), &sub_index) {
        let parent = text::copy_range(route.as_slice(), 0, route.len() - 6);
        text::string_of(parent.as_slice())
    } else {
        text::string_of(route.as_slice())
    }
}

/// Whether a file is a content file: its name's extension is `md`.
pub open spec fn is_content(path: Seq<char>) -> bool {
    let ps = components(path);
    ps.len() > 0 && match extension_dot(ps.last()) {
        Some(d) => ps.last().skip(d + 1) == seq!['m', 'd'],
        None => false,
    }
}

/// The content files among `files`, each with its route.
pub open spec fn found_spec(root: Seq<char>, files: Seq<Seq<char>>) -> Seq<(Seq<char>, Seq<char>)>
    decreases files.len(),
{
    if files.len() == 0 {
        Seq::empty()
    } else {
        let rest = found_spec(root, files.drop_last());
        let f = files.last();
        if is_content(f) {
            rest.push((route_spec(f, root), f))
        } else {
            rest
        }
    }
}

/// The order routes are listed in: by route, then by file.
pub open spec fn listing_order() -> spec_fn((Seq<char>, Seq<char>), (Seq<char>, Seq<char>)) -> bool {
    |x: (Seq<char>, Seq<char>), y: (Seq<char>, Seq<char>)| pair_leq(x, y)
}

/// Whether a file is a content file.
fn content_file(path: &str) -> (b: bool)
    ensures
        b == is_content(path@),
{
    let ps = components_of(path);
    if ps.len() == 0 {
        return false;
    }
    let last = ps.len() - 1;
    match find_extension(ps[last].as_slice()) {
        Some(d) => {
            let ext = text::copy_range(ps[last].as_slice(), d + 1, ps[last].len());
            assert(ext@ =~= ps@[last as int]@.skip(d + 1));
            text::equal(ext.as_slice(), &['m', 'd'])
        },
        None => false,
    }
}

/// Every route among `files`, which are the files below `root`, sorted, with
/// the files they came from.  A file is content when its extension is `md`.
pub fn scan(root: &str, files: &[String]) -> (r: Vec<(String, String)>)
    ensures
        text::pair_views(r@) == found_spec(root@, text::texts(files@)).sort_by(listing_order()),
{
    let ghost fv = text::texts(files@);
    let mut found: Vec<(String, String)> = Vec::new();
    let mut i: usize = 0;
    while i < files.len()
        invariant
            i <= files.len(),
            fv == text::texts(files@),
            text::pair_views(found@) == found_spec(root@, fv.take(i as int)),
        decreases files.len() - i,
    {
        proof {
            assert(fv.take(i + 1).drop_last() =~= fv.take(i as int));
            assert(fv.take(i + 1).last() == files@[i as int]@);
        }
        if content_file(files[i].as_str()) {
            let route = route_of(files[i].as_str(), root);
            found.push((route, files[i].clone()));
            assert(text::pair_views(found@) =~= found_spec(root@, fv.take(i + 1)));
        }
        i = i + 1;
    }
    assert(fv.take(files.len() as int) =~= fv);
    text::sort_pairs(found)
}

/// The lines a site's build script prints so cargo reruns it: the content
/// directory itself, then every file in it.
pub open spec fn watch_spec(root: Seq<char>, paths: Seq<Seq<char>>) -> Seq<char> {
    "cargo::rerun-if-changed="@ + root + "\n"@ + concat(
        paths.map_values(|p: Seq<char>| "cargo::rerun-if-changed="@ + p + "\n"@),
    )
}

/// The `cargo::rerun-if-changed` lines a site's build script should print.
///
/// The content directory is listed as well as every file in it, because
/// cargo notices a new file only through the directory.
pub fn watch(root: &str, found: &[(String, String)]) -> (out: String)
    ensures
        out@ == watch_spec(root@, text::pair_views(found@).map_values(|p: (Seq<char>, Seq<char>)| p.1)),
{
    let ghost ps = text::pair_views(found@).map_values(|p: (Seq<char>, Seq<char>)| p.1);
    let ghost f = |p: Seq<char>| "cargo::rerun-if-changed="@ + p + "\n"@;
    let mut out = String::from_str("cargo::rerun-if-changed=");
    out.append(root);
    out.append("\n");
    let ghost head = out@;
    let mut i: usize = 0;
    while i < found.len()
        invariant
            i <= found.len(),
            ps == text::pair_views(found@).map_values(|p: (Seq<char>, Seq<char>)| p.1),
            f == (|p: Seq<char>| "cargo::rerun-if-changed="@ + p + "\n"@),
            out@ == head + concat(ps.take(i as int).map_values(f)),
        decreases found.len() - i,
    {
        proof {
            assert(ps.take(i + 1).map_values(f).drop_last() =~= ps.take(i as int).map_values(f));
        }
        out.append("cargo::rerun-if-changed=");
        out.append(found[i].1.as_str());
        out.append("\n");
        assert(out@ =~= head + concat(ps.take(i + 1).map_values(f)));
        i = i + 1;
    }
    assert(ps.take(found.len() as int) =~= ps);
    out
}

// ------------------------------------------------------------------ the enum

/// A route's characters in camel case, and whether the next one starts a
/// word: every run of letters and digits begins with a capital, and
/// anything else only separates.
pub open spec fn camel(s: Seq<char>) -> (Seq<char>, bool)
    decreases s.len(),
{
    if s.len() == 0 {
        (Seq::empty(), true)
    } else {
        let (o, cap) = camel(s.drop_last());
        let c = s.last();
        if unicode_alnum(c) {
            if cap {
                (o + unicode_upper(c), false)
            } else {
                (o.push(c), false)
            }
        } else {
            (o, true)
        }
    }
}

/// A route's variant name: `docs/getting-started` is `DocsGettingStarted`,
/// the empty route is `Index`, and a name that would start with a digit,
/// or be empty because the route has no letter or digit, gets an `R` in
/// front.
pub open spec fn variant_spec(route: Seq<char>) -> Seq<char> {
    let r = text::trim_by(route, text::is('/'));
    if r.len() == 0 {
        "Index"@
    } else {
        let o = camel(r).0;
        if o.len() == 0 || text::is_ascii_digit(o[0]) {
            seq!['R'] + o
        } else {
            o
        }
    }
}

/// Every route gets a variant name that is not empty and does not start
/// with a digit.
pub proof fn lemma_variant_is_a_name(route: Seq<char>)
    ensures
        variant_spec(route).len() > 0,
        !text::is_ascii_digit(variant_spec(route)[0]),
{
    reveal_strlit("Index");
}

/// Turns a route into a variant name: `docs/getting-started` becomes
/// `DocsGettingStarted`, and the empty route becomes `Index`.
pub fn variant(route: &str) -> (out: String)
    ensures
        out@ == variant_spec(route@),
{
    let chars = text::chars_of(route);
    let (a, b) = text::trim_class_bounds(chars.as_slice(), 0, chars.len(), &Trim::Only('/'));
    assert(chars@.subrange(0, chars.len() as int) =~= chars@);
    let r = text::copy_range(chars.as_slice(), a, b);
    if r.len() == 0 {
        return String::from_str("Index");
    }
    let mut out: Vec<char> = Vec::new();
    let mut capitalise = true;
    let mut i: usize = 0;
    while i < r.len()
        invariant
            i <= r.len(),
            (out@, capitalise) == camel(r@.take(i as int)),
        decreases r.len() - i,
    {
        let c = r[i];
        proof {
            assert(r@.take(i + 1).drop_last() =~= r@.take(i as int));
            assert(r@.take(i + 1).last() == c);
        }
        if is_alphanumeric(c) {
            if capitalise {
                let up = to_uppercase(c);
                text::extend_vec(&mut out, up.as_slice());
                capitalise = false;
            } else {
                out.push(c);
                capitalise = false;
            }
        } else {
            capitalise = true;
        }
        i = i + 1;
    }
    assert(r@.take(r.len() as int) =~= r@);
    let mut name = String::new();
    if out.len() == 0 || ('0' <= out[0] && out[0] <= '9') {
        text::push_char(&mut name, 'R');
    }
    text::push_chars(&mut name, out.as_slice());
    proof {
        reveal_strlit("Index");
    }
    name
}

/// Something wrong with a set of routes.
#[derive(Debug, Clone, PartialEq, Eq)]
pub struct Error(String);

impl View for Error {
    type V = Seq<char>;

    closed spec fn view(&self) -> Seq<char> {
        self.0@
    }
}

impl Error {
    /// What is wrong, in words.
    pub fn to_string(&self) -> (s: String)
        ensures
            s@ == self@,
    {
        self.0.clone()
    }
}

/// The routes with their variant names, in route order.
pub open spec fn by_route(routes: Seq<Seq<char>>) -> Seq<(Seq<char>, Seq<char>)> {
    routes.map_values(|r: Seq<char>| (r, variant_spec(r))).sort_by(listing_order())
}

/// The variant names with their routes, in name order.
pub open spec fn by_name(routes: Seq<Seq<char>>) -> Seq<(Seq<char>, Seq<char>)> {
    routes.map_values(|r: Seq<char>| (variant_spec(r), r)).sort_by(listing_order())
}

/// The first position at or after `from` whose name the next one shares.
pub open spec fn first_clash(s: Seq<(Seq<char>, Seq<char>)>, from: int) -> Option<int>
    decreases s.len() - from,
{
    if from < 0 || from + 1 >= s.len() {
        None
    } else if s[from].0 == s[from + 1].0 {
        Some(from)
    } else {
        first_clash(s, from + 1)
    }
}

/// The complaint about two routes that would share a variant name.
pub open spec fn clash_message(first: Seq<char>, second: Seq<char>, name: Seq<char>) -> Seq<char> {
    "`"@ + first + "` and `"@ + second + "` would both be `Route::"@ + name
        + "`; rename one of them"@
}

/// What the generated module opens with.
pub open spec fn module_head() -> Seq<char> {
    "// Generated by crabbucket-routes.  Do not edit.\n\n/// Every route in `content/`, as a type.\n///\n/// A link to a page that does not exist does not compile.  Rename a\n/// page and every reference to it stops building, which is the whole\n/// reason this is generated rather than written.\n#[derive(Debug, Clone, Copy, PartialEq, Eq, PartialOrd, Ord, Hash)]\npub enum Route {\n"@
}

/// One variant's declaration.
pub open spec fn declaration(p: (Seq<char>, Seq<char>)) -> Seq<char> {
    "    /// `/"@ + p.0 + "`\n    "@ + p.1 + ",\n"@
}

/// One variant's entry in `Route::ALL`.
pub open spec fn listing(p: (Seq<char>, Seq<char>)) -> Seq<char> {
    "        Route::"@ + p.1 + ",\n"@
}

/// One variant's arm in `Route::path`.
pub open spec fn path_arm(p: (Seq<char>, Seq<char>)) -> Seq<char> {
    "            Route::"@ + p.1 + " => "@ + str_debug(p.0) + ",\n"@
}

/// The generated module for routes, each with its name, in route order.
pub open spec fn module_text(named: Seq<(Seq<char>, Seq<char>)>) -> Seq<char> {
    module_head() + concat(named.map_values(|p: (Seq<char>, Seq<char>)| declaration(p)))
        + "}\n\nimpl Route {\n    /// Every route, in name order.\n"@
        + "    pub const ALL: &'static [Route] = &[\n"@ + concat(
        named.map_values(|p: (Seq<char>, Seq<char>)| listing(p)),
    ) + "    ];\n\n"@
        + "    /// The site-relative path, without the base.\n    pub const fn path(self) -> &'static str {\n        match self {\n"@
        + concat(named.map_values(|p: (Seq<char>, Seq<char>)| path_arm(p)))
        + "        }\n    }\n}\n"@
}

/// What `generate` returns for a set of routes.
pub open spec fn generate_spec(routes: Seq<Seq<char>>) -> Result<Seq<char>, Seq<char>> {
    let names = by_name(routes);
    match first_clash(names, 0) {
        Some(k) => Err(clash_message(names[k].1, names[k + 1].1, names[k].0)),
        None => Ok(module_text(by_route(routes))),
    }
}

/// Appends one piece per pair, in order.
fn append_each(
    out: &mut String,
    named: &Vec<(String, String)>,
    which: u8,
) -> (pieces: Ghost<Seq<Seq<char>>>)
    requires
        which < 3,
    ensures
        pieces@ == text::pair_views(named@).map_values(
            |p: (Seq<char>, Seq<char>)| if which == 0 {
                declaration(p)
            } else if which == 1 {
                listing(p)
            } else {
                path_arm(p)
            },
        ),
        final(out)@ == old(out)@ + concat(pieces@),
{
    let ghost f = |p: (Seq<char>, Seq<char>)| if which == 0 {
        declaration(p)
    } else if which == 1 {
        listing(p)
    } else {
        path_arm(p)
    };
    let ghost all = text::pair_views(named@).map_values(f);
    let ghost start = out@;
    let mut i: usize = 0;
    while i < named.len()
        invariant
            i <= named.len(),
            which < 3,
            all == text::pair_views(named@).map_values(f),
            f == (|p: (Seq<char>, Seq<char>)| if which == 0 {
                declaration(p)
            } else if which == 1 {
                listing(p)
            } else {
                path_arm(p)
            }),
            out@ == start + concat(all.take(i as int)),
        decreases named.len() - i,
    {
        proof {
            assert(all.take(i + 1).drop_last() =~= all.take(i as int));
        }
        let route = named[i].0.as_str();
        let name = named[i].1.as_str();
        if which == 0 {
            out.append("    /// `/");
            out.append(route);
            out.append("`\n    ");
            out.append(name);
            out.append(",\n");
        } else if which == 1 {
            out.append("        Route::");
            out.append(name);
            out.append(",\n");
        } else {
            out.append("            Route::");
            out.append(name);
            out.append(" => ");
            let quoted = text::debug_quoted(route);
            out.append(quoted.as_str());
            out.append(",\n");
        }
        assert(out@ =~= start + concat(all.take(i + 1)));
        i = i + 1;
    }
    assert(all.take(named.len() as int) =~= all);
    Ghost(all)
}

/// Generates the `Route` enum for a set of routes.
///
/// Fails if two routes would produce the same variant name, which is the
/// one way this can silently go wrong.
pub fn generate(routes: &[String]) -> (r: Result<String, Error>)
    ensures
        match r {
            Ok(m) => generate_spec(text::texts(routes@)) == Ok::<Seq<char>, Seq<char>>(m@),
            Err(e) => generate_spec(text::texts(routes@)) == Err::<Seq<char>, Seq<char>>(e@),
        },
{
    let ghost rv = text::texts(routes@);
    let mut named: Vec<(String, String)> = Vec::new();
    let mut by: Vec<(String, String)> = Vec::new();
    let mut i: usize = 0;
    while i < routes.len()
        invariant
            i <= routes.len(),
            rv == text::texts(routes@),
            text::pair_views(named@) == rv.take(i as int).map_values(
                |r: Seq<char>| (r, variant_spec(r)),
            ),
            text::pair_views(by@) == rv.take(i as int).map_values(
                |r: Seq<char>| (variant_spec(r), r),
            ),
        decreases routes.len() - i,
    {
        let v = variant(routes[i].as_str());
        let ghost named_before = text::pair_views(named@);
        let ghost by_before = text::pair_views(by@);
        let ghost r = routes@[i as int]@;
        named.push((routes[i].clone(), v.clone()));
        by.push((v, routes[i].clone()));
        assert(text::pair_views(named@) =~= named_before.push((r, variant_spec(r))));
        assert(text::pair_views(by@) =~= by_before.push((variant_spec(r), r)));
        assert(rv.take(i + 1) =~= rv.take(i as int).push(r));
        assert(text::pair_views(named@) =~= rv.take(i + 1).map_values(
            |r: Seq<char>| (r, variant_spec(r)),
        ));
        assert(text::pair_views(by@) =~= rv.take(i + 1).map_values(
            |r: Seq<char>| (variant_spec(r), r),
        ));
        i = i + 1;
    }
    assert(rv.take(routes.len() as int) =~= rv);
    let named = text::sort_pairs(named);
    let by = text::sort_pairs(by);
    let ghost names = by_name(rv);
    assert(text::pair_views(by@) == names);
    let mut k: usize = 0;
    while by.len() > 0 && k < by.len() - 1
        invariant
            names == text::pair_views(by@),
            names == by_name(rv),
            rv == text::texts(routes@),
            k <= by.len(),
            first_clash(names, 0) == first_clash(names, k as int),
        decreases by.len() - k,
    {
        assert(names[k as int] == (by@[k as int].0@, by@[k as int].1@));
        assert(names[k + 1] == (by@[k + 1].0@, by@[k + 1].1@));
        if by[k].0 == by[k + 1].0 {
            let mut m = String::from_str("`");
            m.append(by[k].1.as_str());
            m.append("` and `");
            m.append(by[k + 1].1.as_str());
            m.append("` would both be `Route::");
            m.append(by[k].0.as_str());
            m.append("`; rename one of them");
            assert(first_clash(names, k as int) == Some(k as int));
            assert(m@ == clash_message(names[k as int].1, names[k + 1].1, names[k as int].0));
            let e = Error(m);
            assert(e@ == m@);
            return Err(e);
        }
        k = k + 1;
    }
    let mut out = String::from_str(
        "// Generated by crabbucket-routes.  Do not edit.\n\n/// Every route in `content/`, as a type.\n///\n/// A link to a page that does not exist does not compile.  Rename a\n/// page and every reference to it stops building, which is the whole\n/// reason this is generated rather than written.\n#[derive(Debug, Clone, Copy, PartialEq, Eq, PartialOrd, Ord, Hash)]\npub enum Route {\n",
    );
    let a = append_each(&mut out, &named, 0);
    out.append("}\n\nimpl Route {\n    /// Every route, in name order.\n");
    out.append("    pub const ALL: &'static [Route] = &[\n");
    let b = append_each(&mut out, &named, 1);
    out.append("    ];\n\n");
    out.append(
        "    /// The site-relative path, without the base.\n    pub const fn path(self) -> &'static str {\n        match self {\n",
    );
    let c = append_each(&mut out, &named, 2);
    out.append("        }\n    }\n}\n");
    proof {
        assert(a@ =~= by_route(rv).map_values(|p: (Seq<char>, Seq<char>)| declaration(p)));
        assert(b@ =~= by_route(rv).map_values(|p: (Seq<char>, Seq<char>)| listing(p)));
        assert(c@ =~= by_route(rv).map_values(|p: (Seq<char>, Seq<char>)| path_arm(p)));
    }
    Ok(out)
}

} // verus!
