//! Scaffolding a new site: what was asked for, and the design system a
//! scaffolded site depends on.
//!
//! A site with no design system of its own is a content directory; a site
//! with one is a crate that depends on it, so naming a theme changes the
//! shape of what is written.

use vstd::prelude::*;

use crate::text::{self, Trim, last_of, trim};
use crate::tokens::{ident_spec, ident};

verus! {

broadcast use vstd::string::group_string_axioms;

/// What was asked for.
#[derive(Debug, PartialEq, Eq)]
pub struct Request {
    /// Where to write it; empty until a directory is named.
    pub dir: String,
    /// The path the site will be served from.  Defaults to `/NAME/`.
    pub base: Option<String>,
    /// Whether to ship the client router.
    pub router: bool,
    /// Whether to write into a directory that is not empty.
    pub force: bool,
    /// The design system this site depends on, as a crate name or a git URL.
    pub theme: Option<String>,
}

impl Request {
    /// A request that names nothing yet.
    pub fn new() -> (r: Request)
        ensures
            r.dir@ == Seq::<char>::empty(),
            r.base is None,
            !r.router,
            !r.force,
            r.theme is None,
    {
        Request { dir: String::new(), base: None, router: false, force: false, theme: None }
    }
}

/// A design system a scaffolded site depends on.
#[derive(Debug, PartialEq, Eq)]
pub struct Theme {
    /// The crate name.
    pub name: String,
    /// The dependency line for `Cargo.toml`.
    pub dependency: String,
    /// What to say about pinning it.
    pub pin: &'static str,
}

/// `s` with every trailing copy of `p` taken off (`str::trim_end_matches`).
pub open spec fn strip_suffixes(s: Seq<char>, p: Seq<char>) -> Seq<char>
    decreases s.len(),
{
    if p.len() > 0 && text::ends_with(s, p) {
        strip_suffixes(s.take(s.len() - p.len()), p)
    } else {
        s
    }
}

/// What follows the last `c` in `s`, or all of `s` if there is none.
pub open spec fn after_last(s: Seq<char>, c: char) -> Seq<char> {
    match last_of(s, c) {
        Some(i) => s.skip(i + 1),
        None => s,
    }
}

/// What a `--theme` argument means: its name, its dependency line and the
/// advice on pinning it.  Anything with a scheme is a git dependency named
/// after the last part of its path, without any `.git`; anything else is a
/// crate name, left unpinned.
pub open spec fn theme_spec(given: Seq<char>) -> (Seq<char>, Seq<char>, Seq<char>) {
    let g = trim(given);
    if text::contains(g, "://"@) {
        let name = strip_suffixes(after_last(text::trim_end_by(g, text::is('/')), '/'), ".git"@);
        (name, name + " = { git = \""@ + g + "\" }"@, "Pin it to a tag or a rev before you rely on it."@)
    } else {
        (g, g + " = \"*\""@, "Replace `*` with a real version requirement."@)
    }
}

impl Theme {
    /// Reads a `--theme` argument.
    ///
    /// Anything with a scheme is a git dependency; anything else is a crate
    /// name.  A git dependency needs no version, and a crates.io one is left
    /// unpinned with a comment saying so.
    pub fn parse(given: &str) -> (t: Theme)
        ensures
            (t.name@, t.dependency@, t.pin@) == theme_spec(given@),
    {
        let chars = text::chars_of(given);
        let g = text::trimmed(chars.as_slice());
        let gs = text::string_of(g.as_slice());
        let scheme = [':', '/', '/'];
        proof {
            reveal_strlit("://");
            assert(scheme@ =~= "://"@);
            text::lemma_find_from(g@, scheme@, 0);
            if text::contains(g@, scheme@) {
                let at = choose|at: int| text::occurs_at(g@, scheme@, at);
                assert(text::find_from(g@, scheme@, 0) is Some);
            }
        }
        if text::find_in(g.as_slice(), &scheme, 0).is_some() {
            let end = text::skip_class_back(g.as_slice(), 0, g.len(), &Trim::Only('/'));
            assert(g@.subrange(0, g.len() as int) =~= g@);
            let mut start = end;
            while start > 0 && g[start - 1] != '/'
                invariant
                    start <= end <= g.len(),
                    forall|j: int| start <= j < end ==> g@[j] != '/',
                decreases start,
            {
                start = start - 1;
            }
            proof {
                let t = g@.take(end as int);
                assert(t =~= text::trim_end_by(g@, text::is('/')));
                lemma_last_of(t, '/', start as int);
            }
            let mut name = text::copy_range(g.as_slice(), start, end);
            assert(name@ =~= after_last(g@.take(end as int), '/'));
            let suffix = ['.', 'g', 'i', 't'];
            proof {
                reveal_strlit(".git");
                assert(suffix@ =~= ".git"@);
            }
            while text::has_suffix(name.as_slice(), &suffix)
                invariant
                    suffix@ == ".git"@,
                    strip_suffixes(name@, suffix@) == strip_suffixes(after_last(g@.take(end as int), '/'), ".git"@),
                decreases name.len(),
            {
                let keep = name.len() - 4;
                name = text::copy_range(name.as_slice(), 0, keep);
            }
            let name_s = text::string_of(name.as_slice());
            let mut dependency = name_s.clone();
            dependency.append(" = { git = \"");
            dependency.append(gs.as_str());
            dependency.append("\" }");
            Theme { name: name_s, dependency, pin: "Pin it to a tag or a rev before you rely on it." }
        } else {
            let mut dependency = gs.clone();
            dependency.append(" = \"*\"");
            Theme { name: gs, dependency, pin: "Replace `*` with a real version requirement." }
        }
    }

    /// The crate name as a Rust identifier.
    pub fn ident(&self) -> (s: String)
        ensures
            s@ == ident_spec(self.name@),
    {
        ident(self.name.as_str())
    }
}

/// The last `c` in `s` is where a backward scan for it stops.
proof fn lemma_last_of(s: Seq<char>, c: char, start: int)
    requires
        0 <= start <= s.len(),
        forall|j: int| start <= j < s.len() ==> s[j] != c,
        start == 0 || s[start - 1] == c,
    ensures
        last_of(s, c) == if start == 0 {
            None::<int>
        } else {
            Some(start - 1)
        },
    decreases s.len(),
{
    if s.len() > 0 && start < s.len() {
        assert forall|j: int| start <= j < s.drop_last().len() implies s.drop_last()[j] != c by {
            assert(s.drop_last()[j] == s[j]);
        }
        if start > 0 {
            assert(s.drop_last()[start - 1] == s[start - 1]);
        }
        lemma_last_of(s.drop_last(), c, start);
    }
}

// ------------------------------------------------------------------ the site's name

/// A path component that names something: not empty, and not `.`.
pub open spec fn names_something(part: Seq<char>) -> bool {
    part.len() > 0 && part != "."@
}

/// The last component among `parts` that names something.
pub open spec fn last_named(parts: Seq<Seq<char>>) -> Option<Seq<char>>
    decreases parts.len(),
{
    if parts.len() == 0 {
        None
    } else if names_something(parts.last()) {
        Some(parts.last())
    } else {
        last_named(parts.drop_last())
    }
}

/// The final component of a path, as `Path::file_name` reads one: `.` and
/// empty components are passed over, and a path that ends in `..` has none.
pub open spec fn file_name(dir: Seq<char>) -> Option<Seq<char>> {
    match last_named(text::split_on(dir, '/')) {
        Some(part) => if part == ".."@ {
            None
        } else {
            Some(part)
        },
        None => None,
    }
}

/// The name a scaffolded site takes: its directory's, else `site`.
pub open spec fn site_name_spec(dir: Seq<char>) -> Seq<char> {
    match file_name(dir) {
        Some(name) => name,
        None => "site"@,
    }
}

/// The name a site scaffolded into `dir` takes.
pub fn site_name(dir: &str) -> (r: String)
    ensures
        r@ == site_name_spec(dir@),
{
    proof {
        reveal_strlit(".");
        reveal_strlit("..");
        reveal_strlit("site");
    }
    let chars = text::chars_of(dir);
    let parts = text::split_chars(chars.as_slice(), '/');
    let ghost ps = text::split_on(dir@, '/');
    assert(parts@.map_values(|p: Vec<char>| p@) =~= ps);
    let mut i: usize = parts.len();
    assert(ps.take(i as int) =~= ps);
    while i > 0
        invariant
            i <= parts.len(),
            ps == text::split_on(dir@, '/'),
            parts@.len() == ps.len(),
            forall|k: int| 0 <= k < parts@.len() ==> #[trigger] parts@[k]@ == ps[k],
            last_named(ps.take(i as int)) == last_named(ps),
        decreases i,
    {
        let part = &parts[i - 1];
        let dot = part.len() == 1 && part[0] == '.';
        assert(ps.take(i as int).last() == part@);
        assert(ps.take(i as int).drop_last() =~= ps.take(i - 1));
        if part.len() > 0 && !dot {
            assert(part@ != "."@) by {
                reveal_strlit(".");
                if part@ == "."@ {
                    assert(part@[0] == '.');
                }
            }
            assert(names_something(part@));
            assert(last_named(ps) == Some(part@));
            let dots = part.len() == 2 && part[0] == '.' && part[1] == '.';
            if dots {
                proof {
                    reveal_strlit("..");
                    reveal_strlit("site");
                }
                assert(part@ =~= ".."@);
                return String::from_str("site");
            }
            assert(part@ != ".."@) by {
                reveal_strlit("..");
                if part@ == ".."@ {
                    assert(part@[0] == '.' && part@[1] == '.');
                }
            }
            return text::string_of(part.as_slice());
        }
        proof {
            reveal_strlit(".");
            if part.len() == 1 {
                assert(part@ =~= "."@);
            }
        }
        i = i - 1;
    }
    String::from_str("site")
}

/// The base a scaffolded site is served from: the one asked for, else
/// `/NAME/`, since a project site is the common case.
pub open spec fn site_base_spec(base: Option<String>, name: Seq<char>) -> Seq<char> {
    match base {
        Some(b) => b@,
        None => "/"@ + name + "/"@,
    }
}

/// The base the scaffolded site named `name` is served from.
pub fn site_base(request: &Request, name: &str) -> (r: String)
    ensures
        r@ == site_base_spec(request.base, name@),
{
    match &request.base {
        Some(b) => b.clone(),
        None => {
            proof {
                reveal_strlit("/");
            }
            let mut s = String::from_str("/");
            s.append(name);
            s.append("/");
            s
        },
    }
}

/// Why a scaffold is refused, if it is: the directory already holds
/// something and `--force` was not given.
pub fn refusal(request: &Request, occupied: bool) -> (r: Option<String>)
    ensures
        (occupied && !request.force) == r is Some,
        r matches Some(m) ==> m@ == request.dir@
            + ": directory is not empty; pass --force to scaffold into it anyway"@,
{
    if occupied && !request.force {
        let mut m = request.dir.clone();
        m.append(": directory is not empty; pass --force to scaffold into it anyway");
        Some(m)
    } else {
        None
    }
}

// ------------------------------------------------------------------ the files

/// The texts a scaffold is made from, each with the placeholders it fills.
pub struct Templates {
    /// `site.toml`, with `@NAME@`, `@BASE@` and `@ROUTER@`.
    pub site_toml: String,
    /// The home page.
    pub index: String,
    /// The first documentation page.
    pub docs: String,
    /// The error page.
    pub not_found: String,
    /// The dev-server configuration of a content directory.
    pub turborust: String,
    /// The deployment workflow of a content directory.
    pub pages: String,
    /// `Cargo.toml` of a site crate, with `@NAME@`, `@THEME_DEP@` and `@PIN@`.
    pub crate_cargo: String,
    /// `src/main.rs` of a site crate, with `@NAME@` and `@THEME_IDENT@`.
    pub crate_main: String,
    /// The dev-server configuration of a site crate, with `@NAME@`.
    pub crate_turborust: String,
    /// The deployment workflow of a site crate.
    pub crate_pages: String,
}

/// A file to write, as plain values: its path below the site, and what it
/// holds.
pub type Planned = (Seq<char>, Seq<char>);

/// `site.toml` for a site called `name`, served from `base`.
pub open spec fn site_toml_spec(template: Seq<char>, name: Seq<char>, base: Seq<char>, router: bool) -> Seq<char> {
    text::replaced(
        text::replaced(text::replaced(template, "@NAME@"@, name), "@BASE@"@, base),
        "@ROUTER@"@,
        if router {
            "true"@
        } else {
            "false"@
        },
    )
}

/// What a site with no design system of its own is given beside its
/// content: the dev-server configuration, the deployment, and what git
/// ignores.
pub open spec fn content_files_spec(t: Templates) -> Seq<Planned> {
    seq![
        ("turborust.toml"@, t.turborust@),
        (".github/workflows/pages.yml"@, t.pages@),
        (".gitignore"@, "/dist\n"@),
    ]
}

/// What a site that depends on a design system is given: it is a crate.
pub open spec fn crate_files_spec(t: Templates, name: Seq<char>, theme: Theme) -> Seq<Planned> {
    seq![
        ("Cargo.toml"@, text::replaced(
            text::replaced(text::replaced(t.crate_cargo@, "@NAME@"@, name), "@THEME_DEP@"@, theme.dependency@),
            "@PIN@"@,
            theme.pin@,
        )),
        ("src/main.rs"@, text::replaced(
            text::replaced(t.crate_main@, "@NAME@"@, name),
            "@THEME_IDENT@"@,
            ident_spec(theme.name@),
        )),
        ("turborust.toml"@, text::replaced(t.crate_turborust@, "@NAME@"@, name)),
        (".github/workflows/pages.yml"@, t.crate_pages@),
        (".gitignore"@, "/dist\n/target\n"@),
    ]
}

/// Every file a scaffold writes, in order.
pub open spec fn files_spec(
    t: Templates,
    name: Seq<char>,
    base: Seq<char>,
    router: bool,
    theme: Option<Theme>,
) -> Seq<Planned> {
    seq![
        ("site.toml"@, site_toml_spec(t.site_toml@, name, base, router)),
        ("content/index.md"@, t.index@),
        ("content/docs/index.md"@, t.docs@),
        ("content/404.md"@, t.not_found@),
        ("static/.gitkeep"@, Seq::<char>::empty()),
    ] + match theme {
        Some(th) => crate_files_spec(t, name, th),
        None => content_files_spec(t),
    }
}

/// The plain values of planned files.
pub open spec fn planned(v: Seq<(&'static str, String)>) -> Seq<Planned> {
    v.map_values(|f: (&'static str, String)| (f.0@, f.1@))
}

/// `site.toml` for a site called `name`, served from `base`.
pub fn site_toml(template: &str, name: &str, base: &str, router: bool) -> (r: String)
    ensures
        r@ == site_toml_spec(template@, name@, base@, router),
{
    proof {
        reveal_strlit("@NAME@");
        reveal_strlit("@BASE@");
        reveal_strlit("@ROUTER@");
        reveal_strlit("true");
        reveal_strlit("false");
    }
    let a = text::replace_all(template, "@NAME@", name);
    let b = text::replace_all(a.as_str(), "@BASE@", base);
    text::replace_all(b.as_str(), "@ROUTER@", if router { "true" } else { "false" })
}

/// What a content directory is given beside its content.
pub fn content_files(t: &Templates) -> (r: Vec<(&'static str, String)>)
    ensures
        planned(r@) == content_files_spec(*t),
{
    let r = vec![
        ("turborust.toml", t.turborust.clone()),
        (".github/workflows/pages.yml", t.pages.clone()),
        (".gitignore", String::from_str("/dist\n")),
    ];
    assert(planned(r@) =~= content_files_spec(*t));
    r
}

/// What a site crate is given.
pub fn crate_files(t: &Templates, name: &str, theme: &Theme) -> (r: Vec<(&'static str, String)>)
    ensures
        planned(r@) == crate_files_spec(*t, name@, *theme),
{
    proof {
        reveal_strlit("@NAME@");
        reveal_strlit("@THEME_DEP@");
        reveal_strlit("@PIN@");
        reveal_strlit("@THEME_IDENT@");
    }
    let c0 = text::replace_all(t.crate_cargo.as_str(), "@NAME@", name);
    let c1 = text::replace_all(c0.as_str(), "@THEME_DEP@", theme.dependency.as_str());
    let cargo = text::replace_all(c1.as_str(), "@PIN@", theme.pin);
    let m0 = text::replace_all(t.crate_main.as_str(), "@NAME@", name);
    let ident = theme.ident();
    let main = text::replace_all(m0.as_str(), "@THEME_IDENT@", ident.as_str());
    let turborust = text::replace_all(t.crate_turborust.as_str(), "@NAME@", name);
    let r = vec![
        ("Cargo.toml", cargo),
        ("src/main.rs", main),
        ("turborust.toml", turborust),
        (".github/workflows/pages.yml", t.crate_pages.clone()),
        (".gitignore", String::from_str("/dist\n/target\n")),
    ];
    assert(planned(r@) =~= crate_files_spec(*t, name@, *theme));
    r
}

/// Every file a scaffold of a site called `name`, served from `base`,
/// writes: the configuration and the starting pages, then either what a
/// content directory needs or, when a design system is named, what a crate
/// needs.
pub fn files(t: &Templates, name: &str, base: &str, router: bool, theme: &Option<Theme>) -> (r: Vec<
    (&'static str, String),
>)
    ensures
        planned(r@) == files_spec(*t, name@, base@, router, *theme),
{
    let mut r = vec![
        ("site.toml", site_toml(t.site_toml.as_str(), name, base, router)),
        ("content/index.md", t.index.clone()),
        ("content/docs/index.md", t.docs.clone()),
        ("content/404.md", t.not_found.clone()),
        ("static/.gitkeep", String::new()),
    ];
    let mut more = match theme {
        Some(th) => crate_files(t, name, th),
        None => content_files(t),
    };
    r.append(&mut more);
    assert(planned(r@) =~= files_spec(*t, name@, base@, router, *theme));
    r
}

} // verus!
