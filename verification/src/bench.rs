//! The synthetic site a build is timed on: a page body whose frontmatter is
//! what every generator compared accepts, with prose, code and a table in
//! it, so that each pass of a build has something to do.

use vstd::prelude::*;

use crate::text::{self, digits};

verus! {

broadcast use vstd::string::group_string_axioms;

/// The prose every section of a synthetic page repeats.
pub const LOREM: &'static str = "A site is a typed value. Every static site generator in wide use is a string pipeline: templates render strings, frontmatter is a loose map, links are strings, and the base path is a string. Every one of those is a place a small site breaks in a way you only find in production. The advantage of a typed build is not speed but that an entire class of bug stops being a runtime surprise.";

/// One of a synthetic page's four sections: a heading, the prose, and a
/// code block.
pub open spec fn section_text(heading: nat) -> Seq<char> {
    "## Heading "@ + digits(heading) + "\n\n"@ + LOREM@ + "\n\n"@ + "```rust\npub fn heading_"@
        + digits(heading) + "(page: usize) -> String {\n    format!(\"{page}\")\n}\n```\n\n"@
}

/// The sections below the first `n`.
pub open spec fn sections(n: nat) -> Seq<char>
    decreases n,
{
    if n == 0 {
        Seq::empty()
    } else {
        sections((n - 1) as nat) + section_text((n - 1) as nat)
    }
}

/// The body of synthetic page number `page`.
pub open spec fn page_text(page: nat) -> Seq<char> {
    "+++\ntitle = \"Page "@ + digits(page) + "\"\ndescription = \"Page "@ + digits(page)
        + ".\"\n+++\n\n"@ + "# Page "@ + digits(page) + "\n\n"@ + LOREM@ + "\n\n"@ + sections(4)
        + "| Column | Column |\n|---|---|\n| a | b |\n| c | d |\n\n"@
}

/// The body of synthetic page number `page`.
pub fn page_body(page: usize) -> (out: String)
    ensures
        out@ == page_text(page as nat),
{
    let mut out = String::from_str("+++\ntitle = \"Page ");
    text::push_decimal(&mut out, page as u64);
    out.append("\"\ndescription = \"Page ");
    text::push_decimal(&mut out, page as u64);
    out.append(".\"\n+++\n\n");
    out.append("# Page ");
    text::push_decimal(&mut out, page as u64);
    out.append("\n\n");
    out.append(LOREM);
    out.append("\n\n");
    let ghost start = out@;
    let mut heading: u64 = 0;
    while heading < 4
        invariant
            heading <= 4,
            out@ == start + sections(heading as nat),
        decreases 4 - heading,
    {
        out.append("## Heading ");
        text::push_decimal(&mut out, heading);
        out.append("\n\n");
        out.append(LOREM);
        out.append("\n\n");
        out.append("```rust\npub fn heading_");
        text::push_decimal(&mut out, heading);
        out.append("(page: usize) -> String {\n    format!(\"{page}\")\n}\n```\n\n");
        assert(out@ =~= start + sections((heading + 1) as nat));
        heading = heading + 1;
    }
    out.append("| Column | Column |\n|---|---|\n| a | b |\n| c | d |\n\n");
    assert(out@ =~= page_text(page as nat));
    out
}

// ------------------------------------------------------------------ the three sites

/// A file to write, as plain values: its path and what it holds.
pub type File = (Seq<char>, Seq<char>);

/// The plain values of files.
pub open spec fn files_view(v: Seq<(String, String)>) -> Seq<File> {
    v.map_values(|f: (String, String)| (f.0@, f.1@))
}

/// The page template Hugo is given, for single pages and lists alike.
pub const HUGO_PAGE: &'static str = "<!doctype html><html><head><title>{{ .Title }}</title></head><body><main>{{ .Content }}</main></body></html>";

/// Zola's template for a page.
pub const ZOLA_PAGE: &'static str = "<!doctype html><html><head><title>{{ page.title }}</title></head><body><main>{{ page.content | safe }}</main></body></html>";

/// Zola's template for a section.
pub const ZOLA_SECTION: &'static str = "<!doctype html><html><head><title>{{ section.title }}</title></head><body><main>{{ section.content | safe }}</main></body></html>";

/// Zola's template for the front page.
pub const ZOLA_INDEX: &'static str = "<!doctype html><html><head><title>Benchmark</title></head><body></body></html>";

/// What each generator needs besides its content, below its own directory:
/// `crabbucket` a `site.toml`, `hugo` two templates and its configuration,
/// and any other name what Zola needs.
pub open spec fn config_spec(generator: Seq<char>) -> Seq<File> {
    if generator == "crabbucket"@ {
        seq![("site.toml"@, "title = \"Benchmark\"\ndescription = \"A synthetic site.\"\nbase = \"/\"\n"@)]
    } else if generator == "hugo"@ {
        seq![
            ("layouts/_default/single.html"@, HUGO_PAGE@),
            ("layouts/_default/list.html"@, HUGO_PAGE@),
            ("hugo.toml"@, "baseURL = \"/\"\ntitle = \"Benchmark\"\n"@),
        ]
    } else {
        seq![
            ("templates/page.html"@, ZOLA_PAGE@),
            ("templates/section.html"@, ZOLA_SECTION@),
            ("templates/index.html"@, ZOLA_INDEX@),
            ("config.toml"@, "base_url = \"https://example.com\"\ntitle = \"Benchmark\"\n\n[markdown.highlighting]\ntheme = \"ayu-dark\"\n"@),
        ]
    }
}

/// The configuration files a generator needs, below its own directory.
pub fn bench_config(generator: &str) -> (r: Vec<(String, String)>)
    ensures
        files_view(r@) == config_spec(generator@),
{
    let r = if text::same_text(generator, "crabbucket") {
        vec![(String::from_str("site.toml"), String::from_str("title = \"Benchmark\"\ndescription = \"A synthetic site.\"\nbase = \"/\"\n"))]
    } else if text::same_text(generator, "hugo") {
        vec![
            (String::from_str("layouts/_default/single.html"), String::from_str(HUGO_PAGE)),
            (String::from_str("layouts/_default/list.html"), String::from_str(HUGO_PAGE)),
            (String::from_str("hugo.toml"), String::from_str("baseURL = \"/\"\ntitle = \"Benchmark\"\n")),
        ]
    } else {
        vec![
            (String::from_str("templates/page.html"), String::from_str(ZOLA_PAGE)),
            (String::from_str("templates/section.html"), String::from_str(ZOLA_SECTION)),
            (String::from_str("templates/index.html"), String::from_str(ZOLA_INDEX)),
            (String::from_str("config.toml"), String::from_str("base_url = \"https://example.com\"\ntitle = \"Benchmark\"\n\n[markdown.highlighting]\ntheme = \"ayu-dark\"\n")),
        ]
    };
    assert(files_view(r@) =~= config_spec(generator@));
    r
}

/// What a generator calls a section's own page.
pub open spec fn index_name(generator: Seq<char>) -> Seq<char> {
    if generator == "crabbucket"@ {
        "index.md"@
    } else {
        "_index.md"@
    }
}

/// Page `page` of a generator's site: twenty sections, so that the tree is
/// nested as a real documentation site is.
pub open spec fn page_file(generator: Seq<char>, page: nat) -> File {
    (
        generator + "/content/section-"@ + digits(page % 20) + "/page-"@ + digits(page) + ".md"@,
        page_text(page),
    )
}

/// Section `index`'s own page, so that every generator writes as many pages.
pub open spec fn section_file(generator: Seq<char>, index: nat) -> File {
    (generator + "/content/section-"@ + digits(index) + "/"@ + index_name(generator), page_text(index))
}

/// Everything one generator's copy of the site holds: its pages, its home
/// page, its section pages, and its configuration.
pub open spec fn site_spec(generator: Seq<char>, pages: nat) -> Seq<File> {
    Seq::new(pages, |p: int| page_file(generator, p as nat)) + seq![
        (generator + "/content/"@ + index_name(generator), page_text(0)),
    ] + Seq::new(20, |i: int| section_file(generator, i as nat)) + config_spec(generator).map_values(
        |f: File| (generator + "/"@ + f.0, f.1),
    )
}

/// The three copies of the synthetic site, one for each generator compared.
pub open spec fn bench_files_spec(pages: nat) -> Seq<File> {
    site_spec("crabbucket"@, pages) + site_spec("hugo"@, pages) + site_spec("zola"@, pages)
}

fn joined(generator: &str, rest: &str) -> (r: String)
    ensures
        r@ == generator@ + rest@,
{
    let mut r = String::from_str(generator);
    r.append(rest);
    r
}

/// One generator's copy of the site.
fn site_files(generator: &str, pages: usize) -> (r: Vec<(String, String)>)
    ensures
        files_view(r@) == site_spec(generator@, pages as nat),
{
    let ghost g = generator@;
    let crab = text::same_text(generator, "crabbucket");
    let index = if crab { "index.md" } else { "_index.md" };
    assert(index@ == index_name(g));
    let mut out: Vec<(String, String)> = Vec::new();
    let mut p: usize = 0;
    while p < pages
        invariant
            p <= pages,
            g == generator@,
            files_view(out@) =~= Seq::new(p as nat, |q: int| page_file(g, q as nat)),
        decreases pages - p,
    {
        let mut path = joined(generator, "/content/section-");
        text::push_decimal(&mut path, (p % 20) as u64);
        path.append("/page-");
        text::push_decimal(&mut path, p as u64);
        path.append(".md");
        let body = page_body(p);
        let ghost before = files_view(out@);
        out.push((path, body));
        assert(files_view(out@) =~= before.push(page_file(g, p as nat)));
        p = p + 1;
    }
    let ghost pages_part = files_view(out@);
    let mut home = joined(generator, "/content/");
    home.append(index);
    out.push((home, page_body(0)));
    let ghost head = files_view(out@);
    assert(head =~= pages_part + seq![(g + "/content/"@ + index_name(g), page_text(0))]);
    let mut i: usize = 0;
    while i < 20
        invariant
            i <= 20,
            g == generator@,
            index@ == index_name(g),
            files_view(out@) =~= head + Seq::new(i as nat, |k: int| section_file(g, k as nat)),
        decreases 20 - i,
    {
        let mut path = joined(generator, "/content/section-");
        text::push_decimal(&mut path, i as u64);
        path.append("/");
        path.append(index);
        let body = page_body(i);
        let ghost before = files_view(out@);
        out.push((path, body));
        assert(files_view(out@) =~= before.push(section_file(g, i as nat)));
        i = i + 1;
    }
    let ghost body_part = files_view(out@);
    let config = bench_config(generator);
    let ghost cs = config_spec(g).map_values(|f: File| (g + "/"@ + f.0, f.1));
    let mut k: usize = 0;
    while k < config.len()
        invariant
            k <= config.len(),
            g == generator@,
            files_view(config@) == config_spec(g),
            cs == config_spec(g).map_values(|f: File| (g + "/"@ + f.0, f.1)),
            files_view(out@) =~= body_part + cs.take(k as int),
        decreases config.len() - k,
    {
        let path = joined(generator, "/");
        let mut path = path;
        path.append(config[k].0.as_str());
        let ghost before = files_view(out@);
        out.push((path, config[k].1.clone()));
        assert(cs.take(k + 1) =~= cs.take(k as int).push(cs[k as int]));
        assert(files_view(out@) =~= before.push(cs[k as int]));
        k = k + 1;
    }
    assert(cs.take(config.len() as int) =~= cs);
    out
}

/// Every file of the three copies of the synthetic site, with its path below
/// the directory the benchmark works in.
pub fn bench_files(pages: usize) -> (r: Vec<(String, String)>)
    ensures
        files_view(r@) == bench_files_spec(pages as nat),
{
    let mut a = site_files("crabbucket", pages);
    let mut b = site_files("hugo", pages);
    let mut c = site_files("zola", pages);
    let ghost (av, bv, cv) = (files_view(a@), files_view(b@), files_view(c@));
    a.append(&mut b);
    a.append(&mut c);
    assert(files_view(a@) =~= av + bv + cv);
    a
}

} // verus!
