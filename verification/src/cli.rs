//! The command line of `crab`, which builds and scaffolds sites.
//!
//! Arguments are parsed by hand and follow the GNU conventions: a bare `--`
//! ends option processing, so a directory that begins with a dash is still
//! reachable, and an option that takes a value takes the next argument.

use vstd::prelude::*;

use crate::scaffold::Request;
use crate::text;

verus! {

broadcast use vstd::string::group_string_axioms;

/// The program's name.
pub const PACKAGE: &'static str = "crab";

/// The program's version.
pub const VERSION: &'static str = "0.1.0";

/// Overrides a build takes from the command line.
#[derive(Debug, PartialEq, Eq)]
pub struct Options {
    /// Where to write the site instead of `dist/`.
    pub out_dir: Option<String>,
    /// The base path to serve from instead of the configured one.
    pub base: Option<String>,
}

/// What the command line asked for.
#[derive(Debug, PartialEq, Eq)]
pub enum Command {
    /// Show the help text.
    Help,
    /// Show the version.
    Version,
    /// Build the site in a directory.
    Build { dir: String, options: Options },
    /// Scaffold a new site.
    New(Request),
    /// Someone asked for a dev server, which this tool does not have.
    NoDevServer,
}

/// What a command line means, as plain values.
pub enum Parsed {
    Help,
    Version,
    Build { dir: Seq<char>, out: Option<Seq<char>>, base: Option<Seq<char>> },
    New { dir: Seq<char>, base: Option<Seq<char>>, router: bool, force: bool },
    NoDevServer,
}

/// The plain value of an optional string.
pub open spec fn opt_view(o: Option<String>) -> Option<Seq<char>> {
    match o {
        Some(s) => Some(s@),
        None => None,
    }
}

/// The plain value of a command.
pub open spec fn command_view(c: Command) -> Parsed {
    match c {
        Command::Help => Parsed::Help,
        Command::Version => Parsed::Version,
        Command::Build { dir, options } => Parsed::Build {
            dir: dir@,
            out: opt_view(options.out_dir),
            base: opt_view(options.base),
        },
        Command::New(r) => Parsed::New { dir: r.dir@, base: opt_view(r.base), router: r.router, force: r.force },
        Command::NoDevServer => Parsed::NoDevServer,
    }
}

/// Whether an argument looks like an option.
pub open spec fn dashed(a: Seq<char>) -> bool {
    a.len() > 0 && a[0] == '-'
}

/// The complaint about an option with no value after it.
pub open spec fn needs_value(option: Seq<char>) -> Seq<char> {
    "option '"@ + option + "' requires an argument"@
}

/// What `build` makes of its arguments from position `i` on, with what has
/// been read so far.
pub open spec fn build_from(
    args: Seq<Seq<char>>,
    i: int,
    dir: Option<Seq<char>>,
    out: Option<Seq<char>>,
    base: Option<Seq<char>>,
    only: bool,
) -> Result<Parsed, Seq<char>>
    decreases args.len() - i,
{
    if i < 0 || i >= args.len() {
        Ok(
            Parsed::Build {
                dir: match dir {
                    Some(d) => d,
                    None => "."@,
                },
                out,
                base,
            },
        )
    } else {
        let a = args[i];
        if !only && a == "--"@ {
            build_from(args, i + 1, dir, out, base, true)
        } else if !only && a == "--out"@ {
            if i + 1 < args.len() {
                build_from(args, i + 2, dir, Some(args[i + 1]), base, only)
            } else {
                Err(needs_value("--out"@))
            }
        } else if !only && a == "--base"@ {
            if i + 1 < args.len() {
                build_from(args, i + 2, dir, out, Some(args[i + 1]), only)
            } else {
                Err(needs_value("--base"@))
            }
        } else if !only && dashed(a) {
            Err("unrecognized option '"@ + a + "'"@)
        } else if dir is None {
            build_from(args, i + 1, Some(a), out, base, only)
        } else {
            Err("unexpected argument '"@ + a + "'"@)
        }
    }
}

/// What `new` makes of its arguments from position `i` on, with what has
/// been read so far.
pub open spec fn new_from(
    args: Seq<Seq<char>>,
    i: int,
    dir: Seq<char>,
    base: Option<Seq<char>>,
    router: bool,
    force: bool,
    only: bool,
) -> Result<Parsed, Seq<char>>
    decreases args.len() - i,
{
    if i < 0 || i >= args.len() {
        if dir.len() == 0 {
            Err("new: a directory name is required"@)
        } else {
            Ok(Parsed::New { dir, base, router, force })
        }
    } else {
        let a = args[i];
        if !only && a == "--"@ {
            new_from(args, i + 1, dir, base, router, force, true)
        } else if !only && a == "--base"@ {
            if i + 1 < args.len() {
                new_from(args, i + 2, dir, Some(args[i + 1]), router, force, only)
            } else {
                Err(needs_value("--base"@))
            }
        } else if !only && a == "--router"@ {
            new_from(args, i + 1, dir, base, true, force, only)
        } else if !only && a == "--force"@ {
            new_from(args, i + 1, dir, base, router, true, only)
        } else if !only && dashed(a) {
            Err("unrecognized option '"@ + a + "'"@)
        } else if dir.len() == 0 {
            new_from(args, i + 1, a, base, router, force, only)
        } else {
            Err("unexpected argument '"@ + a + "'"@)
        }
    }
}

/// What a command line means.
pub open spec fn parse_spec(args: Seq<Seq<char>>) -> Result<Parsed, Seq<char>> {
    if args.len() == 0 {
        Ok(Parsed::Help)
    } else {
        let first = args[0];
        if first == "--help"@ || first == "-h"@ || first == "help"@ {
            Ok(Parsed::Help)
        } else if first == "--version"@ {
            Ok(Parsed::Version)
        } else if first == "dev"@ || first == "serve"@ {
            Ok(Parsed::NoDevServer)
        } else if first == "build"@ {
            build_from(args, 1, None, None, None, false)
        } else if first == "new"@ {
            new_from(args, 1, Seq::empty(), None, false, false, false)
        } else if dashed(first) {
            Err("unrecognized option '"@ + first + "'"@)
        } else {
            Err("unrecognized command '"@ + first + "'"@)
        }
    }
}

/// Whether an argument is the given word.
fn is(arg: &String, word: &str) -> (b: bool)
    ensures
        b == (arg@ == word@),
{
    text::same_text(arg.as_str(), word)
}

/// Whether an argument looks like an option.
fn is_dashed(arg: &String) -> (b: bool)
    ensures
        b == dashed(arg@),
{
    let c = text::chars_of(arg.as_str());
    c.len() > 0 && c[0] == '-'
}

/// A message naming one argument.
fn about(before: &str, arg: &str) -> (m: String)
    ensures
        m@ == before@ + arg@ + "'"@,
{
    let mut m = String::from_str(before);
    m.append(arg);
    m.append("'");
    m
}

/// Takes the value belonging to an option that requires one: the argument
/// after position `i`.
pub fn value(args: &[String], i: usize, option: &str) -> (r: Result<String, String>)
    ensures
        match r {
            Ok(v) => i + 1 < args.len() && v@ == args@[i + 1]@,
            Err(m) => i + 1 >= args.len() && m@ == needs_value(option@),
        },
{
    if i < args.len() && args.len() - i > 1 {
        Ok(args[i + 1].clone())
    } else {
        let mut m = String::from_str("option '");
        m.append(option);
        m.append("' requires an argument");
        Err(m)
    }
}

/// Parses the arguments of `build` that start at position `from`.
pub fn parse_build(args: &[String], from: usize) -> (r: Result<Command, String>)
    ensures
        match r {
            Ok(c) => build_from(text::texts(args@), from as int, None, None, None, false) == Ok::<
                Parsed,
                Seq<char>,
            >(command_view(c)),
            Err(m) => build_from(text::texts(args@), from as int, None, None, None, false) == Err::<
                Parsed,
                Seq<char>,
            >(m@),
        },
        r matches Ok(c) ==> c is Build,
{
    let ghost av = text::texts(args@);
    let mut dir: Option<String> = None;
    let mut out_dir: Option<String> = None;
    let mut base: Option<String> = None;
    let mut only = false;
    let mut i = from;
    while i < args.len()
        invariant
            from <= i || i >= args.len(),
            av == text::texts(args@),
            build_from(av, from as int, None, None, None, false) == build_from(
                av,
                i as int,
                opt_view(dir),
                opt_view(out_dir),
                opt_view(base),
                only,
            ),
        decreases args.len() - i,
    {
        let a = &args[i];
        assert(av[i as int] == a@);
        if !only && is(a, "--") {
            only = true;
            i = i + 1;
        } else if !only && is(a, "--out") {
            match value(args, i, "--out") {
                Ok(v) => {
                    out_dir = Some(v);
                    i = i + 2;
                },
                Err(m) => return Err(m),
            }
        } else if !only && is(a, "--base") {
            match value(args, i, "--base") {
                Ok(v) => {
                    base = Some(v);
                    i = i + 2;
                },
                Err(m) => return Err(m),
            }
        } else if !only && is_dashed(a) {
            return Err(about("unrecognized option '", a.as_str()));
        } else if dir.is_none() {
            dir = Some(a.clone());
            i = i + 1;
        } else {
            return Err(about("unexpected argument '", a.as_str()));
        }
    }
    let dir = match dir {
        Some(d) => d,
        None => String::from_str("."),
    };
    Ok(Command::Build { dir, options: Options { out_dir, base } })
}

/// Parses the arguments of `new` that start at position `from`.
pub fn parse_new(args: &[String], from: usize) -> (r: Result<Command, String>)
    ensures
        match r {
            Ok(c) => new_from(text::texts(args@), from as int, Seq::empty(), None, false, false, false)
                == Ok::<Parsed, Seq<char>>(command_view(c)),
            Err(m) => new_from(text::texts(args@), from as int, Seq::empty(), None, false, false, false)
                == Err::<Parsed, Seq<char>>(m@),
        },
        r matches Ok(Command::New(q)) ==> q.theme is None,
{
    let ghost av = text::texts(args@);
    let mut request = Request::new();
    let mut only = false;
    let mut i = from;
    while i < args.len()
        invariant
            from <= i || i >= args.len(),
            av == text::texts(args@),
            request.theme is None,
            new_from(av, from as int, Seq::empty(), None, false, false, false) == new_from(
                av,
                i as int,
                request.dir@,
                opt_view(request.base),
                request.router,
                request.force,
                only,
            ),
        decreases args.len() - i,
    {
        let a = &args[i];
        assert(av[i as int] == a@);
        if !only && is(a, "--") {
            only = true;
            i = i + 1;
        } else if !only && is(a, "--base") {
            match value(args, i, "--base") {
                Ok(v) => {
                    request.base = Some(v);
                    i = i + 2;
                },
                Err(m) => return Err(m),
            }
        } else if !only && is(a, "--router") {
            request.router = true;
            i = i + 1;
        } else if !only && is(a, "--force") {
            request.force = true;
            i = i + 1;
        } else if !only && is_dashed(a) {
            return Err(about("unrecognized option '", a.as_str()));
        } else if request.dir.as_str().is_empty() {
            request.dir = a.clone();
            i = i + 1;
        } else {
            return Err(about("unexpected argument '", a.as_str()));
        }
    }
    if request.dir.as_str().is_empty() {
        return Err(String::from_str("new: a directory name is required"));
    }
    Ok(Command::New(request))
}

/// Parses the command line, without the program's own name.
pub fn parse(args: &[String]) -> (r: Result<Command, String>)
    ensures
        match r {
            Ok(c) => parse_spec(text::texts(args@)) == Ok::<Parsed, Seq<char>>(command_view(c)),
            Err(m) => parse_spec(text::texts(args@)) == Err::<Parsed, Seq<char>>(m@),
        },
        r matches Ok(Command::New(q)) ==> q.theme is None,
{
    if args.len() == 0 {
        return Ok(Command::Help);
    }
    let first = &args[0];
    assert(text::texts(args@)[0] == first@);
    if is(first, "--help") || is(first, "-h") || is(first, "help") {
        Ok(Command::Help)
    } else if is(first, "--version") {
        Ok(Command::Version)
    } else if is(first, "dev") || is(first, "serve") {
        Ok(Command::NoDevServer)
    } else if is(first, "build") {
        parse_build(args, 1)
    } else if is(first, "new") {
        parse_new(args, 1)
    } else if is_dashed(first) {
        Err(about("unrecognized option '", first.as_str()))
    } else {
        Err(about("unrecognized command '", first.as_str()))
    }
}

/// One of two words, by count.
pub fn plural<'a>(count: usize, one: &'a str, many: &'a str) -> (r: &'a str)
    ensures
        r@ == if count == 1 {
            one@
        } else {
            many@
        },
{
    if count == 1 {
        one
    } else {
        many
    }
}

/// The `--help` text.
pub open spec fn help_text() -> Seq<char> {
    "Usage: crab COMMAND [OPTION]... [DIRECTORY]\nBuild a crabbucket site.\n\nCommands:\n  build [DIRECTORY]  build the site in DIRECTORY (default: .)\n  new DIRECTORY      scaffold a new site in DIRECTORY\n\nOptions for build:\n      --out PATH     write the site to PATH instead of dist/\n      --base PATH    serve from PATH instead of the configured base\n\nOptions for new:\n      --base PATH    the path the site will be served from\n      --router       ship the client-side router\n      --force        scaffold into a directory that is not empty\n\n      --help         display this help and exit\n      --version      output version information and exit\n\nExit status is 0 on success, 1 if the site is wrong, 2 if the command\nline is.\n\nThere is no dev server: run `turborust up' instead.\n\nReport bugs to: <https://github.com/oddurs/crabbucket/issues>\ncrabbucket home page: <https://github.com/oddurs/crabbucket>\n"@
}

/// The `--help` text, in the shape the GNU coding standards ask for.
pub fn help() -> (s: String)
    ensures
        s@ == help_text(),
{
    String::from_str(
        "Usage: crab COMMAND [OPTION]... [DIRECTORY]\nBuild a crabbucket site.\n\nCommands:\n  build [DIRECTORY]  build the site in DIRECTORY (default: .)\n  new DIRECTORY      scaffold a new site in DIRECTORY\n\nOptions for build:\n      --out PATH     write the site to PATH instead of dist/\n      --base PATH    serve from PATH instead of the configured base\n\nOptions for new:\n      --base PATH    the path the site will be served from\n      --router       ship the client-side router\n      --force        scaffold into a directory that is not empty\n\n      --help         display this help and exit\n      --version      output version information and exit\n\nExit status is 0 on success, 1 if the site is wrong, 2 if the command\nline is.\n\nThere is no dev server: run `turborust up' instead.\n\nReport bugs to: <https://github.com/oddurs/crabbucket/issues>\ncrabbucket home page: <https://github.com/oddurs/crabbucket>\n",
    )
}

/// The `--version` text.
pub open spec fn version_text() -> Seq<char> {
    "crab (crabbucket) 0.1.0\nCopyright (C) 2026 Oddur Sigurdsson\nLicense GPLv3+: GNU GPL version 3 or later <https://gnu.org/licenses/gpl.html>.\nThis is free software: you are free to change and redistribute it.\nThere is NO WARRANTY, to the extent permitted by law.\n\nWritten by Oddur Sigurdsson.\n"@
}

/// The `--version` text, in the shape the GNU coding standards ask for.
pub fn version() -> (s: String)
    ensures
        s@ == version_text(),
{
    String::from_str(
        "crab (crabbucket) 0.1.0\nCopyright (C) 2026 Oddur Sigurdsson\nLicense GPLv3+: GNU GPL version 3 or later <https://gnu.org/licenses/gpl.html>.\nThis is free software: you are free to change and redistribute it.\nThere is NO WARRANTY, to the extent permitted by law.\n\nWritten by Oddur Sigurdsson.\n",
    )
}

} // verus!
