//! Generates a design system's token module from its token file.
//!
//! Both halves of every token come out of one pass: the Rust constant a
//! component refers to, and the CSS custom property the browser resolves.
//! A renamed token becomes a compile error at every use site, and the two
//! can never disagree because nothing emits one without the other.

use vstd::prelude::*;

use crate::table::{self, Entry, TomlItem, distinct_keys, has_key, lookup};
use crate::text::{self, concat, str_debug, text_leq, unicode_upper};

verus! {

broadcast use vstd::string::group_string_axioms;

/// Which of the two colour schemes a token file's top-level values are.
#[derive(Debug, Clone, Copy, PartialEq, Eq, Structural)]
pub enum Scheme {
    /// The base palette is light; a `dark` sub-table overrides it.
    Light,
    /// The base palette is dark; a `light` sub-table overrides it.
    Dark,
}

/// The name a scheme has in CSS.
pub open spec fn scheme_name(s: Scheme) -> Seq<char> {
    match s {
        Scheme::Light => "light"@,
        Scheme::Dark => "dark"@,
    }
}

/// The other scheme.
pub open spec fn other_scheme(s: Scheme) -> Scheme {
    match s {
        Scheme::Light => Scheme::Dark,
        Scheme::Dark => Scheme::Light,
    }
}

impl Scheme {
    /// The name this scheme has in CSS.
    pub fn name(self) -> (r: &'static str)
        ensures
            r@ == scheme_name(self),
    {
        match self {
            Scheme::Light => "light",
            Scheme::Dark => "dark",
        }
    }

    /// The other one, which is the only sub-table name a token group may
    /// have.
    pub fn other(self) -> (r: Scheme)
        ensures
            r == other_scheme(self),
    {
        match self {
            Scheme::Light => Scheme::Dark,
            Scheme::Dark => Scheme::Light,
        }
    }
}

/// Something wrong with a token file.
#[derive(Debug, Clone, PartialEq, Eq)]
pub struct Error(String);

impl View for Error {
    type V = Seq<char>;

    closed spec fn view(&self) -> Seq<char> {
        self.0@
    }
}

impl Error {
    /// What is wrong, in words.
    pub fn to_string(&self) -> (s: String)
        ensures
            s@ == self@,
    {
        self.0.clone()
    }
}

/// One token: its custom property and its value.
pub type Token = (Seq<char>, Seq<char>);

// ------------------------------------------------------------------ the rules

/// The keys of the entries that hold tables, in order.
pub open spec fn table_names(es: Seq<(Seq<char>, TomlItem)>) -> Seq<Seq<char>>
    decreases es.len(),
{
    if es.len() == 0 {
        Seq::empty()
    } else {
        let w = table_names(es.drop_last());
        if es.last().1 is Table {
            w.push(es.last().0)
        } else {
            w
        }
    }
}

/// The token groups, by name.
pub open spec fn group_names(es: Seq<(Seq<char>, TomlItem)>) -> Seq<Seq<char>> {
    table_names(es).sort_by(|a: Seq<char>, b: Seq<char>| text_leq(a, b))
}

/// The entries of the group named `g`.
pub open spec fn group_entries(es: Seq<(Seq<char>, TomlItem)>, g: Seq<char>) -> Seq<(Seq<char>, TomlItem)> {
    match lookup(es, g) {
        Some(TomlItem::Table(inner)) => inner,
        _ => Seq::empty(),
    }
}

/// The entries that hold strings, as names and values, in order.
pub open spec fn string_entries(es: Seq<(Seq<char>, TomlItem)>) -> Seq<(Seq<char>, Seq<char>)>
    decreases es.len(),
{
    if es.len() == 0 {
        Seq::empty()
    } else {
        let w = string_entries(es.drop_last());
        match es.last().1 {
            TomlItem::Str(v) => w.push((es.last().0, v)),
            _ => w,
        }
    }
}

/// The first token of a group whose value is neither a string nor a
/// sub-table.
pub open spec fn first_non_string(es: Seq<(Seq<char>, TomlItem)>) -> Option<Seq<char>>
    decreases es.len(),
{
    if es.len() == 0 {
        None
    } else {
        match first_non_string(es.drop_last()) {
            Some(n) => Some(n),
            None => match es.last().1 {
                TomlItem::Other => Some(es.last().0),
                _ => None,
            },
        }
    }
}

/// What a group is told when one of its tokens is not a string.
pub open spec fn token_not_a_string(g: Seq<char>, name: Seq<char>) -> Seq<char> {
    g + "."@ + name + " must be a string"@
}

/// A token's custom property: `--group-name`.
pub open spec fn property(g: Seq<char>, n: Seq<char>) -> Seq<char> {
    "--"@ + g + "-"@ + n
}

/// A group name as a module identifier.
pub open spec fn ident_spec(name: Seq<char>) -> Seq<char> {
    name.map_values(|c: char| if c == '-' { '_' } else { c })
}

/// A token name as a constant identifier: upper case, with `-` and `.` as
/// `_`, so `step--1` is `STEP__1`.
pub open spec fn konst_spec(name: Seq<char>) -> Seq<char> {
    text::expand(name, |c: char| unicode_upper(c)).map_values(
        |c: char| if c == '-' || c == '.' { '_' } else { c },
    )
}

/// One token's constant.
pub open spec fn constant_text(g: Seq<char>, n: Seq<char>, v: Seq<char>) -> Seq<char> {
    "    /// `"@ + v + "` -- also available to CSS as `var("@ + property(g, n) + ")`.\n    pub const "@
        + konst_spec(n) + ": &str = \"var("@ + property(g, n) + ", "@ + v + ")\";\n"@
}

/// One group's module.
pub open spec fn group_text(g: Seq<char>, ges: Seq<(Seq<char>, TomlItem)>) -> Seq<char> {
    "/// The `"@ + g + "` tokens, generated from the design token file.\npub mod "@ + ident_spec(g)
        + " {\n"@ + concat(
        string_entries(ges).map_values(|p: (Seq<char>, Seq<char>)| constant_text(g, p.0, p.1)),
    ) + "}\n\n"@
}

/// One group's tokens in the base palette.
pub open spec fn group_tokens(g: Seq<char>, ges: Seq<(Seq<char>, TomlItem)>) -> Seq<Token> {
    string_entries(ges).map_values(|p: (Seq<char>, Seq<char>)| (property(g, p.0), p.1))
}

/// The complaint about a sub-table that is not the other scheme.
pub open spec fn not_a_scheme(g: Seq<char>, name: Seq<char>, base: Scheme) -> Seq<char> {
    g + "."@ + name + " is not a scheme; the base palette is "@ + scheme_name(base)
        + ", so the only sub-table it may have is `"@ + scheme_name(other_scheme(base)) + "`"@
}

/// The complaint about an override of a token the base lacks.
pub open spec fn no_base(g: Seq<char>, other: Seq<char>, token: Seq<char>) -> Seq<char> {
    g + "."@ + other + "."@ + token + " has no `"@ + g + "."@ + token + "` to override"@
}

/// The complaint about an override that is not a string.
pub open spec fn not_a_string(g: Seq<char>, other: Seq<char>, token: Seq<char>) -> Seq<char> {
    g + "."@ + other + "."@ + token + " must be a string"@
}

/// The overrides in one scheme sub-table of group `g`, checked against the
/// group itself.
pub open spec fn override_tokens(
    g: Seq<char>,
    ges: Seq<(Seq<char>, TomlItem)>,
    ov: Seq<(Seq<char>, TomlItem)>,
    other: Seq<char>,
) -> Result<Seq<Token>, Seq<char>>
    decreases ov.len(),
{
    if ov.len() == 0 {
        Ok(Seq::empty())
    } else {
        match override_tokens(g, ges, ov.drop_last(), other) {
            Err(m) => Err(m),
            Ok(found) => {
                let (token, value) = ov.last();
                if !has_key(ges, token) {
                    Err(no_base(g, other, token))
                } else {
                    match value {
                        TomlItem::Str(v) => Ok(found.push((property(g, token), v))),
                        _ => Err(not_a_string(g, other, token)),
                    }
                }
            },
        }
    }
}

/// A group's overrides for the other scheme, from the first `items` of its
/// entries.
pub open spec fn scheme_from(
    g: Seq<char>,
    ges: Seq<(Seq<char>, TomlItem)>,
    items: Seq<(Seq<char>, TomlItem)>,
    base: Scheme,
) -> Result<Seq<Token>, Seq<char>>
    decreases items.len(),
{
    if items.len() == 0 {
        Ok(Seq::empty())
    } else {
        match scheme_from(g, ges, items.drop_last(), base) {
            Err(m) => Err(m),
            Ok(found) => {
                let (name, item) = items.last();
                match item {
                    TomlItem::Table(ov) => if name != scheme_name(other_scheme(base)) {
                        Err(not_a_scheme(g, name, base))
                    } else {
                        match override_tokens(g, ges, ov, name) {
                            Err(m) => Err(m),
                            Ok(t) => Ok(found + t),
                        }
                    },
                    _ => Ok(found),
                }
            },
        }
    }
}

/// The module text, base tokens and overrides of the groups `names`.
pub open spec fn groups_out(es: Seq<(Seq<char>, TomlItem)>, names: Seq<Seq<char>>, base: Scheme) -> Result<
    (Seq<char>, Seq<Token>, Seq<Token>),
    Seq<char>,
>
    decreases names.len(),
{
    if names.len() == 0 {
        Ok((Seq::empty(), Seq::empty(), Seq::empty()))
    } else {
        match groups_out(es, names.drop_last(), base) {
            Err(m) => Err(m),
            Ok((rust, bt, ov)) => {
                let g = names.last();
                let ges = group_entries(es, g);
                match first_non_string(ges) {
                    Some(name) => Err(token_not_a_string(g, name)),
                    None => match scheme_from(g, ges, ges, base) {
                        Err(m) => Err(m),
                        Ok(found) => Ok((rust + group_text(g, ges), bt + group_tokens(g, ges), ov + found)),
                    },
                }
            },
        }
    }
}

/// Tokens as CSS declarations.
pub open spec fn declarations_spec(ts: Seq<Token>) -> Seq<char> {
    concat(ts.map_values(|t: Token| t.0 + ":"@ + t.1 + ";"@))
}

/// The stylesheet: the base palette, then the two ways of asking for the
/// other scheme, when there is anything to override.
pub open spec fn css_spec(bt: Seq<Token>, ov: Seq<Token>, base: Scheme) -> Seq<char> {
    let head = ":root{color-scheme:"@ + scheme_name(base) + ";"@ + declarations_spec(bt) + "}"@;
    if ov.len() == 0 {
        head
    } else {
        let o = scheme_name(other_scheme(base));
        let block = "color-scheme:"@ + o + ";"@ + declarations_spec(ov);
        head + "@media (prefers-color-scheme: "@ + o + "){:root:not([data-theme=\""@ + scheme_name(base)
            + "\"]){"@ + block + "}}"@ + ":root[data-theme=\""@ + o + "\"]{"@ + block + "}"@
    }
}

/// A `&[(&str, &str)]` literal.
pub open spec fn pairs_spec(ts: Seq<Token>) -> Seq<char> {
    "["@ + concat(ts.map_values(|t: Token| "("@ + str_debug(t.0) + ", "@ + str_debug(t.1) + "), "@))
        + "]"@
}

/// The tables and constants the module ends with.
pub open spec fn tail_text(bt: Seq<Token>, ov: Seq<Token>, base: Scheme) -> Seq<char> {
    "/// Every token's custom property and its value in the base palette.\npub const BASE: &[(&str, &str)] = &"@
        + pairs_spec(bt)
        + ";\n\n/// The tokens the other scheme overrides, and their values.\npub const OVERRIDES: &[(&str, &str)] = &"@
        + pairs_spec(ov) + ";\n\n/// Which scheme the base palette is.\npub const SCHEME: &str = "@
        + str_debug(scheme_name(base))
        + ";\n\n/// Every token, as CSS: the base palette, then the overrides.\npub const CSS: &str = "@
        + str_debug(css_spec(bt, ov, base)) + ";\n"@
}

/// What the token module is for a parsed token file's entries.
pub open spec fn table_spec(es: Seq<(Seq<char>, TomlItem)>, base: Scheme) -> Result<Seq<char>, Seq<char>> {
    match groups_out(es, group_names(es), base) {
        Err(m) => Err(m),
        Ok((rust, bt, ov)) => Ok(rust + tail_text(bt, ov, base)),
    }
}

/// What `generate` returns for a token file.
pub open spec fn generate_spec(source: Seq<char>, base: Scheme) -> Result<Seq<char>, Seq<char>> {
    match table::toml_parse(source) {
        None => Err(table::toml_display(source)),
        Some(es) => table_spec(es, base),
    }
}

// ------------------------------------------------------------------ lemmas

proof fn lemma_lookup_distinct(es: Seq<(Seq<char>, TomlItem)>, i: int)
    requires
        distinct_keys(es),
        0 <= i < es.len(),
    ensures
        lookup(es, es[i].0) == Some(es[i].1),
    decreases es.len(),
{
    if i > 0 {
        assert(es[0].0 != es[i].0);
        let d = es.drop_first();
        assert forall|a: int, b: int|
            0 <= a < d.len() && 0 <= b < d.len() && a != b implies d[a].0 != d[b].0 by {
            assert(d[a] == es[a + 1] && d[b] == es[b + 1]);
        }
        assert(d[i - 1] == es[i]);
        lemma_lookup_distinct(d, i - 1);
    }
}

proof fn lemma_table_names(es: Seq<(Seq<char>, TomlItem)>, n: Seq<char>)
    requires
        table_names(es).contains(n),
    ensures
        exists|i: int| 0 <= i < es.len() && es[i].0 == n && es[i].1 is Table,
    decreases es.len(),
{
    let w = table_names(es.drop_last());
    if w.contains(n) {
        lemma_table_names(es.drop_last(), n);
        let i = choose|i: int| 0 <= i < es.drop_last().len() && es.drop_last()[i].0 == n
            && es.drop_last()[i].1 is Table;
        assert(es[i] == es.drop_last()[i]);
    } else {
        assert(es[es.len() - 1].0 == n);
    }
}

// ------------------------------------------------------------------ building

/// A group name as a module identifier.
pub fn ident(name: &str) -> (r: String)
    ensures
        r@ == ident_spec(name@),
{
    let chars = text::chars_of(name);
    let mut out: Vec<char> = Vec::new();
    let mut i: usize = 0;
    while i < chars.len()
        invariant
            i <= chars.len(),
            chars@ == name@,
            out@ == chars@.take(i as int).map_values(|c: char| if c == '-' { '_' } else { c }),
        decreases chars.len() - i,
    {
        let c = chars[i];
        out.push(if c == '-' { '_' } else { c });
        assert(out@ =~= chars@.take(i + 1).map_values(|c: char| if c == '-' { '_' } else { c }));
        i = i + 1;
    }
    assert(chars@.take(chars.len() as int) =~= chars@);
    text::string_of(out.as_slice())
}

/// A token name as a constant identifier: `step--1` becomes `STEP__1`.
pub fn konst(name: &str) -> (r: String)
    ensures
        r@ == konst_spec(name@),
{
    let chars = text::chars_of(name);
    let ghost f = |c: char| unicode_upper(c);
    let mut upper: Vec<char> = Vec::new();
    let mut i: usize = 0;
    while i < chars.len()
        invariant
            i <= chars.len(),
            chars@ == name@,
            f == (|c: char| unicode_upper(c)),
            upper@ == text::expand(chars@.take(i as int), f),
        decreases chars.len() - i,
    {
        proof {
            assert(chars@.take(i + 1).drop_last() =~= chars@.take(i as int));
        }
        let up = text::to_uppercase(chars[i]);
        text::extend_vec(&mut upper, up.as_slice());
        i = i + 1;
    }
    assert(chars@.take(chars.len() as int) =~= chars@);
    let mut out: Vec<char> = Vec::new();
    let mut j: usize = 0;
    while j < upper.len()
        invariant
            j <= upper.len(),
            out@ == upper@.take(j as int).map_values(
                |c: char| if c == '-' || c == '.' { '_' } else { c },
            ),
        decreases upper.len() - j,
    {
        let c = upper[j];
        out.push(if c == '-' || c == '.' { '_' } else { c });
        assert(out@ =~= upper@.take(j + 1).map_values(
            |c: char| if c == '-' || c == '.' { '_' } else { c },
        ));
        j = j + 1;
    }
    assert(upper@.take(upper.len() as int) =~= upper@);
    text::string_of(out.as_slice())
}

/// Tokens as CSS declarations.
pub fn declarations(tokens: &[(String, String)]) -> (out: String)
    ensures
        out@ == declarations_spec(text::pair_views(tokens@)),
{
    let ghost ts = text::pair_views(tokens@);
    let ghost f = |t: Token| t.0 + ":"@ + t.1 + ";"@;
    let mut out = String::new();
    let mut i: usize = 0;
    while i < tokens.len()
        invariant
            i <= tokens.len(),
            ts == text::pair_views(tokens@),
            f == (|t: Token| t.0 + ":"@ + t.1 + ";"@),
            out@ == concat(ts.take(i as int).map_values(f)),
        decreases tokens.len() - i,
    {
        proof {
            assert(ts.take(i + 1).map_values(f).drop_last() =~= ts.take(i as int).map_values(f));
        }
        out.append(tokens[i].0.as_str());
        out.append(":");
        out.append(tokens[i].1.as_str());
        out.append(";");
        assert(out@ =~= concat(ts.take(i + 1).map_values(f)));
        i = i + 1;
    }
    assert(ts.take(tokens.len() as int) =~= ts);
    out
}

/// A `&[(&str, &str)]` literal.
pub fn pairs(tokens: &[(String, String)]) -> (out: String)
    ensures
        out@ == pairs_spec(text::pair_views(tokens@)),
{
    let ghost ts = text::pair_views(tokens@);
    let ghost f = |t: Token| "("@ + str_debug(t.0) + ", "@ + str_debug(t.1) + "), "@;
    let mut out = String::from_str("[");
    let ghost head = out@;
    let mut i: usize = 0;
    while i < tokens.len()
        invariant
            i <= tokens.len(),
            ts == text::pair_views(tokens@),
            f == (|t: Token| "("@ + str_debug(t.0) + ", "@ + str_debug(t.1) + "), "@),
            out@ == head + concat(ts.take(i as int).map_values(f)),
        decreases tokens.len() - i,
    {
        proof {
            assert(ts.take(i + 1).map_values(f).drop_last() =~= ts.take(i as int).map_values(f));
        }
        out.append("(");
        let a = text::debug_quoted(tokens[i].0.as_str());
        out.append(a.as_str());
        out.append(", ");
        let b = text::debug_quoted(tokens[i].1.as_str());
        out.append(b.as_str());
        out.append("), ");
        assert(out@ =~= head + concat(ts.take(i + 1).map_values(f)));
        i = i + 1;
    }
    assert(ts.take(tokens.len() as int) =~= ts);
    out.append("]");
    out
}

/// The stylesheet: the base palette, then the two ways of asking for the
/// other scheme.
///
/// The media query is guarded so an explicit `data-theme` for the base
/// scheme beats the system preference, and the attribute selector comes
/// last so an explicit choice of the other one beats a system preference
/// for the base.
pub fn css(base_tokens: &[(String, String)], overrides: &[(String, String)], base: Scheme) -> (out: String)
    ensures
        out@ == css_spec(text::pair_views(base_tokens@), text::pair_views(overrides@), base),
{
    let mut out = String::from_str(":root{color-scheme:");
    out.append(base.name());
    out.append(";");
    let d = declarations(base_tokens);
    out.append(d.as_str());
    out.append("}");
    if overrides.len() == 0 {
        return out;
    }
    let other = base.other().name();
    let mut block = String::from_str("color-scheme:");
    block.append(other);
    block.append(";");
    let o = declarations(overrides);
    block.append(o.as_str());
    out.append("@media (prefers-color-scheme: ");
    out.append(other);
    out.append("){:root:not([data-theme=\"");
    out.append(base.name());
    out.append("\"]){");
    out.append(block.as_str());
    out.append("}}");
    out.append(":root[data-theme=\"");
    out.append(other);
    out.append("\"]{");
    out.append(block.as_str());
    out.append("}");
    out
}

/// The overrides in one scheme sub-table, checked against the group.
fn override_list(
    group: &str,
    entries: &toml::Table,
    overrides: &toml::Table,
    other: &str,
) -> (r: Result<Vec<(String, String)>, Error>)
    ensures
        match r {
            Ok(v) => override_tokens(group@, table::table_contents(*entries), table::table_contents(*overrides), other@)
                == Ok::<Seq<Token>, Seq<char>>(text::pair_views(v@)),
            Err(e) => override_tokens(group@, table::table_contents(*entries), table::table_contents(*overrides), other@)
                == Err::<Seq<Token>, Seq<char>>(e@),
        },
{
    let ghost ges = table::table_contents(*entries);
    let ghost ov = table::table_contents(*overrides);
    let items = table::entries(overrides);
    let mut found: Vec<(String, String)> = Vec::new();
    let mut i: usize = 0;
    assert(ov.take(0) =~= Seq::<(Seq<char>, TomlItem)>::empty());
    assert(text::pair_views(found@) =~= Seq::<Token>::empty());
    while i < items.len()
        invariant
            i <= items.len(),
            ges == table::table_contents(*entries),
            ov == table::table_contents(*overrides),
            items@.len() == ov.len(),
            forall|j: int|
                0 <= j < items@.len() ==> (#[trigger] items@[j]).0@ == ov[j].0 && table::item_of(
                    items@[j].1,
                ) == ov[j].1,
            override_tokens(group@, ges, ov.take(i as int), other@) == Ok::<Seq<Token>, Seq<char>>(
                text::pair_views(found@),
            ),
        decreases items.len() - i,
    {
        proof {
            assert(ov.take(i + 1).drop_last() =~= ov.take(i as int));
            assert(ov.take(i + 1).last() == ov[i as int]);
        }
        let token = items[i].0.as_str();
        if !table::contains_key(entries, token) {
            let mut m = String::from_str(group);
            m.append(".");
            m.append(other);
            m.append(".");
            m.append(token);
            m.append(" has no `");
            m.append(group);
            m.append(".");
            m.append(token);
            m.append("` to override");
            proof {
                lemma_override_err_stays(group@, ges, ov, other@, i + 1);
            }
            return Err(Error(m));
        }
        match &items[i].1 {
            Entry::Str(v) => {
                let mut p = String::from_str("--");
                p.append(group);
                p.append("-");
                p.append(token);
                let ghost before = text::pair_views(found@);
                found.push((p, v.clone()));
                assert(text::pair_views(found@) =~= before.push((property(group@, token@), v@)));
            },
            _ => {
                let mut m = String::from_str(group);
                m.append(".");
                m.append(other);
                m.append(".");
                m.append(token);
                m.append(" must be a string");
                proof {
                    lemma_override_err_stays(group@, ges, ov, other@, i + 1);
                }
                return Err(Error(m));
            },
        }
        i = i + 1;
    }
    assert(ov.take(items.len() as int) =~= ov);
    Ok(found)
}

proof fn lemma_override_err_stays(
    g: Seq<char>,
    ges: Seq<(Seq<char>, TomlItem)>,
    ov: Seq<(Seq<char>, TomlItem)>,
    other: Seq<char>,
    k: int,
)
    requires
        0 <= k <= ov.len(),
        override_tokens(g, ges, ov.take(k), other) is Err,
    ensures
        override_tokens(g, ges, ov, other) == override_tokens(g, ges, ov.take(k), other),
    decreases ov.len() - k,
{
    if k < ov.len() {
        assert(ov.take(k + 1).drop_last() =~= ov.take(k));
        lemma_override_err_stays(g, ges, ov, other, k + 1);
    } else {
        assert(ov.take(k) =~= ov);
    }
}

proof fn lemma_scheme_err_stays(
    g: Seq<char>,
    ges: Seq<(Seq<char>, TomlItem)>,
    items: Seq<(Seq<char>, TomlItem)>,
    base: Scheme,
    k: int,
)
    requires
        0 <= k <= items.len(),
        scheme_from(g, ges, items.take(k), base) is Err,
    ensures
        scheme_from(g, ges, items, base) == scheme_from(g, ges, items.take(k), base),
    decreases items.len() - k,
{
    if k < items.len() {
        assert(items.take(k + 1).drop_last() =~= items.take(k));
        lemma_scheme_err_stays(g, ges, items, base, k + 1);
    } else {
        assert(items.take(k) =~= items);
    }
}

/// A group's overrides for the other scheme, checked against the group
/// itself.
fn scheme(group: &str, entries: &toml::Table, base: Scheme) -> (r: Result<Vec<(String, String)>, Error>)
    ensures
        match r {
            Ok(v) => scheme_from(group@, table::table_contents(*entries), table::table_contents(*entries), base)
                == Ok::<Seq<Token>, Seq<char>>(text::pair_views(v@)),
            Err(e) => scheme_from(group@, table::table_contents(*entries), table::table_contents(*entries), base)
                == Err::<Seq<Token>, Seq<char>>(e@),
        },
{
    let ghost ges = table::table_contents(*entries);
    let other = base.other().name();
    let items = table::entries(entries);
    let mut found: Vec<(String, String)> = Vec::new();
    let mut i: usize = 0;
    assert(ges.take(0) =~= Seq::<(Seq<char>, TomlItem)>::empty());
    assert(text::pair_views(found@) =~= Seq::<Token>::empty());
    while i < items.len()
        invariant
            i <= items.len(),
            ges == table::table_contents(*entries),
            other@ == scheme_name(other_scheme(base)),
            items@.len() == ges.len(),
            forall|j: int|
                0 <= j < items@.len() ==> (#[trigger] items@[j]).0@ == ges[j].0 && table::item_of(
                    items@[j].1,
                ) == ges[j].1,
            scheme_from(group@, ges, ges.take(i as int), base) == Ok::<Seq<Token>, Seq<char>>(
                text::pair_views(found@),
            ),
        decreases items.len() - i,
    {
        proof {
            assert(ges.take(i + 1).drop_last() =~= ges.take(i as int));
            assert(ges.take(i + 1).last() == ges[i as int]);
        }
        match &items[i].1 {
            Entry::Table(ov) => {
                let name = items[i].0.as_str();
                if !text::same_text(name, other) {
                    let mut m = String::from_str(group);
                    m.append(".");
                    m.append(name);
                    m.append(" is not a scheme; the base palette is ");
                    m.append(base.name());
                    m.append(", so the only sub-table it may have is `");
                    m.append(other);
                    m.append("`");
                    proof {
                        lemma_scheme_err_stays(group@, ges, ges, base, i + 1);
                    }
                    return Err(Error(m));
                }
                match override_list(group, entries, ov, name) {
                    Err(e) => {
                        proof {
                            lemma_scheme_err_stays(group@, ges, ges, base, i + 1);
                        }
                        return Err(e);
                    },
                    Ok(mut more) => {
                        let ghost before = text::pair_views(found@);
                        let ghost extra = text::pair_views(more@);
                        found.append(&mut more);
                        assert(text::pair_views(found@) =~= before + extra);
                    },
                }
            },
            _ => {},
        }
        i = i + 1;
    }
    assert(ges.take(items.len() as int) =~= ges);
    Ok(found)
}

proof fn lemma_non_string_stays(es: Seq<(Seq<char>, TomlItem)>, k: int)
    requires
        0 <= k <= es.len(),
        first_non_string(es.take(k)) is Some,
    ensures
        first_non_string(es) == first_non_string(es.take(k)),
    decreases es.len() - k,
{
    if k < es.len() {
        assert(es.take(k + 1).drop_last() =~= es.take(k));
        lemma_non_string_stays(es, k + 1);
    } else {
        assert(es.take(k) =~= es);
    }
}

proof fn lemma_groups_err_stays(
    es: Seq<(Seq<char>, TomlItem)>,
    names: Seq<Seq<char>>,
    base: Scheme,
    k: int,
)
    requires
        0 <= k <= names.len(),
        groups_out(es, names.take(k), base) is Err,
    ensures
        groups_out(es, names, base) == groups_out(es, names.take(k), base),
    decreases names.len() - k,
{
    if k < names.len() {
        assert(names.take(k + 1).drop_last() =~= names.take(k));
        lemma_groups_err_stays(es, names, base, k + 1);
    } else {
        assert(names.take(k) =~= names);
    }
}

/// Generates the token module.
///
/// Fails if the file is not valid TOML, if a group carries a sub-table that
/// is not the other scheme, if an override names a token the base does not
/// have, or if any value is not a string.
pub fn generate(source: &str, base: Scheme) -> (r: Result<String, Error>)
    ensures
        match r {
            Ok(m) => generate_spec(source@, base) == Ok::<Seq<char>, Seq<char>>(m@),
            Err(e) => generate_spec(source@, base) == Err::<Seq<char>, Seq<char>>(e@),
        },
{
    match table::parse_table_display(source) {
        Err(m) => Err(Error(m)),
        Ok(t) => generate_table(&t, base),
    }
}

/// Generates the token module from a parsed token file.
///
/// Fails if a group carries a sub-table that is not the other scheme, if an
/// override names a token the base does not have, or if any value is not a
/// string.
#[verifier::rlimit(40)]
pub fn generate_table(table: &toml::Table, base: Scheme) -> (r: Result<String, Error>)
    ensures
        match r {
            Ok(m) => table_spec(table::table_contents(*table), base) == Ok::<Seq<char>, Seq<char>>(m@),
            Err(e) => table_spec(table::table_contents(*table), base) == Err::<Seq<char>, Seq<char>>(e@),
        },
{
    let ghost es = table::table_contents(*table);
    let all = table::entries(table);
    assert(distinct_keys(es)) by {
        assert forall|i: int, j: int| 0 <= i < es.len() && 0 <= j < es.len() && i != j implies es[i].0
            != es[j].0 by {
            assert(all@[i].0@ == es[i].0 && all@[j].0@ == es[j].0);
        }
    }
    let mut names: Vec<String> = Vec::new();
    let mut i: usize = 0;
    while i < all.len()
        invariant
            i <= all.len(),
            es == table::table_contents(*table),
            all@.len() == es.len(),
            forall|j: int|
                0 <= j < all@.len() ==> (#[trigger] all@[j]).0@ == es[j].0 && table::item_of(
                    all@[j].1,
                ) == es[j].1,
            text::texts(names@) == table_names(es.take(i as int)),
        decreases all.len() - i,
    {
        proof {
            assert(es.take(i + 1).drop_last() =~= es.take(i as int));
            assert(es.take(i + 1).last() == es[i as int]);
        }
        match &all[i].1 {
            Entry::Table(_) => {
                let ghost before = text::texts(names@);
                names.push(all[i].0.clone());
                assert(text::texts(names@) =~= before.push(es[i as int].0));
            },
            _ => {},
        }
        i = i + 1;
    }
    assert(es.take(all.len() as int) =~= es);
    let names = text::sort_texts(names);
    let ghost gn = group_names(es);
    proof {
        text::lemma_text_leq_total();
        table_names(es).lemma_sort_by_ensures(|a: Seq<char>, b: Seq<char>| text_leq(a, b));
    }
    let mut rust = String::new();
    let mut base_tokens: Vec<(String, String)> = Vec::new();
    let mut overrides: Vec<(String, String)> = Vec::new();
    let mut k: usize = 0;
    assert(gn.take(0) =~= Seq::<Seq<char>>::empty());
    assert(text::pair_views(base_tokens@) =~= Seq::<Token>::empty());
    assert(text::pair_views(overrides@) =~= Seq::<Token>::empty());
    assert(rust@ =~= Seq::<char>::empty());
    while k < names.len()
        invariant
            k <= names.len(),
            es == table::table_contents(*table),
            distinct_keys(es),
            gn == group_names(es),
            text::texts(names@) == gn,
            forall|x: Seq<char>| #[trigger] gn.contains(x) ==> table_names(es).contains(x),
            groups_out(es, gn.take(k as int), base) == Ok::<(Seq<char>, Seq<Token>, Seq<Token>), Seq<char>>(
                (rust@, text::pair_views(base_tokens@), text::pair_views(overrides@)),
            ),
        decreases names.len() - k,
    {
        let g = names[k].as_str();
        assert(g@ == gn[k as int]);
        proof {
            assert(gn.take(k + 1).drop_last() =~= gn.take(k as int));
            assert(gn.take(k + 1).last() == gn[k as int]);
            assert(gn.contains(gn[k as int]));
            lemma_table_names(es, gn[k as int]);
            let j = choose|j: int| 0 <= j < es.len() && es[j].0 == gn[k as int] && es[j].1 is Table;
            lemma_lookup_distinct(es, j);
        }
        let entries = match table::table_at(table, g) {
            Some(t) => t,
            None => {
                proof {
                    assert(false);
                }
                return Err(Error(String::new()));
            },
        };
        let ghost ges = table::table_contents(*entries);
        assert(ges == group_entries(es, g@));
        let ghost rust_before = rust@;
        rust.append("/// The `");
        rust.append(g);
        rust.append("` tokens, generated from the design token file.\npub mod ");
        let id = ident(g);
        rust.append(id.as_str());
        rust.append(" {\n");
        let items = table::entries(entries);
        let ghost text_start = rust@;
        let ghost tokens_start = text::pair_views(base_tokens@);
        let ghost cf = |p: (Seq<char>, Seq<char>)| constant_text(g@, p.0, p.1);
        let ghost tf = |p: (Seq<char>, Seq<char>)| (property(g@, p.0), p.1);
        let mut j: usize = 0;
        while j < items.len()
            invariant
                j <= items.len(),
                ges == table::table_contents(*entries),
                items@.len() == ges.len(),
                forall|x: int|
                    0 <= x < items@.len() ==> (#[trigger] items@[x]).0@ == ges[x].0 && table::item_of(
                        items@[x].1,
                    ) == ges[x].1,
                cf == (|p: (Seq<char>, Seq<char>)| constant_text(g@, p.0, p.1)),
                tf == (|p: (Seq<char>, Seq<char>)| (property(g@, p.0), p.1)),
                rust@ == text_start + concat(string_entries(ges.take(j as int)).map_values(cf)),
                first_non_string(ges.take(j as int)) is None,
                k < gn.len(),
                gn == group_names(es),
                es == table::table_contents(*table),
                gn.take(k + 1).drop_last() == gn.take(k as int),
                gn.take(k + 1).last() == g@,
                ges == group_entries(es, g@),
                groups_out(es, gn.take(k as int), base) is Ok,
                text::pair_views(base_tokens@) == tokens_start + string_entries(ges.take(j as int)).map_values(tf),
            decreases items.len() - j,
        {
            proof {
                assert(ges.take(j + 1).drop_last() =~= ges.take(j as int));
                assert(ges.take(j + 1).last() == ges[j as int]);
            }
            match &items[j].1 {
                Entry::Str(v) => {
                    let name = items[j].0.as_str();
                    let mut p = String::from_str("--");
                    p.append(g);
                    p.append("-");
                    p.append(name);
                    rust.append("    /// `");
                    rust.append(v.as_str());
                    rust.append("` -- also available to CSS as `var(");
                    rust.append(p.as_str());
                    rust.append(")`.\n    pub const ");
                    let k_name = konst(name);
                    rust.append(k_name.as_str());
                    rust.append(": &str = \"var(");
                    rust.append(p.as_str());
                    rust.append(", ");
                    rust.append(v.as_str());
                    rust.append(")\";\n");
                    let ghost tb = text::pair_views(base_tokens@);
                    base_tokens.push((p, v.clone()));
                    proof {
                        let se = string_entries(ges.take(j as int));
                        assert(string_entries(ges.take(j + 1)) == se.push((name@, v@)));
                        assert(se.push((name@, v@)).map_values(cf).drop_last() =~= se.map_values(cf));
                        assert(text::pair_views(base_tokens@) =~= tb.push((property(g@, name@), v@)));
                        assert(se.push((name@, v@)).map_values(tf) =~= se.map_values(tf).push(
                            (property(g@, name@), v@),
                        ));
                    }
                },
                Entry::Table(_) => {},
                Entry::Other => {
                    let mut m = String::from_str(g);
                    m.append(".");
                    m.append(items[j].0.as_str());
                    m.append(" must be a string");
                    proof {
                        assert(first_non_string(ges.take(j + 1)) == Some(ges[j as int].0));
                        lemma_non_string_stays(ges, j + 1);
                        assert(groups_out(es, gn.take(k + 1), base) == Err::<
                            (Seq<char>, Seq<Token>, Seq<Token>),
                            Seq<char>,
                        >(m@));
                        lemma_groups_err_stays(es, gn, base, k + 1);
                    }
                    return Err(Error(m));
                },
            }
            assert(rust@ == text_start + concat(string_entries(ges.take(j + 1)).map_values(cf)));
            j = j + 1;
        }
        assert(ges.take(items.len() as int) =~= ges);
        rust.append("}\n\n");
        assert(rust@ =~= rust_before + group_text(g@, ges));
        match scheme(g, entries, base) {
            Err(e) => {
                proof {
                    lemma_groups_err_stays(es, gn, base, k + 1);
                }
                return Err(e);
            },
            Ok(mut found) => {
                let ghost ob = text::pair_views(overrides@);
                let ghost fv = text::pair_views(found@);
                overrides.append(&mut found);
                assert(text::pair_views(overrides@) =~= ob + fv);
                assert(text::pair_views(base_tokens@) =~= tokens_start + group_tokens(g@, ges));
            },
        }
        k = k + 1;
    }
    assert(gn.take(names.len() as int) =~= gn);
    let ghost body = rust@;
    let ghost bt = text::pair_views(base_tokens@);
    let ghost ovv = text::pair_views(overrides@);
    assert(groups_out(es, gn, base) == Ok::<(Seq<char>, Seq<Token>, Seq<Token>), Seq<char>>(
        (body, bt, ovv),
    ));
    rust.append(
        "/// Every token's custom property and its value in the base palette.\npub const BASE: &[(&str, &str)] = &",
    );
    let bp = pairs(base_tokens.as_slice());
    rust.append(bp.as_str());
    rust.append(";\n\n/// The tokens the other scheme overrides, and their values.\npub const OVERRIDES: &[(&str, &str)] = &");
    let op = pairs(overrides.as_slice());
    rust.append(op.as_str());
    rust.append(";\n\n/// Which scheme the base palette is.\npub const SCHEME: &str = ");
    let sn = text::debug_quoted(base.name());
    rust.append(sn.as_str());
    rust.append(";\n\n/// Every token, as CSS: the base palette, then the overrides.\npub const CSS: &str = ");
    let sheet = css(base_tokens.as_slice(), overrides.as_slice(), base);
    let sq = text::debug_quoted(sheet.as_str());
    rust.append(sq.as_str());
    rust.append(";\n");
    assert(rust@ =~= body + tail_text(bt, ovv, base));
    Ok(rust)
}

} // verus!
