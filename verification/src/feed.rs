//! Feeds, in both of the formats readers disagree about.
//!
//! A feed needs dates, and most pages do not have one, so a date is optional
//! in a page's frontmatter and required of any page in a collection a feed
//! is configured for.

use vstd::prelude::*;

use crate::text::{self, Trim, concat, expand, padded};

verus! {

broadcast use vstd::string::group_string_axioms;

/// A feed declared in `site.toml`.
#[derive(Debug, Clone)]
pub struct Feed {
    /// The route prefix whose pages this feed carries.  The empty string is
    /// the whole site.
    pub collection: String,
    /// The feed's title.  Defaults to the site's.
    pub title: Option<String>,
    /// How many entries to carry, newest first.
    pub limit: usize,
}

/// How many entries a feed carries when it does not say.
pub fn default_limit() -> (n: usize)
    ensures
        n == 20,
{
    20
}

/// `s` without slashes at either end.
pub open spec fn unslashed(s: Seq<char>) -> Seq<char> {
    text::trim_by(s, text::is('/'))
}

/// Whether a feed over `collection` carries the page at `route`: every page
/// below the collection, which is to say whose route continues the
/// collection's with a `/`, and so not the collection's own index; every
/// page at all for the whole site.
pub open spec fn covers_spec(collection: Seq<char>, route: Seq<char>) -> bool {
    let c = unslashed(collection);
    let r = unslashed(route);
    c.len() == 0 || (text::starts_with(r, c) && r.len() > c.len() && r[c.len() as int] == '/')
}

/// A feed over the whole site carries every page; a feed over a
/// collection never carries the collection's own index page, and carries a
/// page only if its route continues the collection's with a `/`.
pub proof fn lemma_feed_coverage(collection: Seq<char>, route: Seq<char>)
    ensures
        unslashed(collection).len() == 0 ==> covers_spec(collection, route),
        covers_spec(collection, collection) == (unslashed(collection).len() == 0),
        covers_spec(collection, route) && unslashed(collection).len() > 0 ==> text::starts_with(
            unslashed(route),
            unslashed(collection).push('/'),
        ),
{
    let c = unslashed(collection);
    let r = unslashed(route);
    if covers_spec(collection, route) && c.len() > 0 {
        assert(r.take((c.len() + 1) as int) =~= c.push('/'));
    }
}

/// Where a feed over `collection` writes its RSS and Atom files.
pub open spec fn paths_spec(collection: Seq<char>) -> (Seq<char>, Seq<char>) {
    let p = unslashed(collection);
    if p.len() == 0 {
        ("feed.xml"@, "atom.xml"@)
    } else {
        (p + "/feed.xml"@, p + "/atom.xml"@)
    }
}

/// `s` without slashes at either end, as characters.
fn unslash(s: &str) -> (r: Vec<char>)
    ensures
        r@ == unslashed(s@),
{
    let chars = text::chars_of(s);
    let (a, b) = text::trim_class_bounds(chars.as_slice(), 0, chars.len(), &Trim::Only('/'));
    assert(chars@.subrange(0, chars.len() as int) == chars@);
    text::copy_range(chars.as_slice(), a, b)
}

impl Feed {
    /// Whether a route belongs to this feed.
    pub fn covers(&self, route: &str) -> (b: bool)
        ensures
            b == covers_spec(self.collection@, route@),
    {
        let c = unslash(self.collection.as_str());
        let r = unslash(route);
        c.len() == 0 || (text::has_prefix(r.as_slice(), c.as_slice()) && r.len() > c.len() && r[c.len()]
            == '/')
    }

    /// Where this feed's files go, relative to the site root.
    pub fn paths(&self) -> (r: (String, String))
        ensures
            r.0@ == paths_spec(self.collection@).0,
            r.1@ == paths_spec(self.collection@).1,
    {
        let p = unslash(self.collection.as_str());
        if p.len() == 0 {
            (String::from_str("feed.xml"), String::from_str("atom.xml"))
        } else {
            let mut rss = text::string_of(p.as_slice());
            rss.append("/feed.xml");
            let mut atom = text::string_of(p.as_slice());
            atom.append("/atom.xml");
            (rss, atom)
        }
    }
}

// ------------------------------------------------------------------ XML

/// What one character becomes in XML text or an attribute value: `&`, `<`,
/// `>`, `"` and `'` are escaped, and everything else stands.
pub open spec fn xml_char(c: char) -> Seq<char> {
    if c == '&' {
        "&amp;"@
    } else if c == '<' {
        "&lt;"@
    } else if c == '>' {
        "&gt;"@
    } else if c == '"' {
        "&quot;"@
    } else if c == '\'' {
        "&apos;"@
    } else {
        seq![c]
    }
}

/// `s` escaped for XML.
pub open spec fn xml_escaped(s: Seq<char>) -> Seq<char> {
    expand(s, |c: char| xml_char(c))
}

/// Escapes text for XML.
///
/// `'` is escaped as `&apos;` rather than left alone because the same
/// function is used for attribute values, and an apostrophe in a title is
/// common.
pub fn escape(text: &str) -> (out: String)
    ensures
        out@ == xml_escaped(text@),
{
    let chars = text::chars_of(text);
    let ghost f = |c: char| xml_char(c);
    let mut out = String::new();
    let mut i: usize = 0;
    while i < chars.len()
        invariant
            i <= chars.len(),
            chars@ == text@,
            f == (|c: char| xml_char(c)),
            out@ == expand(chars@.take(i as int), f),
        decreases chars.len() - i,
    {
        let c = chars[i];
        proof {
            assert(chars@.take(i + 1).drop_last() == chars@.take(i as int));
            assert(chars@.take(i + 1).last() == c);
        }
        let ghost before = out@;
        if c == '&' {
            out.append("&amp;");
        } else if c == '<' {
            out.append("&lt;");
        } else if c == '>' {
            out.append("&gt;");
        } else if c == '"' {
            out.append("&quot;");
        } else if c == '\'' {
            out.append("&apos;");
        } else {
            text::push_char(&mut out, c);
        }
        assert(out@ =~= before + xml_char(c));
        i = i + 1;
    }
    assert(chars@.take(chars.len() as int) == chars@);
    out
}

// ------------------------------------------------------------------ dates

/// A calendar date, as a frontmatter `date` holds it.
#[derive(Debug, Clone, Copy, PartialEq, Eq)]
pub struct Date {
    /// The year.
    pub year: u16,
    /// The month, 1 to 12.
    pub month: u8,
    /// The day of the month, 1 to 31.
    pub day: u8,
}

/// A time of day.
#[derive(Debug, Clone, Copy, PartialEq, Eq)]
pub struct Time {
    /// The hour, 0 to 23.
    pub hour: u8,
    /// The minute, 0 to 59.
    pub minute: u8,
    /// The second, 0 to 60.
    pub second: u8,
}

/// A frontmatter date: a date, a time, or both.
#[derive(Debug, Clone, Copy, PartialEq, Eq)]
pub struct Datetime {
    /// The date, if there is one.
    pub date: Option<Date>,
    /// The time, if there is one.
    pub time: Option<Time>,
}

/// The date a datetime stands for: its own, or the epoch when it has none.
pub open spec fn day_of(d: Datetime) -> (nat, nat, nat) {
    match d.date {
        Some(x) => (x.year as nat, x.month as nat, x.day as nat),
        None => (1970, 1, 1),
    }
}

/// The time a datetime stands for: its own, or midnight when it has none.
pub open spec fn time_of(d: Datetime) -> (nat, nat, nat) {
    match d.time {
        Some(t) => (t.hour as nat, t.minute as nat, t.second as nat),
        None => (0, 0, 0),
    }
}

/// Integer division rounding towards zero, which is what `/` does on `i32`.
pub open spec fn quot(a: int, b: int) -> int {
    if a >= 0 {
        a / b
    } else {
        -((-a) / b)
    }
}

/// Sakamoto's month offsets.
pub open spec fn month_offset(m: nat) -> int {
    if m == 1 {
        0
    } else if m == 2 {
        3
    } else if m == 3 {
        2
    } else if m == 4 {
        5
    } else if m == 5 {
        0
    } else if m == 6 {
        3
    } else if m == 7 {
        5
    } else if m == 8 {
        1
    } else if m == 9 {
        4
    } else if m == 10 {
        6
    } else if m == 11 {
        2
    } else {
        4
    }
}

/// A month number held to 1 to 12.
pub open spec fn clamp_month(m: nat) -> nat {
    if m < 1 {
        1
    } else if m > 12 {
        12
    } else {
        m
    }
}

/// The day of the week, 0 for Sunday, by Sakamoto's method.
pub open spec fn weekday_spec(year: nat, month: nat, day: nat) -> nat {
    let m = clamp_month(month);
    let y: int = if m < 3 {
        year - 1
    } else {
        year as int
    };
    ((y + quot(y, 4) - quot(y, 100) + quot(y, 400) + month_offset(m) + day) % 7) as nat
}

/// The day of the week, 0 for Sunday, by Sakamoto's method.
pub fn weekday(year: u16, month: u8, day: u8) -> (w: usize)
    ensures
        w == weekday_spec(year as nat, month as nat, day as nat),
        w < 7,
{
    let m: u8 = if month < 1 {
        1
    } else if month > 12 {
        12
    } else {
        month
    };
    let offsets: [i64; 12] = [0, 3, 2, 5, 0, 3, 5, 1, 4, 6, 2, 4];
    let y: i64 = if m < 3 {
        year as i64 - 1
    } else {
        year as i64
    };
    let (a, b, c): (i64, i64, i64) = if y >= 0 {
        (y / 4, y / 100, y / 400)
    } else {
        (0, 0, 0)
    };
    let off = offsets[(m - 1) as usize];
    assert(off == month_offset(m as nat));
    let total: i64 = y + a - b + c + off + day as i64;
    let r: i64 = if total >= 0 {
        total % 7
    } else {
        (total + 7) % 7
    };
    r as usize
}

/// Appends a number padded with zeros.
fn push_padded_nat(out: &mut String, n: u64, width: usize)
    ensures
        final(out)@ == old(out)@ + padded(n as nat, width as nat),
{
    text::push_padded(out, n, width);
}

/// A date as Atom wants it: RFC 3339, with no date meaning the epoch and no
/// time meaning midnight UTC.
pub open spec fn rfc3339_spec(d: Datetime) -> Seq<char> {
    let (y, mo, da) = day_of(d);
    let (h, mi, s) = time_of(d);
    padded(y, 4) + "-"@ + padded(mo, 2) + "-"@ + padded(da, 2) + "T"@ + padded(h, 2) + ":"@ + padded(mi, 2)
        + ":"@ + padded(s, 2) + "Z"@
}

/// The three-letter name of a weekday, 0 for Sunday.
pub open spec fn day_name(w: nat) -> Seq<char> {
    if w == 0 {
        "Sun"@
    } else if w == 1 {
        "Mon"@
    } else if w == 2 {
        "Tue"@
    } else if w == 3 {
        "Wed"@
    } else if w == 4 {
        "Thu"@
    } else if w == 5 {
        "Fri"@
    } else {
        "Sat"@
    }
}

/// The three-letter name of a month, held to 1 to 12.
pub open spec fn month_name(m: nat) -> Seq<char> {
    let m = clamp_month(m);
    if m == 1 {
        "Jan"@
    } else if m == 2 {
        "Feb"@
    } else if m == 3 {
        "Mar"@
    } else if m == 4 {
        "Apr"@
    } else if m == 5 {
        "May"@
    } else if m == 6 {
        "Jun"@
    } else if m == 7 {
        "Jul"@
    } else if m == 8 {
        "Aug"@
    } else if m == 9 {
        "Sep"@
    } else if m == 10 {
        "Oct"@
    } else if m == 11 {
        "Nov"@
    } else {
        "Dec"@
    }
}

/// A date as RSS wants it: RFC 822, as amended by RFC 2822.
pub open spec fn rfc2822_spec(d: Datetime) -> Seq<char> {
    let (y, mo, da) = day_of(d);
    let (h, mi, s) = time_of(d);
    day_name(weekday_spec(y, mo, da)) + ", "@ + padded(da, 2) + " "@ + month_name(mo) + " "@ + padded(y, 4)
        + " "@ + padded(h, 2) + ":"@ + padded(mi, 2) + ":"@ + padded(s, 2) + " +0000"@
}

/// The date parts a datetime stands for.
fn parts(date: &Datetime) -> (r: (u16, u8, u8, u8, u8, u8))
    ensures
        (r.0 as nat, r.1 as nat, r.2 as nat) == day_of(*date),
        (r.3 as nat, r.4 as nat, r.5 as nat) == time_of(*date),
{
    let (y, mo, d) = match date.date {
        Some(x) => (x.year, x.month, x.day),
        None => (1970u16, 1u8, 1u8),
    };
    let (h, mi, s) = match date.time {
        Some(t) => (t.hour, t.minute, t.second),
        None => (0u8, 0u8, 0u8),
    };
    (y, mo, d, h, mi, s)
}

/// A date as Atom wants it: RFC 3339.
///
/// A date with no time is midnight UTC.  Guessing a time zone from the
/// machine doing the build would make the same content produce different
/// feeds on different machines.
pub fn rfc3339(date: &Datetime) -> (out: String)
    ensures
        out@ == rfc3339_spec(*date),
{
    let (y, mo, d, h, mi, s) = parts(date);
    let mut out = String::new();
    push_padded_nat(&mut out, y as u64, 4);
    out.append("-");
    push_padded_nat(&mut out, mo as u64, 2);
    out.append("-");
    push_padded_nat(&mut out, d as u64, 2);
    out.append("T");
    push_padded_nat(&mut out, h as u64, 2);
    out.append(":");
    push_padded_nat(&mut out, mi as u64, 2);
    out.append(":");
    push_padded_nat(&mut out, s as u64, 2);
    out.append("Z");
    out
}

/// A date as RSS wants it: RFC 822, as amended by RFC 2822.
pub fn rfc2822(date: &Datetime) -> (out: String)
    ensures
        out@ == rfc2822_spec(*date),
{
    let (y, mo, d, h, mi, s) = parts(date);
    let w = weekday(y, mo, d);
    let day = if w == 0 {
        "Sun"
    } else if w == 1 {
        "Mon"
    } else if w == 2 {
        "Tue"
    } else if w == 3 {
        "Wed"
    } else if w == 4 {
        "Thu"
    } else if w == 5 {
        "Fri"
    } else {
        "Sat"
    };
    let m = if mo <= 1 {
        "Jan"
    } else if mo == 2 {
        "Feb"
    } else if mo == 3 {
        "Mar"
    } else if mo == 4 {
        "Apr"
    } else if mo == 5 {
        "May"
    } else if mo == 6 {
        "Jun"
    } else if mo == 7 {
        "Jul"
    } else if mo == 8 {
        "Aug"
    } else if mo == 9 {
        "Sep"
    } else if mo == 10 {
        "Oct"
    } else if mo == 11 {
        "Nov"
    } else {
        "Dec"
    };
    let mut out = String::from_str(day);
    out.append(", ");
    push_padded_nat(&mut out, d as u64, 2);
    out.append(" ");
    out.append(m);
    out.append(" ");
    push_padded_nat(&mut out, y as u64, 4);
    out.append(" ");
    push_padded_nat(&mut out, h as u64, 2);
    out.append(":");
    push_padded_nat(&mut out, mi as u64, 2);
    out.append(":");
    push_padded_nat(&mut out, s as u64, 2);
    out.append(" +0000");
    out
}

// ------------------------------------------------------------------ feeds

/// One entry, ready to be written.
#[derive(Debug, Clone, PartialEq, Eq)]
pub struct Item<'a> {
    /// The page's title.
    pub title: &'a str,
    /// Its absolute URL.
    pub url: String,
    /// Its date.
    pub date: &'a Datetime,
    /// Its rendered body.
    pub html: &'a str,
}

/// The XML declaration every feed opens with.
pub open spec fn xml_head() -> Seq<char> {
    "<?xml version=\"1.0\" encoding=\"UTF-8\"?>\n"@
}

/// One RSS item.
pub open spec fn rss_item(i: Item) -> Seq<char> {
    "  <item>\n"@ + "    <title>"@ + xml_escaped(i.title@) + "</title>\n"@ + "    <link>"@ + xml_escaped(
        i.url@,
    ) + "</link>\n"@ + "    <guid isPermaLink=\"true\">"@ + xml_escaped(i.url@) + "</guid>\n"@
        + "    <pubDate>"@ + rfc2822_spec(*i.date) + "</pubDate>\n"@ + "    <description>"@
        + xml_escaped(i.html@) + "</description>\n"@ + "  </item>\n"@
}

/// An RSS 2.0 feed.
pub open spec fn rss_spec(
    title: Seq<char>,
    description: Seq<char>,
    home: Seq<char>,
    url: Seq<char>,
    items: Seq<Item>,
) -> Seq<char> {
    xml_head() + "<rss version=\"2.0\" xmlns:atom=\"http://www.w3.org/2005/Atom\">\n<channel>\n"@
        + "  <title>"@ + xml_escaped(title) + "</title>\n"@ + "  <link>"@ + xml_escaped(home)
        + "</link>\n"@ + "  <description>"@ + xml_escaped(description) + "</description>\n"@
        + "  <atom:link href=\""@ + xml_escaped(url)
        + "\" rel=\"self\" type=\"application/rss+xml\"/>\n"@ + concat(
        items.map_values(|i: Item| rss_item(i)),
    ) + "</channel>\n</rss>\n"@
}

/// One Atom entry.
pub open spec fn atom_entry(i: Item) -> Seq<char> {
    "  <entry>\n"@ + "    <title>"@ + xml_escaped(i.title@) + "</title>\n"@ + "    <id>"@ + xml_escaped(
        i.url@,
    ) + "</id>\n"@ + "    <link href=\""@ + xml_escaped(i.url@) + "\"/>\n"@ + "    <updated>"@
        + rfc3339_spec(*i.date) + "</updated>\n"@ + "    <content type=\"html\">"@ + xml_escaped(i.html@)
        + "</content>\n"@ + "  </entry>\n"@
}

/// An Atom feed, whose own timestamp is its newest entry's.
pub open spec fn atom_spec(title: Seq<char>, home: Seq<char>, url: Seq<char>, items: Seq<Item>) -> Seq<char> {
    xml_head() + "<feed xmlns=\"http://www.w3.org/2005/Atom\">\n"@ + "  <title>"@ + xml_escaped(title)
        + "</title>\n"@ + "  <id>"@ + xml_escaped(url) + "</id>\n"@ + "  <link href=\""@ + xml_escaped(home)
        + "\"/>\n"@ + "  <link href=\""@ + xml_escaped(url) + "\" rel=\"self\"/>\n"@ + (if items.len()
        > 0 {
        "  <updated>"@ + rfc3339_spec(*items[0].date) + "</updated>\n"@
    } else {
        Seq::<char>::empty()
    }) + concat(items.map_values(|i: Item| atom_entry(i))) + "</feed>\n"@
}

/// `a` is later than `b`: by year, month and day, then by hour, minute and
/// second, with no date the epoch and no time midnight.
pub open spec fn later(a: Datetime, b: Datetime) -> bool {
    let (x, y) = (day_of(a), day_of(b));
    let (s, t) = (time_of(a), time_of(b));
    ||| x.0 > y.0
    ||| (x.0 == y.0 && x.1 > y.1)
    ||| (x.0 == y.0 && x.1 == y.1 && x.2 > y.2)
    ||| (x == y && s.0 > t.0)
    ||| (x == y && s.0 == t.0 && s.1 > t.1)
    ||| (x == y && s.0 == t.0 && s.1 == t.1 && s.2 > t.2)
}

/// No item comes after an item later than it: the items are newest first.
pub open spec fn newest_first(items: Seq<Item>) -> bool {
    forall|i: int, j: int| 0 <= i < j < items.len() ==> !later(*items[j].date, *items[i].date)
}

/// A feed's own timestamp is its newest entry's: for items newest first, the
/// Atom feed is the head the feed without items has, then an `<updated>`
/// element stamped with the date of an item no item is later than, and then
/// the rest.
pub proof fn lemma_atom_updated_is_newest(
    title: Seq<char>,
    home: Seq<char>,
    url: Seq<char>,
    items: Seq<Item>,
)
    requires
        items.len() > 0,
        newest_first(items),
    ensures
        exists|head: Seq<char>, rest: Seq<char>, k: int|
            {
                &&& 0 <= k < items.len()
                &&& forall|i: int| 0 <= i < items.len() ==> !later(*#[trigger] items[i].date, *items[k].date)
                &&& atom_spec(title, home, url, Seq::empty()) == head + "</feed>\n"@
                &&& atom_spec(title, home, url, items) == head + "  <updated>"@ + rfc3339_spec(
                    *items[k].date,
                ) + "</updated>\n"@ + rest
            },
{
    let head = xml_head() + "<feed xmlns=\"http://www.w3.org/2005/Atom\">\n"@ + "  <title>"@ + xml_escaped(title)
        + "</title>\n"@ + "  <id>"@ + xml_escaped(url) + "</id>\n"@ + "  <link href=\""@ + xml_escaped(home)
        + "\"/>\n"@ + "  <link href=\""@ + xml_escaped(url) + "\" rel=\"self\"/>\n"@;
    let rest = concat(items.map_values(|i: Item| atom_entry(i))) + "</feed>\n"@;
    let none = Seq::<Item>::empty();
    assert(none.map_values(|i: Item| atom_entry(i)) =~= Seq::<Seq<char>>::empty());
    assert(atom_spec(title, home, url, none) =~= head + "</feed>\n"@);
    assert(atom_spec(title, home, url, items) =~= head + "  <updated>"@ + rfc3339_spec(*items[0].date)
        + "</updated>\n"@ + rest);
    assert forall|i: int| 0 <= i < items.len() implies !later(*#[trigger] items[i].date, *items[0].date) by {
        if i > 0 {
            assert(!later(*items[i].date, *items[0].date));
        }
    }
}

/// Appends an element holding escaped text.
fn push_element(out: &mut String, open: &str, text: &str, close: &str)
    ensures
        final(out)@ == old(out)@ + open@ + xml_escaped(text@) + close@,
{
    out.append(open);
    let e = escape(text);
    out.append(e.as_str());
    out.append(close);
}

/// Renders RSS 2.0.
#[verifier::rlimit(30)]
pub fn rss(title: &str, description: &str, home: &str, url: &str, items: &[Item]) -> (out: String)
    ensures
        out@ == rss_spec(title@, description@, home@, url@, items@),
{
    let mut out = String::from_str("<?xml version=\"1.0\" encoding=\"UTF-8\"?>\n");
    out.append("<rss version=\"2.0\" xmlns:atom=\"http://www.w3.org/2005/Atom\">\n<channel>\n");
    push_element(&mut out, "  <title>", title, "</title>\n");
    push_element(&mut out, "  <link>", home, "</link>\n");
    push_element(&mut out, "  <description>", description, "</description>\n");
    push_element(
        &mut out,
        "  <atom:link href=\"",
        url,
        "\" rel=\"self\" type=\"application/rss+xml\"/>\n",
    );
    let ghost head = out@;
    let ghost f = |i: Item| rss_item(i);
    let mut k: usize = 0;
    while k < items.len()
        invariant
            k <= items.len(),
            f == (|i: Item| rss_item(i)),
            out@ == head + concat(items@.take(k as int).map_values(f)),
        decreases items.len() - k,
    {
        proof {
            assert(items@.take(k + 1).map_values(f).drop_last() =~= items@.take(k as int).map_values(f));
        }
        let item = &items[k];
        let ghost before = out@;
        out.append("  <item>\n");
        push_element(&mut out, "    <title>", item.title, "</title>\n");
        push_element(&mut out, "    <link>", item.url.as_str(), "</link>\n");
        push_element(&mut out, "    <guid isPermaLink=\"true\">", item.url.as_str(), "</guid>\n");
        out.append("    <pubDate>");
        let when = rfc2822(item.date);
        out.append(when.as_str());
        out.append("</pubDate>\n");
        push_element(&mut out, "    <description>", item.html, "</description>\n");
        out.append("  </item>\n");
        assert(out@ =~= before + rss_item(*item));
        assert(out@ =~= head + concat(items@.take(k + 1).map_values(f)));
        k = k + 1;
    }
    assert(items@.take(items.len() as int) =~= items@);
    out.append("</channel>\n</rss>\n");
    out
}

/// Renders Atom.
#[verifier::rlimit(30)]
pub fn atom(title: &str, home: &str, url: &str, items: &[Item]) -> (out: String)
    ensures
        out@ == atom_spec(title@, home@, url@, items@),
{
    let mut out = String::from_str("<?xml version=\"1.0\" encoding=\"UTF-8\"?>\n");
    out.append("<feed xmlns=\"http://www.w3.org/2005/Atom\">\n");
    push_element(&mut out, "  <title>", title, "</title>\n");
    push_element(&mut out, "  <id>", url, "</id>\n");
    push_element(&mut out, "  <link href=\"", home, "\"/>\n");
    push_element(&mut out, "  <link href=\"", url, "\" rel=\"self\"/>\n");
    if items.len() > 0 {
        out.append("  <updated>");
        let newest = rfc3339(items[0].date);
        out.append(newest.as_str());
        out.append("</updated>\n");
    }
    let ghost head = out@;
    let ghost f = |i: Item| atom_entry(i);
    let mut k: usize = 0;
    while k < items.len()
        invariant
            k <= items.len(),
            f == (|i: Item| atom_entry(i)),
            out@ == head + concat(items@.take(k as int).map_values(f)),
        decreases items.len() - k,
    {
        proof {
            assert(items@.take(k + 1).map_values(f).drop_last() =~= items@.take(k as int).map_values(f));
        }
        let item = &items[k];
        let ghost before = out@;
        out.append("  <entry>\n");
        push_element(&mut out, "    <title>", item.title, "</title>\n");
        push_element(&mut out, "    <id>", item.url.as_str(), "</id>\n");
        push_element(&mut out, "    <link href=\"", item.url.as_str(), "\"/>\n");
        out.append("    <updated>");
        let when = rfc3339(item.date);
        out.append(when.as_str());
        out.append("</updated>\n");
        push_element(&mut out, "    <content type=\"html\">", item.html, "</content>\n");
        out.append("  </entry>\n");
        assert(out@ =~= before + atom_entry(*item));
        assert(out@ =~= head + concat(items@.take(k + 1).map_values(f)));
        k = k + 1;
    }
    assert(items@.take(items.len() as int) =~= items@);
    out.append("</feed>\n");
    out
}

} // verus!
