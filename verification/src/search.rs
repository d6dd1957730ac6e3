//! The search index.
//!
//! For a corpus of tens of pages, an inverted index is the wrong shape: a
//! linear scan over a few tens of kilobytes of JSON is faster than parsing
//! an index would be.  So the index is just the pages, and the client reads
//! them.  That trade has a size beyond which it stops being right, and the
//! build says so; see [`SIZE_WARNING`].

use vstd::prelude::*;

use crate::markdown::Heading;
use crate::text::{self, digits, expand, find_from, is_space, join, occurs_at};

verus! {

broadcast use vstd::string::group_string_axioms;

/// The size past which this design is the wrong one.
pub const SIZE_WARNING: usize = 300 * 1024;

/// The complaint about an index of `size` bytes.
pub open spec fn outgrown_message(size: nat) -> Seq<char> {
    "the search index is "@ + digits(size / 1024) + "KB, past the "@ + digits(300)
        + "KB this design suits; consider a real index rather than a bigger download"@
}

/// Says so if an index has outgrown this design.
pub fn outgrown(size: usize) -> (r: Option<String>)
    ensures
        r is Some <==> size > SIZE_WARNING,
        r matches Some(m) ==> m@ == outgrown_message(size as nat),
{
    if size > SIZE_WARNING {
        let mut m = String::from_str("the search index is ");
        text::push_decimal(&mut m, (size / 1024) as u64);
        m.append("KB, past the ");
        text::push_decimal(&mut m, (SIZE_WARNING / 1024) as u64);
        m.append("KB this design suits; consider a real index rather than a bigger download");
        Some(m)
    } else {
        None
    }
}

// ------------------------------------------------------------------ quoting

/// The hexadecimal digit for `d`, lower case.
pub open spec fn hex_char(d: nat) -> char {
    if d < 10 {
        text::digit_char(d)
    } else if d == 10 {
        'a'
    } else if d == 11 {
        'b'
    } else if d == 12 {
        'c'
    } else if d == 13 {
        'd'
    } else if d == 14 {
        'e'
    } else {
        'f'
    }
}

/// What one character becomes inside a JSON string literal: `"`, `\`, the
/// C0 control characters and `<` are escaped, and everything else stands.
pub open spec fn json_escape(c: char) -> Seq<char> {
    if c == '"' {
        seq!['\\', '"']
    } else if c == '\\' {
        seq!['\\', '\\']
    } else if c == '\n' {
        seq!['\\', 'n']
    } else if c == '\r' {
        seq!['\\', 'r']
    } else if c == '\t' {
        seq!['\\', 't']
    } else if (c as u32) < 0x20 {
        seq!['\\', 'u', '0', '0', hex_char((c as u32 / 16) as nat), hex_char((c as u32 % 16) as nat)]
    } else if c == '<' {
        seq!['\\', 'u', '0', '0', '3', 'c']
    } else {
        seq![c]
    }
}

/// A JSON string literal holding `s`.
pub open spec fn quoted(s: Seq<char>) -> Seq<char> {
    seq!['"'] + expand(s, |c: char| json_escape(c)) + seq!['"']
}

fn hex(d: u32) -> (c: char)
    requires
        d < 16,
    ensures
        c == hex_char(d as nat),
{
    if d < 10 {
        text::digit(d as u64)
    } else if d == 10 {
        'a'
    } else if d == 11 {
        'b'
    } else if d == 12 {
        'c'
    } else if d == 13 {
        'd'
    } else if d == 14 {
        'e'
    } else {
        'f'
    }
}

/// A JSON string literal.
///
/// `"`, `\` and the C0 control characters have to be escaped, and `<` is
/// escaped as well, so that the index can sit inside a `<script>` element
/// without closing it; everything else may be UTF-8 as it stands.
pub fn quote(text: &str) -> (out: String)
    ensures
        out@ == quoted(text@),
{
    let chars = text::chars_of(text);
    let mut out = String::new();
    text::push_char(&mut out, '"');
    let mut i: usize = 0;
    while i < chars.len()
        invariant
            i <= chars.len(),
            chars@ == text@,
            out@ == seq!['"'] + expand(chars@.take(i as int), |c: char| json_escape(c)),
        decreases chars.len() - i,
    {
        let c = chars[i];
        proof {
            assert(chars@.take(i + 1).drop_last() == chars@.take(i as int));
            assert(chars@.take(i + 1).last() == c);
        }
        let ghost before = out@;
        if c == '"' {
            text::push_char(&mut out, '\\');
            text::push_char(&mut out, '"');
        } else if c == '\\' {
            text::push_char(&mut out, '\\');
            text::push_char(&mut out, '\\');
        } else if c == '\n' {
            text::push_char(&mut out, '\\');
            text::push_char(&mut out, 'n');
        } else if c == '\r' {
            text::push_char(&mut out, '\\');
            text::push_char(&mut out, 'r');
        } else if c == '\t' {
            text::push_char(&mut out, '\\');
            text::push_char(&mut out, 't');
        } else if (c as u32) < 0x20 {
            text::push_char(&mut out, '\\');
            text::push_char(&mut out, 'u');
            text::push_char(&mut out, '0');
            text::push_char(&mut out, '0');
            text::push_char(&mut out, hex((c as u32) / 16));
            text::push_char(&mut out, hex((c as u32) % 16));
        } else if c == '<' {
            text::push_char(&mut out, '\\');
            text::push_char(&mut out, 'u');
            text::push_char(&mut out, '0');
            text::push_char(&mut out, '0');
            text::push_char(&mut out, '3');
            text::push_char(&mut out, 'c');
        } else {
            text::push_char(&mut out, c);
        }
        assert(out@ =~= before + json_escape(c));
        i = i + 1;
    }
    assert(chars@.take(chars.len() as int) == chars@);
    text::push_char(&mut out, '"');
    out
}

// ------------------------------------------------------------------ plain text

/// The text that the entities at position `i` on decode to: `&lt;`, `&gt;`,
/// `&quot;`, `&#39;` and `&#x27;` become the character they name, and
/// `&amp;` becomes `&` without being decoded a second time.
pub open spec fn decode_from(s: Seq<char>, i: int) -> Seq<char>
    decreases s.len() - i,
{
    if i < 0 || i >= s.len() {
        Seq::empty()
    } else if occurs_at(s, seq!['&', 'l', 't', ';'], i) {
        seq!['<'] + decode_from(s, i + 4)
    } else if occurs_at(s, seq!['&', 'g', 't', ';'], i) {
        seq!['>'] + decode_from(s, i + 4)
    } else if occurs_at(s, seq!['&', 'q', 'u', 'o', 't', ';'], i) {
        seq!['"'] + decode_from(s, i + 6)
    } else if occurs_at(s, seq!['&', '#', '3', '9', ';'], i) {
        seq!['\''] + decode_from(s, i + 5)
    } else if occurs_at(s, seq!['&', '#', 'x', '2', '7', ';'], i) {
        seq!['\''] + decode_from(s, i + 6)
    } else if occurs_at(s, seq!['&', 'a', 'm', 'p', ';'], i) {
        seq!['&'] + decode_from(s, i + 5)
    } else {
        seq![s[i]] + decode_from(s, i + 1)
    }
}

/// `s` with the entities `maud` and `pulldown-cmark` emit decoded.
pub open spec fn decoded(s: Seq<char>) -> Seq<char> {
    decode_from(s, 0)
}

/// What one character becomes when HTML text is escaped, as the renderers
/// do it: `&`, `<`, `>`, `"` and `'` become entities.
pub open spec fn html_char(c: char) -> Seq<char> {
    if c == '&' {
        seq!['&', 'a', 'm', 'p', ';']
    } else if c == '<' {
        seq!['&', 'l', 't', ';']
    } else if c == '>' {
        seq!['&', 'g', 't', ';']
    } else if c == '"' {
        seq!['&', 'q', 'u', 'o', 't', ';']
    } else if c == '\'' {
        seq!['&', '#', '3', '9', ';']
    } else {
        seq![c]
    }
}

/// Text escaped for HTML.
pub open spec fn html_escaped(t: Seq<char>) -> Seq<char> {
    expand(t, |c: char| html_char(c))
}

proof fn lemma_occurs_char(s: Seq<char>, p: Seq<char>, at: int, m: int)
    requires
        occurs_at(s, p, at),
        0 <= m < p.len(),
    ensures
        s[at + m] == p[m],
{
    assert(s.subrange(at, at + p.len())[m] == s[at + m]);
}

proof fn lemma_occurs_shift(p: Seq<char>, s: Seq<char>, pat: Seq<char>, j: int)
    requires
        0 <= j <= s.len(),
    ensures
        occurs_at(p + s, pat, p.len() + j) == occurs_at(s, pat, j),
{
    if j + pat.len() <= s.len() {
        assert((p + s).subrange(p.len() + j, p.len() + j + pat.len()) =~= s.subrange(j, j + pat.len()));
    }
}

/// Decoding past a prefix decodes what follows it on its own.
proof fn lemma_decode_shift(p: Seq<char>, s: Seq<char>, j: int)
    requires
        0 <= j <= s.len(),
    ensures
        decode_from(p + s, p.len() + j) == decode_from(s, j),
    decreases s.len() - j,
{
    if j < s.len() {
        lemma_occurs_shift(p, s, seq!['&', 'l', 't', ';'], j);
        lemma_occurs_shift(p, s, seq!['&', 'g', 't', ';'], j);
        lemma_occurs_shift(p, s, seq!['&', 'q', 'u', 'o', 't', ';'], j);
        lemma_occurs_shift(p, s, seq!['&', '#', '3', '9', ';'], j);
        lemma_occurs_shift(p, s, seq!['&', '#', 'x', '2', '7', ';'], j);
        lemma_occurs_shift(p, s, seq!['&', 'a', 'm', 'p', ';'], j);
        assert((p + s)[p.len() + j] == s[j]);
        if occurs_at(s, seq!['&', 'l', 't', ';'], j) || occurs_at(s, seq!['&', 'g', 't', ';'], j) {
            lemma_decode_shift(p, s, j + 4);
        } else if occurs_at(s, seq!['&', 'q', 'u', 'o', 't', ';'], j) {
            lemma_decode_shift(p, s, j + 6);
        } else if occurs_at(s, seq!['&', '#', '3', '9', ';'], j) {
            lemma_decode_shift(p, s, j + 5);
        } else if occurs_at(s, seq!['&', '#', 'x', '2', '7', ';'], j) {
            lemma_decode_shift(p, s, j + 6);
        } else if occurs_at(s, seq!['&', 'a', 'm', 'p', ';'], j) {
            lemma_decode_shift(p, s, j + 5);
        } else {
            lemma_decode_shift(p, s, j + 1);
        }
    }
}

/// Decoding one escaped character and then the rest gives the character
/// and then the rest decoded.
#[verifier::rlimit(30)]
proof fn lemma_decode_one(c: char, rest: Seq<char>)
    ensures
        decode_from(html_char(c) + rest, 0) == seq![c] + decode_from(rest, 0),
{
    let e = html_char(c);
    let s = e + rest;
    let lt = seq!['&', 'l', 't', ';'];
    let gt = seq!['&', 'g', 't', ';'];
    let quot = seq!['&', 'q', 'u', 'o', 't', ';'];
    let apos = seq!['&', '#', '3', '9', ';'];
    let aposx = seq!['&', '#', 'x', '2', '7', ';'];
    let amp = seq!['&', 'a', 'm', 'p', ';'];
    lemma_decode_shift(e, rest, 0);
    assert(s[0] == e[0]);
    if e.len() > 1 {
        assert(s[1] == e[1]);
    }
    if occurs_at(s, lt, 0) {
        lemma_occurs_char(s, lt, 0, 0);
        lemma_occurs_char(s, lt, 0, 1);
    }
    if occurs_at(s, gt, 0) {
        lemma_occurs_char(s, gt, 0, 0);
        lemma_occurs_char(s, gt, 0, 1);
    }
    if occurs_at(s, quot, 0) {
        lemma_occurs_char(s, quot, 0, 0);
        lemma_occurs_char(s, quot, 0, 1);
    }
    if occurs_at(s, apos, 0) {
        lemma_occurs_char(s, apos, 0, 0);
        lemma_occurs_char(s, apos, 0, 1);
    }
    if occurs_at(s, aposx, 0) {
        lemma_occurs_char(s, aposx, 0, 0);
        lemma_occurs_char(s, aposx, 0, 1);
    }
    if occurs_at(s, amp, 0) {
        lemma_occurs_char(s, amp, 0, 0);
        lemma_occurs_char(s, amp, 0, 1);
    }
    if c == '&' {
        assert(s.subrange(0, 5) =~= amp);
    } else if c == '<' {
        assert(s.subrange(0, 4) =~= lt);
    } else if c == '>' {
        assert(s.subrange(0, 4) =~= gt);
    } else if c == '"' {
        assert(s.subrange(0, 6) =~= quot);
    } else if c == '\'' {
        assert(s.subrange(0, 5) =~= apos);
    }
}

/// Decoding undoes HTML escaping: whatever the text, decoding the text as
/// the renderer escaped it gives the text back, so `a > b` rendered as
/// `a &gt; b` is searched for as `a > b`.
pub proof fn lemma_decode_unescapes(t: Seq<char>)
    ensures
        decoded(html_escaped(t)) == t,
    decreases t.len(),
{
    let f = |c: char| html_char(c);
    if t.len() > 0 {
        let rest = t.skip(1);
        lemma_decode_unescapes(rest);
        text::lemma_expand_add(seq![t[0]], rest, f);
        assert(seq![t[0]] + rest =~= t);
        assert(seq![t[0]].drop_last() =~= Seq::<char>::empty());
        assert(expand(Seq::<char>::empty(), f) =~= Seq::<char>::empty());
        assert(expand(seq![t[0]], f) =~= html_char(t[0]));
        lemma_decode_one(t[0], html_escaped(rest));
        assert(seq![t[0]] + rest =~= t);
    } else {
        assert(html_escaped(t) =~= Seq::<char>::empty());
    }
}

/// Decodes the entities `maud` and `pulldown-cmark` actually emit.
pub fn decode(s: &[char]) -> (out: Vec<char>)
    ensures
        out@ == decoded(s@),
{
    let lt = ['&', 'l', 't', ';'];
    let gt = ['&', 'g', 't', ';'];
    let quot = ['&', 'q', 'u', 'o', 't', ';'];
    let apos = ['&', '#', '3', '9', ';'];
    let apos_hex = ['&', '#', 'x', '2', '7', ';'];
    let amp = ['&', 'a', 'm', 'p', ';'];
    assert(lt@ =~= seq!['&', 'l', 't', ';']);
    assert(gt@ =~= seq!['&', 'g', 't', ';']);
    assert(quot@ =~= seq!['&', 'q', 'u', 'o', 't', ';']);
    assert(apos@ =~= seq!['&', '#', '3', '9', ';']);
    assert(apos_hex@ =~= seq!['&', '#', 'x', '2', '7', ';']);
    assert(amp@ =~= seq!['&', 'a', 'm', 'p', ';']);
    let mut out: Vec<char> = Vec::new();
    let mut i: usize = 0;
    while i < s.len()
        invariant
            i <= s.len(),
            lt@ == seq!['&', 'l', 't', ';'],
            gt@ == seq!['&', 'g', 't', ';'],
            quot@ == seq!['&', 'q', 'u', 'o', 't', ';'],
            apos@ == seq!['&', '#', '3', '9', ';'],
            apos_hex@ == seq!['&', '#', 'x', '2', '7', ';'],
            amp@ == seq!['&', 'a', 'm', 'p', ';'],
            out@ + decode_from(s@, i as int) == decode_from(s@, 0),
        decreases s.len() - i,
    {
        let ghost before = out@;
        if text::matches_at(s, &lt, i) {
            out.push('<');
            i = i + 4;
        } else if text::matches_at(s, &gt, i) {
            out.push('>');
            i = i + 4;
        } else if text::matches_at(s, &quot, i) {
            out.push('"');
            i = i + 6;
        } else if text::matches_at(s, &apos, i) {
            out.push('\'');
            i = i + 5;
        } else if text::matches_at(s, &apos_hex, i) {
            out.push('\'');
            i = i + 6;
        } else if text::matches_at(s, &amp, i) {
            out.push('&');
            i = i + 5;
        } else {
            out.push(s[i]);
            i = i + 1;
        }
        assert(out@ + decode_from(s@, i as int) =~= before + (seq![out@.last()] + decode_from(
            s@,
            i as int,
        )));
    }
    assert(out@ + decode_from(s@, i as int) =~= out@);
    out
}

/// Whether a tag name is one of the tags that do not separate words.
pub open spec fn inline_name(n: Seq<char>) -> bool {
    ||| n == seq!['a']
    ||| n == seq!['a', 'b', 'b', 'r']
    ||| n == seq!['b']
    ||| n == seq!['c', 'o', 'd', 'e']
    ||| n == seq!['d', 'e', 'l']
    ||| n == seq!['e', 'm']
    ||| n == seq!['i']
    ||| n == seq!['i', 'n', 's']
    ||| n == seq!['k', 'b', 'd']
    ||| n == seq!['m', 'a', 'r', 'k']
    ||| n == seq!['s']
    ||| n == seq!['s', 'a', 'm', 'p']
    ||| n == seq!['s', 'm', 'a', 'l', 'l']
    ||| n == seq!['s', 'p', 'a', 'n']
    ||| n == seq!['s', 't', 'r', 'o', 'n', 'g']
    ||| n == seq!['s', 'u', 'b']
    ||| n == seq!['s', 'u', 'p']
    ||| n == seq!['u']
    ||| n == seq!['v', 'a', 'r']
}

/// A character in lower case, for ASCII letters.
pub open spec fn ascii_lower(c: char) -> char {
    if 'A' <= c && c <= 'Z' {
        ((c as u32) + 32) as char
    } else {
        c
    }
}

/// A tag's name: after its `<` and any `/`, the ASCII letters and digits,
/// in lower case.
pub open spec fn tag_name(tag: Seq<char>) -> Seq<char> {
    let t = text::trim_start_by(tag, |c: char| c == '<' || c == '/');
    t.take(text::lead(t, |c: char| text::is_ascii_alnum(c)) as int).map_values(
        |c: char| ascii_lower(c),
    )
}

/// Whether a tag is one that does not separate words.
pub open spec fn inline_tag(tag: Seq<char>) -> bool {
    inline_name(tag_name(tag))
}

fn lower(c: char) -> (r: char)
    ensures
        r == ascii_lower(c),
{
    if 'A' <= c && c <= 'Z' {
        let n: u8 = (c as u8) + 32;
        n as char
    } else {
        c
    }
}

/// Whether a tag is one that does not separate words.
pub fn is_inline(tag: &str) -> (b: bool)
    ensures
        b == inline_tag(tag@),
{
    let t = text::chars_of(tag);
    let mut i: usize = 0;
    while i < t.len() && (t[i] == '<' || t[i] == '/')
        invariant
            i <= t.len(),
            forall|j: int| 0 <= j < i ==> (t@[j] == '<' || t@[j] == '/'),
        decreases t.len() - i,
    {
        i = i + 1;
    }
    proof {
        text::lemma_lead_is(t@, |c: char| c == '<' || c == '/', i as int);
    }
    let ghost rest = t@.skip(i as int);
    let mut name: Vec<char> = Vec::new();
    let mut j = i;
    while j < t.len() && (('a' <= t[j] && t[j] <= 'z') || ('A' <= t[j] && t[j] <= 'Z') || (
    '0' <= t[j] && t[j] <= '9'))
        invariant
            i <= j <= t.len(),
            rest == t@.skip(i as int),
            forall|k: int| i <= k < j ==> text::is_ascii_alnum(#[trigger] t@[k]),
            name@ == rest.take(j - i).map_values(|c: char| ascii_lower(c)),
        decreases t.len() - j,
    {
        name.push(lower(t[j]));
        assert(rest.take(j + 1 - i) =~= rest.take(j - i).push(t@[j as int]));
        j = j + 1;
    }
    proof {
        text::lemma_lead_is(rest, |c: char| text::is_ascii_alnum(c), j - i);
    }
    assert(name@ == tag_name(tag@));
    let n = name.as_slice();
    let k0 = ['a'];
    assert(k0@ =~= seq!['a']);
    let k1 = ['a', 'b', 'b', 'r'];
    assert(k1@ =~= seq!['a', 'b', 'b', 'r']);
    let k2 = ['b'];
    assert(k2@ =~= seq!['b']);
    let k3 = ['c', 'o', 'd', 'e'];
    assert(k3@ =~= seq!['c', 'o', 'd', 'e']);
    let k4 = ['d', 'e', 'l'];
    assert(k4@ =~= seq!['d', 'e', 'l']);
    let k5 = ['e', 'm'];
    assert(k5@ =~= seq!['e', 'm']);
    let k6 = ['i'];
    assert(k6@ =~= seq!['i']);
    let k7 = ['i', 'n', 's'];
    assert(k7@ =~= seq!['i', 'n', 's']);
    let k8 = ['k', 'b', 'd'];
    assert(k8@ =~= seq!['k', 'b', 'd']);
    let k9 = ['m', 'a', 'r', 'k'];
    assert(k9@ =~= seq!['m', 'a', 'r', 'k']);
    let k10 = ['s'];
    assert(k10@ =~= seq!['s']);
    let k11 = ['s', 'a', 'm', 'p'];
    assert(k11@ =~= seq!['s', 'a', 'm', 'p']);
    let k12 = ['s', 'm', 'a', 'l', 'l'];
    assert(k12@ =~= seq!['s', 'm', 'a', 'l', 'l']);
    let k13 = ['s', 'p', 'a', 'n'];
    assert(k13@ =~= seq!['s', 'p', 'a', 'n']);
    let k14 = ['s', 't', 'r', 'o', 'n', 'g'];
    assert(k14@ =~= seq!['s', 't', 'r', 'o', 'n', 'g']);
    let k15 = ['s', 'u', 'b'];
    assert(k15@ =~= seq!['s', 'u', 'b']);
    let k16 = ['s', 'u', 'p'];
    assert(k16@ =~= seq!['s', 'u', 'p']);
    let k17 = ['u'];
    assert(k17@ =~= seq!['u']);
    let k18 = ['v', 'a', 'r'];
    assert(k18@ =~= seq!['v', 'a', 'r']);
    text::equal(n, &k0) || text::equal(n, &k1) || text::equal(n, &k2) || text::equal(n, &k3) || text::equal(n, &k4) || text::equal(n, &k5) || text::equal(n, &k6) || text::equal(n, &k7) || text::equal(n, &k8) || text::equal(n, &k9) || text::equal(n, &k10) || text::equal(n, &k11) || text::equal(n, &k12) || text::equal(n, &k13) || text::equal(n, &k14) || text::equal(n, &k15) || text::equal(n, &k16) || text::equal(n, &k17) || text::equal(n, &k18)
}

/// The words of `s`: its runs of characters that are not white space.
pub open spec fn words(s: Seq<char>) -> Seq<Seq<char>>
    decreases s.len(),
{
    if s.len() == 0 {
        Seq::empty()
    } else {
        let w = words(s.drop_last());
        if is_space(s.last()) {
            w
        } else if s.len() >= 2 && !is_space(s[s.len() - 2]) && w.len() > 0 {
            w.update(w.len() - 1, w.last().push(s.last()))
        } else {
            w.push(seq![s.last()])
        }
    }
}

/// The words of a text (`str::split_whitespace`).
pub fn words_of(s: &[char]) -> (r: Vec<Vec<char>>)
    ensures
        r@.map_values(|w: Vec<char>| w@) == words(s@),
{
    let mut out: Vec<Vec<char>> = Vec::new();
    let mut i: usize = 0;
    while i < s.len()
        invariant
            i <= s.len(),
            out@.map_values(|w: Vec<char>| w@) == words(s@.take(i as int)),
        decreases s.len() - i,
    {
        let c = s[i];
        let ghost w = words(s@.take(i as int));
        proof {
            assert(s@.take(i + 1).drop_last() == s@.take(i as int));
            assert(s@.take(i + 1).last() == c);
            if i > 0 {
                assert(s@.take(i + 1)[i - 1] == s@[i - 1]);
            }
        }
        if text::space(c) {
        } else if i > 0 && !text::space(s[i - 1]) && out.len() > 0 {
            let last = out.len() - 1;
            let mut word = text::copy_range(out[last].as_slice(), 0, out[last].len());
            assert(word@ =~= w.last());
            word.push(c);
            let ghost before = out@;
            out.set(last, word);
            assert(out@ == before.update(last as int, word));
            assert(out@.map_values(|w: Vec<char>| w@) =~= w.update(w.len() - 1, w.last().push(c)));
        } else {
            let mut word: Vec<char> = Vec::new();
            word.push(c);
            out.push(word);
            assert(out@.map_values(|w: Vec<char>| w@) =~= w.push(seq![c]));
        }
        i = i + 1;
    }
    assert(s@.take(s.len() as int) == s@);
    out
}

/// `s` with every run of white space made one space, and none at the ends.
pub open spec fn collapsed(s: Seq<char>) -> Seq<char> {
    join(words(s), seq![' '])
}

proof fn lemma_join_extend(parts: Seq<Seq<char>>, sep: Seq<char>, c: char)
    requires
        parts.len() > 0,
    ensures
        join(parts.update(parts.len() - 1, parts.last().push(c)), sep) == join(parts, sep).push(
            c,
        ),
{
    let q = parts.update(parts.len() - 1, parts.last().push(c));
    if parts.len() > 1 {
        assert(q.drop_last() =~= parts.drop_last());
    }
}

/// Collapses every run of white space to one space, and trims.
pub fn collapse(s: &[char]) -> (out: Vec<char>)
    ensures
        out@ == collapsed(s@),
{
    let mut out: Vec<char> = Vec::new();
    let mut i: usize = 0;
    while i < s.len()
        invariant
            i <= s.len(),
            out@ == collapsed(s@.take(i as int)),
            i > 0 && !is_space(s@[i - 1]) ==> words(s@.take(i as int)).len() > 0,
            words(s@.take(i as int)).len() == 0 ==> out@.len() == 0,
            words(s@.take(i as int)).len() > 0 ==> out@.len() > 0,
        decreases s.len() - i,
    {
        let c = s[i];
        let ghost p = s@.take(i as int);
        let ghost w = words(p);
        proof {
            assert(s@.take(i + 1).drop_last() == p);
            assert(s@.take(i + 1).last() == c);
            if i > 0 {
                assert(s@.take(i + 1)[i - 1] == s@[i - 1]);
            }
        }
        if text::space(c) {
        } else if i > 0 && !text::space(s[i - 1]) {
            out.push(c);
            proof {
                lemma_join_extend(w, seq![' '], c);
            }
        } else {
            if out.len() > 0 {
                out.push(' ');
            }
            out.push(c);
            proof {
                if w.len() > 0 {
                    assert(w.push(seq![c]).drop_last() =~= w);
                    assert(out@ =~= join(w, seq![' ']) + seq![' '] + seq![c]);
                } else {
                    assert(out@ =~= seq![c]);
                }
            }
        }
        i = i + 1;
    }
    assert(s@.take(s.len() as int) == s@);
    out
}

/// The class on the permalink beside every heading.
pub open spec fn permalink() -> Seq<char> {
    seq!['h', 'e', 'a', 'd', 'i', 'n', 'g', '-', 'a', 'n', 'c', 'h', 'o', 'r']
}

/// The text of `s` from position `from` on, before white space is collapsed:
/// markup taken out, entities decoded, a space for every tag that separates
/// words, and the permalink beside each heading dropped with its contents.
pub open spec fn plain_from(s: Seq<char>, from: int) -> Seq<char>
    decreases s.len() - from,
{
    if from < 0 || from > s.len() {
        Seq::empty()
    } else {
        match find_from(s, seq!['<'], from) {
            None => decoded(s.subrange(from, s.len() as int)),
            Some(at) => {
                let head = decoded(s.subrange(from, at));
                match find_from(s, seq!['>'], at) {
                    None => head,
                    Some(e) => {
                        let tag = s.subrange(at, e + 1);
                        let sep = if inline_tag(tag) {
                            Seq::empty()
                        } else {
                            seq![' ']
                        };
                        let next = if text::contains(tag, permalink()) {
                            match find_from(s, seq!['<', '/', 'a', '>'], e + 1) {
                                Some(c) => c + 4,
                                None => s.len() as int,
                            }
                        } else {
                            e + 1
                        };
                        if next <= from || next > s.len() {
                            head + sep
                        } else {
                            head + sep + plain_from(s, next)
                        }
                    },
                }
            },
        }
    }
}

/// The searchable words of rendered HTML.
pub open spec fn plain_spec(html: Seq<char>) -> Seq<char> {
    collapsed(plain_from(html, 0))
}

/// Strips markup out of rendered HTML, leaving searchable words.
///
/// This runs over this crate's own output, where tags are well formed and
/// there is no scripting, so a scanner is enough.
pub fn plain(html: &str) -> (out: String)
    ensures
        out@ == plain_spec(html@),
{
    let s = text::chars_of(html);
    let open = ['<'];
    let close = ['>'];
    let end_a = ['<', '/', 'a', '>'];
    let mark = ['h', 'e', 'a', 'd', 'i', 'n', 'g', '-', 'a', 'n', 'c', 'h', 'o', 'r'];
    assert(open@ =~= seq!['<']);
    assert(close@ =~= seq!['>']);
    assert(end_a@ =~= seq!['<', '/', 'a', '>']);
    assert(mark@ =~= permalink());
    let mut out: Vec<char> = Vec::new();
    let mut from: usize = 0;
    loop
        invariant_except_break
            out@ + plain_from(s@, from as int) == plain_from(s@, 0),
        invariant
            from <= s.len(),
            s@ == html@,
            open@ == seq!['<'],
            close@ == seq!['>'],
            end_a@ == seq!['<', '/', 'a', '>'],
            mark@ == permalink(),
        ensures
            out@ == plain_from(s@, 0),
        decreases s.len() - from,
    {
        let ghost before = out@;
        match text::find_in(s.as_slice(), &open, from) {
            None => {
                let rest = text::copy_range(s.as_slice(), from, s.len());
                let d = decode(rest.as_slice());
                text::extend_vec(&mut out, d.as_slice());
                assert(out@ == plain_from(s@, 0));
                break;
            },
            Some(at) => {
                proof {
                    text::lemma_find_from(s@, open@, from as int);
                }
                let head = text::copy_range(s.as_slice(), from, at);
                let d = decode(head.as_slice());
                text::extend_vec(&mut out, d.as_slice());
                match text::find_in(s.as_slice(), &close, at) {
                    None => {
                        assert(out@ == plain_from(s@, 0));
                        break;
                    },
                    Some(e) => {
                        proof {
                            text::lemma_find_from(s@, close@, at as int);
                        }
                        let tag = text::copy_range(s.as_slice(), at, e + 1);
                        let tag_text = text::string_of(tag.as_slice());
                        if !is_inline(tag_text.as_str()) {
                            out.push(' ');
                        }
                        let found = text::find_in(tag.as_slice(), &mark, 0);
                        proof {
                            text::lemma_find_from(tag@, mark@, 0);
                            if text::contains(tag@, mark@) {
                                let k = choose|k: int| text::occurs_at(tag@, mark@, k);
                                assert(find_from(tag@, mark@, 0) is Some);
                            }
                        }
                        let next = if found.is_some() {
                            match text::find_in(s.as_slice(), &end_a, e + 1) {
                                Some(c) => {
                                    proof {
                                        text::lemma_find_from(s@, end_a@, e + 1);
                                    }
                                    c + 4
                                },
                                None => s.len(),
                            }
                        } else {
                            e + 1
                        };
                        assert(out@ + plain_from(s@, next as int) =~= before + plain_from(
                            s@,
                            from as int,
                        ));
                        from = next;
                    },
                }
            },
        }
    }
    let c = collapse(out.as_slice());
    text::string_of(c.as_slice())
}

// ------------------------------------------------------------------ the index

/// One page, as the search client sees it.
#[derive(Debug, Clone, PartialEq, Eq)]
pub struct Document<'a> {
    /// Where the page is served.
    pub url: &'a str,
    /// Its title.
    pub title: &'a str,
    /// Its headings, which rank above body text.
    pub headings: &'a [Heading],
    /// Its body, with the markup taken out.
    pub text: String,
}

/// A heading as the client reads it: its text, then its id.
pub open spec fn heading_json(h: Heading) -> Seq<char> {
    seq!['['] + quoted(h.text@) + seq![','] + quoted(h.id@) + seq![']']
}

/// A page as the client reads it.
pub open spec fn document_json(d: Document) -> Seq<char> {
    "{\"u\":"@ + quoted(d.url@) + ",\"t\":"@ + quoted(d.title@) + ",\"h\":["@ + join(
        d.headings@.map_values(|h: Heading| heading_json(h)),
        seq![','],
    ) + "],\"b\":"@ + quoted(d.text@) + "}"@
}

/// The index: a JSON array of the pages.
pub open spec fn index_spec(ds: Seq<Document>) -> Seq<char> {
    seq!['['] + join(ds.map_values(|d: Document| document_json(d)), seq![',']) + seq![']']
}

fn heading_entry(h: &Heading) -> (out: String)
    ensures
        out@ == heading_json(*h),
{
    let mut out = String::new();
    text::push_char(&mut out, '[');
    let t = quote(h.text.as_str());
    out.append(t.as_str());
    text::push_char(&mut out, ',');
    let i = quote(h.id.as_str());
    out.append(i.as_str());
    text::push_char(&mut out, ']');
    out
}

fn document_entry(d: &Document) -> (out: String)
    ensures
        out@ == document_json(*d),
{
    let mut out = String::from_str("{\"u\":");
    let u = quote(d.url);
    out.append(u.as_str());
    out.append(",\"t\":");
    let t = quote(d.title);
    out.append(t.as_str());
    out.append(",\"h\":[");
    let ghost start = out@;
    let ghost hs = d.headings@.map_values(|h: Heading| heading_json(h));
    let mut i: usize = 0;
    while i < d.headings.len()
        invariant
            i <= d.headings.len(),
            hs == d.headings@.map_values(|h: Heading| heading_json(h)),
            out@ == start + join(hs.take(i as int), seq![',']),
        decreases d.headings.len() - i,
    {
        proof {
            assert(hs.take(i + 1).drop_last() =~= hs.take(i as int));
        }
        if i > 0 {
            text::push_char(&mut out, ',');
        }
        let h = heading_entry(&d.headings[i]);
        out.append(h.as_str());
        assert(out@ =~= start + join(hs.take(i + 1), seq![',']));
        i = i + 1;
    }
    assert(hs.take(d.headings.len() as int) =~= hs);
    out.append("],\"b\":");
    let b = quote(d.text.as_str());
    out.append(b.as_str());
    out.append("}");
    out
}

/// Builds the index.
///
/// The JSON is written by hand rather than by a serializer: it is three
/// string fields and an array.
pub fn index(documents: &[Document]) -> (out: String)
    ensures
        out@ == index_spec(documents@),
{
    let ghost ds = documents@.map_values(|d: Document| document_json(d));
    let mut out = String::new();
    text::push_char(&mut out, '[');
    let mut i: usize = 0;
    while i < documents.len()
        invariant
            i <= documents.len(),
            ds == documents@.map_values(|d: Document| document_json(d)),
            out@ == seq!['['] + join(ds.take(i as int), seq![',']),
        decreases documents.len() - i,
    {
        proof {
            assert(ds.take(i + 1).drop_last() =~= ds.take(i as int));
        }
        if i > 0 {
            text::push_char(&mut out, ',');
        }
        let e = document_entry(&documents[i]);
        out.append(e.as_str());
        assert(out@ =~= seq!['['] + join(ds.take(i + 1), seq![',']));
        i = i + 1;
    }
    assert(ds.take(documents.len() as int) =~= ds);
    text::push_char(&mut out, ']');
    out
}

/// The index is always a JSON array: it opens with `[` and closes with `]`.
pub proof fn lemma_index_is_an_array(ds: Seq<Document>)
    ensures
        index_spec(ds).len() >= 2,
        index_spec(ds)[0] == '[',
        index_spec(ds).last() == ']',
{
}

/// What closes the `<script>` element the index is embedded in.
pub open spec fn script_close() -> Seq<char> {
    seq!['<', '/', 's', 'c', 'r', 'i', 'p', 't']
}

/// No character of `s` is `<`.
pub open spec fn no_open_bracket(s: Seq<char>) -> bool {
    forall|j: int| 0 <= j < s.len() ==> s[j] != '<'
}

proof fn lemma_add_no_open(a: Seq<char>, b: Seq<char>)
    requires
        no_open_bracket(a),
        no_open_bracket(b),
    ensures
        no_open_bracket(a + b),
{
    assert forall|j: int| 0 <= j < (a + b).len() implies (a + b)[j] != '<' by {
        if j < a.len() {
            assert((a + b)[j] == a[j]);
        } else {
            assert((a + b)[j] == b[j - a.len()]);
        }
    }
}

proof fn lemma_quoted_no_open(s: Seq<char>)
    ensures
        no_open_bracket(quoted(s)),
    decreases s.len(),
{
    let f = |c: char| json_escape(c);
    if s.len() > 0 {
        lemma_quoted_no_open(s.drop_last());
        let c = s.last();
        assert(hex_char((c as u32 / 16) as nat) != '<' && hex_char((c as u32 % 16) as nat) != '<');
        assert(no_open_bracket(json_escape(c)));
        let e0 = expand(s.drop_last(), f);
        assert(no_open_bracket(e0)) by {
            assert forall|j: int| 0 <= j < e0.len() implies e0[j] != '<' by {
                assert(quoted(s.drop_last())[j + 1] == e0[j]);
            }
        }
        lemma_add_no_open(e0, json_escape(c));
    }
    let e = expand(s, f);
    assert(no_open_bracket(e)) by {
        if s.len() == 0 {
            assert(e.len() == 0);
        }
    }
    lemma_add_no_open(seq!['"'], e);
    lemma_add_no_open(seq!['"'] + e, seq!['"']);
}

proof fn lemma_join_no_open(parts: Seq<Seq<char>>)
    requires
        forall|i: int| 0 <= i < parts.len() ==> no_open_bracket(#[trigger] parts[i]),
    ensures
        no_open_bracket(join(parts, seq![','])),
    decreases parts.len(),
{
    if parts.len() > 1 {
        let init = parts.drop_last();
        assert forall|i: int| 0 <= i < init.len() implies no_open_bracket(#[trigger] init[i]) by {
            assert(init[i] == parts[i]);
        }
        lemma_join_no_open(init);
        lemma_add_no_open(join(init, seq![',']), seq![',']);
        assert(no_open_bracket(parts.last()));
        lemma_add_no_open(join(init, seq![',']) + seq![','], parts.last());
    } else if parts.len() == 1 {
        assert(no_open_bracket(parts[0]));
    }
}

proof fn lemma_document_no_open(d: Document)
    ensures
        no_open_bracket(document_json(d)),
{
    reveal_strlit("{\"u\":");
    reveal_strlit(",\"t\":");
    reveal_strlit(",\"h\":[");
    reveal_strlit("],\"b\":");
    reveal_strlit("}");
    let hs = d.headings@.map_values(|h: Heading| heading_json(h));
    assert forall|i: int| 0 <= i < hs.len() implies no_open_bracket(#[trigger] hs[i]) by {
        let h = d.headings@[i];
        lemma_quoted_no_open(h.text@);
        lemma_quoted_no_open(h.id@);
        lemma_add_no_open(seq!['['], quoted(h.text@));
        lemma_add_no_open(seq!['['] + quoted(h.text@), seq![',']);
        lemma_add_no_open(seq!['['] + quoted(h.text@) + seq![','], quoted(h.id@));
        lemma_add_no_open(seq!['['] + quoted(h.text@) + seq![','] + quoted(h.id@), seq![']']);
    }
    lemma_join_no_open(hs);
    let j = join(hs, seq![',']);
    lemma_quoted_no_open(d.url@);
    lemma_quoted_no_open(d.title@);
    lemma_quoted_no_open(d.text@);
    let a1 = "{\"u\":"@ + quoted(d.url@);
    lemma_add_no_open("{\"u\":"@, quoted(d.url@));
    lemma_add_no_open(a1, ",\"t\":"@);
    let a2 = a1 + ",\"t\":"@;
    lemma_add_no_open(a2, quoted(d.title@));
    let a3 = a2 + quoted(d.title@);
    lemma_add_no_open(a3, ",\"h\":["@);
    let a4 = a3 + ",\"h\":["@;
    lemma_add_no_open(a4, j);
    let a5 = a4 + j;
    lemma_add_no_open(a5, "],\"b\":"@);
    let a6 = a5 + "],\"b\":"@;
    lemma_add_no_open(a6, quoted(d.text@));
    let a7 = a6 + quoted(d.text@);
    lemma_add_no_open(a7, "}"@);
}

/// The index never closes the `<script>` element it is embedded in: every
/// `<` a page holds is escaped, so no `<` stands in the index at all.
pub proof fn lemma_index_never_closes_its_script(ds: Seq<Document>)
    ensures
        no_open_bracket(index_spec(ds)),
        !text::contains(index_spec(ds), script_close()),
{
    let docs = ds.map_values(|d: Document| document_json(d));
    assert forall|i: int| 0 <= i < docs.len() implies no_open_bracket(#[trigger] docs[i]) by {
        lemma_document_no_open(ds[i]);
    }
    lemma_join_no_open(docs);
    let j = join(docs, seq![',']);
    lemma_add_no_open(seq!['['], j);
    lemma_add_no_open(seq!['['] + j, seq![']']);
    let idx = index_spec(ds);
    if text::contains(idx, script_close()) {
        let k = choose|k: int| text::occurs_at(idx, script_close(), k);
        assert(idx.subrange(k, k + 8)[0] == idx[k]);
    }
}

// ------------------------------------------------------------------ decoding

/// The value of a hexadecimal digit, in either case.
pub open spec fn hex_value(c: char) -> Option<nat> {
    let n = c as u32;
    if 48 <= n <= 57 {
        Some((n - 48) as nat)
    } else if 97 <= n <= 102 {
        Some((n - 87) as nat)
    } else if 65 <= n <= 70 {
        Some((n - 55) as nat)
    } else {
        None
    }
}

/// The character a two-character escape `\e` stands for.
pub open spec fn simple_escape(e: char) -> Option<char> {
    if e == '"' {
        Some('"')
    } else if e == '\\' {
        Some('\\')
    } else if e == '/' {
        Some('/')
    } else if e == 'n' {
        Some('\n')
    } else if e == 'r' {
        Some('\r')
    } else if e == 't' {
        Some('\t')
    } else if e == 'b' {
        Some('\u{8}')
    } else if e == 'f' {
        Some('\u{c}')
    } else {
        None
    }
}

/// The value of the four hexadecimal digits of a `\u` escape at the front
/// of `s`, which begins with the backslash.
pub open spec fn unicode_escape(s: Seq<char>) -> Option<nat> {
    if s.len() >= 6 && s[1] == 'u' {
        match (hex_value(s[2]), hex_value(s[3]), hex_value(s[4]), hex_value(s[5])) {
            (Some(a), Some(b), Some(c), Some(d)) => Some(a * 4096 + b * 256 + c * 16 + d),
            _ => None,
        }
    } else {
        None
    }
}

/// What the body of a JSON string literal decodes to: each escape turned
/// back into the character it stands for.  `None` for an unescaped quote,
/// a backslash that starts no escape, and a `\u` escape of a surrogate,
/// which this decoder does not pair.
pub open spec fn unescaped(s: Seq<char>) -> Option<Seq<char>>
    decreases s.len(),
{
    if s.len() == 0 {
        Some(Seq::empty())
    } else if s[0] == '"' {
        None
    } else if s[0] != '\\' {
        match unescaped(s.skip(1)) {
            Some(u) => Some(seq![s[0]] + u),
            None => None,
        }
    } else if s.len() < 2 {
        None
    } else {
        match simple_escape(s[1]) {
            Some(c) => match unescaped(s.skip(2)) {
                Some(u) => Some(seq![c] + u),
                None => None,
            },
            None => match unicode_escape(s) {
                Some(n) => if n < 0xD800 || 0xE000 <= n {
                    match unescaped(s.skip(6)) {
                        Some(u) => Some(seq![n as char] + u),
                        None => None,
                    }
                } else {
                    None
                },
                None => None,
            },
        }
    }
}

proof fn lemma_hex_round_trip(d: nat)
    requires
        d < 16,
    ensures
        hex_value(hex_char(d)) == Some(d),
{
}

/// Decoding what one character was escaped to, and then the rest, gives the
/// character and then the rest.
proof fn lemma_unescape_one(c: char, t: Seq<char>)
    ensures
        unescaped(json_escape(c) + t) == match unescaped(t) {
            Some(u) => Some(seq![c] + u),
            None => None::<Seq<char>>,
        },
{
    let w = json_escape(c);
    let s = w + t;
    if c == '"' || c == '\\' || c == '\n' || c == '\r' || c == '\t' {
        assert(s[0] == '\\');
        assert(s[1] == w[1]);
        assert(s.skip(2) =~= t);
    } else if (c as u32) < 0x20 || c == '<' {
        let hi = (c as u32 / 16) as nat;
        let lo = (c as u32 % 16) as nat;
        if c == '<' {
            assert(w =~= seq!['\\', 'u', '0', '0', '3', 'c']);
        } else {
            assert(w =~= seq!['\\', 'u', '0', '0', hex_char(hi), hex_char(lo)]);
            lemma_hex_round_trip(hi);
            lemma_hex_round_trip(lo);
        }
        assert(s[0] == '\\' && s[1] == 'u');
        assert(s[2] == w[2] && s[3] == w[3] && s[4] == w[4] && s[5] == w[5]);
        assert(simple_escape(s[1]) is None);
        assert(unicode_escape(s) == Some((c as u32) as nat));
        assert(((c as u32) as nat) as char == c);
        assert(s.skip(6) =~= t);
    } else {
        assert(w == seq![c]);
        assert(s[0] == c);
        assert(s.skip(1) =~= t);
    }
}

/// Quoting loses nothing: the body of every string literal the index holds
/// decodes back to exactly the text that was quoted.
pub proof fn lemma_quote_round_trip(s: Seq<char>)
    ensures
        quoted(s) == seq!['"'] + expand(s, |c: char| json_escape(c)) + seq!['"'],
        unescaped(expand(s, |c: char| json_escape(c))) == Some(s),
    decreases s.len(),
{
    let f = |c: char| json_escape(c);
    if s.len() > 0 {
        let rest = s.skip(1);
        lemma_quote_round_trip(rest);
        text::lemma_expand_add(seq![s[0]], rest, f);
        assert(seq![s[0]] + rest =~= s);
        assert(seq![s[0]].drop_last() =~= Seq::<char>::empty());
        assert(expand(Seq::<char>::empty(), f) =~= Seq::<char>::empty());
        assert(seq![s[0]].last() == s[0]);
        assert(f(s[0]) == json_escape(s[0]));
        assert(expand(seq![s[0]], f) =~= Seq::<char>::empty() + json_escape(s[0]));
        assert(expand(seq![s[0]], f) =~= json_escape(s[0]));
        lemma_unescape_one(s[0], expand(rest, f));
    }
}


// ------------------------------------------------------------------ JSON values

/// The kinds of JSON value the index is made of: strings, arrays and objects
/// whose members keep their order.
pub enum Json {
    Str(Seq<char>),
    Arr(Seq<Json>),
    Obj(Seq<(Seq<char>, Json)>),
}

/// `t` is a JSON string literal holding `x`: quotes round a body with no
/// bare quote in it, whose escapes decode to `x`.
pub open spec fn string_literal(t: Seq<char>, x: Seq<char>) -> bool {
    &&& t.len() >= 2
    &&& t[0] == '"'
    &&& t.last() == '"'
    &&& unescaped(t.subrange(1, t.len() - 1)) == Some(x)
}

/// `t` is JSON text, with no white space between tokens, for the value `v`.
pub open spec fn denotes(t: Seq<char>, v: Json) -> bool
    decreases v,
{
    match v {
        Json::Str(x) => string_literal(t, x),
        Json::Arr(vs) => t.len() >= 2 && t[0] == '[' && t.last() == ']' && elements(
            t.subrange(1, t.len() - 1),
            vs,
        ),
        Json::Obj(ms) => t.len() >= 2 && t[0] == '{' && t.last() == '}' && members(
            t.subrange(1, t.len() - 1),
            ms,
        ),
    }
}

/// `t` is the values `vs` written one after another with commas between.
pub open spec fn elements(t: Seq<char>, vs: Seq<Json>) -> bool
    decreases vs,
{
    if vs.len() == 0 {
        t.len() == 0
    } else if vs.len() == 1 {
        denotes(t, vs[0])
    } else {
        exists|k: int|
            0 <= k < t.len() && t[k] == ',' && elements(#[trigger] t.take(k), vs.drop_last())
                && denotes(t.skip(k + 1), vs.last())
    }
}

/// `t` is the object members `ms`, in order, with commas between.
pub open spec fn members(t: Seq<char>, ms: Seq<(Seq<char>, Json)>) -> bool
    decreases ms,
{
    if ms.len() == 0 {
        t.len() == 0
    } else if ms.len() == 1 {
        member(t, ms[0])
    } else {
        exists|k: int|
            0 <= k < t.len() && t[k] == ',' && members(#[trigger] t.take(k), ms.drop_last())
                && member(t.skip(k + 1), ms.last())
    }
}

/// `t` is one object member: the key's string literal, a colon, the value.
pub open spec fn member(t: Seq<char>, m: (Seq<char>, Json)) -> bool
    decreases m,
{
    exists|k: int|
        0 <= k < t.len() && t[k] == ':' && string_literal(#[trigger] t.take(k), m.0) && denotes(
            t.skip(k + 1),
            m.1,
        )
}

/// A heading as the client reads it: its text, then its id.
pub open spec fn heading_value(h: Heading) -> Json {
    Json::Arr(seq![Json::Str(h.text@), Json::Str(h.id@)])
}

/// A page as the client reads it: an object whose members are, in this
/// order, `u` its URL, `t` its title, `h` its headings and `b` its text.
pub open spec fn document_value(d: Document) -> Json {
    Json::Obj(document_members(d))
}

/// The members of a page's object, in order.
pub open spec fn document_members(d: Document) -> Seq<(Seq<char>, Json)> {
    seq![
        ("u"@, Json::Str(d.url@)),
        ("t"@, Json::Str(d.title@)),
        ("h"@, Json::Arr(d.headings@.map_values(|h: Heading| heading_value(h)))),
        ("b"@, Json::Str(d.text@)),
    ]
}

/// What the index holds: an array of the pages, in order.
pub open spec fn index_value(ds: Seq<Document>) -> Json {
    Json::Arr(ds.map_values(|d: Document| document_value(d)))
}

/// A quoted text is a string literal holding that text.
proof fn lemma_quoted_literal(x: Seq<char>)
    ensures
        string_literal(quoted(x), x),
{
    lemma_quote_round_trip(x);
    let e = expand(x, |c: char| json_escape(c));
    assert(quoted(x).subrange(1, quoted(x).len() - 1) =~= e);
}

/// Texts for values, joined with commas, are the elements of those values.
proof fn lemma_join_elements(ts: Seq<Seq<char>>, vs: Seq<Json>)
    requires
        ts.len() == vs.len(),
        forall|i: int| 0 <= i < ts.len() ==> denotes(#[trigger] ts[i], vs[i]),
    ensures
        elements(join(ts, seq![',']), vs),
    decreases ts.len(),
{
    if ts.len() >= 2 {
        let front = ts.drop_last();
        lemma_join_elements(front, vs.drop_last());
        let t = join(ts, seq![',']);
        let k = join(front, seq![',']).len() as int;
        assert(t.take(k) =~= join(front, seq![',']));
        assert(t.skip(k + 1) =~= ts.last());
        assert(t[k] == ',');
    } else if ts.len() == 1 {
        assert(denotes(ts[0], vs[0]));
    }
}

/// Texts for members, joined with commas, are those members.
proof fn lemma_join_members(ts: Seq<Seq<char>>, ms: Seq<(Seq<char>, Json)>)
    requires
        ts.len() == ms.len(),
        forall|i: int| 0 <= i < ts.len() ==> member(#[trigger] ts[i], ms[i]),
    ensures
        members(join(ts, seq![',']), ms),
    decreases ts.len(),
{
    if ts.len() >= 2 {
        let front = ts.drop_last();
        lemma_join_members(front, ms.drop_last());
        let t = join(ts, seq![',']);
        let k = join(front, seq![',']).len() as int;
        assert(t.take(k) =~= join(front, seq![',']));
        assert(t.skip(k + 1) =~= ts.last());
        assert(t[k] == ',');
    } else if ts.len() == 1 {
        assert(member(ts[0], ms[0]));
    }
}

/// The key `"c"` followed by a colon and a value's text is that member.
proof fn lemma_one_letter_member(c: char, v: Seq<char>, value: Json)
    requires
        c != '"' && c != '\\',
        denotes(v, value),
    ensures
        member(seq!['"', c, '"', ':'] + v, (seq![c], value)),
{
    let t = seq!['"', c, '"', ':'] + v;
    assert(t.take(3) =~= seq!['"', c, '"']);
    assert(t.take(3).subrange(1, 2) =~= seq![c]);
    assert(seq![c].skip(1) =~= Seq::<char>::empty());
    assert(unescaped(Seq::<char>::empty()) == Some(Seq::<char>::empty()));
    assert(unescaped(seq![c]) == Some(seq![c] + Seq::<char>::empty()));
    assert(seq![c] + Seq::<char>::empty() =~= seq![c]);
    assert(t.skip(4) =~= v);
    assert(t[3] == ':');
}

proof fn lemma_heading_decodes(h: Heading)
    ensures
        denotes(heading_json(h), heading_value(h)),
{
    let a = quoted(h.text@);
    let b = quoted(h.id@);
    lemma_quoted_literal(h.text@);
    lemma_quoted_literal(h.id@);
    let ts = seq![a, b];
    let vs = seq![Json::Str(h.text@), Json::Str(h.id@)];
    assert(ts.drop_last() =~= seq![a]);
    assert(join(seq![a], seq![',']) == a);
    assert(join(ts, seq![',']) =~= a + seq![','] + b);
    lemma_join_elements(ts, vs);
    let t = heading_json(h);
    assert(t.subrange(1, t.len() - 1) =~= a + seq![','] + b);
}

/// Four texts joined with commas.
proof fn lemma_join_four(a: Seq<char>, b: Seq<char>, c: Seq<char>, e: Seq<char>)
    ensures
        join(seq![a, b, c, e], seq![',']) == a + seq![','] + b + seq![','] + c + seq![','] + e,
{
    let ts = seq![a, b, c, e];
    assert(ts.drop_last() =~= seq![a, b, c]);
    assert(seq![a, b, c].drop_last() =~= seq![a, b]);
    assert(seq![a, b].drop_last() =~= seq![a]);
    assert(join(seq![a], seq![',']) == a);
    assert(join(seq![a, b], seq![',']) == a + seq![','] + b);
    assert(join(seq![a, b, c], seq![',']) == a + seq![','] + b + seq![','] + c);
}

/// The text of a page's headings decodes to its headings.
proof fn lemma_headings_decode(d: Document)
    ensures
        denotes(
            seq!['['] + join(d.headings@.map_values(|h: Heading| heading_json(h)), seq![',']) + seq![']'],
            Json::Arr(d.headings@.map_values(|h: Heading| heading_value(h))),
        ),
{
    let hs = d.headings@.map_values(|h: Heading| heading_json(h));
    let hv = d.headings@.map_values(|h: Heading| heading_value(h));
    assert forall|i: int| 0 <= i < hs.len() implies denotes(#[trigger] hs[i], hv[i]) by {
        lemma_heading_decodes(d.headings@[i]);
    }
    lemma_join_elements(hs, hv);
    let hj = seq!['['] + join(hs, seq![',']) + seq![']'];
    assert(hj.subrange(1, hj.len() - 1) =~= join(hs, seq![',']));
}

/// A page's text is its four members between braces.
proof fn lemma_document_text(d: Document)
    ensures
        document_json(d) == seq!['{'] + (seq!['"', 'u', '"', ':'] + quoted(d.url@)) + seq![',']
            + (seq!['"', 't', '"', ':'] + quoted(d.title@)) + seq![','] + (seq!['"', 'h', '"', ':']
            + (seq!['['] + join(d.headings@.map_values(|h: Heading| heading_json(h)), seq![','])
            + seq![']'])) + seq![','] + (seq!['"', 'b', '"', ':'] + quoted(d.text@)) + seq!['}'],
{
    reveal_strlit("{\"u\":");
    reveal_strlit(",\"t\":");
    reveal_strlit(",\"h\":[");
    reveal_strlit("],\"b\":");
    reveal_strlit("}");
    let hj = join(d.headings@.map_values(|h: Heading| heading_json(h)), seq![',']);
    assert(document_json(d) =~= seq!['{'] + (seq!['"', 'u', '"', ':'] + quoted(d.url@)) + seq![',']
        + (seq!['"', 't', '"', ':'] + quoted(d.title@)) + seq![','] + (seq!['"', 'h', '"', ':']
        + (seq!['['] + hj + seq![']'])) + seq![','] + (seq!['"', 'b', '"', ':'] + quoted(d.text@))
        + seq!['}']);
}

/// The text of each member of a page's object.
spec fn member_texts(d: Document) -> Seq<Seq<char>> {
    seq![
        seq!['"', 'u', '"', ':'] + quoted(d.url@),
        seq!['"', 't', '"', ':'] + quoted(d.title@),
        seq!['"', 'h', '"', ':'] + (seq!['['] + join(
            d.headings@.map_values(|h: Heading| heading_json(h)),
            seq![','],
        ) + seq![']']),
        seq!['"', 'b', '"', ':'] + quoted(d.text@),
    ]
}

proof fn lemma_document_members(d: Document)
    ensures
        members(join(member_texts(d), seq![',']), document_members(d)),
{
    reveal_strlit("u");
    reveal_strlit("t");
    reveal_strlit("h");
    reveal_strlit("b");
    let hv = d.headings@.map_values(|h: Heading| heading_value(h));
    let ts = member_texts(d);
    let ms = document_members(d);
    lemma_headings_decode(d);
    lemma_quoted_literal(d.url@);
    lemma_quoted_literal(d.title@);
    lemma_quoted_literal(d.text@);
    lemma_one_letter_member('u', quoted(d.url@), Json::Str(d.url@));
    lemma_one_letter_member('t', quoted(d.title@), Json::Str(d.title@));
    lemma_one_letter_member(
        'h',
        seq!['['] + join(d.headings@.map_values(|h: Heading| heading_json(h)), seq![',']) + seq![']'],
        Json::Arr(hv),
    );
    lemma_one_letter_member('b', quoted(d.text@), Json::Str(d.text@));
    assert("u"@ =~= seq!['u']);
    assert("t"@ =~= seq!['t']);
    assert("h"@ =~= seq!['h']);
    assert("b"@ =~= seq!['b']);
    assert forall|i: int| 0 <= i < ts.len() implies member(#[trigger] ts[i], ms[i]) by {
        if i == 0 {
            assert(ms[0] == (seq!['u'], Json::Str(d.url@)));
        } else if i == 1 {
            assert(ms[1] == (seq!['t'], Json::Str(d.title@)));
        } else if i == 2 {
            assert(ms[2] == (seq!['h'], Json::Arr(hv)));
        } else {
            assert(ms[3] == (seq!['b'], Json::Str(d.text@)));
        }
    }
    lemma_join_members(ts, ms);
}

proof fn lemma_document_decodes(d: Document)
    ensures
        denotes(document_json(d), document_value(d)),
{
    let ts = member_texts(d);
    lemma_document_members(d);
    lemma_join_four(ts[0], ts[1], ts[2], ts[3]);
    assert(ts =~= seq![ts[0], ts[1], ts[2], ts[3]]);
    lemma_document_text(d);
    let inner = join(ts, seq![',']);
    let t = document_json(d);
    assert(t =~= seq!['{'] + inner + seq!['}']);
    assert(t.subrange(1, t.len() - 1) =~= inner);
}

/// The index decodes as JSON to an array with one object per document, in
/// order; each object has the members `u`, `t`, `h` and `b`, in that order,
/// holding the document's URL, title, headings (each an array of its text
/// and its id, in order) and text, every string exactly as given.
pub proof fn lemma_index_decodes(ds: Seq<Document>)
    ensures
        denotes(index_spec(ds), index_value(ds)),
{
    let js = ds.map_values(|d: Document| document_json(d));
    let vs = ds.map_values(|d: Document| document_value(d));
    assert forall|i: int| 0 <= i < js.len() implies denotes(#[trigger] js[i], vs[i]) by {
        lemma_document_decodes(ds[i]);
    }
    lemma_join_elements(js, vs);
    let t = index_spec(ds);
    assert(t.subrange(1, t.len() - 1) =~= join(js, seq![',']));
}

} // verus!
