//! Build failures, and how they are shown.
//!
//! Every variant carries the path it applies to, so an error that does not
//! name its file cannot be constructed.  And an error that knows a line
//! shows that line, with a caret under the part that is wrong.

use vstd::prelude::*;

use crate::directive::Fault;
use crate::links::{self, DeadLink, explain, upto};
use crate::text::{self, Trim, byte_len, char_index, count_of, digits, last_of, lines, repeat};

verus! {

broadcast use vstd::string::group_string_axioms;

/// A piece of a source file, pointed at.
#[derive(Debug, Clone, PartialEq, Eq)]
pub struct Snippet {
    /// The line, 1-based and absolute within the file the reader will open.
    pub line: usize,
    /// The column, 1-based, in bytes.
    pub column: usize,
    /// The text of that line, without its line ending.
    pub text: String,
    /// How many columns the caret should span.
    pub width: usize,
}

/// A snippet as plain values: line, column, text and width.
pub type SnippetView = (nat, nat, Seq<char>, nat);

/// The plain values of a snippet.
pub open spec fn snippet_view(s: Snippet) -> SnippetView {
    (s.line as nat, s.column as nat, s.text@, s.width as nat)
}

/// The larger of two numbers.
pub open spec fn max(a: nat, b: nat) -> nat {
    if a >= b {
        a
    } else {
        b
    }
}

/// The smaller of two numbers.
pub open spec fn min(a: nat, b: nat) -> nat {
    if a <= b {
        a
    } else {
        b
    }
}

/// Where the byte span `start..end` of `s` is: the line it starts on, counted
/// after `line_offset` lines that come before `s` in the file; the byte
/// column it starts at; that line's text without its `\n` and any `\r`
/// before it; and a caret width of the span's length, at least one and no
/// further than the line's end allows.
pub open spec fn locate(s: Seq<char>, start: nat, end: nat, line_offset: nat) -> SnippetView {
    let b = min(start, byte_len(s));
    let k = char_index(s, b);
    let before = s.take(k);
    let ls = match last_of(before, '\n') {
        Some(i) => i + 1,
        None => 0,
    };
    let line_text = text::trim_end_by(upto(s.skip(ls), '\n'), text::is('\r'));
    let column = byte_len(s.subrange(ls, k));
    let span = if end > start {
        (end - start) as nat
    } else {
        0
    };
    let room = if byte_len(line_text) > column {
        (byte_len(line_text) - column) as nat
    } else {
        0
    };
    (count_of(before, '\n') + 1 + line_offset, column + 1, line_text, min(max(span, 1), max(room, 1)))
}

/// The whole of line `line` of `s`, or nothing if there is no such line,
/// counted after `line_offset` lines that come before `s`.
pub open spec fn locate_line(s: Seq<char>, line: nat, line_offset: nat) -> SnippetView {
    let n = if line >= 1 {
        (line - 1) as nat
    } else {
        0
    };
    let line_text = if n < lines(s).len() {
        lines(s)[n as int]
    } else {
        Seq::empty()
    };
    (line + line_offset, 1, line_text, max(byte_len(line_text), 1))
}

/// The escape sequences for red, dim and reset, or nothing at all.
pub open spec fn palette_spec(color: bool) -> (Seq<char>, Seq<char>, Seq<char>) {
    if color {
        (seq!['\u{1b}', '[', '3', '1', 'm'], seq!['\u{1b}', '[', '2', 'm'], seq!['\u{1b}', '[', '0', 'm'])
    } else {
        (Seq::empty(), Seq::empty(), Seq::empty())
    }
}

/// The gutter line above a snippet.
pub open spec fn rule_line(dim: Seq<char>, gutter: Seq<char>, off: Seq<char>) -> Seq<char> {
    seq!['\n'] + dim + gutter + seq![' ', '|'] + off
}

/// The numbered line of a snippet.
pub open spec fn numbered_line(dim: Seq<char>, number: Seq<char>, off: Seq<char>, text: Seq<char>) -> Seq<char> {
    seq!['\n'] + dim + number + seq![' ', '|'] + off + seq![' '] + text
}

/// The caret line of a snippet.
pub open spec fn caret_line(
    dim: Seq<char>,
    gutter: Seq<char>,
    off: Seq<char>,
    red: Seq<char>,
    pad: nat,
    width: nat,
) -> Seq<char> {
    seq!['\n'] + dim + gutter + seq![' ', '|'] + off + seq![' '] + repeat(' ', pad) + red + repeat(
        '^',
        width,
    ) + off
}

/// The three lines a snippet is drawn as: a gutter, the numbered line, and
/// a caret under the span.
pub open spec fn frame(s: SnippetView, color: bool) -> Seq<char> {
    let (red, dim, off) = palette_spec(color);
    let gutter = repeat(' ', digits(s.0).len());
    let pad = if s.1 >= 1 {
        (s.1 - 1) as nat
    } else {
        0
    };
    rule_line(dim, gutter, off) + numbered_line(dim, digits(s.0), off, s.2) + caret_line(
        dim,
        gutter,
        off,
        red,
        pad,
        s.3,
    )
}

/// The escape sequences for red, dim and reset, or nothing at all.
pub fn palette(color: bool) -> (r: (&'static str, &'static str, &'static str))
    ensures
        (r.0@, r.1@, r.2@) == palette_spec(color),
{
    if color {
        let r = ("\x1b[31m", "\x1b[2m", "\x1b[0m");
        proof {
            reveal_strlit("\x1b[31m");
            reveal_strlit("\x1b[2m");
            reveal_strlit("\x1b[0m");
        }
        r
    } else {
        let r = ("", "", "");
        proof {
            reveal_strlit("");
        }
        r
    }
}

/// How many characters lie in the first `b` bytes of `s`, for a `b` that
/// falls between characters or past the end.
fn char_position(s: &[char], b: usize) -> (k: usize)
    requires
        4 * s.len() <= usize::MAX,
        b <= byte_len(s@),
        b == byte_len(s@) || text::boundary(s@, b as nat),
    ensures
        k <= s.len(),
        byte_len(s@.take(k as int)) == b,
        k == char_index(s@, b as nat),
{
    let mut acc: usize = 0;
    let mut k: usize = 0;
    assert(s@.take(0) =~= Seq::<char>::empty());
    proof {
        text::lemma_byte_len_bounds(s@);
    }
    while k < s.len() && acc < b
        invariant
            k <= s.len(),
            b <= byte_len(s@) <= 4 * s.len() <= usize::MAX,
            b == byte_len(s@) || text::boundary(s@, b as nat),
            acc == byte_len(s@.take(k as int)),
            acc <= b,
        decreases s.len() - k,
    {
        proof {
            assert(s@.take(k + 1).drop_last() =~= s@.take(k as int));
            assert(s@.take(s.len() as int) =~= s@);
            let kb = if b == byte_len(s@) {
                s.len() as int
            } else {
                choose|kb: int| 0 <= kb <= s@.len() && byte_len(s@.take(kb)) == b
            };
            if kb <= k {
                if kb < k {
                    text::lemma_byte_len_take_increasing(s@, kb, k as int);
                }
            } else if kb > k + 1 {
                text::lemma_byte_len_take_increasing(s@, k + 1, kb);
            }
        }
        acc = acc + text::char_bytes(s[k]);
        k = k + 1;
    }
    proof {
        if k == s.len() {
            assert(s@.take(k as int) =~= s@);
        }
        text::lemma_char_index(s@, acc as nat, k as int);
    }
    k
}

/// How many newlines come before position `k`, and where the line holding
/// position `k` starts.
fn line_start(s: &[char], k: usize) -> (r: (usize, usize))
    requires
        k <= s.len(),
    ensures
        r.0 == count_of(s@.take(k as int), '\n'),
        r.0 <= k,
        r.1 == match last_of(s@.take(k as int), '\n') {
            Some(j) => j + 1,
            None => 0,
        },
        r.1 <= k,
{
    let mut count: usize = 0;
    let mut ls: usize = 0;
    let mut i: usize = 0;
    while i < k
        invariant
            i <= k <= s.len(),
            count == count_of(s@.take(i as int), '\n'),
            count <= i,
            ls == match last_of(s@.take(i as int), '\n') {
                Some(j) => j + 1,
                None => 0,
            },
            ls <= i,
        decreases k - i,
    {
        proof {
            assert(s@.take(i + 1).drop_last() =~= s@.take(i as int));
        }
        if s[i] == '\n' {
            count = count + 1;
            ls = i + 1;
        }
        i = i + 1;
    }
    (count, ls)
}

/// The line starting at `ls`, without its `\n` and any `\r` before it.
fn line_from(s: &[char], ls: usize) -> (r: Vec<char>)
    requires
        ls <= s.len(),
    ensures
        r@ == text::trim_end_by(upto(s@.skip(ls as int), '\n'), text::is('\r')),
        r@.len() <= s.len(),
{
    let mut end = ls;
    while end < s.len() && s[end] != '\n'
        invariant
            ls <= end <= s.len(),
            forall|i: int| ls <= i < end ==> s@[i] != '\n',
        decreases s.len() - end,
    {
        end = end + 1;
    }
    proof {
        let rest = s@.skip(ls as int);
        text::lemma_find_char(rest, '\n', end - ls);
        assert(upto(rest, '\n') =~= s@.subrange(ls as int, end as int));
    }
    let e = text::skip_class_back(s, ls, end, &Trim::Only('\r'));
    text::copy_range(s, ls, e)
}

impl Snippet {
    /// Locates `span`, a range of bytes, within `source`.
    ///
    /// `line_offset` is how many lines of the file come before `source`,
    /// which for frontmatter is the opening `+++`.
    pub fn new(source: &str, span: std::ops::Range<usize>, line_offset: usize) -> (r: Snippet)
        requires
            source@.len() <= usize::MAX / 4,
            line_offset + source@.len() < usize::MAX,
            span.start >= byte_len(source@) || text::boundary(source@, span.start as nat),
        ensures
            snippet_view(r) == locate(source@, span.start as nat, span.end as nat, line_offset as nat),
    {
        let s = text::chars_of(source);
        let total = text::bytes_of(s.as_slice());
        let b = if span.start < total {
            span.start
        } else {
            total
        };
        let k = char_position(s.as_slice(), b);
        let (count, ls) = line_start(s.as_slice(), k);
        let line_text = line_from(s.as_slice(), ls);
        let before_line = text::copy_range(s.as_slice(), ls, k);
        let column = text::bytes_of(before_line.as_slice());
        let text_bytes = text::bytes_of(line_text.as_slice());
        let span_len: usize = if span.end > span.start {
            span.end - span.start
        } else {
            0
        };
        let room: usize = if text_bytes > column {
            text_bytes - column
        } else {
            0
        };
        let wide = if span_len > 1 {
            span_len
        } else {
            1
        };
        let fits = if room > 1 {
            room
        } else {
            1
        };
        let width = if wide <= fits {
            wide
        } else {
            fits
        };
        proof {
            text::lemma_byte_len_bounds(before_line@);
        }
        Snippet {
            line: count + 1 + line_offset,
            column: column + 1,
            text: text::string_of(line_text.as_slice()),
            width,
        }
    }

    /// Points at a whole line, for a failure that knows a line but not a
    /// span.
    pub fn at_line(source: &str, line: usize, line_offset: usize) -> (r: Snippet)
        requires
            source@.len() <= usize::MAX / 4,
            line + line_offset <= usize::MAX,
        ensures
            snippet_view(r) == locate_line(source@, line as nat, line_offset as nat),
    {
        let s = text::chars_of(source);
        let ls = text::lines_of(s.as_slice());
        let n = if line >= 1 {
            line - 1
        } else {
            0
        };
        let line_text = if n < ls.len() {
            let t = text::copy_range(ls[n].as_slice(), 0, ls[n].len());
            assert(t@ =~= ls@[n as int]@);
            assert(ls@[n as int]@ == lines(source@)[n as int]);
            t
        } else {
            Vec::new()
        };
        assert(line_text@ == locate_line(source@, line as nat, line_offset as nat).2);
        proof {
            text::lemma_lines_len(source@);
            if n < ls.len() {
                text::lemma_line_short(source@, n as int);
            }
            text::lemma_byte_len_bounds(line_text@);
        }
        let bytes = text::bytes_of(line_text.as_slice());
        Snippet {
            line: line + line_offset,
            column: 1,
            text: text::string_of(line_text.as_slice()),
            width: if bytes > 1 {
                bytes
            } else {
                1
            },
        }
    }

    /// Draws the snippet: a gutter, the numbered line, and a caret under the
    /// span.
    pub fn write(&self, out: &mut String, color: bool)
        ensures
            final(out)@ == old(out)@ + frame(snippet_view(*self), color),
    {
        let (red, dim, off) = palette(color);
        let mut number = String::new();
        text::push_decimal(&mut number, self.line as u64);
        let digits_len = text::chars_of(number.as_str()).len();
        let pad = if self.column >= 1 {
            self.column - 1
        } else {
            0
        };
        let ghost start = out@;
        push_rule(out, dim, digits_len, off);
        let ghost a = out@;
        push_numbered(out, dim, number.as_str(), off, self.text.as_str());
        let ghost b = out@;
        push_caret(out, dim, digits_len, off, red, pad, self.width);
        assert(out@ =~= start + frame(snippet_view(*self), color));
    }
}

/// Appends the gutter line above a snippet.
fn push_rule(out: &mut String, dim: &str, gutter: usize, off: &str)
    ensures
        final(out)@ == old(out)@ + rule_line(dim@, repeat(' ', gutter as nat), off@),
{
    text::push_char(out, '\n');
    out.append(dim);
    text::push_repeat(out, ' ', gutter);
    text::push_char(out, ' ');
    text::push_char(out, '|');
    out.append(off);
    assert(out@ =~= old(out)@ + rule_line(dim@, repeat(' ', gutter as nat), off@));
}

/// Appends the numbered line of a snippet.
fn push_numbered(out: &mut String, dim: &str, number: &str, off: &str, line: &str)
    ensures
        final(out)@ == old(out)@ + numbered_line(dim@, number@, off@, line@),
{
    text::push_char(out, '\n');
    out.append(dim);
    out.append(number);
    text::push_char(out, ' ');
    text::push_char(out, '|');
    out.append(off);
    text::push_char(out, ' ');
    out.append(line);
    assert(out@ =~= old(out)@ + numbered_line(dim@, number@, off@, line@));
}

/// Appends the caret line of a snippet.
fn push_caret(out: &mut String, dim: &str, gutter: usize, off: &str, red: &str, pad: usize, width: usize)
    ensures
        final(out)@ == old(out)@ + caret_line(
            dim@,
            repeat(' ', gutter as nat),
            off@,
            red@,
            pad as nat,
            width as nat,
        ),
{
    text::push_char(out, '\n');
    out.append(dim);
    text::push_repeat(out, ' ', gutter);
    text::push_char(out, ' ');
    text::push_char(out, '|');
    out.append(off);
    text::push_char(out, ' ');
    text::push_repeat(out, ' ', pad);
    out.append(red);
    text::push_repeat(out, '^', width);
    out.append(off);
    assert(out@ =~= old(out)@ + caret_line(
        dim@,
        repeat(' ', gutter as nat),
        off@,
        red@,
        pad as nat,
        width as nat,
    ));
}

// ------------------------------------------------------------------ errors

/// A build failure, always attributed to a file.
#[derive(Debug)]
pub enum Error {
    /// The file could not be read or written.
    Io {
        /// The file the operation was on.
        path: String,
        /// What the operating system said.
        source: String,
    },
    /// A content file did not begin with a `+++` frontmatter block.
    MissingFrontmatter {
        /// The offending content file.
        path: String,
    },
    /// A content file opened a frontmatter block but never closed it.
    UnterminatedFrontmatter {
        /// The offending content file.
        path: String,
    },
    /// Frontmatter, or configuration, that did not fit its type.
    Schema {
        /// The offending file.
        path: String,
        /// What was wrong.
        message: String,
        /// Where it was wrong, when that is known.
        snippet: Option<Snippet>,
    },
    /// A page in a collection a feed carries has no date.
    Undated {
        /// The page with no date.
        path: String,
        /// The collection whose feed needs one.
        collection: String,
    },
    /// One or more pages link somewhere that does not exist, all reported
    /// at once.
    DeadLinks(Vec<DeadLink>),
}

/// One dead link's line in a report.
pub open spec fn dead_line(d: DeadLink, color: bool) -> Seq<char> {
    let (_, dim, off) = palette_spec(color);
    "\n  "@ + dim + d.source@ + off + ": "@ + d.href@ + " -> "@ + explain(d.reason, d.target@)
}

/// How an error reads.
pub open spec fn render_spec(e: Error, color: bool) -> Seq<char> {
    let (red, dim, off) = palette_spec(color);
    match e {
        Error::Io { path, source } => path@ + ": "@ + source@,
        Error::MissingFrontmatter { path } => path@
            + ": expected a `+++` frontmatter block at the top of the file"@,
        Error::UnterminatedFrontmatter { path } => path@ + ": unterminated `+++` frontmatter block"@,
        Error::Schema { path, message, snippet } => match snippet {
            Some(at) => path@ + ":"@ + digits(at.line as nat) + ":"@ + digits(at.column as nat) + ": "@
                + message@ + frame(snippet_view(at), color),
            None => path@ + ": "@ + message@,
        },
        Error::Undated { path, collection } => path@ + ": a feed is configured for `"@ + collection@
            + "`, so this page needs a `date`"@,
        Error::DeadLinks(links) => red + digits(links@.len()) + " dead internal link"@ + (if links@.len()
            == 1 {
            Seq::<char>::empty()
        } else {
            "s"@
        }) + off + ":"@ + text::concat(links@.map_values(|d: DeadLink| dead_line(d, color))),
    }
}

impl Error {
    /// Attaches a path to the failure of an I/O operation.
    pub fn io(path: &str, source: &str) -> (e: Error)
        ensures
            e matches Error::Io { path: p, source: s } && p@ == path@ && s@ == source@,
    {
        Error::Io { path: String::from_str(path), source: String::from_str(source) }
    }

    /// Builds a schema error from a deserializer's message and the byte span
    /// it blamed, if any, locating the span in `source`.
    pub fn schema(
        path: &str,
        message: &str,
        span: Option<std::ops::Range<usize>>,
        source: &str,
        line_offset: usize,
    ) -> (e: Error)
        requires
            source@.len() <= usize::MAX / 4,
            line_offset + source@.len() < usize::MAX,
            span matches Some(r) ==> r.start >= byte_len(source@) || text::boundary(source@, r.start as nat),
        ensures
            e matches Error::Schema { path: p, message: m, snippet: at } && p@ == path@ && m@ == message@
                && match span {
                Some(r) => at matches Some(x) && snippet_view(x) == locate(
                    source@,
                    r.start as nat,
                    r.end as nat,
                    line_offset as nat,
                ),
                None => at is None,
            },
    {
        let snippet = match span {
            Some(r) => Some(Snippet::new(source, r, line_offset)),
            None => None,
        };
        Error::Schema { path: String::from_str(path), message: String::from_str(message), snippet }
    }

    /// Builds a schema error from a directive fault, pointing at the line it
    /// names in `source`.
    pub fn directive(path: &str, fault: &Fault, source: &str, line_offset: usize) -> (e: Error)
        requires
            source@.len() <= usize::MAX / 4,
            fault.line + line_offset <= usize::MAX,
        ensures
            e matches Error::Schema { path: p, message: m, snippet: Some(at) } && p@ == path@ && m@
                == fault.message@ && snippet_view(at) == locate_line(
                source@,
                fault.line as nat,
                line_offset as nat,
            ),
    {
        Error::Schema {
            path: String::from_str(path),
            message: fault.message.clone(),
            snippet: Some(Snippet::at_line(source, fault.line, line_offset)),
        }
    }

    /// The path this error is about, or the first one for a batch of links.
    pub fn path(&self) -> (r: Option<&str>)
        ensures
            match *self {
                Error::Io { path, .. } => r matches Some(p) && p@ == path@,
                Error::MissingFrontmatter { path } => r matches Some(p) && p@ == path@,
                Error::UnterminatedFrontmatter { path } => r matches Some(p) && p@ == path@,
                Error::Schema { path, .. } => r matches Some(p) && p@ == path@,
                Error::Undated { path, .. } => r matches Some(p) && p@ == path@,
                Error::DeadLinks(links) => if links@.len() == 0 {
                    r is None
                } else {
                    r matches Some(p) && p@ == links@[0].source@
                },
            },
    {
        match self {
            Error::Io { path, .. } => Some(path.as_str()),
            Error::MissingFrontmatter { path } => Some(path.as_str()),
            Error::UnterminatedFrontmatter { path } => Some(path.as_str()),
            Error::Schema { path, .. } => Some(path.as_str()),
            Error::Undated { path, .. } => Some(path.as_str()),
            Error::DeadLinks(links) => if links.len() == 0 {
                None
            } else {
                Some(links[0].source.as_str())
            },
        }
    }

    /// Renders the error, optionally with colour.
    ///
    /// Colour is a parameter rather than a global, so the decision belongs
    /// to whoever knows whether anything is watching.
    pub fn render(&self, color: bool) -> (out: String)
        ensures
            out@ == render_spec(*self, color),
    {
        let (red, dim, off) = palette(color);
        match self {
            Error::Io { path, source } => {
                let mut out = path.clone();
                out.append(": ");
                out.append(source.as_str());
                out
            },
            Error::MissingFrontmatter { path } => {
                let mut out = path.clone();
                out.append(": expected a `+++` frontmatter block at the top of the file");
                out
            },
            Error::UnterminatedFrontmatter { path } => {
                let mut out = path.clone();
                out.append(": unterminated `+++` frontmatter block");
                out
            },
            Error::Schema { path, message, snippet } => {
                let mut out = path.clone();
                match snippet {
                    Some(at) => {
                        out.append(":");
                        text::push_decimal(&mut out, at.line as u64);
                        out.append(":");
                        text::push_decimal(&mut out, at.column as u64);
                        out.append(": ");
                        out.append(message.as_str());
                        at.write(&mut out, color);
                    },
                    None => {
                        out.append(": ");
                        out.append(message.as_str());
                    },
                }
                out
            },
            Error::Undated { path, collection } => {
                let mut out = path.clone();
                out.append(": a feed is configured for `");
                out.append(collection.as_str());
                out.append("`, so this page needs a `date`");
                out
            },
            Error::DeadLinks(links) => {
                let mut out = String::from_str(red);
                text::push_decimal(&mut out, links.len() as u64);
                out.append(" dead internal link");
                if links.len() != 1 {
                    out.append("s");
                }
                out.append(off);
                out.append(":");
                let ghost head = out@;
                let ghost f = |d: DeadLink| dead_line(d, color);
                let mut i: usize = 0;
                while i < links.len()
                    invariant
                        i <= links.len(),
                        f == (|d: DeadLink| dead_line(d, color)),
                        dim@ == palette_spec(color).1,
                        off@ == palette_spec(color).2,
                        out@ == head + text::concat(links@.take(i as int).map_values(f)),
                    decreases links.len() - i,
                {
                    proof {
                        assert(links@.take(i + 1).map_values(f).drop_last() =~= links@.take(
                            i as int,
                        ).map_values(f));
                    }
                    out.append("\n  ");
                    out.append(dim);
                    out.append(links[i].source.as_str());
                    out.append(off);
                    out.append(": ");
                    let why = links[i].describe();
                    out.append(why.as_str());
                    assert(out@ =~= head + text::concat(links@.take(i + 1).map_values(f)));
                    i = i + 1;
                }
                assert(links@.take(links.len() as int) =~= links@);
                out
            },
        }
    }

    /// The error as text, without colour: what `Display` would show.
    pub fn to_string(&self) -> (out: String)
        ensures
            out@ == render_spec(*self, false),
    {
        self.render(false)
    }
}

} // verus!
