//! The `:::name{attributes}` blocks a page body can hold.
//!
//! ```text
//! :::callout{kind = "warn"}
//! crabbucket needs Rust 1.85 or newer.
//! :::
//! ```
//!
//! A directive's attributes are a TOML inline table, so quoting, escaping and
//! nesting are TOML's problem rather than this module's.  The scanner works on
//! lines: a directive written inside a fenced code block is left alone, and a
//! `:::` with nothing open is ordinary text.

use vstd::prelude::*;

use crate::table::{self, TomlItem};
use crate::text::{self, is_ascii_alnum, is_ascii_alpha, join, lines, trim, trim_start};

verus! {

broadcast use vstd::string::group_string_axioms;

/// Something wrong with a directive, at a line within the page body.
#[derive(Debug, Clone, PartialEq, Eq)]
pub struct Fault {
    /// The line the directive opened on, counted from the start of the body.
    pub line: usize,
    /// What is wrong.
    pub message: String,
}

impl Fault {
    /// A fault at `line`.
    pub fn at(line: usize, message: String) -> (f: Fault)
        ensures
            f.line == line,
            f.message == message,
    {
        Fault { line, message }
    }
}

/// A run of the page: either Markdown, or a directive wrapping more of both.
#[derive(Debug)]
pub enum Block {
    /// Markdown, verbatim.
    Text {
        /// The line it starts on, counted from the start of the body.
        line: usize,
        /// The Markdown.
        source: String,
    },
    /// A directive.
    Directive {
        /// The line the directive opened on.
        line: usize,
        /// Its name.
        name: String,
        /// Its attributes.
        attrs: toml::Table,
        /// What it contains, which may be more directives.
        body: Vec<Block>,
    },
}

/// A block as a plain value.
pub enum BlockView {
    /// Markdown.
    Text { line: nat, source: Seq<char> },
    /// A directive, with its attribute table's entries.
    Directive {
        line: nat,
        name: Seq<char>,
        attrs: Seq<(Seq<char>, TomlItem)>,
        body: Seq<BlockView>,
    },
}

/// A fault as a plain value.
pub struct FaultView {
    pub line: nat,
    pub message: Seq<char>,
}

/// The plain value of a block.
pub open spec fn view_block(b: Block) -> BlockView
    decreases b,
{
    match b {
        Block::Text { line, source } => BlockView::Text { line: line as nat, source: source@ },
        Block::Directive { line, name, attrs, body } => BlockView::Directive {
            line: line as nat,
            name: name@,
            attrs: table::table_contents(attrs),
            body: view_blocks(body@),
        },
    }
}

/// The plain values of a run of blocks.
pub open spec fn view_blocks(bs: Seq<Block>) -> Seq<BlockView>
    decreases bs,
{
    if bs.len() == 0 {
        Seq::empty()
    } else {
        view_blocks(bs.drop_last()).push(view_block(bs.last()))
    }
}

/// The plain value of a fault.
pub open spec fn view_fault(f: Fault) -> FaultView {
    FaultView { line: f.line as nat, message: f.message@ }
}

// ------------------------------------------------------------------ the rules

/// How many characters at the front of `s` are `c`.
pub open spec fn run_of(s: Seq<char>, c: char) -> nat {
    text::lead(s, text::is(c))
}

/// Whether a line opens a fenced code block, and with what marker and width.
pub open spec fn opens_fence(line: Seq<char>) -> Option<(char, nat)> {
    let t = trim_start(line);
    if t.len() > 0 && (t[0] == '`' || t[0] == '~') && run_of(t, t[0]) >= 3 {
        Some((t[0], run_of(t, t[0])))
    } else {
        None
    }
}

/// Whether a line closes the fence that is open.
pub open spec fn closes_fence(line: Seq<char>, marker: char, width: nat) -> bool {
    let t = trim_start(line);
    let found = run_of(t, marker);
    found >= width && text::is_blank(t.skip(found as int))
}

/// A character that may continue a directive's name.
pub open spec fn name_char(c: char) -> bool {
    is_ascii_alnum(c) || c == '-' || c == '_'
}

/// What a `:::` line means.
pub enum Marker {
    /// A directive opens, with this name and these attribute entries.
    Open { name: Seq<char>, attrs: Seq<(Seq<char>, TomlItem)> },
    /// The innermost open directive closes.
    Close,
}

/// The TOML document an attribute list is parsed as.
pub open spec fn attribute_document(inner: Seq<char>) -> Seq<char> {
    "attrs = { "@ + inner + " }"@
}

/// An attribute list's entries, or what is wrong with it.
pub open spec fn attributes(inner: Seq<char>) -> Result<Seq<(Seq<char>, TomlItem)>, Seq<char>> {
    if text::is_blank(inner) {
        Ok(Seq::empty())
    } else {
        let doc = attribute_document(inner);
        match table::toml_parse(doc) {
            None => Err(table::toml_message(doc)),
            Some(entries) => match table::lookup(entries, "attrs"@) {
                Some(TomlItem::Table(inner_entries)) => Ok(inner_entries),
                _ => Err("attributes must be a TOML inline table"@),
            },
        }
    }
}

/// What a line means: not a marker, a marker, or a marker whose attributes
/// are wrong.
pub open spec fn marker_of(line: Seq<char>) -> Result<Option<Marker>, Seq<char>> {
    if !text::starts_with(line, ":::"@) {
        Ok(None)
    } else {
        let rest = trim(line.skip(3));
        if rest.len() == 0 {
            Ok(Some(Marker::Close))
        } else {
            let n = text::lead(rest, |c: char| name_char(c));
            let name = rest.take(n as int);
            if n == 0 || !is_ascii_alpha(rest[0]) {
                Ok(None)
            } else {
                let after = trim(rest.skip(n as int));
                if after.len() >= 2 && after[0] == '{' && after.last() == '}' {
                    match attributes(after.subrange(1, after.len() - 1)) {
                        Ok(attrs) => Ok(Some(Marker::Open { name, attrs })),
                        Err(m) => Err(m),
                    }
                } else if after.len() == 0 {
                    Ok(Some(Marker::Open { name, attrs: Seq::empty() }))
                } else {
                    Ok(None)
                }
            }
        }
    }
}

/// One open directive, and what has accumulated inside it.
pub struct FrameView {
    pub open: Option<(nat, Seq<char>, Seq<(Seq<char>, TomlItem)>)>,
    pub blocks: Seq<BlockView>,
    pub text: Seq<Seq<char>>,
    pub text_line: nat,
}

/// Where the scan is: every open frame, innermost last, and any open fence.
pub struct ScanState {
    pub frames: Seq<FrameView>,
    pub fence: Option<(char, nat)>,
}

/// A frame with its accumulated text turned into a block, if the text is
/// anything but white space.
pub open spec fn flush(f: FrameView) -> FrameView {
    let keep = exists|i: int| 0 <= i < f.text.len() && !text::is_blank(#[trigger] f.text[i]);
    FrameView {
        blocks: if keep {
            f.blocks.push(BlockView::Text { line: f.text_line, source: join(f.text, "\n"@) })
        } else {
            f.blocks
        },
        text: Seq::empty(),
        ..f
    }
}

/// A frame with one more line of text.
pub open spec fn push_line(f: FrameView, line: Seq<char>, number: nat) -> FrameView {
    FrameView {
        text_line: if f.text.len() == 0 {
            number
        } else {
            f.text_line
        },
        text: f.text.push(line),
        ..f
    }
}

/// The state with one more line in the innermost frame.
pub open spec fn push_top(st: ScanState, line: Seq<char>, number: nat) -> Seq<FrameView> {
    st.frames.update(st.frames.len() - 1, push_line(st.frames.last(), line, number))
}

/// The scan after one more line.
pub open spec fn step(st: ScanState, line: Seq<char>, number: nat) -> Result<ScanState, FaultView> {
    match st.fence {
        Some((marker, width)) => Ok(
            ScanState {
                frames: push_top(st, line, number),
                fence: if closes_fence(line, marker, width) {
                    None
                } else {
                    st.fence
                },
            },
        ),
        None => if opens_fence(line) is Some {
            Ok(ScanState { frames: push_top(st, line, number), fence: opens_fence(line) })
        } else {
            match marker_of(line) {
                Err(m) => Err(FaultView { line: number, message: m }),
                Ok(Some(Marker::Open { name, attrs })) => Ok(
                    ScanState {
                        frames: st.frames.update(
                            st.frames.len() - 1,
                            flush(st.frames.last()),
                        ).push(
                            FrameView {
                                open: Some((number, name, attrs)),
                                blocks: Seq::empty(),
                                text: Seq::empty(),
                                text_line: number + 1,
                            },
                        ),
                        fence: None,
                    },
                ),
                Ok(Some(Marker::Close)) => if st.frames.len() > 1 {
                    let closed = flush(st.frames.last());
                    let (line_at, name, attrs) = closed.open->0;
                    let below = st.frames.drop_last();
                    let parent = below.last();
                    Ok(
                        ScanState {
                            frames: below.update(
                                below.len() - 1,
                                FrameView {
                                    blocks: parent.blocks.push(
                                        BlockView::Directive {
                                            line: line_at,
                                            name,
                                            attrs,
                                            body: closed.blocks,
                                        },
                                    ),
                                    ..parent
                                },
                            ),
                            fence: None,
                        },
                    )
                } else {
                    Ok(ScanState { frames: push_top(st, line, number), fence: None })
                },
                Ok(None) => Ok(ScanState { frames: push_top(st, line, number), fence: None }),
            }
        },
    }
}

/// The frame a scan starts with.
pub open spec fn root_frame() -> FrameView {
    FrameView { open: None, blocks: Seq::empty(), text: Seq::empty(), text_line: 1 }
}

/// The scan after the first `n` lines; line `i` is numbered `i + 1`.
pub open spec fn run(ls: Seq<Seq<char>>, n: nat) -> Result<ScanState, FaultView>
    decreases n,
{
    if n == 0 {
        Ok(ScanState { frames: seq![root_frame()], fence: None })
    } else {
        match run(ls, (n - 1) as nat) {
            Err(f) => Err(f),
            Ok(st) => step(st, ls[n - 1], n),
        }
    }
}

/// What a scan that has read every line returns.
pub open spec fn finish(st: ScanState) -> Result<Seq<BlockView>, FaultView> {
    if st.frames.len() > 1 {
        let (line, name, _) = st.frames.last().open->0;
        Err(
            FaultView {
                line,
                message: "unterminated directive `"@ + name + "`"@,
            },
        )
    } else {
        Ok(flush(st.frames[0]).blocks)
    }
}

/// What `scan` returns for a page body.
pub open spec fn scan_spec(source: Seq<char>) -> Result<Seq<BlockView>, FaultView> {
    let ls = lines(source);
    match run(ls, ls.len()) {
        Err(f) => Err(f),
        Ok(st) => finish(st),
    }
}

/// A page body says the same whether its lines end in LF or in CRLF: the
/// scan of a text with no stray carriage returns is the scan of the same text
/// with every newline written as CRLF.
pub proof fn lemma_scan_ignores_line_endings(source: Seq<char>)
    requires
        !source.contains('\r'),
    ensures
        scan_spec(text::crlf(source)) == scan_spec(source),
{
    text::lemma_lines_crlf(source);
}

/// The line opens a fence of `marker`: after any leading white space it
/// starts with three of them.
pub open spec fn fence_line(line: Seq<char>, marker: char) -> bool {
    let t = trim_start(line);
    t.len() >= 3 && t[0] == marker && t[1] == marker && t[2] == marker
}

/// The root frame holding the given lines as text and nothing else.
pub open spec fn text_frame(ls: Seq<Seq<char>>) -> FrameView {
    FrameView { open: None, blocks: Seq::empty(), text: ls, text_line: 1 }
}

/// A line with no `marker` in it starts no run of `marker`, once trimmed.
proof fn lemma_no_marker_run(line: Seq<char>, marker: char)
    requires
        !line.contains(marker),
    ensures
        run_of(trim_start(line), marker) == 0,
{
    let k = text::lead(line, text::ws()) as int;
    text::lemma_lead(line, text::ws());
    let t = trim_start(line);
    text::lemma_lead(t, text::is(marker));
    if run_of(t, marker) > 0 {
        assert(t[0] == line[k]);
    }
}

/// Scanning lines that open with a fence and hold no `marker` until the last
/// one keeps every line as text of the root frame.
proof fn lemma_fenced_run(ls: Seq<Seq<char>>, marker: char, n: nat)
    requires
        marker == '`' || marker == '~',
        1 <= n <= ls.len(),
        fence_line(ls[0], marker),
        forall|i: int| 0 < i < ls.len() - 1 ==> !(#[trigger] ls[i]).contains(marker),
    ensures
        run(ls, n) is Ok,
        run(ls, n)->Ok_0.frames == seq![text_frame(ls.take(n as int))],
        n < ls.len() ==> run(ls, n)->Ok_0.fence == Some((marker, run_of(trim_start(ls[0]), marker))),
    decreases n,
{
    let t = trim_start(ls[0]);
    let w = run_of(t, marker);
    text::lemma_lead(t, text::is(marker));
    assert(w >= 3);
    if n == 1 {
        let st0 = ScanState { frames: seq![root_frame()], fence: None };
        assert(run(ls, 0) == Ok::<ScanState, FaultView>(st0));
        assert(opens_fence(ls[0]) == Some((marker, w)));
        assert(ls.take(1) =~= seq![ls[0]]);
        assert(push_top(st0, ls[0], 1) =~= seq![text_frame(ls.take(1))]);
    } else {
        lemma_fenced_run(ls, marker, (n - 1) as nat);
        let st = run(ls, (n - 1) as nat)->Ok_0;
        let line = ls[n - 1];
        if n - 1 < ls.len() - 1 {
            assert(!line.contains(marker));
            lemma_no_marker_run(line, marker);
            assert(!closes_fence(line, marker, w));
        }
        assert(ls.take(n as int) =~= ls.take(n - 1).push(line));
        assert(push_top(st, line, n) =~= seq![text_frame(ls.take(n as int))]);
    }
}

/// A fence hides what it holds, with tildes as with backticks: a body that
/// opens with a line of three or more of either, and has no more of that
/// character until its last line, scans as one block of Markdown holding
/// every line from the first, however much of it looks like a directive.
pub proof fn lemma_fenced_body_is_text(source: Seq<char>, marker: char)
    requires
        marker == '`' || marker == '~',
        lines(source).len() >= 1,
        fence_line(lines(source)[0], marker),
        forall|i: int|
            0 < i < lines(source).len() - 1 ==> !(#[trigger] lines(source)[i]).contains(marker),
    ensures
        scan_spec(source) == Ok::<Seq<BlockView>, FaultView>(
            seq![BlockView::Text { line: 1, source: join(lines(source), "\n"@) }],
        ),
{
    let ls = lines(source);
    lemma_fenced_run(ls, marker, ls.len());
    assert(ls.take(ls.len() as int) =~= ls);
    let f = text_frame(ls);
    let k = text::lead(ls[0], text::ws()) as int;
    text::lemma_lead(ls[0], text::ws());
    assert(trim_start(ls[0])[0] == ls[0][k]);
    assert(!text::is_blank(f.text[0]));
    assert(flush(f).blocks =~= seq![BlockView::Text { line: 1, source: join(ls, "\n"@) }]);
}

/// Once a scan has failed, it stays failed with the same fault.
proof fn lemma_run_err(ls: Seq<Seq<char>>, k: nat, m: nat)
    requires
        k <= m,
        run(ls, k) is Err,
    ensures
        run(ls, m) == run(ls, k),
    decreases m - k,
{
    if k < m {
        lemma_run_err(ls, k, (m - 1) as nat);
    }
}

// ------------------------------------------------------------------ scanning

/// One open directive, and what has accumulated inside it.
struct Frame {
    open: Option<(usize, String, toml::Table)>,
    blocks: Vec<Block>,
    text: Vec<Vec<char>>,
    text_line: usize,
}

spec fn view_frame(f: Frame) -> FrameView {
    FrameView {
        open: match f.open {
            Some((l, n, a)) => Some((l as nat, n@, table::table_contents(a))),
            None => None,
        },
        blocks: view_blocks(f.blocks@),
        text: f.text@.map_values(|l: Vec<char>| l@),
        text_line: f.text_line as nat,
    }
}

spec fn view_frames(fs: Seq<Frame>) -> Seq<FrameView> {
    fs.map_values(|f: Frame| view_frame(f))
}

proof fn lemma_view_blocks_push(bs: Seq<Block>, b: Block)
    ensures
        view_blocks(bs.push(b)) == view_blocks(bs).push(view_block(b)),
{
    assert(bs.push(b).drop_last() == bs);
}

/// Lines joined with newlines.
fn join_lines(parts: &Vec<Vec<char>>) -> (s: String)
    ensures
        s@ == join(parts@.map_values(|l: Vec<char>| l@), "\n"@),
{
    let ghost views = parts@.map_values(|l: Vec<char>| l@);
    let mut s = String::new();
    let mut i: usize = 0;
    while i < parts.len()
        invariant
            i <= parts.len(),
            views == parts@.map_values(|l: Vec<char>| l@),
            s@ == join(views.take(i as int), "\n"@),
        decreases parts.len() - i,
    {
        proof {
            reveal_strlit("\n");
            assert(views.take(i + 1).drop_last() == views.take(i as int));
        }
        if i > 0 {
            text::push_char(&mut s, '\n');
        }
        text::push_chars(&mut s, parts[i].as_slice());
        i = i + 1;
    }
    assert(views.take(parts.len() as int) == views);
    s
}

impl Frame {
    fn root() -> (f: Frame)
        ensures
            view_frame(f) == root_frame(),
    {
        let f = Frame { open: None, blocks: Vec::new(), text: Vec::new(), text_line: 1 };
        assert(view_frame(f).text =~= Seq::<Seq<char>>::empty());
        assert(view_blocks(f.blocks@) =~= Seq::<BlockView>::empty());
        f
    }

    /// Turns whatever text has accumulated into a block.
    fn flush(&mut self)
        ensures
            view_frame(*final(self)) == flush(view_frame(*old(self))),
    {
        let ghost before = view_frame(*self);
        let mut keep = false;
        let mut i: usize = 0;
        while i < self.text.len()
            invariant
                i <= self.text.len(),
                before == view_frame(*self),
                keep == exists|j: int| 0 <= j < i && !text::is_blank(#[trigger] before.text[j]),
            decreases self.text.len() - i,
        {
            assert(before.text[i as int] == self.text@[i as int]@);
            if !text::blank(self.text[i].as_slice()) {
                keep = true;
            }
            i = i + 1;
        }
        if keep {
            let source = join_lines(&self.text);
            let b = Block::Text { line: self.text_line, source };
            proof {
                lemma_view_blocks_push(self.blocks@, b);
            }
            self.blocks.push(b);
        }
        self.text = Vec::new();
        assert(view_frame(*self).text =~= Seq::<Seq<char>>::empty());
        assert(view_frame(*self) == flush(before));
    }

    fn push(&mut self, line: Vec<char>, number: usize)
        ensures
            view_frame(*final(self)) == push_line(view_frame(*old(self)), line@, number as nat),
    {
        if self.text.len() == 0 {
            self.text_line = number;
        }
        self.text.push(line);
        assert(view_frame(*self).text =~= view_frame(*old(self)).text.push(line@));
    }
}

/// The length of the run of `c` at the front of `s`.
fn count_run(s: &[char], from: usize, c: char) -> (n: usize)
    requires
        from <= s.len(),
    ensures
        from + n <= s.len(),
        n == run_of(s@.skip(from as int), c),
{
    let mut i = from;
    while i < s.len() && s[i] == c
        invariant
            from <= i <= s.len(),
            forall|j: int| from <= j < i ==> s@[j] == c,
        decreases s.len() - i,
    {
        i = i + 1;
    }
    proof {
        text::lemma_lead_is(s@.skip(from as int), text::is(c), i - from);
    }
    i - from
}

/// Whether a line opens a fenced code block, and with what.
fn fence_opened(line: &[char]) -> (r: Option<(char, usize)>)
    ensures
        match r {
            Some((c, w)) => opens_fence(line@) == Some((c, w as nat)),
            None => opens_fence(line@) is None,
        },
{
    let start = text::skip_space(line, 0, line.len());
    proof {
        assert(line@.subrange(0, line.len() as int) == line@);
        assert(trim_start(line@) == line@.skip(start as int));
    }
    if start == line.len() {
        return None;
    }
    let marker = line[start];
    if marker != '`' && marker != '~' {
        return None;
    }
    let width = count_run(line, start, marker);
    if width >= 3 {
        Some((marker, width))
    } else {
        None
    }
}

/// Whether a line closes the fence that is open.
fn fence_closed(line: &[char], marker: char, width: usize) -> (b: bool)
    ensures
        b == closes_fence(line@, marker, width as nat),
{
    let start = text::skip_space(line, 0, line.len());
    proof {
        assert(line@.subrange(0, line.len() as int) == line@);
        assert(trim_start(line@) == line@.skip(start as int));
    }
    let found = count_run(line, start, marker);
    if found < width {
        return false;
    }
    let rest = text::copy_range(line, start + found, line.len());
    proof {
        assert(rest@ == line@.skip(start as int).skip(found as int));
    }
    text::blank(rest.as_slice())
}

/// What a `:::` line means, with the attribute table built.
enum Mark {
    Open { name: Vec<char>, attrs: toml::Table },
    Close,
}

spec fn view_mark(m: Mark) -> Marker {
    match m {
        Mark::Open { name, attrs } => Marker::Open { name: name@, attrs: table::table_contents(attrs) },
        Mark::Close => Marker::Close,
    }
}

/// Parses a directive's attributes as a TOML inline table.
fn parse_attributes(inner: &[char]) -> (r: Result<toml::Table, String>)
    ensures
        match r {
            Ok(t) => attributes(inner@) == Ok::<Seq<(Seq<char>, TomlItem)>, Seq<char>>(
                table::table_contents(t),
            ),
            Err(m) => attributes(inner@) == Err::<Seq<(Seq<char>, TomlItem)>, Seq<char>>(m@),
        },
{
    if text::blank(inner) {
        return Ok(table::empty_table());
    }
    let mut doc = String::from_str("attrs = { ");
    text::push_chars(&mut doc, inner);
    doc.append(" }");
    assert(doc@ == attribute_document(inner@));
    match table::parse_table_message(doc.as_str()) {
        Err(m) => Err(m),
        Ok(mut parsed) => match table::remove_table(&mut parsed, "attrs") {
            Some(t) => Ok(t),
            None => Err(String::from_str("attributes must be a TOML inline table")),
        },
    }
}

/// Reads a `:::` line, if the line is one.
fn directive_line(line: &[char]) -> (r: Result<Option<Mark>, String>)
    ensures
        match r {
            Ok(Some(m)) => marker_of(line@) == Ok::<Option<Marker>, Seq<char>>(
                Some(view_mark(m)),
            ),
            Ok(None) => marker_of(line@) == Ok::<Option<Marker>, Seq<char>>(None),
            Err(m) => marker_of(line@) == Err::<Option<Marker>, Seq<char>>(m@),
        },
{
    let colons = [':', ':', ':'];
    proof {
        reveal_strlit(":::");
        assert(colons@ == ":::"@);
    }
    if !text::has_prefix(line, &colons) {
        return Ok(None);
    }
    let (a, b) = text::trim_bounds(line, 3, line.len());
    proof {
        assert(line@.subrange(3, line.len() as int) == line@.skip(3));
    }
    let ghost rest = trim(line@.skip(3));
    assert(rest == line@.subrange(a as int, b as int));
    if a == b {
        return Ok(Some(Mark::Close));
    }
    let mut n = a;
    while n < b && (('a' <= line[n] && line[n] <= 'z') || ('A' <= line[n] && line[n] <= 'Z') || (
    '0' <= line[n] && line[n] <= '9') || line[n] == '-' || line[n] == '_')
        invariant
            a <= n <= b <= line.len(),
            forall|j: int| a <= j < n ==> name_char(#[trigger] line@[j]),
        decreases b - n,
    {
        n = n + 1;
    }
    proof {
        text::lemma_lead_is(rest, |c: char| name_char(c), n - a);
    }
    if n == a || !(('a' <= line[a] && line[a] <= 'z') || ('A' <= line[a] && line[a] <= 'Z')) {
        return Ok(None);
    }
    let name = text::copy_range(line, a, n);
    assert(name@ == rest.take(n - a));
    let (c, d) = text::trim_bounds(line, n, b);
    proof {
        assert(line@.subrange(n as int, b as int) == rest.skip(n - a));
    }
    let ghost after = trim(rest.skip(n - a));
    assert(after == line@.subrange(c as int, d as int));
    if d - c >= 2 && line[c] == '{' && line[d - 1] == '}' {
        let inner = text::copy_range(line, c + 1, d - 1);
        assert(inner@ == after.subrange(1, after.len() - 1));
        match parse_attributes(inner.as_slice()) {
            Ok(attrs) => Ok(Some(Mark::Open { name, attrs })),
            Err(m) => Err(m),
        }
    } else if c == d {
        let attrs = table::empty_table();
        Ok(Some(Mark::Open { name, attrs }))
    } else {
        Ok(None)
    }
}

/// Splits a page body into Markdown and directives.
///
/// Fails if a directive is never closed, or if its attributes are not a TOML
/// inline table.
pub fn scan(source: &str) -> (r: Result<Vec<Block>, Fault>)
    requires
        source@.len() < usize::MAX,
    ensures
        match r {
            Ok(blocks) => scan_spec(source@) == Ok::<Seq<BlockView>, FaultView>(
                view_blocks(blocks@),
            ),
            Err(f) => scan_spec(source@) == Err::<Seq<BlockView>, FaultView>(view_fault(f)),
        },
{
    let chars = text::chars_of(source);
    let ls = text::lines_of(chars.as_slice());
    let ghost lsv = lines(source@);
    proof {
        text::lemma_lines_len(source@);
    }
    assert(ls@.map_values(|l: Vec<char>| l@) =~= lsv);
    let mut below: Vec<Frame> = Vec::new();
    let mut top = Frame::root();
    let mut fence: Option<(char, usize)> = None;
    let mut index: usize = 0;
    assert(view_frames(below@).push(view_frame(top)) =~= seq![root_frame()]);
    while index < ls.len()
        invariant
            index <= ls.len(),
            lsv == lines(source@),
            ls@.len() == lsv.len(),
            forall|i: int| 0 <= i < ls@.len() ==> #[trigger] ls@[i]@ == lsv[i],
            run(lsv, index as nat) == Ok::<ScanState, FaultView>(
                ScanState {
                    frames: view_frames(below@).push(view_frame(top)),
                    fence: match fence {
                        Some((c, w)) => Some((c, w as nat)),
                        None => None,
                    },
                },
            ),
            top.open is None <==> below@.len() == 0,
            forall|i: int|
                0 <= i < below@.len() ==> ((#[trigger] below@[i]).open is None <==> i == 0),
            ls@.len() <= source@.len() < usize::MAX,
        decreases ls.len() - index,
    {
        let line = ls[index].clone();
        let number = index + 1;
        let ghost st = ScanState {
            frames: view_frames(below@).push(view_frame(top)),
            fence: match fence {
                Some((c, w)) => Some((c, w as nat)),
                None => None,
            },
        };
        assert(lsv[number - 1] == line@);
        let ghost old_below = below@;
        let ghost old_top = top;
        match fence {
            Some((marker, width)) => {
                if fence_closed(line.as_slice(), marker, width) {
                    fence = None;
                }
                top.push(line, number);
                assert(view_frames(below@).push(view_frame(top)) =~= push_top(
                    st,
                    lsv[number - 1],
                    number as nat,
                ));
            },
            None => {
                match fence_opened(line.as_slice()) {
                    Some((c, w)) => {
                        fence = Some((c, w));
                        top.push(line, number);
                        assert(view_frames(below@).push(view_frame(top)) =~= push_top(
                            st,
                            lsv[number - 1],
                            number as nat,
                        ));
                    },
                    None => {
                        match directive_line(line.as_slice()) {
                            Err(message) => {
                                proof {
                                    assert(step(st, lsv[index as int], number as nat) == Err::<
                                        ScanState,
                                        FaultView,
                                    >(FaultView { line: number as nat, message: message@ }));
                                    assert(run(lsv, number as nat) is Err);
                                    lemma_run_err(lsv, number as nat, lsv.len());
                                    assert(run(lsv, lsv.len()) == Err::<ScanState, FaultView>(
                                        FaultView { line: number as nat, message: message@ },
                                    ));
                                    assert(scan_spec(source@) == Err::<Seq<BlockView>, FaultView>(
                                        FaultView { line: number as nat, message: message@ },
                                    ));
                                }
                                return Err(Fault::at(number, message));
                            },
                            Ok(Some(Mark::Open { name, attrs })) => {
                                let name_s = text::string_of(name.as_slice());
                                top.flush();
                                let ghost flushed = view_frame(top);
                                below.push(top);
                                top = Frame {
                                    open: Some((number, name_s, attrs)),
                                    blocks: Vec::new(),
                                    text: Vec::new(),
                                    text_line: number + 1,
                                };
                                proof {
                                    assert(view_frame(top).text =~= Seq::<Seq<char>>::empty());
                                    assert(view_blocks(top.blocks@) =~= Seq::<BlockView>::empty());
                                    assert(view_frames(below@) =~= view_frames(old_below).push(
                                        flushed,
                                    ));
                                    assert(view_frames(below@).push(view_frame(top)) =~= st.frames.update(
                                        st.frames.len() - 1,
                                        flush(st.frames.last()),
                                    ).push(view_frame(top)));
                                }
                            },
                            Ok(Some(Mark::Close)) => {
                                if below.len() > 0 {
                                    let mut frame = top;
                                    frame.flush();
                                    let ghost closed = view_frame(frame);
                                    top = below.pop().unwrap();
                                    let ghost parent = view_frame(top);
                                    let (line_at, name, attrs) = frame.open.unwrap();
                                    let b = Block::Directive {
                                        line: line_at,
                                        name,
                                        attrs,
                                        body: frame.blocks,
                                    };
                                    proof {
                                        lemma_view_blocks_push(top.blocks@, b);
                                    }
                                    top.blocks.push(b);
                                    proof {
                                        assert(closed == flush(st.frames.last()));
                                        assert(view_frames(below@) =~= view_frames(old_below).drop_last());
                                        assert(parent == view_frames(old_below).last());
                                        let (l0, n0, a0) = closed.open->0;
                                        assert(view_frame(top) == FrameView {
                                            blocks: parent.blocks.push(
                                                BlockView::Directive {
                                                    line: l0,
                                                    name: n0,
                                                    attrs: a0,
                                                    body: closed.blocks,
                                                },
                                            ),
                                            ..parent
                                        });
                                        assert(st.frames.drop_last() =~= view_frames(old_below));
                                        assert(view_frames(below@).push(view_frame(top)) =~= view_frames(
                                            old_below,
                                        ).update(old_below.len() - 1, view_frame(top)));
                                    }
                                } else {
                                    top.push(line, number);
                                    assert(view_frames(below@).push(view_frame(top)) =~= push_top(
                                        st,
                                        lsv[number - 1],
                                        number as nat,
                                    ));
                                }
                            },
                            Ok(None) => {
                                top.push(line, number);
                                assert(view_frames(below@).push(view_frame(top)) =~= push_top(
                                    st,
                                    lsv[number - 1],
                                    number as nat,
                                ));
                            },
                        }
                    },
                }
            },
        }
        index = index + 1;
    }
    if below.len() > 0 {
        let (line, name, _) = top.open.unwrap();
        let mut message = String::from_str("unterminated directive `");
        message.append(name.as_str());
        message.append("`");
        return Err(Fault::at(line, message));
    }
    top.flush();
    Ok(top.blocks)
}

// ------------------------------------------------------------------ registry

/// A name in backquotes, as messages quote names.
pub open spec fn quoted_name(n: Seq<char>) -> Seq<char> {
    seq!['`'] + n + seq!['`']
}

/// What a page is told when it uses a directive nobody registered: the
/// names that do exist, or that there are none.
pub open spec fn unknown_message(names: Seq<Seq<char>>, name: Seq<char>) -> Seq<char> {
    if names.len() == 0 {
        "unknown directive "@ + quoted_name(name) + "; this design system has none"@
    } else {
        "unknown directive "@ + quoted_name(name) + ", expected one of "@ + join(
            names.map_values(|n: Seq<char>| quoted_name(n)),
            ", "@,
        )
    }
}

/// The message for a directive called `name` when the design system
/// registers `names`, in the order given.
pub fn unknown(names: &[String], name: &str) -> (r: String)
    ensures
        r@ == unknown_message(text::texts(names@), name@),
{
    let head = "unknown directive ";
    let none = "; this design system has none";
    let expected = ", expected one of ";
    let sep = ", ";
    proof {
        reveal_strlit("unknown directive ");
        reveal_strlit("; this design system has none");
        reveal_strlit(", expected one of ");
        reveal_strlit(", ");
    }
    let mut out = String::from_str(head);
    text::push_char(&mut out, '`');
    out.append(name);
    text::push_char(&mut out, '`');
    if names.len() == 0 {
        out.append(none);
        assert(out@ =~= unknown_message(text::texts(names@), name@));
        return out;
    }
    out.append(expected);
    let ghost start = out@;
    let ghost quoted = text::texts(names@).map_values(|n: Seq<char>| quoted_name(n));
    let mut i: usize = 0;
    while i < names.len()
        invariant
            i <= names.len(),
            quoted == text::texts(names@).map_values(|n: Seq<char>| quoted_name(n)),
            out@ == start + join(quoted.take(i as int), sep@),
            sep@ == ", "@,
        decreases names.len() - i,
    {
        let ghost before = out@;
        if i > 0 {
            out.append(sep);
        }
        text::push_char(&mut out, '`');
        out.append(names[i].as_str());
        text::push_char(&mut out, '`');
        proof {
            let q = quoted.take(i + 1);
            assert(q.drop_last() =~= quoted.take(i as int));
            assert(q.last() == quoted_name(names@[i as int]@));
            if i == 0 {
                assert(join(q, sep@) == q[0]);
            }
            assert(out@ =~= start + join(q, sep@));
        }
        i = i + 1;
    }
    assert(quoted.take(names.len() as int) =~= quoted);
    assert(out@ =~= unknown_message(text::texts(names@), name@));
    out
}

} // verus!
