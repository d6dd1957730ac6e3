//! OpenGraph cards, drawn from a design system's own tokens.
//!
//! A link to a page shared anywhere renders as a grey rectangle without a
//! card.  This module lays the card out as SVG: the title broken into lines
//! that fit, at the largest size that lets them, bottom-aligned so a
//! one-line title and a three-line one share an edge.

use vstd::prelude::*;

use crate::feed::{escape, xml_escaped};
use crate::search::{words, words_of};
use crate::text::{self, byte_len, concat, digits};

verus! {

broadcast use vstd::string::group_string_axioms;

/// The width every social platform expects.
pub const WIDTH: u32 = 1200;

/// The height that goes with it.
pub const HEIGHT: u32 = 630;

/// The colours a card is drawn in, which come from the design system's
/// tokens rather than from here.
#[derive(Debug, Clone, Copy, PartialEq, Eq, Hash)]
pub struct Palette<'a> {
    /// The card's background.
    pub background: &'a str,
    /// The page title.
    pub foreground: &'a str,
    /// The site title, and anything secondary.
    pub muted: &'a str,
    /// The rule down the side.
    pub accent: &'a str,
}

/// What a card says.
#[derive(Debug, Clone, Copy, PartialEq, Eq)]
pub struct Card<'a> {
    /// The page's title, which is the point of the card.
    pub title: &'a str,
    /// The site's title, smaller, above it.
    pub site: &'a str,
    /// The colours.
    pub palette: Palette<'a>,
}

// ------------------------------------------------------------------ wrapping

/// Wrapping after one more word: the line so far is set down first if the
/// word would take it past `per_line` bytes.
pub open spec fn wrap_step(
    state: (Seq<Seq<char>>, Seq<char>),
    w: Seq<char>,
    per_line: nat,
) -> (Seq<Seq<char>>, Seq<char>) {
    let (lines, cur) = state;
    let would_be = if cur.len() == 0 {
        byte_len(w)
    } else {
        byte_len(cur) + 1 + byte_len(w)
    };
    let (kept, open) = if cur.len() > 0 && would_be > per_line {
        (lines.push(cur), Seq::<char>::empty())
    } else {
        (lines, cur)
    };
    (
        kept,
        if open.len() > 0 {
            open.push(' ') + w
        } else {
            w
        },
    )
}

/// The lines set down, and the line being built, after the words `ws`.
pub open spec fn wrap_fold(ws: Seq<Seq<char>>, per_line: nat) -> (Seq<Seq<char>>, Seq<char>)
    decreases ws.len(),
{
    if ws.len() == 0 {
        (Seq::empty(), Seq::empty())
    } else {
        wrap_step(wrap_fold(ws.drop_last(), per_line), ws.last(), per_line)
    }
}

/// Greedy word wrapping: words in order, a line broken before a word that
/// would take it past `per_line` bytes, a word longer than a line left whole
/// on a line of its own, and at least one line, empty if there are no words.
pub open spec fn wrap_spec(text: Seq<char>, per_line: nat) -> Seq<Seq<char>> {
    let (lines, cur) = wrap_fold(words(text), per_line);
    let all = if cur.len() > 0 {
        lines.push(cur)
    } else {
        lines
    };
    if all.len() == 0 {
        seq![Seq::empty()]
    } else {
        all
    }
}

proof fn lemma_words_short(s: Seq<char>)
    ensures
        forall|j: int| 0 <= j < words(s).len() ==> #[trigger] words(s)[j].len() <= s.len(),
    decreases s.len(),
{
    if s.len() > 0 {
        lemma_words_short(s.drop_last());
        let w = words(s.drop_last());
        assert forall|j: int| 0 <= j < words(s).len() implies #[trigger] words(s)[j].len() <= s.len() by {
            if j < w.len() {
                assert(w[j].len() <= s.drop_last().len());
            }
        }
    }
}

/// Greedy word wrapping.
pub fn wrap(text: &str, per_line: usize) -> (lines: Vec<String>)
    requires
        text@.len() <= usize::MAX / 4,
    ensures
        text::texts(lines@) == wrap_spec(text@, per_line as nat),
{
    let chars = text::chars_of(text);
    let ws = words_of(chars.as_slice());
    let ghost wv = words(text@);
    assert(ws@.map_values(|w: Vec<char>| w@) == wv);
    proof {
        lemma_words_short(text@);
    }
    let mut lines: Vec<String> = Vec::new();
    let mut current: Vec<char> = Vec::new();
    let mut cur_bytes: usize = 0;
    let mut i: usize = 0;
    assert(wv.take(0) =~= Seq::<Seq<char>>::empty());
    while i < ws.len()
        invariant
            i <= ws.len(),
            wv == words(text@),
            ws@.map_values(|w: Vec<char>| w@) == wv,
            text@.len() <= usize::MAX / 4,
            forall|j: int| 0 <= j < wv.len() ==> #[trigger] wv[j].len() <= text@.len(),
            (text::texts(lines@), current@) == wrap_fold(wv.take(i as int), per_line as nat),
            cur_bytes == byte_len(current@),
        decreases ws.len() - i,
    {
        let w = ws[i].as_slice();
        assert(w@ == wv[i as int]);
        proof {
            assert(wv.take(i + 1).drop_last() =~= wv.take(i as int));
            assert(wv.take(i + 1).last() == wv[i as int]);
        }
        let wb = text::bytes_of(w);
        let ghost state = (text::texts(lines@), current@);
        let exceed = current.len() > 0 && !(cur_bytes < per_line && wb <= per_line - cur_bytes - 1);
        if exceed {
            let line = text::string_of(current.as_slice());
            let ghost before = text::texts(lines@);
            lines.push(line);
            assert(text::texts(lines@) =~= before.push(state.1));
            current = Vec::new();
            cur_bytes = 0;
        }
        if current.len() > 0 {
            let ghost c0 = current@;
            current.push(' ');
            text::extend_vec(&mut current, w);
            proof {
                text::lemma_byte_len_add(c0, seq![' ']);
                text::lemma_byte_len_add(c0.push(' '), w@);
                assert(c0 + seq![' '] =~= c0.push(' '));
                assert(byte_len(seq![' ']) == 1) by {
                    assert(seq![' '].drop_last() =~= Seq::<char>::empty());
                    assert(seq![' '].last() == ' ');
                    assert(byte_len(Seq::<char>::empty()) == 0);
                    assert(text::utf8_len(' ') == 1);
                }
            }
            cur_bytes = cur_bytes + 1 + wb;
        } else {
            text::extend_vec(&mut current, w);
            assert(current@ =~= w@);
            cur_bytes = wb;
        }
        assert((text::texts(lines@), current@) == wrap_step(state, w@, per_line as nat));
        i = i + 1;
    }
    assert(wv.take(ws.len() as int) =~= wv);
    if current.len() > 0 {
        let line = text::string_of(current.as_slice());
        lines.push(line);
    }
    if lines.len() == 0 {
        lines.push(String::new());
    }
    lines
}

// ------------------------------------------------------------------ fitting

/// A title, broken into lines that fit, at a size that lets them.
#[derive(Debug, PartialEq, Eq)]
pub struct Fitted {
    /// The lines, in order.
    pub lines: Vec<String>,
    /// The font size, in pixels.
    pub size: u32,
    /// The distance between baselines, in pixels.
    pub leading: i32,
}

/// How many bytes of title fit on a line at `size`: the usable width of
/// 990 pixels over an average advance of 0.55 of the size per character,
/// rounded down.
pub open spec fn per_line_of(size: nat) -> nat {
    99000nat / (size * 55)
}

/// The distance between baselines at `size`: 1.2 times the size, rounded
/// down.
pub open spec fn leading_of(size: nat) -> nat {
    size * 12 / 10
}

/// The first `limit` lines, the last of them marked as cut with an
/// ellipsis.
pub open spec fn cut(lines: Seq<Seq<char>>, limit: nat) -> Seq<Seq<char>> {
    let t = lines.take(limit as int);
    t.update(limit - 1, t[limit - 1].push('…'))
}

/// The lines and size a title is set in: the largest of 76, 62 and 50
/// pixels at which it takes no more than 2, 3 or 4 lines, and otherwise 50
/// pixels with the title cut after four lines.
pub open spec fn fit_spec(title: Seq<char>) -> (Seq<Seq<char>>, nat) {
    let a = wrap_spec(title, per_line_of(76));
    if a.len() <= 2 {
        (a, 76)
    } else {
        let b = wrap_spec(title, per_line_of(62));
        if b.len() <= 3 {
            (b, 62)
        } else {
            let c = wrap_spec(title, per_line_of(50));
            if c.len() <= 4 {
                (c, 50)
            } else {
                (cut(c, 4), 50)
            }
        }
    }
}

/// Wrapping always gives at least one line.
pub proof fn lemma_wrap_nonempty(text: Seq<char>, per_line: nat)
    ensures
        wrap_spec(text, per_line).len() >= 1,
{
}

/// The lines a wrap has produced so far: those set down, and the one being
/// built if it has anything in it.
spec fn lines_so_far(state: (Seq<Seq<char>>, Seq<char>)) -> Seq<Seq<char>> {
    if state.1.len() > 0 {
        state.0.push(state.1)
    } else {
        state.0
    }
}

proof fn lemma_words_nonempty(s: Seq<char>)
    ensures
        forall|j: int| 0 <= j < words(s).len() ==> #[trigger] words(s)[j].len() > 0,
    decreases s.len(),
{
    if s.len() > 0 {
        lemma_words_nonempty(s.drop_last());
        let w = words(s.drop_last());
        assert forall|j: int| 0 <= j < words(s).len() implies #[trigger] words(s)[j].len() > 0 by {
            if j < w.len() {
                assert(w[j].len() > 0);
            }
        }
    }
}

proof fn lemma_join_push(s: Seq<Seq<char>>, x: Seq<char>, sep: Seq<char>)
    ensures
        text::join(s.push(x), sep) == if s.len() == 0 {
            x
        } else {
            text::join(s, sep) + sep + x
        },
{
    if s.len() > 0 {
        assert(s.push(x).drop_last() =~= s);
    }
}

proof fn lemma_wrap_fold_joins(ws: Seq<Seq<char>>, per_line: nat)
    requires
        forall|j: int| 0 <= j < ws.len() ==> #[trigger] ws[j].len() > 0,
    ensures
        text::join(lines_so_far(wrap_fold(ws, per_line)), seq![' ']) == text::join(ws, seq![' ']),
        ws.len() == 0 ==> wrap_fold(ws, per_line).0.len() == 0 && wrap_fold(ws, per_line).1.len() == 0,
        ws.len() > 0 ==> wrap_fold(ws, per_line).1.len() > 0,
    decreases ws.len(),
{
    let sp = seq![' '];
    if ws.len() > 0 {
        let init = ws.drop_last();
        assert forall|j: int| 0 <= j < init.len() implies #[trigger] init[j].len() > 0 by {
            assert(init[j] == ws[j]);
        }
        lemma_wrap_fold_joins(init, per_line);
        let (lines, cur) = wrap_fold(init, per_line);
        let w = ws.last();
        assert(w.len() > 0);
        lemma_join_push(init, w, sp);
        let would_be = if cur.len() == 0 {
            byte_len(w)
        } else {
            byte_len(cur) + 1 + byte_len(w)
        };
        if cur.len() == 0 {
            assert(init.len() == 0);
            lemma_join_push(lines, w, sp);
        } else if would_be > per_line {
            lemma_join_push(lines, cur, sp);
            lemma_join_push(lines.push(cur), w, sp);
        } else {
            lemma_join_push(lines, cur, sp);
            lemma_join_push(lines, cur.push(' ') + w, sp);
            if lines.len() == 0 {
                assert(cur.push(' ') + w =~= cur + sp + w);
            } else {
                assert(text::join(lines, sp) + sp + (cur.push(' ') + w) =~= text::join(lines, sp) + sp + cur + sp + w);
            }
        }
    }
}

/// Wrapping never splits, drops or reorders a word: the lines, joined by
/// single spaces, are the title's words joined by single spaces.
pub proof fn lemma_wrap_keeps_words(text: Seq<char>, per_line: nat)
    ensures
        text::join(wrap_spec(text, per_line), seq![' ']) == text::join(words(text), seq![' ']),
{
    lemma_words_nonempty(text);
    lemma_wrap_fold_joins(words(text), per_line);
}

/// A fitted title has between one and four lines.
pub proof fn lemma_fit_lines(title: Seq<char>)
    ensures
        1 <= fit_spec(title).0.len() <= 4,
        fit_spec(title).1 == 76 ==> fit_spec(title).0.len() <= 2,
        fit_spec(title).1 == 62 ==> fit_spec(title).0.len() <= 3,
        fit_spec(title).1 == 76 || fit_spec(title).1 == 62 || fit_spec(title).1 == 50,
{
    lemma_wrap_nonempty(title, per_line_of(76));
    lemma_wrap_nonempty(title, per_line_of(62));
    lemma_wrap_nonempty(title, per_line_of(50));
}

/// Breaks a title into lines, shrinking the type until it fits.
///
/// The width is estimated from the byte count rather than measured, and the
/// estimate is deliberately cautious, so a title breaks early rather than
/// running off the edge.
pub fn fit(title: &str) -> (f: Fitted)
    requires
        title@.len() <= usize::MAX / 4,
    ensures
        text::texts(f.lines@) == fit_spec(title@).0,
        f.size == fit_spec(title@).1,
        f.leading == leading_of(f.size as nat),
        1 <= f.lines@.len() <= 4,
{
    proof {
        lemma_fit_lines(title@);
    }
    let a = wrap(title, 99000 / (76 * 55));
    if a.len() <= 2 {
        return Fitted { lines: a, size: 76, leading: 76 * 12 / 10 };
    }
    let b = wrap(title, 99000 / (62 * 55));
    if b.len() <= 3 {
        return Fitted { lines: b, size: 62, leading: 62 * 12 / 10 };
    }
    let mut c = wrap(title, 99000 / (50 * 55));
    if c.len() <= 4 {
        return Fitted { lines: c, size: 50, leading: 50 * 12 / 10 };
    }
    c.truncate(4);
    let mut last = c.pop().unwrap();
    let ghost cv = text::texts(c@);
    text::push_char(&mut last, '…');
    c.push(last);
    assert(text::texts(c@) =~= cut(wrap_spec(title@, per_line_of(50)), 4));
    Fitted { lines: c, size: 50, leading: 50 * 12 / 10 }
}

// ------------------------------------------------------------------ drawing

/// Everything on a card but the title's lines.
pub open spec fn svg_head(card: Card) -> Seq<char> {
    "<svg xmlns=\"http://www.w3.org/2000/svg\" width=\"1200\" height=\"630\" viewBox=\"0 0 1200 630\"><rect width=\"1200\" height=\"630\" fill=\""@
        + card.palette.background@
        + "\"/><rect x=\"0\" y=\"0\" width=\"12\" height=\"630\" fill=\""@ + card.palette.accent@
        + "\"/><text x=\"96\" y=\"120\" font-family=\"Public Sans\" font-size=\"26\" fill=\""@
        + card.palette.muted@ + "\" letter-spacing=\"3\">"@ + xml_escaped(card.site@)
        + "</text><rect x=\"96\" y=\"552\" width=\"64\" height=\"5\" fill=\""@ + card.palette.accent@
        + "\"/>"@
}

/// One line of the title, with its baseline at `y`.
pub open spec fn title_line(y: nat, size: nat, fill: Seq<char>, line: Seq<char>) -> Seq<char> {
    "<text x=\"96\" y=\""@ + digits(y) + "\" font-family=\"Public Sans\" font-size=\""@ + digits(size)
        + "\" font-weight=\"bold\" fill=\""@ + fill + "\">"@ + xml_escaped(line) + "</text>"@
}

/// The baseline of the first of `n` lines, so that the last one sits at 500
/// pixels: the block is bottom-aligned rather than centred.
pub open spec fn first_baseline(n: nat, leading: nat) -> nat {
    (500 - (n - 1) * leading) as nat
}

/// The SVG a card is.
pub open spec fn compose_spec(card: Card) -> Seq<char> {
    let (lines, size) = fit_spec(card.title@);
    let lead = leading_of(size);
    let first = first_baseline(lines.len(), lead);
    svg_head(card) + concat(
        Seq::new(
            lines.len(),
            |i: int| title_line((first + i * lead) as nat, size, card.palette.foreground@, lines[i]),
        ),
    ) + "</svg>"@
}

/// The title is set bottom-aligned: of a fitted title's `n` lines, line `i`
/// has its baseline `n - 1 - i` leadings above 500 pixels, so the last line
/// sits on 500, above the accent rule at 552 on the 630 pixel card, and the
/// first is no higher than 320.
pub proof fn lemma_title_bottom_aligned(card: Card)
    ensures
        ({
            let (lines, size) = fit_spec(card.title@);
            let lead = leading_of(size);
            let n = lines.len();
            &&& first_baseline(n, lead) + (n - 1) * lead == 500
            &&& forall|i: int| 0 <= i < n ==> 320 <= #[trigger] (500 - (n - 1 - i) * lead) <= 500
            &&& compose_spec(card) == svg_head(card) + concat(
                Seq::new(
                    n,
                    |i: int|
                        title_line(
                            (500 - (n - 1 - i) * lead) as nat,
                            size,
                            card.palette.foreground@,
                            lines[i],
                        ),
                ),
            ) + "</svg>"@
        }),
{
    lemma_fit_lines(card.title@);
    let (lines, size) = fit_spec(card.title@);
    let lead = leading_of(size);
    let n = lines.len();
    let first = first_baseline(n, lead);
    assert(size == 76 ==> lead == 91);
    assert(size == 62 ==> lead == 74);
    assert(size == 50 ==> lead == 60);
    assert((n - 1) * lead <= 180 && first + (n - 1) * lead == 500) by {
        if n == 1 {
        } else if n == 2 {
        } else if n == 3 {
        } else {
        }
    }
    assert forall|i: int| 0 <= i < n implies 320 <= #[trigger] (500 - (n - 1 - i) * lead) <= 500
        && first + i * lead == 500 - (n - 1 - i) * lead by {
        if lead == 91 {
        } else if lead == 74 {
        } else {
        }
    }
    let a = Seq::new(
        n,
        |i: int| title_line((first + i * lead) as nat, size, card.palette.foreground@, lines[i]),
    );
    let b = Seq::new(
        n,
        |i: int| title_line((500 - (n - 1 - i) * lead) as nat, size, card.palette.foreground@, lines[i]),
    );
    assert(a =~= b) by {
        assert forall|i: int| 0 <= i < n implies a[i] == b[i] by {
            assert(first + i * lead == 500 - (n - 1 - i) * lead);
        }
    }
}

/// The SVG a card is, before it is a PNG.
///
/// Public so that a design system can look at what it is about to get, and
/// so that the layout is testable without rasterising anything.
#[verifier::rlimit(30)]
pub fn compose(card: &Card) -> (svg: String)
    requires
        card.title@.len() <= usize::MAX / 4,
    ensures
        svg@ == compose_spec(*card),
{
    let title = fit(card.title);
    let n = title.lines.len();
    let lead: u64 = title.leading as u64;
    let ghost size = title.size as nat;
    assert(lead == leading_of(size));
    assert(lead <= 91);
    let first: u64 = if n == 1 {
        500
    } else if n == 2 {
        500 - lead
    } else if n == 3 {
        500 - 2 * lead
    } else {
        500 - 3 * lead
    };
    proof {
        let k = (n - 1) as int;
        assert(k * lead == if n == 1 {
            0
        } else if n == 2 {
            lead as int
        } else if n == 3 {
            2 * lead
        } else {
            3 * lead
        }) by (nonlinear_arith)
            requires
                k == n - 1,
                1 <= n <= 4,
        ;
    }
    assert(first == first_baseline(n as nat, lead as nat));
    let mut svg = String::from_str(
        "<svg xmlns=\"http://www.w3.org/2000/svg\" width=\"1200\" height=\"630\" viewBox=\"0 0 1200 630\"><rect width=\"1200\" height=\"630\" fill=\"",
    );
    svg.append(card.palette.background);
    svg.append("\"/><rect x=\"0\" y=\"0\" width=\"12\" height=\"630\" fill=\"");
    svg.append(card.palette.accent);
    svg.append("\"/><text x=\"96\" y=\"120\" font-family=\"Public Sans\" font-size=\"26\" fill=\"");
    svg.append(card.palette.muted);
    svg.append("\" letter-spacing=\"3\">");
    let site = escape(card.site);
    svg.append(site.as_str());
    svg.append("</text><rect x=\"96\" y=\"552\" width=\"64\" height=\"5\" fill=\"");
    svg.append(card.palette.accent);
    svg.append("\"/>");
    let ghost head = svg@;
    assert(head == svg_head(*card));
    let ghost lines = text::texts(title.lines@);
    let ghost f = |i: int| title_line(
        (first + i * lead) as nat,
        size,
        card.palette.foreground@,
        lines[i],
    );
    let mut y: u64 = first;
    let mut i: usize = 0;
    while i < n
        invariant
            i <= n == title.lines@.len() <= 4,
            lines == text::texts(title.lines@),
            lead <= 91,
            first <= 500,
            y == first + i * lead,
            f == (|i: int| title_line((first + i * lead) as nat, size, card.palette.foreground@, lines[i])),
            svg@ == head + concat(Seq::new(i as nat, f)),
            title.size == size,
        decreases n - i,
    {
        svg.append("<text x=\"96\" y=\"");
        text::push_decimal(&mut svg, y);
        svg.append("\" font-family=\"Public Sans\" font-size=\"");
        text::push_decimal(&mut svg, title.size as u64);
        svg.append("\" font-weight=\"bold\" fill=\"");
        svg.append(card.palette.foreground);
        svg.append("\">");
        let line = escape(title.lines[i].as_str());
        svg.append(line.as_str());
        svg.append("</text>");
        proof {
            assert(Seq::new((i + 1) as nat, f).drop_last() =~= Seq::new(i as nat, f));
            assert(Seq::new((i + 1) as nat, f).last() == f(i as int));
            assert(lines[i as int] == title.lines@[i as int]@);
        }
        assert(svg@ =~= head + concat(Seq::new((i + 1) as nat, f)));
        assert((i + 1) * lead == i * lead + lead) by (nonlinear_arith);
        assert(i * lead <= 3 * 91) by (nonlinear_arith)
            requires
                i < 4,
                lead <= 91,
        ;
        y = y + lead;
        i = i + 1;
    }
    svg.append("</svg>");
    svg
}

} // verus!
