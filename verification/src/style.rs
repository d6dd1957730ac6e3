//! Component styles, declared beside the components they style.
//!
//! The problem this solves is collision: two component crates that both
//! style `.card`, where whichever sheet loads last wins and nothing says so.
//! So a [`Style`] carries a namespace, and its CSS is written with `&`
//! standing in for the component's own class root.  That is BEM with the
//! block name factored out, and the block name namespaced in one place.

use vstd::prelude::*;

use crate::text;

verus! {

broadcast use vstd::string::group_string_axioms;

/// The prefix on every class the syntax highlighter emits.
pub const HIGHLIGHT_PREFIX: &'static str = "tok-";

/// One component's styles.
#[derive(Debug, Clone, Copy, PartialEq, Eq, PartialOrd, Ord)]
pub struct Style {
    /// A short namespace, conventionally an abbreviation of the crate that
    /// owns the component.
    pub namespace: &'static str,
    /// The component's name, unique within the namespace.
    pub name: &'static str,
    /// The CSS, with `&` standing in for the component's class root.
    pub css: &'static str,
}

/// A component's class: its namespace, a hyphen, and its name.
pub open spec fn class_of(s: Style) -> Seq<char> {
    s.namespace@ + "-"@ + s.name@
}

/// `s` with every `c` replaced by `r` (`str::replace` with a `char`).
pub open spec fn replace_char(s: Seq<char>, c: char, r: Seq<char>) -> Seq<char>
    decreases s.len(),
{
    if s.len() == 0 {
        Seq::empty()
    } else {
        replace_char(s.drop_last(), c, r) + if s.last() == c {
            r
        } else {
            seq![s.last()]
        }
    }
}

/// A style's CSS with `&` resolved to its class.
pub open spec fn rendered(s: Style) -> Seq<char> {
    replace_char(s.css@, '&', class_of(s))
}

/// `s` with every `c` replaced by `r`.
pub fn replace(s: &[char], c: char, r: &[char]) -> (out: Vec<char>)
    ensures
        out@ == replace_char(s@, c, r@),
{
    let mut out: Vec<char> = Vec::new();
    let mut i: usize = 0;
    while i < s.len()
        invariant
            i <= s.len(),
            out@ == replace_char(s@.take(i as int), c, r@),
        decreases s.len() - i,
    {
        proof {
            assert(s@.take(i + 1).drop_last() == s@.take(i as int));
            assert(s@.take(i + 1).last() == s@[i as int]);
        }
        if s[i] == c {
            text::extend_vec(&mut out, r);
        } else {
            out.push(s[i]);
            assert(out@ =~= replace_char(s@.take(i + 1), c, r@));
        }
        i = i + 1;
    }
    assert(s@.take(s.len() as int) == s@);
    out
}

/// Replacing a character by text that does not hold it removes it.
pub proof fn lemma_replace_removes(s: Seq<char>, c: char, r: Seq<char>)
    requires
        !r.contains(c),
    ensures
        !replace_char(s, c, r).contains(c),
    decreases s.len(),
{
    if s.len() > 0 {
        lemma_replace_removes(s.drop_last(), c, r);
        let a = replace_char(s.drop_last(), c, r);
        let b = if s.last() == c {
            r
        } else {
            seq![s.last()]
        };
        assert forall|j: int| 0 <= j < (a + b).len() implies (a + b)[j] != c by {
            if j < a.len() {
                assert((a + b)[j] == a[j]);
            } else {
                assert((a + b)[j] == b[j - a.len()]);
            }
        }
    }
}

impl Style {
    /// Declares a component's styles.
    pub fn new(namespace: &'static str, name: &'static str, css: &'static str) -> (s: Style)
        ensures
            s.namespace == namespace,
            s.name == name,
            s.css == css,
    {
        Style { namespace, name, css }
    }

    /// The component's own class: `cb-callout`.
    pub fn class(&self) -> (s: String)
        ensures
            s@ == class_of(*self),
    {
        let mut s = String::from_str(self.namespace);
        s.append("-");
        s.append(self.name);
        s
    }

    /// A BEM element of the component: `cb-callout__body`.
    pub fn element(&self, element: &str) -> (s: String)
        ensures
            s@ == class_of(*self) + "__"@ + element@,
    {
        let mut s = self.class();
        s.append("__");
        s.append(element);
        s
    }

    /// A BEM modifier of the component: `cb-callout--warn`.
    ///
    /// Modifiers are additional to the block class, not a replacement for
    /// it, so markup carries both.
    pub fn modifier(&self, modifier: &str) -> (s: String)
        ensures
            s@ == class_of(*self) + "--"@ + modifier@,
    {
        let mut s = self.class();
        s.append("--");
        s.append(modifier);
        s
    }

    /// The block class and one modifier, in the order a `class` attribute
    /// wants them.
    pub fn with(&self, modifier: &str) -> (s: String)
        ensures
            s@ == class_of(*self) + " "@ + class_of(*self) + "--"@ + modifier@,
    {
        let mut s = self.class();
        s.append(" ");
        let m = self.modifier(modifier);
        s.append(m.as_str());
        s
    }

    /// The CSS, with `&` resolved.
    pub fn render(&self) -> (s: String)
        ensures
            s@ == rendered(*self),
    {
        let css = text::chars_of(self.css);
        let class = self.class();
        let class_chars = text::chars_of(class.as_str());
        let out = replace(css.as_slice(), '&', class_chars.as_slice());
        text::string_of(out.as_slice())
    }
}

/// Expanding a style leaves no `&` behind, as long as its namespace and name
/// hold none.
pub proof fn lemma_render_leaves_no_ampersand(s: Style)
    requires
        !s.namespace@.contains('&'),
        !s.name@.contains('&'),
    ensures
        !rendered(s).contains('&'),
{
    reveal_strlit("-");
    let c = class_of(s);
    assert(!c.contains('&')) by {
        if c.contains('&') {
            let j = choose|j: int| 0 <= j < c.len() && c[j] == '&';
            if j < s.namespace@.len() {
                assert(s.namespace@[j] == '&');
            } else if j == s.namespace@.len() {
            } else {
                assert(s.name@[j - s.namespace@.len() - 1] == '&');
            }
        }
    }
    lemma_replace_removes(s.css@, '&', c);
}

// ------------------------------------------------------------------ sheets

/// What identifies a component: its namespace and its name together.
pub open spec fn key(s: Style) -> (Seq<char>, Seq<char>) {
    (s.namespace@, s.name@)
}

/// Some style in `v` has the key of `s`.
pub open spec fn has_style(v: Seq<Style>, s: Style) -> bool {
    exists|i: int| 0 <= i < v.len() && key(#[trigger] v[i]) == key(s)
}

/// No two styles in `v` share a key.
pub open spec fn distinct(v: Seq<Style>) -> bool {
    forall|i: int, j: int|
        0 <= i < v.len() && 0 <= j < v.len() && i != j ==> key(#[trigger] v[i]) != key(
            #[trigger] v[j],
        )
}

/// A sheet's styles once `s` is added: unchanged if a style with its key is
/// already there, and with `s` at the end otherwise.
pub open spec fn added(v: Seq<Style>, s: Style) -> Seq<Style> {
    if has_style(v, s) {
        v
    } else {
        v.push(s)
    }
}

/// A sheet's styles once each of `xs` is added, in order.
pub open spec fn extended(v: Seq<Style>, xs: Seq<Style>) -> Seq<Style>
    decreases xs.len(),
{
    if xs.len() == 0 {
        v
    } else {
        added(extended(v, xs.drop_last()), xs.last())
    }
}

/// The comment and CSS one style contributes to a sheet.
pub open spec fn labelled(s: Style) -> Seq<char> {
    "\n/* "@ + s.namespace@ + "/"@ + s.name@ + " */\n"@ + rendered(s)
}

/// A sheet's CSS: each style labelled, in order.
pub open spec fn sheet_css(v: Seq<Style>) -> Seq<char>
    decreases v.len(),
{
    if v.len() == 0 {
        Seq::empty()
    } else {
        sheet_css(v.drop_last()) + labelled(v.last())
    }
}

/// The styles a theme has composed, in declaration order and without repeats.
#[derive(Debug)]
pub struct StyleSheet {
    styles: Vec<Style>,
}

impl View for StyleSheet {
    type V = Seq<Style>;

    closed spec fn view(&self) -> Seq<Style> {
        self.styles@
    }
}

impl StyleSheet {
    /// No two styles in a sheet share a namespace and a name.
    #[verifier::type_invariant]
    spec fn well_formed(self) -> bool {
        distinct(self.styles@)
    }

    /// An empty sheet.
    pub fn new() -> (s: StyleSheet)
        ensures
            s@ == Seq::<Style>::empty(),
            distinct(s@),
    {
        StyleSheet { styles: Vec::new() }
    }

    /// Whether a style with this namespace and name is already in the sheet.
    fn holds(&self, style: &Style) -> (b: bool)
        ensures
            b == has_style(self@, *style),
    {
        let mut i: usize = 0;
        while i < self.styles.len()
            invariant
                i <= self.styles.len(),
                forall|j: int| 0 <= j < i ==> key(#[trigger] self.styles@[j]) != key(*style),
            decreases self.styles.len() - i,
        {
            let other = self.styles[i];
            if text::same_text(other.namespace, style.namespace) && text::same_text(
                other.name,
                style.name,
            ) {
                assert(key(self.styles@[i as int]) == key(*style));
                return true;
            }
            i = i + 1;
        }
        false
    }

    /// Adds a component's styles, ignoring a component already added.
    ///
    /// Deduplication is by namespace and name together, so two crates may
    /// both have a `card` and both survive.
    pub fn add(&mut self, style: Style)
        ensures
            final(self)@ == added(old(self)@, style),
            distinct(final(self)@),
    {
        proof {
            use_type_invariant(&*self);
        }
        if !self.holds(&style) {
            proof {
                let v = self.styles@.push(style);
                assert forall|i: int, j: int|
                    0 <= i < v.len() && 0 <= j < v.len() && i != j implies key(#[trigger] v[i])
                    != key(#[trigger] v[j]) by {
                    if i < v.len() - 1 && j < v.len() - 1 {
                        assert(v[i] == self.styles@[i] && v[j] == self.styles@[j]);
                    } else if i == v.len() - 1 {
                        assert(v[j] == self.styles@[j]);
                    } else {
                        assert(v[i] == self.styles@[i]);
                    }
                }
            }
            let mut styles = Vec::new();
            std::mem::swap(&mut styles, &mut self.styles);
            styles.push(style);
            self.styles = styles;
        }
    }

    /// Adds several at once.
    pub fn extend(&mut self, styles: &[Style])
        ensures
            final(self)@ == extended(old(self)@, styles@),
            distinct(final(self)@),
    {
        proof {
            use_type_invariant(&*self);
        }
        let mut i: usize = 0;
        while i < styles.len()
            invariant
                i <= styles.len(),
                self@ == extended(old(self)@, styles@.take(i as int)),
                distinct(self@),
            decreases styles.len() - i,
        {
            proof {
                assert(styles@.take(i + 1).drop_last() == styles@.take(i as int));
            }
            self.add(styles[i]);
            i = i + 1;
        }
        assert(styles@.take(styles.len() as int) == styles@);
    }

    /// The whole sheet, each component labelled with a comment so a
    /// browser's inspector says where a rule came from.
    pub fn render(&self) -> (s: String)
        ensures
            s@ == sheet_css(self@),
    {
        let mut out = String::new();
        let mut i: usize = 0;
        while i < self.styles.len()
            invariant
                i <= self.styles.len(),
                out@ == sheet_css(self.styles@.take(i as int)),
            decreases self.styles.len() - i,
        {
            let style = self.styles[i];
            proof {
                assert(self.styles@.take(i + 1).drop_last() == self.styles@.take(i as int));
            }
            out.append("\n/* ");
            out.append(style.namespace);
            out.append("/");
            out.append(style.name);
            out.append(" */\n");
            let css = style.render();
            out.append(css.as_str());
            proof {
                assert(out@ =~= sheet_css(self.styles@.take(i as int)) + labelled(style));
            }
            i = i + 1;
        }
        assert(self.styles@.take(self.styles.len() as int) == self.styles@);
        out
    }

    /// How many components are in the sheet.
    pub fn len(&self) -> (n: usize)
        ensures
            n == self@.len(),
    {
        self.styles.len()
    }

    /// Whether the sheet is empty.
    pub fn is_empty(&self) -> (b: bool)
        ensures
            b == (self@.len() == 0),
    {
        self.styles.len() == 0
    }
}

// ------------------------------------------------------------------ laws

/// A style already in a sheet stays in it as more are added.
proof fn lemma_extended_keeps(v: Seq<Style>, xs: Seq<Style>, s: Style)
    requires
        has_style(v, s),
    ensures
        has_style(extended(v, xs), s),
    decreases xs.len(),
{
    if xs.len() > 0 {
        lemma_extended_keeps(v, xs.drop_last(), s);
        let w = extended(v, xs.drop_last());
        let i = choose|i: int| 0 <= i < w.len() && key(#[trigger] w[i]) == key(s);
        assert(added(w, xs.last())[i] == w[i]);
    }
}

/// Once a list of styles is added, each of them is in the sheet.
proof fn lemma_extended_holds(v: Seq<Style>, xs: Seq<Style>, j: int)
    requires
        0 <= j < xs.len(),
    ensures
        has_style(extended(v, xs), xs[j]),
    decreases xs.len(),
{
    let w = extended(v, xs.drop_last());
    if j < xs.len() - 1 {
        lemma_extended_holds(v, xs.drop_last(), j);
        assert(xs.drop_last()[j] == xs[j]);
        let i = choose|i: int| 0 <= i < w.len() && key(#[trigger] w[i]) == key(xs[j]);
        assert(added(w, xs.last())[i] == w[i]);
    } else {
        let a = added(w, xs.last());
        if !has_style(w, xs.last()) {
            assert(key(a[a.len() - 1]) == key(xs.last()));
        }
    }
}

/// Adding styles that are all already there changes nothing.
proof fn lemma_extended_present(v: Seq<Style>, xs: Seq<Style>)
    requires
        forall|j: int| 0 <= j < xs.len() ==> has_style(v, #[trigger] xs[j]),
    ensures
        extended(v, xs) == v,
    decreases xs.len(),
{
    if xs.len() > 0 {
        assert forall|j: int| 0 <= j < xs.drop_last().len() implies has_style(
            v,
            #[trigger] xs.drop_last()[j],
        ) by {
            assert(xs.drop_last()[j] == xs[j]);
        }
        lemma_extended_present(v, xs.drop_last());
        assert(has_style(v, xs[xs.len() - 1]));
    }
}

/// A sheet is the styles it was given, and adding them twice adds them once.
pub proof fn lemma_extend_twice(v: Seq<Style>, xs: Seq<Style>)
    ensures
        extended(extended(v, xs), xs) == extended(v, xs),
{
    let w = extended(v, xs);
    assert forall|j: int| 0 <= j < xs.len() implies has_style(w, #[trigger] xs[j]) by {
        lemma_extended_holds(v, xs, j);
    }
    lemma_extended_present(w, xs);
}

/// Styles with distinct namespaces and names, none already in the sheet, all
/// land in it, in order.
pub proof fn lemma_extend_distinct(v: Seq<Style>, xs: Seq<Style>)
    requires
        distinct(xs),
        forall|j: int| 0 <= j < xs.len() ==> !has_style(v, #[trigger] xs[j]),
    ensures
        extended(v, xs) == v + xs,
    decreases xs.len(),
{
    if xs.len() > 0 {
        let p = xs.drop_last();
        assert forall|i: int, j: int|
            0 <= i < p.len() && 0 <= j < p.len() && i != j implies key(#[trigger] p[i]) != key(
            #[trigger] p[j],
        ) by {
            assert(p[i] == xs[i] && p[j] == xs[j]);
        }
        assert forall|j: int| 0 <= j < p.len() implies !has_style(v, #[trigger] p[j]) by {
            assert(p[j] == xs[j]);
        }
        lemma_extend_distinct(v, p);
        let s = xs.last();
        assert(!has_style(v + p, s)) by {
            if has_style(v + p, s) {
                let i = choose|i: int| 0 <= i < (v + p).len() && key(#[trigger] (v + p)[i]) == key(s);
                if i < v.len() {
                    assert((v + p)[i] == v[i]);
                    assert(has_style(v, xs[xs.len() - 1]));
                } else {
                    assert((v + p)[i] == xs[i - v.len()]);
                }
            }
        }
        assert((v + p).push(s) =~= v + xs);
    }
}

} // verus!
