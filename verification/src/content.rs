//! Typed content collections.
//!
//! A collection is a directory of Markdown files whose `+++` frontmatter
//! deserializes into a type the site chose.  This module holds what a
//! collection is once loaded, and how a file comes apart into frontmatter
//! and body, with the line the body starts on.

use vstd::prelude::*;

use crate::error::Error;
use crate::markdown::Heading;
use crate::sorting::{self, in_order, sort_stably, strict_order};
use crate::text::{self, before, count_of, find, starts_with, strictly_sorted, texts};

verus! {

broadcast use vstd::string::group_string_axioms;

/// One content file, with its frontmatter deserialized.
#[derive(Debug, Clone)]
pub struct Entry<T> {
    /// The deserialized frontmatter.
    pub meta: T,
    /// The site-relative route; the empty string is the site root.
    pub route: String,
    /// The file this entry was read from, for diagnostics.
    pub path: String,
    /// The body, rendered to HTML.
    pub html: String,
    /// Every heading in the body, in document order.
    pub headings: Vec<Heading>,
}

/// The ids of some headings, in order.
pub open spec fn heading_ids(hs: Seq<Heading>) -> Seq<Seq<char>> {
    hs.map_values(|h: Heading| h.id@)
}

impl<T> Entry<T> {
    /// The ids of every heading in the body, as a set: sorted, each once.
    pub fn anchors(&self) -> (r: Vec<String>)
        ensures
            strictly_sorted(texts(r@)),
            forall|x: Seq<char>| texts(r@).contains(x) <==> heading_ids(self.headings@).contains(x),
    {
        let mut ids: Vec<String> = Vec::new();
        let mut i: usize = 0;
        while i < self.headings.len()
            invariant
                i <= self.headings.len(),
                texts(ids@) == heading_ids(self.headings@).take(i as int),
            decreases self.headings.len() - i,
        {
            let ghost before = texts(ids@);
            ids.push(self.headings[i].id.clone());
            assert(texts(ids@) =~= before.push(self.headings@[i as int].id@));
            assert(heading_ids(self.headings@).take(i + 1) =~= heading_ids(self.headings@).take(
                i as int,
            ).push(self.headings@[i as int].id@));
            i = i + 1;
        }
        assert(heading_ids(self.headings@).take(self.headings.len() as int) =~= heading_ids(
            self.headings@,
        ));
        text::sorted_set(ids.as_slice())
    }
}

/// The routes of some entries, in order.
pub open spec fn routes_of<T>(es: Seq<Entry<T>>) -> Seq<Seq<char>> {
    es.map_values(|e: Entry<T>| e.route@)
}

/// Every entry in one content directory, in route order.
#[derive(Debug, Clone)]
pub struct Collection<T> {
    entries: Vec<Entry<T>>,
}

impl<T> View for Collection<T> {
    type V = Seq<Entry<T>>;

    closed spec fn view(&self) -> Seq<Entry<T>> {
        self.entries@
    }
}

/// The order of a collection: by route, as `str` orders them.
pub open spec fn route_lt<T>() -> spec_fn(Entry<T>, Entry<T>) -> bool {
    |a: Entry<T>, b: Entry<T>| before(a.route@, b.route@)
}

/// Ordering by route is a strict weak order.
pub proof fn lemma_route_order<T>()
    ensures
        strict_order(route_lt::<T>()),
{
    assert forall|a: Entry<T>| !#[trigger] route_lt::<T>()(a, a) by {
        text::lemma_before_irreflexive(a.route@);
    }
    assert forall|a: Entry<T>, b: Entry<T>, c: Entry<T>|
        #[trigger] route_lt::<T>()(a, b) && #[trigger] route_lt::<T>()(b, c) implies route_lt::<T>()(a, c) by {
        text::lemma_before_transitive(a.route@, b.route@, c.route@);
    }
}

impl<T> Collection<T> {
    /// A collection of these entries, sorted by route, so that a build is
    /// reproducible whatever order the filesystem handed the files over in.
    /// Entries with the same route keep the order they were given in.
    pub fn new(entries: Vec<Entry<T>>) -> (c: Collection<T>)
        ensures
            c@ == sort_stably(entries@, route_lt::<T>()),
            in_order(c@, route_lt::<T>()),
            c@.to_multiset() == entries@.to_multiset(),
    {
        let ghost lt = route_lt::<T>();
        let ghost given = entries@;
        let mut rest = entries;
        let mut out: Vec<Entry<T>> = Vec::new();
        assert(given.skip(0) =~= given);
        assert(given.take(0) =~= Seq::<Entry<T>>::empty());
        while rest.len() > 0
            invariant
                lt == route_lt::<T>(),
                rest.len() <= given.len(),
                rest@ == given.skip(given.len() - rest.len()),
                out@ == sort_stably(given.take(given.len() - rest.len()), lt),
            decreases rest.len(),
        {
            let ghost k = given.len() - rest.len();
            let ghost before_rest = rest@;
            let e = rest.remove(0);
            assert(e == given[k]);
            assert(rest@ =~= given.skip(k + 1));
            let ghost done = out@;
            let key = text::chars_of(e.route.as_str());
            let ghost kv = e.route@;
            let mut i: usize = 0;
            loop
                invariant
                    i <= out.len(),
                    out@ == done,
                    key@ == kv,
                    kv == e.route@,
                    lt == route_lt::<T>(),
                    forall|j: int| 0 <= j < i ==> !lt(e, #[trigger] done[j]),
                ensures
                    i <= out.len(),
                    forall|j: int| 0 <= j < i ==> !lt(e, #[trigger] done[j]),
                    i == out.len() || lt(e, done[i as int]),
                decreases out.len() - i,
            {
                if i == out.len() {
                    break;
                }
                let a = text::chars_of(out[i].route.as_str());
                match text::rank(a.as_slice(), key.as_slice()) {
                    text::Rank::Above => {
                        break;
                    },
                    text::Rank::Same => {
                        proof {
                            text::lemma_before_irreflexive(kv);
                        }
                        i = i + 1;
                    },
                    text::Rank::Below => {
                        proof {
                            text::lemma_before_asymmetric(a@, kv);
                        }
                        i = i + 1;
                    },
                }
            }
            proof {
                sorting::lemma_insert_at(done, e, lt, i as int);
                assert(given.take(k + 1).drop_last() =~= given.take(k));
                assert(given.take(k + 1).last() == e);
            }
            out.insert(i, e);
            assert(out@ =~= done.take(i as int).push(e) + done.skip(i as int));
        }
        assert(given.take(given.len() as int) =~= given);
        proof {
            lemma_route_order::<T>();
            sorting::lemma_sort_stably(given, lt);
        }
        Collection { entries: out }
    }

    /// The entries, in route order.
    pub fn entries(&self) -> (r: &[Entry<T>])
        ensures
            r@ == self@,
    {
        self.entries.as_slice()
    }

    /// The number of entries.
    pub fn len(&self) -> (n: usize)
        ensures
            n == self@.len(),
    {
        self.entries.len()
    }

    /// Whether the collection is empty.
    pub fn is_empty(&self) -> (b: bool)
        ensures
            b == (self@.len() == 0),
    {
        self.entries.len() == 0
    }
}

// ------------------------------------------------------------------ splitting

/// Why a file has no frontmatter to split off.
pub enum Unsplit {
    /// It does not open with `+++` on a line of its own.
    Missing,
    /// It opens a block that never closes.
    Unterminated,
}

/// How a content file comes apart: the frontmatter between the opening
/// `+++` line and the next line that begins with `+++`; the body after that
/// line, without the blank lines that begin it; and the line of the file the
/// body starts on.
pub open spec fn split_spec(text: Seq<char>) -> Result<(Seq<char>, Seq<char>, nat), Unsplit> {
    if !starts_with(text, "+++"@) {
        Err(Unsplit::Missing)
    } else {
        let r0 = text.skip(3);
        let rest = if starts_with(r0, seq!['\n']) {
            Some(r0.skip(1))
        } else if starts_with(r0, seq!['\r', '\n']) {
            Some(r0.skip(2))
        } else {
            None
        };
        match rest {
            None => Err(Unsplit::Missing),
            Some(rest) => match find(rest, seq!['\n', '+', '+', '+']) {
                None => Err(Unsplit::Unterminated),
                Some(end) => {
                    let body = text::trim_start_by(rest.skip(end + 4), |c: char| c == '\r' || c == '\n');
                    Ok((rest.take(end), body, count_of(text.take(text.len() - body.len()), '\n') + 1))
                },
            },
        }
    }
}

/// Where the frontmatter starts: after an opening `+++` and its line
/// ending, if the file has them.
fn opening(s: &[char]) -> (r: Option<usize>)
    ensures
        match r {
            Some(start) => starts_with(s@, "+++"@) && 4 <= start <= 5 && start <= s.len() && (if starts_with(
                s@.skip(3),
                seq!['\n'],
            ) {
                start == 4
            } else {
                starts_with(s@.skip(3), seq!['\r', '\n']) && start == 5
            }),
            None => !starts_with(s@, "+++"@) || (!starts_with(s@.skip(3), seq!['\n'])
                && !starts_with(s@.skip(3), seq!['\r', '\n'])),
        },
{
    let fence = ['+', '+', '+'];
    proof {
        reveal_strlit("+++");
        assert(fence@ =~= "+++"@);
    }
    if !text::has_prefix(s, &fence) {
        return None;
    }
    let ghost r0 = s@.skip(3);
    if s.len() > 3 && s[3] == '\n' {
        assert(r0.take(1) =~= seq!['\n']);
        Some(4)
    } else if s.len() > 4 && s[3] == '\r' && s[4] == '\n' {
        assert(r0.take(2) =~= seq!['\r', '\n']);
        assert(!(r0.take(1) =~= seq!['\n']));
        Some(5)
    } else {
        proof {
            if starts_with(r0, seq!['\n']) {
                assert(r0.take(1)[0] == s@[3]);
            }
            if starts_with(r0, seq!['\r', '\n']) {
                assert(r0.take(2)[0] == s@[3] && r0.take(2)[1] == s@[4]);
            }
        }
        None
    }
}

/// Where the closing `\n+++` is, counted from `start`.
fn closing(s: &[char], start: usize) -> (r: Option<usize>)
    requires
        start <= s.len(),
    ensures
        match r {
            Some(end) => start <= end && end + 4 <= s.len() && find(s@.skip(start as int), seq!['\n', '+', '+', '+'])
                == Some((end - start) as int),
            None => find(s@.skip(start as int), seq!['\n', '+', '+', '+']) is None,
        },
{
    let ghost rest = s@.skip(start as int);
    let close = ['\n', '+', '+', '+'];
    assert(close@ =~= seq!['\n', '+', '+', '+']);
    let found = text::find_in(s, &close, start);
    proof {
        text::lemma_find_from(s@, close@, start as int);
        text::lemma_find_from(rest, close@, 0);
        assert forall|j: int| 0 <= j implies text::occurs_at(rest, close@, j) == text::occurs_at(
            s@,
            close@,
            start + j,
        ) by {
            if j + 4 <= rest.len() {
                assert(rest.subrange(j, j + 4) =~= s@.subrange(start + j, start + j + 4));
            }
        }
    }
    match found {
        None => {
            proof {
                if let Some(e) = find(rest, close@) {
                    assert(text::occurs_at(s@, close@, start + e));
                }
            }
            None
        },
        Some(end) => {
            proof {
                assert(text::occurs_at(rest, close@, end - start));
                match find(rest, close@) {
                    Some(e) => {
                        if e < end - start {
                            assert(text::occurs_at(s@, close@, start + e));
                        }
                    },
                    None => {},
                }
            }
            Some(end)
        },
    }
}

/// How many newlines come before position `k`.
fn newlines_before(s: &[char], k: usize) -> (n: usize)
    requires
        k <= s.len(),
    ensures
        n == count_of(s@.take(k as int), '\n'),
        n <= k,
{
    let mut count: usize = 0;
    let mut i: usize = 0;
    while i < k
        invariant
            i <= k <= s.len(),
            count == count_of(s@.take(i as int), '\n'),
            count <= i,
        decreases k - i,
    {
        proof {
            assert(s@.take(i + 1).drop_last() =~= s@.take(i as int));
        }
        if s[i] == '\n' {
            count = count + 1;
        }
        i = i + 1;
    }
    count
}

/// Splits a content file into its frontmatter and its body, and says which
/// line of the file the body starts on, so that a failure inside the body
/// can be reported at the line an editor will jump to.
pub fn split(text: &str, path: &str) -> (r: Result<(String, String, usize), Error>)
    requires
        text@.len() < usize::MAX,
    ensures
        match r {
            Ok((f, b, l)) => split_spec(text@) == Ok::<(Seq<char>, Seq<char>, nat), Unsplit>((f@, b@, l as nat)),
            Err(e) => match split_spec(text@) {
                Err(Unsplit::Missing) => e matches Error::MissingFrontmatter { path: p } && p@ == path@,
                Err(Unsplit::Unterminated) => e matches Error::UnterminatedFrontmatter { path: p } && p@ == path@,
                Ok(_) => false,
            },
        },
{
    let s = text::chars_of(text);
    let start = match opening(s.as_slice()) {
        None => return Err(Error::MissingFrontmatter { path: String::from_str(path) }),
        Some(start) => start,
    };
    let ghost rest = s@.skip(start as int);
    proof {
        let r0 = s@.skip(3);
        if start == 4 {
            assert(r0.skip(1) =~= rest);
        } else {
            assert(r0.skip(2) =~= rest);
        }
    }
    let end = match closing(s.as_slice(), start) {
        None => return Err(Error::UnterminatedFrontmatter { path: String::from_str(path) }),
        Some(end) => end,
    };
    let frontmatter = text::copy_range(s.as_slice(), start, end);
    assert(frontmatter@ =~= rest.take(end - start));
    let after = end + 4;
    let body_start = text::skip_class(s.as_slice(), after, s.len(), &text::Trim::CrOrLf);
    assert(s@.subrange(after as int, s.len() as int) =~= rest.skip(end - start + 4));
    let body = text::copy_range(s.as_slice(), body_start, s.len());
    let count = newlines_before(s.as_slice(), body_start);
    assert(body@ =~= text::trim_start_by(rest.skip(end - start + 4), |c: char| c == '\r' || c == '\n'));
    assert(s@.take(body_start as int) =~= s@.take(s.len() - body@.len()));
    Ok((text::string_of(frontmatter.as_slice()), text::string_of(body.as_slice()), count + 1))
}

} // verus!
