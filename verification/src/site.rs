//! What a build decides: where each page is written, and what the primary
//! navigation lists and marks.  Reading the site and writing the output is
//! the caller's; everything between is here.

use vstd::prelude::*;

use crate::config::Config;
use crate::content::{Collection, Entry};
use crate::sorting::{self, in_order, insert_stably, sort_stably, strict_order};
use crate::text::{self, before};
use crate::theme::{label_of, NavItem, PageMeta};
use crate::url::{page_url, Url};

verus! {

broadcast use vstd::string::group_string_axioms;

/// What a build did.
#[derive(Debug, Clone, PartialEq, Eq)]
pub struct Report {
    /// The routes written, in the order they were written.
    pub routes: Vec<String>,
    /// The directory the site was written to.
    pub out_dir: String,
    /// Pages skipped because they were marked as drafts.
    pub drafts: usize,
}

// ------------------------------------------------------------------ paths

/// `part` joined onto `base` as a path is: an absolute `part` replaces
/// `base`, and a separator goes between them unless `base` is empty or
/// already ends in one.
pub open spec fn path_join(base: Seq<char>, part: Seq<char>) -> Seq<char> {
    if part.len() > 0 && part[0] == '/' {
        part
    } else if base.len() == 0 || base.last() == '/' {
        base + part
    } else {
        base + "/"@ + part
    }
}

/// `part` joined onto `base` as a path.
pub fn join_path(base: &str, part: &str) -> (r: String)
    ensures
        r@ == path_join(base@, part@),
{
    let b = text::chars_of(base);
    let p = text::chars_of(part);
    if p.len() > 0 && p[0] == '/' {
        return part.to_string();
    }
    let mut out = base.to_string();
    if !(b.len() == 0 || b[b.len() - 1] == '/') {
        text::push_char(&mut out, '/');
        proof {
            reveal_strlit("/");
        }
    }
    text::push_chars(&mut out, p.as_slice());
    out
}

/// Where the page at `route` is written below `out_dir`: every route is a
/// directory holding an `index.html`, so that `/about/` is served as is.
pub open spec fn page_file(out_dir: Seq<char>, route: Seq<char>) -> Seq<char> {
    if route.len() == 0 {
        path_join(out_dir, "index.html"@)
    } else {
        path_join(path_join(out_dir, route), "index.html"@)
    }
}

/// The file the page at `route` is written to.
pub fn page_path(out_dir: &str, route: &str) -> (r: String)
    ensures
        r@ == page_file(out_dir@, route@),
{
    let index = "index.html";
    proof {
        reveal_strlit("index.html");
    }
    let r = text::chars_of(route);
    if r.len() == 0 {
        join_path(out_dir, index)
    } else {
        let dir = join_path(out_dir, route);
        join_path(dir.as_str(), index)
    }
}

// ------------------------------------------------------------------ navigation

/// A navigation entry as it is ordered: its position, its label, its URL.
pub type Listed = (u32, Seq<char>, Seq<char>);

/// `a` goes before `b` in the navigation: a smaller position, or the same
/// position and a label that sorts first.
pub open spec fn nav_before(a: Listed, b: Listed) -> bool {
    a.0 < b.0 || (a.0 == b.0 && before(a.1, b.1))
}

/// The pages the navigation lists, in route order: those that are not
/// drafts and name a position.
pub open spec fn listed(base: Seq<char>, es: Seq<Entry<PageMeta>>) -> Seq<Listed>
    decreases es.len(),
{
    if es.len() == 0 {
        Seq::empty()
    } else {
        let rest = listed(base, es.drop_last());
        let e = es.last();
        match e.meta.nav_order {
            Some(order) => if e.meta.draft {
                rest
            } else {
                rest.push((order, label_of(e.meta), page_url(base, e.route@)))
            },
            None => rest,
        }
    }
}

/// The order of the navigation, as a relation.
pub open spec fn nav_lt() -> spec_fn(Listed, Listed) -> bool {
    |a: Listed, b: Listed| nav_before(a, b)
}

/// The primary navigation of a site: the listed pages in navigation order,
/// none of them current.
pub open spec fn navigation_spec(base: Seq<char>, es: Seq<Entry<PageMeta>>) -> Seq<Listed> {
    sort_stably(listed(base, es), nav_lt())
}

/// What a navigation item shows: its label, its URL, and whether it is
/// current.
pub open spec fn shown(items: Seq<NavItem>) -> Seq<(Seq<char>, Seq<char>, bool)> {
    items.map_values(|i: NavItem| (i.label@, i.href@, i.current))
}

/// What a listed entry shows, before any page is current.
pub open spec fn unmarked(s: Seq<Listed>) -> Seq<(Seq<char>, Seq<char>, bool)> {
    s.map_values(|x: Listed| (x.1, x.2, false))
}

/// The items of a navigation being built, with the positions kept beside
/// them.
spec fn keyed(orders: Seq<u32>, items: Seq<NavItem>) -> Seq<Listed> {
    Seq::new(items.len(), |j: int| (orders[j], items[j].label@, items[j].href@))
}

/// Inserts `item` at position `order` into a navigation in order, after
/// every entry it does not go before.
fn insert_item(orders: &mut Vec<u32>, items: &mut Vec<NavItem>, order: u32, item: NavItem)
    requires
        old(orders).len() == old(items).len(),
        !item.current,
        forall|j: int| 0 <= j < old(items).len() ==> !(#[trigger] old(items)@[j]).current,
    ensures
        final(orders).len() == final(items).len(),
        keyed(final(orders)@, final(items)@) == insert_stably(
            keyed(old(orders)@, old(items)@),
            (order, item.label@, item.href@),
            nav_lt(),
        ),
        forall|j: int| 0 <= j < final(items).len() ==> !(#[trigger] final(items)@[j]).current,
{
    let ghost s = keyed(orders@, items@);
    let ghost x: Listed = (order, item.label@, item.href@);
    let key = text::chars_of(item.label.as_str());
    let mut i: usize = 0;
    loop
        invariant
            i <= items.len(),
            orders.len() == items.len(),
            s == keyed(orders@, items@),
            x == (order, item.label@, item.href@),
            key@ == item.label@,
            forall|j: int| 0 <= j < i ==> !nav_before(x, #[trigger] s[j]),
        ensures
            i <= items.len(),
            forall|j: int| 0 <= j < i ==> !nav_before(x, #[trigger] s[j]),
            i == items.len() || nav_before(x, s[i as int]),
        decreases items.len() - i,
    {
        if i == items.len() {
            break;
        }
        assert(s[i as int] == (orders@[i as int], items@[i as int].label@, items@[i as int].href@));
        let o = orders[i];
        if order < o {
            break;
        }
        if order == o {
            let other = text::chars_of(items[i].label.as_str());
            match text::rank(key.as_slice(), other.as_slice()) {
                text::Rank::Below => {
                    break;
                },
                text::Rank::Same => {
                    proof {
                        text::lemma_before_irreflexive(key@);
                    }
                },
                text::Rank::Above => {
                    proof {
                        text::lemma_before_asymmetric(other@, key@);
                    }
                },
            }
        }
        i = i + 1;
    }
    proof {
        sorting::lemma_insert_at(s, x, nav_lt(), i as int);
    }
    let ghost old_items = items@;
    orders.insert(i, order);
    items.insert(i, item);
    assert(keyed(orders@, items@) =~= s.take(i as int).push(x) + s.skip(i as int));
    assert forall|j: int| 0 <= j < items.len() implies !(#[trigger] items@[j]).current by {
        if j < i {
            assert(items@[j] == old_items[j]);
        } else if j > i {
            assert(items@[j] == old_items[j - 1]);
        }
    }
}

/// The primary navigation: every page that is not a draft and names a
/// position, ordered by position and then by label, pages that tie keeping
/// their route order; none of them is current yet.
pub fn navigation(config: &Config, content: &Collection<PageMeta>) -> (r: Vec<NavItem>)
    ensures
        shown(r@) == unmarked(navigation_spec(config.base@, content@)),
{
    let entries = content.entries();
    let ghost base = config.base@;
    let mut orders: Vec<u32> = Vec::new();
    let mut items: Vec<NavItem> = Vec::new();
    let mut k: usize = 0;
    assert(entries@.take(0) =~= Seq::<Entry<PageMeta>>::empty());
    while k < entries.len()
        invariant
            k <= entries.len(),
            entries@ == content@,
            base == config.base@,
            orders.len() == items.len(),
            keyed(orders@, items@) == sort_stably(listed(base, entries@.take(k as int)), nav_lt()),
            forall|j: int| 0 <= j < items.len() ==> !(#[trigger] items@[j]).current,
        decreases entries.len() - k,
    {
        let e = &entries[k];
        let ghost prefix = entries@.take(k as int);
        assert(entries@.take(k + 1).drop_last() =~= prefix);
        assert(entries@.take(k + 1).last() == entries@[k as int]);
        if !e.meta.draft {
            match e.meta.nav_order {
                Some(order) => {
                    let item = NavItem {
                        label: String::from_str(e.meta.label()),
                        href: Url::new(config, e.route.as_str()),
                        current: false,
                    };
                    let ghost x: Listed = (order, item.label@, item.href@);
                    assert(listed(base, entries@.take(k + 1)) == listed(base, prefix).push(x));
                    assert(listed(base, prefix).push(x).drop_last() =~= listed(base, prefix));
                    insert_item(&mut orders, &mut items, order, item);
                },
                None => {},
            }
        }
        k = k + 1;
    }
    assert(entries@.take(entries.len() as int) =~= entries@);
    assert(shown(items@) =~= unmarked(keyed(orders@, items@)));
    items
}

/// The navigation as the page at `route` sees it: the same items, with
/// exactly those that link to it marked current.
pub fn mark_current(config: &Config, nav: &[NavItem], route: &str) -> (r: Vec<NavItem>)
    ensures
        r.len() == nav.len(),
        forall|j: int|
            0 <= j < nav.len() ==> (#[trigger] r@[j]).label@ == nav@[j].label@ && r@[j].href@
                == nav@[j].href@ && r@[j].current == (nav@[j].href@ == page_url(config.base@, route@)),
{
    let here = Url::new(config, route);
    let mut out: Vec<NavItem> = Vec::new();
    let mut i: usize = 0;
    while i < nav.len()
        invariant
            i <= nav.len(),
            out.len() == i,
            here@ == page_url(config.base@, route@),
            forall|j: int|
                0 <= j < i ==> (#[trigger] out@[j]).label@ == nav@[j].label@ && out@[j].href@
                    == nav@[j].href@ && out@[j].current == (nav@[j].href@ == here@),
        decreases nav.len() - i,
    {
        let item = &nav[i];
        let current = text::same_text(item.href.as_str(), here.as_str());
        out.push(NavItem { label: item.label.clone(), href: item.href.duplicate(), current });
        i = i + 1;
    }
    out
}

// ------------------------------------------------------------------ laws

proof fn lemma_nav_order()
    ensures
        strict_order(nav_lt()),
{
    assert forall|a: Listed| !#[trigger] nav_lt()(a, a) by {
        text::lemma_before_irreflexive(a.1);
    }
    assert forall|a: Listed, b: Listed, c: Listed| #[trigger] nav_lt()(a, b) && #[trigger] nav_lt()(b, c) implies nav_lt()(
        a,
        c,
    ) by {
        if a.0 == b.0 && b.0 == c.0 {
            text::lemma_before_transitive(a.1, b.1, c.1);
        }
    }
}

/// The primary navigation lists exactly the pages that are not drafts and
/// name a position, each once, ordered by position and then by label.
pub proof fn lemma_navigation_is_ordered(base: Seq<char>, es: Seq<Entry<PageMeta>>)
    ensures
        in_order(navigation_spec(base, es), nav_lt()),
        navigation_spec(base, es).to_multiset() == listed(base, es).to_multiset(),
{
    lemma_nav_order();
    sorting::lemma_sort_stably(listed(base, es), nav_lt());
}

} // verus!
