//! Stable insertion, and the order it leaves a sequence in.
//!
//! Everything this crate lists is listed in an order a reader can predict:
//! sorted by a key, with entries whose keys tie left in the order they came.
//! That is what inserting each entry after every entry it does not go before
//! gives, and this module says so once for every list that is built that way.

use vstd::prelude::*;

verus! {

/// `lt` is a strict weak order: nothing goes before itself, and going
/// before is transitive.
pub open spec fn strict_order<A>(lt: spec_fn(A, A) -> bool) -> bool {
    &&& forall|a: A| !#[trigger] lt(a, a)
    &&& forall|a: A, b: A, c: A| #[trigger] lt(a, b) && #[trigger] lt(b, c) ==> lt(a, c)
}

/// `s` is in order: no entry goes before one ahead of it.
pub open spec fn in_order<A>(s: Seq<A>, lt: spec_fn(A, A) -> bool) -> bool {
    forall|p: int, q: int| 0 <= p < q < s.len() ==> !lt(#[trigger] s[q], #[trigger] s[p])
}

/// `x` placed in `s` before the first entry it goes before, and after every
/// other: so entries that tie keep the order they came in.
pub open spec fn insert_stably<A>(s: Seq<A>, x: A, lt: spec_fn(A, A) -> bool) -> Seq<A>
    decreases s.len(),
{
    if s.len() == 0 {
        seq![x]
    } else if lt(x, s[0]) {
        seq![x] + s
    } else {
        seq![s[0]] + insert_stably(s.drop_first(), x, lt)
    }
}

/// `s` sorted stably: each entry, in turn, inserted after every entry it
/// does not go before.
pub open spec fn sort_stably<A>(s: Seq<A>, lt: spec_fn(A, A) -> bool) -> Seq<A>
    decreases s.len(),
{
    if s.len() == 0 {
        Seq::empty()
    } else {
        insert_stably(sort_stably(s.drop_last(), lt), s.last(), lt)
    }
}

/// Where [`insert_stably`] puts `x`: before the first entry it goes before.
pub proof fn lemma_insert_at<A>(s: Seq<A>, x: A, lt: spec_fn(A, A) -> bool, i: int)
    requires
        0 <= i <= s.len(),
        forall|j: int| 0 <= j < i ==> !lt(x, #[trigger] s[j]),
        i == s.len() || lt(x, s[i]),
    ensures
        insert_stably(s, x, lt) == s.take(i).push(x) + s.skip(i),
    decreases s.len(),
{
    if s.len() == 0 {
        assert(s.take(i).push(x) + s.skip(i) =~= seq![x]);
    } else if i == 0 {
        assert(s.take(0).push(x) + s.skip(0) =~= seq![x] + s);
    } else {
        let t = s.drop_first();
        assert forall|j: int| 0 <= j < i - 1 implies !lt(x, #[trigger] t[j]) by {
            assert(t[j] == s[j + 1]);
        }
        if i < s.len() {
            assert(t[i - 1] == s[i]);
        }
        assert(!lt(x, s[0]));
        lemma_insert_at(t, x, lt, i - 1);
        assert(seq![s[0]] + (t.take(i - 1).push(x) + t.skip(i - 1)) =~= s.take(i).push(x) + s.skip(i));
    }
}

/// Where [`insert_stably`] puts its entry, whatever `s` is.
spec fn slot<A>(s: Seq<A>, x: A, lt: spec_fn(A, A) -> bool) -> int
    decreases s.len(),
{
    if s.len() == 0 || lt(x, s[0]) {
        0
    } else {
        1 + slot(s.drop_first(), x, lt)
    }
}

proof fn lemma_insert_slot<A>(s: Seq<A>, x: A, lt: spec_fn(A, A) -> bool)
    ensures
        0 <= slot(s, x, lt) <= s.len(),
        insert_stably(s, x, lt) == s.take(slot(s, x, lt)).push(x) + s.skip(slot(s, x, lt)),
    decreases s.len(),
{
    let i = slot(s, x, lt);
    if s.len() == 0 || lt(x, s[0]) {
        assert(s.take(0).push(x) + s.skip(0) =~= seq![x] + s);
    } else {
        let t = s.drop_first();
        lemma_insert_slot(t, x, lt);
        assert(seq![s[0]] + (t.take(i - 1).push(x) + t.skip(i - 1)) =~= s.take(i).push(x) + s.skip(i));
    }
}

/// Inserting keeps an ordered sequence in order, and adds exactly the one
/// entry.
pub proof fn lemma_insert_stably<A>(s: Seq<A>, x: A, lt: spec_fn(A, A) -> bool)
    requires
        strict_order(lt),
        in_order(s, lt),
    ensures
        in_order(insert_stably(s, x, lt), lt),
        insert_stably(s, x, lt).to_multiset() == s.to_multiset().insert(x),
    decreases s.len(),
{
    broadcast use {
        vstd::multiset::group_multiset_axioms,
        vstd::seq_lib::group_to_multiset_ensures,
    };

    let r = insert_stably(s, x, lt);
    lemma_insert_slot(s, x, lt);
    let i = slot(s, x, lt);
    vstd::seq_lib::lemma_multiset_commutative(s.take(i).push(x), s.skip(i));
    vstd::seq_lib::lemma_multiset_commutative(s.take(i), s.skip(i));
    assert(s.take(i) + s.skip(i) =~= s);
    assert(r.to_multiset() =~= s.to_multiset().insert(x));
    if s.len() == 0 {
    } else if lt(x, s[0]) {
        assert forall|p: int, q: int| 0 <= p < q < r.len() implies !lt(#[trigger] r[q], #[trigger] r[p]) by {
            if p == 0 {
                assert(r[q] == s[q - 1]);
                if lt(s[q - 1], x) {
                    assert(lt(s[q - 1], s[0]));
                    if q - 1 > 0 {
                        assert(!lt(s[q - 1], s[0]));
                    }
                }
            } else {
                assert(r[p] == s[p - 1] && r[q] == s[q - 1]);
            }
        }
    } else {
        let t = s.drop_first();
        assert(in_order(t, lt)) by {
            assert forall|p: int, q: int| 0 <= p < q < t.len() implies !lt(#[trigger] t[q], #[trigger] t[p]) by {
                assert(t[p] == s[p + 1] && t[q] == s[q + 1]);
            }
        }
        lemma_insert_stably(t, x, lt);
        let u = insert_stably(t, x, lt);
        assert(r == seq![s[0]] + u);
        assert forall|p: int, q: int| 0 <= p < q < r.len() implies !lt(#[trigger] r[q], #[trigger] r[p]) by {
            if p == 0 {
                let y = u[q - 1];
                assert(r[q] == y);
                assert(u.to_multiset().contains(y));
                if y != x {
                    assert(t.to_multiset().contains(y));
                    let k = choose|k: int| 0 <= k < t.len() && t[k] == y;
                    assert(s[k + 1] == y);
                }
            } else {
                assert(r[p] == u[p - 1] && r[q] == u[q - 1]);
            }
        }
    }
}

/// Sorting stably leaves a sequence in order, and loses or adds nothing.
pub proof fn lemma_sort_stably<A>(s: Seq<A>, lt: spec_fn(A, A) -> bool)
    requires
        strict_order(lt),
    ensures
        in_order(sort_stably(s, lt), lt),
        sort_stably(s, lt).to_multiset() == s.to_multiset(),
    decreases s.len(),
{
    broadcast use {
        vstd::multiset::group_multiset_axioms,
        vstd::seq_lib::group_to_multiset_ensures,
    };

    if s.len() == 0 {
        assert(s.to_multiset().len() == 0);
        assert(sort_stably(s, lt).to_multiset().len() == 0);
        assert(sort_stably(s, lt).to_multiset() =~= s.to_multiset());
    } else {
        lemma_sort_stably(s.drop_last(), lt);
        lemma_insert_stably(sort_stably(s.drop_last(), lt), s.last(), lt);
        assert(s.drop_last().push(s.last()) =~= s);
    }
}

} // verus!
