//! File paths in the order of `std::path::Path`: compared component by
//! component, so that `a/b` sorts before `a-b/c` although `'-'` sorts before
//! `'/'`, and `a//b/` is the same path as `a/b`.
use vstd::prelude::*;

use crate::text::{self, Rank, before, split_on};

verus! {

/// One component of a Unix path: its kind and, for a normal component, its
/// text.  Kinds are numbered in the order `std::path::Component` declares
/// them: the root is 1, `.` is 2, `..` is 3 and a normal component is 4.
pub type PathPart = (nat, Seq<char>);

/// The component that one piece between slashes gives, if any: an empty
/// piece and a `.` give none.
pub open spec fn piece_part(piece: Seq<char>) -> Seq<PathPart> {
    if piece.len() == 0 || piece == seq!['.'] {
        Seq::empty()
    } else if piece == seq!['.', '.'] {
        seq![(3nat, Seq::<char>::empty())]
    } else {
        seq![(4nat, piece)]
    }
}

/// The components that a run of pieces gives, in order.
pub open spec fn pieces_parts(pieces: Seq<Seq<char>>) -> Seq<PathPart>
    decreases pieces.len(),
{
    if pieces.len() == 0 {
        Seq::empty()
    } else {
        pieces_parts(pieces.drop_last()) + piece_part(pieces.last())
    }
}

/// What a path leads with: the root when it starts with a slash, `.` when it
/// is `.` or starts with `./`, and nothing otherwise.
pub open spec fn lead_part(s: Seq<char>) -> Seq<PathPart> {
    if s.len() > 0 && s[0] == '/' {
        seq![(1nat, Seq::<char>::empty())]
    } else if s == seq!['.'] || (s.len() >= 2 && s[0] == '.' && s[1] == '/') {
        seq![(2nat, Seq::<char>::empty())]
    } else {
        Seq::empty()
    }
}

/// The components of a Unix path, as `Path::components` yields them: the
/// leading root or `.`, then every piece between slashes but the empty ones
/// and the `.` ones.
pub open spec fn components(s: Seq<char>) -> Seq<PathPart> {
    lead_part(s) + pieces_parts(split_on(s, '/'))
}

/// One component sorts before another: by kind, then by text.
pub open spec fn part_before(x: PathPart, y: PathPart) -> bool {
    x.0 < y.0 || (x.0 == y.0 && before(x.1, y.1))
}

/// Runs of components in lexicographic order: at the first place where they
/// differ, `a`'s component is smaller, or `a` is a proper prefix of `b`.
pub open spec fn parts_before(a: Seq<PathPart>, b: Seq<PathPart>) -> bool
    decreases a.len(),
{
    if a.len() == 0 {
        b.len() > 0
    } else if b.len() == 0 {
        false
    } else if a[0] != b[0] {
        part_before(a[0], b[0])
    } else {
        parts_before(a.drop_first(), b.drop_first())
    }
}

/// Path `a` sorts before path `b`, as `Path`'s `Ord` has it.
pub open spec fn path_before(a: Seq<char>, b: Seq<char>) -> bool {
    parts_before(components(a), components(b))
}

/// Two texts name the same path, as `Path`'s `PartialEq` has it.
pub open spec fn same_path(a: Seq<char>, b: Seq<char>) -> bool {
    components(a) == components(b)
}

proof fn lemma_part_order(x: PathPart, y: PathPart, z: PathPart)
    ensures
        !part_before(x, x),
        part_before(x, y) ==> !part_before(y, x),
        part_before(x, y) && part_before(y, z) ==> part_before(x, z),
        x == y || part_before(x, y) || part_before(y, x),
{
    text::lemma_before_irreflexive(x.1);
    text::lemma_before_total(x.1, y.1);
    if before(x.1, y.1) {
        text::lemma_before_asymmetric(x.1, y.1);
    }
    if before(x.1, y.1) && before(y.1, z.1) {
        text::lemma_before_transitive(x.1, y.1, z.1);
    }
}

proof fn lemma_parts_irreflexive(a: Seq<PathPart>)
    ensures
        !parts_before(a, a),
    decreases a.len(),
{
    if a.len() > 0 {
        lemma_parts_irreflexive(a.drop_first());
    }
}

proof fn lemma_parts_transitive(a: Seq<PathPart>, b: Seq<PathPart>, c: Seq<PathPart>)
    requires
        parts_before(a, b),
        parts_before(b, c),
    ensures
        parts_before(a, c),
    decreases a.len(),
{
    if a.len() > 0 && b.len() > 0 && c.len() > 0 {
        lemma_part_order(a[0], b[0], c[0]);
        if a[0] == b[0] && b[0] == c[0] {
            lemma_parts_transitive(a.drop_first(), b.drop_first(), c.drop_first());
        }
    }
}

proof fn lemma_parts_total(a: Seq<PathPart>, b: Seq<PathPart>)
    ensures
        a == b || parts_before(a, b) || parts_before(b, a),
    decreases a.len(),
{
    if a.len() > 0 && b.len() > 0 {
        lemma_part_order(a[0], b[0], a[0]);
        if a[0] == b[0] {
            lemma_parts_total(a.drop_first(), b.drop_first());
            if a.drop_first() == b.drop_first() {
                assert(a =~= seq![a[0]] + a.drop_first());
                assert(b =~= seq![b[0]] + b.drop_first());
            }
        }
    }
}

/// Paths sort in a strict total order, up to naming the same path.
pub proof fn lemma_path_order(a: Seq<char>, b: Seq<char>, c: Seq<char>)
    ensures
        !path_before(a, a),
        path_before(a, b) ==> !path_before(b, a),
        path_before(a, b) && path_before(b, c) ==> path_before(a, c),
        same_path(a, b) || path_before(a, b) || path_before(b, a),
{
    let (x, y, z) = (components(a), components(b), components(c));
    lemma_parts_irreflexive(x);
    lemma_parts_total(x, y);
    if parts_before(x, y) && parts_before(y, x) {
        lemma_parts_transitive(x, y, x);
    }
    if parts_before(x, y) && parts_before(y, z) {
        lemma_parts_transitive(x, y, z);
    }
}

/// Dropping a common prefix does not change the order.
proof fn lemma_parts_skip(a: Seq<PathPart>, b: Seq<PathPart>, i: int)
    requires
        0 <= i <= a.len(),
        i <= b.len(),
        a.take(i) == b.take(i),
    ensures
        parts_before(a, b) == parts_before(a.skip(i), b.skip(i)),
    decreases i,
{
    if i > 0 {
        assert(a[0] == a.take(i)[0]);
        assert(b[0] == b.take(i)[0]);
        assert(a.drop_first().take(i - 1) =~= a.take(i).drop_first());
        assert(b.drop_first().take(i - 1) =~= b.take(i).drop_first());
        lemma_parts_skip(a.drop_first(), b.drop_first(), i - 1);
        assert(a.drop_first().skip(i - 1) =~= a.skip(i));
        assert(b.drop_first().skip(i - 1) =~= b.skip(i));
    } else {
        assert(a.skip(0) =~= a);
        assert(b.skip(0) =~= b);
    }
}

/// The plain values of components held as numbers and characters.
pub open spec fn parts_view(v: Seq<(u8, Vec<char>)>) -> Seq<PathPart> {
    v.map_values(|p: (u8, Vec<char>)| (p.0 as nat, p.1@))
}

/// The components of a path.
fn path_parts(s: &str) -> (r: Vec<(u8, Vec<char>)>)
    ensures
        parts_view(r@) == components(s@),
{
    let cs = text::chars_of(s);
    let pieces = text::split_chars(cs.as_slice(), '/');
    let ghost pv = split_on(s@, '/');
    let mut out: Vec<(u8, Vec<char>)> = Vec::new();
    if cs.len() > 0 && cs[0] == '/' {
        out.push((1u8, Vec::new()));
    } else if (cs.len() == 1 && cs[0] == '.') || (cs.len() >= 2 && cs[0] == '.' && cs[1] == '/') {
        if cs.len() == 1 {
            assert(s@ =~= seq!['.']);
        }
        out.push((2u8, Vec::new()));
    } else {
        assert(s@ != seq!['.']) by {
            if s@ == seq!['.'] {
                assert(cs@.len() == 1 && cs@[0] == '.');
            }
        }
    }
    assert(parts_view(out@) =~= lead_part(s@));
    assert(pv.take(0) =~= Seq::<Seq<char>>::empty());
    let mut i: usize = 0;
    while i < pieces.len()
        invariant
            i <= pieces.len(),
            pieces@.len() == pv.len(),
            pv == split_on(s@, '/'),
            forall|j: int| 0 <= j < pieces@.len() ==> #[trigger] pieces@[j]@ == pv[j],
            parts_view(out@) == lead_part(s@) + pieces_parts(pv.take(i as int)),
        decreases pieces.len() - i,
    {
        let p = &pieces[i];
        let ghost pp = pv[i as int];
        assert(p@ == pp);
        assert(pv.take(i + 1).drop_last() =~= pv.take(i as int));
        assert(pv.take(i + 1).last() == pp);
        let ghost prev = parts_view(out@);
        if p.len() == 0 || (p.len() == 1 && p[0] == '.') {
            if p.len() == 1 {
                assert(pp =~= seq!['.']);
            }
            assert(piece_part(pp) =~= Seq::<PathPart>::empty());
            assert(prev + piece_part(pp) =~= prev);
        } else if p.len() == 2 && p[0] == '.' && p[1] == '.' {
            assert(pp =~= seq!['.', '.']);
            assert(pp != seq!['.']) by {
                assert(pp.len() != 1);
            }
            out.push((3u8, Vec::new()));
            assert(parts_view(out@) =~= prev + piece_part(pp));
        } else {
            assert(pp != seq!['.']) by {
                if pp == seq!['.'] {
                    assert(p@.len() == 1 && p@[0] == '.');
                }
            }
            assert(pp != seq!['.', '.']) by {
                if pp == seq!['.', '.'] {
                    assert(p@.len() == 2 && p@[0] == '.' && p@[1] == '.');
                }
            }
            let copy = text::copy_range(p.as_slice(), 0, p.len());
            assert(copy@ =~= pp);
            out.push((4u8, copy));
            assert(parts_view(out@) =~= prev + piece_part(pp));
        }
        assert(lead_part(s@) + pieces_parts(pv.take(i + 1)) =~= lead_part(s@) + pieces_parts(
            pv.take(i as int),
        ) + piece_part(pp));
        i = i + 1;
    }
    assert(pv.take(pieces.len() as int) =~= pv);
    out
}

/// Compares two paths as `Path` does: component by component.
pub fn compare_paths(a: &str, b: &str) -> (r: Rank)
    ensures
        match r {
            Rank::Below => path_before(a@, b@),
            Rank::Same => same_path(a@, b@),
            Rank::Above => path_before(b@, a@),
        },
{
    let x = path_parts(a);
    let y = path_parts(b);
    let ghost xv = parts_view(x@);
    let ghost yv = parts_view(y@);
    let mut i: usize = 0;
    loop
        invariant
            i <= x.len(),
            i <= y.len(),
            xv == parts_view(x@),
            yv == parts_view(y@),
            xv == components(a@),
            yv == components(b@),
            xv.take(i as int) == yv.take(i as int),
        decreases x.len() - i,
    {
        proof {
            lemma_parts_skip(xv, yv, i as int);
            lemma_parts_skip(yv, xv, i as int);
        }
        if i == x.len() || i == y.len() {
            if i == x.len() && i == y.len() {
                assert(xv =~= xv.take(i as int));
                assert(yv =~= yv.take(i as int));
                return Rank::Same;
            } else if i == x.len() {
                assert(xv.skip(i as int).len() == 0);
                return Rank::Below;
            } else {
                assert(yv.skip(i as int).len() == 0);
                return Rank::Above;
            }
        }
        let ghost p = xv[i as int];
        let ghost q = yv[i as int];
        assert(xv.skip(i as int)[0] == p);
        assert(yv.skip(i as int)[0] == q);
        proof {
            lemma_part_order(p, q, p);
        }
        if x[i].0 < y[i].0 {
            return Rank::Below;
        } else if y[i].0 < x[i].0 {
            return Rank::Above;
        }
        match text::rank(x[i].1.as_slice(), y[i].1.as_slice()) {
            Rank::Below => {
                return Rank::Below;
            },
            Rank::Above => {
                return Rank::Above;
            },
            Rank::Same => {},
        }
        assert(p == q);
        assert(xv.skip(i as int).drop_first() =~= xv.skip(i + 1));
        assert(yv.skip(i as int).drop_first() =~= yv.skip(i + 1));
        assert(xv.take(i + 1) =~= xv.take(i as int).push(p));
        assert(yv.take(i + 1) =~= yv.take(i as int).push(q));
        i = i + 1;
    }
}

} // verus!
