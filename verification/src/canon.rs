//! Canonical forms of polyomino shapes.
//!
//! A shape is a finite set of grid coordinates.  Two shapes are considered the
//! same polyomino when one can be carried onto the other by a translation
//! composed with one of the eight symmetries of the square (four rotations,
//! each optionally mirrored).  `normalize_block` computes a canonical
//! representative: the shape is translated so that its minimum row and column
//! are both zero, the eight symmetric images are produced, and the
//! lexicographically least sorted coordinate list among them is returned.

use vstd::prelude::*;

verus! {

/// Largest magnitude allowed for an input coordinate, chosen so that
/// translating a shape to its bounding box can never overflow `i32`.
pub const COORD_LIMIT: i32 = 0x3fff_ffff;

// ---------------------------------------------------------------------------
// Lexicographic order on coordinate pairs and coordinate lists
// ---------------------------------------------------------------------------

/// Non-strict lexicographic order on coordinate pairs.
pub open spec fn pair_le(a: (int, int), b: (int, int)) -> bool {
    a.0 < b.0 || (a.0 == b.0 && a.1 <= b.1)
}

/// Strict lexicographic order on coordinate pairs.
pub open spec fn pair_lt(a: (int, int), b: (int, int)) -> bool {
    a.0 < b.0 || (a.0 == b.0 && a.1 < b.1)
}

/// A coordinate list in strictly ascending lexicographic order.
pub open spec fn ascending(q: Seq<(int, int)>) -> bool {
    forall|i: int, j: int| 0 <= i < j < q.len() ==> pair_lt(q[i], q[j])
}

/// The coordinates of an executable block, as mathematical integers.
pub open spec fn ints_of(q: Seq<(i32, i32)>) -> Seq<(int, int)> {
    q.map_values(|p: (i32, i32)| (p.0 as int, p.1 as int))
}

/// The set of coordinates held by an executable block.
pub open spec fn pset(q: Seq<(i32, i32)>) -> Set<(int, int)> {
    ints_of(q).to_set()
}

/// Strict lexicographic order on coordinate lists.
pub open spec fn seq_lt(a: Seq<(int, int)>, b: Seq<(int, int)>) -> bool
    decreases a.len(),
{
    if b.len() == 0 {
        false
    } else if a.len() == 0 {
        true
    } else if pair_lt(a[0], b[0]) {
        true
    } else if a[0] == b[0] {
        seq_lt(a.drop_first(), b.drop_first())
    } else {
        false
    }
}

/// Non-strict lexicographic order on coordinate lists.
pub open spec fn seq_le(a: Seq<(int, int)>, b: Seq<(int, int)>) -> bool {
    a == b || seq_lt(a, b)
}

/// Lexicographic order on coordinate lists is irreflexive.
pub proof fn lemma_seq_lt_irrefl(a: Seq<(int, int)>)
    ensures
        !seq_lt(a, a),
    decreases a.len(),
{
    if a.len() > 0 {
        lemma_seq_lt_irrefl(a.drop_first());
    }
}

/// Lexicographic order on coordinate lists is total and asymmetric.
pub proof fn lemma_seq_lt_total(a: Seq<(int, int)>, b: Seq<(int, int)>)
    ensures
        a == b || seq_lt(a, b) || seq_lt(b, a),
        !(seq_lt(a, b) && seq_lt(b, a)),
    decreases a.len() + b.len(),
{
    if a.len() == 0 && b.len() == 0 {
        assert(a =~= b);
    } else if a.len() > 0 && b.len() > 0 {
        if a[0] == b[0] {
            lemma_seq_lt_total(a.drop_first(), b.drop_first());
            if a.drop_first() == b.drop_first() {
                assert forall|i: int| 0 <= i < a.len() implies a[i] == b[i] by {
                    if i > 0 {
                        assert(a.drop_first()[i - 1] == b.drop_first()[i - 1]);
                    }
                }
                assert(a =~= b);
            }
        }
    }
}

/// Lexicographic order on coordinate lists is transitive.
pub proof fn lemma_seq_lt_trans(a: Seq<(int, int)>, b: Seq<(int, int)>, c: Seq<(int, int)>)
    requires
        seq_lt(a, b),
        seq_lt(b, c),
    ensures
        seq_lt(a, c),
    decreases a.len() + b.len() + c.len(),
{
    if a.len() > 0 && b.len() > 0 && c.len() > 0 {
        if a[0] == b[0] && b[0] == c[0] {
            lemma_seq_lt_trans(a.drop_first(), b.drop_first(), c.drop_first());
        }
    }
}

/// `seq_le` is transitive.
pub proof fn lemma_seq_le_trans(a: Seq<(int, int)>, b: Seq<(int, int)>, c: Seq<(int, int)>)
    requires
        seq_le(a, b),
        seq_le(b, c),
    ensures
        seq_le(a, c),
{
    if a != b && b != c {
        lemma_seq_lt_trans(a, b, c);
    }
}

// ---------------------------------------------------------------------------
// The strictly sorted enumeration of a finite coordinate set
// ---------------------------------------------------------------------------

/// Two strictly ascending lists over the same coordinate set are equal.
pub proof fn lemma_ascending_unique(a: Seq<(int, int)>, b: Seq<(int, int)>)
    requires
        ascending(a),
        ascending(b),
        a.to_set() == b.to_set(),
    ensures
        a == b,
    decreases a.len(),
{
    if a.len() == 0 && b.len() == 0 {
        assert(a =~= b);
    } else if a.len() == 0 {
        assert(b.to_set().contains(b[0]));
        assert(a.contains(b[0]));
        assert(false);
    } else if b.len() == 0 {
        assert(a.to_set().contains(a[0]));
        assert(b.contains(a[0]));
        assert(false);
    } else {
        // The heads are both the least element of the common set.
        assert(a.to_set().contains(b[0]));
        let ia = choose|i: int| 0 <= i < a.len() && a[i] == b[0];
        assert(pair_le(a[0], b[0])) by {
            if ia > 0 {
                assert(pair_lt(a[0], a[ia]));
            }
        }
        assert(b.to_set().contains(a[0]));
        let ib = choose|i: int| 0 <= i < b.len() && b[i] == a[0];
        assert(pair_le(b[0], a[0])) by {
            if ib > 0 {
                assert(pair_lt(b[0], b[ib]));
            }
        }
        assert(a[0] == b[0]);
        assert(a.drop_first().to_set() =~= a.to_set().remove(a[0])) by {
            assert forall|p: (int, int)| a.drop_first().to_set().contains(p) implies a.to_set()
                .remove(a[0]).contains(p) by {
                let i = choose|i: int| 0 <= i < a.drop_first().len() && a.drop_first()[i] == p;
                assert(a[i + 1] == p);
                assert(pair_lt(a[0], a[i + 1]));
            }
            assert forall|p: (int, int)| a.to_set().remove(a[0]).contains(p) implies a
                .drop_first().to_set().contains(p) by {
                let i = choose|i: int| 0 <= i < a.len() && a[i] == p;
                assert(i != 0);
                assert(a.drop_first()[i - 1] == p);
            }
        }
        assert(b.drop_first().to_set() =~= b.to_set().remove(b[0])) by {
            assert forall|p: (int, int)| b.drop_first().to_set().contains(p) implies b.to_set()
                .remove(b[0]).contains(p) by {
                let i = choose|i: int| 0 <= i < b.drop_first().len() && b.drop_first()[i] == p;
                assert(b[i + 1] == p);
                assert(pair_lt(b[0], b[i + 1]));
            }
            assert forall|p: (int, int)| b.to_set().remove(b[0]).contains(p) implies b
                .drop_first().to_set().contains(p) by {
                let i = choose|i: int| 0 <= i < b.len() && b[i] == p;
                assert(i != 0);
                assert(b.drop_first()[i - 1] == p);
            }
        }
        assert(ascending(a.drop_first())) by {
            assert forall|i: int, j: int|
                0 <= i < j < a.drop_first().len() implies pair_lt(
                a.drop_first()[i],
                a.drop_first()[j],
            ) by {
                assert(pair_lt(a[i + 1], a[j + 1]));
            }
        }
        assert(ascending(b.drop_first())) by {
            assert forall|i: int, j: int|
                0 <= i < j < b.drop_first().len() implies pair_lt(
                b.drop_first()[i],
                b.drop_first()[j],
            ) by {
                assert(pair_lt(b[i + 1], b[j + 1]));
            }
        }
        lemma_ascending_unique(a.drop_first(), b.drop_first());
        assert(a =~= seq![a[0]] + a.drop_first());
        assert(b =~= seq![b[0]] + b.drop_first());
    }
}

/// The strictly ascending enumeration of a coordinate set.
pub open spec fn shape_repr(s: Set<(int, int)>) -> Seq<(int, int)> {
    choose|q: Seq<(int, int)>| ascending(q) && q.to_set() == s
}

/// When a strictly ascending list over `s` is exhibited, it is the
/// enumeration of `s`.
pub proof fn lemma_shape_repr_is(s: Set<(int, int)>, q: Seq<(int, int)>)
    requires
        ascending(q),
        q.to_set() == s,
    ensures
        shape_repr(s) == q,
        ascending(shape_repr(s)),
        shape_repr(s).to_set() == s,
{
    assert(exists|w: Seq<(int, int)>| ascending(w) && w.to_set() == s);
    let w = shape_repr(s);
    assert(ascending(w) && w.to_set() == s);
    lemma_ascending_unique(w, q);
}

// ---------------------------------------------------------------------------
// Least and greatest elements of finite integer sets
// ---------------------------------------------------------------------------

/// The least element of a set of integers.
pub open spec fn int_least(s: Set<int>) -> int {
    choose|m: int| s.contains(m) && forall|x: int| s.contains(x) ==> m <= x
}

/// The greatest element of a set of integers.
pub open spec fn int_greatest(s: Set<int>) -> int {
    choose|m: int| s.contains(m) && forall|x: int| s.contains(x) ==> x <= m
}

/// Every finite nonempty set of integers has a least and a greatest element.
pub proof fn lemma_int_extremes(s: Set<int>)
    requires
        s.finite(),
        s.len() > 0,
    ensures
        s.contains(int_least(s)),
        forall|x: int| s.contains(x) ==> int_least(s) <= x,
        s.contains(int_greatest(s)),
        forall|x: int| s.contains(x) ==> x <= int_greatest(s),
    decreases s.len(),
{
    let x0 = s.choose();
    assert(s.contains(x0));
    let rest = s.remove(x0);
    if rest.len() == 0 {
        assert(forall|x: int| rest.contains(x) ==> false) by {
            if exists|x: int| rest.contains(x) {
                let x = choose|x: int| rest.contains(x);
                assert(rest.remove(x).len() < rest.len());
            }
        }
        assert(s.contains(x0) && forall|x: int| s.contains(x) ==> x0 <= x);
        assert(s.contains(x0) && forall|x: int| s.contains(x) ==> x <= x0);
    } else {
        lemma_int_extremes(rest);
        let lo = if int_least(rest) <= x0 {
            int_least(rest)
        } else {
            x0
        };
        assert(s.contains(lo) && forall|x: int| s.contains(x) ==> lo <= x);
        let hi = if int_greatest(rest) >= x0 {
            int_greatest(rest)
        } else {
            x0
        };
        assert(s.contains(hi) && forall|x: int| s.contains(x) ==> x <= hi);
    }
}

/// When a least element is exhibited, `int_least` returns it.
pub proof fn lemma_int_least_is(s: Set<int>, m: int)
    requires
        s.contains(m),
        forall|x: int| s.contains(x) ==> m <= x,
    ensures
        int_least(s) == m,
{
    assert(exists|w: int| s.contains(w) && forall|x: int| s.contains(x) ==> w <= x);
    let w = int_least(s);
    assert(s.contains(w) && forall|x: int| s.contains(x) ==> w <= x);
}

/// When a greatest element is exhibited, `int_greatest` returns it.
pub proof fn lemma_int_greatest_is(s: Set<int>, m: int)
    requires
        s.contains(m),
        forall|x: int| s.contains(x) ==> x <= m,
    ensures
        int_greatest(s) == m,
{
    assert(exists|w: int| s.contains(w) && forall|x: int| s.contains(x) ==> x <= w);
    let w = int_greatest(s);
    assert(s.contains(w) && forall|x: int| s.contains(x) ==> x <= w);
}

// ---------------------------------------------------------------------------
// Bounding boxes and the symmetries of the square lattice
// ---------------------------------------------------------------------------

/// The set of row indices occurring in a shape.
pub open spec fn rows(s: Set<(int, int)>) -> Set<int> {
    s.map(|p: (int, int)| p.0)
}

/// The set of column indices occurring in a shape.
pub open spec fn cols(s: Set<(int, int)>) -> Set<int> {
    s.map(|p: (int, int)| p.1)
}

pub open spec fn min_row(s: Set<(int, int)>) -> int {
    int_least(rows(s))
}

pub open spec fn min_col(s: Set<(int, int)>) -> int {
    int_least(cols(s))
}

pub open spec fn max_row(s: Set<(int, int)>) -> int {
    int_greatest(rows(s))
}

pub open spec fn max_col(s: Set<(int, int)>) -> int {
    int_greatest(cols(s))
}

/// Shape translated by `(dy, dx)`.
#[verifier::opaque]
pub open spec fn translate(s: Set<(int, int)>, dy: int, dx: int) -> Set<(int, int)> {
    s.map(|p: (int, int)| (p.0 + dy, p.1 + dx))
}

/// Shape translated so that its least row and column are both zero.
pub open spec fn bbox_normalize(s: Set<(int, int)>) -> Set<(int, int)> {
    if s.len() == 0 {
        s
    } else {
        translate(s, -min_row(s), -min_col(s))
    }
}

/// A shape whose least row and column are both zero (or which is empty).
pub open spec fn is_normal(s: Set<(int, int)>) -> bool {
    s.finite() && (s.len() > 0 ==> min_row(s) == 0 && min_col(s) == 0)
}

/// Quarter turn of a shape within its bounding box: `(r, c)` maps to
/// `(c, max_row - r)`.
#[verifier::opaque]
pub open spec fn rotate90(s: Set<(int, int)>) -> Set<(int, int)> {
    s.map(|p: (int, int)| (p.1, max_row(s) - p.0))
}

/// Vertical flip of a shape within its bounding box: `(r, c)` maps to
/// `(max_row - r, c)`.
#[verifier::opaque]
pub open spec fn flip_vert(s: Set<(int, int)>) -> Set<(int, int)> {
    s.map(|p: (int, int)| (max_row(s) - p.0, p.1))
}

/// Quarter turn about the lattice origin.
#[verifier::opaque]
pub open spec fn rot_origin(s: Set<(int, int)>) -> Set<(int, int)> {
    s.map(|p: (int, int)| (p.1, -p.0))
}

/// Row reflection about the lattice origin.
#[verifier::opaque]
pub open spec fn flip_origin(s: Set<(int, int)>) -> Set<(int, int)> {
    s.map(|p: (int, int)| (-p.0, p.1))
}

/// Transpose of a shape; the composite the dihedral identities go through.
#[verifier::opaque]
pub open spec fn transpose(s: Set<(int, int)>) -> Set<(int, int)> {
    s.map(|p: (int, int)| (p.1, p.0))
}

// Membership characterizations of the transforms.  Each map used above is a
// bijection of the plane, so membership of the image is membership of the
// preimage.

pub proof fn lemma_translate_contains(s: Set<(int, int)>, dy: int, dx: int)
    ensures
        forall|q: (int, int)| #[trigger] translate(s, dy, dx).contains(q) <==> s.contains(
            (q.0 - dy, q.1 - dx),
        ),
{
    reveal(translate);
    assert forall|q: (int, int)|
        #[trigger] translate(s, dy, dx).contains(q) <==> s.contains((q.0 - dy, q.1 - dx)) by {
        if s.contains((q.0 - dy, q.1 - dx)) {
            assert(translate(s, dy, dx).contains(
                ((q.0 - dy) + dy, (q.1 - dx) + dx),
            ));
        }
    }
}

pub proof fn lemma_rotate90_contains(s: Set<(int, int)>)
    ensures
        forall|q: (int, int)| #[trigger] rotate90(s).contains(q) <==> s.contains(
            (max_row(s) - q.1, q.0),
        ),
{
    reveal(rotate90);
    let r = max_row(s);
    assert forall|q: (int, int)| #[trigger] rotate90(s).contains(q) <==> s.contains(
        (r - q.1, q.0),
    ) by {
        if s.contains((r - q.1, q.0)) {
            let p = (r - q.1, q.0);
            assert(rotate90(s).contains((p.1, r - p.0)));
        }
    }
}

pub proof fn lemma_flip_vert_contains(s: Set<(int, int)>)
    ensures
        forall|q: (int, int)| #[trigger] flip_vert(s).contains(q) <==> s.contains(
            (max_row(s) - q.0, q.1),
        ),
{
    reveal(flip_vert);
    let r = max_row(s);
    assert forall|q: (int, int)| #[trigger] flip_vert(s).contains(q) <==> s.contains(
        (r - q.0, q.1),
    ) by {
        if s.contains((r - q.0, q.1)) {
            let p = (r - q.0, q.1);
            assert(flip_vert(s).contains((r - p.0, p.1)));
        }
    }
}

pub proof fn lemma_rot_origin_contains(s: Set<(int, int)>)
    ensures
        forall|q: (int, int)| #[trigger] rot_origin(s).contains(q) <==> s.contains(
            (-q.1, q.0),
        ),
{
    reveal(rot_origin);
    assert forall|q: (int, int)| #[trigger] rot_origin(s).contains(q) <==> s.contains(
        (-q.1, q.0),
    ) by {
        if s.contains((-q.1, q.0)) {
            let p = (-q.1, q.0);
            assert(rot_origin(s).contains((p.1, -p.0)));
        }
    }
}

pub proof fn lemma_flip_origin_contains(s: Set<(int, int)>)
    ensures
        forall|q: (int, int)| #[trigger] flip_origin(s).contains(q) <==> s.contains(
            (-q.0, q.1),
        ),
{
    reveal(flip_origin);
    assert forall|q: (int, int)| #[trigger] flip_origin(s).contains(q) <==> s.contains(
        (-q.0, q.1),
    ) by {
        if s.contains((-q.0, q.1)) {
            let p = (-q.0, q.1);
            assert(flip_origin(s).contains((-p.0, p.1)));
        }
    }
}

/// A finite nonempty shape has a bounding box.
pub proof fn lemma_box(s: Set<(int, int)>)
    requires
        s.finite(),
        s.len() > 0,
    ensures
        forall|p: (int, int)| #[trigger] s.contains(p) ==> min_row(s) <= p.0 <= max_row(s)
            && min_col(s) <= p.1 <= max_col(s),
        exists|p: (int, int)| s.contains(p) && p.0 == min_row(s),
        exists|p: (int, int)| s.contains(p) && p.0 == max_row(s),
        exists|p: (int, int)| s.contains(p) && p.1 == min_col(s),
        exists|p: (int, int)| s.contains(p) && p.1 == max_col(s),
{
    s.lemma_map_finite(|p: (int, int)| p.0);
    s.lemma_map_finite(|p: (int, int)| p.1);
    let p0 = s.choose();
    assert(s.contains(p0));
    assert(rows(s).contains(p0.0));
    assert(cols(s).contains(p0.1));
    assert(rows(s).len() > 0) by {
        assert(rows(s).remove(p0.0).len() == rows(s).len() - 1);
    }
    assert(cols(s).len() > 0) by {
        assert(cols(s).remove(p0.1).len() == cols(s).len() - 1);
    }
    lemma_int_extremes(rows(s));
    lemma_int_extremes(cols(s));
    assert forall|p: (int, int)| #[trigger] s.contains(p) implies min_row(s) <= p.0 <= max_row(s)
        && min_col(s) <= p.1 <= max_col(s) by {
        assert(rows(s).contains(p.0));
        assert(cols(s).contains(p.1));
    }
    assert(rows(s).contains(min_row(s)));
    assert(rows(s).contains(max_row(s)));
    assert(cols(s).contains(min_col(s)));
    assert(cols(s).contains(max_col(s)));
}

/// An image of a finite nonempty shape under a coordinate map is finite and
/// nonempty.
pub proof fn lemma_map_keeps_size(s: Set<(int, int)>, f: spec_fn((int, int)) -> (int, int))
    requires
        s.finite(),
        s.len() > 0,
    ensures
        s.map(f).finite(),
        s.map(f).len() > 0,
{
    s.lemma_map_finite(f);
    let p0 = s.choose();
    assert(s.contains(p0));
    assert(s.map(f).contains(f(p0)));
    assert(s.map(f).remove(f(p0)).len() == s.map(f).len() - 1);
}

/// Bounding box of a translated shape.
pub proof fn lemma_translate_box(s: Set<(int, int)>, dy: int, dx: int)
    requires
        s.finite(),
        s.len() > 0,
    ensures
        translate(s, dy, dx).finite(),
        translate(s, dy, dx).len() > 0,
        min_row(translate(s, dy, dx)) == min_row(s) + dy,
        max_row(translate(s, dy, dx)) == max_row(s) + dy,
        min_col(translate(s, dy, dx)) == min_col(s) + dx,
        max_col(translate(s, dy, dx)) == max_col(s) + dx,
{
    reveal(translate);
    let t = translate(s, dy, dx);
    lemma_map_keeps_size(s, |p: (int, int)| (p.0 + dy, p.1 + dx));
    lemma_translate_contains(s, dy, dx);
    lemma_box(s);
    let pr = choose|p: (int, int)| s.contains(p) && p.0 == min_row(s);
    assert(t.contains((pr.0 + dy, pr.1 + dx)));
    assert(rows(t).contains(min_row(s) + dy));
    assert forall|y: int| rows(t).contains(y) implies min_row(s) + dy <= y by {
        let q = choose|q: (int, int)| t.contains(q) && q.0 == y;
        assert(s.contains((q.0 - dy, q.1 - dx)));
    }
    lemma_int_least_is(rows(t), min_row(s) + dy);
    let pr2 = choose|p: (int, int)| s.contains(p) && p.0 == max_row(s);
    assert(t.contains((pr2.0 + dy, pr2.1 + dx)));
    assert(rows(t).contains(max_row(s) + dy));
    assert forall|y: int| rows(t).contains(y) implies y <= max_row(s) + dy by {
        let q = choose|q: (int, int)| t.contains(q) && q.0 == y;
        assert(s.contains((q.0 - dy, q.1 - dx)));
    }
    lemma_int_greatest_is(rows(t), max_row(s) + dy);
    let pc = choose|p: (int, int)| s.contains(p) && p.1 == min_col(s);
    assert(t.contains((pc.0 + dy, pc.1 + dx)));
    assert(cols(t).contains(min_col(s) + dx));
    assert forall|x: int| cols(t).contains(x) implies min_col(s) + dx <= x by {
        let q = choose|q: (int, int)| t.contains(q) && q.1 == x;
        assert(s.contains((q.0 - dy, q.1 - dx)));
    }
    lemma_int_least_is(cols(t), min_col(s) + dx);
    let pc2 = choose|p: (int, int)| s.contains(p) && p.1 == max_col(s);
    assert(t.contains((pc2.0 + dy, pc2.1 + dx)));
    assert(cols(t).contains(max_col(s) + dx));
    assert forall|x: int| cols(t).contains(x) implies x <= max_col(s) + dx by {
        let q = choose|q: (int, int)| t.contains(q) && q.1 == x;
        assert(s.contains((q.0 - dy, q.1 - dx)));
    }
    lemma_int_greatest_is(cols(t), max_col(s) + dx);
}

/// Bounding box of a quarter turn of a normal shape.
pub proof fn lemma_rotate90_box(t: Set<(int, int)>)
    requires
        t.finite(),
        t.len() > 0,
        is_normal(t),
    ensures
        rotate90(t).finite(),
        rotate90(t).len() > 0,
        is_normal(rotate90(t)),
        max_row(rotate90(t)) == max_col(t),
        max_col(rotate90(t)) == max_row(t),
{
    reveal(rotate90);
    let r = max_row(t);
    let u = rotate90(t);
    lemma_map_keeps_size(t, |p: (int, int)| (p.1, r - p.0));
    lemma_rotate90_contains(t);
    lemma_box(t);
    // rows of the image are the columns of t
    let pc = choose|p: (int, int)| t.contains(p) && p.1 == max_col(t);
    assert(u.contains((pc.1, r - pc.0)));
    assert(rows(u).contains(max_col(t)));
    assert forall|y: int| rows(u).contains(y) implies y <= max_col(t) by {
        let q = choose|q: (int, int)| u.contains(q) && q.0 == y;
        assert(t.contains((r - q.1, q.0)));
    }
    lemma_int_greatest_is(rows(u), max_col(t));
    let pc0 = choose|p: (int, int)| t.contains(p) && p.1 == min_col(t);
    assert(u.contains((pc0.1, r - pc0.0)));
    assert(rows(u).contains(min_col(t)));
    assert forall|y: int| rows(u).contains(y) implies min_col(t) <= y by {
        let q = choose|q: (int, int)| u.contains(q) && q.0 == y;
        assert(t.contains((r - q.1, q.0)));
    }
    lemma_int_least_is(rows(u), min_col(t));
    // columns of the image are r minus the rows of t
    let pr0 = choose|p: (int, int)| t.contains(p) && p.0 == min_row(t);
    assert(u.contains((pr0.1, r - pr0.0)));
    assert(cols(u).contains(r - min_row(t)));
    assert forall|x: int| cols(u).contains(x) implies x <= r - min_row(t) by {
        let q = choose|q: (int, int)| u.contains(q) && q.1 == x;
        assert(t.contains((r - q.1, q.0)));
    }
    lemma_int_greatest_is(cols(u), r - min_row(t));
    let pr = choose|p: (int, int)| t.contains(p) && p.0 == max_row(t);
    assert(u.contains((pr.1, r - pr.0)));
    assert(cols(u).contains(r - max_row(t)));
    assert forall|x: int| cols(u).contains(x) implies r - max_row(t) <= x by {
        let q = choose|q: (int, int)| u.contains(q) && q.1 == x;
        assert(t.contains((r - q.1, q.0)));
    }
    lemma_int_least_is(cols(u), r - max_row(t));
}

/// Bounding box of a vertical flip of a normal shape.
pub proof fn lemma_flip_vert_box(t: Set<(int, int)>)
    requires
        t.finite(),
        t.len() > 0,
        is_normal(t),
    ensures
        flip_vert(t).finite(),
        flip_vert(t).len() > 0,
        is_normal(flip_vert(t)),
        max_row(flip_vert(t)) == max_row(t),
        max_col(flip_vert(t)) == max_col(t),
{
    reveal(flip_vert);
    let r = max_row(t);
    let u = flip_vert(t);
    lemma_map_keeps_size(t, |p: (int, int)| (r - p.0, p.1));
    lemma_flip_vert_contains(t);
    lemma_box(t);
    // rows of the image are r minus the rows of t
    let pr0 = choose|p: (int, int)| t.contains(p) && p.0 == min_row(t);
    assert(u.contains((r - pr0.0, pr0.1)));
    assert(rows(u).contains(r - min_row(t)));
    assert forall|y: int| rows(u).contains(y) implies y <= r - min_row(t) by {
        let q = choose|q: (int, int)| u.contains(q) && q.0 == y;
        assert(t.contains((r - q.0, q.1)));
    }
    lemma_int_greatest_is(rows(u), r - min_row(t));
    let pr = choose|p: (int, int)| t.contains(p) && p.0 == max_row(t);
    assert(u.contains((r - pr.0, pr.1)));
    assert(rows(u).contains(r - max_row(t)));
    assert forall|y: int| rows(u).contains(y) implies r - max_row(t) <= y by {
        let q = choose|q: (int, int)| u.contains(q) && q.0 == y;
        assert(t.contains((r - q.0, q.1)));
    }
    lemma_int_least_is(rows(u), r - max_row(t));
    // columns are unchanged
    let pc0 = choose|p: (int, int)| t.contains(p) && p.1 == min_col(t);
    assert(u.contains((r - pc0.0, pc0.1)));
    assert(cols(u).contains(min_col(t)));
    assert forall|x: int| cols(u).contains(x) implies min_col(t) <= x by {
        let q = choose|q: (int, int)| u.contains(q) && q.1 == x;
        assert(t.contains((r - q.0, q.1)));
    }
    lemma_int_least_is(cols(u), min_col(t));
    let pc = choose|p: (int, int)| t.contains(p) && p.1 == max_col(t);
    assert(u.contains((r - pc.0, pc.1)));
    assert(cols(u).contains(max_col(t)));
    assert forall|x: int| cols(u).contains(x) implies x <= max_col(t) by {
        let q = choose|q: (int, int)| u.contains(q) && q.1 == x;
        assert(t.contains((r - q.0, q.1)));
    }
    lemma_int_greatest_is(cols(u), max_col(t));
}

pub proof fn lemma_transpose_contains(s: Set<(int, int)>)
    ensures
        forall|q: (int, int)| #[trigger] transpose(s).contains(q) <==> s.contains((q.1, q.0)),
{
    reveal(transpose);
    assert forall|q: (int, int)| #[trigger] transpose(s).contains(q) <==> s.contains(
        (q.1, q.0),
    ) by {
        if s.contains((q.1, q.0)) {
            let p = (q.1, q.0);
            assert(transpose(s).contains((p.1, p.0)));
        }
    }
}

/// Bounding box of a quarter turn about the origin.
pub proof fn lemma_rot_origin_box(s: Set<(int, int)>)
    requires
        s.finite(),
        s.len() > 0,
    ensures
        rot_origin(s).finite(),
        rot_origin(s).len() > 0,
        min_row(rot_origin(s)) == min_col(s),
        min_col(rot_origin(s)) == -max_row(s),
{
    reveal(rot_origin);
    let u = rot_origin(s);
    lemma_map_keeps_size(s, |p: (int, int)| (p.1, -p.0));
    lemma_rot_origin_contains(s);
    lemma_box(s);
    let pc0 = choose|p: (int, int)| s.contains(p) && p.1 == min_col(s);
    assert(u.contains((pc0.1, -pc0.0)));
    assert(rows(u).contains(min_col(s)));
    assert forall|y: int| rows(u).contains(y) implies min_col(s) <= y by {
        let q = choose|q: (int, int)| u.contains(q) && q.0 == y;
        assert(s.contains((-q.1, q.0)));
    }
    lemma_int_least_is(rows(u), min_col(s));
    let pr = choose|p: (int, int)| s.contains(p) && p.0 == max_row(s);
    assert(u.contains((pr.1, -pr.0)));
    assert(cols(u).contains(-max_row(s)));
    assert forall|x: int| cols(u).contains(x) implies -max_row(s) <= x by {
        let q = choose|q: (int, int)| u.contains(q) && q.1 == x;
        assert(s.contains((-q.1, q.0)));
    }
    lemma_int_least_is(cols(u), -max_row(s));
}

/// Bounding box of a row reflection about the origin.
pub proof fn lemma_flip_origin_box(s: Set<(int, int)>)
    requires
        s.finite(),
        s.len() > 0,
    ensures
        flip_origin(s).finite(),
        flip_origin(s).len() > 0,
        min_row(flip_origin(s)) == -max_row(s),
        min_col(flip_origin(s)) == min_col(s),
{
    reveal(flip_origin);
    let u = flip_origin(s);
    lemma_map_keeps_size(s, |p: (int, int)| (-p.0, p.1));
    lemma_flip_origin_contains(s);
    lemma_box(s);
    let pr = choose|p: (int, int)| s.contains(p) && p.0 == max_row(s);
    assert(u.contains((-pr.0, pr.1)));
    assert(rows(u).contains(-max_row(s)));
    assert forall|y: int| rows(u).contains(y) implies -max_row(s) <= y by {
        let q = choose|q: (int, int)| u.contains(q) && q.0 == y;
        assert(s.contains((-q.0, q.1)));
    }
    lemma_int_least_is(rows(u), -max_row(s));
    let pc0 = choose|p: (int, int)| s.contains(p) && p.1 == min_col(s);
    assert(u.contains((-pc0.0, pc0.1)));
    assert(cols(u).contains(min_col(s)));
    assert forall|x: int| cols(u).contains(x) implies min_col(s) <= x by {
        let q = choose|q: (int, int)| u.contains(q) && q.1 == x;
        assert(s.contains((-q.0, q.1)));
    }
    lemma_int_least_is(cols(u), min_col(s));
}

// ---------------------------------------------------------------------------
// Composition identities
// ---------------------------------------------------------------------------

/// Translations compose by adding their offsets.
pub proof fn lemma_translate_translate(s: Set<(int, int)>, a: int, b: int, c: int, d: int)
    ensures
        translate(translate(s, a, b), c, d) == translate(s, a + c, b + d),
{
    lemma_translate_contains(s, a, b);
    lemma_translate_contains(translate(s, a, b), c, d);
    lemma_translate_contains(s, a + c, b + d);
    assert(translate(translate(s, a, b), c, d) =~= translate(s, a + c, b + d));
}

/// The zero translation is the identity.
pub proof fn lemma_translate_zero(s: Set<(int, int)>)
    ensures
        translate(s, 0, 0) == s,
{
    lemma_translate_contains(s, 0, 0);
    assert(translate(s, 0, 0) =~= s);
}

/// A quarter turn about the origin commutes with translation.
pub proof fn lemma_rot_origin_translate(s: Set<(int, int)>, dy: int, dx: int)
    ensures
        rot_origin(translate(s, dy, dx)) == translate(rot_origin(s), dx, -dy),
{
    lemma_translate_contains(s, dy, dx);
    lemma_rot_origin_contains(translate(s, dy, dx));
    lemma_rot_origin_contains(s);
    lemma_translate_contains(rot_origin(s), dx, -dy);
    assert(rot_origin(translate(s, dy, dx)) =~= translate(rot_origin(s), dx, -dy));
}

/// A row reflection about the origin commutes with translation.
pub proof fn lemma_flip_origin_translate(s: Set<(int, int)>, dy: int, dx: int)
    ensures
        flip_origin(translate(s, dy, dx)) == translate(flip_origin(s), -dy, dx),
{
    lemma_translate_contains(s, dy, dx);
    lemma_flip_origin_contains(translate(s, dy, dx));
    lemma_flip_origin_contains(s);
    lemma_translate_contains(flip_origin(s), -dy, dx);
    assert(flip_origin(translate(s, dy, dx)) =~= translate(flip_origin(s), -dy, dx));
}

/// Within the bounding box, a quarter turn is the origin turn followed by a
/// translation.
pub proof fn lemma_rotate90_via_origin(t: Set<(int, int)>)
    ensures
        rotate90(t) == translate(rot_origin(t), 0, max_row(t)),
{
    lemma_rotate90_contains(t);
    lemma_rot_origin_contains(t);
    lemma_translate_contains(rot_origin(t), 0, max_row(t));
    assert(rotate90(t) =~= translate(rot_origin(t), 0, max_row(t)));
}

/// Within the bounding box, a vertical flip is the origin reflection followed
/// by a translation.
pub proof fn lemma_flip_vert_via_origin(t: Set<(int, int)>)
    ensures
        flip_vert(t) == translate(flip_origin(t), max_row(t), 0),
{
    lemma_flip_vert_contains(t);
    lemma_flip_origin_contains(t);
    lemma_translate_contains(flip_origin(t), max_row(t), 0);
    assert(flip_vert(t) =~= translate(flip_origin(t), max_row(t), 0));
}

// ---------------------------------------------------------------------------
// Normalization
// ---------------------------------------------------------------------------

/// A finite empty shape is the empty set, and every lattice map sends it to
/// itself.
pub proof fn lemma_empty_shape(s: Set<(int, int)>, f: spec_fn((int, int)) -> (int, int))
    requires
        s.finite(),
        s.len() == 0,
    ensures
        s == Set::<(int, int)>::empty(),
        s.map(f) == s,
{
    s.lemma_len0_is_empty();
    assert(s.map(f) =~= s) by {
        assert(forall|q: (int, int)| !s.map(f).contains(q)) by {
            assert(forall|p: (int, int)| !s.contains(p));
        }
    }
}

/// Normalization yields a normal shape of the same size.
pub proof fn lemma_normalize_is_normal(s: Set<(int, int)>)
    requires
        s.finite(),
    ensures
        is_normal(bbox_normalize(s)),
        bbox_normalize(s).finite(),
        bbox_normalize(s).len() == 0 <==> s.len() == 0,
{
    if s.len() == 0 {
    } else {
        lemma_translate_box(s, -min_row(s), -min_col(s));
    }
}

/// A normal shape is its own normalization.
pub proof fn lemma_normal_fixed(t: Set<(int, int)>)
    requires
        is_normal(t),
    ensures
        bbox_normalize(t) == t,
{
    if t.len() > 0 {
        lemma_translate_zero(t);
    }
}

/// Normalization is invariant under translation.
pub proof fn lemma_normalize_translate(s: Set<(int, int)>, dy: int, dx: int)
    requires
        s.finite(),
    ensures
        bbox_normalize(translate(s, dy, dx)) == bbox_normalize(s),
{
    reveal(translate);
    if s.len() == 0 {
        lemma_empty_shape(s, |p: (int, int)| (p.0 + dy, p.1 + dx));
    } else {
        lemma_translate_box(s, dy, dx);
        let t = translate(s, dy, dx);
        lemma_translate_translate(s, dy, dx, -min_row(t), -min_col(t));
        assert(bbox_normalize(t) == translate(s, -min_row(s), -min_col(s)));
    }
}

/// Normalizing the origin turn of a shape is the quarter turn of its
/// normalization.
pub proof fn lemma_normalize_rot_origin(s: Set<(int, int)>)
    requires
        s.finite(),
    ensures
        bbox_normalize(rot_origin(s)) == rotate90(bbox_normalize(s)),
{
    reveal(rot_origin);
    reveal(rotate90);
    if s.len() == 0 {
        lemma_empty_shape(s, |p: (int, int)| (p.1, -p.0));
        let n = bbox_normalize(s);
        lemma_empty_shape(n, |p: (int, int)| (p.1, max_row(n) - p.0));
    } else {
        lemma_box(s);
        let minr = min_row(s);
        let minc = min_col(s);
        let maxr = max_row(s);
        let n0 = bbox_normalize(s);
        lemma_translate_box(s, -minr, -minc);
        // the right-hand side, pushed through the origin turn
        lemma_rotate90_via_origin(n0);
        lemma_rot_origin_translate(s, -minr, -minc);
        lemma_translate_translate(rot_origin(s), -minc, minr, 0, maxr - minr);
        assert(rotate90(n0) == translate(rot_origin(s), -minc, maxr));
        // the left-hand side
        lemma_rot_origin_box(s);
        assert(bbox_normalize(rot_origin(s)) == translate(rot_origin(s), -minc, maxr));
    }
}

/// Normalizing the origin reflection of a shape is the vertical flip of its
/// normalization.
pub proof fn lemma_normalize_flip_origin(s: Set<(int, int)>)
    requires
        s.finite(),
    ensures
        bbox_normalize(flip_origin(s)) == flip_vert(bbox_normalize(s)),
{
    reveal(flip_origin);
    reveal(flip_vert);
    if s.len() == 0 {
        lemma_empty_shape(s, |p: (int, int)| (-p.0, p.1));
        let n = bbox_normalize(s);
        lemma_empty_shape(n, |p: (int, int)| (max_row(n) - p.0, p.1));
    } else {
        lemma_box(s);
        let minr = min_row(s);
        let minc = min_col(s);
        let maxr = max_row(s);
        let n0 = bbox_normalize(s);
        lemma_translate_box(s, -minr, -minc);
        lemma_flip_vert_via_origin(n0);
        lemma_flip_origin_translate(s, -minr, -minc);
        lemma_translate_translate(flip_origin(s), minr, -minc, maxr - minr, 0);
        assert(flip_vert(n0) == translate(flip_origin(s), maxr, -minc));
        lemma_flip_origin_box(s);
        assert(bbox_normalize(flip_origin(s)) == translate(flip_origin(s), maxr, -minc));
    }
}

// ---------------------------------------------------------------------------
// The dihedral identities on normal shapes
// ---------------------------------------------------------------------------

/// Membership and bounding boxes of the first three quarter turns of a
/// normal shape.
pub proof fn lemma_rot_chain(t: Set<(int, int)>)
    requires
        t.finite(),
        t.len() > 0,
        is_normal(t),
    ensures
        rotate90(t).finite() && rotate90(t).len() > 0 && is_normal(rotate90(t)),
        rotate90(rotate90(t)).finite() && rotate90(rotate90(t)).len() > 0 && is_normal(
            rotate90(rotate90(t)),
        ),
        rotate90(rotate90(rotate90(t))).finite() && rotate90(rotate90(rotate90(t))).len() > 0
            && is_normal(rotate90(rotate90(rotate90(t)))),
        max_row(rotate90(t)) == max_col(t),
        max_row(rotate90(rotate90(t))) == max_row(t),
        max_row(rotate90(rotate90(rotate90(t)))) == max_col(t),
        forall|q: (int, int)| #[trigger] rotate90(rotate90(t)).contains(q) <==> t.contains(
            (max_row(t) - q.0, max_col(t) - q.1),
        ),
        forall|q: (int, int)| #[trigger]
            rotate90(rotate90(rotate90(t))).contains(q) <==> t.contains(
            (q.1, max_col(t) - q.0),
        ),
{
    let r = max_row(t);
    let c = max_col(t);
    let t1 = rotate90(t);
    lemma_rotate90_box(t);
    let t2 = rotate90(t1);
    lemma_rotate90_box(t1);
    let t3 = rotate90(t2);
    lemma_rotate90_box(t2);
    lemma_rotate90_contains(t);
    lemma_rotate90_contains(t1);
    lemma_rotate90_contains(t2);
    assert forall|q: (int, int)| #[trigger] t2.contains(q) <==> t.contains(
        (r - q.0, c - q.1),
    ) by {
        assert(t2.contains(q) <==> t1.contains((c - q.1, q.0)));
        assert(t1.contains((c - q.1, q.0)) <==> t.contains((r - q.0, c - q.1)));
    }
    assert forall|q: (int, int)| #[trigger] t3.contains(q) <==> t.contains((q.1, c - q.0)) by {
        assert(t3.contains(q) <==> t2.contains((r - q.1, q.0)));
        assert(t2.contains((r - q.1, q.0)) <==> t.contains((r - (r - q.1), c - q.0)));
        assert((r - (r - q.1), c - q.0) == (q.1, c - q.0));
    }
}

/// Four quarter turns of a normal shape are the identity.
pub proof fn lemma_rot4(t: Set<(int, int)>)
    requires
        t.finite(),
        t.len() > 0,
        is_normal(t),
    ensures
        rotate90(rotate90(rotate90(rotate90(t)))) == t,
{
    let c = max_col(t);
    lemma_rot_chain(t);
    let t3 = rotate90(rotate90(rotate90(t)));
    lemma_rotate90_contains(t3);
    assert(rotate90(t3) =~= t) by {
        assert forall|q: (int, int)| #[trigger] rotate90(t3).contains(q) <==> t.contains(q) by {
            assert(rotate90(t3).contains(q) <==> t3.contains((c - q.1, q.0)));
            assert(t3.contains((c - q.1, q.0)) <==> t.contains((q.0, c - (c - q.1))));
            assert((q.0, c - (c - q.1)) == q);
        }
    }
}

/// Two vertical flips of a normal shape are the identity.
pub proof fn lemma_flip2(t: Set<(int, int)>)
    requires
        t.finite(),
        t.len() > 0,
        is_normal(t),
    ensures
        flip_vert(flip_vert(t)) == t,
{
    let r = max_row(t);
    let f = flip_vert(t);
    lemma_flip_vert_box(t);
    lemma_flip_vert_contains(t);
    lemma_flip_vert_contains(f);
    assert(flip_vert(f) =~= t) by {
        assert forall|q: (int, int)| #[trigger] flip_vert(f).contains(q) <==> t.contains(q) by {
            assert(flip_vert(f).contains(q) <==> f.contains((r - q.0, q.1)));
            assert(f.contains((r - q.0, q.1)) <==> t.contains((r - (r - q.0), q.1)));
            assert((r - (r - q.0), q.1) == q);
        }
    }
}

/// A quarter turn of a flipped normal shape is its transpose.
pub proof fn lemma_rot_flip_transpose(t: Set<(int, int)>)
    requires
        t.finite(),
        t.len() > 0,
        is_normal(t),
    ensures
        rotate90(flip_vert(t)) == transpose(t),
{
    let r = max_row(t);
    let f = flip_vert(t);
    lemma_flip_vert_box(t);
    lemma_flip_vert_contains(t);
    lemma_rotate90_contains(f);
    lemma_transpose_contains(t);
    assert(rotate90(f) =~= transpose(t)) by {
        assert forall|q: (int, int)|
            #[trigger] rotate90(f).contains(q) <==> transpose(t).contains(q) by {
            assert(rotate90(f).contains(q) <==> f.contains((r - q.1, q.0)));
            assert(f.contains((r - q.1, q.0)) <==> t.contains((r - (r - q.1), q.0)));
            assert((r - (r - q.1), q.0) == (q.1, q.0));
        }
    }
}

/// A flip of three quarter turns of a normal shape is its transpose.
pub proof fn lemma_flip_rot3_transpose(t: Set<(int, int)>)
    requires
        t.finite(),
        t.len() > 0,
        is_normal(t),
    ensures
        flip_vert(rotate90(rotate90(rotate90(t)))) == transpose(t),
{
    let c = max_col(t);
    lemma_rot_chain(t);
    let t3 = rotate90(rotate90(rotate90(t)));
    lemma_flip_vert_contains(t3);
    lemma_transpose_contains(t);
    assert(flip_vert(t3) =~= transpose(t)) by {
        assert forall|q: (int, int)|
            #[trigger] flip_vert(t3).contains(q) <==> transpose(t).contains(q) by {
            assert(flip_vert(t3).contains(q) <==> t3.contains((c - q.0, q.1)));
            assert(t3.contains((c - q.0, q.1)) <==> t.contains((q.1, c - (c - q.0))));
            assert((q.1, c - (c - q.0)) == (q.1, q.0));
        }
    }
}

// ---------------------------------------------------------------------------
// The canonical form
// ---------------------------------------------------------------------------

/// The eight symmetric images of a shape, each taken within its bounding box.
pub open spec fn images(s: Set<(int, int)>) -> Seq<Set<(int, int)>> {
    let n0 = bbox_normalize(s);
    let n1 = rotate90(n0);
    let n2 = rotate90(n1);
    let n3 = rotate90(n2);
    seq![
        n0,
        n1,
        n2,
        n3,
        flip_vert(n0),
        flip_vert(n1),
        flip_vert(n2),
        flip_vert(n3),
    ]
}

/// The sorted coordinate lists of the eight symmetric images.
pub open spec fn image_reprs(s: Set<(int, int)>) -> Set<Seq<(int, int)>> {
    images(s).to_set().map(|t: Set<(int, int)>| shape_repr(t))
}

/// The canonical form of a shape: the lexicographically least sorted
/// coordinate list among its eight symmetric images.
pub open spec fn canonical(s: Set<(int, int)>) -> Seq<(int, int)> {
    choose|q: Seq<(int, int)>|
        image_reprs(s).contains(q) && (forall|r: Seq<(int, int)>|
            image_reprs(s).contains(r) ==> seq_le(q, r))
}

/// Every image of a shape is finite and normal, and empty exactly when the
/// shape is.
pub proof fn lemma_images_wf(s: Set<(int, int)>)
    requires
        s.finite(),
    ensures
        forall|i: int|
            0 <= i < 8 ==> (#[trigger] images(s)[i]).finite() && is_normal(images(s)[i]) && (
            images(s)[i].len() > 0 <==> s.len() > 0),
        images(s).len() == 8,
{
    reveal(rotate90);
    reveal(flip_vert);
    let n0 = bbox_normalize(s);
    lemma_normalize_is_normal(s);
    if s.len() == 0 {
        lemma_empty_shape(n0, |p: (int, int)| (p.1, max_row(n0) - p.0));
        assert(rotate90(n0) == n0);
        lemma_empty_shape(n0, |p: (int, int)| (max_row(n0) - p.0, p.1));
        assert(flip_vert(n0) == n0);
        assert(forall|i: int| 0 <= i < 8 ==> images(s)[i] == n0);
    } else {
        let n1 = rotate90(n0);
        let n2 = rotate90(n1);
        let n3 = rotate90(n2);
        lemma_rotate90_box(n0);
        lemma_rotate90_box(n1);
        lemma_rotate90_box(n2);
        lemma_flip_vert_box(n0);
        lemma_flip_vert_box(n1);
        lemma_flip_vert_box(n2);
        lemma_flip_vert_box(n3);
    }
}

/// The least element of a shape in lexicographic order.
pub open spec fn is_pair_least(s: Set<(int, int)>, m: (int, int)) -> bool {
    s.contains(m) && forall|p: (int, int)| #[trigger] s.contains(p) ==> pair_le(m, p)
}

/// Every finite nonempty shape has a lexicographically least element.
pub proof fn lemma_pair_least(s: Set<(int, int)>)
    requires
        s.finite(),
        s.len() > 0,
    ensures
        exists|m: (int, int)| is_pair_least(s, m),
    decreases s.len(),
{
    let x0 = s.choose();
    assert(s.contains(x0));
    let rest = s.remove(x0);
    if rest.len() == 0 {
        rest.lemma_len0_is_empty();
        assert(is_pair_least(s, x0));
    } else {
        lemma_pair_least(rest);
        let m0 = choose|m: (int, int)| is_pair_least(rest, m);
        if pair_le(m0, x0) {
            assert(is_pair_least(s, m0));
        } else {
            assert(is_pair_least(s, x0));
        }
    }
}

/// Every finite shape has a strictly ascending enumeration.
pub proof fn lemma_repr_exists(s: Set<(int, int)>)
    requires
        s.finite(),
    ensures
        ascending(shape_repr(s)),
        shape_repr(s).to_set() == s,
    decreases s.len(),
{
    if s.len() == 0 {
        s.lemma_len0_is_empty();
        let q = Seq::<(int, int)>::empty();
        assert(q.to_set() =~= s);
        lemma_shape_repr_is(s, q);
    } else {
        lemma_pair_least(s);
        let m = choose|m: (int, int)| is_pair_least(s, m);
        let rest = s.remove(m);
        lemma_repr_exists(rest);
        let q0 = shape_repr(rest);
        let q = seq![m] + q0;
        assert(ascending(q)) by {
            assert forall|i: int, j: int| 0 <= i < j < q.len() implies pair_lt(q[i], q[j]) by {
                if i == 0 {
                    assert(q0.to_set().contains(q0[j - 1]));
                    assert(rest.contains(q0[j - 1]));
                    assert(s.contains(q0[j - 1]));
                    assert(pair_le(m, q0[j - 1]));
                    assert(q0[j - 1] != m);
                } else {
                    assert(pair_lt(q0[i - 1], q0[j - 1]));
                }
            }
        }
        assert(q.to_set() =~= s) by {
            assert forall|p: (int, int)| q.to_set().contains(p) implies s.contains(p) by {
                let i = choose|i: int| 0 <= i < q.len() && q[i] == p;
                if i > 0 {
                    assert(q0.to_set().contains(q0[i - 1]));
                    assert(rest.contains(p));
                }
            }
            assert forall|p: (int, int)| s.contains(p) implies q.to_set().contains(p) by {
                if p == m {
                    assert(q[0] == p);
                } else {
                    assert(rest.contains(p));
                    assert(q0.to_set().contains(p));
                    let i = choose|i: int| 0 <= i < q0.len() && q0[i] == p;
                    assert(q[i + 1] == p);
                }
            }
        }
        lemma_shape_repr_is(s, q);
    }
}

/// Every finite nonempty set of coordinate lists has a lexicographically
/// least element.
pub proof fn lemma_seq_set_least(ss: Set<Seq<(int, int)>>)
    requires
        ss.finite(),
        ss.len() > 0,
    ensures
        exists|q: Seq<(int, int)>|
            ss.contains(q) && (forall|r: Seq<(int, int)>| #[trigger]
                ss.contains(r) ==> seq_le(q, r)),
    decreases ss.len(),
{
    let x0 = ss.choose();
    assert(ss.contains(x0));
    let rest = ss.remove(x0);
    if rest.len() == 0 {
        rest.lemma_len0_is_empty();
        assert(ss.contains(x0) && (forall|r: Seq<(int, int)>| #[trigger]
            ss.contains(r) ==> seq_le(x0, r))) by {
            assert forall|r: Seq<(int, int)>| #[trigger] ss.contains(r) implies seq_le(
                x0,
                r,
            ) by {
                if r != x0 {
                    assert(rest.contains(r));
                }
                lemma_seq_lt_total(x0, r);
            }
        }
    } else {
        lemma_seq_set_least(rest);
        let m0 = choose|q: Seq<(int, int)>|
            rest.contains(q) && (forall|r: Seq<(int, int)>| #[trigger]
                rest.contains(r) ==> seq_le(q, r));
        lemma_seq_lt_total(m0, x0);
        if seq_le(m0, x0) {
            assert(ss.contains(m0) && (forall|r: Seq<(int, int)>| #[trigger]
                ss.contains(r) ==> seq_le(m0, r))) by {
                assert forall|r: Seq<(int, int)>| #[trigger] ss.contains(r) implies seq_le(
                    m0,
                    r,
                ) by {
                    if r != x0 {
                        assert(rest.contains(r));
                    }
                }
            }
        } else {
            assert(ss.contains(x0) && (forall|r: Seq<(int, int)>| #[trigger]
                ss.contains(r) ==> seq_le(x0, r))) by {
                assert forall|r: Seq<(int, int)>| #[trigger] ss.contains(r) implies seq_le(
                    x0,
                    r,
                ) by {
                    if r != x0 {
                        assert(rest.contains(r));
                        assert(seq_le(m0, r));
                        lemma_seq_le_trans(x0, m0, r);
                    }
                    lemma_seq_lt_total(x0, r);
                }
            }
        }
    }
}

/// The set of image lists is finite and nonempty.
pub proof fn lemma_image_reprs_wf(s: Set<(int, int)>)
    requires
        s.finite(),
    ensures
        image_reprs(s).finite(),
        image_reprs(s).len() > 0,
        forall|i: int| 0 <= i < 8 ==> image_reprs(s).contains(
            #[trigger] shape_repr(images(s)[i]),
        ),
{
    let imgs = images(s).to_set();
    vstd::seq_lib::seq_to_set_is_finite::<Set<(int, int)>>(images(s));
    imgs.lemma_map_finite(|t: Set<(int, int)>| shape_repr(t));
    assert forall|i: int| 0 <= i < 8 implies image_reprs(s).contains(
        #[trigger] shape_repr(images(s)[i]),
    ) by {
        assert(images(s).contains(images(s)[i]));
        assert(imgs.contains(images(s)[i]));
    }
    assert(image_reprs(s).contains(shape_repr(images(s)[0])));
    assert(image_reprs(s).remove(shape_repr(images(s)[0])).len() == image_reprs(s).len() - 1);
}

/// The canonical form is an image list and is least among them.
pub proof fn lemma_canonical_props(s: Set<(int, int)>)
    requires
        s.finite(),
    ensures
        image_reprs(s).contains(canonical(s)),
        forall|r: Seq<(int, int)>| #[trigger] image_reprs(s).contains(r) ==> seq_le(
            canonical(s),
            r,
        ),
{
    lemma_image_reprs_wf(s);
    lemma_seq_set_least(image_reprs(s));
    let q = canonical(s);
    assert(image_reprs(s).contains(q) && (forall|r: Seq<(int, int)>|
        image_reprs(s).contains(r) ==> seq_le(q, r)));
}

/// When a least image list is exhibited, it is the canonical form.
pub proof fn lemma_canonical_is(s: Set<(int, int)>, q: Seq<(int, int)>)
    requires
        s.finite(),
        image_reprs(s).contains(q),
        forall|r: Seq<(int, int)>| #[trigger] image_reprs(s).contains(r) ==> seq_le(q, r),
    ensures
        canonical(s) == q,
{
    lemma_canonical_props(s);
    let c = canonical(s);
    assert(seq_le(c, q));
    assert(seq_le(q, c));
    lemma_seq_lt_total(c, q);
}

/// Shapes with the same image set have the same canonical form.
pub proof fn lemma_canonical_congruent(s: Set<(int, int)>, t: Set<(int, int)>)
    requires
        s.finite(),
        t.finite(),
        image_reprs(s) == image_reprs(t),
    ensures
        canonical(s) == canonical(t),
{
    lemma_canonical_props(s);
    lemma_canonical_is(t, canonical(s));
}

// ---------------------------------------------------------------------------
// Invariance of the canonical form
// ---------------------------------------------------------------------------

/// Translating a shape does not change its images.
pub proof fn lemma_image_reprs_translate(s: Set<(int, int)>, dy: int, dx: int)
    requires
        s.finite(),
    ensures
        translate(s, dy, dx).finite(),
        image_reprs(translate(s, dy, dx)) == image_reprs(s),
{
    reveal(translate);
    s.lemma_map_finite(|p: (int, int)| (p.0 + dy, p.1 + dx));
    lemma_normalize_translate(s, dy, dx);
    assert(images(translate(s, dy, dx)) =~= images(s));
}

/// A quarter turn about the origin permutes the images of a shape.
pub proof fn lemma_image_reprs_rot_origin(s: Set<(int, int)>)
    requires
        s.finite(),
    ensures
        rot_origin(s).finite(),
        image_reprs(rot_origin(s)) == image_reprs(s),
{
    reveal(rot_origin);
    s.lemma_map_finite(|p: (int, int)| (p.1, -p.0));
    if s.len() == 0 {
        lemma_empty_shape(s, |p: (int, int)| (p.1, -p.0));
    } else {
        let n0 = bbox_normalize(s);
        lemma_normalize_is_normal(s);
        lemma_rot_chain(n0);
        lemma_rot4(n0);
        lemma_normalize_rot_origin(s);
        let a = images(s);
        let b = images(rot_origin(s));
        assert(bbox_normalize(rot_origin(s)) == rotate90(n0));
        assert(b[0] == a[1] && b[1] == a[2] && b[2] == a[3] && b[3] == a[0]);
        assert(b[4] == a[5] && b[5] == a[6] && b[6] == a[7] && b[7] == a[4]);
        assert(a.to_set() =~= b.to_set()) by {
            assert forall|q: Set<(int, int)>| a.to_set().contains(q) implies b.to_set()
                .contains(q) by {
                let i = choose|i: int| 0 <= i < a.len() && a[i] == q;
                let j: int = if i == 0 {
                    3
                } else if i <= 3 {
                    i - 1
                } else if i == 4 {
                    7
                } else {
                    i - 1
                };
                assert(b[j] == q);
            }
            assert forall|q: Set<(int, int)>| b.to_set().contains(q) implies a.to_set()
                .contains(q) by {
                let i = choose|i: int| 0 <= i < b.len() && b[i] == q;
                let j: int = if i == 3 {
                    0
                } else if i < 3 {
                    i + 1
                } else if i == 7 {
                    4
                } else {
                    i + 1
                };
                assert(a[j] == q);
            }
        }
    }
}

/// A quarter turn of a flip is a flip of three quarter turns.
pub proof fn lemma_rot_of_flip(t: Set<(int, int)>)
    requires
        t.finite(),
        t.len() > 0,
        is_normal(t),
    ensures
        rotate90(flip_vert(t)) == flip_vert(rotate90(rotate90(rotate90(t)))),
{
    lemma_rot_flip_transpose(t);
    lemma_flip_rot3_transpose(t);
}

/// The images of a flipped normal shape, written over the images of the
/// shape itself.
pub proof fn lemma_flip_image_cycle(n0: Set<(int, int)>)
    requires
        n0.finite(),
        n0.len() > 0,
        is_normal(n0),
    ensures
        rotate90(flip_vert(n0)) == flip_vert(rotate90(rotate90(rotate90(n0)))),
        rotate90(flip_vert(rotate90(rotate90(rotate90(n0))))) == flip_vert(
            rotate90(rotate90(n0)),
        ),
        rotate90(flip_vert(rotate90(rotate90(n0)))) == flip_vert(rotate90(n0)),
        flip_vert(flip_vert(n0)) == n0,
        flip_vert(flip_vert(rotate90(n0))) == rotate90(n0),
        flip_vert(flip_vert(rotate90(rotate90(n0)))) == rotate90(rotate90(n0)),
        flip_vert(flip_vert(rotate90(rotate90(rotate90(n0))))) == rotate90(
            rotate90(rotate90(n0)),
        ),
{
    let n1 = rotate90(n0);
    let n2 = rotate90(n1);
    let n3 = rotate90(n2);
    lemma_rotate90_box(n0);
    lemma_rotate90_box(n1);
    lemma_rotate90_box(n2);
    lemma_rot4(n0);
    assert(rotate90(n3) == n0);
    assert(rotate90(rotate90(rotate90(n3))) == n2);
    assert(rotate90(rotate90(rotate90(n2))) == n1);
    lemma_rot_of_flip(n0);
    lemma_rot_of_flip(n3);
    lemma_rot_of_flip(n2);
    lemma_flip2(n0);
    lemma_flip2(n1);
    lemma_flip2(n2);
    lemma_flip2(n3);
}

/// A reflection about the origin permutes the images of a shape.
pub proof fn lemma_image_reprs_flip_origin(s: Set<(int, int)>)
    requires
        s.finite(),
    ensures
        flip_origin(s).finite(),
        image_reprs(flip_origin(s)) == image_reprs(s),
{
    reveal(flip_origin);
    s.lemma_map_finite(|p: (int, int)| (-p.0, p.1));
    if s.len() == 0 {
        lemma_empty_shape(s, |p: (int, int)| (-p.0, p.1));
    } else {
        let n0 = bbox_normalize(s);
        lemma_normalize_is_normal(s);
        lemma_normalize_flip_origin(s);
        let f0 = flip_vert(n0);
        lemma_flip_image_cycle(n0);
        let a = images(s);
        let b = images(flip_origin(s));
        assert(bbox_normalize(flip_origin(s)) == f0);
        assert(b[0] == a[4] && b[1] == a[7] && b[2] == a[6] && b[3] == a[5]);
        assert(b[4] == a[0] && b[5] == a[3] && b[6] == a[2] && b[7] == a[1]);
        assert(a.to_set() =~= b.to_set()) by {
            assert forall|q: Set<(int, int)>| a.to_set().contains(q) implies b.to_set()
                .contains(q) by {
                let i = choose|i: int| 0 <= i < a.len() && a[i] == q;
                let j: int = if i == 0 {
                    4
                } else if i == 1 {
                    7
                } else if i == 2 {
                    6
                } else if i == 3 {
                    5
                } else if i == 4 {
                    0
                } else if i == 5 {
                    3
                } else if i == 6 {
                    2
                } else {
                    1
                };
                assert(b[j] == q);
            }
            assert forall|q: Set<(int, int)>| b.to_set().contains(q) implies a.to_set()
                .contains(q) by {
                let i = choose|i: int| 0 <= i < b.len() && b[i] == q;
                let j: int = if i == 0 {
                    4
                } else if i == 1 {
                    7
                } else if i == 2 {
                    6
                } else if i == 3 {
                    5
                } else if i == 4 {
                    0
                } else if i == 5 {
                    3
                } else if i == 6 {
                    2
                } else {
                    1
                };
                assert(a[j] == q);
            }
        }
    }
}

/// The canonical form of a shape does not change under translation.
pub proof fn lemma_canonical_translate(s: Set<(int, int)>, dy: int, dx: int)
    requires
        s.finite(),
    ensures
        canonical(translate(s, dy, dx)) == canonical(s),
{
    lemma_image_reprs_translate(s, dy, dx);
    lemma_canonical_congruent(translate(s, dy, dx), s);
}

/// The canonical form of a shape does not change under a quarter turn about
/// the origin.
pub proof fn lemma_canonical_rot_origin(s: Set<(int, int)>)
    requires
        s.finite(),
    ensures
        canonical(rot_origin(s)) == canonical(s),
{
    lemma_image_reprs_rot_origin(s);
    lemma_canonical_congruent(rot_origin(s), s);
}

/// The canonical form of a shape does not change under reflection about the
/// origin.
pub proof fn lemma_canonical_flip_origin(s: Set<(int, int)>)
    requires
        s.finite(),
    ensures
        canonical(flip_origin(s)) == canonical(s),
{
    lemma_image_reprs_flip_origin(s);
    lemma_canonical_congruent(flip_origin(s), s);
}

// ---------------------------------------------------------------------------
// The canonicalization laws
// ---------------------------------------------------------------------------

/// `k` quarter turns of a shape about the lattice origin.
pub open spec fn turns(s: Set<(int, int)>, k: int) -> Set<(int, int)>
    decreases k,
{
    if k <= 0 {
        s
    } else {
        rot_origin(turns(s, k - 1))
    }
}

/// One of the eight symmetries of the square lattice: `k` quarter turns about
/// the origin, optionally followed by a row reflection.
pub open spec fn symmetry(s: Set<(int, int)>, k: int, mirrored: bool) -> Set<(int, int)> {
    if mirrored {
        flip_origin(turns(s, k))
    } else {
        turns(s, k)
    }
}

/// Quarter turns preserve the canonical form.
pub proof fn lemma_canonical_turns(s: Set<(int, int)>, k: int)
    requires
        s.finite(),
        k >= 0,
    ensures
        turns(s, k).finite(),
        canonical(turns(s, k)) == canonical(s),
    decreases k,
{
    if k > 0 {
        lemma_canonical_turns(s, k - 1);
        lemma_image_reprs_rot_origin(turns(s, k - 1));
        lemma_canonical_rot_origin(turns(s, k - 1));
    }
}

/// Canonicalization invariance: applying any of the eight symmetries of the
/// square lattice to a shape leaves its canonical form unchanged.
pub proof fn lemma_canonical_symmetry_invariant(s: Set<(int, int)>, k: int, mirrored: bool)
    requires
        s.finite(),
        k >= 0,
    ensures
        symmetry(s, k, mirrored).finite(),
        canonical(symmetry(s, k, mirrored)) == canonical(s),
{
    lemma_canonical_turns(s, k);
    if mirrored {
        lemma_image_reprs_flip_origin(turns(s, k));
        lemma_canonical_flip_origin(turns(s, k));
    }
}

/// Canonicalization invariance under translation: moving a shape across the
/// lattice leaves its canonical form unchanged.
pub proof fn lemma_canonical_translation_invariant(s: Set<(int, int)>, dy: int, dx: int)
    requires
        s.finite(),
    ensures
        translate(s, dy, dx).finite(),
        canonical(translate(s, dy, dx)) == canonical(s),
{
    lemma_image_reprs_translate(s, dy, dx);
    lemma_canonical_translate(s, dy, dx);
}

/// A quarter turn within the bounding box preserves the canonical form.
proof fn lemma_canonical_rotate90_any(t: Set<(int, int)>)
    requires
        t.finite(),
    ensures
        rotate90(t).finite(),
        canonical(rotate90(t)) == canonical(t),
{
    lemma_rotate90_via_origin(t);
    lemma_image_reprs_rot_origin(t);
    lemma_image_reprs_translate(rot_origin(t), 0, max_row(t));
    lemma_canonical_translate(rot_origin(t), 0, max_row(t));
    lemma_canonical_rot_origin(t);
}

/// A vertical flip within the bounding box preserves the canonical form.
proof fn lemma_canonical_flip_vert_any(t: Set<(int, int)>)
    requires
        t.finite(),
    ensures
        flip_vert(t).finite(),
        canonical(flip_vert(t)) == canonical(t),
{
    lemma_flip_vert_via_origin(t);
    lemma_image_reprs_flip_origin(t);
    lemma_image_reprs_translate(flip_origin(t), max_row(t), 0);
    lemma_canonical_translate(flip_origin(t), max_row(t), 0);
    lemma_canonical_flip_origin(t);
}

/// Normalization preserves the canonical form.
proof fn lemma_canonical_normalize(s: Set<(int, int)>)
    requires
        s.finite(),
    ensures
        bbox_normalize(s).finite(),
        canonical(bbox_normalize(s)) == canonical(s),
{
    lemma_normalize_is_normal(s);
    lemma_normal_fixed(bbox_normalize(s));
    assert(images(bbox_normalize(s)) == images(s));
    lemma_canonical_congruent(bbox_normalize(s), s);
}

/// Each of the eight images of a shape has the same canonical form as the
/// shape.
pub proof fn lemma_canonical_of_image(s: Set<(int, int)>, i: int)
    requires
        s.finite(),
        0 <= i < 8,
    ensures
        canonical(images(s)[i]) == canonical(s),
{
    let n0 = bbox_normalize(s);
    lemma_canonical_normalize(s);
    lemma_canonical_rotate90_any(n0);
    let n1 = rotate90(n0);
    lemma_canonical_rotate90_any(n1);
    let n2 = rotate90(n1);
    lemma_canonical_rotate90_any(n2);
    let n3 = rotate90(n2);
    if i == 4 {
        lemma_canonical_flip_vert_any(n0);
    } else if i == 5 {
        lemma_canonical_flip_vert_any(n1);
    } else if i == 6 {
        lemma_canonical_flip_vert_any(n2);
    } else if i == 7 {
        lemma_canonical_flip_vert_any(n3);
    }
}

/// The canonical form of a shape is a strictly ascending list over one of
/// its images.
pub proof fn lemma_canonical_shape(s: Set<(int, int)>)
    requires
        s.finite(),
    ensures
        ascending(canonical(s)),
        canonical(s).to_set().finite(),
        exists|i: int| 0 <= i < 8 && canonical(s).to_set() == #[trigger] images(s)[i],
{
    lemma_canonical_props(s);
    let c = canonical(s);
    let t = choose|t: Set<(int, int)>|
        images(s).to_set().contains(t) && shape_repr(t) == c;
    assert(images(s).to_set().contains(t) && shape_repr(t) == c);
    let i = choose|i: int| 0 <= i < images(s).len() && images(s)[i] == t;
    lemma_images_wf(s);
    assert(images(s)[i].finite());
    lemma_repr_exists(t);
    assert(canonical(s).to_set() == images(s)[i]);
}

/// Canonicalization idempotence: reading the canonical form back as a
/// coordinate set and canonicalizing that set gives the canonical form
/// itself.
pub proof fn lemma_canonical_idempotent(s: Set<(int, int)>)
    requires
        s.finite(),
    ensures
        canonical(s).to_set().finite(),
        canonical(canonical(s).to_set()) == canonical(s),
{
    lemma_canonical_shape(s);
    let i = choose|i: int| 0 <= i < 8 && canonical(s).to_set() == #[trigger] images(s)[i];
    lemma_canonical_of_image(s, i);
}

// ---------------------------------------------------------------------------
// The executable canonicalizer
// ---------------------------------------------------------------------------

/// The empty shape canonicalizes to the empty list.
pub proof fn lemma_canonical_empty(s: Set<(int, int)>)
    requires
        s.finite(),
        s.len() == 0,
    ensures
        canonical(s) == Seq::<(int, int)>::empty(),
{
    lemma_images_wf(s);
    lemma_image_reprs_wf(s);
    let e = Seq::<(int, int)>::empty();
    assert forall|i: int| 0 <= i < 8 implies #[trigger] shape_repr(images(s)[i]) == e by {
        lemma_repr_exists(images(s)[i]);
        let q = shape_repr(images(s)[i]);
        if q.len() > 0 {
            assert(q.to_set().contains(q[0]));
            assert(images(s)[i].remove(q[0]).len() == images(s)[i].len() - 1);
        }
        assert(q =~= e);
    }
    assert(image_reprs(s).contains(e)) by {
        assert(image_reprs(s).contains(shape_repr(images(s)[0])));
    }
    assert forall|r: Seq<(int, int)>| #[trigger] image_reprs(s).contains(r) implies seq_le(
        e,
        r,
    ) by {
        let t = choose|t: Set<(int, int)>| images(s).to_set().contains(t) && shape_repr(t) == r;
        let i = choose|i: int| 0 <= i < images(s).len() && images(s)[i] == t;
        assert(shape_repr(images(s)[i]) == r);
    }
    lemma_canonical_is(s, e);
}

/// The coordinate set of a block is finite, and nonempty when the block is.
pub proof fn lemma_pset_size(q: Seq<(i32, i32)>)
    ensures
        pset(q).finite(),
        q.len() > 0 ==> pset(q).len() > 0,
        q.len() == 0 ==> pset(q).len() == 0,
{
    vstd::seq_lib::seq_to_set_is_finite::<(int, int)>(ints_of(q));
    if q.len() > 0 {
        assert(ints_of(q).contains(ints_of(q)[0]));
        assert(pset(q).contains(ints_of(q)[0]));
        assert(pset(q).remove(ints_of(q)[0]).len() == pset(q).len() - 1);
    } else {
        if pset(q).len() > 0 {
            let p = pset(q).choose();
            assert(pset(q).contains(p));
            assert(ints_of(q).contains(p));
        }
    }
}

/// Two blocks with the same coordinates as `i32` pairs have the same
/// coordinate set.
proof fn lemma_pset_from_i32_set(a: Seq<(i32, i32)>, b: Seq<(i32, i32)>)
    requires
        a.to_set() == b.to_set(),
    ensures
        pset(a) == pset(b),
{
    let f = |p: (i32, i32)| (p.0 as int, p.1 as int);
    a.lemma_to_set_map_commutes(f);
    b.lemma_to_set_map_commutes(f);
    assert(a.map_values(f) == ints_of(a));
    assert(b.map_values(f) == ints_of(b));
}

/// Compares two coordinate pairs lexicographically.
fn pair_before(a: (i32, i32), b: (i32, i32)) -> (r: bool)
    ensures
        r == pair_lt((a.0 as int, a.1 as int), (b.0 as int, b.1 as int)),
{
    a.0 < b.0 || (a.0 == b.0 && a.1 < b.1)
}

/// Sorts a duplicate-free block into ascending lexicographic order by
/// insertion.
fn sort_block(input: &Vec<(i32, i32)>) -> (r: Vec<(i32, i32)>)
    requires
        input@.no_duplicates(),
    ensures
        r@.len() == input@.len(),
        r@.no_duplicates(),
        ascending(ints_of(r@)),
        r@.to_set() == input@.to_set(),
        pset(r@) == pset(input@),
        forall|i: int| 0 <= i < r@.len() ==> input@.contains(#[trigger] r@[i]),
{
    let mut r: Vec<(i32, i32)> = Vec::new();
    let mut idx: usize = 0;
    while idx < input.len()
        invariant
            idx <= input.len(),
            input@.no_duplicates(),
            r@.len() == idx,
            r@.no_duplicates(),
            ascending(ints_of(r@)),
            r@.to_set() == input@.take(idx as int).to_set(),
        decreases input@.len() - idx,
    {
        let x = input[idx];
        let mut j: usize = 0;
        while j < r.len() && pair_before(r[j], x)
            invariant
                j <= r@.len(),
                forall|k: int| 0 <= k < j ==> pair_lt(ints_of(r@)[k], (x.0 as int, x.1 as int)),
            decreases r@.len() - j,
        {
            j += 1;
        }
        proof {
            // x is not already in r
            assert(!r@.to_set().contains(x)) by {
                if r@.to_set().contains(x) {
                    assert(input@.take(idx as int).to_set().contains(x));
                    let k = choose|k: int|
                        0 <= k < input@.take(idx as int).len() && input@.take(idx as int)[k]
                            == x;
                    assert(input@[k] == x && input@[idx as int] == x && k != idx);
                }
            }
            assert(forall|k: int| 0 <= k < r@.len() ==> r@[k] != x) by {
                assert(forall|k: int| 0 <= k < r@.len() ==> r@.to_set().contains(#[trigger] r@[k]));
            }
        }
        let ghost rold = r@;
        r.insert(j, x);
        proof {
            rold.insert_ensures(j as int, x);
            assert(r@.no_duplicates()) by {
                assert forall|m: int, n: int|
                    0 <= m < r@.len() && 0 <= n < r@.len() && m != n implies r@[m] != r@[n] by {
                    if m != j as int && n != j as int {
                        let m0: int = if m < j as int {
                            m
                        } else {
                            m - 1
                        };
                        let n0: int = if n < j as int {
                            n
                        } else {
                            n - 1
                        };
                        assert(r@[m] == rold[m0] && r@[n] == rold[n0] && m0 != n0);
                    }
                }
            }
            assert(ascending(ints_of(r@))) by {
                assert forall|m: int, n: int|
                    0 <= m < n < r@.len() implies pair_lt(ints_of(r@)[m], ints_of(r@)[n]) by {
                    let xi = (x.0 as int, x.1 as int);
                    if m == j as int {
                        // x goes before everything from position j on
                        let q = rold[n - 1];
                        assert(r@[n] == q);
                        if j < rold.len() {
                            assert(!pair_lt(ints_of(rold)[j as int], xi));
                            assert(rold[j as int] != x);
                            assert(pair_lt(xi, ints_of(rold)[j as int]));
                            if n - 1 > j as int {
                                assert(pair_lt(
                                    ints_of(rold)[j as int],
                                    ints_of(rold)[n - 1],
                                ));
                            }
                        }
                    } else if n == j as int {
                        assert(r@[m] == rold[m]);
                        assert(pair_lt(ints_of(rold)[m], xi));
                    } else {
                        let m0: int = if m < j as int {
                            m
                        } else {
                            m - 1
                        };
                        let n0: int = if n < j as int {
                            n
                        } else {
                            n - 1
                        };
                        assert(r@[m] == rold[m0] && r@[n] == rold[n0]);
                        if m0 < n0 {
                            assert(pair_lt(ints_of(rold)[m0], ints_of(rold)[n0]));
                        } else {
                            assert(m0 == n0 && m < j as int && n > j as int);
                            assert(false);
                        }
                    }
                }
            }
            assert(r@.to_set() =~= input@.take(idx as int + 1).to_set()) by {
                let taken = input@.take(idx as int + 1);
                assert forall|p: (i32, i32)| r@.to_set().contains(p) implies taken.to_set()
                    .contains(p) by {
                    let k = choose|k: int| 0 <= k < r@.len() && r@[k] == p;
                    if k == j as int {
                        assert(taken[idx as int] == x);
                    } else {
                        let k0: int = if k < j as int {
                            k
                        } else {
                            k - 1
                        };
                        assert(rold[k0] == p);
                        assert(rold.to_set().contains(p));
                        let k1 = choose|k1: int|
                            0 <= k1 < input@.take(idx as int).len() && input@.take(
                                idx as int,
                            )[k1] == p;
                        assert(taken[k1] == p);
                    }
                }
                assert forall|p: (i32, i32)| taken.to_set().contains(p) implies r@.to_set()
                    .contains(p) by {
                    let k = choose|k: int| 0 <= k < taken.len() && taken[k] == p;
                    if k == idx as int {
                        assert(r@[j as int] == p);
                    } else {
                        assert(input@.take(idx as int)[k] == p);
                        assert(input@.take(idx as int).to_set().contains(p));
                        let k1 = choose|k1: int| 0 <= k1 < rold.len() && rold[k1] == p;
                        let k2: int = if k1 < j as int {
                            k1
                        } else {
                            k1 + 1
                        };
                        assert(r@[k2] == p);
                    }
                }
            }
        }
        idx += 1;
    }
    proof {
        assert(input@.take(input@.len() as int) =~= input@);
        lemma_pset_from_i32_set(r@, input@);
        assert forall|i: int| 0 <= i < r@.len() implies input@.contains(#[trigger] r@[i]) by {
            assert(r@.to_set().contains(r@[i]));
        }
    }
    r
}

/// Translates a block so that its least row and column are both zero.
pub fn adjust_bbox(block: &mut Vec<(i32, i32)>)
    requires
        forall|i: int|
            0 <= i < old(block)@.len() ==> -COORD_LIMIT <= (#[trigger] old(block)@[i]).0
                <= COORD_LIMIT && -COORD_LIMIT <= old(block)@[i].1 <= COORD_LIMIT,
    ensures
        final(block)@.len() == old(block)@.len(),
        old(block)@.len() == 0 ==> final(block)@ == old(block)@,
        old(block)@.len() > 0 ==> forall|i: int|
            0 <= i < old(block)@.len() ==> (#[trigger] final(block)@[i]).0 as int == old(
                block,
            )@[i].0 - min_row(pset(old(block)@)) && final(block)@[i].1 as int == old(block)@[
                i
            ].1 - min_col(pset(old(block)@)),
        pset(final(block)@) == bbox_normalize(pset(old(block)@)),
        forall|i: int|
            0 <= i < final(block)@.len() ==> 0 <= (#[trigger] final(block)@[i]).0
                && 0 <= final(block)@[i].1,
        old(block)@.no_duplicates() ==> final(block)@.no_duplicates(),
{
    let ghost orig = block@;
    if block.len() == 0 {
        proof {
            lemma_pset_size(orig);
        }
        return ;
    }
    let first = block[0];
    let mut min_y: i32 = first.0;
    let mut min_x: i32 = first.1;
    let mut i: usize = 1;
    while i < block.len()
        invariant
            1 <= i <= block@.len(),
            block@ == orig,
            orig.len() > 0,
            forall|k: int|
                0 <= k < orig.len() ==> -COORD_LIMIT <= (#[trigger] orig[k]).0 <= COORD_LIMIT
                    && -COORD_LIMIT <= orig[k].1 <= COORD_LIMIT,
            exists|k: int| 0 <= k < i && (#[trigger] orig[k]).0 == min_y,
            exists|k: int| 0 <= k < i && (#[trigger] orig[k]).1 == min_x,
            forall|k: int| 0 <= k < i ==> min_y <= (#[trigger] orig[k]).0 && min_x <= orig[k].1,
        decreases block@.len() - i,
    {
        let p = block[i];
        if p.0 < min_y {
            min_y = p.0;
        }
        if p.1 < min_x {
            min_x = p.1;
        }
        i += 1;
    }
    proof {
        lemma_pset_size(orig);
        let ps = pset(orig);
        // min_y is the least row of the coordinate set
        assert(rows(ps).contains(min_y as int)) by {
            let k = choose|k: int| 0 <= k < orig.len() && (#[trigger] orig[k]).0 == min_y;
            assert(ints_of(orig).contains(ints_of(orig)[k]));
            assert(ps.contains(ints_of(orig)[k]));
        }
        assert forall|y: int| rows(ps).contains(y) implies min_y as int <= y by {
            let p = choose|p: (int, int)| ps.contains(p) && p.0 == y;
            let k = choose|k: int| 0 <= k < ints_of(orig).len() && ints_of(orig)[k] == p;
            assert(min_y <= orig[k].0);
        }
        lemma_int_least_is(rows(ps), min_y as int);
        assert(cols(ps).contains(min_x as int)) by {
            let k = choose|k: int| 0 <= k < orig.len() && (#[trigger] orig[k]).1 == min_x;
            assert(ints_of(orig).contains(ints_of(orig)[k]));
            assert(ps.contains(ints_of(orig)[k]));
        }
        assert forall|x: int| cols(ps).contains(x) implies min_x as int <= x by {
            let p = choose|p: (int, int)| ps.contains(p) && p.1 == x;
            let k = choose|k: int| 0 <= k < ints_of(orig).len() && ints_of(orig)[k] == p;
            assert(min_x <= orig[k].1);
        }
        lemma_int_least_is(cols(ps), min_x as int);
    }
    let mut j: usize = 0;
    while j < block.len()
        invariant
            j <= block@.len(),
            block@.len() == orig.len(),
            orig.len() > 0,
            forall|k: int|
                0 <= k < orig.len() ==> -COORD_LIMIT <= (#[trigger] orig[k]).0 <= COORD_LIMIT
                    && -COORD_LIMIT <= orig[k].1 <= COORD_LIMIT,
            forall|k: int| 0 <= k < orig.len() ==> min_y <= (#[trigger] orig[k]).0 && min_x
                <= orig[k].1,
            -COORD_LIMIT <= min_y <= COORD_LIMIT,
            -COORD_LIMIT <= min_x <= COORD_LIMIT,
            forall|k: int| j <= k < orig.len() ==> #[trigger] block@[k] == orig[k],
            forall|k: int|
                0 <= k < j ==> #[trigger] block@[k] == (
                    (orig[k].0 - min_y) as i32,
                    (orig[k].1 - min_x) as i32,
                ),
        decreases block@.len() - j,
    {
        let p = block[j];
        block[j] = (p.0 - min_y, p.1 - min_x);
        j += 1;
    }
    proof {
        let ps = pset(orig);
        // pointwise shift gives the translated coordinate set
        lemma_translate_contains(ps, -(min_y as int), -(min_x as int));
        assert(pset(block@) =~= translate(ps, -(min_y as int), -(min_x as int))) by {
            assert forall|q: (int, int)| pset(block@).contains(q) implies translate(
                ps,
                -(min_y as int),
                -(min_x as int),
            ).contains(q) by {
                let k = choose|k: int| 0 <= k < ints_of(block@).len() && ints_of(block@)[k] == q;
                assert(ps.contains(ints_of(orig)[k]));
            }
            assert forall|q: (int, int)|
                translate(ps, -(min_y as int), -(min_x as int)).contains(q) implies pset(
                block@,
            ).contains(q) by {
                let p = (q.0 + min_y as int, q.1 + min_x as int);
                assert(ps.contains(p));
                let k = choose|k: int| 0 <= k < ints_of(orig).len() && ints_of(orig)[k] == p;
                assert(ints_of(block@)[k] == q);
            }
        }
        assert(min_row(ps) == min_y as int && min_col(ps) == min_x as int);
        if orig.no_duplicates() {
            assert forall|m: int, n: int|
                0 <= m < block@.len() && 0 <= n < block@.len() && m != n implies block@[m]
                != block@[n] by {
                assert(orig[m] != orig[n]);
            }
        }
    }
}

/// Flips a block vertically within its bounding box and sorts the result.
pub fn flip_block(block: &Vec<(i32, i32)>) -> (r: Vec<(i32, i32)>)
    requires
        block@.no_duplicates(),
        forall|i: int|
            0 <= i < block@.len() ==> 0 <= (#[trigger] block@[i]).0 && 0 <= block@[i].1,
    ensures
        r@.len() == block@.len(),
        r@.no_duplicates(),
        ascending(ints_of(r@)),
        pset(r@) == flip_vert(pset(block@)),
        forall|i: int| 0 <= i < r@.len() ==> 0 <= (#[trigger] r@[i]).0 && 0 <= r@[i].1,
{
    let ymax = row_maximum(block);
    let mut m: Vec<(i32, i32)> = Vec::new();
    let mut i: usize = 0;
    while i < block.len()
        invariant
            i <= block@.len(),
            m@.len() == i,
            forall|k: int| 0 <= k < block@.len() ==> 0 <= (#[trigger] block@[k]).0 <= ymax
                && 0 <= block@[k].1,
            forall|k: int|
                0 <= k < i ==> #[trigger] m@[k] == ((ymax - block@[k].0) as i32, block@[k].1),
        decreases block@.len() - i,
    {
        let p = block[i];
        m.push((ymax - p.0, p.1));
        i += 1;
    }
    proof {
        lemma_pset_size(block@);
        let ps = pset(block@);
        if block@.len() > 0 {
            assert(max_row(ps) == ymax as int);
        }
        lemma_flip_vert_contains(ps);
        assert(pset(m@) =~= flip_vert(ps)) by {
            if block@.len() == 0 {
                lemma_empty_shape(ps, |p: (int, int)| (max_row(ps) - p.0, p.1));
                reveal(flip_vert);
            } else {
                assert forall|q: (int, int)| pset(m@).contains(q) implies flip_vert(ps).contains(
                    q,
                ) by {
                    let k = choose|k: int| 0 <= k < ints_of(m@).len() && ints_of(m@)[k] == q;
                    assert(ps.contains(ints_of(block@)[k]));
                    assert((max_row(ps) - q.0, q.1) == ints_of(block@)[k]);
                }
                assert forall|q: (int, int)| flip_vert(ps).contains(q) implies pset(m@).contains(
                    q,
                ) by {
                    let p = (max_row(ps) - q.0, q.1);
                    assert(ps.contains(p));
                    let k = choose|k: int| 0 <= k < ints_of(block@).len() && ints_of(block@)[k]
                        == p;
                    assert(ints_of(m@)[k] == q);
                }
            }
        }
        assert(m@.no_duplicates()) by {
            assert forall|a: int, b: int|
                0 <= a < m@.len() && 0 <= b < m@.len() && a != b implies m@[a] != m@[b] by {
                assert(block@[a] != block@[b]);
            }
        }
    }
    sort_block(&m)
}

/// Rotates a block a quarter turn within its bounding box and sorts the
/// result.
pub fn rotate_block(block: &Vec<(i32, i32)>) -> (r: Vec<(i32, i32)>)
    requires
        block@.no_duplicates(),
        forall|i: int|
            0 <= i < block@.len() ==> 0 <= (#[trigger] block@[i]).0 && 0 <= block@[i].1,
    ensures
        r@.len() == block@.len(),
        r@.no_duplicates(),
        ascending(ints_of(r@)),
        pset(r@) == rotate90(pset(block@)),
        forall|i: int| 0 <= i < r@.len() ==> 0 <= (#[trigger] r@[i]).0 && 0 <= r@[i].1,
{
    let ymax = row_maximum(block);
    let mut m: Vec<(i32, i32)> = Vec::new();
    let mut i: usize = 0;
    while i < block.len()
        invariant
            i <= block@.len(),
            m@.len() == i,
            forall|k: int| 0 <= k < block@.len() ==> 0 <= (#[trigger] block@[k]).0 <= ymax
                && 0 <= block@[k].1,
            forall|k: int|
                0 <= k < i ==> #[trigger] m@[k] == (block@[k].1, (ymax - block@[k].0) as i32),
        decreases block@.len() - i,
    {
        let p = block[i];
        m.push((p.1, ymax - p.0));
        i += 1;
    }
    proof {
        lemma_pset_size(block@);
        let ps = pset(block@);
        if block@.len() > 0 {
            assert(max_row(ps) == ymax as int);
        }
        lemma_rotate90_contains(ps);
        assert(pset(m@) =~= rotate90(ps)) by {
            if block@.len() == 0 {
                lemma_empty_shape(ps, |p: (int, int)| (p.1, max_row(ps) - p.0));
                reveal(rotate90);
            } else {
                assert forall|q: (int, int)| pset(m@).contains(q) implies rotate90(ps).contains(
                    q,
                ) by {
                    let k = choose|k: int| 0 <= k < ints_of(m@).len() && ints_of(m@)[k] == q;
                    assert(ps.contains(ints_of(block@)[k]));
                    assert((max_row(ps) - q.1, q.0) == ints_of(block@)[k]);
                }
                assert forall|q: (int, int)| rotate90(ps).contains(q) implies pset(m@).contains(
                    q,
                ) by {
                    let p = (max_row(ps) - q.1, q.0);
                    assert(ps.contains(p));
                    let k = choose|k: int| 0 <= k < ints_of(block@).len() && ints_of(block@)[k]
                        == p;
                    assert(ints_of(m@)[k] == q);
                }
            }
        }
        assert(m@.no_duplicates()) by {
            assert forall|a: int, b: int|
                0 <= a < m@.len() && 0 <= b < m@.len() && a != b implies m@[a] != m@[b] by {
                assert(block@[a] != block@[b]);
            }
        }
    }
    sort_block(&m)
}

/// The greatest row of a block with nonnegative rows, or zero when the block
/// is empty.
fn row_maximum(block: &Vec<(i32, i32)>) -> (ymax: i32)
    requires
        forall|i: int| 0 <= i < block@.len() ==> 0 <= (#[trigger] block@[i]).0,
    ensures
        0 <= ymax,
        forall|i: int| 0 <= i < block@.len() ==> (#[trigger] block@[i]).0 <= ymax,
        block@.len() > 0 ==> max_row(pset(block@)) == ymax as int,
{
    let mut ymax: i32 = 0;
    let mut i: usize = 0;
    while i < block.len()
        invariant
            i <= block@.len(),
            0 <= ymax,
            forall|k: int| 0 <= k < block@.len() ==> 0 <= (#[trigger] block@[k]).0,
            forall|k: int| 0 <= k < i ==> (#[trigger] block@[k]).0 <= ymax,
            ymax == 0 || exists|k: int| 0 <= k < i && (#[trigger] block@[k]).0 == ymax,
        decreases block@.len() - i,
    {
        let p = block[i];
        if p.0 > ymax {
            ymax = p.0;
        }
        i += 1;
    }
    proof {
        if block@.len() > 0 {
            let ps = pset(block@);
            lemma_pset_size(block@);
            assert(exists|k: int| 0 <= k < block@.len() && (#[trigger] block@[k]).0 == ymax) by {
                if ymax == 0 {
                    assert(block@[0].0 == 0);
                }
            }
            assert(rows(ps).contains(ymax as int)) by {
                let k = choose|k: int| 0 <= k < block@.len() && (#[trigger] block@[k]).0 == ymax;
                assert(ints_of(block@).contains(ints_of(block@)[k]));
                assert(ps.contains(ints_of(block@)[k]));
            }
            assert forall|y: int| rows(ps).contains(y) implies y <= ymax as int by {
                let p = choose|p: (int, int)| ps.contains(p) && p.0 == y;
                let k = choose|k: int| 0 <= k < ints_of(block@).len() && ints_of(block@)[k] == p;
                assert(block@[k].0 <= ymax);
            }
            lemma_int_greatest_is(rows(ps), ymax as int);
        }
    }
    ymax
}

/// Compares the tails of two blocks from position `i` on, in lexicographic
/// order.
fn lex_le_from(a: &Vec<(i32, i32)>, b: &Vec<(i32, i32)>, i: usize) -> (r: bool)
    requires
        i <= a@.len(),
        i <= b@.len(),
    ensures
        r == seq_le(ints_of(a@).skip(i as int), ints_of(b@).skip(i as int)),
    decreases a@.len() - i,
{
    let ghost sa = ints_of(a@).skip(i as int);
    let ghost sb = ints_of(b@).skip(i as int);
    if i == a.len() && i == b.len() {
        proof {
            assert(sa =~= sb);
        }
        true
    } else if i == b.len() {
        proof {
            assert(sa.len() > 0 && sb.len() == 0);
        }
        false
    } else if i == a.len() {
        true
    } else {
        let x = a[i];
        let y = b[i];
        proof {
            assert(sa[0] == ints_of(a@)[i as int]);
            assert(sb[0] == ints_of(b@)[i as int]);
        }
        if x.0 < y.0 || (x.0 == y.0 && x.1 < y.1) {
            true
        } else if x.0 == y.0 && x.1 == y.1 {
            let rec = lex_le_from(a, b, i + 1);
            proof {
                assert(sa.drop_first() =~= ints_of(a@).skip(i as int + 1));
                assert(sb.drop_first() =~= ints_of(b@).skip(i as int + 1));
                if rec {
                    if sa.drop_first() == sb.drop_first() {
                        assert forall|k: int| 0 <= k < sa.len() implies sa[k] == sb[k] by {
                            if k > 0 {
                                assert(sa.drop_first()[k - 1] == sb.drop_first()[k - 1]);
                            }
                        }
                        assert(sa =~= sb);
                    }
                } else {
                    if sa == sb {
                        assert(sa.drop_first() == sb.drop_first());
                    }
                }
            }
            rec
        } else {
            proof {
                assert(!pair_lt(sa[0], sb[0]) && sa[0] != sb[0]);
                if sa == sb {
                    assert(sa[0] == sb[0]);
                }
            }
            false
        }
    }
}

/// Whether one block precedes another in lexicographic order.
fn lex_le(a: &Vec<(i32, i32)>, b: &Vec<(i32, i32)>) -> (r: bool)
    ensures
        r == seq_le(ints_of(a@), ints_of(b@)),
{
    let r = lex_le_from(a, b, 0);
    proof {
        assert(ints_of(a@).skip(0) =~= ints_of(a@));
        assert(ints_of(b@).skip(0) =~= ints_of(b@));
    }
    r
}

/// The lexicographically smaller of two blocks.
fn pick_smaller(a: Vec<(i32, i32)>, b: Vec<(i32, i32)>) -> (r: Vec<(i32, i32)>)
    ensures
        ints_of(r@) == ints_of(a@) || ints_of(r@) == ints_of(b@),
        seq_le(ints_of(r@), ints_of(a@)),
        seq_le(ints_of(r@), ints_of(b@)),
{
    proof {
        lemma_seq_lt_total(ints_of(a@), ints_of(b@));
        lemma_seq_lt_irrefl(ints_of(a@));
        lemma_seq_lt_irrefl(ints_of(b@));
    }
    if lex_le(&a, &b) {
        a
    } else {
        b
    }
}

/// Canonical form of a polyomino shape.
///
/// The block is translated so that its least row and column are zero, the
/// eight symmetric images are produced by repeated quarter turns and a
/// vertical flip of each, and the lexicographically least sorted coordinate
/// list among them is returned.  The result depends only on the coordinate
/// set of the input, never on the order in which the coordinates are listed.
pub fn normalize_block(block: Vec<(i32, i32)>) -> (r: Vec<(i32, i32)>)
    requires
        block@.no_duplicates(),
        forall|i: int|
            0 <= i < block@.len() ==> -COORD_LIMIT <= (#[trigger] block@[i]).0 <= COORD_LIMIT
                && -COORD_LIMIT <= block@[i].1 <= COORD_LIMIT,
    ensures
        ints_of(r@) == canonical(pset(block@)),
        ascending(ints_of(r@)),
        r@.no_duplicates(),
{
    let ghost orig = pset(block@);
    proof {
        lemma_pset_size(block@);
    }
    if block.is_empty() {
        let r: Vec<(i32, i32)> = Vec::new();
        proof {
            lemma_canonical_empty(orig);
            assert(ints_of(r@) =~= Seq::<(int, int)>::empty());
        }
        return r;
    }
    let mut base = block;
    adjust_bbox(&mut base);
    let n0 = sort_block(&base);
    proof {
        lemma_normalize_is_normal(orig);
        assert(pset(n0@) == images(orig)[0]);
    }
    let f0 = flip_block(&n0);
    let n1 = rotate_block(&n0);
    let f1 = flip_block(&n1);
    let n2 = rotate_block(&n1);
    let f2 = flip_block(&n2);
    let n3 = rotate_block(&n2);
    let f3 = flip_block(&n3);
    proof {
        assert(pset(n1@) == images(orig)[1]);
        assert(pset(n2@) == images(orig)[2]);
        assert(pset(n3@) == images(orig)[3]);
        assert(pset(f0@) == images(orig)[4]);
        assert(pset(f1@) == images(orig)[5]);
        assert(pset(f2@) == images(orig)[6]);
        assert(pset(f3@) == images(orig)[7]);
        lemma_shape_repr_is(pset(n0@), ints_of(n0@));
        lemma_shape_repr_is(pset(n1@), ints_of(n1@));
        lemma_shape_repr_is(pset(n2@), ints_of(n2@));
        lemma_shape_repr_is(pset(n3@), ints_of(n3@));
        lemma_shape_repr_is(pset(f0@), ints_of(f0@));
        lemma_shape_repr_is(pset(f1@), ints_of(f1@));
        lemma_shape_repr_is(pset(f2@), ints_of(f2@));
        lemma_shape_repr_is(pset(f3@), ints_of(f3@));
        lemma_image_reprs_wf(orig);
    }
    let ghost r0 = ints_of(n0@);
    let ghost r1 = ints_of(n1@);
    let ghost r2 = ints_of(n2@);
    let ghost r3 = ints_of(n3@);
    let ghost g0 = ints_of(f0@);
    let ghost g1 = ints_of(f1@);
    let ghost g2 = ints_of(f2@);
    let ghost g3 = ints_of(f3@);
    let mut best = n0;
    best = pick_smaller(best, f0);
    proof {
        lemma_seq_le_trans(ints_of(best@), r0, r0);
    }
    let ghost b1 = ints_of(best@);
    best = pick_smaller(best, n1);
    proof {
        lemma_seq_le_trans(ints_of(best@), b1, r0);
        lemma_seq_le_trans(ints_of(best@), b1, g0);
    }
    let ghost b2 = ints_of(best@);
    best = pick_smaller(best, f1);
    proof {
        lemma_seq_le_trans(ints_of(best@), b2, r0);
        lemma_seq_le_trans(ints_of(best@), b2, g0);
        lemma_seq_le_trans(ints_of(best@), b2, r1);
    }
    let ghost b3 = ints_of(best@);
    best = pick_smaller(best, n2);
    proof {
        lemma_seq_le_trans(ints_of(best@), b3, r0);
        lemma_seq_le_trans(ints_of(best@), b3, g0);
        lemma_seq_le_trans(ints_of(best@), b3, r1);
        lemma_seq_le_trans(ints_of(best@), b3, g1);
    }
    let ghost b4 = ints_of(best@);
    best = pick_smaller(best, f2);
    proof {
        lemma_seq_le_trans(ints_of(best@), b4, r0);
        lemma_seq_le_trans(ints_of(best@), b4, g0);
        lemma_seq_le_trans(ints_of(best@), b4, r1);
        lemma_seq_le_trans(ints_of(best@), b4, g1);
        lemma_seq_le_trans(ints_of(best@), b4, r2);
    }
    let ghost b5 = ints_of(best@);
    best = pick_smaller(best, n3);
    proof {
        lemma_seq_le_trans(ints_of(best@), b5, r0);
        lemma_seq_le_trans(ints_of(best@), b5, g0);
        lemma_seq_le_trans(ints_of(best@), b5, r1);
        lemma_seq_le_trans(ints_of(best@), b5, g1);
        lemma_seq_le_trans(ints_of(best@), b5, r2);
        lemma_seq_le_trans(ints_of(best@), b5, g2);
    }
    let ghost b6 = ints_of(best@);
    best = pick_smaller(best, f3);
    proof {
        lemma_seq_le_trans(ints_of(best@), b6, r0);
        lemma_seq_le_trans(ints_of(best@), b6, g0);
        lemma_seq_le_trans(ints_of(best@), b6, r1);
        lemma_seq_le_trans(ints_of(best@), b6, g1);
        lemma_seq_le_trans(ints_of(best@), b6, r2);
        lemma_seq_le_trans(ints_of(best@), b6, g2);
        lemma_seq_le_trans(ints_of(best@), b6, r3);
        let c = ints_of(best@);
        assert(c == r0 || c == r1 || c == r2 || c == r3 || c == g0 || c == g1 || c == g2 || c
            == g3);
        assert(image_reprs(orig).contains(c)) by {
            if c == r0 {
                assert(c == shape_repr(images(orig)[0]));
            } else if c == r1 {
                assert(c == shape_repr(images(orig)[1]));
            } else if c == r2 {
                assert(c == shape_repr(images(orig)[2]));
            } else if c == r3 {
                assert(c == shape_repr(images(orig)[3]));
            } else if c == g0 {
                assert(c == shape_repr(images(orig)[4]));
            } else if c == g1 {
                assert(c == shape_repr(images(orig)[5]));
            } else if c == g2 {
                assert(c == shape_repr(images(orig)[6]));
            } else {
                assert(c == shape_repr(images(orig)[7]));
            }
        }
        assert forall|rr: Seq<(int, int)>| #[trigger] image_reprs(orig).contains(rr) implies
            seq_le(c, rr) by {
            let t = choose|t: Set<(int, int)>|
                images(orig).to_set().contains(t) && shape_repr(t) == rr;
            let i = choose|i: int| 0 <= i < images(orig).len() && images(orig)[i] == t;
            assert(rr == shape_repr(images(orig)[i]));
            assert(rr == r0 || rr == r1 || rr == r2 || rr == r3 || rr == g0 || rr == g1 || rr
                == g2 || rr == g3);
        }
        lemma_canonical_is(orig, c);
        assert(ascending(c));
        assert(best@.no_duplicates()) by {
            assert forall|m: int, n: int|
                0 <= m < best@.len() && 0 <= n < best@.len() && m != n implies best@[m]
                != best@[n] by {
                if m < n {
                    assert(pair_lt(c[m], c[n]));
                } else {
                    assert(pair_lt(c[n], c[m]));
                }
                if best@[m] == best@[n] {
                    assert(c[m] == c[n]);
                }
            }
        }
    }
    best
}

/// Order independence: the canonical form computed from a coordinate list
/// depends only on the set of coordinates listed, never on their order.
pub proof fn lemma_canonical_order_independent(a: Seq<(i32, i32)>, b: Seq<(i32, i32)>)
    requires
        pset(a) == pset(b),
    ensures
        canonical(pset(a)) == canonical(pset(b)),
{
}

} // verus!
