//! Piece tables of the tetromino and pentomino placement puzzles, and the
//! helpers that enumerate each piece's distinct orientations.

use vstd::prelude::*;

verus! {

/// Largest coordinate allowed in a piece, so that bounding-box arithmetic
/// stays inside `usize`.
pub const PIECE_LIMIT: usize = 0xffff;

/// Which set of pieces a puzzle is played with.
pub enum PieceSet {
    Tetromino,
    Pentomino,
}

/// The greatest row index of a piece, or `-1` when the piece is empty.
pub open spec fn prow_max(s: Seq<(usize, usize)>) -> int
    decreases s.len(),
{
    if s.len() == 0 {
        -1
    } else {
        let m = prow_max(s.drop_last());
        if s.last().0 >= m {
            s.last().0 as int
        } else {
            m
        }
    }
}

/// The greatest column index of a piece, or `-1` when the piece is empty.
pub open spec fn pcol_max(s: Seq<(usize, usize)>) -> int
    decreases s.len(),
{
    if s.len() == 0 {
        -1
    } else {
        let m = pcol_max(s.drop_last());
        if s.last().1 >= m {
            s.last().1 as int
        } else {
            m
        }
    }
}

/// A piece turned a quarter turn clockwise within its bounding box.
pub open spec fn rot_piece(s: Seq<(usize, usize)>) -> Seq<(usize, usize)> {
    Seq::new(s.len(), |i: int| (s[i].1, (prow_max(s) - s[i].0) as usize))
}

/// A piece flipped upside down within its bounding box.
pub open spec fn flip_piece(s: Seq<(usize, usize)>) -> Seq<(usize, usize)> {
    Seq::new(s.len(), |i: int| ((prow_max(s) - s[i].0) as usize, s[i].1))
}

/// The eight images of a piece: the piece, its three further quarter
/// turns, and the flips of those four.
pub open spec fn piece_variants(s: Seq<(usize, usize)>) -> Seq<Seq<(usize, usize)>> {
    let r1 = rot_piece(s);
    let r2 = rot_piece(r1);
    let r3 = rot_piece(r2);
    seq![s, r1, r2, r3, flip_piece(s), flip_piece(r1), flip_piece(r2), flip_piece(r3)]
}

/// The rows of a prefix bound the recursive maximum.
proof fn lemma_prow_max_take(s: Seq<(usize, usize)>, i: int)
    requires
        0 <= i < s.len(),
    ensures
        prow_max(s.take(i + 1)) == if s[i].0 >= prow_max(s.take(i)) {
            s[i].0 as int
        } else {
            prow_max(s.take(i))
        },
{
    assert(s.take(i + 1).drop_last() =~= s.take(i));
    assert(s.take(i + 1).last() == s[i]);
}

proof fn lemma_pcol_max_take(s: Seq<(usize, usize)>, i: int)
    requires
        0 <= i < s.len(),
    ensures
        pcol_max(s.take(i + 1)) == if s[i].1 >= pcol_max(s.take(i)) {
            s[i].1 as int
        } else {
            pcol_max(s.take(i))
        },
{
    assert(s.take(i + 1).drop_last() =~= s.take(i));
    assert(s.take(i + 1).last() == s[i]);
}

/// Every row of a piece is bounded by the recursive maximum, and the
/// maximum is one of the rows.
proof fn lemma_prow_max_bounds(s: Seq<(usize, usize)>)
    ensures
        forall|i: int| 0 <= i < s.len() ==> (#[trigger] s[i]).0 <= prow_max(s),
        s.len() > 0 ==> prow_max(s) >= 0,
        s.len() > 0 ==> exists|i: int| 0 <= i < s.len() && (#[trigger] s[i]).0 == prow_max(s),
    decreases s.len(),
{
    if s.len() > 0 {
        lemma_prow_max_bounds(s.drop_last());
        assert forall|i: int| 0 <= i < s.len() implies (#[trigger] s[i]).0 <= prow_max(s) by {
            if i < s.len() - 1 {
                assert(s.drop_last()[i] == s[i]);
            }
        }
        if s.len() > 1 && s.last().0 < prow_max(s.drop_last()) {
            let i = choose|i: int|
                0 <= i < s.drop_last().len() && (#[trigger] s.drop_last()[i]).0 == prow_max(
                    s.drop_last(),
                );
            assert(s[i].0 == prow_max(s));
        } else {
            assert(s[s.len() - 1].0 == prow_max(s));
        }
    }
}

/// The bounding box of a piece: one more than its greatest row and column,
/// or zero for an empty piece.
pub fn bbox(piece: &Vec<(usize, usize)>) -> (r: (usize, usize))
    requires
        forall|i: int| 0 <= i < piece@.len() ==> (#[trigger] piece@[i]).0 < PIECE_LIMIT
            && piece@[i].1 < PIECE_LIMIT,
    ensures
        r.0 == prow_max(piece@) + 1,
        r.1 == pcol_max(piece@) + 1,
{
    let mut h: usize = 0;
    let mut w: usize = 0;
    let mut i: usize = 0;
    proof {
        assert(piece@.take(0) =~= Seq::<(usize, usize)>::empty());
    }
    while i < piece.len()
        invariant
            i <= piece@.len(),
            forall|k: int| 0 <= k < piece@.len() ==> (#[trigger] piece@[k]).0 < PIECE_LIMIT
                && piece@[k].1 < PIECE_LIMIT,
            h == prow_max(piece@.take(i as int)) + 1,
            w == pcol_max(piece@.take(i as int)) + 1,
            h <= PIECE_LIMIT,
            w <= PIECE_LIMIT,
        decreases piece@.len() - i,
    {
        let p = piece[i];
        proof {
            lemma_prow_max_take(piece@, i as int);
            lemma_pcol_max_take(piece@, i as int);
        }
        if p.0 + 1 > h {
            h = p.0 + 1;
        }
        if p.1 + 1 > w {
            w = p.1 + 1;
        }
        i += 1;
    }
    proof {
        assert(piece@.take(piece@.len() as int) =~= piece@);
    }
    (h, w)
}

/// A quarter turn of a piece within its bounding box: `(r, c)` maps to
/// `(c, height - 1 - r)`.
pub fn rotate(piece: &Vec<(usize, usize)>) -> (r: Vec<(usize, usize)>)
    requires
        forall|i: int| 0 <= i < piece@.len() ==> (#[trigger] piece@[i]).0 < PIECE_LIMIT
            && piece@[i].1 < PIECE_LIMIT,
    ensures
        r@ == rot_piece(piece@),
        forall|i: int| 0 <= i < r@.len() ==> (#[trigger] r@[i]).0 < PIECE_LIMIT && r@[i].1
            < PIECE_LIMIT,
{
    let (h, _w) = bbox(piece);
    let mut out: Vec<(usize, usize)> = Vec::new();
    let mut i: usize = 0;
    proof {
        lemma_prow_max_bounds(piece@);
    }
    while i < piece.len()
        invariant
            i <= piece@.len(),
            forall|k: int| 0 <= k < piece@.len() ==> (#[trigger] piece@[k]).0 < PIECE_LIMIT
                && piece@[k].1 < PIECE_LIMIT,
            forall|k: int| 0 <= k < piece@.len() ==> (#[trigger] piece@[k]).0 <= prow_max(
                piece@,
            ),
            h == prow_max(piece@) + 1,
            h <= PIECE_LIMIT,
            out@.len() == i,
            forall|k: int| 0 <= k < i ==> #[trigger] out@[k] == (
                piece@[k].1,
                (prow_max(piece@) - piece@[k].0) as usize,
            ),
        decreases piece@.len() - i,
    {
        let p = piece[i];
        out.push((p.1, h - 1 - p.0));
        i += 1;
    }
    proof {
        assert(out@ =~= rot_piece(piece@));
    }
    out
}

/// A vertical flip of a piece within its bounding box: `(r, c)` maps to
/// `(height - 1 - r, c)`.
pub fn flip(piece: &Vec<(usize, usize)>) -> (r: Vec<(usize, usize)>)
    requires
        forall|i: int| 0 <= i < piece@.len() ==> (#[trigger] piece@[i]).0 < PIECE_LIMIT
            && piece@[i].1 < PIECE_LIMIT,
    ensures
        r@ == flip_piece(piece@),
        forall|i: int| 0 <= i < r@.len() ==> (#[trigger] r@[i]).0 < PIECE_LIMIT && r@[i].1
            < PIECE_LIMIT,
{
    let (h, _w) = bbox(piece);
    let mut out: Vec<(usize, usize)> = Vec::new();
    let mut i: usize = 0;
    proof {
        lemma_prow_max_bounds(piece@);
    }
    while i < piece.len()
        invariant
            i <= piece@.len(),
            forall|k: int| 0 <= k < piece@.len() ==> (#[trigger] piece@[k]).0 < PIECE_LIMIT
                && piece@[k].1 < PIECE_LIMIT,
            forall|k: int| 0 <= k < piece@.len() ==> (#[trigger] piece@[k]).0 <= prow_max(
                piece@,
            ),
            h == prow_max(piece@) + 1,
            h <= PIECE_LIMIT,
            out@.len() == i,
            forall|k: int| 0 <= k < i ==> #[trigger] out@[k] == (
                (prow_max(piece@) - piece@[k].0) as usize,
                piece@[k].1,
            ),
        decreases piece@.len() - i,
    {
        let p = piece[i];
        out.push((h - 1 - p.0, p.1));
        i += 1;
    }
    proof {
        assert(out@ =~= flip_piece(piece@));
    }
    out
}

/// A copy of a piece.
fn copy_piece(piece: &Vec<(usize, usize)>) -> (r: Vec<(usize, usize)>)
    ensures
        r@ == piece@,
{
    let mut out: Vec<(usize, usize)> = Vec::new();
    let mut i: usize = 0;
    while i < piece.len()
        invariant
            i <= piece@.len(),
            out@ == piece@.take(i as int),
        decreases piece@.len() - i,
    {
        let p = piece[i];
        out.push(p);
        proof {
            assert(out@ =~= piece@.take(i as int + 1));
        }
        i += 1;
    }
    proof {
        assert(piece@.take(piece@.len() as int) =~= piece@);
    }
    out
}

/// Strict lexicographic order on coordinate pairs.
pub open spec fn cpair_lt(a: (usize, usize), b: (usize, usize)) -> bool {
    a.0 < b.0 || (a.0 == b.0 && a.1 < b.1)
}

/// Strict lexicographic order on pieces, a shorter strict prefix coming
/// first.
pub open spec fn piece_lt(a: Seq<(usize, usize)>, b: Seq<(usize, usize)>) -> bool
    decreases a.len(),
{
    if b.len() == 0 {
        false
    } else if a.len() == 0 {
        true
    } else if cpair_lt(a[0], b[0]) {
        true
    } else if a[0] == b[0] {
        piece_lt(a.drop_first(), b.drop_first())
    } else {
        false
    }
}

/// Piece order is total and asymmetric.
proof fn lemma_piece_lt_total(a: Seq<(usize, usize)>, b: Seq<(usize, usize)>)
    ensures
        a == b || piece_lt(a, b) || piece_lt(b, a),
        !(piece_lt(a, b) && piece_lt(b, a)),
    decreases a.len() + b.len(),
{
    if a.len() == 0 && b.len() == 0 {
        assert(a =~= b);
    } else if a.len() > 0 && b.len() > 0 {
        if a[0] == b[0] {
            lemma_piece_lt_total(a.drop_first(), b.drop_first());
            if a.drop_first() == b.drop_first() {
                assert forall|i: int| 0 <= i < a.len() implies a[i] == b[i] by {
                    if i > 0 {
                        assert(a.drop_first()[i - 1] == b.drop_first()[i - 1]);
                    }
                }
                assert(a =~= b);
            }
        }
    }
}

/// Piece order is transitive.
proof fn lemma_piece_lt_trans(
    a: Seq<(usize, usize)>,
    b: Seq<(usize, usize)>,
    c: Seq<(usize, usize)>,
)
    requires
        piece_lt(a, b),
        piece_lt(b, c),
    ensures
        piece_lt(a, c),
    decreases a.len() + b.len() + c.len(),
{
    if a.len() > 0 && b.len() > 0 && c.len() > 0 {
        if a[0] == b[0] && b[0] == c[0] {
            lemma_piece_lt_trans(a.drop_first(), b.drop_first(), c.drop_first());
        }
    }
}

/// Compares the tails of two pieces from position `i` on.
fn piece_lt_from(a: &Vec<(usize, usize)>, b: &Vec<(usize, usize)>, i: usize) -> (r: bool)
    requires
        i <= a@.len(),
        i <= b@.len(),
    ensures
        r == piece_lt(a@.skip(i as int), b@.skip(i as int)),
    decreases a@.len() - i,
{
    let ghost sa = a@.skip(i as int);
    let ghost sb = b@.skip(i as int);
    if i == b.len() {
        false
    } else if i == a.len() {
        true
    } else {
        let x = a[i];
        let y = b[i];
        proof {
            assert(sa[0] == a@[i as int] && sb[0] == b@[i as int]);
        }
        if x.0 < y.0 || (x.0 == y.0 && x.1 < y.1) {
            true
        } else if x.0 == y.0 && x.1 == y.1 {
            let rec = piece_lt_from(a, b, i + 1);
            proof {
                assert(sa.drop_first() =~= a@.skip(i as int + 1));
                assert(sb.drop_first() =~= b@.skip(i as int + 1));
            }
            rec
        } else {
            false
        }
    }
}

/// Whether one piece precedes another in lexicographic order.
fn piece_before(a: &Vec<(usize, usize)>, b: &Vec<(usize, usize)>) -> (r: bool)
    ensures
        r == piece_lt(a@, b@),
{
    let r = piece_lt_from(a, b, 0);
    proof {
        assert(a@.skip(0) =~= a@);
        assert(b@.skip(0) =~= b@);
    }
    r
}

/// Whether two pieces list the same coordinates in the same order.
fn piece_same(a: &Vec<(usize, usize)>, b: &Vec<(usize, usize)>) -> (r: bool)
    ensures
        r == (a@ == b@),
{
    if a.len() != b.len() {
        return false;
    }
    let mut i: usize = 0;
    while i < a.len()
        invariant
            a@.len() == b@.len(),
            i <= a@.len(),
            forall|k: int| 0 <= k < i ==> a@[k] == b@[k],
        decreases a@.len() - i,
    {
        let x = a[i];
        let y = b[i];
        if x.0 != y.0 || x.1 != y.1 {
            proof {
                assert(a@[i as int] != b@[i as int]);
            }
            return false;
        }
        i += 1;
    }
    proof {
        assert(a@ =~= b@);
    }
    true
}

/// The distinct orientations of a piece under the eight symmetries of the
/// square, as a sorted, duplicate-free list.
pub fn enumerate_variants(piece: &Vec<(usize, usize)>) -> (r: Vec<Vec<(usize, usize)>>)
    requires
        forall|i: int| 0 <= i < piece@.len() ==> (#[trigger] piece@[i]).0 < PIECE_LIMIT
            && piece@[i].1 < PIECE_LIMIT,
    ensures
        r@.map_values(|v: Vec<(usize, usize)>| v@).to_set() == piece_variants(piece@).to_set(),
        forall|i: int, j: int| 0 <= i < j < r@.len() ==> piece_lt(
            (#[trigger] r@[i])@,
            (#[trigger] r@[j])@,
        ),
{
    let mut cands: Vec<Vec<(usize, usize)>> = Vec::new();
    cands.push(copy_piece(piece));
    let c1 = rotate(&cands[0]);
    let c2 = rotate(&c1);
    let c3 = rotate(&c2);
    let f0 = flip(&cands[0]);
    let f1 = flip(&c1);
    let f2 = flip(&c2);
    let f3 = flip(&c3);
    cands.push(c1);
    cands.push(c2);
    cands.push(c3);
    cands.push(f0);
    cands.push(f1);
    cands.push(f2);
    cands.push(f3);
    proof {
        assert(cands@.map_values(|v: Vec<(usize, usize)>| v@) =~= piece_variants(piece@));
    }
    let mut out: Vec<Vec<(usize, usize)>> = Vec::new();
    let mut i: usize = 0;
    while i < cands.len()
        invariant
            i <= cands@.len(),
            cands@.map_values(|v: Vec<(usize, usize)>| v@) == piece_variants(piece@),
            forall|m: int, n: int| 0 <= m < n < out@.len() ==> piece_lt(
                (#[trigger] out@[m])@,
                (#[trigger] out@[n])@,
            ),
            out@.map_values(|v: Vec<(usize, usize)>| v@).to_set() == cands@.take(
                i as int,
            ).map_values(|v: Vec<(usize, usize)>| v@).to_set(),
        decreases cands@.len() - i,
    {
        let c = copy_piece(&cands[i]);
        let ghost cv = c@;
        let mut j: usize = 0;
        let mut dup = false;
        while j < out.len() && !dup && piece_before(&out[j], &c)
            invariant
                j <= out@.len(),
                !dup,
                c@ == cv,
                forall|k: int| 0 <= k < j ==> piece_lt((#[trigger] out@[k])@, cv),
            decreases out@.len() - j,
        {
            j += 1;
        }
        if j < out.len() {
            if piece_same(&out[j], &c) {
                dup = true;
            }
        }
        let ghost outold = out@;
        if !dup {
            proof {
                // c is strictly between its neighbors
                if j < out@.len() {
                    lemma_piece_lt_total(out@[j as int]@, cv);
                }
                assert(!outold.map_values(|v: Vec<(usize, usize)>| v@).contains(cv)) by {
                    if outold.map_values(|v: Vec<(usize, usize)>| v@).contains(cv) {
                        let s = outold.map_values(|v: Vec<(usize, usize)>| v@);
                        let k = choose|k: int| 0 <= k < s.len() && #[trigger] s[k] == cv;
                        assert(outold[k]@ == cv);
                        lemma_piece_lt_total(outold[k]@, cv);
                        if k < j as int {
                            assert(piece_lt(outold[k]@, cv));
                        } else if k > j as int {
                            assert(piece_lt(outold[j as int]@, outold[k]@));
                            lemma_piece_lt_trans(outold[j as int]@, outold[k]@, cv);
                        }
                    }
                }
            }
            out.insert(j, c);
            proof {
                outold.insert_ensures(j as int, out@[j as int]);
                assert(out@[j as int]@ == cv);
                assert forall|m: int, n: int| 0 <= m < n < out@.len() implies piece_lt(
                    (#[trigger] out@[m])@,
                    (#[trigger] out@[n])@,
                ) by {
                    let jm: int = j as int;
                    if m == jm {
                        let q = outold[n - 1];
                        assert(out@[n] == q);
                        assert(!piece_lt(outold[jm]@, cv));
                        assert(outold[jm]@ != cv);
                        lemma_piece_lt_total(cv, outold[jm]@);
                        if n - 1 > jm {
                            assert(piece_lt(outold[jm]@, outold[n - 1]@));
                            lemma_piece_lt_trans(cv, outold[jm]@, outold[n - 1]@);
                        }
                    } else if n == jm {
                        assert(out@[m] == outold[m]);
                        assert(piece_lt(outold[m]@, cv));
                    } else {
                        let m0: int = if m < jm {
                            m
                        } else {
                            m - 1
                        };
                        let n0: int = if n < jm {
                            n
                        } else {
                            n - 1
                        };
                        assert(out@[m] == outold[m0] && out@[n] == outold[n0]);
                        if m0 < n0 {
                            assert(piece_lt(outold[m0]@, outold[n0]@));
                        } else {
                            assert(false);
                        }
                    }
                }
            }
        } else {
            proof {
                assert(out@[j as int]@ == cv);
                assert(out@.map_values(|v: Vec<(usize, usize)>| v@).contains(cv)) by {
                    assert(out@.map_values(|v: Vec<(usize, usize)>| v@)[j as int] == cv);
                }
            }
        }
        proof {
            let f = |v: Vec<(usize, usize)>| v@;
            assert(out@.map_values(f).to_set() =~= cands@.take(i as int + 1).map_values(
                f,
            ).to_set()) by {
                let prev = cands@.take(i as int).map_values(f).to_set();
                let taken = cands@.take(i as int + 1).map_values(f);
                assert(cands@.take(i as int + 1)[i as int] == cands@[i as int]);
                assert(taken[i as int] == cands@[i as int]@);
                assert(cands@[i as int]@ == cv);
                assert forall|q: Seq<(usize, usize)>|
                    out@.map_values(f).to_set().contains(q) implies taken.to_set().contains(
                    q,
                ) by {
                    let k = choose|k: int| 0 <= k < out@.map_values(f).len() && out@.map_values(
                        f,
                    )[k] == q;
                    if dup {
                        let k1 = choose|k1: int|
                            0 <= k1 < outold.len() && outold.map_values(f)[k1] == q;
                        let k2 = choose|k2: int|
                            0 <= k2 < cands@.take(i as int).len() && cands@.take(
                                i as int,
                            ).map_values(f)[k2] == q;
                        assert(taken[k2] == q);
                    } else {
                        if q == cv {
                            assert(taken[i as int] == q);
                        } else {
                            let k0: int = if k < j as int {
                                k
                            } else {
                                k - 1
                            };
                            assert(outold[k0]@ == q);
                            assert(outold.map_values(f)[k0] == q);
                            assert(prev.contains(q));
                            let k2 = choose|k2: int|
                                0 <= k2 < cands@.take(i as int).len() && cands@.take(
                                    i as int,
                                ).map_values(f)[k2] == q;
                            assert(taken[k2] == q);
                        }
                    }
                }
                assert forall|q: Seq<(usize, usize)>|
                    taken.to_set().contains(q) implies out@.map_values(f).to_set().contains(
                    q,
                ) by {
                    let k = choose|k: int| 0 <= k < taken.len() && taken[k] == q;
                    if k == i as int {
                        assert(q == cv);
                        if dup {
                            assert(out@.map_values(f)[j as int] == cv);
                        } else {
                            assert(out@.map_values(f)[j as int] == cv);
                        }
                    } else {
                        assert(cands@.take(i as int)[k] == cands@[k]);
                        assert(cands@.take(i as int).map_values(f)[k] == q);
                        assert(prev.contains(q));
                        let k1 = choose|k1: int|
                            0 <= k1 < outold.len() && outold.map_values(f)[k1] == q;
                        if dup {
                            assert(out@.map_values(f)[k1] == q);
                        } else {
                            let k2: int = if k1 < j as int {
                                k1
                            } else {
                                k1 + 1
                            };
                            assert(out@[k2] == outold[k1]);
                            assert(out@.map_values(f)[k2] == q);
                        }
                    }
                }
            }
        }
        i += 1;
    }
    proof {
        assert(cands@.take(cands@.len() as int) =~= cands@);
    }
    out
}

/// Whether a piece holds a coordinate.
fn contains_coord(piece: &Vec<(usize, usize)>, q: (usize, usize)) -> (r: bool)
    ensures
        r == piece@.contains(q),
{
    let mut i: usize = 0;
    while i < piece.len()
        invariant
            i <= piece@.len(),
            forall|k: int| 0 <= k < i ==> #[trigger] piece@[k] != q,
        decreases piece@.len() - i,
    {
        let p = piece[i];
        if p.0 == q.0 && p.1 == q.1 {
            proof {
                assert(piece@[i as int] == q);
            }
            return true;
        }
        i += 1;
    }
    proof {
        if piece@.contains(q) {
            let k = choose|k: int| 0 <= k < piece@.len() && piece@[k] == q;
        }
    }
    false
}

/// The cells of a piece whose southern neighbor is also in the piece, and
/// those whose eastern neighbor is, in piece order.  These are the inner
/// edges a placement of the piece must keep border-free.
pub fn adjacent_edges(piece: &Vec<(usize, usize)>) -> (r: (
    Vec<(usize, usize)>,
    Vec<(usize, usize)>,
))
    requires
        forall|i: int| 0 <= i < piece@.len() ==> (#[trigger] piece@[i]).0 < PIECE_LIMIT
            && piece@[i].1 < PIECE_LIMIT,
    ensures
        r.0@ == piece@.filter(
            |p: (usize, usize)| piece@.contains(((p.0 + 1) as usize, p.1)),
        ),
        r.1@ == piece@.filter(
            |p: (usize, usize)| piece@.contains((p.0, (p.1 + 1) as usize)),
        ),
{
    let ghost hpred = |p: (usize, usize)| piece@.contains(((p.0 + 1) as usize, p.1));
    let ghost vpred = |p: (usize, usize)| piece@.contains((p.0, (p.1 + 1) as usize));
    let mut horizontal: Vec<(usize, usize)> = Vec::new();
    let mut vertical: Vec<(usize, usize)> = Vec::new();
    let mut i: usize = 0;
    proof {
        reveal(Seq::filter);
        assert(piece@.take(0) =~= Seq::<(usize, usize)>::empty());
    }
    while i < piece.len()
        invariant
            i <= piece@.len(),
            forall|k: int| 0 <= k < piece@.len() ==> (#[trigger] piece@[k]).0 < PIECE_LIMIT
                && piece@[k].1 < PIECE_LIMIT,
            hpred == (|p: (usize, usize)| piece@.contains(((p.0 + 1) as usize, p.1))),
            vpred == (|p: (usize, usize)| piece@.contains((p.0, (p.1 + 1) as usize))),
            horizontal@ == piece@.take(i as int).filter(hpred),
            vertical@ == piece@.take(i as int).filter(vpred),
        decreases piece@.len() - i,
    {
        let p = piece[i];
        proof {
            reveal(Seq::filter);
            assert(piece@.take(i as int + 1).drop_last() =~= piece@.take(i as int));
            assert(piece@.take(i as int + 1).last() == piece@[i as int]);
        }
        if contains_coord(piece, (p.0 + 1, p.1)) {
            horizontal.push(p);
        }
        if contains_coord(piece, (p.0, p.1 + 1)) {
            vertical.push(p);
        }
        i += 1;
    }
    proof {
        assert(piece@.take(piece@.len() as int) =~= piece@);
    }
    (horizontal, vertical)
}

/// One piece table entry.
fn piece_entry(letter: char, cells: Vec<(usize, usize)>) -> (r: (char, Vec<(usize, usize)>))
    ensures
        r.0 == letter,
        r.1@ == cells@,
{
    (letter, cells)
}

/// The twelve free pentominoes, each under its conventional letter.
pub open spec fn pentomino_table() -> Seq<(char, Seq<(usize, usize)>)> {
    seq![
        ('F', seq![(0usize, 0usize), (1, 0), (1, 1), (1, 2), (2, 1)]),
        ('I', seq![(0usize, 0usize), (0, 1), (0, 2), (0, 3), (0, 4)]),
        ('L', seq![(0usize, 0usize), (0, 1), (0, 2), (0, 3), (1, 0)]),
        ('N', seq![(0usize, 1usize), (0, 2), (0, 3), (1, 0), (1, 1)]),
        ('P', seq![(0usize, 0usize), (0, 1), (0, 2), (1, 0), (1, 1)]),
        ('T', seq![(0usize, 0usize), (0, 1), (0, 2), (1, 1), (2, 1)]),
        ('U', seq![(0usize, 0usize), (0, 1), (0, 2), (1, 0), (1, 2)]),
        ('V', seq![(0usize, 0usize), (0, 1), (0, 2), (1, 0), (2, 0)]),
        ('W', seq![(0usize, 0usize), (1, 0), (1, 1), (2, 1), (2, 2)]),
        ('X', seq![(0usize, 1usize), (1, 0), (1, 1), (1, 2), (2, 1)]),
        ('Y', seq![(0usize, 0usize), (0, 1), (0, 2), (0, 3), (1, 1)]),
        ('Z', seq![(0usize, 0usize), (0, 1), (1, 1), (2, 1), (2, 2)]),
    ]
}

/// The five free tetrominoes, each under its conventional letter.
pub open spec fn tetromino_table() -> Seq<(char, Seq<(usize, usize)>)> {
    seq![
        ('I', seq![(0usize, 0usize), (0, 1), (0, 2), (0, 3)]),
        ('L', seq![(0usize, 0usize), (1, 0), (2, 0), (0, 1)]),
        ('O', seq![(0usize, 0usize), (0, 1), (1, 0), (1, 1)]),
        ('S', seq![(0usize, 0usize), (0, 1), (1, 1), (1, 2)]),
        ('T', seq![(0usize, 0usize), (0, 1), (0, 2), (1, 1)]),
    ]
}

/// The twelve pentominoes, each with its conventional letter, five cells,
/// no cell listed twice.
pub fn pentominoes() -> (r: Vec<(char, Vec<(usize, usize)>)>)
    ensures
        r@.len() == 12,
        forall|i: int|
            0 <= i < 12 ==> (#[trigger] r@[i]).0 == pentomino_table()[i].0 && r@[i].1@
                == pentomino_table()[i].1,
        forall|i: int|
            0 <= i < 12 ==> (#[trigger] r@[i]).1@.len() == 5 && r@[i].1@.no_duplicates(),
        forall|i: int, j: int|
            0 <= i < 12 && 0 <= j < 5 ==> (#[trigger] r@[i].1@[j]).0 < 5 && r@[i].1@[j].1 < 5,
        r@.map_values(|e: (char, Vec<(usize, usize)>)| e.0).no_duplicates(),
{
    let mut r: Vec<(char, Vec<(usize, usize)>)> = Vec::new();
    let mut c: Vec<(usize, usize)> = Vec::new();
    c.push((0, 0));
    c.push((1, 0));
    c.push((1, 1));
    c.push((1, 2));
    c.push((2, 1));
    r.push(piece_entry('F', c));
    let mut c: Vec<(usize, usize)> = Vec::new();
    c.push((0, 0));
    c.push((0, 1));
    c.push((0, 2));
    c.push((0, 3));
    c.push((0, 4));
    r.push(piece_entry('I', c));
    let mut c: Vec<(usize, usize)> = Vec::new();
    c.push((0, 0));
    c.push((0, 1));
    c.push((0, 2));
    c.push((0, 3));
    c.push((1, 0));
    r.push(piece_entry('L', c));
    let mut c: Vec<(usize, usize)> = Vec::new();
    c.push((0, 1));
    c.push((0, 2));
    c.push((0, 3));
    c.push((1, 0));
    c.push((1, 1));
    r.push(piece_entry('N', c));
    let mut c: Vec<(usize, usize)> = Vec::new();
    c.push((0, 0));
    c.push((0, 1));
    c.push((0, 2));
    c.push((1, 0));
    c.push((1, 1));
    r.push(piece_entry('P', c));
    let mut c: Vec<(usize, usize)> = Vec::new();
    c.push((0, 0));
    c.push((0, 1));
    c.push((0, 2));
    c.push((1, 1));
    c.push((2, 1));
    r.push(piece_entry('T', c));
    let mut c: Vec<(usize, usize)> = Vec::new();
    c.push((0, 0));
    c.push((0, 1));
    c.push((0, 2));
    c.push((1, 0));
    c.push((1, 2));
    r.push(piece_entry('U', c));
    let mut c: Vec<(usize, usize)> = Vec::new();
    c.push((0, 0));
    c.push((0, 1));
    c.push((0, 2));
    c.push((1, 0));
    c.push((2, 0));
    r.push(piece_entry('V', c));
    let mut c: Vec<(usize, usize)> = Vec::new();
    c.push((0, 0));
    c.push((1, 0));
    c.push((1, 1));
    c.push((2, 1));
    c.push((2, 2));
    r.push(piece_entry('W', c));
    let mut c: Vec<(usize, usize)> = Vec::new();
    c.push((0, 1));
    c.push((1, 0));
    c.push((1, 1));
    c.push((1, 2));
    c.push((2, 1));
    r.push(piece_entry('X', c));
    let mut c: Vec<(usize, usize)> = Vec::new();
    c.push((0, 0));
    c.push((0, 1));
    c.push((0, 2));
    c.push((0, 3));
    c.push((1, 1));
    r.push(piece_entry('Y', c));
    let mut c: Vec<(usize, usize)> = Vec::new();
    c.push((0, 0));
    c.push((0, 1));
    c.push((1, 1));
    c.push((2, 1));
    c.push((2, 2));
    r.push(piece_entry('Z', c));
    proof {
        let t = pentomino_table();
        assert forall|i: int| 0 <= i < 12 implies (#[trigger] r@[i]).0 == t[i].0 && r@[i].1@
            == t[i].1 by {
            if i == 0 {
                assert(r@[0].1@ =~= t[0].1);
            }
            else if i == 1 {
                assert(r@[1].1@ =~= t[1].1);
            }
            else if i == 2 {
                assert(r@[2].1@ =~= t[2].1);
            }
            else if i == 3 {
                assert(r@[3].1@ =~= t[3].1);
            }
            else if i == 4 {
                assert(r@[4].1@ =~= t[4].1);
            }
            else if i == 5 {
                assert(r@[5].1@ =~= t[5].1);
            }
            else if i == 6 {
                assert(r@[6].1@ =~= t[6].1);
            }
            else if i == 7 {
                assert(r@[7].1@ =~= t[7].1);
            }
            else if i == 8 {
                assert(r@[8].1@ =~= t[8].1);
            }
            else if i == 9 {
                assert(r@[9].1@ =~= t[9].1);
            }
            else if i == 10 {
                assert(r@[10].1@ =~= t[10].1);
            }
            else if i == 11 {
                assert(r@[11].1@ =~= t[11].1);
            }
        }
    }
    r
}

/// The five tetrominoes that are distinct up to rotation and reflection,
/// each with its conventional letter and four cells.
pub fn tetrominoes() -> (r: Vec<(char, Vec<(usize, usize)>)>)
    ensures
        r@.len() == 5,
        forall|i: int|
            0 <= i < 5 ==> (#[trigger] r@[i]).0 == tetromino_table()[i].0 && r@[i].1@
                == tetromino_table()[i].1,
        forall|i: int|
            0 <= i < 5 ==> (#[trigger] r@[i]).1@.len() == 4 && r@[i].1@.no_duplicates(),
        forall|i: int, j: int|
            0 <= i < 5 && 0 <= j < 4 ==> (#[trigger] r@[i].1@[j]).0 < 4 && r@[i].1@[j].1 < 4,
        r@.map_values(|e: (char, Vec<(usize, usize)>)| e.0).no_duplicates(),
{
    let mut r: Vec<(char, Vec<(usize, usize)>)> = Vec::new();
    let mut c: Vec<(usize, usize)> = Vec::new();
    c.push((0, 0));
    c.push((0, 1));
    c.push((0, 2));
    c.push((0, 3));
    r.push(piece_entry('I', c));
    let mut c: Vec<(usize, usize)> = Vec::new();
    c.push((0, 0));
    c.push((1, 0));
    c.push((2, 0));
    c.push((0, 1));
    r.push(piece_entry('L', c));
    let mut c: Vec<(usize, usize)> = Vec::new();
    c.push((0, 0));
    c.push((0, 1));
    c.push((1, 0));
    c.push((1, 1));
    r.push(piece_entry('O', c));
    let mut c: Vec<(usize, usize)> = Vec::new();
    c.push((0, 0));
    c.push((0, 1));
    c.push((1, 1));
    c.push((1, 2));
    r.push(piece_entry('S', c));
    let mut c: Vec<(usize, usize)> = Vec::new();
    c.push((0, 0));
    c.push((0, 1));
    c.push((0, 2));
    c.push((1, 1));
    r.push(piece_entry('T', c));
    proof {
        let t = tetromino_table();
        assert forall|i: int| 0 <= i < 5 implies (#[trigger] r@[i]).0 == t[i].0 && r@[i].1@
            == t[i].1 by {
            if i == 0 {
                assert(r@[0].1@ =~= t[0].1);
            }
            else if i == 1 {
                assert(r@[1].1@ =~= t[1].1);
            }
            else if i == 2 {
                assert(r@[2].1@ =~= t[2].1);
            }
            else if i == 3 {
                assert(r@[3].1@ =~= t[3].1);
            }
            else if i == 4 {
                assert(r@[4].1@ =~= t[4].1);
            }
        }
    }
    r
}

/// The piece table of a puzzle family.
pub fn get_pieces(piece_set: PieceSet) -> (r: Vec<(char, Vec<(usize, usize)>)>)
    ensures
        r@.len() == match piece_set {
            PieceSet::Tetromino => 5int,
            PieceSet::Pentomino => 12int,
        },
        forall|i: int|
            0 <= i < r@.len() ==> {
                let t = match piece_set {
                    PieceSet::Tetromino => tetromino_table(),
                    PieceSet::Pentomino => pentomino_table(),
                };
                (#[trigger] r@[i]).0 == t[i].0 && r@[i].1@ == t[i].1
            },
        forall|i: int|
            0 <= i < r@.len() ==> (#[trigger] r@[i]).1@.len() == match piece_set {
                PieceSet::Tetromino => 4int,
                PieceSet::Pentomino => 5int,
            } && r@[i].1@.no_duplicates(),
{
    match piece_set {
        PieceSet::Tetromino => tetrominoes(),
        PieceSet::Pentomino => pentominoes(),
    }
}

} // verus!
