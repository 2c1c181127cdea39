//! Problem data of the ringring puzzle.
//!
//! A problem is carried in a puzzle URL as `ringring/<width>/<height>/<data>`
//! after the query mark.  The data walks the grid in row-major order: a
//! digit or lower-case letter advances the cursor by its value (letters
//! count from ten) and marks the cell reached, a dot advances it by
//! thirty-six, and anything else is ignored.  Marking a cell at or beyond
//! the end of the grid makes the whole URL invalid.

use vstd::prelude::*;
use vstd::string::StringSliceAdditionalSpecFns;

verus! {

/// Largest grid dimension the decoder accepts.
pub const DIM_LIMIT: usize = 0x7fff;

/// The bytes after the last question mark, or the whole string when it has
/// none.
pub open spec fn after_query(s: Seq<u8>) -> Seq<u8>
    decreases s.len(),
{
    if s.len() == 0 {
        s
    } else if s.last() == 63 {
        Seq::empty()
    } else {
        after_query(s.drop_last()).push(s.last())
    }
}

/// The first position of `b` in `s` at or after `i`, or `-1` when there is
/// none.
pub open spec fn find_from(s: Seq<u8>, b: u8, i: int) -> int
    decreases s.len() - i,
{
    if i < 0 || i >= s.len() {
        -1
    } else if s[i] == b {
        i
    } else {
        find_from(s, b, i + 1)
    }
}

/// Decimal digits from position `i` on, folded onto `acc`; a non-digit or
/// a value beyond `DIM_LIMIT` fails.
pub open spec fn parse_acc(s: Seq<u8>, i: int, acc: int) -> Option<int>
    decreases s.len() - i,
{
    if i >= s.len() {
        Some(acc)
    } else if 48 <= s[i] <= 57 {
        let acc2 = acc * 10 + (s[i] - 48);
        if acc2 <= DIM_LIMIT {
            parse_acc(s, i + 1, acc2)
        } else {
            None
        }
    } else {
        None
    }
}

/// A token read as a decimal number; the empty token is invalid.
pub open spec fn parse_number(s: Seq<u8>) -> Option<int> {
    if s.len() == 0 {
        None
    } else {
        parse_acc(s, 0, 0)
    }
}

/// One byte of the data advances the cursor, marks a cell, or is ignored.
pub open spec fn mark_step(pos: int, marks: Set<int>, b: u8, cells: int) -> Option<
    (int, Set<int>),
> {
    if b == 46 {
        Some((pos + 36, marks))
    } else if 48 <= b <= 57 {
        let p = pos + (b - 48);
        if p >= cells {
            None
        } else {
            Some((p + 1, marks.insert(p)))
        }
    } else if 97 <= b <= 122 {
        let p = pos + (b - 97) + 10;
        if p >= cells {
            None
        } else {
            Some((p + 1, marks.insert(p)))
        }
    } else {
        Some((pos, marks))
    }
}

/// The cursor and the marked cells after the first `i` bytes of the data.
pub open spec fn decode_marks(data: Seq<u8>, i: int, cells: int) -> Option<(int, Set<int>)>
    decreases i,
{
    if i <= 0 {
        Some((0, Set::empty()))
    } else {
        match decode_marks(data, i - 1, cells) {
            Option::None => None,
            Option::Some(st) => mark_step(st.0, st.1, data[i - 1], cells),
        }
    }
}

/// The letters `ringring`.
pub open spec fn ringring_tag() -> Seq<u8> {
    seq![114u8, 105u8, 110u8, 103u8, 114u8, 105u8, 110u8, 103u8]
}

/// A parsed ringring URL: the grid width, the grid height, and the set of
/// marked cells as linear indices.
pub open spec fn ringring_problem(url: Seq<u8>) -> Option<(int, int, Set<int>)> {
    tail_problem(after_query(url))
}

/// `after_query` takes what follows the last question mark.
proof fn lemma_after_query_at(s: Seq<u8>, q: int)
    requires
        0 <= q < s.len(),
        s[q] == 63,
        forall|j: int| q < j < s.len() ==> s[j] != 63,
    ensures
        after_query(s) == s.skip(q + 1),
    decreases s.len(),
{
    if q == s.len() - 1 {
        assert(s.last() == 63);
        assert(after_query(s) =~= s.skip(q + 1));
    } else {
        assert(s.last() != 63);
        lemma_after_query_at(s.drop_last(), q);
        assert(after_query(s) == after_query(s.drop_last()).push(s.last()));
        assert(s.drop_last().skip(q + 1).push(s.last()) =~= s.skip(q + 1));
    }
}

/// Without a question mark, `after_query` is the string itself.
proof fn lemma_after_query_all(s: Seq<u8>)
    requires
        forall|j: int| 0 <= j < s.len() ==> s[j] != 63,
    ensures
        after_query(s) == s,
    decreases s.len(),
{
    if s.len() > 0 {
        lemma_after_query_all(s.drop_last());
        assert(after_query(s) =~= s);
    }
}

/// A failed decode stays failed as more bytes are read.
proof fn lemma_decode_fail(data: Seq<u8>, i: int, j: int, cells: int)
    requires
        decode_marks(data, i, cells) is None,
        i <= j,
    ensures
        decode_marks(data, j, cells) is None,
    decreases j - i,
{
    if i < j {
        lemma_decode_fail(data, i, j - 1, cells);
    }
}

/// The first position of a byte in a slice, at or after `from`.
fn find_byte(s: &[u8], b: u8, from: usize) -> (r: Option<usize>)
    requires
        from <= s@.len(),
    ensures
        match r {
            Some(i) => from <= i < s@.len() && find_from(s@, b, from as int) == i,
            None => find_from(s@, b, from as int) == -1,
        },
{
    let mut i = from;
    while i < s.len()
        invariant
            from <= i <= s@.len(),
            find_from(s@, b, from as int) == find_from(s@, b, i as int),
        decreases s@.len() - i,
    {
        if s[i] == b {
            return Some(i);
        }
        i += 1;
    }
    None
}

/// A token read as a decimal number.
fn parse_num(s: &[u8]) -> (r: Option<usize>)
    ensures
        match r {
            Some(v) => parse_number(s@) == Some(v as int) && v <= DIM_LIMIT,
            None => parse_number(s@) is None,
        },
{
    if s.len() == 0 {
        return None;
    }
    let mut acc: usize = 0;
    let mut i: usize = 0;
    while i < s.len()
        invariant
            i <= s@.len(),
            acc <= DIM_LIMIT,
            parse_acc(s@, 0, 0) == parse_acc(s@, i as int, acc as int),
        decreases s@.len() - i,
    {
        let c = s[i];
        if c < 48 || c > 57 {
            return None;
        }
        let d = (c - 48) as usize;
        if acc > (DIM_LIMIT - d) / 10 {
            proof {
                assert(acc * 10 + d > DIM_LIMIT) by (nonlinear_arith)
                    requires
                        acc > ((0x7fffusize) as int - d) / 10,
                        0 <= d <= 9,
                        acc >= 0,
                ;
            }
            return None;
        }
        proof {
            assert(acc * 10 + d <= DIM_LIMIT) by (nonlinear_arith)
                requires
                    acc <= ((0x7fffusize) as int - d) / 10,
                    0 <= d <= 9,
                    acc >= 0,
            ;
        }
        acc = acc * 10 + d;
        i += 1;
    }
    Some(acc)
}

/// The problem carried by the part of the URL after the query mark.
pub open spec fn tail_problem(s: Seq<u8>) -> Option<(int, int, Set<int>)> {
    let p0 = find_from(s, 47, 0);
    if p0 < 0 || s.take(p0) != ringring_tag() {
        None
    } else {
        let p1 = find_from(s, 47, p0 + 1);
        let p2 = find_from(s, 47, p1 + 1);
        if p1 < 0 || p2 < 0 {
            None
        } else {
            match (parse_number(s.subrange(p0 + 1, p1)), parse_number(
                s.subrange(p1 + 1, p2),
            )) {
                (Option::Some(w), Option::Some(h)) => {
                    let e = find_from(s, 47, p2 + 1);
                    let data = if e < 0 {
                        s.skip(p2 + 1)
                    } else {
                        s.subrange(p2 + 1, e)
                    };
                    match decode_marks(data, data.len() as int, h * w) {
                        Option::Some(st) => Some((w, h, st.1)),
                        Option::None => None,
                    }
                },
                _ => None,
            }
        }
    }
}

/// Walks the data bytes over an all-false grid, marking the cells reached.
fn decode_grid(data: &[u8], width: usize, height: usize) -> (r: Option<Vec<Vec<bool>>>)
    requires
        width <= DIM_LIMIT,
        height <= DIM_LIMIT,
    ensures
        r is Some <==> decode_marks(data@, data@.len() as int, height as int * width as int)
            is Some,
        r matches Some(g) ==> {
            let st = decode_marks(
                data@,
                data@.len() as int,
                height as int * width as int,
            )->Some_0;
            &&& g@.len() == height
            &&& forall|y: int| 0 <= y < g@.len() ==> (#[trigger] g@[y])@.len() == width
            &&& forall|y: int, x: int|
                0 <= y < height && 0 <= x < width ==> #[trigger] g@[y]@[x] == st.1.contains(
                    y * width + x,
                )
        },
{
    proof {
        assert(height * width <= 0x7fff * 0x7fff) by (nonlinear_arith)
            requires
                0 <= height <= 0x7fff,
                0 <= width <= 0x7fff,
        ;
    }
    let cells: usize = height * width;
    let mut grid: Vec<Vec<bool>> = Vec::new();
    let mut y: usize = 0;
    while y < height
        invariant
            y <= height,
            grid@.len() == y,
            forall|yy: int| 0 <= yy < y ==> (#[trigger] grid@[yy])@.len() == width,
            forall|yy: int, x: int|
                0 <= yy < y && 0 <= x < width ==> #[trigger] grid@[yy]@[x] == false,
        decreases height - y,
    {
        let mut row: Vec<bool> = Vec::new();
        let mut x: usize = 0;
        while x < width
            invariant
                x <= width,
                row@.len() == x,
                forall|xx: int| 0 <= xx < x ==> #[trigger] row@[xx] == false,
            decreases width - x,
        {
            row.push(false);
            x += 1;
        }
        grid.push(row);
        y += 1;
    }
    // the cursor saturates at the cell count, which the decoding cannot
    // tell apart from any other position past the end of the grid
    let mut pos: usize = 0;
    let ghost mut spos: int = 0;
    let ghost mut marks: Set<int> = Set::empty();
    let mut k: usize = 0;
    while k < data.len()
        invariant
            k <= data@.len(),
            width <= DIM_LIMIT,
            height <= DIM_LIMIT,
            cells == height * width,
            decode_marks(data@, k as int, cells as int) == Some((spos, marks)),
            spos < cells ==> pos == spos,
            spos >= cells ==> pos == cells,
            pos <= cells,
            spos >= 0,
            grid@.len() == height,
            forall|yy: int| 0 <= yy < height ==> (#[trigger] grid@[yy])@.len() == width,
            forall|yy: int, x: int|
                0 <= yy < height && 0 <= x < width ==> #[trigger] grid@[yy]@[x]
                    == marks.contains(yy * width + x),
        decreases data@.len() - k,
    {
        let b = data[k];
        let ghost sposold = spos;
        let ghost marksold = marks;
        if b == 46 {
            pos = if pos >= cells || cells - pos <= 36 {
                cells
            } else {
                pos + 36
            };
            proof {
                spos = sposold + 36;
            }
        } else if (48 <= b && b <= 57) || (97 <= b && b <= 122) {
            let step: usize = if b <= 57 {
                (b - 48) as usize
            } else {
                (b - 97) as usize + 10
            };
            let ghost sstep: int = if 48 <= b <= 57 {
                (b - 48) as int
            } else {
                (b - 97) + 10
            };
            proof {
                assert(step == sstep);
            }
            if pos >= cells || cells - pos <= step {
                proof {
                    assert(sposold + sstep >= cells);
                    assert(decode_marks(data@, k as int + 1, cells as int) is None);
                    lemma_decode_fail(data@, k as int + 1, data@.len() as int, cells as int);
                }
                return None;
            }
            let p = pos + step;
            proof {
                assert(p == sposold + sstep && p < cells);
                spos = p as int;
                marks = marksold.insert(p as int);
            }
            let yy = p / width;
            let xx = p % width;
            proof {
                assert(width > 0) by {
                    if width == 0 {
                        assert(cells == 0) by (nonlinear_arith)
                            requires
                                cells == height * width,
                                width == 0,
                        ;
                    }
                }
                assert(yy < height && yy * width + xx == p) by (nonlinear_arith)
                    requires
                        width > 0,
                        yy == p as int / width as int,
                        xx == p as int % width as int,
                        0 <= p < cells,
                        cells == height * width,
                ;
            }
            let grow = &mut grid[yy];
            grow[xx] = true;
            pos = p + 1;
            proof {
                spos = spos + 1;
                assert forall|ya: int, xa: int|
                    0 <= ya < height && 0 <= xa < width implies #[trigger] grid@[ya]@[xa]
                    == marks.contains(ya * width + xa) by {
                    if ya == yy as int && xa == xx as int {
                        assert(grid@[ya]@[xa] == true);
                    } else {
                        assert(ya * width + xa != p) by (nonlinear_arith)
                            requires
                                0 <= ya < height,
                                0 <= xa < width,
                                0 <= p,
                                width > 0,
                                p == yy * width + xx,
                                xx < width,
                                yy < height,
                                !(ya == yy && xa == xx),
                        ;
                        assert(grid@[ya]@[xa] == marksold.contains(ya * width + xa));
                    }
                }
            }
        }
        k += 1;
    }
    Some(grid)
}

/// Parses the part of the URL after the query mark.
fn parse_tail(s: &[u8]) -> (r: Option<Vec<Vec<bool>>>)
    ensures
        r is Some <==> tail_problem(s@) is Some,
        r matches Some(g) ==> {
            let t = tail_problem(s@)->Some_0;
            &&& g@.len() == t.1
            &&& forall|y: int| 0 <= y < g@.len() ==> (#[trigger] g@[y])@.len() == t.0
            &&& forall|y: int, x: int|
                0 <= y < t.1 && 0 <= x < t.0 ==> #[trigger] g@[y]@[x] == t.2.contains(
                    y * t.0 + x,
                )
        },
{
    let p0 = match find_byte(s, 47, 0) {
        Some(p) => p,
        None => {
            return None;
        },
    };
    if p0 != 8 {
        proof {
            assert(s@.take(p0 as int).len() != ringring_tag().len());
        }
        return None;
    }
    if !(s[0] == 114 && s[1] == 105 && s[2] == 110 && s[3] == 103 && s[4] == 114 && s[5] == 105
        && s[6] == 110 && s[7] == 103) {
        proof {
            assert(s@.take(8) != ringring_tag()) by {
                if s@.take(8) == ringring_tag() {
                    assert(forall|j: int| 0 <= j < 8 ==> s@.take(8)[j] == ringring_tag()[j]);
                    assert(s@[0] == 114 && s@[1] == 105 && s@[2] == 110 && s@[3] == 103 && s@[4]
                        == 114 && s@[5] == 105 && s@[6] == 110 && s@[7] == 103);
                }
            }
        }
        return None;
    }
    proof {
        assert(s@.take(8) =~= ringring_tag());
    }
    let p1 = match find_byte(s, 47, p0 + 1) {
        Some(p) => p,
        None => {
            return None;
        },
    };
    let p2 = match find_byte(s, 47, p1 + 1) {
        Some(p) => p,
        None => {
            return None;
        },
    };
    let width = match parse_num(&s[p0 + 1..p1]) {
        Some(v) => v,
        None => {
            return None;
        },
    };
    let height = match parse_num(&s[p1 + 1..p2]) {
        Some(v) => v,
        None => {
            return None;
        },
    };
    let data: &[u8] = match find_byte(s, 47, p2 + 1) {
        Some(e) => &s[p2 + 1..e],
        None => &s[p2 + 1..s.len()],
    };
    proof {
        let e = find_from(s@, 47, p2 as int + 1);
        if e < 0 {
            assert(data@ =~= s@.skip(p2 as int + 1));
        } else {
            assert(data@ =~= s@.subrange(p2 as int + 1, e));
        }
        assert(height * width == (height as int) * (width as int));
    }
    decode_grid(data, width, height)
}

/// Reads a ringring problem from a puzzle URL: the grid of marked cells,
/// `height` rows of `width` cells, exactly the cells the URL's data walks
/// onto.  Any URL that does not carry a well-formed ringring problem yields
/// `None`.
pub fn deserialize_problem(url: &str) -> (r: Option<Vec<Vec<bool>>>)
    ensures
        r is Some <==> ringring_problem(url.spec_bytes()) is Some,
        r matches Some(g) ==> {
            let t = ringring_problem(url.spec_bytes())->Some_0;
            &&& g@.len() == t.1
            &&& forall|y: int| 0 <= y < g@.len() ==> (#[trigger] g@[y])@.len() == t.0
            &&& forall|y: int, x: int|
                0 <= y < t.1 && 0 <= x < t.0 ==> #[trigger] g@[y]@[x] == t.2.contains(
                    y * t.0 + x,
                )
        },
{
    let bytes = url.as_bytes();
    // the puzzle data is everything after the last question mark
    let mut qlast: Option<usize> = None;
    let mut i: usize = 0;
    while i < bytes.len()
        invariant
            i <= bytes@.len(),
            match qlast {
                Some(q) => q < i && bytes@[q as int] == 63 && forall|j: int|
                    q < j < i ==> bytes@[j] != 63,
                None => forall|j: int| 0 <= j < i ==> bytes@[j] != 63,
            },
        decreases bytes@.len() - i,
    {
        if bytes[i] == 63 {
            qlast = Some(i);
        }
        i += 1;
    }
    let start = match qlast {
        Some(q) => {
            proof {
                lemma_after_query_at(bytes@, q as int);
            }
            q + 1
        },
        None => {
            proof {
                lemma_after_query_all(bytes@);
            }
            0
        },
    };
    let s = &bytes[start..bytes.len()];
    proof {
        assert(s@ =~= after_query(url.spec_bytes()));
    }
    parse_tail(s)
}

} // verus!
