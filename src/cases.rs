//! The marching-squares case table and the corner code of a cell.
use vstd::prelude::*;

use crate::geometry::Point;

verus! {

/// A directed segment from its first point to its second.
pub type Segment = (Point, Point);

/// A point of the unit cell, in half steps: a cell spans `1..=3` on both axes
/// before it is moved to its place.
pub open spec fn lp(x: u32, y: u32) -> Point {
    Point { x, y }
}

/// The segments that a cell with the given corner code holds, in the cell's
/// own half-step coordinates. Bit 0 is the corner at `(1, 3)`, bit 1 the one at
/// `(3, 3)`, bit 2 the one at `(3, 1)` and bit 3 the one at `(1, 1)`. The two
/// saddle codes hold two segments each; the order of the two points of a
/// segment keeps the area at or above the threshold on one side.
pub open spec fn case_table(code: int) -> Seq<Segment> {
    if code == 1 {
        seq![(lp(2, 3), lp(1, 2))]
    } else if code == 2 {
        seq![(lp(3, 2), lp(2, 3))]
    } else if code == 3 {
        seq![(lp(3, 2), lp(1, 2))]
    } else if code == 4 {
        seq![(lp(2, 1), lp(3, 2))]
    } else if code == 5 {
        seq![(lp(2, 3), lp(1, 2)), (lp(2, 1), lp(3, 2))]
    } else if code == 6 {
        seq![(lp(2, 1), lp(2, 3))]
    } else if code == 7 {
        seq![(lp(2, 1), lp(1, 2))]
    } else if code == 8 {
        seq![(lp(1, 2), lp(2, 1))]
    } else if code == 9 {
        seq![(lp(2, 3), lp(2, 1))]
    } else if code == 10 {
        seq![(lp(1, 2), lp(2, 1)), (lp(3, 2), lp(2, 3))]
    } else if code == 11 {
        seq![(lp(3, 2), lp(2, 1))]
    } else if code == 12 {
        seq![(lp(1, 2), lp(3, 2))]
    } else if code == 13 {
        seq![(lp(2, 3), lp(3, 2))]
    } else if code == 14 {
        seq![(lp(1, 2), lp(2, 3))]
    } else {
        seq![]
    }
}

fn pt(x: u32, y: u32) -> (r: Point)
    ensures
        r == lp(x, y),
{
    Point { x, y }
}

/// The segments of the case table for `code`.
pub fn case_segments(code: u8) -> (r: Vec<Segment>)
    requires
        code < 16,
    ensures
        r@ == case_table(code as int),
{
    let r = match code {
        1 => vec![(pt(2, 3), pt(1, 2))],
        2 => vec![(pt(3, 2), pt(2, 3))],
        3 => vec![(pt(3, 2), pt(1, 2))],
        4 => vec![(pt(2, 1), pt(3, 2))],
        5 => vec![(pt(2, 3), pt(1, 2)), (pt(2, 1), pt(3, 2))],
        6 => vec![(pt(2, 1), pt(2, 3))],
        7 => vec![(pt(2, 1), pt(1, 2))],
        8 => vec![(pt(1, 2), pt(2, 1))],
        9 => vec![(pt(2, 3), pt(2, 1))],
        10 => vec![(pt(1, 2), pt(2, 1)), (pt(3, 2), pt(2, 3))],
        11 => vec![(pt(3, 2), pt(2, 1))],
        12 => vec![(pt(1, 2), pt(3, 2))],
        13 => vec![(pt(2, 3), pt(3, 2))],
        14 => vec![(pt(1, 2), pt(2, 3))],
        _ => Vec::new(),
    };
    proof {
        assert(r@ =~= case_table(code as int));
    }
    r
}

/// Whether the sample at column `i`, row `j` is at or above the threshold;
/// samples outside the grid count as below.
pub open spec fn sample(mask: Seq<bool>, dx: int, dy: int, i: int, j: int) -> bool {
    0 <= i < dx && 0 <= j < dy && mask[j * dx + i]
}

pub open spec fn bit(b: bool, w: int) -> int {
    if b {
        w
    } else {
        0
    }
}

/// The corner code of the cell whose corners are the samples at columns
/// `cx - 1, cx` and rows `cy - 1, cy`.
pub open spec fn cell_code(mask: Seq<bool>, dx: int, dy: int, cx: int, cy: int) -> int {
    bit(sample(mask, dx, dy, cx - 1, cy), 1) + bit(sample(mask, dx, dy, cx, cy), 2) + bit(
        sample(mask, dx, dy, cx, cy - 1),
        4,
    ) + bit(sample(mask, dx, dy, cx - 1, cy - 1), 8)
}

/// A segment of the table moved to the cell `(cx, cy)`: the cell's local `2`
/// lands on `2 * cx` and `2 * cy`.
pub open spec fn place(p: Point, cx: int, cy: int) -> (int, int) {
    (2 * cx + p.x - 2, 2 * cy + p.y - 2)
}

proof fn lemma_index_in_grid(dx: int, dy: int, i: int, j: int)
    requires
        0 <= i < dx,
        0 <= j < dy,
    ensures
        0 <= j * dx + i < dx * dy,
{
    assert(j * dx + i < dx * dy) by (nonlinear_arith)
        requires
            0 <= i < dx,
            0 <= j < dy,
    ;
    assert(0 <= j * dx) by (nonlinear_arith)
        requires
            0 <= j,
            0 <= dx,
    ;
}

fn sample_at(mask: &Vec<bool>, dx: usize, dy: usize, i: usize, j: usize) -> (r: bool)
    requires
        mask@.len() == dx * dy,
        i <= dx,
        j <= dy,
    ensures
        r == sample(mask@, dx as int, dy as int, i as int, j as int),
{
    let n = mask.len();
    if i < dx && j < dy {
        proof {
            lemma_index_in_grid(dx as int, dy as int, i as int, j as int);
        }
        mask[j * dx + i]
    } else {
        false
    }
}

/// The corner code of the cell `(cx, cy)`; the cells run over `0..=dx` and
/// `0..=dy`, those on the border having samples outside the grid.
pub fn corner_code(mask: &Vec<bool>, dx: usize, dy: usize, cx: usize, cy: usize) -> (r: u8)
    requires
        mask@.len() == dx * dy,
        cx <= dx,
        cy <= dy,
    ensures
        r as int == cell_code(mask@, dx as int, dy as int, cx as int, cy as int),
        r < 16,
{
    let b0 = cx >= 1 && sample_at(mask, dx, dy, cx - 1, cy);
    let b1 = sample_at(mask, dx, dy, cx, cy);
    let b2 = cy >= 1 && sample_at(mask, dx, dy, cx, cy - 1);
    let b3 = cx >= 1 && cy >= 1 && sample_at(mask, dx, dy, cx - 1, cy - 1);
    let mut r: u8 = 0;
    if b0 {
        r = r + 1;
    }
    if b1 {
        r = r + 2;
    }
    if b2 {
        r = r + 4;
    }
    if b3 {
        r = r + 8;
    }
    r
}

/// Every segment of a cell on the grid's border stays inside the lattice
/// `[0, 2 * dx] x [0, 2 * dy]`: a corner outside the grid is below the threshold,
/// and the table keeps away from the sides that such corners span.
pub proof fn lemma_placed_in_lattice(mask: Seq<bool>, dx: int, dy: int, cx: int, cy: int, k: int)
    requires
        0 <= cx <= dx,
        0 <= cy <= dy,
        0 <= k < case_table(cell_code(mask, dx, dy, cx, cy)).len(),
    ensures
        ({
            let s = case_table(cell_code(mask, dx, dy, cx, cy))[k];
            &&& 0 <= place(s.0, cx, cy).0 <= 2 * dx
            &&& 0 <= place(s.0, cx, cy).1 <= 2 * dy
            &&& 0 <= place(s.1, cx, cy).0 <= 2 * dx
            &&& 0 <= place(s.1, cx, cy).1 <= 2 * dy
        }),
{
    let b0 = sample(mask, dx, dy, cx - 1, cy);
    let b1 = sample(mask, dx, dy, cx, cy);
    let b2 = sample(mask, dx, dy, cx, cy - 1);
    let b3 = sample(mask, dx, dy, cx - 1, cy - 1);
    assert(cx == 0 ==> !b0 && !b3);
    assert(cx == dx ==> !b1 && !b2);
    assert(cy == 0 ==> !b2 && !b3);
    assert(cy == dy ==> !b0 && !b1);
}

} // verus!
