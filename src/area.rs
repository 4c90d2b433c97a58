//! Signed area and ring containment on the lattice, in exact integer arithmetic.
use vstd::prelude::*;

use crate::geometry::Point;

verus! {

/// The index of the vertex before `i` on a closed ring of `n` vertices.
pub open spec fn prev(n: int, i: int) -> int {
    if i == 0 {
        n - 1
    } else {
        i - 1
    }
}

/// The shoelace term of the edge from `a` to `b`.
pub open spec fn cross_term(a: Point, b: Point) -> int {
    a.y * b.x - a.x * b.y
}

/// The sum of the shoelace terms of the first `n` edges of the ring, edge `i`
/// running from vertex `prev(i)` to vertex `i`.
pub open spec fn shoelace(r: Seq<Point>, n: int) -> int
    decreases n,
{
    if n <= 0 {
        0
    } else {
        shoelace(r, n - 1) + cross_term(r[prev(r.len() as int, n - 1)], r[n - 1])
    }
}

/// Twice the signed area of a ring; it is positive on the rings that wind as
/// the exterior rings of the stitching engine do.
pub open spec fn ring_area(r: Seq<Point>) -> int {
    shoelace(r, r.len() as int)
}

/// Fewer than 2^60 vertices: a vector of eight-byte points never holds more
/// than `isize::MAX / 8` of them.
pub open spec fn ring_len_ok(r: Seq<Point>) -> bool {
    r.len() < 0x1000_0000_0000_0000
}

const TERM_BOUND: i128 = 0x1_0000_0000_0000_0000;

proof fn lemma_term_bound(a: Point, b: Point)
    ensures
        -TERM_BOUND < cross_term(a, b) < TERM_BOUND,
        0 <= a.y * b.x <= 0xffff_ffff * 0xffff_ffff,
        0 <= a.x * b.y <= 0xffff_ffff * 0xffff_ffff,
{
    assert(0 <= a.y * b.x <= 0xffff_ffff * 0xffff_ffff) by (nonlinear_arith)
        requires
            0 <= a.y <= 0xffff_ffff,
            0 <= b.x <= 0xffff_ffff,
    ;
    assert(0 <= a.x * b.y <= 0xffff_ffff * 0xffff_ffff) by (nonlinear_arith)
        requires
            0 <= a.x <= 0xffff_ffff,
            0 <= b.y <= 0xffff_ffff,
    ;
}

fn cross(a: &Point, b: &Point) -> (r: i128)
    ensures
        r == cross_term(*a, *b),
{
    proof {
        lemma_term_bound(*a, *b);
    }
    a.y as i128 * b.x as i128 - a.x as i128 * b.y as i128
}

/// Twice the signed area of the ring, by the shoelace formula (the halving is
/// left out: only the sign and the relative size are used).
pub fn area(ring: &Vec<Point>) -> (r: i128)
    requires
        ring@.len() >= 1,
        ring_len_ok(ring@),
    ensures
        r == ring_area(ring@),
{
    let n = ring.len();
    let mut area = cross(&ring[n - 1], &ring[0]);
    let mut i: usize = 1;
    proof {
        reveal_with_fuel(shoelace, 2);
        lemma_term_bound(ring@[n - 1], ring@[0]);
    }
    while i < n
        invariant
            1 <= i <= n,
            n == ring@.len(),
            ring_len_ok(ring@),
            area == shoelace(ring@, i as int),
            -0x1_0000_0000_0000_0000 * (i as int) < area < 0x1_0000_0000_0000_0000 * (i as int),
        decreases n - i,
    {
        let ghost ii = i as int;
        let ghost a0 = area as int;
        let ghost t = cross_term(ring@[i - 1], ring@[ii]);
        proof {
            lemma_term_bound(ring@[i - 1], ring@[ii]);
            assert(-0x1_0000_0000_0000_0000 * (ii + 1) < a0 + t < 0x1_0000_0000_0000_0000 * (ii
                + 1)) by (nonlinear_arith)
                requires
                    -0x1_0000_0000_0000_0000 * ii < a0 < 0x1_0000_0000_0000_0000 * ii,
                    -0x1_0000_0000_0000_0000 < t < 0x1_0000_0000_0000_0000,
            ;
            assert(0x1_0000_0000_0000_0000 * (ii + 1) <= 0x1_0000_0000_0000_0000
                * 0x1000_0000_0000_0000) by (nonlinear_arith)
                requires
                    ii + 1 <= 0x1000_0000_0000_0000,
            ;
        }
        area = area + cross(&ring[i - 1], &ring[i]);
        i = i + 1;
    }
    area
}

proof fn lemma_boundary_grows(r: Seq<Point>, p: Point, i: int, n: int)
    requires
        0 <= i <= n,
        boundary_before(r, p, i),
    ensures
        boundary_before(r, p, n),
    decreases n - i,
{
    if i < n {
        lemma_boundary_grows(r, p, i, n - 1);
    }
}

/// `q` lies between `p` and `r`, either way round.
pub open spec fn within_spec(p: int, q: int, r: int) -> bool {
    p <= q && q <= r || r <= q && q <= p
}

/// The three points lie on one line.
pub open spec fn collinear_spec(a: Point, b: Point, c: Point) -> bool {
    (b.x - a.x) * (c.y - a.y) - (c.x - a.x) * (b.y - a.y) == 0
}

/// `c` lies on the segment from `a` to `b`.
pub open spec fn on_segment(a: Point, b: Point, c: Point) -> bool {
    collinear_spec(a, b, c) && if a.x == b.x {
        within_spec(a.y as int, c.y as int, b.y as int)
    } else {
        within_spec(a.x as int, c.x as int, b.x as int)
    }
}

/// The ray from `p` towards growing `x` crosses the edge from `a` to `b`:
/// the edge straddles the line `y = p.y` (half-open, as ray casting counts),
/// and its point on that line lies beyond `p`.
pub open spec fn crosses(a: Point, b: Point, p: Point) -> bool {
    let d = b.y - a.y;
    let num = (b.x - a.x) * (p.y - a.y);
    &&& (a.y > p.y) != (b.y > p.y)
    &&& if d > 0 {
        (p.x - a.x) * d < num
    } else {
        (p.x - a.x) * d > num
    }
}

/// One of the first `n` edges of the ring holds `p`.
pub open spec fn boundary_before(r: Seq<Point>, p: Point, n: int) -> bool
    decreases n,
{
    if n <= 0 {
        false
    } else {
        boundary_before(r, p, n - 1) || on_segment(r[n - 1], r[prev(r.len() as int, n - 1)], p)
    }
}

/// How many of the first `n` edges of the ring the ray from `p` crosses.
pub open spec fn crossings(r: Seq<Point>, p: Point, n: int) -> int
    decreases n,
{
    if n <= 0 {
        0
    } else {
        crossings(r, p, n - 1) + if crosses(r[n - 1], r[prev(r.len() as int, n - 1)], p) {
            1int
        } else {
            0int
        }
    }
}

/// Where `p` stands with respect to the ring: `0` on its boundary, else `1`
/// inside (an odd number of crossings) and `-1` outside.
pub open spec fn ring_containment(r: Seq<Point>, p: Point) -> int {
    if boundary_before(r, p, r.len() as int) {
        0
    } else if crossings(r, p, r.len() as int) % 2 == 1 {
        1
    } else {
        -1
    }
}

/// The containment of the first vertex of `hole`, from `i` on, that is not on
/// the boundary of `ring`; `0` when there is none.
pub open spec fn containment_from(ring: Seq<Point>, hole: Seq<Point>, i: int) -> int
    decreases hole.len() - i,
{
    if i < 0 || i >= hole.len() {
        0
    } else if ring_containment(ring, hole[i]) != 0 {
        ring_containment(ring, hole[i])
    } else {
        containment_from(ring, hole, i + 1)
    }
}

/// Where `hole` stands with respect to `ring`, judged by its first vertex that
/// is off the boundary of `ring`: `1` inside, `-1` outside, `0` when every
/// vertex is on the boundary.
pub open spec fn ring_containment_of(ring: Seq<Point>, hole: Seq<Point>) -> int {
    containment_from(ring, hole, 0)
}

fn within(p: u32, q: u32, r: u32) -> (b: bool)
    ensures
        b == within_spec(p as int, q as int, r as int),
{
    p <= q && q <= r || r <= q && q <= p
}

fn collinear(a: &Point, b: &Point, c: &Point) -> (r: bool)
    ensures
        r == collinear_spec(*a, *b, *c),
{
    let bx = b.x as i128 - a.x as i128;
    let by = b.y as i128 - a.y as i128;
    let cx = c.x as i128 - a.x as i128;
    let cy = c.y as i128 - a.y as i128;
    proof {
        assert(-0x1_0000_0000_0000_0000 < bx * cy < 0x1_0000_0000_0000_0000) by (nonlinear_arith)
            requires
                -0x1_0000_0000 < bx < 0x1_0000_0000,
                -0x1_0000_0000 < cy < 0x1_0000_0000,
        ;
        assert(-0x1_0000_0000_0000_0000 < cx * by < 0x1_0000_0000_0000_0000) by (nonlinear_arith)
            requires
                -0x1_0000_0000 < cx < 0x1_0000_0000,
                -0x1_0000_0000 < by < 0x1_0000_0000,
        ;
    }
    bx * cy - cx * by == 0
}

fn segment_contains(a: &Point, b: &Point, c: &Point) -> (r: bool)
    ensures
        r == on_segment(*a, *b, *c),
{
    if collinear(a, b, c) {
        if a.x == b.x {
            within(a.y, c.y, b.y)
        } else {
            within(a.x, c.x, b.x)
        }
    } else {
        false
    }
}

fn ray_crosses(a: &Point, b: &Point, p: &Point) -> (r: bool)
    ensures
        r == crosses(*a, *b, *p),
{
    if (a.y > p.y) != (b.y > p.y) {
        let d = b.y as i128 - a.y as i128;
        let dxe = b.x as i128 - a.x as i128;
        let dyp = p.y as i128 - a.y as i128;
        let dxp = p.x as i128 - a.x as i128;
        proof {
            assert(-0x1_0000_0000_0000_0000 < dxe * dyp < 0x1_0000_0000_0000_0000) by (nonlinear_arith)
                requires
                    -0x1_0000_0000 < dxe < 0x1_0000_0000,
                    -0x1_0000_0000 < dyp < 0x1_0000_0000,
            ;
            assert(-0x1_0000_0000_0000_0000 < dxp * d < 0x1_0000_0000_0000_0000) by (nonlinear_arith)
                requires
                    -0x1_0000_0000 < dxp < 0x1_0000_0000,
                    -0x1_0000_0000 < d < 0x1_0000_0000,
            ;
        }
        if d > 0 {
            dxp * d < dxe * dyp
        } else {
            dxp * d > dxe * dyp
        }
    } else {
        false
    }
}

/// Where `point` stands with respect to `ring` by ray casting: `0` on an edge,
/// `1` inside, `-1` outside.
pub fn ring_contains(ring: &Vec<Point>, point: &Point) -> (r: i32)
    requires
        ring@.len() >= 1,
    ensures
        r == ring_containment(ring@, *point),
{
    let n = ring.len();
    let mut contains: i32 = -1;
    let mut j = n - 1;
    let mut i: usize = 0;
    while i < n
        invariant
            0 <= i <= n,
            n == ring@.len(),
            j == prev(n as int, i as int),
            !boundary_before(ring@, *point, i as int),
            contains == (if crossings(ring@, *point, i as int) % 2 == 1 {
                1i32
            } else {
                -1i32
            }),
        decreases n - i,
    {
        if segment_contains(&ring[i], &ring[j], point) {
            proof {
                lemma_boundary_grows(ring@, *point, i as int + 1, n as int);
            }
            return 0;
        }
        if ray_crosses(&ring[i], &ring[j], point) {
            contains = -contains;
        }
        j = i;
        i = i + 1;
    }
    contains
}

/// Where `hole` stands with respect to `ring`: the containment of its first
/// vertex that is off the boundary of `ring`, or `0` when there is none.
pub fn contains(ring: &Vec<Point>, hole: &Vec<Point>) -> (r: i32)
    requires
        ring@.len() >= 1,
    ensures
        r == ring_containment_of(ring@, hole@),
{
    let n = hole.len();
    let mut i: usize = 0;
    while i < n
        invariant
            0 <= i <= n,
            n == hole@.len(),
            ring@.len() >= 1,
            containment_from(ring@, hole@, 0) == containment_from(ring@, hole@, i as int),
        decreases n - i,
    {
        let c = ring_contains(ring, &hole[i]);
        if c != 0 {
            return c;
        }
        i = i + 1;
    }
    0
}

} // verus!
