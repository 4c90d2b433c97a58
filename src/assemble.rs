//! Polygon assembly: closed rings sorted into exterior rings and holes, and
//! each hole given to the first exterior ring that holds it.
use vstd::prelude::*;

use crate::area::{area, contains, ring_area, ring_containment_of, ring_len_ok};
use crate::geometry::{lemma_views_push, polygon_views, views, Point, Polygon, PolygonView, Ring};

verus! {

/// Every ring has a vertex and can be measured.
pub open spec fn measurable(rs: Seq<Seq<Point>>) -> bool {
    forall|i: int| 0 <= i < rs.len() ==> #[trigger] rs[i].len() >= 1 && ring_len_ok(rs[i])
}

/// The rings among the first `n` whose signed area is positive, in order.
pub open spec fn shells_upto(rs: Seq<Seq<Point>>, n: int) -> Seq<Seq<Point>>
    decreases n,
{
    if n <= 0 {
        seq![]
    } else if ring_area(rs[n - 1]) > 0 {
        shells_upto(rs, n - 1).push(rs[n - 1])
    } else {
        shells_upto(rs, n - 1)
    }
}

/// The rings among the first `n` whose signed area is zero or negative, in order.
pub open spec fn holes_upto(rs: Seq<Seq<Point>>, n: int) -> Seq<Seq<Point>>
    decreases n,
{
    if n <= 0 {
        seq![]
    } else if ring_area(rs[n - 1]) > 0 {
        holes_upto(rs, n - 1)
    } else {
        holes_upto(rs, n - 1).push(rs[n - 1])
    }
}

/// The index of the first exterior ring, from `k` on, that does not have
/// `hole` outside it; `shells.len()` when there is none.
pub open spec fn first_container(shells: Seq<Seq<Point>>, hole: Seq<Point>, k: int) -> int
    decreases shells.len() - k,
{
    if k < 0 || k >= shells.len() {
        shells.len() as int
    } else if ring_containment_of(shells[k], hole) != -1 {
        k
    } else {
        first_container(shells, hole, k + 1)
    }
}

/// The holes among the first `n` that go to exterior ring `k`, in order.
pub open spec fn attached_upto(
    shells: Seq<Seq<Point>>,
    holes: Seq<Seq<Point>>,
    k: int,
    n: int,
) -> Seq<Seq<Point>>
    decreases n,
{
    if n <= 0 {
        seq![]
    } else if first_container(shells, holes[n - 1], 0) == k {
        attached_upto(shells, holes, k, n - 1).push(holes[n - 1])
    } else {
        attached_upto(shells, holes, k, n - 1)
    }
}

/// `ps` holds one polygon per exterior ring, in order, and each hole lies in
/// the polygon of the first exterior ring that holds it; a hole that no
/// exterior ring holds is left out.
pub open spec fn attached(
    ps: Seq<PolygonView>,
    shells: Seq<Seq<Point>>,
    holes: Seq<Seq<Point>>,
) -> bool {
    &&& ps.len() == shells.len()
    &&& forall|k: int|
        0 <= k < ps.len() ==> (#[trigger] ps[k]).0 == shells[k] && ps[k].1 == attached_upto(
            shells,
            holes,
            k,
            holes.len() as int,
        )
}

fn find_container(shells: &Vec<Ring>, hole: &Ring) -> (r: usize)
    requires
        measurable(views(shells@)),
    ensures
        r as int == first_container(views(shells@), hole@, 0),
{
    let ghost sv = views(shells@);
    let mut k: usize = 0;
    while k < shells.len()
        invariant
            0 <= k <= shells@.len(),
            sv == views(shells@),
            measurable(sv),
            first_container(sv, hole@, 0) == first_container(sv, hole@, k as int),
        decreases shells.len() - k,
    {
        assert(sv[k as int] == shells@[k as int]@);
        if contains(&shells[k], hole) != -1 {
            return k;
        }
        k = k + 1;
    }
    k
}

/// Gives each hole to the first exterior ring that holds it (its first vertex
/// off that ring's boundary is inside), and makes one polygon per exterior
/// ring, in order. A hole that no exterior ring holds is dropped.
pub fn attach_holes(shells: Vec<Ring>, holes: Vec<Ring>) -> (r: Vec<Polygon>)
    requires
        measurable(views(shells@)),
    ensures
        attached(polygon_views(r@), views(shells@), views(holes@)),
{
    let ghost s0 = shells@;
    let ghost h0 = holes@;
    let ghost sv = views(s0);
    let ghost hv = views(h0);
    let mut assign: Vec<usize> = Vec::new();
    let mut h: usize = 0;
    while h < holes.len()
        invariant
            0 <= h <= holes@.len(),
            shells@ == s0,
            holes@ == h0,
            measurable(sv),
            sv == views(s0),
            hv == views(h0),
            assign@.len() == h,
            forall|j: int| 0 <= j < h ==> #[trigger] assign@[j] as int == first_container(sv, hv[j], 0),
        decreases holes.len() - h,
    {
        let k = find_container(&shells, &holes[h]);
        assign.push(k);
        h = h + 1;
    }
    let mut shells = shells;
    let mut polys: Vec<Polygon> = Vec::new();
    let mut k: usize = 0;
    while k < shells.len()
        invariant
            0 <= k <= shells@.len(),
            shells@.len() == s0.len(),
            sv == views(s0),
            polys@.len() == k,
            forall|j: int| k <= j < s0.len() ==> #[trigger] shells@[j] == s0[j],
            forall|j: int|
                0 <= j < k ==> (#[trigger] polys@[j])@.0 == sv[j] && polys@[j]@.1 == Seq::<
                    Seq<Point>,
                >::empty(),
        decreases s0.len() - k,
    {
        let mut ext: Ring = Vec::new();
        shells.set_and_swap(k, &mut ext);
        let p = Polygon { exterior: ext, interiors: Vec::new() };
        assert(p@.1 =~= Seq::<Seq<Point>>::empty());
        polys.push(p);
        k = k + 1;
    }
    let mut holes = holes;
    let mut h: usize = 0;
    while h < holes.len()
        invariant
            0 <= h <= holes@.len(),
            holes@.len() == h0.len(),
            assign@.len() == h0.len(),
            polys@.len() == s0.len(),
            sv == views(s0),
            hv == views(h0),
            forall|j: int| h <= j < h0.len() ==> #[trigger] holes@[j] == h0[j],
            forall|j: int| 0 <= j < h0.len() ==> #[trigger] assign@[j] as int == first_container(sv, hv[j], 0),
            forall|j: int|
                0 <= j < s0.len() ==> (#[trigger] polys@[j])@.0 == sv[j] && polys@[j]@.1
                    == attached_upto(sv, hv, j, h as int),
        decreases h0.len() - h,
    {
        let ghost before = polys@;
        let mut hole: Ring = Vec::new();
        holes.set_and_swap(h, &mut hole);
        assert(hole@ == hv[h as int]);
        let k = assign[h];
        if k < polys.len() {
            let mut p = Polygon { exterior: Vec::new(), interiors: Vec::new() };
            polys.set_and_swap(k, &mut p);
            let ghost old_ints = p.interiors@;
            p.interiors.push(hole);
            proof {
                lemma_views_push(old_ints, hole);
            }
            polys.set_and_swap(k, &mut p);
        }
        proof {
            assert forall|j: int| 0 <= j < s0.len() implies (#[trigger] polys@[j])@.0 == sv[j]
                && polys@[j]@.1 == attached_upto(sv, hv, j, h as int + 1) by {
                if j != k {
                    assert(polys@[j] == before[j]);
                }
            }
        }
        h = h + 1;
    }
    assert(polygon_views(polys@).len() == sv.len());
    polys
}

/// Sorts closed rings into exterior rings (positive signed area) and holes
/// (zero or negative), and gives each hole to the first exterior ring that
/// holds it: one polygon per exterior ring, in the order of the rings.
pub fn assemble_polygons(rings: Vec<Ring>) -> (r: Vec<Polygon>)
    requires
        measurable(views(rings@)),
    ensures
        attached(
            polygon_views(r@),
            shells_upto(views(rings@), rings@.len() as int),
            holes_upto(views(rings@), rings@.len() as int),
        ),
{
    let ghost r0 = rings@;
    let ghost rv = views(r0);
    let mut rings = rings;
    let mut shells: Vec<Ring> = Vec::new();
    let mut holes: Vec<Ring> = Vec::new();
    let mut i: usize = 0;
    assert(views(shells@) =~= Seq::<Seq<Point>>::empty());
    assert(views(holes@) =~= Seq::<Seq<Point>>::empty());
    while i < rings.len()
        invariant
            0 <= i <= rings@.len(),
            rings@.len() == r0.len(),
            rv == views(r0),
            measurable(rv),
            forall|j: int| i <= j < r0.len() ==> #[trigger] rings@[j] == r0[j],
            views(shells@) == shells_upto(rv, i as int),
            views(holes@) == holes_upto(rv, i as int),
        decreases r0.len() - i,
    {
        let mut ring: Ring = Vec::new();
        rings.set_and_swap(i, &mut ring);
        assert(ring@ == rv[i as int]);
        if area(&ring) > 0 {
            proof {
                lemma_views_push(shells@, ring);
            }
            shells.push(ring);
        } else {
            proof {
                lemma_views_push(holes@, ring);
            }
            holes.push(ring);
        }
        i = i + 1;
    }
    proof {
        let sh = views(shells@);
        assert forall|j: int| 0 <= j < sh.len() implies #[trigger] sh[j].len() >= 1 && ring_len_ok(
            sh[j],
        ) by {
            lemma_shells_measurable(rv, r0.len() as int, j);
        }
    }
    attach_holes(shells, holes)
}

proof fn lemma_shells_measurable(rs: Seq<Seq<Point>>, n: int, j: int)
    requires
        measurable(rs),
        0 <= n <= rs.len(),
        0 <= j < shells_upto(rs, n).len(),
    ensures
        shells_upto(rs, n)[j].len() >= 1 && ring_len_ok(shells_upto(rs, n)[j]),
    decreases n,
{
    if n > 0 {
        if ring_area(rs[n - 1]) > 0 && j == shells_upto(rs, n - 1).len() {
        } else {
            lemma_shells_measurable(rs, n - 1, j);
        }
    }
}

proof fn lemma_first_container_holds(shells: Seq<Seq<Point>>, hole: Seq<Point>, k: int)
    requires
        0 <= k,
        first_container(shells, hole, k) < shells.len(),
    ensures
        ring_containment_of(shells[first_container(shells, hole, k)], hole) != -1,
    decreases shells.len() - k,
{
    if k < shells.len() && ring_containment_of(shells[k], hole) == -1 {
        lemma_first_container_holds(shells, hole, k + 1);
    }
}

proof fn lemma_attached_member(
    shells: Seq<Seq<Point>>,
    holes: Seq<Seq<Point>>,
    k: int,
    n: int,
    h: int,
)
    requires
        0 <= n <= holes.len(),
        0 <= h < attached_upto(shells, holes, k, n).len(),
    ensures
        exists|m: int|
            0 <= m < n && holes[m] == attached_upto(shells, holes, k, n)[h] && #[trigger] first_container(
                shells,
                holes[m],
                0,
            ) == k,
    decreases n,
{
    if n > 0 {
        let prev = attached_upto(shells, holes, k, n - 1);
        if first_container(shells, holes[n - 1], 0) == k && h == prev.len() {
            assert(holes[n - 1] == attached_upto(shells, holes, k, n)[h]);
        } else {
            lemma_attached_member(shells, holes, k, n - 1, h);
        }
    }
}

proof fn lemma_shells_positive(rs: Seq<Seq<Point>>, n: int, j: int)
    requires
        0 <= n <= rs.len(),
        0 <= j < shells_upto(rs, n).len(),
    ensures
        ring_area(shells_upto(rs, n)[j]) > 0,
    decreases n,
{
    if n > 0 {
        if !(ring_area(rs[n - 1]) > 0 && j == shells_upto(rs, n - 1).len()) {
            lemma_shells_positive(rs, n - 1, j);
        }
    }
}

proof fn lemma_holes_nonpositive(rs: Seq<Seq<Point>>, n: int, j: int)
    requires
        0 <= n <= rs.len(),
        0 <= j < holes_upto(rs, n).len(),
    ensures
        ring_area(holes_upto(rs, n)[j]) <= 0,
    decreases n,
{
    if n > 0 {
        if !(ring_area(rs[n - 1]) <= 0 && j == holes_upto(rs, n - 1).len()) {
            lemma_holes_nonpositive(rs, n - 1, j);
        }
    }
}

/// Winding consistency of contour polygons: in the assembly of any set of
/// rings, every exterior ring has a positive signed area, every hole a zero
/// or negative one, and no hole lies outside the exterior ring it was given.
pub proof fn lemma_winding_consistent(rs: Seq<Seq<Point>>, ps: Seq<PolygonView>)
    requires
        attached(ps, shells_upto(rs, rs.len() as int), holes_upto(rs, rs.len() as int)),
    ensures
        forall|k: int| 0 <= k < ps.len() ==> ring_area(#[trigger] ps[k].0) > 0,
        forall|k: int, h: int|
            0 <= k < ps.len() && 0 <= h < ps[k].1.len() ==> ring_area(#[trigger] ps[k].1[h]) <= 0
                && ring_containment_of(ps[k].0, ps[k].1[h]) != -1,
{
    let n = rs.len() as int;
    let shells = shells_upto(rs, n);
    let holes = holes_upto(rs, n);
    assert forall|k: int| 0 <= k < ps.len() implies ring_area(#[trigger] ps[k].0) > 0 by {
        lemma_shells_positive(rs, n, k);
    }
    assert forall|k: int, h: int|
        0 <= k < ps.len() && 0 <= h < ps[k].1.len() implies ring_area(#[trigger] ps[k].1[h]) <= 0
        && ring_containment_of(ps[k].0, ps[k].1[h]) != -1 by {
        lemma_attached_member(shells, holes, k, holes.len() as int, h);
        let m = choose|m: int|
            0 <= m < holes.len() && holes[m] == attached_upto(
                shells,
                holes,
                k,
                holes.len() as int,
            )[h] && #[trigger] first_container(shells, holes[m], 0) == k;
        lemma_holes_nonpositive(rs, n, m);
        lemma_first_container_holds(shells, holes[m], 0);
    }
}

/// The sort key of a ring: the size of its area in square grid steps,
/// rounded down (the lattice area is four times that).
pub open spec fn area_key(r: Seq<Point>) -> int {
    (if ring_area(r) < 0 {
        -ring_area(r)
    } else {
        ring_area(r)
    }) / 4
}

/// Ring `i` comes before ring `j`: a smaller key, or the same key and an
/// earlier place.
pub open spec fn ranks_before(rs: Seq<Seq<Point>>, i: int, j: int) -> bool {
    area_key(rs[i]) < area_key(rs[j]) || (area_key(rs[i]) == area_key(rs[j]) && i < j)
}

/// `order` lists every ring index once, smallest area first, rings of equal
/// key in their own order: a stable sort by area.
pub open spec fn sorted_by_area(rs: Seq<Seq<Point>>, order: Seq<usize>) -> bool {
    &&& order.len() == rs.len()
    &&& forall|t: int| 0 <= t < order.len() ==> #[trigger] order[t] < rs.len()
    &&& forall|s: int, t: int|
        0 <= s < t < order.len() ==> ranks_before(rs, #[trigger] order[s] as int, #[trigger] order[t] as int)
}

/// The rings in the given order.
pub open spec fn permuted(rs: Seq<Seq<Point>>, order: Seq<usize>) -> Seq<Seq<Point>> {
    Seq::new(order.len(), |t: int| rs[order[t] as int])
}

/// How many of the first `m` rings other than ring `t` do not have ring `t`
/// outside them.
pub open spec fn enclosing(rs: Seq<Seq<Point>>, t: int, m: int) -> int
    decreases m,
{
    if m <= 0 {
        0
    } else if m - 1 != t && ring_containment_of(rs[m - 1], rs[t]) != -1 {
        enclosing(rs, t, m - 1) + 1
    } else {
        enclosing(rs, t, m - 1)
    }
}

/// The rings among the first `n` that an even number of the others enclose
/// (the exterior rings of a band), in order.
pub open spec fn even_upto(rs: Seq<Seq<Point>>, n: int) -> Seq<Seq<Point>>
    decreases n,
{
    if n <= 0 {
        seq![]
    } else if enclosing(rs, n - 1, rs.len() as int) % 2 == 0 {
        even_upto(rs, n - 1).push(rs[n - 1])
    } else {
        even_upto(rs, n - 1)
    }
}

/// The rings among the first `n` that an odd number of the others enclose
/// (the holes of a band), in order.
pub open spec fn odd_upto(rs: Seq<Seq<Point>>, n: int) -> Seq<Seq<Point>>
    decreases n,
{
    if n <= 0 {
        seq![]
    } else if enclosing(rs, n - 1, rs.len() as int) % 2 == 0 {
        odd_upto(rs, n - 1)
    } else {
        odd_upto(rs, n - 1).push(rs[n - 1])
    }
}

/// The sequence in reverse order.
pub open spec fn reversed<A>(s: Seq<A>) -> Seq<A> {
    Seq::new(s.len(), |i: int| s[s.len() - 1 - i])
}

/// The polygons of the band between two ring sets, in output order.
pub open spec fn band_of(ps: Seq<PolygonView>, rs: Seq<Seq<Point>>, order: Seq<usize>) -> bool {
    let sorted = permuted(rs, order);
    &&& sorted_by_area(rs, order)
    &&& attached(
        reversed(ps),
        even_upto(sorted, sorted.len() as int),
        odd_upto(sorted, sorted.len() as int),
    )
}

fn area_key_of(ring: &Ring) -> (r: u128)
    requires
        ring@.len() >= 1,
        ring_len_ok(ring@),
    ensures
        r as int == area_key(ring@),
{
    let a = area(ring);
    if a >= 0 {
        a as u128 / 4
    } else {
        ((-(a + 1)) as u128 + 1) / 4
    }
}

fn sort_by_area(rings: &Vec<Ring>) -> (order: Vec<usize>)
    requires
        measurable(views(rings@)),
    ensures
        sorted_by_area(views(rings@), order@),
{
    let ghost rv = views(rings@);
    let n = rings.len();
    let mut keys: Vec<u128> = Vec::new();
    let mut i: usize = 0;
    while i < n
        invariant
            0 <= i <= n,
            n == rings@.len(),
            rv == views(rings@),
            measurable(rv),
            keys@.len() == i,
            forall|j: int| 0 <= j < i ==> #[trigger] keys@[j] as int == area_key(rv[j]),
        decreases n - i,
    {
        assert(rv[i as int] == rings@[i as int]@);
        keys.push(area_key_of(&rings[i]));
        i = i + 1;
    }
    let mut order: Vec<usize> = Vec::new();
    let mut i: usize = 0;
    while i < n
        invariant
            0 <= i <= n,
            n == rv.len(),
            keys@.len() == n,
            forall|j: int| 0 <= j < n ==> #[trigger] keys@[j] as int == area_key(rv[j]),
            order@.len() == i,
            forall|t: int| 0 <= t < order@.len() ==> #[trigger] order@[t] < i,
            forall|s: int, t: int|
                0 <= s < t < order@.len() ==> ranks_before(
                    rv,
                    #[trigger] order@[s] as int,
                    #[trigger] order@[t] as int,
                ),
        decreases n - i,
    {
        let mut pos: usize = 0;
        while pos < order.len() && keys[order[pos]] <= keys[i]
            invariant
                0 <= pos <= order@.len(),
                i < n,
                keys@.len() == n,
                forall|t: int| 0 <= t < order@.len() ==> #[trigger] order@[t] < i,
                forall|t: int| 0 <= t < pos ==> keys@[#[trigger] order@[t] as int] <= keys@[i as int],
            decreases order@.len() - pos,
        {
            pos = pos + 1;
        }
        let ghost old_order = order@;
        order.insert(pos, i);
        proof {
            assert forall|s: int, t: int|
                0 <= s < t < order@.len() implies ranks_before(
                rv,
                #[trigger] order@[s] as int,
                #[trigger] order@[t] as int,
            ) by {
                if t < pos {
                    assert(order@[s] == old_order[s] && order@[t] == old_order[t]);
                } else if t == pos {
                    assert(order@[s] == old_order[s]);
                    assert(keys@[old_order[s] as int] <= keys@[i as int]);
                } else if s > pos {
                    assert(order@[s] == old_order[s - 1] && order@[t] == old_order[t - 1]);
                } else if s == pos {
                    assert(order@[t] == old_order[t - 1]);
                    assert(pos < old_order.len());
                    assert(keys@[old_order[pos as int] as int] > keys@[i as int]);
                    if t - 1 > pos {
                        assert(ranks_before(rv, old_order[pos as int] as int, old_order[t - 1] as int));
                    }
                } else {
                    assert(order@[s] == old_order[s] && order@[t] == old_order[t - 1]);
                }
            }
            assert forall|t: int| 0 <= t < order@.len() implies #[trigger] order@[t] < i + 1 by {
                if t < pos {
                    assert(order@[t] == old_order[t]);
                } else if t > pos {
                    assert(order@[t] == old_order[t - 1]);
                }
            }
        }
        i = i + 1;
    }
    order
}

fn enclosing_count(sorted: &Vec<Ring>, t: usize) -> (r: usize)
    requires
        measurable(views(sorted@)),
        t < sorted@.len(),
    ensures
        r as int == enclosing(views(sorted@), t as int, sorted@.len() as int),
{
    let ghost sv = views(sorted@);
    let n = sorted.len();
    let mut cnt: usize = 0;
    let mut j: usize = 0;
    while j < n
        invariant
            0 <= j <= n,
            n == sorted@.len(),
            sv == views(sorted@),
            t < n,
            measurable(sv),
            cnt <= j,
            cnt as int == enclosing(sv, t as int, j as int),
        decreases n - j,
    {
        assert(sv[j as int] == sorted@[j as int]@);
        assert(sv[t as int] == sorted@[t as int]@);
        if j != t && contains(&sorted[j], &sorted[t]) != -1 {
            cnt = cnt + 1;
        }
        j = j + 1;
    }
    cnt
}

/// Reconstructs the polygons of the band between two thresholds from the
/// rings of the lower and of the upper one. The rings are sorted by area,
/// smallest first (a stable sort); a ring that an even number of the others
/// enclose is an exterior ring, one that an odd number enclose is a hole and
/// goes to the first exterior ring that holds it. The polygons come out in
/// the reverse of that order.
pub fn band_polygons(lower: Vec<Ring>, upper: Vec<Ring>) -> (r: Vec<Polygon>)
    requires
        measurable(views(lower@)),
        measurable(views(upper@)),
    ensures
        exists|order: Seq<usize>|
            #[trigger] band_of(polygon_views(r@), views(lower@) + views(upper@), order),
{
    let ghost l0 = views(lower@);
    let ghost u0 = views(upper@);
    let mut rings = lower;
    let mut upper = upper;
    rings.append(&mut upper);
    let ghost r0 = rings@;
    let ghost rs = views(r0);
    assert(rs =~= l0 + u0);
    let order = sort_by_area(&rings);
    let n = rings.len();
    let mut sorted: Vec<Ring> = Vec::new();
    let mut t: usize = 0;
    while t < n
        invariant
            0 <= t <= n,
            n == rs.len(),
            rs == views(r0),
            rings@.len() == n,
            sorted_by_area(rs, order@),
            sorted@.len() == t,
            forall|s: int| 0 <= s < t ==> #[trigger] sorted@[s]@ == rs[order@[s] as int],
            forall|j: int|
                0 <= j < n && (forall|s: int| 0 <= s < t ==> order@[s] != j) ==> #[trigger] rings@[j]
                    == r0[j],
        decreases n - t,
    {
        let j = order[t];
        proof {
            assert forall|s: int| 0 <= s < t implies order@[s] != j by {
                assert(ranks_before(rs, order@[s] as int, order@[t as int] as int));
            }
        }
        let mut ring: Ring = Vec::new();
        rings.set_and_swap(j, &mut ring);
        sorted.push(ring);
        t = t + 1;
    }
    let ghost ps = permuted(rs, order@);
    assert(views(sorted@) =~= ps);
    assert(measurable(ps)) by {
        assert forall|i: int| 0 <= i < ps.len() implies #[trigger] ps[i].len() >= 1 && ring_len_ok(
            ps[i],
        ) by {
            assert(order@[i] < rs.len());
        }
    }
    let mut depth: Vec<usize> = Vec::new();
    let mut t: usize = 0;
    while t < n
        invariant
            0 <= t <= n,
            n == ps.len(),
            views(sorted@) == ps,
            measurable(ps),
            depth@.len() == t,
            forall|i: int| 0 <= i < t ==> #[trigger] depth@[i] as int == enclosing(ps, i, n as int),
        decreases n - t,
    {
        depth.push(enclosing_count(&sorted, t));
        t = t + 1;
    }
    let ghost sorted0 = sorted@;
    let mut shells: Vec<Ring> = Vec::new();
    let mut holes: Vec<Ring> = Vec::new();
    assert(views(shells@) =~= Seq::<Seq<Point>>::empty());
    assert(views(holes@) =~= Seq::<Seq<Point>>::empty());
    let mut t: usize = 0;
    while t < n
        invariant
            0 <= t <= n,
            n == ps.len(),
            measurable(ps),
            views(sorted0) == ps,
            depth@.len() == n,
            forall|i: int| 0 <= i < n ==> #[trigger] depth@[i] as int == enclosing(ps, i, n as int),
            sorted@.len() == n,
            forall|i: int| t <= i < n ==> #[trigger] sorted@[i] == sorted0[i],
            views(shells@) == even_upto(ps, t as int),
            views(holes@) == odd_upto(ps, t as int),
            measurable(views(shells@)),
        decreases n - t,
    {
        let d = depth[t];
        let mut ring: Ring = Vec::new();
        sorted.set_and_swap(t, &mut ring);
        assert(ring@ == ps[t as int]);
        if d % 2 == 0 {
            proof {
                lemma_views_push(shells@, ring);
            }
            shells.push(ring);
        } else {
            proof {
                lemma_views_push(holes@, ring);
            }
            holes.push(ring);
        }
        t = t + 1;
    }
    let mut polys = attach_holes(shells, holes);
    let ghost polys0 = polys@;
    let mut out: Vec<Polygon> = Vec::new();
    while polys.len() > 0
        invariant
            out@.len() + polys@.len() == polys0.len(),
            polys@ == polys0.subrange(0, polys@.len() as int),
            forall|i: int| 0 <= i < out@.len() ==> #[trigger] out@[i] == polys0[polys0.len() - 1 - i],
        decreases polys@.len(),
    {
        let p = polys.pop().unwrap();
        out.push(p);
    }
    assert(reversed(polygon_views(out@)) =~= polygon_views(polys0));
    assert(band_of(polygon_views(out@), rs, order@));
    out
}

} // verus!
