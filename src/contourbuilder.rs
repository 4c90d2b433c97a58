//! Contour lines, contour polygons and isobands for a whole set of
//! thresholds, each given by its level mask over the grid.
use vstd::prelude::*;

use crate::area::ring_len_ok;
use crate::assemble::{
    assemble_polygons, attached, band_of, band_polygons, holes_upto, measurable, shells_upto,
};
use crate::error::{Error, ErrorKind};
use crate::geometry::{polygon_views, views, Point, Polygon, PolygonView, Ring};
use crate::isoringbuilder::{all_closed, grid_fits, rings_of, IsoRingBuilder};

verus! {

/// The result is an error of the given kind.
pub open spec fn fails_with<T>(r: Result<T, Error>, k: ErrorKind) -> bool {
    match r {
        Ok(_) => false,
        Err(e) => e.kind == k,
    }
}

/// Every mask has one entry per grid sample.
pub open spec fn masks_fit(masks: Seq<Vec<bool>>, dx: int, dy: int) -> bool {
    forall|i: int| 0 <= i < masks.len() ==> #[trigger] masks[i]@.len() == dx * dy
}

/// The rings among the first `n` that have more than three vertices, in order.
pub open spec fn long_upto(rs: Seq<Seq<Point>>, n: int) -> Seq<Seq<Point>>
    decreases n,
{
    if n <= 0 {
        seq![]
    } else if rs[n - 1].len() > 3 {
        long_upto(rs, n - 1).push(rs[n - 1])
    } else {
        long_upto(rs, n - 1)
    }
}

/// The rings of a mask that isobands use: those with more than three vertices.
pub open spec fn band_rings_of(mask: Seq<bool>, dx: int, dy: int) -> Seq<Seq<Point>> {
    long_upto(rings_of(mask, dx, dy), rings_of(mask, dx, dy).len() as int)
}

/// The contour polygons of a mask: its rings, assembled.
pub open spec fn contour_of(ps: Seq<PolygonView>, mask: Seq<bool>, dx: int, dy: int) -> bool {
    let rs = rings_of(mask, dx, dy);
    attached(ps, shells_upto(rs, rs.len() as int), holes_upto(rs, rs.len() as int))
}

/// The band polygons between two masks: their rings with more than three
/// vertices, reconstructed in some stable order by area.
pub open spec fn band_between(ps: Seq<PolygonView>, lower: Seq<bool>, upper: Seq<bool>, dx: int, dy: int) -> bool {
    exists|order: Seq<usize>|
        #[trigger] band_of(ps, band_rings_of(lower, dx, dy) + band_rings_of(upper, dx, dy), order)
}

/// The rings of every mask can be measured.
pub open spec fn contours_measurable(masks: Seq<Vec<bool>>, dx: int, dy: int) -> bool {
    forall|i: int| 0 <= i < masks.len() ==> measurable(rings_of(#[trigger] masks[i]@, dx, dy))
}

/// The rings that isobands use from every mask can be measured.
pub open spec fn bands_measurable(masks: Seq<Vec<bool>>, dx: int, dy: int) -> bool {
    forall|i: int| 0 <= i < masks.len() ==> measurable(band_rings_of(#[trigger] masks[i]@, dx, dy))
}

/// Contours generator for a `dx * dy` grid; each threshold is handed to it as
/// a level mask (`mask[y * dx + x]`: the sample at column `x`, row `y` is at or
/// above the threshold).
pub struct ContourBuilder {
    dx: usize,
    dy: usize,
}

fn rings_measurable(rings: &Vec<Ring>) -> (r: bool)
    ensures
        r == measurable(views(rings@)),
{
    let ghost rv = views(rings@);
    let mut i: usize = 0;
    while i < rings.len()
        invariant
            0 <= i <= rings@.len(),
            rv == views(rings@),
            forall|j: int| 0 <= j < i ==> #[trigger] rv[j].len() >= 1 && ring_len_ok(rv[j]),
        decreases rings@.len() - i,
    {
        assert(rv[i as int] == rings@[i as int]@);
        let len = rings[i].len();
        if len < 1 || len as u64 >= 0x1000_0000_0000_0000u64 {
            return false;
        }
        i = i + 1;
    }
    true
}

fn copy_ring(ring: &Ring) -> (r: Ring)
    ensures
        r@ == ring@,
{
    let mut r: Ring = Vec::new();
    let mut i: usize = 0;
    while i < ring.len()
        invariant
            0 <= i <= ring@.len(),
            r@ == ring@.subrange(0, i as int),
        decreases ring@.len() - i,
    {
        r.push(ring[i]);
        i = i + 1;
        assert(r@ =~= ring@.subrange(0, i as int));
    }
    assert(r@ =~= ring@);
    r
}

fn copy_rings(rings: &Vec<Ring>) -> (r: Vec<Ring>)
    ensures
        views(r@) == views(rings@),
{
    let mut r: Vec<Ring> = Vec::new();
    let mut i: usize = 0;
    while i < rings.len()
        invariant
            0 <= i <= rings@.len(),
            views(r@) == views(rings@).subrange(0, i as int),
        decreases rings@.len() - i,
    {
        let c = copy_ring(&rings[i]);
        let ghost before = r@;
        r.push(c);
        assert(views(r@) =~= views(before).push(c@));
        i = i + 1;
        assert(views(r@) =~= views(rings@).subrange(0, i as int));
    }
    assert(views(r@) =~= views(rings@));
    r
}

fn keep_long(rings: Vec<Ring>) -> (r: Vec<Ring>)
    ensures
        views(r@) == long_upto(views(rings@), rings@.len() as int),
{
    let ghost r0 = rings@;
    let ghost rv = views(r0);
    let mut rings = rings;
    let mut out: Vec<Ring> = Vec::new();
    assert(views(out@) =~= Seq::<Seq<Point>>::empty());
    let mut i: usize = 0;
    while i < rings.len()
        invariant
            0 <= i <= rings@.len(),
            rings@.len() == r0.len(),
            rv == views(r0),
            forall|j: int| i <= j < r0.len() ==> #[trigger] rings@[j] == r0[j],
            views(out@) == long_upto(rv, i as int),
        decreases r0.len() - i,
    {
        let mut ring: Ring = Vec::new();
        rings.set_and_swap(i, &mut ring);
        assert(ring@ == rv[i as int]);
        if ring.len() > 3 {
            let ghost before = out@;
            out.push(ring);
            assert(views(out@) =~= views(before).push(ring@));
        }
        i = i + 1;
    }
    out
}

impl ContourBuilder {
    /// The number of columns of the grid.
    pub closed spec fn spec_dx(&self) -> usize {
        self.dx
    }

    /// The number of rows of the grid.
    pub closed spec fn spec_dy(&self) -> usize {
        self.dy
    }

    pub closed spec fn wf(&self) -> bool {
        grid_fits(self.dx as int, self.dy as int)
    }

    /// Constructs a new contours generator for a grid with `dx` * `dy` dimension.
    pub fn new(dx: usize, dy: usize) -> (r: Self)
        requires
            grid_fits(dx as int, dy as int),
        ensures
            r.wf(),
            r.spec_dx() == dx,
            r.spec_dy() == dy,
    {
        ContourBuilder { dx, dy }
    }

    fn masks_fit_grid(&self, masks: &Vec<Vec<bool>>) -> (r: bool)
        requires
            self.wf(),
        ensures
            r == masks_fit(masks@, self.dx as int, self.dy as int),
    {
        proof {
            assert(0 <= self.dx * self.dy <= (2 * self.dx + 2) * (2 * self.dy + 2)) by (nonlinear_arith)
                requires
                    0 <= self.dx,
                    0 <= self.dy,
            ;
        }
        let n = self.dx * self.dy;
        let mut i: usize = 0;
        while i < masks.len()
            invariant
                0 <= i <= masks@.len(),
                n == self.dx * self.dy,
                forall|j: int| 0 <= j < i ==> #[trigger] masks@[j]@.len() == n,
            decreases masks@.len() - i,
        {
            if masks[i].len() != n {
                return false;
            }
            i = i + 1;
        }
        true
    }

    /// Computes the isolines of each level mask: the rings of each mask, in
    /// the order of the masks.
    pub fn lines(&self, masks: &Vec<Vec<bool>>) -> (r: Result<Vec<Vec<Ring>>, Error>)
        requires
            self.wf(),
        ensures
            r is Ok <==> masks_fit(masks@, self.spec_dx() as int, self.spec_dy() as int),
            match r {
                Ok(ls) => ls@.len() == masks@.len() && forall|i: int|
                    0 <= i < ls@.len() ==> views(#[trigger] ls@[i]@) == rings_of(
                        masks@[i]@,
                        self.spec_dx() as int,
                        self.spec_dy() as int,
                    ) && all_closed(ls@[i]@, self.spec_dx() as int, self.spec_dy() as int),
                Err(e) => e.kind == ErrorKind::BadDimension,
            },
    {
        if !self.masks_fit_grid(masks) {
            return Err(Error::new(ErrorKind::BadDimension));
        }
        let mut isoring = IsoRingBuilder::new(self.dx, self.dy);
        let mut out: Vec<Vec<Ring>> = Vec::new();
        let mut i: usize = 0;
        while i < masks.len()
            invariant
                0 <= i <= masks@.len(),
                isoring.wf(),
                isoring.spec_dx() == self.dx,
                isoring.spec_dy() == self.dy,
                masks_fit(masks@, self.dx as int, self.dy as int),
                out@.len() == i,
                forall|j: int|
                    0 <= j < i ==> views(#[trigger] out@[j]@) == rings_of(
                        masks@[j]@,
                        self.dx as int,
                        self.dy as int,
                    ) && all_closed(out@[j]@, self.dx as int, self.dy as int),
            decreases masks@.len() - i,
        {
            assert(masks@[i as int]@.len() == self.dx * self.dy);
            match isoring.compute(&masks[i]) {
                Ok(rings) => out.push(rings),
                Err(e) => return Err(e),
            }
            i = i + 1;
        }
        Ok(out)
    }

    /// Computes the contour polygons of each level mask, in the order of the
    /// masks: the rings of a mask with a positive signed area are the exterior
    /// rings, the others are holes given to the first exterior ring that holds
    /// them. `Unexpected` comes only for a ring too long to measure.
    pub fn contours(&self, masks: &Vec<Vec<bool>>) -> (r: Result<Vec<Vec<Polygon>>, Error>)
        requires
            self.wf(),
        ensures
            !masks_fit(masks@, self.spec_dx() as int, self.spec_dy() as int) ==> fails_with(
                r,
                ErrorKind::BadDimension,
            ),
            masks_fit(masks@, self.spec_dx() as int, self.spec_dy() as int) ==> (r is Ok
                <==> contours_measurable(masks@, self.spec_dx() as int, self.spec_dy() as int)),
            masks_fit(masks@, self.spec_dx() as int, self.spec_dy() as int) && r is Err
                ==> fails_with(r, ErrorKind::Unexpected),
            r matches Ok(cs) ==> cs@.len() == masks@.len() && forall|i: int|
                0 <= i < cs@.len() ==> contour_of(
                    polygon_views(#[trigger] cs@[i]@),
                    masks@[i]@,
                    self.spec_dx() as int,
                    self.spec_dy() as int,
                ),
    {
        if !self.masks_fit_grid(masks) {
            return Err(Error::new(ErrorKind::BadDimension));
        }
        let ghost dx = self.dx as int;
        let ghost dy = self.dy as int;
        let mut isoring = IsoRingBuilder::new(self.dx, self.dy);
        let mut out: Vec<Vec<Polygon>> = Vec::new();
        let mut i: usize = 0;
        while i < masks.len()
            invariant
                0 <= i <= masks@.len(),
                dx == self.dx,
                dy == self.dy,
                isoring.wf(),
                isoring.spec_dx() == self.dx,
                isoring.spec_dy() == self.dy,
                masks_fit(masks@, dx, dy),
                out@.len() == i,
                forall|j: int| 0 <= j < i ==> measurable(rings_of(#[trigger] masks@[j]@, dx, dy)),
                forall|j: int|
                    0 <= j < i ==> contour_of(polygon_views(#[trigger] out@[j]@), masks@[j]@, dx, dy),
            decreases masks@.len() - i,
        {
            assert(masks@[i as int]@.len() == self.dx * self.dy);
            let rings = match isoring.compute(&masks[i]) {
                Ok(rings) => rings,
                Err(e) => return Err(e),
            };
            if !rings_measurable(&rings) {
                return Err(Error::new(ErrorKind::Unexpected));
            }
            let ps = assemble_polygons(rings);
            out.push(ps);
            i = i + 1;
        }
        Ok(out)
    }

    /// Computes the isobands between each pair of consecutive level masks, in
    /// the order of the masks: the rings of both masks with more than three
    /// vertices, reconstructed into polygons by `band_polygons`. At least two
    /// masks are needed. `Unexpected` comes only for a ring too long to
    /// measure.
    pub fn isobands(&self, masks: &Vec<Vec<bool>>) -> (r: Result<Vec<Vec<Polygon>>, Error>)
        requires
            self.wf(),
        ensures
            !masks_fit(masks@, self.spec_dx() as int, self.spec_dy() as int) ==> fails_with(
                r,
                ErrorKind::BadDimension,
            ),
            masks_fit(masks@, self.spec_dx() as int, self.spec_dy() as int) && masks@.len() < 2
                ==> fails_with(r, ErrorKind::InsufficientThresholds),
            masks_fit(masks@, self.spec_dx() as int, self.spec_dy() as int) && masks@.len() >= 2
                ==> (r is Ok <==> bands_measurable(
                masks@,
                self.spec_dx() as int,
                self.spec_dy() as int,
            )),
            masks_fit(masks@, self.spec_dx() as int, self.spec_dy() as int) && masks@.len() >= 2
                && r is Err ==> fails_with(r, ErrorKind::Unexpected),
            r matches Ok(bs) ==> bs@.len() + 1 == masks@.len() && forall|i: int|
                0 <= i < bs@.len() ==> band_between(
                    polygon_views(#[trigger] bs@[i]@),
                    masks@[i]@,
                    masks@[i + 1]@,
                    self.spec_dx() as int,
                    self.spec_dy() as int,
                ),
    {
        if !self.masks_fit_grid(masks) {
            return Err(Error::new(ErrorKind::BadDimension));
        }
        if masks.len() < 2 {
            return Err(Error::new(ErrorKind::InsufficientThresholds));
        }
        let ghost dx = self.dx as int;
        let ghost dy = self.dy as int;
        let mut isoring = IsoRingBuilder::new(self.dx, self.dy);
        let mut sets: Vec<Vec<Ring>> = Vec::new();
        let mut i: usize = 0;
        while i < masks.len()
            invariant
                0 <= i <= masks@.len(),
                isoring.wf(),
                isoring.spec_dx() == self.dx,
                isoring.spec_dy() == self.dy,
                dx == self.dx,
                dy == self.dy,
                masks_fit(masks@, dx, dy),
                masks@.len() >= 2,
                sets@.len() == i,
                forall|j: int|
                    0 <= j < i ==> views(#[trigger] sets@[j]@) == band_rings_of(masks@[j]@, dx, dy),
                forall|j: int| 0 <= j < i ==> measurable(band_rings_of(#[trigger] masks@[j]@, dx, dy)),
            decreases masks@.len() - i,
        {
            assert(masks@[i as int]@.len() == self.dx * self.dy);
            let rings = match isoring.compute(&masks[i]) {
                Ok(rings) => rings,
                Err(e) => return Err(e),
            };
            let rings = keep_long(rings);
            if !rings_measurable(&rings) {
                return Err(Error::new(ErrorKind::Unexpected));
            }
            sets.push(rings);
            i = i + 1;
        }
        let mut out: Vec<Vec<Polygon>> = Vec::new();
        let mut i: usize = 0;
        let last = sets.len() - 1;
        while i < last
            invariant
                0 <= i <= last,
                last + 1 == sets@.len(),
                sets@.len() == masks@.len(),
                dx == self.dx,
                dy == self.dy,
                forall|j: int|
                    0 <= j < sets@.len() ==> views(#[trigger] sets@[j]@) == band_rings_of(
                        masks@[j]@,
                        dx,
                        dy,
                    ),
                forall|j: int| 0 <= j < sets@.len() ==> measurable(band_rings_of(#[trigger] masks@[j]@, dx, dy)),
                out@.len() == i,
                forall|j: int|
                    0 <= j < i ==> band_between(
                        polygon_views(#[trigger] out@[j]@),
                        masks@[j]@,
                        masks@[j + 1]@,
                        dx,
                        dy,
                    ),
            decreases sets@.len() - i,
        {
            let lower = copy_rings(&sets[i]);
            let upper = copy_rings(&sets[i + 1]);
            assert(views(upper@) == views(sets@[i + 1]@));
            assert(measurable(band_rings_of(masks@[i + 1]@, dx, dy)));
            let ps = band_polygons(lower, upper);
            let ghost lv = views(lower@);
            let ghost uv = views(upper@);
            let ghost order = choose|order: Seq<usize>| band_of(polygon_views(ps@), lv + uv, order);
            assert(band_of(polygon_views(ps@), lv + uv, order));
            assert(band_between(polygon_views(ps@), masks@[i as int]@, masks@[i + 1]@, dx, dy));
            out.push(ps);
            i = i + 1;
        }
        Ok(out)
    }
}

} // verus!
