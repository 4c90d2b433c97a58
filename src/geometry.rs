use vstd::prelude::*;

verus! {

/// A vertex on the half-step lattice of the grid: the grid sample at column
/// `i` and row `j` sits at `(2 * i + 1, 2 * j + 1)`, and a vertex in grid units
/// is `(x / 2, y / 2)`.
#[derive(Debug, Clone, Copy, PartialEq, Eq, Structural)]
pub struct Point {
    pub x: u32,
    pub y: u32,
}

/// A closed loop of vertices.
pub type Ring = Vec<Point>;

/// A polygon with holes: one exterior ring and its interior rings.
#[derive(Debug, Clone, PartialEq, Eq)]
pub struct Polygon {
    pub exterior: Ring,
    pub interiors: Vec<Ring>,
}

/// The vertices of each ring of a sequence.
pub open spec fn views(rs: Seq<Ring>) -> Seq<Seq<Point>> {
    Seq::new(rs.len(), |i: int| rs[i]@)
}

/// Pushing a ring pushes its vertices onto the views.
pub proof fn lemma_views_push(s: Seq<Ring>, x: Ring)
    ensures
        views(s.push(x)) == views(s).push(x@),
{
    assert(views(s.push(x)) =~= views(s).push(x@));
}

/// A polygon as its exterior vertices and the vertices of each hole.
pub type PolygonView = (Seq<Point>, Seq<Seq<Point>>);

impl View for Polygon {
    type V = PolygonView;

    open spec fn view(&self) -> PolygonView {
        (self.exterior@, views(self.interiors@))
    }
}

/// The view of each polygon of a sequence.
pub open spec fn polygon_views(ps: Seq<Polygon>) -> Seq<PolygonView> {
    Seq::new(ps.len(), |i: int| ps[i]@)
}

impl Polygon {
    /// Borrow the exterior ring.
    pub fn exterior(&self) -> (r: &Ring)
        ensures
            r == &self.exterior,
    {
        &self.exterior
    }

    /// Borrow the interior rings.
    pub fn interiors(&self) -> (r: &Vec<Ring>)
        ensures
            r == &self.interiors,
    {
        &self.interiors
    }
}

} // verus!
