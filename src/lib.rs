//! Marching squares over a rectangular grid: isorings, contour polygons and
//! isobands, computed on the half-step lattice of the grid.
//!
//! A grid of `dx * dy` samples is seen through a level mask: for one
//! threshold, `mask[y * dx + x]` tells whether the sample at column `x` and
//! row `y` is at or above the threshold. Every vertex of every ring lies on
//! the lattice of half grid steps, so the whole computation is exact and is
//! carried out on integer coordinates counted in half steps.

pub mod area;
pub mod assemble;
pub mod cases;
pub mod contourbuilder;
pub mod error;
pub mod geometry;
pub mod isoringbuilder;

pub use crate::area::{area, contains};
pub use crate::contourbuilder::ContourBuilder;
pub use crate::error::{Error, ErrorKind};
pub use crate::geometry::{Point, Polygon, Ring};
pub use crate::isoringbuilder::{contour_rings, IsoRingBuilder};

