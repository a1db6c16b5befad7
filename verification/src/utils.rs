//! Helpers for plain row-major indexing, without the flipped-Y convention
//! of the canvas itself.

use vstd::prelude::*;

use crate::geom::Coord;

verus! {

/// The plain row-major index of `c` in a buffer of width `w`.
pub fn coords_to_idx(c: Coord, w: usize) -> (i: usize)
    requires
        c.x + w * c.y <= usize::MAX,
    ensures
        i == c.x + w * c.y,
{
    c.x + w * c.y
}

/// The coordinate whose plain row-major index is `i` in a buffer of width
/// `w`.
pub fn idx_to_coords(i: usize, w: usize) -> (c: Coord)
    requires
        w > 0,
    ensures
        c.x == i % w,
        c.y == i / w,
{
    Coord { x: i % w, y: i / w }
}

} // verus!
