//! Axial coordinates of hexagonal grid cells.

use vstd::prelude::*;

verus! {

/// A cell of the hexagonal grid in axial form; the third cube component is
/// `-x - y`.
#[derive(Clone, Copy, Debug, PartialEq, Eq, Hash, Structural)]
pub struct HexCoord {
    pub x: i32,
    pub y: i32,
}

/// The cell at `(0, 0)`, where every cluster starts.
pub open spec fn origin_cell() -> HexCoord {
    HexCoord { x: 0, y: 0 }
}

/// The six cells adjacent to `c`, in the order hex2d lists its directions
/// (`YZ`, `XZ`, `XY`, `ZY`, `ZX`, `YX`).
pub open spec fn neighbor_seq(c: HexCoord) -> Seq<HexCoord> {
    seq![
        HexCoord { x: c.x, y: (c.y + 1) as i32 },
        HexCoord { x: (c.x + 1) as i32, y: c.y },
        HexCoord { x: (c.x + 1) as i32, y: (c.y - 1) as i32 },
        HexCoord { x: c.x, y: (c.y - 1) as i32 },
        HexCoord { x: (c.x - 1) as i32, y: c.y },
        HexCoord { x: (c.x - 1) as i32, y: (c.y + 1) as i32 },
    ]
}

/// Neither component sits at an end of the `i32` range, so every neighbour
/// is representable.
pub open spec fn has_neighbors(c: HexCoord) -> bool {
    i32::MIN < c.x < i32::MAX && i32::MIN < c.y < i32::MAX
}

/// Relies on hex2d's `Coordinate::neighbors`: the six adjacent cells, one per
/// direction in the order of `Direction::all`; each is the cell plus a unit
/// step, added with `i32` arithmetic (so the ends of the range are excluded).
#[verifier::external_body]
fn hex2d_neighbors(c: HexCoord) -> (r: [HexCoord; 6])
    requires
        has_neighbors(c),
    ensures
        r@ == neighbor_seq(c),
{
    let n = hex2d::Coordinate::new(c.x, c.y).neighbors();
    n.map(|p| HexCoord { x: p.x, y: p.y })
}

impl HexCoord {
    pub fn new(x: i32, y: i32) -> (r: HexCoord)
        ensures
            r.x == x,
            r.y == y,
    {
        HexCoord { x, y }
    }

    /// The cell at `(0, 0)`.
    pub fn origin() -> (r: HexCoord)
        ensures
            r == origin_cell(),
    {
        HexCoord { x: 0, y: 0 }
    }

    /// The six cells adjacent to this one.
    pub fn neighbors(&self) -> (r: [HexCoord; 6])
        requires
            has_neighbors(*self),
        ensures
            r@ == neighbor_seq(*self),
    {
        hex2d_neighbors(*self)
    }
}

} // verus!
