//! Coordinate spaces: signed planner cells and unsigned grid indices.

use vstd::prelude::*;
use vstd::std_specs::cmp::PartialEqSpecImpl;

verus! {

/// Signed coordinate of a planner cell.
pub type Coord = i64;

/// Unsigned index into the occupancy grid.
pub type GridCoord = usize;

/// A cell of the planner's search space.
#[derive(Clone, Copy, Debug)]
pub struct Pos {
    pub x: Coord,
    pub y: Coord,
}

/// A pair of indices into the occupancy grid.
#[derive(Clone, Copy, Debug)]
pub struct GridPos {
    pub x: GridCoord,
    pub y: GridCoord,
}

impl Pos {
    /// The cell with the given coordinates.
    pub fn new(x: Coord, y: Coord) -> (p: Pos)
        ensures
            p == (Pos { x, y }),
    {
        Pos { x, y }
    }

    /// The cell `(0, 0)`.
    pub fn origin() -> (p: Pos)
        ensures
            p == (Pos { x: 0, y: 0 }),
    {
        Pos { x: 0, y: 0 }
    }
}

impl GridPos {
    /// The grid position with the given indices.
    pub fn new(x: GridCoord, y: GridCoord) -> (p: GridPos)
        ensures
            p == (GridPos { x, y }),
    {
        GridPos { x, y }
    }
}

impl PartialEqSpecImpl for Pos {
    open spec fn obeys_eq_spec() -> bool {
        true
    }

    open spec fn eq_spec(&self, other: &Self) -> bool {
        self.x == other.x && self.y == other.y
    }
}

impl PartialEq for Pos {
    fn eq(&self, other: &Self) -> (r: bool) {
        self.x == other.x && self.y == other.y
    }
}

impl Eq for Pos {

}

impl PartialEqSpecImpl for GridPos {
    open spec fn obeys_eq_spec() -> bool {
        true
    }

    open spec fn eq_spec(&self, other: &Self) -> bool {
        self.x == other.x && self.y == other.y
    }
}

impl PartialEq for GridPos {
    fn eq(&self, other: &Self) -> (r: bool) {
        self.x == other.x && self.y == other.y
    }
}

impl Eq for GridPos {

}

/// Like `Into`, but only between positions, so that it can offer the
/// conversions between integer and continuous coordinates that `Into` does not.
pub trait IntoPos<T>: Sized {
    fn into_pos(self) -> T;
}

/// `to` is where `into_pos` may put `from`: what an implementation
/// ensures of its conversion holds of the two.
pub open spec fn converts_to<A: IntoPos<B>, B>(from: A, to: B) -> bool {
    call_ensures(<A as IntoPos<B>>::into_pos, (from,), to)
}

impl IntoPos<GridPos> for Pos {
    /// Reinterprets the coordinates as unsigned indices: a coordinate that
    /// is not negative stays what it is, and a negative one wraps around.
    fn into_pos(self) -> (r: GridPos)
        ensures
            r == (GridPos { x: self.x as usize, y: self.y as usize }),
            0 <= self.x <= usize::MAX ==> r.x == self.x,
            0 <= self.y <= usize::MAX ==> r.y == self.y,
    {
        GridPos { x: self.x as usize, y: self.y as usize }
    }
}

} // verus!
