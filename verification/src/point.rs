//! Coordinates and the two frames they are read in.
//!
//! A `Point` is a pair of grid indices.  The board stores rooms in a
//! *storage frame*; a human is shown a *display frame* whose vertical axis
//! runs the other way.  The two are related by reflecting the row axis:
//! `storage.row = (rows - 1) - display.row`, with the column unchanged.
//! All inference works in the storage frame; conversion happens only at
//! the boundary.

use vstd::prelude::*;

verus! {

/// A pair of grid indices.  In the storage frame `x` is the row and `y`
/// the column; in the display frame `x` is the column and `y` the row
/// counted from the bottom of the board.
#[derive(Clone, Copy, Debug, PartialEq, Eq, Structural)]
pub struct Point {
    pub x: usize,
    pub y: usize,
}

impl Point {
    /// Reads `self` as a display-frame coordinate and returns the storage
    /// frame coordinate of the same room, on a board with `rows` rows.
    pub fn board_perspective(&self, rows: usize) -> (r: Self)
        requires
            self.y < rows,
        ensures
            r.x == rows - 1 - self.y,
            r.y == self.x,
    {
        Point { x: rows - 1 - self.y, y: self.x }
    }

    /// Reads `self` as a storage-frame coordinate and returns the display
    /// frame coordinate of the same room, on a board with `rows` rows.
    pub fn player_perspective(&self, rows: usize) -> (r: Self)
        requires
            self.x < rows,
        ensures
            r.x == self.y,
            r.y == rows - 1 - self.x,
    {
        Point { x: self.y, y: rows - 1 - self.x }
    }
}

/// The two frame conversions invert each other: converting a display
/// coordinate to the storage frame and back (or the other way around)
/// gives the coordinate one started from.
pub proof fn lemma_perspective_round_trip(p: Point, rows: usize)
    requires
        p.y < rows,
        p.x < rows,
    ensures
        ({ let s = Point { x: (rows - 1 - p.y) as usize, y: p.x }; Point { x: s.y, y: (rows - 1 - s.x) as usize } }) == p,
        ({ let d = Point { x: p.y, y: (rows - 1 - p.x) as usize }; Point { x: (rows - 1 - d.y) as usize, y: d.x } }) == p,
{
}

} // verus!
