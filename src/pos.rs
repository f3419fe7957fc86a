use vstd::prelude::*;

verus! {

/// A square of the board: `x` is the column and `y` the row, both zero-based.
#[derive(Clone, Copy, Debug, PartialEq, Eq, Structural)]
pub struct Pos {
    pub x: usize,
    pub y: usize,
}

/// Whether a column and a row both lie in `0..8`.
pub open spec fn in_bounds(x: int, y: int) -> bool {
    0 <= x < 8 && 0 <= y < 8
}

/// The row-major index of a square in a 64-cell board.
pub open spec fn idx(x: int, y: int) -> int {
    y * 8 + x
}

impl Pos {
    /// Whether the square lies on the board.
    pub open spec fn on_board(self) -> bool {
        in_bounds(self.x as int, self.y as int)
    }

    /// The row-major index of the square.
    pub open spec fn index(self) -> int {
        idx(self.x as int, self.y as int)
    }

    pub fn new(x: usize, y: usize) -> (r: Pos)
        ensures
            r.x == x,
            r.y == y,
    {
        Pos { x, y }
    }
}

impl From<(i32, i32)> for Pos {
    /// Converts a pair of signed coordinates; only meaningful for non-negative ones.
    fn from(from: (i32, i32)) -> (r: Pos) {
        Pos { x: from.0 as usize, y: from.1 as usize }
    }
}

impl vstd::std_specs::convert::FromSpecImpl<(i32, i32)> for Pos {
    open spec fn obeys_from_spec() -> bool {
        true
    }

    open spec fn from_spec(v: (i32, i32)) -> Pos {
        Pos { x: v.0 as usize, y: v.1 as usize }
    }
}

} // verus!
