use vstd::prelude::*;

verus! {

/// A piece to place: a rectangular pattern in which `.` is an empty cell and
/// any other character a solid one.
pub struct Piece {
    pub width: usize,
    pub height: usize,
    pub pattern: Vec<Vec<char>>,
}

impl Piece {
    /// The pattern as a grid of characters, row by row.
    pub open spec fn cells(&self) -> Seq<Seq<char>> {
        self.pattern@.map_values(|row: Vec<char>| row@)
    }

    /// Whether the pattern has a solid cell in column `px` of row `py`.
    pub open spec fn is_solid(&self, px: int, py: int) -> bool {
        0 <= py < self.cells().len() && 0 <= px < self.cells()[py].len() && self.cells()[py][px]
            != '.'
    }

    pub fn new(width: usize, height: usize, pattern: Vec<Vec<char>>) -> (r: Self)
        ensures
            r.width == width,
            r.height == height,
            r.pattern == pattern,
    {
        Self { width, height, pattern }
    }
}

} // verus!
