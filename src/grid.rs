use vstd::prelude::*;

verus! {

/// A cell of a grid, by row and column.
#[derive(Clone, Copy, Debug, PartialEq, Eq, Hash, Default, Structural)]
pub struct GridPosition {
    pub row: usize,
    pub col: usize,
}

/// The distance between `a` and `b`.
pub open spec fn abs_diff(a: int, b: int) -> nat {
    if a >= b {
        (a - b) as nat
    } else {
        (b - a) as nat
    }
}

/// The number of steps between two cells, moving along rows and columns.
pub open spec fn manhattan_distance(a: GridPosition, b: GridPosition) -> nat {
    abs_diff(a.row as int, b.row as int) + abs_diff(a.col as int, b.col as int)
}

impl GridPosition {
    pub fn new(row: usize, col: usize) -> (r: Self)
        ensures
            r.row == row,
            r.col == col,
    {
        GridPosition { row, col }
    }

    /// The number of steps from `self` to `other`, moving along rows and
    /// columns.
    pub fn manhattan(&self, other: &GridPosition) -> (r: usize)
        requires
            manhattan_distance(*self, *other) <= usize::MAX,
        ensures
            r == manhattan_distance(*self, *other),
    {
        let dr: usize = if self.row >= other.row {
            self.row - other.row
        } else {
            other.row - self.row
        };
        let dc: usize = if self.col >= other.col {
            self.col - other.col
        } else {
            other.col - self.col
        };
        dr + dc
    }
}

/// A heading on the grid: north is towards row 0, west towards column 0.
#[derive(Clone, Copy, Debug, PartialEq, Eq, Hash, Default, Structural)]
pub enum Direction {
    #[default]
    North,
    East,
    South,
    West,
}

/// Whether `to` is one row or one column away from `from`.
pub open spec fn is_step(from: GridPosition, to: GridPosition) -> bool {
    abs_diff(from.row as int, to.row as int) == 1 || abs_diff(from.col as int, to.col as int) == 1
}

/// The heading of the step from `from` to `to`: a change of row decides
/// before a change of column.
pub open spec fn step_direction(from: GridPosition, to: GridPosition) -> Direction {
    if to.row == from.row + 1 {
        Direction::South
    } else if to.row + 1 == from.row {
        Direction::North
    } else if to.col == from.col + 1 {
        Direction::East
    } else {
        Direction::West
    }
}

impl Direction {
    /// The heading of the step from `from` to `to`, which must be one row or
    /// one column apart.
    pub fn get_direction_from_positions(from: GridPosition, to: GridPosition) -> (r: Self)
        requires
            is_step(from, to),
        ensures
            r == step_direction(from, to),
    {
        if from.row < to.row && to.row - from.row == 1 {
            Direction::South
        } else if to.row < from.row && from.row - to.row == 1 {
            Direction::North
        } else if from.col < to.col && to.col - from.col == 1 {
            Direction::East
        } else {
            Direction::West
        }
    }
}

} // verus!
