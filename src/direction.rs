use vstd::prelude::*;

verus! {

/// One of the four cardinal directions on the grid.
#[derive(Debug, Clone, Copy, PartialEq, Eq, Structural)]
pub enum Direction {
    Up,
    Down,
    Left,
    Right,
}

impl Direction {
    /// Stable index of each direction, in `0..4`.
    pub open spec fn index(self) -> int {
        match self {
            Direction::Up => 0,
            Direction::Right => 1,
            Direction::Down => 2,
            Direction::Left => 3,
        }
    }

    /// The direction pointing the other way.
    pub open spec fn flip(self) -> Direction {
        match self {
            Direction::Up => Direction::Down,
            Direction::Down => Direction::Up,
            Direction::Left => Direction::Right,
            Direction::Right => Direction::Left,
        }
    }

    /// The direction whose stable index is `i`.
    pub open spec fn of_index(i: int) -> Direction {
        if i == 0 {
            Direction::Up
        } else if i == 1 {
            Direction::Right
        } else if i == 2 {
            Direction::Down
        } else {
            Direction::Left
        }
    }

    pub fn to_idx(self) -> (r: usize)
        ensures
            r as int == self.index(),
            r < 4,
    {
        match self {
            Direction::Up => 0,
            Direction::Right => 1,
            Direction::Down => 2,
            Direction::Left => 3,
        }
    }

    pub fn opposite(self) -> (r: Direction)
        ensures
            r == self.flip(),
    {
        match self {
            Direction::Up => Direction::Down,
            Direction::Down => Direction::Up,
            Direction::Left => Direction::Right,
            Direction::Right => Direction::Left,
        }
    }

    /// The direction with stable index `i`; the inverse of `to_idx`.
    pub fn from_idx(i: usize) -> (r: Direction)
        requires
            i < 4,
        ensures
            r == Direction::of_index(i as int),
            r.index() == i as int,
    {
        if i == 0 {
            Direction::Up
        } else if i == 1 {
            Direction::Right
        } else if i == 2 {
            Direction::Down
        } else {
            Direction::Left
        }
    }
}

/// `opposite` is an involution, and it moves every index by two.
pub proof fn lemma_opposite(d: Direction)
    ensures
        d.flip().flip() == d,
        d.flip() != d,
        d.flip().index() == (d.index() + 2) % 4,
        0 <= d.index() < 4,
        Direction::of_index(d.index()) == d,
{
}

} // verus!
