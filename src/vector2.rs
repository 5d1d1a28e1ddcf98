use vstd::prelude::*;

use crate::direction::Direction;

verus! {

/// A position or offset on the integer grid.
#[derive(Debug, Clone, Copy, PartialEq, Eq, Hash, Structural)]
pub struct Vector2 {
    pub x: i32,
    pub y: i32,
}

/// The offset of one step in direction `d` (y grows downwards).
pub open spec fn step_x(d: Direction) -> int {
    match d {
        Direction::Left => -1,
        Direction::Right => 1,
        _ => 0,
    }
}

pub open spec fn step_y(d: Direction) -> int {
    match d {
        Direction::Up => -1,
        Direction::Down => 1,
        _ => 0,
    }
}

impl Vector2 {
    pub fn add(self, rhs: Vector2) -> (r: Vector2)
        requires
            i32::MIN <= self.x + rhs.x <= i32::MAX,
            i32::MIN <= self.y + rhs.y <= i32::MAX,
        ensures
            r.x == self.x + rhs.x,
            r.y == self.y + rhs.y,
    {
        Vector2 { x: self.x + rhs.x, y: self.y + rhs.y }
    }

    pub fn sub(self, rhs: Vector2) -> (r: Vector2)
        requires
            i32::MIN <= self.x - rhs.x <= i32::MAX,
            i32::MIN <= self.y - rhs.y <= i32::MAX,
        ensures
            r.x == self.x - rhs.x,
            r.y == self.y - rhs.y,
    {
        Vector2 { x: self.x - rhs.x, y: self.y - rhs.y }
    }

    /// The adjacent position one step away in `direction`.
    pub fn neighbor(&self, direction: Direction) -> (r: Vector2)
        requires
            i32::MIN <= self.x + step_x(direction) <= i32::MAX,
            i32::MIN <= self.y + step_y(direction) <= i32::MAX,
        ensures
            r.x == self.x + step_x(direction),
            r.y == self.y + step_y(direction),
    {
        match direction {
            Direction::Down => Vector2 { y: self.y + 1, x: self.x },
            Direction::Left => Vector2 { y: self.y, x: self.x - 1 },
            Direction::Right => Vector2 { y: self.y, x: self.x + 1 },
            Direction::Up => Vector2 { y: self.y - 1, x: self.x },
        }
    }
}

} // verus!
