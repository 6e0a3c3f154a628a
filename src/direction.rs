//! The four directions a ray can travel in.
use vstd::prelude::*;

verus! {

/// One of the four ways a blast ray can travel across the maze.
#[derive(Clone, Copy, Debug, PartialEq, Eq, Structural)]
pub enum Direction {
    Up,
    Down,
    Left,
    Right,
}

/// The name under which a direction is printed.
pub open spec fn direction_name(d: Direction) -> Seq<char> {
    match d {
        Direction::Up => "Up"@,
        Direction::Down => "Down"@,
        Direction::Left => "Left"@,
        Direction::Right => "Right"@,
    }
}

/// The fixed order in which rays are cast.
pub open spec fn all_directions() -> Seq<Direction> {
    seq![Direction::Up, Direction::Down, Direction::Left, Direction::Right]
}

impl Direction {
    /// The four directions, in the fixed order up, down, left, right.
    pub fn iter() -> (r: [Direction; 4])
        ensures
            r@ == all_directions(),
    {
        let r = [Direction::Up, Direction::Down, Direction::Left, Direction::Right];
        assert(r@ =~= all_directions());
        r
    }

    /// The name of the direction, as `Debug` prints it.
    pub fn name(self) -> (r: &'static str)
        ensures
            r@ == direction_name(self),
    {
        match self {
            Direction::Up => "Up",
            Direction::Down => "Down",
            Direction::Left => "Left",
            Direction::Right => "Right",
        }
    }
}

} // verus!
