//! Cells of the maze and steps between them.
use vstd::prelude::*;
use vstd::string::*;
use crate::direction::{Direction, direction_name};
use crate::text::{decimal, push_decimal};

verus! {

/// A cell of the maze: `x` is the column and `y` the row, both counted from zero.
#[derive(Clone, Copy, Debug, PartialEq, Eq, Structural, Hash, PartialOrd, Ord)]
pub struct Point {
    pub x: u32,
    pub y: u32,
}

/// The cell next to `p` in direction `d`, if it lies in a `limit` by `limit` maze.
pub open spec fn step(p: Point, d: Direction, limit: u32) -> Option<Point> {
    match d {
        Direction::Down => if p.y + 1 < limit {
            Some(Point { x: p.x, y: (p.y + 1) as u32 })
        } else {
            None
        },
        Direction::Up => if 0 < p.y {
            Some(Point { x: p.x, y: (p.y - 1) as u32 })
        } else {
            None
        },
        Direction::Left => if 0 < p.x {
            Some(Point { x: (p.x - 1) as u32, y: p.y })
        } else {
            None
        },
        Direction::Right => if p.x + 1 < limit {
            Some(Point { x: (p.x + 1) as u32, y: p.y })
        } else {
            None
        },
    }
}

/// `(x, y)`: how a point is written in messages.
pub open spec fn point_text(p: Point) -> Seq<char> {
    "("@ + decimal(p.x as nat) + ", "@ + decimal(p.y as nat) + ")"@
}

/// `Point { x: .., y: .. }`: the point as `Debug` prints it.
pub open spec fn point_debug(p: Point) -> Seq<char> {
    "Point { x: "@ + decimal(p.x as nat) + ", y: "@ + decimal(p.y as nat) + " }"@
}

/// The message for a step that would leave the maze.
pub open spec fn out_of_bounds_text(d: Direction, p: Point) -> Seq<char> {
    "Cannot move "@ + direction_name(d) + " from the "@ + point_text(p)
        + " of the board, it goes out of bounds"@
}

impl Point {
    pub fn new(x: u32, y: u32) -> (r: Point)
        ensures
            r == (Point { x, y }),
    {
        Point { x, y }
    }

    /// The neighbouring cell in `direction`, or a message when it would lie
    /// outside a `limit` by `limit` maze.
    pub fn next_point(self, direction: Direction, limit: u32) -> (r: Result<Point, String>)
        ensures
            match r {
                Ok(q) => step(self, direction, limit) == Some(q),
                Err(m) => step(self, direction, limit) is None && m@ == out_of_bounds_text(
                    direction,
                    self,
                ),
            },
    {
        let next = match direction {
            Direction::Down => if limit > 0 && self.y < limit - 1 {
                Some(Point::new(self.x, self.y + 1))
            } else {
                None
            },
            Direction::Up => if self.y > 0 {
                Some(Point::new(self.x, self.y - 1))
            } else {
                None
            },
            Direction::Left => if self.x > 0 {
                Some(Point::new(self.x - 1, self.y))
            } else {
                None
            },
            Direction::Right => if limit > 0 && self.x < limit - 1 {
                Some(Point::new(self.x + 1, self.y))
            } else {
                None
            },
        };
        match next {
            Some(q) => Ok(q),
            None => {
                let mut m = String::from_str("Cannot move ");
                m.append(direction.name());
                m.append(" from the ");
                m.append(self.to_string().as_str());
                m.append(" of the board, it goes out of bounds");
                Err(m)
            },
        }
    }

    /// The point written as `(x, y)`.
    pub fn to_string(&self) -> (r: String)
        ensures
            r@ == point_text(*self),
    {
        let mut r = String::from_str("(");
        push_decimal(&mut r, self.x as u64);
        r.append(", ");
        push_decimal(&mut r, self.y as u64);
        r.append(")");
        r
    }

    /// The point as `Debug` prints it: `Point { x: .., y: .. }`.
    pub fn debug_text(&self) -> (r: String)
        ensures
            r@ == point_debug(*self),
    {
        let mut r = String::from_str("Point { x: ");
        push_decimal(&mut r, self.x as u64);
        r.append(", y: ");
        push_decimal(&mut r, self.y as u64);
        r.append(" }");
        r
    }
}

} // verus!
