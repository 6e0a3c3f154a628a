//! What is drawn in the cells of the maze.
use vstd::prelude::*;
use crate::point::Point;

verus! {

/// An occupant of the maze that shows in the rendered grid.
pub trait MazeDisplay: Sized {
    /// The token written in the occupant's cell.
    spec fn token(&self) -> Seq<char>;

    /// The cell the occupant is drawn in.
    spec fn cell(&self) -> Point;

    /// The token written in the occupant's cell.
    fn display(&self) -> (r: String)
        ensures
            r@ == self.token(),
    ;

    /// The cell the occupant is drawn in.
    fn get_position(&self) -> (r: Point)
        ensures
            r == self.cell(),
    ;
}

} // verus!
