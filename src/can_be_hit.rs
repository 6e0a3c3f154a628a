//! What a blast can hit.
use vstd::prelude::*;
use crate::point::Point;

verus! {

/// An occupant of the maze that a blast can reach.
pub trait CanBeHit: Sized {
    /// The cell the occupant stands on.
    spec fn location(&self) -> Point;

    /// Whether a hit is defined for the occupant in its current state.
    spec fn can_take_hit(&self) -> bool;

    /// The occupant after one hit.
    spec fn after_hit(&self) -> Self;

    /// Hits the occupant, which changes its state where that applies.
    fn hit(&mut self)
        requires
            old(self).can_take_hit(),
        ensures
            *final(self) == old(self).after_hit(),
    ;

    /// Whether the occupant stands on `position`.
    fn in_position(&self, position: Point) -> (r: bool)
        ensures
            r == (self.location() == position),
    ;
}

} // verus!
