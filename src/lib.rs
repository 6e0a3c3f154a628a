//! One round of a bomb maze: a square grid of enemies, bombs and obstacles is
//! read from text, one bomb is set off, blasts chain from bomb to bomb, and
//! the maze left at the end is drawn back as text.

pub mod args;
pub mod bomb;
pub mod bomberman;
pub mod can_be_hit;
pub mod direction;
pub mod enemy;
pub mod errors;
pub mod maze_display;
pub mod obstacle;
pub mod point;
pub mod round_trip;
pub mod text;
