//! Fixed obstacles: walls, rocks and redirections.
use vstd::prelude::*;
use vstd::string::*;
use crate::bomb::BombType;
use crate::direction::Direction;
use crate::errors::{BombermanError, ErrorView};
use crate::maze_display::MazeDisplay;
use crate::point::{Point, point_text};
use crate::text::chars_of;

verus! {

/// The kinds of fixed obstacle a maze can hold.
#[derive(Clone, Copy, Debug, PartialEq, Eq, Structural)]
pub enum ObstacleType {
    Wall,
    Rock,
    RedirectionUp,
    RedirectionDown,
    RedirectionLeft,
    RedirectionRight,
}

/// The obstacle that a whole token names, if any.
pub open spec fn obstacle_kind(s: Seq<char>) -> Option<ObstacleType> {
    if s == seq!['W'] {
        Some(ObstacleType::Wall)
    } else if s == seq!['R'] {
        Some(ObstacleType::Rock)
    } else if s == seq!['D', 'U'] {
        Some(ObstacleType::RedirectionUp)
    } else if s == seq!['D', 'D'] {
        Some(ObstacleType::RedirectionDown)
    } else if s == seq!['D', 'L'] {
        Some(ObstacleType::RedirectionLeft)
    } else if s == seq!['D', 'R'] {
        Some(ObstacleType::RedirectionRight)
    } else {
        None
    }
}

/// The token an obstacle kind is written as.
pub open spec fn obstacle_token(t: ObstacleType) -> Seq<char> {
    match t {
        ObstacleType::Wall => seq!['W'],
        ObstacleType::Rock => seq!['R'],
        ObstacleType::RedirectionUp => seq!['D', 'U'],
        ObstacleType::RedirectionDown => seq!['D', 'D'],
        ObstacleType::RedirectionLeft => seq!['D', 'L'],
        ObstacleType::RedirectionRight => seq!['D', 'R'],
    }
}

/// Whether a token is read as an obstacle: a wall, a rock, or anything
/// that starts like a redirection.
pub open spec fn names_obstacle(s: Seq<char>) -> bool {
    s == seq!['W'] || s == seq!['R'] || (s.len() > 0 && s[0] == 'D')
}

pub open spec fn is_redirection_kind(t: ObstacleType) -> bool {
    match t {
        ObstacleType::RedirectionUp | ObstacleType::RedirectionDown
        | ObstacleType::RedirectionLeft | ObstacleType::RedirectionRight => true,
        _ => false,
    }
}

/// Whether a blast of the given kind goes on through the obstacle: walls stop
/// every blast, rocks stop normal blasts only.
pub open spec fn can_pass(t: ObstacleType, kind: BombType) -> bool {
    match kind {
        BombType::Normal => t != ObstacleType::Wall && t != ObstacleType::Rock,
        BombType::Penetrating => t != ObstacleType::Wall,
    }
}

/// The direction a ray takes on leaving the obstacle.
pub open spec fn redirect(t: ObstacleType, d: Direction) -> Direction {
    match t {
        ObstacleType::RedirectionUp => Direction::Up,
        ObstacleType::RedirectionDown => Direction::Down,
        ObstacleType::RedirectionLeft => Direction::Left,
        ObstacleType::RedirectionRight => Direction::Right,
        _ => d,
    }
}

/// What reading `square` at `position` as an obstacle gives.
pub open spec fn obstacle_from(square: Seq<char>, position: Point) -> Result<Obstacle, ErrorView> {
    match obstacle_kind(square) {
        Some(t) => Ok(Obstacle { obstacle_type: t, position }),
        None => Err(
            ErrorView::InvalidSquare(
                "invalid obstacle "@ + square + " at "@ + point_text(position),
            ),
        ),
    }
}

impl ObstacleType {
    /// The obstacle kind that `square` names.
    pub fn new(square: &str) -> (r: Result<ObstacleType, String>)
        ensures
            match r {
                Ok(t) => obstacle_kind(square@) == Some(t),
                Err(m) => obstacle_kind(square@) is None && m@ == "invalid obstacle"@,
            },
    {
        let c = chars_of(square);
        if c.len() == 1 && c[0] == 'W' {
            assert(square@ =~= seq!['W']);
            Ok(ObstacleType::Wall)
        } else if c.len() == 1 && c[0] == 'R' {
            assert(square@ =~= seq!['R']);
            Ok(ObstacleType::Rock)
        } else if c.len() == 2 && c[0] == 'D' && c[1] == 'U' {
            assert(square@ =~= seq!['D', 'U']);
            Ok(ObstacleType::RedirectionUp)
        } else if c.len() == 2 && c[0] == 'D' && c[1] == 'D' {
            assert(square@ =~= seq!['D', 'D']);
            Ok(ObstacleType::RedirectionDown)
        } else if c.len() == 2 && c[0] == 'D' && c[1] == 'L' {
            assert(square@ =~= seq!['D', 'L']);
            Ok(ObstacleType::RedirectionLeft)
        } else if c.len() == 2 && c[0] == 'D' && c[1] == 'R' {
            assert(square@ =~= seq!['D', 'R']);
            Ok(ObstacleType::RedirectionRight)
        } else {
            Err(String::from_str("invalid obstacle"))
        }
    }

    /// Whether `square` is read as an obstacle.
    pub fn is_obstacle(square: &str) -> (r: bool)
        ensures
            r == names_obstacle(square@),
    {
        let c = chars_of(square);
        let r = (c.len() == 1 && (c[0] == 'W' || c[0] == 'R')) || (c.len() > 0 && c[0] == 'D');
        assert(c.len() == 1 && c[0] == 'W' ==> square@ =~= seq!['W']);
        assert(c.len() == 1 && c[0] == 'R' ==> square@ =~= seq!['R']);
        r
    }

    /// The token the obstacle kind is written as.
    pub fn to_string(&self) -> (r: String)
        ensures
            r@ == obstacle_token(*self),
    {
        proof {
            reveal_strlit("W");
            reveal_strlit("R");
            reveal_strlit("DU");
            reveal_strlit("DD");
            reveal_strlit("DL");
            reveal_strlit("DR");
        }
        let r = match self {
            ObstacleType::Wall => String::from_str("W"),
            ObstacleType::Rock => String::from_str("R"),
            ObstacleType::RedirectionUp => String::from_str("DU"),
            ObstacleType::RedirectionDown => String::from_str("DD"),
            ObstacleType::RedirectionLeft => String::from_str("DL"),
            ObstacleType::RedirectionRight => String::from_str("DR"),
        };
        assert(r@ =~= obstacle_token(*self));
        r
    }
}

/// A fixed obstacle and the cell it stands on.
#[derive(Clone, Copy, Debug, PartialEq, Eq, Structural)]
pub struct Obstacle {
    pub obstacle_type: ObstacleType,
    pub position: Point,
}

impl Obstacle {
    /// Reads the obstacle that `square` names, standing at `position`.
    pub fn new(square: String, position: Point) -> (r: Result<Obstacle, BombermanError>)
        ensures
            match r {
                Ok(o) => obstacle_from(square@, position) == Ok::<Obstacle, ErrorView>(o),
                Err(e) => obstacle_from(square@, position) == Err::<Obstacle, ErrorView>(e@),
            },
    {
        match ObstacleType::new(square.as_str()) {
            Ok(obstacle_type) => Ok(Obstacle { obstacle_type, position }),
            Err(_) => {
                let mut m = String::from_str("invalid obstacle ");
                m.append(square.as_str());
                m.append(" at ");
                m.append(position.to_string().as_str());
                Err(BombermanError::InvalidSquare(m))
            },
        }
    }

    /// Whether the obstacle stands on `position`.
    pub fn is_in_position(&self, position: Point) -> (r: bool)
        ensures
            r == (self.position == position),
    {
        self.position == position
    }

    /// Whether the obstacle is a rock.
    pub fn is_rock(&self) -> (r: bool)
        ensures
            r == (self.obstacle_type == ObstacleType::Rock),
    {
        self.obstacle_type == ObstacleType::Rock
    }

    /// Whether the obstacle turns a ray that enters it.
    pub fn is_redirection(&self) -> (r: bool)
        ensures
            r == is_redirection_kind(self.obstacle_type),
    {
        match self.obstacle_type {
            ObstacleType::RedirectionUp | ObstacleType::RedirectionDown
            | ObstacleType::RedirectionLeft | ObstacleType::RedirectionRight => true,
            _ => false,
        }
    }

    /// Whether a blast of `bomb_type` goes on through the obstacle.
    pub fn explosion_can_pass(&self, bomb_type: BombType) -> (r: bool)
        ensures
            r == can_pass(self.obstacle_type, bomb_type),
    {
        match bomb_type {
            BombType::Normal => self.obstacle_type != ObstacleType::Wall && self.obstacle_type
                != ObstacleType::Rock,
            BombType::Penetrating => self.obstacle_type != ObstacleType::Wall,
        }
    }

    /// The direction a ray entering in `direction` leaves in: the
    /// redirection's own direction, or `direction` unchanged.
    pub fn next_direction(&self, direction: Direction) -> (r: Direction)
        ensures
            r == redirect(self.obstacle_type, direction),
    {
        match self.obstacle_type {
            ObstacleType::RedirectionUp => Direction::Up,
            ObstacleType::RedirectionDown => Direction::Down,
            ObstacleType::RedirectionLeft => Direction::Left,
            ObstacleType::RedirectionRight => Direction::Right,
            _ => direction,
        }
    }
}

impl MazeDisplay for Obstacle {
    open spec fn token(&self) -> Seq<char> {
        obstacle_token(self.obstacle_type)
    }

    open spec fn cell(&self) -> Point {
        self.position
    }

    fn display(&self) -> (r: String) {
        let r = self.obstacle_type.to_string();
        assert(r@ == self.token());
        r
    }

    fn get_position(&self) -> (r: Point) {
        self.position
    }
}

} // verus!
