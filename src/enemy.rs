//! Enemies and the damage they take.
use vstd::prelude::*;
use vstd::string::*;
use crate::can_be_hit::CanBeHit;
use crate::errors::{BombermanError, ErrorView};
use crate::maze_display::MazeDisplay;
use crate::point::{Point, point_text};
use crate::text::{chars_of, decimal, parse_u32, parse_u32_range, push_decimal};

verus! {

/// Where an enemy stands in its life: untouched this turn, already hit this
/// turn, or dead.
#[derive(Clone, Copy, Debug, PartialEq, Eq, Structural)]
pub enum EnemyState {
    Idle,
    Hit,
    Dead,
}

/// An enemy, its remaining health and its cell.
#[derive(Clone, Copy, Debug, PartialEq, Eq, Structural)]
pub struct Enemy {
    pub health: u32,
    pub position: Point,
    pub state: EnemyState,
}

/// The greatest health an enemy can start with. A square with more health
/// is invalid: the bound is part of the maze format, not a limit of the
/// simulation.
pub const MAX_HEALTH: u32 = 3;

/// What reading `square` at `position` as an enemy gives: `F` followed by a
/// health from 1 to 3.
pub open spec fn enemy_from(square: Seq<char>, position: Point) -> Result<Enemy, ErrorView> {
    if !(square.len() > 0 && square[0] == 'F') {
        Err(ErrorView::InvalidSquare("invalid enemy "@ + square + " at "@ + point_text(position)))
    } else {
        match parse_u32(square.drop_first()) {
            Some(h) if 0 < h && h <= MAX_HEALTH => Ok(
                Enemy { health: h, position, state: EnemyState::Idle },
            ),
            _ => Err(
                ErrorView::InvalidSquare(
                    "invalid enemy health "@ + square + " at "@ + point_text(position)
                        + ". It should be a positive number between 1 and 3 included"@,
                ),
            ),
        }
    }
}

/// The enemy after one hit: an idle enemy loses one point of health and is
/// dead at zero, else marked as hit; a hit or dead enemy does not change.
pub open spec fn hit_enemy(e: Enemy) -> Enemy {
    if e.state is Idle {
        let h = (e.health - 1) as u32;
        Enemy { health: h, position: e.position, state: if h == 0 { EnemyState::Dead } else { EnemyState::Hit } }
    } else {
        e
    }
}

/// The enemy at the end of a turn: a hit enemy can be hit again.
pub open spec fn reset_enemy(e: Enemy) -> Enemy {
    if e.state is Hit {
        Enemy { state: EnemyState::Idle, ..e }
    } else {
        e
    }
}

/// The token of an enemy: `_` once dead, else `F` and its health.
pub open spec fn enemy_token(e: Enemy) -> Seq<char> {
    if e.state is Dead {
        seq!['_']
    } else {
        seq!['F'] + decimal(e.health as nat)
    }
}

/// A hit on an idle enemy takes exactly one point of its health, and leaves
/// it dead exactly when no health is left; a hit on an enemy that is already
/// hit or dead changes nothing, its health included.
pub proof fn lemma_hit_takes_one_health(e: Enemy)
    requires
        e.state is Idle ==> e.health > 0,
    ensures
        e.state is Idle ==> hit_enemy(e).health == e.health - 1 && (hit_enemy(e).state is Dead
            <==> hit_enemy(e).health == 0) && hit_enemy(e).health < e.health,
        !(e.state is Idle) ==> hit_enemy(e) == e,
        hit_enemy(e).position == e.position,
{
}

impl Enemy {
    /// Reads the enemy that `square` describes, standing at `position`.
    pub fn new(square: &str, position: Point) -> (r: Result<Enemy, BombermanError>)
        ensures
            match r {
                Ok(e) => enemy_from(square@, position) == Ok::<Enemy, ErrorView>(e),
                Err(e) => enemy_from(square@, position) == Err::<Enemy, ErrorView>(e@),
            },
    {
        let c = chars_of(square);
        if !(c.len() > 0 && c[0] == 'F') {
            let mut m = String::from_str("invalid enemy ");
            m.append(square);
            m.append(" at ");
            m.append(position.to_string().as_str());
            return Err(BombermanError::InvalidSquare(m));
        }
        assert(c@.subrange(1, c@.len() as int) =~= square@.drop_first());
        match parse_u32_range(&c, 1, c.len()) {
            Some(health) if 0 < health && health <= MAX_HEALTH => {
                Ok(Enemy { health, position, state: EnemyState::Idle })
            },
            _ => {
                let mut m = String::from_str("invalid enemy health ");
                m.append(square);
                m.append(" at ");
                m.append(position.to_string().as_str());
                m.append(". It should be a positive number between 1 and 3 included");
                Err(BombermanError::InvalidSquare(m))
            },
        }
    }

    /// Ends the turn for the enemy: one that was hit can be hit again.
    pub fn reset_state(&mut self)
        ensures
            *final(self) == reset_enemy(*old(self)),
    {
        if self.state == EnemyState::Hit {
            self.state = EnemyState::Idle;
        }
    }
}

impl CanBeHit for Enemy {
    open spec fn location(&self) -> Point {
        self.position
    }

    open spec fn can_take_hit(&self) -> bool {
        self.state is Idle ==> self.health > 0
    }

    open spec fn after_hit(&self) -> Enemy {
        hit_enemy(*self)
    }

    fn hit(&mut self) {
        match self.state {
            EnemyState::Idle => {
                self.health = self.health - 1;
                if self.health == 0 {
                    self.state = EnemyState::Dead;
                } else {
                    self.state = EnemyState::Hit;
                }
            },
            EnemyState::Hit => {},
            EnemyState::Dead => {},
        }
    }

    fn in_position(&self, position: Point) -> (r: bool) {
        self.position == position
    }
}

impl MazeDisplay for Enemy {
    open spec fn token(&self) -> Seq<char> {
        enemy_token(*self)
    }

    open spec fn cell(&self) -> Point {
        self.position
    }

    fn display(&self) -> (r: String) {
        proof {
            reveal_strlit("_");
            reveal_strlit("F");
        }
        if self.state == EnemyState::Dead {
            let r = String::from_str("_");
            assert(r@ =~= self.token());
            return r;
        }
        let mut r = String::from_str("F");
        push_decimal(&mut r, self.health as u64);
        assert(r@ =~= self.token());
        r
    }

    fn get_position(&self) -> (r: Point) {
        self.position
    }
}

} // verus!
