use bomberman::bomb::{Bomb, BombState, BombType};
use bomberman::can_be_hit::CanBeHit;
use bomberman::errors::BombermanError;
use bomberman::obstacle::Obstacle;
use bomberman::point::Point;

fn sorted(mut points: Vec<Point>) -> Vec<Point> {
    points.sort();
    points
}

#[test]
fn bomb_test_new_normal_bomb() {
    let bomb = Bomb::new("B3".to_string(), Point::new(0, 0));
    assert_eq!(
        bomb,
        Ok(Bomb {
            bomb_type: BombType::Normal,
            bomb_state: BombState::Idle,
            position: Point::new(0, 0),
            explosion_distance: 3,
        })
    );
}

#[test]
fn bomb_test_new_penetrating_bomb() {
    let bomb = Bomb::new("S3".to_string(), Point::new(0, 0));
    assert_eq!(
        bomb,
        Ok(Bomb {
            bomb_type: BombType::Penetrating,
            bomb_state: BombState::Idle,
            position: Point::new(0, 0),
            explosion_distance: 3,
        })
    );
}

#[test]
fn bomb_test_new_bomb_with_invalid_bomb_type() {
    let bomb = Bomb::new("A3".to_string(), Point::new(0, 0));
    assert_eq!(
        bomb,
        Err(BombermanError::InvalidSquare(
            "invalid bomb A3 at (0, 0). It should start with B or S".to_string()
        ))
    );
}

#[test]
fn bomb_test_new_bomb_with_distance_equal_to_zero_error() {
    let bomb = Bomb::new("B0".to_string(), Point::new(0, 0));
    assert_eq!(
        bomb,
        Err(BombermanError::InvalidSquare(
            "invalid bomb distance B0 at (0, 0) it should be positive number greater than 0"
                .to_string()
        ))
    );
}

#[test]
fn bomb_test_new_bomb_with_invalid_bomb_distance() {
    let bomb = Bomb::new("Bx".to_string(), Point::new(0, 0));
    assert_eq!(
        bomb,
        Err(BombermanError::InvalidSquare(
            "invalid bomb distance Bx at (0, 0) it should be positive number greater than 0"
                .to_string()
        ))
    );
}

#[test]
fn bomb_test_is_active() {
    let mut bomb = Bomb {
        bomb_type: BombType::Normal,
        bomb_state: BombState::Idle,
        position: Point::new(0, 0),
        explosion_distance: 3,
    };
    assert_eq!(bomb.is_active(), false);
    bomb.bomb_state = BombState::Activated;
    assert_eq!(bomb.is_active(), true);
}

#[test]
fn bomb_test_hit_idle_bomb() {
    let mut bomb = Bomb {
        bomb_type: BombType::Normal,
        bomb_state: BombState::Idle,
        position: Point::new(0, 0),
        explosion_distance: 3,
    };
    bomb.hit();
    assert_eq!(bomb.bomb_state, BombState::Activated);
}

#[test]
fn bomb_test_hit_activated_bomb() {
    let mut bomb = Bomb {
        bomb_type: BombType::Normal,
        bomb_state: BombState::Activated,
        position: Point::new(0, 0),
        explosion_distance: 3,
    };
    bomb.hit();
    assert_eq!(bomb.bomb_state, BombState::Activated);
}

#[test]
fn bomb_test_hit_exploded_bomb() {
    let mut bomb = Bomb {
        bomb_type: BombType::Normal,
        bomb_state: BombState::Exploded,
        position: Point::new(0, 0),
        explosion_distance: 3,
    };
    bomb.hit();
    assert_eq!(bomb.bomb_state, BombState::Exploded);
}

#[test]
fn bomb_test_bomb_explosion_does_not_leave_board() {
    let mut bomb = Bomb {
        bomb_type: BombType::Normal,
        bomb_state: BombState::Idle,
        position: Point::new(1, 1),
        explosion_distance: 3,
    };
    let obstacles = vec![];
    let explosion_points = bomb.explode(3, &obstacles);
    let result = vec![
        Point::new(1, 1),
        Point::new(1, 0),
        Point::new(0, 1),
        Point::new(2, 1),
        Point::new(1, 2),
    ];
    assert_eq!(sorted(explosion_points), sorted(result));
}

#[test]
fn bomb_test_normal_bomb_can_not_penetrate_rock() {
    let mut bomb = Bomb {
        bomb_type: BombType::Normal,
        bomb_state: BombState::Idle,
        position: Point::new(1, 1),
        explosion_distance: 3,
    };
    let obstacles = vec![Obstacle::new("R".to_string(), Point::new(1, 0)).unwrap()];
    let explosion_points = bomb.explode(3, &obstacles);
    let result = vec![
        Point::new(1, 1),
        Point::new(0, 1),
        Point::new(2, 1),
        Point::new(1, 2),
    ];
    assert_eq!(sorted(explosion_points), sorted(result));
}

#[test]
fn bomb_test_penetration_bomb_can_pass_rock() {
    let mut bomb = Bomb {
        bomb_type: BombType::Penetrating,
        bomb_state: BombState::Idle,
        position: Point::new(1, 1),
        explosion_distance: 3,
    };
    let obstacles = vec![];
    let explosion_points = bomb.explode(3, &obstacles);
    let result = vec![
        Point::new(1, 1),
        Point::new(1, 0),
        Point::new(0, 1),
        Point::new(2, 1),
        Point::new(1, 2),
    ];
    assert_eq!(sorted(explosion_points), sorted(result));
}

#[test]
fn bomb_test_normal_bomb_can_not_penetrate_wall() {
    let mut bomb = Bomb {
        bomb_type: BombType::Normal,
        bomb_state: BombState::Idle,
        position: Point::new(1, 1),
        explosion_distance: 3,
    };
    let obstacles = vec![Obstacle::new("W".to_string(), Point::new(1, 0)).unwrap()];
    let explosion_points = bomb.explode(3, &obstacles);
    let result = vec![
        Point::new(1, 1),
        Point::new(0, 1),
        Point::new(2, 1),
        Point::new(1, 2),
    ];
    assert_eq!(sorted(explosion_points), sorted(result));
}

#[test]
fn bomb_test_penetration_bomb_can_not_penetrate_wall() {
    let mut bomb = Bomb {
        bomb_type: BombType::Normal,
        bomb_state: BombState::Idle,
        position: Point::new(1, 1),
        explosion_distance: 3,
    };
    let obstacles = vec![Obstacle::new("W".to_string(), Point::new(1, 0)).unwrap()];
    let explosion_points = bomb.explode(3, &obstacles);
    let result = vec![
        Point::new(1, 1),
        Point::new(0, 1),
        Point::new(2, 1),
        Point::new(1, 2),
    ];
    assert_eq!(sorted(explosion_points), sorted(result));
}

#[test]
fn bomb_test_bomb_explosion_can_be_redirected() {
    let mut bomb = Bomb {
        bomb_type: BombType::Normal,
        bomb_state: BombState::Idle,
        position: Point::new(1, 1),
        explosion_distance: 4,
    };
    let obstacles = vec![Obstacle::new("DL".to_string(), Point::new(1, 0)).unwrap()];
    let explosion_points = bomb.explode(3, &obstacles);
    let result = vec![
        Point::new(1, 1),
        Point::new(1, 0),
        Point::new(0, 1),
        Point::new(2, 1),
        Point::new(1, 2),
        Point::new(0, 0),
    ];
    assert_eq!(sorted(explosion_points), sorted(result));
}

#[test]
fn bomb_test_bomb_explosion_affected_points_are_not_repeated_with_redirection() {
    let mut bomb = Bomb {
        bomb_type: BombType::Normal,
        bomb_state: BombState::Idle,
        position: Point::new(1, 1),
        explosion_distance: 5,
    };
    let obstacles = vec![Obstacle::new("DD".to_string(), Point::new(1, 0)).unwrap()];
    // The ray going up reaches (1,0), turns down, and passes (1,1) and (1,2) again.
    let explosion_points = bomb.explode(3, &obstacles);
    let result = vec![
        Point::new(1, 1),
        Point::new(1, 0),
        Point::new(0, 1),
        Point::new(2, 1),
        Point::new(1, 2),
    ];
    assert_eq!(sorted(explosion_points), sorted(result));
}
