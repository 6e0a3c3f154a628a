use bomberman::can_be_hit::CanBeHit;
use bomberman::enemy::{Enemy, EnemyState};
use bomberman::errors::BombermanError;
use bomberman::maze_display::MazeDisplay;
use bomberman::point::Point;

fn enemy(health: u32, state: EnemyState) -> Enemy {
    Enemy {
        health,
        position: Point::new(0, 0),
        state,
    }
}

fn invalid_health(square: &str) -> BombermanError {
    BombermanError::InvalidSquare(format!(
        "invalid enemy health {square} at (0, 0). It should be a positive number between 1 and 3 included"
    ))
}

#[test]
fn enemy_test_new_enemy() {
    let enemy = Enemy::new("F3", Point::new(0, 0));
    assert_eq!(
        enemy,
        Ok(Enemy {
            health: 3,
            position: Point::new(0, 0),
            state: EnemyState::Idle,
        })
    );
}

#[test]
fn enemy_test_new_enemy_invalid_type() {
    let enemy = Enemy::new("A3", Point::new(0, 0));
    assert_eq!(
        enemy,
        Err(BombermanError::InvalidSquare(
            "invalid enemy A3 at (0, 0)".to_string()
        ))
    );
}

#[test]
fn enemy_test_new_enemy_invalid_square() {
    let enemy = Enemy::new("F", Point::new(0, 0));
    assert_eq!(enemy, Err(invalid_health("F")));
}

#[test]
fn enemy_test_new_enemy_invalid_health() {
    let enemy = Enemy::new("F3A", Point::new(0, 0));
    assert_eq!(enemy, Err(invalid_health("F3A")));
}

#[test]
fn enemy_test_new_enemy_invalid_health_float() {
    let enemy = Enemy::new("F3.5", Point::new(0, 0));
    assert_eq!(enemy, Err(invalid_health("F3.5")));
}

#[test]
fn enemy_test_new_enemy_invalid_health_negative() {
    let enemy = Enemy::new("F-3", Point::new(0, 0));
    assert_eq!(enemy, Err(invalid_health("F-3")));
}

#[test]
fn enemy_test_new_enemy_invalid_health_zero() {
    let enemy = Enemy::new("F0", Point::new(0, 0));
    assert_eq!(enemy, Err(invalid_health("F0")));
}

#[test]
fn test_new_enemy_invalid_health_too_high() {
    let enemy = Enemy::new("F4", Point::new(0, 0));
    assert_eq!(enemy, Err(invalid_health("F4")));
}

#[test]
fn enemy_test_reset_state_from_hit() {
    let mut e = enemy(3, EnemyState::Hit);
    e.reset_state();
    assert_eq!(e, enemy(3, EnemyState::Idle));
}

#[test]
fn enemy_test_reset_state_from_dead() {
    let mut e = enemy(3, EnemyState::Dead);
    e.reset_state();
    assert_eq!(e, enemy(3, EnemyState::Dead));
}

#[test]
fn enemy_test_reset_state_from_idle() {
    let mut e = enemy(3, EnemyState::Idle);
    e.reset_state();
    assert_eq!(e, enemy(3, EnemyState::Idle));
}

#[test]
fn enemy_test_hit_from_idle() {
    let mut e = enemy(3, EnemyState::Idle);
    e.hit();
    assert_eq!(e, enemy(2, EnemyState::Hit));
}

#[test]
fn enemy_test_hit_from_hit() {
    let mut e = enemy(3, EnemyState::Hit);
    e.hit();
    assert_eq!(e, enemy(3, EnemyState::Hit));
}

#[test]
fn enemy_test_hit_from_dead() {
    let mut e = enemy(0, EnemyState::Dead);
    e.hit();
    assert_eq!(e, enemy(0, EnemyState::Dead));
}

#[test]
fn enemy_test_hit_to_dead() {
    let mut e = enemy(1, EnemyState::Idle);
    e.hit();
    assert_eq!(e, enemy(0, EnemyState::Dead));
}

#[test]
fn enemy_test_in_position_equal_position_at_position() {
    let e = enemy(3, EnemyState::Idle);
    assert_eq!(e.in_position(Point::new(0, 0)), true);
}

#[test]
fn enemy_test_in_position_equal_position_not_at_position() {
    let e = enemy(3, EnemyState::Idle);
    assert_eq!(e.in_position(Point::new(0, 1)), false);
}

#[test]
fn enemy_test_display_from_idle() {
    let e = enemy(3, EnemyState::Idle);
    assert_eq!(e.display(), "F3".to_string());
}

#[test]
fn enemy_test_display_from_hit() {
    let e = enemy(3, EnemyState::Hit);
    assert_eq!(e.display(), "F3".to_string());
}

#[test]
fn enemy_test_display_from_dead() {
    let e = enemy(3, EnemyState::Dead);
    assert_eq!(e.display(), "_".to_string());
}
