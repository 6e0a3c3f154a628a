use bomberman::direction::Direction;
use bomberman::errors::BombermanError::InvalidSquare;
use bomberman::obstacle::{Obstacle, ObstacleType};
use bomberman::point::Point;

fn obstacle(obstacle_type: ObstacleType) -> Obstacle {
    Obstacle {
        obstacle_type,
        position: Point::new(0, 0),
    }
}

#[test]
fn obstacle_test_new_wall() {
    let result = Obstacle::new("W".to_string(), Point::new(0, 0));
    assert_eq!(result, Ok(obstacle(ObstacleType::Wall)));
}

#[test]
fn obstacle_test_new_rock() {
    let result = Obstacle::new("R".to_string(), Point::new(0, 0));
    assert_eq!(result, Ok(obstacle(ObstacleType::Rock)));
}

#[test]
fn obstacle_test_new_redirection_up() {
    let result = Obstacle::new("DU".to_string(), Point::new(0, 0));
    assert_eq!(result, Ok(obstacle(ObstacleType::RedirectionUp)));
}

#[test]
fn obstacle_test_new_redirection_down() {
    let result = Obstacle::new("DD".to_string(), Point::new(0, 0));
    assert_eq!(result, Ok(obstacle(ObstacleType::RedirectionDown)));
}

#[test]
fn obstacle_test_new_redirection_left() {
    let result = Obstacle::new("DL".to_string(), Point::new(0, 0));
    assert_eq!(result, Ok(obstacle(ObstacleType::RedirectionLeft)));
}

#[test]
fn obstacle_test_new_redirection_right() {
    let result = Obstacle::new("DR".to_string(), Point::new(0, 0));
    assert_eq!(result, Ok(obstacle(ObstacleType::RedirectionRight)));
}

#[test]
fn obstacle_test_new_invalid_obstacle() {
    let result = Obstacle::new("A".to_string(), Point::new(0, 0));
    assert_eq!(
        result,
        Err(InvalidSquare("invalid obstacle A at (0, 0)".to_string()))
    );
}

#[test]
fn obstacle_test_is_in_position_equal_position() {
    let result = obstacle(ObstacleType::Wall).is_in_position(Point::new(0, 0));
    assert_eq!(result, true);
}

#[test]
fn obstacle_test_is_in_position_different_position() {
    let result = obstacle(ObstacleType::Wall).is_in_position(Point::new(0, 1));
    assert_eq!(result, false);
}

#[test]
fn test_is_rock_for_rock() {
    let result = obstacle(ObstacleType::Rock).is_rock();
    assert_eq!(result, true);
}

#[test]
fn test_is_rock_for_not_rock() {
    let result = obstacle(ObstacleType::Wall).is_rock();
    assert_eq!(result, false);
}

#[test]
fn obstacle_test_next_direction_for_redirection_up() {
    let result = obstacle(ObstacleType::RedirectionUp).next_direction(Direction::Down);
    assert_eq!(result, Direction::Up);
}

#[test]
fn obstacle_test_next_direction_for_redirection_down() {
    let result = obstacle(ObstacleType::RedirectionDown).next_direction(Direction::Up);
    assert_eq!(result, Direction::Down);
}

#[test]
fn obstacle_test_next_direction_for_redirection_left() {
    let result = obstacle(ObstacleType::RedirectionLeft).next_direction(Direction::Right);
    assert_eq!(result, Direction::Left);
}

#[test]
fn obstacle_test_next_direction_for_redirection_right() {
    let result = obstacle(ObstacleType::RedirectionRight).next_direction(Direction::Left);
    assert_eq!(result, Direction::Right);
}

#[test]
fn obstacle_test_next_direction_for_not_redirection() {
    let result = obstacle(ObstacleType::Wall).next_direction(Direction::Left);
    assert_eq!(result, Direction::Left);
}
