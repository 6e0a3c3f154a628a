use bomberman::direction::Direction;
use bomberman::point::Point;

fn out_of_bounds(direction: Direction, point: Point) -> Result<Point, String> {
    Err(format!(
        "Cannot move {:?} from the {} of the board, it goes out of bounds",
        direction,
        point.to_string()
    ))
}

#[test]
fn point_test_next_point_up_from_start_throw_error() {
    let point = Point::new(0, 0);
    let direction = Direction::Up;
    let result = point.next_point(direction, 2);
    assert_eq!(result, out_of_bounds(direction, point));
    assert_eq!(
        result,
        Err("Cannot move Up from the (0, 0) of the board, it goes out of bounds".to_string())
    );
}

#[test]
fn point_test_next_point_left_from_start_throw_error() {
    let point = Point::new(0, 0);
    let direction = Direction::Left;
    let result = point.next_point(direction, 2);
    assert_eq!(result, out_of_bounds(direction, point));
}

#[test]
fn point_test_next_point_down_from_start() {
    let result = Point::new(0, 0).next_point(Direction::Down, 2);
    assert_eq!(result, Ok(Point::new(0, 1)));
}

#[test]
fn point_test_next_point_right_from_start() {
    let result = Point::new(0, 0).next_point(Direction::Right, 2);
    assert_eq!(result, Ok(Point::new(1, 0)));
}

#[test]
fn point_test_next_point_up_from_middle() {
    let result = Point::new(0, 1).next_point(Direction::Up, 2);
    assert_eq!(result, Ok(Point::new(0, 0)));
}

#[test]
fn point_test_next_point_left_from_middle() {
    let result = Point::new(1, 0).next_point(Direction::Left, 2);
    assert_eq!(result, Ok(Point::new(0, 0)));
}

#[test]
fn test_next_point_down_from_middle() {
    let result = Point::new(0, 0).next_point(Direction::Down, 2);
    assert_eq!(result, Ok(Point::new(0, 1)));
}

#[test]
fn test_next_point_right_from_middle() {
    let result = Point::new(0, 0).next_point(Direction::Right, 2);
    assert_eq!(result, Ok(Point::new(1, 0)));
}

#[test]
fn test_next_point_down_from_end_throw_error() {
    let point = Point::new(0, 2);
    let direction = Direction::Down;
    let result = point.next_point(direction, 2);
    assert_eq!(result, out_of_bounds(direction, point));
}

#[test]
fn test_next_point_right_from_end_throw_error() {
    let point = Point::new(2, 0);
    let direction = Direction::Right;
    let result = point.next_point(direction, 2);
    assert_eq!(result, out_of_bounds(direction, point));
}

#[test]
fn test_next_point_up_from_end() {
    let result = Point::new(0, 2).next_point(Direction::Up, 2);
    assert_eq!(result, Ok(Point::new(0, 1)));
}

#[test]
fn test_next_point_left_from_end() {
    let result = Point::new(2, 0).next_point(Direction::Left, 2);
    assert_eq!(result, Ok(Point::new(1, 0)));
}
