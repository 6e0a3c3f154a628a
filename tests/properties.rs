use bomberman::args::{format_out_path, validate_args};
use bomberman::bomb::{Bomb, BombState, BombType};
use bomberman::bomberman::Bomberman;
use bomberman::can_be_hit::CanBeHit;
use bomberman::direction::Direction;
use bomberman::enemy::{Enemy, EnemyState};
use bomberman::errors::{BombermanError, InputError};
use bomberman::maze_display::MazeDisplay;
use bomberman::obstacle::{Obstacle, ObstacleType};
use bomberman::point::Point;

fn bomb(bomb_type: BombType, x: u32, y: u32, distance: u32) -> Bomb {
    Bomb {
        bomb_type,
        bomb_state: BombState::Idle,
        position: Point::new(x, y),
        explosion_distance: distance,
    }
}

fn sorted(mut points: Vec<Point>) -> Vec<Point> {
    points.sort();
    points
}

fn render_after_play(maze: &str, x: u32, y: u32) -> Result<String, BombermanError> {
    let mut game = Bomberman::new(maze.to_string()).unwrap();
    game.play(Point::new(x, y))
}

#[test]
fn example_maze_resolves_to_expected_board() {
    let input = "B2 R R _ F1 _ _\n_ W R W _ W _\nB5 _ _ _ B2 _ _\n_ W _ W _ W _\n_ _ _ _ _ _ _\n_ W _ W _ W _\n_ _ _ _ _ _ _\n";
    let result = "_ R R _ _ _ _\n_ W R W _ W _\n_ _ _ _ _ _ _\n_ W _ W _ W _\n_ _ _ _ _ _ _\n_ W _ W _ W _\n_ _ _ _ _ _ _\n";
    assert_eq!(render_after_play(input, 0, 0), Ok(result.to_string()));
}

#[test]
fn lone_bomb_reaches_its_cross() {
    let mut b = bomb(BombType::Normal, 1, 1, 3);
    let points = b.explode(3, &[]);
    assert_eq!(
        sorted(points),
        sorted(vec![
            Point::new(1, 1),
            Point::new(1, 0),
            Point::new(0, 1),
            Point::new(2, 1),
            Point::new(1, 2),
        ])
    );
    assert_eq!(b.bomb_state, BombState::Exploded);
}

#[test]
fn lone_bomb_in_maze_clears_only_itself() {
    let board = render_after_play("_ _ _\n_ B3 _\n_ _ _\n", 1, 1);
    assert_eq!(board, Ok("_ _ _\n_ _ _\n_ _ _\n".to_string()));
}

#[test]
fn rock_blocks_normal_ray_north() {
    let mut b = bomb(BombType::Normal, 1, 1, 3);
    let obstacles = vec![Obstacle::new("R".to_string(), Point::new(1, 0)).unwrap()];
    let points = b.explode(3, &obstacles);
    assert_eq!(
        sorted(points),
        sorted(vec![
            Point::new(1, 1),
            Point::new(0, 1),
            Point::new(2, 1),
            Point::new(1, 2),
        ])
    );
}

#[test]
fn penetrating_ray_passes_rock_but_not_wall() {
    let obstacles = vec![
        Obstacle::new("R".to_string(), Point::new(1, 2)).unwrap(),
        Obstacle::new("W".to_string(), Point::new(1, 0)).unwrap(),
    ];
    let mut normal = bomb(BombType::Normal, 1, 3, 3);
    let normal_points = normal.explode(4, &obstacles);
    assert!(!normal_points.contains(&Point::new(1, 2)));
    assert!(!normal_points.contains(&Point::new(1, 1)));
    let mut penetrating = bomb(BombType::Penetrating, 1, 3, 3);
    let points = penetrating.explode(4, &obstacles);
    assert!(points.contains(&Point::new(1, 2)));
    assert!(points.contains(&Point::new(1, 1)));
    assert!(!points.contains(&Point::new(1, 0)));
}

#[test]
fn redirection_turns_ray_and_uses_a_step() {
    // The ray going up enters (1,0), turns right and has one step left.
    let mut b = bomb(BombType::Normal, 1, 2, 3);
    let obstacles = vec![Obstacle::new("DR".to_string(), Point::new(1, 0)).unwrap()];
    let points = b.explode(4, &obstacles);
    assert!(points.contains(&Point::new(1, 0)));
    assert!(points.contains(&Point::new(2, 0)));
    assert!(!points.contains(&Point::new(3, 0)));
    assert!(!points.contains(&Point::new(0, 0)));
}

#[test]
fn redirection_loop_gives_no_duplicates() {
    let mut b = bomb(BombType::Penetrating, 1, 1, 9);
    let obstacles = vec![
        Obstacle::new("DD".to_string(), Point::new(1, 0)).unwrap(),
        Obstacle::new("DU".to_string(), Point::new(1, 2)).unwrap(),
    ];
    let points = b.explode(3, &obstacles);
    let mut unique = sorted(points.clone());
    unique.dedup();
    assert_eq!(unique.len(), points.len());
    assert_eq!(
        unique,
        sorted(vec![
            Point::new(1, 1),
            Point::new(1, 0),
            Point::new(0, 1),
            Point::new(2, 1),
            Point::new(1, 2),
        ])
    );
}

#[test]
fn enemy_loses_one_health_per_turn_until_dead() {
    let mut e = Enemy::new("F2", Point::new(0, 0)).unwrap();
    e.hit();
    assert_eq!((e.health, e.state), (1, EnemyState::Hit));
    e.hit();
    assert_eq!((e.health, e.state), (1, EnemyState::Hit));
    e.reset_state();
    e.hit();
    assert_eq!((e.health, e.state), (0, EnemyState::Dead));
    e.reset_state();
    e.hit();
    assert_eq!((e.health, e.state), (0, EnemyState::Dead));
    assert_eq!(e.display(), "_".to_string());
}

#[test]
fn two_bombs_hit_an_enemy_on_separate_turns() {
    let board = render_after_play("B1 F3 B1\n_ _ _\n_ _ _\n", 0, 0);
    assert_eq!(board, Ok("_ F2 B1\n_ _ _\n_ _ _\n".to_string()));
    let board = render_after_play("B2 F3 B2\n_ _ _\n_ _ _\n", 0, 0);
    assert_eq!(board, Ok("_ F1 _\n_ _ _\n_ _ _\n".to_string()));
}

#[test]
fn invalid_bomb_tokens_fail() {
    let p = Point::new(0, 0);
    assert!(matches!(Bomb::new("B0".to_string(), p), Err(BombermanError::InvalidSquare(_))));
    assert!(matches!(Bomb::new("Bx".to_string(), p), Err(BombermanError::InvalidSquare(_))));
    assert_eq!(
        Bomb::new("B99999999999".to_string(), p),
        Err(BombermanError::InvalidSquare(
            "invalid bomb distance B99999999999 at (0, 0) it should be positive number greater than 0"
                .to_string()
        ))
    );
    assert_eq!(
        Bomb::new("A3".to_string(), p),
        Err(BombermanError::InvalidSquare(
            "invalid bomb A3 at (0, 0). It should start with B or S".to_string()
        ))
    );
    assert_eq!(BombType::new("X"), Err("Invalid bomb type".to_string()));
    assert_eq!(BombType::new("S9"), Ok(BombType::Penetrating));
}

#[test]
fn reach_accepts_a_plus_sign_and_leading_zeros() {
    let p = Point::new(2, 1);
    assert_eq!(Bomb::new("B+4".to_string(), p), Ok(bomb(BombType::Normal, 2, 1, 4)));
    assert_eq!(Bomb::new("S007".to_string(), p), Ok(bomb(BombType::Penetrating, 2, 1, 7)));
    assert_eq!(Bomb::new("B4294967295".to_string(), p), Ok(bomb(BombType::Normal, 2, 1, u32::MAX)));
}

#[test]
fn play_without_bomb_at_start_fails() {
    let result = render_after_play("_ B1\n_ _\n", 0, 0);
    assert_eq!(
        result,
        Err(BombermanError::NoBombInStartingPosition(
            "No bomb in starting position: Point { x: 0, y: 0 }".to_string()
        ))
    );
}

#[test]
fn parse_then_render_gives_canonical_tokens() {
    let game = Bomberman::new("F03 B2 DL\n_ W R\nS+1 _ DU\n".to_string()).unwrap();
    let drawn = game.to_string();
    assert_eq!(drawn, "F3 B2 DL\n_ W R\nS1 _ DU\n".to_string());
    let again = Bomberman::new(drawn.clone()).unwrap();
    assert_eq!(again.to_string(), drawn);
}

#[test]
fn only_a_lone_underscore_is_empty() {
    assert_eq!(
        Bomberman::new("_x _\n_ _\n".to_string()).unwrap_err(),
        BombermanError::InvalidSquare("The square _x at position (0, 0) is invalid".to_string())
    );
    assert_eq!(
        Bomberman::new("_ _\n_ __\n".to_string()).unwrap_err(),
        BombermanError::InvalidSquare("The square __ at position (1, 1) is invalid".to_string())
    );
}

#[test]
fn surrounding_whitespace_is_ignored() {
    let game = Bomberman::new("\n  B1 _\r\n\t_ F1  \n\n".to_string()).unwrap();
    assert_eq!(game.to_string(), "B1 _\n_ F1\n".to_string());
}

#[test]
fn maze_errors_name_square_and_cell() {
    assert_eq!(
        Bomberman::new(String::new()).unwrap_err(),
        BombermanError::InvalidSquare("The square  at position (0, 0) is invalid".to_string())
    );
    assert_eq!(
        Bomberman::new("_ _\n_ Wx\n".to_string()).unwrap_err(),
        BombermanError::InvalidSquare("invalid obstacle Wx at (1, 1)".to_string())
    );
    assert_eq!(
        Bomberman::new("_ F9\n_ _\n".to_string()).unwrap_err(),
        BombermanError::InvalidSquare(
            "invalid enemy health F9 at (1, 0). It should be a positive number between 1 and 3 included"
                .to_string()
        )
    );
    assert_eq!(
        Bomberman::new("_  _\n_ _\n".to_string()).unwrap_err(),
        BombermanError::MazeNotSquare("Maze has 2 lines and 3 columns, it should be equal".to_string())
    );
    assert_eq!(
        Bomberman::new("X _ _\n_ _\n".to_string()).unwrap_err(),
        BombermanError::MazeNotSquare("Maze has 2 lines and 3 columns, it should be equal".to_string())
    );
}

#[test]
fn errors_read_with_their_kind() {
    let e = BombermanError::MazeNotSquare("m".to_string());
    assert_eq!(e.to_string(), "MazeNotSquare: m".to_string());
    let e = BombermanError::InvalidSquare("s".to_string());
    assert_eq!(e.to_string(), "InvalidSquare: s".to_string());
    let e = BombermanError::NoBombInStartingPosition("p".to_string());
    assert_eq!(e.to_string(), "NoBombInStartingPosition: p".to_string());
    let e = InputError::FileError("f".to_string());
    assert_eq!(e.to_string(), "FileError: f".to_string());
}

#[test]
fn obstacle_kinds_read_and_write_back() {
    for token in ["W", "R", "DU", "DD", "DL", "DR"] {
        let kind = ObstacleType::new(token).unwrap();
        assert_eq!(kind.to_string(), token.to_string());
    }
    assert_eq!(ObstacleType::new("D"), Err("invalid obstacle".to_string()));
    assert!(ObstacleType::is_obstacle("D"));
    assert!(ObstacleType::is_obstacle("W"));
    assert!(!ObstacleType::is_obstacle("WW"));
    assert!(!ObstacleType::is_obstacle("_"));
    let rock = Obstacle::new("R".to_string(), Point::new(0, 0)).unwrap();
    assert!(rock.explosion_can_pass(BombType::Penetrating));
    assert!(!rock.explosion_can_pass(BombType::Normal));
    assert!(!rock.is_redirection());
    let wall = Obstacle::new("W".to_string(), Point::new(0, 0)).unwrap();
    assert!(!wall.explosion_can_pass(BombType::Penetrating));
    let turn = Obstacle::new("DL".to_string(), Point::new(3, 4)).unwrap();
    assert!(turn.is_redirection());
    assert!(turn.explosion_can_pass(BombType::Normal));
    assert_eq!(turn.display(), "DL".to_string());
    assert_eq!(turn.get_position(), Point::new(3, 4));
}

#[test]
fn bombs_draw_their_kind_and_reach() {
    let mut b = bomb(BombType::Penetrating, 0, 0, 12);
    assert_eq!(b.display(), "S12".to_string());
    b.hit();
    assert!(b.is_active());
    assert_eq!(b.display(), "S12".to_string());
    b.explode(1, &[]);
    assert_eq!(b.display(), "_".to_string());
    assert!(!b.is_active());
}

#[test]
fn directions_come_in_fixed_order() {
    assert_eq!(
        Direction::iter(),
        [Direction::Up, Direction::Down, Direction::Left, Direction::Right]
    );
    assert_eq!(Direction::Left.name(), "Left");
}

#[test]
fn points_print_in_two_forms() {
    let p = Point::new(12, 305);
    assert_eq!(p.to_string(), "(12, 305)".to_string());
    assert_eq!(p.debug_text(), format!("{:?}", p));
    assert_eq!(
        Point::new(4, 4).next_point(Direction::Right, 5),
        Err("Cannot move Right from the (4, 4) of the board, it goes out of bounds".to_string())
    );
    assert_eq!(
        Point::new(0, 0).next_point(Direction::Down, 0),
        Err("Cannot move Down from the (0, 0) of the board, it goes out of bounds".to_string())
    );
}

#[test]
fn output_directory_loses_its_slashes() {
    assert_eq!(format_out_path("/out//"), "./out/".to_string());
    assert_eq!(format_out_path("a/b"), "./a/b/".to_string());
    assert_eq!(format_out_path(""), ".//".to_string());
}

#[test]
fn arguments_give_paths_and_start() {
    let args: Vec<String> = ["/mazes/one.txt", "out/", "3", "+4"]
        .iter()
        .map(|s| s.to_string())
        .collect();
    assert_eq!(
        validate_args(&args),
        Ok((
            "./mazes/one.txt".to_string(),
            "./out/one.txt".to_string(),
            Point::new(3, 4)
        ))
    );
    let short: Vec<String> = vec!["a".to_string()];
    assert_eq!(
        validate_args(&short),
        Err(InputError::InvalidInput(
            "incorrect number of arguments provided, need 4 got 1".to_string()
        ))
    );
    let bad: Vec<String> = ["m", "o", "-1", "2"].iter().map(|s| s.to_string()).collect();
    assert_eq!(
        validate_args(&bad),
        Err(InputError::InvalidInput(
            "invalid starting point, x and y should be positive numbers".to_string()
        ))
    );
}

#[test]
fn playing_again_from_the_same_bomb_changes_nothing() {
    let mut game = Bomberman::new("B2 F2 _\n_ R _\nB1 _ F1\n".to_string()).unwrap();
    let first = game.play(Point::new(0, 0)).unwrap();
    assert_eq!(first, "_ F1 _\n_ R _\n_ _ F1\n".to_string());
    let second = game.play(Point::new(0, 0)).unwrap();
    assert_eq!(second, first);
}

#[test]
fn blast_size_is_bounded_by_reach_and_maze() {
    let mut small = bomb(BombType::Normal, 0, 0, 1);
    assert_eq!(small.explode(5, &[]).len(), 3);
    let mut large = bomb(BombType::Penetrating, 1, 1, 50);
    let points = large.explode(3, &[]);
    assert_eq!(points.len(), 5);
    assert!(points.len() <= 3 * 3);
}

#[test]
fn single_redirection_ray_turns_for_its_remaining_steps() {
    let mut b = bomb(BombType::Normal, 1, 3, 4);
    let obstacles = vec![Obstacle::new("DR".to_string(), Point::new(1, 1)).unwrap()];
    let points = b.explode(5, &obstacles);
    assert_eq!(
        sorted(points),
        sorted(vec![
            Point::new(1, 3),
            Point::new(1, 2),
            Point::new(1, 1),
            Point::new(2, 1),
            Point::new(3, 1),
            Point::new(1, 4),
            Point::new(0, 3),
            Point::new(2, 3),
            Point::new(3, 3),
            Point::new(4, 3),
        ])
    );
}

#[test]
fn plain_maze_text_is_drawn_back_unchanged() {
    let text = "F3 _ DU\nB12 W S1\n_ R F1\n";
    let game = Bomberman::new(text.to_string()).unwrap();
    assert_eq!(game.to_string(), text.to_string());
}
