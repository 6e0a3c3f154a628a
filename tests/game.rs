use bomberman::bomberman::Bomberman;
use bomberman::errors::BombermanError;
use bomberman::point::Point;

#[test]
fn test_enemy_is_hit_with_redirection() {
    let input = "_ F2 DL\n_ _ _\n_ _ B8\n".to_string();
    let result = "_ F1 DL\n_ _ _\n_ _ _\n".to_string();
    let mut game = Bomberman::new(input).unwrap();
    let board = game.play(Point::new(2, 2)).unwrap();
    assert_eq!(result, board);
}

#[test]
fn test_enemy_is_not_hit_twice_by_same_bomb() {
    let input = "B5 F2 DL\n _ _ _\n_ _ _\n".to_string();
    let result = "_ F1 DL\n_ _ _\n_ _ _\n".to_string();
    let mut game = Bomberman::new(input).unwrap();
    let board = game.play(Point::new(0, 0)).unwrap();
    assert_eq!(result, board);
}

#[test]
fn test_bomb_explodes_other_bomb() {
    let input = "B5 B2\n_ _\n".to_string();
    let result = "_ _\n_ _\n".to_string();
    let mut game = Bomberman::new(input).unwrap();
    let board = game.play(Point::new(0, 0)).unwrap();
    assert_eq!(result, board);
}

#[test]
fn board_not_square_returns_error() {
    let input = "B5 B2\n_ _ _\n".to_string();
    let result = BombermanError::MazeNotSquare(
        "Maze has 2 lines and 3 columns, it should be equal".to_string(),
    );
    let game = Bomberman::new(input);
    assert_eq!(result, game.unwrap_err());
}

#[test]
fn invalid_square_returns_error() {
    let input = "X B2\n_ _ \n".to_string();
    let result =
        BombermanError::InvalidSquare("The square X at position (0, 0) is invalid".to_string());
    let game = Bomberman::new(input);
    assert_eq!(result, game.unwrap_err());
}
