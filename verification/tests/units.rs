use snake::cli::{grid_height_in_range, grid_width_in_range, parse_u16, CliError};
use snake::input::{decode_key, Input, Key};
use snake::output::{max_grid_size, Screen};
use snake::path::{blocked_tile, get_direction, manhatten_distance};
use snake::snake::{advance, apply_direction_change, next_move, StepOutcome};
use snake::types::{Direction, Tile};

#[test]
fn opposite_is_involutive() {
    for d in [
        Direction::North,
        Direction::South,
        Direction::West,
        Direction::East,
    ] {
        assert_eq!(d.opposite().opposite(), d);
    }
    assert_eq!(Direction::North.opposite(), Direction::South);
    assert_eq!(Direction::West.opposite(), Direction::East);
}

#[test]
fn manhatten_distance_is_coordinate_difference_sum() {
    assert_eq!(manhatten_distance((0, 0), (2, 0)), 2);
    assert_eq!(manhatten_distance((5, 7), (2, 9)), 5);
    assert_eq!(manhatten_distance((4, 4), (4, 4)), 0);
}

#[test]
fn blocked_tile_accepts_free_and_food_only() {
    let mut grid = vec![vec![Tile::Free; 2]; 5];
    grid[1][0] = Tile::Snake;
    grid[2][0] = Tile::Food;
    grid[3][0] = Tile::Obstacle;
    grid[4][0] = Tile::Crash;
    assert!(!blocked_tile(&grid, (0, 0)));
    assert!(blocked_tile(&grid, (1, 0)));
    assert!(!blocked_tile(&grid, (2, 0)));
    assert!(blocked_tile(&grid, (3, 0)));
    assert!(blocked_tile(&grid, (4, 0)));
}

#[test]
fn get_direction_compares_coordinates() {
    assert_eq!(get_direction((1, 1), (2, 1)), Direction::East);
    assert_eq!(get_direction((1, 1), (0, 1)), Direction::West);
    assert_eq!(get_direction((1, 1), (1, 2)), Direction::South);
    assert_eq!(get_direction((1, 1), (1, 0)), Direction::North);
}

#[test]
fn parse_u16_accepts_digit_runs() {
    assert_eq!(parse_u16("0"), Some(0));
    assert_eq!(parse_u16("175"), Some(175));
    assert_eq!(parse_u16("65535"), Some(65535));
    assert_eq!(parse_u16("+20"), Some(20));
    assert_eq!(parse_u16("65536"), None);
    assert_eq!(parse_u16(""), None);
    assert_eq!(parse_u16("12a"), None);
    assert_eq!(parse_u16("+"), None);
    assert_eq!(parse_u16("++5"), None);
    assert_eq!(parse_u16("-5"), None);
}

#[test]
fn grid_width_range_check() {
    assert_eq!(grid_width_in_range("20", 40), Ok(20));
    assert_eq!(grid_width_in_range("+20", 40), Ok(20));
    assert_eq!(grid_width_in_range("11", 40), Err(CliError::OutOfRange));
    assert_eq!(grid_width_in_range("41", 40), Err(CliError::OutOfRange));
    assert_eq!(grid_width_in_range("wide", 40), Err(CliError::NotANumber));
    assert_eq!(grid_width_in_range("99999", 40), Err(CliError::NotANumber));
}

#[test]
fn grid_height_range_check() {
    assert_eq!(grid_height_in_range("15", 30), Ok(15));
    assert_eq!(grid_height_in_range("+15", 30), Ok(15));
    assert_eq!(grid_height_in_range("10", 30), Err(CliError::OutOfRange));
    assert_eq!(grid_height_in_range("31", 30), Err(CliError::OutOfRange));
    assert_eq!(grid_height_in_range("x", 30), Err(CliError::NotANumber));
}

#[test]
fn screen_centers_grid() {
    let s = Screen::new(20, 15, 80, 24);
    assert_eq!(s.width(), 20);
    assert_eq!(s.x_adjust(), 20);
    assert_eq!(s.y_adjust(), 5);
    assert_eq!(s.text_right_x(10), 50);
}

#[test]
fn max_grid_size_halves_columns() {
    assert_eq!(max_grid_size(80, 24), (40, 23));
    assert_eq!(max_grid_size(81, 1), (40, 0));
}

#[test]
fn decode_key_maps_controls() {
    assert_eq!(decode_key(Key::Esc), Input::Exit);
    assert_eq!(decode_key(Key::Char('q')), Input::Exit);
    assert_eq!(
        decode_key(Key::Up),
        Input::ChangeDirection(Direction::North)
    );
    assert_eq!(
        decode_key(Key::Left),
        Input::ChangeDirection(Direction::West)
    );
    assert_eq!(decode_key(Key::Char(' ')), Input::Pause);
    assert_eq!(decode_key(Key::Char('+')), Input::IncreaseSpeed);
    assert_eq!(decode_key(Key::Char('-')), Input::DecreaseSpeed);
    assert_eq!(decode_key(Key::Char('z')), Input::Unknown);
    assert_eq!(decode_key(Key::Other), Input::Unknown);
}

#[test]
fn direction_change_refuses_reversal() {
    let mut snake = std::collections::VecDeque::new();
    snake.push_front((4, 4));
    snake.push_front((5, 4)); // heading east
    assert_eq!(
        apply_direction_change(&snake, Direction::East, Direction::West),
        Direction::East
    );
    assert_eq!(
        apply_direction_change(&snake, Direction::East, Direction::North),
        Direction::North
    );
}

#[test]
fn next_move_pops_from_the_end() {
    let mut path = vec![Direction::North, Direction::East];
    assert_eq!(next_move(&mut path, Direction::South), Direction::East);
    assert_eq!(next_move(&mut path, Direction::South), Direction::North);
    assert_eq!(next_move(&mut path, Direction::South), Direction::South);
    assert!(path.is_empty());
}

#[test]
fn advance_moves_onto_free_cell() {
    let mut grid = vec![vec![Tile::Free; 4]; 4];
    grid[1][1] = Tile::Snake;
    grid[1][2] = Tile::Snake;
    let mut snake = std::collections::VecDeque::new();
    snake.push_front((1, 2));
    snake.push_front((1, 1));
    match advance(&mut grid, &mut snake, Direction::North) {
        StepOutcome::Moved(head, tail) => {
            assert_eq!(head, (1, 0));
            assert_eq!(tail, (1, 2));
        }
        _ => panic!("expected a plain move"),
    }
    assert_eq!(grid[1][0], Tile::Snake);
    assert_eq!(grid[1][2], Tile::Free);
    assert_eq!(snake.len(), 2);
    assert_eq!(snake[0], (1, 0));
}

#[test]
fn advance_grows_on_food() {
    let mut grid = vec![vec![Tile::Free; 4]; 4];
    grid[1][1] = Tile::Snake;
    grid[2][1] = Tile::Food;
    let mut snake = std::collections::VecDeque::new();
    snake.push_front((1, 1));
    match advance(&mut grid, &mut snake, Direction::East) {
        StepOutcome::Ate(p) => assert_eq!(p, (2, 1)),
        _ => panic!("expected the snake to eat"),
    }
    assert_eq!(grid[2][1], Tile::Snake);
    assert_eq!(snake.len(), 2);
}

#[test]
fn advance_crashes_on_obstacle() {
    let mut grid = vec![vec![Tile::Free; 4]; 4];
    grid[1][1] = Tile::Snake;
    grid[0][1] = Tile::Obstacle;
    let mut snake = std::collections::VecDeque::new();
    snake.push_front((1, 1));
    match advance(&mut grid, &mut snake, Direction::West) {
        StepOutcome::Crashed(p) => assert_eq!(p, (0, 1)),
        _ => panic!("expected a crash"),
    }
    assert_eq!(grid[0][1], Tile::Crash);
    assert_eq!(snake.len(), 1);
}
