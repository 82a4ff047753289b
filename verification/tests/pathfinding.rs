use snake::path::{best_straight_path, find};
use snake::types::{Direction, Tile};

#[test]
fn solve_path_simple() {
    let mut grid = vec![vec![Tile::Free; 3]; 3];
    grid[2][0] = Tile::Food;
    assert_eq!(
        find(&grid, (0, 0), (2, 0)),
        vec![Direction::East, Direction::East]
    )
}

#[test]
fn solve_path_with_obstacle() {
    let mut grid = vec![vec![Tile::Free; 3]; 3];
    grid[1][0] = Tile::Obstacle;
    grid[1][1] = Tile::Obstacle;
    grid[2][0] = Tile::Food;
    assert_eq!(
        find(&grid, (0, 0), (2, 0)),
        vec![
            Direction::North,
            Direction::North,
            Direction::East,
            Direction::East,
            Direction::South,
            Direction::South,
        ]
    )
}

#[test]
fn solve_path_with_obstacle_reverse() {
    let mut grid = vec![vec![Tile::Free; 3]; 3];
    grid[1][1] = Tile::Obstacle;
    grid[1][2] = Tile::Obstacle;
    grid[0][2] = Tile::Food;
    assert_eq!(
        find(&grid, (2, 2), (0, 2)),
        vec![
            Direction::South,
            Direction::South,
            Direction::West,
            Direction::West,
            Direction::North,
            Direction::North,
        ]
    )
}

#[test]
fn best_straight_path_none() {
    let mut grid = vec![vec![Tile::Free; 3]; 3];
    grid[0][1] = Tile::Obstacle;
    grid[1][0] = Tile::Obstacle;
    assert_eq!(best_straight_path(&grid, (0, 0)), vec![])
}

#[test]
fn best_straight_path_east() {
    let mut grid = vec![vec![Tile::Free; 9]; 9];
    grid[4][3] = Tile::Obstacle;
    grid[6][4] = Tile::Obstacle;
    grid[4][7] = Tile::Obstacle;
    grid[0][4] = Tile::Obstacle;
    assert_eq!(best_straight_path(&grid, (4, 4)), vec![Direction::West])
}

#[test]
fn straight_row_gives_all_east() {
    let mut grid = vec![vec![Tile::Free; 3]; 5];
    grid[4][1] = Tile::Food;
    let path = find(&grid, (0, 1), (4, 1));
    assert_eq!(path.len(), 4);
    assert!(path.iter().all(|d| *d == Direction::East));
}

#[test]
fn straight_column_gives_all_north() {
    let mut grid = vec![vec![Tile::Free; 6]; 3];
    grid[1][0] = Tile::Food;
    let path = find(&grid, (1, 5), (1, 0));
    assert_eq!(path.len(), 5);
    assert!(path.iter().all(|d| *d == Direction::North));
}

#[test]
fn clear_diagonal_matches_manhattan_composition() {
    let mut grid = vec![vec![Tile::Free; 4]; 4];
    grid[2][2] = Tile::Food;
    let path = find(&grid, (0, 0), (2, 2));
    assert_eq!(path.len(), 4);
    let east = path.iter().filter(|d| **d == Direction::East).count();
    let south = path.iter().filter(|d| **d == Direction::South).count();
    let west = path.iter().filter(|d| **d == Direction::West).count();
    let north = path.iter().filter(|d| **d == Direction::North).count();
    assert_eq!(east, 2);
    assert_eq!(south, 2);
    assert_eq!(west, 0);
    assert_eq!(north, 0);
}

#[test]
fn detour_length_at_least_manhattan() {
    let mut grid = vec![vec![Tile::Free; 3]; 3];
    grid[1][0] = Tile::Obstacle;
    grid[1][1] = Tile::Obstacle;
    grid[2][0] = Tile::Food;
    let path = find(&grid, (0, 0), (2, 0));
    assert!(path.len() >= 2);
    assert_eq!(path.len(), 6);
}

#[test]
fn repeated_search_is_deterministic() {
    let mut grid = vec![vec![Tile::Free; 7]; 7];
    grid[3][2] = Tile::Obstacle;
    grid[2][3] = Tile::Obstacle;
    grid[5][5] = Tile::Food;
    let first = find(&grid, (1, 1), (5, 5));
    let second = find(&grid, (1, 1), (5, 5));
    assert_eq!(first.len(), second.len());
    assert_eq!(first, second);
}

#[test]
fn enclosed_start_returns_empty() {
    let mut grid = vec![vec![Tile::Free; 3]; 3];
    grid[0][1] = Tile::Obstacle;
    grid[1][0] = Tile::Obstacle;
    grid[2][0] = Tile::Food;
    assert_eq!(find(&grid, (0, 0), (2, 0)), vec![]);
}

#[test]
fn single_exit_returns_that_step() {
    // The start at the south-west corner has its only open neighbor to
    // the east, and the food is sealed off behind obstacles.
    let mut grid = vec![vec![Tile::Free; 3]; 4];
    grid[0][1] = Tile::Obstacle;
    grid[2][0] = Tile::Obstacle;
    grid[2][1] = Tile::Obstacle;
    grid[2][2] = Tile::Obstacle;
    grid[3][0] = Tile::Food;
    assert_eq!(find(&grid, (0, 0), (3, 0)), vec![Direction::East]);
}

#[test]
fn start_equals_target_returns_empty() {
    let grid = vec![vec![Tile::Free; 3]; 3];
    assert_eq!(find(&grid, (1, 1), (1, 1)), vec![]);
}

#[test]
fn fallback_prefers_longest_corridor() {
    // The target cell is walled, so no route exists.  Corridors out of
    // (1, 1): west 1, east 3, south 0, north 0; the fallback must pick
    // the single step east.
    let mut grid = vec![vec![Tile::Free; 3]; 6];
    grid[1][0] = Tile::Obstacle;
    grid[0][2] = Tile::Obstacle;
    grid[1][2] = Tile::Obstacle;
    grid[2][2] = Tile::Obstacle;
    grid[3][2] = Tile::Obstacle;
    grid[4][2] = Tile::Obstacle;
    grid[5][2] = Tile::Obstacle;
    grid[5][0] = Tile::Obstacle;
    grid[5][1] = Tile::Obstacle;
    assert_eq!(find(&grid, (1, 1), (0, 2)), vec![Direction::East]);
}

#[test]
fn checked_search_rejects_out_of_bounds() {
    let mut grid = vec![vec![Tile::Free; 3]; 3];
    grid[2][0] = Tile::Food;
    assert_eq!(
        snake::path::find_checked(&grid, (0, 3), (2, 0)),
        Err(snake::path::PathError::InvalidCoordinate)
    );
    assert_eq!(
        snake::path::find_checked(&grid, (0, 0), (3, 0)),
        Err(snake::path::PathError::InvalidCoordinate)
    );
    assert_eq!(
        snake::path::find_checked(&grid, (0, 0), (2, 0)),
        Ok(vec![Direction::East, Direction::East])
    );
}
