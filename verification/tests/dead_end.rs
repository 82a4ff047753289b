use snake::game::is_in_dead_end;
use snake::types::Tile;

#[test]
fn game_is_dead_end_empty() {
    let grid = vec![vec![Tile::Free; 3]; 3];
    assert!(!is_in_dead_end(&grid, (0, 0)));
    assert!(!is_in_dead_end(&grid, (1, 1)));
}

#[test]
fn game_is_dead_end_with_obstacle() {
    let mut grid = vec![vec![Tile::Free; 3]; 3];

    // obstacle
    grid[0][0] = Tile::Obstacle;
    grid[2][0] = Tile::Obstacle;

    // true
    assert!(is_in_dead_end(&grid, (1, 0)));

    // false
    assert!(!is_in_dead_end(&grid, (0, 1)));
    assert!(!is_in_dead_end(&grid, (0, 2)));
    assert!(!is_in_dead_end(&grid, (1, 1)));
    assert!(!is_in_dead_end(&grid, (1, 2)));
    assert!(!is_in_dead_end(&grid, (2, 1)));
    assert!(!is_in_dead_end(&grid, (2, 2)));
}

#[test]
fn game_is_dead_end_with_obstacle_and_border() {
    let mut grid = vec![vec![Tile::Free; 4]; 4];

    // border
    grid[0][0] = Tile::Obstacle;
    grid[1][0] = Tile::Obstacle;
    grid[2][0] = Tile::Obstacle;
    grid[3][0] = Tile::Obstacle;
    grid[0][3] = Tile::Obstacle;
    grid[1][3] = Tile::Obstacle;
    grid[2][3] = Tile::Obstacle;
    grid[3][3] = Tile::Obstacle;
    grid[0][1] = Tile::Obstacle;
    grid[0][2] = Tile::Obstacle;
    grid[3][1] = Tile::Obstacle;
    grid[3][2] = Tile::Obstacle;
    // obstacle
    grid[1][1] = Tile::Obstacle;
    grid[3][1] = Tile::Obstacle;

    // true
    assert!(is_in_dead_end(&grid, (2, 1)));

    // false
    assert!(!is_in_dead_end(&grid, (2, 2)));
}

#[test]
fn snake_is_dead_end_empty() {
    let grid = vec![vec![Tile::Free; 3]; 3];
    assert!(!is_in_dead_end(&grid, (0, 0)));
    assert!(!is_in_dead_end(&grid, (1, 1)));
}

#[test]
fn snake_is_dead_end_with_obstacle() {
    let mut grid = vec![vec![Tile::Free; 3]; 3];

    // obstacle
    grid[0][0] = Tile::Obstacle;
    grid[2][0] = Tile::Obstacle;

    // true
    assert!(is_in_dead_end(&grid, (1, 0)));

    // false
    assert!(!is_in_dead_end(&grid, (0, 1)));
    assert!(!is_in_dead_end(&grid, (0, 2)));
    assert!(!is_in_dead_end(&grid, (1, 1)));
    assert!(!is_in_dead_end(&grid, (1, 2)));
    assert!(!is_in_dead_end(&grid, (2, 1)));
    assert!(!is_in_dead_end(&grid, (2, 2)));
}

#[test]
fn snake_is_dead_end_with_obstacle_and_border() {
    let mut grid = vec![vec![Tile::Free; 4]; 4];

    // border
    grid[0][0] = Tile::Obstacle;
    grid[1][0] = Tile::Obstacle;
    grid[2][0] = Tile::Obstacle;
    grid[3][0] = Tile::Obstacle;
    grid[0][3] = Tile::Obstacle;
    grid[1][3] = Tile::Obstacle;
    grid[2][3] = Tile::Obstacle;
    grid[3][3] = Tile::Obstacle;
    grid[0][1] = Tile::Obstacle;
    grid[0][2] = Tile::Obstacle;
    grid[3][1] = Tile::Obstacle;
    grid[3][2] = Tile::Obstacle;
    // obstacle
    grid[1][1] = Tile::Obstacle;
    grid[3][1] = Tile::Obstacle;

    // true
    assert!(is_in_dead_end(&grid, (2, 1)));

    // false
    assert!(!is_in_dead_end(&grid, (2, 2)));
}
