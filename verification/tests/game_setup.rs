use snake::game::{
    create_grid, generate_successors, is_in_dead_end, next_point, random_direction,
    snake_direction, spawn_food, spawn_obstacles, spawn_snake,
};
use snake::types::{Direction, Tile};

#[test]
fn create_grid_walls_border_and_frees_interior() {
    let grid = create_grid(5, 4);
    assert_eq!(grid.len(), 5);
    for (x, column) in grid.iter().enumerate() {
        assert_eq!(column.len(), 4);
        for (y, tile) in column.iter().enumerate() {
            if x == 0 || y == 0 || x == 4 || y == 3 {
                assert_eq!(*tile, Tile::Obstacle);
            } else {
                assert_eq!(*tile, Tile::Free);
            }
        }
    }
}

#[test]
fn next_point_steps_one_cell() {
    assert_eq!(next_point((3, 3), Direction::North), (3, 2));
    assert_eq!(next_point((3, 3), Direction::South), (3, 4));
    assert_eq!(next_point((3, 3), Direction::West), (2, 3));
    assert_eq!(next_point((3, 3), Direction::East), (4, 3));
}

#[test]
fn successors_come_in_canonical_order() {
    let grid = vec![vec![Tile::Free; 3]; 3];
    assert_eq!(
        generate_successors((1, 1), &grid),
        vec![(0, 1), (2, 1), (1, 2), (1, 0)]
    );
    assert_eq!(generate_successors((0, 0), &grid), vec![(1, 0), (0, 1)]);
    assert_eq!(generate_successors((2, 2), &grid), vec![(1, 2), (2, 1)]);
}

#[test]
fn snake_direction_reads_head_pair() {
    let mut snake = std::collections::VecDeque::new();
    snake.push_front((4, 4));
    snake.push_front((5, 4));
    assert_eq!(snake_direction(&snake), Direction::East);
    let mut up = std::collections::VecDeque::new();
    up.push_front((4, 4));
    up.push_front((4, 3));
    assert_eq!(snake_direction(&up), Direction::North);
}

#[test]
fn random_direction_is_a_direction() {
    let d = random_direction();
    assert!(matches!(
        d,
        Direction::North | Direction::South | Direction::West | Direction::East
    ));
}

#[test]
fn spawn_food_lands_inside_on_free_cell() {
    let mut grid = create_grid(10, 10);
    let (x, y) = spawn_food(&mut grid);
    assert!(x > 1 && x < 8);
    assert!(y > 1 && y < 8);
    assert_eq!(grid[x][y], Tile::Food);
}

#[test]
fn spawn_snake_places_two_adjacent_cells() {
    let mut grid = create_grid(14, 14);
    let snake = spawn_snake(&mut grid);
    assert_eq!(snake.len(), 2);
    let head = snake[0];
    let body = snake[1];
    let dx = head.0.abs_diff(body.0);
    let dy = head.1.abs_diff(body.1);
    assert_eq!(dx + dy, 1);
    assert!(body.0 > 4 && body.0 < 9);
    assert!(body.1 > 4 && body.1 < 9);
    assert_eq!(grid[body.0][body.1], Tile::Snake);
}

#[test]
fn spawn_obstacles_only_fills_free_cells() {
    let mut grid = create_grid(12, 12);
    let before = grid.clone();
    spawn_obstacles(&mut grid, 4);
    let mut changed = 0;
    for x in 0..12usize {
        for y in 0..12usize {
            if grid[x][y] != before[x][y] {
                assert_eq!(before[x][y], Tile::Free);
                assert_eq!(grid[x][y], Tile::Obstacle);
                changed += 1;
                // No free neighbor of a placed obstacle may be boxed
                // into a dead end.
                let neighbors = [
                    (x.wrapping_sub(1), y),
                    (x + 1, y),
                    (x, y + 1),
                    (x, y.wrapping_sub(1)),
                ];
                for (nx, ny) in neighbors {
                    if nx < 12 && ny < 12 && grid[nx][ny] == Tile::Free {
                        assert!(!is_in_dead_end(&grid, (nx, ny)));
                    }
                }
            }
        }
    }
    assert!(changed <= 5);
}
