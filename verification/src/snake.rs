//! The tick-by-tick decision rules of the game: how a requested turn is
//! filtered, how the cached autopilot path is consumed, and what one
//! movement step does to the grid and the snake.  The surrounding event
//! loop only performs these decisions' effects.

use vstd::prelude::*;

pub use crate::game::{generate_successors, next_point};

verus! {

use crate::game::{set_tile, snake_direction};
use crate::path::dir_between;
use crate::reach::{grid_view, grid_wf, height, in_bounds, step_x, step_y};
use crate::types::{Direction, Grid, Point, Snake, Tile};

/// The snake may not advance faster than one step per this many
/// milliseconds.
pub const MIN_INTERVAL: i64 = 30;

/// The game's settings, as chosen on the command line.
pub struct Config {
    pub autopilot: bool,
    pub arcade: bool,
    pub grid_width: u16,
    pub grid_height: u16,
    pub fit_grid: bool,
    pub no_obstacles: bool,
    pub interval: u16,
}

/// What one movement step decided: the snake crashed into the given
/// cell, ate food there, or moved onto a free cell while vacating its
/// tail cell.
pub enum StepOutcome {
    Crashed(Point),
    Ate(Point),
    Moved(Point, Point),
}

/// Filters a requested turn: the snake cannot reverse direction, so a
/// request opposite to its current heading is discarded.
pub fn apply_direction_change(snake: &Snake, current: Direction, requested: Direction) -> (r:
    Direction)
    requires
        snake@.len() >= 2,
    ensures
        r == (if requested == dir_between(snake@[1], snake@[0]).opposite_spec() {
            current
        } else {
            requested
        }),
{
    let current_direction = snake_direction(snake);
    if requested == current_direction.opposite() {
        current
    } else {
        requested
    }
}

/// Takes the next move off the cached path, or keeps the current
/// heading when the path is exhausted.
pub fn next_move(path: &mut Vec<Direction>, current: Direction) -> (r: Direction)
    ensures
        old(path)@.len() > 0 ==> final(path)@ == old(path)@.drop_last() && r == old(path)@.last(),
        old(path)@.len() == 0 ==> final(path)@ == old(path)@ && r == current,
{
    match path.pop() {
        Some(d) => d,
        None => current,
    }
}

/// Advances the snake one step in the given direction.  A step onto an
/// obstacle or the snake's own body marks the cell crashed and leaves
/// the snake unchanged; a step onto food grows the snake by its new
/// head; a step onto a free cell moves the snake, vacating its tail
/// cell.
pub fn advance(grid: &mut Grid, snake: &mut Snake, direction: Direction) -> (r: StepOutcome)
    requires
        grid_wf(grid_view(old(grid))),
        old(snake)@.len() >= 1,
        in_bounds(grid_view(old(grid)), old(snake)@[0].0 as int, old(snake)@[0].1 as int),
        in_bounds(
            grid_view(old(grid)),
            step_x(old(snake)@[0].0 as int, direction),
            step_y(old(snake)@[0].1 as int, direction),
        ),
        grid_view(old(grid))[step_x(old(snake)@[0].0 as int, direction)][step_y(
            old(snake)@[0].1 as int,
            direction,
        )] != Tile::Crash,
        in_bounds(
            grid_view(old(grid)),
            old(snake)@.last().0 as int,
            old(snake)@.last().1 as int,
        ),
    ensures
        ({
            let g0 = grid_view(old(grid));
            let hx = step_x(old(snake)@[0].0 as int, direction);
            let hy = step_y(old(snake)@[0].1 as int, direction);
            match r {
                StepOutcome::Crashed(q) => {
                    &&& q.0 == hx && q.1 == hy
                    &&& g0[hx][hy] == Tile::Obstacle || g0[hx][hy] == Tile::Snake
                    &&& grid_view(final(grid)) =~= g0.update(hx, g0[hx].update(hy, Tile::Crash))
                    &&& final(snake)@ == old(snake)@
                },
                StepOutcome::Ate(q) => {
                    &&& q.0 == hx && q.1 == hy
                    &&& g0[hx][hy] == Tile::Food
                    &&& grid_view(final(grid)) =~= g0.update(hx, g0[hx].update(hy, Tile::Snake))
                    &&& final(snake)@ == seq![q] + old(snake)@
                },
                StepOutcome::Moved(q, tail) => {
                    &&& q.0 == hx && q.1 == hy
                    &&& g0[hx][hy] == Tile::Free
                    &&& tail == old(snake)@.last()
                    &&& final(snake)@ == (seq![q] + old(snake)@).drop_last()
                    &&& grid_view(final(grid)) =~= ({
                        let g1 = g0.update(hx, g0[hx].update(hy, Tile::Snake));
                        g1.update(
                            tail.0 as int,
                            g1[tail.0 as int].update(tail.1 as int, Tile::Free),
                        )
                    })
                },
            }
        }),
{
    let ghost g0 = grid_view(grid);
    let head = snake[0];
    proof {
        assert(grid.len() == grid@.len());
        assert(grid@[0].len() == grid@[0]@.len());
        assert(grid_view(grid)[0] == grid@[0]@);
    }
    let p = next_point(head, direction);
    proof {
        assert(grid_view(grid)[p.0 as int] == grid@[p.0 as int]@);
        assert(grid_view(grid)[p.0 as int].len() == height(grid_view(grid)));
    }
    let t = grid[p.0][p.1];
    match t {
        Tile::Obstacle | Tile::Snake => {
            set_tile(grid, p.0, p.1, Tile::Crash);
            StepOutcome::Crashed(p)
        }
        Tile::Food => {
            snake.push_front(p);
            set_tile(grid, p.0, p.1, Tile::Snake);
            StepOutcome::Ate(p)
        }
        Tile::Free => {
            snake.push_front(p);
            set_tile(grid, p.0, p.1, Tile::Snake);
            let ghost g1 = grid_view(grid);
            let tail = match snake.pop_back() {
                Some(q) => q,
                None => p,
            };
            proof {
                assert(grid_wf(g1));
                assert(tail == old(snake)@.last());
            }
            set_tile(grid, tail.0, tail.1, Tile::Free);
            StepOutcome::Moved(p, tail)
        }
        Tile::Crash => {
            proof {
                assert(false);
            }
            StepOutcome::Crashed(p)
        }
    }
}

} // verus!
