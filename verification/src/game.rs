//! Grid setup and adjacency queries used by the game loop and the
//! pathfinder.

use vstd::prelude::*;

verus! {

use crate::path::dir_between;
use crate::reach::{grid_view, grid_wf, height, in_bounds, manhattan, step_x, step_y, width};
use crate::types::{Direction, Grid, Point, Snake, Tile};

/// The up-to-four in-bounds orthogonal neighbors of `p`, in the fixed
/// canonical order West, East, South, North.
pub open spec fn successors_spec(g: Seq<Seq<crate::types::Tile>>, p: Point) -> Seq<Point> {
    let ws = if p.0 > 0 {
        seq![(((p.0 - 1) as usize), p.1)]
    } else {
        Seq::<Point>::empty()
    };
    let es = if p.0 + 1 < width(g) {
        seq![(((p.0 + 1) as usize), p.1)]
    } else {
        Seq::<Point>::empty()
    };
    let ss = if p.1 + 1 < height(g) {
        seq![(p.0, ((p.1 + 1) as usize))]
    } else {
        Seq::<Point>::empty()
    };
    let ns = if p.1 > 0 {
        seq![(p.0, ((p.1 - 1) as usize))]
    } else {
        Seq::<Point>::empty()
    };
    ws + es + ss + ns
}

/// Every in-bounds neighbor of `p` occurs among its successors.
pub proof fn lemma_successors_complete(g: Seq<Seq<crate::types::Tile>>, p: Point, d: Direction)
    requires
        width(g) <= usize::MAX,
        height(g) <= usize::MAX,
        in_bounds(g, p.0 as int, p.1 as int),
        in_bounds(g, step_x(p.0 as int, d), step_y(p.1 as int, d)),
    ensures
        exists|i: int|
            #![trigger successors_spec(g, p)[i]]
            0 <= i < successors_spec(g, p).len() && successors_spec(g, p)[i].0 == step_x(
                p.0 as int,
                d,
            ) && successors_spec(g, p)[i].1 == step_y(p.1 as int, d),
{
    let s = successors_spec(g, p);
    let nw: int = if p.0 > 0 { 1 } else { 0 };
    let ne: int = if p.0 + 1 < width(g) { 1 } else { 0 };
    let ns: int = if p.1 + 1 < height(g) { 1 } else { 0 };
    assert(s.len() == nw + ne + ns + if p.1 > 0 { 1int } else { 0int });
    match d {
        Direction::West => {
            assert(s[0] == (((p.0 - 1) as usize), p.1));
            assert(s[0].0 == step_x(p.0 as int, d) && s[0].1 == step_y(p.1 as int, d));
        }
        Direction::East => {
            assert(s[nw] == (((p.0 + 1) as usize), p.1));
            assert(s[nw].0 == step_x(p.0 as int, d) && s[nw].1 == step_y(p.1 as int, d));
        }
        Direction::South => {
            assert(s[nw + ne] == (p.0, ((p.1 + 1) as usize)));
            assert(s[nw + ne].0 == step_x(p.0 as int, d) && s[nw + ne].1 == step_y(
                p.1 as int,
                d,
            ));
        }
        Direction::North => {
            assert(s[nw + ne + ns] == (p.0, ((p.1 - 1) as usize)));
            assert(s[nw + ne + ns].0 == step_x(p.0 as int, d) && s[nw + ne + ns].1 == step_y(
                p.1 as int,
                d,
            ));
        }
    }
}

/// A cell at Manhattan distance one is reached by exactly one step.
pub proof fn lemma_adjacent_dir(ax: int, ay: int, bx: int, by: int)
    requires
        manhattan(ax, ay, bx, by) == 1,
    ensures
        exists|d: Direction| bx == step_x(ax, d) && by == step_y(ay, d),
{
    if bx == ax + 1 {
        assert(bx == step_x(ax, Direction::East) && by == step_y(ay, Direction::East));
    } else if bx == ax - 1 {
        assert(bx == step_x(ax, Direction::West) && by == step_y(ay, Direction::West));
    } else if by == ay + 1 {
        assert(bx == step_x(ax, Direction::South) && by == step_y(ay, Direction::South));
    } else {
        assert(bx == step_x(ax, Direction::North) && by == step_y(ay, Direction::North));
    }
}

/// Returns the next point in the given direction.
pub fn next_point(p: Point, direction: Direction) -> (r: Point)
    requires
        0 <= step_x(p.0 as int, direction) <= usize::MAX,
        0 <= step_y(p.1 as int, direction) <= usize::MAX,
    ensures
        r.0 == step_x(p.0 as int, direction),
        r.1 == step_y(p.1 as int, direction),
{
    let (x, y) = p;
    match direction {
        Direction::North => (x, y - 1),
        Direction::South => (x, y + 1),
        Direction::West => (x - 1, y),
        Direction::East => (x + 1, y),
    }
}

/// Generates all valid successors of a point: the orthogonally adjacent
/// points that lie within grid bounds, in the order West, East, South,
/// North.
pub fn generate_successors(p: Point, grid: &Grid) -> (r: Vec<Point>)
    requires
        grid_wf(grid_view(grid)),
        in_bounds(grid_view(grid), p.0 as int, p.1 as int),
    ensures
        r@ == successors_spec(grid_view(grid), p),
        forall|i: int|
            0 <= i < r@.len() ==> in_bounds(
                grid_view(grid),
                #[trigger] r@[i].0 as int,
                r@[i].1 as int,
            ) && manhattan(p.0 as int, p.1 as int, r@[i].0 as int, r@[i].1 as int) == 1,
{
    let ghost g = grid_view(grid);
    let mut successors: Vec<Point> = Vec::new();
    let (x, y) = p;
    let w = grid.len();
    let h = grid[0].len();

    if x > 0 {
        successors.push((x - 1, y));
    }
    if x + 1 < w {
        successors.push((x + 1, y));
    }
    if y + 1 < h {
        successors.push((x, y + 1));
    }
    if y > 0 {
        successors.push((x, y - 1));
    }

    proof {
        assert(successors@ =~= successors_spec(g, p));
    }
    successors
}

/// Writes one tile of the grid.
pub(crate) fn set_tile(g: &mut Grid, x: usize, y: usize, t: Tile)
    requires
        grid_wf(grid_view(old(g))),
        in_bounds(grid_view(old(g)), x as int, y as int),
    ensures
        grid_view(final(g)) =~= grid_view(old(g)).update(
            x as int,
            grid_view(old(g))[x as int].update(y as int, t),
        ),
        final(g)@.len() == old(g)@.len(),
        forall|i: int| 0 <= i < old(g)@.len() ==> (#[trigger] grid_view(final(g))[i]).len()
            == grid_view(old(g))[i].len(),
{
    proof {
        assert(grid_view(g)[x as int] == g@[x as int]@);
        assert(grid_view(g)[x as int].len() == height(grid_view(g)));
    }
    g[x][y] = t;
    proof {
        assert forall|i: int| 0 <= i < old(g)@.len() implies (#[trigger] grid_view(
            g,
        )[i]).len() == grid_view(old(g))[i].len() by {
            assert(grid_view(g)[i] == g@[i]@);
            assert(grid_view(old(g))[i] == old(g)@[i]@);
        }
    }
}

/// The cell lies on the outermost ring of the grid.
pub open spec fn border_cell(w: int, h: int, x: int, y: int) -> bool {
    x == 0 || y == 0 || x == w - 1 || y == h - 1
}

/// Creates a grid of the given size whose border is walled with
/// obstacles and whose interior is free.
pub fn create_grid(width: usize, height: usize) -> (r: Grid)
    requires
        width >= 1,
        height >= 1,
    ensures
        grid_wf(grid_view(&r)),
        grid_view(&r).len() == width,
        grid_view(&r)[0].len() == height,
        forall|x: int, y: int|
            0 <= x < width && 0 <= y < height ==> #[trigger] grid_view(&r)[x][y] == (
            if border_cell(width as int, height as int, x, y) {
                Tile::Obstacle
            } else {
                Tile::Free
            }),
{
    let mut grid: Grid = Vec::new();
    let mut x: usize = 0;
    while x < width
        invariant
            x <= width,
            width >= 1 && height >= 1,
            grid@.len() == x,
            forall|i: int| 0 <= i < x ==> (#[trigger] grid@[i])@.len() == height,
            forall|i: int, j: int|
                0 <= i < x && 0 <= j < height ==> #[trigger] grid@[i]@[j] == (if border_cell(
                    width as int,
                    height as int,
                    i,
                    j,
                ) {
                    Tile::Obstacle
                } else {
                    Tile::Free
                }),
        decreases width - x,
    {
        let mut row: Vec<Tile> = Vec::new();
        let mut y: usize = 0;
        while y < height
            invariant
                y <= height,
                x < width,
                width >= 1 && height >= 1,
                row@.len() == y,
                forall|j: int|
                    0 <= j < y ==> #[trigger] row@[j] == (if border_cell(
                        width as int,
                        height as int,
                        x as int,
                        j,
                    ) {
                        Tile::Obstacle
                    } else {
                        Tile::Free
                    }),
            decreases height - y,
        {
            if x == 0 || y == 0 || x == width - 1 || y == height - 1 {
                row.push(Tile::Obstacle);
            } else {
                row.push(Tile::Free);
            }
            y = y + 1;
        }
        grid.push(row);
        x = x + 1;
    }
    grid
}

/// The cell is inside the grid and free.
pub open spec fn is_free(g: Seq<Seq<Tile>>, x: int, y: int) -> bool {
    in_bounds(g, x, y) && g[x][y] == Tile::Free
}

/// How many of the four neighbors of a cell are free.
pub open spec fn free_neighbors(g: Seq<Seq<Tile>>, px: int, py: int) -> int {
    (if is_free(g, px - 1, py) {
        1int
    } else {
        0int
    }) + (if is_free(g, px + 1, py) {
        1int
    } else {
        0int
    }) + (if is_free(g, px, py + 1) {
        1int
    } else {
        0int
    }) + (if is_free(g, px, py - 1) {
        1int
    } else {
        0int
    })
}

/// Checks whether a point sits in a dead end: fewer than two of its
/// in-bounds neighbors are free.
pub fn is_in_dead_end(grid: &Grid, p: Point) -> (r: bool)
    requires
        grid_wf(grid_view(grid)),
        in_bounds(grid_view(grid), p.0 as int, p.1 as int),
    ensures
        r == (free_neighbors(grid_view(grid), p.0 as int, p.1 as int) < 2),
{
    let ghost g = grid_view(grid);
    let w = grid.len();
    proof {
        assert(grid_view(grid)[0] == grid@[0]@);
    }
    let h = grid[0].len();
    let mut free: usize = 0;
    if p.0 > 0 {
        if tile_is_free(grid, (p.0 - 1, p.1)) {
            free = free + 1;
        }
    }
    if p.0 + 1 < w {
        if tile_is_free(grid, (p.0 + 1, p.1)) {
            free = free + 1;
        }
    }
    if p.1 + 1 < h {
        if tile_is_free(grid, (p.0, p.1 + 1)) {
            free = free + 1;
        }
    }
    if p.1 > 0 {
        if tile_is_free(grid, (p.0, p.1 - 1)) {
            free = free + 1;
        }
    }
    free < 2
}

/// Reads whether one in-bounds cell holds a free tile.
fn tile_is_free(grid: &Grid, p: Point) -> (r: bool)
    requires
        grid_wf(grid_view(grid)),
        in_bounds(grid_view(grid), p.0 as int, p.1 as int),
    ensures
        r == is_free(grid_view(grid), p.0 as int, p.1 as int),
{
    proof {
        assert(grid_view(grid)[p.0 as int] == grid@[p.0 as int]@);
    }
    let t = grid[p.0][p.1];
    matches!(t, Tile::Free)
}

/// Relies on rand::Rng::gen_range on the thread-local generator over
/// the half-open range below `n`: the sample is less than `n`.
#[verifier::external_body]
fn random_below(n: usize) -> (r: usize)
    requires
        n > 0,
    ensures
        r < n,
{
    rand::Rng::gen_range(&mut rand::thread_rng(), 0..n)
}

/// The cell is free and lies strictly more than `dist` cells away from
/// every edge of the grid.
pub open spec fn qualifies(g: Seq<Seq<Tile>>, x: int, y: int, dist: int) -> bool {
    &&& dist < x < width(g) - dist - 1
    &&& dist < y < height(g) - dist - 1
    &&& g[x][y] == Tile::Free
}

/// Collects every free point at more than the given distance from the
/// grid edge, in scan order.
fn empty_points(grid: &Grid, distance: usize) -> (r: Vec<Point>)
    requires
        grid_wf(grid_view(grid)),
        distance <= 0x8000,
    ensures
        forall|i: int|
            0 <= i < r@.len() ==> qualifies(
                grid_view(grid),
                #[trigger] r@[i].0 as int,
                r@[i].1 as int,
                distance as int,
            ),
        forall|x: int, y: int|
            qualifies(grid_view(grid), x, y, distance as int) ==> exists|i: int|
                #![trigger r@[i]]
                0 <= i < r@.len() && r@[i].0 == x && r@[i].1 == y,
{
    let ghost g = grid_view(grid);
    let w = grid.len();
    proof {
        assert(grid_view(grid)[0] == grid@[0]@);
    }
    let h = grid[0].len();
    let mut points: Vec<Point> = Vec::new();
    if w < distance + 2 || h < distance + 2 {
        return points;
    }
    let max_x = w - distance - 1;
    let max_y = h - distance - 1;
    let mut x: usize = 0;
    while x < w
        invariant
            x <= w,
            g == grid_view(grid),
            grid_wf(g),
            w == width(g) && h == height(g),
            max_x == w - distance - 1 && max_y == h - distance - 1,
            forall|i: int|
                0 <= i < points@.len() ==> qualifies(
                    g,
                    #[trigger] points@[i].0 as int,
                    points@[i].1 as int,
                    distance as int,
                ),
            forall|i: int, j: int|
                0 <= i < x && 0 <= j < h && #[trigger] qualifies(g, i, j, distance as int)
                    ==> exists|k: int|
                    #![trigger points@[k]]
                    0 <= k < points@.len() && points@[k].0 == i && points@[k].1 == j,
        decreases w - x,
    {
        let mut y: usize = 0;
        while y < h
            invariant
                x < w,
                y <= h,
                g == grid_view(grid),
                grid_wf(g),
                w == width(g) && h == height(g),
                max_x == w - distance - 1 && max_y == h - distance - 1,
                forall|i: int|
                    0 <= i < points@.len() ==> qualifies(
                        g,
                        #[trigger] points@[i].0 as int,
                        points@[i].1 as int,
                        distance as int,
                    ),
                forall|i: int, j: int|
                    0 <= i < w && 0 <= j < h && (i < x || (i == x && j < y)) && #[trigger] qualifies(
                        g,
                        i,
                        j,
                        distance as int,
                    ) ==> exists|k: int|
                        #![trigger points@[k]]
                        0 <= k < points@.len() && points@[k].0 == i && points@[k].1 == j,
            decreases h - y,
        {
            if x > distance && x < max_x && y > distance && y < max_y {
                if tile_is_free(grid, (x, y)) {
                    let ghost pts0 = points@;
                    points.push((x, y));
                    proof {
                        assert(points@[pts0.len() as int].0 == x && points@[pts0.len() as int].1
                            == y);
                        assert(forall|k: int|
                            0 <= k < pts0.len() ==> #[trigger] points@[k] == pts0[k]);
                        assert forall|i: int, j: int|
                            0 <= i < w && 0 <= j < h && (i < x || (i == x && j < y + 1))
                                && #[trigger] qualifies(g, i, j, distance as int) implies exists|
                            k: int,
                        |
                            #![trigger points@[k]]
                            0 <= k < points@.len() && points@[k].0 == i && points@[k].1 == j by {
                            if i == x && j == y {
                                assert(points@[pts0.len() as int].0 == i
                                    && points@[pts0.len() as int].1 == j);
                            } else {
                                let k0 = choose|k: int|
                                    #![trigger pts0[k]]
                                    0 <= k < pts0.len() && pts0[k].0 == i && pts0[k].1 == j;
                                assert(points@[k0].0 == i && points@[k0].1 == j);
                            }
                        }
                    }
                }
            }
            y = y + 1;
        }
        x = x + 1;
    }
    points
}

/// Returns a random free point on the grid at more than the given
/// distance from the edge; some such point must exist.
fn random_empty_point(grid: &Grid, distance: usize) -> (r: Point)
    requires
        grid_wf(grid_view(grid)),
        distance <= 0x8000,
        exists|x: int, y: int| qualifies(grid_view(grid), x, y, distance as int),
    ensures
        qualifies(grid_view(grid), r.0 as int, r.1 as int, distance as int),
{
    let points = empty_points(grid, distance);
    proof {
        let (x, y) = choose|x: int, y: int| qualifies(grid_view(grid), x, y, distance as int);
        let k = choose|k: int|
            #![trigger points@[k]]
            0 <= k < points@.len() && points@[k].0 == x && points@[k].1 == y;
        assert(points@.len() > 0);
    }
    let i = random_below(points.len());
    points[i]
}

/// Picks one of the four directions at random.
pub fn random_direction() -> Direction {
    match random_below(4) {
        0 => Direction::North,
        1 => Direction::South,
        2 => Direction::West,
        _ => Direction::East,
    }
}

/// The direction the snake is moving in, read off its two head points.
pub fn snake_direction(snake: &Snake) -> (r: Direction)
    requires
        snake@.len() >= 2,
    ensures
        r == dir_between(snake@[1], snake@[0]),
{
    let head = snake[0];
    let second = snake[1];
    let (x, y) = head;
    let (i, j) = second;
    if x > i {
        Direction::East
    } else if x < i {
        Direction::West
    } else if y > j {
        Direction::South
    } else {
        Direction::North
    }
}

/// Places the snake on a random free cell well inside the grid: the
/// chosen cell becomes snake body, and the head starts one random step
/// further out.
pub fn spawn_snake(grid: &mut Grid) -> (s: Snake)
    requires
        grid_wf(grid_view(old(grid))),
        exists|x: int, y: int| qualifies(grid_view(old(grid)), x, y, 4),
    ensures
        s@.len() == 2,
        qualifies(grid_view(old(grid)), s@[1].0 as int, s@[1].1 as int, 4),
        manhattan(s@[0].0 as int, s@[0].1 as int, s@[1].0 as int, s@[1].1 as int) == 1,
        grid_view(final(grid)) =~= grid_view(old(grid)).update(
            s@[1].0 as int,
            grid_view(old(grid))[s@[1].0 as int].update(s@[1].1 as int, Tile::Snake),
        ),
{
    let p = random_empty_point(grid, 4);
    set_tile(grid, p.0, p.1, Tile::Snake);
    let mut snake: Snake = std::collections::VecDeque::with_capacity(10);
    snake.push_front(p);
    let d = random_direction();
    proof {
        assert(grid.len() == grid@.len());
        assert(width(grid_view(grid)) <= usize::MAX);
        assert(grid@[0].len() == grid@[0]@.len());
        assert(grid_view(grid)[0] == grid@[0]@);
        assert(height(grid_view(grid)) <= usize::MAX);
    }
    let head = next_point(p, d);
    snake.push_front(head);
    snake
}

/// Places food on a random free cell at least one cell inside the
/// border and returns its position.
pub fn spawn_food(grid: &mut Grid) -> (r: Point)
    requires
        grid_wf(grid_view(old(grid))),
        exists|x: int, y: int| qualifies(grid_view(old(grid)), x, y, 1),
    ensures
        qualifies(grid_view(old(grid)), r.0 as int, r.1 as int, 1),
        grid_view(final(grid)) =~= grid_view(old(grid)).update(
            r.0 as int,
            grid_view(old(grid))[r.0 as int].update(r.1 as int, Tile::Food),
        ),
{
    let p = random_empty_point(grid, 1);
    set_tile(grid, p.0, p.1, Tile::Food);
    p
}

/// Placing an obstacle at `p` is safe when no free neighbor of `p`
/// would be left in a dead end by it.
pub open spec fn placement_safe(g: Seq<Seq<Tile>>, px: int, py: int) -> bool {
    let g2 = g.update(px, g[px].update(py, Tile::Obstacle));
    forall|d: Direction|
        is_free(g2, step_x(px, d), step_y(py, d)) ==> free_neighbors(
            g2,
            step_x(px, d),
            step_y(py, d),
        ) >= 2
}

/// Tries to place an obstacle at `p`: commits it when that creates no
/// dead end next to it, and otherwise leaves the grid unchanged.
fn try_place_obstacle(grid: &mut Grid, p: Point) -> (placed: bool)
    requires
        grid_wf(grid_view(old(grid))),
        in_bounds(grid_view(old(grid)), p.0 as int, p.1 as int),
        grid_view(old(grid))[p.0 as int][p.1 as int] == Tile::Free,
    ensures
        grid_wf(grid_view(final(grid))),
        placed == placement_safe(grid_view(old(grid)), p.0 as int, p.1 as int),
        placed ==> grid_view(final(grid)) =~= grid_view(old(grid)).update(
            p.0 as int,
            grid_view(old(grid))[p.0 as int].update(p.1 as int, Tile::Obstacle),
        ),
        !placed ==> grid_view(final(grid)) =~= grid_view(old(grid)),
{
    let ghost g0 = grid_view(old(grid));
    set_tile(grid, p.0, p.1, Tile::Obstacle);
    let ghost g2 = grid_view(grid);
    let w = grid.len();
    proof {
        assert(grid_view(grid)[0] == grid@[0]@);
        assert(grid_wf(g2));
    }
    let h = grid[0].len();
    proof {
        assert(g2 == g0.update(p.0 as int, g0[p.0 as int].update(p.1 as int, Tile::Obstacle)));
    }
    let mut ok = true;
    if p.0 > 0 {
        if tile_is_free(grid, (p.0 - 1, p.1)) && is_in_dead_end(grid, (p.0 - 1, p.1)) {
            ok = false;
            proof {
                let d = Direction::West;
                assert(is_free(g2, step_x(p.0 as int, d), step_y(p.1 as int, d)));
                assert(free_neighbors(g2, step_x(p.0 as int, d), step_y(p.1 as int, d)) < 2);
                assert(!placement_safe(g0, p.0 as int, p.1 as int));
            }
        }
    }
    if ok && p.0 + 1 < w {
        if tile_is_free(grid, (p.0 + 1, p.1)) && is_in_dead_end(grid, (p.0 + 1, p.1)) {
            ok = false;
            proof {
                let d = Direction::East;
                assert(is_free(g2, step_x(p.0 as int, d), step_y(p.1 as int, d)));
                assert(free_neighbors(g2, step_x(p.0 as int, d), step_y(p.1 as int, d)) < 2);
                assert(!placement_safe(g0, p.0 as int, p.1 as int));
            }
        }
    }
    if ok && p.1 + 1 < h {
        if tile_is_free(grid, (p.0, p.1 + 1)) && is_in_dead_end(grid, (p.0, p.1 + 1)) {
            ok = false;
            proof {
                let d = Direction::South;
                assert(is_free(g2, step_x(p.0 as int, d), step_y(p.1 as int, d)));
                assert(free_neighbors(g2, step_x(p.0 as int, d), step_y(p.1 as int, d)) < 2);
                assert(!placement_safe(g0, p.0 as int, p.1 as int));
            }
        }
    }
    if ok && p.1 > 0 {
        if tile_is_free(grid, (p.0, p.1 - 1)) && is_in_dead_end(grid, (p.0, p.1 - 1)) {
            ok = false;
            proof {
                let d = Direction::North;
                assert(is_free(g2, step_x(p.0 as int, d), step_y(p.1 as int, d)));
                assert(free_neighbors(g2, step_x(p.0 as int, d), step_y(p.1 as int, d)) < 2);
                assert(!placement_safe(g0, p.0 as int, p.1 as int));
            }
        }
    }
    if ok {
        proof {
            assert forall|d: Direction|
                is_free(g2, step_x(p.0 as int, d), step_y(p.1 as int, d)) implies free_neighbors(
                g2,
                step_x(p.0 as int, d),
                step_y(p.1 as int, d),
            ) >= 2 by {
                match d {
                    Direction::West => {
                        assert(step_x(p.0 as int, d) == p.0 - 1 && step_y(p.1 as int, d)
                            == p.1 as int);
                    }
                    Direction::East => {
                        assert(step_x(p.0 as int, d) == p.0 + 1 && step_y(p.1 as int, d)
                            == p.1 as int);
                    }
                    Direction::South => {
                        assert(step_x(p.0 as int, d) == p.0 as int && step_y(p.1 as int, d)
                            == p.1 + 1);
                    }
                    Direction::North => {
                        assert(step_x(p.0 as int, d) == p.0 as int && step_y(p.1 as int, d)
                            == p.1 - 1);
                    }
                }
            }
            assert(placement_safe(g0, p.0 as int, p.1 as int));
        }
        true
    } else {
        set_tile(grid, p.0, p.1, Tile::Free);
        proof {
            assert(grid_view(grid) =~~= g0);
            assert(!placement_safe(g0, p.0 as int, p.1 as int));
        }
        false
    }
}

/// Scatters up to `count + 1` obstacles on random free interior cells,
/// skipping placements that would box a free cell into a dead end.
/// Tiles only ever change from free to obstacle, at most `count + 1` of
/// them, and no free neighbor of a newly placed obstacle is left with
/// fewer than two free neighbors.
pub fn spawn_obstacles(grid: &mut Grid, count: u16)
    requires
        grid_wf(grid_view(old(grid))),
    ensures
        grid_wf(grid_view(final(grid))),
        grid_view(final(grid)).len() == grid_view(old(grid)).len(),
        grid_view(final(grid))[0].len() == grid_view(old(grid))[0].len(),
        forall|x: int, y: int|
            in_bounds(grid_view(old(grid)), x, y) ==> #[trigger] grid_view(final(grid))[x][y]
                == grid_view(old(grid))[x][y] || (grid_view(old(grid))[x][y] == Tile::Free
                && grid_view(final(grid))[x][y] == Tile::Obstacle),
        exists|changed: Set<(int, int)>|
            #![trigger changed.finite()]
            changed.finite() && changed.len() <= count + 1 && (forall|x: int, y: int|
                in_bounds(grid_view(old(grid)), x, y) && !changed.contains((x, y))
                    ==> #[trigger] grid_view(final(grid))[x][y] == grid_view(old(grid))[x][y]),
        forall|px: int, py: int, d: Direction|
            #![trigger grid_view(final(grid))[px][py], step_x(px, d), step_y(py, d)]
            in_bounds(grid_view(old(grid)), px, py) && grid_view(old(grid))[px][py] == Tile::Free
                && grid_view(final(grid))[px][py] == Tile::Obstacle && is_free(
                grid_view(final(grid)),
                step_x(px, d),
                step_y(py, d),
            ) ==> free_neighbors(grid_view(final(grid)), step_x(px, d), step_y(py, d)) >= 2,
{
    let ghost g0 = grid_view(old(grid));
    let ghost mut cs: Set<(int, int)> = Set::empty();
    let mut i: u32 = 0;
    let total: u32 = count as u32 + 1;
    while i < total
        invariant
            i <= total,
            total == count + 1,
            grid_wf(grid_view(grid)),
            grid_view(grid).len() == g0.len(),
            grid_view(grid)[0].len() == g0[0].len(),
            forall|x: int, y: int|
                in_bounds(g0, x, y) ==> #[trigger] grid_view(grid)[x][y] == g0[x][y] || (g0[x][y]
                    == Tile::Free && grid_view(grid)[x][y] == Tile::Obstacle),
            cs.finite(),
            cs.len() <= i,
            forall|x: int, y: int|
                in_bounds(g0, x, y) && !#[trigger] cs.contains((x, y)) ==> grid_view(
                    grid,
                )[x][y] == g0[x][y],
            forall|px: int, py: int, d: Direction|
                #![trigger grid_view(grid)[px][py], step_x(px, d), step_y(py, d)]
                in_bounds(g0, px, py) && g0[px][py] == Tile::Free && grid_view(grid)[px][py]
                    == Tile::Obstacle && is_free(grid_view(grid), step_x(px, d), step_y(py, d))
                    ==> free_neighbors(grid_view(grid), step_x(px, d), step_y(py, d)) >= 2,
        ensures
            grid_wf(grid_view(grid)),
            grid_view(grid).len() == g0.len(),
            grid_view(grid)[0].len() == g0[0].len(),
            forall|x: int, y: int|
                in_bounds(g0, x, y) ==> #[trigger] grid_view(grid)[x][y] == g0[x][y] || (g0[x][y]
                    == Tile::Free && grid_view(grid)[x][y] == Tile::Obstacle),
            cs.finite(),
            cs.len() <= count + 1,
            forall|x: int, y: int|
                in_bounds(g0, x, y) && !#[trigger] cs.contains((x, y)) ==> grid_view(
                    grid,
                )[x][y] == g0[x][y],
            forall|px: int, py: int, d: Direction|
                #![trigger grid_view(grid)[px][py], step_x(px, d), step_y(py, d)]
                in_bounds(g0, px, py) && g0[px][py] == Tile::Free && grid_view(grid)[px][py]
                    == Tile::Obstacle && is_free(grid_view(grid), step_x(px, d), step_y(py, d))
                    ==> free_neighbors(grid_view(grid), step_x(px, d), step_y(py, d)) >= 2,
        decreases total - i,
    {
        let points = empty_points(grid, 0);
        if points.len() == 0 {
            break;
        }
        let ghost gb = grid_view(grid);
        let ghost cs0 = cs;
        let k = random_below(points.len());
        let p = points[k];
        let placed = try_place_obstacle(grid, p);
        proof {
            let px0 = p.0 as int;
            let py0 = p.1 as int;
            let gv = grid_view(grid);
            if placed {
                cs = cs0.insert((px0, py0));
                vstd::set::axiom_set_insert_finite(cs0, (px0, py0));
                vstd::set::axiom_set_insert_len(cs0, (px0, py0));
                assert(gv == gb.update(px0, gb[px0].update(py0, Tile::Obstacle)));
                assert forall|x: int, y: int|
                    in_bounds(g0, x, y) && !(x == px0 && y == py0) implies gv[x][y]
                    == gb[x][y] by {}
            } else {
                assert(gv =~= gb);
                cs = cs0;
            }
            assert forall|x: int, y: int|
                in_bounds(g0, x, y) implies #[trigger] gv[x][y] == g0[x][y] || (g0[x][y]
                == Tile::Free && gv[x][y] == Tile::Obstacle) by {
                assert(gb[x][y] == g0[x][y] || (g0[x][y] == Tile::Free && gb[x][y]
                    == Tile::Obstacle));
            }
            assert forall|x: int, y: int|
                in_bounds(g0, x, y) && !#[trigger] cs.contains((x, y)) implies gv[x][y]
                == g0[x][y] by {
                assert(!cs0.contains((x, y)));
                assert(gb[x][y] == g0[x][y]);
            }
            assert forall|px: int, py: int, d: Direction|
                #![trigger gv[px][py], step_x(px, d), step_y(py, d)]
                in_bounds(g0, px, py) && g0[px][py] == Tile::Free && gv[px][py] == Tile::Obstacle
                    && is_free(gv, step_x(px, d), step_y(py, d)) implies free_neighbors(
                gv,
                step_x(px, d),
                step_y(py, d),
            ) >= 2 by {
                let nbx = step_x(px, d);
                let nby = step_y(py, d);
                if placed {
                    if manhattan(px0, py0, nbx, nby) == 1 {
                        lemma_adjacent_dir(px0, py0, nbx, nby);
                        let e = choose|e: Direction|
                            nbx == step_x(px0, e) && nby == step_y(py0, e);
                        assert(placement_safe(gb, px0, py0));
                        assert(is_free(
                            gb.update(px0, gb[px0].update(py0, Tile::Obstacle)),
                            step_x(px0, e),
                            step_y(py0, e),
                        ));
                        assert(free_neighbors(
                            gb.update(px0, gb[px0].update(py0, Tile::Obstacle)),
                            step_x(px0, e),
                            step_y(py0, e),
                        ) >= 2);
                    } else {
                        assert(!(nbx == px0 && nby == py0));
                        assert(!(px == px0 && py == py0));
                        assert(gv[px][py] == gb[px][py]);
                        assert(is_free(gv, nbx, nby) == is_free(gb, nbx, nby));
                        assert(free_neighbors(gv, nbx, nby) == free_neighbors(gb, nbx, nby));
                        assert(free_neighbors(gb, nbx, nby) >= 2);
                    }
                } else {
                    assert(free_neighbors(gb, nbx, nby) >= 2);
                }
            }
        }
        i = i + 1;
    }
    proof {
        assert(cs.finite() && cs.len() <= count + 1 && (forall|x: int, y: int|
            in_bounds(g0, x, y) && !cs.contains((x, y)) ==> #[trigger] grid_view(grid)[x][y]
                == g0[x][y]));
    }
}

} // verus!
