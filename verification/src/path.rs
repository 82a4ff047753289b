//! The autopilot pathfinder: an A* search from the snake's head to the
//! food over traversable tiles, with a longest-clear-corridor fallback
//! when no route exists.

use vstd::prelude::*;

verus! {

use crate::game::{generate_successors, lemma_adjacent_dir, lemma_successors_complete};
use crate::reach::{
    dist, grid_view, grid_wf, height, in_bounds, is_dist, lemma_dist_le, lemma_dist_unique,
    lemma_reach_extend, manhattan, path_valid, reach_n, reachable, step_x, step_y, traversable,
    width,
};
use crate::types::{Direction, Grid, Point, Tile};

/// Grids larger than this on either axis are not supported; the game's
/// grids are far smaller, and the bound keeps all cost arithmetic well
/// inside `usize`.
pub const MAX_DIM: usize = 0x8000;

/// The view of a two-dimensional vector as a sequence of columns.
pub open spec fn view2<T>(m: &Vec<Vec<T>>) -> Seq<Seq<T>> {
    Seq::new(m@.len() as nat, |x: int| m@[x]@)
}

/// `m` is a rectangle of `w` columns of height `h`.
pub open spec fn dims2<T>(m: Seq<Seq<T>>, w: int, h: int) -> bool {
    m.len() == w && forall|x: int| 0 <= x < w ==> (#[trigger] m[x]).len() == h
}

/// How many cells of a boolean grid are set.
pub open spec fn row_count(r: Seq<bool>) -> nat
    decreases r.len(),
{
    if r.len() == 0 {
        0
    } else {
        row_count(r.drop_last()) + if r.last() {
            1nat
        } else {
            0nat
        }
    }
}

pub open spec fn cell_count(m: Seq<Seq<bool>>) -> nat
    decreases m.len(),
{
    if m.len() == 0 {
        0
    } else {
        cell_count(m.drop_last()) + row_count(m.last())
    }
}

pub proof fn lemma_row_count_le(r: Seq<bool>)
    ensures
        row_count(r) <= r.len(),
    decreases r.len(),
{
    if r.len() > 0 {
        lemma_row_count_le(r.drop_last());
    }
}

pub proof fn lemma_cell_count_le(m: Seq<Seq<bool>>, w: int, h: int)
    requires
        dims2(m, w, h),
        0 <= h,
    ensures
        cell_count(m) <= w * h,
    decreases m.len(),
{
    if m.len() > 0 {
        assert(dims2(m.drop_last(), w - 1, h)) by {
            assert(forall|x: int| 0 <= x < w - 1 ==> m.drop_last()[x] == m[x]);
        }
        lemma_cell_count_le(m.drop_last(), w - 1, h);
        lemma_row_count_le(m.last());
        assert((w - 1) * h + h == w * h) by (nonlinear_arith);
    }
}

/// Setting one clear cell raises the count of a row by exactly one.
pub proof fn lemma_row_count_set(r: Seq<bool>, y: int)
    requires
        0 <= y < r.len(),
        !r[y],
    ensures
        row_count(r.update(y, true)) == row_count(r) + 1,
    decreases r.len(),
{
    let u = r.update(y, true);
    if y == r.len() - 1 {
        assert(u.drop_last() =~= r.drop_last());
    } else {
        assert(u.drop_last() =~= r.drop_last().update(y, true));
        lemma_row_count_set(r.drop_last(), y);
    }
}

/// Setting one clear cell raises the count of a grid by exactly one.
pub proof fn lemma_cell_count_set(m: Seq<Seq<bool>>, x: int, y: int)
    requires
        0 <= x < m.len(),
        0 <= y < m[x].len(),
        !m[x][y],
    ensures
        cell_count(m.update(x, m[x].update(y, true))) == cell_count(m) + 1,
    decreases m.len(),
{
    let u = m.update(x, m[x].update(y, true));
    if x == m.len() - 1 {
        assert(u.drop_last() =~= m.drop_last());
        lemma_row_count_set(m.last(), y);
        assert(u.last() == m.last().update(y, true));
    } else {
        assert(u.drop_last() =~= m.drop_last().update(x, m[x].update(y, true)));
        lemma_cell_count_set(m.drop_last(), x, y);
        assert(u.last() == m.last());
    }
}

/// Builds a `w` by `h` grid with every cell set to `v`.
fn filled<T: Copy>(w: usize, h: usize, v: T) -> (r: Vec<Vec<T>>)
    ensures
        dims2(view2(&r), w as int, h as int),
        forall|x: int, y: int|
            0 <= x < w && 0 <= y < h ==> #[trigger] view2(&r)[x][y] == v,
{
    let mut r: Vec<Vec<T>> = Vec::new();
    let mut x: usize = 0;
    while x < w
        invariant
            x <= w,
            r@.len() == x,
            forall|i: int| 0 <= i < x ==> (#[trigger] r@[i])@.len() == h,
            forall|i: int, j: int| 0 <= i < x && 0 <= j < h ==> #[trigger] r@[i]@[j] == v,
        decreases w - x,
    {
        let mut row: Vec<T> = Vec::new();
        let mut y: usize = 0;
        while y < h
            invariant
                y <= h,
                row@.len() == y,
                forall|j: int| 0 <= j < y ==> #[trigger] row@[j] == v,
            decreases h - y,
        {
            row.push(v);
            y = y + 1;
        }
        r.push(row);
        x = x + 1;
    }
    r
}

/// Writes `v` into cell (x, y) of a two-dimensional vector.
fn set2<T>(m: &mut Vec<Vec<T>>, x: usize, y: usize, v: T)
    requires
        x < view2(old(m)).len(),
        y < view2(old(m))[x as int].len(),
    ensures
        view2(final(m)) =~= view2(old(m)).update(
            x as int,
            view2(old(m))[x as int].update(y as int, v),
        ),
        final(m)@.len() == old(m)@.len(),
        forall|i: int| 0 <= i < old(m)@.len() ==> (#[trigger] view2(final(m))[i]).len() == view2(
            old(m),
        )[i].len(),
{
    proof {
        assert(view2(m)[x as int] == m@[x as int]@);
    }
    m[x][y] = v;
}

/// Reads cell (x, y) of a two-dimensional vector.
fn get2<T: Copy>(m: &Vec<Vec<T>>, x: usize, y: usize) -> (r: T)
    requires
        x < view2(m).len(),
        y < view2(m)[x as int].len(),
    ensures
        r == view2(m)[x as int][y as int],
{
    proof {
        assert(view2(m)[x as int] == m@[x as int]@);
    }
    m[x][y]
}

/// The Manhattan distance between two points: the pathfinder's
/// admissible heuristic estimate.
pub fn manhatten_distance(from: Point, to: Point) -> (r: usize)
    requires
        from.0 <= MAX_DIM && from.1 <= MAX_DIM,
        to.0 <= MAX_DIM && to.1 <= MAX_DIM,
    ensures
        r == manhattan(from.0 as int, from.1 as int, to.0 as int, to.1 as int),
{
    let dx = if from.0 >= to.0 {
        from.0 - to.0
    } else {
        to.0 - from.0
    };
    let dy = if from.1 >= to.1 {
        from.1 - to.1
    } else {
        to.1 - from.1
    };
    dx + dy
}

/// A tile blocks the snake unless it is free or holds food.
pub fn blocked_tile(grid: &Grid, p: Point) -> (r: bool)
    requires
        grid_wf(grid_view(grid)),
        in_bounds(grid_view(grid), p.0 as int, p.1 as int),
    ensures
        r == !traversable(grid_view(grid), p.0 as int, p.1 as int),
{
    proof {
        assert(grid_view(grid)[p.0 as int] == grid@[p.0 as int]@);
    }
    let t = grid[p.0][p.1];
    !(matches!(t, Tile::Free) || matches!(t, Tile::Food))
}

/// The direction of `to` as seen from `from`, preferring the x axis;
/// for adjacent points this is the unique connecting step.
pub open spec fn dir_between(from: Point, to: Point) -> Direction {
    if to.0 > from.0 {
        Direction::East
    } else if to.0 < from.0 {
        Direction::West
    } else if to.1 > from.1 {
        Direction::South
    } else {
        Direction::North
    }
}

/// For adjacent points the chosen direction steps `from` exactly onto `to`.
pub proof fn lemma_dir_between_step(from: Point, to: Point)
    requires
        manhattan(from.0 as int, from.1 as int, to.0 as int, to.1 as int) == 1,
    ensures
        step_x(from.0 as int, dir_between(from, to)) == to.0 as int,
        step_y(from.1 as int, dir_between(from, to)) == to.1 as int,
{
}

/// Derives the direction of one unit step between two points by
/// comparing their coordinates.
pub fn get_direction(from: Point, to: Point) -> (r: Direction)
    ensures
        r == dir_between(from, to),
{
    if to.0 > from.0 {
        Direction::East
    } else if to.0 < from.0 {
        Direction::West
    } else if to.1 > from.1 {
        Direction::South
    } else {
        Direction::North
    }
}

/// How far the straight run of traversable cells starting at (x, y)
/// extends in direction `d`.
pub open spec fn corridor(g: Seq<Seq<Tile>>, x: int, y: int, d: Direction) -> nat
    decreases (match d {
        Direction::East => width(g) - x,
        Direction::West => x + 1,
        Direction::South => height(g) - y,
        Direction::North => y + 1,
    }),
{
    if !traversable(g, x, y) {
        0
    } else {
        corridor(g, step_x(x, d), step_y(y, d), d) + 1
    }
}

/// A corridor never runs past the grid edge.
pub proof fn lemma_corridor_le(g: Seq<Seq<Tile>>, x: int, y: int, d: Direction)
    ensures
        corridor(g, x, y, d) <= (match d {
            Direction::East => if width(g) - x >= 0 { width(g) - x } else { 0 },
            Direction::West => if x + 1 >= 0 { x + 1 } else { 0 },
            Direction::South => if height(g) - y >= 0 { height(g) - y } else { 0 },
            Direction::North => if y + 1 >= 0 { y + 1 } else { 0 },
        }),
    decreases (match d {
        Direction::East => width(g) - x,
        Direction::West => x + 1,
        Direction::South => height(g) - y,
        Direction::North => y + 1,
    }),
{
    if traversable(g, x, y) {
        lemma_corridor_le(g, step_x(x, d), step_y(y, d), d);
    }
}

/// The corridor length one step out from (px, py) in direction `d`;
/// zero when that step leaves the grid or is blocked.
pub open spec fn corridor_from(g: Seq<Seq<Tile>>, px: int, py: int, d: Direction) -> nat {
    corridor(g, step_x(px, d), step_y(py, d), d)
}

/// The direction the fallback proposes: the first of West, East, South,
/// North whose clear corridor out of `p` is longest, or nothing when
/// every neighbor of `p` is blocked.
pub open spec fn fallback_dir(g: Seq<Seq<Tile>>, px: int, py: int) -> Option<Direction> {
    let cw = corridor_from(g, px, py, Direction::West);
    let ce = corridor_from(g, px, py, Direction::East);
    let cs = corridor_from(g, px, py, Direction::South);
    let cn = corridor_from(g, px, py, Direction::North);
    if cw > 0 && cw >= ce && cw >= cs && cw >= cn {
        Some(Direction::West)
    } else if ce > cw && ce >= cs && ce >= cn {
        Some(Direction::East)
    } else if cs > cw && cs > ce && cs >= cn {
        Some(Direction::South)
    } else if cn > cw && cn > ce && cn > cs {
        Some(Direction::North)
    } else {
        None
    }
}

/// What the fallback returns: a single best-effort move, or nothing when
/// the start cell is fully enclosed.
pub open spec fn fallback_spec(g: Seq<Seq<Tile>>, p: Point) -> Seq<Direction> {
    match fallback_dir(g, p.0 as int, p.1 as int) {
        Some(d) => seq![d],
        None => Seq::<Direction>::empty(),
    }
}

/// Counts the consecutive traversable cells from `p0` onward in
/// direction `d`.
fn corridor_count(grid: &Grid, p0: Point, d: Direction) -> (c: usize)
    requires
        grid_wf(grid_view(grid)),
        width(grid_view(grid)) <= MAX_DIM,
        height(grid_view(grid)) <= MAX_DIM,
        in_bounds(grid_view(grid), p0.0 as int, p0.1 as int),
    ensures
        c == corridor(grid_view(grid), p0.0 as int, p0.1 as int, d),
{
    let ghost g = grid_view(grid);
    let w = grid.len();
    let h = grid[0].len();
    proof {
        lemma_corridor_le(g, p0.0 as int, p0.1 as int, d);
    }
    let mut n = p0;
    let mut c: usize = 0;
    loop
        invariant_except_break
            c + corridor(g, n.0 as int, n.1 as int, d) == corridor(
                g,
                p0.0 as int,
                p0.1 as int,
                d,
            ),
        invariant
            grid_wf(g),
            g == grid_view(grid),
            w == width(g) && h == height(g),
            w <= MAX_DIM && h <= MAX_DIM,
            in_bounds(g, n.0 as int, n.1 as int),
            corridor(g, p0.0 as int, p0.1 as int, d) <= MAX_DIM,
        ensures
            c == corridor(g, p0.0 as int, p0.1 as int, d),
        decreases corridor(g, n.0 as int, n.1 as int, d),
    {
        if blocked_tile(grid, n) {
            break;
        }
        c = c + 1;
        let stepped: Option<Point> = match d {
            Direction::North => if n.1 > 0 {
                Some((n.0, n.1 - 1))
            } else {
                None
            },
            Direction::South => if n.1 + 1 < h {
                Some((n.0, n.1 + 1))
            } else {
                None
            },
            Direction::West => if n.0 > 0 {
                Some((n.0 - 1, n.1))
            } else {
                None
            },
            Direction::East => if n.0 + 1 < w {
                Some((n.0 + 1, n.1))
            } else {
                None
            },
        };
        match stepped {
            Some(q) => {
                proof {
                    assert(q.0 as int == step_x(n.0 as int, d) && q.1 as int == step_y(
                        n.1 as int,
                        d,
                    ));
                }
                n = q;
            }
            None => {
                proof {
                    assert(!in_bounds(g, step_x(n.0 as int, d), step_y(n.1 as int, d)));
                    assert(corridor(g, step_x(n.0 as int, d), step_y(n.1 as int, d), d) == 0);
                }
                break;
            }
        }
    }
    c
}

/// The fallback chooses the first step whose straight run of clear
/// tiles is longest; ties go to the earlier direction in the order
/// West, East, South, North.
pub fn best_straight_path(grid: &Grid, start: Point) -> (r: Vec<Direction>)
    requires
        grid_wf(grid_view(grid)),
        width(grid_view(grid)) <= MAX_DIM,
        height(grid_view(grid)) <= MAX_DIM,
        in_bounds(grid_view(grid), start.0 as int, start.1 as int),
    ensures
        r@ == fallback_spec(grid_view(grid), start),
{
    let ghost g = grid_view(grid);
    let w = grid.len();
    let h = grid[0].len();
    let mut direction: Option<Direction> = None;
    let mut count: usize = 0;

    if start.0 > 0 {
        let c = corridor_count(grid, (start.0 - 1, start.1), Direction::West);
        if c > count {
            count = c;
            direction = Some(Direction::West);
        }
    }
    proof {
        assert(count == corridor_from(g, start.0 as int, start.1 as int, Direction::West));
    }
    if start.0 + 1 < w {
        let c = corridor_count(grid, (start.0 + 1, start.1), Direction::East);
        if c > count {
            count = c;
            direction = Some(Direction::East);
        }
    }
    if start.1 + 1 < h {
        let c = corridor_count(grid, (start.0, start.1 + 1), Direction::South);
        if c > count {
            count = c;
            direction = Some(Direction::South);
        }
    }
    if start.1 > 0 {
        let c = corridor_count(grid, (start.0, start.1 - 1), Direction::North);
        if c > count {
            count = c;
            direction = Some(Direction::North);
        }
    }

    match direction {
        Some(d) => {
            let mut r: Vec<Direction> = Vec::new();
            r.push(d);
            proof {
                assert(r@ =~= fallback_spec(g, start));
            }
            r
        }
        None => {
            let r: Vec<Direction> = Vec::new();
            proof {
                assert(r@ =~= fallback_spec(g, start));
            }
            r
        }
    }
}

/// The A* priority of a cell: cost so far plus the heuristic estimate
/// of the remaining distance to (tx, ty).
pub open spec fn fval(gv: Seq<Seq<usize>>, tx: int, ty: int, x: int, y: int) -> int {
    gv[x][y] + manhattan(x, y, tx, ty)
}

/// A cell the search has seen: pending in the open set or finalized in
/// the closed set.
pub open spec fn visited(op: Seq<Seq<bool>>, cl: Seq<Seq<bool>>, x: int, y: int) -> bool {
    op[x][y] || cl[x][y]
}

/// A visited non-start cell records a finalized predecessor one step
/// away whose cost is one less.
pub open spec fn parent_ok(
    g: Seq<Seq<Tile>>,
    cl: Seq<Seq<bool>>,
    gv: Seq<Seq<usize>>,
    par: Seq<Seq<Option<Point>>>,
    x: int,
    y: int,
) -> bool {
    let q = par[x][y].unwrap();
    &&& par[x][y] is Some
    &&& in_bounds(g, q.0 as int, q.1 as int)
    &&& cl[q.0 as int][q.1 as int]
    &&& manhattan(q.0 as int, q.1 as int, x, y) == 1
    &&& gv[x][y] == gv[q.0 as int][q.1 as int] + 1
}

/// What the A* loop maintains about its bookkeeping grids, short of
/// the frontier property: open and closed are disjoint; visited cells
/// carry a parent chain back to the start and a genuine route cost;
/// and closed cells carry the exact shortest-route cost.
pub open spec fn search_core(
    g: Seq<Seq<Tile>>,
    sx: int,
    sy: int,
    cl: Seq<Seq<bool>>,
    op: Seq<Seq<bool>>,
    gv: Seq<Seq<usize>>,
    par: Seq<Seq<Option<Point>>>,
) -> bool {
    &&& grid_wf(g)
    &&& dims2(cl, width(g), height(g))
    &&& dims2(op, width(g), height(g))
    &&& dims2(gv, width(g), height(g))
    &&& dims2(par, width(g), height(g))
    &&& in_bounds(g, sx, sy)
    &&& visited(op, cl, sx, sy)
    &&& gv[sx][sy] == 0
    &&& par[sx][sy] is None
    &&& forall|x: int, y: int|
        #![trigger op[x][y], cl[x][y]]
        in_bounds(g, x, y) ==> !(op[x][y] && cl[x][y])
    &&& forall|x: int, y: int|
        in_bounds(g, x, y) && #[trigger] visited(op, cl, x, y) && !(x == sx && y == sy)
            ==> traversable(g, x, y) && parent_ok(g, cl, gv, par, x, y)
    &&& forall|x: int, y: int|
        in_bounds(g, x, y) && #[trigger] visited(op, cl, x, y) ==> reach_n(
            g,
            sx,
            sy,
            x,
            y,
            gv[x][y] as nat,
        ) && gv[x][y] <= cell_count(cl)
    &&& forall|x: int, y: int|
        in_bounds(g, x, y) && #[trigger] cl[x][y] ==> is_dist(g, sx, sy, x, y, gv[x][y] as nat)
}

/// Every traversable neighbor of a finalized cell is itself finalized
/// or pending with a cost at most one greater.
pub open spec fn frontier_ok(
    g: Seq<Seq<Tile>>,
    cl: Seq<Seq<bool>>,
    op: Seq<Seq<bool>>,
    gv: Seq<Seq<usize>>,
) -> bool {
    forall|x: int, y: int, d: Direction|
        #![trigger cl[x][y], step_x(x, d), step_y(y, d)]
        in_bounds(g, x, y) && cl[x][y] && traversable(g, step_x(x, d), step_y(y, d)) && !cl[step_x(
            x,
            d,
        )][step_y(y, d)] ==> op[step_x(x, d)][step_y(y, d)] && gv[step_x(x, d)][step_y(y, d)]
            <= gv[x][y] + 1
}

/// Everything the A* loop maintains between iterations.
pub open spec fn search_inv(
    g: Seq<Seq<Tile>>,
    sx: int,
    sy: int,
    cl: Seq<Seq<bool>>,
    op: Seq<Seq<bool>>,
    gv: Seq<Seq<usize>>,
    par: Seq<Seq<Option<Point>>>,
) -> bool {
    search_core(g, sx, sy, cl, op, gv, par) && frontier_ok(g, cl, op, gv)
}

/// Scans the open set and returns a pending point of minimal priority,
/// or nothing when the open set is empty.  Ties go to the first such
/// point in column-major scan order, which keeps the search
/// deterministic for a fixed grid.
fn get_lowest_f(
    open: &Vec<Vec<bool>>,
    g_list: &Vec<Vec<usize>>,
    target: Point,
    w: usize,
    h: usize,
) -> (r: Option<Point>)
    requires
        w <= MAX_DIM && h <= MAX_DIM,
        target.0 <= MAX_DIM && target.1 <= MAX_DIM,
        dims2(view2(open), w as int, h as int),
        dims2(view2(g_list), w as int, h as int),
        forall|x: int, y: int|
            0 <= x < w && 0 <= y < h && #[trigger] view2(open)[x][y] ==> view2(g_list)[x][y]
                <= 0x4000_0000,
    ensures
        match r {
            None => forall|x: int, y: int|
                0 <= x < w && 0 <= y < h ==> !(#[trigger] view2(open)[x][y]),
            Some(p) => {
                &&& p.0 < w && p.1 < h
                &&& view2(open)[p.0 as int][p.1 as int]
                &&& forall|x: int, y: int|
                    0 <= x < w && 0 <= y < h && #[trigger] view2(open)[x][y] ==> fval(
                        view2(g_list),
                        target.0 as int,
                        target.1 as int,
                        p.0 as int,
                        p.1 as int,
                    ) <= fval(view2(g_list), target.0 as int, target.1 as int, x, y)
            },
        },
{
    let ghost opv = view2(open);
    let ghost gvv = view2(g_list);
    let ghost tx = target.0 as int;
    let ghost ty = target.1 as int;
    let mut res: Option<Point> = None;
    let mut best_f: usize = 0;
    let mut x: usize = 0;
    while x < w
        invariant
            x <= w,
            w <= MAX_DIM && h <= MAX_DIM,
            target.0 <= MAX_DIM && target.1 <= MAX_DIM,
            opv == view2(open) && gvv == view2(g_list),
            tx == target.0 as int && ty == target.1 as int,
            dims2(opv, w as int, h as int),
            dims2(gvv, w as int, h as int),
            forall|i: int, j: int|
                0 <= i < w && 0 <= j < h && #[trigger] opv[i][j] ==> gvv[i][j] <= 0x4000_0000,
            res is None ==> forall|i: int, j: int|
                0 <= i < x && 0 <= j < h ==> !(#[trigger] opv[i][j]),
            res is Some ==> {
                let p = res.unwrap();
                &&& p.0 < w && p.1 < h
                &&& opv[p.0 as int][p.1 as int]
                &&& best_f == fval(gvv, tx, ty, p.0 as int, p.1 as int)
                &&& forall|i: int, j: int|
                    0 <= i < x && 0 <= j < h && #[trigger] opv[i][j] ==> best_f <= fval(
                        gvv,
                        tx,
                        ty,
                        i,
                        j,
                    )
            },
        decreases w - x,
    {
        let mut y: usize = 0;
        while y < h
            invariant
                x < w,
                y <= h,
                w <= MAX_DIM && h <= MAX_DIM,
                target.0 <= MAX_DIM && target.1 <= MAX_DIM,
                opv == view2(open) && gvv == view2(g_list),
                tx == target.0 as int && ty == target.1 as int,
                dims2(opv, w as int, h as int),
                dims2(gvv, w as int, h as int),
                forall|i: int, j: int|
                    0 <= i < w && 0 <= j < h && #[trigger] opv[i][j] ==> gvv[i][j] <= 0x4000_0000,
                res is None ==> forall|i: int, j: int|
                    0 <= i < w && 0 <= j < h && #[trigger] opv[i][j] ==> !(i < x || (i == x && j
                        < y)),
                res is Some ==> {
                    let p = res.unwrap();
                    &&& p.0 < w && p.1 < h
                    &&& opv[p.0 as int][p.1 as int]
                    &&& best_f == fval(gvv, tx, ty, p.0 as int, p.1 as int)
                    &&& forall|i: int, j: int|
                        0 <= i < w && 0 <= j < h && #[trigger] opv[i][j] && (i < x || (i == x && j
                            < y)) ==> best_f <= fval(gvv, tx, ty, i, j)
                },
            decreases h - y,
        {
            if get2(open, x, y) {
                let f = get2(g_list, x, y) + manhatten_distance((x, y), target);
                if res.is_none() || f < best_f {
                    res = Some((x, y));
                    best_f = f;
                }
            }
            y = y + 1;
        }
        x = x + 1;
    }
    res
}

/// The A* frontier argument: a cell with a route of at most `n` steps
/// from the start is either already finalized with a cost of at most
/// `n`, or some pending cell has priority at most `n` plus the cell's
/// own heuristic.
proof fn lemma_frontier_reach(
    g: Seq<Seq<Tile>>,
    sx: int,
    sy: int,
    tgx: int,
    tgy: int,
    cl: Seq<Seq<bool>>,
    op: Seq<Seq<bool>>,
    gv: Seq<Seq<usize>>,
    par: Seq<Seq<Option<Point>>>,
    qx: int,
    qy: int,
    n: nat,
)
    requires
        search_inv(g, sx, sy, cl, op, gv, par),
        reach_n(g, sx, sy, qx, qy, n),
        in_bounds(g, qx, qy),
    ensures
        (cl[qx][qy] && gv[qx][qy] <= n) || exists|ox: int, oy: int|
            #![trigger op[ox][oy]]
            in_bounds(g, ox, oy) && op[ox][oy] && gv[ox][oy] + manhattan(ox, oy, tgx, tgy) <= n
                + manhattan(qx, qy, tgx, tgy),
    decreases n,
{
    if qx == sx && qy == sy {
        assert(visited(op, cl, sx, sy));
        if !cl[sx][sy] {
            assert(in_bounds(g, sx, sy) && op[sx][sy] && gv[sx][sy] + manhattan(
                sx,
                sy,
                tgx,
                tgy,
            ) <= n + manhattan(qx, qy, tgx, tgy));
        }
    } else {
        let d = choose|d: Direction|
            reach_n(g, sx, sy, step_x(qx, d), step_y(qy, d), (n - 1) as nat);
        let mx = step_x(qx, d);
        let my = step_y(qy, d);
        assert(in_bounds(g, mx, my)) by {
            if !(mx == sx && my == sy) {
                assert(traversable(g, mx, my));
            }
        }
        lemma_frontier_reach(g, sx, sy, tgx, tgy, cl, op, gv, par, mx, my, (n - 1) as nat);
        if cl[mx][my] && gv[mx][my] <= n - 1 {
            let e = d.opposite_spec();
            assert(step_x(mx, e) == qx && step_y(my, e) == qy);
            if cl[qx][qy] {
                assert(is_dist(g, sx, sy, qx, qy, gv[qx][qy] as nat));
                if gv[qx][qy] > n {
                    assert(!reach_n(g, sx, sy, qx, qy, n));
                    assert(false);
                }
            } else {
                assert(traversable(g, qx, qy));
                assert(traversable(g, step_x(mx, e), step_y(my, e)));
                assert(op[qx][qy] && gv[qx][qy] <= gv[mx][my] + 1);
                assert(in_bounds(g, qx, qy) && op[qx][qy] && gv[qx][qy] + manhattan(
                    qx,
                    qy,
                    tgx,
                    tgy,
                ) <= n + manhattan(qx, qy, tgx, tgy));
            }
        } else {
            let (ox, oy) = choose|ox: int, oy: int|
                #![trigger op[ox][oy]]
                in_bounds(g, ox, oy) && op[ox][oy] && gv[ox][oy] + manhattan(ox, oy, tgx, tgy)
                    <= (n - 1) + manhattan(mx, my, tgx, tgy);
            assert(manhattan(mx, my, tgx, tgy) <= manhattan(qx, qy, tgx, tgy) + 1);
            assert(in_bounds(g, ox, oy) && op[ox][oy] && gv[ox][oy] + manhattan(ox, oy, tgx, tgy)
                <= n + manhattan(qx, qy, tgx, tgy));
        }
    }
}

/// When a pending cell of minimal priority is popped, its recorded cost
/// is the exact shortest-route distance from the start.
proof fn lemma_pop_min(
    g: Seq<Seq<Tile>>,
    sx: int,
    sy: int,
    tgx: int,
    tgy: int,
    cl: Seq<Seq<bool>>,
    op: Seq<Seq<bool>>,
    gv: Seq<Seq<usize>>,
    par: Seq<Seq<Option<Point>>>,
    px: int,
    py: int,
)
    requires
        search_inv(g, sx, sy, cl, op, gv, par),
        in_bounds(g, px, py),
        op[px][py],
        forall|x: int, y: int|
            in_bounds(g, x, y) && #[trigger] op[x][y] ==> fval(gv, tgx, tgy, px, py) <= fval(
                gv,
                tgx,
                tgy,
                x,
                y,
            ),
    ensures
        is_dist(g, sx, sy, px, py, gv[px][py] as nat),
{
    assert(visited(op, cl, px, py));
    assert(reach_n(g, sx, sy, px, py, gv[px][py] as nat));
    lemma_dist_le(g, sx, sy, px, py, gv[px][py] as nat);
    let dd = dist(g, sx, sy, px, py);
    lemma_frontier_reach(g, sx, sy, tgx, tgy, cl, op, gv, par, px, py, dd);
    if cl[px][py] {
        assert(!(op[px][py] && cl[px][py]));
        assert(false);
    }
    let (ox, oy) = choose|ox: int, oy: int|
        #![trigger op[ox][oy]]
        in_bounds(g, ox, oy) && op[ox][oy] && gv[ox][oy] + manhattan(ox, oy, tgx, tgy) <= dd
            + manhattan(px, py, tgx, tgy);
    assert(fval(gv, tgx, tgy, px, py) <= fval(gv, tgx, tgy, ox, oy));
    assert(gv[px][py] <= dd);
    assert(gv[px][py] as nat == dd);
}

/// When the open set runs empty before the target is finalized, no
/// route to the target exists at all.
proof fn lemma_exhausted(
    g: Seq<Seq<Tile>>,
    sx: int,
    sy: int,
    tgx: int,
    tgy: int,
    cl: Seq<Seq<bool>>,
    op: Seq<Seq<bool>>,
    gv: Seq<Seq<usize>>,
    par: Seq<Seq<Option<Point>>>,
)
    requires
        search_inv(g, sx, sy, cl, op, gv, par),
        in_bounds(g, tgx, tgy),
        !cl[tgx][tgy],
        forall|x: int, y: int| in_bounds(g, x, y) ==> !(#[trigger] op[x][y]),
    ensures
        !reachable(g, sx, sy, tgx, tgy),
{
    if reachable(g, sx, sy, tgx, tgy) {
        let n = choose|n: nat| reach_n(g, sx, sy, tgx, tgy, n);
        lemma_frontier_reach(g, sx, sy, tgx, tgy, cl, op, gv, par, tgx, tgy, n);
        if !(cl[tgx][tgy] && gv[tgx][tgy] <= n) {
            let (ox, oy) = choose|ox: int, oy: int|
                #![trigger op[ox][oy]]
                in_bounds(g, ox, oy) && op[ox][oy] && gv[ox][oy] + manhattan(ox, oy, tgx, tgy)
                    <= n + manhattan(tgx, tgy, tgx, tgy);
            assert(false);
        }
    }
}

/// Generates the move sequence from the start to the target by walking
/// the recorded parent chain back from the target; the entries are in
/// reverse order so that popping from the end yields the next move.
fn generate_path(
    start: Point,
    target: Point,
    parents: &Vec<Vec<Option<Point>>>,
    Ghost(g): Ghost<Seq<Seq<Tile>>>,
    Ghost(cl): Ghost<Seq<Seq<bool>>>,
    Ghost(op): Ghost<Seq<Seq<bool>>>,
    Ghost(gv): Ghost<Seq<Seq<usize>>>,
) -> (r: Vec<Direction>)
    requires
        search_core(g, start.0 as int, start.1 as int, cl, op, gv, view2(parents)),
        in_bounds(g, target.0 as int, target.1 as int),
        visited(op, cl, target.0 as int, target.1 as int),
    ensures
        r@.len() == gv[target.0 as int][target.1 as int],
        path_valid(g, start.0 as int, start.1 as int, target.0 as int, target.1 as int, r@),
{
    let ghost sx = start.0 as int;
    let ghost sy = start.1 as int;
    let ghost tx = target.0 as int;
    let ghost ty = target.1 as int;
    let mut directions: Vec<Direction> = Vec::new();
    let mut p = target;
    loop
        invariant
            search_core(g, sx, sy, cl, op, gv, view2(parents)),
            sx == start.0 as int && sy == start.1 as int,
            tx == target.0 as int && ty == target.1 as int,
            in_bounds(g, p.0 as int, p.1 as int),
            visited(op, cl, p.0 as int, p.1 as int),
            path_valid(g, p.0 as int, p.1 as int, tx, ty, directions@),
            directions@.len() + gv[p.0 as int][p.1 as int] == gv[tx][ty],
        ensures
            p == start,
            path_valid(g, sx, sy, tx, ty, directions@),
            directions@.len() == gv[tx][ty],
        decreases gv[p.0 as int][p.1 as int],
    {
        proof {
            assert(visited(op, cl, p.0 as int, p.1 as int));
        }
        match get2(parents, p.0, p.1) {
            None => {
                proof {
                    assert(p.0 as int == sx && p.1 as int == sy);
                }
                break;
            }
            Some(parent) => {
                proof {
                    assert(!(p.0 as int == sx && p.1 as int == sy));
                    assert(parent_ok(g, cl, gv, view2(parents), p.0 as int, p.1 as int));
                    lemma_dir_between_step(parent, p);
                    assert(visited(op, cl, parent.0 as int, parent.1 as int));
                    assert(directions@.push(dir_between(parent, p)).drop_last() =~= directions@);
                }
                let direction = get_direction(parent, p);
                directions.push(direction);
                p = parent;
            }
        }
    }
    directions
}

/// What `find` promises: when the food is reachable, the result is a
/// valid move sequence of exactly shortest-route length; when it is
/// not, the result is exactly the corridor fallback's proposal.
pub open spec fn find_post(
    g: Seq<Seq<Tile>>,
    start: Point,
    target: Point,
    r: Seq<Direction>,
) -> bool {
    let sx = start.0 as int;
    let sy = start.1 as int;
    let tx = target.0 as int;
    let ty = target.1 as int;
    &&& (reachable(g, sx, sy, tx, ty) ==> r.len() == dist(g, sx, sy, tx, ty) && path_valid(
        g,
        sx,
        sy,
        tx,
        ty,
        r,
    ))
    &&& (!reachable(g, sx, sy, tx, ty) ==> r == fallback_spec(g, start))
}

/// Calculates a route from the start position to the target on the grid
/// with an A* search over the traversable tiles.  The result is a vector
/// of directions in reverse order, so that popping from the end yields
/// the moves in traversal order.  When no route exists the longest free
/// straight corridor is proposed instead, and an empty vector signals
/// that the start is fully enclosed.
#[verifier::rlimit(100)]
pub fn find(grid: &Grid, start: Point, target: Point) -> (r: Vec<Direction>)
    requires
        grid_wf(grid_view(grid)),
        width(grid_view(grid)) <= MAX_DIM,
        height(grid_view(grid)) <= MAX_DIM,
        in_bounds(grid_view(grid), start.0 as int, start.1 as int),
        in_bounds(grid_view(grid), target.0 as int, target.1 as int),
    ensures
        find_post(grid_view(grid), start, target, r@),
{
    let ghost g = grid_view(grid);
    let ghost sx = start.0 as int;
    let ghost sy = start.1 as int;
    let ghost tx = target.0 as int;
    let ghost ty = target.1 as int;
    let w = grid.len();
    proof {
        assert(grid_view(grid)[0] == grid@[0]@);
    }
    let h = grid[0].len();

    let mut parents: Vec<Vec<Option<Point>>> = filled(w, h, None);
    let mut g_list: Vec<Vec<usize>> = filled(w, h, 0usize);
    let mut open: Vec<Vec<bool>> = filled(w, h, false);
    let mut closed: Vec<Vec<bool>> = filled(w, h, false);

    set2(&mut open, start.0, start.1, true);

    proof {
        assert(reach_n(g, sx, sy, sx, sy, 0));
        assert(visited(view2(&open), view2(&closed), sx, sy));
        assert forall|x: int, y: int|
            in_bounds(g, x, y) && #[trigger] visited(
                view2(&open),
                view2(&closed),
                x,
                y,
            ) implies x == sx && y == sy by {}
        assert(search_inv(g, sx, sy, view2(&closed), view2(&open), view2(&g_list), view2(
            &parents,
        )));
    }

    loop
        invariant
            search_inv(g, sx, sy, view2(&closed), view2(&open), view2(&g_list), view2(&parents)),
            !view2(&closed)[tx][ty],
            g == grid_view(grid),
            grid_wf(g),
            w == width(g) && h == height(g),
            w <= MAX_DIM && h <= MAX_DIM,
            sx == start.0 as int && sy == start.1 as int,
            tx == target.0 as int && ty == target.1 as int,
            in_bounds(g, sx, sy) && in_bounds(g, tx, ty),
        ensures
            search_inv(g, sx, sy, view2(&closed), view2(&open), view2(&g_list), view2(&parents)),
            !view2(&closed)[tx][ty],
            forall|x: int, y: int| in_bounds(g, x, y) ==> !(#[trigger] view2(&open)[x][y]),
        decreases w * h - cell_count(view2(&closed)),
    {
        proof {
            lemma_cell_count_le(view2(&closed), w as int, h as int);
            assert forall|x: int, y: int|
                0 <= x < w && 0 <= y < h && #[trigger] view2(&open)[x][y] implies view2(
                &g_list,
            )[x][y] <= 0x4000_0000 by {
                assert(visited(view2(&open), view2(&closed), x, y));
                assert(w * h <= 0x4000_0000) by (nonlinear_arith)
                    requires
                        w <= 0x8000 && h <= 0x8000,
                ;
            }
        }
        let popped = get_lowest_f(&open, &g_list, target, w, h);
        match popped {
            None => {
                proof {
                    assert forall|x: int, y: int| in_bounds(g, x, y) implies !(
                    #[trigger] view2(&open)[x][y]) by {}
                }
                break;
            }
            Some(p) => {
                let ghost px = p.0 as int;
                let ghost py = p.1 as int;
                proof {
                    lemma_pop_min(
                        g,
                        sx,
                        sy,
                        tx,
                        ty,
                        view2(&closed),
                        view2(&open),
                        view2(&g_list),
                        view2(&parents),
                        px,
                        py,
                    );
                }
                if p.0 == target.0 && p.1 == target.1 {
                    let r = generate_path(
                        start,
                        target,
                        &parents,
                        Ghost(g),
                        Ghost(view2(&closed)),
                        Ghost(view2(&open)),
                        Ghost(view2(&g_list)),
                    );
                    proof {
                        let dd = view2(&g_list)[tx][ty] as nat;
                        assert(is_dist(g, sx, sy, tx, ty, dd));
                        assert(reach_n(g, sx, sy, tx, ty, dd));
                        assert(reachable(g, sx, sy, tx, ty));
                        lemma_dist_unique(g, sx, sy, tx, ty, dd);
                    }
                    return r;
                }
                let ghost cl0 = view2(&closed);
                let ghost op0 = view2(&open);
                let ghost gp = view2(&g_list)[px][py];
                proof {
                    assert(visited(op0, cl0, px, py));
                    assert(gp <= cell_count(cl0));
                    lemma_cell_count_le(cl0, w as int, h as int);
                    assert(w * h <= 0x4000_0000) by (nonlinear_arith)
                        requires
                            w <= 0x8000 && h <= 0x8000,
                    ;
                }
                set2(&mut open, p.0, p.1, false);
                set2(&mut closed, p.0, p.1, true);
                proof {
                    lemma_cell_count_set(cl0, px, py);
                    assert(view2(&closed) =~= cl0.update(px, cl0[px].update(py, true)));
                    assert(cell_count(view2(&closed)) == cell_count(cl0) + 1);
                    let clv = view2(&closed);
                    let opv = view2(&open);
                    let gvv = view2(&g_list);
                    let pav = view2(&parents);
                    assert forall|x: int, y: int|
                        in_bounds(g, x, y) && #[trigger] visited(opv, clv, x, y) implies visited(
                        op0,
                        cl0,
                        x,
                        y,
                    ) by {}
                    assert forall|x: int, y: int|
                        in_bounds(g, x, y) && #[trigger] visited(opv, clv, x, y) && !(x == sx && y
                            == sy) implies traversable(g, x, y) && parent_ok(
                        g,
                        clv,
                        gvv,
                        pav,
                        x,
                        y,
                    ) by {
                        assert(visited(op0, cl0, x, y));
                        assert(parent_ok(g, cl0, gvv, pav, x, y));
                    }
                    assert forall|x: int, y: int|
                        in_bounds(g, x, y) && #[trigger] clv[x][y] implies is_dist(
                        g,
                        sx,
                        sy,
                        x,
                        y,
                        gvv[x][y] as nat,
                    ) by {
                        if !(x == px && y == py) {
                            assert(cl0[x][y]);
                        }
                    }
                    assert forall|x: int, y: int|
                        in_bounds(g, x, y) && #[trigger] visited(opv, clv, x, y) implies reach_n(
                        g,
                        sx,
                        sy,
                        x,
                        y,
                        gvv[x][y] as nat,
                    ) && gvv[x][y] <= cell_count(clv) by {
                        assert(visited(op0, cl0, x, y));
                    }
                    assert(visited(opv, clv, sx, sy));
                    assert(search_core(g, sx, sy, clv, opv, gvv, pav));
                    assert forall|x: int, y: int, d: Direction|
                        #![trigger clv[x][y], step_x(x, d), step_y(y, d)]
                        in_bounds(g, x, y) && clv[x][y] && !(x == px && y == py) && traversable(
                            g,
                            step_x(x, d),
                            step_y(y, d),
                        ) && !clv[step_x(x, d)][step_y(y, d)] implies opv[step_x(x, d)][step_y(
                        y,
                        d,
                    )] && gvv[step_x(x, d)][step_y(y, d)] <= gvv[x][y] + 1 by {
                        assert(cl0[x][y]);
                        assert(!cl0[step_x(x, d)][step_y(y, d)]);
                        assert(op0[step_x(x, d)][step_y(y, d)] && gvv[step_x(x, d)][step_y(y, d)]
                            <= gvv[x][y] + 1);
                        assert(!(step_x(x, d) == px && step_y(y, d) == py));
                    }
                }
                let succ = generate_successors(p, grid);
                let mut i: usize = 0;
                while i < succ.len()
                    invariant
                        search_core(
                            g,
                            sx,
                            sy,
                            view2(&closed),
                            view2(&open),
                            view2(&g_list),
                            view2(&parents),
                        ),
                        g == grid_view(grid),
                        grid_wf(g),
                        w == width(g) && h == height(g),
                        w <= MAX_DIM && h <= MAX_DIM,
                        sx == start.0 as int && sy == start.1 as int,
                        tx == target.0 as int && ty == target.1 as int,
                        in_bounds(g, sx, sy) && in_bounds(g, tx, ty),
                        in_bounds(g, px, py),
                        px == p.0 as int && py == p.1 as int,
                        !(px == tx && py == ty),
                        view2(&closed)[px][py],
                        !view2(&closed)[tx][ty],
                        view2(&g_list)[px][py] == gp,
                        gp <= 0x4000_0000,
                        gp + 1 <= cell_count(view2(&closed)),
                        cell_count(view2(&closed)) == cell_count(cl0) + 1,
                        succ@ == crate::game::successors_spec(g, p),
                        i <= succ@.len(),
                        forall|j: int|
                            0 <= j < i ==> {
                                let s = #[trigger] succ@[j];
                                traversable(g, s.0 as int, s.1 as int) && !view2(
                                    &closed,
                                )[s.0 as int][s.1 as int] ==> view2(&open)[s.0 as int][s.1 as int]
                                    && view2(&g_list)[s.0 as int][s.1 as int] <= gp + 1
                            },
                        forall|x: int, y: int, d: Direction|
                            #![trigger view2(&closed)[x][y], step_x(x, d), step_y(y, d)]
                            in_bounds(g, x, y) && view2(&closed)[x][y] && !(x == px && y == py)
                                && traversable(g, step_x(x, d), step_y(y, d)) && !view2(
                                &closed,
                            )[step_x(x, d)][step_y(y, d)] ==> view2(&open)[step_x(x, d)][step_y(
                                y,
                                d,
                            )] && view2(&g_list)[step_x(x, d)][step_y(y, d)] <= view2(&g_list)[x][y]
                                + 1,
                    decreases succ@.len() - i,
                {
                    let s = succ[i];
                    proof {
                        assert(in_bounds(g, s.0 as int, s.1 as int) && manhattan(
                            px,
                            py,
                            s.0 as int,
                            s.1 as int,
                        ) == 1);
                    }
                    if !blocked_tile(grid, s) {
                        if !get2(&closed, s.0, s.1) {
                            let gnew = get2(&g_list, p.0, p.1) + 1;
                            let s_open = get2(&open, s.0, s.1);
                            let s_g = get2(&g_list, s.0, s.1);
                            if !s_open || gnew < s_g {
                                proof {
                                    assert(visited(view2(&open), view2(&closed), sx, sy));
                                    assert(!(s.0 as int == sx && s.1 as int == sy));
                                }
                                let ghost opA = view2(&open);
                                let ghost gvA = view2(&g_list);
                                let ghost paA = view2(&parents);
                                set2(&mut g_list, s.0, s.1, gnew);
                                set2(&mut parents, s.0, s.1, Some(p));
                                set2(&mut open, s.0, s.1, true);
                                proof {
                                    let s0 = s.0 as int;
                                    let s1 = s.1 as int;
                                    let clv = view2(&closed);
                                    let opv = view2(&open);
                                    let gvv = view2(&g_list);
                                    let pav = view2(&parents);
                                    lemma_adjacent_dir(px, py, s0, s1);
                                    let e = choose|e: Direction|
                                        s0 == step_x(px, e) && s1 == step_y(py, e);
                                    assert(visited(opA, clv, px, py));
                                    assert(reach_n(g, sx, sy, px, py, gp as nat));
                                    lemma_reach_extend(g, sx, sy, px, py, e, gp as nat);
                                    assert(reach_n(g, sx, sy, s0, s1, gnew as nat));
                                    assert(gvv[s0][s1] == gnew && pav[s0][s1] == Some(p)
                                        && opv[s0][s1]);
                                    assert forall|x: int, y: int|
                                        in_bounds(g, x, y) && !(x == s0 && y == s1) implies gvv[x][y]
                                        == gvA[x][y] && pav[x][y] == paA[x][y] && opv[x][y]
                                        == opA[x][y] by {}
                                    assert(parent_ok(g, clv, gvv, pav, s0, s1));
                                    assert forall|x: int, y: int|
                                        in_bounds(g, x, y) && #[trigger] visited(opv, clv, x, y)
                                            && !(x == sx && y == sy) implies traversable(g, x, y)
                                        && parent_ok(g, clv, gvv, pav, x, y) by {
                                        if !(x == s0 && y == s1) {
                                            assert(visited(opA, clv, x, y));
                                            assert(parent_ok(g, clv, gvA, paA, x, y));
                                            let q = paA[x][y].unwrap();
                                            assert(clv[q.0 as int][q.1 as int]);
                                            assert(!(q.0 as int == s0 && q.1 as int == s1));
                                        }
                                    }
                                    assert forall|x: int, y: int|
                                        in_bounds(g, x, y) && #[trigger] visited(opv, clv, x, y)
                                            implies reach_n(g, sx, sy, x, y, gvv[x][y] as nat)
                                        && gvv[x][y] <= cell_count(clv) by {
                                        if !(x == s0 && y == s1) {
                                            assert(visited(opA, clv, x, y));
                                        }
                                    }
                                    assert(visited(opv, clv, sx, sy) && gvv[sx][sy] == 0
                                        && pav[sx][sy] is None);
                                    assert(search_core(g, sx, sy, clv, opv, gvv, pav));
                                    assert forall|x: int, y: int, d: Direction|
                                        #![trigger clv[x][y], step_x(x, d), step_y(y, d)]
                                        in_bounds(g, x, y) && clv[x][y] && !(x == px && y == py)
                                            && traversable(g, step_x(x, d), step_y(y, d))
                                            && !clv[step_x(x, d)][step_y(y, d)] implies opv[step_x(
                                        x,
                                        d,
                                    )][step_y(y, d)] && gvv[step_x(x, d)][step_y(y, d)] <= gvv[x][y]
                                        + 1 by {
                                        assert(opA[step_x(x, d)][step_y(y, d)] && gvA[step_x(x, d)][step_y(
                                            y,
                                            d,
                                        )] <= gvA[x][y] + 1);
                                        assert(!(x == s0 && y == s1));
                                    }
                                    assert forall|j: int| 0 <= j < i + 1 implies {
                                        let sc = #[trigger] succ@[j];
                                        traversable(g, sc.0 as int, sc.1 as int) && !clv[sc.0 as int][sc.1 as int]
                                            ==> opv[sc.0 as int][sc.1 as int]
                                                && gvv[sc.0 as int][sc.1 as int] <= gp + 1
                                    } by {
                                        let sc = succ@[j];
                                        if !(sc.0 as int == s0 && sc.1 as int == s1) && j < i {
                                            assert(traversable(g, sc.0 as int, sc.1 as int)
                                                && !clv[sc.0 as int][sc.1 as int]
                                                ==> opA[sc.0 as int][sc.1 as int]
                                                    && gvA[sc.0 as int][sc.1 as int] <= gp + 1);
                                        }
                                    }
                                }
                            } else {
                                proof {
                                    assert forall|j: int| 0 <= j < i + 1 implies {
                                        let sc = #[trigger] succ@[j];
                                        traversable(g, sc.0 as int, sc.1 as int) && !view2(
                                            &closed,
                                        )[sc.0 as int][sc.1 as int] ==> view2(
                                            &open,
                                        )[sc.0 as int][sc.1 as int] && view2(
                                            &g_list,
                                        )[sc.0 as int][sc.1 as int] <= gp + 1
                                    } by {}
                                }
                            }
                        }
                    }
                    i = i + 1;
                }
                proof {
                    let clv = view2(&closed);
                    let opv = view2(&open);
                    let gvv = view2(&g_list);
                    assert forall|x: int, y: int, d: Direction|
                        #![trigger clv[x][y], step_x(x, d), step_y(y, d)]
                        in_bounds(g, x, y) && clv[x][y] && traversable(
                            g,
                            step_x(x, d),
                            step_y(y, d),
                        ) && !clv[step_x(x, d)][step_y(y, d)] implies opv[step_x(x, d)][step_y(
                        y,
                        d,
                    )] && gvv[step_x(x, d)][step_y(y, d)] <= gvv[x][y] + 1 by {
                        if x == px && y == py {
                            lemma_successors_complete(g, p, d);
                            let j = choose|j: int|
                                #![trigger crate::game::successors_spec(g, p)[j]]
                                0 <= j < crate::game::successors_spec(g, p).len()
                                    && crate::game::successors_spec(g, p)[j].0 == step_x(px, d)
                                    && crate::game::successors_spec(g, p)[j].1 == step_y(py, d);
                            assert(succ@[j].0 as int == step_x(px, d) && succ@[j].1 as int
                                == step_y(py, d));
                        }
                    }
                    assert(frontier_ok(g, view2(&closed), view2(&open), view2(&g_list)));
                    lemma_cell_count_le(view2(&closed), w as int, h as int);
                }
            }
        }
    }
    proof {
        lemma_exhausted(
            g,
            sx,
            sy,
            tx,
            ty,
            view2(&closed),
            view2(&open),
            view2(&g_list),
            view2(&parents),
        );
    }
    best_straight_path(grid, start)
}

/// Why a search request was rejected at the call boundary.
#[derive(Debug, PartialEq, Eq, Structural, Clone, Copy)]
pub enum PathError {
    InvalidCoordinate,
}

/// Validates the caller's coordinates before searching: a start or
/// target outside the grid is reported as an invalid coordinate
/// instead of being accepted silently.
pub fn find_checked(grid: &Grid, start: Point, target: Point) -> (r: Result<
    Vec<Direction>,
    PathError,
>)
    requires
        grid_wf(grid_view(grid)),
        width(grid_view(grid)) <= MAX_DIM,
        height(grid_view(grid)) <= MAX_DIM,
    ensures
        match r {
            Ok(path) => {
                &&& in_bounds(grid_view(grid), start.0 as int, start.1 as int)
                &&& in_bounds(grid_view(grid), target.0 as int, target.1 as int)
                &&& find_post(grid_view(grid), start, target, path@)
            },
            Err(e) => {
                &&& e == PathError::InvalidCoordinate
                &&& !(in_bounds(grid_view(grid), start.0 as int, start.1 as int) && in_bounds(
                    grid_view(grid),
                    target.0 as int,
                    target.1 as int,
                ))
            },
        },
{
    let w = grid.len();
    proof {
        assert(grid_view(grid)[0] == grid@[0]@);
    }
    let h = grid[0].len();
    if start.0 < w && start.1 < h && target.0 < w && target.1 < h {
        Ok(find(grid, start, target))
    } else {
        Err(PathError::InvalidCoordinate)
    }
}

} // verus!
