//! Mathematical model of the grid: traversability, step geometry,
//! Manhattan distance, reachability and shortest-route distance.

use vstd::prelude::*;

verus! {

use crate::types::{Direction, Grid, Tile};

/// The mathematical view of a grid: a sequence of columns of tiles.
pub open spec fn grid_view(g: &Grid) -> Seq<Seq<Tile>> {
    Seq::new(g@.len(), |x: int| g@[x]@)
}

/// A grid is well formed when it is a non-empty rectangle.
pub open spec fn grid_wf(g: Seq<Seq<Tile>>) -> bool {
    &&& g.len() > 0
    &&& g[0].len() > 0
    &&& forall|x: int| 0 <= x < g.len() ==> #[trigger] g[x].len() == g[0].len()
}

pub open spec fn width(g: Seq<Seq<Tile>>) -> int {
    g.len() as int
}

pub open spec fn height(g: Seq<Seq<Tile>>) -> int {
    g[0].len() as int
}

pub open spec fn in_bounds(g: Seq<Seq<Tile>>, x: int, y: int) -> bool {
    0 <= x < width(g) && 0 <= y < height(g)
}

/// A cell can be stepped onto exactly when it holds a `Free` or `Food` tile.
pub open spec fn traversable(g: Seq<Seq<Tile>>, x: int, y: int) -> bool {
    in_bounds(g, x, y) && (g[x][y] == Tile::Free || g[x][y] == Tile::Food)
}

/// The x coordinate after one step in direction `d`.
pub open spec fn step_x(x: int, d: Direction) -> int {
    match d {
        Direction::West => x - 1,
        Direction::East => x + 1,
        _ => x,
    }
}

/// The y coordinate after one step in direction `d`.
pub open spec fn step_y(y: int, d: Direction) -> int {
    match d {
        Direction::North => y - 1,
        Direction::South => y + 1,
        _ => y,
    }
}

pub open spec fn abs_diff(a: int, b: int) -> int {
    if a >= b {
        a - b
    } else {
        b - a
    }
}

/// The Manhattan distance between two cells, the pathfinder's heuristic.
pub open spec fn manhattan(x1: int, y1: int, x2: int, y2: int) -> int {
    abs_diff(x1, x2) + abs_diff(y1, y2)
}

/// There is a route of at most `n` unit steps from (sx, sy) to (tx, ty)
/// all of whose cells after the first are traversable.
pub open spec fn reach_n(
    g: Seq<Seq<Tile>>,
    sx: int,
    sy: int,
    tx: int,
    ty: int,
    n: nat,
) -> bool
    decreases n,
{
    (sx == tx && sy == ty) || (n > 0 && traversable(g, tx, ty) && exists|d: Direction|
        reach_n(g, sx, sy, step_x(tx, d), step_y(ty, d), (n - 1) as nat))
}

/// Some route leads from (sx, sy) to (tx, ty).
pub open spec fn reachable(g: Seq<Seq<Tile>>, sx: int, sy: int, tx: int, ty: int) -> bool {
    exists|n: nat| reach_n(g, sx, sy, tx, ty, n)
}

/// `n` is the length of a shortest route from (sx, sy) to (tx, ty).
pub open spec fn is_dist(g: Seq<Seq<Tile>>, sx: int, sy: int, tx: int, ty: int, n: nat) -> bool {
    &&& reach_n(g, sx, sy, tx, ty, n)
    &&& forall|m: nat| m < n ==> !reach_n(g, sx, sy, tx, ty, m)
}

/// The length of a shortest route from (sx, sy) to (ty, ty); meaningful
/// only when `reachable` holds.
pub open spec fn dist(g: Seq<Seq<Tile>>, sx: int, sy: int, tx: int, ty: int) -> nat {
    choose|n: nat| is_dist(g, sx, sy, tx, ty, n)
}

/// A route of at most `n` steps is also a route of at most `m >= n` steps.
pub proof fn lemma_reach_mono(
    g: Seq<Seq<Tile>>,
    sx: int,
    sy: int,
    tx: int,
    ty: int,
    n: nat,
    m: nat,
)
    requires
        reach_n(g, sx, sy, tx, ty, n),
        n <= m,
    ensures
        reach_n(g, sx, sy, tx, ty, m),
    decreases n,
{
    if sx == tx && sy == ty {
    } else {
        let d = choose|d: Direction|
            reach_n(g, sx, sy, step_x(tx, d), step_y(ty, d), (n - 1) as nat);
        lemma_reach_mono(g, sx, sy, step_x(tx, d), step_y(ty, d), (n - 1) as nat, (m - 1) as nat);
        assert(reach_n(g, sx, sy, step_x(tx, d), step_y(ty, d), (m - 1) as nat));
    }
}

/// Among all route lengths there is a least one.
pub proof fn lemma_min_reach(g: Seq<Seq<Tile>>, sx: int, sy: int, tx: int, ty: int, n: nat)
    requires
        reach_n(g, sx, sy, tx, ty, n),
    ensures
        exists|m: nat| is_dist(g, sx, sy, tx, ty, m),
    decreases n,
{
    if forall|m: nat| m < n ==> !reach_n(g, sx, sy, tx, ty, m) {
        assert(is_dist(g, sx, sy, tx, ty, n));
    } else {
        let m = choose|m: nat| m < n && reach_n(g, sx, sy, tx, ty, m);
        lemma_min_reach(g, sx, sy, tx, ty, m);
    }
}

/// When a route of at most `n` steps exists, `dist` is a shortest route
/// length and is at most `n`.
pub proof fn lemma_dist_le(g: Seq<Seq<Tile>>, sx: int, sy: int, tx: int, ty: int, n: nat)
    requires
        reach_n(g, sx, sy, tx, ty, n),
    ensures
        is_dist(g, sx, sy, tx, ty, dist(g, sx, sy, tx, ty)),
        dist(g, sx, sy, tx, ty) <= n,
{
    lemma_min_reach(g, sx, sy, tx, ty, n);
    let m = choose|m: nat| is_dist(g, sx, sy, tx, ty, m);
    assert(is_dist(g, sx, sy, tx, ty, dist(g, sx, sy, tx, ty)));
}

/// A shortest route length is unique.
pub proof fn lemma_dist_unique(g: Seq<Seq<Tile>>, sx: int, sy: int, tx: int, ty: int, n: nat)
    requires
        is_dist(g, sx, sy, tx, ty, n),
    ensures
        n == dist(g, sx, sy, tx, ty),
{
    lemma_dist_le(g, sx, sy, tx, ty, n);
}

/// No route is shorter than the Manhattan distance between its endpoints.
pub proof fn lemma_reach_ge_manhattan(
    g: Seq<Seq<Tile>>,
    sx: int,
    sy: int,
    tx: int,
    ty: int,
    n: nat,
)
    requires
        reach_n(g, sx, sy, tx, ty, n),
    ensures
        n >= manhattan(sx, sy, tx, ty),
    decreases n,
{
    if sx == tx && sy == ty {
    } else {
        let d = choose|d: Direction|
            reach_n(g, sx, sy, step_x(tx, d), step_y(ty, d), (n - 1) as nat);
        lemma_reach_ge_manhattan(g, sx, sy, step_x(tx, d), step_y(ty, d), (n - 1) as nat);
    }
}

/// A route can be extended by one step onto a traversable cell.
pub proof fn lemma_reach_extend(
    g: Seq<Seq<Tile>>,
    sx: int,
    sy: int,
    mx: int,
    my: int,
    e: Direction,
    n: nat,
)
    requires
        reach_n(g, sx, sy, mx, my, n),
        traversable(g, step_x(mx, e), step_y(my, e)),
    ensures
        reach_n(g, sx, sy, step_x(mx, e), step_y(my, e), n + 1),
{
    let tx = step_x(mx, e);
    let ty = step_y(my, e);
    let d = e.opposite_spec();
    assert(step_x(tx, d) == mx && step_y(ty, d) == my);
    assert(reach_n(g, sx, sy, step_x(tx, d), step_y(ty, d), n));
}

/// Routes compose: one of at most `n` steps followed by one of at most
/// `m` steps gives one of at most `n + m` steps.
pub proof fn lemma_reach_trans(
    g: Seq<Seq<Tile>>,
    ax: int,
    ay: int,
    bx: int,
    by: int,
    cx: int,
    cy: int,
    n: nat,
    m: nat,
)
    requires
        reach_n(g, ax, ay, bx, by, n),
        reach_n(g, bx, by, cx, cy, m),
    ensures
        reach_n(g, ax, ay, cx, cy, n + m),
    decreases m,
{
    if bx == cx && by == cy {
        lemma_reach_mono(g, ax, ay, bx, by, n, n + m);
    } else {
        let d = choose|d: Direction|
            reach_n(g, bx, by, step_x(cx, d), step_y(cy, d), (m - 1) as nat);
        lemma_reach_trans(g, ax, ay, bx, by, step_x(cx, d), step_y(cy, d), n, (m - 1) as nat);
        assert(reach_n(g, ax, ay, step_x(cx, d), step_y(cy, d), n + (m - 1) as nat));
    }
}

/// The sequence of moves `dirs`, applied from its last element to its
/// first (the order in which the game pops them), leads from (sx, sy)
/// to (tx, ty) over traversable cells.
pub open spec fn path_valid(
    g: Seq<Seq<Tile>>,
    sx: int,
    sy: int,
    tx: int,
    ty: int,
    dirs: Seq<Direction>,
) -> bool
    decreases dirs.len(),
{
    if dirs.len() == 0 {
        sx == tx && sy == ty
    } else {
        let d = dirs.last();
        traversable(g, step_x(sx, d), step_y(sy, d)) && path_valid(
            g,
            step_x(sx, d),
            step_y(sy, d),
            tx,
            ty,
            dirs.drop_last(),
        )
    }
}

/// A valid move sequence of length `n` witnesses a route of at most `n` steps.
pub proof fn lemma_path_valid_reach(
    g: Seq<Seq<Tile>>,
    sx: int,
    sy: int,
    tx: int,
    ty: int,
    dirs: Seq<Direction>,
)
    requires
        path_valid(g, sx, sy, tx, ty, dirs),
    ensures
        reach_n(g, sx, sy, tx, ty, dirs.len()),
    decreases dirs.len(),
{
    if dirs.len() == 0 {
    } else {
        let d = dirs.last();
        let mx = step_x(sx, d);
        let my = step_y(sy, d);
        lemma_path_valid_reach(g, mx, my, tx, ty, dirs.drop_last());
        assert(reach_n(g, sx, sy, mx, my, 1)) by {
            let b = d.opposite_spec();
            assert(step_x(mx, b) == sx && step_y(my, b) == sy);
            assert(reach_n(g, sx, sy, step_x(mx, b), step_y(my, b), 0));
        }
        lemma_reach_trans(g, sx, sy, mx, my, tx, ty, 1, (dirs.len() - 1) as nat);
    }
}

/// The total x displacement of a move sequence.
pub open spec fn delta_x(dirs: Seq<Direction>) -> int
    decreases dirs.len(),
{
    if dirs.len() == 0 {
        0
    } else {
        delta_x(dirs.drop_last()) + step_x(0, dirs.last())
    }
}

/// The total y displacement of a move sequence.
pub open spec fn delta_y(dirs: Seq<Direction>) -> int
    decreases dirs.len(),
{
    if dirs.len() == 0 {
        0
    } else {
        delta_y(dirs.drop_last()) + step_y(0, dirs.last())
    }
}

/// A valid move sequence displaces its start cell exactly onto its
/// target cell.
pub proof fn lemma_path_valid_delta(
    g: Seq<Seq<Tile>>,
    sx: int,
    sy: int,
    tx: int,
    ty: int,
    dirs: Seq<Direction>,
)
    requires
        path_valid(g, sx, sy, tx, ty, dirs),
    ensures
        sx + delta_x(dirs) == tx,
        sy + delta_y(dirs) == ty,
    decreases dirs.len(),
{
    if dirs.len() == 0 {
    } else {
        let d = dirs.last();
        lemma_path_valid_delta(g, step_x(sx, d), step_y(sy, d), tx, ty, dirs.drop_last());
    }
}

/// How many moves of a sequence point in direction `d`.
pub open spec fn count_dir(dirs: Seq<Direction>, d: Direction) -> nat
    decreases dirs.len(),
{
    if dirs.len() == 0 {
        0
    } else {
        count_dir(dirs.drop_last(), d) + if dirs.last() == d {
            1nat
        } else {
            0nat
        }
    }
}

/// Move counts determine length and displacement: the four per-direction
/// counts sum to the length, and opposite counts cancel into the deltas.
pub proof fn lemma_counts(dirs: Seq<Direction>)
    ensures
        count_dir(dirs, Direction::North) + count_dir(dirs, Direction::South) + count_dir(
            dirs,
            Direction::West,
        ) + count_dir(dirs, Direction::East) == dirs.len(),
        delta_x(dirs) == count_dir(dirs, Direction::East) - count_dir(dirs, Direction::West),
        delta_y(dirs) == count_dir(dirs, Direction::South) - count_dir(dirs, Direction::North),
    decreases dirs.len(),
{
    if dirs.len() == 0 {
    } else {
        lemma_counts(dirs.drop_last());
    }
}

} // verus!
