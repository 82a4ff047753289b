//! Laws of the pathfinder, stated and proved against the contract of
//! `find` alone: admissibility, exact behavior on unobstructed straight
//! and diagonal layouts, determinism of length and displacement, and
//! the fallback's behavior around an enclosed start.

use vstd::prelude::*;

verus! {

use crate::path::{corridor, corridor_from, fallback_dir, find_post};
use crate::reach::{
    abs_diff, count_dir, delta_x, delta_y, dist, lemma_counts, lemma_dist_le,
    lemma_path_valid_delta, lemma_path_valid_reach, lemma_reach_ge_manhattan, lemma_reach_trans,
    manhattan, path_valid, reach_n, reachable, step_x, step_y, traversable,
};
use crate::types::{Direction, Point, Tile};

/// A clear straight run along the x axis gives a route of exactly its
/// length in steps.
proof fn lemma_straight_reach_x(g: Seq<Seq<Tile>>, sx: int, sy: int, tx: int)
    requires
        forall|x: int|
            (if sx <= tx {
                sx <= x <= tx
            } else {
                tx <= x <= sx
            }) && x != sx ==> traversable(g, x, sy),
    ensures
        reach_n(g, sx, sy, tx, sy, abs_diff(sx, tx) as nat),
    decreases abs_diff(sx, tx),
{
    if sx == tx {
    } else if tx > sx {
        lemma_straight_reach_x(g, sx, sy, tx - 1);
        assert(reach_n(g, sx, sy, step_x(tx, Direction::West), step_y(sy, Direction::West), (
        abs_diff(sx, tx) - 1) as nat));
    } else {
        lemma_straight_reach_x(g, sx, sy, tx + 1);
        assert(reach_n(g, sx, sy, step_x(tx, Direction::East), step_y(sy, Direction::East), (
        abs_diff(sx, tx) - 1) as nat));
    }
}

/// A clear straight run along the y axis gives a route of exactly its
/// length in steps.
proof fn lemma_straight_reach_y(g: Seq<Seq<Tile>>, sx: int, sy: int, ty: int)
    requires
        forall|y: int|
            (if sy <= ty {
                sy <= y <= ty
            } else {
                ty <= y <= sy
            }) && y != sy ==> traversable(g, sx, y),
    ensures
        reach_n(g, sx, sy, sx, ty, abs_diff(sy, ty) as nat),
    decreases abs_diff(sy, ty),
{
    if sy == ty {
    } else if ty > sy {
        lemma_straight_reach_y(g, sx, sy, ty - 1);
        assert(reach_n(g, sx, sy, step_x(sx, Direction::North), step_y(ty, Direction::North), (
        abs_diff(sy, ty) - 1) as nat));
    } else {
        lemma_straight_reach_y(g, sx, sy, ty + 1);
        assert(reach_n(g, sx, sy, step_x(sx, Direction::South), step_y(ty, Direction::South), (
        abs_diff(sy, ty) - 1) as nat));
    }
}

/// A valid move sequence whose length equals the Manhattan distance of
/// its endpoints never wastes a move: with both endpoints on one row,
/// every move is the single axis direction toward the target.
proof fn lemma_min_path_same_row(
    g: Seq<Seq<Tile>>,
    sx: int,
    sy: int,
    tx: int,
    dirs: Seq<Direction>,
)
    requires
        path_valid(g, sx, sy, tx, sy, dirs),
        dirs.len() == manhattan(sx, sy, tx, sy),
    ensures
        forall|i: int|
            0 <= i < dirs.len() ==> #[trigger] dirs[i] == (if tx > sx {
                Direction::East
            } else {
                Direction::West
            }),
    decreases dirs.len(),
{
    if dirs.len() > 0 {
        let d = dirs.last();
        let nx = step_x(sx, d);
        let ny = step_y(sy, d);
        lemma_path_valid_reach(g, nx, ny, tx, sy, dirs.drop_last());
        lemma_reach_ge_manhattan(g, nx, ny, tx, sy, dirs.drop_last().len() as nat);
        assert(manhattan(nx, ny, tx, sy) == dirs.len() - 1);
        assert(d == (if tx > sx {
            Direction::East
        } else {
            Direction::West
        }));
        assert(ny == sy);
        lemma_min_path_same_row(g, nx, sy, tx, dirs.drop_last());
        assert(forall|i: int|
            0 <= i < dirs.len() - 1 ==> #[trigger] dirs[i] == dirs.drop_last()[i]);
    }
}

/// For all grids with an unobstructed straight run between start and
/// target on one row -- every cell from the start (exclusive) to the
/// target (inclusive) traversable -- `find` returns exactly `|dx|`
/// moves, all pointing the same way.
pub proof fn lemma_find_straight_row(
    g: Seq<Seq<Tile>>,
    start: Point,
    target: Point,
    r: Seq<Direction>,
)
    requires
        find_post(g, start, target, r),
        start.1 == target.1,
        forall|x: int|
            (if start.0 <= target.0 {
                start.0 <= x <= target.0
            } else {
                target.0 <= x <= start.0
            }) && x != start.0 ==> traversable(g, x, start.1 as int),
    ensures
        r.len() == abs_diff(start.0 as int, target.0 as int),
        forall|i: int|
            0 <= i < r.len() ==> #[trigger] r[i] == (if target.0 > start.0 {
                Direction::East
            } else {
                Direction::West
            }),
{
    let sx = start.0 as int;
    let sy = start.1 as int;
    let tx = target.0 as int;
    let ty = target.1 as int;
    lemma_straight_reach_x(g, sx, sy, tx);
    assert(reachable(g, sx, sy, tx, ty));
    lemma_dist_le(g, sx, sy, tx, ty, abs_diff(sx, tx) as nat);
    lemma_reach_ge_manhattan(g, sx, sy, tx, ty, dist(g, sx, sy, tx, ty));
    assert(dist(g, sx, sy, tx, ty) == abs_diff(sx, tx));
    lemma_min_path_same_row(g, sx, sy, tx, r);
}

/// A valid move sequence whose length equals the Manhattan distance of
/// its endpoints never wastes a move: with both endpoints on one
/// column, every move is the single axis direction toward the target.
proof fn lemma_min_path_same_column(
    g: Seq<Seq<Tile>>,
    sx: int,
    sy: int,
    ty: int,
    dirs: Seq<Direction>,
)
    requires
        path_valid(g, sx, sy, sx, ty, dirs),
        dirs.len() == manhattan(sx, sy, sx, ty),
    ensures
        forall|i: int|
            0 <= i < dirs.len() ==> #[trigger] dirs[i] == (if ty > sy {
                Direction::South
            } else {
                Direction::North
            }),
    decreases dirs.len(),
{
    if dirs.len() > 0 {
        let d = dirs.last();
        let nx = step_x(sx, d);
        let ny = step_y(sy, d);
        lemma_path_valid_reach(g, nx, ny, sx, ty, dirs.drop_last());
        lemma_reach_ge_manhattan(g, nx, ny, sx, ty, dirs.drop_last().len() as nat);
        assert(manhattan(nx, ny, sx, ty) == dirs.len() - 1);
        assert(d == (if ty > sy {
            Direction::South
        } else {
            Direction::North
        }));
        assert(nx == sx);
        lemma_min_path_same_column(g, sx, ny, ty, dirs.drop_last());
        assert(forall|i: int|
            0 <= i < dirs.len() - 1 ==> #[trigger] dirs[i] == dirs.drop_last()[i]);
    }
}

/// For all grids with an unobstructed straight run between start and
/// target on one column -- every cell from the start (exclusive) to the
/// target (inclusive) traversable -- `find` returns exactly `|dy|`
/// moves, all pointing the same way.
pub proof fn lemma_find_straight_column(
    g: Seq<Seq<Tile>>,
    start: Point,
    target: Point,
    r: Seq<Direction>,
)
    requires
        find_post(g, start, target, r),
        start.0 == target.0,
        forall|y: int|
            (if start.1 <= target.1 {
                start.1 <= y <= target.1
            } else {
                target.1 <= y <= start.1
            }) && y != start.1 ==> traversable(g, start.0 as int, y),
    ensures
        r.len() == abs_diff(start.1 as int, target.1 as int),
        forall|i: int|
            0 <= i < r.len() ==> #[trigger] r[i] == (if target.1 > start.1 {
                Direction::South
            } else {
                Direction::North
            }),
{
    let sx = start.0 as int;
    let sy = start.1 as int;
    let tx = target.0 as int;
    let ty = target.1 as int;
    lemma_straight_reach_y(g, sx, sy, ty);
    assert(reachable(g, sx, sy, tx, ty));
    lemma_dist_le(g, sx, sy, tx, ty, abs_diff(sy, ty) as nat);
    lemma_reach_ge_manhattan(g, sx, sy, tx, ty, dist(g, sx, sy, tx, ty));
    assert(dist(g, sx, sy, tx, ty) == abs_diff(sy, ty));
    lemma_min_path_same_column(g, sx, sy, ty, r);
}

/// For all grids where the whole axis-aligned rectangle spanned by
/// start and target is unobstructed, `find` returns exactly
/// `|dx| + |dy|` moves whose per-direction counts match the
/// displacement: `|dx|` moves on the x axis toward the target and
/// `|dy|` moves on the y axis toward the target, in some order.
pub proof fn lemma_find_clear_rectangle(
    g: Seq<Seq<Tile>>,
    start: Point,
    target: Point,
    r: Seq<Direction>,
)
    requires
        find_post(g, start, target, r),
        forall|x: int, y: int|
            (if start.0 <= target.0 {
                start.0 <= x <= target.0
            } else {
                target.0 <= x <= start.0
            }) && (if start.1 <= target.1 {
                start.1 <= y <= target.1
            } else {
                target.1 <= y <= start.1
            }) && !(x == start.0 && y == start.1) ==> traversable(g, x, y),
    ensures
        r.len() == manhattan(start.0 as int, start.1 as int, target.0 as int, target.1 as int),
        count_dir(r, Direction::East) == (if target.0 >= start.0 {
            target.0 - start.0
        } else {
            0
        }),
        count_dir(r, Direction::West) == (if start.0 >= target.0 {
            start.0 - target.0
        } else {
            0
        }),
        count_dir(r, Direction::South) == (if target.1 >= start.1 {
            target.1 - start.1
        } else {
            0
        }),
        count_dir(r, Direction::North) == (if start.1 >= target.1 {
            start.1 - target.1
        } else {
            0
        }),
{
    let sx = start.0 as int;
    let sy = start.1 as int;
    let tx = target.0 as int;
    let ty = target.1 as int;
    if sx == tx && sy == ty {
        assert(reach_n(g, sx, sy, tx, ty, 0));
    } else if sx == tx {
        lemma_straight_reach_y(g, sx, sy, ty);
    } else {
        lemma_straight_reach_x(g, sx, sy, tx);
        lemma_straight_reach_y(g, tx, sy, ty);
        lemma_reach_trans(g, sx, sy, tx, sy, tx, ty, abs_diff(sx, tx) as nat, abs_diff(
            sy,
            ty,
        ) as nat);
    }
    assert(reach_n(g, sx, sy, tx, ty, manhattan(sx, sy, tx, ty) as nat));
    assert(reachable(g, sx, sy, tx, ty));
    lemma_dist_le(g, sx, sy, tx, ty, manhattan(sx, sy, tx, ty) as nat);
    lemma_reach_ge_manhattan(g, sx, sy, tx, ty, dist(g, sx, sy, tx, ty));
    assert(dist(g, sx, sy, tx, ty) == manhattan(sx, sy, tx, ty));
    assert(r.len() == manhattan(sx, sy, tx, ty));
    lemma_path_valid_delta(g, sx, sy, tx, ty, r);
    lemma_counts(r);
}

/// For all grids with a route from start to target, the number of moves
/// `find` returns is at least the Manhattan distance between them.
pub proof fn lemma_find_admissible(
    g: Seq<Seq<Tile>>,
    start: Point,
    target: Point,
    r: Seq<Direction>,
)
    requires
        find_post(g, start, target, r),
        reachable(g, start.0 as int, start.1 as int, target.0 as int, target.1 as int),
    ensures
        r.len() >= manhattan(start.0 as int, start.1 as int, target.0 as int, target.1 as int),
{
    let sx = start.0 as int;
    let sy = start.1 as int;
    let tx = target.0 as int;
    let ty = target.1 as int;
    let n = choose|n: nat| reach_n(g, sx, sy, tx, ty, n);
    lemma_dist_le(g, sx, sy, tx, ty, n);
    lemma_reach_ge_manhattan(g, sx, sy, tx, ty, dist(g, sx, sy, tx, ty));
}

/// Two calls of `find` on an unchanged grid, start and target return
/// the same number of moves and the same total displacement.
pub proof fn lemma_find_deterministic(
    g: Seq<Seq<Tile>>,
    start: Point,
    target: Point,
    r1: Seq<Direction>,
    r2: Seq<Direction>,
)
    requires
        find_post(g, start, target, r1),
        find_post(g, start, target, r2),
    ensures
        r1.len() == r2.len(),
        delta_x(r1) == delta_x(r2),
        delta_y(r1) == delta_y(r2),
{
    let sx = start.0 as int;
    let sy = start.1 as int;
    let tx = target.0 as int;
    let ty = target.1 as int;
    if reachable(g, sx, sy, tx, ty) {
        lemma_path_valid_delta(g, sx, sy, tx, ty, r1);
        lemma_path_valid_delta(g, sx, sy, tx, ty, r2);
    }
}

/// No route leaves a start whose four neighbors are all blocked.
proof fn lemma_enclosed_unreachable(
    g: Seq<Seq<Tile>>,
    sx: int,
    sy: int,
    qx: int,
    qy: int,
    n: nat,
)
    requires
        forall|d: Direction| !traversable(g, step_x(sx, d), step_y(sy, d)),
        reach_n(g, sx, sy, qx, qy, n),
    ensures
        qx == sx && qy == sy,
    decreases n,
{
    if !(qx == sx && qy == sy) {
        let d = choose|d: Direction|
            reach_n(g, sx, sy, step_x(qx, d), step_y(qy, d), (n - 1) as nat);
        lemma_enclosed_unreachable(g, sx, sy, step_x(qx, d), step_y(qy, d), (n - 1) as nat);
        let e = d.opposite_spec();
        assert(qx == step_x(sx, e) && qy == step_y(sy, e));
        assert(!traversable(g, step_x(sx, e), step_y(sy, e)));
        assert(false);
    }
}

/// For a start fully surrounded by non-traversable tiles, `find`
/// returns the empty sequence.
pub proof fn lemma_find_enclosed(g: Seq<Seq<Tile>>, start: Point, target: Point, r: Seq<Direction>)
    requires
        find_post(g, start, target, r),
        forall|d: Direction|
            !traversable(g, step_x(start.0 as int, d), step_y(start.1 as int, d)),
    ensures
        r =~= Seq::<Direction>::empty(),
{
    let sx = start.0 as int;
    let sy = start.1 as int;
    let tx = target.0 as int;
    let ty = target.1 as int;
    if reachable(g, sx, sy, tx, ty) {
        let n = choose|n: nat| reach_n(g, sx, sy, tx, ty, n);
        lemma_enclosed_unreachable(g, sx, sy, tx, ty, n);
        lemma_dist_le(g, sx, sy, tx, ty, 0);
        assert(r.len() == 0);
    } else {
        assert forall|d: Direction| corridor_from(g, sx, sy, d) == 0 by {
            assert(!traversable(g, step_x(sx, d), step_y(sy, d)));
        }
        assert(corridor_from(g, sx, sy, Direction::West) == 0);
        assert(corridor_from(g, sx, sy, Direction::East) == 0);
        assert(corridor_from(g, sx, sy, Direction::South) == 0);
        assert(corridor_from(g, sx, sy, Direction::North) == 0);
        assert(fallback_dir(g, sx, sy) is None);
    }
}

/// For a start with exactly one traversable neighbor and no route to
/// the target, `find` returns that single step.
pub proof fn lemma_find_single_exit(
    g: Seq<Seq<Tile>>,
    start: Point,
    target: Point,
    r: Seq<Direction>,
    d0: Direction,
)
    requires
        find_post(g, start, target, r),
        !reachable(g, start.0 as int, start.1 as int, target.0 as int, target.1 as int),
        traversable(g, step_x(start.0 as int, d0), step_y(start.1 as int, d0)),
        forall|d: Direction|
            d != d0 ==> !traversable(g, step_x(start.0 as int, d), step_y(start.1 as int, d)),
    ensures
        r =~= seq![d0],
{
    let sx = start.0 as int;
    let sy = start.1 as int;
    assert(corridor_from(g, sx, sy, d0) > 0) by {
        assert(traversable(g, step_x(sx, d0), step_y(sy, d0)));
        assert(corridor(g, step_x(sx, d0), step_y(sy, d0), d0) > 0);
    }
    assert forall|d: Direction| d != d0 implies corridor_from(g, sx, sy, d) == 0 by {
        assert(!traversable(g, step_x(sx, d), step_y(sy, d)));
    }
    match d0 {
        Direction::West => {
            assert(corridor_from(g, sx, sy, Direction::East) == 0);
            assert(corridor_from(g, sx, sy, Direction::South) == 0);
            assert(corridor_from(g, sx, sy, Direction::North) == 0);
        }
        Direction::East => {
            assert(corridor_from(g, sx, sy, Direction::West) == 0);
            assert(corridor_from(g, sx, sy, Direction::South) == 0);
            assert(corridor_from(g, sx, sy, Direction::North) == 0);
        }
        Direction::South => {
            assert(corridor_from(g, sx, sy, Direction::West) == 0);
            assert(corridor_from(g, sx, sy, Direction::East) == 0);
            assert(corridor_from(g, sx, sy, Direction::North) == 0);
        }
        Direction::North => {
            assert(corridor_from(g, sx, sy, Direction::West) == 0);
            assert(corridor_from(g, sx, sy, Direction::East) == 0);
            assert(corridor_from(g, sx, sy, Direction::South) == 0);
        }
    }
    assert(fallback_dir(g, sx, sy) == Some(d0));
}

} // verus!
