//! Paths and the result of a search, with the validity predicate that every
//! returned path satisfies.

use vstd::prelude::*;

use crate::grid::blocked_at;
use crate::grid::grid_wf;
use crate::grid::in_grid;
use crate::grid::move_ok;
use crate::node::chebyshev;

verus! {

/// One point of a returned path.
#[derive(Clone, Copy, Debug, PartialEq, Eq, Structural)]
pub struct PathPoint {
    pub x: i32,
    pub y: i32,
}

/// The result of one search: the ordered path from start to goal (empty when
/// no path was found) and the found flag.
#[derive(Debug, PartialEq)]
pub struct AStarResult {
    pub path: Vec<PathPoint>,
    pub found: bool,
}

/// A valid path from `(sx, sy)` to `(ex, ey)`: it starts at the start cell,
/// ends at the goal cell, visits only passable cells inside the grid, takes
/// only legal 8-neighbour steps (never cutting a corner), and repeats no
/// cell.
pub open spec fn path_valid(
    gs: Seq<Seq<bool>>,
    p: Seq<PathPoint>,
    sx: int,
    sy: int,
    ex: int,
    ey: int,
) -> bool {
    &&& p.len() >= 1
    &&& p[0].x == sx && p[0].y == sy
    &&& p[p.len() - 1].x == ex && p[p.len() - 1].y == ey
    &&& forall|i: int|
        0 <= i < p.len() ==> in_grid(gs, #[trigger] p[i].x as int, p[i].y as int) && !blocked_at(
            gs,
            p[i].x as int,
            p[i].y as int,
        )
    &&& forall|i: int|
        0 <= i < p.len() - 1 ==> move_ok(
            gs,
            #[trigger] p[i].x as int,
            p[i].y as int,
            p[i + 1].x as int,
            p[i + 1].y as int,
        )
    &&& forall|i: int, j: int|
        0 <= i < j < p.len() ==> !(#[trigger] p[i].x == #[trigger] p[j].x && p[i].y == p[j].y)
}

/// The Chebyshev heuristic is consistent: a single 8-neighbour step moves a
/// cell's distance to the goal by at most one, while every step costs at
/// least one cardinal unit. Hence the heuristic never overestimates along an
/// edge, which is what makes the closed-set discipline of the search sound.
pub proof fn lemma_heuristic_consistent(x: int, y: int, nx: int, ny: int, ex: int, ey: int)
    requires
        x - 1 <= nx <= x + 1,
        y - 1 <= ny <= y + 1,
    ensures
        chebyshev(x, y, ex, ey) <= 1 + chebyshev(nx, ny, ex, ey),
        chebyshev(nx, ny, ex, ey) <= 1 + chebyshev(x, y, ex, ey),
{
}

/// The Chebyshev heuristic is admissible: it is zero exactly at the goal,
/// and by [`lemma_path_length_lower_bound`] it bounds from below the number
/// of steps of every valid path to the goal.
pub proof fn lemma_heuristic_zero(x: int, y: int, ex: int, ey: int)
    ensures
        chebyshev(x, y, ex, ey) == 0 <==> x == ex && y == ey,
        chebyshev(x, y, ex, ey) >= 0,
{
}

/// A valid path stays valid after dropping its first point.
pub proof fn lemma_path_valid_suffix(
    gs: Seq<Seq<bool>>,
    p: Seq<PathPoint>,
    sx: int,
    sy: int,
    ex: int,
    ey: int,
)
    requires
        path_valid(gs, p, sx, sy, ex, ey),
        p.len() > 1,
    ensures
        path_valid(gs, p.subrange(1, p.len() as int), p[1].x as int, p[1].y as int, ex, ey),
{
    let q = p.subrange(1, p.len() as int);
    assert(q[0] == p[1]);
    assert(q[q.len() - 1] == p[p.len() - 1]);
    assert forall|i: int| 0 <= i < q.len() implies in_grid(gs, #[trigger] q[i].x as int, q[i].y as int)
        && !blocked_at(gs, q[i].x as int, q[i].y as int) by {
        assert(q[i] == p[i + 1]);
    }
    assert forall|i: int| 0 <= i < q.len() - 1 implies move_ok(
        gs,
        #[trigger] q[i].x as int,
        q[i].y as int,
        q[i + 1].x as int,
        q[i + 1].y as int,
    ) by {
        assert(q[i] == p[i + 1]);
        assert(q[i + 1] == p[i + 2]);
    }
    assert forall|i: int, j: int| 0 <= i < j < q.len() implies !(#[trigger] q[i].x == #[trigger] q[j].x
        && q[i].y == q[j].y) by {
        assert(q[i] == p[i + 1]);
        assert(q[j] == p[j + 1]);
    }
}

/// Every valid path from `(sx, sy)` to `(ex, ey)` makes at least
/// `chebyshev(sx, sy, ex, ey)` steps: the heuristic never overestimates the
/// length of any admissible path. Since every step costs at least one
/// cardinal unit, the heuristic also never overestimates any path's cost.
pub proof fn lemma_path_length_lower_bound(
    gs: Seq<Seq<bool>>,
    p: Seq<PathPoint>,
    sx: int,
    sy: int,
    ex: int,
    ey: int,
)
    requires
        grid_wf(gs),
        path_valid(gs, p, sx, sy, ex, ey),
    ensures
        p.len() >= 1 + chebyshev(sx, sy, ex, ey),
    decreases p.len(),
{
    if p.len() == 1 {
        assert(sx == ex && sy == ey);
    } else {
        lemma_path_valid_suffix(gs, p, sx, sy, ex, ey);
        let q = p.subrange(1, p.len() as int);
        lemma_path_length_lower_bound(gs, q, p[1].x as int, p[1].y as int, ex, ey);
        assert(move_ok(gs, p[0].x as int, p[0].y as int, p[1].x as int, p[1].y as int));
        lemma_heuristic_consistent(sx, sy, p[1].x as int, p[1].y as int, ex, ey);
    }
}

/// On a grid with no blocked cells every pair of in-grid cells is connected:
/// stepping diagonally while both coordinates differ and straight afterwards
/// yields a valid path whose length is exactly the Chebyshev distance plus
/// one. Together with the search's not-found contract — a not-found result
/// means no valid path exists at all — this rules out false negatives on
/// unobstructed grids.
pub proof fn lemma_unobstructed_grid_connected(
    gs: Seq<Seq<bool>>,
    x: int,
    y: int,
    ex: int,
    ey: int,
)
    requires
        grid_wf(gs),
        forall|a: int, b: int| in_grid(gs, a, b) ==> !(#[trigger] blocked_at(gs, a, b)),
        in_grid(gs, x, y),
        in_grid(gs, ex, ey),
    ensures
        exists|p: Seq<PathPoint>|
            #[trigger] path_valid(gs, p, x, y, ex, ey) && p.len() == chebyshev(x, y, ex, ey) + 1
                && (forall|i: int|
                0 <= i < p.len() ==> chebyshev(#[trigger] p[i].x as int, p[i].y as int, ex, ey)
                    == p.len() - 1 - i),
    decreases chebyshev(x, y, ex, ey),
{
    lemma_heuristic_zero(x, y, ex, ey);
    if x == ex && y == ey {
        let p = seq![PathPoint { x: x as i32, y: y as i32 }];
        assert(p[0].x == x && p[0].y == y);
        assert(path_valid(gs, p, x, y, ex, ey));
        assert(p.len() == chebyshev(x, y, ex, ey) + 1);
        assert(forall|i: int|
            0 <= i < p.len() ==> chebyshev(#[trigger] p[i].x as int, p[i].y as int, ex, ey)
                == p.len() - 1 - i);
    } else {
        let dx: int = if ex > x {
            1
        } else if ex < x {
            -1
        } else {
            0
        };
        let dy: int = if ey > y {
            1
        } else if ey < y {
            -1
        } else {
            0
        };
        let nx = x + dx;
        let ny = y + dy;
        assert(in_grid(gs, nx, ny));
        assert(chebyshev(nx, ny, ex, ey) == chebyshev(x, y, ex, ey) - 1);
        lemma_unobstructed_grid_connected(gs, nx, ny, ex, ey);
        let q = choose|q: Seq<PathPoint>|
            #[trigger] path_valid(gs, q, nx, ny, ex, ey) && q.len() == chebyshev(nx, ny, ex, ey)
                + 1 && (forall|i: int|
                0 <= i < q.len() ==> chebyshev(#[trigger] q[i].x as int, q[i].y as int, ex, ey)
                    == q.len() - 1 - i);
        let p = seq![PathPoint { x: x as i32, y: y as i32 }].add(q);
        assert(p.len() == q.len() + 1);
        assert(p[0].x == x && p[0].y == y);
        assert forall|i: int| 1 <= i < p.len() implies p[i] == q[i - 1] by {
        }
        assert(p[p.len() - 1] == q[q.len() - 1]);
        assert forall|i: int| 0 <= i < p.len() implies chebyshev(
            #[trigger] p[i].x as int,
            p[i].y as int,
            ex,
            ey,
        ) == p.len() - 1 - i by {
            if i >= 1 {
                assert(p[i] == q[i - 1]);
            }
        }
        assert forall|i: int| 0 <= i < p.len() implies in_grid(
            gs,
            #[trigger] p[i].x as int,
            p[i].y as int,
        ) && !blocked_at(gs, p[i].x as int, p[i].y as int) by {
            if i >= 1 {
                assert(p[i] == q[i - 1]);
            } else {
                assert(!blocked_at(gs, x, y));
            }
        }
        assert forall|i: int| 0 <= i < p.len() - 1 implies move_ok(
            gs,
            #[trigger] p[i].x as int,
            p[i].y as int,
            p[i + 1].x as int,
            p[i + 1].y as int,
        ) by {
            if i == 0 {
                assert(p[1] == q[0]);
                assert(q[0].x == nx && q[0].y == ny);
                assert(!blocked_at(gs, x, y));
                assert(!blocked_at(gs, nx, ny));
                if dx != 0 && dy != 0 {
                    assert(in_grid(gs, x, y + dy));
                    assert(in_grid(gs, x + dx, y));
                    assert(!blocked_at(gs, x, y + dy));
                    assert(!blocked_at(gs, x + dx, y));
                }
            } else {
                assert(p[i] == q[i - 1]);
                assert(p[i + 1] == q[i]);
            }
        }
        assert forall|i: int, j: int| 0 <= i < j < p.len() implies !(#[trigger] p[i].x
            == #[trigger] p[j].x && p[i].y == p[j].y) by {
            assert(chebyshev(p[i].x as int, p[i].y as int, ex, ey) == p.len() - 1 - i);
            assert(chebyshev(p[j].x as int, p[j].y as int, ex, ey) == p.len() - 1 - j);
        }
        assert(path_valid(gs, p, x, y, ex, ey));
        assert(p.len() == chebyshev(x, y, ex, ey) + 1);
    }
}

} // verus!
