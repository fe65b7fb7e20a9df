//! The occupancy grid and the rules for legal moves on it.
//!
//! A grid is a non-empty rectangular `Vec<Vec<bool>>`; `grid[y][x]` is `true`
//! when the cell `(x, y)` is blocked. A legal move goes to one of the eight
//! neighbouring cells; a diagonal move is additionally forbidden when either
//! of the two cells orthogonally adjacent to the source along the move's axes
//! is blocked, so that no path cuts through a solid corner.

use vstd::prelude::*;

verus! {

/// The grid is non-empty, rectangular, and each dimension fits in `i32`.
pub open spec fn grid_wf(gs: Seq<Seq<bool>>) -> bool {
    &&& 1 <= gs.len() <= 0x7fff_ffff
    &&& gs[0].len() <= 0x7fff_ffff
    &&& forall|r: int| 0 <= r < gs.len() ==> #[trigger] gs[r].len() == gs[0].len()
}

/// Width of the grid: the common length of its rows.
pub open spec fn grid_width(gs: Seq<Seq<bool>>) -> int {
    gs[0].len() as int
}

/// Height of the grid: the number of rows.
pub open spec fn grid_height(gs: Seq<Seq<bool>>) -> int {
    gs.len() as int
}

/// The cell `(x, y)` lies inside the grid.
pub open spec fn in_grid(gs: Seq<Seq<bool>>, x: int, y: int) -> bool {
    0 <= x < grid_width(gs) && 0 <= y < grid_height(gs)
}

/// The cell `(x, y)` is blocked.
pub open spec fn blocked_at(gs: Seq<Seq<bool>>, x: int, y: int) -> bool {
    gs[y][x]
}

/// Start and goal cells both lie inside the grid and neither is blocked; a
/// search can only succeed under this condition.
pub open spec fn endpoints_valid(gs: Seq<Seq<bool>>, sx: int, sy: int, ex: int, ey: int) -> bool {
    &&& in_grid(gs, sx, sy)
    &&& in_grid(gs, ex, ey)
    &&& !blocked_at(gs, sx, sy)
    &&& !blocked_at(gs, ex, ey)
}

/// A diagonal move `(dx, dy)` out of `(x, y)` cuts a corner: both components
/// are non-zero and one of the two orthogonally adjacent cells along the
/// move's axes is blocked.
pub open spec fn diag_blocked(gs: Seq<Seq<bool>>, x: int, y: int, dx: int, dy: int) -> bool {
    dx != 0 && dy != 0 && (blocked_at(gs, x, y + dy) || blocked_at(gs, x + dx, y))
}

/// A single legal step from `(px, py)` to `(x, y)`: both cells are inside the
/// grid and passable, the cells are distinct 8-neighbours, and a diagonal
/// step does not cut a corner.
pub open spec fn move_ok(gs: Seq<Seq<bool>>, px: int, py: int, x: int, y: int) -> bool {
    &&& in_grid(gs, px, py)
    &&& in_grid(gs, x, y)
    &&& !blocked_at(gs, px, py)
    &&& !blocked_at(gs, x, y)
    &&& px - 1 <= x <= px + 1
    &&& py - 1 <= y <= py + 1
    &&& !(x == px && y == py)
    &&& !diag_blocked(gs, px, py, x - px, y - py)
}

/// Reads the blocked flag of the cell `(x, y)`.
pub fn cell_blocked(grid: &Vec<Vec<bool>>, x: usize, y: usize) -> (r: bool)
    requires
        grid_wf(grid.deep_view()),
        in_grid(grid.deep_view(), x as int, y as int),
    ensures
        r == blocked_at(grid.deep_view(), x as int, y as int),
{
    proof {
        let gs = grid.deep_view();
        assert(gs.len() == grid@.len());
        assert(gs[y as int] == grid@[y as int].deep_view());
        assert(gs[y as int].len() == gs[0].len());
        assert(grid@[y as int]@.len() == gs[y as int].len());
    }
    grid[y][x]
}

/// Whether the diagonal move `(dx, dy)` out of `(x, y)` is blocked by a
/// solid corner. Cardinal moves are never blocked by this rule.
pub fn is_diagonal_blocked(grid: &Vec<Vec<bool>>, x: i32, y: i32, dx: i32, dy: i32) -> (r: bool)
    requires
        grid_wf(grid.deep_view()),
        in_grid(grid.deep_view(), x as int, y as int),
        in_grid(grid.deep_view(), x + dx, y + dy),
        -1 <= dx <= 1,
        -1 <= dy <= 1,
    ensures
        r == diag_blocked(grid.deep_view(), x as int, y as int, dx as int, dy as int),
{
    proof {
        let gs = grid.deep_view();
        assert(gs.len() == grid@.len());
        if dx != 0 && dy != 0 {
            assert(gs[y + dy] == grid@[y + dy].deep_view());
            assert(gs[y + dy].len() == gs[0].len());
            assert(grid@[y + dy]@.len() == gs[y + dy].len());
            assert(gs[y as int] == grid@[y as int].deep_view());
            assert(gs[y as int].len() == gs[0].len());
            assert(grid@[y as int]@.len() == gs[y as int].len());
        }
    }
    if dx != 0 && dy != 0 {
        if grid[(y + dy) as usize][x as usize] {
            return true;
        }
        if grid[y as usize][(x + dx) as usize] {
            return true;
        }
    }
    false
}

} // verus!
