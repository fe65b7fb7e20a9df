//! The per-cell search state and the Chebyshev heuristic.
//!
//! Each discovered cell carries its best known cost from the start (`g`), a
//! heuristic estimate to the goal (`h`, computed once at discovery), the
//! priority `f` derived from both, and a back-reference to the predecessor
//! cell that achieved the current `g`. The heuristic is the Chebyshev
//! distance, which under unit-cost cardinal moves never overestimates the
//! true remaining cost and so keeps the search optimal.

use vstd::prelude::*;

use crate::cost::Cost;

verus! {

/// Chebyshev distance between `(x, y)` and `(ex, ey)`: the maximum of the
/// coordinate distances. It equals the minimum number of 8-directional steps
/// between the two cells on an unobstructed grid.
pub open spec fn chebyshev(x: int, y: int, ex: int, ey: int) -> int {
    let dx = if x >= ex {
        x - ex
    } else {
        ex - x
    };
    let dy = if y >= ey {
        y - ey
    } else {
        ey - y
    };
    if dx >= dy {
        dx
    } else {
        dy
    }
}

/// Computes the Chebyshev distance between `(x, y)` and `(end_x, end_y)`.
pub fn calculate_heuristic(x: i32, y: i32, end_x: i32, end_y: i32) -> (r: u64)
    requires
        x >= 0,
        y >= 0,
        end_x >= 0,
        end_y >= 0,
    ensures
        r == chebyshev(x as int, y as int, end_x as int, end_y as int),
{
    let dx: u64 = if x >= end_x {
        (x - end_x) as u64
    } else {
        (end_x - x) as u64
    };
    let dy: u64 = if y >= end_y {
        (y - end_y) as u64
    } else {
        (end_y - y) as u64
    };
    if dx >= dy {
        dx
    } else {
        dy
    }
}

/// The search state of one grid cell.
///
/// `parent` is a back-reference by coordinate key to the predecessor cell
/// that achieved the current `g`; it is `None` exactly for the start cell.
#[derive(Clone, Copy, Debug)]
pub struct AStarNode {
    pub x: i32,
    pub y: i32,
    /// Best known cost from the start to this cell.
    pub g: Cost,
    /// Chebyshev distance from this cell to the goal, computed once.
    pub h: u64,
    /// Priority: `g` plus `h` cardinal units.
    pub f: Cost,
    pub parent: Option<(i32, i32)>,
}

/// The number of steps on the recorded path from the start to this node:
/// each step contributes to exactly one of the two counters of `g`.
pub open spec fn node_steps(n: AStarNode) -> int {
    n.g.cardinal + n.g.diagonal
}

impl AStarNode {
    /// A freshly discovered node at `(x, y)`: zero cost so far, no heuristic
    /// yet, maximal priority, and no predecessor.
    pub fn new(x: i32, y: i32) -> (r: Self)
        ensures
            r.x == x,
            r.y == y,
            r.g.cardinal == 0,
            r.g.diagonal == 0,
            r.h == 0,
            r.f.cardinal == u64::MAX,
            r.f.diagonal == u64::MAX,
            r.parent is None,
    {
        AStarNode {
            x,
            y,
            g: Cost { cardinal: 0, diagonal: 0 },
            h: 0,
            f: Cost { cardinal: u64::MAX, diagonal: u64::MAX },
            parent: None,
        }
    }

    /// Sets `h` to the Chebyshev distance from this node to `(end_x, end_y)`.
    pub fn calculate_h(&mut self, end_x: i32, end_y: i32)
        requires
            old(self).x >= 0,
            old(self).y >= 0,
            end_x >= 0,
            end_y >= 0,
        ensures
            final(self).h == chebyshev(
                old(self).x as int,
                old(self).y as int,
                end_x as int,
                end_y as int,
            ),
            final(self).x == old(self).x,
            final(self).y == old(self).y,
            final(self).g == old(self).g,
            final(self).f == old(self).f,
            final(self).parent == old(self).parent,
    {
        self.h = calculate_heuristic(self.x, self.y, end_x, end_y);
    }

    /// Recomputes the priority `f` from the current `g` and the fixed `h`:
    /// `f` counts `h` additional cardinal units on top of `g`.
    pub fn update_f(&mut self)
        requires
            old(self).g.cardinal + old(self).h <= u64::MAX,
        ensures
            final(self).f.cardinal == old(self).g.cardinal + old(self).h,
            final(self).f.diagonal == old(self).g.diagonal,
            final(self).x == old(self).x,
            final(self).y == old(self).y,
            final(self).g == old(self).g,
            final(self).h == old(self).h,
            final(self).parent == old(self).parent,
    {
        self.f = Cost { cardinal: self.g.cardinal + self.h, diagonal: self.g.diagonal };
    }

    /// Whether this node sits on the goal cell `(end_x, end_y)`.
    pub fn is_goal(&self, end_x: i32, end_y: i32) -> (r: bool)
        ensures
            r == (self.x == end_x && self.y == end_y),
    {
        self.x == end_x && self.y == end_y
    }
}

/// The eight moves in their fixed expansion order: the four cardinal
/// directions first, then the four diagonals.
pub open spec fn direction_seq() -> Seq<(i32, i32)> {
    seq![
        (0i32, 1i32),
        (1i32, 0i32),
        (0i32, -1i32),
        (-1i32, 0i32),
        (1i32, 1i32),
        (1i32, -1i32),
        (-1i32, 1i32),
        (-1i32, -1i32),
    ]
}

/// Returns the eight moves in their fixed expansion order. A move with both
/// components non-zero is a diagonal step of cost sqrt(2); the others are
/// cardinal steps of cost 1.
pub fn get_directions() -> (r: Vec<(i32, i32)>)
    ensures
        r@ == direction_seq(),
{
    let mut dirs: Vec<(i32, i32)> = Vec::new();
    dirs.push((0, 1));
    dirs.push((1, 0));
    dirs.push((0, -1));
    dirs.push((-1, 0));
    dirs.push((1, 1));
    dirs.push((1, -1));
    dirs.push((-1, 1));
    dirs.push((-1, -1));
    proof {
        assert(dirs@ =~= direction_seq());
    }
    dirs
}

/// Every entry of the direction table is an 8-neighbour offset: each
/// component lies in `{-1, 0, 1}` and at least one is non-zero.
pub proof fn lemma_direction_entry(d: int)
    requires
        0 <= d < direction_seq().len(),
    ensures
        -1 <= direction_seq()[d].0 <= 1,
        -1 <= direction_seq()[d].1 <= 1,
        !(direction_seq()[d].0 == 0 && direction_seq()[d].1 == 0),
{
    assert(direction_seq().len() == 8);
    if d == 0 {
        assert(direction_seq()[0] == (0i32, 1i32));
    } else if d == 1 {
        assert(direction_seq()[1] == (1i32, 0i32));
    } else if d == 2 {
        assert(direction_seq()[2] == (0i32, -1i32));
    } else if d == 3 {
        assert(direction_seq()[3] == (-1i32, 0i32));
    } else if d == 4 {
        assert(direction_seq()[4] == (1i32, 1i32));
    } else if d == 5 {
        assert(direction_seq()[5] == (1i32, -1i32));
    } else if d == 6 {
        assert(direction_seq()[6] == (-1i32, 1i32));
    } else {
        assert(direction_seq()[7] == (-1i32, -1i32));
    }
}

} // verus!
