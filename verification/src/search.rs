//! The A* search engine: frontier and visited-set management, neighbour
//! expansion, and path reconstruction.
//!
//! The node table is a dense coordinate-keyed store (`key = y * width + x`)
//! holding the single current search node of each discovered cell; the
//! frontier and the visited set hold coordinate keys into it. Parent links
//! are coordinate keys as well, so the recorded predecessor chain of any
//! node runs through the table back to the start node, shrinking the step
//! count by one per hop — that is what makes reconstruction terminate and
//! every returned path acyclic.

use vstd::prelude::*;

use crate::cost::cost_bounded;
use crate::grid::blocked_at;
use crate::grid::cell_blocked;
use crate::grid::grid_height;
use crate::grid::grid_wf;
use crate::grid::grid_width;
use crate::grid::in_grid;
use crate::grid::is_diagonal_blocked;
use crate::grid::move_ok;
use crate::grid::endpoints_valid;
use crate::node::AStarNode;
use crate::node::chebyshev;
use crate::node::direction_seq;
use crate::node::get_directions;
use crate::node::lemma_direction_entry;
use crate::node::node_steps;
use crate::path::AStarResult;
use crate::path::PathPoint;
use crate::path::lemma_path_valid_suffix;
use crate::path::path_valid;

verus! {

/// The dense key of the cell `(x, y)` on a grid of width `w`.
pub open spec fn key_of(x: int, y: int, w: int) -> int {
    y * w + x
}

/// Keys of in-grid cells lie within the table.
proof fn lemma_key_of_bounds(x: int, y: int, w: int, h: int)
    requires
        0 <= x < w,
        0 <= y < h,
    ensures
        0 <= key_of(x, y, w) < w * h,
{
    assert(0 <= y * w + x < w * h) by (nonlinear_arith)
        requires
            0 <= x < w,
            0 <= y < h,
    ;
}

/// Distinct in-grid cells have distinct keys.
proof fn lemma_key_of_inj(x1: int, y1: int, x2: int, y2: int, w: int)
    requires
        0 <= x1 < w,
        0 <= x2 < w,
        0 <= y1,
        0 <= y2,
        key_of(x1, y1, w) == key_of(x2, y2, w),
    ensures
        x1 == x2,
        y1 == y2,
{
    assert(x1 == x2 && y1 == y2) by (nonlinear_arith)
        requires
            0 <= x1 < w,
            0 <= x2 < w,
            0 <= y1,
            0 <= y2,
            y1 * w + x1 == y2 * w + x2,
    ;
}

/// A grid within the coordinate limits has at most `0x7fff_ffff^2` cells.
proof fn lemma_cells_bound(w: int, h: int)
    requires
        0 <= w <= 0x7fff_ffff,
        0 <= h <= 0x7fff_ffff,
    ensures
        0 <= w * h <= 0x3fff_ffff_0000_0001,
{
    assert(0 <= w * h <= 0x3fff_ffff_0000_0001) by (nonlinear_arith)
        requires
            0 <= w <= 0x7fff_ffff,
            0 <= h <= 0x7fff_ffff,
    ;
}

/// The number of `false` entries: the cells not yet finalized. It shrinks by
/// one whenever a cell is closed, which bounds the search loop.
pub open spec fn num_false(s: Seq<bool>) -> int
    decreases s.len(),
{
    if s.len() == 0 {
        0
    } else {
        num_false(s.drop_last()) + if s.last() {
            0int
        } else {
            1int
        }
    }
}

proof fn lemma_num_false_bounds(s: Seq<bool>)
    ensures
        0 <= num_false(s) <= s.len(),
    decreases s.len(),
{
    if s.len() > 0 {
        lemma_num_false_bounds(s.drop_last());
    }
}

proof fn lemma_num_false_set_true(s: Seq<bool>, i: int)
    requires
        0 <= i < s.len(),
        !s[i],
    ensures
        num_false(s.update(i, true)) == num_false(s) - 1,
    decreases s.len(),
{
    let t = s.update(i, true);
    if i == s.len() - 1 {
        assert(t.drop_last() =~= s.drop_last());
    } else {
        assert(t.drop_last() =~= s.drop_last().update(i, true));
        lemma_num_false_set_true(s.drop_last(), i);
    }
}

/// Well-formedness of one table entry: the node sits at its own key, on a
/// passable in-grid cell, and its parent link either is absent — then the
/// node is the start node with zero cost — or names a discovered cell one
/// step closer to the start from which the move to this node is legal.
pub open spec fn node_ok(
    t: Seq<Option<AStarNode>>,
    gs: Seq<Seq<bool>>,
    sx: int,
    sy: int,
    k: int,
) -> bool {
    let n = t[k].unwrap();
    &&& in_grid(gs, n.x as int, n.y as int)
    &&& !blocked_at(gs, n.x as int, n.y as int)
    &&& key_of(n.x as int, n.y as int, grid_width(gs)) == k
    &&& match n.parent {
        None => n.x == sx && n.y == sy && n.g.cardinal == 0 && n.g.diagonal == 0,
        Some(pc) => {
            let pk = key_of(pc.0 as int, pc.1 as int, grid_width(gs));
            &&& in_grid(gs, pc.0 as int, pc.1 as int)
            &&& 0 <= pk < t.len()
            &&& t[pk] is Some
            &&& node_steps(t[pk].unwrap()) + 1 == node_steps(n)
            &&& move_ok(gs, pc.0 as int, pc.1 as int, n.x as int, n.y as int)
        },
    }
}

/// Well-formedness of the whole node table: one slot per cell, every
/// occupied slot satisfying [`node_ok`]. This is all that path
/// reconstruction needs.
pub open spec fn table_ok(t: Seq<Option<AStarNode>>, gs: Seq<Seq<bool>>, sx: int, sy: int) -> bool {
    &&& t.len() == grid_width(gs) * grid_height(gs)
    &&& forall|k: int|
        #![trigger t[k]]
        0 <= k < t.len() && t[k] is Some ==> node_ok(t, gs, sx, sy, k)
}

/// The search-time state of one node: its heuristic is the Chebyshev
/// distance to the goal, its priority is consistent with its cost and
/// heuristic, its step count is bounded by the number of closed cells, and
/// its parent is closed (so the parent's table entry is frozen).
pub open spec fn node_live(
    n: AStarNode,
    closed: Seq<bool>,
    gs: Seq<Seq<bool>>,
    ex: int,
    ey: int,
) -> bool {
    &&& n.h == chebyshev(n.x as int, n.y as int, ex, ey)
    &&& n.f.cardinal == n.g.cardinal + n.h
    &&& n.f.diagonal == n.g.diagonal
    &&& node_steps(n) + num_false(closed) <= closed.len()
    &&& match n.parent {
        None => true,
        Some(pc) => {
            let pk = key_of(pc.0 as int, pc.1 as int, grid_width(gs));
            0 <= pk < closed.len() && closed[pk]
        },
    }
}

/// Every frontier entry is a discovered, unfinalized cell.
pub open spec fn frontier_elems_ok(
    t: Seq<Option<AStarNode>>,
    closed: Seq<bool>,
    open: Seq<usize>,
) -> bool {
    forall|i: int|
        #![trigger open[i]]
        0 <= i < open.len() ==> open[i] < t.len() && t[open[i] as int] is Some && !closed[open[i] as int]
}

/// The frontier holds at most one entry per cell.
pub open spec fn frontier_distinct(open: Seq<usize>) -> bool {
    forall|i: int, j: int| 0 <= i < j < open.len() ==> open[i] != open[j]
}

/// Every discovered, unfinalized cell is on the frontier.
pub open spec fn frontier_covers(
    t: Seq<Option<AStarNode>>,
    closed: Seq<bool>,
    open: Seq<usize>,
) -> bool {
    forall|k: int|
        #![trigger t[k]]
        0 <= k < t.len() && t[k] is Some && !closed[k] ==> open.contains(k as usize)
}

/// Every discovered node is in its live state, and every finalized cell is
/// discovered.
pub open spec fn nodes_live_ok(
    t: Seq<Option<AStarNode>>,
    closed: Seq<bool>,
    gs: Seq<Seq<bool>>,
    ex: int,
    ey: int,
) -> bool {
    &&& forall|k: int|
        #![trigger t[k]]
        0 <= k < t.len() && t[k] is Some ==> node_live(t[k].unwrap(), closed, gs, ex, ey)
    &&& forall|k: int|
        #![trigger closed[k]]
        0 <= k < closed.len() && closed[k] ==> t[k] is Some
}

/// The complete invariant of the main search loop, tying together the node
/// table, the visited set and the frontier.
pub open spec fn search_inv(
    t: Seq<Option<AStarNode>>,
    closed: Seq<bool>,
    open: Seq<usize>,
    gs: Seq<Seq<bool>>,
    sx: int,
    sy: int,
    ex: int,
    ey: int,
) -> bool {
    &&& table_ok(t, gs, sx, sy)
    &&& closed.len() == t.len()
    &&& nodes_live_ok(t, closed, gs, ex, ey)
    &&& frontier_elems_ok(t, closed, open)
    &&& frontier_distinct(open)
    &&& frontier_covers(t, closed, open)
}


/// One collected point of the predecessor chain: it matches a discovered
/// node that sits on a passable in-grid cell and lies `s` steps from the
/// start.
pub open spec fn chain_entry_ok(
    t: Seq<Option<AStarNode>>,
    gs: Seq<Seq<bool>>,
    p: PathPoint,
    s: int,
) -> bool {
    let k = key_of(p.x as int, p.y as int, grid_width(gs));
    &&& in_grid(gs, p.x as int, p.y as int)
    &&& !blocked_at(gs, p.x as int, p.y as int)
    &&& 0 <= k < t.len()
    &&& t[k] is Some
    &&& t[k].unwrap().x == p.x
    &&& t[k].unwrap().y == p.y
    &&& node_steps(t[k].unwrap()) == s
}

/// Walks the parent chain backward from `current` to the start node and
/// returns the collected cells in start-to-goal order. The chain shrinks the
/// step count by one per hop, so the walk terminates and no cell repeats.
#[verifier::loop_isolation(false)]
#[verifier::rlimit(100)]
fn reconstruct_path(
    grid: &Vec<Vec<bool>>,
    table: &Vec<Option<AStarNode>>,
    current: AStarNode,
    start_x: i32,
    start_y: i32,
) -> (r: Vec<PathPoint>)
    requires
        grid_wf(grid.deep_view()),
        table_ok(table@, grid.deep_view(), start_x as int, start_y as int),
        in_grid(grid.deep_view(), current.x as int, current.y as int),
        0 <= key_of(current.x as int, current.y as int, grid_width(grid.deep_view()))
            < table@.len(),
        table@[key_of(current.x as int, current.y as int, grid_width(grid.deep_view()))]
            == Some(current),
    ensures
        path_valid(
            grid.deep_view(),
            r@,
            start_x as int,
            start_y as int,
            current.x as int,
            current.y as int,
        ),
        r@.len() == node_steps(current) + 1,
{
    let ghost gs = grid.deep_view();
    let ghost w = grid_width(gs);
    let ghost h = grid_height(gs);
    let ghost total = node_steps(current);
    let width: usize = grid[0].len();
    proof {
        assert(gs[0] == grid@[0].deep_view());
        assert(grid@[0]@.len() == gs[0].len());
    }
    let mut rev: Vec<PathPoint> = Vec::new();
    rev.push(PathPoint { x: current.x, y: current.y });
    let mut cur = current;
    proof {
        assert(table@[key_of(cur.x as int, cur.y as int, w)] is Some);
        assert(node_ok(table@, gs, start_x as int, start_y as int, key_of(cur.x as int, cur.y as int, w)));
    }
    while cur.parent.is_some()
        invariant
            in_grid(gs, cur.x as int, cur.y as int),
            0 <= key_of(cur.x as int, cur.y as int, w) < table@.len(),
            table@[key_of(cur.x as int, cur.y as int, w)] == Some(cur),
            0 <= node_steps(cur) <= total,
            rev@.len() == total - node_steps(cur) + 1,
            rev@[0].x == current.x && rev@[0].y == current.y,
            rev@[rev@.len() - 1].x == cur.x && rev@[rev@.len() - 1].y == cur.y,
            forall|j: int|
                0 <= j < rev@.len() ==> chain_entry_ok(table@, gs, #[trigger] rev@[j], total - j),
            forall|j: int|
                #![trigger rev@[j]]
                0 <= j < rev@.len() - 1 ==> move_ok(
                    gs,
                    rev@[j + 1].x as int,
                    rev@[j + 1].y as int,
                    rev@[j].x as int,
                    rev@[j].y as int,
                ),
        decreases node_steps(cur),
    {
        let ghost ck = key_of(cur.x as int, cur.y as int, w);
        proof {
            assert(table@[ck] is Some);
            assert(node_ok(table@, gs, start_x as int, start_y as int, ck));
        }
        let pc = cur.parent.unwrap();
        let table_len: usize = table.len();
        let ghost pk_spec = key_of(pc.0 as int, pc.1 as int, w);
        proof {
            lemma_key_of_bounds(pc.0 as int, pc.1 as int, w, h);
            assert(0 <= pk_spec < table_len);
            assert(table@[pk_spec] is Some);
            assert(node_ok(table@, gs, start_x as int, start_y as int, pk_spec));
            let pn = table@[pk_spec].unwrap();
            lemma_key_of_inj(pn.x as int, pn.y as int, pc.0 as int, pc.1 as int, w);
        }
        let pk: usize = (pc.1 as usize) * width + (pc.0 as usize);
        let prev = cur;
        cur = table[pk].unwrap();
        rev.push(PathPoint { x: cur.x, y: cur.y });
        proof {
            assert(rev@[rev@.len() - 2].x == prev.x && rev@[rev@.len() - 2].y == prev.y);
            assert(move_ok(gs, cur.x as int, cur.y as int, prev.x as int, prev.y as int));
            assert forall|j: int| 0 <= j < rev@.len() implies chain_entry_ok(
                table@,
                gs,
                #[trigger] rev@[j],
                total - j,
            ) by {
            }
        }
    }
    proof {
        let ck = key_of(cur.x as int, cur.y as int, w);
        assert(table@[ck] is Some);
        assert(node_ok(table@, gs, start_x as int, start_y as int, ck));
        assert(cur.x == start_x && cur.y == start_y);
        assert(node_steps(cur) == 0);
        assert(rev@.len() == total + 1);
    }
    let mut path: Vec<PathPoint> = Vec::new();
    let mut i: usize = rev.len();
    while i > 0
        invariant
            i <= rev@.len(),
            path@.len() == rev@.len() - i,
            forall|j: int| 0 <= j < path@.len() ==> #[trigger] path@[j] == rev@[rev@.len() - 1 - j],
        decreases i,
    {
        i -= 1;
        path.push(rev[i]);
    }
    proof {
        let p = path@;
        let len = rev@.len();
        assert(p.len() == len);
        assert(p[0] == rev@[len - 1]);
        assert(p[len - 1] == rev@[0]);
        assert forall|a: int| 0 <= a < p.len() implies in_grid(gs, #[trigger] p[a].x as int, p[a].y as int)
            && !blocked_at(gs, p[a].x as int, p[a].y as int) by {
            assert(p[a] == rev@[len - 1 - a]);
            assert(chain_entry_ok(table@, gs, rev@[len - 1 - a], total - (len - 1 - a)));
        }
        assert forall|a: int| 0 <= a < p.len() - 1 implies move_ok(
            gs,
            #[trigger] p[a].x as int,
            p[a].y as int,
            p[a + 1].x as int,
            p[a + 1].y as int,
        ) by {
            assert(p[a] == rev@[len - 1 - a]);
            assert(p[a + 1] == rev@[len - 2 - a]);
            let j = len - 2 - a;
            assert(move_ok(
                gs,
                rev@[j + 1].x as int,
                rev@[j + 1].y as int,
                rev@[j].x as int,
                rev@[j].y as int,
            ));
        }
        assert forall|a: int, b: int| 0 <= a < b < p.len() implies !(#[trigger] p[a].x
            == #[trigger] p[b].x && p[a].y == p[b].y) by {
            let ja = len - 1 - a;
            let jb = len - 1 - b;
            assert(p[a] == rev@[ja]);
            assert(p[b] == rev@[jb]);
            assert(chain_entry_ok(table@, gs, rev@[ja], total - ja));
            assert(chain_entry_ok(table@, gs, rev@[jb], total - jb));
            if p[a].x == p[b].x && p[a].y == p[b].y {
                assert(key_of(rev@[ja].x as int, rev@[ja].y as int, w) == key_of(
                    rev@[jb].x as int,
                    rev@[jb].y as int,
                    w,
                ));
                assert(total - ja == total - jb);
                assert(false);
            }
        }
        assert(path_valid(gs, p, start_x as int, start_y as int, current.x as int, current.y as int));
    }
    path
}

/// Finds the position of key `k` on the frontier.
fn find_open_index(open: &Vec<usize>, k: usize) -> (r: usize)
    requires
        open@.contains(k),
    ensures
        r < open@.len(),
        open@[r as int] == k,
{
    let mut i: usize = 0;
    while i < open.len()
        invariant
            i <= open@.len(),
            open@.contains(k),
            forall|j: int| 0 <= j < i ==> open@[j] != k,
        decreases open@.len() - i,
    {
        if open[i] == k {
            return i;
        }
        i += 1;
    }
    proof {
        let j = choose|j: int| 0 <= j < open@.len() && open@[j] == k;
        assert(false);
    }
    0
}

/// Index facts of removing one frontier position.
proof fn lemma_remove_index(s: Seq<usize>, i: int)
    requires
        0 <= i < s.len(),
    ensures
        s.remove(i).len() == s.len() - 1,
        forall|j: int| 0 <= j < i ==> #[trigger] s.remove(i)[j] == s[j],
        forall|j: int| i <= j < s.len() - 1 ==> #[trigger] s.remove(i)[j] == s[j + 1],
{
}

/// Closing the popped cell keeps every discovered node live and shrinks the
/// count of unfinalized cells by one.
proof fn lemma_close_lives(
    t: Seq<Option<AStarNode>>,
    closed0: Seq<bool>,
    closed1: Seq<bool>,
    gs: Seq<Seq<bool>>,
    ex: int,
    ey: int,
    cur_k: usize,
)
    requires
        nodes_live_ok(t, closed0, gs, ex, ey),
        closed0.len() == t.len(),
        0 <= cur_k < closed0.len(),
        !closed0[cur_k as int],
        t[cur_k as int] is Some,
        closed1 == closed0.update(cur_k as int, true),
    ensures
        nodes_live_ok(t, closed1, gs, ex, ey),
        num_false(closed1) == num_false(closed0) - 1,
{
    lemma_num_false_set_true(closed0, cur_k as int);
    assert forall|k: int| 0 <= k < t.len() && #[trigger] t[k] is Some implies node_live(
        t[k].unwrap(),
        closed1,
        gs,
        ex,
        ey,
    ) by {
        assert(node_live(t[k].unwrap(), closed0, gs, ex, ey));
    }
    assert forall|k: int| 0 <= k < closed1.len() && #[trigger] closed1[k] implies t[k] is Some by {
        if k != cur_k {
            assert(closed0[k]);
        }
    }
}

/// Closing the popped cell `cur_k` and dropping its frontier position keeps
/// the frontier clauses intact.
proof fn lemma_close_frontier(
    t: Seq<Option<AStarNode>>,
    closed0: Seq<bool>,
    closed1: Seq<bool>,
    open0: Seq<usize>,
    open1: Seq<usize>,
    cur_i: int,
    cur_k: usize,
)
    requires
        frontier_elems_ok(t, closed0, open0),
        frontier_distinct(open0),
        frontier_covers(t, closed0, open0),
        closed0.len() == t.len(),
        t.len() <= usize::MAX,
        0 <= cur_i < open0.len(),
        open0[cur_i] == cur_k,
        open1 == open0.remove(cur_i),
        closed1 == closed0.update(cur_k as int, true),
    ensures
        frontier_elems_ok(t, closed1, open1),
        frontier_distinct(open1),
        frontier_covers(t, closed1, open1),
{
    lemma_remove_index(open0, cur_i);
    assert forall|i: int| 0 <= i < open1.len() implies #[trigger] open1[i] < t.len()
        && t[open1[i] as int] is Some && !closed1[open1[i] as int] by {
        if i < cur_i {
            assert(open1[i] == open0[i]);
        } else {
            assert(open1[i] == open0[i + 1]);
        }
    }
    assert forall|i: int, j: int| 0 <= i < j < open1.len() implies open1[i] != open1[j] by {
        if i < cur_i {
            assert(open1[i] == open0[i]);
        } else {
            assert(open1[i] == open0[i + 1]);
        }
        if j < cur_i {
            assert(open1[j] == open0[j]);
        } else {
            assert(open1[j] == open0[j + 1]);
        }
    }
    assert forall|k: int| 0 <= k < t.len() && #[trigger] t[k] is Some && !closed1[k] implies open1
        .contains(k as usize) by {
        assert(!closed0[k]);
        assert(open0.contains(k as usize));
        let j = choose|j: int| 0 <= j < open0.len() && open0[j] == k as usize;
        assert(k != cur_k as int);
        if j < cur_i {
            assert(open1[j] == k as usize);
        } else {
            assert(j != cur_i);
            assert(open1[j - 1] == k as usize);
        }
    }
}

/// Writing the node `n` (whose parent is the just-closed cell `cur_k`) into
/// the unfinalized slot `nk` preserves the table invariants: every other
/// entry, and in particular every closed entry a parent link can name, is
/// untouched.
#[verifier::rlimit(100)]
proof fn lemma_table_update(
    t0: Seq<Option<AStarNode>>,
    t1: Seq<Option<AStarNode>>,
    closed: Seq<bool>,
    gs: Seq<Seq<bool>>,
    sx: int,
    sy: int,
    ex: int,
    ey: int,
    cur_k: usize,
    cur: AStarNode,
    nk: usize,
    n: AStarNode,
)
    requires
        table_ok(t0, gs, sx, sy),
        closed.len() == t0.len(),
        nodes_live_ok(t0, closed, gs, ex, ey),
        0 <= cur_k < t0.len(),
        t0[cur_k as int] == Some(cur),
        closed[cur_k as int],
        0 <= nk < t0.len(),
        !closed[nk as int],
        t1 == t0.update(nk as int, Some(n)),
        in_grid(gs, n.x as int, n.y as int),
        !blocked_at(gs, n.x as int, n.y as int),
        key_of(n.x as int, n.y as int, grid_width(gs)) == nk,
        n.parent == Some((cur.x, cur.y)),
        move_ok(gs, cur.x as int, cur.y as int, n.x as int, n.y as int),
        node_steps(n) == node_steps(cur) + 1,
        node_steps(cur) + 1 + num_false(closed) <= closed.len(),
        n.h == chebyshev(n.x as int, n.y as int, ex, ey),
        n.f.cardinal == n.g.cardinal + n.h,
        n.f.diagonal == n.g.diagonal,
    ensures
        table_ok(t1, gs, sx, sy),
        nodes_live_ok(t1, closed, gs, ex, ey),
{
    assert(node_ok(t0, gs, sx, sy, cur_k as int));
    assert(key_of(cur.x as int, cur.y as int, grid_width(gs)) == cur_k);
    assert(cur_k != nk);
    assert forall|k: int| 0 <= k < t1.len() && #[trigger] t1[k] is Some implies node_ok(
        t1,
        gs,
        sx,
        sy,
        k,
    ) by {
        if k == nk {
            assert(t1[k].unwrap() == n);
            assert(t1[cur_k as int] == Some(cur));
            assert(node_ok(t1, gs, sx, sy, k));
        } else {
            assert(t1[k] == t0[k]);
            assert(t0[k] is Some);
            assert(node_ok(t0, gs, sx, sy, k));
            let m = t0[k].unwrap();
            assert(node_live(m, closed, gs, ex, ey));
            match m.parent {
                None => {},
                Some(pc) => {
                    let pk = key_of(pc.0 as int, pc.1 as int, grid_width(gs));
                    assert(closed[pk]);
                    assert(pk != nk);
                    assert(t1[pk] == t0[pk]);
                },
            }
            assert(node_ok(t1, gs, sx, sy, k));
        }
    }
    assert forall|k: int| 0 <= k < t1.len() && #[trigger] t1[k] is Some implies node_live(
        t1[k].unwrap(),
        closed,
        gs,
        ex,
        ey,
    ) by {
        if k == nk {
            assert(closed[cur_k as int]);
        } else {
            assert(t1[k] == t0[k]);
            assert(t0[k] is Some);
            assert(node_live(t0[k].unwrap(), closed, gs, ex, ey));
        }
    }
    assert forall|k: int| 0 <= k < closed.len() && #[trigger] closed[k] implies t1[k] is Some by {
        assert(t0[k] is Some);
        assert(k != nk);
    }
}

/// Discovering a brand-new cell: its key joins the back of the frontier.
proof fn lemma_frontier_push(
    t0: Seq<Option<AStarNode>>,
    t1: Seq<Option<AStarNode>>,
    closed: Seq<bool>,
    open0: Seq<usize>,
    nk: usize,
    n: AStarNode,
)
    requires
        frontier_elems_ok(t0, closed, open0),
        frontier_distinct(open0),
        frontier_covers(t0, closed, open0),
        closed.len() == t0.len(),
        t0.len() <= usize::MAX,
        0 <= nk < t0.len(),
        !closed[nk as int],
        t0[nk as int] is None,
        t1 == t0.update(nk as int, Some(n)),
    ensures
        frontier_elems_ok(t1, closed, open0.push(nk)),
        frontier_distinct(open0.push(nk)),
        frontier_covers(t1, closed, open0.push(nk)),
{
    let open1 = open0.push(nk);
    assert forall|i: int| 0 <= i < open1.len() implies #[trigger] open1[i] < t1.len()
        && t1[open1[i] as int] is Some && !closed[open1[i] as int] by {
        if i < open0.len() {
            assert(open1[i] == open0[i]);
            assert(t0[open0[i] as int] is Some);
            assert(open0[i] != nk);
        } else {
            assert(open1[i] == nk);
        }
    }
    assert forall|i: int, j: int| 0 <= i < j < open1.len() implies open1[i] != open1[j] by {
        if j < open0.len() {
            assert(open1[i] == open0[i] && open1[j] == open0[j]);
        } else {
            assert(open1[j] == nk);
            assert(open1[i] == open0[i]);
            assert(t0[open0[i] as int] is Some);
        }
    }
    assert forall|k: int| 0 <= k < t1.len() && #[trigger] t1[k] is Some && !closed[k] implies open1
        .contains(k as usize) by {
        if k == nk {
            assert(open1[open0.len() as int] == nk);
        } else {
            assert(t1[k] == t0[k]);
            assert(t0[k] is Some);
            assert(open0.contains(k as usize));
            let j = choose|j: int| 0 <= j < open0.len() && open0[j] == k as usize;
            assert(open1[j] == k as usize);
        }
    }
}

/// Relaxing an already-discovered cell: its key moves to the back of the
/// frontier.
#[verifier::rlimit(100)]
proof fn lemma_frontier_requeue(
    t0: Seq<Option<AStarNode>>,
    t1: Seq<Option<AStarNode>>,
    closed: Seq<bool>,
    open0: Seq<usize>,
    nk: usize,
    n: AStarNode,
    pos: int,
)
    requires
        frontier_elems_ok(t0, closed, open0),
        frontier_distinct(open0),
        frontier_covers(t0, closed, open0),
        closed.len() == t0.len(),
        t0.len() <= usize::MAX,
        0 <= nk < t0.len(),
        !closed[nk as int],
        t0[nk as int] is Some,
        t1 == t0.update(nk as int, Some(n)),
        0 <= pos < open0.len(),
        open0[pos] == nk,
    ensures
        frontier_elems_ok(t1, closed, open0.remove(pos).push(nk)),
        frontier_distinct(open0.remove(pos).push(nk)),
        frontier_covers(t1, closed, open0.remove(pos).push(nk)),
{
    lemma_remove_index(open0, pos);
    let mid = open0.remove(pos);
    let open1 = mid.push(nk);
    assert forall|i: int| 0 <= i < mid.len() implies #[trigger] mid[i] < t0.len()
        && t0[mid[i] as int] is Some && !closed[mid[i] as int] && mid[i] != nk by {
        if i < pos {
            assert(mid[i] == open0[i]);
            assert(open0[i] != open0[pos]);
        } else {
            assert(mid[i] == open0[i + 1]);
            assert(open0[i + 1] != open0[pos]);
        }
    }
    assert forall|i: int, j: int| 0 <= i < j < mid.len() implies mid[i] != mid[j] by {
        if i < pos {
            assert(mid[i] == open0[i]);
        } else {
            assert(mid[i] == open0[i + 1]);
        }
        if j < pos {
            assert(mid[j] == open0[j]);
        } else {
            assert(mid[j] == open0[j + 1]);
        }
    }
    assert forall|i: int| 0 <= i < open1.len() implies #[trigger] open1[i] < t1.len()
        && t1[open1[i] as int] is Some && !closed[open1[i] as int] by {
        if i < mid.len() {
            assert(open1[i] == mid[i]);
            assert(t1[mid[i] as int] == t0[mid[i] as int]);
        } else {
            assert(open1[i] == nk);
        }
    }
    assert forall|i: int, j: int| 0 <= i < j < open1.len() implies open1[i] != open1[j] by {
        if j < mid.len() {
            assert(open1[i] == mid[i] && open1[j] == mid[j]);
        } else {
            assert(open1[j] == nk);
            assert(open1[i] == mid[i]);
        }
    }
    assert forall|k: int| 0 <= k < t1.len() && #[trigger] t1[k] is Some && !closed[k] implies open1
        .contains(k as usize) by {
        if k == nk {
            assert(open1[mid.len() as int] == nk);
        } else {
            assert(t1[k] == t0[k]);
            assert(t0[k] is Some);
            assert(open0.contains(k as usize));
            let j = choose|j: int| 0 <= j < open0.len() && open0[j] == k as usize;
            assert(j != pos);
            if j < pos {
                assert(open1[j] == mid[j]);
                assert(mid[j] == open0[j]);
            } else {
                assert(open1[j - 1] == mid[j - 1]);
                assert(mid[j - 1] == open0[j]);
            }
        }
    }
}



/// A finalized cell has been fully expanded: every cell reachable from it
/// by one legal move has been discovered.
pub open spec fn cell_expanded(t: Seq<Option<AStarNode>>, gs: Seq<Seq<bool>>, k: int) -> bool {
    let n = t[k].unwrap();
    forall|xx: int, yy: int|
        #![trigger key_of(xx, yy, grid_width(gs))]
        move_ok(gs, n.x as int, n.y as int, xx, yy) ==> t[key_of(xx, yy, grid_width(gs))] is Some
}

/// Every finalized cell has been fully expanded. Together with an empty
/// frontier this makes the set of discovered cells closed under legal moves,
/// which is what rules out false negatives.
pub open spec fn closure_ok(t: Seq<Option<AStarNode>>, closed: Seq<bool>, gs: Seq<Seq<bool>>) -> bool {
    forall|k: int|
        #![trigger closed[k]]
        0 <= k < t.len() && closed[k] ==> cell_expanded(t, gs, k)
}

/// The target of direction `dd` out of the cell of `cur`, when it is a legal
/// move, has been discovered.
pub open spec fn dir_expanded(
    t: Seq<Option<AStarNode>>,
    gs: Seq<Seq<bool>>,
    cur: AStarNode,
    dd: int,
) -> bool {
    let xx = cur.x + direction_seq()[dd].0;
    let yy = cur.y + direction_seq()[dd].1;
    move_ok(gs, cur.x as int, cur.y as int, xx, yy) ==> t[key_of(xx, yy, grid_width(gs))] is Some
}

/// Every 8-neighbour offset occurs in the direction table.
proof fn lemma_direction_complete(dxi: int, dyi: int)
    requires
        -1 <= dxi <= 1,
        -1 <= dyi <= 1,
        !(dxi == 0 && dyi == 0),
    ensures
        exists|dd: int|
            0 <= dd < 8 && #[trigger] direction_seq()[dd].0 == dxi && direction_seq()[dd].1 == dyi,
{
    if dxi == 0 && dyi == 1 {
        assert(direction_seq()[0].0 == 0 && direction_seq()[0].1 == 1);
    } else if dxi == 1 && dyi == 0 {
        assert(direction_seq()[1].0 == 1 && direction_seq()[1].1 == 0);
    } else if dxi == 0 && dyi == -1 {
        assert(direction_seq()[2].0 == 0 && direction_seq()[2].1 == -1);
    } else if dxi == -1 && dyi == 0 {
        assert(direction_seq()[3].0 == -1 && direction_seq()[3].1 == 0);
    } else if dxi == 1 && dyi == 1 {
        assert(direction_seq()[4].0 == 1 && direction_seq()[4].1 == 1);
    } else if dxi == 1 && dyi == -1 {
        assert(direction_seq()[5].0 == 1 && direction_seq()[5].1 == -1);
    } else if dxi == -1 && dyi == 1 {
        assert(direction_seq()[6].0 == -1 && direction_seq()[6].1 == 1);
    } else {
        assert(direction_seq()[7].0 == -1 && direction_seq()[7].1 == -1);
    }
}

/// When the frontier has run dry, the discovered cells are exactly the
/// finalized ones and they are closed under legal moves, so a valid path
/// from a discovered cell forces the goal itself to be finalized. The
/// search finalizes the goal only by returning a found result, so at a
/// not-found exit this rules out any valid path.
#[verifier::rlimit(100)]
proof fn lemma_exhausted_no_path(
    t: Seq<Option<AStarNode>>,
    closed: Seq<bool>,
    gs: Seq<Seq<bool>>,
    s0x: int,
    s0y: int,
    ex: int,
    ey: int,
    p: Seq<PathPoint>,
    px: int,
    py: int,
)
    requires
        grid_wf(gs),
        table_ok(t, gs, s0x, s0y),
        closure_ok(t, closed, gs),
        closed.len() == t.len(),
        forall|k: int| #![trigger t[k]] 0 <= k < t.len() && t[k] is Some ==> closed[k],
        in_grid(gs, px, py),
        t[key_of(px, py, grid_width(gs))] is Some,
        in_grid(gs, ex, ey),
        path_valid(gs, p, px, py, ex, ey),
    ensures
        closed[key_of(ex, ey, grid_width(gs))],
    decreases p.len(),
{
    let w = grid_width(gs);
    let h = grid_height(gs);
    let k0 = key_of(px, py, w);
    lemma_key_of_bounds(px, py, w, h);
    lemma_key_of_bounds(ex, ey, w, h);
    assert(closed[k0]);
    if p.len() == 1 {
        assert(px == ex && py == ey);
    } else {
        assert(cell_expanded(t, gs, k0));
        let n = t[k0].unwrap();
        assert(node_ok(t, gs, s0x, s0y, k0));
        lemma_key_of_inj(n.x as int, n.y as int, px, py, w);
        assert(move_ok(gs, px, py, p[1].x as int, p[1].y as int));
        let k1 = key_of(p[1].x as int, p[1].y as int, w);
        assert(t[k1] is Some);
        lemma_path_valid_suffix(gs, p, px, py, ex, ey);
        lemma_exhausted_no_path(
            t,
            closed,
            gs,
            s0x,
            s0y,
            ex,
            ey,
            p.subrange(1, p.len() as int),
            p[1].x as int,
            p[1].y as int,
        );
    }
}

/// Invalid endpoints admit no valid path: a valid path starts and ends on
/// passable in-grid cells.
pub proof fn lemma_no_path_invalid_endpoints(
    gs: Seq<Seq<bool>>,
    sx: int,
    sy: int,
    ex: int,
    ey: int,
)
    requires
        !endpoints_valid(gs, sx, sy, ex, ey),
    ensures
        forall|p: Seq<PathPoint>| !(#[trigger] path_valid(gs, p, sx, sy, ex, ey)),
{
    assert forall|p: Seq<PathPoint>| !(#[trigger] path_valid(gs, p, sx, sy, ex, ey)) by {
        if path_valid(gs, p, sx, sy, ex, ey) {
            assert(in_grid(gs, p[0].x as int, p[0].y as int));
            assert(!blocked_at(gs, p[0].x as int, p[0].y as int));
            assert(in_grid(gs, p[p.len() - 1].x as int, p[p.len() - 1].y as int));
            assert(!blocked_at(gs, p[p.len() - 1].x as int, p[p.len() - 1].y as int));
        }
    }
}

/// After all eight directions of the just-closed cell have been expanded,
/// every finalized cell is fully expanded.
#[verifier::rlimit(100)]
proof fn lemma_expanded_after_dirs(
    t: Seq<Option<AStarNode>>,
    closed: Seq<bool>,
    gs: Seq<Seq<bool>>,
    cur_k: usize,
    cur: AStarNode,
)
    requires
        grid_wf(gs),
        t.len() == grid_width(gs) * grid_height(gs),
        closed.len() == t.len(),
        0 <= cur_k < t.len(),
        t[cur_k as int] == Some(cur),
        forall|k: int|
            #![trigger closed[k]]
            0 <= k < t.len() && closed[k] && k != cur_k ==> cell_expanded(t, gs, k),
        forall|dd: int| 0 <= dd < 8 ==> #[trigger] dir_expanded(t, gs, cur, dd),
    ensures
        closure_ok(t, closed, gs),
{
    assert forall|k: int| 0 <= k < t.len() && #[trigger] closed[k] implies cell_expanded(
        t,
        gs,
        k,
    ) by {
        if k == cur_k {
            let n = t[k].unwrap();
            assert(n == cur);
            assert forall|xx: int, yy: int|
                move_ok(gs, n.x as int, n.y as int, xx, yy) implies t[#[trigger] key_of(
                xx,
                yy,
                grid_width(gs),
            )] is Some by {
                lemma_direction_complete(xx - cur.x, yy - cur.y);
                let dd = choose|dd: int|
                    0 <= dd < 8 && #[trigger] direction_seq()[dd].0 == xx - cur.x
                        && direction_seq()[dd].1 == yy - cur.y;
                assert(dir_expanded(t, gs, cur, dd));
            }
        }
    }
}

/// At a not-found exit — empty frontier, goal never finalized — no valid
/// path from start to goal exists. This is the completeness direction of the
/// search: it reports not-found only when the goal truly is unreachable.
#[verifier::rlimit(100)]
proof fn lemma_no_path_on_exhaustion(
    t: Seq<Option<AStarNode>>,
    closed: Seq<bool>,
    open: Seq<usize>,
    gs: Seq<Seq<bool>>,
    sx: int,
    sy: int,
    ex: int,
    ey: int,
)
    requires
        grid_wf(gs),
        search_inv(t, closed, open, gs, sx, sy, ex, ey),
        closure_ok(t, closed, gs),
        open.len() == 0,
        in_grid(gs, sx, sy),
        in_grid(gs, ex, ey),
        t[key_of(sx, sy, grid_width(gs))] is Some,
        !closed[key_of(ex, ey, grid_width(gs))],
    ensures
        forall|p: Seq<PathPoint>| !(#[trigger] path_valid(gs, p, sx, sy, ex, ey)),
{
    assert forall|k: int| 0 <= k < t.len() && #[trigger] t[k] is Some implies closed[k] by {
        if !closed[k] {
            assert(open.contains(k as usize));
        }
    }
    assert forall|p: Seq<PathPoint>| !(#[trigger] path_valid(gs, p, sx, sy, ex, ey)) by {
        if path_valid(gs, p, sx, sy, ex, ey) {
            lemma_exhausted_no_path(t, closed, gs, sx, sy, ex, ey, p, sx, sy);
        }
    }
}

/// Scans the frontier and returns the position of the entry with the least
/// priority `f`; among equal priorities the earliest position wins, matching
/// the fixed tie-break of a front-to-back scan.
#[verifier::loop_isolation(false)]
fn select_lowest_f(
    grid: &Vec<Vec<bool>>,
    table: &Vec<Option<AStarNode>>,
    open: &Vec<usize>,
    closed: &Vec<bool>,
    end_x: i32,
    end_y: i32,
) -> (r: usize)
    requires
        grid_wf(grid.deep_view()),
        table@.len() == grid_width(grid.deep_view()) * grid_height(grid.deep_view()),
        closed@.len() == table@.len(),
        nodes_live_ok(table@, closed@, grid.deep_view(), end_x as int, end_y as int),
        frontier_elems_ok(table@, closed@, open@),
        in_grid(grid.deep_view(), end_x as int, end_y as int),
        open@.len() > 0,
    ensures
        r < open@.len(),
{
    let ghost gs = grid.deep_view();
    let ghost ex = end_x as int;
    let ghost ey = end_y as int;
    proof {
        lemma_cells_bound(grid_width(gs), grid_height(gs));
        lemma_num_false_bounds(closed@);
    }
    let mut cur_i: usize = 0;
    let mut i: usize = 1;
    while i < open.len()
        invariant
            cur_i < open@.len(),
            i <= open@.len(),
        decreases open@.len() - i,
    {
        let ki: usize = open[i];
        let kc: usize = open[cur_i];
        proof {
            assert(open@[i as int] == ki);
            assert(open@[cur_i as int] == kc);
            assert(table@[ki as int] is Some);
            assert(table@[kc as int] is Some);
        }
        let ni: AStarNode = table[ki].unwrap();
        let nc: AStarNode = table[kc].unwrap();
        proof {
            assert(node_live(ni, closed@, gs, ex, ey));
            assert(node_live(nc, closed@, gs, ex, ey));
            assert(cost_bounded(ni.f));
            assert(cost_bounded(nc.f));
        }
        if ni.f.lt(&nc.f) {
            cur_i = i;
        }
        i += 1;
    }
    cur_i
}

/// Processes one direction out of the just-closed cell of `cur`: skips the
/// move when its target is outside the grid, blocked, already finalized, or
/// a cut corner, discovers the target when it is new, and relaxes it when
/// the route through `cur` is strictly cheaper. Afterwards the target of
/// this direction, if the move is legal, is discovered.
#[verifier::rlimit(100)]
fn expand_neighbor(
    grid: &Vec<Vec<bool>>,
    table: &mut Vec<Option<AStarNode>>,
    open: &mut Vec<usize>,
    closed: &Vec<bool>,
    start_x: i32,
    start_y: i32,
    end_x: i32,
    end_y: i32,
    cur_k: usize,
    cur: AStarNode,
    dx: i32,
    dy: i32,
    d: usize,
)
    requires
        grid_wf(grid.deep_view()),
        grid_width(grid.deep_view()) * grid_height(grid.deep_view()) <= usize::MAX,
        search_inv(
            old(table)@,
            closed@,
            old(open)@,
            grid.deep_view(),
            start_x as int,
            start_y as int,
            end_x as int,
            end_y as int,
        ),
        in_grid(grid.deep_view(), end_x as int, end_y as int),
        cur_k < old(table)@.len(),
        old(table)@[cur_k as int] == Some(cur),
        closed@[cur_k as int],
        node_steps(cur) + 1 + num_false(closed@) <= closed@.len(),
        d < 8,
        dx == direction_seq()[d as int].0,
        dy == direction_seq()[d as int].1,
    ensures
        final(table)@.len() == old(table)@.len(),
        search_inv(
            final(table)@,
            closed@,
            final(open)@,
            grid.deep_view(),
            start_x as int,
            start_y as int,
            end_x as int,
            end_y as int,
        ),
        forall|k: int|
            0 <= k < old(table)@.len() && #[trigger] old(table)@[k] is Some ==> final(table)@[k]
                is Some,
        forall|k: int|
            0 <= k < closed@.len() && #[trigger] closed@[k] ==> final(table)@[k] == old(table)@[k],
        dir_expanded(final(table)@, grid.deep_view(), cur, d as int),
{
    let ghost gs = grid.deep_view();
    let ghost w = grid_width(gs);
    let ghost h = grid_height(gs);
    let ghost sx = start_x as int;
    let ghost sy = start_y as int;
    let ghost ex = end_x as int;
    let ghost ey = end_y as int;
    let height: usize = grid.len();
    proof {
        assert(gs.len() == grid@.len());
        assert(gs[0] == grid@[0].deep_view());
        assert(grid@[0]@.len() == gs[0].len());
    }
    let width: usize = grid[0].len();
    let width_i: i32 = width as i32;
    let height_i: i32 = height as i32;
    proof {
        lemma_direction_entry(d as int);
        lemma_cells_bound(w, h);
        assert(table@[cur_k as int] is Some);
        assert(node_ok(table@, gs, sx, sy, cur_k as int));
    }
    let nx = cur.x + dx;
    let ny = cur.y + dy;
    if !(nx < 0 || nx >= width_i || ny < 0 || ny >= height_i) {
        let nxu = nx as usize;
        let nyu = ny as usize;
        if !cell_blocked(grid, nxu, nyu) {
            proof {
                lemma_key_of_bounds(nx as int, ny as int, w, h);
            }
            let nk: usize = nyu * width + nxu;
            if !closed[nk] {
                if !is_diagonal_blocked(grid, cur.x, cur.y, dx, dy) {
                    let diagonal = dx != 0 && dy != 0;
                    proof {
                        lemma_num_false_bounds(closed@);
                    }
                    let tentative = cur.g.plus_step(diagonal);
                    let existing: Option<AStarNode> = table[nk];
                    match existing {
                        Some(exist) => {
                            proof {
                                assert(table@[nk as int] is Some);
                                assert(node_live(exist, closed@, gs, ex, ey));
                                assert(node_ok(table@, gs, sx, sy, nk as int));
                                lemma_key_of_inj(
                                    exist.x as int,
                                    exist.y as int,
                                    nx as int,
                                    ny as int,
                                    w,
                                );
                                assert(cost_bounded(tentative));
                                assert(cost_bounded(exist.g));
                                assert(open@.contains(nk));
                            }
                            if tentative.lt(&exist.g) {
                                let ghost t0 = table@;
                                let ghost open0b = open@;
                                let pos = find_open_index(open, nk);
                                let mut upd = exist;
                                upd.g = tentative;
                                upd.parent = Some((cur.x, cur.y));
                                upd.update_f();
                                table[nk] = Some(upd);
                                open.remove(pos);
                                open.push(nk);
                                proof {
                                    assert(open@ == open0b.remove(pos as int).push(nk));
                                    lemma_table_update(
                                        t0,
                                        table@,
                                        closed@,
                                        gs,
                                        sx,
                                        sy,
                                        ex,
                                        ey,
                                        cur_k,
                                        cur,
                                        nk,
                                        upd,
                                    );
                                    lemma_frontier_requeue(
                                        t0,
                                        table@,
                                        closed@,
                                        open0b,
                                        nk,
                                        upd,
                                        pos as int,
                                    );
                                    assert(search_inv(table@, closed@, open@, gs, sx, sy, ex, ey));
                                }
                            }
                        },
                        None => {
                            let ghost t0 = table@;
                            let ghost open0b = open@;
                            let mut nb = AStarNode::new(nx, ny);
                            nb.calculate_h(end_x, end_y);
                            nb.g = tentative;
                            nb.parent = Some((cur.x, cur.y));
                            nb.update_f();
                            table[nk] = Some(nb);
                            open.push(nk);
                            proof {
                                lemma_table_update(
                                    t0,
                                    table@,
                                    closed@,
                                    gs,
                                    sx,
                                    sy,
                                    ex,
                                    ey,
                                    cur_k,
                                    cur,
                                    nk,
                                    nb,
                                );
                                lemma_frontier_push(t0, table@, closed@, open0b, nk, nb);
                                assert(search_inv(table@, closed@, open@, gs, sx, sy, ex, ey));
                            }
                        },
                    }
                }
            }
        }
    }
    proof {
        assert(dir_expanded(table@, gs, cur, d as int));
    }
}

/// Expands all eight directions out of the just-closed cell of `cur`. On
/// return every finalized cell, including this one, is fully expanded, and
/// no finalized table entry has changed.
#[verifier::loop_isolation(false)]
#[verifier::rlimit(100)]
fn expand_all_dirs(
    grid: &Vec<Vec<bool>>,
    table: &mut Vec<Option<AStarNode>>,
    open: &mut Vec<usize>,
    closed: &Vec<bool>,
    start_x: i32,
    start_y: i32,
    end_x: i32,
    end_y: i32,
    cur_k: usize,
    cur: AStarNode,
)
    requires
        grid_wf(grid.deep_view()),
        grid_width(grid.deep_view()) * grid_height(grid.deep_view()) <= usize::MAX,
        in_grid(grid.deep_view(), end_x as int, end_y as int),
        search_inv(
            old(table)@,
            closed@,
            old(open)@,
            grid.deep_view(),
            start_x as int,
            start_y as int,
            end_x as int,
            end_y as int,
        ),
        cur_k < old(table)@.len(),
        old(table)@[cur_k as int] == Some(cur),
        closed@[cur_k as int],
        node_steps(cur) + 1 + num_false(closed@) <= closed@.len(),
        forall|k: int|
            #![trigger closed@[k]]
            0 <= k < old(table)@.len() && closed@[k] && k != cur_k ==> cell_expanded(
                old(table)@,
                grid.deep_view(),
                k,
            ),
    ensures
        final(table)@.len() == old(table)@.len(),
        search_inv(
            final(table)@,
            closed@,
            final(open)@,
            grid.deep_view(),
            start_x as int,
            start_y as int,
            end_x as int,
            end_y as int,
        ),
        closure_ok(final(table)@, closed@, grid.deep_view()),
        forall|k: int|
            0 <= k < old(table)@.len() && #[trigger] old(table)@[k] is Some ==> final(table)@[k]
                is Some,
        forall|k: int|
            0 <= k < closed@.len() && #[trigger] closed@[k] ==> final(table)@[k] == old(table)@[k],
{
    let ghost gs = grid.deep_view();
    let ghost w = grid_width(gs);
    let ghost h = grid_height(gs);
    let ghost sx = start_x as int;
    let ghost sy = start_y as int;
    let ghost ex = end_x as int;
    let ghost ey = end_y as int;
    let dirs = get_directions();
    let mut d: usize = 0;
    while d < dirs.len()
        invariant
            search_inv(table@, closed@, open@, gs, sx, sy, ex, ey),
            d <= dirs@.len(),
            table@.len() == old(table)@.len(),
            table@[cur_k as int] == Some(cur),
            forall|k: int|
                0 <= k < old(table)@.len() && #[trigger] old(table)@[k] is Some ==> table@[k]
                    is Some,
            forall|k: int|
                0 <= k < closed@.len() && #[trigger] closed@[k] ==> table@[k] == old(table)@[k],
            forall|k: int|
                #![trigger closed@[k]]
                0 <= k < table@.len() && closed@[k] && k != cur_k ==> cell_expanded(
                    table@,
                    gs,
                    k,
                ),
            forall|dd: int| 0 <= dd < d ==> #[trigger] dir_expanded(table@, gs, cur, dd),
        decreases dirs@.len() - d,
    {
        let dir = dirs[d];
        let ghost t_prev = table@;
        expand_neighbor(
            grid,
            table,
            open,
            closed,
            start_x,
            start_y,
            end_x,
            end_y,
            cur_k,
            cur,
            dir.0,
            dir.1,
            d,
        );
        proof {
            assert forall|k: int| 0 <= k < table@.len() && #[trigger] closed@[k] && k != cur_k
                implies cell_expanded(table@, gs, k) by {
                assert(cell_expanded(t_prev, gs, k));
                assert(t_prev[k] == table@[k]);
                let m = table@[k].unwrap();
                assert forall|xx: int, yy: int|
                    move_ok(gs, m.x as int, m.y as int, xx, yy) implies table@[#[trigger] key_of(
                    xx,
                    yy,
                    grid_width(gs),
                )] is Some by {
                    lemma_key_of_bounds(xx, yy, w, h);
                    assert(t_prev[key_of(xx, yy, w)] is Some);
                }
            }
            assert forall|dd: int| 0 <= dd < d + 1 implies #[trigger] dir_expanded(
                table@,
                gs,
                cur,
                dd,
            ) by {
                if dd < d {
                    assert(dir_expanded(t_prev, gs, cur, dd));
                    let xx = cur.x + direction_seq()[dd].0;
                    let yy = cur.y + direction_seq()[dd].1;
                    if move_ok(gs, cur.x as int, cur.y as int, xx, yy) {
                        lemma_key_of_bounds(xx, yy, w, h);
                        assert(t_prev[key_of(xx, yy, w)] is Some);
                    }
                }
            }
        }
        d += 1;
    }
    proof {
        lemma_expanded_after_dirs(table@, closed@, gs, cur_k, cur);
    }
}

/// One iteration of the main search loop: pops the frontier entry with the
/// least priority, finalizes its cell, returns the reconstructed path when
/// that cell is the goal, and otherwise expands all eight directions out of
/// it. Each step finalizes exactly one cell, which bounds the loop.
#[verifier::loop_isolation(false)]
#[verifier::rlimit(100)]
fn search_step(
    grid: &Vec<Vec<bool>>,
    table: &mut Vec<Option<AStarNode>>,
    closed: &mut Vec<bool>,
    open: &mut Vec<usize>,
    start_x: i32,
    start_y: i32,
    end_x: i32,
    end_y: i32,
) -> (r: Option<Vec<PathPoint>>)
    requires
        grid_wf(grid.deep_view()),
        grid_width(grid.deep_view()) * grid_height(grid.deep_view()) <= usize::MAX,
        endpoints_valid(
            grid.deep_view(),
            start_x as int,
            start_y as int,
            end_x as int,
            end_y as int,
        ),
        search_inv(
            old(table)@,
            old(closed)@,
            old(open)@,
            grid.deep_view(),
            start_x as int,
            start_y as int,
            end_x as int,
            end_y as int,
        ),
        closure_ok(old(table)@, old(closed)@, grid.deep_view()),
        old(table)@[key_of(start_x as int, start_y as int, grid_width(grid.deep_view()))] is Some,
        !old(closed)@[key_of(end_x as int, end_y as int, grid_width(grid.deep_view()))],
        old(open)@.len() > 0,
    ensures
        final(table)@.len() == old(table)@.len(),
        final(closed)@.len() == old(closed)@.len(),
        r is Some ==> path_valid(
            grid.deep_view(),
            r.unwrap()@,
            start_x as int,
            start_y as int,
            end_x as int,
            end_y as int,
        ),
        r is None ==> search_inv(
            final(table)@,
            final(closed)@,
            final(open)@,
            grid.deep_view(),
            start_x as int,
            start_y as int,
            end_x as int,
            end_y as int,
        ) && closure_ok(final(table)@, final(closed)@, grid.deep_view()) && final(table)@[key_of(
            start_x as int,
            start_y as int,
            grid_width(grid.deep_view()),
        )] is Some && !final(closed)@[key_of(
            end_x as int,
            end_y as int,
            grid_width(grid.deep_view()),
        )] && num_false(final(closed)@) == num_false(old(closed)@) - 1,
{
    let ghost gs = grid.deep_view();
    let ghost w = grid_width(gs);
    let ghost h = grid_height(gs);
    let ghost sx = start_x as int;
    let ghost sy = start_y as int;
    let ghost ex = end_x as int;
    let ghost ey = end_y as int;
    let ghost sk = key_of(sx, sy, w);
    let ghost gk = key_of(ex, ey, w);
    proof {
        lemma_key_of_bounds(sx, sy, w, h);
        lemma_key_of_bounds(ex, ey, w, h);
        lemma_cells_bound(w, h);
    }
    let cur_i: usize = select_lowest_f(grid, table, open, closed, end_x, end_y);
    let cur_k: usize = open[cur_i];
    proof {
        assert(open@[cur_i as int] == cur_k);
        assert(table@[cur_k as int] is Some);
    }
    let cur: AStarNode = table[cur_k].unwrap();
    let ghost open0 = open@;
    let ghost closed0 = closed@;
    open.remove(cur_i);
    closed[cur_k] = true;
    proof {
        lemma_close_lives(table@, closed0, closed@, gs, ex, ey, cur_k);
        lemma_close_frontier(table@, closed0, closed@, open0, open@, cur_i as int, cur_k);
        assert(node_live(cur, closed0, gs, ex, ey));
        assert(node_steps(cur) + 1 + num_false(closed@) <= closed@.len());
        lemma_num_false_bounds(closed@);
        assert(node_ok(table@, gs, sx, sy, cur_k as int));
        assert(key_of(cur.x as int, cur.y as int, w) == cur_k);
    }
    if cur.is_goal(end_x, end_y) {
        let path = reconstruct_path(grid, table, cur, start_x, start_y);
        return Some(path);
    }
    proof {
        if gk == cur_k {
            lemma_key_of_inj(cur.x as int, cur.y as int, ex, ey, w);
        }
        assert(!closed@[gk]);
        assert forall|k: int| 0 <= k < table@.len() && #[trigger] closed@[k] && k != cur_k
            implies cell_expanded(table@, gs, k) by {
            assert(closed0[k]);
            assert(cell_expanded(table@, gs, k));
        }
    }
    expand_all_dirs(grid, table, open, closed, start_x, start_y, end_x, end_y, cur_k, cur);
    proof {
        assert(table@[sk as int] is Some);
        assert(!closed@[gk]);
        assert(num_false(closed@) == num_false(old(closed)@) - 1);
    }
    None
}

/// Runs one A* search over `grid` (`true` cells are blocked) from
/// `(start_x, start_y)` to `(end_x, end_y)` and returns the path found plus
/// a found flag.
///
/// An out-of-bounds or blocked start or goal yields a not-found result with
/// an empty path. When start and goal coincide on a valid cell, the result
/// is the single-point path. Otherwise the search repeatedly pops the
/// frontier node with the least priority (earliest position wins ties),
/// finalizes it, and relaxes its 8 neighbours, skipping blocked, finalized
/// and corner-cutting moves, until the goal is popped or the frontier runs
/// dry. Every returned path is valid in the sense of [`path_valid`]: it runs
/// from start to goal over passable cells by legal moves and repeats no
/// cell.
#[verifier::loop_isolation(false)]
#[verifier::rlimit(100)]
pub fn find_path_astar(
    grid: &Vec<Vec<bool>>,
    start_x: i32,
    start_y: i32,
    end_x: i32,
    end_y: i32,
) -> (r: AStarResult)
    requires
        grid_wf(grid.deep_view()),
        grid_width(grid.deep_view()) * grid_height(grid.deep_view()) <= usize::MAX,
    ensures
        r.found ==> path_valid(
            grid.deep_view(),
            r.path@,
            start_x as int,
            start_y as int,
            end_x as int,
            end_y as int,
        ),
        !r.found ==> r.path@.len() == 0,
        !r.found ==> (forall|p: Seq<PathPoint>|
            !path_valid(
                grid.deep_view(),
                p,
                start_x as int,
                start_y as int,
                end_x as int,
                end_y as int,
            )),
        !endpoints_valid(
            grid.deep_view(),
            start_x as int,
            start_y as int,
            end_x as int,
            end_y as int,
        ) ==> !r.found,
        endpoints_valid(grid.deep_view(), start_x as int, start_y as int, end_x as int, end_y as int)
            && start_x == end_x && start_y == end_y ==> r.found && r.path@.len() == 1
            && r.path@[0].x == start_x && r.path@[0].y == start_y,
{
    let ghost gs = grid.deep_view();
    let ghost w = grid_width(gs);
    let ghost h = grid_height(gs);
    let ghost sx = start_x as int;
    let ghost sy = start_y as int;
    let ghost ex = end_x as int;
    let ghost ey = end_y as int;
    let height: usize = grid.len();
    proof {
        assert(gs.len() == grid@.len());
        assert(gs[0] == grid@[0].deep_view());
        assert(grid@[0]@.len() == gs[0].len());
    }
    let width: usize = grid[0].len();
    let width_i: i32 = width as i32;
    let height_i: i32 = height as i32;
    if start_x < 0 || start_x >= width_i || start_y < 0 || start_y >= height_i || end_x < 0
        || end_x >= width_i || end_y < 0 || end_y >= height_i {
        proof {
            lemma_no_path_invalid_endpoints(gs, sx, sy, ex, ey);
        }
        return AStarResult { path: Vec::new(), found: false };
    }
    if cell_blocked(grid, start_x as usize, start_y as usize) || cell_blocked(
        grid,
        end_x as usize,
        end_y as usize,
    ) {
        proof {
            lemma_no_path_invalid_endpoints(gs, sx, sy, ex, ey);
        }
        return AStarResult { path: Vec::new(), found: false };
    }
    if start_x == end_x && start_y == end_y {
        let mut path: Vec<PathPoint> = Vec::new();
        path.push(PathPoint { x: start_x, y: start_y });
        proof {
            assert(path_valid(gs, path@, sx, sy, ex, ey));
        }
        return AStarResult { path, found: true };
    }
    let ghost gk = key_of(ex, ey, w);
    proof {
        lemma_cells_bound(w, h);
        lemma_key_of_bounds(sx, sy, w, h);
        lemma_key_of_bounds(ex, ey, w, h);
    }
    let cells: usize = width * height;
    let mut table: Vec<Option<AStarNode>> = Vec::new();
    while table.len() < cells
        invariant
            table@.len() <= cells,
            forall|k: int| 0 <= k < table@.len() ==> (#[trigger] table@[k]) is None,
        decreases cells - table@.len(),
    {
        table.push(None);
    }
    let mut closed: Vec<bool> = Vec::new();
    while closed.len() < cells
        invariant
            closed@.len() <= cells,
            forall|k: int| 0 <= k < closed@.len() ==> !(#[trigger] closed@[k]),
        decreases cells - closed@.len(),
    {
        closed.push(false);
    }
    let mut open: Vec<usize> = Vec::new();

    let mut start_node = AStarNode::new(start_x, start_y);
    start_node.calculate_h(end_x, end_y);
    start_node.update_f();
    let sk: usize = (start_y as usize) * width + (start_x as usize);
    table[sk] = Some(start_node);
    open.push(sk);
    proof {
        lemma_num_false_bounds(closed@);
        assert forall|k: int| 0 <= k < table@.len() && (#[trigger] table@[k]) is Some implies node_ok(
            table@,
            gs,
            sx,
            sy,
            k,
        ) by {
            assert(k == sk);
            assert(table@[k].unwrap() == start_node);
        }
        assert forall|k: int| 0 <= k < table@.len() && (#[trigger] table@[k]) is Some implies node_live(
            table@[k].unwrap(),
            closed@,
            gs,
            ex,
            ey,
        ) by {
            assert(k == sk);
        }
        assert(open@[0] == sk);
        assert(search_inv(table@, closed@, open@, gs, sx, sy, ex, ey));
        assert(closure_ok(table@, closed@, gs));
        assert(!closed@[gk]);
    }
    #[verifier::loop_isolation(true)]
    while open.len() > 0
        invariant
            gs == grid.deep_view(),
            grid_wf(gs),
            w == grid_width(gs),
            h == grid_height(gs),
            sx == start_x as int,
            sy == start_y as int,
            ex == end_x as int,
            ey == end_y as int,
            endpoints_valid(gs, sx, sy, ex, ey),
            !(sx == ex && sy == ey),
            sk == key_of(sx, sy, w),
            gk == key_of(ex, ey, w),
            sk < table@.len(),
            0 <= gk < table@.len(),
            w * h <= usize::MAX,
            search_inv(table@, closed@, open@, gs, sx, sy, ex, ey),
            0 <= num_false(closed@),
            closure_ok(table@, closed@, gs),
            table@[sk as int] is Some,
            !closed@[gk],
        decreases num_false(closed@),
    {
        let step = search_step(
            grid,
            &mut table,
            &mut closed,
            &mut open,
            start_x,
            start_y,
            end_x,
            end_y,
        );
        match step {
            Some(path) => {
                return AStarResult { path, found: true };
            },
            None => {},
        }
        proof {
            lemma_num_false_bounds(closed@);
        }
    }
    proof {
        lemma_no_path_on_exhaustion(table@, closed@, open@, gs, sx, sy, ex, ey);
    }
    AStarResult { path: Vec::new(), found: false }
}

} // verus!
