use a_star_rust::AStarResult;
use a_star_rust::Cost;
use a_star_rust::PathPoint;
use a_star_rust::find_path_astar;

fn open_grid(width: usize, height: usize) -> Vec<Vec<bool>> {
    let mut grid = Vec::new();
    for _ in 0..height {
        let mut row = Vec::new();
        for _ in 0..width {
            row.push(false);
        }
        grid.push(row);
    }
    grid
}

fn assert_path_well_formed(r: &AStarResult, grid: &Vec<Vec<bool>>, start: (i32, i32), goal: (i32, i32)) {
    assert!(r.found);
    let p = &r.path;
    assert!(p.len() >= 1);
    assert_eq!((p[0].x, p[0].y), start);
    assert_eq!((p[p.len() - 1].x, p[p.len() - 1].y), goal);
    for pt in p.iter() {
        assert!(pt.x >= 0 && (pt.x as usize) < grid[0].len());
        assert!(pt.y >= 0 && (pt.y as usize) < grid.len());
        assert!(!grid[pt.y as usize][pt.x as usize]);
    }
    for w in p.windows(2) {
        let dx = w[1].x - w[0].x;
        let dy = w[1].y - w[0].y;
        assert!(dx.abs() <= 1 && dy.abs() <= 1);
        assert!(!(dx == 0 && dy == 0));
        if dx != 0 && dy != 0 {
            // the corner-cutting rule: both orthogonal cells next to the
            // source along the move's axes are passable
            assert!(!grid[(w[0].y + dy) as usize][w[0].x as usize]);
            assert!(!grid[w[0].y as usize][(w[0].x + dx) as usize]);
        }
    }
    for i in 0..p.len() {
        for j in (i + 1)..p.len() {
            assert!(!(p[i].x == p[j].x && p[i].y == p[j].y));
        }
    }
}

#[test]
fn open_5x5_diagonal() {
    let grid = open_grid(5, 5);
    let r = find_path_astar(&grid, 0, 0, 4, 4);
    assert_path_well_formed(&r, &grid, (0, 0), (4, 4));
    assert_eq!(r.path.len(), 5);
    let mut diagonals = 0;
    for w in r.path.windows(2) {
        let dx = w[1].x - w[0].x;
        let dy = w[1].y - w[0].y;
        if dx != 0 && dy != 0 {
            diagonals += 1;
        }
    }
    // total cost 4 * sqrt(2): four diagonal steps and no cardinal step
    assert_eq!(diagonals, 4);
}

#[test]
fn open_row_straight() {
    let grid = open_grid(5, 1);
    let r = find_path_astar(&grid, 0, 0, 4, 0);
    assert_path_well_formed(&r, &grid, (0, 0), (4, 0));
    // minimal cost is 4: four cardinal steps, no detour
    assert_eq!(r.path.len(), 5);
    for w in r.path.windows(2) {
        assert_eq!(w[1].y, w[0].y);
        assert_eq!(w[1].x - w[0].x, 1);
    }
}

#[test]
fn corner_wall_detour() {
    // two orthogonal blocked cells forming a solid corner around (1,1)-(2,2)
    let mut grid = open_grid(5, 5);
    grid[1][2] = true; // cell (2,1)
    grid[2][1] = true; // cell (1,2)
    let r = find_path_astar(&grid, 0, 0, 4, 4);
    assert_path_well_formed(&r, &grid, (0, 0), (4, 4));
    // the diagonal shortcut (1,1) -> (2,2) cuts the corner, so it must not
    // appear in the returned path
    for w in r.path.windows(2) {
        let through_corner = w[0].x == 1 && w[0].y == 1 && w[1].x == 2 && w[1].y == 2;
        assert!(!through_corner);
    }
    // the detour is strictly longer than the unobstructed diagonal path
    assert!(r.path.len() > 5);
}

#[test]
fn goal_blocked_not_found() {
    let mut grid = open_grid(3, 3);
    grid[2][2] = true;
    let r = find_path_astar(&grid, 0, 0, 2, 2);
    assert!(!r.found);
    assert!(r.path.is_empty());
}

#[test]
fn start_blocked_not_found() {
    let mut grid = open_grid(3, 3);
    grid[0][0] = true;
    let r = find_path_astar(&grid, 0, 0, 2, 2);
    assert!(!r.found);
    assert!(r.path.is_empty());
}

#[test]
fn out_of_bounds_not_found() {
    let grid = open_grid(3, 3);
    for (sx, sy, ex, ey) in [
        (-1, 0, 2, 2),
        (0, -1, 2, 2),
        (3, 0, 2, 2),
        (0, 3, 2, 2),
        (0, 0, -1, 2),
        (0, 0, 2, 3),
        (0, 0, 3, 2),
    ] {
        let r = find_path_astar(&grid, sx, sy, ex, ey);
        assert!(!r.found);
        assert!(r.path.is_empty());
    }
}

#[test]
fn start_equals_goal() {
    let grid = open_grid(4, 4);
    let r = find_path_astar(&grid, 2, 2, 2, 2);
    assert!(r.found);
    assert_eq!(r.path.len(), 1);
    assert_eq!(r.path[0], PathPoint { x: 2, y: 2 });
}

#[test]
fn walled_off_not_found() {
    // a full vertical wall splits the grid
    let mut grid = open_grid(5, 5);
    for y in 0..5 {
        grid[y][2] = true;
    }
    let r = find_path_astar(&grid, 0, 2, 4, 2);
    assert!(!r.found);
    assert!(r.path.is_empty());
}

#[test]
fn repeat_call_identical() {
    let mut grid = open_grid(6, 6);
    grid[1][2] = true;
    grid[2][1] = true;
    grid[3][3] = true;
    let a = find_path_astar(&grid, 0, 0, 5, 5);
    let b = find_path_astar(&grid, 0, 0, 5, 5);
    assert_eq!(a, b);
}

#[test]
fn unobstructed_always_found() {
    for (w, h, sx, sy, ex, ey) in [
        (1usize, 1usize, 0, 0, 0, 0),
        (7, 3, 6, 0, 0, 2),
        (2, 9, 0, 8, 1, 0),
        (10, 10, 9, 0, 0, 9),
    ] {
        let grid = open_grid(w, h);
        let r = find_path_astar(&grid, sx, sy, ex, ey);
        assert!(r.found);
        assert_path_well_formed(&r, &grid, (sx, sy), (ex, ey));
    }
}

#[test]
fn single_obstacle_detour() {
    let mut grid = open_grid(3, 1);
    grid[0][1] = true;
    // the only route from (0,0) to (2,0) would pass the blocked middle cell
    let r = find_path_astar(&grid, 0, 0, 2, 0);
    assert!(!r.found);

    let mut grid2 = open_grid(3, 2);
    grid2[0][1] = true;
    // with a second row the search routes around the obstacle
    let r2 = find_path_astar(&grid2, 0, 0, 2, 0);
    assert_path_well_formed(&r2, &grid2, (0, 0), (2, 0));
}

#[test]
fn cost_comparisons_exact() {
    let one_cardinal = Cost { cardinal: 1, diagonal: 0 };
    let one_diagonal = Cost { cardinal: 0, diagonal: 1 };
    // 1 < sqrt(2)
    assert!(one_cardinal.lt(&one_diagonal));
    assert!(!one_diagonal.lt(&one_cardinal));
    // 2 * sqrt(2) = 2.828... < 3
    let three = Cost { cardinal: 3, diagonal: 0 };
    let two_diag = Cost { cardinal: 0, diagonal: 2 };
    assert!(two_diag.lt(&three));
    assert!(!three.lt(&two_diag));
    // 7 < 5 * sqrt(2) = 7.071...
    let seven = Cost { cardinal: 7, diagonal: 0 };
    let five_diag = Cost { cardinal: 0, diagonal: 5 };
    assert!(seven.lt(&five_diag));
    assert!(!five_diag.lt(&seven));
    // equal costs are not less than each other
    let mixed = Cost { cardinal: 3, diagonal: 4 };
    assert!(!mixed.lt(&mixed));
    // 3 + 4 * sqrt(2) = 8.656... < 9 + 0 * sqrt(2)
    let nine = Cost { cardinal: 9, diagonal: 0 };
    assert!(mixed.lt(&nine));
    assert!(!nine.lt(&mixed));
}

#[test]
fn cost_step_counters() {
    let zero = Cost::zero();
    assert_eq!(zero.cardinal, 0);
    assert_eq!(zero.diagonal, 0);
    let c = zero.plus_step(false);
    assert_eq!((c.cardinal, c.diagonal), (1, 0));
    let d = c.plus_step(true);
    assert_eq!((d.cardinal, d.diagonal), (1, 1));
}
