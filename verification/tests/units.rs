use a_star_rust::AStarNode;
use a_star_rust::calculate_heuristic;
use a_star_rust::get_directions;
use a_star_rust::is_diagonal_blocked;

#[test]
fn heuristic_values() {
    assert_eq!(calculate_heuristic(0, 0, 4, 4), 4);
    assert_eq!(calculate_heuristic(4, 4, 0, 0), 4);
    assert_eq!(calculate_heuristic(2, 1, 2, 1), 0);
    assert_eq!(calculate_heuristic(0, 5, 3, 1), 4);
    assert_eq!(calculate_heuristic(7, 0, 0, 2), 7);
}

#[test]
fn directions_fixed_order() {
    let dirs = get_directions();
    assert_eq!(
        dirs,
        vec![(0, 1), (1, 0), (0, -1), (-1, 0), (1, 1), (1, -1), (-1, 1), (-1, -1)]
    );
}

#[test]
fn diagonal_blocking_rule() {
    // 3x3 grid, cell (1,0) blocked
    let mut grid = vec![vec![false; 3], vec![false; 3], vec![false; 3]];
    grid[0][1] = true;
    // diagonal (0,0) -> (1,1) passes beside the blocked (1,0): blocked
    assert!(is_diagonal_blocked(&grid, 0, 0, 1, 1));
    // diagonal (0,1) -> (1,0): the checked cells (0,0) and (1,1) are free,
    // so the move is allowed even though its target row holds a block
    assert!(!is_diagonal_blocked(&grid, 0, 1, 1, -1));
    // cardinal moves are never corner-blocked
    assert!(!is_diagonal_blocked(&grid, 0, 0, 0, 1));
    assert!(!is_diagonal_blocked(&grid, 1, 1, 1, 0));
    // fully free corner
    assert!(!is_diagonal_blocked(&grid, 1, 1, 1, 1));
}

#[test]
fn node_lifecycle() {
    let mut n = AStarNode::new(2, 3);
    assert_eq!(n.x, 2);
    assert_eq!(n.y, 3);
    assert_eq!(n.g.cardinal, 0);
    assert_eq!(n.g.diagonal, 0);
    assert_eq!(n.h, 0);
    assert!(n.parent.is_none());
    n.calculate_h(6, 1);
    assert_eq!(n.h, 4);
    n.g.cardinal = 2;
    n.g.diagonal = 1;
    n.update_f();
    assert_eq!(n.f.cardinal, 6);
    assert_eq!(n.f.diagonal, 1);
    assert!(n.is_goal(2, 3));
    assert!(!n.is_goal(3, 2));
}
