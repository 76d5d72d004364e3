use grid_astar::grid::{Cell, Grid, GridError, Pos, MAX_CELLS};
use grid_astar::node::{manhattan_distance, SearchNode};

fn p(x: i32, y: i32) -> Pos {
    Pos::new(x, y)
}

#[test]
fn grid_rejects_non_positive_dimensions() {
    assert_eq!(Grid::new(0, 3, vec![]).err(), Some(GridError::InvalidDimensions));
    assert_eq!(Grid::new(3, -1, vec![]).err(), Some(GridError::InvalidDimensions));
    assert_eq!(Grid::open(0, 0).err(), Some(GridError::InvalidDimensions));
}

#[test]
fn grid_rejects_wrong_wall_count() {
    assert_eq!(Grid::new(2, 2, vec![false; 3]).err(), Some(GridError::WallCountMismatch));
    assert_eq!(Grid::new(2, 2, vec![false; 5]).err(), Some(GridError::WallCountMismatch));
}

#[test]
fn grid_rejects_too_many_cells() {
    let side = 1 << 15;
    assert!((side as u64) * (side as u64) > MAX_CELLS);
    assert_eq!(Grid::open(side, side).err(), Some(GridError::TooLarge));
}

#[test]
fn grid_lookup_and_bounds() {
    // Cell (x, y) is stored at x * height + y; the wall is (1, 2).
    let mut walls = vec![false; 6];
    walls[1 * 3 + 2] = true;
    let g = Grid::new(2, 3, walls).unwrap();
    assert_eq!(g.width(), 2);
    assert_eq!(g.height(), 3);
    assert_eq!(g.cell_count(), 6);
    assert_eq!(g.get(1, 2), Some(Cell { x: 1, y: 2, is_wall: true }));
    assert_eq!(g.get(0, 0), Some(Cell { x: 0, y: 0, is_wall: false }));
    assert_eq!(g.get(2, 0), None);
    assert_eq!(g.get(0, -1), None);
    assert!(g.is_wall(1, 2));
    assert!(!g.is_wall(0, 2));
    assert!(!g.is_wall(5, 5));
    assert!(!g.is_passable(1, 2));
    assert!(!g.is_passable(-1, 0));
    assert!(g.is_passable(1, 1));
    assert!(g.in_bounds(1, 2));
    assert!(!g.in_bounds(1, 3));
}

#[test]
fn neighbors_come_up_right_down_left() {
    let g = Grid::open(3, 3).unwrap();
    assert_eq!(g.neighbors(p(1, 1)), vec![p(1, 0), p(2, 1), p(1, 2), p(0, 1)]);
    assert_eq!(g.neighbors(p(0, 0)), vec![p(1, 0), p(0, 1)]);
    assert_eq!(g.neighbors(p(2, 2)), vec![p(2, 1), p(1, 2)]);
}

#[test]
fn neighbors_skip_walls() {
    let mut walls = vec![false; 9];
    walls[1 * 3 + 0] = true; // (1, 0)
    walls[0 * 3 + 1] = true; // (0, 1)
    let g = Grid::new(3, 3, walls).unwrap();
    assert_eq!(g.neighbors(p(1, 1)), vec![p(2, 1), p(1, 2)]);
    assert_eq!(g.neighbors(p(0, 0)), vec![]);
}

#[test]
fn snapshot_is_equal_copy() {
    let mut walls = vec![false; 4];
    walls[3] = true;
    let g = Grid::new(2, 2, walls).unwrap();
    let c = g.snapshot();
    assert_eq!(c.width(), 2);
    assert!(c.is_wall(1, 1));
    assert!(!c.is_wall(0, 1));
}

#[test]
fn manhattan_distance_values() {
    assert_eq!(manhattan_distance(p(0, 0), p(4, 4)), 8);
    assert_eq!(manhattan_distance(p(4, 1), p(1, 3)), 5);
    assert_eq!(manhattan_distance(p(2, 2), p(2, 2)), 0);
    assert_eq!(manhattan_distance(p(-3, 5), p(2, -1)), 11);
}

#[test]
fn node_new_sums_scores() {
    let n = SearchNode::new(p(1, 2), 3, 4);
    assert_eq!(n.f_score, 7);
    assert_eq!(n.g_score, 3);
    assert_eq!(n.h_score, 4);
    assert_eq!(n.position, p(1, 2));
}

#[test]
fn ordering_by_f_then_h() {
    let a = SearchNode::new(p(5, 5), 2, 3); // f 5
    let b = SearchNode::new(p(0, 0), 4, 2); // f 6
    assert!(a.precedes(&b));
    assert!(!b.precedes(&a));
    let c = SearchNode::new(p(9, 9), 4, 1); // f 5, h 1
    assert!(c.precedes(&a));
    assert!(!a.precedes(&c));
}

#[test]
fn ordering_ties_break_by_position() {
    // Equal f and h: x first, then y, ascending.
    let a = SearchNode::new(p(1, 7), 2, 2);
    let b = SearchNode::new(p(2, 0), 2, 2);
    let c = SearchNode::new(p(1, 8), 2, 2);
    assert!(a.precedes(&b));
    assert!(!b.precedes(&a));
    assert!(a.precedes(&c));
    assert!(!c.precedes(&a));
    assert!(!a.precedes(&a));
}
