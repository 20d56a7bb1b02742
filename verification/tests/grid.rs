use gridpath::{Grid, Mode, Node, PathError, DIAGONAL_COST, MAX_CELLS, MOVE_COST};

fn indices(nodes: &[Node]) -> Vec<i32> {
    nodes.iter().map(|n| n.index).collect()
}

#[test]
fn new_rejects_non_positive_dimensions() {
    assert_eq!(Grid::new(0, 5, vec![]).err(), Some(PathError::InvalidDimensions));
    assert_eq!(Grid::new(5, 0, vec![]).err(), Some(PathError::InvalidDimensions));
    assert_eq!(Grid::new(-1, 5, vec![]).err(), Some(PathError::InvalidDimensions));
    assert_eq!(Grid::new(5, -3, vec![1]).err(), Some(PathError::InvalidDimensions));
    assert_eq!(Grid::new(-2, -2, vec![]).err(), Some(PathError::InvalidDimensions));
    assert!(Grid::new(1, 1, vec![]).is_ok());
}

#[test]
fn cells_are_laid_out_row_by_row() {
    let grid = Grid::new(3, 2, vec![4, 4, 17, -1]).unwrap();
    assert_eq!(grid.get_width(), 3);
    assert_eq!(grid.get_height(), 2);
    let nodes = grid.get_nodes();
    assert_eq!(nodes.len(), 6);
    for (i, n) in nodes.iter().enumerate() {
        assert_eq!(n.index, i as i32);
        assert_eq!(n.x, i as i32 % 3);
        assert_eq!(n.y, i as i32 / 3);
        assert_eq!(n.traversable, i != 4);
        assert_eq!((n.parent_index, n.g, n.h, n.f), (-1, 0, 0, 0));
    }
}

#[test]
fn get_node_is_bounds_checked() {
    let grid = Grid::new(3, 2, vec![4]).unwrap();
    assert!(grid.get_node(-1).is_none());
    assert!(grid.get_node(6).is_none());
    let n = grid.get_node(5).unwrap();
    assert_eq!((n.index, n.x, n.y, n.traversable), (5, 2, 1, true));
    assert!(!grid.get_node(4).unwrap().traversable);
}

#[test]
fn orthogonal_neighbours_in_order() {
    let grid = Grid::new(3, 3, vec![]).unwrap();
    let nodes = grid.get_nodes();
    assert_eq!(indices(&grid.get_neighbours(nodes[4], Mode::Orthogonal)), vec![3, 5, 1, 7]);
    assert_eq!(indices(&grid.get_neighbours(nodes[0], Mode::Orthogonal)), vec![1, 3]);
    assert_eq!(indices(&grid.get_neighbours(nodes[8], Mode::Orthogonal)), vec![7, 5]);
    assert_eq!(indices(&grid.get_neighbours(nodes[2], Mode::Orthogonal)), vec![1, 5]);
}

#[test]
fn diagonal_neighbours_in_order() {
    let grid = Grid::new(3, 3, vec![]).unwrap();
    let nodes = grid.get_nodes();
    assert_eq!(
        indices(&grid.get_neighbours(nodes[4], Mode::Diagonal)),
        vec![3, 5, 1, 7, 0, 2, 6, 8]
    );
    assert_eq!(indices(&grid.get_neighbours(nodes[0], Mode::Diagonal)), vec![1, 3, 4]);
    assert_eq!(indices(&grid.get_neighbours(nodes[5], Mode::Diagonal)), vec![4, 2, 8, 1, 7]);
}

#[test]
fn blocked_neighbours_are_left_out() {
    let grid = Grid::new(3, 3, vec![1, 3]).unwrap();
    let nodes = grid.get_nodes();
    assert!(grid.get_neighbours(nodes[0], Mode::Orthogonal).is_empty());
    // No corner-cutting rule: the diagonal step past two walls is allowed.
    assert_eq!(indices(&grid.get_neighbours(nodes[0], Mode::Diagonal)), vec![4]);
    assert_eq!(indices(&grid.get_neighbours(nodes[4], Mode::Diagonal)), vec![5, 7, 0, 2, 6, 8]);
    // A blocked cell still has neighbours.
    assert_eq!(indices(&grid.get_neighbours(nodes[1], Mode::Orthogonal)), vec![0, 2, 4]);
}

#[test]
fn neighbours_come_from_the_grid() {
    let grid = Grid::new(3, 3, vec![]).unwrap();
    let mut probe = Node::new(77, 1, 1);
    probe.g = 40;
    probe.traversable = false;
    let around = grid.get_neighbours(probe, Mode::Orthogonal);
    assert_eq!(indices(&around), vec![3, 5, 1, 7]);
    for n in around {
        assert_eq!((n.parent_index, n.g, n.h, n.f, n.traversable), (-1, 0, 0, 0, true));
    }
}

#[test]
fn positions_off_the_grid_have_the_neighbours_that_are_on_it() {
    let grid = Grid::new(3, 3, vec![]).unwrap();
    assert_eq!(indices(&grid.get_neighbours(Node::new(0, -1, 0), Mode::Orthogonal)), vec![0]);
    assert_eq!(indices(&grid.get_neighbours(Node::new(0, 3, 3), Mode::Diagonal)), vec![8]);
    assert!(grid.get_neighbours(Node::new(0, 10, 10), Mode::Diagonal).is_empty());
    assert!(grid
        .get_neighbours(Node::new(0, i32::MAX, i32::MIN), Mode::Diagonal)
        .is_empty());
}

#[test]
fn node_new_defaults() {
    let n = Node::new(9, 2, 3);
    assert_eq!(
        (n.index, n.parent_index, n.traversable, n.x, n.y, n.g, n.h, n.f),
        (9, -1, true, 2, 3, 0, 0, 0)
    );
}

#[test]
fn nodes_compare_by_index() {
    let mut a = Node::new(4, 0, 0);
    let b = Node::new(4, 3, 3);
    a.g = 30;
    assert!(a == b);
    assert!(a != Node::new(5, 0, 0));
}

#[test]
fn set_h_orthogonal_and_diagonal() {
    let goal = Node::new(0, 7, 2);
    let mut n = Node::new(1, 1, 6);
    n.g = 30;
    n.set_h(goal, Mode::Orthogonal);
    assert_eq!((n.g, n.h, n.f), (30, 100, 130));
    n.set_h(goal, Mode::Diagonal);
    assert_eq!((n.g, n.h, n.f), (30, 84, 114));
    let mut m = Node::new(2, 7, 2);
    m.set_h(goal, Mode::Diagonal);
    assert_eq!((m.h, m.f), (0, 0));
}

#[test]
fn set_h_leaves_a_blocked_cell_alone() {
    let goal = Node::new(0, 7, 2);
    let mut n = Node::new(1, 1, 6);
    n.traversable = false;
    n.h = 5;
    n.f = 9;
    n.set_h(goal, Mode::Orthogonal);
    assert_eq!((n.g, n.h, n.f), (0, 5, 9));
}

#[test]
fn set_g_f_adds_the_step() {
    let mut parent = Node::new(0, 2, 2);
    parent.g = 24;
    let mut straight = Node::new(1, 3, 2);
    straight.h = 28;
    straight.set_g_f(parent, Mode::Diagonal);
    assert_eq!((straight.g, straight.h, straight.f), (34, 28, 62));
    let mut slanted = Node::new(2, 3, 3);
    slanted.h = 14;
    slanted.set_g_f(parent, Mode::Diagonal);
    assert_eq!((slanted.g, slanted.f), (38, 52));
    let mut flat = Node::new(2, 3, 3);
    flat.set_g_f(parent, Mode::Orthogonal);
    assert_eq!((flat.g, flat.f), (34, 34));
}

#[test]
fn cost_model_values() {
    assert_eq!(MOVE_COST, 10);
    assert_eq!(DIAGONAL_COST, 14);
    assert_eq!(Mode::Orthogonal.estimate(0, 0, 3, 4), 70);
    assert_eq!(Mode::Diagonal.estimate(0, 0, 3, 4), 56);
    assert_eq!(Mode::Orthogonal.estimate(3, 4, 0, 0), 70);
    assert_eq!(Mode::Diagonal.estimate(5, 5, 5, 5), 0);
    assert_eq!(
        Mode::Orthogonal.estimate(i32::MIN, i32::MIN, i32::MAX, i32::MAX),
        2 * 10 * (u32::MAX as i64)
    );
    assert_eq!(Mode::Orthogonal.step(0, 0, 1, 1), 10);
    assert_eq!(Mode::Diagonal.step(0, 0, 1, 1), 14);
    assert_eq!(Mode::Diagonal.step(0, 0, 1, 0), 10);
    assert_eq!(Mode::Diagonal.step(0, 0, 0, 1), 10);
}

#[test]
fn cell_limit_keeps_costs_in_range() {
    assert_eq!(MAX_CELLS as i64, (i32::MAX as i64) / 28);
}
