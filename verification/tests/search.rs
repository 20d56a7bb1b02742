use gridpath::{a_star, find_path, get_path, Grid, Mode, Node, PathError};

fn indices(path: &[Node]) -> Vec<i32> {
    path.iter().map(|n| n.index).collect()
}

fn maze() -> Grid {
    Grid::new(7, 7, vec![5, 10, 12, 17, 19, 26, 31, 38, 40, 45, 47]).unwrap()
}

#[test]
fn maze_orthogonal_route() {
    let grid = maze();
    let path = find_path(&grid, 42, 6, Mode::Orthogonal).unwrap();
    assert_eq!(
        indices(&path),
        vec![42, 43, 44, 37, 30, 23, 24, 25, 32, 33, 34, 27, 20, 13, 6]
    );
    assert_eq!(path.len(), 15);
    assert_eq!(path.last().unwrap().g, 140);
    assert_eq!(path.last().unwrap().g as usize, (path.len() - 1) * 10);
}

#[test]
fn maze_diagonal_route() {
    let grid = maze();
    let path = find_path(&grid, 42, 6, Mode::Diagonal).unwrap();
    assert_eq!(indices(&path), vec![42, 36, 30, 24, 25, 33, 27, 20, 13, 6]);
    assert_eq!(path.last().unwrap().g, 110);
}

#[test]
fn a_star_reads_only_the_indices() {
    let grid = maze();
    let nodes = grid.get_nodes();
    let by_cells = a_star(&grid, nodes[42], nodes[6], Mode::Orthogonal).unwrap();
    let mut stale = Node::new(42, 0, 0);
    stale.g = 500;
    stale.parent_index = 3;
    let by_index = a_star(&grid, stale, Node::new(6, 9, 9), Mode::Orthogonal).unwrap();
    assert_eq!(indices(&by_cells), indices(&by_index));
    assert_eq!(by_index[0].g, 0);
    assert_eq!(by_index[0].parent_index, -1);
    assert_eq!((by_index[0].x, by_index[0].y), (0, 6));
}

#[test]
fn route_records_carry_costs_and_parents() {
    let grid = maze();
    for mode in [Mode::Orthogonal, Mode::Diagonal] {
        let path = find_path(&grid, 42, 6, mode).unwrap();
        assert_eq!(path[0].index, 42);
        assert_eq!(path[0].parent_index, -1);
        assert_eq!(path[0].g, 0);
        let mut total = 0;
        for pair in path.windows(2) {
            let (a, b) = (pair[0], pair[1]);
            let dx = (a.x - b.x).abs();
            let dy = (a.y - b.y).abs();
            match mode {
                Mode::Orthogonal => assert_eq!(dx + dy, 1),
                Mode::Diagonal => assert_eq!(dx.max(dy), 1),
            }
            let step = if mode == Mode::Diagonal && dx == 1 && dy == 1 { 14 } else { 10 };
            assert_eq!(b.parent_index, a.index);
            assert_eq!(b.g, a.g + step);
            assert!(b.traversable);
            total += step;
        }
        let last = path.last().unwrap();
        assert_eq!(last.index, 6);
        assert_eq!(last.g, total);
        assert_eq!(last.h, 0);
        for n in &path {
            assert_eq!(n.f, n.g + n.h);
        }
    }
}

#[test]
fn open_grid_orthogonal_length_is_manhattan() {
    let grid = Grid::new(6, 5, vec![]).unwrap();
    for start in 0..30 {
        for goal in 0..30 {
            let path = find_path(&grid, start, goal, Mode::Orthogonal).unwrap();
            let d = (start % 6 - goal % 6).abs() + (start / 6 - goal / 6).abs();
            assert_eq!(path.len() as i32 - 1, d);
            assert_eq!(path.last().unwrap().g, d * 10);
        }
    }
}

#[test]
fn open_grid_diagonal_length_is_chebyshev() {
    let grid = Grid::new(6, 5, vec![]).unwrap();
    for start in 0..30 {
        for goal in 0..30 {
            let path = find_path(&grid, start, goal, Mode::Diagonal).unwrap();
            let (dx, dy) = ((start % 6 - goal % 6).abs(), (start / 6 - goal / 6).abs());
            assert_eq!(path.len() as i32 - 1, dx.max(dy));
            assert_eq!(path.last().unwrap().g, 10 * dx.max(dy) + 4 * dx.min(dy));
        }
    }
}

#[test]
fn enclosed_goal_gives_empty_path() {
    // Cell 12 of a 5 by 5 grid, walled in on all eight sides.
    let grid = Grid::new(5, 5, vec![6, 7, 8, 11, 13, 16, 17, 18]).unwrap();
    assert!(find_path(&grid, 0, 12, Mode::Orthogonal).unwrap().is_empty());
    assert!(find_path(&grid, 0, 12, Mode::Diagonal).unwrap().is_empty());
    // Walled in on four sides only: closed to orthogonal steps, open to diagonal ones.
    let grid = Grid::new(5, 5, vec![7, 11, 13, 17]).unwrap();
    assert!(find_path(&grid, 0, 12, Mode::Orthogonal).unwrap().is_empty());
    assert_eq!(indices(&find_path(&grid, 0, 12, Mode::Diagonal).unwrap()), vec![0, 6, 12]);
}

#[test]
fn corner_goal_behind_walls_is_unreachable() {
    let grid = Grid::new(3, 3, vec![1, 3, 4]).unwrap();
    assert!(find_path(&grid, 8, 0, Mode::Diagonal).unwrap().is_empty());
}

#[test]
fn same_inputs_same_route() {
    let grid = maze();
    for mode in [Mode::Orthogonal, Mode::Diagonal] {
        let first = find_path(&grid, 42, 6, mode).unwrap();
        let second = find_path(&grid, 42, 6, mode).unwrap();
        assert_eq!(first.len(), second.len());
        for (a, b) in first.iter().zip(second.iter()) {
            assert_eq!(
                (a.index, a.parent_index, a.x, a.y, a.g, a.h, a.f),
                (b.index, b.parent_index, b.x, b.y, b.g, b.h, b.f)
            );
        }
    }
}

#[test]
fn start_equal_to_goal_is_a_single_cell() {
    let grid = maze();
    for mode in [Mode::Orthogonal, Mode::Diagonal] {
        let path = find_path(&grid, 24, 24, mode).unwrap();
        assert_eq!(path.len(), 1);
        let n = path[0];
        assert_eq!(
            (n.index, n.parent_index, n.x, n.y, n.g, n.h, n.f, n.traversable),
            (24, -1, 3, 3, 0, 0, 0, true)
        );
    }
}

#[test]
fn start_equal_to_enclosed_goal_is_still_a_single_cell() {
    let grid = Grid::new(5, 5, vec![6, 7, 8, 11, 13, 16, 17, 18]).unwrap();
    assert_eq!(indices(&find_path(&grid, 12, 12, Mode::Diagonal).unwrap()), vec![12]);
}

#[test]
fn invalid_cells_are_rejected() {
    let grid = maze();
    for mode in [Mode::Orthogonal, Mode::Diagonal] {
        assert_eq!(find_path(&grid, -1, 6, mode).unwrap_err(), PathError::InvalidCell);
        assert_eq!(find_path(&grid, 49, 6, mode).unwrap_err(), PathError::InvalidCell);
        assert_eq!(find_path(&grid, 42, -7, mode).unwrap_err(), PathError::InvalidCell);
        assert_eq!(find_path(&grid, 42, 49, mode).unwrap_err(), PathError::InvalidCell);
        assert_eq!(find_path(&grid, 5, 6, mode).unwrap_err(), PathError::InvalidCell);
        assert_eq!(find_path(&grid, 42, 47, mode).unwrap_err(), PathError::InvalidCell);
        assert_eq!(
            a_star(&grid, Node::new(100, 0, 0), Node::new(6, 6, 0), mode).unwrap_err(),
            PathError::InvalidCell
        );
    }
}

#[test]
fn start_record_carries_the_estimate() {
    let grid = Grid::new(4, 3, vec![]).unwrap();
    let path = find_path(&grid, 0, 11, Mode::Orthogonal).unwrap();
    assert_eq!((path[0].g, path[0].h, path[0].f), (0, 50, 50));
    let path = find_path(&grid, 0, 11, Mode::Diagonal).unwrap();
    assert_eq!((path[0].g, path[0].h, path[0].f), (0, 42, 42));
}

#[test]
fn ties_go_to_the_earliest_discovered() {
    // On an open 3 by 3 grid from corner to corner every cell on a shortest
    // route has the same priority; the first neighbour listed (to the right,
    // as there is none to the left) is expanded first.
    let grid = Grid::new(3, 3, vec![]).unwrap();
    let path = find_path(&grid, 0, 8, Mode::Orthogonal).unwrap();
    assert_eq!(indices(&path), vec![0, 1, 2, 5, 8]);
}

#[test]
fn open_cell_keeps_its_first_cost() {
    // Cell 13 is first seen from cell 10 by a diagonal step (g = 28). It is
    // seen again from cell 14 at g = 20, and keeps the record it has: the
    // route costs 62 where 54 was to be had.
    let grid = Grid::new(4, 4, vec![1, 5, 9]).unwrap();
    let path = find_path(&grid, 15, 0, Mode::Diagonal).unwrap();
    assert_eq!(indices(&path), vec![15, 10, 13, 8, 4, 0]);
    let costs: Vec<i32> = path.iter().map(|n| n.g).collect();
    assert_eq!(costs, vec![0, 14, 28, 42, 52, 62]);
}

#[test]
fn get_path_follows_parents() {
    let mut a = Node::new(3, 3, 0);
    let mut b = Node::new(4, 4, 0);
    let mut c = Node::new(5, 5, 0);
    a.parent_index = -1;
    b.parent_index = 3;
    b.g = 10;
    c.parent_index = 4;
    c.g = 20;
    let path = get_path(vec![b, a, c], c).unwrap();
    assert_eq!(indices(&path), vec![3, 4, 5]);
    assert_eq!(path[1].g, 10);
    let single = get_path(vec![], a).unwrap();
    assert_eq!(indices(&single), vec![3]);
}

#[test]
fn get_path_takes_the_last_record_of_an_index() {
    let root = Node::new(0, 0, 0);
    let mut early = Node::new(1, 1, 0);
    early.parent_index = 9;
    let mut late = Node::new(1, 1, 0);
    late.parent_index = 0;
    late.g = 10;
    let mut end = Node::new(2, 2, 0);
    end.parent_index = 1;
    let path = get_path(vec![root, early, late], end).unwrap();
    assert_eq!(indices(&path), vec![0, 1, 2]);
    assert_eq!(path[1].g, 10);
}

#[test]
fn get_path_reports_a_missing_parent() {
    let mut b = Node::new(4, 4, 0);
    b.parent_index = 3;
    assert_eq!(get_path(vec![], b).unwrap_err(), PathError::BrokenParentChain);
    let mut c = Node::new(5, 5, 0);
    c.parent_index = 4;
    assert_eq!(get_path(vec![b], c).unwrap_err(), PathError::BrokenParentChain);
}

#[test]
fn get_path_reports_a_circle() {
    let mut a = Node::new(1, 1, 0);
    let mut b = Node::new(2, 2, 0);
    a.parent_index = 2;
    b.parent_index = 1;
    assert_eq!(get_path(vec![a, b], a).unwrap_err(), PathError::BrokenParentChain);
    let mut own = Node::new(7, 0, 0);
    own.parent_index = 7;
    assert_eq!(get_path(vec![own], own).unwrap_err(), PathError::BrokenParentChain);
}

#[test]
fn get_path_uses_every_closed_record_if_needed() {
    let mut closed = vec![Node::new(0, 0, 0)];
    for i in 1..10 {
        let mut n = Node::new(i, i, 0);
        n.parent_index = i - 1;
        closed.push(n);
    }
    let mut end = Node::new(10, 10, 0);
    end.parent_index = 9;
    let path = get_path(closed, end).unwrap();
    assert_eq!(indices(&path), (0..=10).collect::<Vec<i32>>());
}

#[test]
fn orthogonal_route_is_not_always_the_shortest() {
    // Nine steps lead from cell 39 to cell 2; the search returns eleven,
    // because a cell on the shorter way was first seen from the longer one.
    let walls = vec![0, 5, 7, 14, 15, 24, 25, 29, 30, 31, 33, 37, 41];
    let grid = Grid::new(6, 7, walls).unwrap();
    let path = find_path(&grid, 39, 2, Mode::Orthogonal).unwrap();
    assert_eq!(indices(&path), vec![39, 38, 32, 26, 20, 21, 22, 16, 10, 9, 8, 2]);
    assert_eq!(path.last().unwrap().g, 110);
}
