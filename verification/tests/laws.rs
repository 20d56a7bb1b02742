use gridpath::{find_path, Grid, Mode, Node};

/// A small deterministic generator, so that the grids are the same on every run.
struct Lcg(u64);

impl Lcg {
    fn next(&mut self) -> u32 {
        self.0 = self.0.wrapping_mul(6364136223846793005).wrapping_add(1442695040888963407);
        (self.0 >> 33) as u32
    }
}

fn random_grid(rng: &mut Lcg, width: i32, height: i32, walls_per_ten: u32) -> (Grid, Vec<bool>) {
    let mut walls = Vec::new();
    let mut blocked = Vec::new();
    for i in 0..width * height {
        let wall = rng.next() % 10 < walls_per_ten;
        blocked.push(wall);
        if wall {
            walls.push(i);
        }
    }
    (Grid::new(width, height, walls).unwrap(), blocked)
}

/// Cheapest cost to `goal` from every cell, by exhaustive relaxation.
fn true_costs(grid: &Grid, goal: i32, mode: Mode) -> Vec<Option<i32>> {
    let nodes = grid.get_nodes();
    let mut best: Vec<Option<i32>> = vec![None; nodes.len()];
    best[goal as usize] = Some(0);
    let mut changed = true;
    while changed {
        changed = false;
        for n in &nodes {
            if !n.traversable {
                continue;
            }
            let Some(here) = best[n.index as usize] else { continue };
            for m in grid.get_neighbours(*n, mode) {
                let cost = here + mode.step(m.x, m.y, n.x, n.y);
                if best[m.index as usize].map_or(true, |old| cost < old) {
                    best[m.index as usize] = Some(cost);
                    changed = true;
                }
            }
        }
    }
    best
}

#[test]
fn orthogonal_estimate_never_exceeds_true_cost() {
    let mut rng = Lcg(11);
    for round in 0..40 {
        let (w, h) = (2 + round % 5, 2 + (round / 5) % 4);
        let (grid, blocked) = random_grid(&mut rng, w, h, 3);
        let nodes = grid.get_nodes();
        for goal in nodes.iter().filter(|n| n.traversable) {
            let best = true_costs(&grid, goal.index, Mode::Orthogonal);
            for n in nodes.iter().filter(|n| !blocked[n.index as usize]) {
                if let Some(cost) = best[n.index as usize] {
                    let h = Mode::Orthogonal.estimate(n.x, n.y, goal.x, goal.y);
                    assert!(h <= cost as i64, "cell {} goal {}", n.index, goal.index);
                }
            }
        }
    }
}

#[test]
fn diagonal_estimate_never_exceeds_true_cost_on_the_diagonals() {
    let mut rng = Lcg(12);
    for round in 0..40 {
        let (w, h) = (2 + round % 5, 2 + (round / 5) % 4);
        let (grid, _) = random_grid(&mut rng, w, h, 3);
        let nodes = grid.get_nodes();
        for goal in nodes.iter().filter(|n| n.traversable) {
            let best = true_costs(&grid, goal.index, Mode::Diagonal);
            for n in nodes.iter().filter(|n| n.traversable) {
                let Some(cost) = best[n.index as usize] else { continue };
                let (dx, dy) = ((n.x - goal.x).abs(), (n.y - goal.y).abs());
                assert!(10 * dx.max(dy) + 4 * dx.min(dy) <= cost);
                if dx == dy {
                    assert!(Mode::Diagonal.estimate(n.x, n.y, goal.x, goal.y) <= cost as i64);
                }
            }
        }
    }
}

#[test]
fn diagonal_estimate_exceeds_the_cost_of_a_straight_step() {
    // One straight step costs 10; the diagonal estimate for it is 14.
    let grid = Grid::new(2, 1, vec![]).unwrap();
    let path = find_path(&grid, 0, 1, Mode::Diagonal).unwrap();
    assert_eq!(path.len(), 2);
    assert_eq!(path[1].g, 10);
    assert_eq!(path[0].h, 14);
    assert_eq!(Mode::Diagonal.estimate(0, 0, 1, 0), 14);
}

fn check_route(grid: &Grid, path: &[Node], start: i32, goal: i32, mode: Mode) {
    assert_eq!(path[0].index, start);
    assert_eq!(path[0].parent_index, -1);
    assert_eq!(path[0].g, 0);
    assert_eq!(path[path.len() - 1].index, goal);
    let mut total = 0;
    for pair in path.windows(2) {
        let (a, b) = (pair[0], pair[1]);
        let around: Vec<i32> = grid.get_neighbours(a, mode).iter().map(|n| n.index).collect();
        assert!(around.contains(&b.index));
        assert_eq!(b.parent_index, a.index);
        total += mode.step(a.x, a.y, b.x, b.y);
        assert_eq!(b.g, total);
    }
    let goal_cell = grid.get_node(goal).unwrap();
    for n in path {
        let cell = grid.get_node(n.index).unwrap();
        assert!(cell.traversable && n.traversable);
        assert_eq!((n.x, n.y), (cell.x, cell.y));
        assert_eq!(n.h as i64, mode.estimate(n.x, n.y, goal_cell.x, goal_cell.y));
        assert_eq!(n.f, n.g + n.h);
    }
    let mut seen: Vec<i32> = path.iter().map(|n| n.index).collect();
    seen.sort();
    seen.dedup();
    assert_eq!(seen.len(), path.len());
}

#[test]
fn every_returned_path_is_a_route_and_found_whenever_one_exists() {
    let mut rng = Lcg(13);
    for round in 0..30 {
        let (w, h) = (1 + round % 6, 1 + (round / 6) % 5);
        let (grid, _) = random_grid(&mut rng, w, h, 3);
        let nodes = grid.get_nodes();
        for mode in [Mode::Orthogonal, Mode::Diagonal] {
            for goal in nodes.iter().filter(|n| n.traversable) {
                let best = true_costs(&grid, goal.index, mode);
                for start in nodes.iter().filter(|n| n.traversable) {
                    let path = find_path(&grid, start.index, goal.index, mode).unwrap();
                    assert_eq!(path.is_empty(), best[start.index as usize].is_none());
                    if !path.is_empty() {
                        check_route(&grid, &path, start.index, goal.index, mode);
                    }
                }
            }
        }
    }
}

#[test]
fn goal_without_open_neighbours_is_never_reached() {
    let mut rng = Lcg(14);
    for round in 0..60 {
        let (w, h) = (2 + round % 5, 2 + (round / 5) % 4);
        let (grid, _) = random_grid(&mut rng, w, h, 5);
        let nodes = grid.get_nodes();
        for mode in [Mode::Orthogonal, Mode::Diagonal] {
            for goal in nodes.iter().filter(|n| n.traversable) {
                if !grid.get_neighbours(*goal, mode).is_empty() {
                    continue;
                }
                for start in nodes.iter().filter(|n| n.traversable && n.index != goal.index) {
                    assert!(find_path(&grid, start.index, goal.index, mode).unwrap().is_empty());
                }
                let own = find_path(&grid, goal.index, goal.index, mode).unwrap();
                assert_eq!(own.len(), 1);
                assert_eq!((own[0].index, own[0].g, own[0].parent_index), (goal.index, 0, -1));
            }
        }
    }
}

#[test]
fn open_grid_lengths_on_long_and_narrow_grids() {
    for (w, h) in [(1, 40), (40, 1), (2, 17), (17, 2), (13, 11)] {
        let grid = Grid::new(w, h, vec![]).unwrap();
        let n = w * h;
        for (start, goal) in [(0, n - 1), (n - 1, 0), (w - 1, n - w), (n / 2, n / 3), (n / 3, n - 1)] {
            let (dx, dy) = ((start % w - goal % w).abs(), (start / w - goal / w).abs());
            let path = find_path(&grid, start, goal, Mode::Orthogonal).unwrap();
            assert_eq!(path.len() as i32 - 1, dx + dy);
            let path = find_path(&grid, start, goal, Mode::Diagonal).unwrap();
            assert_eq!(path.len() as i32 - 1, dx.max(dy));
        }
    }
}
