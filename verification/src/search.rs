//! The search: its rounds as spec functions, and the executable search that
//! is proved to compute what they define.

use vstd::prelude::*;
use crate::cost::{least_cost, Mode};
use crate::error::PathError;
use crate::frontier::{
    lemma_close_selected, lemma_discovered_fits, lemma_estimate_bound, lemma_expand_among,
    lemma_frontier_bound, lemma_search_begins, search_inv,
};
use crate::grid::{
    directions, lemma_neighbours_sound, lemma_position_of_index, neighbour_of, reachable,
    unobstructed, Grid, GridView,
};
use crate::laws::{lemma_search_laws, search_laws, steps_apart};
use crate::node::Node;
use crate::path::{get_path, is_route, route, route_cost};

verus! {

/// Whether some record in `nodes` carries `index`.
pub open spec fn has_index(nodes: Seq<Node>, index: int) -> bool {
    exists|i: int| 0 <= i < nodes.len() && (#[trigger] nodes[i]).index == index
}

/// Position of the record with the least `f` among the first `k` records of
/// `open`; of several with the least `f`, the earliest.
pub open spec fn first_min(open: Seq<Node>, k: nat) -> int
    decreases k,
{
    if k <= 1 {
        0
    } else {
        let best = first_min(open, (k - 1) as nat);
        if open[k - 1].f < open[best].f {
            k - 1
        } else {
            best
        }
    }
}

/// The record under which `cell` enters the open set when it is first seen
/// from `current`.
pub open spec fn discovered(cell: Node, current: Node, goal: Node, mode: Mode) -> Node {
    Node {
        parent_index: current.index,
        g: cell.cost_through(current, mode) as i32,
        h: cell.estimate_to(goal, mode) as i32,
        f: (cell.cost_through(current, mode) + cell.estimate_to(goal, mode)) as i32,
        ..cell
    }
}

/// The open set after the first `k` of `cells` have been looked at from
/// `current`: a cell that is neither closed nor open is appended as
/// [`discovered`]; a cell that is already open keeps the record it has.
pub open spec fn expand_among(
    open: Seq<Node>,
    closed: Seq<Node>,
    cells: Seq<Node>,
    current: Node,
    goal: Node,
    mode: Mode,
    k: nat,
) -> Seq<Node>
    decreases k,
{
    if k == 0 {
        open
    } else {
        let before = expand_among(open, closed, cells, current, goal, mode, (k - 1) as nat);
        let cell = cells[k - 1];
        if has_index(closed, cell.index as int) || has_index(before, cell.index as int) {
            before
        } else {
            before.push(discovered(cell, current, goal, mode))
        }
    }
}

/// The open set after `current` has been expanded.
pub open spec fn expand(
    grid: GridView,
    open: Seq<Node>,
    closed: Seq<Node>,
    current: Node,
    goal: Node,
    mode: Mode,
) -> Seq<Node> {
    let cells = grid.neighbours(current.x as int, current.y as int, mode);
    expand_among(open, closed, cells, current, goal, mode, cells.len())
}

/// The outcome of the search when it stands at the open set `open` and the
/// closed set `closed`.
///
/// Each round moves the record selected by [`first_min`] from `open` to
/// `closed`. If it is the goal, the outcome is its route; otherwise the
/// record is expanded and the search goes on. With nothing left in `open`
/// the outcome is the empty path.
///
/// The definition stops when as many records are closed as the grid has
/// cells. A search never gets there with a record still open: no cell is
/// closed twice.
pub open spec fn search_from(
    grid: GridView,
    open: Seq<Node>,
    closed: Seq<Node>,
    goal: Node,
    mode: Mode,
) -> Result<Seq<Node>, PathError>
    decreases grid.size() - closed.len(),
{
    if open.len() == 0 || closed.len() >= grid.size() {
        Ok(Seq::empty())
    } else {
        let i = first_min(open, open.len());
        let current = open[i];
        let closed_next = closed.push(current);
        if current.index == goal.index {
            match route(closed_next, current) {
                Some(path) => Ok(path),
                None => Err(PathError::BrokenParentChain),
            }
        } else {
            search_from(
                grid,
                expand(grid, open.remove(i), closed_next, current, goal, mode),
                closed_next,
                goal,
                mode,
            )
        }
    }
}

/// The record with which a search from cell `start` towards `goal` begins:
/// no parent, no cost, and the estimate as its priority.
pub open spec fn start_record(grid: GridView, start: int, goal: Node, mode: Mode) -> Node {
    let cell = grid.cell(start);
    Node {
        h: cell.estimate_to(goal, mode) as i32,
        f: cell.estimate_to(goal, mode) as i32,
        ..cell
    }
}

/// The outcome of a search on `grid` from cell `start` to cell `goal`.
pub open spec fn search(grid: GridView, start: int, goal: int, mode: Mode) -> Result<
    Seq<Node>,
    PathError,
> {
    if !grid.is_open(start) || !grid.is_open(goal) {
        Err(PathError::InvalidCell)
    } else {
        search_from(
            grid,
            seq![start_record(grid, start, grid.cell(goal), mode)],
            Seq::empty(),
            grid.cell(goal),
            mode,
        )
    }
}

/// What a returned value says in terms of sequences.
pub open spec fn outcome(r: Result<Vec<Node>, PathError>) -> Result<Seq<Node>, PathError> {
    match r {
        Ok(path) => Ok(path@),
        Err(e) => Err(e),
    }
}

fn holds(nodes: &Vec<Node>, node: &Node) -> (found: bool)
    ensures
        found == has_index(nodes@, node.index as int),
{
    let mut k: usize = 0;
    while k < nodes.len()
        invariant
            k <= nodes.len(),
            forall|j: int| 0 <= j < k ==> (#[trigger] nodes[j]).index != node.index,
        decreases nodes.len() - k,
    {
        if nodes[k] == *node {
            return true;
        }
        k += 1;
    }
    false
}

fn select(open: &Vec<Node>) -> (best: usize)
    requires
        open.len() >= 1,
    ensures
        best == first_min(open@, open@.len()),
        best < open.len(),
{
    let mut best: usize = 0;
    let mut k: usize = 1;
    while k < open.len()
        invariant
            1 <= k <= open.len(),
            best < k,
            best == first_min(open@, k as nat),
        decreases open.len() - k,
    {
        if open[k].f < open[best].f {
            best = k;
        }
        k += 1;
    }
    best
}

/// Whether the cell has no traversable neighbour under `mode`.
pub open spec fn enclosed(grid: GridView, cell: int, mode: Mode) -> bool {
    grid.neighbours(grid.cell(cell).x as int, grid.cell(cell).y as int, mode).len() == 0
}

/// Searches `grid` for a route from the cell of `start` to the cell of
/// `goal` under `mode`.
///
/// Only the indices of `start` and `goal` are read; the search begins from
/// the grid's own records, so costs left in `start` by an earlier run do not
/// enter. The open set is kept in the order of discovery and the record of
/// least `f` is taken from it, the earliest of several. A cell that is
/// already open keeps the record it was discovered with, also when it is seen
/// again at a lower cost; the route returned is therefore not always the
/// cheapest there is.
///
/// Returns a route from start to goal if the goal can be reached, else the
/// empty path; [`PathError::InvalidCell`] when either index names no
/// traversable cell of the grid. No other error is returned.
///
/// The route begins at the start with cost zero and ends at the goal; every
/// two consecutive records are neighbours under `mode`, and the step costs
/// add up to the `g` of the last record. A search from a cell to itself
/// returns that cell alone. A goal without a traversable neighbour is not
/// reached from any other cell. On a grid without blocked cells the route
/// has as many steps as the Manhattan distance between start and goal under
/// orthogonal movement, as the Chebyshev distance under diagonal movement,
/// and no way between the two cells is cheaper.
pub fn a_star(grid: &Grid, start: Node, goal: Node, mode: Mode) -> (r: Result<Vec<Node>, PathError>)
    requires
        grid.wf(),
    ensures
        outcome(r) == search(grid@, start.index as int, goal.index as int, mode),
        r is Err <==> !grid@.is_open(start.index as int) || !grid@.is_open(goal.index as int),
        r is Err ==> r->Err_0 == PathError::InvalidCell,
        r is Ok && r->Ok_0@.len() > 0 ==> is_route(
            grid@,
            r->Ok_0@,
            start.index as int,
            grid@.cell(goal.index as int),
            mode,
        ) && route_cost(r->Ok_0@, mode) == r->Ok_0@.last().g,
        r is Ok ==> (r->Ok_0@.len() > 0 <==> reachable(grid@, mode, start.index as int, goal.index as int)),
        r is Ok && start.index == goal.index ==> r->Ok_0@ == seq![grid@.cell(start.index as int)],
        r is Ok && start.index != goal.index && enclosed(grid@, goal.index as int, mode)
            ==> r->Ok_0@.len() == 0,
        r is Ok && unobstructed(grid@) ==> r->Ok_0@.len() - 1 == steps_apart(
            mode,
            grid@.cell(start.index as int).x as int,
            grid@.cell(start.index as int).y as int,
            grid@.cell(goal.index as int).x as int,
            grid@.cell(goal.index as int).y as int,
        ) && r->Ok_0@.last().g == least_cost(
            mode,
            grid@.cell(start.index as int).x as int,
            grid@.cell(start.index as int).y as int,
            grid@.cell(goal.index as int).x as int,
            grid@.cell(goal.index as int).y as int,
        ),
{
    let start_cell = match grid.get_node(start.index) {
        Some(cell) => cell,
        None => {
            return Err(PathError::InvalidCell);
        },
    };
    let goal_cell = match grid.get_node(goal.index) {
        Some(cell) => cell,
        None => {
            return Err(PathError::InvalidCell);
        },
    };
    if !start_cell.traversable || !goal_cell.traversable {
        return Err(PathError::InvalidCell);
    }
    let ghost origin = start.index as int;
    let ghost target = goal.index as int;
    proof {
        lemma_search_begins(grid@, origin, target, mode);
        lemma_search_laws(grid@, origin, target, mode);
        lemma_position_of_index(grid@.width, grid@.height, origin);
        lemma_position_of_index(grid@.width, grid@.height, target);
        lemma_estimate_bound(
            grid@,
            mode,
            start_cell.x as int,
            start_cell.y as int,
            goal_cell.x as int,
            goal_cell.y as int,
        );
    }
    let mut first = start_cell;
    first.set_h(goal_cell, mode);
    let mut open_nodes: Vec<Node> = Vec::new();
    open_nodes.push(first);
    let mut closed_nodes: Vec<Node> = Vec::new();
    proof {
        assert(first == start_record(grid@, origin, goal_cell, mode));
        assert(open_nodes@ =~= seq![first]);
        assert(closed_nodes@ =~= Seq::empty());
    }
    while open_nodes.len() > 0
        invariant
            grid.wf(),
            origin == start.index,
            target == goal.index,
            goal_cell == grid@.cell(target),
            search_inv(grid@, open_nodes@, closed_nodes@, origin, goal_cell, mode),
            search_from(grid@, open_nodes@, closed_nodes@, goal_cell, mode) == search(
                grid@,
                origin,
                target,
                mode,
            ),
            grid@.is_open(origin),
            grid@.is_open(target),
            search_laws(grid@, origin, target, mode),
        decreases grid@.size() - closed_nodes.len(),
    {
        let ghost open_before = open_nodes@;
        let ghost closed_before = closed_nodes@;
        proof {
            lemma_frontier_bound(grid@, open_before, closed_before, origin, goal_cell, mode);
        }
        let i = select(&open_nodes);
        let current = open_nodes.remove(i);
        closed_nodes.push(current);
        proof {
            lemma_close_selected(grid@, open_before, closed_before, origin, goal_cell, mode, i as int);
            assert(closed_nodes@.last() == current);
        }
        if current.index == goal_cell.index {
            proof {
                assert(search_from(grid@, open_before, closed_before, goal_cell, mode) == match route(
                    closed_nodes@,
                    current,
                ) {
                    Some(path) => Ok::<Seq<Node>, PathError>(path),
                    None => Err(PathError::BrokenParentChain),
                });
            }
            return get_path(closed_nodes, current);
        }
        let cells = grid.get_neighbours(current, mode);
        let ghost open_rest = open_nodes@;
        proof {
            lemma_neighbours_sound(grid@, current.x as int, current.y as int, mode, directions(mode));
        }
        let mut k: usize = 0;
        while k < cells.len()
            invariant
                grid.wf(),
                k <= cells.len(),
                closed_nodes.len() >= 1,
                closed_nodes@.last() == current,
                search_inv(grid@, open_rest, closed_nodes@, origin, goal_cell, mode),
                forall|j: int|
                    0 <= j < cells.len() ==> neighbour_of(
                        grid@,
                        current.x as int,
                        current.y as int,
                        mode,
                        #[trigger] cells@[j],
                    ),
                open_nodes@ == expand_among(
                    open_rest,
                    closed_nodes@,
                    cells@,
                    current,
                    goal_cell,
                    mode,
                    k as nat,
                ),
            decreases cells.len() - k,
        {
            let mut cell = cells[k];
            if !holds(&closed_nodes, &cell) && !holds(&open_nodes, &cell) {
                proof {
                    assert(neighbour_of(grid@, current.x as int, current.y as int, mode, cells@[k as int]));
                    lemma_discovered_fits(grid@, open_rest, closed_nodes@, origin, goal_cell, mode, cell);
                }
                cell.parent_index = current.index;
                cell.set_h(goal_cell, mode);
                cell.set_g_f(current, mode);
                open_nodes.push(cell);
            }
            k += 1;
        }
        proof {
            lemma_expand_among(
                grid@,
                open_rest,
                closed_nodes@,
                origin,
                goal_cell,
                mode,
                cells@,
                cells@.len(),
            );
        }
    }
    Ok(Vec::new())
}

/// Searches `grid` for a route from cell `start_index` to cell `goal_index`
/// under `mode`. This is [`a_star`] on the grid's records of the two cells;
/// what is said of the route there holds here.
pub fn find_path(grid: &Grid, start_index: i32, goal_index: i32, mode: Mode) -> (r: Result<
    Vec<Node>,
    PathError,
>)
    requires
        grid.wf(),
    ensures
        outcome(r) == search(grid@, start_index as int, goal_index as int, mode),
        r is Err <==> !grid@.is_open(start_index as int) || !grid@.is_open(goal_index as int),
        r is Err ==> r->Err_0 == PathError::InvalidCell,
        r is Ok && r->Ok_0@.len() > 0 ==> is_route(
            grid@,
            r->Ok_0@,
            start_index as int,
            grid@.cell(goal_index as int),
            mode,
        ) && route_cost(r->Ok_0@, mode) == r->Ok_0@.last().g,
        r is Ok ==> (r->Ok_0@.len() > 0 <==> reachable(grid@, mode, start_index as int, goal_index as int)),
        r is Ok && start_index == goal_index ==> r->Ok_0@ == seq![grid@.cell(start_index as int)],
        r is Ok && start_index != goal_index && enclosed(grid@, goal_index as int, mode)
            ==> r->Ok_0@.len() == 0,
        r is Ok && unobstructed(grid@) ==> r->Ok_0@.len() - 1 == steps_apart(
            mode,
            grid@.cell(start_index as int).x as int,
            grid@.cell(start_index as int).y as int,
            grid@.cell(goal_index as int).x as int,
            grid@.cell(goal_index as int).y as int,
        ) && r->Ok_0@.last().g == least_cost(
            mode,
            grid@.cell(start_index as int).x as int,
            grid@.cell(start_index as int).y as int,
            grid@.cell(goal_index as int).x as int,
            grid@.cell(goal_index as int).y as int,
        ),
{
    let start = match grid.get_node(start_index) {
        Some(cell) => cell,
        None => {
            return Err(PathError::InvalidCell);
        },
    };
    let goal = match grid.get_node(goal_index) {
        Some(cell) => cell,
        None => {
            return Err(PathError::InvalidCell);
        },
    };
    a_star(grid, start, goal, mode)
}

} // verus!
