//! One round of the search, seen from outside: which records stay, which
//! are new, and which cells are open or closed afterwards.

use vstd::prelude::*;
use crate::cost::{adjacent, Mode};
use crate::frontier::{
    came_from, lemma_close_selected, lemma_discovered_fits, lemma_expand_among,
    lemma_expand_covers, lemma_expand_keeps, search_inv,
};
use crate::grid::{
    directions, lemma_adjacent_offset, lemma_index_of_position, lemma_neighbours_complete,
    lemma_neighbours_sound, neighbour_of, GridView,
};
use crate::node::Node;
use crate::path::{distinct, is_record};
use crate::search::{discovered, expand, has_index};

verus! {

/// Whether `nodes` holds a record of the cell at `(x, y)`.
pub open spec fn found(grid: GridView, nodes: Seq<Node>, x: int, y: int) -> bool {
    has_index(nodes, grid.index_of(x, y))
}

/// Whether `(x, y)` is one step under `mode` from the position of `node`.
pub open spec fn beside(mode: Mode, node: Node, x: int, y: int) -> bool {
    adjacent(mode, node.x as int, node.y as int, x, y)
}

/// Every record is a record of the grid.
pub open spec fn records(grid: GridView, goal: Node, mode: Mode, nodes: Seq<Node>) -> bool {
    forall|i: int| 0 <= i < nodes.len() ==> is_record(grid, goal, mode, #[trigger] nodes[i])
}

/// Whether `node` was discovered from `parent`: one step away, with the
/// parent's cost and the cost of the step.
pub open spec fn fresh(mode: Mode, parent: Node, node: Node) -> bool {
    &&& beside(mode, parent, node.x as int, node.y as int)
    &&& node.parent_index == parent.index
    &&& node.g == node.cost_through(parent, mode)
}

/// What one round does to the open and closed sets when `open[i]` is
/// closed and expanded and `after` is the open set that results.
#[verifier::opaque]
pub open spec fn is_round(
    grid: GridView,
    mode: Mode,
    open: Seq<Node>,
    closed: Seq<Node>,
    i: int,
    after: Seq<Node>,
    goal: Node,
) -> bool {
    &&& grid.wf()
    &&& grid.is_open(goal.index as int)
    &&& goal.x == grid.cell(goal.index as int).x
    &&& goal.y == grid.cell(goal.index as int).y
    &&& 0 <= i < open.len()
    &&& records(grid, goal, mode, open)
    &&& records(grid, goal, mode, closed)
    &&& records(grid, goal, mode, after)
    &&& distinct(after)
    &&& after.len() >= open.len() - 1
    &&& forall|a: int| 0 <= a < open.len() - 1 ==> (#[trigger] after[a]) == open.remove(i)[a]
    &&& forall|a: int| open.len() - 1 <= a < after.len() ==> fresh(mode, open[i], #[trigger] after[a])
    &&& forall|a: int, j: int|
        0 <= a < after.len() && 0 <= j < closed.len() ==> (#[trigger] after[a]).index != (
        #[trigger] closed[j]).index
    &&& forall|a: int| 0 <= a < after.len() ==> (#[trigger] after[a]).index != open[i].index
    &&& forall|x: int, y: int|
        grid.is_open_at(x, y) && #[trigger] beside(mode, open[i], x, y) ==> found(grid, after, x, y)
            || found(grid, closed.push(open[i]), x, y)
}

/// The record of a cell that is found in a set of records of the grid
/// stands at that cell's position.
pub proof fn lemma_found(grid: GridView, goal: Node, mode: Mode, nodes: Seq<Node>, x: int, y: int) -> (i:
    int)
    requires
        grid.wf(),
        grid.in_bounds(x, y),
        found(grid, nodes, x, y),
        records(grid, goal, mode, nodes),
    ensures
        0 <= i < nodes.len(),
        nodes[i].index == grid.index_of(x, y),
        nodes[i].x == x,
        nodes[i].y == y,
{
    let i = choose|i: int| 0 <= i < nodes.len() && (#[trigger] nodes[i]).index == grid.index_of(x, y);
    assert(is_record(grid, goal, mode, nodes[i]));
    lemma_index_of_position(grid.width, grid.height, x, y);
    i
}

/// A cell that was open or closed before a round is open or closed after it.
pub proof fn lemma_found_stays(
    grid: GridView,
    open: Seq<Node>,
    closed: Seq<Node>,
    i: int,
    after: Seq<Node>,
    x: int,
    y: int,
)
    requires
        0 <= i < open.len(),
        found(grid, open, x, y) || found(grid, closed, x, y),
        after.len() >= open.len() - 1,
        forall|a: int| 0 <= a < open.len() - 1 ==> (#[trigger] after[a]) == open.remove(i)[a],
    ensures
        found(grid, after, x, y) || found(grid, closed.push(open[i]), x, y),
{
    let index = grid.index_of(x, y);
    let closed_next = closed.push(open[i]);
    if found(grid, closed, x, y) {
        let j = choose|j: int| 0 <= j < closed.len() && (#[trigger] closed[j]).index == index;
        assert(closed_next[j].index == index);
    } else {
        let a = choose|a: int| 0 <= a < open.len() && (#[trigger] open[a]).index == index;
        if a == i {
            assert(closed_next[closed.len() as int].index == index);
        } else {
            let b = if a < i {
                a
            } else {
                a - 1
            };
            assert(open.remove(i)[b] == open[a]);
            assert(after[b].index == index);
        }
    }
}

/// A round of the search is a round in the sense of [`is_round`], and keeps
/// the invariant of the search.
pub proof fn lemma_is_round(
    grid: GridView,
    open: Seq<Node>,
    closed: Seq<Node>,
    start: int,
    goal: Node,
    mode: Mode,
    i: int,
)
    requires
        search_inv(grid, open, closed, start, goal, mode),
        0 <= i < open.len(),
    ensures
        is_round(
            grid,
            mode,
            open,
            closed,
            i,
            expand(grid, open.remove(i), closed.push(open[i]), open[i], goal, mode),
            goal,
        ),
        search_inv(
            grid,
            expand(grid, open.remove(i), closed.push(open[i]), open[i], goal, mode),
            closed.push(open[i]),
            start,
            goal,
            mode,
        ),
{
    reveal(search_inv);
    reveal(is_round);
    let p = open[i];
    let open_rest = open.remove(i);
    let closed_next = closed.push(p);
    let x = p.x as int;
    let y = p.y as int;
    lemma_close_selected(grid, open, closed, start, goal, mode, i);
    let cells = grid.neighbours(x, y, mode);
    lemma_neighbours_sound(grid, x, y, mode, directions(mode));
    lemma_expand_among(grid, open_rest, closed_next, start, goal, mode, cells, cells.len());
    lemma_expand_keeps(open_rest, closed_next, cells, p, goal, mode, cells.len());
    let after = expand(grid, open_rest, closed_next, p, goal, mode);
    assert(closed_next[closed.len() as int] == p);
    assert forall|a: int| open.len() - 1 <= a < after.len() implies fresh(mode, p, #[trigger] after[a]) by {
        assert(came_from(cells, cells.len() as int, p, goal, mode, after[a]));
        let c = choose|c: int|
            0 <= c < cells.len() && after[a] == discovered(
                #[trigger] cells[c],
                p,
                goal,
                mode,
            );
        assert(neighbour_of(grid, x, y, mode, cells[c]));
        lemma_discovered_fits(grid, open_rest, closed_next, start, goal, mode, cells[c]);
    }
    assert forall|a: int, j: int| 0 <= a < after.len() && 0 <= j < closed.len() implies (
    #[trigger] after[a]).index != (#[trigger] closed[j]).index by {
        assert(closed_next[j] == closed[j]);
        assert(after[a].index != closed_next[j].index);
    }
    assert forall|a: int| 0 <= a < after.len() implies (#[trigger] after[a]).index != p.index by {
        assert(after[a].index != closed_next[closed.len() as int].index);
    }
    assert forall|u: int, v: int| grid.is_open_at(u, v) && #[trigger] beside(mode, p, u, v) implies found(
        grid,
        after,
        u,
        v,
    ) || found(grid, closed_next, u, v) by {
        let k = lemma_adjacent_offset(mode, x, y, u, v);
        lemma_neighbours_complete(grid, x, y, k, directions(mode));
        lemma_index_of_position(grid.width, grid.height, u, v);
        let cell = grid.cell(grid.index_of(u, v));
        let j = choose|j: int| 0 <= j < cells.len() && cells[j] == cell;
        lemma_expand_covers(open_rest, closed_next, cells, p, goal, mode, cells.len(), j);
    }
    assert(records(grid, goal, mode, after)) by {
        assert forall|a: int| 0 <= a < after.len() implies is_record(grid, goal, mode, #[trigger] after[a]) by {}
    }
    assert(records(grid, goal, mode, open)) by {
        assert forall|a: int| 0 <= a < open.len() implies is_record(grid, goal, mode, #[trigger] open[a]) by {}
    }
    assert(records(grid, goal, mode, closed)) by {
        assert forall|a: int| 0 <= a < closed.len() implies is_record(grid, goal, mode, #[trigger] closed[a]) by {}
    }
}

/// In every state of the search the open and closed records are records of
/// the grid, and the goal is a cell of the grid.
pub proof fn lemma_records(
    grid: GridView,
    open: Seq<Node>,
    closed: Seq<Node>,
    start: int,
    goal: Node,
    mode: Mode,
)
    requires
        search_inv(grid, open, closed, start, goal, mode),
    ensures
        grid.wf(),
        grid.is_open(goal.index as int),
        goal.x == grid.cell(goal.index as int).x,
        goal.y == grid.cell(goal.index as int).y,
        records(grid, goal, mode, open),
        records(grid, goal, mode, closed),
{
    reveal(search_inv);
    assert forall|a: int| 0 <= a < open.len() implies is_record(grid, goal, mode, #[trigger] open[a]) by {}
    assert forall|a: int| 0 <= a < closed.len() implies is_record(grid, goal, mode, #[trigger] closed[a]) by {}
}

/// Every traversable neighbour of a closed record is open or closed.
#[verifier::opaque]
pub open spec fn expanded(grid: GridView, mode: Mode, open: Seq<Node>, closed: Seq<Node>) -> bool {
    forall|i: int, x: int, y: int|
        0 <= i < closed.len() && grid.is_open_at(x, y) && #[trigger] beside(mode, closed[i], x, y)
            ==> found(grid, open, x, y) || found(grid, closed, x, y)
}

/// After a round every traversable neighbour of a closed record is open or
/// closed, as it was before.
pub proof fn lemma_round_expanded(
    grid: GridView,
    mode: Mode,
    open: Seq<Node>,
    closed: Seq<Node>,
    i: int,
    after: Seq<Node>,
    goal: Node,
)
    requires
        is_round(grid, mode, open, closed, i, after, goal),
        expanded(grid, mode, open, closed),
    ensures
        expanded(grid, mode, after, closed.push(open[i])),
{
    reveal(is_round);
    reveal(expanded);
    let closed_next = closed.push(open[i]);
    assert forall|a: int, u: int, v: int|
        0 <= a < closed_next.len() && grid.is_open_at(u, v) && #[trigger] beside(
            mode,
            closed_next[a],
            u,
            v,
        ) implies found(grid, after, u, v) || found(grid, closed_next, u, v) by {
        if a < closed.len() {
            assert(closed_next[a] == closed[a]);
            assert(beside(mode, closed[a], u, v));
            lemma_found_stays(grid, open, closed, i, after, u, v);
        } else {
            assert(beside(mode, open[i], u, v));
        }
    }
}

} // verus!
