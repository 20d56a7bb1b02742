//! The invariant of the search and the lemmas that carry it from round to
//! round.

use vstd::prelude::*;
use vstd::set_lib::{lemma_int_range, lemma_len_subset, set_int_range};
use crate::cost::{chebyshev, heuristic, manhattan, Mode};
use crate::grid::{
    directions, lemma_neighbours_sound, lemma_position_of_index, neighbour_of, GridView, MAX_CELLS,
};
use crate::node::Node;
use crate::path::{
    distinct, is_record, is_route, is_walk, last_with_index, parent_chain, reached_from, route,
};
use crate::search::{discovered, expand, expand_among, first_min, has_index, search_from, start_record};

verus! {

/// Whether `node` is the start of the search, or was reached from one of
/// the first `limit` records of `closed`.
#[verifier::opaque]
pub open spec fn linked(closed: Seq<Node>, limit: int, start: int, mode: Mode, node: Node) -> bool {
    if node.parent_index == -1 {
        node.index == start && node.g == 0
    } else {
        exists|j: int| 0 <= j < limit && j < closed.len() && reached_from(mode, #[trigger] closed[j], node)
    }
}

/// What holds of the closed set in every round: its records are cells of the
/// grid, no cell occurs twice, and each record but the start was reached from
/// a record closed before it.
pub open spec fn closed_inv(grid: GridView, closed: Seq<Node>, start: int, goal: Node, mode: Mode) -> bool {
    &&& distinct(closed)
    &&& forall|i: int|
        0 <= i < closed.len() ==> {
            let node = #[trigger] closed[i];
            &&& is_record(grid, goal, mode, node)
            &&& linked(closed, i, start, mode, node)
            &&& node.g <= 14 * i
        }
}

/// What holds of the open set in every round: its records are cells of the
/// grid that are not closed, no cell occurs twice, and each record but the
/// start was reached from a closed record.
pub open spec fn open_inv(
    grid: GridView,
    open: Seq<Node>,
    closed: Seq<Node>,
    start: int,
    goal: Node,
    mode: Mode,
) -> bool {
    &&& distinct(open)
    &&& forall|i: int, j: int|
        0 <= i < open.len() && 0 <= j < closed.len() ==> open[i].index != closed[j].index
    &&& forall|i: int|
        0 <= i < open.len() ==> {
            let node = #[trigger] open[i];
            &&& is_record(grid, goal, mode, node)
            &&& linked(closed, closed.len() as int, start, mode, node)
            &&& node.g <= 14 * closed.len()
        }
}

/// The invariant of the search.
#[verifier::opaque]
pub open spec fn search_inv(
    grid: GridView,
    open: Seq<Node>,
    closed: Seq<Node>,
    start: int,
    goal: Node,
    mode: Mode,
) -> bool {
    &&& grid.wf()
    &&& grid.is_open(goal.index as int)
    &&& goal.x == grid.cell(goal.index as int).x
    &&& goal.y == grid.cell(goal.index as int).y
    &&& closed_inv(grid, closed, start, goal, mode)
    &&& open_inv(grid, open, closed, start, goal, mode)
}

/// [`first_min`] names a record of least `f`, and every record before it has
/// a greater `f`.
pub proof fn lemma_first_min(open: Seq<Node>, k: nat)
    requires
        1 <= k <= open.len(),
    ensures
        0 <= first_min(open, k) < k,
        forall|j: int| 0 <= j < k ==> open[first_min(open, k)].f <= (#[trigger] open[j]).f,
        forall|j: int| 0 <= j < first_min(open, k) ==> open[first_min(open, k)].f < (#[trigger] open[j]).f,
    decreases k,
{
    if k > 1 {
        lemma_first_min(open, (k - 1) as nat);
    }
}

/// In a sequence without repeated indices a record is found under its index.
pub proof fn lemma_last_with_index(closed: Seq<Node>, j: int)
    requires
        distinct(closed),
        0 <= j < closed.len(),
    ensures
        last_with_index(closed, closed[j].index as int) == Some(closed[j]),
    decreases closed.len(),
{
    if j < closed.len() - 1 {
        lemma_last_with_index(closed.drop_last(), j);
    }
}

/// A sequence of distinct indices below `n` has at most `n` members.
pub proof fn lemma_distinct_bound(nodes: Seq<Node>, n: int)
    requires
        0 <= n,
        distinct(nodes),
        forall|i: int| 0 <= i < nodes.len() ==> 0 <= (#[trigger] nodes[i]).index < n,
    ensures
        nodes.len() <= n,
{
    let indices = Seq::new(nodes.len(), |i: int| nodes[i].index as int);
    assert(indices.no_duplicates());
    indices.unique_seq_to_set();
    lemma_int_range(0, n);
    assert(indices.to_set().subset_of(set_int_range(0, n))) by {
        assert forall|v: int| indices.to_set().contains(v) implies set_int_range(0, n).contains(v) by {
            let i = choose|i: int| 0 <= i < indices.len() && indices[i] == v;
            assert(0 <= nodes[i].index < n);
        }
    }
    lemma_len_subset(indices.to_set(), set_int_range(0, n));
}

/// Open and closed records together never outnumber the cells.
pub proof fn lemma_frontier_bound(
    grid: GridView,
    open: Seq<Node>,
    closed: Seq<Node>,
    start: int,
    goal: Node,
    mode: Mode,
)
    requires
        search_inv(grid, open, closed, start, goal, mode),
    ensures
        open.len() + closed.len() <= grid.size(),
{
    reveal(search_inv);
    let all = closed + open;
    assert forall|i: int| 0 <= i < all.len() implies 0 <= (#[trigger] all[i]).index < grid.size() by {
        if i < closed.len() {
            assert(is_record(grid, goal, mode, closed[i]));
        } else {
            assert(is_record(grid, goal, mode, open[i - closed.len()]));
        }
    }
    assert(distinct(all)) by {
        assert forall|i: int, j: int| 0 <= i < j < all.len() implies all[i].index != all[j].index by {
            if j < closed.len() {
                assert(closed[i].index != closed[j].index);
            } else if i < closed.len() {
                assert(open[j - closed.len()].index != closed[i].index);
            } else {
                assert(open[i - closed.len()].index != open[j - closed.len()].index);
            }
        }
    }
    lemma_distinct_bound(all, grid.size());
}

/// Between two positions on the grid the estimate stays below fourteen times
/// the number of cells.
pub proof fn lemma_estimate_bound(grid: GridView, mode: Mode, x: int, y: int, gx: int, gy: int)
    requires
        grid.wf(),
        grid.in_bounds(x, y),
        grid.in_bounds(gx, gy),
    ensures
        0 <= heuristic(mode, x, y, gx, gy) <= 14 * (grid.size() - 1),
{
    let w = grid.width;
    let h = grid.height;
    assert((w - 1) + (h - 1) <= w * h - 1) by (nonlinear_arith)
        requires
            0 < w,
            0 < h,
    ;
    assert(manhattan(x, y, gx, gy) <= (w - 1) + (h - 1));
    assert(chebyshev(x, y, gx, gy) <= manhattan(x, y, gx, gy));
}

/// The position stored in a record of the grid lies on the grid and gives
/// back the record's index.
pub proof fn lemma_record_position(grid: GridView, goal: Node, mode: Mode, node: Node)
    requires
        grid.wf(),
        is_record(grid, goal, mode, node),
    ensures
        grid.in_bounds(node.x as int, node.y as int),
        grid.index_of(node.x as int, node.y as int) == node.index,
{
    lemma_position_of_index(grid.width, grid.height, node.index as int);
}

/// The closed record from which a linked record other than the start was
/// reached.
pub proof fn lemma_linked_parent(closed: Seq<Node>, limit: int, start: int, mode: Mode, node: Node) -> (j:
    int)
    requires
        linked(closed, limit, start, mode, node),
        node.parent_index != -1,
    ensures
        0 <= j < limit,
        j < closed.len(),
        reached_from(mode, closed[j], node),
{
    reveal(linked);
    choose|j: int| 0 <= j < limit && j < closed.len() && reached_from(mode, #[trigger] closed[j], node)
}

/// A record is linked when it is the start or was reached from a closed
/// record within the limit.
pub proof fn lemma_linked_intro(closed: Seq<Node>, limit: int, start: int, mode: Mode, node: Node, j: int)
    requires
        node.parent_index == -1 ==> node.index == start && node.g == 0,
        node.parent_index != -1 ==> 0 <= j < limit && j < closed.len() && reached_from(
            mode,
            closed[j],
            node,
        ),
    ensures
        linked(closed, limit, start, mode, node),
{
    reveal(linked);
}

/// A link into the closed set survives when the closed set grows.
pub proof fn lemma_linked_extends(
    closed: Seq<Node>,
    limit: int,
    start: int,
    mode: Mode,
    node: Node,
    extra: Node,
    wider: int,
)
    requires
        linked(closed, limit, start, mode, node),
        limit <= wider,
    ensures
        linked(closed.push(extra), wider, start, mode, node),
{
    if node.parent_index != -1 {
        let j = lemma_linked_parent(closed, limit, start, mode, node);
        assert(closed.push(extra)[j] == closed[j]);
        lemma_linked_intro(closed.push(extra), wider, start, mode, node, j);
    } else {
        reveal(linked);
    }
}

/// Moving a record from the open to the closed set keeps the invariant.
pub proof fn lemma_close_selected(
    grid: GridView,
    open: Seq<Node>,
    closed: Seq<Node>,
    start: int,
    goal: Node,
    mode: Mode,
    i: int,
)
    requires
        search_inv(grid, open, closed, start, goal, mode),
        0 <= i < open.len(),
    ensures
        search_inv(grid, open.remove(i), closed.push(open[i]), start, goal, mode),
{
    reveal(search_inv);
    let current = open[i];
    let closed_next = closed.push(current);
    let open_next = open.remove(i);
    assert forall|a: int, b: int| 0 <= a < b < closed_next.len() implies closed_next[a].index
        != closed_next[b].index by {
        if b == closed.len() {
            assert(open[i].index != closed[a].index);
        } else {
            assert(closed[a].index != closed[b].index);
        }
    }
    assert forall|k: int| 0 <= k < closed_next.len() implies {
        let node = #[trigger] closed_next[k];
        &&& is_record(grid, goal, mode, node)
        &&& linked(closed_next, k, start, mode, node)
        &&& node.g <= 14 * k
    } by {
        if k < closed.len() {
            assert(closed_next[k] == closed[k]);
            lemma_linked_extends(closed, k, start, mode, closed[k], current, k);
        } else {
            lemma_linked_extends(closed, closed.len() as int, start, mode, current, current, k);
        }
    }
    assert forall|a: int, b: int| 0 <= a < b < open_next.len() implies open_next[a].index
        != open_next[b].index by {
        let a0 = if a < i { a } else { a + 1 };
        let b0 = if b < i { b } else { b + 1 };
        assert(open[a0].index != open[b0].index);
    }
    assert forall|a: int, b: int|
        0 <= a < open_next.len() && 0 <= b < closed_next.len() implies open_next[a].index
        != closed_next[b].index by {
        let a0 = if a < i { a } else { a + 1 };
        if b == closed.len() {
            if a0 < i {
                assert(open[a0].index != open[i].index);
            } else {
                assert(open[i].index != open[a0].index);
            }
        } else {
            assert(open[a0].index != closed[b].index);
        }
    }
    assert forall|k: int| 0 <= k < open_next.len() implies {
        let node = #[trigger] open_next[k];
        &&& is_record(grid, goal, mode, node)
        &&& linked(closed_next, closed_next.len() as int, start, mode, node)
        &&& node.g <= 14 * closed_next.len()
    } by {
        let k0 = if k < i { k } else { k + 1 };
        assert(open_next[k] == open[k0]);
        lemma_linked_extends(
            closed,
            closed.len() as int,
            start,
            mode,
            open[k0],
            current,
            closed_next.len() as int,
        );
    }
}

/// A cell seen for the first time from the record closed last enters the
/// open set with costs that fit its fields.
pub proof fn lemma_discovered_fits(
    grid: GridView,
    open: Seq<Node>,
    closed: Seq<Node>,
    start: int,
    goal: Node,
    mode: Mode,
    cell: Node,
)
    requires
        search_inv(grid, open, closed, start, goal, mode),
        closed.len() >= 1,
        neighbour_of(grid, closed.last().x as int, closed.last().y as int, mode, cell),
    ensures
        0 <= cell.estimate_to(goal, mode) <= 14 * (MAX_CELLS - 1),
        10 <= cell.cost_through(closed.last(), mode) <= 14 * closed.len() <= 14 * MAX_CELLS,
{
    reveal(search_inv);
    let current = closed.last();
    assert(closed[closed.len() - 1] == current);
    lemma_frontier_bound(grid, open, closed, start, goal, mode);
    lemma_position_of_index(grid.width, grid.height, goal.index as int);
    lemma_estimate_bound(grid, mode, cell.x as int, cell.y as int, goal.x as int, goal.y as int);
}

/// Looking at further neighbours of the record closed last keeps the
/// invariant.
pub proof fn lemma_expand_among(
    grid: GridView,
    open: Seq<Node>,
    closed: Seq<Node>,
    start: int,
    goal: Node,
    mode: Mode,
    cells: Seq<Node>,
    k: nat,
)
    requires
        search_inv(grid, open, closed, start, goal, mode),
        closed.len() >= 1,
        k <= cells.len(),
        forall|j: int|
            0 <= j < cells.len() ==> neighbour_of(
                grid,
                closed.last().x as int,
                closed.last().y as int,
                mode,
                #[trigger] cells[j],
            ),
    ensures
        search_inv(
            grid,
            expand_among(open, closed, cells, closed.last(), goal, mode, k),
            closed,
            start,
            goal,
            mode,
        ),
    decreases k,
{
    reveal(search_inv);
    if k > 0 {
        let current = closed.last();
        lemma_expand_among(grid, open, closed, start, goal, mode, cells, (k - 1) as nat);
        let before = expand_among(open, closed, cells, current, goal, mode, (k - 1) as nat);
        let cell = cells[k - 1];
        assert(neighbour_of(grid, current.x as int, current.y as int, mode, cell));
        if !(has_index(closed, cell.index as int) || has_index(before, cell.index as int)) {
            let node = discovered(cell, current, goal, mode);
            let after = before.push(node);
            lemma_discovered_fits(grid, before, closed, start, goal, mode, cell);
            assert(closed[closed.len() - 1] == current);
            assert(is_record(grid, goal, mode, current));
            assert(reached_from(mode, closed[closed.len() - 1], node));
            lemma_linked_intro(closed, closed.len() as int, start, mode, node, closed.len() - 1);
            assert(is_record(grid, goal, mode, node));
            assert forall|a: int, b: int| 0 <= a < b < after.len() implies after[a].index
                != after[b].index by {
                if b == before.len() {
                    assert(before[a].index != cell.index);
                } else {
                    assert(before[a].index != before[b].index);
                }
            }
            assert forall|a: int, b: int|
                0 <= a < after.len() && 0 <= b < closed.len() implies after[a].index
                != closed[b].index by {
                if a == before.len() {
                    assert(closed[b].index != cell.index);
                } else {
                    assert(before[a].index != closed[b].index);
                }
            }
            assert forall|i: int| 0 <= i < after.len() implies {
                let n = #[trigger] after[i];
                &&& is_record(grid, goal, mode, n)
                &&& linked(closed, closed.len() as int, start, mode, n)
                &&& n.g <= 14 * closed.len()
            } by {
                if i < before.len() {
                    assert(after[i] == before[i]);
                }
            }
        }
    }
}

/// The parent chain of a closed record leads back to the start.
pub proof fn lemma_chain_is_walk(
    grid: GridView,
    closed: Seq<Node>,
    start: int,
    goal: Node,
    mode: Mode,
    i: int,
    budget: nat,
)
    requires
        closed_inv(grid, closed, start, goal, mode),
        0 <= i < closed.len(),
        budget >= i,
    ensures
        parent_chain(closed, closed[i], budget) is Some,
        parent_chain(closed, closed[i], budget)->Some_0.last() == closed[i],
        is_walk(grid, parent_chain(closed, closed[i], budget)->Some_0, start, goal, mode),
    decreases i,
{
    let node = closed[i];
    assert(linked(closed, i, start, mode, node));
    if node.parent_index != -1 {
        let j = lemma_linked_parent(closed, i, start, mode, node);
        lemma_last_with_index(closed, j);
        lemma_chain_is_walk(grid, closed, start, goal, mode, j, (budget - 1) as nat);
        let rest = parent_chain(closed, closed[j], (budget - 1) as nat)->Some_0;
        let path = rest.push(node);
        assert(parent_chain(closed, node, budget) == Some(path));
        assert forall|a: int| 0 <= a < path.len() implies is_record(grid, goal, mode, #[trigger] path[a]) by {
            if a < rest.len() {
                assert(path[a] == rest[a]);
            }
        }
        assert forall|a: int| 1 <= a < path.len() implies reached_from(mode, path[a - 1], #[trigger] path[a]) by {
            if a < rest.len() {
                assert(path[a] == rest[a]);
                assert(path[a - 1] == rest[a - 1]);
            } else {
                assert(path[a - 1] == rest.last());
            }
        }
        assert(path.first() == rest.first());
    } else {
        reveal(linked);
        assert(is_record(grid, goal, mode, node));
    }
}

/// Whether `node` is one of the records of `closed` up to position `limit`.
pub open spec fn drawn_from(closed: Seq<Node>, limit: int, node: Node) -> bool {
    exists|m: int| 0 <= m <= limit && m < closed.len() && #[trigger] closed[m] == node
}

/// The parent chain of a closed record passes through no cell twice: it
/// consists of records closed no later than that record, each closed before
/// the next.
pub proof fn lemma_chain_is_distinct(
    grid: GridView,
    closed: Seq<Node>,
    start: int,
    goal: Node,
    mode: Mode,
    i: int,
    budget: nat,
)
    requires
        closed_inv(grid, closed, start, goal, mode),
        0 <= i < closed.len(),
        budget >= i,
    ensures
        parent_chain(closed, closed[i], budget) is Some,
        distinct(parent_chain(closed, closed[i], budget)->Some_0),
        forall|a: int|
            0 <= a < parent_chain(closed, closed[i], budget)->Some_0.len() ==> drawn_from(
                closed,
                i,
                #[trigger] parent_chain(closed, closed[i], budget)->Some_0[a],
            ),
    decreases i,
{
    let node = closed[i];
    assert(linked(closed, i, start, mode, node));
    if node.parent_index != -1 {
        let j = lemma_linked_parent(closed, i, start, mode, node);
        lemma_last_with_index(closed, j);
        lemma_chain_is_distinct(grid, closed, start, goal, mode, j, (budget - 1) as nat);
        let rest = parent_chain(closed, closed[j], (budget - 1) as nat)->Some_0;
        let path = rest.push(node);
        assert(parent_chain(closed, node, budget) == Some(path));
        assert forall|a: int| 0 <= a < path.len() implies drawn_from(closed, i, #[trigger] path[a]) by {
            if a < rest.len() {
                assert(path[a] == rest[a]);
                assert(drawn_from(closed, j, rest[a]));
                let m = choose|m: int| 0 <= m <= j && m < closed.len() && #[trigger] closed[m] == rest[a];
                assert(closed[m] == path[a]);
            }
        }
        assert forall|a: int, b: int| 0 <= a < b < path.len() implies path[a].index != path[b].index by {
            if b < rest.len() {
                assert(rest[a].index != rest[b].index);
            } else {
                assert(drawn_from(closed, j, rest[a]));
                let m = choose|m: int| 0 <= m <= j && m < closed.len() && #[trigger] closed[m] == rest[a];
                assert(closed[m].index != closed[i].index);
            }
        }
    } else {
        assert(parent_chain(closed, node, budget) == Some(seq![node]));
    }
}

/// From any state that satisfies the invariant the search ends with the
/// empty path or with a route from the start to the goal, never with an
/// error.
pub proof fn lemma_search_from_sound(
    grid: GridView,
    open: Seq<Node>,
    closed: Seq<Node>,
    start: int,
    goal: Node,
    mode: Mode,
)
    requires
        search_inv(grid, open, closed, start, goal, mode),
    ensures
        search_from(grid, open, closed, goal, mode) is Ok,
        search_from(grid, open, closed, goal, mode)->Ok_0.len() == 0 || is_route(
            grid,
            search_from(grid, open, closed, goal, mode)->Ok_0,
            start,
            goal,
            mode,
        ),
    decreases grid.size() - closed.len(),
{
    reveal(search_inv);
    if !(open.len() == 0 || closed.len() >= grid.size()) {
        let i = first_min(open, open.len());
        lemma_first_min(open, open.len());
        let current = open[i];
        let closed_next = closed.push(current);
        lemma_close_selected(grid, open, closed, start, goal, mode, i);
        assert(closed_next.last() == current);
        if current.index == goal.index {
            lemma_chain_is_walk(
                grid,
                closed_next,
                start,
                goal,
                mode,
                closed_next.len() - 1,
                closed_next.len(),
            );
            lemma_chain_is_distinct(
                grid,
                closed_next,
                start,
                goal,
                mode,
                closed_next.len() - 1,
                closed_next.len(),
            );
        } else {
            let cells = grid.neighbours(current.x as int, current.y as int, mode);
            lemma_neighbours_sound(grid, current.x as int, current.y as int, mode, directions(mode));
            lemma_expand_among(grid, open.remove(i), closed_next, start, goal, mode, cells, cells.len());
            lemma_search_from_sound(
                grid,
                expand(grid, open.remove(i), closed_next, current, goal, mode),
                closed_next,
                start,
                goal,
                mode,
            );
        }
    }
}

/// Whether `node` is the record under which one of the first `k` of `cells`
/// was discovered from `current`.
pub open spec fn came_from(cells: Seq<Node>, k: int, current: Node, goal: Node, mode: Mode, node: Node) -> bool {
    exists|j: int| 0 <= j < k && j < cells.len() && node == discovered(#[trigger] cells[j], current, goal, mode)
}

/// Expanding leaves the records that were open where they are and appends
/// records discovered from the expanded one.
pub proof fn lemma_expand_keeps(
    open: Seq<Node>,
    closed: Seq<Node>,
    cells: Seq<Node>,
    current: Node,
    goal: Node,
    mode: Mode,
    k: nat,
)
    requires
        k <= cells.len(),
    ensures
        open.len() <= expand_among(open, closed, cells, current, goal, mode, k).len() <= open.len() + k,
        forall|i: int|
            0 <= i < open.len() ==> (#[trigger] expand_among(open, closed, cells, current, goal, mode, k)[i])
                == open[i],
        forall|i: int|
            open.len() <= i < expand_among(open, closed, cells, current, goal, mode, k).len()
                ==> came_from(
                cells,
                k as int,
                current,
                goal,
                mode,
                #[trigger] expand_among(open, closed, cells, current, goal, mode, k)[i],
            ),
    decreases k,
{
    if k > 0 {
        lemma_expand_keeps(open, closed, cells, current, goal, mode, (k - 1) as nat);
        let before = expand_among(open, closed, cells, current, goal, mode, (k - 1) as nat);
        let after = expand_among(open, closed, cells, current, goal, mode, k);
        assert forall|i: int| open.len() <= i < after.len() implies came_from(
            cells,
            k as int,
            current,
            goal,
            mode,
            #[trigger] after[i],
        ) by {
            if i < before.len() {
                assert(after[i] == before[i]);
                assert(came_from(cells, k - 1, current, goal, mode, before[i]));
                let j = choose|j: int|
                    0 <= j < k - 1 && j < cells.len() && before[i] == discovered(
                        #[trigger] cells[j],
                        current,
                        goal,
                        mode,
                    );
                assert(after[i] == discovered(cells[j], current, goal, mode));
            } else {
                assert(after[i] == discovered(cells[k - 1], current, goal, mode));
            }
        }
    }
}

/// Every cell looked at is closed or open afterwards.
pub proof fn lemma_expand_covers(
    open: Seq<Node>,
    closed: Seq<Node>,
    cells: Seq<Node>,
    current: Node,
    goal: Node,
    mode: Mode,
    k: nat,
    j: int,
)
    requires
        0 <= j < k <= cells.len(),
    ensures
        has_index(closed, cells[j].index as int) || has_index(
            expand_among(open, closed, cells, current, goal, mode, k),
            cells[j].index as int,
        ),
    decreases k,
{
    let before = expand_among(open, closed, cells, current, goal, mode, (k - 1) as nat);
    let after = expand_among(open, closed, cells, current, goal, mode, k);
    if j == k - 1 {
        if has_index(before, cells[j].index as int) {
            let i = choose|i: int| 0 <= i < before.len() && (#[trigger] before[i]).index == cells[j].index;
            assert(after[i].index == cells[j].index);
        } else if !has_index(closed, cells[j].index as int) {
            assert(after[before.len() as int].index == cells[j].index);
        }
    } else {
        lemma_expand_covers(open, closed, cells, current, goal, mode, (k - 1) as nat, j);
        if has_index(before, cells[j].index as int) {
            let i = choose|i: int| 0 <= i < before.len() && (#[trigger] before[i]).index == cells[j].index;
            assert(after[i] == before[i]);
        }
    }
}

/// A search between two traversable cells begins in a state that satisfies
/// the invariant.
pub proof fn lemma_search_begins(grid: GridView, start: int, goal: int, mode: Mode)
    requires
        grid.wf(),
        grid.is_open(start),
        grid.is_open(goal),
    ensures
        search_inv(
            grid,
            seq![start_record(grid, start, grid.cell(goal), mode)],
            Seq::empty(),
            start,
            grid.cell(goal),
            mode,
        ),
{
    reveal(search_inv);
    let target = grid.cell(goal);
    let first = start_record(grid, start, target, mode);
    lemma_position_of_index(grid.width, grid.height, start);
    lemma_position_of_index(grid.width, grid.height, goal);
    lemma_estimate_bound(
        grid,
        mode,
        first.x as int,
        first.y as int,
        target.x as int,
        target.y as int,
    );
    lemma_linked_intro(Seq::empty(), 0, start, mode, first, 0);
    assert(is_record(grid, target, mode, first));
}

/// When a record is closed, its route leads back to the start and ends in
/// the record.
pub proof fn lemma_closed_route(
    grid: GridView,
    open: Seq<Node>,
    closed: Seq<Node>,
    start: int,
    goal: Node,
    mode: Mode,
    i: int,
)
    requires
        search_inv(grid, open, closed, start, goal, mode),
        0 <= i < open.len(),
    ensures
        route(closed.push(open[i]), open[i]) is Some,
        route(closed.push(open[i]), open[i])->Some_0.last() == open[i],
        is_walk(grid, route(closed.push(open[i]), open[i])->Some_0, start, goal, mode),
{
    let closed_next = closed.push(open[i]);
    lemma_close_selected(grid, open, closed, start, goal, mode, i);
    assert(closed_next[closed_next.len() - 1] == open[i]);
    assert(closed_inv(grid, closed_next, start, goal, mode)) by {
        reveal(search_inv);
    }
    lemma_chain_is_walk(grid, closed_next, start, goal, mode, closed_next.len() - 1, closed_next.len());
}

} // verus!
