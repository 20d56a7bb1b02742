//! A search finds a route whenever there is one.

use vstd::prelude::*;
use crate::cost::{adjacent, Mode};
use crate::frontier::{
    lemma_closed_route, lemma_first_min, lemma_frontier_bound, lemma_record_position,
    lemma_search_begins, search_inv,
};
use crate::grid::{connects, is_trail, lemma_position_of_index, GridView};
use crate::node::Node;
use crate::path::{is_record, is_route, reached_from};
use crate::round::{
    beside, expanded, found, is_round, lemma_found, lemma_found_stays, lemma_is_round, lemma_records,
    lemma_round_expanded, records,
};
use crate::search::{expand, first_min, search, search_from, start_record};

verus! {

/// What holds in every round of a search before the goal is closed: the
/// start is open or closed, the goal is not closed, and every traversable
/// neighbour of a closed record is open or closed.
pub open spec fn reach_inv(
    grid: GridView,
    open: Seq<Node>,
    closed: Seq<Node>,
    start: int,
    goal: Node,
    mode: Mode,
) -> bool {
    &&& search_inv(grid, open, closed, start, goal, mode)
    &&& 0 <= start < grid.size()
    &&& expanded(grid, mode, open, closed)
    &&& found(grid, open, grid.cell(start).x as int, grid.cell(start).y as int) || found(
        grid,
        closed,
        grid.cell(start).x as int,
        grid.cell(start).y as int,
    )
    &&& !found(grid, closed, goal.x as int, goal.y as int)
}

/// With nothing open, every position of a trail that begins at a closed
/// cell is closed.
pub proof fn lemma_trail_closed(
    grid: GridView,
    closed: Seq<Node>,
    goal: Node,
    mode: Mode,
    trail: Seq<(int, int)>,
    k: int,
)
    requires
        grid.wf(),
        records(grid, goal, mode, closed),
        expanded(grid, mode, Seq::empty(), closed),
        is_trail(grid, mode, trail),
        found(grid, closed, trail.first().0, trail.first().1),
        0 <= k < trail.len(),
    ensures
        found(grid, closed, trail[k].0, trail[k].1),
    decreases k,
{
    if k > 0 {
        lemma_trail_closed(grid, closed, goal, mode, trail, k - 1);
        let from = trail[k - 1];
        let to = trail[k];
        assert(grid.is_open_at(from.0, from.1));
        assert(grid.is_open_at(to.0, to.1));
        let j = lemma_found(grid, goal, mode, closed, from.0, from.1);
        assert(beside(mode, closed[j], to.0, to.1));
        assert(found(grid, Seq::empty(), to.0, to.1) || found(grid, closed, to.0, to.1)) by {
            reveal(expanded);
        }
    }
}

/// One round in which a record other than the goal is closed keeps
/// [`reach_inv`].
pub proof fn lemma_reach_step(
    grid: GridView,
    open: Seq<Node>,
    closed: Seq<Node>,
    start: int,
    goal: Node,
    mode: Mode,
    i: int,
)
    requires
        reach_inv(grid, open, closed, start, goal, mode),
        0 <= i < open.len(),
        open[i].index != goal.index,
    ensures
        reach_inv(
            grid,
            expand(grid, open.remove(i), closed.push(open[i]), open[i], goal, mode),
            closed.push(open[i]),
            start,
            goal,
            mode,
        ),
{
    let after = expand(grid, open.remove(i), closed.push(open[i]), open[i], goal, mode);
    let closed_next = closed.push(open[i]);
    lemma_records(grid, open, closed, start, goal, mode);
    lemma_is_round(grid, open, closed, start, goal, mode, i);
    lemma_round_expanded(grid, mode, open, closed, i, after, goal);
    assert(after.len() >= open.len() - 1 && forall|a: int|
        0 <= a < open.len() - 1 ==> (#[trigger] after[a]) == open.remove(i)[a]) by {
        reveal(is_round);
    }
    lemma_found_stays(
        grid,
        open,
        closed,
        i,
        after,
        grid.cell(start).x as int,
        grid.cell(start).y as int,
    );
    if found(grid, closed_next, goal.x as int, goal.y as int) {
        lemma_position_of_index(grid.width, grid.height, goal.index as int);
        let j = choose|j: int|
            0 <= j < closed_next.len() && (#[trigger] closed_next[j]).index == grid.index_of(
                goal.x as int,
                goal.y as int,
            );
        if j < closed.len() {
            assert(closed[j].index == grid.index_of(goal.x as int, goal.y as int));
        }
        assert(false);
    }
}

/// From a state in which the goal is not closed, a search on a grid with a
/// trail from the start to the goal returns a route.
pub proof fn lemma_search_complete(
    grid: GridView,
    open: Seq<Node>,
    closed: Seq<Node>,
    start: int,
    goal: Node,
    mode: Mode,
    trail: Seq<(int, int)>,
)
    requires
        reach_inv(grid, open, closed, start, goal, mode),
        is_trail(grid, mode, trail),
        trail.first() == (grid.cell(start).x as int, grid.cell(start).y as int),
        trail.last() == (goal.x as int, goal.y as int),
    ensures
        search_from(grid, open, closed, goal, mode) is Ok,
        search_from(grid, open, closed, goal, mode)->Ok_0.len() > 0,
    decreases grid.size() - closed.len(),
{
    lemma_records(grid, open, closed, start, goal, mode);
    if open.len() == 0 {
        assert(open =~= Seq::empty());
        lemma_trail_closed(grid, closed, goal, mode, trail, trail.len() - 1);
    } else {
        lemma_frontier_bound(grid, open, closed, start, goal, mode);
        lemma_first_min(open, open.len());
        let i = first_min(open, open.len());
        if open[i].index == goal.index {
            lemma_closed_route(grid, open, closed, start, goal, mode, i);
        } else {
            lemma_reach_step(grid, open, closed, start, goal, mode, i);
            lemma_search_complete(
                grid,
                expand(grid, open.remove(i), closed.push(open[i]), open[i], goal, mode),
                closed.push(open[i]),
                start,
                goal,
                mode,
                trail,
            );
        }
    }
}

/// A search returns a route wherever a trail leads from the start to the
/// goal.
pub proof fn lemma_search_finds(grid: GridView, start: int, goal: int, mode: Mode, trail: Seq<(int, int)>)
    requires
        grid.wf(),
        grid.is_open(start),
        grid.is_open(goal),
        connects(grid, mode, trail, start, goal),
    ensures
        search(grid, start, goal, mode) is Ok,
        search(grid, start, goal, mode)->Ok_0.len() > 0,
{
    let target = grid.cell(goal);
    let first = start_record(grid, start, target, mode);
    let open = seq![first];
    let closed = Seq::<Node>::empty();
    lemma_search_begins(grid, start, goal, mode);
    lemma_position_of_index(grid.width, grid.height, start);
    assert(open[0].index == grid.index_of(grid.cell(start).x as int, grid.cell(start).y as int));
    assert(expanded(grid, mode, open, closed)) by {
        reveal(expanded);
    }
    lemma_search_complete(grid, open, closed, start, target, mode, trail);
}

/// The positions of the records of a path.
pub open spec fn positions(path: Seq<Node>) -> Seq<(int, int)> {
    Seq::new(path.len(), |i: int| (path[i].x as int, path[i].y as int))
}

/// The positions of a route form a trail from the start to the goal.
pub proof fn lemma_route_connects(grid: GridView, path: Seq<Node>, start: int, goal: int, mode: Mode)
    requires
        grid.wf(),
        0 <= goal < grid.size(),
        is_route(grid, path, start, grid.cell(goal), mode),
    ensures
        connects(grid, mode, positions(path), start, goal),
{
    let target = grid.cell(goal);
    let trail = positions(path);
    assert forall|i: int| 0 <= i < trail.len() implies grid.is_open_at((#[trigger] trail[i]).0, trail[i].1) by {
        assert(is_record(grid, target, mode, path[i]));
        lemma_record_position(grid, target, mode, path[i]);
    }
    assert forall|i: int| 1 <= i < trail.len() implies adjacent(
        mode,
        trail[i - 1].0,
        trail[i - 1].1,
        (#[trigger] trail[i]).0,
        trail[i].1,
    ) by {
        assert(reached_from(mode, path[i - 1], path[i]));
    }
    assert(is_record(grid, target, mode, path[0]));
    assert(is_record(grid, target, mode, path[path.len() - 1]));
    assert(trail.first() == (path[0].x as int, path[0].y as int));
    assert(trail.last() == (path[path.len() - 1].x as int, path[path.len() - 1].y as int));
}

} // verus!
