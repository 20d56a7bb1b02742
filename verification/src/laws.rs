//! What holds of every search, proved from the definitions in [`crate::search`].

use vstd::prelude::*;
use crate::cost::{
    adjacent, chebyshev, distance, heuristic, least_cost, manhattan, step_cost, Mode,
};
use crate::descent::{lead, lemma_diagonal_length};
use crate::error::PathError;
use crate::frontier::{lemma_record_position, lemma_search_begins, lemma_search_from_sound};
use crate::grid::{
    connects, directions, is_trail, lemma_adjacent_offset, lemma_neighbours_complete, reachable,
    unobstructed, GridView,
};
use crate::node::Node;
use crate::path::{is_record, is_route, lemma_route_cost, parent_chain, reached_from, route_cost};
use crate::reach::{lemma_route_connects, lemma_search_finds};
use crate::search::{enclosed, first_min, outcome, search, start_record};
use crate::wave::{ahead, lemma_orthogonal_length};

verus! {

/// A search between two traversable cells never fails. What it returns is
/// either empty or a route: it begins at the start, ends at the goal, every
/// two consecutive cells are neighbours under the movement model, and the
/// step costs along it add up to the `g` of the goal's record.
pub proof fn lemma_search_returns_route(grid: GridView, start: int, goal: int, mode: Mode)
    requires
        grid.wf(),
        grid.is_open(start),
        grid.is_open(goal),
    ensures
        search(grid, start, goal, mode) is Ok,
        search(grid, start, goal, mode)->Ok_0.len() > 0 ==> {
            let path = search(grid, start, goal, mode)->Ok_0;
            &&& is_route(grid, path, start, grid.cell(goal), mode)
            &&& route_cost(path, mode) == path.last().g
        },
{
    lemma_search_begins(grid, start, goal, mode);
    let first = start_record(grid, start, grid.cell(goal), mode);
    lemma_search_from_sound(grid, seq![first], Seq::empty(), start, grid.cell(goal), mode);
    let path = search(grid, start, goal, mode)->Ok_0;
    if path.len() > 0 {
        lemma_route_cost(grid, path, start, grid.cell(goal), mode);
    }
}

/// A goal without a traversable neighbour is not reached from any other
/// cell: the search returns the empty path.
pub proof fn lemma_enclosed_goal(grid: GridView, start: int, goal: int, mode: Mode)
    requires
        grid.wf(),
        grid.is_open(start),
        grid.is_open(goal),
        start != goal,
        enclosed(grid, goal, mode),
    ensures
        search(grid, start, goal, mode) == Ok::<Seq<Node>, PathError>(Seq::empty()),
{
    lemma_search_returns_route(grid, start, goal, mode);
    let path = search(grid, start, goal, mode)->Ok_0;
    if path.len() > 0 {
        let target = grid.cell(goal);
        let last = path[path.len() - 1];
        let prev = path[path.len() - 2];
        assert(is_record(grid, target, mode, last));
        assert(is_record(grid, target, mode, prev));
        assert(reached_from(mode, prev, last));
        lemma_record_position(grid, target, mode, prev);
        let k = lemma_adjacent_offset(
            mode,
            last.x as int,
            last.y as int,
            prev.x as int,
            prev.y as int,
        );
        lemma_neighbours_complete(grid, last.x as int, last.y as int, k, directions(mode));
        assert(false);
    }
    assert(path =~= Seq::empty());
}

/// Two searches with the same inputs return the same path: what a search
/// returns is a function of the grid, the two cells and the movement model.
pub proof fn lemma_same_inputs_same_path(
    grid: GridView,
    start: int,
    goal: int,
    mode: Mode,
    first: Result<Vec<Node>, PathError>,
    second: Result<Vec<Node>, PathError>,
)
    requires
        outcome(first) == search(grid, start, goal, mode),
        outcome(second) == search(grid, start, goal, mode),
    ensures
        outcome(first) == outcome(second),
        first is Ok ==> second is Ok && first->Ok_0@ == second->Ok_0@,
        first is Err ==> second is Err && first->Err_0 == second->Err_0,
{
}

/// A search from a traversable cell to itself returns that cell alone, as the
/// grid holds it: no parent and cost zero.
pub proof fn lemma_start_is_goal(grid: GridView, cell: int, mode: Mode)
    requires
        grid.wf(),
        grid.is_open(cell),
    ensures
        search(grid, cell, cell, mode) == Ok::<Seq<Node>, PathError>(seq![grid.cell(cell)]),
        grid.cell(cell).g == 0,
        grid.cell(cell).parent_index == -1,
{
    let target = grid.cell(cell);
    let first = start_record(grid, cell, target, mode);
    assert(first == target);
    let open = seq![first];
    let closed = Seq::<Node>::empty();
    assert(first_min(open, open.len()) == 0);
    let closed_next = closed.push(first);
    assert(parent_chain(closed_next, first, closed_next.len()) == Some(seq![first]));
}

/// The sum of the step costs along a trail.
pub open spec fn trail_cost(mode: Mode, trail: Seq<(int, int)>) -> int
    decreases trail.len(),
{
    if trail.len() <= 1 {
        0
    } else {
        let from = trail[trail.len() - 2];
        let to = trail.last();
        trail_cost(mode, trail.drop_last()) + step_cost(mode, from.0, from.1, to.0, to.1)
    }
}

/// No trail is cheaper than [`least_cost`] between its ends.
pub proof fn lemma_trail_cost_bound(grid: GridView, mode: Mode, trail: Seq<(int, int)>)
    requires
        is_trail(grid, mode, trail),
    ensures
        least_cost(mode, trail.first().0, trail.first().1, trail.last().0, trail.last().1)
            <= trail_cost(mode, trail),
    decreases trail.len(),
{
    if trail.len() >= 2 {
        let shorter = trail.drop_last();
        assert forall|i: int| 0 <= i < shorter.len() implies grid.is_open_at(
            (#[trigger] shorter[i]).0,
            shorter[i].1,
        ) by {
            assert(shorter[i] == trail[i]);
        }
        assert forall|i: int| 1 <= i < shorter.len() implies adjacent(
            mode,
            shorter[i - 1].0,
            shorter[i - 1].1,
            (#[trigger] shorter[i]).0,
            shorter[i].1,
        ) by {
            assert(shorter[i] == trail[i]);
            assert(shorter[i - 1] == trail[i - 1]);
        }
        lemma_trail_cost_bound(grid, mode, shorter);
        let from = trail[trail.len() - 2];
        let to = trail[trail.len() - 1];
        assert(adjacent(mode, from.0, from.1, to.0, to.1));
        assert(shorter.first() == trail.first());
        assert(shorter.last() == from);
    }
}

/// The estimate never exceeds the cost of a way to the goal: under
/// orthogonal movement from every cell, under diagonal movement from every
/// cell that lies on a diagonal through the goal.
pub proof fn lemma_estimate_admissible(grid: GridView, mode: Mode, trail: Seq<(int, int)>)
    requires
        is_trail(grid, mode, trail),
        mode is Diagonal ==> distance(trail.first().0, trail.last().0) == distance(
            trail.first().1,
            trail.last().1,
        ),
    ensures
        heuristic(mode, trail.first().0, trail.first().1, trail.last().0, trail.last().1)
            <= trail_cost(mode, trail),
{
    lemma_trail_cost_bound(grid, mode, trail);
}

/// The number of steps between two positions that the movement model cannot
/// do without.
pub open spec fn steps_apart(mode: Mode, x: int, y: int, gx: int, gy: int) -> int {
    match mode {
        Mode::Orthogonal => manhattan(x, y, gx, gy),
        Mode::Diagonal => chebyshev(x, y, gx, gy),
    }
}

/// On a grid without blocked cells every search returns a route, and the
/// route has as many steps as the Manhattan distance between start and goal
/// under orthogonal movement, as the Chebyshev distance under diagonal
/// movement. Its cost is [`least_cost`], which no way between the two cells
/// undercuts.
pub proof fn lemma_open_grid_length(grid: GridView, start: int, goal: int, mode: Mode)
    requires
        grid.wf(),
        unobstructed(grid),
        0 <= start < grid.size(),
        0 <= goal < grid.size(),
    ensures
        search(grid, start, goal, mode) is Ok,
        search(grid, start, goal, mode)->Ok_0.len() - 1 == steps_apart(
            mode,
            grid.cell(start).x as int,
            grid.cell(start).y as int,
            grid.cell(goal).x as int,
            grid.cell(goal).y as int,
        ),
        search(grid, start, goal, mode)->Ok_0.last().g == least_cost(
            mode,
            grid.cell(start).x as int,
            grid.cell(start).y as int,
            grid.cell(goal).x as int,
            grid.cell(goal).y as int,
        ),
{
    match mode {
        Mode::Orthogonal => lemma_orthogonal_length(grid, start, goal),
        Mode::Diagonal => lemma_diagonal_length(grid, start, goal),
    }
}

/// The neighbour of `(x, y)` through which a cheapest way to `(gx, gy)` on a
/// grid without blocked cells leads.
pub open spec fn onward(mode: Mode, x: int, y: int, gx: int, gy: int) -> (int, int) {
    match mode {
        Mode::Orthogonal => ahead(x, y, gx, gy),
        Mode::Diagonal => lead(x, y, gx, gy),
    }
}

/// The trail from `(x, y)` to `(gx, gy)` that goes [`onward`] step by step.
pub open spec fn direct_trail(mode: Mode, x: int, y: int, gx: int, gy: int) -> Seq<(int, int)>
    decreases steps_apart(mode, x, y, gx, gy),
{
    if x == gx && y == gy {
        seq![(x, y)]
    } else {
        let next = onward(mode, x, y, gx, gy);
        seq![(x, y)] + direct_trail(mode, next.0, next.1, gx, gy)
    }
}

/// A trail with a position put before it costs the step to its first
/// position more.
pub proof fn lemma_trail_cost_front(mode: Mode, from: (int, int), trail: Seq<(int, int)>)
    requires
        trail.len() >= 1,
    ensures
        trail_cost(mode, seq![from] + trail) == step_cost(
            mode,
            from.0,
            from.1,
            trail.first().0,
            trail.first().1,
        ) + trail_cost(mode, trail),
    decreases trail.len(),
{
    let whole = seq![from] + trail;
    if trail.len() == 1 {
        assert(whole.drop_last() =~= seq![from]);
        assert(whole[whole.len() - 2] == from);
        assert(whole.last() == trail.first());
        assert(trail_cost(mode, seq![from]) == 0);
    } else {
        lemma_trail_cost_front(mode, from, trail.drop_last());
        assert(whole.drop_last() =~= seq![from] + trail.drop_last());
        assert(whole[whole.len() - 2] == trail[trail.len() - 2]);
        assert(whole.last() == trail.last());
        assert(trail.drop_last().first() == trail.first());
    }
}

/// On a grid without blocked cells the direct trail is a trail between its
/// ends, and it costs exactly [`least_cost`].
pub proof fn lemma_least_cost_attained(grid: GridView, mode: Mode, x: int, y: int, gx: int, gy: int)
    requires
        grid.wf(),
        unobstructed(grid),
        grid.in_bounds(x, y),
        grid.in_bounds(gx, gy),
    ensures
        is_trail(grid, mode, direct_trail(mode, x, y, gx, gy)),
        direct_trail(mode, x, y, gx, gy).first() == (x, y),
        direct_trail(mode, x, y, gx, gy).last() == (gx, gy),
        trail_cost(mode, direct_trail(mode, x, y, gx, gy)) == least_cost(mode, x, y, gx, gy),
    decreases steps_apart(mode, x, y, gx, gy),
{
    if !(x == gx && y == gy) {
        let next = onward(mode, x, y, gx, gy);
        lemma_least_cost_attained(grid, mode, next.0, next.1, gx, gy);
        let rest = direct_trail(mode, next.0, next.1, gx, gy);
        let whole = seq![(x, y)] + rest;
        assert(whole == direct_trail(mode, x, y, gx, gy));
        lemma_trail_cost_front(mode, (x, y), rest);
        assert forall|i: int| 0 <= i < whole.len() implies grid.is_open_at(
            (#[trigger] whole[i]).0,
            whole[i].1,
        ) by {
            if i > 0 {
                assert(whole[i] == rest[i - 1]);
            }
        }
        assert forall|i: int| 1 <= i < whole.len() implies adjacent(
            mode,
            whole[i - 1].0,
            whole[i - 1].1,
            (#[trigger] whole[i]).0,
            whole[i].1,
        ) by {
            assert(whole[i] == rest[i - 1]);
            if i > 1 {
                assert(whole[i - 1] == rest[i - 2]);
            }
        }
        assert(whole.last() == rest.last());
    }
}

/// On a grid without blocked cells the diagonal estimate from a cell that
/// lies on no diagonal through the goal exceeds the cost of the direct trail
/// to the goal.
pub proof fn lemma_estimate_overshoots(grid: GridView, x: int, y: int, gx: int, gy: int)
    requires
        grid.wf(),
        unobstructed(grid),
        grid.in_bounds(x, y),
        grid.in_bounds(gx, gy),
        distance(x, gx) != distance(y, gy),
    ensures
        is_trail(grid, Mode::Diagonal, direct_trail(Mode::Diagonal, x, y, gx, gy)),
        direct_trail(Mode::Diagonal, x, y, gx, gy).first() == (x, y),
        direct_trail(Mode::Diagonal, x, y, gx, gy).last() == (gx, gy),
        heuristic(Mode::Diagonal, x, y, gx, gy) > trail_cost(
            Mode::Diagonal,
            direct_trail(Mode::Diagonal, x, y, gx, gy),
        ),
{
    lemma_least_cost_attained(grid, Mode::Diagonal, x, y, gx, gy);
}

/// A search returns a route if and only if the goal can be reached from the
/// start; it returns the empty path if and only if it cannot.
pub proof fn lemma_found_iff_reachable(grid: GridView, start: int, goal: int, mode: Mode)
    requires
        grid.wf(),
        grid.is_open(start),
        grid.is_open(goal),
    ensures
        search(grid, start, goal, mode) is Ok,
        search(grid, start, goal, mode)->Ok_0.len() > 0 <==> reachable(grid, mode, start, goal),
{
    lemma_search_returns_route(grid, start, goal, mode);
    let path = search(grid, start, goal, mode)->Ok_0;
    if path.len() > 0 {
        lemma_route_connects(grid, path, start, goal, mode);
    }
    if reachable(grid, mode, start, goal) {
        let trail = choose|trail: Seq<(int, int)>| connects(grid, mode, trail, start, goal);
        lemma_search_finds(grid, start, goal, mode, trail);
    }
}

/// What a search between two traversable cells is known to return, beyond
/// the definition of [`search`].
pub open spec fn search_laws(grid: GridView, start: int, goal: int, mode: Mode) -> bool {
    let found = search(grid, start, goal, mode);
    &&& found is Ok
    &&& found->Ok_0.len() > 0 ==> is_route(grid, found->Ok_0, start, grid.cell(goal), mode)
        && route_cost(found->Ok_0, mode) == found->Ok_0.last().g
    &&& found->Ok_0.len() > 0 <==> reachable(grid, mode, start, goal)
    &&& start == goal ==> found->Ok_0 == seq![grid.cell(start)]
    &&& start != goal && enclosed(grid, goal, mode) ==> found->Ok_0.len() == 0
    &&& unobstructed(grid) ==> found->Ok_0.len() - 1 == steps_apart(
        mode,
        grid.cell(start).x as int,
        grid.cell(start).y as int,
        grid.cell(goal).x as int,
        grid.cell(goal).y as int,
    ) && found->Ok_0.last().g == least_cost(
        mode,
        grid.cell(start).x as int,
        grid.cell(start).y as int,
        grid.cell(goal).x as int,
        grid.cell(goal).y as int,
    )
}

/// Every search between two traversable cells obeys [`search_laws`].
pub proof fn lemma_search_laws(grid: GridView, start: int, goal: int, mode: Mode)
    requires
        grid.wf(),
        grid.is_open(start),
        grid.is_open(goal),
    ensures
        search_laws(grid, start, goal, mode),
{
    lemma_search_returns_route(grid, start, goal, mode);
    lemma_found_iff_reachable(grid, start, goal, mode);
    if start == goal {
        lemma_start_is_goal(grid, start, mode);
    } else if enclosed(grid, goal, mode) {
        lemma_enclosed_goal(grid, start, goal, mode);
    }
    if unobstructed(grid) {
        lemma_open_grid_length(grid, start, goal, mode);
    }
}

} // verus!
