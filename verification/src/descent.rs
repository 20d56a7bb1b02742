//! Diagonal searches on a grid without blocked cells: every round closes a
//! cell one step closer to the goal than the round before.

use vstd::prelude::*;
use crate::cost::{adjacent, chebyshev, distance, least_cost, step_cost, Mode};
use crate::frontier::{
    lemma_first_min, lemma_frontier_bound, lemma_last_with_index, lemma_record_position,
    lemma_search_begins, search_inv,
};
use crate::grid::{lemma_index_of_position, lemma_position_of_index, unobstructed, GridView};
use crate::node::Node;
use crate::path::{distinct, is_record, parent_chain};
use crate::round::{
    beside, found, fresh, is_round, lemma_found, lemma_is_round, lemma_records, records,
};
use crate::search::{expand, first_min, search, search_from, start_record};

verus! {

/// The direction from `a` to `b` along one axis.
pub open spec fn toward(a: int, b: int) -> int {
    if b > a {
        1
    } else if b < a {
        -1
    } else {
        0
    }
}

/// The neighbour of `(x, y)` that a diagonal search towards `(gx, gy)` takes
/// next: straight along the axis on which the goal is farther, or diagonally
/// where it is equally far on both.
pub open spec fn lead(x: int, y: int, gx: int, gy: int) -> (int, int) {
    let dx = distance(x, gx);
    let dy = distance(y, gy);
    if dx > dy {
        (x + toward(x, gx), y)
    } else if dy > dx {
        (x, y + toward(y, gy))
    } else {
        (x + toward(x, gx), y + toward(y, gy))
    }
}

/// The lead lies one step away and one step closer to the goal, between the
/// cell and the goal, on a cheapest way to the goal, and its priority is no
/// higher than the cell's.
pub proof fn lemma_lead(x: int, y: int, gx: int, gy: int)
    requires
        x != gx || y != gy,
    ensures
        adjacent(Mode::Diagonal, x, y, lead(x, y, gx, gy).0, lead(x, y, gx, gy).1),
        chebyshev(lead(x, y, gx, gy).0, lead(x, y, gx, gy).1, gx, gy) == chebyshev(x, y, gx, gy) - 1,
        step_cost(Mode::Diagonal, x, y, lead(x, y, gx, gy).0, lead(x, y, gx, gy).1) + 14 * chebyshev(
            lead(x, y, gx, gy).0,
            lead(x, y, gx, gy).1,
            gx,
            gy,
        ) <= 14 * chebyshev(x, y, gx, gy),
        x <= lead(x, y, gx, gy).0 <= gx || gx <= lead(x, y, gx, gy).0 <= x,
        y <= lead(x, y, gx, gy).1 <= gy || gy <= lead(x, y, gx, gy).1 <= y,
        step_cost(Mode::Diagonal, x, y, lead(x, y, gx, gy).0, lead(x, y, gx, gy).1) + least_cost(
            Mode::Diagonal,
            lead(x, y, gx, gy).0,
            lead(x, y, gx, gy).1,
            gx,
            gy,
        ) == least_cost(Mode::Diagonal, x, y, gx, gy),
{
}

/// Every other neighbour is no closer to the goal than the lead and has a
/// strictly higher priority.
pub proof fn lemma_not_lead(x: int, y: int, gx: int, gy: int, ux: int, uy: int)
    requires
        x != gx || y != gy,
        adjacent(Mode::Diagonal, x, y, ux, uy),
    ensures
        chebyshev(ux, uy, gx, gy) >= chebyshev(x, y, gx, gy) - 1,
        (ux, uy) != lead(x, y, gx, gy) ==> step_cost(Mode::Diagonal, x, y, ux, uy) + 14 * chebyshev(
            ux,
            uy,
            gx,
            gy,
        ) > step_cost(Mode::Diagonal, x, y, lead(x, y, gx, gy).0, lead(x, y, gx, gy).1) + 14
            * chebyshev(lead(x, y, gx, gy).0, lead(x, y, gx, gy).1, gx, gy),
{
}

/// Chebyshev distance from a record's position to the goal's.
pub open spec fn reach(goal: Node, node: Node) -> int {
    chebyshev(node.x as int, node.y as int, goal.x as int, goal.y as int)
}

/// The closed set is one chain: each record was reached from the one closed
/// just before it.
#[verifier::opaque]
pub open spec fn is_chain(closed: Seq<Node>) -> bool {
    &&& distinct(closed)
    &&& forall|i: int| 0 <= i < closed.len() ==> (#[trigger] closed[i]).index >= 0
    &&& closed.len() > 0 ==> closed[0].parent_index == -1
    &&& forall|i: int| 1 <= i < closed.len() ==> (#[trigger] closed[i]).parent_index == closed[i - 1].index
}

/// The route of a record in a chain is the chain up to that record.
pub proof fn lemma_chain_route(closed: Seq<Node>, i: int, budget: nat)
    requires
        is_chain(closed),
        0 <= i < closed.len(),
        budget >= i,
    ensures
        parent_chain(closed, closed[i], budget) == Some(closed.take(i + 1)),
    decreases i,
{
    reveal(is_chain);
    if i == 0 {
        assert(closed.take(1) =~= seq![closed[0]]);
    } else {
        assert(closed[i].parent_index == closed[i - 1].index);
        assert(closed[i - 1].index >= 0);
        lemma_last_with_index(closed, i - 1);
        lemma_chain_route(closed, i - 1, (budget - 1) as nat);
        assert(closed.take(i).push(closed[i]) =~= closed.take(i + 1));
    }
}

/// Whether `open[b]` is the record that a diagonal search on an unobstructed
/// grid closes next: reached from the record closed last, one step closer to
/// the goal, at a cost that leaves the cheapest way from start to goal within
/// reach, and of strictly lower `f` than every other open record.
#[verifier::opaque]
pub open spec fn is_lead(open: Seq<Node>, closed: Seq<Node>, goal: Node, total: int, whole: int, b: int) -> bool {
    &&& 0 <= b < open.len()
    &&& reach(goal, open[b]) == total - closed.len()
    &&& open[b].g + least_cost(
        Mode::Diagonal,
        open[b].x as int,
        open[b].y as int,
        goal.x as int,
        goal.y as int,
    ) == whole
    &&& open[b].parent_index == if closed.len() == 0 {
        -1
    } else {
        closed.last().index as int
    }
    &&& forall|j: int| 0 <= j < open.len() && j != b ==> (#[trigger] open[j]).f > open[b].f
}

/// The closed records lie at `total`, `total - 1`, ... steps from the goal.
#[verifier::opaque]
pub open spec fn closes_in(goal: Node, closed: Seq<Node>, total: int) -> bool {
    forall|i: int| 0 <= i < closed.len() ==> reach(goal, #[trigger] closed[i]) == total - i
}

/// No record lies closer than `least` steps to the goal.
#[verifier::opaque]
pub open spec fn keeps_off(goal: Node, nodes: Seq<Node>, least: int) -> bool {
    forall|i: int| 0 <= i < nodes.len() ==> reach(goal, #[trigger] nodes[i]) >= least
}

/// What holds in every round of a diagonal search on an unobstructed grid
/// whose start lies `total` steps from the goal, with `whole` the least
/// cost of a way between them.
pub open spec fn greedy_inv(
    grid: GridView,
    open: Seq<Node>,
    closed: Seq<Node>,
    start: int,
    goal: Node,
    total: int,
    whole: int,
) -> bool {
    &&& search_inv(grid, open, closed, start, goal, Mode::Diagonal)
    &&& unobstructed(grid)
    &&& is_chain(closed)
    &&& closes_in(goal, closed, total)
    &&& keeps_off(goal, open, total - closed.len())
    &&& exists|b: int| is_lead(open, closed, goal, total, whole, b)
}

/// The record selected in a round is the lead.
pub proof fn lemma_lead_selected(open: Seq<Node>, closed: Seq<Node>, goal: Node, total: int, whole: int)
    requires
        exists|b: int| is_lead(open, closed, goal, total, whole, b),
    ensures
        is_lead(open, closed, goal, total, whole, first_min(open, open.len())),
{
    reveal(is_lead);
    let b = choose|b: int| is_lead(open, closed, goal, total, whole, b);
    lemma_first_min(open, open.len());
    let i = first_min(open, open.len());
    if i != b {
        assert(open[i].f > open[b].f);
        assert(open[i].f <= open[b].f);
    }
}

/// Closing the lead extends the chain by one record, one step closer to the
/// goal.
pub proof fn lemma_lead_closed(
    grid: GridView,
    open: Seq<Node>,
    closed: Seq<Node>,
    i: int,
    after: Seq<Node>,
    goal: Node,
    total: int,
    whole: int,
)
    requires
        is_round(grid, Mode::Diagonal, open, closed, i, after, goal),
        is_chain(closed),
        closes_in(goal, closed, total),
        is_lead(open, closed, goal, total, whole, i),
    ensures
        is_chain(closed.push(open[i])),
        closes_in(goal, closed.push(open[i]), total),
{
    reveal(is_round);
    reveal(is_chain);
    reveal(is_lead);
    reveal(closes_in);
    let p = open[i];
    let closed_next = closed.push(p);
    let t = closed.len() as int;
    assert(is_record(grid, goal, Mode::Diagonal, p));
    assert forall|a: int, c: int| 0 <= a < c < closed_next.len() implies closed_next[a].index
        != closed_next[c].index by {
        if c < t {
            assert(closed[a].index != closed[c].index);
        } else {
            assert(reach(goal, closed[a]) == total - a);
            assert(is_record(grid, goal, Mode::Diagonal, closed[a]));
        }
    }
    assert forall|a: int| 0 <= a < closed_next.len() implies (#[trigger] closed_next[a]).index >= 0 by {
        if a < t {
            assert(closed_next[a] == closed[a]);
        }
    }
    assert forall|a: int| 1 <= a < closed_next.len() implies (#[trigger] closed_next[a]).parent_index
        == closed_next[a - 1].index by {
        if a < t {
            assert(closed_next[a] == closed[a]);
            assert(closed_next[a - 1] == closed[a - 1]);
        }
    }
    if t > 0 {
        assert(closed_next[0] == closed[0]);
    }
    assert forall|a: int| 0 <= a < closed_next.len() implies reach(goal, #[trigger] closed_next[a])
        == total - a by {
        if a < t {
            assert(closed_next[a] == closed[a]);
        }
    }
}

/// After a round in which the lead was closed and was not the goal, the
/// lead's own lead is open, and it is the lead of the next round.
pub proof fn lemma_next_lead(
    grid: GridView,
    open: Seq<Node>,
    closed: Seq<Node>,
    i: int,
    after: Seq<Node>,
    goal: Node,
    total: int,
    whole: int,
) -> (next: int)
    requires
        is_round(grid, Mode::Diagonal, open, closed, i, after, goal),
        unobstructed(grid),
        closes_in(goal, closed, total),
        keeps_off(goal, open, total - closed.len()),
        is_lead(open, closed, goal, total, whole, i),
        open[i].index != goal.index,
    ensures
        is_lead(after, closed.push(open[i]), goal, total, whole, next),
        keeps_off(goal, after, total - closed.len() - 1),
{
    reveal(is_round);
    reveal(is_lead);
    reveal(closes_in);
    reveal(keeps_off);
    let mode = Mode::Diagonal;
    let p = open[i];
    let closed_next = closed.push(p);
    let t = closed.len() as int;
    let x = p.x as int;
    let y = p.y as int;
    let gx = goal.x as int;
    let gy = goal.y as int;
    assert(is_record(grid, goal, mode, p));
    lemma_record_position(grid, goal, mode, p);
    lemma_position_of_index(grid.width, grid.height, goal.index as int);
    lemma_index_of_position(grid.width, grid.height, gx, gy);
    assert(x != gx || y != gy);
    lemma_lead(x, y, gx, gy);
    let (bx, by) = lead(x, y, gx, gy);
    assert(grid.is_open_at(bx, by));
    assert(beside(mode, p, bx, by));
    if found(grid, closed_next, bx, by) {
        assert(records(grid, goal, mode, closed_next)) by {
            assert forall|a: int| 0 <= a < closed_next.len() implies is_record(
                grid,
                goal,
                mode,
                #[trigger] closed_next[a],
            ) by {
                if a < t {
                    assert(closed_next[a] == closed[a]);
                }
            }
        }
        let q = lemma_found(grid, goal, mode, closed_next, bx, by);
        if q < t {
            assert(closed_next[q] == closed[q]);
            assert(reach(goal, closed[q]) == total - q);
        }
        assert(false);
    }
    let next = lemma_found(grid, goal, mode, after, bx, by);
    if next < open.len() - 1 {
        let n0 = if next < i {
            next
        } else {
            next + 1
        };
        assert(after[next] == open.remove(i)[next]);
        assert(open.remove(i)[next] == open[n0]);
        assert(reach(goal, open[n0]) >= total - t);
        assert(false);
    }
    assert(fresh(mode, p, after[next]));
    assert(is_record(grid, goal, mode, after[next]));
    assert(closed_next.last() == p);
    assert forall|a: int| 0 <= a < after.len() implies reach(goal, #[trigger] after[a]) >= total - t
        - 1 && (a != next ==> after[a].f > after[next].f) by {
        assert(is_record(grid, goal, mode, after[a]));
        if a < open.len() - 1 {
            let a0 = if a < i {
                a
            } else {
                a + 1
            };
            assert(after[a] == open.remove(i)[a]);
            assert(open.remove(i)[a] == open[a0]);
            assert(reach(goal, open[a0]) >= total - t);
            assert(open[a0].f > open[i].f);
        } else {
            assert(fresh(mode, p, after[a]));
            let ux = after[a].x as int;
            let uy = after[a].y as int;
            lemma_not_lead(x, y, gx, gy, ux, uy);
            if a != next && ux == bx && uy == by {
                lemma_record_position(grid, goal, mode, after[a]);
                assert(after[a].index == after[next].index);
                if a < next {
                    assert(after[a].index != after[next].index);
                } else {
                    assert(after[next].index != after[a].index);
                }
            }
        }
    }
    next
}

/// One round of a diagonal search on an unobstructed grid closes the lead
/// and, unless that is the goal, leaves the lead's own lead as the next.
pub proof fn lemma_greedy_step(
    grid: GridView,
    open: Seq<Node>,
    closed: Seq<Node>,
    start: int,
    goal: Node,
    total: int,
    whole: int,
)
    requires
        greedy_inv(grid, open, closed, start, goal, total, whole),
    ensures
        open.len() > 0,
        closed.len() < grid.size(),
        is_chain(closed.push(open[first_min(open, open.len())])),
        reach(goal, open[first_min(open, open.len())]) == total - closed.len(),
        open[first_min(open, open.len())].index != goal.index ==> greedy_inv(
            grid,
            expand(
                grid,
                open.remove(first_min(open, open.len())),
                closed.push(open[first_min(open, open.len())]),
                open[first_min(open, open.len())],
                goal,
                Mode::Diagonal,
            ),
            closed.push(open[first_min(open, open.len())]),
            start,
            goal,
            total,
            whole,
        ),
{
    let mode = Mode::Diagonal;
    let i = first_min(open, open.len());
    lemma_lead_selected(open, closed, goal, total, whole);
    assert(0 <= i < open.len() && reach(goal, open[i]) == total - closed.len()) by {
        reveal(is_lead);
    }
    lemma_frontier_bound(grid, open, closed, start, goal, mode);
    let p = open[i];
    let after = expand(grid, open.remove(i), closed.push(p), p, goal, mode);
    lemma_is_round(grid, open, closed, start, goal, mode, i);
    lemma_lead_closed(grid, open, closed, i, after, goal, total, whole);
    if p.index != goal.index {
        let next = lemma_next_lead(grid, open, closed, i, after, goal, total, whole);
        assert(is_lead(after, closed.push(p), goal, total, whole, next));
    }
}

/// From a state of a diagonal search on an unobstructed grid, the search
/// returns a route of exactly `total` steps at a cost of `whole`.
pub proof fn lemma_greedy_search(
    grid: GridView,
    open: Seq<Node>,
    closed: Seq<Node>,
    start: int,
    goal: Node,
    total: int,
    whole: int,
)
    requires
        greedy_inv(grid, open, closed, start, goal, total, whole),
    ensures
        search_from(grid, open, closed, goal, Mode::Diagonal) is Ok,
        search_from(grid, open, closed, goal, Mode::Diagonal)->Ok_0.len() == total + 1,
        search_from(grid, open, closed, goal, Mode::Diagonal)->Ok_0.last().g == whole,
    decreases grid.size() - closed.len(),
{
    let mode = Mode::Diagonal;
    lemma_greedy_step(grid, open, closed, start, goal, total, whole);
    let i = first_min(open, open.len());
    let current = open[i];
    let closed_next = closed.push(current);
    assert(current.g + least_cost(
        mode,
        current.x as int,
        current.y as int,
        goal.x as int,
        goal.y as int,
    ) == whole) by {
        lemma_lead_selected(open, closed, goal, total, whole);
        reveal(is_lead);
    }
    if current.index == goal.index {
        lemma_first_min(open, open.len());
        lemma_records(grid, open, closed, start, goal, mode);
        assert(is_record(grid, goal, mode, open[i]));
        assert(current.x == goal.x && current.y == goal.y);
        lemma_chain_route(closed_next, closed_next.len() - 1, closed_next.len());
        assert(closed_next.take(closed_next.len() as int) =~= closed_next);
        assert(closed_next[closed_next.len() - 1] == current);
    } else {
        lemma_greedy_search(
            grid,
            expand(grid, open.remove(i), closed_next, current, goal, mode),
            closed_next,
            start,
            goal,
            total,
            whole,
        );
    }
}

/// On a grid without blocked cells a diagonal search returns a route with as
/// many steps as the Chebyshev distance between start and goal, at the least
/// cost that a way between them can have.
pub proof fn lemma_diagonal_length(grid: GridView, start: int, goal: int)
    requires
        grid.wf(),
        unobstructed(grid),
        0 <= start < grid.size(),
        0 <= goal < grid.size(),
    ensures
        search(grid, start, goal, Mode::Diagonal) is Ok,
        search(grid, start, goal, Mode::Diagonal)->Ok_0.len() - 1 == chebyshev(
            grid.cell(start).x as int,
            grid.cell(start).y as int,
            grid.cell(goal).x as int,
            grid.cell(goal).y as int,
        ),
        search(grid, start, goal, Mode::Diagonal)->Ok_0.last().g == least_cost(
            Mode::Diagonal,
            grid.cell(start).x as int,
            grid.cell(start).y as int,
            grid.cell(goal).x as int,
            grid.cell(goal).y as int,
        ),
{
    reveal(is_chain);
    reveal(is_lead);
    reveal(closes_in);
    reveal(keeps_off);
    let mode = Mode::Diagonal;
    let target = grid.cell(goal);
    let first = start_record(grid, start, target, mode);
    let open = seq![first];
    let closed = Seq::<Node>::empty();
    let total = reach(target, first);
    let whole = least_cost(
        mode,
        first.x as int,
        first.y as int,
        target.x as int,
        target.y as int,
    );
    lemma_search_begins(grid, start, goal, mode);
    assert(is_lead(open, closed, target, total, whole, 0));
    lemma_greedy_search(grid, open, closed, start, target, total, whole);
}

} // verus!
