//! Orthogonal searches on a grid without blocked cells: the cells between
//! start and goal are closed layer by layer, in the order of their distance
//! from the start.

use vstd::prelude::*;
use crate::cost::{manhattan, Mode};
use crate::frontier::{
    lemma_closed_route, lemma_first_min, lemma_frontier_bound, lemma_record_position,
    lemma_search_begins, search_inv,
};
use crate::grid::{lemma_index_of_position, lemma_position_of_index, unobstructed, GridView};
use crate::node::Node;
use crate::path::{is_record, lemma_route_cost, route, route_cost};
use crate::round::{
    beside, expanded, found, fresh, is_round, lemma_found, lemma_found_stays, lemma_is_round,
    lemma_records, lemma_round_expanded, records,
};
use crate::search::{expand, first_min, search, search_from, start_record};

verus! {

/// Manhattan distance of a record's position from the position of `origin`.
pub open spec fn layer(origin: Node, node: Node) -> int {
    manhattan(node.x as int, node.y as int, origin.x as int, origin.y as int)
}

/// Manhattan distance between the positions of `origin` and `goal`.
pub open spec fn span(origin: Node, goal: Node) -> int {
    manhattan(origin.x as int, origin.y as int, goal.x as int, goal.y as int)
}

/// Whether `(x, y)` lies on a shortest way from `origin` to `goal`.
pub open spec fn between(origin: Node, goal: Node, x: int, y: int) -> bool {
    manhattan(x, y, origin.x as int, origin.y as int) + manhattan(x, y, goal.x as int, goal.y as int)
        == span(origin, goal)
}

/// Whether the record's priority is the least there is: the cost of a
/// shortest way from `origin` to `goal`.
pub open spec fn tight(origin: Node, goal: Node, node: Node) -> bool {
    node.f == 10 * span(origin, goal)
}

/// Every record carries a cost of at least ten times its layer.
#[verifier::opaque]
pub open spec fn costs_ok(origin: Node, nodes: Seq<Node>) -> bool {
    forall|i: int| 0 <= i < nodes.len() ==> (#[trigger] nodes[i]).g >= 10 * layer(origin, nodes[i])
}

/// Every closed record is tight and lies in a layer up to `depth`.
#[verifier::opaque]
pub open spec fn closed_tight(origin: Node, goal: Node, closed: Seq<Node>, depth: int) -> bool {
    forall|i: int|
        0 <= i < closed.len() ==> tight(origin, goal, #[trigger] closed[i]) && layer(origin, closed[i])
            <= depth
}

/// Every open record between start and goal is tight and lies in layer
/// `depth` or the next.
#[verifier::opaque]
pub open spec fn open_layers(origin: Node, goal: Node, open: Seq<Node>, depth: int) -> bool {
    forall|i: int|
        0 <= i < open.len() && between(origin, goal, (#[trigger] open[i]).x as int, open[i].y as int)
            ==> tight(origin, goal, open[i]) && depth <= layer(origin, open[i]) <= depth + 1
}

/// Among the tight open records none of a later layer stands before one of
/// an earlier layer.
#[verifier::opaque]
pub open spec fn open_sorted(origin: Node, goal: Node, open: Seq<Node>) -> bool {
    forall|i: int, j: int|
        0 <= i < j < open.len() && tight(origin, goal, #[trigger] open[i]) && tight(
            origin,
            goal,
            #[trigger] open[j],
        ) ==> layer(origin, open[i]) <= layer(origin, open[j])
}

/// Some open record is tight.
#[verifier::opaque]
pub open spec fn has_tight(origin: Node, goal: Node, open: Seq<Node>) -> bool {
    exists|i: int| 0 <= i < open.len() && tight(origin, goal, #[trigger] open[i])
}

/// Every cell between start and goal in a layer below `depth` is closed.
#[verifier::opaque]
pub open spec fn layers_closed(grid: GridView, origin: Node, goal: Node, closed: Seq<Node>, depth: int) -> bool {
    forall|x: int, y: int|
        #[trigger] between(origin, goal, x, y) && manhattan(x, y, origin.x as int, origin.y as int)
            < depth ==> found(grid, closed, x, y)
}

/// Every cell between start and goal in layer `depth` is open or closed.
#[verifier::opaque]
pub open spec fn layer_found(
    grid: GridView,
    origin: Node,
    goal: Node,
    open: Seq<Node>,
    closed: Seq<Node>,
    depth: int,
) -> bool {
    forall|x: int, y: int|
        #[trigger] between(origin, goal, x, y) && manhattan(x, y, origin.x as int, origin.y as int)
            == depth ==> found(grid, open, x, y) || found(grid, closed, x, y)
}

/// What holds in every round of an orthogonal search on an unobstructed
/// grid while the cells `depth` steps from the start are being closed.
pub open spec fn wave_inv(
    grid: GridView,
    open: Seq<Node>,
    closed: Seq<Node>,
    start: int,
    origin: Node,
    goal: Node,
    depth: int,
) -> bool {
    &&& search_inv(grid, open, closed, start, goal, Mode::Orthogonal)
    &&& unobstructed(grid)
    &&& 0 <= start < grid.size()
    &&& origin == grid.cell(start)
    &&& 0 <= depth
    &&& costs_ok(origin, closed)
    &&& costs_ok(origin, open)
    &&& closed_tight(origin, goal, closed, depth)
    &&& open_layers(origin, goal, open, depth)
    &&& open_sorted(origin, goal, open)
    &&& has_tight(origin, goal, open)
    &&& layers_closed(grid, origin, goal, closed, depth)
    &&& layer_found(grid, origin, goal, open, closed, depth)
    &&& expanded(grid, Mode::Orthogonal, open, closed)
}

/// A record whose cost is at least ten times its layer has a priority of at
/// least ten times the span, and exactly that only if it lies between start
/// and goal and its cost is ten times its layer.
pub proof fn lemma_tight(grid: GridView, origin: Node, goal: Node, node: Node)
    requires
        is_record(grid, goal, Mode::Orthogonal, node),
        node.g >= 10 * layer(origin, node),
    ensures
        node.f >= 10 * span(origin, goal),
        tight(origin, goal, node) <==> between(origin, goal, node.x as int, node.y as int) && node.g
            == 10 * layer(origin, node),
{
}

/// The neighbour of `(x, y)` one step closer to `(gx, gy)`: along the row
/// while the column differs, then along the column.
pub open spec fn ahead(x: int, y: int, gx: int, gy: int) -> (int, int) {
    if gx > x {
        (x + 1, y)
    } else if gx < x {
        (x - 1, y)
    } else if gy > y {
        (x, y + 1)
    } else {
        (x, y - 1)
    }
}

/// What the record selected in a round is like: tight, and so at a cost of
/// ten times its layer and between start and goal; and no tight open record
/// lies in an earlier layer.
pub proof fn lemma_wave_selected(grid: GridView, open: Seq<Node>, origin: Node, goal: Node, depth: int)
    requires
        records(grid, goal, Mode::Orthogonal, open),
        costs_ok(origin, open),
        open_layers(origin, goal, open, depth),
        open_sorted(origin, goal, open),
        has_tight(origin, goal, open),
    ensures
        open.len() > 0,
        0 <= first_min(open, open.len()) < open.len(),
        tight(origin, goal, open[first_min(open, open.len())]),
        between(
            origin,
            goal,
            open[first_min(open, open.len())].x as int,
            open[first_min(open, open.len())].y as int,
        ),
        open[first_min(open, open.len())].g == 10 * layer(origin, open[first_min(open, open.len())]),
        depth <= layer(origin, open[first_min(open, open.len())]) <= depth + 1,
        forall|a: int|
            0 <= a < open.len() && tight(origin, goal, #[trigger] open[a]) ==> layer(
                origin,
                open[first_min(open, open.len())],
            ) <= layer(origin, open[a]),
{
    reveal(costs_ok);
    reveal(open_layers);
    reveal(open_sorted);
    reveal(has_tight);
    let i = first_min(open, open.len());
    lemma_first_min(open, open.len());
    let w = choose|w: int| 0 <= w < open.len() && tight(origin, goal, #[trigger] open[w]);
    assert(open[i].f <= open[w].f);
    assert(is_record(grid, goal, Mode::Orthogonal, open[i]));
    lemma_tight(grid, origin, goal, open[i]);
    assert forall|a: int| 0 <= a < open.len() && tight(origin, goal, #[trigger] open[a]) implies layer(
        origin,
        open[i],
    ) <= layer(origin, open[a]) by {
        if a < i {
            assert(open[i].f < open[a].f);
        }
    }
}

/// After a round every record still carries at least ten times its layer.
pub proof fn lemma_round_costs(
    grid: GridView,
    open: Seq<Node>,
    closed: Seq<Node>,
    i: int,
    after: Seq<Node>,
    origin: Node,
    goal: Node,
)
    requires
        is_round(grid, Mode::Orthogonal, open, closed, i, after, goal),
        costs_ok(origin, open),
        costs_ok(origin, closed),
    ensures
        costs_ok(origin, after),
        costs_ok(origin, closed.push(open[i])),
{
    reveal(is_round);
    reveal(costs_ok);
    let closed_next = closed.push(open[i]);
    assert forall|a: int| 0 <= a < after.len() implies (#[trigger] after[a]).g >= 10 * layer(
        origin,
        after[a],
    ) by {
        if a < open.len() - 1 {
            let a0 = if a < i {
                a
            } else {
                a + 1
            };
            assert(after[a] == open.remove(i)[a]);
            assert(open.remove(i)[a] == open[a0]);
        } else {
            assert(fresh(Mode::Orthogonal, open[i], after[a]));
        }
    }
    assert forall|a: int| 0 <= a < closed_next.len() implies (#[trigger] closed_next[a]).g >= 10
        * layer(origin, closed_next[a]) by {
        if a < closed.len() {
            assert(closed_next[a] == closed[a]);
        }
    }
}

/// After a round in which a tight record of layer `depth` was closed, the
/// closed records are tight and lie in layers up to `depth`.
pub proof fn lemma_round_closed(
    open: Seq<Node>,
    closed: Seq<Node>,
    i: int,
    origin: Node,
    goal: Node,
    depth: int,
)
    requires
        0 <= i < open.len(),
        closed_tight(origin, goal, closed, depth),
        tight(origin, goal, open[i]),
        layer(origin, open[i]) == depth,
    ensures
        closed_tight(origin, goal, closed.push(open[i]), depth),
{
    reveal(closed_tight);
    let closed_next = closed.push(open[i]);
    assert forall|a: int| 0 <= a < closed_next.len() implies tight(origin, goal, #[trigger] closed_next[a])
        && layer(origin, closed_next[a]) <= depth by {
        if a < closed.len() {
            assert(closed_next[a] == closed[a]);
        }
    }
}

/// After a round in which a tight record of layer `depth` was closed, the
/// open records between start and goal are tight and lie in layer `depth` or
/// the next, and those of the next layer stand behind those of this.
pub proof fn lemma_round_layers(
    grid: GridView,
    open: Seq<Node>,
    closed: Seq<Node>,
    i: int,
    after: Seq<Node>,
    origin: Node,
    goal: Node,
    depth: int,
)
    requires
        is_round(grid, Mode::Orthogonal, open, closed, i, after, goal),
        costs_ok(origin, after),
        open_layers(origin, goal, open, depth),
        open_sorted(origin, goal, open),
        layers_closed(grid, origin, goal, closed, depth),
        tight(origin, goal, open[i]),
        open[i].g == 10 * layer(origin, open[i]),
        layer(origin, open[i]) == depth,
    ensures
        open_layers(origin, goal, after, depth),
        open_sorted(origin, goal, after),
{
    reveal(is_round);
    reveal(costs_ok);
    reveal(open_layers);
    reveal(open_sorted);
    reveal(layers_closed);
    let p = open[i];
    assert forall|a: int| 0 <= a < after.len() implies (between(
        origin,
        goal,
        (#[trigger] after[a]).x as int,
        after[a].y as int,
    ) ==> tight(origin, goal, after[a]) && depth <= layer(origin, after[a]) <= depth + 1) && (a
        >= open.len() - 1 && tight(origin, goal, after[a]) ==> layer(origin, after[a]) == depth + 1) by {
        assert(is_record(grid, goal, Mode::Orthogonal, after[a]));
        lemma_tight(grid, origin, goal, after[a]);
        if a < open.len() - 1 {
            let a0 = if a < i {
                a
            } else {
                a + 1
            };
            assert(after[a] == open.remove(i)[a]);
            assert(open.remove(i)[a] == open[a0]);
        } else {
            assert(fresh(Mode::Orthogonal, p, after[a]));
            let u = after[a].x as int;
            let v = after[a].y as int;
            if between(origin, goal, u, v) && layer(origin, after[a]) < depth {
                lemma_record_position(grid, goal, Mode::Orthogonal, after[a]);
                assert(found(grid, closed, u, v));
                let j = lemma_found(grid, goal, Mode::Orthogonal, closed, u, v);
                assert(after[a].index != closed[j].index);
                assert(false);
            }
        }
    }
    assert forall|a: int, b: int|
        0 <= a < b < after.len() && tight(origin, goal, #[trigger] after[a]) && tight(
            origin,
            goal,
            #[trigger] after[b],
        ) implies layer(origin, after[a]) <= layer(origin, after[b]) by {
        assert(is_record(grid, goal, Mode::Orthogonal, after[a]));
        lemma_tight(grid, origin, goal, after[a]);
        if b < open.len() - 1 {
            let a0 = if a < i {
                a
            } else {
                a + 1
            };
            let b0 = if b < i {
                b
            } else {
                b + 1
            };
            assert(after[a] == open.remove(i)[a] && open.remove(i)[a] == open[a0]);
            assert(after[b] == open.remove(i)[b] && open.remove(i)[b] == open[b0]);
        }
    }
}

/// After a round in which a tight record other than the goal was closed,
/// the cell ahead of it is open and tight.
pub proof fn lemma_round_tight(
    grid: GridView,
    open: Seq<Node>,
    closed: Seq<Node>,
    i: int,
    after: Seq<Node>,
    origin: Node,
    goal: Node,
    depth: int,
)
    requires
        is_round(grid, Mode::Orthogonal, open, closed, i, after, goal),
        unobstructed(grid),
        open_layers(origin, goal, after, depth),
        closed_tight(origin, goal, closed, depth),
        between(origin, goal, open[i].x as int, open[i].y as int),
        layer(origin, open[i]) == depth,
        open[i].index != goal.index,
    ensures
        has_tight(origin, goal, after),
{
    reveal(is_round);
    reveal(open_layers);
    reveal(closed_tight);
    reveal(has_tight);
    let p = open[i];
    let x = p.x as int;
    let y = p.y as int;
    let gx = goal.x as int;
    let gy = goal.y as int;
    let closed_next = closed.push(p);
    assert(is_record(grid, goal, Mode::Orthogonal, p));
    lemma_record_position(grid, goal, Mode::Orthogonal, p);
    lemma_position_of_index(grid.width, grid.height, goal.index as int);
    lemma_index_of_position(grid.width, grid.height, gx, gy);
    assert(x != gx || y != gy);
    let (cx, cy) = ahead(x, y, gx, gy);
    assert(grid.in_bounds(cx, cy));
    assert(beside(Mode::Orthogonal, p, cx, cy));
    assert(between(origin, goal, cx, cy));
    if found(grid, closed_next, cx, cy) {
        assert(records(grid, goal, Mode::Orthogonal, closed_next)) by {
            assert forall|a: int| 0 <= a < closed_next.len() implies is_record(
                grid,
                goal,
                Mode::Orthogonal,
                #[trigger] closed_next[a],
            ) by {
                if a < closed.len() {
                    assert(closed_next[a] == closed[a]);
                }
            }
        }
        let q = lemma_found(grid, goal, Mode::Orthogonal, closed_next, cx, cy);
        if q < closed.len() {
            assert(closed_next[q] == closed[q]);
            assert(layer(origin, closed[q]) <= depth);
        }
        assert(false);
    }
    let a = lemma_found(grid, goal, Mode::Orthogonal, after, cx, cy);
    assert(between(origin, goal, after[a].x as int, after[a].y as int));
}

/// After a round the cells that were found are still found.
pub proof fn lemma_round_found(
    grid: GridView,
    open: Seq<Node>,
    closed: Seq<Node>,
    i: int,
    after: Seq<Node>,
    origin: Node,
    goal: Node,
    depth: int,
)
    requires
        is_round(grid, Mode::Orthogonal, open, closed, i, after, goal),
        layers_closed(grid, origin, goal, closed, depth),
        layer_found(grid, origin, goal, open, closed, depth),
    ensures
        layers_closed(grid, origin, goal, closed.push(open[i]), depth),
        layer_found(grid, origin, goal, after, closed.push(open[i]), depth),
{
    reveal(is_round);
    reveal(layers_closed);
    reveal(layer_found);
    let closed_next = closed.push(open[i]);
    assert forall|u: int, v: int|
        #[trigger] between(origin, goal, u, v) && manhattan(u, v, origin.x as int, origin.y as int)
            < depth implies found(grid, closed_next, u, v) by {
        assert(found(grid, closed, u, v));
        let j = choose|j: int| 0 <= j < closed.len() && (#[trigger] closed[j]).index == grid.index_of(u, v);
        assert(closed_next[j].index == grid.index_of(u, v));
    }
    assert forall|u: int, v: int|
        #[trigger] between(origin, goal, u, v) && manhattan(u, v, origin.x as int, origin.y as int)
            == depth implies found(grid, after, u, v) || found(grid, closed_next, u, v) by {
        lemma_found_stays(grid, open, closed, i, after, u, v);
    }
}

/// One round of an orthogonal search on an unobstructed grid, in which a
/// record of the current layer that is not the goal is closed, keeps the
/// invariant.
pub proof fn lemma_wave_step(
    grid: GridView,
    open: Seq<Node>,
    closed: Seq<Node>,
    start: int,
    origin: Node,
    goal: Node,
    depth: int,
)
    requires
        wave_inv(grid, open, closed, start, origin, goal, depth),
        open.len() > 0,
        layer(origin, open[first_min(open, open.len())]) == depth,
        open[first_min(open, open.len())].index != goal.index,
    ensures
        wave_inv(
            grid,
            expand(
                grid,
                open.remove(first_min(open, open.len())),
                closed.push(open[first_min(open, open.len())]),
                open[first_min(open, open.len())],
                goal,
                Mode::Orthogonal,
            ),
            closed.push(open[first_min(open, open.len())]),
            start,
            origin,
            goal,
            depth,
        ),
{
    let i = first_min(open, open.len());
    let p = open[i];
    let after = expand(grid, open.remove(i), closed.push(p), p, goal, Mode::Orthogonal);
    lemma_first_min(open, open.len());
    lemma_records(grid, open, closed, start, goal, Mode::Orthogonal);
    lemma_is_round(grid, open, closed, start, goal, Mode::Orthogonal, i);
    lemma_wave_selected(grid, open, origin, goal, depth);
    lemma_round_costs(grid, open, closed, i, after, origin, goal);
    lemma_round_closed(open, closed, i, origin, goal, depth);
    lemma_round_layers(grid, open, closed, i, after, origin, goal, depth);
    lemma_round_tight(grid, open, closed, i, after, origin, goal, depth);
    lemma_round_found(grid, open, closed, i, after, origin, goal, depth);
    lemma_round_expanded(grid, Mode::Orthogonal, open, closed, i, after, goal);
}

/// When no tight open record lies in layer `depth`, every cell of that layer
/// between start and goal is closed.
pub proof fn lemma_layer_closed(
    grid: GridView,
    open: Seq<Node>,
    closed: Seq<Node>,
    start: int,
    origin: Node,
    goal: Node,
    depth: int,
)
    requires
        grid.wf(),
        0 <= start < grid.size(),
        origin == grid.cell(start),
        grid.is_open(goal.index as int),
        goal.x == grid.cell(goal.index as int).x,
        goal.y == grid.cell(goal.index as int).y,
        records(grid, goal, Mode::Orthogonal, open),
        open_layers(origin, goal, open, depth),
        layers_closed(grid, origin, goal, closed, depth),
        layer_found(grid, origin, goal, open, closed, depth),
        forall|a: int|
            0 <= a < open.len() && tight(origin, goal, #[trigger] open[a]) ==> depth + 1 <= layer(
                origin,
                open[a],
            ),
    ensures
        layers_closed(grid, origin, goal, closed, depth + 1),
        open_layers(origin, goal, open, depth + 1),
{
    reveal(open_layers);
    reveal(layers_closed);
    reveal(layer_found);
    lemma_position_of_index(grid.width, grid.height, goal.index as int);
    lemma_position_of_index(grid.width, grid.height, start);
    let sx = origin.x as int;
    let sy = origin.y as int;
    assert forall|u: int, v: int|
        #[trigger] between(origin, goal, u, v) && manhattan(u, v, sx, sy) < depth + 1 implies found(
            grid,
            closed,
            u,
            v,
        ) by {
        if manhattan(u, v, sx, sy) == depth && !found(grid, closed, u, v) {
            assert(grid.in_bounds(u, v));
            assert(found(grid, open, u, v));
            let a = lemma_found(grid, goal, Mode::Orthogonal, open, u, v);
            assert(tight(origin, goal, open[a]));
            assert(false);
        }
    }
}

/// When every cell between start and goal in the layers up to `depth` is
/// closed, every such cell of the next layer is open or closed.
pub proof fn lemma_layer_found(
    grid: GridView,
    open: Seq<Node>,
    closed: Seq<Node>,
    start: int,
    origin: Node,
    goal: Node,
    depth: int,
)
    requires
        grid.wf(),
        0 <= depth,
        0 <= start < grid.size(),
        origin == grid.cell(start),
        grid.is_open(goal.index as int),
        goal.x == grid.cell(goal.index as int).x,
        goal.y == grid.cell(goal.index as int).y,
        unobstructed(grid),
        records(grid, goal, Mode::Orthogonal, closed),
        layers_closed(grid, origin, goal, closed, depth + 1),
        expanded(grid, Mode::Orthogonal, open, closed),
    ensures
        layer_found(grid, origin, goal, open, closed, depth + 1),
{
    reveal(layers_closed);
    reveal(layer_found);
    reveal(expanded);
    lemma_position_of_index(grid.width, grid.height, goal.index as int);
    lemma_position_of_index(grid.width, grid.height, start);
    let sx = origin.x as int;
    let sy = origin.y as int;
    assert forall|u: int, v: int|
        #[trigger] between(origin, goal, u, v) && manhattan(u, v, sx, sy) == depth + 1 implies found(
            grid,
            open,
            u,
            v,
        ) || found(grid, closed, u, v) by {
        let (qx, qy) = ahead(u, v, sx, sy);
        assert(grid.in_bounds(u, v));
        assert(between(origin, goal, qx, qy));
        assert(manhattan(qx, qy, sx, sy) == depth);
        assert(found(grid, closed, qx, qy));
        assert(grid.in_bounds(qx, qy));
        let j = lemma_found(grid, goal, Mode::Orthogonal, closed, qx, qy);
        assert(beside(Mode::Orthogonal, closed[j], u, v));
    }
}

/// Closed records that lie in layers up to `depth` lie in layers up to
/// `depth + 1`.
pub proof fn lemma_closed_deeper(origin: Node, goal: Node, closed: Seq<Node>, depth: int)
    requires
        closed_tight(origin, goal, closed, depth),
    ensures
        closed_tight(origin, goal, closed, depth + 1),
{
    reveal(closed_tight);
}

/// When the record selected lies in the layer after `depth`, that layer is
/// the current one: the invariant holds with `depth + 1`.
pub proof fn lemma_wave_advance(
    grid: GridView,
    open: Seq<Node>,
    closed: Seq<Node>,
    start: int,
    origin: Node,
    goal: Node,
    depth: int,
)
    requires
        wave_inv(grid, open, closed, start, origin, goal, depth),
        open.len() > 0,
        layer(origin, open[first_min(open, open.len())]) == depth + 1,
    ensures
        wave_inv(grid, open, closed, start, origin, goal, depth + 1),
{
    lemma_records(grid, open, closed, start, goal, Mode::Orthogonal);
    lemma_wave_selected(grid, open, origin, goal, depth);
    lemma_layer_closed(grid, open, closed, start, origin, goal, depth);
    lemma_layer_found(grid, open, closed, start, origin, goal, depth);
    lemma_closed_deeper(origin, goal, closed, depth);
}

/// Every step of an orthogonal walk costs ten.
pub proof fn lemma_orthogonal_cost(path: Seq<Node>)
    requires
        path.len() >= 1,
    ensures
        route_cost(path, Mode::Orthogonal) == 10 * (path.len() - 1),
    decreases path.len(),
{
    if path.len() >= 2 {
        lemma_orthogonal_cost(path.drop_last());
    }
}

/// The route of a goal that is closed as a tight record has as many steps
/// as the span.
pub proof fn lemma_goal_closed(
    grid: GridView,
    open: Seq<Node>,
    closed: Seq<Node>,
    start: int,
    origin: Node,
    goal: Node,
    i: int,
)
    requires
        search_inv(grid, open, closed, start, goal, Mode::Orthogonal),
        0 <= i < open.len(),
        open[i].index == goal.index,
        open[i].g == 10 * layer(origin, open[i]),
        between(origin, goal, open[i].x as int, open[i].y as int),
    ensures
        route(closed.push(open[i]), open[i]) is Some,
        route(closed.push(open[i]), open[i])->Some_0.len() == span(origin, goal) + 1,
        route(closed.push(open[i]), open[i])->Some_0.last().g == 10 * span(origin, goal),
{
    let mode = Mode::Orthogonal;
    let p = open[i];
    lemma_records(grid, open, closed, start, goal, mode);
    lemma_closed_route(grid, open, closed, start, goal, mode, i);
    let path = route(closed.push(p), p)->Some_0;
    lemma_route_cost(grid, path, start, goal, mode);
    lemma_orthogonal_cost(path);
    assert(is_record(grid, goal, mode, open[i]));
    assert(p.x == goal.x && p.y == goal.y);
}

/// From a state of an orthogonal search on an unobstructed grid, the search
/// returns a route with as many steps as the Manhattan distance between
/// start and goal.
pub proof fn lemma_wave_search(
    grid: GridView,
    open: Seq<Node>,
    closed: Seq<Node>,
    start: int,
    origin: Node,
    goal: Node,
    depth: int,
)
    requires
        wave_inv(grid, open, closed, start, origin, goal, depth),
    ensures
        search_from(grid, open, closed, goal, Mode::Orthogonal) is Ok,
        search_from(grid, open, closed, goal, Mode::Orthogonal)->Ok_0.len() == span(origin, goal) + 1,
        search_from(grid, open, closed, goal, Mode::Orthogonal)->Ok_0.last().g == 10 * span(
            origin,
            goal,
        ),
    decreases grid.size() - closed.len(),
{
    let mode = Mode::Orthogonal;
    lemma_records(grid, open, closed, start, goal, mode);
    lemma_wave_selected(grid, open, origin, goal, depth);
    lemma_frontier_bound(grid, open, closed, start, goal, mode);
    let i = first_min(open, open.len());
    let p = open[i];
    let closed_next = closed.push(p);
    let current = layer(origin, p);
    if current == depth + 1 {
        lemma_wave_advance(grid, open, closed, start, origin, goal, depth);
    }
    if p.index == goal.index {
        lemma_goal_closed(grid, open, closed, start, origin, goal, i);
    } else {
        lemma_wave_step(grid, open, closed, start, origin, goal, current);
        lemma_wave_search(
            grid,
            expand(grid, open.remove(i), closed_next, p, goal, mode),
            closed_next,
            start,
            origin,
            goal,
            current,
        );
    }
}

/// On a grid without blocked cells an orthogonal search returns a route
/// with as many steps as the Manhattan distance between start and goal.
pub proof fn lemma_orthogonal_length(grid: GridView, start: int, goal: int)
    requires
        grid.wf(),
        unobstructed(grid),
        0 <= start < grid.size(),
        0 <= goal < grid.size(),
    ensures
        search(grid, start, goal, Mode::Orthogonal) is Ok,
        search(grid, start, goal, Mode::Orthogonal)->Ok_0.len() - 1 == manhattan(
            grid.cell(start).x as int,
            grid.cell(start).y as int,
            grid.cell(goal).x as int,
            grid.cell(goal).y as int,
        ),
        search(grid, start, goal, Mode::Orthogonal)->Ok_0.last().g == 10 * manhattan(
            grid.cell(start).x as int,
            grid.cell(start).y as int,
            grid.cell(goal).x as int,
            grid.cell(goal).y as int,
        ),
{
    reveal(costs_ok);
    reveal(closed_tight);
    reveal(open_layers);
    reveal(open_sorted);
    reveal(has_tight);
    reveal(layers_closed);
    reveal(layer_found);
    reveal(expanded);
    let mode = Mode::Orthogonal;
    let origin = grid.cell(start);
    let target = grid.cell(goal);
    let first = start_record(grid, start, target, mode);
    let open = seq![first];
    let closed = Seq::<Node>::empty();
    lemma_search_begins(grid, start, goal, mode);
    lemma_records(grid, open, closed, start, target, mode);
    lemma_position_of_index(grid.width, grid.height, start);
    lemma_position_of_index(grid.width, grid.height, goal);
    assert(is_record(grid, target, mode, open[0]));
    assert(tight(origin, target, open[0]));
    assert forall|u: int, v: int|
        #[trigger] between(origin, target, u, v) && manhattan(u, v, origin.x as int, origin.y as int)
            == 0 implies found(grid, open, u, v) || found(grid, closed, u, v) by {
        assert(open[0].index == grid.index_of(u, v));
    }
    lemma_wave_search(grid, open, closed, start, origin, target, 0);
}

} // verus!
