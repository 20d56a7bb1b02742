//! Routes: the records met when following parent links back from a record,
//! and what makes a sequence of records a route.

use vstd::prelude::*;
use vstd::seq_lib::seq_to_set_is_finite;
use vstd::set_lib::lemma_len_subset;
use crate::cost::{adjacent, step_cost, Mode};
use crate::error::PathError;
use crate::grid::GridView;
use crate::node::Node;

verus! {

/// The last record in `closed` that carries `index`, if there is one.
pub open spec fn last_with_index(closed: Seq<Node>, index: int) -> Option<Node>
    decreases closed.len(),
{
    if closed.len() == 0 {
        None
    } else if closed.last().index == index {
        Some(closed.last())
    } else {
        last_with_index(closed.drop_last(), index)
    }
}

/// The records met when following parent links from `node` through `closed`
/// until a record without a parent, listed from that record to `node`.
///
/// `None` when a parent is not in `closed`, or when more than `budget` links
/// would have to be followed.
pub open spec fn parent_chain(closed: Seq<Node>, node: Node, budget: nat) -> Option<Seq<Node>>
    decreases budget,
{
    if node.parent_index == -1 {
        Some(seq![node])
    } else if budget == 0 {
        None
    } else {
        match last_with_index(closed, node.parent_index as int) {
            None => None,
            Some(parent) => match parent_chain(closed, parent, (budget - 1) as nat) {
                None => None,
                Some(chain) => Some(chain.push(node)),
            },
        }
    }
}

/// The route that ends in `node`: its parent chain, followed over at most as
/// many links as `closed` has records. A chain that needs more links passes
/// through some record twice and never ends ([`lemma_route_complete`]).
pub open spec fn route(closed: Seq<Node>, node: Node) -> Option<Seq<Node>> {
    parent_chain(closed, node, closed.len())
}

/// Whether `node` is the record of a traversable cell of `grid`, with its
/// estimate towards `goal` and its priority in place.
pub open spec fn is_record(grid: GridView, goal: Node, mode: Mode, node: Node) -> bool {
    &&& grid.is_open(node.index as int)
    &&& node.traversable
    &&& node.x == grid.cell(node.index as int).x
    &&& node.y == grid.cell(node.index as int).y
    &&& 0 <= node.g
    &&& node.h == node.estimate_to(goal, mode)
    &&& node.f == node.g + node.h
}

/// Whether `node` was reached from `parent` by one step under `mode`, and
/// carries the cost of that step.
pub open spec fn reached_from(mode: Mode, parent: Node, node: Node) -> bool {
    &&& node.parent_index == parent.index
    &&& adjacent(mode, parent.x as int, parent.y as int, node.x as int, node.y as int)
    &&& node.g == node.cost_through(parent, mode)
}

/// Whether `path` is a walk over traversable cells of `grid` that begins at
/// cell `start` with cost zero and in which every record was reached from
/// the one before it.
pub open spec fn is_walk(grid: GridView, path: Seq<Node>, start: int, goal: Node, mode: Mode) -> bool {
    &&& path.len() >= 1
    &&& path.first().index == start
    &&& path.first().parent_index == -1
    &&& path.first().g == 0
    &&& forall|i: int| 0 <= i < path.len() ==> is_record(grid, goal, mode, #[trigger] path[i])
    &&& forall|i: int| 1 <= i < path.len() ==> reached_from(mode, path[i - 1], #[trigger] path[i])
}

/// No two records of `nodes` carry the same index.
pub open spec fn distinct(nodes: Seq<Node>) -> bool {
    forall|i: int, j: int| 0 <= i < j < nodes.len() ==> nodes[i].index != nodes[j].index
}

/// Whether `path` is a walk from cell `start` that ends at the cell of
/// `goal` and passes through no cell twice.
pub open spec fn is_route(grid: GridView, path: Seq<Node>, start: int, goal: Node, mode: Mode) -> bool {
    &&& is_walk(grid, path, start, goal, mode)
    &&& path.last().index == goal.index
    &&& distinct(path)
}

/// The sum of the step costs along `path`.
pub open spec fn route_cost(path: Seq<Node>, mode: Mode) -> int
    decreases path.len(),
{
    if path.len() <= 1 {
        0
    } else {
        let from = path[path.len() - 2];
        let to = path.last();
        route_cost(path.drop_last(), mode) + step_cost(
            mode,
            from.x as int,
            from.y as int,
            to.x as int,
            to.y as int,
        )
    }
}

fn lookup(closed: &Vec<Node>, index: i32) -> (found: Option<Node>)
    ensures
        found == last_with_index(closed@, index as int),
{
    let mut found: Option<Node> = None;
    let mut k: usize = 0;
    while k < closed.len()
        invariant
            k <= closed.len(),
            found == last_with_index(closed@.take(k as int), index as int),
        decreases closed.len() - k,
    {
        assert(closed@.take(k + 1).drop_last() =~= closed@.take(k as int));
        if closed[k].index == index {
            found = Some(closed[k]);
        }
        k += 1;
    }
    assert(closed@.take(k as int) =~= closed@);
    found
}

fn reversed(nodes: &Vec<Node>) -> (out: Vec<Node>)
    ensures
        out@ == nodes@.reverse(),
{
    let mut out: Vec<Node> = Vec::new();
    let mut k: usize = nodes.len();
    while k > 0
        invariant
            k <= nodes.len(),
            out.len() == nodes.len() - k,
            forall|i: int| 0 <= i < out.len() ==> out[i] == nodes[nodes.len() - 1 - i],
        decreases k,
    {
        k -= 1;
        out.push(nodes[k]);
    }
    assert(out@ =~= nodes@.reverse());
    out
}

/// Rebuilds the route that ends in `node` by following parent links through
/// `closed_nodes`, and returns it ordered from its first cell to `node`. Of
/// several records with the index of a parent, the last in `closed_nodes` is
/// taken.
///
/// Fails with [`PathError::BrokenParentChain`] when a parent is missing from
/// `closed_nodes` or the links run in a circle: when the chain of parents
/// ends in no record without a parent, however far it is followed.
pub fn get_path(closed_nodes: Vec<Node>, node: Node) -> (r: Result<Vec<Node>, PathError>)
    ensures
        match route(closed_nodes@, node) {
            Some(chain) => r is Ok && r->Ok_0@ == chain,
            None => r is Err && r->Err_0 == PathError::BrokenParentChain,
        },
        r is Err <==> forall|links: nat| (#[trigger] parent_chain(closed_nodes@, node, links)) is None,
        r is Ok ==> r->Ok_0@.len() >= 1 && r->Ok_0@.last() == node && r->Ok_0@.first().parent_index
            == -1,
{
    proof {
        if route(closed_nodes@, node) is None {
            lemma_route_none(closed_nodes@, node);
        } else {
            lemma_chain_shape(closed_nodes@, node, closed_nodes@.len());
        }
    }
    let mut path: Vec<Node> = Vec::new();
    path.push(node);
    let mut current = node;
    let mut budget: usize = closed_nodes.len();
    while current.parent_index != -1
        invariant
            route(closed_nodes@, node) is None ==> forall|links: nat|
                (#[trigger] parent_chain(closed_nodes@, node, links)) is None,
            route(closed_nodes@, node) is Some ==> route(closed_nodes@, node)->Some_0.len() >= 1
                && route(closed_nodes@, node)->Some_0.last() == node && route(
                closed_nodes@,
                node,
            )->Some_0.first().parent_index == -1,
            budget <= closed_nodes.len(),
            path.len() >= 1,
            path@.last() == current,
            route(closed_nodes@, node) == match parent_chain(closed_nodes@, current, budget as nat) {
                None => None::<Seq<Node>>,
                Some(chain) => Some(chain + path@.drop_last().reverse()),
            },
        decreases budget,
    {
        if budget == 0 {
            return Err(PathError::BrokenParentChain);
        }
        match lookup(&closed_nodes, current.parent_index) {
            None => {
                return Err(PathError::BrokenParentChain);
            },
            Some(parent) => {
                proof {
                    let before = path@;
                    let after = path@.push(parent);
                    assert(after.drop_last() =~= before);
                    assert(before.reverse() =~= seq![current] + before.drop_last().reverse());
                    let rest = parent_chain(closed_nodes@, parent, (budget - 1) as nat);
                    if rest is Some {
                        let chain = rest->Some_0;
                        assert(chain.push(current) + before.drop_last().reverse() =~= chain
                            + before.reverse());
                    }
                }
                path.push(parent);
                current = parent;
                budget -= 1;
            },
        }
    }
    proof {
        assert(seq![current] + path@.drop_last().reverse() =~= path@.reverse());
    }
    Ok(reversed(&path))
}

/// The step costs along a walk add up to the cost that its last record
/// carries.
pub proof fn lemma_route_cost(grid: GridView, path: Seq<Node>, start: int, goal: Node, mode: Mode)
    requires
        is_walk(grid, path, start, goal, mode),
    ensures
        route_cost(path, mode) == path.last().g,
    decreases path.len(),
{
    if path.len() >= 2 {
        let shorter = path.drop_last();
        assert forall|i: int| 0 <= i < shorter.len() implies is_record(grid, goal, mode, #[trigger] shorter[i]) by {
            assert(shorter[i] == path[i]);
        }
        assert forall|i: int| 1 <= i < shorter.len() implies reached_from(
            mode,
            shorter[i - 1],
            #[trigger] shorter[i],
        ) by {
            assert(shorter[i] == path[i]);
            assert(shorter[i - 1] == path[i - 1]);
        }
        lemma_route_cost(grid, shorter, start, goal, mode);
        assert(reached_from(mode, path[path.len() - 2], path[path.len() - 1]));
    }
}

/// A record found under an index carries that index and is a member of the
/// sequence it was looked up in.
pub proof fn lemma_looked_up(closed: Seq<Node>, index: int)
    requires
        last_with_index(closed, index) is Some,
    ensures
        last_with_index(closed, index)->Some_0.index == index,
        closed.contains(last_with_index(closed, index)->Some_0),
    decreases closed.len(),
{
    if closed.last().index == index {
        assert(closed[closed.len() - 1] == closed.last());
    } else {
        lemma_looked_up(closed.drop_last(), index);
        let found = last_with_index(closed, index)->Some_0;
        let i = choose|i: int| 0 <= i < closed.drop_last().len() && closed.drop_last()[i] == found;
        assert(closed[i] == found);
    }
}

/// The shape of a parent chain: it ends in the record it was asked for,
/// begins with a record without a parent, each record but the last is the
/// parent that was looked up for the next, and every front part of it is the
/// chain of its own last record. It takes one link per record after the
/// first, whatever the budget.
pub proof fn lemma_chain_shape(closed: Seq<Node>, node: Node, budget: nat)
    requires
        parent_chain(closed, node, budget) is Some,
    ensures
        parent_chain(closed, node, budget)->Some_0.len() >= 1,
        parent_chain(closed, node, budget)->Some_0.len() - 1 <= budget,
        parent_chain(closed, node, budget)->Some_0.last() == node,
        parent_chain(closed, node, budget)->Some_0.first().parent_index == -1,
        forall|j: int|
            0 <= j < parent_chain(closed, node, budget)->Some_0.len() - 1 ==> last_with_index(
                closed,
                parent_chain(closed, node, budget)->Some_0[j + 1].parent_index as int,
            ) == Some(#[trigger] parent_chain(closed, node, budget)->Some_0[j]),
        forall|j: int|
            0 <= j < parent_chain(closed, node, budget)->Some_0.len() ==> #[trigger] parent_chain(
                closed,
                parent_chain(closed, node, budget)->Some_0[j],
                j as nat,
            ) == Some(parent_chain(closed, node, budget)->Some_0.take(j + 1)),
    decreases budget,
{
    let path = parent_chain(closed, node, budget)->Some_0;
    if node.parent_index == -1 {
        assert(path.take(1) =~= path);
    } else {
        let parent = last_with_index(closed, node.parent_index as int)->Some_0;
        lemma_chain_shape(closed, parent, (budget - 1) as nat);
        let rest = parent_chain(closed, parent, (budget - 1) as nat)->Some_0;
        assert(path == rest.push(node));
        assert forall|j: int| 0 <= j < path.len() - 1 implies last_with_index(
            closed,
            path[j + 1].parent_index as int,
        ) == Some(#[trigger] path[j]) by {
            if j < rest.len() - 1 {
                assert(path[j] == rest[j]);
                assert(path[j + 1] == rest[j + 1]);
            } else {
                assert(path[j] == rest.last());
            }
        }
        assert forall|j: int| 0 <= j < path.len() implies #[trigger] parent_chain(
            closed,
            path[j],
            j as nat,
        ) == Some(path.take(j + 1)) by {
            if j < rest.len() {
                assert(path[j] == rest[j]);
                assert(path.take(j + 1) =~= rest.take(j + 1));
            } else {
                assert(parent_chain(closed, rest[rest.len() - 1], (rest.len() - 1) as nat) == Some(
                    rest.take(rest.len() as int),
                ));
                assert(rest.take(rest.len() as int) =~= rest);
                assert(path.take(j + 1) =~= path);
            }
        }
    }
}

/// A chain that ends within some budget is the same under every larger
/// budget.
pub proof fn lemma_chain_budget(closed: Seq<Node>, node: Node, budget: nat, larger: nat)
    requires
        parent_chain(closed, node, budget) is Some,
        budget <= larger,
    ensures
        parent_chain(closed, node, larger) == parent_chain(closed, node, budget),
    decreases budget,
{
    if node.parent_index != -1 {
        let parent = last_with_index(closed, node.parent_index as int)->Some_0;
        lemma_chain_budget(closed, parent, (budget - 1) as nat, (larger - 1) as nat);
    }
}

/// A chain that ends has at most as many links as there are closed records:
/// no record is looked up twice.
pub proof fn lemma_chain_length(closed: Seq<Node>, node: Node, budget: nat)
    requires
        parent_chain(closed, node, budget) is Some,
    ensures
        parent_chain(closed, node, budget)->Some_0.len() - 1 <= closed.len(),
{
    let path = parent_chain(closed, node, budget)->Some_0;
    lemma_chain_shape(closed, node, budget);
    let links = (path.len() - 1) as nat;
    let seen = Seq::new(links, |j: int| path[j].index as int);
    let held = Seq::new(closed.len(), |j: int| closed[j].index as int);
    assert forall|a: int, c: int| 0 <= a < links && 0 <= c < links && a != c implies seen[a] != seen[c] by {
        if seen[a] == seen[c] {
            let (lo, hi) = if a < c {
                (a, c)
            } else {
                (c, a)
            };
            lemma_looked_up(closed, path[lo + 1].parent_index as int);
            lemma_looked_up(closed, path[hi + 1].parent_index as int);
            assert(last_with_index(closed, path[lo + 1].parent_index as int) == Some(path[lo]));
            assert(last_with_index(closed, path[hi + 1].parent_index as int) == Some(path[hi]));
            assert(path[lo] == path[hi]);
            assert(parent_chain(closed, path[lo], lo as nat) == Some(path.take(lo + 1)));
            assert(parent_chain(closed, path[hi], hi as nat) == Some(path.take(hi + 1)));
            lemma_chain_budget(closed, path[lo], lo as nat, hi as nat);
            assert(path.take(lo + 1).len() == path.take(hi + 1).len());
        }
    }
    seen.unique_seq_to_set();
    held.lemma_cardinality_of_set();
    seq_to_set_is_finite(held);
    assert(seen.to_set().subset_of(held.to_set())) by {
        assert forall|v: int| seen.to_set().contains(v) implies held.to_set().contains(v) by {
            let j = choose|j: int| 0 <= j < seen.len() && seen[j] == v;
            lemma_looked_up(closed, path[j + 1].parent_index as int);
            assert(last_with_index(closed, path[j + 1].parent_index as int) == Some(path[j]));
            let i = choose|i: int| 0 <= i < closed.len() && closed[i] == path[j];
            assert(held[i] == v);
        }
    }
    lemma_len_subset(seen.to_set(), held.to_set());
}

/// A parent chain that ends within any budget at all is the route:
/// [`route`] is `None` only where a parent is missing or the links run in a
/// circle.
pub proof fn lemma_route_complete(closed: Seq<Node>, node: Node, budget: nat)
    requires
        parent_chain(closed, node, budget) is Some,
    ensures
        route(closed, node) == parent_chain(closed, node, budget),
{
    let path = parent_chain(closed, node, budget)->Some_0;
    lemma_chain_shape(closed, node, budget);
    lemma_chain_length(closed, node, budget);
    let links = (path.len() - 1) as nat;
    assert(parent_chain(closed, path[path.len() - 1], links) == Some(path.take(path.len() as int)));
    assert(path.take(path.len() as int) =~= path);
    lemma_chain_budget(closed, node, links, closed.len());
}

/// Where there is no route, the parent chain ends within no budget.
pub proof fn lemma_route_none(closed: Seq<Node>, node: Node)
    requires
        route(closed, node) is None,
    ensures
        forall|links: nat| (#[trigger] parent_chain(closed, node, links)) is None,
{
    assert forall|links: nat| (#[trigger] parent_chain(closed, node, links)) is None by {
        if parent_chain(closed, node, links) is Some {
            lemma_route_complete(closed, node, links);
        }
    }
}

} // verus!
