//! Cell records.

use vstd::prelude::*;
use crate::cost::{heuristic, step_cost, Mode};

verus! {

/// A cell record: the cell's fixed identity together with the state that a
/// search attaches to it.
///
/// `index`, `x`, `y` and `traversable` are fixed when the grid is built.
/// `parent_index`, `g`, `h` and `f` belong to one search run; a cell taken
/// from a grid carries `parent_index == -1` and zero costs.
///
/// `==` on records compares `index` alone: two records of the same cell are
/// the same cell whatever costs they carry.
#[derive(Clone, Copy, Debug)]
pub struct Node {
    /// Row-major position `y * width + x`.
    pub index: i32,
    /// Index of the cell this one was reached from, `-1` for none.
    pub parent_index: i32,
    /// Whether the cell may be entered.
    pub traversable: bool,
    pub x: i32,
    pub y: i32,
    /// Accumulated cost from the start.
    pub g: i32,
    /// Estimated remaining cost to the goal.
    pub h: i32,
    /// Priority, `g + h`.
    pub f: i32,
}

impl PartialEq for Node {
    fn eq(&self, other: &Self) -> (r: bool) {
        self.index == other.index
    }
}

impl vstd::std_specs::cmp::PartialEqSpecImpl for Node {
    open spec fn obeys_eq_spec() -> bool {
        true
    }

    open spec fn eq_spec(&self, other: &Self) -> bool {
        self.index == other.index
    }
}

impl Node {
    /// The estimate that [`Node::set_h`] stores for this cell.
    pub open spec fn estimate_to(self, goal: Node, mode: Mode) -> int {
        heuristic(mode, self.x as int, self.y as int, goal.x as int, goal.y as int)
    }

    /// The accumulated cost that [`Node::set_g_f`] stores for this cell.
    pub open spec fn cost_through(self, parent: Node, mode: Mode) -> int {
        parent.g + step_cost(mode, parent.x as int, parent.y as int, self.x as int, self.y as int)
    }

    /// A traversable cell at `(x, y)` with no parent and zero costs.
    pub fn new(index: i32, x: i32, y: i32) -> (node: Node)
        ensures
            node == (Node {
                index,
                parent_index: -1i32,
                traversable: true,
                x,
                y,
                g: 0,
                h: 0,
                f: 0,
            }),
    {
        Node { index, parent_index: -1, traversable: true, x, y, g: 0, h: 0, f: 0 }
    }

    /// Stores the estimate towards `goal` in `h` and brings `f` up to date.
    /// A blocked cell is left as it is. The estimate and the new `f` have to
    /// fit the fields.
    pub fn set_h(&mut self, goal: Node, mode: Mode)
        requires
            old(self).traversable ==> old(self).estimate_to(goal, mode) <= i32::MAX,
            old(self).traversable ==> old(self).g + old(self).estimate_to(goal, mode) <= i32::MAX,
        ensures
            !old(self).traversable ==> *final(self) == *old(self),
            old(self).traversable ==> *final(self) == (Node {
                h: old(self).estimate_to(goal, mode) as i32,
                f: (old(self).g + old(self).estimate_to(goal, mode)) as i32,
                ..*old(self)
            }),
    {
        if !self.traversable {
            return ;
        }
        let h: i64 = mode.estimate(self.x, self.y, goal.x, goal.y);
        self.h = h as i32;
        self.f = (self.g as i64 + h) as i32;
    }

    /// Stores the cost of reaching this cell through `parent` in `g` and
    /// brings `f` up to date. The new `g` and `f` have to fit the fields.
    pub fn set_g_f(&mut self, parent: Node, mode: Mode)
        requires
            i32::MIN <= old(self).cost_through(parent, mode) <= i32::MAX,
            i32::MIN <= old(self).cost_through(parent, mode) + old(self).h <= i32::MAX,
        ensures
            *final(self) == (Node {
                g: old(self).cost_through(parent, mode) as i32,
                f: (old(self).cost_through(parent, mode) + old(self).h) as i32,
                ..*old(self)
            }),
    {
        self.g = parent.g + mode.step(parent.x, parent.y, self.x, self.y);
        self.f = self.g + self.h;
    }
}

} // verus!
