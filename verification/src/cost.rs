//! The cost model: what a step costs and what the remaining way to the goal
//! is estimated at, for each movement model.

use vstd::prelude::*;

verus! {

/// Cost of one step along a row or a column.
pub const MOVE_COST: i32 = 10;

/// Cost of one diagonal step.
pub const DIAGONAL_COST: i32 = 14;

/// The movement model of a search.
#[derive(Clone, Copy, Debug, PartialEq, Eq, Structural)]
pub enum Mode {
    /// Steps along rows and columns only; every step costs [`MOVE_COST`].
    Orthogonal,
    /// Steps to any of the eight surrounding cells; a diagonal step costs
    /// [`DIAGONAL_COST`], any other [`MOVE_COST`].
    Diagonal,
}

/// `|a - b|`.
pub open spec fn distance(a: int, b: int) -> int {
    if a >= b {
        a - b
    } else {
        b - a
    }
}

/// Manhattan distance between `(x, y)` and `(gx, gy)`.
pub open spec fn manhattan(x: int, y: int, gx: int, gy: int) -> int {
    distance(x, gx) + distance(y, gy)
}

/// Chebyshev distance between `(x, y)` and `(gx, gy)`.
pub open spec fn chebyshev(x: int, y: int, gx: int, gy: int) -> int {
    if distance(x, gx) >= distance(y, gy) {
        distance(x, gx)
    } else {
        distance(y, gy)
    }
}

/// The estimate `h` of the remaining cost from `(x, y)` to `(gx, gy)`.
pub open spec fn heuristic(mode: Mode, x: int, y: int, gx: int, gy: int) -> int {
    match mode {
        Mode::Orthogonal => manhattan(x, y, gx, gy) * 10,
        Mode::Diagonal => chebyshev(x, y, gx, gy) * 14,
    }
}

/// The cost of stepping from `(px, py)` to `(x, y)`.
pub open spec fn step_cost(mode: Mode, px: int, py: int, x: int, y: int) -> int {
    match mode {
        Mode::Orthogonal => 10,
        Mode::Diagonal => if px != x && py != y {
            14
        } else {
            10
        },
    }
}

/// Whether one step under `mode` leads from `(ax, ay)` to `(bx, by)`.
pub open spec fn adjacent(mode: Mode, ax: int, ay: int, bx: int, by: int) -> bool {
    match mode {
        Mode::Orthogonal => manhattan(ax, ay, bx, by) == 1,
        Mode::Diagonal => chebyshev(ax, ay, bx, by) == 1,
    }
}

/// The least that any way between two positions costs when none of the cells
/// between them is blocked: ten for every step, and four more for every step
/// that has to be diagonal.
pub open spec fn least_cost(mode: Mode, x: int, y: int, gx: int, gy: int) -> int {
    let dx = distance(x, gx);
    let dy = distance(y, gy);
    match mode {
        Mode::Orthogonal => 10 * (dx + dy),
        Mode::Diagonal => if dx >= dy {
            10 * dx + 4 * dy
        } else {
            10 * dy + 4 * dx
        },
    }
}

impl Mode {
    /// Computes [`heuristic`]. The result is returned as `i64`, which holds
    /// it for every pair of `i32` positions.
    pub fn estimate(self, x: i32, y: i32, gx: i32, gy: i32) -> (h: i64)
        ensures
            h == heuristic(self, x as int, y as int, gx as int, gy as int),
            0 <= h,
    {
        let dx: i64 = if x >= gx {
            x as i64 - gx as i64
        } else {
            gx as i64 - x as i64
        };
        let dy: i64 = if y >= gy {
            y as i64 - gy as i64
        } else {
            gy as i64 - y as i64
        };
        match self {
            Mode::Orthogonal => (dx + dy) * 10,
            Mode::Diagonal => if dx >= dy {
                dx * 14
            } else {
                dy * 14
            },
        }
    }

    /// Computes [`step_cost`].
    pub fn step(self, px: i32, py: i32, x: i32, y: i32) -> (c: i32)
        ensures
            c == step_cost(self, px as int, py as int, x as int, y as int),
            c == MOVE_COST || c == DIAGONAL_COST,
    {
        match self {
            Mode::Orthogonal => MOVE_COST,
            Mode::Diagonal => if px != x && py != y {
                DIAGONAL_COST
            } else {
                MOVE_COST
            },
        }
    }
}

} // verus!
