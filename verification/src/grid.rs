//! The grid: its mathematical content, the executable type that stores it,
//! and the neighbours of a position.

use vstd::prelude::*;
use vstd::arithmetic::div_mod::{lemma_fundamental_div_mod, lemma_fundamental_div_mod_converse};
use crate::cost::{adjacent, Mode};
use crate::error::PathError;
use crate::node::Node;

verus! {

/// The largest number of cells a grid may hold.
///
/// A route visits no cell twice and no step costs more than 14, so with at
/// most this many cells every `g`, `h` and `f` of a search fits in `i32`.
pub const MAX_CELLS: i32 = 76_695_844;

/// The mathematical content of a grid: its extent and the set of blocked
/// row-major indices.
pub struct GridView {
    pub width: int,
    pub height: int,
    pub blocked: Set<int>,
}

/// The `k`-th direction in which neighbours are visited: left, right, up,
/// down, then the four diagonals row by row.
pub open spec fn offset(k: int) -> (int, int) {
    if k == 0 {
        (-1, 0)
    } else if k == 1 {
        (1, 0)
    } else if k == 2 {
        (0, -1)
    } else if k == 3 {
        (0, 1)
    } else if k == 4 {
        (-1, -1)
    } else if k == 5 {
        (1, -1)
    } else if k == 6 {
        (-1, 1)
    } else {
        (1, 1)
    }
}

/// How many of the directions of [`offset`] a movement model uses.
pub open spec fn directions(mode: Mode) -> nat {
    match mode {
        Mode::Orthogonal => 4,
        Mode::Diagonal => 8,
    }
}

/// The in-range members of a wall list, as a set.
pub open spec fn blocked_cells(walls: Seq<i32>, size: int) -> Set<int> {
    Set::new(|i: int| 0 <= i < size && walls.contains(i as i32))
}

impl GridView {
    /// Number of cells.
    pub open spec fn size(self) -> int {
        self.width * self.height
    }

    /// A positive extent of at most [`MAX_CELLS`] cells, and no blocked
    /// index that names no cell.
    pub open spec fn wf(self) -> bool {
        &&& 0 < self.width
        &&& 0 < self.height
        &&& self.size() <= MAX_CELLS
        &&& forall|i: int| self.blocked.contains(i) ==> 0 <= i < self.size()
    }

    /// Whether `(x, y)` lies on the grid.
    pub open spec fn in_bounds(self, x: int, y: int) -> bool {
        0 <= x < self.width && 0 <= y < self.height
    }

    /// Row-major index of `(x, y)`.
    pub open spec fn index_of(self, x: int, y: int) -> int {
        y * self.width + x
    }

    /// The record of cell `i` as the grid holds it: no parent, zero costs.
    pub open spec fn cell(self, i: int) -> Node {
        Node {
            index: i as i32,
            parent_index: -1i32,
            traversable: !self.blocked.contains(i),
            x: (i % self.width) as i32,
            y: (i / self.width) as i32,
            g: 0i32,
            h: 0i32,
            f: 0i32,
        }
    }

    /// All cell records in row-major order.
    pub open spec fn cells(self) -> Seq<Node> {
        Seq::new(self.size() as nat, |i: int| self.cell(i))
    }

    /// Whether `i` names a cell that may be entered.
    pub open spec fn is_open(self, i: int) -> bool {
        0 <= i < self.size() && !self.blocked.contains(i)
    }

    /// Whether `(x, y)` is a cell that may be entered.
    pub open spec fn is_open_at(self, x: int, y: int) -> bool {
        self.in_bounds(x, y) && !self.blocked.contains(self.index_of(x, y))
    }

    /// The traversable cells found around `(x, y)` in the first `k`
    /// directions, in the order of [`offset`].
    pub open spec fn neighbours_among(self, x: int, y: int, k: nat) -> Seq<Node>
        decreases k,
    {
        if k == 0 {
            Seq::empty()
        } else {
            let before = self.neighbours_among(x, y, (k - 1) as nat);
            let (dx, dy) = offset(k - 1);
            if self.is_open_at(x + dx, y + dy) {
                before.push(self.cell(self.index_of(x + dx, y + dy)))
            } else {
                before
            }
        }
    }

    /// The traversable cells adjacent to `(x, y)` under `mode`. Positions off
    /// the grid and blocked cells are left out.
    pub open spec fn neighbours(self, x: int, y: int, mode: Mode) -> Seq<Node> {
        self.neighbours_among(x, y, directions(mode))
    }
}

/// On a grid of width `w` and height `h`, the position `(x, y)` and the
/// index `y * w + x` determine each other.
pub proof fn lemma_index_of_position(w: int, h: int, x: int, y: int)
    requires
        0 <= x < w,
        0 <= y < h,
    ensures
        0 <= y * w + x < w * h,
        (y * w + x) % w == x,
        (y * w + x) / w == y,
{
    assert(0 <= y * w && (y + 1) * w <= h * w && (y + 1) * w == y * w + w && h * w == w * h)
        by (nonlinear_arith)
        requires
            0 <= y < h,
            0 < w,
    ;
    lemma_fundamental_div_mod_converse(y * w + x, w, y, x);
}

/// Every index below `w * h` has a position on the grid.
pub proof fn lemma_position_of_index(w: int, h: int, i: int)
    requires
        0 < w,
        0 <= i < w * h,
    ensures
        0 <= i % w < w,
        0 <= i / w < h,
        (i / w) * w + i % w == i,
{
    lemma_fundamental_div_mod(i, w);
    let q = i / w;
    assert(0 <= q < h) by (nonlinear_arith)
        requires
            0 < w,
            0 <= i < w * h,
            i == w * q + i % w,
            0 <= i % w < w,
    ;
    assert(q * w == w * q) by (nonlinear_arith);
}

/// A rectangular field of cells, stored row by row.
pub struct Grid {
    width: i32,
    height: i32,
    nodes: Vec<Node>,
}

impl View for Grid {
    type V = GridView;

    closed spec fn view(&self) -> GridView {
        GridView {
            width: self.width as int,
            height: self.height as int,
            blocked: Set::new(|i: int| 0 <= i < self.nodes.len() && !self.nodes[i].traversable),
        }
    }
}

fn listed(walls: &Vec<i32>, index: i32) -> (found: bool)
    ensures
        found == walls@.contains(index),
{
    let mut k: usize = 0;
    while k < walls.len()
        invariant
            k <= walls.len(),
            forall|j: int| 0 <= j < k ==> walls[j] != index,
        decreases walls.len() - k,
    {
        if walls[k] == index {
            return true;
        }
        k += 1;
    }
    false
}

fn direction(k: usize) -> (d: (i64, i64))
    requires
        k < 8,
    ensures
        (d.0 as int, d.1 as int) == offset(k as int),
{
    match k {
        0 => (-1, 0),
        1 => (1, 0),
        2 => (0, -1),
        3 => (0, 1),
        4 => (-1, -1),
        5 => (1, -1),
        6 => (-1, 1),
        _ => (1, 1),
    }
}

impl Grid {
    /// The stored records are exactly the cells of the view.
    pub closed spec fn cells_stored(&self) -> bool {
        self.nodes@ == self@.cells()
    }

    /// The grid's invariant: a positive extent of at most [`MAX_CELLS`]
    /// cells, each stored at its row-major index with no parent and zero
    /// costs.
    pub open spec fn wf(&self) -> bool {
        self@.wf() && self.cells_stored()
    }

    /// Builds a `width` by `height` grid in which exactly the cells whose
    /// index occurs in `walls` are blocked. Entries of `walls` that name no
    /// cell are ignored.
    ///
    /// Fails with [`PathError::InvalidDimensions`] when `width` or `height`
    /// is not positive. A grid may hold at most [`MAX_CELLS`] cells.
    pub fn new(width: i32, height: i32, walls: Vec<i32>) -> (r: Result<Grid, PathError>)
        requires
            0 < width && 0 < height ==> width * height <= MAX_CELLS,
        ensures
            width <= 0 || height <= 0 ==> r is Err && r->Err_0 == PathError::InvalidDimensions,
            0 < width && 0 < height ==> r is Ok && r->Ok_0.wf() && r->Ok_0@ == (GridView {
                width: width as int,
                height: height as int,
                blocked: blocked_cells(walls@, width * height),
            }),
    {
        if width <= 0 || height <= 0 {
            return Err(PathError::InvalidDimensions);
        }
        let ghost target = GridView {
            width: width as int,
            height: height as int,
            blocked: blocked_cells(walls@, width * height),
        };
        let mut nodes: Vec<Node> = Vec::new();
        let mut index: i32 = 0;
        let mut y: i32 = 0;
        while y < height
            invariant
                0 < width,
                0 < height,
                width * height <= MAX_CELLS,
                0 <= y <= height,
                index == y * width,
                nodes.len() == index,
                target.width == width,
                target.height == height,
                target.blocked == blocked_cells(walls@, width * height),
                forall|i: int| 0 <= i < index ==> nodes[i] == target.cell(i),
            decreases height - y,
        {
            let mut x: i32 = 0;
            while x < width
                invariant
                    0 < width,
                    width * height <= MAX_CELLS,
                    0 <= y < height,
                    0 <= x <= width,
                    index == y * width + x,
                    nodes.len() == index,
                    target.width == width,
                    target.height == height,
                    target.blocked == blocked_cells(walls@, width * height),
                    forall|i: int| 0 <= i < index ==> nodes[i] == target.cell(i),
                decreases width - x,
            {
                proof {
                    lemma_index_of_position(width as int, height as int, x as int, y as int);
                }
                let mut node = Node::new(index, x, y);
                if listed(&walls, index) {
                    node.traversable = false;
                }
                assert(node == target.cell(index as int));
                nodes.push(node);
                index += 1;
                x += 1;
            }
            assert((y + 1) * width == y * width + width) by (nonlinear_arith);
            y += 1;
        }
        let grid = Grid { width, height, nodes };
        proof {
            assert(height * width == width * height) by (nonlinear_arith);
            assert forall|i: int| grid@.blocked.contains(i) == target.blocked.contains(i) by {
                if 0 <= i < index {
                    assert(grid.nodes[i] == target.cell(i));
                }
            }
            assert(grid@.blocked =~= target.blocked);
            assert(grid@ == target);
            assert(grid.nodes@ =~= target.cells());
        }
        Ok(grid)
    }

    /// A copy of every cell record, in row-major order.
    pub fn get_nodes(&self) -> (nodes: Vec<Node>)
        requires
            self.wf(),
        ensures
            nodes@ == self@.cells(),
    {
        let mut nodes: Vec<Node> = Vec::new();
        let mut k: usize = 0;
        while k < self.nodes.len()
            invariant
                k <= self.nodes.len(),
                nodes@ == self.nodes@.take(k as int),
            decreases self.nodes.len() - k,
        {
            nodes.push(self.nodes[k]);
            assert(self.nodes@.take(k + 1) =~= self.nodes@.take(k as int).push(self.nodes[k as int]));
            k += 1;
        }
        assert(self.nodes@.take(k as int) =~= self.nodes@);
        nodes
    }

    /// The record of cell `index`, or `None` when the grid has no such cell.
    pub fn get_node(&self, index: i32) -> (node: Option<Node>)
        requires
            self.wf(),
        ensures
            node == if 0 <= index < self@.size() {
                Some(self@.cell(index as int))
            } else {
                None
            },
    {
        if 0 <= index && (index as usize) < self.nodes.len() {
            Some(self.nodes[index as usize])
        } else {
            None
        }
    }

    /// The number of columns.
    pub fn get_width(&self) -> (width: i32)
        ensures
            width == self@.width,
    {
        self.width
    }

    /// The number of rows.
    pub fn get_height(&self) -> (height: i32)
        ensures
            height == self@.height,
    {
        self.height
    }

    /// The traversable cells adjacent to `node`'s position under `mode`, as
    /// the grid holds them. A position off the grid has the neighbours that
    /// lie on it.
    pub fn get_neighbours(&self, node: Node, mode: Mode) -> (neighbours: Vec<Node>)
        requires
            self.wf(),
        ensures
            neighbours@ == self@.neighbours(node.x as int, node.y as int, mode),
    {
        let count: usize = match mode {
            Mode::Orthogonal => 4,
            Mode::Diagonal => 8,
        };
        let mut neighbours: Vec<Node> = Vec::new();
        let mut k: usize = 0;
        while k < count
            invariant
                self.wf(),
                count == directions(mode),
                k <= count,
                neighbours@ == self@.neighbours_among(node.x as int, node.y as int, k as nat),
            decreases count - k,
        {
            let d = direction(k);
            let nx: i64 = node.x as i64 + d.0;
            let ny: i64 = node.y as i64 + d.1;
            if 0 <= nx && nx < self.width as i64 && 0 <= ny && ny < self.height as i64 {
                proof {
                    lemma_index_of_position(self.width as int, self.height as int, nx as int, ny as int);
                }
                let index: i64 = ny * self.width as i64 + nx;
                let cell = self.nodes[index as usize];
                if cell.traversable {
                    neighbours.push(cell);
                }
            }
            k += 1;
        }
        neighbours
    }
}

/// No cell of the grid is blocked.
pub open spec fn unobstructed(grid: GridView) -> bool {
    forall|i: int| !grid.blocked.contains(i)
}

/// What holds of every cell that [`GridView::neighbours`] lists around
/// `(x, y)`.
pub open spec fn neighbour_of(grid: GridView, x: int, y: int, mode: Mode, cell: Node) -> bool {
    &&& grid.is_open(cell.index as int)
    &&& cell == grid.cell(cell.index as int)
    &&& grid.in_bounds(cell.x as int, cell.y as int)
    &&& adjacent(mode, x, y, cell.x as int, cell.y as int)
}

/// Every listed neighbour is a traversable cell of the grid one step away.
pub proof fn lemma_neighbours_sound(grid: GridView, x: int, y: int, mode: Mode, k: nat)
    requires
        grid.wf(),
        k <= directions(mode),
    ensures
        grid.neighbours_among(x, y, k).len() <= k,
        forall|j: int|
            0 <= j < grid.neighbours_among(x, y, k).len() ==> neighbour_of(
                grid,
                x,
                y,
                mode,
                #[trigger] grid.neighbours_among(x, y, k)[j],
            ),
    decreases k,
{
    if k > 0 {
        lemma_neighbours_sound(grid, x, y, mode, (k - 1) as nat);
        let (dx, dy) = offset(k - 1);
        if grid.is_open_at(x + dx, y + dy) {
            lemma_index_of_position(grid.width, grid.height, x + dx, y + dy);
        }
    }
}

/// Two cells one step apart differ by one of the directions of the movement
/// model.
pub proof fn lemma_adjacent_offset(mode: Mode, ax: int, ay: int, bx: int, by: int) -> (k: int)
    requires
        adjacent(mode, ax, ay, bx, by),
    ensures
        0 <= k < directions(mode),
        offset(k) == (bx - ax, by - ay),
{
    let dx = bx - ax;
    let dy = by - ay;
    if dy == 0 {
        if dx == -1 {
            0
        } else {
            1
        }
    } else if dx == 0 {
        if dy == -1 {
            2
        } else {
            3
        }
    } else if dy == -1 {
        if dx == -1 {
            4
        } else {
            5
        }
    } else {
        if dx == -1 {
            6
        } else {
            7
        }
    }
}

/// A traversable cell in one of the directions looked at is among the
/// neighbours listed.
pub proof fn lemma_neighbours_complete(grid: GridView, x: int, y: int, k: int, total: nat)
    requires
        0 <= k < total,
        grid.is_open_at(x + offset(k).0, y + offset(k).1),
    ensures
        grid.neighbours_among(x, y, total).contains(
            grid.cell(grid.index_of(x + offset(k).0, y + offset(k).1)),
        ),
    decreases total,
{
    let cell = grid.cell(grid.index_of(x + offset(k).0, y + offset(k).1));
    let before = grid.neighbours_among(x, y, (total - 1) as nat);
    if k == total - 1 {
        assert(before.push(cell).last() == cell);
    } else {
        lemma_neighbours_complete(grid, x, y, k, (total - 1) as nat);
        let i = choose|i: int| 0 <= i < before.len() && before[i] == cell;
        let (dx, dy) = offset(total - 1);
        if grid.is_open_at(x + dx, y + dy) {
            let last = grid.cell(grid.index_of(x + dx, y + dy));
            assert(before.push(last)[i] == cell);
        }
    }
}

/// A sequence of positions on traversable cells, each one step from the one
/// before it.
pub open spec fn is_trail(grid: GridView, mode: Mode, trail: Seq<(int, int)>) -> bool {
    &&& trail.len() >= 1
    &&& forall|i: int| 0 <= i < trail.len() ==> grid.is_open_at((#[trigger] trail[i]).0, trail[i].1)
    &&& forall|i: int|
        1 <= i < trail.len() ==> adjacent(
            mode,
            trail[i - 1].0,
            trail[i - 1].1,
            (#[trigger] trail[i]).0,
            trail[i].1,
        )
}

/// Whether `trail` leads from the position of cell `start` to the position
/// of cell `goal`.
pub open spec fn connects(grid: GridView, mode: Mode, trail: Seq<(int, int)>, start: int, goal: int) -> bool {
    &&& is_trail(grid, mode, trail)
    &&& trail.first() == (grid.cell(start).x as int, grid.cell(start).y as int)
    &&& trail.last() == (grid.cell(goal).x as int, grid.cell(goal).y as int)
}

/// Whether cell `goal` can be reached from cell `start` by steps of the
/// movement model over traversable cells.
pub open spec fn reachable(grid: GridView, mode: Mode, start: int, goal: int) -> bool {
    exists|trail: Seq<(int, int)>| connects(grid, mode, trail, start, goal)
}

} // verus!
