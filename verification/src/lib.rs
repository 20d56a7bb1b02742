//! Grid-based shortest-path search.
//!
//! A [`Grid`] is a dense, row-major field of cells, each either traversable or
//! blocked. [`find_path`] runs a best-first search with priority `f = g + h`
//! from a start cell to a goal cell under one of two movement models
//! ([`Mode`]) and returns the route as an ordered sequence of cell records, or
//! an empty sequence when the goal cannot be reached.
//!
//! Every executable function carries a contract that Verus proves. What a
//! search returns is defined by the spec functions of [`search`]; [`laws`]
//! states what follows from that definition for every grid. The modules
//! [`frontier`], [`round`], [`wave`] and [`descent`] hold the invariants and
//! lemmas behind those proofs.

pub mod cost;
pub mod error;
pub mod node;
pub mod grid;
pub mod path;
pub mod search;
pub mod laws;
pub mod frontier;
pub mod round;
pub mod reach;
pub mod wave;
pub mod descent;

pub use cost::{Mode, DIAGONAL_COST, MOVE_COST};
pub use error::PathError;
pub use grid::{Grid, GridView, MAX_CELLS};
pub use node::Node;
pub use path::get_path;
pub use search::{a_star, find_path};
