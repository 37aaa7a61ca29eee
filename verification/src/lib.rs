//! A hierarchical neighbor index for rectangular grids.
//!
//! The crate answers Moore-neighborhood queries ("which of the up to eight
//! orthogonally or diagonally adjacent cells exist?") over a `width x height`
//! board. Two interchangeable indexes are provided:
//!
//! * [`GridIndex`]: a tree of aggregation nodes built bottom-up over the
//!   cells, three cells per axis and per level, queried by walking the tree
//!   up and down in `O(log max(width, height))` steps.
//! * [`FlatIndex`]: a direct dictionary from packed coordinates to leaf
//!   handles, used for small boards and as the correctness oracle.
//!
//! Both queries are proved to return exactly the set of in-bounds Moore
//! neighbors of the queried cell.

pub mod arith;
pub mod builder;
pub mod coords;
pub mod flat;
pub mod index;
pub mod markers;
pub mod node;
pub mod oracle;
pub mod query;
pub mod storage;

pub use coords::Coordinates;
pub use flat::FlatIndex;
pub use index::{BuildError, GridIndex};
pub use markers::{EndMessage, MenuButtonAction, MenuUIRoot};
pub use node::{Anchor, Leaf, Node};
pub use storage::NeighborList;
