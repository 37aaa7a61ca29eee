//! The entries of the index arena: board cells and aggregation nodes.

use vstd::prelude::*;
use crate::coords::Coordinates;

verus! {

/// The center child of a node: either a real member of the level below that
/// sits exactly on the node's center coordinate, or a synthesized anchor
/// when no member exists there (which happens at board edges whenever the
/// board is not an exact multiple of the block size).
///
/// A virtual anchor only keeps the aggregation geometry consistent; queries
/// never report it as a neighbor.
#[derive(Clone, Copy, Debug, PartialEq, Eq, Structural)]
pub enum Anchor {
    /// Arena index of the real center child: a leaf for level-1 nodes, a
    /// node of the level below otherwise.
    Occupied(usize),
    /// No real child coincides with the computed center.
    Virtual,
}

/// One board cell.
#[derive(Clone, Copy, Debug, PartialEq, Eq, Structural)]
pub struct Leaf {
    pub coords: Coordinates,
    /// Arena index of the level-1 node whose block contains this cell, or
    /// `None` on a single-cell board, where no nodes exist at all.
    pub parent: Option<usize>,
}

/// An aggregation node: level `level >= 1`, anchored at the center of a
/// block of `3^level x 3^level` cells, holding up to nine children of the
/// level below (the center child in `anchor`, its eight Moore neighbors at
/// the sub-block scale in `ring`).
pub struct Node {
    pub level: u32,
    /// Center coordinate of the node's block.
    pub cx: u32,
    pub cy: u32,
    /// Distance from the center to the block edge, per axis: `(3^level - 1) / 2`.
    pub half_span: u32,
    /// The center child or a virtual stand-in.
    pub anchor: Anchor,
    /// Ring slot `k` holds the child whose block center is one sub-block
    /// step from this node's center, in the canonical slot order
    /// (`slot_delta(k + 1)`), or `None` where the board ends first.
    pub ring: Vec<Option<usize>>,
    /// The unique node of the next level whose block contains this one;
    /// `None` exactly for the root.
    pub parent: Option<usize>,
}

impl Node {
    /// Whether this node is a synthesized anchor only: no real member of the
    /// level below sits on its center coordinate.
    pub fn is_virtual(&self) -> (r: bool)
        ensures
            r == (self.anchor is Virtual),
    {
        matches!(self.anchor, Anchor::Virtual)
    }
}

} // verus!
