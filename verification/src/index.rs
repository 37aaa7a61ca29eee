//! The hierarchical grid index: arena layout and well-formedness.
//!
//! All entries live in two arenas: one `Leaf` per board cell (row-major, so
//! the cell `(x, y)` is leaf `y * width + x`), and one `Node` per block of
//! every aggregation level, level 1 first, row-major within a level. Both
//! `parent` and the child slots store plain arena indices, so the whole
//! structure of a well-formed index is a function of the board size alone.

use vstd::prelude::*;
use crate::arith::{
    block_in_grid, center, grid_dim, half3, level_base, levels, node_id, total_nodes,
    lemma_grid_dim_pos, lemma_level_base_mono, lemma_node_id_decode,
};
use vstd::set_lib::set_int_range;
use crate::coords::{in_bounds, leaf_id, slot_delta, Coordinates};
use crate::node::{Anchor, Leaf, Node};

verus! {

/// Construction rejects a board without cells.
#[derive(Clone, Copy, Debug, PartialEq, Eq, Structural)]
pub enum BuildError {
    /// The board has zero width or zero height.
    ZeroDimension,
}

/// The x block index of ring slot `s` (1 to 8) of a level-`l` node at block
/// `bx`, in the grid one level below: the center child sits at `3 bx + 1`,
/// the ring around it.
pub open spec fn slot_block_x(bx: int, s: int) -> int {
    3 * bx + 1 + slot_delta(s).0
}

/// The y block index of ring slot `s`, one level below.
pub open spec fn slot_block_y(by: int, s: int) -> int {
    3 * by + 1 + slot_delta(s).1
}

/// Arena index of the member `(bx, by)` of the level-`l` grid: a leaf handle
/// at level 0, a node index otherwise.
pub open spec fn child_id_at(w: int, h: int, l: nat, bx: int, by: int) -> int {
    if l == 0 {
        leaf_id(w, bx, by)
    } else {
        node_id(w, h, l, bx, by)
    }
}

/// Does the level-`l` grid of a `w x h` board have a member `(bx, by)`?
pub open spec fn block_in_grid2(w: int, h: int, l: nat, bx: int, by: int) -> bool {
    block_in_grid(w, l, bx) && block_in_grid(h, l, by)
}

/// The parent pointer every level-`l` member must carry: the node of the
/// level above whose block contains it, absent only at the top level `t`.
pub open spec fn parent_at(w: int, h: int, t: nat, l: nat, bx: int, by: int) -> Option<usize> {
    if l == t {
        None
    } else {
        Some(node_id(w, h, (l + 1) as nat, bx / 3, by / 3) as usize)
    }
}

/// The anchor a level-`l` node must carry: the member of the level below at
/// block `(3 bx + 1, 3 by + 1)` when the grid below reaches that far,
/// virtual otherwise.
pub open spec fn anchor_at(w: int, h: int, l: nat, bx: int, by: int) -> Anchor {
    if block_in_grid2(w, h, (l - 1) as nat, 3 * bx + 1, 3 * by + 1) {
        Anchor::Occupied(child_id_at(w, h, (l - 1) as nat, 3 * bx + 1, 3 * by + 1) as usize)
    } else {
        Anchor::Virtual
    }
}

/// The ring slot `k` (0 to 7, holding slot `k + 1` of the canonical order) a
/// level-`l` node must carry.
pub open spec fn ring_slot_at(w: int, h: int, l: nat, bx: int, by: int, k: int) -> Option<usize> {
    let ux = slot_block_x(bx, k + 1);
    let uy = slot_block_y(by, k + 1);
    if block_in_grid2(w, h, (l - 1) as nat, ux, uy) {
        Some(child_id_at(w, h, (l - 1) as nat, ux, uy) as usize)
    } else {
        None
    }
}

/// The leaf of cell `(x, y)` is stored at `leaf_id` and points to its
/// level-1 parent block.
pub open spec fn leaf_ok_at(w: int, h: int, t: nat, leaves: Seq<Leaf>, x: int, y: int) -> bool {
    let leaf = leaves[leaf_id(w, x, y)];
    &&& leaf.coords.x == x
    &&& leaf.coords.y == y
    &&& leaf.parent == parent_at(w, h, t, 0, x, y)
}

/// The node of block `(bx, by)` at level `l` is stored at `node_id` and all
/// its fields match the geometry of its block.
pub open spec fn node_ok_at(
    w: int,
    h: int,
    t: nat,
    nodes: Seq<Node>,
    l: nat,
    bx: int,
    by: int,
) -> bool {
    let i = node_id(w, h, l, bx, by);
    let n = nodes[i];
    &&& 0 <= i < nodes.len()
    &&& n.level == l
    &&& n.cx == center(l, bx)
    &&& n.cy == center(l, by)
    &&& n.half_span == half3(l)
    &&& n.anchor == anchor_at(w, h, l, bx, by)
    &&& n.ring.len() == 8
    &&& (forall|k: int| 0 <= k < 8 ==> n.ring[k] == #[trigger] ring_slot_at(w, h, l, bx, by, k))
    &&& n.parent == parent_at(w, h, t, l, bx, by)
}

/// The hierarchical neighbor index of a `width x height` board.
pub struct GridIndex {
    pub width: u16,
    pub height: u16,
    /// One entry per board cell, row-major.
    pub leaves: Vec<Leaf>,
    /// Every aggregation node of every level, level 1 first, row-major
    /// within each level. The arena owns all nodes; slots and parents are
    /// non-owning indices into it (or into `leaves`, for level-1 slots).
    pub nodes: Vec<Node>,
}

impl GridIndex {
    pub open spec fn w(self) -> int {
        self.width as int
    }

    pub open spec fn h(self) -> int {
        self.height as int
    }

    /// The number of aggregation levels of this board.
    pub open spec fn t(self) -> nat {
        levels(self.w(), self.h())
    }

    /// A built index: sizes as stated and every entry of both arenas exactly
    /// as the block geometry of the board dictates.
    pub open spec fn wf(self) -> bool {
        &&& 1 <= self.width
        &&& 1 <= self.height
        &&& self.leaves.len() == self.w() * self.h()
        &&& self.nodes.len() == total_nodes(self.w(), self.h())
        &&& (forall|x: int, y: int|
            in_bounds(self.w(), self.h(), x, y) ==> #[trigger] leaf_ok_at(
                self.w(),
                self.h(),
                self.t(),
                self.leaves@,
                x,
                y,
            ))
        &&& (forall|l: nat, bx: int, by: int|
            1 <= l <= self.t() && block_in_grid2(self.w(), self.h(), l, bx, by)
                ==> #[trigger] node_ok_at(self.w(), self.h(), self.t(), self.nodes@, l, bx, by))
    }

    /// Board width in cells.
    pub fn board_width(&self) -> (r: u16)
        ensures
            r == self.width,
    {
        self.width
    }

    /// Board height in cells.
    pub fn board_height(&self) -> (r: u16)
        ensures
            r == self.height,
    {
        self.height
    }

    /// Total number of aggregation nodes, over all levels.
    pub fn node_count(&self) -> (r: usize)
        ensures
            r == self.nodes.len(),
    {
        self.nodes.len()
    }

    /// The handle of the cell at the given coordinates.
    pub fn leaf_index(&self, c: Coordinates) -> (r: usize)
        requires
            self.wf(),
            c.x < self.width,
            c.y < self.height,
        ensures
            r == leaf_id(self.w(), c.x as int, c.y as int),
            r < self.leaves.len(),
    {
        proof {
            crate::coords::lemma_leaf_id_in_range(self.w(), self.h(), c.x as int, c.y as int);
        }
        (c.y as usize) * (self.width as usize) + (c.x as usize)
    }

    /// The coordinates of the cell with the given handle.
    pub fn leaf_coordinates(&self, leaf: usize) -> (r: Coordinates)
        requires
            self.wf(),
            leaf < self.leaves.len(),
        ensures
            r == self.leaves@[leaf as int].coords,
            leaf == leaf_id(self.w(), r.x as int, r.y as int),
            in_bounds(self.w(), self.h(), r.x as int, r.y as int),
    {
        proof {
            crate::coords::lemma_id_decode(self.w(), self.h(), leaf as int);
            assert(leaf_ok_at(
                self.w(),
                self.h(),
                self.t(),
                self.leaves@,
                leaf as int % self.w(),
                leaf as int / self.w(),
            ));
        }
        self.leaves[leaf].coords
    }

    /// The arena positions that hold nodes of level `l`.
    pub open spec fn level_node_ids(self, l: nat) -> Set<int> {
        Set::new(|i: int| 0 <= i < self.nodes.len() && self.nodes[i].level == l)
    }

    /// How many nodes of level `l` the arena holds, counted by scanning it.
    #[verifier::loop_isolation(false)]
    #[verifier::rlimit(60)]
    pub fn nodes_at_level(&self, l: u32) -> (c: usize)
        requires
            self.wf(),
        ensures
            c == self.level_node_ids(l as nat).len(),
    {
        let mut c: usize = 0;
        let mut i: usize = 0;
        proof {
            assert(Set::new(
                |idx: int| 0 <= idx < 0 && self.nodes[idx].level == l,
            ) =~= Set::<int>::empty());
        }
        while i < self.nodes.len()
            invariant
                i <= self.nodes.len(),
                c == Set::new(
                    |idx: int| 0 <= idx < i && self.nodes[idx].level == l,
                ).len(),
                c <= i,
            decreases self.nodes.len() - i,
        {
            let ghost prev: Set<int> = Set::new(
                |idx: int| 0 <= idx < i && self.nodes[idx].level == l,
            );
            let ghost next: Set<int> = Set::new(
                |idx: int| 0 <= idx < i + 1 && self.nodes[idx].level == l,
            );
            if self.nodes[i].level == l {
                proof {
                    assert(next =~= prev.insert(i as int));
                    assert(!prev.contains(i as int));
                    vstd::set_lib::lemma_int_range(0, i as int);
                    assert(prev.subset_of(set_int_range(0, i as int)));
                    vstd::set_lib::lemma_len_subset(prev, set_int_range(0, i as int));
                    vstd::set::axiom_set_insert_len(prev, i as int);
                }
                c = c + 1;
            } else {
                proof {
                    assert(next =~= prev);
                }
            }
            i += 1;
        }
        proof {
            assert(Set::new(
                |idx: int| 0 <= idx < self.nodes.len() && self.nodes[idx].level == l,
            ) =~= self.level_node_ids(l as nat));
        }
        c
    }
}

/// Every position of the arena belongs to the segment of some level up
/// to `m`.
proof fn lemma_index_has_level(w: int, h: int, i: int, m: nat)
    requires
        1 <= w,
        1 <= h,
        1 <= m,
        0 <= i < level_base(w, h, (m + 1) as nat),
    ensures
        exists|l: nat|
            1 <= l <= m && level_base(w, h, l) <= i < #[trigger] level_base(w, h, (l + 1) as nat),
    decreases m,
{
    if i >= level_base(w, h, m) {
        assert(1 <= m <= m && level_base(w, h, m) <= i < level_base(w, h, (m + 1) as nat));
    } else {
        lemma_index_has_level(w, h, i, (m - 1) as nat);
    }
}

impl GridIndex {
    /// A well-formed arena holds exactly one node per block of each level:
    /// level `l` contributes `grid_dim(w, l) * grid_dim(h, l)` nodes, laid
    /// out contiguously, and no level beyond the top contributes anything.
    pub proof fn lemma_level_node_count(self, l: nat)
        requires
            self.wf(),
        ensures
            1 <= l <= self.t() ==> self.level_node_ids(l).len() == grid_dim(self.w(), l)
                * grid_dim(self.h(), l),
            !(1 <= l <= self.t()) ==> self.level_node_ids(l).len() == 0,
    {
        let w = self.w();
        let h = self.h();
        let t = self.t();
        if 1 <= l <= t {
            assert(self.level_node_ids(l) =~= set_int_range(
                level_base(w, h, l),
                level_base(w, h, (l + 1) as nat),
            )) by {
                assert forall|i: int|
                    level_base(w, h, l) <= i < level_base(w, h, (l + 1) as nat)
                        implies self.level_node_ids(l).contains(i) by {
                    lemma_node_id_decode(w, h, l, i);
                    let bx = (i - level_base(w, h, l)) % grid_dim(w, l);
                    let by = (i - level_base(w, h, l)) / grid_dim(w, l);
                    assert(node_ok_at(w, h, t, self.nodes@, l, bx, by));
                    lemma_level_base_mono(w, h, (l + 1) as nat, (t + 1) as nat);
                    assert(0 <= i < self.nodes.len());
                }
                assert forall|i: int|
                    self.level_node_ids(l).contains(i) implies level_base(w, h, l) <= i
                    < level_base(w, h, (l + 1) as nat) by {
                    self.lemma_index_level_unique(i);
                    let l2 = choose|l2: nat|
                        1 <= l2 <= t && level_base(w, h, l2) <= i < #[trigger] level_base(
                            w,
                            h,
                            (l2 + 1) as nat,
                        ) && self.nodes[i].level == l2;
                    assert(l2 == l);
                }
            }
            lemma_grid_dim_pos(w, l);
            lemma_grid_dim_pos(h, l);
            assert(grid_dim(w, l) * grid_dim(h, l) >= 1) by (nonlinear_arith)
                requires grid_dim(w, l) >= 1, grid_dim(h, l) >= 1;
            vstd::set_lib::lemma_int_range(level_base(w, h, l), level_base(w, h, (l + 1) as nat));
            assert(level_base(w, h, (l + 1) as nat) - level_base(w, h, l) == grid_dim(w, l)
                * grid_dim(h, l));
        } else {
            assert(self.level_node_ids(l) =~= Set::<int>::empty()) by {
                assert forall|i: int| !self.level_node_ids(l).contains(i) by {
                    if 0 <= i < self.nodes.len() {
                        self.lemma_index_level_unique(i);
                    }
                }
            }
        }
    }

    /// Every arena position holds a node of exactly the level whose segment
    /// it falls in.
    proof fn lemma_index_level_unique(self, i: int)
        requires
            self.wf(),
            0 <= i < self.nodes.len(),
        ensures
            exists|l: nat|
                1 <= l <= self.t() && level_base(self.w(), self.h(), l) <= i
                    < #[trigger] level_base(self.w(), self.h(), (l + 1) as nat)
                    && self.nodes[i].level == l,
    {
        let w = self.w();
        let h = self.h();
        let t = self.t();
        assert(t >= 1) by {
            if t == 0 {
                assert(level_base(w, h, 1) == 0);
            }
        }
        lemma_index_has_level(w, h, i, t);
        let l = choose|l: nat|
            1 <= l <= t && level_base(w, h, l) <= i < #[trigger] level_base(w, h, (l + 1) as nat);
        lemma_node_id_decode(w, h, l, i);
        let bx = (i - level_base(w, h, l)) % grid_dim(w, l);
        let by = (i - level_base(w, h, l)) / grid_dim(w, l);
        assert(node_ok_at(w, h, t, self.nodes@, l, bx, by));
        assert(self.nodes[i].level == l);
    }

    /// Construction is deterministic: two well-formed indexes over the same
    /// board hold the same number of nodes overall and per level.
    pub proof fn lemma_build_deterministic(self, other: GridIndex)
        requires
            self.wf(),
            other.wf(),
            self.width == other.width,
            self.height == other.height,
        ensures
            self.nodes.len() == other.nodes.len(),
            self.leaves.len() == other.leaves.len(),
            forall|l: nat| #[trigger] self.level_node_ids(l).len() == other.level_node_ids(
                l,
            ).len(),
    {
        assert forall|l: nat| #[trigger] self.level_node_ids(l).len() == other.level_node_ids(
            l,
        ).len() by {
            self.lemma_level_node_count(l);
            other.lemma_level_node_count(l);
        }
    }
}

} // verus!
