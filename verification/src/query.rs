//! The Moore-neighborhood query over the aggregation tree.
//!
//! A query resolves the leaf's level-1 parent block, collects the adjacent
//! cells stored in that block, and for each neighboring block that also
//! holds adjacent cells walks up the tree until an ancestor's span contains
//! the neighboring block's center, then back down to its level-1 node. The
//! result is proved to be exactly [`moore_id_set`]: the handles of all
//! in-bounds Moore neighbors, without duplicates.

use vstd::prelude::*;
use crate::arith::{
    anc_block, center, grid_dim, half3, node_id, pow3,
    lemma_anc_base, lemma_anc_compose, lemma_block_parent, lemma_half3_pow3,
    lemma_level1_consts, lemma_node_id_range, lemma_pow3_pos, lemma_span_unique,
};
use crate::coords::{in_bounds, is_moore_neighbor, leaf_id, moore_id_set, slot_delta};
use crate::index::{block_in_grid2, GridIndex};
use crate::storage::{neighbor_list_items, NeighborList};

verus! {

/// The handles held in a result list, as a set of integers.
pub open spec fn seq_ids(s: Seq<usize>) -> Set<int> {
    Set::new(|j: int| exists|idx: int| 0 <= idx < s.len() && s[idx] as int == j)
}

/// The handles of the cells of level-1 block `(bx, by)` that are in-bounds
/// Moore neighbors of `(x, y)`.
pub open spec fn block_adj_ids(w: int, h: int, bx: int, by: int, x: int, y: int) -> Set<int> {
    Set::new(
        |j: int|
            {
                &&& 0 <= j < w * h
                &&& (j % w) / 3 == bx
                &&& (j / w) / 3 == by
                &&& is_moore_neighbor(x, y, j % w, j / w)
            },
    )
}

/// The slot of a level-1 block holding the cell at offset `(dx, dy)` from
/// the block center: the inverse of `slot_delta` within one block.
pub open spec fn delta_slot(dx: int, dy: int) -> int {
    if dx == -1 && dy == -1 { 1 }
    else if dx == 0 && dy == -1 { 2 }
    else if dx == 1 && dy == -1 { 3 }
    else if dx == -1 && dy == 0 { 4 }
    else if dx == 1 && dy == 0 { 5 }
    else if dx == -1 && dy == 1 { 6 }
    else if dx == 0 && dy == 1 { 7 }
    else if dx == 1 && dy == 1 { 8 }
    else { 0 }
}

/// Adding one handle to a list adds exactly that handle to its id set.
pub proof fn lemma_seq_ids_push(s: Seq<usize>, u: usize)
    ensures
        seq_ids(s.push(u)) =~= seq_ids(s).insert(u as int),
{
    assert forall|j: int| seq_ids(s.push(u)).contains(j) implies seq_ids(s).insert(
        u as int,
    ).contains(j) by {
        let idx = choose|idx: int| 0 <= idx < s.push(u).len() && s.push(u)[idx] as int == j;
        if idx < s.len() {
            assert(s[idx] as int == j);
        }
    }
    assert forall|j: int| seq_ids(s).insert(u as int).contains(j) implies seq_ids(
        s.push(u),
    ).contains(j) by {
        if seq_ids(s).contains(j) {
            let idx = choose|idx: int| 0 <= idx < s.len() && s[idx] as int == j;
            assert(s.push(u)[idx] as int == j);
        } else {
            assert(s.push(u)[s.len() as int] as int == u as int);
        }
    }
}

/// A handle outside a list's id set is not in the list, so pushing it keeps
/// the list duplicate-free.
pub proof fn lemma_push_no_dup(s: Seq<usize>, u: usize)
    requires
        s.no_duplicates(),
        !seq_ids(s).contains(u as int),
    ensures
        s.push(u).no_duplicates(),
{
    assert forall|i: int, j: int|
        0 <= i < s.push(u).len() && 0 <= j < s.push(u).len() && i != j implies s.push(u)[i]
        != s.push(u)[j] by {
        if i < s.len() && j < s.len() {
        } else if i < s.len() {
            assert(s[i] as int != u as int) by {
                if s[i] == u {
                    assert(seq_ids(s).contains(u as int));
                }
            }
        } else if j < s.len() {
            assert(s[j] as int != u as int) by {
                if s[j] == u {
                    assert(seq_ids(s).contains(u as int));
                }
            }
        }
    }
}

/// Cells of level-1 blocks that do not exist lie outside the board, so such
/// a block holds no neighbor of anything.
pub proof fn lemma_block_adj_empty(w: int, h: int, bx: int, by: int, x: int, y: int)
    requires
        1 <= w,
        1 <= h,
        !block_in_grid2(w, h, 1, bx, by),
    ensures
        block_adj_ids(w, h, bx, by, x, y) =~= Set::<int>::empty(),
{
    assert forall|j: int| !block_adj_ids(w, h, bx, by, x, y).contains(j) by {
        if 0 <= j < w * h {
            let nx = j % w;
            let ny = j / w;
            crate::coords::lemma_id_decode(w, h, j);
            if nx / 3 == bx && ny / 3 == by {
                assert(grid_dim(w, 0) == w && grid_dim(h, 0) == h);
                lemma_block_parent(w, 0, nx);
                lemma_block_parent(h, 0, ny);
                assert(block_in_grid2(w, h, 1, bx, by));
            }
        }
    }
}


/// Every in-bounds Moore neighbor of `(x, y)` lies in the cell's own level-1
/// block or in one of the up to three adjacent blocks toward which the cell
/// is offset from its block center; together those blocks hold the whole
/// neighborhood.
proof fn lemma_moore_cover(w: int, h: int, x: int, y: int)
    requires
        1 <= w,
        1 <= h,
        in_bounds(w, h, x, y),
    ensures
        moore_id_set(w, h, x, y) =~= block_adj_ids(w, h, x / 3, y / 3, x, y) + block_adj_ids(
            w,
            h,
            x / 3 + (x - (3 * (x / 3) + 1)),
            y / 3,
            x,
            y,
        ) + block_adj_ids(w, h, x / 3, y / 3 + (y - (3 * (y / 3) + 1)), x, y) + block_adj_ids(
            w,
            h,
            x / 3 + (x - (3 * (x / 3) + 1)),
            y / 3 + (y - (3 * (y / 3) + 1)),
            x,
            y,
        ),
{
    let bx = x / 3;
    let by = y / 3;
    let ox = x - (3 * bx + 1);
    let oy = y - (3 * by + 1);
    vstd::arithmetic::div_mod::lemma_fundamental_div_mod(x, 3);
    vstd::arithmetic::div_mod::lemma_fundamental_div_mod(y, 3);
    assert(-1 <= ox <= 1);
    assert(-1 <= oy <= 1);
    let whole = block_adj_ids(w, h, bx, by, x, y) + block_adj_ids(w, h, bx + ox, by, x, y)
        + block_adj_ids(w, h, bx, by + oy, x, y) + block_adj_ids(w, h, bx + ox, by + oy, x, y);
    assert forall|j: int| moore_id_set(w, h, x, y).contains(j) implies whole.contains(j) by {
        crate::coords::lemma_id_decode(w, h, j);
        let nx = j % w;
        let ny = j / w;
        let sx = ox + (nx - x);
        let sy = oy + (ny - y);
        assert(nx == 3 * bx + 1 + sx);
        assert(-2 <= sx <= 2);
        if sx == 2 {
            vstd::arithmetic::div_mod::lemma_fundamental_div_mod_converse(nx, 3, bx + 1, 0);
            assert(nx / 3 == bx + ox);
        } else if sx == -2 {
            vstd::arithmetic::div_mod::lemma_fundamental_div_mod_converse(nx, 3, bx - 1, 2);
            assert(nx / 3 == bx + ox);
        } else {
            vstd::arithmetic::div_mod::lemma_fundamental_div_mod_converse(nx, 3, bx, 1 + sx);
            assert(nx / 3 == bx);
        }
        if sy == 2 {
            vstd::arithmetic::div_mod::lemma_fundamental_div_mod_converse(ny, 3, by + 1, 0);
            assert(ny / 3 == by + oy);
        } else if sy == -2 {
            vstd::arithmetic::div_mod::lemma_fundamental_div_mod_converse(ny, 3, by - 1, 2);
            assert(ny / 3 == by + oy);
        } else {
            vstd::arithmetic::div_mod::lemma_fundamental_div_mod_converse(ny, 3, by, 1 + sy);
            assert(ny / 3 == by);
        }
    }
    // each block term only ever holds in-bounds Moore neighbors
    assert forall|j: int| whole.contains(j) implies moore_id_set(w, h, x, y).contains(j) by {}
}

impl GridIndex {
    /// Appends to `out` every cell of the level-1 block of node `m` that is
    /// an in-bounds Moore neighbor of `(x, y)`. The node's nine slots
    /// enumerate exactly the block's in-bounds cells, so the appended
    /// handles are exactly `block_adj_ids` of that block.
    #[verifier::loop_isolation(false)]
    #[verifier::rlimit(60)]
    fn add_block_neighbors(
        &self,
        m: usize,
        x: u16,
        y: u16,
        out: &mut NeighborList,
        Ghost(mbx): Ghost<int>,
        Ghost(mby): Ghost<int>,
    )
        requires
            self.wf(),
            1 <= self.t(),
            block_in_grid2(self.w(), self.h(), 1, mbx, mby),
            m == node_id(self.w(), self.h(), 1, mbx, mby),
            neighbor_list_items(*old(out)).no_duplicates(),
            seq_ids(neighbor_list_items(*old(out))).disjoint(
                block_adj_ids(self.w(), self.h(), mbx, mby, x as int, y as int),
            ),
        ensures
            neighbor_list_items(*final(out)).no_duplicates(),
            seq_ids(neighbor_list_items(*final(out))) =~= seq_ids(
                neighbor_list_items(*old(out)),
            ) + block_adj_ids(self.w(), self.h(), mbx, mby, x as int, y as int),
    {
        let ghost wi: int = self.w();
        let ghost hi: int = self.h();
        let ghost adj: Set<int> = block_adj_ids(wi, hi, mbx, mby, x as int, y as int);
        proof {
            assert(crate::index::node_ok_at(self.w(), self.h(), self.t(), self.nodes@, 1, mbx, mby));
            assert(wi == self.w() && hi == self.h());
            assert(crate::index::node_ok_at(wi, hi, self.t(), self.nodes@, 1, mbx, mby));
            lemma_node_id_range(wi, hi, 1, mbx, mby);
            lemma_level1_consts();
            assert(wi * hi <= 65535 * 65535) by (nonlinear_arith)
                requires 1 <= wi <= 65535, 1 <= hi <= 65535;
            assert(grid_dim(wi, 0) == wi && grid_dim(hi, 0) == hi);
        }
        let n = &self.nodes[m];
        let cx: i64 = n.cx as i64;
        let cy: i64 = n.cy as i64;
        let xi64: i64 = x as i64;
        let yi64: i64 = y as i64;
        proof {
            assert(n.cx == center(1, mbx));
            assert(n.cy == center(1, mby));
            assert(n.cx == 3 * mbx + 1);
            assert(n.cy == 3 * mby + 1);
        }

        let mut k: usize = 0;
        while k < 9
            invariant
                k <= 9,
                neighbor_list_items(*out).no_duplicates(),
                seq_ids(neighbor_list_items(*out)) =~= seq_ids(neighbor_list_items(*old(out)))
                    + Set::new(
                    |j: int|
                        adj.contains(j) && delta_slot(
                            (j % wi) - (3 * mbx + 1),
                            (j / wi) - (3 * mby + 1),
                        ) < k,
                ),
            decreases 9 - k,
        {
            // the slot's cell and whether a member is stored there
            let slot: Option<usize> = if k == 0 {
                match n.anchor {
                    crate::node::Anchor::Occupied(cid) => Some(cid),
                    crate::node::Anchor::Virtual => None,
                }
            } else {
                proof {
                    assert(n.ring@[k - 1] == crate::index::ring_slot_at(
                        wi, hi, 1, mbx, mby, k - 1,
                    ));
                }
                n.ring[k - 1]
            };
            let (dx, dy) = crate::coords::slot_delta_at(k);
            proof {
                assert(-1 <= slot_delta(k as int).0 <= 1);
                assert(-1 <= slot_delta(k as int).1 <= 1);
            }
            let ncx: i64 = cx + dx as i64;
            let ncy: i64 = cy + dy as i64;
            let ghost nxi: int = 3 * mbx + 1 + slot_delta(k as int).0;
            let ghost nyi: int = 3 * mby + 1 + slot_delta(k as int).1;
            proof {
                // the slot holds the leaf of cell (nxi, nyi) iff in bounds
                if k == 0 {
                    assert(n.anchor == crate::index::anchor_at(wi, hi, 1, mbx, mby));
                } else {
                    assert(crate::index::slot_block_x(mbx, k as int) == nxi);
                    assert(crate::index::slot_block_y(mby, k as int) == nyi);
                }
            }
            if let Some(cid) = slot {
                // adjacency test: Chebyshev distance exactly one
                let ddx: i64 = if ncx >= xi64 { ncx - xi64 } else { xi64 - ncx };
                let ddy: i64 = if ncy >= yi64 { ncy - yi64 } else { yi64 - ncy };
                let adjacent: bool = (ddx <= 1 && ddy <= 1) && (ddx == 1 || ddy == 1);
                proof {
                    assert(in_bounds(wi, hi, nxi, nyi));
                    crate::coords::lemma_leaf_id_in_range(wi, hi, nxi, nyi);
                    assert(cid == leaf_id(wi, nxi, nyi));
                    assert(adjacent == is_moore_neighbor(x as int, y as int, nxi, nyi));
                }
                if adjacent {
                    let ghost prev: Seq<usize> = neighbor_list_items(*out);
                    out.push(cid);
                    proof {
                        crate::coords::lemma_leaf_id_decode(wi, nxi, nyi);
                        crate::coords::lemma_leaf_id_in_range(wi, hi, nxi, nyi);
                        assert(adj.contains(cid as int));
                        assert(delta_slot((cid as int % wi) - (3 * mbx + 1), (cid as int / wi) - (
                        3 * mby + 1)) == k);
                        assert(!seq_ids(prev).contains(cid as int));
                        lemma_seq_ids_push(prev, cid);
                        lemma_push_no_dup(prev, cid);
                    }
                }
            }
            proof {
                // a handle belongs to the slots below k + 1 exactly when it
                // belongs to the slots below k or is this slot's cell
                assert forall|j: int|
                    adj.contains(j) && delta_slot(
                        (j % wi) - (3 * mbx + 1),
                        (j / wi) - (3 * mby + 1),
                    ) < k + 1 implies seq_ids(neighbor_list_items(*out)).contains(j) by {
                    let jx = j % wi;
                    let jy = j / wi;
                    if delta_slot(jx - (3 * mbx + 1), jy - (3 * mby + 1)) == k {
                        // j is this slot's cell
                        assert(0 <= j < wi * hi);
                        crate::coords::lemma_id_decode(wi, hi, j);
                        assert(jx / 3 == mbx && jy / 3 == mby);
                        lemma_block_parent(wi, 0, jx);
                        lemma_block_parent(hi, 0, jy);
                        assert(-1 <= jx - (3 * mbx + 1) <= 1);
                        assert(-1 <= jy - (3 * mby + 1) <= 1);
                        assert(jx == nxi && jy == nyi);
                        assert(j == leaf_id(wi, jx, jy));
                    }
                }
            }
            k += 1;
        }
        proof {
            assert forall|j: int| adj.contains(j) implies delta_slot(
                (j % wi) - (3 * mbx + 1),
                (j / wi) - (3 * mby + 1),
            ) < 9 by {
                let jx = j % wi;
                let jy = j / wi;
                crate::coords::lemma_id_decode(wi, hi, j);
                lemma_block_parent(wi, 0, jx);
                lemma_block_parent(hi, 0, jy);
            }
        }
    }

    /// Walks up the parent chain from the node at `(cbx, cby)` until an
    /// ancestor's span contains the level-1 center `(tx, ty)`, then back
    /// down to the level-1 node of block `(tbx, tby)`. Returns `None`
    /// exactly when that block lies outside the grid: escalation past the
    /// root means the direction is off-board.
    #[verifier::loop_isolation(false)]
    #[verifier::rlimit(60)]
    fn ascend(
        &self,
        cur: usize,
        tx: i64,
        ty: i64,
        Ghost(clvl): Ghost<nat>,
        Ghost(cbx): Ghost<int>,
        Ghost(cby): Ghost<int>,
        Ghost(tbx): Ghost<int>,
        Ghost(tby): Ghost<int>,
    ) -> (r: Option<usize>)
        requires
            self.wf(),
            1 <= clvl <= self.t(),
            block_in_grid2(self.w(), self.h(), clvl, cbx, cby),
            cur == node_id(self.w(), self.h(), clvl, cbx, cby),
            tx == 3 * tbx + 1,
            ty == 3 * tby + 1,
        ensures
            r == if block_in_grid2(self.w(), self.h(), 1, tbx, tby) {
                Some(node_id(self.w(), self.h(), 1, tbx, tby) as usize)
            } else {
                None::<usize>
            },
        decreases self.t() - clvl,
    {
        let ghost wi: int = self.w();
        let ghost hi: int = self.h();
        proof {
            assert(crate::index::node_ok_at(self.w(), self.h(), self.t(), self.nodes@, clvl, cbx, cby));
            lemma_node_id_range(wi, hi, clvl, cbx, cby);
            lemma_half3_pow3(clvl);
            lemma_level1_consts();
            lemma_pow3_pos(clvl);
        }
        let n = &self.nodes[cur];
        let cx: i64 = n.cx as i64;
        let cy: i64 = n.cy as i64;
        let hs: i64 = n.half_span as i64;
        proof {
            assert(cx == pow3(clvl) * cbx + half3(clvl));
            assert(cy == pow3(clvl) * cby + half3(clvl));
        }
        if cx - hs <= tx && tx <= cx + hs && cy - hs <= ty && ty <= cy + hs {
            proof {
                // the span contains the target center, so this node is the
                // target block's ancestor at this level
                assert(pow3(clvl) * cbx >= 0) by (nonlinear_arith)
                    requires 0 <= cbx, pow3(clvl) >= 1;
                assert(0 <= tbx && 0 <= tby);
                lemma_span_unique(clvl, cbx, tx as int);
                lemma_span_unique(clvl, cby, ty as int);
                crate::arith::lemma_center_anc(tbx, clvl);
                crate::arith::lemma_center_anc(tby, clvl);
                assert(cbx == anc_block(tbx, clvl));
                assert(cby == anc_block(tby, clvl));
            }
            self.descend(cur, tx, ty, Ghost(clvl), Ghost(cbx), Ghost(cby), Ghost(tbx), Ghost(tby))
        } else {
            match n.parent {
                Some(p) => {
                    proof {
                        assert(clvl < self.t());
                        lemma_block_parent(wi, clvl, cbx);
                        lemma_block_parent(hi, clvl, cby);
                        lemma_node_id_range(wi, hi, (clvl + 1) as nat, cbx / 3, cby / 3);
                        crate::arith::lemma_level_base_mono(
                            wi, hi, (clvl + 2) as nat, (self.t() + 1) as nat,
                        );
                        crate::arith::lemma_total_nodes_le(wi, hi);
                        assert(wi * hi <= 65535 * 65535) by (nonlinear_arith)
                            requires 1 <= wi <= 65535, 1 <= hi <= 65535;
                    }
                    self.ascend(
                        p,
                        tx,
                        ty,
                        Ghost((clvl + 1) as nat),
                        Ghost(cbx / 3),
                        Ghost(cby / 3),
                        Ghost(tbx),
                        Ghost(tby),
                    )
                },
                None => {
                    proof {
                        // this is the root: its span covers the whole board,
                        // so the target block is off the grid
                        assert(clvl == self.t());
                        crate::arith::lemma_levels_cover(wi, hi);
                        assert(cbx == 0 && cby == 0);
                        assert(cx - hs == 0 && cx + hs == pow3(clvl) - 1);
                        assert(cy - hs == 0 && cy + hs == pow3(clvl) - 1);
                        if tx < 0 || ty < 0 {
                            assert(!block_in_grid2(wi, hi, 1, tbx, tby));
                        } else {
                            if tx > pow3(clvl) - 1 {
                                crate::arith::lemma_root_covers(wi, clvl, tbx);
                            }
                            if ty > pow3(clvl) - 1 {
                                crate::arith::lemma_root_covers(hi, clvl, tby);
                            }
                            assert(!block_in_grid2(wi, hi, 1, tbx, tby));
                        }
                    }
                    None
                },
            }
        }
    }

    /// Walks down from an ancestor whose span contains the level-1 center
    /// `(tx, ty)`, through the slot holding the target's sub-block at each
    /// step, to the level-1 node of block `(tbx, tby)`. A missing slot on
    /// the way means the block — and with it every cell it would hold — is
    /// off the grid.
    #[verifier::loop_isolation(false)]
    #[verifier::rlimit(100)]
    fn descend(
        &self,
        cur: usize,
        tx: i64,
        ty: i64,
        Ghost(clvl): Ghost<nat>,
        Ghost(cbx): Ghost<int>,
        Ghost(cby): Ghost<int>,
        Ghost(tbx): Ghost<int>,
        Ghost(tby): Ghost<int>,
    ) -> (r: Option<usize>)
        requires
            self.wf(),
            1 <= clvl <= self.t(),
            block_in_grid2(self.w(), self.h(), clvl, cbx, cby),
            cur == node_id(self.w(), self.h(), clvl, cbx, cby),
            tx == 3 * tbx + 1,
            ty == 3 * tby + 1,
            0 <= tbx,
            0 <= tby,
            cbx == anc_block(tbx, clvl),
            cby == anc_block(tby, clvl),
        ensures
            r == if block_in_grid2(self.w(), self.h(), 1, tbx, tby) {
                Some(node_id(self.w(), self.h(), 1, tbx, tby) as usize)
            } else {
                None::<usize>
            },
        decreases clvl,
    {
        let ghost wi: int = self.w();
        let ghost hi: int = self.h();
        proof {
            assert(crate::index::node_ok_at(self.w(), self.h(), self.t(), self.nodes@, clvl, cbx, cby));
            lemma_node_id_range(wi, hi, clvl, cbx, cby);
            assert(wi * hi <= 65535 * 65535) by (nonlinear_arith)
                requires 1 <= wi <= 65535, 1 <= hi <= 65535;
            crate::arith::lemma_level_base_mono(wi, hi, (clvl + 1) as nat, (self.t() + 1) as nat);
            crate::arith::lemma_total_nodes_le(wi, hi);
            lemma_level1_consts();
        }
        let n = &self.nodes[cur];
        if n.level == 1 {
            proof {
                lemma_anc_base(tbx);
                lemma_anc_base(tby);
                assert(cbx == tbx && cby == tby);
            }
            Some(cur)
        } else {
            // the target's sub-block one level down, which exactly one of
            // the nine slots can hold
            let ghost sub: nat = (clvl - 1) as nat;
            let ghost vx: int = anc_block(tbx, sub);
            let ghost vy: int = anc_block(tby, sub);
            proof {
                lemma_anc_compose(tbx, sub);
                lemma_anc_compose(tby, sub);
                assert(vx / 3 == cbx && vy / 3 == cby);
                vstd::arithmetic::div_mod::lemma_fundamental_div_mod(vx, 3);
                vstd::arithmetic::div_mod::lemma_fundamental_div_mod(vy, 3);
                assert(3 * cbx <= vx < 3 * cbx + 3);
                assert(3 * cby <= vy < 3 * cby + 3);
                crate::arith::lemma_anc_span(tbx, sub);
                crate::arith::lemma_anc_span(tby, sub);
                lemma_half3_pow3(sub);
                lemma_pow3_pos(sub);
            }
            let mut k: usize = 0;
            while k < 9
                invariant
                    k <= 9,
                    block_in_grid2(wi, hi, sub, vx, vy) ==> forall|kk: int|
                        0 <= kk < k ==> !(3 * cbx + 1 + slot_delta(kk).0 == vx && 3 * cby + 1
                            + slot_delta(kk).1 == vy),
                decreases 9 - k,
            {
                let slot: Option<usize> = if k == 0 {
                    match n.anchor {
                        crate::node::Anchor::Occupied(cid) => Some(cid),
                        crate::node::Anchor::Virtual => None,
                    }
                } else {
                    proof {
                        assert(n.ring@[k - 1] == crate::index::ring_slot_at(
                            wi, hi, clvl, cbx, cby, k - 1,
                        ));
                    }
                    n.ring[k - 1]
                };
                let ghost ubx: int = 3 * cbx + 1 + slot_delta(k as int).0;
                let ghost uby: int = 3 * cby + 1 + slot_delta(k as int).1;
                proof {
                    assert(-1 <= slot_delta(k as int).0 <= 1);
                    assert(-1 <= slot_delta(k as int).1 <= 1);
                    if slot is Some {
                        assert(block_in_grid2(wi, hi, sub, ubx, uby));
                        assert(slot == Some(node_id(wi, hi, sub, ubx, uby) as usize));
                        assert(crate::index::node_ok_at(
                            self.w(), self.h(), self.t(), self.nodes@, sub, ubx, uby,
                        ));
                        lemma_node_id_range(wi, hi, sub, ubx, uby);
                    }
                }
                if let Some(cid) = slot {
                    let child = &self.nodes[cid];
                    let ccx: i64 = child.cx as i64;
                    let ccy: i64 = child.cy as i64;
                    let chs: i64 = child.half_span as i64;
                    proof {
                        assert(ccx == pow3(sub) * ubx + half3(sub));
                        assert(ccy == pow3(sub) * uby + half3(sub));
                        assert(chs == half3(sub));
                    }
                    if ccx - chs <= tx && tx <= ccx + chs && ccy - chs <= ty && ty <= ccy + chs {
                        proof {
                            lemma_span_unique(sub, ubx, tx as int);
                            lemma_span_unique(sub, uby, ty as int);
                            crate::arith::lemma_center_anc(tbx, sub);
                            crate::arith::lemma_center_anc(tby, sub);
                            assert(ubx == vx && uby == vy);
                        }
                        return self.descend(
                            cid,
                            tx,
                            ty,
                            Ghost(sub),
                            Ghost(vx),
                            Ghost(vy),
                            Ghost(tbx),
                            Ghost(tby),
                        );
                    }
                    proof {
                        // the span did not contain the target center, so
                        // this slot is not the target's sub-block
                        if ubx == vx && uby == vy {
                            assert(ccx - chs == pow3(sub) * vx);
                            assert(ccx + chs == pow3(sub) * vx + pow3(sub) - 1);
                            assert(false);
                        }
                    }
                } else {
                    proof {
                        // an absent slot means the sub-block is off the grid
                        if block_in_grid2(wi, hi, sub, vx, vy) && ubx == vx && uby == vy {
                            assert(false);
                        }
                    }
                }
                k += 1;
            }
            proof {
                // no slot matched, so the target's sub-block is off the
                // grid, and with it the target itself
                if block_in_grid2(wi, hi, sub, vx, vy) {
                    let kv = delta_slot(vx - (3 * cbx + 1), vy - (3 * cby + 1));
                    assert(3 * cbx + 1 + slot_delta(kv).0 == vx && 3 * cby + 1 + slot_delta(
                        kv,
                    ).1 == vy);
                    assert(false);
                }
                if block_in_grid2(wi, hi, 1, tbx, tby) {
                    crate::arith::lemma_anc_in_grid(wi, tbx, sub);
                    crate::arith::lemma_anc_in_grid(hi, tby, sub);
                    assert(false);
                }
            }
            None
        }
    }

    /// Returns the handles of all cells adjacent to the given leaf,
    /// horizontally, vertically or diagonally: exactly the in-bounds Moore
    /// neighborhood, with no duplicate, never the queried cell itself, and
    /// nothing farther than one step away.
    #[verifier::loop_isolation(false)]
    #[verifier::rlimit(100)]
    pub fn find_neighbors(&self, leaf: usize) -> (r: NeighborList)
        requires
            self.wf(),
            leaf < self.leaves.len(),
        ensures
            neighbor_list_items(r).no_duplicates(),
            seq_ids(neighbor_list_items(r)) == moore_id_set(
                self.w(),
                self.h(),
                self.leaves@[leaf as int].coords.x as int,
                self.leaves@[leaf as int].coords.y as int,
            ),
    {
        let ghost wi: int = self.w();
        let ghost hi: int = self.h();
        proof {
            crate::coords::lemma_id_decode(wi, hi, leaf as int);
            assert(crate::index::leaf_ok_at(
                self.w(),
                self.h(),
                self.t(),
                self.leaves@,
                leaf as int % wi,
                leaf as int / wi,
            ));
        }
        let lf = &self.leaves[leaf];
        let x: u16 = lf.coords.x;
        let y: u16 = lf.coords.y;
        let ghost xi: int = x as int;
        let ghost yi: int = y as int;
        proof {
            assert(xi == leaf as int % wi && yi == leaf as int / wi);
            assert(in_bounds(wi, hi, xi, yi));
        }
        let mut out = NeighborList::new();
        proof {
            assert(seq_ids(neighbor_list_items(out)) =~= Set::<int>::empty()) by {
                assert(neighbor_list_items(out).len() == 0);
            }
        }
        match lf.parent {
            None => {
                proof {
                    // only a single-cell board has a parentless leaf, and its
                    // one cell has no neighbor at all
                    assert(self.t() == 0);
                    assert(wi * hi <= 1);
                    assert(wi == 1 && hi == 1) by (nonlinear_arith)
                        requires 1 <= wi, 1 <= hi, wi * hi <= 1;
                    assert(moore_id_set(wi, hi, xi, yi) =~= Set::<int>::empty()) by {
                        assert forall|j: int| !moore_id_set(wi, hi, xi, yi).contains(j) by {
                            if 0 <= j < wi * hi {
                                assert(j == 0);
                                crate::coords::lemma_id_decode(wi, hi, j);
                            }
                        }
                    }
                }
                out
            },
            Some(p1) => {
                let ghost bx: int = xi / 3;
                let ghost by: int = yi / 3;
                proof {
                    assert(self.t() >= 1);
                    assert(grid_dim(wi, 0) == wi && grid_dim(hi, 0) == hi);
                    lemma_block_parent(wi, 0, xi);
                    lemma_block_parent(hi, 0, yi);
                    lemma_node_id_range(wi, hi, 1, bx, by);
                    crate::arith::lemma_level_base_mono(wi, hi, 2, (self.t() + 1) as nat);
                    crate::arith::lemma_total_nodes_le(wi, hi);
                    assert(wi * hi <= 65535 * 65535) by (nonlinear_arith)
                        requires 1 <= wi <= 65535, 1 <= hi <= 65535;
                    assert(p1 == node_id(wi, hi, 1, bx, by));
                    assert(crate::index::node_ok_at(self.w(), self.h(), self.t(), self.nodes@, 1, bx, by));
                    lemma_level1_consts();
                }
                let n1 = &self.nodes[p1];
                let cx: i64 = n1.cx as i64;
                let cy: i64 = n1.cy as i64;
                let ox: i64 = x as i64 - cx;
                let oy: i64 = y as i64 - cy;
                let ghost oxi: int = xi - (3 * bx + 1);
                let ghost oyi: int = yi - (3 * by + 1);
                proof {
                    assert(cx == 3 * bx + 1 && cy == 3 * by + 1);
                    assert(ox == oxi && oy == oyi);
                    assert(-1 <= oxi <= 1 && -1 <= oyi <= 1);
                }
                let ghost adj_a: Set<int> = block_adj_ids(wi, hi, bx, by, xi, yi);
                let ghost adj_b1: Set<int> = block_adj_ids(wi, hi, bx + oxi, by, xi, yi);
                let ghost adj_b2: Set<int> = block_adj_ids(wi, hi, bx, by + oyi, xi, yi);
                let ghost adj_b3: Set<int> = block_adj_ids(wi, hi, bx + oxi, by + oyi, xi, yi);

                self.add_block_neighbors(p1, x, y, &mut out, Ghost(bx), Ghost(by));
                proof {
                    assert(seq_ids(neighbor_list_items(out)) =~= adj_a);
                }

                if ox != 0 {
                    let tx: i64 = cx + 3 * ox;
                    let found = self.ascend(
                        p1, tx, cy, Ghost(1), Ghost(bx), Ghost(by), Ghost(bx + oxi), Ghost(by),
                    );
                    match found {
                        Some(m) => {
                            proof {
                                lemma_node_id_range(wi, hi, 1, bx + oxi, by);
                                assert(seq_ids(neighbor_list_items(out)).disjoint(adj_b1)) by {
                                    assert forall|j: int|
                                        adj_a.contains(j) implies !adj_b1.contains(j) by {}
                                }
                            }
                            self.add_block_neighbors(
                                m, x, y, &mut out, Ghost(bx + oxi), Ghost(by),
                            );
                        },
                        None => {
                            proof {
                                lemma_block_adj_empty(wi, hi, bx + oxi, by, xi, yi);
                            }
                        },
                    }
                }
                proof {
                    assert(seq_ids(neighbor_list_items(out)) =~= adj_a + adj_b1);
                }

                if oy != 0 {
                    let ty: i64 = cy + 3 * oy;
                    let found = self.ascend(
                        p1, cx, ty, Ghost(1), Ghost(bx), Ghost(by), Ghost(bx), Ghost(by + oyi),
                    );
                    match found {
                        Some(m) => {
                            proof {
                                lemma_node_id_range(wi, hi, 1, bx, by + oyi);
                                assert(seq_ids(neighbor_list_items(out)).disjoint(adj_b2)) by {
                                    assert forall|j: int|
                                        (adj_a + adj_b1).contains(j) implies !adj_b2.contains(
                                        j,
                                    ) by {}
                                }
                            }
                            self.add_block_neighbors(
                                m, x, y, &mut out, Ghost(bx), Ghost(by + oyi),
                            );
                        },
                        None => {
                            proof {
                                lemma_block_adj_empty(wi, hi, bx, by + oyi, xi, yi);
                            }
                        },
                    }
                }
                proof {
                    assert(seq_ids(neighbor_list_items(out)) =~= adj_a + adj_b1 + adj_b2);
                }

                if ox != 0 && oy != 0 {
                    let tx: i64 = cx + 3 * ox;
                    let ty: i64 = cy + 3 * oy;
                    let found = self.ascend(
                        p1, tx, ty, Ghost(1), Ghost(bx), Ghost(by), Ghost(bx + oxi),
                        Ghost(by + oyi),
                    );
                    match found {
                        Some(m) => {
                            proof {
                                lemma_node_id_range(wi, hi, 1, bx + oxi, by + oyi);
                                assert(seq_ids(neighbor_list_items(out)).disjoint(adj_b3)) by {
                                    assert forall|j: int|
                                        (adj_a + adj_b1 + adj_b2).contains(j)
                                            implies !adj_b3.contains(j) by {}
                                }
                            }
                            self.add_block_neighbors(
                                m, x, y, &mut out, Ghost(bx + oxi), Ghost(by + oyi),
                            );
                        },
                        None => {
                            proof {
                                lemma_block_adj_empty(wi, hi, bx + oxi, by + oyi, xi, yi);
                            }
                        },
                    }
                }
                proof {
                    assert(seq_ids(neighbor_list_items(out)) =~= adj_a + adj_b1 + adj_b2
                        + adj_b3);
                    lemma_moore_cover(wi, hi, xi, yi);
                    assert(seq_ids(neighbor_list_items(out)) =~= moore_id_set(wi, hi, xi, yi));
                }
                out
            },
        }
    }
}

} // verus!
