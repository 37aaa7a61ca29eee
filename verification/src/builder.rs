//! Bottom-up construction of the aggregation tree.
//!
//! Level 1 groups the cells into blocks of `3 x 3`; every further level
//! groups the blocks of the level below the same way, until a single block
//! covers the board. Each block gets one node, whether or not a real member
//! sits on its center (a node without one is a virtual anchor). Because both
//! arenas are laid out row-major level by level, the arena index of every
//! entry — and of its parent one level up — is known the moment the entry is
//! created, so the tree is built in one pass with no back-patching.

use vstd::prelude::*;
use crate::arith::{
    center, ceil3, grid_dim, half3, level_base, levels, node_id, pow3,
    total_nodes, lemma_block_parent, lemma_ceil3_bounds, lemma_ceil3_iff, lemma_grid_dim_pos,
    lemma_grid_dim_one_stays, lemma_half3_pow3, lemma_levels_bound, lemma_levels_char,
    lemma_levels_cover, lemma_level_base_mono, lemma_node_id_range, lemma_pow3_covers_tight,
    lemma_pow3_level_bound, lemma_row_major_lt, lemma_total_nodes_le,
};
use crate::coords::{in_bounds, leaf_id, lemma_leaf_id_in_range, slot_delta, slot_delta_at, Coordinates};
use crate::index::{
    anchor_at, block_in_grid2, leaf_ok_at, node_ok_at, parent_at, ring_slot_at,
    slot_block_x, slot_block_y, BuildError, GridIndex,
};
use crate::node::{Anchor, Leaf, Node};

verus! {

/// Creates the leaf arena: one entry per cell, row-major, each pointing at
/// the level-1 node of the block containing it.
#[verifier::loop_isolation(false)]
#[verifier::rlimit(60)]
fn make_leaves(width: u16, height: u16) -> (leaves: Vec<Leaf>)
    requires
        1 <= width,
        1 <= height,
    ensures
        leaves@.len() == (width as int) * (height as int),
        forall|xx: int, yy: int|
            in_bounds(width as int, height as int, xx, yy) ==> #[trigger] leaf_ok_at(
                width as int,
                height as int,
                levels(width as int, height as int),
                leaves@,
                xx,
                yy,
            ),
{
    let w: usize = width as usize;
    let h: usize = height as usize;
    let ghost wi: int = width as int;
    let ghost hi: int = height as int;
    let ghost t: nat = levels(wi, hi);
    proof {
        lemma_total_nodes_le(wi, hi);
        assert(wi * hi <= 65535 * 65535) by (nonlinear_arith)
            requires 1 <= wi <= 65535, 1 <= hi <= 65535;
        assert(grid_dim(wi, 0) == wi);
        assert(grid_dim(hi, 0) == hi);
        assert(grid_dim(wi, 1) == ceil3(wi));
        assert(grid_dim(hi, 1) == ceil3(hi));
    }

    let nbx1: usize = (w + 2) / 3;
    let single_cell: bool = w == 1 && h == 1;
    proof {
        if single_cell {
            assert(t == 0);
        } else {
            assert(wi * hi > 1) by (nonlinear_arith)
                requires 1 <= wi, 1 <= hi, wi >= 2 || hi >= 2;
            assert(t >= 1);
        }
    }

    let mut leaves: Vec<Leaf> = Vec::new();
    let mut y: usize = 0;
    while y < h
        invariant
            y <= h,
            leaves@.len() == y * w,
            forall|xx: int, yy: int|
                in_bounds(wi, hi, xx, yy) && yy < y ==> #[trigger] leaf_ok_at(
                    wi, hi, t, leaves@, xx, yy,
                ),
        decreases h - y,
    {
        let mut x: usize = 0;
        while x < w
            invariant
                x <= w,
                y < h,
                leaves@.len() == y * w + x,
                forall|xx: int, yy: int|
                    in_bounds(wi, hi, xx, yy) && (yy < y || (yy == y && xx < x))
                        ==> #[trigger] leaf_ok_at(wi, hi, t, leaves@, xx, yy),
            decreases w - x,
        {
            let parent: Option<usize> = if single_cell {
                None
            } else {
                let px: usize = x / 3;
                let py: usize = y / 3;
                proof {
                    lemma_block_parent(wi, 0, x as int);
                    lemma_block_parent(hi, 0, y as int);
                    lemma_node_id_range(wi, hi, 1, px as int, py as int);
                    lemma_level_base_mono(wi, hi, 2, (t + 1) as nat);
                    assert(py * nbx1 + px == node_id(wi, hi, 1, px as int, py as int));
                }
                Some(py * nbx1 + px)
            };
            let ghost prev: Seq<Leaf> = leaves@;
            leaves.push(Leaf { coords: Coordinates { x: x as u16, y: y as u16 }, parent });
            proof {
                let xi = x as int;
                let yi = y as int;
                assert(leaf_id(wi, xi, yi) == prev.len());
                assert(leaf_ok_at(wi, hi, t, leaves@, xi, yi)) by {
                    assert(leaves@[leaf_id(wi, xi, yi)] == Leaf {
                        coords: Coordinates { x: x as u16, y: y as u16 },
                        parent,
                    });
                    if !single_cell {
                        assert(parent_at(wi, hi, t, 0, xi, yi) == Some(
                            node_id(wi, hi, 1, xi / 3, yi / 3) as usize,
                        ));
                    }
                }
                assert forall|xx: int, yy: int|
                    in_bounds(wi, hi, xx, yy) && (yy < yi || (yy == yi && xx < xi))
                        implies #[trigger] leaf_ok_at(wi, hi, t, leaves@, xx, yy) by {
                    assert(leaf_ok_at(wi, hi, t, prev, xx, yy));
                    lemma_row_major_lt(wi, xx, yy, xi, yi);
                }
            }
            x += 1;
        }
        proof {
            assert(y * w + w == (y + 1) * w) by (nonlinear_arith);
        }
        y += 1;
    }
    proof {
        assert((h as int) * (w as int) == wi * hi) by (nonlinear_arith)
            requires h == hi, w == wi;
        assert(hi * wi == wi * hi) by (nonlinear_arith);
    }
    leaves
}

/// Creates the node of block `(bx, by)` at level `level + 1`, over a level
/// grid of `dim_x x dim_y` members whose arena segment starts at
/// `child_base`.
#[verifier::loop_isolation(false)]
#[verifier::rlimit(60)]
fn make_node(
    width: u16,
    height: u16,
    level: u32,
    dim_x: usize,
    dim_y: usize,
    span: usize,
    half: usize,
    child_base: usize,
    base: usize,
    nbx: usize,
    nby: usize,
    parent_dim_x: usize,
    top_level: bool,
    bx: usize,
    by: usize,
) -> (n: Node)
    requires
        1 <= width,
        1 <= height,
        (level + 1) as nat <= levels(width as int, height as int),
        dim_x == grid_dim(width as int, level as nat),
        dim_y == grid_dim(height as int, level as nat),
        dim_x * dim_y > 1,
        span == pow3((level + 1) as nat),
        half == half3((level + 1) as nat),
        child_base == level_base(width as int, height as int, level as nat),
        base == level_base(width as int, height as int, (level + 1) as nat),
        nbx == grid_dim(width as int, (level + 1) as nat),
        nby == grid_dim(height as int, (level + 1) as nat),
        !top_level ==> parent_dim_x == grid_dim(width as int, (level + 2) as nat),
        top_level <==> (level + 1) as nat == levels(width as int, height as int),
        bx < nbx,
        by < nby,
    ensures
        n.level == level + 1,
        n.cx == center((level + 1) as nat, bx as int),
        n.cy == center((level + 1) as nat, by as int),
        n.half_span == half3((level + 1) as nat),
        n.anchor == anchor_at(width as int, height as int, (level + 1) as nat, bx as int, by as int),
        n.ring@.len() == 8,
        forall|k: int|
            0 <= k < 8 ==> n.ring@[k] == #[trigger] ring_slot_at(
                width as int,
                height as int,
                (level + 1) as nat,
                bx as int,
                by as int,
                k,
            ),
        n.parent == parent_at(
            width as int,
            height as int,
            levels(width as int, height as int),
            (level + 1) as nat,
            bx as int,
            by as int,
        ),
{
    let w: usize = width as usize;
    let ghost wi: int = width as int;
    let ghost hi: int = height as int;
    let ghost t: nat = levels(wi, hi);
    let ghost lvl: nat = (level + 1) as nat;
    proof {
        lemma_total_nodes_le(wi, hi);
        lemma_levels_bound(wi, hi);
        assert(wi * hi <= 65535 * 65535) by (nonlinear_arith)
            requires 1 <= wi <= 65535, 1 <= hi <= 65535;
        lemma_grid_dim_pos(wi, level as nat);
        lemma_grid_dim_pos(hi, level as nat);
        lemma_grid_dim_pos(wi, lvl);
        lemma_grid_dim_pos(hi, lvl);
        lemma_pow3_level_bound(wi, hi, lvl);
        lemma_pow3_covers_tight(wi, lvl);
        lemma_pow3_covers_tight(hi, lvl);
        lemma_half3_pow3(lvl);
        assert(span * bx + half < wi + pow3(lvl)) by (nonlinear_arith)
            requires
                span == pow3(lvl),
                0 <= bx as int <= grid_dim(wi, lvl) - 1,
                pow3(lvl) * (grid_dim(wi, lvl) - 1) < wi,
                half < pow3(lvl),
                pow3(lvl) >= 1,
        ;
        assert(span * by + half < hi + pow3(lvl)) by (nonlinear_arith)
            requires
                span == pow3(lvl),
                0 <= by as int <= grid_dim(hi, lvl) - 1,
                pow3(lvl) * (grid_dim(hi, lvl) - 1) < hi,
                half < pow3(lvl),
                pow3(lvl) >= 1,
        ;
        assert(nbx * nby <= dim_x * dim_y) by (nonlinear_arith)
            requires 1 <= nbx <= dim_x, 1 <= nby <= dim_y;
        assert(dim_x * dim_y <= wi * hi) by (nonlinear_arith)
            requires 1 <= dim_x <= wi, 1 <= dim_y <= hi;
        assert(level_base(wi, hi, (lvl + 1) as nat) == level_base(wi, hi, lvl) + grid_dim(
            wi,
            lvl,
        ) * grid_dim(hi, lvl));
    }
    let cx: usize = span * bx + half;
    let cy: usize = span * by + half;
    let ux: usize = 3 * bx + 1;
    let uy: usize = 3 * by + 1;
    proof {
        lemma_ceil3_iff(dim_x as int, bx as int);
        lemma_ceil3_iff(dim_y as int, by as int);
        assert(grid_dim(wi, lvl) == ceil3(dim_x as int));
        assert(grid_dim(hi, lvl) == ceil3(dim_y as int));
    }
    let anchor: Anchor = if ux < dim_x && uy < dim_y {
        let cid: usize = if level == 0 {
            proof {
                lemma_leaf_id_in_range(wi, hi, ux as int, uy as int);
            }
            uy * w + ux
        } else {
            proof {
                lemma_node_id_range(wi, hi, level as nat, ux as int, uy as int);
                lemma_level_base_mono(wi, hi, (level + 1) as nat, (t + 1) as nat);
            }
            child_base + uy * dim_x + ux
        };
        Anchor::Occupied(cid)
    } else {
        Anchor::Virtual
    };
    proof {
        assert(anchor == anchor_at(wi, hi, lvl, bx as int, by as int));
    }

    let mut ring: Vec<Option<usize>> = Vec::new();
    let mut k: usize = 0;
    while k < 8
        invariant
            k <= 8,
            ring@.len() == k,
            forall|kk: int|
                0 <= kk < k ==> ring@[kk] == #[trigger] ring_slot_at(
                    wi, hi, lvl, bx as int, by as int, kk,
                ),
        decreases 8 - k,
    {
        let (dx, dy) = slot_delta_at(k + 1);
        proof {
            assert(-1 <= slot_delta(k as int + 1).0 <= 1);
            assert(-1 <= slot_delta(k as int + 1).1 <= 1);
        }
        let off_x: usize = (1 + dx) as usize;
        let off_y: usize = (1 + dy) as usize;
        let sx: usize = 3 * bx + off_x;
        let sy: usize = 3 * by + off_y;
        proof {
            assert(sx as int == slot_block_x(bx as int, k as int + 1));
            assert(sy as int == slot_block_y(by as int, k as int + 1));
        }
        let slot: Option<usize> = if sx < dim_x && sy < dim_y {
            let cid: usize = if level == 0 {
                proof {
                    lemma_leaf_id_in_range(wi, hi, sx as int, sy as int);
                }
                sy * w + sx
            } else {
                proof {
                    lemma_node_id_range(wi, hi, level as nat, sx as int, sy as int);
                    lemma_level_base_mono(wi, hi, (level + 1) as nat, (t + 1) as nat);
                }
                child_base + sy * dim_x + sx
            };
            Some(cid)
        } else {
            None
        };
        ring.push(slot);
        proof {
            assert(ring@[k as int] == ring_slot_at(wi, hi, lvl, bx as int, by as int, k as int));
        }
        k += 1;
    }

    let parent: Option<usize> = if top_level {
        None
    } else {
        let pbx: usize = bx / 3;
        let pby: usize = by / 3;
        proof {
            lemma_block_parent(wi, lvl, bx as int);
            lemma_block_parent(hi, lvl, by as int);
            lemma_node_id_range(wi, hi, (lvl + 1) as nat, pbx as int, pby as int);
            lemma_level_base_mono(wi, hi, (lvl + 2) as nat, (t + 1) as nat);
            assert(base + nbx * nby + (pby * parent_dim_x + pbx) == node_id(
                wi, hi, (lvl + 1) as nat, pbx as int, pby as int,
            ));
        }
        Some(base + nbx * nby + (pby * parent_dim_x + pbx))
    };
    proof {
        assert(parent == parent_at(wi, hi, t, lvl, bx as int, by as int));
    }

    Node {
        level: level + 1,
        cx: cx as u32,
        cy: cy as u32,
        half_span: half as u32,
        anchor,
        ring,
        parent,
    }
}

/// Appends all nodes of level `level + 1` to the arena, row-major.
#[verifier::loop_isolation(false)]
#[verifier::rlimit(60)]
fn make_level(
    width: u16,
    height: u16,
    level: u32,
    dim_x: usize,
    dim_y: usize,
    span: usize,
    half: usize,
    child_base: usize,
    nbx: usize,
    nby: usize,
    parent_dim_x: usize,
    top_level: bool,
    nodes: &mut Vec<Node>,
)
    requires
        1 <= width,
        1 <= height,
        (level + 1) as nat <= levels(width as int, height as int),
        dim_x == grid_dim(width as int, level as nat),
        dim_y == grid_dim(height as int, level as nat),
        dim_x * dim_y > 1,
        span == pow3((level + 1) as nat),
        half == half3((level + 1) as nat),
        child_base == level_base(width as int, height as int, level as nat),
        old(nodes)@.len() == level_base(width as int, height as int, (level + 1) as nat),
        nbx == grid_dim(width as int, (level + 1) as nat),
        nby == grid_dim(height as int, (level + 1) as nat),
        !top_level ==> parent_dim_x == grid_dim(width as int, (level + 2) as nat),
        top_level <==> (level + 1) as nat == levels(width as int, height as int),
        forall|l: nat, bxx: int, byy: int|
            1 <= l <= level && block_in_grid2(width as int, height as int, l, bxx, byy)
                ==> #[trigger] node_ok_at(
                width as int,
                height as int,
                levels(width as int, height as int),
                old(nodes)@,
                l,
                bxx,
                byy,
            ),
    ensures
        final(nodes)@.len() == level_base(width as int, height as int, (level + 2) as nat),
        forall|l: nat, bxx: int, byy: int|
            1 <= l <= level + 1 && block_in_grid2(width as int, height as int, l, bxx, byy)
                ==> #[trigger] node_ok_at(
                width as int,
                height as int,
                levels(width as int, height as int),
                final(nodes)@,
                l,
                bxx,
                byy,
            ),
{
    let ghost wi: int = width as int;
    let ghost hi: int = height as int;
    let ghost t: nat = levels(wi, hi);
    let ghost lvl: nat = (level + 1) as nat;
    let base: usize = nodes.len();
    proof {
        lemma_grid_dim_pos(wi, lvl);
        lemma_grid_dim_pos(hi, lvl);
        assert(level_base(wi, hi, (lvl + 1) as nat) == level_base(wi, hi, lvl) + grid_dim(
            wi,
            lvl,
        ) * grid_dim(hi, lvl));
    }
    let mut by: usize = 0;
    while by < nby
        invariant
            by <= nby,
            nodes@.len() == base + by * nbx,
            forall|l: nat, bxx: int, byy: int|
                1 <= l <= level && block_in_grid2(wi, hi, l, bxx, byy)
                    ==> #[trigger] node_ok_at(wi, hi, t, nodes@, l, bxx, byy),
            forall|bxx: int, byy: int|
                0 <= bxx < nbx && 0 <= byy < by ==> #[trigger] node_ok_at(
                    wi, hi, t, nodes@, lvl, bxx, byy,
                ),
        decreases nby - by,
    {
        let mut bx: usize = 0;
        while bx < nbx
            invariant
                bx <= nbx,
                by < nby,
                nodes@.len() == base + by * nbx + bx,
                forall|l: nat, bxx: int, byy: int|
                    1 <= l <= level && block_in_grid2(wi, hi, l, bxx, byy)
                        ==> #[trigger] node_ok_at(wi, hi, t, nodes@, l, bxx, byy),
                forall|bxx: int, byy: int|
                    0 <= bxx < nbx && 0 <= byy < by ==> #[trigger] node_ok_at(
                        wi, hi, t, nodes@, lvl, bxx, byy,
                    ),
                forall|bxx: int|
                    0 <= bxx < bx ==> #[trigger] node_ok_at(
                        wi, hi, t, nodes@, lvl, bxx, by as int,
                    ),
            decreases nbx - bx,
        {
            let node = make_node(
                width, height, level, dim_x, dim_y, span, half, child_base, base, nbx, nby,
                parent_dim_x, top_level, bx, by,
            );
            let ghost prev: Seq<Node> = nodes@;
            nodes.push(node);
            proof {
                let bxi = bx as int;
                let byi = by as int;
                assert(node_id(wi, hi, lvl, bxi, byi) == prev.len()) by {
                    assert(level_base(wi, hi, lvl) == base);
                }
                assert(node_ok_at(wi, hi, t, nodes@, lvl, bxi, byi)) by {
                    lemma_node_id_range(wi, hi, lvl, bxi, byi);
                }
                assert forall|l: nat, bxx: int, byy: int|
                    1 <= l <= level && block_in_grid2(wi, hi, l, bxx, byy)
                        implies #[trigger] node_ok_at(wi, hi, t, nodes@, l, bxx, byy) by {
                    assert(node_ok_at(wi, hi, t, prev, l, bxx, byy));
                    lemma_node_id_range(wi, hi, l, bxx, byy);
                    lemma_level_base_mono(wi, hi, (l + 1) as nat, lvl);
                }
                assert forall|bxx: int, byy: int|
                    0 <= bxx < nbx && 0 <= byy < by implies #[trigger] node_ok_at(
                        wi, hi, t, nodes@, lvl, bxx, byy,
                    ) by {
                    assert(node_ok_at(wi, hi, t, prev, lvl, bxx, byy));
                    lemma_row_major_lt(nbx as int, bxx, byy, bxi, byi);
                    lemma_node_id_range(wi, hi, lvl, bxx, byy);
                }
                assert forall|bxx: int|
                    0 <= bxx < bx implies #[trigger] node_ok_at(
                        wi, hi, t, nodes@, lvl, bxx, by as int,
                    ) by {
                    assert(node_ok_at(wi, hi, t, prev, lvl, bxx, by as int));
                    lemma_row_major_lt(nbx as int, bxx, by as int, bxi, byi);
                    lemma_node_id_range(wi, hi, lvl, bxx, by as int);
                }
            }
            bx += 1;
        }
        proof {
            assert(base + by * nbx + nbx == base + (by + 1) * nbx) by (nonlinear_arith);
        }
        by += 1;
    }
    proof {
        assert(nodes@.len() == base + nby * nbx);
        assert(nby * nbx == grid_dim(wi, lvl) * grid_dim(hi, lvl)) by (nonlinear_arith)
            requires
                nbx == grid_dim(wi, lvl),
                nby == grid_dim(hi, lvl),
        ;
        assert forall|l: nat, bxx: int, byy: int|
            1 <= l <= level + 1 && block_in_grid2(wi, hi, l, bxx, byy)
                implies #[trigger] node_ok_at(wi, hi, t, nodes@, l, bxx, byy) by {
            if l == lvl {
                assert(0 <= bxx < nbx && 0 <= byy < nby);
                assert(node_ok_at(wi, hi, t, nodes@, lvl, bxx, byy));
            }
        }
    }
}

impl GridIndex {
    /// Builds the whole aggregation tree over a `width x height` board.
    ///
    /// The only rejected input is a board without cells; everything else
    /// yields a well-formed index, and since `wf` pins every entry of both
    /// arenas as a function of the dimensions, construction is
    /// deterministic.
    #[verifier::loop_isolation(false)]
    #[verifier::rlimit(60)]
    pub fn build(width: u16, height: u16) -> (r: Result<GridIndex, BuildError>)
        ensures
            r is Ok <==> width >= 1 && height >= 1,
            r matches Ok(g) ==> g.wf() && g.width == width && g.height == height,
    {
        if width == 0 || height == 0 {
            return Err(BuildError::ZeroDimension);
        }
        let w: usize = width as usize;
        let h: usize = height as usize;
        let ghost wi: int = width as int;
        let ghost hi: int = height as int;
        let ghost t: nat = levels(wi, hi);

        proof {
            lemma_total_nodes_le(wi, hi);
            lemma_levels_bound(wi, hi);
            lemma_levels_cover(wi, hi);
            lemma_grid_dim_pos(wi, 1);
            lemma_grid_dim_pos(hi, 1);
            assert(wi * hi <= 65535 * 65535) by (nonlinear_arith)
                requires 1 <= wi <= 65535, 1 <= hi <= 65535;
            assert(grid_dim(wi, 0) == wi);
            assert(grid_dim(hi, 0) == hi);
        }

        let leaves: Vec<Leaf> = make_leaves(width, height);

        // Aggregation levels, bottom-up. Throughout, `level` counts the
        // completed levels; `dim_x`, `dim_y`, `child_span`, `child_half` and
        // `child_base` describe the completed level's grid, and the node
        // arena holds all levels up to `level`.
        let mut nodes: Vec<Node> = Vec::new();
        let mut level: u32 = 0;
        let mut dim_x: usize = w;
        let mut dim_y: usize = h;
        let mut child_span: usize = 1;
        let mut child_half: usize = 0;
        let mut child_base: usize = 0;
        while dim_x * dim_y > 1
            invariant
                level as nat <= t,
                dim_x == grid_dim(wi, level as nat),
                dim_y == grid_dim(hi, level as nat),
                dim_x <= 65535,
                dim_y <= 65535,
                dim_x * dim_y <= 0xffff_ffff,
                child_span == pow3(level as nat),
                child_half == half3(level as nat),
                child_base == level_base(wi, hi, level as nat),
                nodes@.len() == level_base(wi, hi, (level + 1) as nat),
                (dim_x * dim_y == 1) <==> (level as nat == t),
                forall|l: nat, bxx: int, byy: int|
                    1 <= l <= level && block_in_grid2(wi, hi, l, bxx, byy)
                        ==> #[trigger] node_ok_at(wi, hi, t, nodes@, l, bxx, byy),
            decreases dim_x * dim_y,
        {
            let ghost lvl: nat = (level + 1) as nat;
            proof {
                lemma_grid_dim_pos(wi, level as nat);
                lemma_grid_dim_pos(hi, level as nat);
                lemma_pow3_level_bound(wi, hi, lvl);
                lemma_grid_dim_pos(wi, lvl);
                lemma_grid_dim_pos(hi, lvl);
                assert(pow3(lvl) == 3 * child_span);
                assert(half3(lvl) == 3 * child_half + 1);
                lemma_half3_pow3(lvl);
                lemma_half3_pow3(level as nat);
                assert(grid_dim(wi, lvl) == ceil3(dim_x as int));
                assert(grid_dim(hi, lvl) == ceil3(dim_y as int));
                if lvl > t {
                    lemma_grid_dim_one_stays(wi, t, level as nat);
                    lemma_grid_dim_one_stays(hi, t, level as nat);
                    assert(false);
                }
            }
            let nbx: usize = (dim_x + 2) / 3;
            let nby: usize = (dim_y + 2) / 3;
            let span: usize = 3 * child_span;
            let half: usize = 3 * child_half + 1;
            proof {
                assert(nbx * nby <= dim_x * dim_y) by (nonlinear_arith)
                    requires 1 <= nbx <= dim_x, 1 <= nby <= dim_y;
            }
            let top_level: bool = nbx * nby == 1;
            proof {
                if top_level {
                    lemma_levels_char(wi, hi, lvl);
                } else {
                    if lvl >= t {
                        lemma_grid_dim_one_stays(wi, t, lvl);
                        lemma_grid_dim_one_stays(hi, t, lvl);
                        assert(false);
                    }
                }
            }
            let parent_dim_x: usize = (nbx + 2) / 3;
            proof {
                assert(grid_dim(wi, (lvl + 1) as nat) == ceil3(nbx as int));
            }

            let ghost base_before: int = nodes@.len() as int;
            make_level(
                width, height, level, dim_x, dim_y, span, half, child_base, nbx, nby,
                parent_dim_x, top_level, &mut nodes,
            );

            proof {
                lemma_ceil3_bounds(dim_x as int);
                lemma_ceil3_bounds(dim_y as int);
                assert(dim_x >= 2 || dim_y >= 2) by (nonlinear_arith)
                    requires 1 <= dim_x, 1 <= dim_y, dim_x * dim_y > 1;
                assert(nbx * nby < dim_x * dim_y) by (nonlinear_arith)
                    requires
                        1 <= nbx <= dim_x,
                        1 <= nby <= dim_y,
                        dim_x >= 2 ==> nbx < dim_x,
                        dim_y >= 2 ==> nby < dim_y,
                        dim_x >= 2 || dim_y >= 2,
                ;
                assert(nbx * nby == grid_dim(wi, lvl) * grid_dim(hi, lvl)) by (nonlinear_arith)
                    requires
                        nbx == grid_dim(wi, lvl),
                        nby == grid_dim(hi, lvl),
                ;
                assert(level_base(wi, hi, (lvl + 1) as nat) == level_base(wi, hi, lvl)
                    + grid_dim(wi, lvl) * grid_dim(hi, lvl));
                assert(base_before == level_base(wi, hi, lvl));
            }
            child_base = nodes.len() - nbx * nby;
            child_span = span;
            child_half = half;
            dim_x = nbx;
            dim_y = nby;
            level = level + 1;
        }

        let g = GridIndex { width, height, leaves, nodes };
        proof {
            assert(level as nat == t);
            assert(g.w() == wi && g.h() == hi && g.t() == t);
            assert(g.nodes@.len() == total_nodes(wi, hi));
            assert(g.wf());
        }
        Ok(g)
    }
}

} // verus!
