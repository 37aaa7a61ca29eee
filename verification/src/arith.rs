//! The arithmetic model of the aggregation tree.
//!
//! A board of `w x h` cells is grouped into blocks of `3^l` cells per axis at
//! level `l`. This module defines the block grid of each level, the center
//! coordinate and numbering of each block, and proves the facts about them
//! that the builder and the queries rely on.

use vstd::prelude::*;
use vstd::arithmetic::div_mod::{
    lemma_fundamental_div_mod, lemma_fundamental_div_mod_converse,
};

verus! {

/// `3^l`, the cell span per axis of a level-`l` block.
pub open spec fn pow3(l: nat) -> nat
    decreases l,
{
    if l == 0 { 1 } else { 3 * pow3((l - 1) as nat) }
}

/// `(3^l - 1) / 2`: the distance from a level-`l` block's center to either
/// edge of the block, per axis.
pub open spec fn half3(l: nat) -> nat
    decreases l,
{
    if l == 0 { 0 } else { 3 * half3((l - 1) as nat) + 1 }
}

/// How many length-3 blocks cover a row of `n` cells.
pub open spec fn ceil3(n: int) -> int {
    (n + 2) / 3
}

/// How many blocks per axis the level-`l` grid has over `w` cells
/// (level 0 is the cells themselves).
pub open spec fn grid_dim(w: int, l: nat) -> int
    decreases l,
{
    if l == 0 { w } else { ceil3(grid_dim(w, (l - 1) as nat)) }
}

/// The number of aggregation levels built over a `w x h` board: levels are
/// added until a single block covers the whole board. A single-cell board
/// needs no level at all.
pub open spec fn levels(w: int, h: int) -> nat
    decreases w + h when 1 <= w && 1 <= h via levels_decreases
{
    if w * h <= 1 { 0 } else { (1 + levels(ceil3(w), ceil3(h))) as nat }
}

#[via_fn]
proof fn levels_decreases(w: int, h: int) {
    if 1 <= w && 1 <= h && w * h > 1 {
        lemma_ceil3_bounds(w);
        lemma_ceil3_bounds(h);
        assert(w >= 2 || h >= 2) by (nonlinear_arith)
            requires 1 <= w, 1 <= h, w * h > 1;
    }
}

/// The center coordinate (one axis) of block `b` at level `l`.
pub open spec fn center(l: nat, b: int) -> int {
    pow3(l) * b + half3(l)
}

/// Is `b` a block index of the level-`l` grid over `w` cells?
pub open spec fn block_in_grid(w: int, l: nat, b: int) -> bool {
    0 <= b < grid_dim(w, l)
}

/// Index of the first level-`l` node in the node arena (levels start at 1;
/// each level is laid out row-major after the previous one).
pub open spec fn level_base(w: int, h: int, l: nat) -> int
    decreases l,
{
    if l <= 1 {
        0
    } else {
        level_base(w, h, (l - 1) as nat) + grid_dim(w, (l - 1) as nat) * grid_dim(
            h,
            (l - 1) as nat,
        )
    }
}

/// Arena index of the level-`l` node for block `(bx, by)`.
pub open spec fn node_id(w: int, h: int, l: nat, bx: int, by: int) -> int {
    level_base(w, h, l) + by * grid_dim(w, l) + bx
}

/// Total number of nodes over all levels of a `w x h` board.
pub open spec fn total_nodes(w: int, h: int) -> int {
    level_base(w, h, (levels(w, h) + 1) as nat)
}

/// The level-`l` ancestor block of the level-1 block `b` (one axis).
pub open spec fn anc_block(b: int, l: nat) -> int {
    b / pow3((l - 1) as nat) as int
}

/// Level-1 blocks are three cells wide and reach one cell from their center.
pub proof fn lemma_level1_consts()
    ensures
        pow3(1) == 3,
        half3(1) == 1,
{
    assert(pow3(0) == 1);
    assert(half3(0) == 0);
}

pub proof fn lemma_pow3_pos(l: nat)
    ensures
        pow3(l) >= 1,
    decreases l,
{
    if l > 0 {
        lemma_pow3_pos((l - 1) as nat);
    }
}

/// The center of a block sits exactly mid-span: `2 * half3(l) + 1 == 3^l`.
pub proof fn lemma_half3_pow3(l: nat)
    ensures
        2 * half3(l) + 1 == pow3(l),
    decreases l,
{
    if l > 0 {
        lemma_half3_pow3((l - 1) as nat);
    }
}

/// Basic facts about `ceil3` on a row of at least one cell.
pub proof fn lemma_ceil3_bounds(n: int)
    requires
        1 <= n,
    ensures
        1 <= ceil3(n) <= n,
        n >= 2 ==> ceil3(n) < n,
        n <= 3 * ceil3(n),
        3 * (ceil3(n) - 1) < n,
{
    lemma_fundamental_div_mod(n + 2, 3);
}

/// A block index is inside the coarser grid exactly when its first cell is
/// inside the finer grid: `b < ceil3(n)` iff `3b < n`.
pub proof fn lemma_ceil3_iff(n: int, b: int)
    requires
        0 <= b,
    ensures
        b < ceil3(n) <==> 3 * b < n,
{
    lemma_fundamental_div_mod(n + 2, 3);
}

/// Every level keeps at least one block per axis.
pub proof fn lemma_grid_dim_pos(w: int, l: nat)
    requires
        1 <= w,
    ensures
        1 <= grid_dim(w, l) <= w,
    decreases l,
{
    if l > 0 {
        lemma_grid_dim_pos(w, (l - 1) as nat);
        lemma_ceil3_bounds(grid_dim(w, (l - 1) as nat));
    }
}

/// The level-`l` grid over `w` cells is the level-`l-1` grid over a row of
/// `ceil3(w)` blocks.
pub proof fn lemma_grid_dim_shift(w: int, l: nat)
    requires
        l >= 1,
    ensures
        grid_dim(w, l) == grid_dim(ceil3(w), (l - 1) as nat),
    decreases l,
{
    if l == 1 {
        assert(grid_dim(w, 1) == ceil3(grid_dim(w, 0)));
        assert(grid_dim(ceil3(w), 0) == ceil3(w));
    } else {
        lemma_grid_dim_shift(w, (l - 1) as nat);
        assert(grid_dim(w, l) == ceil3(grid_dim(w, (l - 1) as nat)));
        assert(grid_dim(ceil3(w), (l - 1) as nat) == ceil3(grid_dim(ceil3(w), (l - 2) as nat)));
    }
}

/// The level-`l` blocks cover the whole row: `3^l * grid_dim(w, l) >= w`.
pub proof fn lemma_pow3_covers(w: int, l: nat)
    requires
        1 <= w,
    ensures
        pow3(l) * grid_dim(w, l) >= w,
    decreases l,
{
    if l == 0 {
        assert(pow3(0) == 1);
        assert(grid_dim(w, 0) == w);
        assert(pow3(l) * grid_dim(w, l) == w);
    } else {
        let g = grid_dim(w, (l - 1) as nat);
        lemma_grid_dim_pos(w, (l - 1) as nat);
        lemma_pow3_covers(w, (l - 1) as nat);
        lemma_ceil3_bounds(g);
        lemma_pow3_pos((l - 1) as nat);
        // 3^l * gd(w, l) = 3^(l-1) * (3 * ceil3(g)) >= 3^(l-1) * g >= w
        assert(pow3((l - 1) as nat) * (3 * ceil3(g)) >= pow3((l - 1) as nat) * g) by (nonlinear_arith)
            requires
                pow3((l - 1) as nat) >= 1,
                3 * ceil3(g) >= g,
        ;
        assert(pow3(l) * grid_dim(w, l) == pow3((l - 1) as nat) * (3 * ceil3(g))) by (nonlinear_arith)
            requires
                pow3(l) == 3 * pow3((l - 1) as nat),
                grid_dim(w, l) == ceil3(g),
        ;
        assert(pow3(l) * grid_dim(w, l) >= w);
    }
}

/// A block of the level-`l` grid has its parent block in the level-`l+1`
/// grid, and sits among the parent's three child columns (one axis).
pub proof fn lemma_block_parent(w: int, l: nat, b: int)
    requires
        1 <= w,
        block_in_grid(w, l, b),
    ensures
        block_in_grid(w, (l + 1) as nat, b / 3),
        3 * (b / 3) <= b < 3 * (b / 3) + 3,
    decreases l,
{
    lemma_fundamental_div_mod(b, 3);
    lemma_ceil3_iff(grid_dim(w, l), b / 3);
}

/// Climbing one level divides the ancestor block index by three.
pub proof fn lemma_anc_compose(b: int, l: nat)
    requires
        0 <= b,
        1 <= l,
    ensures
        anc_block(b, l) / 3 == anc_block(b, (l + 1) as nat),
        0 <= anc_block(b, l) <= b,
{
    let p = pow3((l - 1) as nat) as int;
    lemma_pow3_pos((l - 1) as nat);
    vstd::arithmetic::div_mod::lemma_div_denominator(b, p, 3);
    assert(p * 3 == 3 * p);
    vstd::arithmetic::div_mod::lemma_div_pos_is_pos(b, p);
    vstd::arithmetic::div_mod::lemma_div_nonincreasing(b, p);
}

/// A level-1 block is its own level-1 ancestor.
pub proof fn lemma_anc_base(b: int)
    requires
        0 <= b,
    ensures
        anc_block(b, 1) == b,
{
    assert(b / 1 == b) by {
        lemma_fundamental_div_mod_converse(b, 1, b, 0);
    }
}

/// The span of the level-`l` ancestor block contains the center of the
/// level-1 block below it (one axis): the tree is spatially nested.
pub proof fn lemma_anc_span(b: int, l: nat)
    requires
        0 <= b,
        1 <= l,
    ensures
        pow3(l) * anc_block(b, l) <= center(1, b),
        center(1, b) <= pow3(l) * anc_block(b, l) + pow3(l) - 1,
{
    let p = pow3((l - 1) as nat) as int;
    let a = anc_block(b, l);
    lemma_pow3_pos((l - 1) as nat);
    lemma_fundamental_div_mod(b, p);
    let r = b % p;
    assert(center(1, b) == 3 * b + 1) by {
        lemma_level1_consts();
    }
    assert(pow3(l) == 3 * p);
    assert(3 * b + 1 == 3 * (p * a + r) + 1);
    assert(3 * (p * a + r) == 3 * p * a + 3 * r) by (nonlinear_arith);
    assert(pow3(l) * a == 3 * p * a) by (nonlinear_arith)
        requires pow3(l) == 3 * p;
    assert(0 <= 3 * r <= 3 * p - 3);
}

/// Dividing a level-1 center by a block span finds the ancestor block.
pub proof fn lemma_center_anc(b: int, l: nat)
    requires
        0 <= b,
        1 <= l,
    ensures
        center(1, b) / pow3(l) as int == anc_block(b, l),
{
    let p = pow3((l - 1) as nat) as int;
    lemma_pow3_pos((l - 1) as nat);
    lemma_level1_consts();
    assert(center(1, b) == 3 * b + 1);
    assert((3 * b + 1) / 3 == b) by {
        lemma_fundamental_div_mod_converse(3 * b + 1, 3, b, 1);
    }
    vstd::arithmetic::div_mod::lemma_div_denominator(3 * b + 1, 3, p);
    assert(pow3(l) == 3 * p);
}

/// Every ancestor of a block of the grid is itself a block of its level's
/// grid (one axis).
pub proof fn lemma_anc_in_grid(w: int, b: int, l: nat)
    requires
        1 <= w,
        block_in_grid(w, 1, b),
        1 <= l,
    ensures
        block_in_grid(w, l, anc_block(b, l)),
    decreases l,
{
    if l == 1 {
        lemma_anc_base(b);
    } else {
        lemma_anc_in_grid(w, b, (l - 1) as nat);
        lemma_anc_compose(b, (l - 1) as nat);
        lemma_block_parent(w, (l - 1) as nat, anc_block(b, (l - 1) as nat));
    }
}

/// A coordinate determines the block containing it: if `t` lies in the span
/// of block `b` at level `l`, then `b` is `t`'s block.
pub proof fn lemma_span_unique(l: nat, b: int, t: int)
    requires
        pow3(l) * b <= t <= pow3(l) * b + pow3(l) - 1,
    ensures
        b == t / pow3(l) as int,
{
    lemma_pow3_pos(l);
    assert(b * (pow3(l) as int) == pow3(l) * b) by (nonlinear_arith);
    lemma_fundamental_div_mod_converse(t, pow3(l) as int, b, t - pow3(l) * b);
}

/// If even the root's span (which covers the whole board) does not reach the
/// center of a level-1 block to the right, that block is outside the grid.
pub proof fn lemma_root_covers(w: int, l: nat, b: int)
    requires
        1 <= w,
        grid_dim(w, l) == 1,
        1 <= l,
        0 <= b,
        center(1, b) > pow3(l) - 1,
    ensures
        !block_in_grid(w, 1, b),
{
    // center(1, b) = 3b + 1 >= pow3(l), so b >= pow3(l - 1), while the
    // level-1 grid has at most pow3(l - 1) blocks.
    lemma_level1_consts();
    let p = pow3((l - 1) as nat) as int;
    lemma_pow3_pos((l - 1) as nat);
    assert(pow3(l) == 3 * p);
    assert(3 * b + 1 >= 3 * p);
    // level-1 grid size is at most p because l - 1 more halvings reach 1
    lemma_grid_dim_shift_tower(w, l);
    if block_in_grid(w, 1, b) {
        lemma_pow3_covers(grid_dim(w, 1), (l - 1) as nat);
        assert(pow3((l - 1) as nat) * grid_dim(grid_dim(w, 1), (l - 1) as nat) >= grid_dim(
            w,
            1,
        ));
        assert(grid_dim(grid_dim(w, 1), (l - 1) as nat) == grid_dim(w, l)) by {
            lemma_grid_dim_tower(w, 1, (l - 1) as nat);
        }
        assert(p >= grid_dim(w, 1));
        assert(b < p);
        assert(false);
    }
}

/// Iterating the grid one level at a time or in one jump is the same:
/// `grid_dim(grid_dim(w, m), l) == grid_dim(w, m + l)`.
pub proof fn lemma_grid_dim_tower(w: int, m: nat, l: nat)
    ensures
        grid_dim(grid_dim(w, m), l) == grid_dim(w, (m + l) as nat),
    decreases l,
{
    if l > 0 {
        lemma_grid_dim_tower(w, m, (l - 1) as nat);
    }
}

proof fn lemma_grid_dim_shift_tower(w: int, l: nat)
    requires
        1 <= l,
    ensures
        grid_dim(grid_dim(w, 1), (l - 1) as nat) == grid_dim(w, l),
{
    lemma_grid_dim_tower(w, 1, (l - 1) as nat);
}

/// After `levels(w, h)` aggregation steps a single block covers the board,
/// and never before.
pub proof fn lemma_levels_cover(w: int, h: int)
    requires
        1 <= w,
        1 <= h,
    ensures
        grid_dim(w, levels(w, h)) == 1,
        grid_dim(h, levels(w, h)) == 1,
        forall|l: nat|
            l < levels(w, h) ==> #[trigger] grid_dim(w, l) * grid_dim(h, l) > 1,
    decreases w + h,
{
    let t = levels(w, h);
    if w * h <= 1 {
        assert(w == 1 && h == 1) by (nonlinear_arith)
            requires 1 <= w, 1 <= h, w * h <= 1;
    } else {
        lemma_ceil3_bounds(w);
        lemma_ceil3_bounds(h);
        lemma_levels_cover(ceil3(w), ceil3(h));
        lemma_grid_dim_shift(w, t);
        lemma_grid_dim_shift(h, t);
        assert forall|l: nat| l < t implies #[trigger] grid_dim(w, l) * grid_dim(h, l) > 1 by {
            if l == 0 {
                assert(w * h > 1);
            } else {
                lemma_grid_dim_shift(w, l);
                lemma_grid_dim_shift(h, l);
                assert(grid_dim(ceil3(w), (l - 1) as nat) * grid_dim(ceil3(h), (l - 1) as nat)
                    > 1);
            }
        }
    }
}

/// Blocks cover the row without a full spare block at the end:
/// `3^l * (grid_dim(w, l) - 1) < w`.
pub proof fn lemma_pow3_covers_tight(w: int, l: nat)
    requires
        1 <= w,
    ensures
        pow3(l) * (grid_dim(w, l) - 1) < w,
    decreases l,
{
    if l == 0 {
        assert(pow3(0) == 1);
        assert(pow3(l) * (grid_dim(w, l) - 1) == w - 1);
    } else {
        let g = grid_dim(w, (l - 1) as nat);
        let p = pow3((l - 1) as nat) as int;
        lemma_grid_dim_pos(w, (l - 1) as nat);
        lemma_pow3_covers_tight(w, (l - 1) as nat);
        lemma_ceil3_bounds(g);
        lemma_pow3_pos((l - 1) as nat);
        assert(pow3(l) * (grid_dim(w, l) - 1) == p * (3 * (ceil3(g) - 1))) by (nonlinear_arith)
            requires
                pow3(l) == 3 * p,
                grid_dim(w, l) == ceil3(g),
        ;
        assert(p * (3 * (ceil3(g) - 1)) <= p * (g - 1)) by (nonlinear_arith)
            requires
                p >= 1,
                3 * (ceil3(g) - 1) <= g - 1,
        ;
    }
}

/// Once a single block covers the row, coarser levels stay at one block.
pub proof fn lemma_grid_dim_one_stays(w: int, l: nat, m: nat)
    requires
        grid_dim(w, l) == 1,
        l <= m,
    ensures
        grid_dim(w, m) == 1,
    decreases m - l,
{
    if m > l {
        lemma_grid_dim_one_stays(w, l, (m - 1) as nat);
        assert(ceil3(1) == 1);
    }
}

/// `levels(w, h)` is the first level whose grid is a single block, so a
/// level is the top one exactly when its own grid is a single block and the
/// grid below is not.
pub proof fn lemma_levels_char(w: int, h: int, l: nat)
    requires
        1 <= w,
        1 <= h,
        grid_dim(w, l) * grid_dim(h, l) == 1,
        l >= 1 ==> grid_dim(w, (l - 1) as nat) * grid_dim(h, (l - 1) as nat) > 1,
    ensures
        levels(w, h) == l,
{
    let t = levels(w, h);
    lemma_levels_cover(w, h);
    if t < l {
        // the grid below level l would already be a single block
        lemma_grid_dim_pos(w, (l - 1) as nat);
        lemma_grid_dim_pos(h, (l - 1) as nat);
        lemma_grid_dim_one_stays(w, t, (l - 1) as nat);
        lemma_grid_dim_one_stays(h, t, (l - 1) as nat);
    }
    if t > l {
        assert(grid_dim(w, l) * grid_dim(h, l) > 1);
    }
}

/// Later levels start later in the arena.
pub proof fn lemma_level_base_mono(w: int, h: int, l1: nat, l2: nat)
    requires
        1 <= w,
        1 <= h,
        l1 <= l2,
    ensures
        level_base(w, h, l1) <= level_base(w, h, l2),
    decreases l2 - l1,
{
    if l2 > l1 {
        lemma_level_base_mono(w, h, l1, (l2 - 1) as nat);
        if l2 >= 2 {
            let g1 = grid_dim(w, (l2 - 1) as nat);
            let g2 = grid_dim(h, (l2 - 1) as nat);
            lemma_grid_dim_pos(w, (l2 - 1) as nat);
            lemma_grid_dim_pos(h, (l2 - 1) as nat);
            assert(g1 * g2 >= 1) by (nonlinear_arith)
                requires g1 >= 1, g2 >= 1;
        }
    }
}

/// A node's arena index lies in its level's segment of the arena.
pub proof fn lemma_node_id_range(w: int, h: int, l: nat, bx: int, by: int)
    requires
        1 <= w,
        1 <= h,
        1 <= l,
        block_in_grid(w, l, bx),
        block_in_grid(h, l, by),
    ensures
        level_base(w, h, l) <= node_id(w, h, l, bx, by),
        node_id(w, h, l, bx, by) < level_base(w, h, (l + 1) as nat),
{
    let gx = grid_dim(w, l);
    let gy = grid_dim(h, l);
    assert(0 <= by * gx) by (nonlinear_arith)
        requires 0 <= by, 0 <= gx;
    assert(by * gx + bx < gx * gy) by (nonlinear_arith)
        requires 0 <= bx < gx, 0 <= by < gy;
    assert(level_base(w, h, (l + 1) as nat) == level_base(w, h, l) + gx * gy);
}

/// Within a level, the arena index determines the block.
pub proof fn lemma_node_id_decode(w: int, h: int, l: nat, i: int)
    requires
        1 <= w,
        1 <= h,
        level_base(w, h, l) <= i < level_base(w, h, (l + 1) as nat),
    ensures
        block_in_grid(w, l, (i - level_base(w, h, l)) % grid_dim(w, l)),
        block_in_grid(h, l, (i - level_base(w, h, l)) / grid_dim(w, l)),
        i == node_id(
            w,
            h,
            l,
            (i - level_base(w, h, l)) % grid_dim(w, l),
            (i - level_base(w, h, l)) / grid_dim(w, l),
        ),
{
    let gx = grid_dim(w, l);
    let gy = grid_dim(h, l);
    let d = i - level_base(w, h, l);
    lemma_grid_dim_pos(w, l);
    lemma_grid_dim_pos(h, l);
    assert(level_base(w, h, (l + 1) as nat) == level_base(w, h, l) + gx * gy);
    lemma_fundamental_div_mod(d, gx);
    assert(d / gx < gy) by (nonlinear_arith)
        requires
            gx >= 1,
            gy >= 1,
            d < gx * gy,
            d == gx * (d / gx) + d % gx,
            0 <= d % gx < gx,
            0 <= d,
    ;
    vstd::arithmetic::div_mod::lemma_div_pos_is_pos(d, gx);
    assert((d / gx) * gx == gx * (d / gx)) by (nonlinear_arith);
}

/// One aggregation step counts the level-1 nodes and reduces the board to
/// the level-1 grid.
pub proof fn lemma_total_nodes_rec(w: int, h: int)
    requires
        1 <= w,
        1 <= h,
    ensures
        w * h <= 1 ==> total_nodes(w, h) == 0,
        w * h > 1 ==> total_nodes(w, h) == grid_dim(w, 1) * grid_dim(h, 1) + total_nodes(
            ceil3(w),
            ceil3(h),
        ),
{
    if w * h <= 1 {
        assert(levels(w, h) == 0);
        assert(level_base(w, h, 1) == 0);
    } else {
        let t = levels(w, h);
        assert(t == 1 + levels(ceil3(w), ceil3(h)));
        lemma_level_base_shift(w, h, (t + 1) as nat);
        lemma_grid_dim_shift(w, 1);
        lemma_grid_dim_shift(h, 1);
    }
}

/// Summing the level sizes from level 2 on equals summing over the shifted
/// board whose cells are the level-1 blocks.
pub proof fn lemma_level_base_shift(w: int, h: int, l: nat)
    requires
        1 <= w,
        1 <= h,
        2 <= l,
    ensures
        level_base(w, h, l) == grid_dim(w, 1) * grid_dim(h, 1) + level_base(
            ceil3(w),
            ceil3(h),
            (l - 1) as nat,
        ),
    decreases l,
{
    if l == 2 {
        assert(level_base(w, h, 2) == level_base(w, h, 1) + grid_dim(w, 1) * grid_dim(h, 1));
        assert(level_base(ceil3(w), ceil3(h), 1) == 0);
    } else {
        lemma_level_base_shift(w, h, (l - 1) as nat);
        lemma_grid_dim_shift(w, (l - 1) as nat);
        lemma_grid_dim_shift(h, (l - 1) as nat);
    }
}

/// The whole arena is no larger than the board itself.
pub proof fn lemma_total_nodes_le(w: int, h: int)
    requires
        1 <= w,
        1 <= h,
    ensures
        0 <= total_nodes(w, h) <= w * h,
    decreases w + h,
{
    lemma_total_nodes_rec(w, h);
    if w * h > 1 {
        let w2 = ceil3(w);
        let h2 = ceil3(h);
        lemma_ceil3_bounds(w);
        lemma_ceil3_bounds(h);
        assert(w2 + h2 < w + h) by (nonlinear_arith)
            requires
                1 <= w,
                1 <= h,
                w * h > 1,
                1 <= w2 <= w,
                1 <= h2 <= h,
                w >= 2 ==> w2 < w,
                h >= 2 ==> h2 < h,
        ;
        lemma_total_nodes_le(w2, h2);
        lemma_grid_dim_shift(w, 1);
        lemma_grid_dim_shift(h, 1);
        // 2 * c1 <= w * h, and total(w2, h2) <= w2 * h2 = c1
        assert(grid_dim(w, 1) == w2 && grid_dim(h, 1) == h2);
        assert(2 * (w2 * h2) <= w * h) by (nonlinear_arith)
            requires
                1 <= w,
                1 <= h,
                w * h > 1,
                1 <= w2,
                1 <= h2,
                3 * w2 <= w + 2,
                3 * h2 <= h + 2,
        ;
    }
}

/// Row-major order: an earlier cell of a `width`-wide grid has a smaller
/// index.
pub proof fn lemma_row_major_lt(width: int, xx: int, yy: int, x: int, y: int)
    requires
        0 <= xx < width,
        0 <= yy,
        0 <= x,
        yy < y || (yy == y && xx < x),
    ensures
        yy * width + xx < y * width + x,
{
    if yy < y {
        assert((yy + 1) * width <= y * width) by (nonlinear_arith)
            requires yy + 1 <= y, width >= 1;
        assert((yy + 1) * width == yy * width + width) by (nonlinear_arith);
    }
}

/// `levels` grows slower than the board edge lengths; this keeps the level
/// counter of any board far from its integer limit.
pub proof fn lemma_levels_bound(w: int, h: int)
    requires
        1 <= w,
        1 <= h,
    ensures
        levels(w, h) < w + h,
    decreases w + h,
{
    if w * h > 1 {
        lemma_ceil3_bounds(w);
        lemma_ceil3_bounds(h);
        assert(ceil3(w) + ceil3(h) < w + h) by (nonlinear_arith)
            requires
                1 <= w,
                1 <= h,
                w * h > 1,
                1 <= ceil3(w) <= w,
                1 <= ceil3(h) <= h,
                w >= 2 ==> ceil3(w) < w,
                h >= 2 ==> ceil3(h) < h,
        ;
        lemma_levels_bound(ceil3(w), ceil3(h));
    }
}

/// While any level still has more than one block, block spans stay within
/// three board lengths; this bounds every center coordinate.
pub proof fn lemma_pow3_level_bound(w: int, h: int, l: nat)
    requires
        1 <= w,
        1 <= h,
        1 <= l,
        grid_dim(w, (l - 1) as nat) * grid_dim(h, (l - 1) as nat) > 1,
    ensures
        pow3(l) < 3 * w + 3 * h,
{
    let gw = grid_dim(w, (l - 1) as nat);
    let gh = grid_dim(h, (l - 1) as nat);
    lemma_grid_dim_pos(w, (l - 1) as nat);
    lemma_grid_dim_pos(h, (l - 1) as nat);
    assert(gw >= 2 || gh >= 2) by (nonlinear_arith)
        requires gw >= 1, gh >= 1, gw * gh > 1;
    let p = pow3((l - 1) as nat) as int;
    lemma_pow3_pos((l - 1) as nat);
    if gw >= 2 {
        lemma_pow3_covers_tight(w, (l - 1) as nat);
        assert(p <= p * (gw - 1)) by (nonlinear_arith)
            requires p >= 1, gw >= 2;
        assert(pow3(l) < 3 * w);
    } else {
        lemma_pow3_covers_tight(h, (l - 1) as nat);
        assert(p <= p * (gh - 1)) by (nonlinear_arith)
            requires p >= 1, gh >= 2;
        assert(pow3(l) < 3 * h);
    }
}

/// On a square board whose side is a power of three the node count meets
/// the geometric-series bound exactly: eight times the total node count is
/// one less than the number of cells, so the tree always stays below an
/// eighth of the leaf count. (On other board shapes the rounding of partial
/// blocks can push the count above that bound.)
pub proof fn lemma_node_count_geometric(e: nat)
    ensures
        8 * total_nodes(pow3(e) as int, pow3(e) as int) + 1 == pow3(e) * pow3(e),
    decreases e,
{
    let s = pow3(e) as int;
    lemma_pow3_pos(e);
    if e == 0 {
        assert(pow3(0) == 1);
        assert(levels(1, 1) == 0);
        assert(level_base(1, 1, 1) == 0);
        assert(total_nodes(1, 1) == 0);
        assert(s == 1);
        assert(8 * total_nodes(s, s) + 1 == 1);
        assert(s * s == 1) by (nonlinear_arith)
            requires s == 1;
        assert(8 * total_nodes(s, s) + 1 == s * s);
    } else {
        let p = pow3((e - 1) as nat) as int;
        lemma_pow3_pos((e - 1) as nat);
        assert(s == 3 * p);
        assert(ceil3(s) == p) by {
            lemma_fundamental_div_mod_converse(s + 2, 3, p, 2);
        }
        assert(s * s > 1) by (nonlinear_arith)
            requires s >= 3;
        lemma_total_nodes_rec(s, s);
        assert(grid_dim(s, 0) == s);
        assert(grid_dim(s, 1) == ceil3(s));
        lemma_node_count_geometric((e - 1) as nat);
        assert(8 * total_nodes(p, p) + 1 == p * p);
        assert(total_nodes(s, s) == p * p + total_nodes(p, p));
        assert(8 * total_nodes(s, s) + 1 == 8 * (p * p) + 8 * total_nodes(p, p) + 1);
        assert(8 * (p * p) + (p * p) == 9 * (p * p));
        assert(s * s == 9 * (p * p)) by (nonlinear_arith)
            requires s == 3 * p;
        assert(8 * total_nodes(s, s) + 1 == s * s);
    }
    assert(s * s == pow3(e) * pow3(e)) by (nonlinear_arith)
        requires s == pow3(e);
}

} // verus!
