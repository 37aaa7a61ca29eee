//! Cell coordinates, leaf handles, and the Moore-neighborhood model.

use vstd::prelude::*;

verus! {

/// A cell position on the board: `x` grows to the right, `y` upward.
#[derive(Clone, Copy, Debug, PartialEq, Eq, Hash, Structural)]
pub struct Coordinates {
    pub x: u16,
    pub y: u16,
}

/// Row-major handle of the cell `(x, y)` on a board of width `w`.
pub open spec fn leaf_id(w: int, x: int, y: int) -> int {
    y * w + x
}

/// Does `(x, y)` lie on a `w x h` board?
pub open spec fn in_bounds(w: int, h: int, x: int, y: int) -> bool {
    0 <= x < w && 0 <= y < h
}

/// Chebyshev distance exactly 1: `(nx, ny)` touches `(x, y)` horizontally,
/// vertically or diagonally and is distinct from it.
pub open spec fn is_moore_neighbor(x: int, y: int, nx: int, ny: int) -> bool {
    &&& (nx != x || ny != y)
    &&& -1 <= nx - x <= 1
    &&& -1 <= ny - y <= 1
}

/// The handles of all in-bounds Moore neighbors of `(x, y)` on a `w x h`
/// board. Every query of this crate returns exactly this set.
pub open spec fn moore_id_set(w: int, h: int, x: int, y: int) -> Set<int> {
    Set::new(|j: int| 0 <= j < w * h && is_moore_neighbor(x, y, j % w, j / w))
}

/// The eight Moore deltas in the canonical slot order used throughout the
/// tree: slot 0 is the block center, slots 1 to 8 surround it starting at
/// the bottom-left corner and sweeping row by row upward.
pub open spec fn slot_delta(k: int) -> (int, int) {
    if k == 1 { (-1, -1) }
    else if k == 2 { (0, -1) }
    else if k == 3 { (1, -1) }
    else if k == 4 { (-1, 0) }
    else if k == 5 { (1, 0) }
    else if k == 6 { (-1, 1) }
    else if k == 7 { (0, 1) }
    else if k == 8 { (1, 1) }
    else { (0, 0) }
}

/// Executable form of [`slot_delta`].
pub fn slot_delta_at(k: usize) -> (d: (i32, i32))
    requires
        k < 9,
    ensures
        d.0 as int == slot_delta(k as int).0,
        d.1 as int == slot_delta(k as int).1,
{
    match k {
        1 => (-1, -1),
        2 => (0, -1),
        3 => (1, -1),
        4 => (-1, 0),
        5 => (1, 0),
        6 => (-1, 1),
        7 => (0, 1),
        8 => (1, 1),
        _ => (0, 0),
    }
}

/// A row-major handle decodes back to the cell it was built from.
pub proof fn lemma_leaf_id_decode(w: int, x: int, y: int)
    requires
        1 <= w,
        0 <= x < w,
        0 <= y,
    ensures
        0 <= leaf_id(w, x, y),
        leaf_id(w, x, y) % w == x,
        leaf_id(w, x, y) / w == y,
{
    vstd::arithmetic::div_mod::lemma_fundamental_div_mod_converse(leaf_id(w, x, y), w, y, x);
}

/// Any handle below `w * h` decodes to an in-bounds cell that encodes back
/// to it.
pub proof fn lemma_id_decode(w: int, h: int, j: int)
    requires
        1 <= w,
        1 <= h,
        0 <= j < w * h,
    ensures
        in_bounds(w, h, j % w, j / w),
        j == leaf_id(w, j % w, j / w),
{
    vstd::arithmetic::div_mod::lemma_mod_division_less_than_divisor(j, w);
    vstd::arithmetic::div_mod::lemma_fundamental_div_mod(j, w);
    vstd::arithmetic::div_mod::lemma_div_pos_is_pos(j, w);
    assert(j / w < h) by (nonlinear_arith)
        requires
            0 <= j < w * h,
            1 <= w,
            j == w * (j / w) + j % w,
            0 <= j % w < w,
    ;
    assert((j / w) * w == w * (j / w)) by (nonlinear_arith);
}

/// On a `w x h` board the handle of an in-bounds cell is below `w * h`.
pub proof fn lemma_leaf_id_in_range(w: int, h: int, x: int, y: int)
    requires
        in_bounds(w, h, x, y),
    ensures
        0 <= leaf_id(w, x, y) < w * h,
{
    assert(y * w + x < w * h) by (nonlinear_arith)
        requires 0 <= x < w, 0 <= y < h;
}

/// Soundness of the neighborhood: every handle a query may return names an
/// in-bounds cell exactly one step away from the queried cell — never a cell
/// off the board, never the queried cell itself, never anything farther.
pub proof fn lemma_moore_set_sound(w: int, h: int, x: int, y: int)
    requires
        1 <= w,
        1 <= h,
        in_bounds(w, h, x, y),
    ensures
        forall|j: int|
            moore_id_set(w, h, x, y).contains(j) ==> {
                &&& 0 <= j < w * h
                &&& in_bounds(w, h, j % w, j / w)
                &&& j != leaf_id(w, x, y)
                &&& is_moore_neighbor(x, y, j % w, j / w)
            },
{
    assert forall|j: int| moore_id_set(w, h, x, y).contains(j) implies {
        &&& 0 <= j < w * h
        &&& in_bounds(w, h, j % w, j / w)
        &&& j != leaf_id(w, x, y)
        &&& is_moore_neighbor(x, y, j % w, j / w)
    } by {
        lemma_id_decode(w, h, j);
        if j == leaf_id(w, x, y) {
            lemma_leaf_id_decode(w, x, y);
        }
    }
}

/// How many neighbors each cell class has on boards of at least two cells
/// per axis: the four corner cells have exactly three, the other edge cells
/// exactly five, and interior cells exactly eight.
#[verifier::rlimit(100)]
pub proof fn lemma_neighbor_count(w: int, h: int, x: int, y: int)
    requires
        2 <= w,
        2 <= h,
        in_bounds(w, h, x, y),
    ensures
        ((x == 0 || x == w - 1) && (y == 0 || y == h - 1)) ==> moore_id_set(w, h, x, y).len()
            == 3,
        ((x == 0 || x == w - 1) && !(y == 0 || y == h - 1)) ==> moore_id_set(w, h, x, y).len()
            == 5,
        (!(x == 0 || x == w - 1) && (y == 0 || y == h - 1)) ==> moore_id_set(w, h, x, y).len()
            == 5,
        (!(x == 0 || x == w - 1) && !(y == 0 || y == h - 1)) ==> moore_id_set(w, h, x, y).len()
            == 8,
{
    let m = moore_id_set(w, h, x, y);
    let xe = x == 0 || x == w - 1;
    let ye = y == 0 || y == h - 1;
    let a: int = if x == 0 { 1 } else { -1 };
    let b: int = if y == 0 { 1 } else { -1 };
    if xe && ye {
        let s = set![
            leaf_id(w, x + a, y),
            leaf_id(w, x, y + b),
            leaf_id(w, x + a, y + b),
        ];
        assert(m =~= s) by {
            assert forall|j: int| m.contains(j) implies s.contains(j) by {
                lemma_id_decode(w, h, j);
            }
            assert forall|j: int| s.contains(j) implies m.contains(j) by {
                lemma_moore_member(w, h, x, y, x + a, y);
                lemma_moore_member(w, h, x, y, x, y + b);
                lemma_moore_member(w, h, x, y, x + a, y + b);
            }
        }
        lemma_leaf_id_decode(w, x + a, y);
        lemma_leaf_id_decode(w, x, y + b);
        lemma_leaf_id_decode(w, x + a, y + b);
        assert(s.len() == 3);
    } else if xe && !ye {
        let s = set![
            leaf_id(w, x + a, y - 1),
            leaf_id(w, x + a, y),
            leaf_id(w, x + a, y + 1),
            leaf_id(w, x, y - 1),
            leaf_id(w, x, y + 1),
        ];
        assert(m =~= s) by {
            assert forall|j: int| m.contains(j) implies s.contains(j) by {
                lemma_id_decode(w, h, j);
            }
            assert forall|j: int| s.contains(j) implies m.contains(j) by {
                lemma_moore_member(w, h, x, y, x + a, y - 1);
                lemma_moore_member(w, h, x, y, x + a, y);
                lemma_moore_member(w, h, x, y, x + a, y + 1);
                lemma_moore_member(w, h, x, y, x, y - 1);
                lemma_moore_member(w, h, x, y, x, y + 1);
            }
        }
        lemma_leaf_id_decode(w, x + a, y - 1);
        lemma_leaf_id_decode(w, x + a, y);
        lemma_leaf_id_decode(w, x + a, y + 1);
        lemma_leaf_id_decode(w, x, y - 1);
        lemma_leaf_id_decode(w, x, y + 1);
        assert(s.len() == 5);
    } else if !xe && ye {
        let s = set![
            leaf_id(w, x - 1, y + b),
            leaf_id(w, x, y + b),
            leaf_id(w, x + 1, y + b),
            leaf_id(w, x - 1, y),
            leaf_id(w, x + 1, y),
        ];
        assert(m =~= s) by {
            assert forall|j: int| m.contains(j) implies s.contains(j) by {
                lemma_id_decode(w, h, j);
            }
            assert forall|j: int| s.contains(j) implies m.contains(j) by {
                lemma_moore_member(w, h, x, y, x - 1, y + b);
                lemma_moore_member(w, h, x, y, x, y + b);
                lemma_moore_member(w, h, x, y, x + 1, y + b);
                lemma_moore_member(w, h, x, y, x - 1, y);
                lemma_moore_member(w, h, x, y, x + 1, y);
            }
        }
        lemma_leaf_id_decode(w, x - 1, y + b);
        lemma_leaf_id_decode(w, x, y + b);
        lemma_leaf_id_decode(w, x + 1, y + b);
        lemma_leaf_id_decode(w, x - 1, y);
        lemma_leaf_id_decode(w, x + 1, y);
        assert(s.len() == 5);
    } else {
        let s = set![
            leaf_id(w, x - 1, y - 1),
            leaf_id(w, x, y - 1),
            leaf_id(w, x + 1, y - 1),
            leaf_id(w, x - 1, y),
            leaf_id(w, x + 1, y),
            leaf_id(w, x - 1, y + 1),
            leaf_id(w, x, y + 1),
            leaf_id(w, x + 1, y + 1),
        ];
        assert(m =~= s) by {
            assert forall|j: int| m.contains(j) implies s.contains(j) by {
                lemma_id_decode(w, h, j);
            }
            assert forall|j: int| s.contains(j) implies m.contains(j) by {
                lemma_moore_member(w, h, x, y, x - 1, y - 1);
                lemma_moore_member(w, h, x, y, x, y - 1);
                lemma_moore_member(w, h, x, y, x + 1, y - 1);
                lemma_moore_member(w, h, x, y, x - 1, y);
                lemma_moore_member(w, h, x, y, x + 1, y);
                lemma_moore_member(w, h, x, y, x - 1, y + 1);
                lemma_moore_member(w, h, x, y, x, y + 1);
                lemma_moore_member(w, h, x, y, x + 1, y + 1);
            }
        }
        lemma_leaf_id_decode(w, x - 1, y - 1);
        lemma_leaf_id_decode(w, x, y - 1);
        lemma_leaf_id_decode(w, x + 1, y - 1);
        lemma_leaf_id_decode(w, x - 1, y);
        lemma_leaf_id_decode(w, x + 1, y);
        lemma_leaf_id_decode(w, x - 1, y + 1);
        lemma_leaf_id_decode(w, x, y + 1);
        lemma_leaf_id_decode(w, x + 1, y + 1);
        assert(s.len() == 8);
    }
}

/// An in-bounds cell adjacent to `(x, y)` contributes its handle to the
/// neighborhood set.
proof fn lemma_moore_member(w: int, h: int, x: int, y: int, nx: int, ny: int)
    requires
        1 <= w,
        1 <= h,
        in_bounds(w, h, nx, ny),
        is_moore_neighbor(x, y, nx, ny),
    ensures
        moore_id_set(w, h, x, y).contains(leaf_id(w, nx, ny)),
{
    lemma_leaf_id_in_range(w, h, nx, ny);
    lemma_leaf_id_decode(w, nx, ny);
}

} // verus!
