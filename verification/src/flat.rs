//! The flat neighbor index: a direct dictionary from packed coordinates to
//! leaf handles, with the eight adjacent cells looked up one by one.
//!
//! It answers the same query as the tree — both are proved to return exactly
//! [`moore_id_set`] — and serves as the simple baseline for small boards and
//! as the oracle against which the tree is checked.

use vstd::prelude::*;
use std::collections::HashMap;
use crate::coords::{in_bounds, leaf_id, moore_id_set, slot_delta};
use crate::index::BuildError;
use crate::query::{delta_slot, seq_ids};

verus! {

broadcast use vstd::std_specs::hash::group_hash_axioms;

/// The dictionary key of cell `(x, y)`: both coordinates packed into one
/// integer.
pub open spec fn flat_key(x: int, y: int) -> int {
    x * 0x10000 + y
}

/// What the dictionary of a `w x h` board holds: every in-bounds cell's
/// packed coordinates, mapped to the cell's handle.
pub open spec fn flat_map_spec(w: int, h: int) -> Map<u32, usize> {
    Map::new(
        |k: u32| in_bounds(w, h, k as int / 0x10000, k as int % 0x10000),
        |k: u32| leaf_id(w, k as int / 0x10000, k as int % 0x10000) as usize,
    )
}

/// Packing coordinates and unpacking a key are inverse to each other.
proof fn lemma_flat_key_decode(x: int, y: int)
    requires
        0 <= x < 0x10000,
        0 <= y < 0x10000,
    ensures
        flat_key(x, y) / 0x10000 == x,
        flat_key(x, y) % 0x10000 == y,
        0 <= flat_key(x, y) <= u32::MAX,
{
    vstd::arithmetic::div_mod::lemma_fundamental_div_mod_converse(flat_key(x, y), 0x10000, x, y);
}

/// The flat coordinate dictionary over a `width x height` board.
pub struct FlatIndex {
    pub width: u16,
    pub height: u16,
    /// Packed coordinates of every cell, mapped to the cell's handle.
    pub map: HashMap<u32, usize>,
}

impl FlatIndex {
    pub open spec fn w(self) -> int {
        self.width as int
    }

    pub open spec fn h(self) -> int {
        self.height as int
    }

    /// A built dictionary: exactly one entry per board cell.
    pub open spec fn wf(self) -> bool {
        &&& 1 <= self.width
        &&& 1 <= self.height
        &&& self.map@ == flat_map_spec(self.w(), self.h())
    }

    /// Fills the dictionary with every cell of a `width x height` board.
    /// As with the tree, the only rejected input is a board without cells.
    #[verifier::loop_isolation(false)]
    #[verifier::rlimit(60)]
    pub fn build(width: u16, height: u16) -> (r: Result<FlatIndex, BuildError>)
        ensures
            r is Ok <==> width >= 1 && height >= 1,
            r matches Ok(f) ==> f.wf() && f.width == width && f.height == height,
    {
        if width == 0 || height == 0 {
            return Err(BuildError::ZeroDimension);
        }
        let w: usize = width as usize;
        let h: usize = height as usize;
        let ghost wi: int = width as int;
        let ghost hi: int = height as int;
        let mut map: HashMap<u32, usize> = HashMap::new();
        proof {
            assert(map@ =~= Map::new(
                |k: u32| in_bounds(wi, hi, k as int / 0x10000, k as int % 0x10000) && (k as int
                    / 0x10000 < 0 || (k as int / 0x10000 == 0 && k as int % 0x10000 < 0)),
                |k: u32| leaf_id(wi, k as int / 0x10000, k as int % 0x10000) as usize,
            ));
        }
        let mut x: usize = 0;
        while x < w
            invariant
                x <= w,
                map@ == Map::new(
                    |k: u32| in_bounds(wi, hi, k as int / 0x10000, k as int % 0x10000) && (k as int
                        / 0x10000 < x || (k as int / 0x10000 == x && k as int % 0x10000 < 0)),
                    |k: u32| leaf_id(wi, k as int / 0x10000, k as int % 0x10000) as usize,
                ),
            decreases w - x,
        {
            let mut y: usize = 0;
            while y < h
                invariant
                    x < w,
                    y <= h,
                    map@ == Map::new(
                        |k: u32| in_bounds(wi, hi, k as int / 0x10000, k as int % 0x10000) && (
                        k as int / 0x10000 < x || (k as int / 0x10000 == x && k as int % 0x10000
                            < y)),
                        |k: u32| leaf_id(wi, k as int / 0x10000, k as int % 0x10000) as usize,
                    ),
                decreases h - y,
            {
                let key: u32 = (x as u32) * 0x10000 + (y as u32);
                proof {
                    lemma_flat_key_decode(x as int, y as int);
                    crate::coords::lemma_leaf_id_in_range(wi, hi, x as int, y as int);
                    assert(wi * hi <= 65535 * 65535) by (nonlinear_arith)
                        requires 1 <= wi <= 65535, 1 <= hi <= 65535;
                }
                let ghost prev: Map<u32, usize> = map@;
                map.insert(key, y * w + x);
                proof {
                    assert(y * w + x == leaf_id(wi, x as int, y as int) as usize) by {
                        assert((y as int) * wi + x as int == leaf_id(wi, x as int, y as int));
                    }
                    let newm = Map::new(
                        |k: u32| in_bounds(wi, hi, k as int / 0x10000, k as int % 0x10000) && (
                        k as int / 0x10000 < x || (k as int / 0x10000 == x && k as int % 0x10000
                            < y + 1)),
                        |k: u32| leaf_id(wi, k as int / 0x10000, k as int % 0x10000) as usize,
                    );
                    assert forall|k: u32| #[trigger] newm.contains_key(k) == map@.contains_key(
                        k,
                    ) && (newm.contains_key(k) ==> newm[k] == map@[k]) by {
                        vstd::arithmetic::div_mod::lemma_fundamental_div_mod(k as int, 0x10000);
                    }
                    assert(map@ =~= newm);
                }
                y += 1;
            }
            proof {
                let newm = Map::new(
                    |k: u32| in_bounds(wi, hi, k as int / 0x10000, k as int % 0x10000) && (
                    k as int / 0x10000 < x + 1 || (k as int / 0x10000 == x + 1 && k as int
                        % 0x10000 < 0)),
                    |k: u32| leaf_id(wi, k as int / 0x10000, k as int % 0x10000) as usize,
                );
                assert(map@ =~= newm);
            }
            x += 1;
        }
        let f = FlatIndex { width, height, map };
        proof {
            assert(f.map@ =~= flat_map_spec(wi, hi));
        }
        Ok(f)
    }

    /// Returns the handles of all cells adjacent to `(x, y)`: each of the
    /// eight surrounding coordinates is looked up in the dictionary, and the
    /// off-board ones contribute nothing.
    #[verifier::loop_isolation(false)]
    #[verifier::rlimit(60)]
    pub fn find_neighbors(&self, x: u16, y: u16) -> (r: Vec<usize>)
        requires
            self.wf(),
            x < self.width,
            y < self.height,
        ensures
            r@.no_duplicates(),
            seq_ids(r@) == moore_id_set(self.w(), self.h(), x as int, y as int),
    {
        let ghost wi: int = self.w();
        let ghost hi: int = self.h();
        let ghost xi: int = x as int;
        let ghost yi: int = y as int;
        let ghost moore: Set<int> = moore_id_set(wi, hi, xi, yi);
        proof {
            assert(wi * hi <= 65535 * 65535) by (nonlinear_arith)
                requires 1 <= wi <= 65535, 1 <= hi <= 65535;
        }
        let mut r: Vec<usize> = Vec::new();
        let mut k: usize = 1;
        while k < 9
            invariant
                1 <= k <= 9,
                r@.no_duplicates(),
                seq_ids(r@) =~= Set::new(
                    |j: int|
                        moore.contains(j) && delta_slot((j % wi) - xi, (j / wi) - yi) < k,
                ),
            decreases 9 - k,
        {
            let (dx, dy) = crate::coords::slot_delta_at(k);
            proof {
                assert(-1 <= slot_delta(k as int).0 <= 1);
                assert(-1 <= slot_delta(k as int).1 <= 1);
                assert(!(slot_delta(k as int).0 == 0 && slot_delta(k as int).1 == 0));
            }
            let nx: i64 = x as i64 + dx as i64;
            let ny: i64 = y as i64 + dy as i64;
            let ghost nxi: int = xi + slot_delta(k as int).0;
            let ghost nyi: int = yi + slot_delta(k as int).1;
            if 0 <= nx && nx < self.width as i64 && 0 <= ny && ny < self.height as i64 {
                let key: u32 = (nx as u32) * 0x10000 + (ny as u32);
                proof {
                    lemma_flat_key_decode(nxi, nyi);
                    assert(self.map@.contains_key(key));
                    assert(self.map@[key] == leaf_id(wi, nxi, nyi) as usize);
                }
                if let Some(id) = self.map.get(&key) {
                    let cid: usize = *id;
                    let ghost prev: Seq<usize> = r@;
                    proof {
                        crate::coords::lemma_leaf_id_in_range(wi, hi, nxi, nyi);
                        crate::coords::lemma_leaf_id_decode(wi, nxi, nyi);
                        assert(cid == leaf_id(wi, nxi, nyi));
                        assert(moore.contains(cid as int));
                        assert(delta_slot((cid as int % wi) - xi, (cid as int / wi) - yi) == k);
                        assert(!seq_ids(prev).contains(cid as int));
                    }
                    r.push(cid);
                    proof {
                        crate::query::lemma_seq_ids_push(prev, cid);
                        crate::query::lemma_push_no_dup(prev, cid);
                    }
                } else {
                    proof {
                        assert(false);
                    }
                }
            }
            proof {
                assert forall|j: int|
                    moore.contains(j) && delta_slot((j % wi) - xi, (j / wi) - yi) < k + 1
                        implies seq_ids(r@).contains(j) by {
                    if delta_slot((j % wi) - xi, (j / wi) - yi) == k {
                        crate::coords::lemma_id_decode(wi, hi, j);
                        assert(j % wi == nxi && j / wi == nyi);
                        assert(in_bounds(wi, hi, nxi, nyi));
                        assert(j == leaf_id(wi, nxi, nyi));
                    }
                }
            }
            k += 1;
        }
        proof {
            assert(seq_ids(r@) =~= moore) by {
                assert forall|j: int| moore.contains(j) implies delta_slot(
                    (j % wi) - xi,
                    (j / wi) - yi,
                ) < 9 by {
                    crate::coords::lemma_id_decode(wi, hi, j);
                }
            }
        }
        r
    }
}

} // verus!
