//! The consistency harness: the tree is compared, cell by cell, against the
//! flat dictionary baseline.
//!
//! Both queries carry the same contract — the returned handles are exactly
//! the in-bounds Moore neighborhood — so the comparison is proved to
//! succeed on every pair of well-formed indexes over the same board. It
//! stays a runtime diagnostic for data the verifier has not seen.

use vstd::prelude::*;
use crate::coords::{leaf_id, lemma_leaf_id_in_range, moore_id_set};
use crate::flat::FlatIndex;
use crate::index::GridIndex;
use crate::query::seq_ids;
use crate::storage::{neighbor_list_items, NeighborList};

verus! {

/// True exactly when `v` holds `e`.
fn vec_contains(v: &Vec<usize>, e: usize) -> (r: bool)
    ensures
        r == v@.contains(e),
{
    let mut i: usize = 0;
    while i < v.len()
        invariant
            i <= v.len(),
            forall|k: int| 0 <= k < i ==> v@[k] != e,
        decreases v.len() - i,
    {
        if v[i] == e {
            return true;
        }
        i += 1;
    }
    false
}

/// True exactly when the neighbor list holds `e`.
fn list_contains(l: &NeighborList, e: usize) -> (r: bool)
    ensures
        r == neighbor_list_items(*l).contains(e),
{
    let mut i: usize = 0;
    let n = l.len();
    while i < n
        invariant
            i <= n,
            n == neighbor_list_items(*l).len(),
            forall|k: int| 0 <= k < i ==> neighbor_list_items(*l)[k] != e,
        decreases n - i,
    {
        if l.get(i) == e {
            return true;
        }
        i += 1;
    }
    false
}

impl GridIndex {
    /// Compares this index against the flat baseline on every cell: the two
    /// queries must return the same set of handles. The comparison is proved
    /// to succeed for any two well-formed indexes over the same board, so a
    /// failure can only mean the arenas were corrupted after construction.
    #[verifier::loop_isolation(false)]
    #[verifier::rlimit(60)]
    pub fn check_neighbors(&self, flat: &FlatIndex) -> (r: bool)
        requires
            self.wf(),
            flat.wf(),
            self.width == flat.width,
            self.height == flat.height,
        ensures
            r,
    {
        let ghost wi: int = self.w();
        let ghost hi: int = self.h();
        let w: usize = self.width as usize;
        let mut y: u16 = 0;
        while y < self.height
            invariant
                y <= self.height,
            decreases self.height - y,
        {
            let mut x: u16 = 0;
            while x < self.width
                invariant
                    x <= self.width,
                    y < self.height,
                decreases self.width - x,
            {
                proof {
                    lemma_leaf_id_in_range(wi, hi, x as int, y as int);
                    assert(wi * hi <= 65535 * 65535) by (nonlinear_arith)
                        requires 1 <= wi <= 65535, 1 <= hi <= 65535;
                }
                let leaf: usize = (y as usize) * w + (x as usize);
                proof {
                    assert(leaf == leaf_id(wi, x as int, y as int));
                    assert(crate::index::leaf_ok_at(
                        self.w(), self.h(), self.t(), self.leaves@, x as int, y as int,
                    ));
                    assert(self.leaves@[leaf as int].coords.x == x);
                    assert(self.leaves@[leaf as int].coords.y == y);
                }
                let tree_list = self.find_neighbors(leaf);
                let flat_list = flat.find_neighbors(x, y);
                let ghost moore: Set<int> = moore_id_set(wi, hi, x as int, y as int);
                proof {
                    assert(seq_ids(neighbor_list_items(tree_list)) == moore);
                    assert(seq_ids(flat_list@) == moore);
                }

                let n = tree_list.len();
                let mut i: usize = 0;
                while i < n
                    invariant
                        i <= n,
                        n == neighbor_list_items(tree_list).len(),
                        seq_ids(neighbor_list_items(tree_list)) == seq_ids(flat_list@),
                    decreases n - i,
                {
                    let e = tree_list.get(i);
                    if !vec_contains(&flat_list, e) {
                        proof {
                            assert(seq_ids(neighbor_list_items(tree_list)).contains(e as int))
                                by {
                                assert(neighbor_list_items(tree_list)[i as int] as int
                                    == e as int);
                            }
                            let idx = choose|idx: int|
                                0 <= idx < flat_list@.len() && flat_list@[idx] as int
                                    == e as int;
                            assert(flat_list@[idx] == e);
                            assert(false);
                        }
                        return false;
                    }
                    i += 1;
                }

                let fn_count = flat_list.len();
                let mut i2: usize = 0;
                while i2 < fn_count
                    invariant
                        i2 <= fn_count,
                        fn_count == flat_list@.len(),
                        seq_ids(neighbor_list_items(tree_list)) == seq_ids(flat_list@),
                    decreases fn_count - i2,
                {
                    let e = flat_list[i2];
                    if !list_contains(&tree_list, e) {
                        proof {
                            assert(seq_ids(flat_list@).contains(e as int)) by {
                                assert(flat_list@[i2 as int] as int == e as int);
                            }
                            let idx = choose|idx: int|
                                0 <= idx < neighbor_list_items(tree_list).len()
                                    && neighbor_list_items(tree_list)[idx] as int == e as int;
                            assert(neighbor_list_items(tree_list)[idx] == e);
                            assert(neighbor_list_items(tree_list).contains(e));
                            assert(false);
                        }
                        return false;
                    }
                    i2 += 1;
                }
                x += 1;
            }
            y += 1;
        }
        true
    }
}

} // verus!
