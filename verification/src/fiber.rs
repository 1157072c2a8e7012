use vstd::prelude::*;
use crate::counts::{count_le, nondecreasing, lemma_count_le_partition, partition_index};

verus! {

/// A compressed sparse fiber over `D` dimensions, with `i64` coordinates and
/// scalar values of type `T`.
///
/// - `fids[l]` concatenates, parent group by parent group, the distinct
///   coordinates that the stored rows take at level `l`.
/// - `fptr[l]` is a CSR-style offset row: entries `fptr[l][k]..fptr[l][k + 1]`
///   of `fids[l + 1]` are the children of entry `k` of `fids[l]`.
/// - `vals` holds one scalar per stored row, aligned with `fids[D - 1]`.
pub struct CompressedSparseFiber<T> {
    pub fptr: Vec<Vec<usize>>,
    pub fids: Vec<Vec<i64>>,
    pub vals: Vec<T>,
}

/// The structural invariants of the three parallel arrays: one pointer row
/// between every pair of adjacent levels, each pointer row nondecreasing
/// from 0 to the length of the next level, and one value per deepest entry.
pub open spec fn wf_arrays(fptr: Seq<Seq<usize>>, fids: Seq<Seq<i64>>, nvals: int) -> bool {
    let d = fids.len() as int;
    &&& fptr.len() == (if d == 0 {
        0int
    } else {
        d - 1
    })
    &&& (d == 0 ==> nvals == 0)
    &&& (d > 0 ==> nvals == fids[d - 1].len())
    &&& (forall|l: int| 0 <= l < fptr.len() ==> (#[trigger] fptr[l]).len() == fids[l].len() + 1)
    &&& (forall|l: int| 0 <= l < fptr.len() ==> (#[trigger] fptr[l])[0] == 0)
    &&& (forall|l: int|
        0 <= l < fptr.len() ==> (#[trigger] fptr[l])[fptr[l].len() - 1] == fids[l + 1].len())
    &&& (forall|l: int| 0 <= l < fptr.len() ==> nondecreasing(#[trigger] fptr[l]))
}

/// Within the implicit root group of the top level, and within every
/// parent-delimited group of a deeper level, the stored coordinates
/// strictly ascend — so no group holds a coordinate twice.
pub open spec fn groups_sorted(fptr: Seq<Seq<usize>>, fids: Seq<Seq<i64>>) -> bool {
    &&& (fids.len() > 0 ==> (forall|k1: int, k2: int|
        0 <= k1 < k2 < fids[0].len() ==> #[trigger] fids[0][k1] < #[trigger] fids[0][k2]))
    &&& (forall|l: int, p: int, k1: int, k2: int|
        #![trigger fptr[l][p], fids[l + 1][k1], fids[l + 1][k2]]
        0 <= l < fptr.len() && 0 <= p < fptr[l].len() - 1 && fptr[l][p] <= k1 < k2 < fptr[l][p
            + 1] ==> fids[l + 1][k1] < fids[l + 1][k2])
}

/// The index that leaf `leaf` occupies `up` levels above the deepest level:
/// at the deepest level it is `leaf` itself, and one level higher it is the
/// parent group that the partition point of the pointer row selects.
pub open spec fn index_at(fptr: Seq<Seq<usize>>, leaf: int, up: nat) -> int
    decreases up,
{
    if up == 0 {
        leaf
    } else {
        count_le(fptr[fptr.len() - up], index_at(fptr, leaf, (up - 1) as nat)) - 1
    }
}

/// The full coordinate tuple of leaf `leaf`: at each level, the coordinate
/// stored at the index of the leaf's ancestor on that level.
pub open spec fn leaf_coords(fptr: Seq<Seq<usize>>, fids: Seq<Seq<i64>>, leaf: int) -> Seq<i64> {
    Seq::new(fids.len(), |l: int| fids[l][index_at(fptr, leaf, (fids.len() - 1 - l) as nat)])
}

/// Every ancestor index of a stored leaf stays within its level's bounds.
pub proof fn lemma_index_at_bounds(
    fptr: Seq<Seq<usize>>,
    fids: Seq<Seq<i64>>,
    nvals: int,
    leaf: int,
    up: nat,
)
    requires
        wf_arrays(fptr, fids, nvals),
        fids.len() > 0,
        0 <= leaf < fids[fids.len() - 1].len(),
        up <= fptr.len(),
    ensures
        0 <= index_at(fptr, leaf, up) < fids[fptr.len() - up].len(),
    decreases up,
{
    if up > 0 {
        lemma_index_at_bounds(fptr, fids, nvals, leaf, (up - 1) as nat);
        let l = fptr.len() - up;
        let c = index_at(fptr, leaf, (up - 1) as nat);
        lemma_count_le_partition(fptr[l], c);
        let j = count_le(fptr[l], c);
        if j == 0 {
            assert(fptr[l][0] > c);
            assert(false);
        }
        if j == fptr[l].len() {
            assert(fptr[l][fptr[l].len() - 1] <= c);
            assert(false);
        }
    }
}

impl<T> CompressedSparseFiber<T> {
    /// The pointer rows as mathematical sequences.
    pub open spec fn fptr_view(&self) -> Seq<Seq<usize>> {
        self.fptr@.map_values(|r: Vec<usize>| r@)
    }

    /// The coordinate rows as mathematical sequences.
    pub open spec fn fids_view(&self) -> Seq<Seq<i64>> {
        self.fids@.map_values(|r: Vec<i64>| r@)
    }

    /// The number of stored rows.
    pub open spec fn num_rows(&self) -> int {
        self.vals@.len() as int
    }

    /// The structural invariants hold of this instance.
    pub open spec fn wf(&self) -> bool {
        wf_arrays(self.fptr_view(), self.fids_view(), self.vals@.len() as int)
    }

    /// The reconstructed coordinate tuple of the leaf at `leaf`.
    pub open spec fn row_coords(&self, leaf: int) -> Seq<i64> {
        leaf_coords(self.fptr_view(), self.fids_view(), leaf)
    }

    /// Wrap three prebuilt parallel arrays as a fiber, unchanged.
    pub fn new(fptr: Vec<Vec<usize>>, fids: Vec<Vec<i64>>, vals: Vec<T>) -> (r: Self)
        ensures
            r.fptr == fptr,
            r.fids == fids,
            r.vals == vals,
    {
        CompressedSparseFiber { fptr, fids, vals }
    }
}

impl<T: Copy> CompressedSparseFiber<T> {
    /// Reconstruct the full coordinate tuple and the value of the row stored
    /// at leaf index `index`, by walking the pointer rows upward with a
    /// partition-point search at each level.
    pub fn expand_row(&self, index: usize) -> (r: (Vec<i64>, T))
        requires
            self.wf(),
            index < self.vals@.len(),
        ensures
            r.0@ == self.row_coords(index as int),
            r.1 == self.vals@[index as int],
    {
        let ghost fv = self.fptr_view();
        let ghost gv = self.fids_view();
        let depth = self.fids.len();
        let mut idxs: Vec<usize> = Vec::new();
        idxs.push(index);
        proof {
            lemma_index_at_bounds(fv, gv, self.vals@.len() as int, index as int, 0);
        }
        let mut level = depth - 1;
        while level > 0
            invariant
                self.wf(),
                fv == self.fptr_view(),
                gv == self.fids_view(),
                depth == self.fids@.len(),
                index < self.vals@.len(),
                level <= depth - 1,
                idxs@.len() == depth - level,
                forall|k: int|
                    0 <= k < idxs@.len() ==> #[trigger] idxs@[k] as int == index_at(
                        fv,
                        index as int,
                        k as nat,
                    ),
                forall|k: int|
                    0 <= k < idxs@.len() ==> 0 <= #[trigger] idxs@[k] < gv[depth - 1 - k].len(),
            decreases level,
        {
            level = level - 1;
            let ghost up_prev = (depth - 2 - level) as nat;
            let current = idxs[idxs.len() - 1];
            proof {
                lemma_index_at_bounds(fv, gv, self.vals@.len() as int, index as int, up_prev + 1);
                assert(fv[level as int] == self.fptr@[level as int]@);
            }
            let j = partition_index(&self.fptr[level], current);
            proof {
                assert(index_at(fv, index as int, up_prev + 1) == count_le(
                    fv[fv.len() - (up_prev + 1)],
                    index_at(fv, index as int, up_prev),
                ) - 1);
                assert(fv.len() - (up_prev + 1) == level as int);
                assert(j as int == count_le(fv[level as int], current as int));
            }
            idxs.push(j - 1);
        }
        let mut coords: Vec<i64> = Vec::new();
        let mut l: usize = 0;
        while l < depth
            invariant
                self.wf(),
                fv == self.fptr_view(),
                gv == self.fids_view(),
                depth == self.fids@.len(),
                index < self.vals@.len(),
                l <= depth,
                idxs@.len() == depth,
                forall|k: int|
                    0 <= k < idxs@.len() ==> #[trigger] idxs@[k] as int == index_at(
                        fv,
                        index as int,
                        k as nat,
                    ),
                forall|k: int|
                    0 <= k < idxs@.len() ==> 0 <= #[trigger] idxs@[k] < gv[depth - 1 - k].len(),
                coords@.len() == l,
                forall|m: int|
                    0 <= m < l ==> #[trigger] coords@[m] == gv[m][index_at(
                        fv,
                        index as int,
                        (depth - 1 - m) as nat,
                    )],
            decreases depth - l,
        {
            proof {
                assert(gv[l as int] == self.fids@[l as int]@);
            }
            let c = self.fids[l][idxs[depth - 1 - l]];
            coords.push(c);
            l = l + 1;
        }
        proof {
            assert(coords@ =~= self.row_coords(index as int));
        }
        (coords, self.vals[index])
    }
}

/// A forward-only cursor over the stored rows of a fiber, held apart from
/// the structure itself so that independent traversals can coexist.
pub struct RowCursor {
    pub next_index: usize,
}

impl RowCursor {
    /// A cursor standing at the first stored row.
    pub fn new() -> (c: RowCursor)
        ensures
            c.next_index == 0,
    {
        RowCursor { next_index: 0 }
    }

    /// Reconstruct the row under the cursor and advance by one; signal
    /// completion once every stored row has been yielded.
    pub fn next<T: Copy>(&mut self, csf: &CompressedSparseFiber<T>) -> (r: Option<(Vec<i64>, T)>)
        requires
            csf.wf(),
        ensures
            old(self).next_index < csf.vals@.len() ==> {
                &&& r is Some
                &&& (r->Some_0).0@ == csf.row_coords(old(self).next_index as int)
                &&& (r->Some_0).1 == csf.vals@[old(self).next_index as int]
                &&& final(self).next_index == old(self).next_index + 1
            },
            old(self).next_index >= csf.vals@.len() ==> r is None && final(self).next_index == old(
                self,
            ).next_index,
    {
        if self.next_index < csf.vals.len() {
            let row = csf.expand_row(self.next_index);
            self.next_index = self.next_index + 1;
            Some(row)
        } else {
            None
        }
    }
}

} // verus!
