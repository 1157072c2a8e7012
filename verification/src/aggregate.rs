use vstd::prelude::*;
use crate::counts::{
    nondecreasing, count_le, lemma_count_le_partition, lemma_count_le_unique,
    lemma_count_le_monotone,
};
use crate::fiber::{CompressedSparseFiber, index_at, leaf_coords, wf_arrays, lemma_index_at_bounds};

verus! {

/// How many of the first `n` leaves have their level ancestor `up` levels
/// above the deepest level at an index in `[a, b)`.
pub open spec fn count_in_range(fptr: Seq<Seq<usize>>, up: nat, a: int, b: int, n: int) -> int
    decreases n,
{
    if n <= 0 {
        0
    } else {
        count_in_range(fptr, up, a, b, n - 1) + (if a <= index_at(fptr, n - 1, up) < b {
            1int
        } else {
            0int
        })
    }
}

/// The sum, over the first `n` leaves, of the coordinate that the leaf's
/// row takes at dimension `col`.
pub open spec fn col_total(fptr: Seq<Seq<usize>>, fids: Seq<Seq<i64>>, col: int, n: int) -> int
    decreases n,
{
    if n <= 0 {
        0
    } else {
        col_total(fptr, fids, col, n - 1) + fids[col][index_at(
            fptr,
            n - 1,
            (fids.len() - 1 - col) as nat,
        )]
    }
}

/// The column total is, row by row, the sum of each stored row's
/// reconstructed coordinate at dimension `col`.
pub proof fn lemma_col_total_unfold(fptr: Seq<Seq<usize>>, fids: Seq<Seq<i64>>, col: int, n: int)
    requires
        n >= 1,
        0 <= col < fids.len(),
    ensures
        col_total(fptr, fids, col, n) == col_total(fptr, fids, col, n - 1) + leaf_coords(
            fptr,
            fids,
            n - 1,
        )[col],
{
    assert(leaf_coords(fptr, fids, n - 1)[col] == fids[col][index_at(
        fptr,
        n - 1,
        (fids.len() - 1 - col) as nat,
    )]);
}

/// Counting over `[a, c)` splits at any middle bound `b`.
pub proof fn lemma_cir_split(fptr: Seq<Seq<usize>>, up: nat, a: int, b: int, c: int, n: int)
    requires
        a <= b <= c,
    ensures
        count_in_range(fptr, up, a, c, n) == count_in_range(fptr, up, a, b, n) + count_in_range(
            fptr,
            up,
            b,
            c,
            n,
        ),
    decreases n,
{
    if n > 0 {
        lemma_cir_split(fptr, up, a, b, c, n - 1);
    }
}

/// A count over `n` leaves lies between 0 and `n`.
pub proof fn lemma_cir_bound(fptr: Seq<Seq<usize>>, up: nat, a: int, b: int, n: int)
    requires
        n >= 0,
    ensures
        0 <= count_in_range(fptr, up, a, b, n) <= n,
    decreases n,
{
    if n > 0 {
        lemma_cir_bound(fptr, up, a, b, n - 1);
    }
}

/// Counting more leaves can only raise the count.
pub proof fn lemma_cir_monotone(fptr: Seq<Seq<usize>>, up: nat, a: int, b: int, m: int, n: int)
    requires
        m <= n,
    ensures
        count_in_range(fptr, up, a, b, m) <= count_in_range(fptr, up, a, b, n),
    decreases n - m,
{
    if m < n {
        lemma_cir_monotone(fptr, up, a, b, m, n - 1);
    }
}

/// If every one of the first `n` leaves lands in `[a, b)`, all are counted.
pub proof fn lemma_cir_all(fptr: Seq<Seq<usize>>, up: nat, a: int, b: int, n: int)
    requires
        n >= 0,
        forall|leaf: int| 0 <= leaf < n ==> a <= #[trigger] index_at(fptr, leaf, up) < b,
    ensures
        count_in_range(fptr, up, a, b, n) == n,
    decreases n,
{
    if n > 0 {
        lemma_cir_all(fptr, up, a, b, n - 1);
    }
}

/// If none of the leaves from `m` on lands in `[a, b)`, the count stops
/// growing at `m`.
pub proof fn lemma_cir_stable(fptr: Seq<Seq<usize>>, up: nat, a: int, b: int, m: int, n: int)
    requires
        0 <= m <= n,
        forall|leaf: int| m <= leaf < n ==> !(a <= #[trigger] index_at(fptr, leaf, up) < b),
    ensures
        count_in_range(fptr, up, a, b, n) == count_in_range(fptr, up, a, b, m),
    decreases n,
{
    if m < n {
        lemma_cir_stable(fptr, up, a, b, m, n - 1);
    }
}

/// At the deepest level the ancestor index is the leaf index itself, so the
/// count over `[a, b)` is the length of that interval clipped to `[0, n)`.
pub proof fn lemma_cir_ground(fptr: Seq<Seq<usize>>, a: int, b: int, n: int)
    requires
        0 <= a <= b,
        n >= 0,
    ensures
        count_in_range(fptr, 0, a, b, n) == (if n <= a {
            0int
        } else if n <= b {
            n - a
        } else {
            b - a
        }),
    decreases n,
{
    if n > 0 {
        lemma_cir_ground(fptr, a, b, n - 1);
    }
}

/// A leaf's ancestor one level higher is `k` exactly when its ancestor on
/// the level below falls in the `k`-th pointer group.
pub proof fn lemma_index_group(
    fptr: Seq<Seq<usize>>,
    fids: Seq<Seq<i64>>,
    nvals: int,
    leaf: int,
    up: nat,
    k: int,
)
    requires
        wf_arrays(fptr, fids, nvals),
        fids.len() > 0,
        0 <= leaf < fids[fids.len() - 1].len(),
        up + 1 <= fptr.len(),
        0 <= k < fids[fptr.len() - (up + 1)].len(),
    ensures
        index_at(fptr, leaf, up + 1) == k <==> (fptr[fptr.len() - (up + 1)][k] <= index_at(
            fptr,
            leaf,
            up,
        ) < fptr[fptr.len() - (up + 1)][k + 1]),
{
    let l = fptr.len() - (up + 1);
    let s = fptr[l];
    let c = index_at(fptr, leaf, up);
    lemma_index_at_bounds(fptr, fids, nvals, leaf, up);
    lemma_index_at_bounds(fptr, fids, nvals, leaf, up + 1);
    assert(index_at(fptr, leaf, up + 1) == count_le(s, c) - 1);
    lemma_count_le_partition(s, c);
    if index_at(fptr, leaf, up + 1) == k {
        assert(s[k] <= c);
        assert(s[k + 1] > c);
    }
    if s[k] <= c < s[k + 1] {
        assert forall|i: int| 0 <= i < k + 1 implies s[i] <= c by {
            assert(s[i] <= s[k]);
        }
        assert forall|i: int| k + 1 <= i < s.len() implies s[i] > c by {
            assert(s[k + 1] <= s[i]);
        }
        lemma_count_le_unique(s, c, k + 1);
    }
}

/// The leaves below the `k`-th node of a level are the leaves whose
/// ancestors one level deeper lie in the node's pointer group.
pub proof fn lemma_group_count(
    fptr: Seq<Seq<usize>>,
    fids: Seq<Seq<i64>>,
    nvals: int,
    up: nat,
    k: int,
    n: int,
)
    requires
        wf_arrays(fptr, fids, nvals),
        fids.len() > 0,
        0 <= n <= fids[fids.len() - 1].len(),
        up + 1 <= fptr.len(),
        0 <= k < fids[fptr.len() - (up + 1)].len(),
    ensures
        count_in_range(fptr, up + 1, k, k + 1, n) == count_in_range(
            fptr,
            up,
            fptr[fptr.len() - (up + 1)][k] as int,
            fptr[fptr.len() - (up + 1)][k + 1] as int,
            n,
        ),
    decreases n,
{
    if n > 0 {
        lemma_group_count(fptr, fids, nvals, up, k, n - 1);
        lemma_index_group(fptr, fids, nvals, n - 1, up, k);
    }
}

/// Leaves are handed out to the nodes of a level in leaf order: the leaf
/// index grows no slower than every ancestor index.
pub proof fn lemma_index_at_monotone(fptr: Seq<Seq<usize>>, leaf1: int, leaf2: int, up: nat)
    requires
        leaf1 <= leaf2,
    ensures
        index_at(fptr, leaf1, up) <= index_at(fptr, leaf2, up),
    decreases up,
{
    if up > 0 {
        lemma_index_at_monotone(fptr, leaf1, leaf2, (up - 1) as nat);
        lemma_count_le_monotone(
            fptr[fptr.len() - up],
            index_at(fptr, leaf1, (up - 1) as nat),
            index_at(fptr, leaf2, (up - 1) as nat),
        );
    }
}

/// The leaves whose ancestor lies before node `k` are exactly the first
/// `count_in_range(.., 0, k, ..)` leaves.
pub proof fn lemma_cir_prefix(
    fptr: Seq<Seq<usize>>,
    fids: Seq<Seq<i64>>,
    nvals: int,
    up: nat,
    k: int,
    m: int,
    n: int,
)
    requires
        wf_arrays(fptr, fids, nvals),
        fids.len() > 0,
        n == fids[fids.len() - 1].len(),
        0 <= m < n,
        up <= fptr.len(),
    ensures
        index_at(fptr, m, up) < k <==> m < count_in_range(fptr, up, 0, k, n),
{
    lemma_index_at_bounds(fptr, fids, nvals, m, up);
    if index_at(fptr, m, up) < k {
        assert forall|leaf: int| 0 <= leaf < m + 1 implies 0 <= #[trigger] index_at(
            fptr,
            leaf,
            up,
        ) < k by {
            lemma_index_at_monotone(fptr, leaf, m, up);
            lemma_index_at_bounds(fptr, fids, nvals, leaf, up);
        }
        lemma_cir_all(fptr, up, 0, k, m + 1);
        lemma_cir_monotone(fptr, up, 0, k, m + 1, n);
    } else {
        assert forall|leaf: int| m <= leaf < n implies !(0 <= #[trigger] index_at(fptr, leaf, up)
            < k) by {
            lemma_index_at_monotone(fptr, m, leaf, up);
        }
        lemma_cir_stable(fptr, up, 0, k, m, n);
        lemma_cir_bound(fptr, up, 0, k, m);
    }
}

impl<T> CompressedSparseFiber<T> {
    /// For each entry of level `col_index`, the number of stored rows in its
    /// subtree: the base weights are the deepest pointer groups' sizes, and
    /// each pointer row above folds them by summing over its groups.
    #[verifier::rlimit(60)]
    pub fn weights(&self, col_index: usize) -> (w: Vec<usize>)
        requires
            self.wf(),
            col_index < self.fptr@.len(),
        ensures
            w@.len() == self.fids_view()[col_index as int].len(),
            forall|k: int|
                0 <= k < w@.len() ==> (#[trigger] w@[k]) as int == count_in_range(
                    self.fptr_view(),
                    (self.fptr@.len() - col_index) as nat,
                    k,
                    k + 1,
                    self.vals@.len() as int,
                ),
    {
        let ghost fv = self.fptr_view();
        let ghost gv = self.fids_view();
        let ghost nv = self.vals@.len() as int;
        let d1 = self.fptr.len();
        let n = self.vals.len();
        proof {
            assert(fv[d1 - 1] == self.fptr@[d1 - 1]@);
            assert(gv.len() == d1 + 1);
            assert(nv == gv[d1 as int].len());
        }

        // base weights: the sizes of the deepest pointer groups
        let last_row = &self.fptr[d1 - 1];
        let mut w: Vec<usize> = Vec::new();
        let mut k: usize = 0;
        while k < last_row.len() - 1
            invariant
                self.wf(),
                fv == self.fptr_view(),
                gv == self.fids_view(),
                nv == self.vals@.len() as int,
                d1 == self.fptr@.len(),
                1 <= d1,
                gv.len() == d1 + 1,
                nv == gv[d1 as int].len(),
                last_row@ == fv[d1 - 1],
                k <= last_row@.len() - 1,
                nv <= usize::MAX,
                w@.len() == k,
                forall|kk: int|
                    0 <= kk < k ==> (#[trigger] w@[kk]) as int == count_in_range(
                        fv,
                        1,
                        kk,
                        kk + 1,
                        nv,
                    ),
            decreases last_row@.len() - 1 - k,
        {
            proof {
                assert(gv.len() == d1 + 1);
                assert(nv == gv[d1 as int].len());
                assert(last_row@.len() == gv[d1 - 1].len() + 1);
                assert(last_row@[k as int] <= last_row@[k + 1]);
                assert(last_row@[k + 1] <= last_row@[last_row@.len() - 1]);
                lemma_group_count(fv, gv, nv, 0, k as int, nv);
                lemma_cir_ground(fv, last_row@[k as int] as int, last_row@[k + 1] as int, nv);
            }
            w.push(last_row[k + 1] - last_row[k]);
            k = k + 1;
        }

        // fold upward to the requested level
        let mut l = d1 - 1;
        while l > col_index
            invariant
                self.wf(),
                fv == self.fptr_view(),
                gv == self.fids_view(),
                nv == self.vals@.len() as int,
                d1 == self.fptr@.len(),
                1 <= d1,
                gv.len() == d1 + 1,
                nv == gv[d1 as int].len(),
                col_index <= l <= d1 - 1,
                nv <= usize::MAX,
                w@.len() == gv[l as int].len(),
                forall|kk: int|
                    0 <= kk < w@.len() ==> (#[trigger] w@[kk]) as int == count_in_range(
                        fv,
                        (d1 - l) as nat,
                        kk,
                        kk + 1,
                        nv,
                    ),
            decreases l,
        {
            l = l - 1;
            let ghost up_prev = (d1 - 1 - l) as nat;
            proof {
                assert(fv[l as int] == self.fptr@[l as int]@);
            }
            let row = &self.fptr[l];
            let mut w2: Vec<usize> = Vec::new();
            let mut k: usize = 0;
            while k < row.len() - 1
                invariant
                    self.wf(),
                    fv == self.fptr_view(),
                    gv == self.fids_view(),
                    nv == self.vals@.len() as int,
                    d1 == self.fptr@.len(),
                    1 <= d1,
                    gv.len() == d1 + 1,
                    nv == gv[d1 as int].len(),
                    col_index <= l <= d1 - 1,
                    nv <= usize::MAX,
                    row@ == fv[l as int],
                    up_prev == (d1 - 1 - l) as nat,
                    w@.len() == gv[l + 1].len(),
                    forall|kk: int|
                        0 <= kk < w@.len() ==> (#[trigger] w@[kk]) as int == count_in_range(
                            fv,
                            up_prev,
                            kk,
                            kk + 1,
                            nv,
                        ),
                    k <= row@.len() - 1,
                    w2@.len() == k,
                    forall|kk: int|
                        0 <= kk < k ==> (#[trigger] w2@[kk]) as int == count_in_range(
                            fv,
                            up_prev + 1,
                            kk,
                            kk + 1,
                            nv,
                        ),
                decreases row@.len() - 1 - k,
            {
                let lo = row[k];
                let hi = row[k + 1];
                proof {
                    assert(gv.len() == d1 + 1);
                    assert(nv == gv[d1 as int].len());
                    assert(row@.len() == gv[l as int].len() + 1);
                    assert(row@[k + 1] <= row@[row@.len() - 1]);
                    assert(row@[k as int] <= row@[k + 1]);
                    assert(row@[row@.len() - 1] == gv[l + 1].len());
                    lemma_group_count(fv, gv, nv, up_prev, k as int, nv);
                    lemma_cir_split(fv, up_prev, lo as int, lo as int, lo as int, nv);
                }
                let mut s: usize = 0;
                let mut j = lo;
                while j < hi
                    invariant
                        self.wf(),
                        fv == self.fptr_view(),
                        nv == self.vals@.len() as int,
                        lo as int == fv[l as int][k as int] as int,
                        hi as int == fv[l as int][k + 1] as int,
                        lo <= j <= hi,
                        hi <= w@.len(),
                        nv <= usize::MAX,
                        forall|kk: int|
                            0 <= kk < w@.len() ==> (#[trigger] w@[kk]) as int == count_in_range(
                                fv,
                                up_prev,
                                kk,
                                kk + 1,
                                nv,
                            ),
                        s as int == count_in_range(fv, up_prev, lo as int, j as int, nv),
                    decreases hi - j,
                {
                    proof {
                        lemma_cir_split(fv, up_prev, lo as int, j as int, j + 1, nv);
                        lemma_cir_split(fv, up_prev, lo as int, j + 1, hi as int, nv);
                        lemma_cir_bound(fv, up_prev, lo as int, hi as int, nv);
                        lemma_cir_bound(fv, up_prev, j + 1, hi as int, nv);
                        assert(s as int + w@[j as int] as int <= nv);
                    }
                    s = s + w[j];
                    j = j + 1;
                }
                w2.push(s);
                k = k + 1;
            }
            w = w2;
        }
        w
    }

    /// The sum, over every stored row, of the coordinate the row takes at
    /// dimension `col_index`. Entries of a compressed level stand for many
    /// rows, so each is accumulated once per row in its subtree; at the
    /// deepest level every entry stands for exactly one row and the row is
    /// summed directly. The caller keeps every partial sum within `i64`.
    #[verifier::rlimit(60)]
    pub fn sum_column(&self, col_index: usize) -> (r: i64)
        requires
            self.wf(),
            col_index < self.fids@.len(),
            forall|m: int|
                0 <= m <= self.vals@.len() ==> i64::MIN <= #[trigger] col_total(
                    self.fptr_view(),
                    self.fids_view(),
                    col_index as int,
                    m,
                ) <= i64::MAX,
    ensures
            r as int == col_total(
                self.fptr_view(),
                self.fids_view(),
                col_index as int,
                self.vals@.len() as int,
            ),
    {
        let ghost fv = self.fptr_view();
        let ghost gv = self.fids_view();
        let ghost nv = self.vals@.len() as int;
        let ghost col = col_index as int;
        let n = self.vals.len();
        if col_index == self.fptr.len() {
            // deepest level: one entry per row
            proof {
                assert(gv[col] == self.fids@[col]@);
                assert(gv[col].len() == nv);
            }
            let mut acc: i64 = 0;
            let mut i: usize = 0;
            while i < n
                invariant
                    self.wf(),
                    fv == self.fptr_view(),
                    gv == self.fids_view(),
                    nv == self.vals@.len() as int,
                    n as int == nv,
                    col == col_index as int,
                    col == self.fptr@.len(),
                    col < gv.len(),
                    gv[col].len() == nv,
                    i <= n,
                    forall|m: int|
                        0 <= m <= nv ==> i64::MIN <= #[trigger] col_total(fv, gv, col, m)
                            <= i64::MAX,
                    acc as int == col_total(fv, gv, col, i as int),
                decreases n - i,
            {
                proof {
                    assert(gv[col] == self.fids@[col]@);
                    assert((gv.len() - 1 - col) as nat == 0);
                    assert(index_at(fv, i as int, 0) == i as int);
                    assert(col_total(fv, gv, col, i + 1) == col_total(fv, gv, col, i as int)
                        + gv[col][i as int]);
                    assert(i64::MIN <= col_total(fv, gv, col, i + 1) <= i64::MAX);
                }
                acc = acc + self.fids[col_index][i];
                i = i + 1;
            }
            acc
        } else {
            // a compressed level: accumulate each entry once per row below it
            let ghost up = (self.fptr@.len() - col_index) as nat;
            let w = self.weights(col_index);
            proof {
                assert(gv[col] == self.fids@[col]@);
                assert(gv.len() == self.fptr@.len() + 1);
                lemma_cir_split(fv, up, 0, 0, 0, nv);
            }
            let row = &self.fids[col_index];
            let mut acc: i64 = 0;
            let mut k: usize = 0;
            while k < row.len()
                invariant
                    self.wf(),
                    fv == self.fptr_view(),
                    gv == self.fids_view(),
                    nv == self.vals@.len() as int,
                    col == col_index as int,
                    col < self.fptr@.len(),
                    gv.len() == self.fptr@.len() + 1,
                    up == (self.fptr@.len() - col_index) as nat,
                    row@ == gv[col],
                    w@.len() == gv[col].len(),
                    forall|kk: int|
                        0 <= kk < w@.len() ==> (#[trigger] w@[kk]) as int == count_in_range(
                            fv,
                            up,
                            kk,
                            kk + 1,
                            nv,
                        ),
                    k <= row@.len(),
                    forall|m: int|
                        0 <= m <= nv ==> i64::MIN <= #[trigger] col_total(fv, gv, col, m)
                            <= i64::MAX,
                    acc as int == col_total(fv, gv, col, count_in_range(fv, up, 0, k as int, nv)),
                decreases row@.len() - k,
            {
                let wk = w[k];
                let ghost base = count_in_range(fv, up, 0, k as int, nv);
                proof {
                    lemma_cir_split(fv, up, 0, k as int, k + 1, nv);
                    lemma_cir_bound(fv, up, 0, k + 1, nv);
                    lemma_cir_bound(fv, up, 0, k as int, nv);
                }
                let mut rep: usize = 0;
                while rep < wk
                    invariant
                        self.wf(),
                        fv == self.fptr_view(),
                        gv == self.fids_view(),
                        nv == self.vals@.len() as int,
                        col == col_index as int,
                        col < self.fptr@.len(),
                        gv.len() == self.fptr@.len() + 1,
                        up == (self.fptr@.len() - col_index) as nat,
                        row@ == gv[col],
                        k < row@.len(),
                        rep <= wk,
                        base == count_in_range(fv, up, 0, k as int, nv),
                        base >= 0,
                        wk as int == count_in_range(fv, up, k as int, k + 1, nv),
                        base + wk == count_in_range(fv, up, 0, k + 1, nv),
                        base + wk <= nv,
                        forall|m: int|
                            0 <= m <= nv ==> i64::MIN <= #[trigger] col_total(fv, gv, col, m)
                                <= i64::MAX,
                        acc as int == col_total(fv, gv, col, base + rep),
                    decreases wk - rep,
                {
                    proof {
                        let m = base + rep;
                        assert(0 <= m < nv);
                        assert(gv[gv.len() - 1].len() == nv);
                        lemma_cir_prefix(fv, gv, nv, up, k as int, m, nv);
                        lemma_cir_prefix(fv, gv, nv, up, k + 1, m, nv);
                        assert(index_at(fv, m, up) == k as int);
                        assert((gv.len() - 1 - col) as nat == up);
                        assert(col_total(fv, gv, col, m + 1) == col_total(fv, gv, col, m)
                            + gv[col][k as int]);
                        assert(i64::MIN <= col_total(fv, gv, col, m + 1) <= i64::MAX);
                    }
                    acc = acc + row[k];
                    rep = rep + 1;
                }
                k = k + 1;
            }
            proof {
                assert(gv[gv.len() - 1].len() == nv);
                assert forall|leaf: int| 0 <= leaf < nv implies 0 <= #[trigger] index_at(
                    fv,
                    leaf,
                    up,
                ) < row@.len() as int by {
                    lemma_index_at_bounds(fv, gv, nv, leaf, up);
                }
                lemma_cir_all(fv, up, 0, row@.len() as int, nv);
            }
            acc
        }
    }
}

} // verus!
