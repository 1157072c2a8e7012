use vstd::prelude::*;
use crate::counts::{nondecreasing, count_le, lemma_count_le_unique};
use crate::fiber::{index_at, leaf_coords, wf_arrays};
use crate::order::{lex_lt, prefix_eq, lemma_lex_lt_neq, lemma_lex_lt_trans};

verus! {

// The compiler turns a strictly sorted, deduplicated list of coordinate
// tuples (`ks`, all of one length `d`) into the per-level arrays. Rows that
// share their first `l + 1` coordinates share one node at level `l`; a node
// begins at each row that differs from its predecessor within that prefix.

/// Row `i` starts a new node at level `l`.
pub open spec fn new_at(ks: Seq<Seq<i64>>, l: int, i: int) -> bool {
    i == 0 || !prefix_eq(ks[i - 1], ks[i], l + 1)
}

/// How many nodes of level `l` begin among the first `i` rows.
pub open spec fn cnt_new(ks: Seq<Seq<i64>>, l: int, i: int) -> int
    decreases i,
{
    if i <= 0 {
        0
    } else {
        cnt_new(ks, l, i - 1) + (if new_at(ks, l, i - 1) {
            1int
        } else {
            0int
        })
    }
}

/// The first row of the level-`l` node that row `i` belongs to.
pub open spec fn node_start(ks: Seq<Seq<i64>>, l: int, i: int) -> int
    decreases i,
{
    if i <= 0 || new_at(ks, l, i) {
        i
    } else {
        node_start(ks, l, i - 1)
    }
}

/// The coordinate row of level `l` is fully determined: one entry per node,
/// holding the level-`l` coordinate of the node's first row.
pub open spec fn level_char(fl: Seq<i64>, ks: Seq<Seq<i64>>, l: int) -> bool {
    &&& fl.len() == cnt_new(ks, l, ks.len() as int)
    &&& (forall|j: int|
        0 <= j < ks.len() && new_at(ks, l, j) ==> fl[cnt_new(ks, l, j)] == (#[trigger] ks[j])[l])
}

/// The pointer row between level `l` and level `l + 1`: entry `k` counts the
/// level-`(l + 1)` nodes that begin strictly before the `k`-th level-`l`
/// node, closed off by the total count.
pub open spec fn ptr_char(pl: Seq<usize>, ks: Seq<Seq<i64>>, l: int) -> bool {
    &&& pl.len() == cnt_new(ks, l, ks.len() as int) + 1
    &&& (forall|j: int|
        0 <= j < ks.len() && new_at(ks, l, j) ==> (#[trigger] pl[cnt_new(ks, l, j)]) == cnt_new(
            ks,
            l + 1,
            j,
        ))
    &&& pl[pl.len() - 1] == cnt_new(ks, l + 1, ks.len() as int)
    &&& nondecreasing(pl)
}

/// The keys are strictly sorted.
pub open spec fn sorted_keys(ks: Seq<Seq<i64>>) -> bool {
    forall|i: int, j: int| 0 <= i < j < ks.len() ==> lex_lt(#[trigger] ks[i], #[trigger] ks[j])
}

/// Every key has `d` coordinates.
pub open spec fn uniform_keys(ks: Seq<Seq<i64>>, d: int) -> bool {
    forall|i: int| 0 <= i < ks.len() ==> (#[trigger] ks[i]).len() == d
}

/// A row that starts a node at one level starts one at the next deeper
/// level as well.
pub proof fn lemma_new_at_deeper(ks: Seq<Seq<i64>>, l: int, i: int)
    requires
        new_at(ks, l, i),
    ensures
        new_at(ks, l + 1, i),
{
    if i != 0 {
        assert(!prefix_eq(ks[i - 1], ks[i], l + 1));
        let j = choose|j: int| 0 <= j < l + 1 && ks[i - 1][j] != ks[i][j];
        assert(!prefix_eq(ks[i - 1], ks[i], l + 2));
    }
}

/// Node counts grow with the number of rows considered.
pub proof fn lemma_cnt_new_monotone(ks: Seq<Seq<i64>>, l: int, i1: int, i2: int)
    requires
        i1 <= i2,
    ensures
        cnt_new(ks, l, i1) <= cnt_new(ks, l, i2),
    decreases i2 - i1,
{
    if i1 < i2 {
        lemma_cnt_new_monotone(ks, l, i1, i2 - 1);
    }
}

/// At most one node begins per row.
pub proof fn lemma_cnt_new_bound(ks: Seq<Seq<i64>>, l: int, i: int)
    ensures
        i >= 0 ==> cnt_new(ks, l, i) <= i,
        0 <= cnt_new(ks, l, i),
    decreases i,
{
    if i > 0 {
        lemma_cnt_new_bound(ks, l, i - 1);
    }
}

/// The first row of row `i`'s node starts that node, shares the node's
/// `l + 1` leading coordinates with row `i`, and is the last node start up
/// to row `i`.
pub proof fn lemma_node_start(ks: Seq<Seq<i64>>, l: int, i: int)
    requires
        0 <= i < ks.len(),
    ensures
        0 <= node_start(ks, l, i) <= i,
        new_at(ks, l, node_start(ks, l, i)),
        cnt_new(ks, l, node_start(ks, l, i)) == cnt_new(ks, l, i + 1) - 1,
        prefix_eq(ks[node_start(ks, l, i)], ks[i], l + 1),
    decreases i,
{
    if i == 0 || new_at(ks, l, i) {
    } else {
        lemma_node_start(ks, l, i - 1);
        assert(prefix_eq(ks[i - 1], ks[i], l + 1));
        let j0 = node_start(ks, l, i - 1);
        assert forall|j: int| 0 <= j < l + 1 implies ks[j0][j] == ks[i][j] by {
            assert(ks[j0][j] == ks[i - 1][j]);
            assert(ks[i - 1][j] == ks[i][j]);
        }
    }
}

/// Each node index below the total count is reached by some node start.
pub proof fn lemma_kth_start_exists(ks: Seq<Seq<i64>>, l: int, k: int, n: int)
    requires
        0 <= k < cnt_new(ks, l, n),
        n <= ks.len(),
    ensures
        exists|j: int|
            0 <= j < n && new_at(ks, l, j) && #[trigger] cnt_new(ks, l, j) == k,
    decreases n,
{
    lemma_cnt_new_bound(ks, l, n);
    if k < cnt_new(ks, l, n - 1) {
        lemma_kth_start_exists(ks, l, k, n - 1);
        let j = choose|j: int| 0 <= j < n - 1 && new_at(ks, l, j) && #[trigger] cnt_new(ks, l, j) == k;
        assert(0 <= j < n && new_at(ks, l, j) && cnt_new(ks, l, j) == k);
    } else {
        assert(new_at(ks, l, n - 1) && cnt_new(ks, l, n - 1) == k);
    }
}

/// At the deepest level every row begins its own node, because sorted keys
/// are pairwise distinct.
pub proof fn lemma_cnt_new_full(ks: Seq<Seq<i64>>, d: int, i: int)
    requires
        sorted_keys(ks),
        uniform_keys(ks, d),
        d >= 1,
        0 <= i <= ks.len(),
    ensures
        cnt_new(ks, d - 1, i) == i,
    decreases i,
{
    if i > 0 {
        lemma_cnt_new_full(ks, d, i - 1);
        if i - 1 != 0 {
            assert(lex_lt(ks[i - 2], ks[i - 1]));
            lemma_lex_lt_neq(ks[i - 2], ks[i - 1]);
            if prefix_eq(ks[i - 2], ks[i - 1], d) {
                assert(ks[i - 2] =~= ks[i - 1]);
                assert(false);
            }
            assert(new_at(ks, d - 1, i - 1));
        }
    }
}

/// The ancestor that the partition-point walk finds for a leaf at `up`
/// levels above the deepest level is exactly the leaf's node at that level.
pub proof fn lemma_index_chain(
    fptr: Seq<Seq<usize>>,
    ks: Seq<Seq<i64>>,
    d: int,
    leaf: int,
    up: nat,
)
    requires
        d >= 1,
        sorted_keys(ks),
        uniform_keys(ks, d),
        fptr.len() == d - 1,
        forall|l: int| 0 <= l < d - 1 ==> ptr_char(#[trigger] fptr[l], ks, l),
        0 <= leaf < ks.len(),
        up <= d - 1,
    ensures
        index_at(fptr, leaf, up) == cnt_new(ks, d - 1 - up, leaf + 1) - 1,
    decreases up,
{
    let n = ks.len() as int;
    if up == 0 {
        lemma_cnt_new_full(ks, d, leaf + 1);
    } else {
        lemma_index_chain(fptr, ks, d, leaf, (up - 1) as nat);
        let l = d - 1 - up;
        assert(fptr.len() - up == l);
        let c = index_at(fptr, leaf, (up - 1) as nat);
        assert(c == cnt_new(ks, l + 1, leaf + 1) - 1);
        let k = cnt_new(ks, l, leaf + 1) - 1;
        let s = fptr[l];
        assert(ptr_char(s, ks, l));

        lemma_node_start(ks, l, leaf);
        let j0 = node_start(ks, l, leaf);
        assert(cnt_new(ks, l, j0) == k);
        assert(s[k] == cnt_new(ks, l + 1, j0));
        lemma_cnt_new_bound(ks, l, j0);
        assert(k >= 0);
        lemma_cnt_new_monotone(ks, l, leaf + 1, n);
        assert(k + 1 <= cnt_new(ks, l, n));
        assert(s.len() == cnt_new(ks, l, n) + 1);

        // the k-th boundary lies at or below c
        lemma_new_at_deeper(ks, l, j0);
        assert(cnt_new(ks, l + 1, j0 + 1) == cnt_new(ks, l + 1, j0) + 1);
        lemma_cnt_new_monotone(ks, l + 1, j0 + 1, leaf + 1);
        assert(s[k] <= c);

        // the (k + 1)-th boundary lies strictly above c
        if k + 1 < s.len() - 1 {
            lemma_kth_start_exists(ks, l, k + 1, n);
            let j1 = choose|j: int|
                0 <= j < n && new_at(ks, l, j) && #[trigger] cnt_new(ks, l, j) == k + 1;
            assert(s[cnt_new(ks, l, j1)] == cnt_new(ks, l + 1, j1));
            if j1 <= leaf {
                assert(cnt_new(ks, l, j1 + 1) == k + 2);
                lemma_cnt_new_monotone(ks, l, j1 + 1, leaf + 1);
                assert(false);
            }
            lemma_cnt_new_monotone(ks, l + 1, leaf + 1, j1);
            assert(s[k + 1] >= c + 1);
        } else {
            assert(k + 1 == s.len() - 1);
            assert(s[k + 1] == cnt_new(ks, l + 1, n));
            lemma_cnt_new_monotone(ks, l + 1, leaf + 1, n);
            assert(s[k + 1] >= c + 1);
        }

        assert forall|i: int| 0 <= i < k + 1 implies s[i] <= c by {
            assert(s[i] <= s[k]);
        }
        assert forall|i: int| k + 1 <= i < s.len() implies s[i] > c by {
            assert(s[k + 1] <= s[i]);
        }
        lemma_count_le_unique(s, c, k + 1);
    }
}

/// Arrays that satisfy the per-level characterizations form a well-formed
/// fiber whose reconstructed rows are exactly the sorted keys.
pub proof fn lemma_compiled_correct(
    fptr: Seq<Seq<usize>>,
    fids: Seq<Seq<i64>>,
    ks: Seq<Seq<i64>>,
    d: int,
)
    requires
        d >= 1,
        sorted_keys(ks),
        uniform_keys(ks, d),
        fptr.len() == d - 1,
        fids.len() == d,
        forall|l: int| 0 <= l < d - 1 ==> ptr_char(#[trigger] fptr[l], ks, l),
        forall|l: int| 0 <= l < d ==> level_char(#[trigger] fids[l], ks, l),
    ensures
        wf_arrays(fptr, fids, ks.len() as int),
        forall|leaf: int| 0 <= leaf < ks.len() ==> leaf_coords(fptr, fids, leaf) == ks[leaf],
{
    let n = ks.len() as int;
    lemma_cnt_new_full(ks, d, n);
    assert(fids[d - 1].len() == n);

    // structural invariants
    assert forall|l: int| 0 <= l < fptr.len() implies (#[trigger] fptr[l]).len() == fids[l].len()
        + 1 by {
        assert(ptr_char(fptr[l], ks, l));
        assert(level_char(fids[l], ks, l));
    }
    assert forall|l: int| 0 <= l < fptr.len() implies (#[trigger] fptr[l])[0] == 0 by {
        assert(ptr_char(fptr[l], ks, l));
        if n > 0 {
            assert(new_at(ks, l, 0));
            assert(cnt_new(ks, l, 0) == 0);
            assert(fptr[l][cnt_new(ks, l, 0)] == cnt_new(ks, l + 1, 0));
        } else {
            assert(cnt_new(ks, l, n) == 0);
            assert(fptr[l].len() == 1);
            assert(fptr[l][fptr[l].len() - 1] == cnt_new(ks, l + 1, n));
        }
    }
    assert forall|l: int|
        0 <= l < fptr.len() implies (#[trigger] fptr[l])[fptr[l].len() - 1] == fids[l
        + 1].len() by {
        assert(ptr_char(fptr[l], ks, l));
        assert(level_char(fids[l + 1], ks, l + 1));
    }
    assert forall|l: int| 0 <= l < fptr.len() implies nondecreasing(#[trigger] fptr[l]) by {
        assert(ptr_char(fptr[l], ks, l));
    }
    assert(wf_arrays(fptr, fids, n));

    // reconstructed rows
    assert forall|leaf: int| 0 <= leaf < n implies leaf_coords(fptr, fids, leaf) == ks[leaf] by {
        assert forall|l: int| 0 <= l < d implies fids[l][index_at(
            fptr,
            leaf,
            (d - 1 - l) as nat,
        )] == ks[leaf][l] by {
            lemma_index_chain(fptr, ks, d, leaf, (d - 1 - l) as nat);
            lemma_node_start(ks, l, leaf);
            let j0 = node_start(ks, l, leaf);
            assert(level_char(fids[l], ks, l));
            assert(fids[l][cnt_new(ks, l, j0)] == ks[j0][l]);
            assert(ks[j0][l] == ks[leaf][l]);
        }
        assert(leaf_coords(fptr, fids, leaf) =~= ks[leaf]);
    }
}

/// Two starts of one node index are the same row.
pub proof fn lemma_node_start_unique(ks: Seq<Seq<i64>>, l: int, j1: int, j2: int)
    requires
        0 <= j1 < ks.len(),
        0 <= j2 < ks.len(),
        new_at(ks, l, j1),
        new_at(ks, l, j2),
        cnt_new(ks, l, j1) == cnt_new(ks, l, j2),
    ensures
        j1 == j2,
{
    if j1 < j2 {
        lemma_cnt_new_monotone(ks, l, j1 + 1, j2);
        assert(false);
    }
    if j2 < j1 {
        lemma_cnt_new_monotone(ks, l, j2 + 1, j1);
        assert(false);
    }
}

/// Where a node starting at row `j2` follows a row `j1` that shares its
/// first `l` coordinates, its level-`l` coordinate strictly grew: sorted
/// keys keep equal prefixes contiguous.
pub proof fn lemma_node_coord_increases(ks: Seq<Seq<i64>>, d: int, l: int, j1: int, j2: int)
    requires
        sorted_keys(ks),
        uniform_keys(ks, d),
        0 <= j1 < j2 < ks.len(),
        new_at(ks, l, j2),
        prefix_eq(ks[j1], ks[j2], l),
        0 <= l < d,
    ensures
        ks[j1][l] < ks[j2][l],
{
    assert(lex_lt(ks[j1], ks[j2]));
    let i = choose|i: int|
        0 <= i < ks[j1].len() && i < ks[j2].len() && ks[j1][i] < ks[j2][i] && #[trigger] prefix_eq(
            ks[j1],
            ks[j2],
            i,
        );
    if i < l {
        assert(ks[j1][i] == ks[j2][i]);
        assert(false);
    }
    if i > l {
        assert forall|j: int| 0 <= j < l + 1 implies ks[j1][j] == ks[j2][j] by {}
        assert(prefix_eq(ks[j1], ks[j2], l + 1));
        assert(!prefix_eq(ks[j2 - 1], ks[j2], l + 1));
        if j2 - 1 == j1 {
            assert(false);
        } else {
            assert(lex_lt(ks[j1], ks[j2 - 1]));
            assert(lex_lt(ks[j2 - 1], ks[j2]));
            crate::order::lemma_lex_between_prefix(ks[j1], ks[j2 - 1], ks[j2], l + 1);
            assert forall|j: int| 0 <= j < l + 1 implies ks[j2 - 1][j] == ks[j2][j] by {
                assert(ks[j1][j] == ks[j2 - 1][j]);
                assert(ks[j1][j] == ks[j2][j]);
            }
            assert(false);
        }
    }
}

/// A node start lies in the pointer group of its own parent node.
pub proof fn lemma_start_bracket(pl: Seq<usize>, ks: Seq<Seq<i64>>, l: int, j: int)
    requires
        ptr_char(pl, ks, l),
        0 <= j < ks.len(),
        new_at(ks, l + 1, j),
    ensures
        0 <= cnt_new(ks, l, j + 1) - 1 < pl.len() - 1,
        pl[cnt_new(ks, l, j + 1) - 1] <= cnt_new(ks, l + 1, j) < pl[cnt_new(ks, l, j + 1)],
{
    let n = ks.len() as int;
    let k = cnt_new(ks, l + 1, j);
    let q = cnt_new(ks, l, j + 1) - 1;
    assert(cnt_new(ks, l, 0) == 0);
    assert(cnt_new(ks, l, 1) == 1);
    lemma_cnt_new_monotone(ks, l, 1, j + 1);
    lemma_cnt_new_monotone(ks, l, j + 1, n);
    lemma_node_start(ks, l, j);
    let s = node_start(ks, l, j);
    assert(pl[q] == cnt_new(ks, l + 1, s));
    lemma_cnt_new_monotone(ks, l + 1, s, j);
    assert(pl[q] <= k);
    if q + 1 < pl.len() - 1 {
        lemma_kth_start_exists(ks, l, q + 1, n);
        let j9 = choose|j9: int|
            0 <= j9 < n && new_at(ks, l, j9) && #[trigger] cnt_new(ks, l, j9) == q + 1;
        if j9 <= j {
            lemma_cnt_new_monotone(ks, l, j9 + 1, j + 1);
            assert(false);
        }
        assert(pl[q + 1] == cnt_new(ks, l + 1, j9));
        lemma_cnt_new_monotone(ks, l + 1, j + 1, j9);
        assert(k < pl[q + 1]);
    } else {
        assert(pl[q + 1] == cnt_new(ks, l + 1, n));
        lemma_cnt_new_monotone(ks, l + 1, j + 1, n);
        assert(k < pl[q + 1]);
    }
}

/// Within one pointer group, the level coordinates of a compiled row
/// strictly ascend.
pub proof fn lemma_group_sorted_pair(
    pl: Seq<usize>,
    fl: Seq<i64>,
    ks: Seq<Seq<i64>>,
    d: int,
    l: int,
    p: int,
    k1: int,
    k2: int,
)
    requires
        sorted_keys(ks),
        uniform_keys(ks, d),
        0 <= l,
        l + 1 < d,
        ptr_char(pl, ks, l),
        level_char(fl, ks, l + 1),
        0 <= p < pl.len() - 1,
        pl[p] <= k1 < k2 < pl[p + 1],
    ensures
        fl[k1] < fl[k2],
{
    let n = ks.len() as int;
    assert(pl[p + 1] <= pl[pl.len() - 1]);
    assert(k2 < cnt_new(ks, l + 1, n));
    lemma_kth_start_exists(ks, l + 1, k1, n);
    lemma_kth_start_exists(ks, l + 1, k2, n);
    let j1 = choose|j: int| 0 <= j < n && new_at(ks, l + 1, j) && #[trigger] cnt_new(ks, l + 1, j) == k1;
    let j2 = choose|j: int| 0 <= j < n && new_at(ks, l + 1, j) && #[trigger] cnt_new(ks, l + 1, j) == k2;
    if j2 <= j1 {
        lemma_cnt_new_monotone(ks, l + 1, j2, j1);
        assert(false);
    }
    lemma_start_bracket(pl, ks, l, j1);
    lemma_start_bracket(pl, ks, l, j2);
    let q1 = cnt_new(ks, l, j1 + 1) - 1;
    let q2 = cnt_new(ks, l, j2 + 1) - 1;
    if q1 < p {
        assert(pl[q1 + 1] <= pl[p]);
        assert(false);
    }
    if q1 > p {
        assert(pl[p + 1] <= pl[q1]);
        assert(false);
    }
    if q2 < p {
        assert(pl[q2 + 1] <= pl[p]);
        assert(false);
    }
    if q2 > p {
        assert(pl[p + 1] <= pl[q2]);
        assert(false);
    }
    lemma_node_start(ks, l, j1);
    lemma_node_start(ks, l, j2);
    let s1 = node_start(ks, l, j1);
    let s2 = node_start(ks, l, j2);
    lemma_node_start_unique(ks, l, s1, s2);
    assert forall|j: int| 0 <= j < l + 1 implies ks[j1][j] == ks[j2][j] by {
        assert(ks[s1][j] == ks[j1][j]);
        assert(ks[s1][j] == ks[j2][j]);
    }
    assert(prefix_eq(ks[j1], ks[j2], l + 1));
    lemma_node_coord_increases(ks, d, l + 1, j1, j2);
    assert(fl[k1] == ks[j1][l + 1]);
    assert(fl[k2] == ks[j2][l + 1]);
}

/// In the single implicit root group, the top level's coordinates strictly
/// ascend.
pub proof fn lemma_root_sorted_pair(
    fl: Seq<i64>,
    ks: Seq<Seq<i64>>,
    d: int,
    k1: int,
    k2: int,
)
    requires
        sorted_keys(ks),
        uniform_keys(ks, d),
        d >= 1,
        level_char(fl, ks, 0),
        0 <= k1 < k2 < fl.len(),
    ensures
        fl[k1] < fl[k2],
{
    let n = ks.len() as int;
    lemma_kth_start_exists(ks, 0, k1, n);
    lemma_kth_start_exists(ks, 0, k2, n);
    let j1 = choose|j: int| 0 <= j < n && new_at(ks, 0, j) && #[trigger] cnt_new(ks, 0, j) == k1;
    let j2 = choose|j: int| 0 <= j < n && new_at(ks, 0, j) && #[trigger] cnt_new(ks, 0, j) == k2;
    if j2 <= j1 {
        lemma_cnt_new_monotone(ks, 0, j2, j1);
        assert(false);
    }
    assert(prefix_eq(ks[j1], ks[j2], 0));
    lemma_node_coord_increases(ks, d, 0, j1, j2);
    assert(fl[k1] == ks[j1][0]);
    assert(fl[k2] == ks[j2][0]);
}

/// Every pointer group of a characterized pointer row is nonempty: each
/// level node has at least one child.
pub proof fn lemma_ptr_strict(pl: Seq<usize>, ks: Seq<Seq<i64>>, l: int, k: int)
    requires
        ptr_char(pl, ks, l),
        0 <= k < pl.len() - 1,
    ensures
        pl[k] < pl[k + 1],
{
    let n = ks.len() as int;
    lemma_kth_start_exists(ks, l, k, n);
    let j = choose|j: int| 0 <= j < n && new_at(ks, l, j) && #[trigger] cnt_new(ks, l, j) == k;
    lemma_new_at_deeper(ks, l, j);
    lemma_start_bracket(pl, ks, l, j);
    assert(cnt_new(ks, l, j + 1) == k + 1);
    assert(pl[k] == cnt_new(ks, l + 1, j));
}

/// One coordinate row satisfies a level's characterization: any two rows
/// that do are equal.
pub proof fn lemma_level_char_unique(fl1: Seq<i64>, fl2: Seq<i64>, ks: Seq<Seq<i64>>, l: int)
    requires
        level_char(fl1, ks, l),
        level_char(fl2, ks, l),
    ensures
        fl1 == fl2,
{
    let n = ks.len() as int;
    assert forall|k: int| 0 <= k < fl1.len() implies fl1[k] == fl2[k] by {
        lemma_kth_start_exists(ks, l, k, n);
        let j = choose|j: int| 0 <= j < n && new_at(ks, l, j) && #[trigger] cnt_new(ks, l, j) == k;
        assert(fl1[cnt_new(ks, l, j)] == ks[j][l]);
        assert(fl2[cnt_new(ks, l, j)] == ks[j][l]);
    }
    assert(fl1 =~= fl2);
}

/// One pointer row satisfies a level's characterization: any two rows that
/// do are equal.
pub proof fn lemma_ptr_char_unique(pl1: Seq<usize>, pl2: Seq<usize>, ks: Seq<Seq<i64>>, l: int)
    requires
        ptr_char(pl1, ks, l),
        ptr_char(pl2, ks, l),
    ensures
        pl1 == pl2,
{
    let n = ks.len() as int;
    assert forall|k: int| 0 <= k < pl1.len() implies pl1[k] == pl2[k] by {
        if k < pl1.len() - 1 {
            lemma_kth_start_exists(ks, l, k, n);
            let j = choose|j: int|
                0 <= j < n && new_at(ks, l, j) && #[trigger] cnt_new(ks, l, j) == k;
            assert(pl1[cnt_new(ks, l, j)] == cnt_new(ks, l + 1, j));
            assert(pl2[cnt_new(ks, l, j)] == cnt_new(ks, l + 1, j));
        }
    }
    assert(pl1 =~= pl2);
}

/// Two strictly sorted lists of coordinate tuples of one length that hold
/// the same tuples are the same list.
pub proof fn lemma_sorted_keys_unique(s1: Seq<Seq<i64>>, s2: Seq<Seq<i64>>, d: int)
    requires
        sorted_keys(s1),
        sorted_keys(s2),
        uniform_keys(s1, d),
        uniform_keys(s2, d),
        forall|k: Seq<i64>| s1.contains(k) <==> s2.contains(k),
    ensures
        s1 == s2,
    decreases s1.len(),
{
    if s1.len() == 0 {
        if s2.len() > 0 {
            assert(s2.contains(s2[0]));
            assert(s1.contains(s2[0]));
            assert(false);
        }
        assert(s1 =~= s2);
    } else {
        if s2.len() == 0 {
            assert(s1.contains(s1[0]));
            assert(s2.contains(s1[0]));
            assert(false);
        }
        // the heads are each list's unique minimum, so they agree
        assert(s1.contains(s1[0]));
        assert(s2.contains(s1[0]));
        let j = choose|j: int| 0 <= j < s2.len() && s2[j] == s1[0];
        assert(s2.contains(s2[0]));
        assert(s1.contains(s2[0]));
        let i = choose|i: int| 0 <= i < s1.len() && s1[i] == s2[0];
        if j > 0 && i > 0 {
            assert(lex_lt(s2[0], s2[j]));
            assert(lex_lt(s1[0], s1[i]));
            lemma_lex_lt_trans(s1[0], s1[i], s2[j]);
            lemma_lex_lt_neq(s1[0], s2[j]);
            assert(false);
        }
        if j > 0 && i == 0 {
            assert(lex_lt(s2[0], s2[j]));
            assert(s2[0] == s1[0] && s2[j] == s1[0]);
            lemma_lex_lt_neq(s2[0], s2[j]);
            assert(false);
        }
        assert(s1[0] == s2[0]);

        // the tails hold the same tuples, none of them the head
        let t1 = s1.drop_first();
        let t2 = s2.drop_first();
        assert forall|a: int, b: int| 0 <= a < b < t1.len() implies lex_lt(
            #[trigger] t1[a],
            #[trigger] t1[b],
        ) by {
            assert(lex_lt(s1[a + 1], s1[b + 1]));
        }
        assert forall|a: int, b: int| 0 <= a < b < t2.len() implies lex_lt(
            #[trigger] t2[a],
            #[trigger] t2[b],
        ) by {
            assert(lex_lt(s2[a + 1], s2[b + 1]));
        }
        assert forall|a: int| 0 <= a < t1.len() implies (#[trigger] t1[a]).len() == d by {
            assert(s1[a + 1].len() == d);
        }
        assert forall|a: int| 0 <= a < t2.len() implies (#[trigger] t2[a]).len() == d by {
            assert(s2[a + 1].len() == d);
        }
        assert forall|k: Seq<i64>| t1.contains(k) implies t2.contains(k) by {
            let a = choose|a: int| 0 <= a < t1.len() && t1[a] == k;
            assert(s1[a + 1] == k);
            assert(s1.contains(k));
            assert(s2.contains(k));
            let b = choose|b: int| 0 <= b < s2.len() && s2[b] == k;
            assert(lex_lt(s1[0], s1[a + 1]));
            lemma_lex_lt_neq(s1[0], k);
            assert(b > 0);
            assert(t2[b - 1] == k);
            assert(t2.contains(k));
        }
        assert forall|k: Seq<i64>| t2.contains(k) implies t1.contains(k) by {
            let a = choose|a: int| 0 <= a < t2.len() && t2[a] == k;
            assert(s2[a + 1] == k);
            assert(s2.contains(k));
            assert(s1.contains(k));
            let b = choose|b: int| 0 <= b < s1.len() && s1[b] == k;
            assert(lex_lt(s2[0], s2[a + 1]));
            lemma_lex_lt_neq(s2[0], k);
            assert(b > 0);
            assert(t1[b - 1] == k);
            assert(t1.contains(k));
        }
        lemma_sorted_keys_unique(t1, t2, d);
        assert forall|a: int| 0 <= a < s1.len() implies s1[a] == s2[a] by {
            if a > 0 {
                assert(t1[a - 1] == s1[a]);
                assert(t2[a - 1] == s2[a]);
                assert(t1[a - 1] == t2[a - 1]);
            }
        }
        assert(s1 =~= s2);
    }
}

/// The coordinate tuples of a list of exec rows.
pub open spec fn keys_seq<T>(rows: Seq<(Vec<i64>, T)>) -> Seq<Seq<i64>> {
    rows.map_values(|p: (Vec<i64>, T)| p.0@)
}

/// Do `a` and `b` agree on their first `m` entries?
pub fn prefixes_equal(a: &Vec<i64>, b: &Vec<i64>, m: usize) -> (e: bool)
    requires
        m <= a@.len(),
        m <= b@.len(),
    ensures
        e == prefix_eq(a@, b@, m as int),
{
    let mut i: usize = 0;
    while i < m
        invariant
            i <= m,
            m <= a@.len(),
            m <= b@.len(),
            prefix_eq(a@, b@, i as int),
        decreases m - i,
    {
        if a[i] != b[i] {
            proof {
                assert(a@[i as int] != b@[i as int]);
                assert(!prefix_eq(a@, b@, m as int));
            }
            return false;
        }
        i = i + 1;
    }
    true
}

/// Build the coordinate row of level `l`: one entry per level-`l` node, in
/// row order, holding the node's level-`l` coordinate.
#[verifier::rlimit(60)]
pub fn build_level<T: Copy>(rows: &Vec<(Vec<i64>, T)>, l: usize, d: usize) -> (fl: Vec<i64>)
    requires
        uniform_keys(keys_seq(rows@), d as int),
        l < d,
    ensures
        level_char(fl@, keys_seq(rows@), l as int),
{
    let ghost ks = keys_seq(rows@);
    let n = rows.len();
    let mut fl: Vec<i64> = Vec::new();
    let mut i: usize = 0;
    while i < n
        invariant
            n == rows@.len(),
            ks == keys_seq(rows@),
            uniform_keys(ks, d as int),
            l < d,
            i <= n,
            fl@.len() == cnt_new(ks, l as int, i as int),
            forall|j: int|
                0 <= j < i && new_at(ks, l as int, j) ==> fl@[cnt_new(ks, l as int, j)] == (
                #[trigger] ks[j])[l as int],
        decreases n - i,
    {
        proof {
            assert(ks[i as int] == rows@[i as int].0@);
            if i > 0 {
                assert(ks[i - 1] == rows@[i - 1].0@);
            }
        }
        let is_new: bool = if i == 0 {
            true
        } else {
            !prefixes_equal(&rows[i - 1].0, &rows[i].0, l + 1)
        };
        proof {
            assert(is_new == new_at(ks, l as int, i as int));
            lemma_cnt_new_bound(ks, l as int, i as int);
        }
        if is_new {
            let c = rows[i].0[l];
            fl.push(c);
            proof {
                assert forall|j: int| 0 <= j < i + 1 && new_at(ks, l as int, j) implies fl@[cnt_new(
                    ks,
                    l as int,
                    j,
                )] == (#[trigger] ks[j])[l as int] by {
                    lemma_cnt_new_bound(ks, l as int, j);
                    if j < i {
                        lemma_cnt_new_monotone(ks, l as int, j + 1, i as int);
                        assert(cnt_new(ks, l as int, j) < cnt_new(ks, l as int, i as int));
                    } else {
                        assert(cnt_new(ks, l as int, j) == fl@.len() - 1);
                    }
                }
            }
        }
        i = i + 1;
    }
    fl
}

/// Build the pointer row between level `l` and level `l + 1`: for each
/// level-`l` node the number of level-`(l + 1)` nodes that begin before it,
/// closed off by the total count.
pub fn build_ptr<T: Copy>(rows: &Vec<(Vec<i64>, T)>, l: usize, d: usize) -> (pl: Vec<usize>)
    requires
        uniform_keys(keys_seq(rows@), d as int),
        l + 1 < d,
    ensures
        ptr_char(pl@, keys_seq(rows@), l as int),
{
    let ghost ks = keys_seq(rows@);
    let n = rows.len();
    let mut pl: Vec<usize> = Vec::new();
    let mut c1: usize = 0;
    let mut i: usize = 0;
    while i < n
        invariant
            n == rows@.len(),
            ks == keys_seq(rows@),
            uniform_keys(ks, d as int),
            l + 1 < d,
            i <= n,
            c1 as int == cnt_new(ks, l + 1, i as int),
            c1 <= i,
            pl@.len() == cnt_new(ks, l as int, i as int),
            forall|j: int|
                0 <= j < i && new_at(ks, l as int, j) ==> (#[trigger] pl@[cnt_new(
                    ks,
                    l as int,
                    j,
                )]) as int == cnt_new(ks, l + 1, j),
            forall|k: int| 0 <= k < pl@.len() ==> #[trigger] pl@[k] <= c1,
            nondecreasing(pl@),
        decreases n - i,
    {
        proof {
            assert(ks[i as int] == rows@[i as int].0@);
            if i > 0 {
                assert(ks[i - 1] == rows@[i - 1].0@);
            }
            lemma_cnt_new_bound(ks, l as int, i as int);
        }
        let new_l: bool = if i == 0 {
            true
        } else {
            !prefixes_equal(&rows[i - 1].0, &rows[i].0, l + 1)
        };
        let new_l1: bool = if i == 0 {
            true
        } else {
            !prefixes_equal(&rows[i - 1].0, &rows[i].0, l + 2)
        };
        proof {
            assert(new_l == new_at(ks, l as int, i as int));
            assert(new_l1 == new_at(ks, l + 1, i as int));
        }
        if new_l {
            pl.push(c1);
            proof {
                assert forall|x: int, y: int| 0 <= x <= y < pl@.len() implies pl@[x] <= pl@[y] by {
                    if y < pl@.len() - 1 {
                        assert(pl@[x] <= pl@[y]);
                    } else if x < y {
                        assert(pl@[x] <= c1);
                    }
                }
                assert forall|j: int| 0 <= j < i + 1 && new_at(ks, l as int, j) implies (
                #[trigger] pl@[cnt_new(ks, l as int, j)]) as int == cnt_new(ks, l + 1, j) by {
                    lemma_cnt_new_bound(ks, l as int, j);
                    if j < i {
                        lemma_cnt_new_monotone(ks, l as int, j + 1, i as int);
                        assert(cnt_new(ks, l as int, j) < cnt_new(ks, l as int, i as int));
                    } else {
                        assert(cnt_new(ks, l as int, j) == pl@.len() - 1);
                    }
                }
            }
        }
        if new_l1 {
            c1 = c1 + 1;
        }
        i = i + 1;
    }
    pl.push(c1);
    proof {
        assert forall|x: int, y: int| 0 <= x <= y < pl@.len() implies pl@[x] <= pl@[y] by {
            if y < pl@.len() - 1 {
                assert(pl@[x] <= pl@[y]);
            } else if x < y {
                assert(pl@[x] <= c1);
            }
        }
        assert(nondecreasing(pl@));
        assert forall|j: int| 0 <= j < n && new_at(ks, l as int, j) implies (#[trigger] pl@[cnt_new(
            ks,
            l as int,
            j,
        )]) as int == cnt_new(ks, l + 1, j) by {
            lemma_cnt_new_bound(ks, l as int, j);
            lemma_cnt_new_monotone(ks, l as int, j + 1, n as int);
            assert(cnt_new(ks, l as int, j) < cnt_new(ks, l as int, n as int));
        }
    }
    pl
}

} // verus!
