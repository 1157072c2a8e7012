use vstd::prelude::*;
use crate::order::{lex_lt, lemma_lex_lt_neq, lemma_lex_lt_irrefl, lemma_lex_lt_trans, cmp_coords};
use crate::compile::{
    keys_seq, level_char, ptr_char, sorted_keys, uniform_keys, build_level, build_ptr,
    lemma_compiled_correct, lemma_group_sorted_pair, lemma_root_sorted_pair, lemma_ptr_strict,
};
use crate::fiber::{CompressedSparseFiber, groups_sorted};

verus! {

/// Why a set of rows was rejected at construction time.
#[derive(Clone, Copy, Debug, PartialEq, Eq)]
pub enum BuildError {
    /// Not every row has the same, positive number of coordinates.
    DimensionMismatch,
}

/// `c` is the compressed form of exactly the rows of `m`: it is
/// structurally well formed, every stored leaf reconstructs to a pair of
/// `m`, every tuple of `m` is stored, and the leaves are strictly sorted —
/// so no tuple is stored twice.
pub open spec fn represents<T>(c: CompressedSparseFiber<T>, m: Map<Seq<i64>, T>) -> bool {
    &&& c.wf()
    &&& (forall|i: int|
        0 <= i < c.num_rows() ==> m.contains_pair(#[trigger] c.row_coords(i), c.vals@[i]))
    &&& (forall|k: Seq<i64>|
        #[trigger] m.dom().contains(k) ==> exists|i: int|
            0 <= i < c.num_rows() && c.row_coords(i) == k)
    &&& (forall|i: int, j: int|
        0 <= i < j < c.num_rows() ==> lex_lt(
            #[trigger] c.row_coords(i),
            #[trigger] c.row_coords(j),
        ))
}

/// `c`'s arrays are exactly the level-by-level compilation of its own
/// reconstructed rows: each level row holds one entry per distinct
/// coordinate prefix among the stored rows, in row order, each pointer
/// entry counts the nodes of the next level before its node, and every
/// pointer group is nonempty. Together with `represents` this pins every
/// array: two fibers of one depth that represent one map and are both
/// canonical are equal field by field (`lemma_build_deterministic`).
pub open spec fn canonical<T>(c: CompressedSparseFiber<T>) -> bool {
    let ks = Seq::new(c.num_rows() as nat, |i: int| c.row_coords(i));
    &&& (forall|l: int|
        0 <= l < c.fids_view().len() ==> level_char(#[trigger] c.fids_view()[l], ks, l))
    &&& (forall|l: int|
        0 <= l < c.fptr_view().len() ==> ptr_char(#[trigger] c.fptr_view()[l], ks, l))
    &&& (forall|l: int, k: int|
        0 <= l < c.fptr_view().len() && 0 <= k < c.fptr_view()[l].len() - 1
            ==> #[trigger] c.fptr_view()[l][k] < c.fptr_view()[l][k + 1])
}

/// The mathematical content of a list of rows: a finite map from coordinate
/// tuple to scalar, where a repeated tuple keeps the value inserted last.
pub open spec fn rows_map<T>(rs: Seq<(Seq<i64>, T)>) -> Map<Seq<i64>, T>
    decreases rs.len(),
{
    if rs.len() == 0 {
        Map::empty()
    } else {
        rows_map(rs.drop_last()).insert(rs.last().0, rs.last().1)
    }
}

/// A list of exec rows, seen as a list of mathematical rows.
pub open spec fn rows_seq<T>(rows: Seq<(Vec<i64>, T)>) -> Seq<(Seq<i64>, T)> {
    rows.map_values(|p: (Vec<i64>, T)| (p.0@, p.1))
}

/// The rows are strictly sorted by coordinate tuple.
pub open spec fn sorted_strict<T>(rs: Seq<(Seq<i64>, T)>) -> bool {
    forall|i: int, j: int| 0 <= i < j < rs.len() ==> lex_lt(rs[i].0, rs[j].0)
}

/// No two rows share a coordinate tuple.
pub open spec fn distinct_keys<T>(rs: Seq<(Seq<i64>, T)>) -> bool {
    forall|i: int, j: int| 0 <= i < j < rs.len() ==> (#[trigger] rs[i]).0 != (#[trigger] rs[j]).0
}

/// Placing a fresh-keyed row anywhere before rows with other keys adds
/// exactly its pair to the map.
pub proof fn lemma_rows_map_insert<T>(rs: Seq<(Seq<i64>, T)>, p: int, x: (Seq<i64>, T))
    requires
        0 <= p <= rs.len(),
        forall|i: int| p <= i < rs.len() ==> (#[trigger] rs[i]).0 != x.0,
    ensures
        rows_map(rs.insert(p, x)) == rows_map(rs).insert(x.0, x.1),
    decreases rs.len() - p,
{
    let t = rs.insert(p, x);
    if p == rs.len() {
        assert(t.drop_last() =~= rs);
        assert(t.last() == x);
    } else {
        assert(t.last() == rs.last());
        assert(t.drop_last() =~= rs.drop_last().insert(p, x));
        lemma_rows_map_insert(rs.drop_last(), p, x);
        assert(rows_map(t) == rows_map(rs.drop_last()).insert(x.0, x.1).insert(
            rs.last().0,
            rs.last().1,
        ));
        assert(rs.last().0 != x.0);
        assert(rows_map(rs.drop_last()).insert(x.0, x.1).insert(rs.last().0, rs.last().1)
            =~= rows_map(rs.drop_last()).insert(rs.last().0, rs.last().1).insert(x.0, x.1));
    }
}

/// Overwriting the one row that holds a key, when no later row holds it,
/// updates exactly that key in the map.
pub proof fn lemma_rows_map_update<T>(rs: Seq<(Seq<i64>, T)>, p: int, x: (Seq<i64>, T))
    requires
        0 <= p < rs.len(),
        rs[p].0 == x.0,
        forall|i: int| p < i < rs.len() ==> (#[trigger] rs[i]).0 != x.0,
    ensures
        rows_map(rs.update(p, x)) == rows_map(rs).insert(x.0, x.1),
    decreases rs.len() - p,
{
    let t = rs.update(p, x);
    if p == rs.len() - 1 {
        assert(t.drop_last() =~= rs.drop_last());
        assert(t.last() == x);
    } else {
        assert(t.last() == rs.last());
        assert(t.drop_last() =~= rs.drop_last().update(p, x));
        lemma_rows_map_update(rs.drop_last(), p, x);
        assert(rows_map(t) == rows_map(rs.drop_last()).insert(x.0, x.1).insert(
            rs.last().0,
            rs.last().1,
        ));
        assert(rs.last().0 != x.0);
        assert(rows_map(rs.drop_last()).insert(x.0, x.1).insert(rs.last().0, rs.last().1)
            =~= rows_map(rs.drop_last()).insert(rs.last().0, rs.last().1).insert(x.0, x.1));
    }
}

/// Every key of the map is the coordinate tuple of some row.
pub proof fn lemma_rows_map_dom<T>(rs: Seq<(Seq<i64>, T)>)
    ensures
        forall|k: Seq<i64>|
            rows_map(rs).dom().contains(k) ==> exists|i: int|
                0 <= i < rs.len() && (#[trigger] rs[i]).0 == k,
    decreases rs.len(),
{
    if rs.len() > 0 {
        lemma_rows_map_dom(rs.drop_last());
        assert forall|k: Seq<i64>| rows_map(rs).dom().contains(k) implies exists|i: int|
            0 <= i < rs.len() && (#[trigger] rs[i]).0 == k by {
            if k == rs.last().0 {
                assert(rs[rs.len() - 1].0 == k);
            } else {
                assert(rows_map(rs.drop_last()).dom().contains(k));
                let i = choose|i: int|
                    0 <= i < rs.drop_last().len() && (#[trigger] rs.drop_last()[i]).0 == k;
                assert(rs[i].0 == k);
            }
        }
    }
}

/// Over rows with pairwise distinct keys, the map holds exactly each row's
/// pair.
pub proof fn lemma_rows_map_distinct<T>(rs: Seq<(Seq<i64>, T)>)
    requires
        distinct_keys(rs),
    ensures
        forall|i: int|
            0 <= i < rs.len() ==> rows_map(rs).contains_pair((#[trigger] rs[i]).0, rs[i].1),
    decreases rs.len(),
{
    if rs.len() > 0 {
        let t = rs.drop_last();
        assert forall|i: int, j: int| 0 <= i < j < t.len() implies (#[trigger] t[i]).0 != (
        #[trigger] t[j]).0 by {
            assert(rs[i].0 != rs[j].0);
        }
        lemma_rows_map_distinct(t);
        assert forall|i: int| 0 <= i < rs.len() implies rows_map(rs).contains_pair(
            (#[trigger] rs[i]).0,
            rs[i].1,
        ) by {
            if i < rs.len() - 1 {
                assert(rows_map(t).contains_pair(t[i].0, t[i].1));
                assert(rs[i].0 != rs[rs.len() - 1].0);
            }
        }
    }
}

/// Copy a coordinate tuple.
fn copy_coords(a: &Vec<i64>) -> (r: Vec<i64>)
    ensures
        r@ == a@,
{
    let mut r: Vec<i64> = Vec::new();
    let mut i: usize = 0;
    while i < a.len()
        invariant
            i <= a@.len(),
            r@ == a@.take(i as int),
        decreases a@.len() - i,
    {
        r.push(a[i]);
        assert(r@ =~= a@.take(i + 1));
        i = i + 1;
    }
    proof {
        assert(a@.take(a@.len() as int) =~= a@);
    }
    r
}

/// Insert one row into a strictly sorted, deduplicated list of rows,
/// keeping it sorted; a row with the same coordinates is overwritten.
fn sorted_insert<T: Copy>(out: &mut Vec<(Vec<i64>, T)>, coords: Vec<i64>, v: T)
    requires
        sorted_strict(rows_seq(old(out)@)),
        forall|i: int| 0 <= i < old(out)@.len() ==> (#[trigger] old(out)@[i]).0@.len() == coords@.len(),
    ensures
        sorted_strict(rows_seq(final(out)@)),
        forall|i: int| 0 <= i < final(out)@.len() ==> (#[trigger] final(out)@[i]).0@.len() == coords@.len(),
        rows_map(rows_seq(final(out)@)) == rows_map(rows_seq(old(out)@)).insert(coords@, v),
{
    let ghost orig = rows_seq(out@);
    let mut pos: usize = 0;
    loop
        invariant
            pos <= out@.len(),
            out@ == old(out)@,
            sorted_strict(orig),
            orig == rows_seq(out@),
            forall|i: int| 0 <= i < out@.len() ==> (#[trigger] out@[i]).0@.len() == coords@.len(),
            forall|i: int| 0 <= i < pos ==> lex_lt((#[trigger] orig[i]).0, coords@),
        ensures
            pos <= out@.len(),
            out@ == old(out)@,
            forall|i: int| 0 <= i < pos ==> lex_lt((#[trigger] orig[i]).0, coords@),
            pos < out@.len() ==> !lex_lt(orig[pos as int].0, coords@),
        decreases out@.len() - pos,
    {
        if pos >= out.len() {
            break;
        }
        let c = cmp_coords(&out[pos].0, &coords);
        if c != -1 {
            proof {
                if c == 0 {
                    lemma_lex_lt_irrefl(orig[pos as int].0);
                }
            }
            break;
        }
        pos = pos + 1;
    }
    if pos < out.len() {
        let c = cmp_coords(&out[pos].0, &coords);
        if c == 0 {
            out[pos] = (coords, v);
            proof {
                let rs = rows_seq(old(out)@);
                let x = (rs[pos as int].0, v);
                assert forall|i: int| pos < i < rs.len() implies (#[trigger] rs[i]).0 != x.0 by {
                    lemma_lex_lt_neq(rs[pos as int].0, rs[i].0);
                }
                lemma_rows_map_update(rs, pos as int, x);
                assert(rows_seq(out@) =~= rs.update(pos as int, x));
                assert forall|i: int, j: int|
                    0 <= i < j < rows_seq(out@).len() implies lex_lt(
                    (#[trigger] rows_seq(out@)[i]).0,
                    (#[trigger] rows_seq(out@)[j]).0,
                ) by {
                    assert(lex_lt(rs[i].0, rs[j].0));
                }
            }
            return ;
        }
        // c == 1: the new row goes strictly before position `pos`
        out.insert(pos, (coords, v));
        proof {
            let rs = rows_seq(old(out)@);
            let x = (coords@, v);
            assert(lex_lt(coords@, rs[pos as int].0));
            assert forall|i: int| pos <= i < rs.len() implies (#[trigger] rs[i]).0 != x.0 by {
                if i > pos {
                    lemma_lex_lt_trans(coords@, rs[pos as int].0, rs[i].0);
                }
                lemma_lex_lt_neq(coords@, rs[i].0);
            }
            lemma_rows_map_insert(rs, pos as int, x);
            assert(rows_seq(out@) =~= rs.insert(pos as int, x));
            let ns = rows_seq(out@);
            assert forall|i: int, j: int| 0 <= i < j < ns.len() implies lex_lt(
                (#[trigger] ns[i]).0,
                (#[trigger] ns[j]).0,
            ) by {
                if j < pos {
                    assert(lex_lt(rs[i].0, rs[j].0));
                } else if j == pos {
                    assert(ns[j].0 == coords@);
                    assert(lex_lt(rs[i].0, coords@));
                } else {
                    if i < pos {
                        assert(ns[i] == rs[i]);
                        assert(ns[j] == rs[j - 1]);
                        assert(lex_lt(rs[i].0, rs[j - 1].0) || i == j - 1);
                        if i == j - 1 {
                            assert(i == pos - 1 && j == pos + 1);
                            assert(lex_lt(rs[i].0, coords@));
                            assert(lex_lt(coords@, rs[pos as int].0));
                            lemma_lex_lt_trans(rs[i].0, coords@, rs[pos as int].0);
                        }
                    } else if i == pos {
                        assert(ns[i].0 == coords@);
                        assert(ns[j] == rs[j - 1]);
                        if j - 1 == pos {
                            assert(lex_lt(coords@, rs[pos as int].0));
                        } else {
                            lemma_lex_lt_trans(coords@, rs[pos as int].0, rs[j - 1].0);
                        }
                    } else {
                        assert(ns[i] == rs[i - 1]);
                        assert(ns[j] == rs[j - 1]);
                        assert(lex_lt(rs[i - 1].0, rs[j - 1].0));
                    }
                }
            }
        }
        return ;
    }
    // the new row goes at the end
    out.push((coords, v));
    proof {
        let rs = rows_seq(old(out)@);
        let x = (coords@, v);
        lemma_rows_map_insert(rs, rs.len() as int, x);
        assert(rows_seq(out@) =~= rs.insert(rs.len() as int, x));
        let ns = rows_seq(out@);
        assert forall|i: int, j: int| 0 <= i < j < ns.len() implies lex_lt(
            (#[trigger] ns[i]).0,
            (#[trigger] ns[j]).0,
        ) by {
            if j < ns.len() - 1 {
                assert(lex_lt(rs[i].0, rs[j].0));
            } else {
                assert(ns[j].0 == coords@);
                assert(lex_lt(rs[i].0, coords@));
            }
        }
    }
}

impl<T: Copy> CompressedSparseFiber<T> {
    /// Build the compressed form of a set of rows: sort the rows by
    /// coordinate tuple, keep the value inserted last for a repeated tuple,
    /// and compile the per-level arrays. Rows whose coordinate tuples do not
    /// all share one positive length are rejected.
    pub fn from_rows(rows: &Vec<(Vec<i64>, T)>) -> (r: Result<Self, BuildError>)
        ensures
            r is Ok <==> (rows@.len() == 0 || (rows@[0].0@.len() >= 1 && forall|i: int|
                0 <= i < rows@.len() ==> (#[trigger] rows@[i]).0@.len() == rows@[0].0@.len())),
            r matches Ok(c) ==> represents(c, rows_map(rows_seq(rows@))),
            r matches Ok(c) ==> canonical(c),
            r matches Ok(c) ==> groups_sorted(c.fptr_view(), c.fids_view()),
            r is Ok && rows@.len() == 0 ==> (r->Ok_0).fptr@.len() == 0 && (r->Ok_0).fids@.len()
                == 0 && (r->Ok_0).vals@.len() == 0,
            r is Ok && rows@.len() > 0 ==> (r->Ok_0).fids@.len() == rows@[0].0@.len(),
    {
        let n = rows.len();
        if n == 0 {
            let c = CompressedSparseFiber {
                fptr: Vec::<Vec<usize>>::new(),
                fids: Vec::<Vec<i64>>::new(),
                vals: Vec::<T>::new(),
            };
            proof {
                assert(c.fptr_view() =~= Seq::<Seq<usize>>::empty());
                assert(c.fids_view() =~= Seq::<Seq<i64>>::empty());
                assert(canonical(c));
            }
            return Ok(c);
        }
        let d = rows[0].0.len();
        if d == 0 {
            return Err(BuildError::DimensionMismatch);
        }
        let mut i: usize = 0;
        while i < n
            invariant
                n == rows@.len(),
                d == rows@[0].0@.len(),
                i <= n,
                forall|j: int| 0 <= j < i ==> (#[trigger] rows@[j]).0@.len() == d,
            decreases n - i,
        {
            if rows[i].0.len() != d {
                return Err(BuildError::DimensionMismatch);
            }
            i = i + 1;
        }

        // sort the rows, merging repeated coordinate tuples
        let mut srows: Vec<(Vec<i64>, T)> = Vec::new();
        let mut i: usize = 0;
        while i < n
            invariant
                n == rows@.len(),
                d >= 1,
                forall|j: int| 0 <= j < n ==> (#[trigger] rows@[j]).0@.len() == d,
                i <= n,
                sorted_strict(rows_seq(srows@)),
                forall|j: int| 0 <= j < srows@.len() ==> (#[trigger] srows@[j]).0@.len() == d,
                rows_map(rows_seq(srows@)) == rows_map(rows_seq(rows@.take(i as int))),
            decreases n - i,
        {
            let coords = copy_coords(&rows[i].0);
            let v = rows[i].1;
            sorted_insert(&mut srows, coords, v);
            proof {
                let s0 = rows_seq(rows@.take(i as int));
                let s1 = rows_seq(rows@.take(i + 1));
                assert(s1.drop_last() =~= s0);
                assert(s1.last() == (rows@[i as int].0@, rows@[i as int].1));
            }
            i = i + 1;
        }
        proof {
            assert(rows@.take(n as int) =~= rows@);
        }

        // compile the per-level arrays from the sorted rows
        let ghost srs = rows_seq(srows@);
        let ghost ks = keys_seq(srows@);
        proof {
            assert forall|a: int, b: int| 0 <= a < b < ks.len() implies lex_lt(
                #[trigger] ks[a],
                #[trigger] ks[b],
            ) by {
                assert(lex_lt(srs[a].0, srs[b].0));
            }
            assert(sorted_keys(ks));
            assert forall|a: int| 0 <= a < ks.len() implies (#[trigger] ks[a]).len() == d by {
                assert(srows@[a].0@.len() == d);
            }
            assert(uniform_keys(ks, d as int));
        }
        let m = srows.len();
        let mut fids: Vec<Vec<i64>> = Vec::new();
        let mut l: usize = 0;
        while l < d
            invariant
                ks == keys_seq(srows@),
                uniform_keys(ks, d as int),
                l <= d,
                fids@.len() == l,
                forall|ll: int| 0 <= ll < l ==> level_char((#[trigger] fids@[ll])@, ks, ll),
            decreases d - l,
        {
            let fl = build_level(&srows, l, d);
            fids.push(fl);
            l = l + 1;
        }
        let mut fptr: Vec<Vec<usize>> = Vec::new();
        let mut l: usize = 0;
        while l + 1 < d
            invariant
                ks == keys_seq(srows@),
                uniform_keys(ks, d as int),
                l <= d - 1,
                fptr@.len() == l,
                forall|ll: int| 0 <= ll < l ==> ptr_char((#[trigger] fptr@[ll])@, ks, ll),
            decreases d - l,
        {
            let pl = build_ptr(&srows, l, d);
            fptr.push(pl);
            l = l + 1;
        }
        let mut vals: Vec<T> = Vec::new();
        let mut i: usize = 0;
        while i < m
            invariant
                m == srows@.len(),
                i <= m,
                vals@.len() == i,
                forall|j: int| 0 <= j < i ==> #[trigger] vals@[j] == srows@[j].1,
            decreases m - i,
        {
            let v = srows[i].1;
            vals.push(v);
            i = i + 1;
        }
        let c = CompressedSparseFiber { fptr, fids, vals };
        proof {
            let fv = c.fptr_view();
            let gv = c.fids_view();
            assert(fv.len() == d - 1);
            assert(gv.len() == d as int);
            assert forall|ll: int| 0 <= ll < d - 1 implies ptr_char(#[trigger] fv[ll], ks, ll) by {
                assert(fv[ll] == c.fptr@[ll]@);
            }
            assert forall|ll: int| 0 <= ll < d implies level_char(#[trigger] gv[ll], ks, ll) by {
                assert(gv[ll] == c.fids@[ll]@);
            }
            lemma_compiled_correct(fv, gv, ks, d as int);
            assert(ks.len() == m);
            assert(c.vals@.len() == m);
            assert(c.wf());
            assert forall|leaf: int| 0 <= leaf < m implies #[trigger] c.row_coords(leaf) == ks[leaf]
                by {}

            // the stored rows carry exactly the deduplicated input pairs
            let mm = rows_map(rows_seq(rows@));
            assert(rows_map(srs) == mm);
            assert forall|a: int, b: int| 0 <= a < b < srs.len() implies (#[trigger] srs[a]).0 != (
            #[trigger] srs[b]).0 by {
                lemma_lex_lt_neq(srs[a].0, srs[b].0);
            }
            lemma_rows_map_distinct(srs);
            assert forall|i0: int| 0 <= i0 < c.num_rows() implies mm.contains_pair(
                #[trigger] c.row_coords(i0),
                c.vals@[i0],
            ) by {
                assert(rows_map(srs).contains_pair(srs[i0].0, srs[i0].1));
                assert(srs[i0].0 == ks[i0]);
                assert(c.vals@[i0] == srs[i0].1);
            }
            lemma_rows_map_dom(srs);
            assert forall|k: Seq<i64>| #[trigger] mm.dom().contains(k) implies exists|i0: int|
                0 <= i0 < c.num_rows() && c.row_coords(i0) == k by {
                let i0 = choose|i0: int| 0 <= i0 < srs.len() && (#[trigger] srs[i0]).0 == k;
                assert(c.row_coords(i0) == k);
            }
            assert forall|a: int, b: int| 0 <= a < b < c.num_rows() implies lex_lt(
                #[trigger] c.row_coords(a),
                #[trigger] c.row_coords(b),
            ) by {
                assert(lex_lt(srs[a].0, srs[b].0));
            }
            assert(represents(c, mm));

            // within every group the coordinates strictly ascend
            if gv.len() > 0 {
                assert forall|k1: int, k2: int| 0 <= k1 < k2 < gv[0].len() implies #[trigger] gv[0][k1]
                    < #[trigger] gv[0][k2] by {
                    lemma_root_sorted_pair(gv[0], ks, d as int, k1, k2);
                }
            }
            assert forall|l: int, p: int, k1: int, k2: int|
                #![trigger fv[l][p], gv[l + 1][k1], gv[l + 1][k2]]
                0 <= l < fv.len() && 0 <= p < fv[l].len() - 1 && fv[l][p] <= k1 < k2 < fv[l][p
                    + 1] implies gv[l + 1][k1] < gv[l + 1][k2] by {
                lemma_group_sorted_pair(fv[l], gv[l + 1], ks, d as int, l, p, k1, k2);
            }
            assert(groups_sorted(fv, gv));

            // the arrays are the canonical compilation of the stored rows
            let ks2 = Seq::new(c.num_rows() as nat, |i: int| c.row_coords(i));
            assert(ks2 =~= ks);
            assert forall|ll: int, k: int|
                0 <= ll < fv.len() && 0 <= k < fv[ll].len() - 1 implies #[trigger] fv[ll][k]
                < fv[ll][k + 1] by {
                lemma_ptr_strict(fv[ll], ks, ll, k);
            }
            assert(canonical(c));
        }
        Ok(c)
    }
}

} // verus!
