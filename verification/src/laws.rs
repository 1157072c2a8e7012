use vstd::prelude::*;
use crate::compile::{lemma_level_char_unique, lemma_ptr_char_unique, lemma_sorted_keys_unique};
use crate::construct::{
    canonical, represents, rows_map, distinct_keys, lemma_rows_map_distinct, lemma_rows_map_dom,
};
use crate::fiber::CompressedSparseFiber;
use crate::order::lemma_lex_lt_neq;

verus! {

/// Determinism: a row map has one compressed form. Two fibers of one depth
/// that both represent the map in canonical form are equal, array by array.
pub proof fn lemma_build_deterministic<T>(
    c1: CompressedSparseFiber<T>,
    c2: CompressedSparseFiber<T>,
    m: Map<Seq<i64>, T>,
)
    requires
        represents(c1, m),
        canonical(c1),
        represents(c2, m),
        canonical(c2),
        c1.fids_view().len() == c2.fids_view().len(),
    ensures
        c1.fptr_view() == c2.fptr_view(),
        c1.fids_view() == c2.fids_view(),
        c1.vals@ == c2.vals@,
{
    let d = c1.fids_view().len() as int;
    let n1 = c1.num_rows();
    let n2 = c2.num_rows();
    let ks1 = Seq::new(n1 as nat, |i: int| c1.row_coords(i));
    let ks2 = Seq::new(n2 as nat, |i: int| c2.row_coords(i));

    // the two fibers store one sorted list of coordinate tuples: m's keys
    assert forall|k: Seq<i64>| ks1.contains(k) implies ks2.contains(k) by {
        let i = choose|i: int| 0 <= i < ks1.len() && ks1[i] == k;
        assert(m.contains_pair(c1.row_coords(i), c1.vals@[i]));
        assert(m.dom().contains(k));
        let j = choose|j: int| 0 <= j < c2.num_rows() && c2.row_coords(j) == k;
        assert(ks2[j] == k);
    }
    assert forall|k: Seq<i64>| ks2.contains(k) implies ks1.contains(k) by {
        let i = choose|i: int| 0 <= i < ks2.len() && ks2[i] == k;
        assert(m.contains_pair(c2.row_coords(i), c2.vals@[i]));
        assert(m.dom().contains(k));
        let j = choose|j: int| 0 <= j < c1.num_rows() && c1.row_coords(j) == k;
        assert(ks1[j] == k);
    }
    lemma_sorted_keys_unique(ks1, ks2, d);
    assert(n1 == n2);

    // equal keys carry equal values
    assert forall|i: int| 0 <= i < n1 implies c1.vals@[i] == c2.vals@[i] by {
        assert(m.contains_pair(c1.row_coords(i), c1.vals@[i]));
        assert(m.contains_pair(c2.row_coords(i), c2.vals@[i]));
        assert(c1.row_coords(i) == ks1[i]);
        assert(c2.row_coords(i) == ks2[i]);
    }
    assert(c1.vals@ =~= c2.vals@);

    // each level's arrays are pinned by the shared characterization
    assert forall|l: int| 0 <= l < d implies #[trigger] c1.fids_view()[l] == c2.fids_view()[l] by {
        lemma_level_char_unique(c1.fids_view()[l], c2.fids_view()[l], ks1, l);
    }
    assert(c1.fids_view() =~= c2.fids_view());
    assert forall|l: int|
        0 <= l < c1.fptr_view().len() implies #[trigger] c1.fptr_view()[l]
        == c2.fptr_view()[l] by {
        lemma_ptr_char_unique(c1.fptr_view()[l], c2.fptr_view()[l], ks1, l);
    }
    assert(c1.fptr_view() =~= c2.fptr_view());
}

/// Order independence, array by array: canonical builds from two orderings
/// of one distinct-keyed row list are the same structure.
pub proof fn lemma_permuted_builds_identical<T>(
    c1: CompressedSparseFiber<T>,
    s1: Seq<(Seq<i64>, T)>,
    c2: CompressedSparseFiber<T>,
    s2: Seq<(Seq<i64>, T)>,
)
    requires
        s1.to_multiset() == s2.to_multiset(),
        distinct_keys(s1),
        distinct_keys(s2),
        represents(c1, rows_map(s1)),
        canonical(c1),
        represents(c2, rows_map(s2)),
        canonical(c2),
        c1.fids_view().len() == c2.fids_view().len(),
    ensures
        c1.fptr_view() == c2.fptr_view(),
        c1.fids_view() == c2.fids_view(),
        c1.vals@ == c2.vals@,
{
    lemma_rows_map_permutation(s1, s2);
    lemma_build_deterministic(c1, c2, rows_map(s1));
}

/// Idempotence of grouping, array by array: a canonical build from rows
/// with an appended duplicate pair is the same structure as one without it.
pub proof fn lemma_duplicate_builds_identical<T>(
    c1: CompressedSparseFiber<T>,
    c2: CompressedSparseFiber<T>,
    rs: Seq<(Seq<i64>, T)>,
    k: Seq<i64>,
    v: T,
)
    requires
        rows_map(rs).contains_pair(k, v),
        represents(c1, rows_map(rs.push((k, v)))),
        canonical(c1),
        represents(c2, rows_map(rs)),
        canonical(c2),
        c1.fids_view().len() == c2.fids_view().len(),
    ensures
        c1.fptr_view() == c2.fptr_view(),
        c1.fids_view() == c2.fids_view(),
        c1.vals@ == c2.vals@,
{
    lemma_duplicate_row_absorbed(rs, k, v);
    lemma_build_deterministic(c1, c2, rows_map(rs));
}

/// Round trip: a fiber that represents the map of a set of rows stores, for
/// every pair of that map, a leaf with exactly those coordinates and that
/// value; every stored leaf is a pair of the map; and no coordinate tuple
/// is stored twice.
pub proof fn lemma_round_trip<T>(c: CompressedSparseFiber<T>, rs: Seq<(Seq<i64>, T)>)
    requires
        represents(c, rows_map(rs)),
    ensures
        forall|k: Seq<i64>, v: T|
            rows_map(rs).contains_pair(k, v) <==> exists|i: int|
                0 <= i < c.num_rows() && #[trigger] c.row_coords(i) == k && c.vals@[i] == v,
        forall|i: int, j: int|
            0 <= i < j < c.num_rows() ==> c.row_coords(i) != c.row_coords(j),
{
    let m = rows_map(rs);
    assert forall|k: Seq<i64>, v: T| m.contains_pair(k, v) implies exists|i: int|
        0 <= i < c.num_rows() && #[trigger] c.row_coords(i) == k && c.vals@[i] == v by {
        assert(m.dom().contains(k));
        let i = choose|i: int| 0 <= i < c.num_rows() && c.row_coords(i) == k;
        assert(m.contains_pair(c.row_coords(i), c.vals@[i]));
        assert(c.vals@[i] == v);
        assert(0 <= i < c.num_rows() && c.row_coords(i) == k && c.vals@[i] == v);
    }
    assert forall|k: Seq<i64>, v: T|
        (exists|i: int|
            0 <= i < c.num_rows() && #[trigger] c.row_coords(i) == k && c.vals@[i]
                == v) implies m.contains_pair(k, v) by {
        let i = choose|i: int|
            0 <= i < c.num_rows() && #[trigger] c.row_coords(i) == k && c.vals@[i] == v;
        assert(m.contains_pair(c.row_coords(i), c.vals@[i]));
    }
    assert forall|i: int, j: int| 0 <= i < j < c.num_rows() implies c.row_coords(i)
        != c.row_coords(j) by {
        lemma_lex_lt_neq(c.row_coords(i), c.row_coords(j));
    }
}

/// Permutation invariance: two row lists that hold the same rows in any
/// order, with no coordinate tuple repeated, carry one map — so what a
/// build yields does not depend on the order the rows were given in.
pub proof fn lemma_rows_map_permutation<T>(s1: Seq<(Seq<i64>, T)>, s2: Seq<(Seq<i64>, T)>)
    requires
        s1.to_multiset() == s2.to_multiset(),
        distinct_keys(s1),
        distinct_keys(s2),
    ensures
        rows_map(s1) == rows_map(s2),
{
    s1.to_multiset_ensures();
    s2.to_multiset_ensures();
    lemma_rows_map_distinct(s1);
    lemma_rows_map_distinct(s2);
    lemma_rows_map_dom(s1);
    lemma_rows_map_dom(s2);
    assert forall|k: Seq<i64>| rows_map(s1).dom().contains(k) implies rows_map(
        s2,
    ).dom().contains(k) && rows_map(s2)[k] == rows_map(s1)[k] by {
        let i = choose|i: int| 0 <= i < s1.len() && (#[trigger] s1[i]).0 == k;
        let p = s1[i];
        assert(s1[i] == p);
        assert(s1.contains(p));
        assert(s2.to_multiset().count(p) > 0);
        assert(s2.contains(p));
        let j = choose|j: int| 0 <= j < s2.len() && s2[j] == p;
        assert(rows_map(s2).contains_pair(s2[j].0, s2[j].1));
        assert(rows_map(s1).contains_pair(s1[i].0, s1[i].1));
    }
    assert forall|k: Seq<i64>| rows_map(s2).dom().contains(k) implies rows_map(
        s1,
    ).dom().contains(k) by {
        let i = choose|i: int| 0 <= i < s2.len() && (#[trigger] s2[i]).0 == k;
        let p = s2[i];
        assert(s2[i] == p);
        assert(s2.contains(p));
        assert(s1.to_multiset().count(p) > 0);
        assert(s1.contains(p));
        let j = choose|j: int| 0 <= j < s1.len() && s1[j] == p;
        assert(rows_map(s1).contains_pair(s1[j].0, s1[j].1));
    }
    assert(rows_map(s1) =~= rows_map(s2));
}

/// Idempotence of grouping: appending a row whose coordinates already carry
/// the same value leaves the built map unchanged, so the row is not stored
/// twice.
pub proof fn lemma_duplicate_row_absorbed<T>(rs: Seq<(Seq<i64>, T)>, k: Seq<i64>, v: T)
    requires
        rows_map(rs).contains_pair(k, v),
    ensures
        rows_map(rs.push((k, v))) == rows_map(rs),
{
    assert(rs.push((k, v)).drop_last() =~= rs);
    assert(rows_map(rs.push((k, v))) == rows_map(rs).insert(k, v));
    assert(rows_map(rs).insert(k, v) =~= rows_map(rs));
}

} // verus!
