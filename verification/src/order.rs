use vstd::prelude::*;

verus! {

/// The first `m` entries of `a` and `b` agree.
pub open spec fn prefix_eq(a: Seq<i64>, b: Seq<i64>, m: int) -> bool {
    forall|j: int| 0 <= j < m ==> a[j] == b[j]
}

/// Strict lexicographic order: the tuples agree up to some position at which
/// `a` holds the smaller coordinate.
pub open spec fn lex_lt(a: Seq<i64>, b: Seq<i64>) -> bool {
    exists|i: int| 0 <= i < a.len() && i < b.len() && a[i] < b[i] && #[trigger] prefix_eq(a, b, i)
}

/// Lexicographically ordered tuples are distinct.
pub proof fn lemma_lex_lt_neq(a: Seq<i64>, b: Seq<i64>)
    requires
        lex_lt(a, b),
    ensures
        a != b,
{
    let i = choose|i: int|
        0 <= i < a.len() && i < b.len() && a[i] < b[i] && #[trigger] prefix_eq(a, b, i);
    assert(a[i] != b[i]);
}

/// No tuple is lexicographically below itself.
pub proof fn lemma_lex_lt_irrefl(a: Seq<i64>)
    ensures
        !lex_lt(a, a),
{
    if lex_lt(a, a) {
        let i = choose|i: int|
            0 <= i < a.len() && i < a.len() && a[i] < a[i] && #[trigger] prefix_eq(a, a, i);
        assert(false);
    }
}

/// Lexicographic order is transitive on tuples of one length.
pub proof fn lemma_lex_lt_trans(a: Seq<i64>, b: Seq<i64>, c: Seq<i64>)
    requires
        lex_lt(a, b),
        lex_lt(b, c),
        a.len() == b.len(),
        b.len() == c.len(),
    ensures
        lex_lt(a, c),
{
    let i1 = choose|i: int|
        0 <= i < a.len() && i < b.len() && a[i] < b[i] && #[trigger] prefix_eq(a, b, i);
    let i2 = choose|i: int|
        0 <= i < b.len() && i < c.len() && b[i] < c[i] && #[trigger] prefix_eq(b, c, i);
    if i1 < i2 {
        assert(prefix_eq(a, c, i1));
        assert(b[i1] == c[i1]);
        assert(a[i1] < c[i1]);
    } else if i2 < i1 {
        assert(prefix_eq(a, c, i2));
        assert(a[i2] == b[i2]);
        assert(a[i2] < c[i2]);
    } else {
        assert(prefix_eq(a, c, i1));
        assert(a[i1] < c[i1]);
    }
}

/// A tuple lying between two tuples that agree on a prefix agrees with
/// them on that prefix as well.
pub proof fn lemma_lex_between_prefix(a: Seq<i64>, b: Seq<i64>, c: Seq<i64>, m: int)
    requires
        lex_lt(a, b),
        lex_lt(b, c),
        a.len() == b.len(),
        b.len() == c.len(),
        prefix_eq(a, c, m),
        m <= a.len(),
    ensures
        prefix_eq(a, b, m),
{
    let i1 = choose|i: int|
        0 <= i < a.len() && i < b.len() && a[i] < b[i] && #[trigger] prefix_eq(a, b, i);
    if i1 < m {
        // then b exceeds c at i1 already, against lex_lt(b, c)
        let i2 = choose|i: int|
            0 <= i < b.len() && i < c.len() && b[i] < c[i] && #[trigger] prefix_eq(b, c, i);
        if i2 < i1 {
            assert(b[i2] == a[i2]);
            assert(a[i2] == c[i2]);
        } else if i2 == i1 {
            assert(b[i1] < c[i1]);
            assert(c[i1] == a[i1]);
        } else {
            assert(b[i1] == c[i1]);
            assert(c[i1] == a[i1]);
        }
        assert(false);
    }
}

/// Three-way lexicographic comparison of two coordinate tuples of one
/// length: -1, 0 or 1 as the first is below, equal to, or above the second.
pub fn cmp_coords(a: &Vec<i64>, b: &Vec<i64>) -> (c: i8)
    requires
        a@.len() == b@.len(),
    ensures
        c == -1 || c == 0 || c == 1,
        c == -1 ==> lex_lt(a@, b@),
        c == 0 ==> a@ == b@,
        c == 1 ==> lex_lt(b@, a@),
{
    let mut i: usize = 0;
    while i < a.len()
        invariant
            i <= a@.len(),
            a@.len() == b@.len(),
            prefix_eq(a@, b@, i as int),
        decreases a@.len() - i,
    {
        if a[i] < b[i] {
            proof {
                assert(prefix_eq(a@, b@, i as int));
            }
            return -1;
        }
        if b[i] < a[i] {
            proof {
                assert forall|j: int| 0 <= j < i implies b@[j] == a@[j] by {
                    assert(a@[j] == b@[j]);
                }
                assert(prefix_eq(b@, a@, i as int));
            }
            return 1;
        }
        i = i + 1;
    }
    proof {
        assert(a@ =~= b@);
    }
    0
}

} // verus!
