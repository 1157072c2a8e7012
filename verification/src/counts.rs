use vstd::prelude::*;

verus! {

/// Number of entries of `s` that are at most `c`.
pub open spec fn count_le(s: Seq<usize>, c: int) -> int
    decreases s.len(),
{
    if s.len() == 0 {
        0
    } else {
        count_le(s.drop_last(), c) + (if s.last() <= c {
            1int
        } else {
            0int
        })
    }
}

/// The entries of `s` never decrease from left to right.
pub open spec fn nondecreasing(s: Seq<usize>) -> bool {
    forall|i: int, j: int| 0 <= i <= j < s.len() ==> s[i] <= s[j]
}

/// On a nondecreasing row, the entries at most `c` form a prefix of
/// length `count_le(s, c)`.
pub proof fn lemma_count_le_partition(s: Seq<usize>, c: int)
    requires
        nondecreasing(s),
    ensures
        0 <= count_le(s, c) <= s.len(),
        forall|i: int| 0 <= i < count_le(s, c) ==> s[i] <= c,
        forall|i: int| count_le(s, c) <= i < s.len() ==> s[i] > c,
    decreases s.len(),
{
    if s.len() > 0 {
        let t = s.drop_last();
        assert forall|i: int, j: int| 0 <= i <= j < t.len() implies t[i] <= t[j] by {
            assert(s[i] <= s[j]);
        }
        lemma_count_le_partition(t, c);
        if s.last() <= c {
            assert forall|i: int| 0 <= i < s.len() implies s[i] <= c by {
                assert(s[i] <= s[s.len() - 1]);
            }
            if count_le(t, c) < t.len() {
                assert(t[count_le(t, c)] > c);
                assert(t[count_le(t, c)] == s[count_le(t, c)]);
                assert(false);
            }
        } else {
            assert forall|i: int| 0 <= i < count_le(s, c) implies s[i] <= c by {
                assert(t[i] <= c);
                assert(t[i] == s[i]);
            }
            assert forall|i: int| count_le(s, c) <= i < s.len() implies s[i] > c by {
                if i < s.len() - 1 {
                    assert(t[i] > c);
                    assert(t[i] == s[i]);
                }
            }
        }
    }
}

/// `count_le(s, c)` is the only cut point with entries at most `c` on the
/// left and entries above `c` on the right.
pub proof fn lemma_count_le_unique(s: Seq<usize>, c: int, j: int)
    requires
        nondecreasing(s),
        0 <= j <= s.len(),
        forall|i: int| 0 <= i < j ==> s[i] <= c,
        forall|i: int| j <= i < s.len() ==> s[i] > c,
    ensures
        count_le(s, c) == j,
{
    lemma_count_le_partition(s, c);
    let k = count_le(s, c);
    if k < j {
        assert(s[k] <= c);
        assert(s[k] > c);
    }
    if j < k {
        assert(s[j] <= c);
        assert(s[j] > c);
    }
}

/// Raising the bound can only let more entries through.
pub proof fn lemma_count_le_monotone(s: Seq<usize>, c1: int, c2: int)
    requires
        c1 <= c2,
    ensures
        count_le(s, c1) <= count_le(s, c2),
    decreases s.len(),
{
    if s.len() > 0 {
        lemma_count_le_monotone(s.drop_last(), c1, c2);
    }
}

/// Binary search for the partition point of `row` at bound `c`: the number
/// of entries that are at most `c`.
pub fn partition_index(row: &Vec<usize>, c: usize) -> (j: usize)
    requires
        nondecreasing(row@),
    ensures
        j == count_le(row@, c as int),
{
    let mut lo: usize = 0;
    let mut hi: usize = row.len();
    while lo < hi
        invariant
            lo <= hi <= row@.len(),
            nondecreasing(row@),
            forall|i: int| 0 <= i < lo ==> row@[i] <= c,
            forall|i: int| hi <= i < row@.len() ==> row@[i] > c,
        decreases hi - lo,
    {
        let mid = lo + (hi - lo) / 2;
        if row[mid] <= c {
            assert forall|i: int| 0 <= i < mid + 1 implies row@[i] <= c by {
                assert(row@[i] <= row@[mid as int]);
            }
            lo = mid + 1;
        } else {
            hi = mid;
        }
    }
    proof {
        lemma_count_le_unique(row@, c as int, lo as int);
    }
    lo
}

} // verus!
