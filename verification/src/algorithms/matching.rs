//! Sums along maps from agents to tiles, and what follows for two such
//! maps that use no tile twice.
use vstd::prelude::*;

verus! {

/// The sum of the first `k` entries.
pub open spec fn sum_to(s: Seq<int>, k: int) -> int
    decreases k,
{
    if k <= 0 {
        0
    } else {
        sum_to(s, k - 1) + s[k - 1]
    }
}

/// Two sequences that agree on their first `k` entries have the same sum
/// there.
pub proof fn lemma_sum_same(a: Seq<int>, b: Seq<int>, k: int)
    requires
        forall|j: int| 0 <= j < k ==> a[j] == b[j],
    ensures
        sum_to(a, k) == sum_to(b, k),
    decreases k,
{
    if k > 0 {
        lemma_sum_same(a, b, k - 1);
    }
}

/// Entry by entry no larger, so no larger in sum.
pub proof fn lemma_sum_le(a: Seq<int>, b: Seq<int>, k: int)
    requires
        forall|j: int| 0 <= j < k ==> a[j] <= b[j],
    ensures
        sum_to(a, k) <= sum_to(b, k),
    decreases k,
{
    if k > 0 {
        lemma_sum_le(a, b, k - 1);
    }
}

/// Of entries that are not negative, more sum to no less.
pub proof fn lemma_sum_grows(s: Seq<int>, a: int, b: int)
    requires
        0 <= a <= b,
        forall|j: int| a <= j < b ==> 0 <= #[trigger] s[j],
    ensures
        sum_to(s, a) <= sum_to(s, b),
    decreases b,
{
    if a < b {
        lemma_sum_grows(s, a, b - 1);
    }
}

/// Replacing one entry changes the sum by the difference at that entry.
pub proof fn lemma_sum_update(s: Seq<int>, j: int, v: int, k: int)
    requires
        0 <= j < s.len(),
        0 <= k <= s.len(),
    ensures
        sum_to(s.update(j, v), k) == sum_to(s, k) + if j < k {
            v - s[j]
        } else {
            0
        },
    decreases k,
{
    if k > 0 {
        lemma_sum_update(s, j, v, k - 1);
    }
}

/// The sum of the entrywise differences is the difference of the sums.
pub proof fn lemma_sum_minus(a: Seq<int>, b: Seq<int>, c: Seq<int>, k: int)
    requires
        forall|j: int| 0 <= j < k ==> c[j] == a[j] - b[j],
    ensures
        sum_to(c, k) == sum_to(a, k) - sum_to(b, k),
    decreases k,
{
    if k > 0 {
        lemma_sum_minus(a, b, c, k - 1);
    }
}

/// A sum of entries that are zero or one lies between nothing and `k`; it
/// is `k` only if all are one, and nothing only if all are zero.
pub proof fn lemma_sum_bits(s: Seq<int>, k: int)
    requires
        0 <= k,
        forall|j: int| 0 <= j < k ==> 0 <= #[trigger] s[j] <= 1,
    ensures
        0 <= sum_to(s, k) <= k,
        sum_to(s, k) == k ==> forall|j: int| 0 <= j < k ==> #[trigger] s[j] == 1,
        sum_to(s, k) == 0 ==> forall|j: int| 0 <= j < k ==> #[trigger] s[j] == 0,
    decreases k,
{
    if k > 0 {
        lemma_sum_bits(s, k - 1);
    }
}

/// Among `k` entries that are zero or one and sum to `k - 1`, exactly one
/// is zero.
pub proof fn lemma_sum_one_missing(s: Seq<int>, k: int) -> (z: int)
    requires
        0 <= k,
        forall|j: int| 0 <= j < k ==> 0 <= #[trigger] s[j] <= 1,
        sum_to(s, k) == k - 1,
    ensures
        0 <= z < k,
        s[z] == 0,
        forall|j: int| 0 <= j < k && j != z ==> #[trigger] s[j] == 1,
    decreases k,
{
    lemma_sum_bits(s, k - 1);
    if k <= 0 {
        0
    } else if s[k - 1] == 0 {
        k - 1
    } else {
        lemma_sum_one_missing(s, k - 1)
    }
}

/// Among entries that are zero or one and sum to at most one, no two are
/// one.
pub proof fn lemma_sum_at_most_one(s: Seq<int>, k: int, a: int, b: int)
    requires
        forall|j: int| 0 <= j < k ==> 0 <= #[trigger] s[j] <= 1,
        sum_to(s, k) <= 1,
        0 <= a < b < k,
    ensures
        !(s[a] == 1 && s[b] == 1),
    decreases k,
{
    if k > 0 {
        if b == k - 1 {
            if s[b] == 1 {
                lemma_sum_bits(s, k - 1);
            }
        } else {
            lemma_sum_bits(s, k - 1);
            lemma_sum_at_most_one(s, k - 1, a, b);
        }
    }
}

/// Among entries that are zero or one with a positive sum, one is one.
pub proof fn lemma_sum_positive(s: Seq<int>, k: int) -> (z: int)
    requires
        forall|j: int| 0 <= j < k ==> 0 <= #[trigger] s[j] <= 1,
        sum_to(s, k) > 0,
    ensures
        0 <= z < k,
        s[z] == 1,
    decreases k,
{
    if k <= 0 {
        0
    } else if s[k - 1] == 1 {
        k - 1
    } else {
        lemma_sum_positive(s, k - 1)
    }
}

/// A map from the first `n` agents to tiles below `m`, where a negative
/// entry means no tile, uses no tile twice.
pub open spec fn one_to_one(f: Seq<int>, n: int, m: int) -> bool {
    &&& n <= f.len()
    &&& forall|i: int| 0 <= i < n ==> (#[trigger] f[i]) < m
    &&& forall|i: int, k: int| 0 <= i < k < n && f[i] >= 0 ==> f[i] != f[k]
}

/// One of the first `n` agents has tile `j`.
pub open spec fn hit(f: Seq<int>, n: int, j: int) -> bool {
    exists|i: int| 0 <= i < n && #[trigger] f[i] == j
}

/// For each agent the weight of its tile, or nothing where it has none.
pub open spec fn along(f: Seq<int>, w: Seq<int>) -> Seq<int> {
    Seq::new(
        f.len(),
        |i: int|
            if f[i] >= 0 {
                w[f[i]]
            } else {
                0
            },
    )
}

/// For each tile its weight if one of the first `n` agents has it, else
/// nothing.
pub open spec fn masked(f: Seq<int>, n: int, w: Seq<int>) -> Seq<int> {
    Seq::new(
        w.len(),
        |j: int|
            if hit(f, n, j) {
                w[j]
            } else {
                0
            },
    )
}

/// Summing the weights of the tiles along a map that uses no tile twice is
/// summing, over all tiles, the weights of the tiles used.
pub proof fn lemma_along_is_masked(f: Seq<int>, w: Seq<int>, n: int)
    requires
        0 <= n,
        one_to_one(f, n, w.len() as int),
    ensures
        sum_to(along(f, w), n) == sum_to(masked(f, n, w), w.len() as int),
    decreases n,
{
    let m = w.len() as int;
    if n == 0 {
        assert forall|j: int| 0 <= j < m implies masked(f, 0, w)[j] == 0 by {}
        lemma_sum_zero(masked(f, 0, w), m);
    } else {
        lemma_along_is_masked(f, w, n - 1);
        let before = masked(f, n - 1, w);
        let after = masked(f, n, w);
        let j0 = f[n - 1];
        if j0 < 0 {
            assert forall|j: int| 0 <= j < m implies before[j] == after[j] by {
                if hit(f, n, j) {
                    let i = choose|i: int| 0 <= i < n && #[trigger] f[i] == j;
                    assert(i < n - 1);
                    assert(hit(f, n - 1, j));
                }
            }
            lemma_sum_same(before, after, m);
        } else {
            assert(!hit(f, n - 1, j0)) by {
                if hit(f, n - 1, j0) {
                    let i = choose|i: int| 0 <= i < n - 1 && #[trigger] f[i] == j0;
                    assert(f[i] != f[n - 1]);
                }
            }
            assert(hit(f, n, j0)) by {
                assert(f[n - 1] == j0);
            }
            assert forall|j: int| 0 <= j < m implies after[j] == before.update(j0, w[j0])[j] by {
                if j != j0 {
                    if hit(f, n, j) {
                        let i = choose|i: int| 0 <= i < n && #[trigger] f[i] == j;
                        assert(i < n - 1);
                        assert(hit(f, n - 1, j));
                    }
                    if hit(f, n - 1, j) {
                        let i = choose|i: int| 0 <= i < n - 1 && #[trigger] f[i] == j;
                        assert(hit(f, n, j));
                    }
                }
            }
            lemma_sum_same(after, before.update(j0, w[j0]), m);
            lemma_sum_update(before, j0, w[j0], m);
        }
    }
}

/// A sum of zeros is zero.
pub proof fn lemma_sum_zero(s: Seq<int>, k: int)
    requires
        forall|j: int| 0 <= j < k ==> s[j] == 0,
    ensures
        sum_to(s, k) == 0,
    decreases k,
{
    if k > 0 {
        lemma_sum_zero(s, k - 1);
    }
}

/// Let `chosen` and `other` each give every agent a tile and use no tile
/// twice, and let the weight of a tile be at most zero where `chosen` uses
/// it and at least zero elsewhere. Then the weights along `other` sum to no
/// less than those along `chosen`.
pub proof fn lemma_weights_favour(chosen: Seq<int>, other: Seq<int>, w: Seq<int>, n: int)
    requires
        0 <= n,
        one_to_one(chosen, n, w.len() as int),
        one_to_one(other, n, w.len() as int),
        forall|i: int| 0 <= i < n ==> 0 <= #[trigger] other[i],
        forall|j: int| 0 <= j < w.len() && hit(chosen, n, j) ==> #[trigger] w[j] <= 0,
        forall|j: int| 0 <= j < w.len() && !hit(chosen, n, j) ==> #[trigger] w[j] >= 0,
    ensures
        sum_to(along(other, w), n) >= sum_to(along(chosen, w), n),
{
    lemma_along_is_masked(chosen, w, n);
    lemma_along_is_masked(other, w, n);
    assert forall|j: int| 0 <= j < w.len() implies masked(chosen, n, w)[j] <= masked(
        other,
        n,
        w,
    )[j] by {
        if hit(chosen, n, j) {
            assert(w[j] <= 0);
        } else {
            assert(w[j] >= 0);
        }
    }
    lemma_sum_le(masked(chosen, n, w), masked(other, n, w), w.len() as int);
}

} // verus!
