//! The mathematical model of range aggregation: the reference fold of a
//! policy's reducer over a half-open sub-range of a sequence, its algebraic
//! laws, the bounds that keep every fold inside `i64`, and the
//! next-power-of-two arithmetic that fixes the tree layout.

use vstd::prelude::*;

use crate::algebra::TreeType;
use crate::algebra::combine_opt;
use crate::algebra::lemma_combine_assoc;

verus! {

/// The reference fold of the policy's reducer over `s[a..b)`,
/// left to right; an empty range folds to the identity (absence).
pub open spec fn fold_range(t: TreeType, s: Seq<int>, a: int, b: int) -> Option<int>
    decreases b - a,
{
    if a < b {
        combine_opt(t, fold_range(t, s, a, b - 1), Some(s[b - 1]))
    } else {
        None
    }
}

/// Splitting law: folding `[a, m)` and `[m, b)` separately and combining
/// the two gives the fold of `[a, b)`.
pub proof fn lemma_fold_split(t: TreeType, s: Seq<int>, a: int, m: int, b: int)
    requires
        a <= m <= b,
    ensures
        combine_opt(t, fold_range(t, s, a, m), fold_range(t, s, m, b)) == fold_range(t, s, a, b),
    decreases b - m,
{
    if m < b {
        lemma_fold_split(t, s, a, m, b - 1);
        lemma_combine_assoc(t, fold_range(t, s, a, m), fold_range(t, s, m, b - 1), Some(s[b - 1]));
    }
}

/// The fold depends only on the elements of the range it covers.
pub proof fn lemma_fold_unchanged(t: TreeType, s1: Seq<int>, s2: Seq<int>, a: int, b: int)
    requires
        forall|j: int| a <= j < b ==> s1[j] == s2[j],
    ensures
        fold_range(t, s1, a, b) == fold_range(t, s2, a, b),
    decreases b - a,
{
    if a < b {
        lemma_fold_unchanged(t, s1, s2, a, b - 1);
    }
}

/// The sum of the magnitudes of `s[a..b)`.
pub open spec fn abs_range(s: Seq<int>, a: int, b: int) -> int
    decreases b - a,
{
    if a < b {
        abs_range(s, a, b - 1) + vstd::math::abs(s[b - 1])
    } else {
        0
    }
}

proof fn lemma_abs_range_nonneg(s: Seq<int>, a: int, b: int)
    ensures
        abs_range(s, a, b) >= 0,
    decreases b - a,
{
    if a < b {
        lemma_abs_range_nonneg(s, a, b - 1);
    }
}

proof fn lemma_abs_range_split(s: Seq<int>, a: int, m: int, b: int)
    requires
        a <= m <= b,
    ensures
        abs_range(s, a, b) == abs_range(s, a, m) + abs_range(s, m, b),
    decreases b - m,
{
    if m < b {
        lemma_abs_range_split(s, a, m, b - 1);
    }
}

/// The magnitude of any fold is at most the summed magnitude of the
/// elements it covers, for every policy.
proof fn lemma_fold_abs(t: TreeType, s: Seq<int>, a: int, b: int)
    ensures
        fold_range(t, s, a, b) matches Some(v) ==> vstd::math::abs(v) <= abs_range(s, a, b),
    decreases b - a,
{
    if a < b {
        lemma_fold_abs(t, s, a, b - 1);
        lemma_abs_range_nonneg(s, a, b - 1);
    }
}

/// The magnitude bound that makes every machine-level combine of a policy safe.
pub open spec fn fits_ok(t: TreeType, s: Seq<int>) -> bool {
    t is Sum ==> abs_range(s, 0, s.len() as int) <= i64::MAX
}

/// Every element of the sequence is a machine integer.
pub open spec fn seq_in_i64(s: Seq<int>) -> bool {
    forall|j: int| 0 <= j < s.len() ==> i64::MIN <= #[trigger] s[j] <= i64::MAX
}

/// A fold of the minimum or maximum policy yields one of the covered elements.
proof fn lemma_fold_selects(t: TreeType, s: Seq<int>, a: int, b: int)
    requires
        t is Min || t is Max,
    ensures
        fold_range(t, s, a, b) matches Some(v) ==> exists|j: int| a <= j < b && s[j] == v,
    decreases b - a,
{
    if a < b {
        lemma_fold_selects(t, s, a, b - 1);
    }
}

/// Under the policy's bound, every fold over a sub-range of the sequence
/// fits in an `i64`.
pub proof fn lemma_fold_fits(t: TreeType, s: Seq<int>, a: int, b: int)
    requires
        seq_in_i64(s),
        fits_ok(t, s),
        0 <= a,
        b <= s.len(),
    ensures
        fold_range(t, s, a, b) matches Some(v) ==> i64::MIN <= v <= i64::MAX,
{
    if a < b {
        match t {
            TreeType::Sum => {
                lemma_fold_abs(t, s, a, b);
                lemma_abs_range_split(s, 0, a, s.len() as int);
                lemma_abs_range_split(s, a, b, s.len() as int);
                lemma_abs_range_nonneg(s, 0, a);
                lemma_abs_range_nonneg(s, b, s.len() as int);
            },
            _ => {
                lemma_fold_selects(t, s, a, b);
            },
        }
    }
}

/// The mathematical value of a sequence of machine integers.
pub open spec fn seq_val(s: Seq<i64>) -> Seq<int> {
    s.map_values(|v: i64| v as int)
}

pub proof fn lemma_seq_val_in_i64(s: Seq<i64>)
    ensures
        seq_in_i64(seq_val(s)),
{
}

/// The sequence after a batch of point updates, applied in list order.
pub open spec fn apply_updates(s: Seq<int>, ups: Seq<(i64, usize)>) -> Seq<int>
    decreases ups.len(),
{
    if ups.len() == 0 {
        s
    } else {
        apply_updates(s, ups.drop_last()).update(ups.last().1 as int, ups.last().0 as int)
    }
}

pub proof fn lemma_apply_updates_len(s: Seq<int>, ups: Seq<(i64, usize)>)
    requires
        forall|k: int| 0 <= k < ups.len() ==> ((#[trigger] ups[k]).1 as int) < s.len(),
    ensures
        apply_updates(s, ups).len() == s.len(),
    decreases ups.len(),
{
    if ups.len() > 0 {
        assert(forall|k: int|
            0 <= k < ups.drop_last().len() ==> (#[trigger] ups.drop_last()[k]) == ups[k]);
        lemma_apply_updates_len(s, ups.drop_last());
    }
}

/// Update locality: a point update is reflected exactly at its own index,
/// and a fold over any range that excludes the index is unaffected.
pub proof fn lemma_update_locality(t: TreeType, s: Seq<int>, i: int, v: int, a: int, b: int)
    requires
        0 <= i < s.len(),
        0 <= a,
        b <= s.len(),
    ensures
        !(a <= i < b) ==> fold_range(t, s.update(i, v), a, b) == fold_range(t, s, a, b),
        fold_range(t, s.update(i, v), i, i + 1) == Some(v),
{
    if !(a <= i < b) {
        assert(forall|j: int| a <= j < b ==> s.update(i, v)[j] == s[j]);
        lemma_fold_unchanged(t, s.update(i, v), s, a, b);
    }
    assert(fold_range(t, s.update(i, v), i, i + 1) == combine_opt(
        t,
        fold_range(t, s.update(i, v), i, i),
        Some(s.update(i, v)[i]),
    ));
}

/// Whether `p` is a power of two.
pub open spec fn is_pow2(p: int) -> bool
    decreases p,
{
    if p <= 0 {
        false
    } else if p == 1 {
        true
    } else {
        p % 2 == 0 && is_pow2(p / 2)
    }
}

/// The smallest power of two that is at least `n` (and at least one).
pub open spec fn min_pow2(n: int) -> int
    decreases n,
{
    if n <= 1 {
        1
    } else {
        2 * min_pow2((n + 1) / 2)
    }
}

/// `min_pow2` is a power of two, reaches `n`, and halving it falls below `n`.
pub proof fn lemma_min_pow2(n: int)
    requires
        0 <= n,
    ensures
        is_pow2(min_pow2(n)),
        min_pow2(n) >= n,
        min_pow2(n) >= 1,
        min_pow2(n) > 1 ==> min_pow2(n) / 2 < n,
    decreases n,
{
    if n >= 2 {
        lemma_min_pow2((n + 1) / 2);
    }
}

/// Of two powers of two, the smaller divides the larger at least once.
proof fn lemma_pow2_ordering(p: int, q: int)
    requires
        is_pow2(p),
        is_pow2(q),
        p < q,
    ensures
        2 * p <= q,
    decreases q,
{
    if p > 1 {
        lemma_pow2_ordering(p / 2, q / 2);
    }
}

/// Any power of two that reaches `n` while its half does not is `min_pow2(n)`.
pub proof fn lemma_min_pow2_unique(n: int, q: int)
    requires
        0 <= n,
        is_pow2(q),
        q >= n,
        q == 1 || q / 2 < n,
    ensures
        q == min_pow2(n),
{
    let p = min_pow2(n);
    lemma_min_pow2(n);
    if q < p {
        lemma_pow2_ordering(q, p);
        assert(p / 2 >= q);
    } else if p < q {
        lemma_pow2_ordering(p, q);
        assert(q / 2 >= p);
    }
}

} // verus!
