//! The triangular numbering of unordered index pairs.
//!
//! An unordered pair of distinct indices is written `(hi, lo)` with `lo < hi`
//! and numbered `hi * (hi - 1) / 2 + lo + 1`. Pairs with the same larger index
//! occupy one run of consecutive keys, the runs follow one another without
//! gaps, and so the pairs correspond one to one to the positive integers.

use vstd::prelude::*;
use crate::types::Index;

verus! {

/// Number of pairs `(h, l)` with `l < h < hi`: the keys below the run of `hi`.
pub open spec fn pairs_below(hi: int) -> int {
    hi * (hi - 1) / 2
}

/// Key of the pair `(hi, lo)`; meant for `0 <= lo < hi`.
pub open spec fn pair_key(hi: int, lo: int) -> int {
    pairs_below(hi) + lo + 1
}

/// Key of two indices given in either order; `0` stands for "no pair" and is
/// what two equal indices get.
pub open spec fn key_of(i: Index, j: Index) -> int {
    if i == j {
        0
    } else if i < j {
        pair_key(j as int, i as int)
    } else {
        pair_key(i as int, j as int)
    }
}

/// The largest key that a pair of machine indices can have.
pub open spec fn max_key() -> int {
    pairs_below(usize::MAX + 1)
}

/// The run of `hi + 1` starts where the run of `hi` ends.
pub proof fn lemma_pairs_below_step(hi: int)
    ensures
        pairs_below(hi + 1) == pairs_below(hi) + hi,
{
    assert((hi + 1) * hi == hi * (hi - 1) + 2 * hi) by (nonlinear_arith);
}

/// `pairs_below` grows with its argument.
pub proof fn lemma_pairs_below_monotone(a: int, b: int)
    requires
        0 <= a <= b,
    ensures
        0 <= pairs_below(a) <= pairs_below(b),
    decreases b - a,
{
    if a < b {
        lemma_pairs_below_monotone(a, b - 1);
        lemma_pairs_below_step(b - 1);
    } else {
        assert(a * (a - 1) >= 0) by (nonlinear_arith)
            requires
                a >= 0,
        ;
    }
}

/// A pair's key lies in the run of its larger index.
pub proof fn lemma_pair_key_in_run(hi: int, lo: int)
    requires
        0 <= lo < hi,
    ensures
        pairs_below(hi) < pair_key(hi, lo) <= pairs_below(hi + 1),
        1 <= pair_key(hi, lo),
{
    lemma_pairs_below_step(hi);
    lemma_pairs_below_monotone(0, hi);
}

/// Different pairs have different keys.
pub proof fn lemma_pair_key_injective(h1: int, l1: int, h2: int, l2: int)
    requires
        0 <= l1 < h1,
        0 <= l2 < h2,
        pair_key(h1, l1) == pair_key(h2, l2),
    ensures
        h1 == h2,
        l1 == l2,
{
    lemma_pair_key_in_run(h1, l1);
    lemma_pair_key_in_run(h2, l2);
    if h1 < h2 {
        lemma_pairs_below_monotone(h1 + 1, h2);
    } else if h2 < h1 {
        lemma_pairs_below_monotone(h2 + 1, h1);
    }
}

/// Every positive integer is the key of a pair: the numbering has no gaps.
pub proof fn lemma_key_has_pair(k: int) -> (pair: (int, int))
    requires
        1 <= k,
    ensures
        0 <= pair.1 < pair.0,
        pair_key(pair.0, pair.1) == k,
{
    let hi = lemma_run_of(k, 1);
    lemma_pairs_below_step(hi);
    (hi, k - 1 - pairs_below(hi))
}

/// The run that holds the key `k`, searched upwards from the run of `from`.
proof fn lemma_run_of(k: int, from: int) -> (hi: int)
    requires
        1 <= from,
        pairs_below(from) < k,
    ensures
        from <= hi,
        pairs_below(hi) < k <= pairs_below(hi + 1),
    decreases k - pairs_below(from),
{
    lemma_pairs_below_step(from);
    if k <= pairs_below(from + 1) {
        from
    } else {
        lemma_run_of(k, from + 1)
    }
}

/// The key of two indices does not depend on their order, is zero exactly for
/// equal indices, and never exceeds `max_key()`.
pub proof fn lemma_key_of_facts(i: Index, j: Index)
    ensures
        key_of(i, j) == key_of(j, i),
        0 <= key_of(i, j) <= max_key(),
        key_of(i, j) == 0 <==> i == j,
        max_key() <= u128::MAX,
{
    if i < j {
        lemma_pair_key_in_run(j as int, i as int);
        lemma_pairs_below_monotone(j + 1, usize::MAX + 1);
    } else if j < i {
        lemma_pair_key_in_run(i as int, j as int);
        lemma_pairs_below_monotone(i + 1, usize::MAX + 1);
    } else {
        lemma_pairs_below_monotone(0, usize::MAX + 1);
    }
    lemma_max_key_fits();
}

/// `max_key()` fits in 128 bits on every supported machine.
pub proof fn lemma_max_key_fits()
    ensures
        0 <= max_key() <= u128::MAX,
{
    let m: int = usize::MAX + 1;
    assert(m <= 0x1_0000_0000_0000_0000);
    assert(0 <= m * (m - 1) <= 0x1_0000_0000_0000_0000 * 0xffff_ffff_ffff_ffff) by (nonlinear_arith)
        requires
            1 <= m <= 0x1_0000_0000_0000_0000,
    ;
}

/// Two index pairs share a key only if they are the same unordered pair.
pub proof fn lemma_key_of_injective(i1: Index, j1: Index, i2: Index, j2: Index)
    requires
        key_of(i1, j1) == key_of(i2, j2),
    ensures
        (i1 == i2 && j1 == j2) || (i1 == j2 && j1 == i2) || (i1 == j1 && i2 == j2),
{
    lemma_key_of_facts(i1, j1);
    lemma_key_of_facts(i2, j2);
    if i1 != j1 {
        let (h1, l1) = if i1 < j1 { (j1 as int, i1 as int) } else { (i1 as int, j1 as int) };
        let (h2, l2) = if i2 < j2 { (j2 as int, i2 as int) } else { (i2 as int, j2 as int) };
        lemma_pair_key_injective(h1, l1, h2, l2);
    }
}

} // verus!
