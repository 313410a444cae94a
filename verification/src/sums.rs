//! Sums of integers, for stating totals.

use vstd::prelude::*;

verus! {

/// `f(0) + ... + f(n - 1)`.
pub open spec fn sum_upto(n: int, f: spec_fn(int) -> int) -> int
    decreases n,
{
    if n <= 0 {
        0
    } else {
        sum_upto(n - 1, f) + f(n - 1)
    }
}

/// Equal terms have equal sums.
pub proof fn lemma_sum_same(n: int, f: spec_fn(int) -> int, g: spec_fn(int) -> int)
    requires
        forall|i: int| 0 <= i < n ==> f(i) == #[trigger] g(i),
    ensures
        sum_upto(n, f) == sum_upto(n, g),
    decreases n,
{
    if n > 0 {
        lemma_sum_same(n - 1, f, g);
        assert(f(n - 1) == g(n - 1));
    }
}

/// Terms that are not negative have a sum that is not, and grows with each of them.
pub proof fn lemma_sum_positive(n: int, f: spec_fn(int) -> int)
    requires
        forall|i: int| 0 <= i < n ==> 0 <= #[trigger] f(i),
    ensures
        0 <= sum_upto(n, f),
        forall|m: int| 0 <= m <= n ==> #[trigger] sum_upto(m, f) <= sum_upto(n, f),
    decreases n,
{
    if n > 0 {
        lemma_sum_positive(n - 1, f);
        assert(0 <= f(n - 1));
        assert forall|m: int| 0 <= m <= n implies #[trigger] sum_upto(m, f) <= sum_upto(n, f) by {
            if m < n {
                assert(sum_upto(m, f) <= sum_upto(n - 1, f));
            }
        }
    }
}

/// A sum of ones and zeros is at most how many they are.
pub proof fn lemma_sum_counts(n: int, f: spec_fn(int) -> int)
    requires
        0 <= n,
        forall|i: int| 0 <= i < n ==> 0 <= #[trigger] f(i) <= 1,
    ensures
        0 <= sum_upto(n, f) <= n,
    decreases n,
{
    if n > 0 {
        lemma_sum_counts(n - 1, f);
        assert(0 <= f(n - 1) <= 1);
    }
}

} // verus!
