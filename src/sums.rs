use vstd::prelude::*;

verus! {

/// The sum of `f(i)` over `0 <= i < n`.
pub open spec fn sum_to(n: nat, f: spec_fn(int) -> int) -> int
    decreases n,
{
    if n == 0 {
        0
    } else {
        sum_to((n - 1) as nat, f) + f(n - 1)
    }
}

/// Sums of functions that agree below `n` are equal.
pub proof fn lemma_sum_ext(n: nat, f: spec_fn(int) -> int, g: spec_fn(int) -> int)
    requires
        forall|i: int| 0 <= i < n ==> #[trigger] f(i) == g(i),
    ensures
        sum_to(n, f) == sum_to(n, g),
    decreases n,
{
    if n > 0 {
        lemma_sum_ext((n - 1) as nat, f, g);
    }
}

/// Changing one term changes the sum by the difference of that term.
pub proof fn lemma_sum_change(n: nat, f: spec_fn(int) -> int, g: spec_fn(int) -> int, k: int)
    requires
        0 <= k < n,
        forall|i: int| 0 <= i < n && i != k ==> #[trigger] f(i) == g(i),
    ensures
        sum_to(n, g) == sum_to(n, f) - f(k) + g(k),
    decreases n,
{
    if k == n - 1 {
        lemma_sum_ext((n - 1) as nat, f, g);
    } else {
        lemma_sum_change((n - 1) as nat, f, g, k);
    }
}

/// A sum of terms in `0..=1` lies in `0..=n`.
pub proof fn lemma_sum_count_bounds(n: nat, f: spec_fn(int) -> int)
    requires
        forall|i: int| 0 <= i < n ==> 0 <= #[trigger] f(i) <= 1,
    ensures
        0 <= sum_to(n, f) <= n,
    decreases n,
{
    if n > 0 {
        lemma_sum_count_bounds((n - 1) as nat, f);
    }
}

/// A sum of non-negative terms is at least each of its terms.
pub proof fn lemma_sum_ge_term(n: nat, f: spec_fn(int) -> int, k: int)
    requires
        forall|i: int| 0 <= i < n ==> #[trigger] f(i) >= 0,
        0 <= k < n,
    ensures
        sum_to(n, f) >= f(k),
        sum_to(n, f) >= 0,
    decreases n,
{
    lemma_sum_nonneg((n - 1) as nat, f);
    if k < n - 1 {
        lemma_sum_ge_term((n - 1) as nat, f, k);
    }
}

/// A sum of non-negative terms is non-negative.
pub proof fn lemma_sum_nonneg(n: nat, f: spec_fn(int) -> int)
    requires
        forall|i: int| 0 <= i < n ==> #[trigger] f(i) >= 0,
    ensures
        sum_to(n, f) >= 0,
    decreases n,
{
    if n > 0 {
        lemma_sum_nonneg((n - 1) as nat, f);
    }
}

/// A sum of zero terms is zero.
pub proof fn lemma_sum_zero(n: nat, f: spec_fn(int) -> int)
    requires
        forall|i: int| 0 <= i < n ==> #[trigger] f(i) == 0,
    ensures
        sum_to(n, f) == 0,
    decreases n,
{
    if n > 0 {
        lemma_sum_zero((n - 1) as nat, f);
    }
}

/// A sum of `n` terms equal to one is `n`.
pub proof fn lemma_sum_ones(n: nat, f: spec_fn(int) -> int)
    requires
        forall|i: int| 0 <= i < n ==> #[trigger] f(i) == 1,
    ensures
        sum_to(n, f) == n,
    decreases n,
{
    if n > 0 {
        lemma_sum_ones((n - 1) as nat, f);
    }
}

} // verus!
