use vstd::prelude::*;

verus! {

/// Sum of `k * values[k]` over the first `n` values.
pub open spec fn weighted_sum(values: Seq<u64>, n: int) -> int
    decreases n,
{
    if n <= 0 {
        0
    } else {
        weighted_sum(values, n - 1) + (n - 1) * values[n - 1]
    }
}

proof fn lemma_weighted_sum_grows(values: Seq<u64>, a: int, b: int)
    requires
        0 <= a <= b <= values.len(),
    ensures
        0 <= weighted_sum(values, a) <= weighted_sum(values, b),
    decreases b - a,
{
    if a < b {
        lemma_weighted_sum_grows(values, a, b - 1);
        assert(0 <= (b - 1) * values[b - 1]) by (nonlinear_arith)
            requires
                b >= 1,
                values[b - 1] >= 0,
        ;
    } else {
        lemma_weighted_sum_nonneg(values, a);
    }
}

proof fn lemma_weighted_sum_nonneg(values: Seq<u64>, n: int)
    requires
        0 <= n <= values.len(),
    ensures
        0 <= weighted_sum(values, n),
    decreases n,
{
    if n > 0 {
        lemma_weighted_sum_nonneg(values, n - 1);
        assert(0 <= (n - 1) * values[n - 1]) by (nonlinear_arith)
            requires
                n >= 1,
                values[n - 1] >= 0,
        ;
    }
}

/// The digest of a list of quantized coordinates: each value times its
/// position, summed.
pub fn index_weighted_sum(values: &Vec<u64>) -> (sum: u64)
    requires
        weighted_sum(values@, values@.len() as int) <= u64::MAX,
    ensures
        sum == weighted_sum(values@, values@.len() as int),
{
    let mut sum: u64 = 0;
    let mut k: usize = 0;
    while k < values.len()
        invariant
            0 <= k <= values@.len(),
            sum == weighted_sum(values@, k as int),
            weighted_sum(values@, values@.len() as int) <= u64::MAX,
        decreases values@.len() - k,
    {
        proof {
            lemma_weighted_sum_grows(values@, k as int + 1, values@.len() as int);
            lemma_weighted_sum_nonneg(values@, k as int);
            assert(k * values@[k as int] <= weighted_sum(values@, k as int + 1));
        }
        let term = (k as u64) * values[k];
        sum = sum + term;
        k = k + 1;
    }
    sum
}

} // verus!
