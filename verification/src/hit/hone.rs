use vstd::prelude::*;
use super::TestPair;

verus! {

/// Sample `a` of the first shape against every sample of the second.
pub open spec fn sample_row<S>(pair: TestPair, a: S, second: Seq<S>) -> Seq<(TestPair, S, S)> {
    Seq::new(second.len(), |b: int| (pair, a, second[b]))
}

/// The first `m` samples of the first shape, each against every sample of
/// the second, row after row.
pub open spec fn sample_block<S>(pair: TestPair, first: Seq<S>, second: Seq<S>, m: int) -> Seq<(TestPair, S, S)>
    decreases m,
{
    if m <= 0 {
        seq![]
    } else {
        sample_block(pair, first, second, m - 1) + sample_row(pair, first[m - 1], second)
    }
}

/// For each of the first `n` pairs in turn, every sample of its first shape
/// against every sample of its second shape.
pub open spec fn paired_samples<S>(samples: Seq<Vec<S>>, pairs: Seq<TestPair>, n: int) -> Seq<(TestPair, S, S)>
    decreases n,
{
    if n <= 0 {
        seq![]
    } else {
        let pair = pairs[n - 1];
        let first = samples[pair.i0 as int]@;
        paired_samples(samples, pairs, n - 1) + sample_block(pair, first, samples[pair.i1 as int]@, first.len() as int)
    }
}

/// Every pair names two shapes that have sample lists.
pub open spec fn pairs_in_range<S>(samples: Seq<Vec<S>>, pairs: Seq<TestPair>) -> bool {
    forall|k: int| 0 <= k < pairs.len() ==> (#[trigger] pairs[k]).i0 < samples.len() && pairs[k].i1 < samples.len()
}

/// The starting points for honing: for each pair of shapes, in order, each
/// sample of its first shape matched with each sample of its second shape.
pub fn sample_pairs<S: Copy>(samples: &Vec<Vec<S>>, pairs: &Vec<TestPair>) -> (found: Vec<(TestPair, S, S)>)
    requires
        pairs_in_range(samples@, pairs@),
    ensures
        found@ == paired_samples(samples@, pairs@, pairs@.len() as int),
        found@.len() == sample_total(samples@, pairs@, pairs@.len() as int),
        forall|n: int, a: int, b: int|
            0 <= n < pairs@.len()
            && 0 <= a < samples@[pairs@[n].i0 as int]@.len()
            && 0 <= b < samples@[pairs@[n].i1 as int]@.len()
            ==> #[trigger] found@[sample_total(samples@, pairs@, n) + a * samples@[pairs@[n].i1 as int]@.len() + b]
                == (pairs@[n], samples@[pairs@[n].i0 as int]@[a], samples@[pairs@[n].i1 as int]@[b]),
{
    let mut found: Vec<(TestPair, S, S)> = Vec::new();
    let mut n: usize = 0;
    while n < pairs.len()
        invariant
            pairs_in_range(samples@, pairs@),
            0 <= n <= pairs@.len(),
            found@ == paired_samples(samples@, pairs@, n as int),
        decreases pairs@.len() - n,
    {
        let pair = pairs[n];
        assert(pairs@[n as int] == pair);
        let first = &samples[pair.i0];
        let second = &samples[pair.i1];
        let ghost before = found@;
        let mut a: usize = 0;
        while a < first.len()
            invariant
                0 <= a <= first@.len(),
                found@ == before + sample_block(pair, first@, second@, a as int),
            decreases first@.len() - a,
        {
            let ghost row_start = found@;
            let mut b: usize = 0;
            while b < second.len()
                invariant
                    0 <= b <= second@.len(),
                    0 <= a < first@.len(),
                    found@ == row_start + sample_row(pair, first@[a as int], second@).take(b as int),
                decreases second@.len() - b,
            {
                found.push((pair, first[a], second[b]));
                assert(sample_row(pair, first@[a as int], second@).take(b as int + 1)
                    =~= sample_row(pair, first@[a as int], second@).take(b as int).push((pair, first@[a as int], second@[b as int])));
                b = b + 1;
            }
            assert(sample_row(pair, first@[a as int], second@).take(second@.len() as int) =~= sample_row(pair, first@[a as int], second@));
            assert(before + sample_block(pair, first@, second@, a as int + 1)
                =~= before + sample_block(pair, first@, second@, a as int) + sample_row(pair, first@[a as int], second@));
            a = a + 1;
        }
        n = n + 1;
    }
    proof {
        lemma_sample_pairs_layout(samples@, pairs@, pairs@.len() as int);
    }
    found
}

/// `entry` matches a sample of the first shape of its pair with a sample of
/// the second.
pub open spec fn from_pair_samples<S>(samples: Seq<Vec<S>>, entry: (TestPair, S, S)) -> bool {
    let first = samples[entry.0.i0 as int]@;
    let second = samples[entry.0.i1 as int]@;
    exists|a: int, b: int| 0 <= a < first.len() && 0 <= b < second.len() && entry.1 == first[a] && entry.2 == second[b]
}

proof fn lemma_block_member<S>(pair: TestPair, first: Seq<S>, second: Seq<S>, m: int, k: int)
    requires
        0 <= m <= first.len(),
        0 <= k < sample_block(pair, first, second, m).len(),
    ensures
        sample_block(pair, first, second, m)[k].0 == pair,
        exists|a: int, b: int| 0 <= a < first.len() && 0 <= b < second.len()
            && sample_block(pair, first, second, m)[k].1 == first[a]
            && sample_block(pair, first, second, m)[k].2 == second[b],
    decreases m,
{
    let before = sample_block(pair, first, second, m - 1);
    if k < before.len() {
        lemma_block_member(pair, first, second, m - 1, k);
    } else {
        let b = k - before.len();
        assert(sample_block(pair, first, second, m)[k] == sample_row(pair, first[m - 1], second)[b]);
        assert(sample_block(pair, first, second, m)[k].1 == first[m - 1]);
        assert(sample_block(pair, first, second, m)[k].2 == second[b]);
    }
}

/// Every starting point for honing belongs to one of the tested pairs and
/// matches a sample of the pair's first shape with a sample of its second.
pub proof fn lemma_samples_from_pairs<S>(samples: Seq<Vec<S>>, pairs: Seq<TestPair>, n: int)
    requires
        0 <= n <= pairs.len(),
    ensures
        forall|k: int| 0 <= k < paired_samples(samples, pairs, n).len() ==> {
            let entry = #[trigger] paired_samples(samples, pairs, n)[k];
            pairs.contains(entry.0) && from_pair_samples(samples, entry)
        },
    decreases n,
{
    if n > 0 {
        lemma_samples_from_pairs(samples, pairs, n - 1);
        let before = paired_samples(samples, pairs, n - 1);
        let pair = pairs[n - 1];
        let first = samples[pair.i0 as int]@;
        let second = samples[pair.i1 as int]@;
        let all = paired_samples(samples, pairs, n);
        assert forall|k: int| 0 <= k < all.len() implies {
            let entry = #[trigger] all[k];
            pairs.contains(entry.0) && from_pair_samples(samples, entry)
        } by {
            if k < before.len() {
                assert(all[k] == before[k]);
            } else {
                let j = k - before.len();
                assert(all[k] == sample_block(pair, first, second, first.len() as int)[j]);
                lemma_block_member(pair, first, second, first.len() as int, j);
                assert(pairs[n - 1] == pair);
            }
        }
    }
}

/// How many starting points the first `n` pairs give: for each pair, the
/// number of samples of its first shape times that of its second.
pub open spec fn sample_total<S>(samples: Seq<Vec<S>>, pairs: Seq<TestPair>, n: int) -> int
    decreases n,
{
    if n <= 0 {
        0
    } else {
        sample_total(samples, pairs, n - 1)
            + samples[pairs[n - 1].i0 as int]@.len() * samples[pairs[n - 1].i1 as int]@.len()
    }
}

proof fn lemma_sample_total_nonneg<S>(samples: Seq<Vec<S>>, pairs: Seq<TestPair>, n: int)
    ensures
        0 <= sample_total(samples, pairs, n),
    decreases n,
{
    if n > 0 {
        lemma_sample_total_nonneg(samples, pairs, n - 1);
        let x = samples[pairs[n - 1].i0 as int]@.len();
        let y = samples[pairs[n - 1].i1 as int]@.len();
        assert(0 <= x * y) by (nonlinear_arith);
    }
}

proof fn lemma_sample_total_grows<S>(samples: Seq<Vec<S>>, pairs: Seq<TestPair>, a: int, b: int)
    requires
        0 <= a <= b,
    ensures
        0 <= sample_total(samples, pairs, a) <= sample_total(samples, pairs, b),
    decreases b - a,
{
    if a < b {
        lemma_sample_total_grows(samples, pairs, a, b - 1);
        let x = samples[pairs[b - 1].i0 as int]@.len();
        let y = samples[pairs[b - 1].i1 as int]@.len();
        assert(0 <= x * y) by (nonlinear_arith);
    } else {
        lemma_sample_total_nonneg(samples, pairs, a);
    }
}

proof fn lemma_block_layout<S>(pair: TestPair, first: Seq<S>, second: Seq<S>, m: int)
    requires
        0 <= m <= first.len(),
    ensures
        sample_block(pair, first, second, m).len() == m * second.len(),
        forall|a: int, b: int| 0 <= a < m && 0 <= b < second.len()
            ==> #[trigger] sample_block(pair, first, second, m)[a * second.len() + b] == (pair, first[a], second[b]),
    decreases m,
{
    if m > 0 {
        lemma_block_layout(pair, first, second, m - 1);
        let w = second.len() as int;
        let prev = sample_block(pair, first, second, m - 1);
        assert((m - 1) * w + w == m * w) by (nonlinear_arith);
        assert forall|a: int, b: int| 0 <= a < m && 0 <= b < w
            implies #[trigger] sample_block(pair, first, second, m)[a * w + b] == (pair, first[a], second[b]) by {
            if a < m - 1 {
                assert(a * w + b < (m - 1) * w) by (nonlinear_arith)
                    requires
                        a + 1 <= m - 1,
                        b < w,
                        0 <= b,
                ;
                assert(0 <= a * w) by (nonlinear_arith)
                    requires
                        0 <= a,
                        0 <= w,
                ;
                assert(sample_block(pair, first, second, m)[a * w + b] == prev[a * w + b]);
            } else {
                assert(a * w == (m - 1) * w);
            }
        }
    } else {
        assert(0 * second.len() == 0) by (nonlinear_arith);
    }
}

/// The starting points are laid out pair after pair, and within the part of
/// pair `n`, sample `a` of its first shape against sample `b` of its second
/// sits at `a` times the second shape's sample count plus `b`: every match of
/// samples is tried, once, and nothing else.
pub proof fn lemma_sample_pairs_layout<S>(samples: Seq<Vec<S>>, pairs: Seq<TestPair>, count: int)
    requires
        0 <= count <= pairs.len(),
    ensures
        paired_samples(samples, pairs, count).len() == sample_total(samples, pairs, count),
        forall|n: int, a: int, b: int|
            0 <= n < count
            && 0 <= a < samples[pairs[n].i0 as int]@.len()
            && 0 <= b < samples[pairs[n].i1 as int]@.len()
            ==> #[trigger] paired_samples(samples, pairs, count)[sample_total(samples, pairs, n)
                    + a * samples[pairs[n].i1 as int]@.len() + b]
                == (pairs[n], samples[pairs[n].i0 as int]@[a], samples[pairs[n].i1 as int]@[b]),
    decreases count,
{
    if count > 0 {
        lemma_sample_pairs_layout(samples, pairs, count - 1);
        let pair = pairs[count - 1];
        let first = samples[pair.i0 as int]@;
        let second = samples[pair.i1 as int]@;
        lemma_block_layout(pair, first, second, first.len() as int);
        let prev = paired_samples(samples, pairs, count - 1);
        assert forall|n: int, a: int, b: int|
            0 <= n < count
            && 0 <= a < samples[pairs[n].i0 as int]@.len()
            && 0 <= b < samples[pairs[n].i1 as int]@.len()
            implies #[trigger] paired_samples(samples, pairs, count)[sample_total(samples, pairs, n)
                    + a * samples[pairs[n].i1 as int]@.len() + b]
                == (pairs[n], samples[pairs[n].i0 as int]@[a], samples[pairs[n].i1 as int]@[b]) by {
            let w = samples[pairs[n].i1 as int]@.len() as int;
            let h = samples[pairs[n].i0 as int]@.len() as int;
            if n < count - 1 {
                lemma_sample_total_grows(samples, pairs, n + 1, count - 1);
                lemma_sample_total_grows(samples, pairs, 0, n);
                assert(a * w + b < h * w) by (nonlinear_arith)
                    requires
                        a + 1 <= h,
                        b < w,
                        0 <= b,
                ;
                assert(0 <= a * w) by (nonlinear_arith)
                    requires
                        0 <= a,
                        0 <= w,
                ;
                assert(sample_total(samples, pairs, n + 1) == sample_total(samples, pairs, n) + h * w);
                assert(paired_samples(samples, pairs, count)[sample_total(samples, pairs, n) + a * w + b]
                    == prev[sample_total(samples, pairs, n) + a * w + b]);
            } else {
                assert(sample_block(pair, first, second, first.len() as int)[a * w + b] == (pair, first[a], second[b]));
                assert(0 <= a * w) by (nonlinear_arith)
                    requires
                        0 <= a,
                        0 <= w,
                ;
                assert(a * w + b < h * w) by (nonlinear_arith)
                    requires
                        a + 1 <= h,
                        b < w,
                        0 <= b,
                ;
                assert(prev.len() == sample_total(samples, pairs, n));
                assert(paired_samples(samples, pairs, count)
                    == prev + sample_block(pair, first, second, first.len() as int));
            }
        }
    }
}

} // verus!
