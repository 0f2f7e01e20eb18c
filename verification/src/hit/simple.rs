use vstd::prelude::*;
use super::{TestPair, Score, reversed, offset, flat_index, sizes_of, total, lemma_offset_monotonic, lemma_flat_index_bound};

verus! {

/// `entry` says that position `k` of the flattened list is item `entry.1` of job `entry.0`.
pub open spec fn locates(sizes: Seq<nat>, entry: (usize, usize), k: int) -> bool {
    &&& entry.0 < sizes.len()
    &&& entry.1 < sizes[entry.0 as int]
    &&& flat_index(sizes, entry.0 as int, entry.1 as int) == k
}

/// `entries` gives, for each position of the flattened list, its job and its
/// place in that job.
pub open spec fn indexed_by(sizes: Seq<nat>, entries: Seq<(usize, usize)>) -> bool {
    &&& entries.len() == total(sizes)
    &&& forall|j: int, i: int| 0 <= j < sizes.len() && 0 <= i < sizes[j]
        ==> #[trigger] entries[flat_index(sizes, j, i)] == (j as usize, i as usize)
    &&& forall|k: int| 0 <= k < entries.len() ==> locates(sizes, #[trigger] entries[k], k)
}

/// Where each job begins in the flattened list.
pub open spec fn offsets(sizes: Seq<nat>) -> Seq<usize> {
    Seq::new(sizes.len(), |j: int| offset(sizes, j) as usize)
}

/// For each shape of the flattened job list, its job and its place in the job;
/// and for each job, the position of its first shape in the flattened list.
pub fn indices_and_starts<T>(jobs: &Vec<Vec<T>>) -> (res: (Vec<(usize, usize)>, Vec<usize>))
    requires
        total(sizes_of(jobs@)) <= usize::MAX,
    ensures
        res.1@ == offsets(sizes_of(jobs@)),
        indexed_by(sizes_of(jobs@), res.0@),
{
    let ghost sizes = sizes_of(jobs@);
    let mut indices: Vec<(usize, usize)> = Vec::new();
    let mut starts: Vec<usize> = Vec::new();
    let mut job_start: usize = 0;
    let mut ji: usize = 0;
    while ji < jobs.len()
        invariant
            sizes == sizes_of(jobs@),
            total(sizes) <= usize::MAX,
            0 <= ji <= jobs@.len(),
            job_start == offset(sizes, ji as int),
            indices@.len() == job_start,
            starts@.len() == ji,
            forall|j: int| 0 <= j < ji ==> #[trigger] starts@[j] == offset(sizes, j),
            forall|j: int, i: int|
                0 <= j < ji && 0 <= i < sizes[j]
                    ==> #[trigger] indices@[flat_index(sizes, j, i)] == (j as usize, i as usize),
            forall|k: int| 0 <= k < indices@.len() ==> locates(sizes, #[trigger] indices@[k], k),
        decreases jobs@.len() - ji,
    {
        starts.push(job_start);
        let n = jobs[ji].len();
        proof {
            lemma_offset_monotonic(sizes, ji + 1, sizes.len() as int);
        }
        let mut i: usize = 0;
        while i < n
            invariant
                sizes == sizes_of(jobs@),
                0 <= ji < jobs@.len(),
                n == sizes[ji as int],
                job_start == offset(sizes, ji as int),
                job_start + n <= usize::MAX,
                0 <= i <= n,
                indices@.len() == job_start + i,
                forall|j: int, i2: int|
                    0 <= j < ji && 0 <= i2 < sizes[j]
                        ==> #[trigger] indices@[flat_index(sizes, j, i2)] == (j as usize, i2 as usize),
                forall|i2: int|
                    0 <= i2 < i ==> #[trigger] indices@[flat_index(sizes, ji as int, i2)] == (ji, i2 as usize),
                forall|k: int| 0 <= k < indices@.len() ==> locates(sizes, #[trigger] indices@[k], k),
            decreases n - i,
        {
            proof {
                assert forall|j: int, i2: int| 0 <= j < ji && 0 <= i2 < sizes[j] implies
                    flat_index(sizes, j, i2) < indices@.len() by {
                    lemma_flat_index_bound(sizes, j, i2, ji as int);
                }
            }
            indices.push((ji, i));
            i = i + 1;
        }
        job_start = job_start + n;
        ji = ji + 1;
    }
    assert(starts@ =~= offsets(sizes));
    (indices, starts)
}

} // verus!

verus! {

/// The pairs `(start + i0, start + i1)` with `i0 < i1 < n`, for one fixed `i0`.
pub open spec fn pair_row(start: int, n: int, i0: int) -> Seq<TestPair> {
    Seq::new(
        if n - i0 - 1 > 0 { (n - i0 - 1) as nat } else { 0 },
        |k: int| TestPair { i0: (start + i0) as usize, i1: (start + i0 + 1 + k) as usize, reverse: false },
    )
}

/// The rows of `pair_row` for `i0` in `0..m`, one after the other.
pub open spec fn job_rows(start: int, n: int, m: int) -> Seq<TestPair>
    decreases m,
{
    if m <= 0 {
        seq![]
    } else {
        job_rows(start, n, m - 1) + pair_row(start, n, m - 1)
    }
}

/// Every unordered pair of distinct shapes within each of the first `j` jobs,
/// job after job, as positions in the flattened list.
pub open spec fn all_job_pairs(sizes: Seq<nat>, starts: Seq<usize>, j: int) -> Seq<TestPair>
    decreases j,
{
    if j <= 0 {
        seq![]
    } else {
        all_job_pairs(sizes, starts, j - 1) + job_rows(starts[j - 1] as int, sizes[j - 1] as int, sizes[j - 1] as int)
    }
}

/// The starts that a job with two shapes or more reads are there, and its
/// positions fit in a `usize`.
pub open spec fn starts_cover(sizes: Seq<nat>, starts: Seq<usize>) -> bool {
    forall|j: int| 0 <= j < sizes.len() && #[trigger] sizes[j] >= 2
        ==> j < starts.len() && starts[j] + sizes[j] <= usize::MAX + 1
}

/// The pairs of distinct shapes within each job, each pair once, with the
/// earlier shape first.
pub fn job_pairs<T>(jobs: &Vec<Vec<T>>, starts: &Vec<usize>) -> (pairs: Vec<TestPair>)
    requires
        starts_cover(sizes_of(jobs@), starts@),
    ensures
        pairs@ == all_job_pairs(sizes_of(jobs@), starts@, jobs@.len() as int),
{
    let ghost sizes = sizes_of(jobs@);
    let mut pairs: Vec<TestPair> = Vec::new();
    let mut ji: usize = 0;
    while ji < jobs.len()
        invariant
            sizes == sizes_of(jobs@),
            starts_cover(sizes, starts@),
            0 <= ji <= jobs@.len(),
            pairs@ == all_job_pairs(sizes, starts@, ji as int),
        decreases jobs@.len() - ji,
    {
        let n = jobs[ji].len();
        let ghost start = starts@[ji as int] as int;
        let ghost before = pairs@;
        let mut i0: usize = 0;
        while i0 < n
            invariant
                sizes == sizes_of(jobs@),
                starts_cover(sizes, starts@),
                0 <= ji < jobs@.len(),
                n == sizes[ji as int],
                start == starts@[ji as int] as int,
                0 <= i0 <= n,
                pairs@ == before + job_rows(start, n as int, i0 as int),
            decreases n - i0,
        {
            let ghost row_start = pairs@;
            let mut i1: usize = i0 + 1;
            while i1 < n
                invariant
                    sizes == sizes_of(jobs@),
                    starts_cover(sizes, starts@),
                    0 <= ji < jobs@.len(),
                    n == sizes[ji as int],
                    start == starts@[ji as int] as int,
                    0 <= i0 < n,
                    i0 + 1 <= i1 <= n,
                    row_start == before + job_rows(start, n as int, i0 as int),
                    pairs@ == row_start + pair_row(start, n as int, i0 as int).take(i1 - i0 - 1),
                decreases n - i1,
            {
                assert(sizes[ji as int] >= 2);
                let s = starts[ji];
                let p = TestPair { i0: s + i0, i1: s + i1, reverse: false };
                assert(pair_row(start, n as int, i0 as int).take(i1 - i0) =~= pair_row(start, n as int, i0 as int).take(i1 - i0 - 1).push(p));
                pairs.push(p);
                i1 = i1 + 1;
            }
            assert(pair_row(start, n as int, i0 as int).take(n - i0 - 1) =~= pair_row(start, n as int, i0 as int));
            assert(job_rows(start, n as int, i0 + 1) == job_rows(start, n as int, i0 as int) + pair_row(start, n as int, i0 as int));
            i0 = i0 + 1;
        }
        ji = ji + 1;
    }
    pairs
}

} // verus!

verus! {

/// The pairs to test, and for each shape of the flattened list its job and
/// its place in that job.
pub struct Index {
    pub pairs: Vec<TestPair>,
    indices: Vec<(usize, usize)>,
}

/// A pair whose two shapes `at` can place in the score lists of `sizes`.
pub open spec fn routable(entries: Seq<(usize, usize)>, sizes: Seq<nat>, pair: TestPair) -> bool {
    &&& pair.i0 < entries.len()
    &&& pair.i1 < entries.len()
    &&& entries[pair.i0 as int].0 < sizes.len()
    &&& entries[pair.i0 as int].1 < sizes[entries[pair.i0 as int].0 as int]
    &&& entries[pair.i1 as int].1 < sizes[entries[pair.i0 as int].0 as int]
}

/// The job of the first shape, and the places in the job of both shapes.
pub open spec fn locate(entries: Seq<(usize, usize)>, pair: TestPair) -> (usize, usize, usize) {
    (entries[pair.i0 as int].0, entries[pair.i0 as int].1, entries[pair.i1 as int].1)
}

/// The items that land on shape `i` of job `j` when each triple `(pair, a, b)`
/// sends `a` to the first shape of its pair and `b` to the second, in order.
pub open spec fn routed<H>(entries: Seq<(usize, usize)>, items: Seq<(TestPair, H, H)>, j: int, i: int) -> Seq<H>
    decreases items.len(),
{
    if items.len() == 0 {
        seq![]
    } else {
        let prev = routed(entries, items.drop_last(), j, i);
        let (pair, a, b) = items.last();
        let (job, i0, i1) = locate(entries, pair);
        let with_a = if job == j && i0 == i { prev.push(a) } else { prev };
        if job == j && i1 == i { with_a.push(b) } else { with_a }
    }
}

impl Index {
    /// For each position of the flattened shape list, its job and its place in that job.
    pub closed spec fn entries(&self) -> Seq<(usize, usize)> {
        self.indices@
    }

    /// The pairs to test.
    pub closed spec fn test_pairs(&self) -> Seq<TestPair> {
        self.pairs@
    }

    /// The index of a list of jobs: the job and place of each shape, and every
    /// pair of distinct shapes within a job.
    pub fn new<T>(jobs: &Vec<Vec<T>>) -> (index: Index)
        requires
            total(sizes_of(jobs@)) <= usize::MAX,
        ensures
            indexed_by(sizes_of(jobs@), index.entries()),
            index.test_pairs() == all_job_pairs(sizes_of(jobs@), offsets(sizes_of(jobs@)), jobs@.len() as int),
    {
        let (indices, starts) = indices_and_starts(jobs);
        proof {
            let sizes = sizes_of(jobs@);
            assert forall|j: int| 0 <= j < sizes.len() && #[trigger] sizes[j] >= 2 implies
                j < starts@.len() && starts@[j] + sizes[j] <= usize::MAX + 1 by {
                lemma_offset_monotonic(sizes, j + 1, sizes.len() as int);
            }
        }
        let pairs = job_pairs(jobs, &starts);
        Index { pairs, indices }
    }

    /// The job of the pair's first shape, then the places in that job of its two shapes.
    pub fn at(&self, pair: &TestPair) -> (res: (usize, usize, usize))
        requires
            pair.i0 < self.entries().len(),
            pair.i1 < self.entries().len(),
        ensures
            res == locate(self.entries(), *pair),
    {
        let (ji, i0) = self.indices[pair.i0];
        let (_, i1) = self.indices[pair.i1];
        (ji, i0, i1)
    }

    /// Sorts the tester's findings into one score per shape: each hit pair gives
    /// its first hit to its first shape and its second hit to its second shape,
    /// and each miss pair does the same with its two misses.
    pub fn scores<T, H, O>(&self, jobs: &Vec<Vec<T>>, hit_pairs: Vec<(TestPair, H, H)>, out_pairs: Vec<(TestPair, O, O)>)
        -> (scores: Vec<Vec<Score<H, O>>>)
        requires
            forall|k: int| 0 <= k < hit_pairs@.len() ==> routable(self.entries(), sizes_of(jobs@), #[trigger] hit_pairs@[k].0),
            forall|k: int| 0 <= k < out_pairs@.len() ==> routable(self.entries(), sizes_of(jobs@), #[trigger] out_pairs@[k].0),
        ensures
            scores@.len() == jobs@.len(),
            forall|j: int| 0 <= j < jobs@.len() ==> (#[trigger] scores@[j])@.len() == jobs@[j]@.len(),
            forall|j: int, i: int| 0 <= j < jobs@.len() && 0 <= i < jobs@[j]@.len()
                ==> (#[trigger] scores@[j]@[i]).hits@ == routed(self.entries(), hit_pairs@, j, i)
                    && scores@[j]@[i].outs@ == routed(self.entries(), out_pairs@, j, i),
    {
        let ghost sizes = sizes_of(jobs@);
        let ghost entries = self.entries();
        let mut scores: Vec<Vec<Score<H, O>>> = Vec::new();
        let mut ji: usize = 0;
        while ji < jobs.len()
            invariant
                0 <= ji <= jobs@.len(),
                scores@.len() == ji,
                forall|j: int| 0 <= j < ji ==> (#[trigger] scores@[j])@.len() == jobs@[j]@.len(),
                forall|j: int, i: int| 0 <= j < ji && 0 <= i < jobs@[j]@.len()
                    ==> (#[trigger] scores@[j]@[i]).hits@.len() == 0 && scores@[j]@[i].outs@.len() == 0,
            decreases jobs@.len() - ji,
        {
            let mut row: Vec<Score<H, O>> = Vec::new();
            let mut i: usize = 0;
            while i < jobs[ji].len()
                invariant
                    0 <= ji < jobs@.len(),
                    0 <= i <= jobs@[ji as int]@.len(),
                    row@.len() == i,
                    forall|i2: int| 0 <= i2 < i ==> (#[trigger] row@[i2]).hits@.len() == 0 && row@[i2].outs@.len() == 0,
                decreases jobs@[ji as int]@.len() - i,
            {
                row.push(Score { hits: Vec::new(), outs: Vec::new() });
                i = i + 1;
            }
            scores.push(row);
            ji = ji + 1;
        }
        proof {
            assert forall|j: int, i: int| 0 <= j < jobs@.len() && 0 <= i < jobs@[j]@.len() implies
                (#[trigger] scores@[j]@[i]).hits@ == routed(entries, hit_pairs@.take(0), j, i)
                && scores@[j]@[i].outs@ == routed(entries, out_pairs@.take(0), j, i) by {
                assert(scores@[j]@[i].hits@ =~= seq![]);
                assert(scores@[j]@[i].outs@ =~= seq![]);
            }
        }
        let ghost all_hits = hit_pairs@;
        let mut reversed_hits = reversed(hit_pairs);
        assert(all_hits.subrange(0, all_hits.len() as int) =~= all_hits);
        while reversed_hits.len() > 0
            invariant
                scores@.len() == jobs@.len(),
                forall|j: int| 0 <= j < jobs@.len() ==> (#[trigger] scores@[j])@.len() == jobs@[j]@.len(),
                forall|k: int| 0 <= k < all_hits.len() ==> routable(entries, sizes, #[trigger] all_hits[k].0),
                sizes == sizes_of(jobs@),
                entries == self.entries(),
                reversed_hits@.len() <= all_hits.len(),
                reversed_hits@ == all_hits.subrange(all_hits.len() - reversed_hits@.len(), all_hits.len() as int).reverse(),
                forall|j: int, i: int| 0 <= j < jobs@.len() && 0 <= i < jobs@[j]@.len()
                    ==> (#[trigger] scores@[j]@[i]).hits@ == routed(entries, all_hits.take(all_hits.len() - reversed_hits@.len()), j, i)
                        && scores@[j]@[i].outs@ == routed(entries, out_pairs@.take(0), j, i),
            decreases reversed_hits@.len(),
        {
            let ghost done = all_hits.len() - reversed_hits@.len();
            let ghost old_scores = scores@;
            let (pair, a, b) = reversed_hits.pop().unwrap();
            proof {
                assert(all_hits[done] == (pair, a, b)) by {
                    let s = all_hits.subrange(done, all_hits.len() as int);
                    assert(s.reverse()[s.len() - 1] == s[0]);
                }
                assert(all_hits.take(done + 1).drop_last() =~= all_hits.take(done));
                assert(all_hits.take(done + 1).last() == (pair, a, b));
                assert(reversed_hits@ =~= all_hits.subrange(all_hits.len() - reversed_hits@.len(), all_hits.len() as int).reverse());
                assert(routable(entries, sizes, all_hits[done].0));
            }
            let (ji, i0, i1) = self.at(&pair);
            scores[ji][i0].hits.push(a);
            scores[ji][i1].hits.push(b);
            proof {
                assert forall|j: int, i: int| 0 <= j < jobs@.len() && 0 <= i < jobs@[j]@.len() implies
                    (#[trigger] scores@[j]@[i]).hits@ == routed(entries, all_hits.take(done + 1), j, i)
                    && scores@[j]@[i].outs@ == routed(entries, out_pairs@.take(0), j, i) by {
                    assert(routed(entries, all_hits.take(done + 1), j, i) == {
                        let prev = routed(entries, all_hits.take(done), j, i);
                        let with_a = if ji == j && i0 == i { prev.push(a) } else { prev };
                        if ji == j && i1 == i { with_a.push(b) } else { with_a }
                    });
                    assert(old_scores[j]@[i].hits@ == routed(entries, all_hits.take(done), j, i));
                }
            }
        }
        assert(all_hits.take(all_hits.len() as int) =~= all_hits);
        let ghost all_outs = out_pairs@;
        let mut reversed_outs = reversed(out_pairs);
        assert(all_outs.subrange(0, all_outs.len() as int) =~= all_outs);
        assert forall|j: int, i: int| 0 <= j < jobs@.len() && 0 <= i < jobs@[j]@.len() implies
            (#[trigger] scores@[j]@[i]).outs@ == routed(entries, all_outs.take(0), j, i) by {
            assert(all_outs.take(0) =~= out_pairs@.take(0));
        }
        while reversed_outs.len() > 0
            invariant
                scores@.len() == jobs@.len(),
                forall|j: int| 0 <= j < jobs@.len() ==> (#[trigger] scores@[j])@.len() == jobs@[j]@.len(),
                forall|k: int| 0 <= k < all_outs.len() ==> routable(entries, sizes, #[trigger] all_outs[k].0),
                sizes == sizes_of(jobs@),
                entries == self.entries(),
                reversed_outs@.len() <= all_outs.len(),
                reversed_outs@ == all_outs.subrange(all_outs.len() - reversed_outs@.len(), all_outs.len() as int).reverse(),
                forall|j: int, i: int| 0 <= j < jobs@.len() && 0 <= i < jobs@[j]@.len()
                    ==> scores@[j]@[i].hits@ == routed(entries, all_hits, j, i)
                        && (#[trigger] scores@[j]@[i]).outs@ == routed(entries, all_outs.take(all_outs.len() - reversed_outs@.len()), j, i),
            decreases reversed_outs@.len(),
        {
            let ghost done = all_outs.len() - reversed_outs@.len();
            let ghost old_scores = scores@;
            let (pair, a, b) = reversed_outs.pop().unwrap();
            proof {
                assert(all_outs[done] == (pair, a, b)) by {
                    let s = all_outs.subrange(done, all_outs.len() as int);
                    assert(s.reverse()[s.len() - 1] == s[0]);
                }
                assert(all_outs.take(done + 1).drop_last() =~= all_outs.take(done));
                assert(all_outs.take(done + 1).last() == (pair, a, b));
                assert(reversed_outs@ =~= all_outs.subrange(all_outs.len() - reversed_outs@.len(), all_outs.len() as int).reverse());
                assert(routable(entries, sizes, all_outs[done].0));
            }
            let (ji, i0, i1) = self.at(&pair);
            scores[ji][i0].outs.push(a);
            scores[ji][i1].outs.push(b);
            proof {
                assert forall|j: int, i: int| 0 <= j < jobs@.len() && 0 <= i < jobs@[j]@.len() implies
                    scores@[j]@[i].hits@ == routed(entries, all_hits, j, i)
                    && (#[trigger] scores@[j]@[i]).outs@ == routed(entries, all_outs.take(done + 1), j, i) by {
                    assert(routed(entries, all_outs.take(done + 1), j, i) == {
                        let prev = routed(entries, all_outs.take(done), j, i);
                        let with_a = if ji == j && i0 == i { prev.push(a) } else { prev };
                        if ji == j && i1 == i { with_a.push(b) } else { with_a }
                    });
                    assert(old_scores[j]@[i].outs@ == routed(entries, all_outs.take(done), j, i));
                }
            }
        }
        assert(all_outs.take(all_outs.len() as int) =~= all_outs);
        scores
    }
}

} // verus!

verus! {

/// The pair of shapes `a` and `b` of job `j`, as positions in the flattened list.
pub open spec fn job_pair(sizes: Seq<nat>, j: int, a: int, b: int) -> TestPair {
    TestPair { i0: flat_index(sizes, j, a) as usize, i1: flat_index(sizes, j, b) as usize, reverse: false }
}

/// The pair of positions `start + a` and `start + b`.
pub open spec fn shifted_pair(start: int, a: int, b: int) -> TestPair {
    TestPair { i0: (start + a) as usize, i1: (start + b) as usize, reverse: false }
}

proof fn lemma_job_rows_member(start: int, n: int, m: int, k: int)
    requires
        0 <= m <= n,
        0 <= k < job_rows(start, n, m).len(),
    ensures
        exists|a: int, b: int| 0 <= a < m && a < b < n
            && #[trigger] job_rows(start, n, m)[k] == shifted_pair(start, a, b),
    decreases m,
{
    if m > 0 {
        let prev = job_rows(start, n, m - 1);
        let row = pair_row(start, n, m - 1);
        assert(job_rows(start, n, m) == prev + row);
        if k < prev.len() {
            lemma_job_rows_member(start, n, m - 1, k);
            let (a, b) = choose|a: int, b: int| 0 <= a < m - 1 && a < b < n
                && #[trigger] prev[k] == shifted_pair(start, a, b);
            assert(job_rows(start, n, m)[k] == prev[k]);
        } else {
            let kk = k - prev.len();
            assert(job_rows(start, n, m)[k] == row[kk]);
            let b = m - 1 + 1 + kk;
            assert(job_rows(start, n, m)[k] == shifted_pair(start, m - 1, b));
        }
    }
}

proof fn lemma_job_rows_complete(start: int, n: int, m: int, a: int, b: int)
    requires
        0 <= a < m <= n,
        a < b < n,
    ensures
        job_rows(start, n, m).contains(shifted_pair(start, a, b)),
    decreases m,
{
    let p = shifted_pair(start, a, b);
    let prev = job_rows(start, n, m - 1);
    let row = pair_row(start, n, m - 1);
    assert(job_rows(start, n, m) == prev + row);
    if a < m - 1 {
        lemma_job_rows_complete(start, n, m - 1, a, b);
        let k = choose|k: int| 0 <= k < prev.len() && prev[k] == p;
        assert((prev + row)[k] == p);
    } else {
        let kk = b - a - 1;
        assert(row[kk] == p);
        assert((prev + row)[prev.len() + kk] == p);
    }
}

proof fn lemma_all_job_pairs_member(sizes: Seq<nat>, count: int, k: int)
    requires
        total(sizes) <= usize::MAX,
        0 <= count <= sizes.len(),
        0 <= k < all_job_pairs(sizes, offsets(sizes), count).len(),
    ensures
        exists|j: int, a: int, b: int| 0 <= j < count && 0 <= a < b < sizes[j]
            && #[trigger] all_job_pairs(sizes, offsets(sizes), count)[k] == job_pair(sizes, j, a, b),
    decreases count,
{
    let starts = offsets(sizes);
    if count > 0 {
        let prev = all_job_pairs(sizes, starts, count - 1);
        let j = count - 1;
        let rows = job_rows(starts[j] as int, sizes[j] as int, sizes[j] as int);
        assert(all_job_pairs(sizes, starts, count) == prev + rows);
        lemma_offset_monotonic(sizes, j + 1, sizes.len() as int);
        if k < prev.len() {
            lemma_all_job_pairs_member(sizes, count - 1, k);
            let (j0, a, b) = choose|j0: int, a: int, b: int| 0 <= j0 < count - 1 && 0 <= a < b < sizes[j0]
                && #[trigger] prev[k] == job_pair(sizes, j0, a, b);
            assert((prev + rows)[k] == prev[k]);
        } else {
            let kk = k - prev.len();
            lemma_job_rows_member(starts[j] as int, sizes[j] as int, sizes[j] as int, kk);
            let (a, b) = choose|a: int, b: int| 0 <= a < sizes[j] && a < b < sizes[j]
                && #[trigger] rows[kk] == shifted_pair(starts[j] as int, a, b);
            assert((prev + rows)[k] == rows[kk]);
            assert(rows[kk] == job_pair(sizes, j, a, b));
        }
    }
}

proof fn lemma_all_job_pairs_complete(sizes: Seq<nat>, count: int, j: int, a: int, b: int)
    requires
        total(sizes) <= usize::MAX,
        0 <= j < count <= sizes.len(),
        0 <= a < b < sizes[j],
    ensures
        all_job_pairs(sizes, offsets(sizes), count).contains(job_pair(sizes, j, a, b)),
    decreases count,
{
    let starts = offsets(sizes);
    let p = job_pair(sizes, j, a, b);
    let last = count - 1;
    let prev = all_job_pairs(sizes, starts, last);
    let rows = job_rows(starts[last] as int, sizes[last] as int, sizes[last] as int);
    assert(all_job_pairs(sizes, starts, count) == prev + rows);
    if j < last {
        lemma_all_job_pairs_complete(sizes, last, j, a, b);
        let k = choose|k: int| 0 <= k < prev.len() && prev[k] == p;
        assert((prev + rows)[k] == p);
    } else {
        lemma_offset_monotonic(sizes, j + 1, sizes.len() as int);
        lemma_job_rows_complete(starts[j] as int, sizes[j] as int, sizes[j] as int, a, b);
        let k = choose|k: int| 0 <= k < rows.len() && rows[k] == shifted_pair(starts[j] as int, a, b);
        assert(rows[k] == p);
        assert((prev + rows)[prev.len() + k] == p);
    }
}

/// Every pair of the index joins two distinct shapes of one job, which `at`
/// finds again; and every two distinct shapes of a job form one of its pairs.
pub proof fn lemma_index_pairs_route(sizes: Seq<nat>, entries: Seq<(usize, usize)>, pairs: Seq<TestPair>)
    requires
        total(sizes) <= usize::MAX,
        indexed_by(sizes, entries),
        pairs == all_job_pairs(sizes, offsets(sizes), sizes.len() as int),
    ensures
        forall|k: int| 0 <= k < pairs.len() ==> {
            &&& routable(entries, sizes, #[trigger] pairs[k])
            &&& locate(entries, pairs[k]).1 < locate(entries, pairs[k]).2
            &&& pairs[k] == job_pair(sizes, locate(entries, pairs[k]).0 as int,
                    locate(entries, pairs[k]).1 as int, locate(entries, pairs[k]).2 as int)
        },
        forall|j: int, a: int, b: int| 0 <= j < sizes.len() && 0 <= a < b < sizes[j]
            ==> pairs.contains(#[trigger] job_pair(sizes, j, a, b)),
{
    assert forall|k: int| 0 <= k < pairs.len() implies {
        &&& routable(entries, sizes, #[trigger] pairs[k])
        &&& locate(entries, pairs[k]).1 < locate(entries, pairs[k]).2
        &&& pairs[k] == job_pair(sizes, locate(entries, pairs[k]).0 as int,
                locate(entries, pairs[k]).1 as int, locate(entries, pairs[k]).2 as int)
    } by {
        lemma_all_job_pairs_member(sizes, sizes.len() as int, k);
        let (j, a, b) = choose|j: int, a: int, b: int| 0 <= j < sizes.len() && 0 <= a < b < sizes[j]
            && #[trigger] pairs[k] == job_pair(sizes, j, a, b);
        lemma_flat_index_bound(sizes, j, b, sizes.len() as int);
        assert(entries[flat_index(sizes, j, a)] == (j as usize, a as usize));
        assert(entries[flat_index(sizes, j, b)] == (j as usize, b as usize));
    }
    assert forall|j: int, a: int, b: int| 0 <= j < sizes.len() && 0 <= a < b < sizes[j] implies
        pairs.contains(#[trigger] job_pair(sizes, j, a, b)) by {
        lemma_all_job_pairs_complete(sizes, sizes.len() as int, j, a, b);
    }
}

/// How many items land on shapes `0..n` of job `j`.
pub open spec fn job_routed_count<H>(entries: Seq<(usize, usize)>, items: Seq<(TestPair, H, H)>, j: int, n: int) -> int
    decreases n,
{
    if n <= 0 {
        0
    } else {
        job_routed_count(entries, items, j, n - 1) + routed(entries, items, j, n - 1).len()
    }
}

/// How many items land on the shapes of jobs `0..m`.
pub open spec fn routed_count<H>(entries: Seq<(usize, usize)>, items: Seq<(TestPair, H, H)>, sizes: Seq<nat>, m: int) -> int
    decreases m,
{
    if m <= 0 {
        0
    } else {
        routed_count(entries, items, sizes, m - 1) + job_routed_count(entries, items, m - 1, sizes[m - 1] as int)
    }
}

proof fn lemma_job_count_step<H>(entries: Seq<(usize, usize)>, items: Seq<(TestPair, H, H)>, x: (TestPair, H, H), j: int, n: int)
    requires
        n >= 0,
    ensures
        job_routed_count(entries, items.push(x), j, n) == job_routed_count(entries, items, j, n)
            + (if j == locate(entries, x.0).0 && locate(entries, x.0).1 < n { 1int } else { 0int })
            + (if j == locate(entries, x.0).0 && locate(entries, x.0).2 < n { 1int } else { 0int }),
    decreases n,
{
    if n > 0 {
        lemma_job_count_step(entries, items, x, j, n - 1);
        assert(items.push(x).drop_last() =~= items);
        assert(items.push(x).last() == x);
    }
}

proof fn lemma_count_step<H>(entries: Seq<(usize, usize)>, items: Seq<(TestPair, H, H)>, x: (TestPair, H, H), sizes: Seq<nat>, m: int)
    requires
        0 <= m <= sizes.len(),
    ensures
        routed_count(entries, items.push(x), sizes, m) == routed_count(entries, items, sizes, m)
            + (if locate(entries, x.0).0 < m && locate(entries, x.0).1 < sizes[locate(entries, x.0).0 as int] { 1int } else { 0int })
            + (if locate(entries, x.0).0 < m && locate(entries, x.0).2 < sizes[locate(entries, x.0).0 as int] { 1int } else { 0int }),
    decreases m,
{
    if m > 0 {
        lemma_count_step(entries, items, x, sizes, m - 1);
        lemma_job_count_step(entries, items, x, m - 1, sizes[m - 1] as int);
    }
}

/// Routing findings to shapes loses none and copies none: when every pair can
/// be placed, the scores of all shapes hold two entries per finding.
pub proof fn lemma_routing_keeps_every_finding<H>(entries: Seq<(usize, usize)>, items: Seq<(TestPair, H, H)>, sizes: Seq<nat>)
    requires
        forall|k: int| 0 <= k < items.len() ==> routable(entries, sizes, #[trigger] items[k].0),
    ensures
        routed_count(entries, items, sizes, sizes.len() as int) == 2 * items.len(),
    decreases items.len(),
{
    if items.len() == 0 {
        lemma_count_empty(entries, items, sizes, sizes.len() as int);
    } else {
        let rest = items.drop_last();
        let x = items.last();
        assert forall|k: int| 0 <= k < rest.len() implies routable(entries, sizes, #[trigger] rest[k].0) by {
            assert(rest[k] == items[k]);
        }
        lemma_routing_keeps_every_finding(entries, rest, sizes);
        assert(routable(entries, sizes, items[items.len() - 1].0));
        lemma_count_step(entries, rest, x, sizes, sizes.len() as int);
        assert(rest.push(x) =~= items);
    }
}

proof fn lemma_count_empty<H>(entries: Seq<(usize, usize)>, items: Seq<(TestPair, H, H)>, sizes: Seq<nat>, m: int)
    requires
        items.len() == 0,
        0 <= m <= sizes.len(),
    ensures
        routed_count(entries, items, sizes, m) == 0,
    decreases m,
{
    if m > 0 {
        lemma_count_empty(entries, items, sizes, m - 1);
        lemma_job_count_empty(entries, items, m - 1, sizes[m - 1] as int);
    }
}

proof fn lemma_job_count_empty<H>(entries: Seq<(usize, usize)>, items: Seq<(TestPair, H, H)>, j: int, n: int)
    requires
        items.len() == 0,
    ensures
        job_routed_count(entries, items, j, n) == 0,
    decreases n,
{
    if n > 0 {
        lemma_job_count_empty(entries, items, j, n - 1);
    }
}

/// Item `h` on shape `i` of job `j` comes from `item`: the shape is the
/// item's first shape and `h` its first value, or the shape is its second
/// shape and `h` its second value.
pub open spec fn from_item<H>(entries: Seq<(usize, usize)>, item: (TestPair, H, H), j: int, i: int, h: H) -> bool {
    let (job, i0, i1) = locate(entries, item.0);
    ||| job == j && i0 == i && h == item.1
    ||| job == j && i1 == i && h == item.2
}

/// Everything routed to a shape is what a finding of one of its own pairs
/// reported for that very shape: the first value for the pair's first shape,
/// the second for its second.
pub proof fn lemma_routed_from_own_pairs<H>(entries: Seq<(usize, usize)>, items: Seq<(TestPair, H, H)>, j: int, i: int)
    ensures
        forall|t: int| #![trigger routed(entries, items, j, i)[t]]
            0 <= t < routed(entries, items, j, i).len() ==> exists|k: int| 0 <= k < items.len()
            && from_item(entries, #[trigger] items[k], j, i, routed(entries, items, j, i)[t]),
    decreases items.len(),
{
    if items.len() > 0 {
        let rest = items.drop_last();
        lemma_routed_from_own_pairs(entries, rest, j, i);
        let prev = routed(entries, rest, j, i);
        let all = routed(entries, items, j, i);
        let last = items.len() - 1;
        assert(items[last] == items.last());
        assert forall|t: int| #![trigger all[t]] 0 <= t < all.len() implies exists|k: int| 0 <= k < items.len()
            && from_item(entries, #[trigger] items[k], j, i, all[t]) by {
            if t < prev.len() {
                let k = choose|k: int| 0 <= k < rest.len() && from_item(entries, #[trigger] rest[k], j, i, prev[t]);
                assert(rest[k] == items[k]);
                assert(all[t] == prev[t]);
                assert(from_item(entries, items[k], j, i, all[t]));
            } else {
                assert(from_item(entries, items[last], j, i, all[t]));
            }
        }
    }
}

} // verus!
