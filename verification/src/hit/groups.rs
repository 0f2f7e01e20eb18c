use vstd::prelude::*;
use super::{TestPair, Score, reversed, offset, total, lemma_offset_monotonic};

verus! {

/// For each job, the lengths of its two groups.
pub open spec fn group_sizes<T>(jobs: Seq<[Vec<T>; 2]>) -> Seq<(nat, nat)> {
    Seq::new(jobs.len(), |j: int| (jobs[j]@[0]@.len(), jobs[j]@[1]@.len()))
}

/// For each job, the number of its shapes.
pub open spec fn job_totals(sizes: Seq<(nat, nat)>) -> Seq<nat> {
    Seq::new(sizes.len(), |j: int| sizes[j].0 + sizes[j].1)
}

/// The length of group `g` of job `j`.
pub open spec fn group_len(sizes: Seq<(nat, nat)>, j: int, g: int) -> nat {
    if g == 0 { sizes[j].0 } else { sizes[j].1 }
}

/// Position in the flattened list of shape `i` of group `g` of job `j`:
/// each job lists its first group, then its second.
pub open spec fn group_index(sizes: Seq<(nat, nat)>, j: int, g: int, i: int) -> int {
    offset(job_totals(sizes), j) + (if g == 0 { 0 } else { sizes[j].0 as int }) + i
}

/// `entry` says that position `k` is shape `entry.2` of group `entry.1` of job `entry.0`.
pub open spec fn locates(sizes: Seq<(nat, nat)>, entry: (usize, usize, usize), k: int) -> bool {
    &&& entry.0 < sizes.len()
    &&& entry.1 < 2
    &&& entry.2 < group_len(sizes, entry.0 as int, entry.1 as int)
    &&& group_index(sizes, entry.0 as int, entry.1 as int, entry.2 as int) == k
}

/// `entries` gives, for each position of the flattened list, its job, group and place.
pub open spec fn indexed_by(sizes: Seq<(nat, nat)>, entries: Seq<(usize, usize, usize)>) -> bool {
    &&& entries.len() == total(job_totals(sizes))
    &&& forall|j: int, g: int, i: int| 0 <= j < sizes.len() && 0 <= g < 2 && 0 <= i < group_len(sizes, j, g)
        ==> #[trigger] entries[group_index(sizes, j, g, i)] == (j as usize, g as usize, i as usize)
    &&& forall|k: int| 0 <= k < entries.len() ==> locates(sizes, #[trigger] entries[k], k)
}

/// Where each job begins in the flattened list.
pub open spec fn job_starts(sizes: Seq<(nat, nat)>) -> Seq<usize> {
    Seq::new(sizes.len(), |j: int| offset(job_totals(sizes), j) as usize)
}

proof fn lemma_group_index_bound(sizes: Seq<(nat, nat)>, j: int, g: int, i: int, k: int)
    requires
        0 <= j < k <= sizes.len(),
        0 <= g < 2,
        0 <= i < group_len(sizes, j, g),
    ensures
        group_index(sizes, j, g, i) < offset(job_totals(sizes), k),
{
    lemma_offset_monotonic(job_totals(sizes), j + 1, k);
}

/// For each shape of the flattened list its job, group and place in the group;
/// and for each job, where it begins in the flattened list.
pub fn indices_and_starts<T>(jobs: &Vec<[Vec<T>; 2]>) -> (res: (Vec<(usize, usize, usize)>, Vec<usize>))
    requires
        total(job_totals(group_sizes(jobs@))) <= usize::MAX,
    ensures
        res.1@ == job_starts(group_sizes(jobs@)),
        indexed_by(group_sizes(jobs@), res.0@),
{
    let ghost sizes = group_sizes(jobs@);
    let ghost totals = job_totals(sizes);
    let mut starts: Vec<usize> = Vec::new();
    let mut indices: Vec<(usize, usize, usize)> = Vec::new();
    let mut job_start: usize = 0;
    let mut ji: usize = 0;
    while ji < jobs.len()
        invariant
            sizes == group_sizes(jobs@),
            totals == job_totals(sizes),
            total(totals) <= usize::MAX,
            0 <= ji <= jobs@.len(),
            job_start == offset(totals, ji as int),
            indices@.len() == job_start,
            starts@.len() == ji,
            forall|j: int| 0 <= j < ji ==> #[trigger] starts@[j] == offset(totals, j) as usize,
            forall|j: int, g: int, i: int| 0 <= j < ji && 0 <= g < 2 && 0 <= i < group_len(sizes, j, g)
                ==> #[trigger] indices@[group_index(sizes, j, g, i)] == (j as usize, g as usize, i as usize),
            forall|k: int| 0 <= k < indices@.len() ==> locates(sizes, #[trigger] indices@[k], k),
        decreases jobs@.len() - ji,
    {
        starts.push(job_start);
        proof {
            lemma_offset_monotonic(totals, ji + 1, totals.len() as int);
            assert forall|j: int, g: int, i: int| 0 <= j < ji && 0 <= g < 2 && 0 <= i < group_len(sizes, j, g) implies
                group_index(sizes, j, g, i) < job_start by {
                lemma_group_index_bound(sizes, j, g, i, ji as int);
            }
        }
        let mut gi: usize = 0;
        while gi < 2
            invariant
                sizes == group_sizes(jobs@),
                totals == job_totals(sizes),
                0 <= ji < jobs@.len(),
                offset(totals, ji as int) + totals[ji as int] <= usize::MAX,
                0 <= gi <= 2,
                job_start == offset(totals, ji as int) + (if gi == 0 { 0 } else if gi == 1 { sizes[ji as int].0 as int } else { totals[ji as int] as int }),
                indices@.len() == job_start,
                forall|j: int, g: int, i: int| 0 <= j < ji && 0 <= g < 2 && 0 <= i < group_len(sizes, j, g)
                    ==> #[trigger] indices@[group_index(sizes, j, g, i)] == (j as usize, g as usize, i as usize),
                forall|g: int, i: int| 0 <= g < gi && 0 <= i < group_len(sizes, ji as int, g)
                    ==> #[trigger] indices@[group_index(sizes, ji as int, g, i)] == (ji, g as usize, i as usize),
                forall|k: int| 0 <= k < indices@.len() ==> locates(sizes, #[trigger] indices@[k], k),
                forall|j: int, g: int, i: int| 0 <= j < ji && 0 <= g < 2 && 0 <= i < group_len(sizes, j, g)
                    ==> group_index(sizes, j, g, i) < offset(totals, ji as int),
            decreases 2 - gi,
        {
            let n = jobs[ji][gi].len();
            let ghost base = job_start;
            let mut i: usize = 0;
            while i < n
                invariant
                    sizes == group_sizes(jobs@),
                    totals == job_totals(sizes),
                    0 <= ji < jobs@.len(),
                    0 <= gi < 2,
                    offset(totals, ji as int) + totals[ji as int] <= usize::MAX,
                    n == group_len(sizes, ji as int, gi as int),
                    base == offset(totals, ji as int) + (if gi == 0 { 0 } else { sizes[ji as int].0 as int }),
                    job_start == base + i,
                    0 <= i <= n,
                    indices@.len() == job_start,
                    forall|j: int, g: int, i2: int| 0 <= j < ji && 0 <= g < 2 && 0 <= i2 < group_len(sizes, j, g)
                        ==> #[trigger] indices@[group_index(sizes, j, g, i2)] == (j as usize, g as usize, i2 as usize),
                    forall|g: int, i2: int| 0 <= g < gi && 0 <= i2 < group_len(sizes, ji as int, g)
                        ==> #[trigger] indices@[group_index(sizes, ji as int, g, i2)] == (ji, g as usize, i2 as usize),
                    forall|i2: int| 0 <= i2 < i
                        ==> #[trigger] indices@[group_index(sizes, ji as int, gi as int, i2)] == (ji, gi, i2 as usize),
                    forall|k: int| 0 <= k < indices@.len() ==> locates(sizes, #[trigger] indices@[k], k),
                    forall|j: int, g: int, i2: int| 0 <= j < ji && 0 <= g < 2 && 0 <= i2 < group_len(sizes, j, g)
                        ==> group_index(sizes, j, g, i2) < offset(totals, ji as int),
                decreases n - i,
            {
                indices.push((ji, gi, i));
                job_start = job_start + 1;
                i = i + 1;
            }
            gi = gi + 1;
        }
        ji = ji + 1;
    }
    assert(starts@ =~= job_starts(sizes));
    (indices, starts)
}

} // verus!

verus! {

/// The pairs `(start + a, start + n0 + b)` for `b < n1`, with `a` fixed.
pub open spec fn cross_row(start: int, n0: int, n1: int, a: int) -> Seq<TestPair> {
    Seq::new(if n1 > 0 { n1 as nat } else { 0 }, |b: int| cross_pair(start, n0, a, b))
}

/// Shape `a` of the first group paired with shape `b` of the second, for a
/// job that begins at `start` and whose first group has `n0` shapes.
pub open spec fn cross_pair(start: int, n0: int, a: int, b: int) -> TestPair {
    TestPair { i0: (start + a) as usize, i1: (start + n0 + b) as usize, reverse: false }
}

/// The rows of `cross_row` for `a` in `0..m`, one after the other.
pub open spec fn cross_rows(start: int, n0: int, n1: int, m: int) -> Seq<TestPair>
    decreases m,
{
    if m <= 0 {
        seq![]
    } else {
        cross_rows(start, n0, n1, m - 1) + cross_row(start, n0, n1, m - 1)
    }
}

/// Every shape of the first group of each of the first `j` jobs paired with
/// every shape of the second group of the same job.
pub open spec fn all_cross_pairs(sizes: Seq<(nat, nat)>, starts: Seq<usize>, j: int) -> Seq<TestPair>
    decreases j,
{
    if j <= 0 {
        seq![]
    } else {
        all_cross_pairs(sizes, starts, j - 1)
            + cross_rows(starts[j - 1] as int, sizes[j - 1].0 as int, sizes[j - 1].1 as int, sizes[j - 1].0 as int)
    }
}

/// The starts that a job with two nonempty groups reads are there, and its
/// positions fit in a `usize`.
pub open spec fn starts_cover(sizes: Seq<(nat, nat)>, starts: Seq<usize>) -> bool {
    forall|j: int| 0 <= j < sizes.len() && (#[trigger] sizes[j]).0 > 0 && sizes[j].1 > 0
        ==> j < starts.len() && starts[j] + sizes[j].0 + sizes[j].1 <= usize::MAX + 1
}

/// Each shape of a job's first group paired with each shape of its second group.
pub fn pairs<T>(jobs: &Vec<[Vec<T>; 2]>, starts: &Vec<usize>) -> (pairs: Vec<TestPair>)
    requires
        starts_cover(group_sizes(jobs@), starts@),
    ensures
        pairs@ == all_cross_pairs(group_sizes(jobs@), starts@, jobs@.len() as int),
{
    let ghost sizes = group_sizes(jobs@);
    let mut pairs: Vec<TestPair> = Vec::new();
    let mut ji: usize = 0;
    while ji < jobs.len()
        invariant
            sizes == group_sizes(jobs@),
            starts_cover(sizes, starts@),
            0 <= ji <= jobs@.len(),
            pairs@ == all_cross_pairs(sizes, starts@, ji as int),
        decreases jobs@.len() - ji,
    {
        let n0 = jobs[ji][0].len();
        let n1 = jobs[ji][1].len();
        let ghost start = starts@[ji as int] as int;
        let ghost before = pairs@;
        let mut i0: usize = 0;
        while i0 < n0
            invariant
                sizes == group_sizes(jobs@),
                starts_cover(sizes, starts@),
                0 <= ji < jobs@.len(),
                n0 == sizes[ji as int].0,
                n1 == sizes[ji as int].1,
                start == starts@[ji as int] as int,
                0 <= i0 <= n0,
                pairs@ == before + cross_rows(start, n0 as int, n1 as int, i0 as int),
            decreases n0 - i0,
        {
            let ghost row_start = pairs@;
            let mut i1: usize = 0;
            while i1 < n1
                invariant
                    sizes == group_sizes(jobs@),
                    starts_cover(sizes, starts@),
                    0 <= ji < jobs@.len(),
                    n0 == sizes[ji as int].0,
                    n1 == sizes[ji as int].1,
                    start == starts@[ji as int] as int,
                    0 <= i0 < n0,
                    0 <= i1 <= n1,
                    row_start == before + cross_rows(start, n0 as int, n1 as int, i0 as int),
                    pairs@ == row_start + cross_row(start, n0 as int, n1 as int, i0 as int).take(i1 as int),
                decreases n1 - i1,
            {
                assert(sizes[ji as int].0 > 0 && sizes[ji as int].1 > 0);
                let s = starts[ji];
                let p = TestPair { i0: s + i0, i1: s + n0 + i1, reverse: false };
                assert(cross_row(start, n0 as int, n1 as int, i0 as int).take(i1 + 1) =~=
                    cross_row(start, n0 as int, n1 as int, i0 as int).take(i1 as int).push(p));
                pairs.push(p);
                i1 = i1 + 1;
            }
            assert(cross_row(start, n0 as int, n1 as int, i0 as int).take(n1 as int) =~= cross_row(start, n0 as int, n1 as int, i0 as int));
            i0 = i0 + 1;
        }
        ji = ji + 1;
    }
    pairs
}

/// The pairs to test, and for each shape of the flattened list its job, group
/// and place in the group.
pub struct Index {
    pub pairs: Vec<TestPair>,
    indices: Vec<(usize, usize, usize)>,
}

/// A pair whose two shapes `at` can place in the score lists of `sizes`.
pub open spec fn routable(entries: Seq<(usize, usize, usize)>, sizes: Seq<(nat, nat)>, pair: TestPair) -> bool {
    &&& pair.i0 < entries.len()
    &&& pair.i1 < entries.len()
    &&& entries[pair.i0 as int].0 < sizes.len()
    &&& entries[pair.i0 as int].1 < 2
    &&& entries[pair.i1 as int].1 < 2
    &&& entries[pair.i0 as int].2 < group_len(sizes, entries[pair.i0 as int].0 as int, entries[pair.i0 as int].1 as int)
    &&& entries[pair.i1 as int].2 < group_len(sizes, entries[pair.i0 as int].0 as int, entries[pair.i1 as int].1 as int)
}

/// The job of the first shape, then group and place of each shape.
pub open spec fn locate(entries: Seq<(usize, usize, usize)>, pair: TestPair) -> (usize, usize, usize, usize, usize) {
    (entries[pair.i0 as int].0, entries[pair.i0 as int].1, entries[pair.i0 as int].2,
        entries[pair.i1 as int].1, entries[pair.i1 as int].2)
}

/// The items that land on shape `i` of group `g` of job `j` when each triple
/// `(pair, a, b)` sends `a` to its first shape and `b` to its second, in order.
pub open spec fn routed<H>(entries: Seq<(usize, usize, usize)>, items: Seq<(TestPair, H, H)>, j: int, g: int, i: int) -> Seq<H>
    decreases items.len(),
{
    if items.len() == 0 {
        seq![]
    } else {
        let prev = routed(entries, items.drop_last(), j, g, i);
        let (pair, a, b) = items.last();
        let (job, g0, i0, g1, i1) = locate(entries, pair);
        let with_a = if job == j && g0 == g && i0 == i { prev.push(a) } else { prev };
        if job == j && g1 == g && i1 == i { with_a.push(b) } else { with_a }
    }
}

impl Index {
    /// For each position of the flattened shape list, its job, group and place.
    pub closed spec fn entries(&self) -> Seq<(usize, usize, usize)> {
        self.indices@
    }

    /// The pairs to test.
    pub closed spec fn test_pairs(&self) -> Seq<TestPair> {
        self.pairs@
    }

    /// The index of a list of two-group jobs: the job, group and place of each
    /// shape, and each shape of a first group paired with each of the second.
    pub fn new<T>(jobs: &Vec<[Vec<T>; 2]>) -> (index: Index)
        requires
            total(job_totals(group_sizes(jobs@))) <= usize::MAX,
        ensures
            indexed_by(group_sizes(jobs@), index.entries()),
            index.test_pairs() == all_cross_pairs(group_sizes(jobs@), job_starts(group_sizes(jobs@)), jobs@.len() as int),
    {
        let (indices, starts) = indices_and_starts(jobs);
        proof {
            let sizes = group_sizes(jobs@);
            assert forall|j: int| 0 <= j < sizes.len() && (#[trigger] sizes[j]).0 > 0 && sizes[j].1 > 0 implies
                j < starts@.len() && starts@[j] + sizes[j].0 + sizes[j].1 <= usize::MAX + 1 by {
                lemma_offset_monotonic(job_totals(sizes), j + 1, sizes.len() as int);
            }
        }
        let pairs = pairs(jobs, &starts);
        Index { pairs, indices }
    }

    /// The job of the pair's first shape, then the group and place of each of its shapes.
    pub fn at(&self, pair: &TestPair) -> (res: (usize, usize, usize, usize, usize))
        requires
            pair.i0 < self.entries().len(),
            pair.i1 < self.entries().len(),
        ensures
            res == locate(self.entries(), *pair),
    {
        let (j, g0, i0) = self.indices[pair.i0];
        let (_, g1, i1) = self.indices[pair.i1];
        (j, g0, i0, g1, i1)
    }
}

} // verus!

verus! {

/// The two items of each row, as a two-item array.
fn into_arrays<X>(rows: Vec<Vec<X>>) -> (res: Vec<[X; 2]>)
    requires
        forall|j: int| 0 <= j < rows@.len() ==> (#[trigger] rows@[j])@.len() == 2,
    ensures
        res@.len() == rows@.len(),
        forall|j: int| 0 <= j < rows@.len()
            ==> (#[trigger] res@[j])@[0] == rows@[j]@[0] && res@[j]@[1] == rows@[j]@[1],
{
    let ghost all = rows@;
    let mut pending = reversed(rows);
    let mut res: Vec<[X; 2]> = Vec::new();
    while pending.len() > 0
        invariant
            pending@.len() <= all.len(),
            pending@ == all.subrange(res@.len() as int, all.len() as int).reverse(),
            res@.len() + pending@.len() == all.len(),
            forall|j: int| 0 <= j < all.len() ==> (#[trigger] all[j])@.len() == 2,
            forall|j: int| 0 <= j < res@.len() ==> (#[trigger] res@[j])@[0] == all[j]@[0] && res@[j]@[1] == all[j]@[1],
        decreases pending@.len(),
    {
        let ghost k = res@.len() as int;
        let mut row = pending.pop().unwrap();
        proof {
            let s = all.subrange(k, all.len() as int);
            assert(s.reverse()[s.len() - 1] == s[0]);
            assert(row == all[k]);
            assert(pending@ =~= all.subrange(k + 1, all.len() as int).reverse());
        }
        let b = row.pop().unwrap();
        let a = row.pop().unwrap();
        res.push([a, b]);
    }
    res
}

impl Index {
    /// Sorts the tester's findings into one score per shape: each hit pair gives
    /// its first hit to its first shape and its second hit to its second shape,
    /// and each miss pair does the same with its two misses.
    pub fn scores<T, H, O>(&self, jobs: &Vec<[Vec<T>; 2]>, hit_pairs: Vec<(TestPair, H, H)>, out_pairs: Vec<(TestPair, O, O)>)
        -> (scores: Vec<[Vec<Score<H, O>>; 2]>)
        requires
            forall|k: int| 0 <= k < hit_pairs@.len() ==> routable(self.entries(), group_sizes(jobs@), #[trigger] hit_pairs@[k].0),
            forall|k: int| 0 <= k < out_pairs@.len() ==> routable(self.entries(), group_sizes(jobs@), #[trigger] out_pairs@[k].0),
        ensures
            scores@.len() == jobs@.len(),
            forall|j: int, g: int| 0 <= j < jobs@.len() && 0 <= g < 2
                ==> (#[trigger] scores@[j]@[g])@.len() == group_len(group_sizes(jobs@), j, g),
            forall|j: int, g: int, i: int| 0 <= j < jobs@.len() && 0 <= g < 2 && 0 <= i < group_len(group_sizes(jobs@), j, g)
                ==> (#[trigger] scores@[j]@[g]@[i]).hits@ == routed(self.entries(), hit_pairs@, j, g, i)
                    && scores@[j]@[g]@[i].outs@ == routed(self.entries(), out_pairs@, j, g, i),
    {
        let ghost sizes = group_sizes(jobs@);
        let ghost entries = self.entries();
        let mut nested: Vec<Vec<Vec<Score<H, O>>>> = Vec::new();
        let mut ji: usize = 0;
        while ji < jobs.len()
            invariant
                sizes == group_sizes(jobs@),
                0 <= ji <= jobs@.len(),
                nested@.len() == ji,
                forall|j: int| 0 <= j < ji ==> (#[trigger] nested@[j])@.len() == 2,
                forall|j: int, g: int| 0 <= j < ji && 0 <= g < 2 ==> (#[trigger] nested@[j]@[g])@.len() == group_len(sizes, j, g),
                forall|j: int, g: int, i: int| 0 <= j < ji && 0 <= g < 2 && 0 <= i < group_len(sizes, j, g)
                    ==> (#[trigger] nested@[j]@[g]@[i]).hits@.len() == 0 && nested@[j]@[g]@[i].outs@.len() == 0,
            decreases jobs@.len() - ji,
        {
            let mut groups: Vec<Vec<Score<H, O>>> = Vec::new();
            let mut gi: usize = 0;
            while gi < 2
                invariant
                    sizes == group_sizes(jobs@),
                    0 <= ji < jobs@.len(),
                    0 <= gi <= 2,
                    groups@.len() == gi,
                    forall|g: int| 0 <= g < gi ==> (#[trigger] groups@[g])@.len() == group_len(sizes, ji as int, g),
                    forall|g: int, i: int| 0 <= g < gi && 0 <= i < group_len(sizes, ji as int, g)
                        ==> (#[trigger] groups@[g]@[i]).hits@.len() == 0 && groups@[g]@[i].outs@.len() == 0,
                decreases 2 - gi,
            {
                let n = jobs[ji][gi].len();
                let mut row: Vec<Score<H, O>> = Vec::new();
                let mut i: usize = 0;
                while i < n
                    invariant
                        0 <= i <= n,
                        row@.len() == i,
                        forall|i2: int| 0 <= i2 < i ==> (#[trigger] row@[i2]).hits@.len() == 0 && row@[i2].outs@.len() == 0,
                    decreases n - i,
                {
                    row.push(Score { hits: Vec::new(), outs: Vec::new() });
                    i = i + 1;
                }
                groups.push(row);
                gi = gi + 1;
            }
            nested.push(groups);
            ji = ji + 1;
        }
        let ghost all_hits = hit_pairs@;
        let ghost all_outs = out_pairs@;
        proof {
            assert forall|j: int, g: int, i: int| 0 <= j < jobs@.len() && 0 <= g < 2 && 0 <= i < group_len(sizes, j, g) implies
                (#[trigger] nested@[j]@[g]@[i]).hits@ == routed(entries, all_hits.take(0), j, g, i)
                && nested@[j]@[g]@[i].outs@ == routed(entries, all_outs.take(0), j, g, i) by {
                assert(nested@[j]@[g]@[i].hits@ =~= seq![]);
                assert(nested@[j]@[g]@[i].outs@ =~= seq![]);
            }
        }
        let mut pending_hits = reversed(hit_pairs);
        assert(all_hits.subrange(0, all_hits.len() as int) =~= all_hits);
        while pending_hits.len() > 0
            invariant
                sizes == group_sizes(jobs@),
                entries == self.entries(),
                nested@.len() == jobs@.len(),
                forall|j: int| 0 <= j < jobs@.len() ==> (#[trigger] nested@[j])@.len() == 2,
                forall|j: int, g: int| 0 <= j < jobs@.len() && 0 <= g < 2 ==> (#[trigger] nested@[j]@[g])@.len() == group_len(sizes, j, g),
                forall|k: int| 0 <= k < all_hits.len() ==> routable(entries, sizes, #[trigger] all_hits[k].0),
                pending_hits@.len() <= all_hits.len(),
                pending_hits@ == all_hits.subrange(all_hits.len() - pending_hits@.len(), all_hits.len() as int).reverse(),
                forall|j: int, g: int, i: int| 0 <= j < jobs@.len() && 0 <= g < 2 && 0 <= i < group_len(sizes, j, g)
                    ==> (#[trigger] nested@[j]@[g]@[i]).hits@ == routed(entries, all_hits.take(all_hits.len() - pending_hits@.len()), j, g, i)
                        && nested@[j]@[g]@[i].outs@ == routed(entries, all_outs.take(0), j, g, i),
            decreases pending_hits@.len(),
        {
            let ghost done = all_hits.len() - pending_hits@.len();
            let ghost old_nested = nested@;
            let (pair, a, b) = pending_hits.pop().unwrap();
            proof {
                let s = all_hits.subrange(done, all_hits.len() as int);
                assert(s.reverse()[s.len() - 1] == s[0]);
                assert(all_hits.take(done + 1).drop_last() =~= all_hits.take(done));
                assert(pending_hits@ =~= all_hits.subrange(all_hits.len() - pending_hits@.len(), all_hits.len() as int).reverse());
                assert(routable(entries, sizes, all_hits[done].0));
            }
            let (ji, g0, i0, g1, i1) = self.at(&pair);
            nested[ji][g0][i0].hits.push(a);
            nested[ji][g1][i1].hits.push(b);
            proof {
                assert forall|j: int, g: int, i: int| 0 <= j < jobs@.len() && 0 <= g < 2 && 0 <= i < group_len(sizes, j, g) implies
                    (#[trigger] nested@[j]@[g]@[i]).hits@ == routed(entries, all_hits.take(done + 1), j, g, i)
                    && nested@[j]@[g]@[i].outs@ == routed(entries, all_outs.take(0), j, g, i) by {
                    assert(old_nested[j]@[g]@[i].hits@ == routed(entries, all_hits.take(done), j, g, i));
                }
            }
        }
        assert(all_hits.take(all_hits.len() as int) =~= all_hits);
        let mut pending_outs = reversed(out_pairs);
        assert(all_outs.subrange(0, all_outs.len() as int) =~= all_outs);
        while pending_outs.len() > 0
            invariant
                sizes == group_sizes(jobs@),
                entries == self.entries(),
                nested@.len() == jobs@.len(),
                forall|j: int| 0 <= j < jobs@.len() ==> (#[trigger] nested@[j])@.len() == 2,
                forall|j: int, g: int| 0 <= j < jobs@.len() && 0 <= g < 2 ==> (#[trigger] nested@[j]@[g])@.len() == group_len(sizes, j, g),
                forall|k: int| 0 <= k < all_outs.len() ==> routable(entries, sizes, #[trigger] all_outs[k].0),
                pending_outs@.len() <= all_outs.len(),
                pending_outs@ == all_outs.subrange(all_outs.len() - pending_outs@.len(), all_outs.len() as int).reverse(),
                forall|j: int, g: int, i: int| 0 <= j < jobs@.len() && 0 <= g < 2 && 0 <= i < group_len(sizes, j, g)
                    ==> nested@[j]@[g]@[i].hits@ == routed(entries, all_hits, j, g, i)
                        && (#[trigger] nested@[j]@[g]@[i]).outs@ == routed(entries, all_outs.take(all_outs.len() - pending_outs@.len()), j, g, i),
            decreases pending_outs@.len(),
        {
            let ghost done = all_outs.len() - pending_outs@.len();
            let ghost old_nested = nested@;
            let (pair, a, b) = pending_outs.pop().unwrap();
            proof {
                let s = all_outs.subrange(done, all_outs.len() as int);
                assert(s.reverse()[s.len() - 1] == s[0]);
                assert(all_outs.take(done + 1).drop_last() =~= all_outs.take(done));
                assert(pending_outs@ =~= all_outs.subrange(all_outs.len() - pending_outs@.len(), all_outs.len() as int).reverse());
                assert(routable(entries, sizes, all_outs[done].0));
            }
            let (ji, g0, i0, g1, i1) = self.at(&pair);
            nested[ji][g0][i0].outs.push(a);
            nested[ji][g1][i1].outs.push(b);
            proof {
                assert forall|j: int, g: int, i: int| 0 <= j < jobs@.len() && 0 <= g < 2 && 0 <= i < group_len(sizes, j, g) implies
                    nested@[j]@[g]@[i].hits@ == routed(entries, all_hits, j, g, i)
                    && (#[trigger] nested@[j]@[g]@[i]).outs@ == routed(entries, all_outs.take(done + 1), j, g, i) by {
                    assert(old_nested[j]@[g]@[i].outs@ == routed(entries, all_outs.take(done), j, g, i));
                }
            }
        }
        assert(all_outs.take(all_outs.len() as int) =~= all_outs);
        into_arrays(nested)
    }
}

} // verus!

verus! {

/// Shape `a` of the first group of job `j` paired with shape `b` of its second group.
pub open spec fn group_pair(sizes: Seq<(nat, nat)>, j: int, a: int, b: int) -> TestPair {
    TestPair {
        i0: group_index(sizes, j, 0, a) as usize,
        i1: group_index(sizes, j, 1, b) as usize,
        reverse: false,
    }
}

proof fn lemma_cross_rows_member(start: int, n0: int, n1: int, m: int, k: int)
    requires
        0 <= m <= n0,
        0 <= k < cross_rows(start, n0, n1, m).len(),
    ensures
        exists|a: int, b: int| 0 <= a < m && 0 <= b < n1
            && #[trigger] cross_rows(start, n0, n1, m)[k] == cross_pair(start, n0, a, b),
    decreases m,
{
    if m > 0 {
        let prev = cross_rows(start, n0, n1, m - 1);
        let row = cross_row(start, n0, n1, m - 1);
        assert(cross_rows(start, n0, n1, m) == prev + row);
        if k < prev.len() {
            lemma_cross_rows_member(start, n0, n1, m - 1, k);
            let (a, b) = choose|a: int, b: int| 0 <= a < m - 1 && 0 <= b < n1
                && #[trigger] prev[k] == cross_pair(start, n0, a, b);
            assert(cross_rows(start, n0, n1, m)[k] == prev[k]);
        } else {
            let b = k - prev.len();
            assert(cross_rows(start, n0, n1, m)[k] == row[b]);
        }
    }
}

proof fn lemma_cross_rows_complete(start: int, n0: int, n1: int, m: int, a: int, b: int)
    requires
        0 <= a < m <= n0,
        0 <= b < n1,
    ensures
        cross_rows(start, n0, n1, m).contains(cross_pair(start, n0, a, b)),
    decreases m,
{
    let p = cross_pair(start, n0, a, b);
    let prev = cross_rows(start, n0, n1, m - 1);
    let row = cross_row(start, n0, n1, m - 1);
    assert(cross_rows(start, n0, n1, m) == prev + row);
    if a < m - 1 {
        lemma_cross_rows_complete(start, n0, n1, m - 1, a, b);
        let k = choose|k: int| 0 <= k < prev.len() && prev[k] == p;
        assert((prev + row)[k] == p);
    } else {
        assert(row[b] == p);
        assert((prev + row)[prev.len() + b] == p);
    }
}

proof fn lemma_all_cross_pairs_member(sizes: Seq<(nat, nat)>, count: int, k: int)
    requires
        total(job_totals(sizes)) <= usize::MAX,
        0 <= count <= sizes.len(),
        0 <= k < all_cross_pairs(sizes, job_starts(sizes), count).len(),
    ensures
        exists|j: int, a: int, b: int| 0 <= j < count && 0 <= a < sizes[j].0 && 0 <= b < sizes[j].1
            && #[trigger] all_cross_pairs(sizes, job_starts(sizes), count)[k] == group_pair(sizes, j, a, b),
    decreases count,
{
    let starts = job_starts(sizes);
    if count > 0 {
        let j = count - 1;
        let prev = all_cross_pairs(sizes, starts, j);
        let rows = cross_rows(starts[j] as int, sizes[j].0 as int, sizes[j].1 as int, sizes[j].0 as int);
        assert(all_cross_pairs(sizes, starts, count) == prev + rows);
        lemma_offset_monotonic(job_totals(sizes), j + 1, sizes.len() as int);
        if k < prev.len() {
            lemma_all_cross_pairs_member(sizes, j, k);
            let (j0, a, b) = choose|j0: int, a: int, b: int| 0 <= j0 < j && 0 <= a < sizes[j0].0 && 0 <= b < sizes[j0].1
                && #[trigger] prev[k] == group_pair(sizes, j0, a, b);
            assert((prev + rows)[k] == prev[k]);
        } else {
            let kk = k - prev.len();
            lemma_cross_rows_member(starts[j] as int, sizes[j].0 as int, sizes[j].1 as int, sizes[j].0 as int, kk);
            let (a, b) = choose|a: int, b: int| 0 <= a < sizes[j].0 && 0 <= b < sizes[j].1
                && #[trigger] rows[kk] == cross_pair(starts[j] as int, sizes[j].0 as int, a, b);
            assert((prev + rows)[k] == rows[kk]);
            assert(rows[kk] == group_pair(sizes, j, a, b));
        }
    }
}

proof fn lemma_all_cross_pairs_complete(sizes: Seq<(nat, nat)>, count: int, j: int, a: int, b: int)
    requires
        total(job_totals(sizes)) <= usize::MAX,
        0 <= j < count <= sizes.len(),
        0 <= a < sizes[j].0,
        0 <= b < sizes[j].1,
    ensures
        all_cross_pairs(sizes, job_starts(sizes), count).contains(group_pair(sizes, j, a, b)),
    decreases count,
{
    let starts = job_starts(sizes);
    let p = group_pair(sizes, j, a, b);
    let last = count - 1;
    let prev = all_cross_pairs(sizes, starts, last);
    let rows = cross_rows(starts[last] as int, sizes[last].0 as int, sizes[last].1 as int, sizes[last].0 as int);
    assert(all_cross_pairs(sizes, starts, count) == prev + rows);
    if j < last {
        lemma_all_cross_pairs_complete(sizes, last, j, a, b);
        let k = choose|k: int| 0 <= k < prev.len() && prev[k] == p;
        assert((prev + rows)[k] == p);
    } else {
        lemma_offset_monotonic(job_totals(sizes), j + 1, sizes.len() as int);
        lemma_cross_rows_complete(starts[j] as int, sizes[j].0 as int, sizes[j].1 as int, sizes[j].0 as int, a, b);
        let k = choose|k: int| 0 <= k < rows.len() && rows[k] == cross_pair(starts[j] as int, sizes[j].0 as int, a, b);
        assert(rows[k] == p);
        assert((prev + rows)[prev.len() + k] == p);
    }
}

/// Every pair of the index joins a shape of a job's first group with a shape of
/// the same job's second group, which `at` finds again; and every such two
/// shapes form one of its pairs.
pub proof fn lemma_index_pairs_route(sizes: Seq<(nat, nat)>, entries: Seq<(usize, usize, usize)>, pairs: Seq<TestPair>)
    requires
        total(job_totals(sizes)) <= usize::MAX,
        indexed_by(sizes, entries),
        pairs == all_cross_pairs(sizes, job_starts(sizes), sizes.len() as int),
    ensures
        forall|k: int| 0 <= k < pairs.len() ==> {
            &&& routable(entries, sizes, #[trigger] pairs[k])
            &&& locate(entries, pairs[k]).1 == 0
            &&& locate(entries, pairs[k]).3 == 1
            &&& pairs[k] == group_pair(sizes, locate(entries, pairs[k]).0 as int,
                    locate(entries, pairs[k]).2 as int, locate(entries, pairs[k]).4 as int)
        },
        forall|j: int, a: int, b: int| 0 <= j < sizes.len() && 0 <= a < sizes[j].0 && 0 <= b < sizes[j].1
            ==> pairs.contains(#[trigger] group_pair(sizes, j, a, b)),
{
    assert forall|k: int| 0 <= k < pairs.len() implies {
        &&& routable(entries, sizes, #[trigger] pairs[k])
        &&& locate(entries, pairs[k]).1 == 0
        &&& locate(entries, pairs[k]).3 == 1
        &&& pairs[k] == group_pair(sizes, locate(entries, pairs[k]).0 as int,
                locate(entries, pairs[k]).2 as int, locate(entries, pairs[k]).4 as int)
    } by {
        lemma_all_cross_pairs_member(sizes, sizes.len() as int, k);
        let (j, a, b) = choose|j: int, a: int, b: int| 0 <= j < sizes.len() && 0 <= a < sizes[j].0 && 0 <= b < sizes[j].1
            && #[trigger] pairs[k] == group_pair(sizes, j, a, b);
        lemma_group_index_bound(sizes, j, 0, a, sizes.len() as int);
        lemma_group_index_bound(sizes, j, 1, b, sizes.len() as int);
        assert(entries[group_index(sizes, j, 0, a)] == (j as usize, 0usize, a as usize));
        assert(entries[group_index(sizes, j, 1, b)] == (j as usize, 1usize, b as usize));
    }
    assert forall|j: int, a: int, b: int| 0 <= j < sizes.len() && 0 <= a < sizes[j].0 && 0 <= b < sizes[j].1 implies
        pairs.contains(#[trigger] group_pair(sizes, j, a, b)) by {
        lemma_all_cross_pairs_complete(sizes, sizes.len() as int, j, a, b);
    }
}

/// How many items land on shapes `0..n` of group `g` of job `j`.
pub open spec fn group_routed_count<H>(entries: Seq<(usize, usize, usize)>, items: Seq<(TestPair, H, H)>, j: int, g: int, n: int) -> int
    decreases n,
{
    if n <= 0 {
        0
    } else {
        group_routed_count(entries, items, j, g, n - 1) + routed(entries, items, j, g, n - 1).len()
    }
}

/// How many items land on the shapes of jobs `0..m`.
pub open spec fn routed_count<H>(entries: Seq<(usize, usize, usize)>, items: Seq<(TestPair, H, H)>, sizes: Seq<(nat, nat)>, m: int) -> int
    decreases m,
{
    if m <= 0 {
        0
    } else {
        routed_count(entries, items, sizes, m - 1)
            + group_routed_count(entries, items, m - 1, 0, sizes[m - 1].0 as int)
            + group_routed_count(entries, items, m - 1, 1, sizes[m - 1].1 as int)
    }
}

/// One if the first shape of `pair` is shape `< n` of group `g` of job `j`.
pub open spec fn lands_first(entries: Seq<(usize, usize, usize)>, pair: TestPair, j: int, g: int, n: int) -> int {
    let (job, g0, i0, g1, i1) = locate(entries, pair);
    if job == j && g0 == g && i0 < n { 1 } else { 0 }
}

/// One if the second shape of `pair` is shape `< n` of group `g` of job `j`.
pub open spec fn lands_second(entries: Seq<(usize, usize, usize)>, pair: TestPair, j: int, g: int, n: int) -> int {
    let (job, g0, i0, g1, i1) = locate(entries, pair);
    if job == j && g1 == g && i1 < n { 1 } else { 0 }
}

proof fn lemma_group_count_step<H>(entries: Seq<(usize, usize, usize)>, items: Seq<(TestPair, H, H)>, x: (TestPair, H, H), j: int, g: int, n: int)
    requires
        n >= 0,
    ensures
        group_routed_count(entries, items.push(x), j, g, n) == group_routed_count(entries, items, j, g, n)
            + lands_first(entries, x.0, j, g, n) + lands_second(entries, x.0, j, g, n),
    decreases n,
{
    if n > 0 {
        lemma_group_count_step(entries, items, x, j, g, n - 1);
        assert(items.push(x).drop_last() =~= items);
        assert(items.push(x).last() == x);
    }
}

proof fn lemma_count_step<H>(entries: Seq<(usize, usize, usize)>, items: Seq<(TestPair, H, H)>, x: (TestPair, H, H), sizes: Seq<(nat, nat)>, m: int)
    requires
        0 <= m <= sizes.len(),
    ensures
        routed_count(entries, items.push(x), sizes, m) == routed_count(entries, items, sizes, m)
            + (if locate(entries, x.0).0 < m {
                lands_first(entries, x.0, locate(entries, x.0).0 as int, 0, sizes[locate(entries, x.0).0 as int].0 as int)
                + lands_first(entries, x.0, locate(entries, x.0).0 as int, 1, sizes[locate(entries, x.0).0 as int].1 as int)
                + lands_second(entries, x.0, locate(entries, x.0).0 as int, 0, sizes[locate(entries, x.0).0 as int].0 as int)
                + lands_second(entries, x.0, locate(entries, x.0).0 as int, 1, sizes[locate(entries, x.0).0 as int].1 as int)
            } else { 0int }),
    decreases m,
{
    if m > 0 {
        lemma_count_step(entries, items, x, sizes, m - 1);
        lemma_group_count_step(entries, items, x, m - 1, 0, sizes[m - 1].0 as int);
        lemma_group_count_step(entries, items, x, m - 1, 1, sizes[m - 1].1 as int);
    }
}

proof fn lemma_count_empty<H>(entries: Seq<(usize, usize, usize)>, items: Seq<(TestPair, H, H)>, sizes: Seq<(nat, nat)>, m: int)
    requires
        items.len() == 0,
        0 <= m <= sizes.len(),
    ensures
        routed_count(entries, items, sizes, m) == 0,
    decreases m,
{
    if m > 0 {
        lemma_count_empty(entries, items, sizes, m - 1);
        lemma_group_count_empty(entries, items, m - 1, 0, sizes[m - 1].0 as int);
        lemma_group_count_empty(entries, items, m - 1, 1, sizes[m - 1].1 as int);
    }
}

proof fn lemma_group_count_empty<H>(entries: Seq<(usize, usize, usize)>, items: Seq<(TestPair, H, H)>, j: int, g: int, n: int)
    requires
        items.len() == 0,
    ensures
        group_routed_count(entries, items, j, g, n) == 0,
    decreases n,
{
    if n > 0 {
        lemma_group_count_empty(entries, items, j, g, n - 1);
    }
}

/// Routing findings to shapes loses none and copies none: when every pair can
/// be placed, the scores of all shapes hold two entries per finding.
pub proof fn lemma_routing_keeps_every_finding<H>(entries: Seq<(usize, usize, usize)>, items: Seq<(TestPair, H, H)>, sizes: Seq<(nat, nat)>)
    requires
        forall|k: int| 0 <= k < items.len() ==> routable(entries, sizes, #[trigger] items[k].0),
    ensures
        routed_count(entries, items, sizes, sizes.len() as int) == 2 * items.len(),
    decreases items.len(),
{
    if items.len() == 0 {
        lemma_count_empty(entries, items, sizes, sizes.len() as int);
    } else {
        let rest = items.drop_last();
        let x = items.last();
        assert forall|k: int| 0 <= k < rest.len() implies routable(entries, sizes, #[trigger] rest[k].0) by {
            assert(rest[k] == items[k]);
        }
        lemma_routing_keeps_every_finding(entries, rest, sizes);
        assert(routable(entries, sizes, items[items.len() - 1].0));
        lemma_count_step(entries, rest, x, sizes, sizes.len() as int);
        assert(rest.push(x) =~= items);
    }
}

/// Item `h` on shape `i` of group `g` of job `j` comes from `item`: the
/// shape is the item's first shape and `h` its first value, or the shape is
/// its second shape and `h` its second value.
pub open spec fn from_item<H>(entries: Seq<(usize, usize, usize)>, item: (TestPair, H, H), j: int, g: int, i: int, h: H) -> bool {
    let (job, g0, i0, g1, i1) = locate(entries, item.0);
    ||| job == j && g0 == g && i0 == i && h == item.1
    ||| job == j && g1 == g && i1 == i && h == item.2
}

/// Everything routed to a shape is what a finding of one of its own pairs
/// reported for that very shape.
pub proof fn lemma_routed_from_own_pairs<H>(entries: Seq<(usize, usize, usize)>, items: Seq<(TestPair, H, H)>, j: int, g: int, i: int)
    ensures
        forall|t: int| #![trigger routed(entries, items, j, g, i)[t]]
            0 <= t < routed(entries, items, j, g, i).len() ==> exists|k: int| 0 <= k < items.len()
            && from_item(entries, #[trigger] items[k], j, g, i, routed(entries, items, j, g, i)[t]),
    decreases items.len(),
{
    if items.len() > 0 {
        let rest = items.drop_last();
        lemma_routed_from_own_pairs(entries, rest, j, g, i);
        let prev = routed(entries, rest, j, g, i);
        let all = routed(entries, items, j, g, i);
        let last = items.len() - 1;
        assert(items[last] == items.last());
        assert forall|t: int| #![trigger all[t]] 0 <= t < all.len() implies exists|k: int| 0 <= k < items.len()
            && from_item(entries, #[trigger] items[k], j, g, i, all[t]) by {
            if t < prev.len() {
                let k = choose|k: int| 0 <= k < rest.len() && from_item(entries, #[trigger] rest[k], j, g, i, prev[t]);
                assert(rest[k] == items[k]);
                assert(all[t] == prev[t]);
                assert(from_item(entries, items[k], j, g, i, all[t]));
            } else {
                assert(from_item(entries, items[last], j, g, i, all[t]));
            }
        }
    }
}

} // verus!
