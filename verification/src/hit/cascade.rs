use vstd::prelude::*;
use super::{TestPair, Score, reversed, offset, total, sizes_of, lemma_offset_monotonic};

verus! {

/// For each job, the lengths of its groups.
pub open spec fn nested_sizes<T>(jobs: Seq<Vec<Vec<T>>>) -> Seq<Seq<nat>> {
    Seq::new(jobs.len(), |j: int| sizes_of(jobs[j]@))
}

/// For each job, the number of its groups.
pub open spec fn group_counts(sizes: Seq<Seq<nat>>) -> Seq<nat> {
    Seq::new(sizes.len(), |j: int| sizes[j].len())
}

/// For each job, the number of its shapes.
pub open spec fn job_items(sizes: Seq<Seq<nat>>) -> Seq<nat> {
    Seq::new(sizes.len(), |j: int| total(sizes[j]))
}

/// Position in the flattened list of shape `i` of group `g` of job `j`.
pub open spec fn position(sizes: Seq<Seq<nat>>, j: int, g: int, i: int) -> int {
    offset(job_items(sizes), j) + offset(sizes[j], g) + i
}

/// For each job, the number of groups of the jobs before it.
pub open spec fn first_starts(sizes: Seq<Seq<nat>>) -> Seq<usize> {
    Seq::new(sizes.len(), |j: int| offset(group_counts(sizes), j) as usize)
}

/// For each group of each of the first `j` jobs, job after job, where the
/// group begins within its job.
pub open spec fn second_starts(sizes: Seq<Seq<nat>>, j: int) -> Seq<usize>
    decreases j,
{
    if j <= 0 {
        seq![]
    } else {
        second_starts(sizes, j - 1) + Seq::new(sizes[j - 1].len(), |g: int| offset(sizes[j - 1], g) as usize)
    }
}

/// `entry` says that position `k` is shape `entry.2` of group `entry.1` of job `entry.0`.
pub open spec fn locates(sizes: Seq<Seq<nat>>, entry: (usize, usize, usize), k: int) -> bool {
    &&& entry.0 < sizes.len()
    &&& entry.1 < sizes[entry.0 as int].len()
    &&& entry.2 < sizes[entry.0 as int][entry.1 as int]
    &&& position(sizes, entry.0 as int, entry.1 as int, entry.2 as int) == k
}

/// `entries` gives, for each position of the flattened list, its job, group and place.
pub open spec fn indexed_by(sizes: Seq<Seq<nat>>, entries: Seq<(usize, usize, usize)>) -> bool {
    &&& entries.len() == total(job_items(sizes))
    &&& forall|j: int, g: int, i: int| 0 <= j < sizes.len() && 0 <= g < sizes[j].len() && 0 <= i < sizes[j][g]
        ==> #[trigger] entries[position(sizes, j, g, i)] == (j as usize, g as usize, i as usize)
    &&& forall|k: int| 0 <= k < entries.len() ==> locates(sizes, #[trigger] entries[k], k)
}

proof fn lemma_second_starts_len(sizes: Seq<Seq<nat>>, j: int)
    requires
        0 <= j <= sizes.len(),
    ensures
        second_starts(sizes, j).len() == offset(group_counts(sizes), j),
    decreases j,
{
    if j > 0 {
        lemma_second_starts_len(sizes, j - 1);
    }
}

/// Group `g` of job `j` sits at slot `offset(group_counts, j) + g` of the second starts.
pub proof fn lemma_second_starts_slot(sizes: Seq<Seq<nat>>, m: int, j: int, g: int)
    requires
        0 <= j < m <= sizes.len(),
        0 <= g < sizes[j].len(),
    ensures
        second_starts(sizes, m)[offset(group_counts(sizes), j) + g] == offset(sizes[j], g) as usize,
    decreases m,
{
    lemma_second_starts_len(sizes, m - 1);
    let prev = second_starts(sizes, m - 1);
    let last = Seq::new(sizes[m - 1].len(), |g2: int| offset(sizes[m - 1], g2) as usize);
    assert(second_starts(sizes, m) == prev + last);
    if j < m - 1 {
        lemma_second_starts_slot(sizes, m - 1, j, g);
        lemma_offset_monotonic(group_counts(sizes), j + 1, m - 1);
    }
}

proof fn lemma_position_bound(sizes: Seq<Seq<nat>>, j: int, g: int, i: int, k: int)
    requires
        0 <= j < k <= sizes.len(),
        0 <= g < sizes[j].len(),
        0 <= i < sizes[j][g],
    ensures
        position(sizes, j, g, i) < offset(job_items(sizes), k),
{
    lemma_offset_monotonic(sizes[j], g + 1, sizes[j].len() as int);
    lemma_offset_monotonic(job_items(sizes), j + 1, k);
}

/// For each shape of the flattened list its job, group and place in the group;
/// for each job, the number of groups before it; and for each group of each
/// job, where it begins within its job.
pub fn indices_and_starts<T>(jobs: &Vec<Vec<Vec<T>>>) -> (res: (Vec<(usize, usize, usize)>, [Vec<usize>; 2]))
    requires
        total(group_counts(nested_sizes(jobs@))) <= usize::MAX,
        total(job_items(nested_sizes(jobs@))) <= usize::MAX,
    ensures
        res.1@[0]@ == first_starts(nested_sizes(jobs@)),
        res.1@[1]@ == second_starts(nested_sizes(jobs@), jobs@.len() as int),
        indexed_by(nested_sizes(jobs@), res.0@),
{
    let ghost sizes = nested_sizes(jobs@);
    let ghost counts = group_counts(sizes);
    let ghost items = job_items(sizes);
    let mut starts0: Vec<usize> = Vec::new();
    let mut starts1: Vec<usize> = Vec::new();
    let mut indices: Vec<(usize, usize, usize)> = Vec::new();
    let mut job_start: usize = 0;
    let mut ji: usize = 0;
    while ji < jobs.len()
        invariant
            sizes == nested_sizes(jobs@),
            counts == group_counts(sizes),
            items == job_items(sizes),
            total(counts) <= usize::MAX,
            total(items) <= usize::MAX,
            0 <= ji <= jobs@.len(),
            job_start == offset(counts, ji as int),
            starts0@.len() == ji,
            forall|j: int| 0 <= j < ji ==> #[trigger] starts0@[j] == offset(counts, j) as usize,
            starts1@ == second_starts(sizes, ji as int),
            indices@.len() == offset(items, ji as int),
            forall|j: int, g: int, i: int| 0 <= j < ji && 0 <= g < sizes[j].len() && 0 <= i < sizes[j][g]
                ==> #[trigger] indices@[position(sizes, j, g, i)] == (j as usize, g as usize, i as usize),
            forall|k: int| 0 <= k < indices@.len() ==> locates(sizes, #[trigger] indices@[k], k),
        decreases jobs@.len() - ji,
    {
        starts0.push(job_start);
        let ng = jobs[ji].len();
        proof {
            lemma_offset_monotonic(counts, ji + 1, counts.len() as int);
            lemma_offset_monotonic(items, ji + 1, items.len() as int);
        }
        job_start = job_start + ng;
        let ghost prefix1 = starts1@;
        let ghost base = indices@.len() as int;
        let mut group_start: usize = 0;
        let mut gi: usize = 0;
        while gi < ng
            invariant
                sizes == nested_sizes(jobs@),
                items == job_items(sizes),
                0 <= ji < jobs@.len(),
                ng == sizes[ji as int].len(),
                base == offset(items, ji as int),
                base + items[ji as int] <= usize::MAX,
                0 <= gi <= ng,
                group_start == offset(sizes[ji as int], gi as int),
                starts1@ == prefix1 + Seq::new(gi as nat, |g: int| offset(sizes[ji as int], g) as usize),
                indices@.len() == base + group_start,
                forall|j: int, g: int, i: int| 0 <= j < ji && 0 <= g < sizes[j].len() && 0 <= i < sizes[j][g]
                    ==> #[trigger] indices@[position(sizes, j, g, i)] == (j as usize, g as usize, i as usize),
                forall|g: int, i: int| 0 <= g < gi && 0 <= i < sizes[ji as int][g]
                    ==> #[trigger] indices@[position(sizes, ji as int, g, i)] == (ji, g as usize, i as usize),
                forall|k: int| 0 <= k < indices@.len() ==> locates(sizes, #[trigger] indices@[k], k),
            decreases ng - gi,
        {
            starts1.push(group_start);
            let n = jobs[ji][gi].len();
            proof {
                lemma_offset_monotonic(sizes[ji as int], gi + 1, sizes[ji as int].len() as int);
                assert(starts1@ =~= prefix1 + Seq::new(gi as nat + 1, |g: int| offset(sizes[ji as int], g) as usize));
            }
            let mut i: usize = 0;
            while i < n
                invariant
                    sizes == nested_sizes(jobs@),
                    items == job_items(sizes),
                    0 <= ji < jobs@.len(),
                    0 <= gi < sizes[ji as int].len(),
                    n == sizes[ji as int][gi as int],
                    base == offset(items, ji as int),
                    group_start == offset(sizes[ji as int], gi as int),
                    base + group_start + n <= usize::MAX,
                    0 <= i <= n,
                    indices@.len() == base + group_start + i,
                    forall|j: int, g: int, i2: int| 0 <= j < ji && 0 <= g < sizes[j].len() && 0 <= i2 < sizes[j][g]
                        ==> #[trigger] indices@[position(sizes, j, g, i2)] == (j as usize, g as usize, i2 as usize),
                    forall|g: int, i2: int| 0 <= g < gi && 0 <= i2 < sizes[ji as int][g]
                        ==> #[trigger] indices@[position(sizes, ji as int, g, i2)] == (ji, g as usize, i2 as usize),
                    forall|i2: int| 0 <= i2 < i
                        ==> #[trigger] indices@[position(sizes, ji as int, gi as int, i2)] == (ji, gi, i2 as usize),
                    forall|k: int| 0 <= k < indices@.len() ==> locates(sizes, #[trigger] indices@[k], k),
                decreases n - i,
            {
                proof {
                    assert forall|j: int, g: int, i2: int| 0 <= j < ji && 0 <= g < sizes[j].len() && 0 <= i2 < sizes[j][g] implies
                        position(sizes, j, g, i2) < base by {
                        lemma_position_bound(sizes, j, g, i2, ji as int);
                    }
                    assert forall|g: int, i2: int| 0 <= g < gi && 0 <= i2 < sizes[ji as int][g] implies
                        position(sizes, ji as int, g, i2) < base + group_start by {
                        lemma_offset_monotonic(sizes[ji as int], g + 1, gi as int);
                    }
                }
                indices.push((ji, gi, i));
                i = i + 1;
            }
            group_start = group_start + n;
            gi = gi + 1;
        }
        proof {
            assert(starts1@ =~= second_starts(sizes, ji + 1));
        }
        ji = ji + 1;
    }
    assert(starts0@ =~= first_starts(sizes));
    (indices, [starts0, starts1])
}

} // verus!

verus! {

/// Shape `c0` of a group that begins at `b0` paired with shape `c1` of a group that begins at `b1`.
pub open spec fn cascade_pair(b0: int, b1: int, c0: int, c1: int) -> TestPair {
    TestPair { i0: (b0 + c0) as usize, i1: (b1 + c1) as usize, reverse: true }
}

/// Shape `c0` of the first group paired with each of the `n1` shapes of the second.
pub open spec fn block_row(b0: int, b1: int, n1: int, c0: int) -> Seq<TestPair> {
    Seq::new(if n1 > 0 { n1 as nat } else { 0 }, |c1: int| cascade_pair(b0, b1, c0, c1))
}

/// The rows of `block_row` for `c0` in `0..m`.
pub open spec fn block(b0: int, b1: int, n1: int, m: int) -> Seq<TestPair>
    decreases m,
{
    if m <= 0 {
        seq![]
    } else {
        block(b0, b1, n1, m - 1) + block_row(b0, b1, n1, m - 1)
    }
}

/// The blocks of groups `g0` in `0..m` against group `g1`, for a job whose
/// group starts are read at `base + s1[g]`.
pub open spec fn blocks_before(base: int, s1: Seq<usize>, sizes: Seq<nat>, g1: int, m: int) -> Seq<TestPair>
    decreases m,
{
    if m <= 0 {
        seq![]
    } else {
        blocks_before(base, s1, sizes, g1, m - 1)
            + block(base + s1[m - 1], base + s1[g1], sizes[g1] as int, sizes[m - 1] as int)
    }
}

/// The blocks of every group `g0` against every later group `g1 < m`.
pub open spec fn job_blocks(base: int, s1: Seq<usize>, sizes: Seq<nat>, m: int) -> Seq<TestPair>
    decreases m,
{
    if m <= 0 {
        seq![]
    } else {
        job_blocks(base, s1, sizes, m - 1) + blocks_before(base, s1, sizes, m - 1, m - 1)
    }
}

/// The pairs of the first `j` jobs, job after job.
pub open spec fn all_cascade_pairs(sizes: Seq<Seq<nat>>, s0: Seq<usize>, s1: Seq<usize>, j: int) -> Seq<TestPair>
    decreases j,
{
    if j <= 0 {
        seq![]
    } else {
        all_cascade_pairs(sizes, s0, s1, j - 1) + job_blocks(s0[j - 1] as int, s1, sizes[j - 1], sizes[j - 1].len() as int)
    }
}

/// The starts that each two nonempty groups of a job read are there, and the
/// positions computed from them fit in a `usize`.
pub open spec fn starts_cover(sizes: Seq<Seq<nat>>, s0: Seq<usize>, s1: Seq<usize>) -> bool {
    forall|j: int, g0: int, g1: int|
        #![trigger sizes[j][g0], sizes[j][g1]]
        0 <= j < sizes.len() && 0 <= g0 < g1 < sizes[j].len() && sizes[j][g0] > 0 && sizes[j][g1] > 0
            ==> j < s0.len() && g1 < s1.len()
                && s0[j] + s1[g0] + sizes[j][g0] <= usize::MAX + 1
                && s0[j] + s1[g1] + sizes[j][g1] <= usize::MAX + 1
}

/// Each shape of each group of a job paired with each shape of every later
/// group of the same job.
pub fn pairs<T>(jobs: &Vec<Vec<Vec<T>>>, starts: &[Vec<usize>; 2]) -> (pairs: Vec<TestPair>)
    requires
        starts_cover(nested_sizes(jobs@), starts@[0]@, starts@[1]@),
    ensures
        pairs@ == all_cascade_pairs(nested_sizes(jobs@), starts@[0]@, starts@[1]@, jobs@.len() as int),
{
    let ghost sizes = nested_sizes(jobs@);
    let ghost s0 = starts@[0]@;
    let ghost s1 = starts@[1]@;
    let mut pairs: Vec<TestPair> = Vec::new();
    let mut ji: usize = 0;
    while ji < jobs.len()
        invariant
            sizes == nested_sizes(jobs@),
            s0 == starts@[0]@,
            s1 == starts@[1]@,
            starts_cover(sizes, s0, s1),
            0 <= ji <= jobs@.len(),
            pairs@ == all_cascade_pairs(sizes, s0, s1, ji as int),
        decreases jobs@.len() - ji,
    {
        let ng = jobs[ji].len();
        let ghost base = s0[ji as int] as int;
        let ghost before_job = pairs@;
        let ghost js = sizes[ji as int];
        proof {
            assert(job_blocks(base, s1, js, 0) == Seq::<TestPair>::empty());
            assert(blocks_before(base, s1, js, 0, 0) == Seq::<TestPair>::empty());
            assert(job_blocks(base, s1, js, 1) =~= seq![]);
            assert(pairs@ =~= before_job + job_blocks(base, s1, js, 1));
        }
        let mut g1: usize = 1;
        while g1 < ng
            invariant
                sizes == nested_sizes(jobs@),
                s0 == starts@[0]@,
                s1 == starts@[1]@,
                starts_cover(sizes, s0, s1),
                0 <= ji < jobs@.len(),
                js == sizes[ji as int],
                ng == js.len(),
                base == s0[ji as int] as int,
                1 <= g1,
                g1 <= ng || (ng == 0 && g1 == 1),
                pairs@ == before_job + job_blocks(base, s1, js, g1 as int),
            decreases ng - g1,
        {
            let ghost before_g1 = pairs@;
            let mut g0: usize = 0;
            while g0 < g1
                invariant
                    sizes == nested_sizes(jobs@),
                    s0 == starts@[0]@,
                    s1 == starts@[1]@,
                    starts_cover(sizes, s0, s1),
                    0 <= ji < jobs@.len(),
                    js == sizes[ji as int],
                    ng == js.len(),
                    base == s0[ji as int] as int,
                    1 <= g1 < ng,
                    0 <= g0 <= g1,
                    pairs@ == before_g1 + blocks_before(base, s1, js, g1 as int, g0 as int),
                decreases g1 - g0,
            {
                let n0 = jobs[ji][g0].len();
                let n1 = jobs[ji][g1].len();
                let ghost b0 = base + s1[g0 as int];
                let ghost b1 = base + s1[g1 as int];
                let ghost before_block = pairs@;
                let mut c0: usize = 0;
                while c0 < n0
                    invariant
                        sizes == nested_sizes(jobs@),
                        s0 == starts@[0]@,
                        s1 == starts@[1]@,
                        starts_cover(sizes, s0, s1),
                        0 <= ji < jobs@.len(),
                        js == sizes[ji as int],
                        ng == js.len(),
                        base == s0[ji as int] as int,
                        0 <= g0 < g1 < ng,
                        n0 == js[g0 as int],
                        n1 == js[g1 as int],
                        b0 == base + s1[g0 as int],
                        b1 == base + s1[g1 as int],
                        0 <= c0 <= n0,
                        pairs@ == before_block + block(b0, b1, n1 as int, c0 as int),
                    decreases n0 - c0,
                {
                    let ghost before_row = pairs@;
                    let mut c1: usize = 0;
                    while c1 < n1
                        invariant
                            sizes == nested_sizes(jobs@),
                            s0 == starts@[0]@,
                            s1 == starts@[1]@,
                            starts_cover(sizes, s0, s1),
                            0 <= ji < jobs@.len(),
                            js == sizes[ji as int],
                            ng == js.len(),
                            base == s0[ji as int] as int,
                            0 <= g0 < g1 < ng,
                            n0 == js[g0 as int],
                            n1 == js[g1 as int],
                            b0 == base + s1[g0 as int],
                            b1 == base + s1[g1 as int],
                            0 <= c0 < n0,
                            0 <= c1 <= n1,
                            before_row == before_block + block(b0, b1, n1 as int, c0 as int),
                            pairs@ == before_row + block_row(b0, b1, n1 as int, c0 as int).take(c1 as int),
                        decreases n1 - c1,
                    {
                        assert(sizes[ji as int][g0 as int] > 0 && sizes[ji as int][g1 as int] > 0);
                        let p = TestPair {
                            i0: starts[0][ji] + starts[1][g0] + c0,
                            i1: starts[0][ji] + starts[1][g1] + c1,
                            reverse: true,
                        };
                        assert(block_row(b0, b1, n1 as int, c0 as int).take(c1 + 1) =~=
                            block_row(b0, b1, n1 as int, c0 as int).take(c1 as int).push(p));
                        pairs.push(p);
                        c1 = c1 + 1;
                    }
                    assert(block_row(b0, b1, n1 as int, c0 as int).take(n1 as int) =~= block_row(b0, b1, n1 as int, c0 as int));
                    c0 = c0 + 1;
                }
                g0 = g0 + 1;
            }
            g1 = g1 + 1;
        }
        proof {
            if ng == 0 {
                assert(job_blocks(base, s1, js, 0) =~= seq![]);
                assert(pairs@ =~= before_job + job_blocks(base, s1, js, 0));
            }
            assert(all_cascade_pairs(sizes, s0, s1, ji + 1) == before_job + job_blocks(base, s1, js, ng as int));
        }
        ji = ji + 1;
    }
    pairs
}

} // verus!

verus! {

/// The pairs to test, and for each shape of the flattened list its job, group
/// and place in the group.
pub struct Index {
    pub pairs: Vec<TestPair>,
    indices: Vec<(usize, usize, usize)>,
}

/// A pair whose two shapes `at` can place in the score lists of `sizes`.
pub open spec fn routable(entries: Seq<(usize, usize, usize)>, sizes: Seq<Seq<nat>>, pair: TestPair) -> bool {
    &&& pair.i0 < entries.len()
    &&& pair.i1 < entries.len()
    &&& entries[pair.i1 as int].0 < sizes.len()
    &&& entries[pair.i0 as int].1 < sizes[entries[pair.i1 as int].0 as int].len()
    &&& entries[pair.i1 as int].1 < sizes[entries[pair.i1 as int].0 as int].len()
    &&& entries[pair.i0 as int].2 < sizes[entries[pair.i1 as int].0 as int][entries[pair.i0 as int].1 as int]
    &&& entries[pair.i1 as int].2 < sizes[entries[pair.i1 as int].0 as int][entries[pair.i1 as int].1 as int]
}

/// The job of the second shape, then group and place of each shape.
pub open spec fn locate(entries: Seq<(usize, usize, usize)>, pair: TestPair) -> (usize, usize, usize, usize, usize) {
    (entries[pair.i1 as int].0, entries[pair.i0 as int].1, entries[pair.i0 as int].2,
        entries[pair.i1 as int].1, entries[pair.i1 as int].2)
}

/// The hits that land on shape `i` of group `g` of job `j`, each with the group
/// and place of the other shape of its pair, when each triple `(pair, a, b)`
/// sends `a` to its first shape and `b` to its second, in order.
pub open spec fn routed_hits<H>(entries: Seq<(usize, usize, usize)>, items: Seq<(TestPair, H, H)>, j: int, g: int, i: int)
    -> Seq<(H, (usize, usize))>
    decreases items.len(),
{
    if items.len() == 0 {
        seq![]
    } else {
        let prev = routed_hits(entries, items.drop_last(), j, g, i);
        let (pair, a, b) = items.last();
        let (job, g0, i0, g1, i1) = locate(entries, pair);
        let with_a = if job == j && g0 == g && i0 == i { prev.push((a, (g1, i1))) } else { prev };
        if job == j && g1 == g && i1 == i { with_a.push((b, (g0, i0))) } else { with_a }
    }
}

/// The misses that land on shape `i` of group `g` of job `j`.
pub open spec fn routed_outs<O>(entries: Seq<(usize, usize, usize)>, items: Seq<(TestPair, O, O)>, j: int, g: int, i: int) -> Seq<O>
    decreases items.len(),
{
    if items.len() == 0 {
        seq![]
    } else {
        let prev = routed_outs(entries, items.drop_last(), j, g, i);
        let (pair, a, b) = items.last();
        let (job, g0, i0, g1, i1) = locate(entries, pair);
        let with_a = if job == j && g0 == g && i0 == i { prev.push(a) } else { prev };
        if job == j && g1 == g && i1 == i { with_a.push(b) } else { with_a }
    }
}

impl Index {
    /// For each position of the flattened shape list, its job, group and place.
    pub closed spec fn entries(&self) -> Seq<(usize, usize, usize)> {
        self.indices@
    }

    /// The pairs to test.
    pub closed spec fn test_pairs(&self) -> Seq<TestPair> {
        self.pairs@
    }

    /// The index of a list of jobs of groups: the job, group and place of each
    /// shape, and each shape of a group paired with each shape of every later
    /// group of its job.
    pub fn new<T>(jobs: &Vec<Vec<Vec<T>>>) -> (index: Index)
        requires
            total(group_counts(nested_sizes(jobs@))) <= usize::MAX,
            total(job_items(nested_sizes(jobs@))) <= usize::MAX,
            starts_cover(nested_sizes(jobs@), first_starts(nested_sizes(jobs@)),
                second_starts(nested_sizes(jobs@), jobs@.len() as int)),
        ensures
            indexed_by(nested_sizes(jobs@), index.entries()),
            index.test_pairs() == all_cascade_pairs(nested_sizes(jobs@), first_starts(nested_sizes(jobs@)),
                second_starts(nested_sizes(jobs@), jobs@.len() as int), jobs@.len() as int),
    {
        let (indices, starts) = indices_and_starts(jobs);
        let pairs = pairs(jobs, &starts);
        Index { pairs, indices }
    }

    /// The job of the pair's second shape, then the group and place of each of its shapes.
    pub fn at(&self, pair: &TestPair) -> (res: (usize, usize, usize, usize, usize))
        requires
            pair.i0 < self.entries().len(),
            pair.i1 < self.entries().len(),
        ensures
            res == locate(self.entries(), *pair),
    {
        let (_, g0, i0) = self.indices[pair.i0];
        let (ji, g1, i1) = self.indices[pair.i1];
        (ji, g0, i0, g1, i1)
    }

    /// Sorts the tester's findings into one score per shape: each hit pair gives
    /// its first hit, marked with the group and place of its second shape, to
    /// its first shape, and its second hit, marked likewise, to its second
    /// shape; each miss pair gives its two misses the same way, unmarked.
    pub fn scores<T, H, O>(&self, jobs: &Vec<Vec<Vec<T>>>, hit_pairs: Vec<(TestPair, H, H)>, out_pairs: Vec<(TestPair, O, O)>)
        -> (scores: Vec<Vec<Vec<Score<(H, (usize, usize)), O>>>>)
        requires
            forall|k: int| 0 <= k < hit_pairs@.len() ==> routable(self.entries(), nested_sizes(jobs@), #[trigger] hit_pairs@[k].0),
            forall|k: int| 0 <= k < out_pairs@.len() ==> routable(self.entries(), nested_sizes(jobs@), #[trigger] out_pairs@[k].0),
        ensures
            scores@.len() == jobs@.len(),
            forall|j: int| 0 <= j < jobs@.len() ==> (#[trigger] scores@[j])@.len() == jobs@[j]@.len(),
            forall|j: int, g: int| 0 <= j < jobs@.len() && 0 <= g < jobs@[j]@.len()
                ==> (#[trigger] scores@[j]@[g])@.len() == jobs@[j]@[g]@.len(),
            forall|j: int, g: int, i: int| 0 <= j < jobs@.len() && 0 <= g < jobs@[j]@.len() && 0 <= i < jobs@[j]@[g]@.len()
                ==> (#[trigger] scores@[j]@[g]@[i]).hits@ == routed_hits(self.entries(), hit_pairs@, j, g, i)
                    && scores@[j]@[g]@[i].outs@ == routed_outs(self.entries(), out_pairs@, j, g, i),
            forall|j: int, g: int, i: int, t: int|
                0 <= j < jobs@.len() && 0 <= g < jobs@[j]@.len() && 0 <= i < jobs@[j]@[g]@.len()
                && 0 <= t < scores@[j]@[g]@[i].hits@.len()
                ==> exists|k: int| 0 <= k < hit_pairs@.len() && from_partner(self.entries(), #[trigger] hit_pairs@[k], j, g, i,
                    (#[trigger] scores@[j]@[g]@[i].hits@[t]).0, scores@[j]@[g]@[i].hits@[t].1),
    {
        let ghost sizes = nested_sizes(jobs@);
        let ghost entries = self.entries();
        let mut scores: Vec<Vec<Vec<Score<(H, (usize, usize)), O>>>> = Vec::new();
        let mut ji: usize = 0;
        while ji < jobs.len()
            invariant
                sizes == nested_sizes(jobs@),
                0 <= ji <= jobs@.len(),
                scores@.len() == ji,
                forall|j: int| 0 <= j < ji ==> (#[trigger] scores@[j])@.len() == sizes[j].len(),
                forall|j: int, g: int| 0 <= j < ji && 0 <= g < sizes[j].len() ==> (#[trigger] scores@[j]@[g])@.len() == sizes[j][g],
                forall|j: int, g: int, i: int| 0 <= j < ji && 0 <= g < sizes[j].len() && 0 <= i < sizes[j][g]
                    ==> (#[trigger] scores@[j]@[g]@[i]).hits@.len() == 0 && scores@[j]@[g]@[i].outs@.len() == 0,
            decreases jobs@.len() - ji,
        {
            let mut groups: Vec<Vec<Score<(H, (usize, usize)), O>>> = Vec::new();
            let mut gi: usize = 0;
            while gi < jobs[ji].len()
                invariant
                    sizes == nested_sizes(jobs@),
                    0 <= ji < jobs@.len(),
                    0 <= gi <= sizes[ji as int].len(),
                    groups@.len() == gi,
                    forall|g: int| 0 <= g < gi ==> (#[trigger] groups@[g])@.len() == sizes[ji as int][g],
                    forall|g: int, i: int| 0 <= g < gi && 0 <= i < sizes[ji as int][g]
                        ==> (#[trigger] groups@[g]@[i]).hits@.len() == 0 && groups@[g]@[i].outs@.len() == 0,
                decreases sizes[ji as int].len() - gi,
            {
                let n = jobs[ji][gi].len();
                let mut row: Vec<Score<(H, (usize, usize)), O>> = Vec::new();
                let mut i: usize = 0;
                while i < n
                    invariant
                        0 <= i <= n,
                        row@.len() == i,
                        forall|i2: int| 0 <= i2 < i ==> (#[trigger] row@[i2]).hits@.len() == 0 && row@[i2].outs@.len() == 0,
                    decreases n - i,
                {
                    row.push(Score { hits: Vec::new(), outs: Vec::new() });
                    i = i + 1;
                }
                groups.push(row);
                gi = gi + 1;
            }
            scores.push(groups);
            ji = ji + 1;
        }
        let ghost all_hits = hit_pairs@;
        let ghost all_outs = out_pairs@;
        proof {
            assert forall|j: int, g: int, i: int| 0 <= j < sizes.len() && 0 <= g < sizes[j].len() && 0 <= i < sizes[j][g] implies
                (#[trigger] scores@[j]@[g]@[i]).hits@ == routed_hits(entries, all_hits.take(0), j, g, i)
                && scores@[j]@[g]@[i].outs@ == routed_outs(entries, all_outs.take(0), j, g, i) by {
                assert(scores@[j]@[g]@[i].hits@ =~= seq![]);
                assert(scores@[j]@[g]@[i].outs@ =~= seq![]);
            }
        }
        let mut pending_hits = reversed(hit_pairs);
        assert(all_hits.subrange(0, all_hits.len() as int) =~= all_hits);
        while pending_hits.len() > 0
            invariant
                sizes == nested_sizes(jobs@),
                entries == self.entries(),
                scores@.len() == sizes.len(),
                forall|j: int| 0 <= j < sizes.len() ==> (#[trigger] scores@[j])@.len() == sizes[j].len(),
                forall|j: int, g: int| 0 <= j < sizes.len() && 0 <= g < sizes[j].len() ==> (#[trigger] scores@[j]@[g])@.len() == sizes[j][g],
                forall|k: int| 0 <= k < all_hits.len() ==> routable(entries, sizes, #[trigger] all_hits[k].0),
                pending_hits@.len() <= all_hits.len(),
                pending_hits@ == all_hits.subrange(all_hits.len() - pending_hits@.len(), all_hits.len() as int).reverse(),
                forall|j: int, g: int, i: int| 0 <= j < sizes.len() && 0 <= g < sizes[j].len() && 0 <= i < sizes[j][g]
                    ==> (#[trigger] scores@[j]@[g]@[i]).hits@ == routed_hits(entries, all_hits.take(all_hits.len() - pending_hits@.len()), j, g, i)
                        && scores@[j]@[g]@[i].outs@ == routed_outs(entries, all_outs.take(0), j, g, i),
            decreases pending_hits@.len(),
        {
            let ghost done = all_hits.len() - pending_hits@.len();
            let ghost old_scores = scores@;
            let (pair, a, b) = pending_hits.pop().unwrap();
            proof {
                let s = all_hits.subrange(done, all_hits.len() as int);
                assert(s.reverse()[s.len() - 1] == s[0]);
                assert(all_hits.take(done + 1).drop_last() =~= all_hits.take(done));
                assert(pending_hits@ =~= all_hits.subrange(all_hits.len() - pending_hits@.len(), all_hits.len() as int).reverse());
                assert(routable(entries, sizes, all_hits[done].0));
            }
            let (ji, g0, i0, g1, i1) = self.at(&pair);
            scores[ji][g0][i0].hits.push((a, (g1, i1)));
            scores[ji][g1][i1].hits.push((b, (g0, i0)));
            proof {
                assert forall|j: int, g: int, i: int| 0 <= j < sizes.len() && 0 <= g < sizes[j].len() && 0 <= i < sizes[j][g] implies
                    (#[trigger] scores@[j]@[g]@[i]).hits@ == routed_hits(entries, all_hits.take(done + 1), j, g, i)
                    && scores@[j]@[g]@[i].outs@ == routed_outs(entries, all_outs.take(0), j, g, i) by {
                    assert(old_scores[j]@[g]@[i].hits@ == routed_hits(entries, all_hits.take(done), j, g, i));
                }
            }
        }
        assert(all_hits.take(all_hits.len() as int) =~= all_hits);
        let mut pending_outs = reversed(out_pairs);
        assert(all_outs.subrange(0, all_outs.len() as int) =~= all_outs);
        while pending_outs.len() > 0
            invariant
                sizes == nested_sizes(jobs@),
                entries == self.entries(),
                scores@.len() == sizes.len(),
                forall|j: int| 0 <= j < sizes.len() ==> (#[trigger] scores@[j])@.len() == sizes[j].len(),
                forall|j: int, g: int| 0 <= j < sizes.len() && 0 <= g < sizes[j].len() ==> (#[trigger] scores@[j]@[g])@.len() == sizes[j][g],
                forall|k: int| 0 <= k < all_outs.len() ==> routable(entries, sizes, #[trigger] all_outs[k].0),
                pending_outs@.len() <= all_outs.len(),
                pending_outs@ == all_outs.subrange(all_outs.len() - pending_outs@.len(), all_outs.len() as int).reverse(),
                forall|j: int, g: int, i: int| 0 <= j < sizes.len() && 0 <= g < sizes[j].len() && 0 <= i < sizes[j][g]
                    ==> scores@[j]@[g]@[i].hits@ == routed_hits(entries, all_hits, j, g, i)
                        && (#[trigger] scores@[j]@[g]@[i]).outs@ == routed_outs(entries, all_outs.take(all_outs.len() - pending_outs@.len()), j, g, i),
            decreases pending_outs@.len(),
        {
            let ghost done = all_outs.len() - pending_outs@.len();
            let ghost old_scores = scores@;
            let (pair, a, b) = pending_outs.pop().unwrap();
            proof {
                let s = all_outs.subrange(done, all_outs.len() as int);
                assert(s.reverse()[s.len() - 1] == s[0]);
                assert(all_outs.take(done + 1).drop_last() =~= all_outs.take(done));
                assert(pending_outs@ =~= all_outs.subrange(all_outs.len() - pending_outs@.len(), all_outs.len() as int).reverse());
                assert(routable(entries, sizes, all_outs[done].0));
            }
            let (ji, g0, i0, g1, i1) = self.at(&pair);
            scores[ji][g0][i0].outs.push(a);
            scores[ji][g1][i1].outs.push(b);
            proof {
                assert forall|j: int, g: int, i: int| 0 <= j < sizes.len() && 0 <= g < sizes[j].len() && 0 <= i < sizes[j][g] implies
                    scores@[j]@[g]@[i].hits@ == routed_hits(entries, all_hits, j, g, i)
                    && (#[trigger] scores@[j]@[g]@[i]).outs@ == routed_outs(entries, all_outs.take(done + 1), j, g, i) by {
                    assert(old_scores[j]@[g]@[i].outs@ == routed_outs(entries, all_outs.take(done), j, g, i));
                }
            }
        }
        assert(all_outs.take(all_outs.len() as int) =~= all_outs);
        proof {
            assert forall|j: int, g: int, i: int, t: int|
                0 <= j < jobs@.len() && 0 <= g < jobs@[j]@.len() && 0 <= i < jobs@[j]@[g]@.len()
                && 0 <= t < scores@[j]@[g]@[i].hits@.len()
                implies exists|k: int| 0 <= k < hit_pairs@.len() && from_partner(self.entries(), #[trigger] hit_pairs@[k], j, g, i,
                    (#[trigger] scores@[j]@[g]@[i].hits@[t]).0, scores@[j]@[g]@[i].hits@[t].1) by {
                lemma_hits_marked_with_partner(self.entries(), hit_pairs@, j, g, i);
                assert(scores@[j]@[g]@[i].hits@ == routed_hits(self.entries(), hit_pairs@, j, g, i));
            }
        }
        scores
    }
}

} // verus!

verus! {

proof fn lemma_block_member(b0: int, b1: int, n1: int, m: int, k: int)
    requires
        0 <= m,
        0 <= k < block(b0, b1, n1, m).len(),
    ensures
        exists|c0: int, c1: int| 0 <= c0 < m && 0 <= c1 < n1
            && #[trigger] block(b0, b1, n1, m)[k] == cascade_pair(b0, b1, c0, c1),
    decreases m,
{
    if m > 0 {
        let prev = block(b0, b1, n1, m - 1);
        let row = block_row(b0, b1, n1, m - 1);
        assert(block(b0, b1, n1, m) == prev + row);
        if k < prev.len() {
            lemma_block_member(b0, b1, n1, m - 1, k);
            let (c0, c1) = choose|c0: int, c1: int| 0 <= c0 < m - 1 && 0 <= c1 < n1
                && #[trigger] prev[k] == cascade_pair(b0, b1, c0, c1);
            assert(block(b0, b1, n1, m)[k] == prev[k]);
        } else {
            assert(block(b0, b1, n1, m)[k] == row[k - prev.len()]);
        }
    }
}

proof fn lemma_block_complete(b0: int, b1: int, n1: int, m: int, c0: int, c1: int)
    requires
        0 <= c0 < m,
        0 <= c1 < n1,
    ensures
        block(b0, b1, n1, m).contains(cascade_pair(b0, b1, c0, c1)),
    decreases m,
{
    let p = cascade_pair(b0, b1, c0, c1);
    let prev = block(b0, b1, n1, m - 1);
    let row = block_row(b0, b1, n1, m - 1);
    assert(block(b0, b1, n1, m) == prev + row);
    if c0 < m - 1 {
        lemma_block_complete(b0, b1, n1, m - 1, c0, c1);
        let k = choose|k: int| 0 <= k < prev.len() && prev[k] == p;
        assert((prev + row)[k] == p);
    } else {
        assert(row[c1] == p);
        assert((prev + row)[prev.len() + c1] == p);
    }
}

/// Shape `c0` of group `g0` paired with shape `c1` of group `g1`, for a job
/// whose group starts are read at `base + s1[g]`.
pub open spec fn block_pair(base: int, s1: Seq<usize>, g0: int, g1: int, c0: int, c1: int) -> TestPair {
    cascade_pair(base + s1[g0], base + s1[g1], c0, c1)
}

proof fn lemma_blocks_before_member(base: int, s1: Seq<usize>, sizes: Seq<nat>, g1: int, m: int, k: int)
    requires
        0 <= m,
        0 <= k < blocks_before(base, s1, sizes, g1, m).len(),
    ensures
        exists|g0: int, c0: int, c1: int| 0 <= g0 < m && 0 <= c0 < sizes[g0] && 0 <= c1 < sizes[g1]
            && blocks_before(base, s1, sizes, g1, m)[k] == #[trigger] block_pair(base, s1, g0, g1, c0, c1),
    decreases m,
{
    if m > 0 {
        let prev = blocks_before(base, s1, sizes, g1, m - 1);
        let blk = block(base + s1[m - 1], base + s1[g1], sizes[g1] as int, sizes[m - 1] as int);
        assert(blocks_before(base, s1, sizes, g1, m) == prev + blk);
        if k < prev.len() {
            lemma_blocks_before_member(base, s1, sizes, g1, m - 1, k);
            let (g0, c0, c1) = choose|g0: int, c0: int, c1: int| 0 <= g0 < m - 1 && 0 <= c0 < sizes[g0] && 0 <= c1 < sizes[g1]
                && prev[k] == #[trigger] block_pair(base, s1, g0, g1, c0, c1);
            assert((prev + blk)[k] == prev[k]);
        } else {
            lemma_block_member(base + s1[m - 1], base + s1[g1], sizes[g1] as int, sizes[m - 1] as int, k - prev.len());
            let b0 = base + s1[m - 1];
            let b1 = base + s1[g1];
            let (c0, c1) = choose|c0: int, c1: int| 0 <= c0 < sizes[m - 1] && 0 <= c1 < sizes[g1]
                && blk[k - prev.len()] == #[trigger] cascade_pair(b0, b1, c0, c1);
            assert((prev + blk)[k] == blk[k - prev.len()]);
            assert(blk[k - prev.len()] == block_pair(base, s1, m - 1, g1, c0, c1));
        }
    }
}

proof fn lemma_blocks_before_complete(base: int, s1: Seq<usize>, sizes: Seq<nat>, g1: int, m: int, g0: int, c0: int, c1: int)
    requires
        0 <= g0 < m,
        0 <= c0 < sizes[g0],
        0 <= c1 < sizes[g1],
    ensures
        blocks_before(base, s1, sizes, g1, m).contains(cascade_pair(base + s1[g0], base + s1[g1], c0, c1)),
    decreases m,
{
    let p = cascade_pair(base + s1[g0], base + s1[g1], c0, c1);
    let prev = blocks_before(base, s1, sizes, g1, m - 1);
    let blk = block(base + s1[m - 1], base + s1[g1], sizes[g1] as int, sizes[m - 1] as int);
    assert(blocks_before(base, s1, sizes, g1, m) == prev + blk);
    if g0 < m - 1 {
        lemma_blocks_before_complete(base, s1, sizes, g1, m - 1, g0, c0, c1);
        let k = choose|k: int| 0 <= k < prev.len() && prev[k] == p;
        assert((prev + blk)[k] == p);
    } else {
        lemma_block_complete(base + s1[m - 1], base + s1[g1], sizes[g1] as int, sizes[m - 1] as int, c0, c1);
        let k = choose|k: int| 0 <= k < blk.len() && blk[k] == p;
        assert((prev + blk)[prev.len() + k] == p);
    }
}

proof fn lemma_job_blocks_member(base: int, s1: Seq<usize>, sizes: Seq<nat>, m: int, k: int)
    requires
        0 <= m <= sizes.len(),
        0 <= k < job_blocks(base, s1, sizes, m).len(),
    ensures
        exists|g0: int, g1: int, c0: int, c1: int| 0 <= g0 < g1 < m && 0 <= c0 < sizes[g0] && 0 <= c1 < sizes[g1]
            && job_blocks(base, s1, sizes, m)[k] == #[trigger] block_pair(base, s1, g0, g1, c0, c1),
    decreases m,
{
    if m > 0 {
        let prev = job_blocks(base, s1, sizes, m - 1);
        let blks = blocks_before(base, s1, sizes, m - 1, m - 1);
        assert(job_blocks(base, s1, sizes, m) == prev + blks);
        if k < prev.len() {
            lemma_job_blocks_member(base, s1, sizes, m - 1, k);
            let (g0, g1, c0, c1) = choose|g0: int, g1: int, c0: int, c1: int| 0 <= g0 < g1 < m - 1 && 0 <= c0 < sizes[g0] && 0 <= c1 < sizes[g1]
                && prev[k] == #[trigger] block_pair(base, s1, g0, g1, c0, c1);
            assert((prev + blks)[k] == prev[k]);
        } else {
            lemma_blocks_before_member(base, s1, sizes, m - 1, m - 1, k - prev.len());
            let (g0, c0, c1) = choose|g0: int, c0: int, c1: int| 0 <= g0 < m - 1 && 0 <= c0 < sizes[g0] && 0 <= c1 < sizes[m - 1]
                && blks[k - prev.len()] == #[trigger] block_pair(base, s1, g0, m - 1, c0, c1);
            assert((prev + blks)[k] == blks[k - prev.len()]);
        }
    }
}

proof fn lemma_job_blocks_complete(base: int, s1: Seq<usize>, sizes: Seq<nat>, m: int, g0: int, g1: int, c0: int, c1: int)
    requires
        0 <= g0 < g1 < m <= sizes.len(),
        0 <= c0 < sizes[g0],
        0 <= c1 < sizes[g1],
    ensures
        job_blocks(base, s1, sizes, m).contains(cascade_pair(base + s1[g0], base + s1[g1], c0, c1)),
    decreases m,
{
    let p = cascade_pair(base + s1[g0], base + s1[g1], c0, c1);
    let prev = job_blocks(base, s1, sizes, m - 1);
    let blks = blocks_before(base, s1, sizes, m - 1, m - 1);
    assert(job_blocks(base, s1, sizes, m) == prev + blks);
    if g1 < m - 1 {
        lemma_job_blocks_complete(base, s1, sizes, m - 1, g0, g1, c0, c1);
        let k = choose|k: int| 0 <= k < prev.len() && prev[k] == p;
        assert((prev + blks)[k] == p);
    } else {
        lemma_blocks_before_complete(base, s1, sizes, m - 1, m - 1, g0, c0, c1);
        let k = choose|k: int| 0 <= k < blks.len() && blks[k] == p;
        assert((prev + blks)[prev.len() + k] == p);
    }
}

/// Shape `c0` of group `g0` of job `j` paired with shape `c1` of its group `g1`.
pub open spec fn group_pair(sizes: Seq<Seq<nat>>, j: int, g0: int, c0: int, g1: int, c1: int) -> TestPair {
    TestPair {
        i0: position(sizes, j, g0, c0) as usize,
        i1: position(sizes, j, g1, c1) as usize,
        reverse: true,
    }
}

proof fn lemma_single_job_layout(sizes: Seq<Seq<nat>>)
    requires
        sizes.len() == 1,
    ensures
        all_cascade_pairs(sizes, first_starts(sizes), second_starts(sizes, 1), 1)
            == job_blocks(0, second_starts(sizes, 1), sizes[0], sizes[0].len() as int),
        forall|g: int| 0 <= g < sizes[0].len() ==> #[trigger] second_starts(sizes, 1)[g] == offset(sizes[0], g) as usize,
        forall|g: int, c: int| #[trigger] position(sizes, 0, g, c) == offset(sizes[0], g) + c,
        offset(job_items(sizes), 1) == total(sizes[0]),
        total(group_counts(sizes)) == sizes[0].len(),
{
    let js = sizes[0];
    let s1 = second_starts(sizes, 1);
    let first = first_starts(sizes);
    assert(second_starts(sizes, 0) == Seq::<usize>::empty());
    assert(s1 =~= Seq::new(js.len(), |g: int| offset(js, g) as usize));
    assert(offset(group_counts(sizes), 0) == 0);
    assert(first[0] == 0);
    assert(all_cascade_pairs(sizes, first, s1, 0) == Seq::<TestPair>::empty());
    assert(all_cascade_pairs(sizes, first, s1, 1) =~= job_blocks(0, s1, js, js.len() as int));
    assert(offset(job_items(sizes), 0) == 0);
    assert(job_items(sizes)[0] == total(js));
    assert(group_counts(sizes)[0] == js.len());
    assert(offset(group_counts(sizes), 1) == js.len());
}

proof fn lemma_single_job_member(sizes: Seq<Seq<nat>>, entries: Seq<(usize, usize, usize)>, pairs: Seq<TestPair>, k: int)
    requires
        sizes.len() == 1,
        total(group_counts(sizes)) <= usize::MAX,
        total(job_items(sizes)) <= usize::MAX,
        indexed_by(sizes, entries),
        pairs == all_cascade_pairs(sizes, first_starts(sizes), second_starts(sizes, 1), 1),
        0 <= k < pairs.len(),
    ensures
        routable(entries, sizes, pairs[k]),
        locate(entries, pairs[k]).0 == 0,
        locate(entries, pairs[k]).1 < locate(entries, pairs[k]).3,
        pairs[k] == group_pair(sizes, 0, locate(entries, pairs[k]).1 as int, locate(entries, pairs[k]).2 as int,
            locate(entries, pairs[k]).3 as int, locate(entries, pairs[k]).4 as int),
{
    let js = sizes[0];
    let s1 = second_starts(sizes, 1);
    lemma_single_job_layout(sizes);
    lemma_job_blocks_member(0, s1, js, js.len() as int, k);
    let (g0, g1, c0, c1) = choose|g0: int, g1: int, c0: int, c1: int| 0 <= g0 < g1 < js.len() && 0 <= c0 < js[g0] && 0 <= c1 < js[g1]
        && job_blocks(0, s1, js, js.len() as int)[k] == #[trigger] block_pair(0, s1, g0, g1, c0, c1);
    lemma_offset_monotonic(js, g0, js.len() as int);
    lemma_offset_monotonic(js, g1, js.len() as int);
    lemma_position_bound(sizes, 0, g0, c0, 1);
    lemma_position_bound(sizes, 0, g1, c1, 1);
    assert(s1[g0] == offset(js, g0) as usize);
    assert(s1[g1] == offset(js, g1) as usize);
    assert(position(sizes, 0, g0, c0) == offset(js, g0) + c0);
    assert(position(sizes, 0, g1, c1) == offset(js, g1) + c1);
    assert(pairs[k] == group_pair(sizes, 0, g0, c0, g1, c1));
    assert(entries[position(sizes, 0, g0, c0)] == (0usize, g0 as usize, c0 as usize));
    assert(entries[position(sizes, 0, g1, c1)] == (0usize, g1 as usize, c1 as usize));
}

/// For a single job, every pair of the index joins a shape of one group with a
/// shape of a later group, which `at` finds again; and every two such shapes
/// form one of its pairs.
pub proof fn lemma_single_job_pairs_route(sizes: Seq<Seq<nat>>, entries: Seq<(usize, usize, usize)>, pairs: Seq<TestPair>)
    requires
        sizes.len() == 1,
        total(group_counts(sizes)) <= usize::MAX,
        total(job_items(sizes)) <= usize::MAX,
        indexed_by(sizes, entries),
        pairs == all_cascade_pairs(sizes, first_starts(sizes), second_starts(sizes, 1), 1),
    ensures
        forall|k: int| 0 <= k < pairs.len() ==> {
            &&& routable(entries, sizes, #[trigger] pairs[k])
            &&& locate(entries, pairs[k]).0 == 0
            &&& locate(entries, pairs[k]).1 < locate(entries, pairs[k]).3
            &&& pairs[k] == group_pair(sizes, 0, locate(entries, pairs[k]).1 as int, locate(entries, pairs[k]).2 as int,
                    locate(entries, pairs[k]).3 as int, locate(entries, pairs[k]).4 as int)
        },
        forall|g0: int, g1: int, c0: int, c1: int| 0 <= g0 < g1 < sizes[0].len() && 0 <= c0 < sizes[0][g0] && 0 <= c1 < sizes[0][g1]
            ==> pairs.contains(#[trigger] group_pair(sizes, 0, g0, c0, g1, c1)),
{
    let js = sizes[0];
    let s1 = second_starts(sizes, 1);
    lemma_single_job_layout(sizes);
    assert forall|k: int| 0 <= k < pairs.len() implies {
        &&& routable(entries, sizes, #[trigger] pairs[k])
        &&& locate(entries, pairs[k]).0 == 0
        &&& locate(entries, pairs[k]).1 < locate(entries, pairs[k]).3
        &&& pairs[k] == group_pair(sizes, 0, locate(entries, pairs[k]).1 as int, locate(entries, pairs[k]).2 as int,
                locate(entries, pairs[k]).3 as int, locate(entries, pairs[k]).4 as int)
    } by {
        lemma_single_job_member(sizes, entries, pairs, k);
    }
    assert forall|g0: int, g1: int, c0: int, c1: int| 0 <= g0 < g1 < sizes[0].len() && 0 <= c0 < sizes[0][g0] && 0 <= c1 < sizes[0][g1] implies
        pairs.contains(#[trigger] group_pair(sizes, 0, g0, c0, g1, c1)) by {
        lemma_job_blocks_complete(0, s1, js, js.len() as int, g0, g1, c0, c1);
        lemma_offset_monotonic(js, g0, js.len() as int);
        lemma_offset_monotonic(js, g1, js.len() as int);
        lemma_position_bound(sizes, 0, g0, c0, 1);
        lemma_position_bound(sizes, 0, g1, c1, 1);
        assert(s1[g0] == offset(js, g0) as usize);
        assert(s1[g1] == offset(js, g1) as usize);
        assert(position(sizes, 0, g0, c0) == offset(js, g0) + c0);
        assert(position(sizes, 0, g1, c1) == offset(js, g1) + c1);
        assert(cascade_pair(0 + s1[g0], 0 + s1[g1], c0, c1) == group_pair(sizes, 0, g0, c0, g1, c1));
    }
}

/// One if the first shape of `pair` is shape `< n` of group `g` of job `j`.
pub open spec fn lands_first(entries: Seq<(usize, usize, usize)>, pair: TestPair, j: int, g: int, n: int) -> int {
    let (job, g0, i0, g1, i1) = locate(entries, pair);
    if job == j && g0 == g && i0 < n { 1 } else { 0 }
}

/// One if the second shape of `pair` is shape `< n` of group `g` of job `j`.
pub open spec fn lands_second(entries: Seq<(usize, usize, usize)>, pair: TestPair, j: int, g: int, n: int) -> int {
    let (job, g0, i0, g1, i1) = locate(entries, pair);
    if job == j && g1 == g && i1 < n { 1 } else { 0 }
}

/// How many hits land on shapes `0..n` of group `g` of job `j`.
pub open spec fn group_routed_hits_count<T>(entries: Seq<(usize, usize, usize)>, items: Seq<(TestPair, T, T)>, j: int, g: int, n: int) -> int
    decreases n,
{
    if n <= 0 {
        0
    } else {
        group_routed_hits_count(entries, items, j, g, n - 1) + routed_hits(entries, items, j, g, n - 1).len()
    }
}

/// How many hits land on the shapes of groups `0..m` of job `j`.
pub open spec fn job_routed_hits_count<T>(entries: Seq<(usize, usize, usize)>, items: Seq<(TestPair, T, T)>, sizes: Seq<Seq<nat>>, j: int, m: int) -> int
    decreases m,
{
    if m <= 0 {
        0
    } else {
        job_routed_hits_count(entries, items, sizes, j, m - 1) + group_routed_hits_count(entries, items, j, m - 1, sizes[j][m - 1] as int)
    }
}

/// How many hits land on the shapes of jobs `0..m`.
pub open spec fn routed_hits_count<T>(entries: Seq<(usize, usize, usize)>, items: Seq<(TestPair, T, T)>, sizes: Seq<Seq<nat>>, m: int) -> int
    decreases m,
{
    if m <= 0 {
        0
    } else {
        routed_hits_count(entries, items, sizes, m - 1) + job_routed_hits_count(entries, items, sizes, m - 1, sizes[m - 1].len() as int)
    }
}

proof fn lemma_group_routed_hits_step<T>(entries: Seq<(usize, usize, usize)>, items: Seq<(TestPair, T, T)>, x: (TestPair, T, T), j: int, g: int, n: int)
    requires
        n >= 0,
    ensures
        group_routed_hits_count(entries, items.push(x), j, g, n) == group_routed_hits_count(entries, items, j, g, n)
            + lands_first(entries, x.0, j, g, n) + lands_second(entries, x.0, j, g, n),
    decreases n,
{
    if n > 0 {
        lemma_group_routed_hits_step(entries, items, x, j, g, n - 1);
        assert(items.push(x).drop_last() =~= items);
        assert(items.push(x).last() == x);
    }
}

proof fn lemma_job_routed_hits_step<T>(entries: Seq<(usize, usize, usize)>, items: Seq<(TestPair, T, T)>, x: (TestPair, T, T), sizes: Seq<Seq<nat>>, j: int, m: int)
    requires
        0 <= j < sizes.len(),
        0 <= m <= sizes[j].len(),
    ensures
        job_routed_hits_count(entries, items.push(x), sizes, j, m) == job_routed_hits_count(entries, items, sizes, j, m)
            + (if j == locate(entries, x.0).0 && locate(entries, x.0).1 < m {
                lands_first(entries, x.0, j, locate(entries, x.0).1 as int, sizes[j][locate(entries, x.0).1 as int] as int)
            } else { 0int })
            + (if j == locate(entries, x.0).0 && locate(entries, x.0).3 < m {
                lands_second(entries, x.0, j, locate(entries, x.0).3 as int, sizes[j][locate(entries, x.0).3 as int] as int)
            } else { 0int }),
    decreases m,
{
    if m > 0 {
        lemma_job_routed_hits_step(entries, items, x, sizes, j, m - 1);
        lemma_group_routed_hits_step(entries, items, x, j, m - 1, sizes[j][m - 1] as int);
    }
}

proof fn lemma_routed_hits_step<T>(entries: Seq<(usize, usize, usize)>, items: Seq<(TestPair, T, T)>, x: (TestPair, T, T), sizes: Seq<Seq<nat>>, m: int)
    requires
        0 <= m <= sizes.len(),
        routable(entries, sizes, x.0),
    ensures
        routed_hits_count(entries, items.push(x), sizes, m) == routed_hits_count(entries, items, sizes, m)
            + (if locate(entries, x.0).0 < m { 2int } else { 0int }),
    decreases m,
{
    if m > 0 {
        lemma_routed_hits_step(entries, items, x, sizes, m - 1);
        lemma_job_routed_hits_step(entries, items, x, sizes, m - 1, sizes[m - 1].len() as int);
    }
}

proof fn lemma_routed_hits_empty<T>(entries: Seq<(usize, usize, usize)>, items: Seq<(TestPair, T, T)>, sizes: Seq<Seq<nat>>, m: int)
    requires
        items.len() == 0,
        0 <= m <= sizes.len(),
    ensures
        routed_hits_count(entries, items, sizes, m) == 0,
    decreases m,
{
    if m > 0 {
        lemma_routed_hits_empty(entries, items, sizes, m - 1);
        let j = m - 1;
        assert forall|g: int, n: int| n >= 0 implies #[trigger] group_routed_hits_count(entries, items, j, g, n) == 0 by {
            lemma_group_routed_hits_empty(entries, items, j, g, n);
        }
        lemma_job_routed_hits_empty(entries, items, sizes, j, sizes[j].len() as int);
    }
}

proof fn lemma_job_routed_hits_empty<T>(entries: Seq<(usize, usize, usize)>, items: Seq<(TestPair, T, T)>, sizes: Seq<Seq<nat>>, j: int, m: int)
    requires
        items.len() == 0,
        forall|g: int, n: int| n >= 0 ==> #[trigger] group_routed_hits_count(entries, items, j, g, n) == 0,
    ensures
        job_routed_hits_count(entries, items, sizes, j, m) == 0,
    decreases m,
{
    if m > 0 {
        lemma_job_routed_hits_empty(entries, items, sizes, j, m - 1);
        assert(group_routed_hits_count(entries, items, j, m - 1, sizes[j][m - 1] as int) == 0);
    }
}

proof fn lemma_group_routed_hits_empty<T>(entries: Seq<(usize, usize, usize)>, items: Seq<(TestPair, T, T)>, j: int, g: int, n: int)
    requires
        items.len() == 0,
    ensures
        group_routed_hits_count(entries, items, j, g, n) == 0,
    decreases n,
{
    if n > 0 {
        lemma_group_routed_hits_empty(entries, items, j, g, n - 1);
    }
}

/// Routing hits to shapes loses none and copies none: when every pair can be
/// placed, the scores of all shapes hold two entries per finding.
pub proof fn lemma_routed_hits_keeps_every_finding<T>(entries: Seq<(usize, usize, usize)>, items: Seq<(TestPair, T, T)>, sizes: Seq<Seq<nat>>)
    requires
        forall|k: int| 0 <= k < items.len() ==> routable(entries, sizes, #[trigger] items[k].0),
    ensures
        routed_hits_count(entries, items, sizes, sizes.len() as int) == 2 * items.len(),
    decreases items.len(),
{
    if items.len() == 0 {
        lemma_routed_hits_empty(entries, items, sizes, sizes.len() as int);
    } else {
        let rest = items.drop_last();
        let x = items.last();
        assert forall|k: int| 0 <= k < rest.len() implies routable(entries, sizes, #[trigger] rest[k].0) by {
            assert(rest[k] == items[k]);
        }
        lemma_routed_hits_keeps_every_finding(entries, rest, sizes);
        assert(routable(entries, sizes, items[items.len() - 1].0));
        lemma_routed_hits_step(entries, rest, x, sizes, sizes.len() as int);
        assert(rest.push(x) =~= items);
    }
}

/// How many misses land on shapes `0..n` of group `g` of job `j`.
pub open spec fn group_routed_outs_count<T>(entries: Seq<(usize, usize, usize)>, items: Seq<(TestPair, T, T)>, j: int, g: int, n: int) -> int
    decreases n,
{
    if n <= 0 {
        0
    } else {
        group_routed_outs_count(entries, items, j, g, n - 1) + routed_outs(entries, items, j, g, n - 1).len()
    }
}

/// How many misses land on the shapes of groups `0..m` of job `j`.
pub open spec fn job_routed_outs_count<T>(entries: Seq<(usize, usize, usize)>, items: Seq<(TestPair, T, T)>, sizes: Seq<Seq<nat>>, j: int, m: int) -> int
    decreases m,
{
    if m <= 0 {
        0
    } else {
        job_routed_outs_count(entries, items, sizes, j, m - 1) + group_routed_outs_count(entries, items, j, m - 1, sizes[j][m - 1] as int)
    }
}

/// How many misses land on the shapes of jobs `0..m`.
pub open spec fn routed_outs_count<T>(entries: Seq<(usize, usize, usize)>, items: Seq<(TestPair, T, T)>, sizes: Seq<Seq<nat>>, m: int) -> int
    decreases m,
{
    if m <= 0 {
        0
    } else {
        routed_outs_count(entries, items, sizes, m - 1) + job_routed_outs_count(entries, items, sizes, m - 1, sizes[m - 1].len() as int)
    }
}

proof fn lemma_group_routed_outs_step<T>(entries: Seq<(usize, usize, usize)>, items: Seq<(TestPair, T, T)>, x: (TestPair, T, T), j: int, g: int, n: int)
    requires
        n >= 0,
    ensures
        group_routed_outs_count(entries, items.push(x), j, g, n) == group_routed_outs_count(entries, items, j, g, n)
            + lands_first(entries, x.0, j, g, n) + lands_second(entries, x.0, j, g, n),
    decreases n,
{
    if n > 0 {
        lemma_group_routed_outs_step(entries, items, x, j, g, n - 1);
        assert(items.push(x).drop_last() =~= items);
        assert(items.push(x).last() == x);
    }
}

proof fn lemma_job_routed_outs_step<T>(entries: Seq<(usize, usize, usize)>, items: Seq<(TestPair, T, T)>, x: (TestPair, T, T), sizes: Seq<Seq<nat>>, j: int, m: int)
    requires
        0 <= j < sizes.len(),
        0 <= m <= sizes[j].len(),
    ensures
        job_routed_outs_count(entries, items.push(x), sizes, j, m) == job_routed_outs_count(entries, items, sizes, j, m)
            + (if j == locate(entries, x.0).0 && locate(entries, x.0).1 < m {
                lands_first(entries, x.0, j, locate(entries, x.0).1 as int, sizes[j][locate(entries, x.0).1 as int] as int)
            } else { 0int })
            + (if j == locate(entries, x.0).0 && locate(entries, x.0).3 < m {
                lands_second(entries, x.0, j, locate(entries, x.0).3 as int, sizes[j][locate(entries, x.0).3 as int] as int)
            } else { 0int }),
    decreases m,
{
    if m > 0 {
        lemma_job_routed_outs_step(entries, items, x, sizes, j, m - 1);
        lemma_group_routed_outs_step(entries, items, x, j, m - 1, sizes[j][m - 1] as int);
    }
}

proof fn lemma_routed_outs_step<T>(entries: Seq<(usize, usize, usize)>, items: Seq<(TestPair, T, T)>, x: (TestPair, T, T), sizes: Seq<Seq<nat>>, m: int)
    requires
        0 <= m <= sizes.len(),
        routable(entries, sizes, x.0),
    ensures
        routed_outs_count(entries, items.push(x), sizes, m) == routed_outs_count(entries, items, sizes, m)
            + (if locate(entries, x.0).0 < m { 2int } else { 0int }),
    decreases m,
{
    if m > 0 {
        lemma_routed_outs_step(entries, items, x, sizes, m - 1);
        lemma_job_routed_outs_step(entries, items, x, sizes, m - 1, sizes[m - 1].len() as int);
    }
}

proof fn lemma_routed_outs_empty<T>(entries: Seq<(usize, usize, usize)>, items: Seq<(TestPair, T, T)>, sizes: Seq<Seq<nat>>, m: int)
    requires
        items.len() == 0,
        0 <= m <= sizes.len(),
    ensures
        routed_outs_count(entries, items, sizes, m) == 0,
    decreases m,
{
    if m > 0 {
        lemma_routed_outs_empty(entries, items, sizes, m - 1);
        let j = m - 1;
        assert forall|g: int, n: int| n >= 0 implies #[trigger] group_routed_outs_count(entries, items, j, g, n) == 0 by {
            lemma_group_routed_outs_empty(entries, items, j, g, n);
        }
        lemma_job_routed_outs_empty(entries, items, sizes, j, sizes[j].len() as int);
    }
}

proof fn lemma_job_routed_outs_empty<T>(entries: Seq<(usize, usize, usize)>, items: Seq<(TestPair, T, T)>, sizes: Seq<Seq<nat>>, j: int, m: int)
    requires
        items.len() == 0,
        forall|g: int, n: int| n >= 0 ==> #[trigger] group_routed_outs_count(entries, items, j, g, n) == 0,
    ensures
        job_routed_outs_count(entries, items, sizes, j, m) == 0,
    decreases m,
{
    if m > 0 {
        lemma_job_routed_outs_empty(entries, items, sizes, j, m - 1);
        assert(group_routed_outs_count(entries, items, j, m - 1, sizes[j][m - 1] as int) == 0);
    }
}

proof fn lemma_group_routed_outs_empty<T>(entries: Seq<(usize, usize, usize)>, items: Seq<(TestPair, T, T)>, j: int, g: int, n: int)
    requires
        items.len() == 0,
    ensures
        group_routed_outs_count(entries, items, j, g, n) == 0,
    decreases n,
{
    if n > 0 {
        lemma_group_routed_outs_empty(entries, items, j, g, n - 1);
    }
}

/// Routing misses to shapes loses none and copies none: when every pair can be
/// placed, the scores of all shapes hold two entries per finding.
pub proof fn lemma_routed_outs_keeps_every_finding<T>(entries: Seq<(usize, usize, usize)>, items: Seq<(TestPair, T, T)>, sizes: Seq<Seq<nat>>)
    requires
        forall|k: int| 0 <= k < items.len() ==> routable(entries, sizes, #[trigger] items[k].0),
    ensures
        routed_outs_count(entries, items, sizes, sizes.len() as int) == 2 * items.len(),
    decreases items.len(),
{
    if items.len() == 0 {
        lemma_routed_outs_empty(entries, items, sizes, sizes.len() as int);
    } else {
        let rest = items.drop_last();
        let x = items.last();
        assert forall|k: int| 0 <= k < rest.len() implies routable(entries, sizes, #[trigger] rest[k].0) by {
            assert(rest[k] == items[k]);
        }
        lemma_routed_outs_keeps_every_finding(entries, rest, sizes);
        assert(routable(entries, sizes, items[items.len() - 1].0));
        lemma_routed_outs_step(entries, rest, x, sizes, sizes.len() as int);
        assert(rest.push(x) =~= items);
    }
}

/// Hit `h`, marked `mark`, on shape `i` of group `g` of job `j`, comes from
/// `item`: either the shape is the item's first shape, the hit is the item's
/// first hit, and the mark is the group and place of its second shape; or the
/// other way round.
pub open spec fn from_partner<H>(entries: Seq<(usize, usize, usize)>, item: (TestPair, H, H), j: int, g: int, i: int, h: H, mark: (usize, usize)) -> bool {
    let (job, g0, i0, g1, i1) = locate(entries, item.0);
    ||| job == j && g0 == g && i0 == i && mark == (g1, i1) && h == item.1
    ||| job == j && g1 == g && i1 == i && mark == (g0, i0) && h == item.2
}

/// Every hit routed to a shape carries, as its mark, the group and place of
/// the other shape of the tested pair it came from, and is that pair's hit on
/// this shape.
pub proof fn lemma_hits_marked_with_partner<H>(entries: Seq<(usize, usize, usize)>, items: Seq<(TestPair, H, H)>, j: int, g: int, i: int)
    ensures
        forall|t: int| #![trigger routed_hits(entries, items, j, g, i)[t]]
            0 <= t < routed_hits(entries, items, j, g, i).len() ==> exists|k: int| 0 <= k < items.len()
            && from_partner(entries, #[trigger] items[k], j, g, i,
                routed_hits(entries, items, j, g, i)[t].0, routed_hits(entries, items, j, g, i)[t].1),
    decreases items.len(),
{
    if items.len() > 0 {
        let rest = items.drop_last();
        lemma_hits_marked_with_partner(entries, rest, j, g, i);
        let prev = routed_hits(entries, rest, j, g, i);
        let all = routed_hits(entries, items, j, g, i);
        let last = items.len() - 1;
        assert(items[last] == items.last());
        assert forall|t: int| #![trigger all[t]] 0 <= t < all.len() implies exists|k: int| 0 <= k < items.len()
            && from_partner(entries, #[trigger] items[k], j, g, i, all[t].0, all[t].1) by {
            if t < prev.len() {
                let k = choose|k: int| 0 <= k < rest.len()
                    && from_partner(entries, #[trigger] rest[k], j, g, i, prev[t].0, prev[t].1);
                assert(rest[k] == items[k]);
                assert(all[t] == prev[t]);
                assert(from_partner(entries, items[k], j, g, i, all[t].0, all[t].1));
            } else {
                assert(from_partner(entries, items[last], j, g, i, all[t].0, all[t].1));
            }
        }
    }
}


/// Miss `h` on shape `i` of group `g` of job `j` comes from `item`: the shape
/// is the item's first shape and `h` its first miss, or its second shape and
/// `h` its second miss.
pub open spec fn from_item<O>(entries: Seq<(usize, usize, usize)>, item: (TestPair, O, O), j: int, g: int, i: int, h: O) -> bool {
    let (job, g0, i0, g1, i1) = locate(entries, item.0);
    ||| job == j && g0 == g && i0 == i && h == item.1
    ||| job == j && g1 == g && i1 == i && h == item.2
}

/// Every miss routed to a shape is what a finding of one of its own pairs
/// reported for that very shape.
pub proof fn lemma_misses_from_own_pairs<O>(entries: Seq<(usize, usize, usize)>, items: Seq<(TestPair, O, O)>, j: int, g: int, i: int)
    ensures
        forall|t: int| #![trigger routed_outs(entries, items, j, g, i)[t]]
            0 <= t < routed_outs(entries, items, j, g, i).len() ==> exists|k: int| 0 <= k < items.len()
            && from_item(entries, #[trigger] items[k], j, g, i, routed_outs(entries, items, j, g, i)[t]),
    decreases items.len(),
{
    if items.len() > 0 {
        let rest = items.drop_last();
        lemma_misses_from_own_pairs(entries, rest, j, g, i);
        let prev = routed_outs(entries, rest, j, g, i);
        let all = routed_outs(entries, items, j, g, i);
        let last = items.len() - 1;
        assert(items[last] == items.last());
        assert forall|t: int| #![trigger all[t]] 0 <= t < all.len() implies exists|k: int| 0 <= k < items.len()
            && from_item(entries, #[trigger] items[k], j, g, i, all[t]) by {
            if t < prev.len() {
                let k = choose|k: int| 0 <= k < rest.len() && from_item(entries, #[trigger] rest[k], j, g, i, prev[t]);
                assert(rest[k] == items[k]);
                assert(all[t] == prev[t]);
                assert(from_item(entries, items[k], j, g, i, all[t]));
            } else {
                assert(from_item(entries, items[last], j, g, i, all[t]));
            }
        }
    }
}

} // verus!
