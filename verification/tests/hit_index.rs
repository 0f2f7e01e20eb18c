use cadkernel::hit::simple;
use cadkernel::hit::groups;
use cadkernel::hit::cascade;
use cadkernel::hit::shapes;
use cadkernel::hit::hone::sample_pairs;
use cadkernel::hit::{reversed, TestPair};

fn triples(pairs: &Vec<TestPair>) -> Vec<(usize, usize, bool)> {
    pairs.iter().map(|p| (p.i0, p.i1, p.reverse)).collect()
}

#[test]
fn simple_indices_and_starts_lay_jobs_end_to_end() {
    let jobs = vec![vec!['a', 'b', 'c'], vec!['d'], vec![], vec!['e', 'f']];
    let (indices, starts) = simple::indices_and_starts(&jobs);
    assert_eq!(indices, vec![(0, 0), (0, 1), (0, 2), (1, 0), (3, 0), (3, 1)]);
    assert_eq!(starts, vec![0, 3, 4, 4]);
}

#[test]
fn simple_indices_and_starts_of_no_jobs() {
    let jobs: Vec<Vec<u8>> = vec![];
    let (indices, starts) = simple::indices_and_starts(&jobs);
    assert!(indices.is_empty());
    assert!(starts.is_empty());
}

#[test]
fn job_pairs_pair_each_shape_with_the_later_ones_of_its_job() {
    let jobs = vec![vec![1, 2, 3], vec![4], vec![5, 6]];
    let (_, starts) = simple::indices_and_starts(&jobs);
    let pairs = simple::job_pairs(&jobs, &starts);
    assert_eq!(triples(&pairs), vec![(0, 1, false), (0, 2, false), (1, 2, false), (4, 5, false)]);
}

#[test]
fn shapes_pairs_match_job_pairs() {
    let jobs = vec![vec![1, 2], vec![3, 4, 5]];
    let (_, starts) = shapes::indices_and_starts(&jobs);
    let pairs = shapes::pairs(&jobs, &starts);
    assert_eq!(triples(&pairs), vec![(0, 1, false), (2, 3, false), (2, 4, false), (3, 4, false)]);
}

#[test]
fn simple_index_routes_findings_to_shapes() {
    let jobs = vec![vec!['a', 'b', 'c'], vec!['d', 'e']];
    let index = simple::Index::new(&jobs);
    assert_eq!(triples(&index.pairs), vec![(0, 1, false), (0, 2, false), (1, 2, false), (3, 4, false)]);
    let at = index.at(&TestPair { i0: 3, i1: 4, reverse: false });
    assert_eq!(at, (1, 0, 1));
    let hits = vec![
        (TestPair { i0: 0, i1: 2, reverse: false }, "h0", "h2"),
        (TestPair { i0: 3, i1: 4, reverse: false }, "h3", "h4"),
        (TestPair { i0: 0, i1: 1, reverse: false }, "g0", "g1"),
    ];
    let outs = vec![(TestPair { i0: 1, i1: 2, reverse: false }, 10, 20)];
    let scores = index.scores(&jobs, hits, outs);
    assert_eq!(scores.len(), 2);
    assert_eq!(scores[0].len(), 3);
    assert_eq!(scores[1].len(), 2);
    assert_eq!(scores[0][0].hits, vec!["h0", "g0"]);
    assert_eq!(scores[0][1].hits, vec!["g1"]);
    assert_eq!(scores[0][2].hits, vec!["h2"]);
    assert_eq!(scores[1][0].hits, vec!["h3"]);
    assert_eq!(scores[1][1].hits, vec!["h4"]);
    assert_eq!(scores[0][1].outs, vec![10]);
    assert_eq!(scores[0][2].outs, vec![20]);
    assert!(scores[0][0].outs.is_empty());
}

#[test]
fn every_index_pair_routes_within_one_job() {
    let jobs = vec![vec![0u8; 4], vec![0u8; 1], vec![0u8; 3]];
    let index = simple::Index::new(&jobs);
    for pair in &index.pairs {
        let (j, a, b) = index.at(pair);
        assert!(a < b);
        assert!(b < jobs[j].len());
    }
    assert_eq!(index.pairs.len(), 6 + 0 + 3);
}

#[test]
fn groups_indices_and_starts_follow_both_groups() {
    let jobs = vec![[vec!['a', 'b'], vec!['c']], [vec![], vec!['d', 'e']]];
    let (indices, starts) = groups::indices_and_starts(&jobs);
    assert_eq!(indices, vec![(0, 0, 0), (0, 0, 1), (0, 1, 0), (1, 1, 0), (1, 1, 1)]);
    assert_eq!(starts, vec![0, 3]);
}

#[test]
fn groups_pairs_cross_the_two_groups_of_each_job() {
    let jobs = vec![[vec![1, 2], vec![3, 4]], [vec![5], vec![6]]];
    let (_, starts) = groups::indices_and_starts(&jobs);
    let pairs = groups::pairs(&jobs, &starts);
    assert_eq!(
        triples(&pairs),
        vec![(0, 2, false), (0, 3, false), (1, 2, false), (1, 3, false), (4, 5, false)]
    );
}

#[test]
fn groups_index_routes_findings_to_group_shapes() {
    let jobs = vec![[vec!['a'], vec!['b', 'c']]];
    let index = groups::Index::new(&jobs);
    assert_eq!(index.at(&TestPair { i0: 0, i1: 2, reverse: false }), (0, 0, 0, 1, 1));
    let hits = vec![(TestPair { i0: 0, i1: 2, reverse: false }, 1, 2)];
    let outs = vec![(TestPair { i0: 0, i1: 1, reverse: false }, 7, 8)];
    let scores = index.scores(&jobs, hits, outs);
    assert_eq!(scores.len(), 1);
    assert_eq!(scores[0][0].len(), 1);
    assert_eq!(scores[0][1].len(), 2);
    assert_eq!(scores[0][0][0].hits, vec![1]);
    assert_eq!(scores[0][1][1].hits, vec![2]);
    assert!(scores[0][1][0].hits.is_empty());
    assert_eq!(scores[0][0][0].outs, vec![7]);
    assert_eq!(scores[0][1][0].outs, vec![8]);
}

#[test]
fn cascade_indices_and_starts_count_groups_and_items() {
    let jobs = vec![vec![vec!['a', 'b'], vec!['c'], vec!['d', 'e', 'f']]];
    let (indices, starts) = cascade::indices_and_starts(&jobs);
    assert_eq!(
        indices,
        vec![(0, 0, 0), (0, 0, 1), (0, 1, 0), (0, 2, 0), (0, 2, 1), (0, 2, 2)]
    );
    assert_eq!(starts[0], vec![0]);
    assert_eq!(starts[1], vec![0, 2, 3]);
}

#[test]
fn cascade_pairs_cross_each_group_with_every_later_one() {
    let jobs = vec![vec![vec![1, 2], vec![3], vec![4]]];
    let (_, starts) = cascade::indices_and_starts(&jobs);
    let pairs = cascade::pairs(&jobs, &starts);
    assert_eq!(
        triples(&pairs),
        vec![(0, 2, true), (1, 2, true), (0, 3, true), (1, 3, true), (2, 3, true)]
    );
}

#[test]
fn cascade_index_marks_hits_with_the_other_shape() {
    let jobs = vec![vec![vec!['a'], vec!['b']]];
    let index = cascade::Index::new(&jobs);
    assert_eq!(triples(&index.pairs), vec![(0, 1, true)]);
    assert_eq!(index.at(&TestPair { i0: 0, i1: 1, reverse: true }), (0, 0, 0, 1, 0));
    let hits = vec![(TestPair { i0: 0, i1: 1, reverse: true }, 5, 6)];
    let outs: Vec<(TestPair, i32, i32)> = vec![(TestPair { i0: 0, i1: 1, reverse: true }, 8, 9)];
    let scores = index.scores(&jobs, hits, outs);
    assert_eq!(scores[0][0][0].hits, vec![(5, (1, 0))]);
    assert_eq!(scores[0][1][0].hits, vec![(6, (0, 0))]);
    assert_eq!(scores[0][0][0].outs, vec![8]);
    assert_eq!(scores[0][1][0].outs, vec![9]);
}

#[test]
fn reversed_turns_a_list_around() {
    assert_eq!(reversed(vec![1, 2, 3, 4]), vec![4, 3, 2, 1]);
    assert_eq!(reversed(Vec::<u8>::new()), Vec::<u8>::new());
}

#[test]
fn sample_pairs_cross_the_samples_of_each_pair() {
    let samples = vec![vec!['a', 'b'], vec!['x'], vec!['p', 'q']];
    let pairs = vec![
        TestPair { i0: 0, i1: 2, reverse: false },
        TestPair { i0: 1, i1: 0, reverse: true },
    ];
    let found = sample_pairs(&samples, &pairs);
    let flat: Vec<(usize, usize, char, char)> = found.iter().map(|(p, a, b)| (p.i0, p.i1, *a, *b)).collect();
    assert_eq!(
        flat,
        vec![
            (0, 2, 'a', 'p'),
            (0, 2, 'a', 'q'),
            (0, 2, 'b', 'p'),
            (0, 2, 'b', 'q'),
            (1, 0, 'x', 'a'),
            (1, 0, 'x', 'b'),
        ]
    );
    assert!(found[4].0.reverse);
}

#[test]
fn sample_pairs_skip_shapes_without_samples() {
    let samples: Vec<Vec<u8>> = vec![vec![], vec![1, 2]];
    let pairs = vec![TestPair { i0: 0, i1: 1, reverse: false }];
    assert!(sample_pairs(&samples, &pairs).is_empty());
}

#[test]
fn every_group_pair_crosses_the_two_groups_of_one_job() {
    let jobs = vec![[vec![0u8; 2], vec![0u8; 3]], [vec![0u8; 1], vec![0u8; 0]], [vec![0u8; 2], vec![0u8; 1]]];
    let index = groups::Index::new(&jobs);
    assert_eq!(index.pairs.len(), 2 * 3 + 0 + 2 * 1);
    for pair in &index.pairs {
        let (j, g0, i0, g1, i1) = index.at(pair);
        assert_eq!((g0, g1), (0, 1));
        assert!(i0 < jobs[j][0].len());
        assert!(i1 < jobs[j][1].len());
    }
}

#[test]
fn every_cascade_pair_of_a_single_job_goes_from_an_earlier_group_to_a_later_one() {
    let jobs = vec![vec![vec![0u8; 2], vec![0u8; 1], vec![0u8; 3]]];
    let index = cascade::Index::new(&jobs);
    assert_eq!(index.pairs.len(), 2 * 1 + 2 * 3 + 1 * 3);
    for pair in &index.pairs {
        let (j, g0, i0, g1, i1) = index.at(pair);
        assert_eq!(j, 0);
        assert!(g0 < g1);
        assert!(i0 < jobs[0][g0].len());
        assert!(i1 < jobs[0][g1].len());
    }
}

#[test]
fn routing_gives_two_entries_per_finding() {
    let jobs = vec![vec![0u8; 3], vec![0u8; 2], vec![0u8; 4]];
    let index = simple::Index::new(&jobs);
    let hits: Vec<(TestPair, usize, usize)> = index.pairs.iter().enumerate().map(|(k, p)| (*p, k, k)).collect();
    let outs: Vec<(TestPair, u8, u8)> = index.pairs.iter().take(4).map(|p| (*p, 1, 2)).collect();
    let count = hits.len();
    let scores = index.scores(&jobs, hits, outs);
    let routed_hits: usize = scores.iter().flatten().map(|s| s.hits.len()).sum();
    let routed_outs: usize = scores.iter().flatten().map(|s| s.outs.len()).sum();
    assert_eq!(routed_hits, 2 * count);
    assert_eq!(routed_outs, 8);
}

#[test]
fn group_and_cascade_routing_give_two_entries_per_finding() {
    let jobs = vec![[vec![0u8; 2], vec![0u8; 2]], [vec![0u8; 1], vec![0u8; 3]]];
    let index = groups::Index::new(&jobs);
    let hits: Vec<(TestPair, u8, u8)> = index.pairs.iter().map(|p| (*p, 0, 1)).collect();
    let count = hits.len();
    let scores = index.scores(&jobs, hits, Vec::<(TestPair, u8, u8)>::new());
    let routed: usize = scores.iter().map(|j| j[0].iter().chain(j[1].iter()).map(|s| s.hits.len()).sum::<usize>()).sum();
    assert_eq!(routed, 2 * count);

    let nested = vec![vec![vec![0u8; 2], vec![0u8; 1], vec![0u8; 2]]];
    let index = cascade::Index::new(&nested);
    let outs: Vec<(TestPair, u8, u8)> = index.pairs.iter().map(|p| (*p, 3, 4)).collect();
    let count = outs.len();
    let scores = index.scores(&nested, Vec::<(TestPair, u8, u8)>::new(), outs);
    let routed: usize = scores.iter().flatten().flatten().map(|s| s.outs.len()).sum();
    assert_eq!(routed, 2 * count);
}
