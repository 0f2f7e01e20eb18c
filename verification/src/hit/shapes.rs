use vstd::prelude::*;
use super::TestPair;
use super::sizes_of;
use super::simple::{all_job_pairs, starts_cover, job_pairs};

pub use super::simple::{Index, indices_and_starts};

verus! {

/// The pairs of distinct shapes within each job, each pair once, with the
/// earlier shape first.
pub fn pairs<T>(jobs: &Vec<Vec<T>>, starts: &Vec<usize>) -> (pairs: Vec<TestPair>)
    requires
        starts_cover(sizes_of(jobs@), starts@),
    ensures
        pairs@ == all_job_pairs(sizes_of(jobs@), starts@, jobs@.len() as int),
{
    job_pairs(jobs, starts)
}

} // verus!
