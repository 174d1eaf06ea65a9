//! The pool of worker threads and the jobs it runs.

use vstd::prelude::*;
use scoped_threadpool::Pool;

verus! {

/// `scoped_threadpool::Pool`, a fixed set of worker threads.
#[verifier::external_type_specification]
#[verifier::external_body]
pub struct ExPool(Pool);

/// `Pool::new` starts the given number of threads, which has to be at least
/// one. Nothing more is claimed of the pool it returns.
pub assume_specification[ Pool::new ](n: u32) -> (pool: Pool)
    requires
        n >= 1,
;

/// `Pool::thread_count` tells how many threads a pool holds. Nothing is
/// claimed of the number.
pub assume_specification[ Pool::thread_count ](pool: &Pool) -> (n: u32);

/// `num_cpus::get` tells how many processors the machine offers. The number
/// depends on the machine; nothing is claimed of it.
pub assume_specification[ num_cpus::get ]() -> (n: usize);

/// A piece of work that yields a run of cell values.
pub(crate) trait Job<T> {
    /// What has to hold for the job to be run.
    spec fn ready(&self) -> bool;

    /// The values the job yields.
    spec fn output(&self) -> Seq<T>;

    fn run(self) -> (values: Vec<T>)
        requires
            self.ready(),
        ensures
            values@ == self.output(),
    ;
}

/// Runs every job on the pool and waits for all of them. `Pool::scoped` blocks
/// until the closure it is given and every job handed to `Scope::execute`
/// inside it have run to completion; each job is handed over once and stores
/// what its `run` returns in a place of its own. What is claimed here is that
/// the results are those of the jobs, in the order of the jobs.
#[verifier::external_body]
pub(crate) fn run_jobs<T: Send, J: Job<T> + Send>(pool: &mut Pool, jobs: Vec<J>) -> (results: Vec<Vec<T>>)
    requires
        forall|i: int| 0 <= i < jobs.len() ==> (#[trigger] jobs[i]).ready(),
    ensures
        results.len() == jobs.len(),
        forall|i: int| 0 <= i < jobs.len() ==> (#[trigger] results[i])@ == jobs[i].output(),
{
    let mut results: Vec<Vec<T>> = jobs.iter().map(|_| Vec::new()).collect();
    pool.scoped(|scope| {
        for (slot, job) in results.iter_mut().zip(jobs) {
            scope.execute(move || *slot = job.run());
        }
    });
    results
}

} // verus!
