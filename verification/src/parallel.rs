//! Work handed out to the threads of a `rayon` pool.
use rayon::prelude::{
    IndexedParallelIterator, IntoParallelIterator, IntoParallelRefIterator, ParallelIterator,
};
use rayon::ThreadPool;
use vstd::prelude::*;

verus! {

/// A pool of worker threads.
#[verifier::external_type_specification]
#[verifier::external_body]
pub struct ExThreadPool(rayon::ThreadPool);

/// `ParallelIterator::map` and `collect` over `par_iter`, inside `ThreadPool::install`: one call of
/// `f` for each item, with the results in the order of the items.
#[verifier::external_body]
pub(crate) fn par_map<T: Sync, U: Send, F: Fn(&T) -> U + Sync>(
    pool: &ThreadPool,
    items: &Vec<T>,
    f: &F,
) -> (results: Vec<U>)
    requires
        forall|i: int| 0 <= i < items@.len() ==> #[trigger] call_requires(*f, (&items@[i],)),
    ensures
        results@.len() == items@.len(),
        forall|i: int| 0 <= i < items@.len() ==> call_ensures(*f, (&items@[i],), #[trigger] results@[i]),
{
    pool.install(|| items.par_iter().map(|item| f(item)).collect())
}

/// `ParallelIterator::map` and `collect` over `into_par_iter` and `zip`, inside
/// `ThreadPool::install`: one call of `f` for each pair of items at the same place, with the
/// results in the order of the items.
#[verifier::external_body]
pub(crate) fn par_zip_map<S: Send, T: Send, U: Send, F: Fn(S, T) -> U + Sync>(
    pool: &ThreadPool,
    first: Vec<S>,
    second: Vec<T>,
    f: &F,
) -> (results: Vec<U>)
    requires
        first@.len() == second@.len(),
        forall|i: int| 0 <= i < first@.len() ==> #[trigger] call_requires(*f, (first@[i], second@[i])),
    ensures
        results@.len() == first@.len(),
        forall|i: int| 0 <= i < first@.len() ==> call_ensures(*f, (first@[i], second@[i]), #[trigger] results@[i]),
{
    pool.install(|| first.into_par_iter().zip(second).map(|(a, b)| f(a, b)).collect())
}

/// One call of `f` for each pair of items at the same place, one after the other.
pub(crate) fn zip_map<S, T, U, F: Fn(S, T) -> U>(first: Vec<S>, second: Vec<T>, f: &F) -> (results: Vec<
    U,
>)
    requires
        first@.len() == second@.len(),
        forall|i: int| 0 <= i < first@.len() ==> #[trigger] call_requires(*f, (first@[i], second@[i])),
    ensures
        results@.len() == first@.len(),
        forall|i: int| 0 <= i < first@.len() ==> call_ensures(*f, (first@[i], second@[i]), #[trigger] results@[i]),
{
    let mut a = first;
    let mut b = second;
    let mut results: Vec<U> = Vec::new();
    let ghost all = first@;
    let ghost given = second@;
    while a.len() > 0
        invariant
            all.len() == given.len(),
            results@.len() + a@.len() == all.len(),
            a@ == all.skip(results@.len() as int),
            b@ == given.skip(results@.len() as int),
            forall|i: int| 0 <= i < all.len() ==> #[trigger] call_requires(*f, (all[i], given[i])),
            forall|i: int|
                0 <= i < results@.len() ==> call_ensures(*f, (all[i], given[i]), #[trigger] results@[i]),
        decreases a@.len(),
    {
        let ghost n = results@.len() as int;
        let x = a.remove(0);
        let y = b.remove(0);
        proof {
            assert(x == all[n]);
            assert(y == given[n]);
            assert(a@ =~= all.skip(n + 1));
            assert(b@ =~= given.skip(n + 1));
        }
        results.push(f(x, y));
    }
    results
}

/// `ThreadPool::current_num_threads`: the number of threads of the pool. Who made the pool decides
/// it, or the machine, so nothing is said of it.
#[verifier::external_body]
pub(crate) fn pool_threads(pool: &ThreadPool) -> (threads: usize) {
    pool.current_num_threads()
}

/// A pool of worker threads, with the number of threads that it has.
pub struct WorkerPool {
    pub(crate) pool: ThreadPool,
    pub(crate) threads: usize,
}

impl WorkerPool {
    /// The pool that the work is handed to.
    pub closed spec fn pool(&self) -> ThreadPool {
        self.pool
    }

    /// The number of threads.
    pub closed spec fn threads(&self) -> usize {
        self.threads
    }

    /// A worker pool with the threads of `pool`.
    pub fn new(pool: ThreadPool) -> (workers: WorkerPool)
        ensures
            workers.pool() == pool,
    {
        let threads: usize = pool_threads(&pool);
        WorkerPool { pool, threads }
    }

    /// The number of threads.
    pub fn thread_count(&self) -> (count: usize)
        ensures
            count == self.threads(),
    {
        self.threads
    }
}

} // verus!
