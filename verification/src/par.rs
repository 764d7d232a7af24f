//! How much parallelism an operation may use.

use vstd::prelude::*;

verus! {

/// How much parallelism an operation may use. Pure configuration.
#[derive(Clone, Copy, Debug, PartialEq, Eq, Structural)]
pub enum Par {
    /// Run on the calling thread only.
    Sequential,
    /// Run on up to this many worker threads.
    Rayon(usize),
}

/// The least dimension of a problem that is worth a fork.
pub const FORK_THRESHOLD: usize = 8;

/// Calls `rayon::current_num_threads`. The answer depends on the thread pool
/// that happens to be installed, so nothing is claimed of it.
#[verifier::external_body]
fn ambient_threads() -> (n: usize) {
    rayon::current_num_threads()
}

impl Par {
    /// A threaded policy with the requested degree; `0` asks for the ambient
    /// default of the thread pool.
    pub fn rayon(nthreads: usize) -> (r: Par)
        ensures
            r is Rayon,
            nthreads != 0 ==> r == Par::Rayon(nthreads),
    {
        if nthreads == 0 {
            Par::Rayon(ambient_threads())
        } else {
            Par::Rayon(nthreads)
        }
    }

    /// The number of threads the policy asks for.
    pub open spec fn threads(self) -> nat {
        match self {
            Par::Sequential => 1,
            Par::Rayon(n) => n as nat,
        }
    }

    /// The policy for each of two independent branches of a problem of
    /// dimension `work`, if they are to run concurrently: a threaded policy
    /// of degree at least 2 forks problems of dimension `FORK_THRESHOLD` or
    /// more, and hands half its degree to each branch.
    pub open spec fn forked(self, work: usize) -> Option<Par> {
        match self {
            Par::Sequential => None,
            Par::Rayon(n) => if n >= 2 && work >= FORK_THRESHOLD {
                Some(Par::Rayon(n / 2))
            } else {
                None
            },
        }
    }

    /// Decides whether two independent branches of a problem of dimension
    /// `work` run concurrently, and under which policy each.
    pub fn fork(&self, work: usize) -> (r: Option<Par>)
        ensures
            r == self.forked(work),
    {
        match self {
            Par::Sequential => None,
            Par::Rayon(n) => if *n >= 2 && work >= FORK_THRESHOLD {
                Some(Par::Rayon(*n / 2))
            } else {
                None
            },
        }
    }

    /// The number of threads the policy asks for.
    pub fn degree(&self) -> (r: usize)
        ensures
            r == self.threads(),
    {
        match self {
            Par::Sequential => 1,
            Par::Rayon(n) => *n,
        }
    }
}

} // verus!
