//! The process-wide registry: one [`ThreadProfiler`] per thread identity,
//! registered once.
//!
//! The registry itself is a pure value; it promises that thread names stay
//! pairwise distinct, and that registration succeeds exactly when the name
//! is not yet taken. The surrounding application supplies the mutual
//! exclusion for first-time registration and keeps saving quiescent with
//! respect to running instrumentation, as the capture design requires.

use vstd::prelude::*;

use crate::ProfilerError;
use crate::thread_profiler::{ThreadModel, ThreadProfiler};

verus! {

/// Process-wide aggregate: every registered thread's profiler.
pub struct GlobalProfiler {
    threads: Vec<ThreadProfiler>,
}

/// The mathematical value of a [`GlobalProfiler`].
pub ghost struct GlobalModel {
    pub threads: Seq<ThreadModel>,
}

impl View for GlobalProfiler {
    type V = GlobalModel;

    closed spec fn view(&self) -> GlobalModel {
        GlobalModel { threads: self.threads@.map_values(|t: ThreadProfiler| t@) }
    }
}

/// Thread identities are the registry's keys: pairwise distinct.
pub open spec fn names_unique(ts: Seq<ThreadModel>) -> bool {
    forall|i: int, j: int|
        0 <= i < j < ts.len() ==> (#[trigger] ts[i]).name != (#[trigger] ts[j]).name
}

/// Some registered thread already carries this name.
pub open spec fn taken(g: GlobalModel, name: Seq<char>) -> bool {
    exists|i: int| 0 <= i < g.threads.len() && (#[trigger] g.threads[i]).name == name
}

impl GlobalProfiler {
    /// An empty registry.
    pub fn new() -> (r: GlobalProfiler)
        ensures
            r@.threads == Seq::<ThreadModel>::empty(),
    {
        let r = GlobalProfiler { threads: Vec::new() };
        proof {
            assert(r@.threads =~= Seq::<ThreadModel>::empty());
        }
        r
    }

    /// How many threads are registered.
    pub fn len(&self) -> (r: usize)
        ensures
            r == self@.threads.len(),
    {
        self.threads.len()
    }

    /// The profiler registered at position `i` (registration order).
    pub fn get(&self, i: usize) -> (r: &ThreadProfiler)
        requires
            i < self@.threads.len(),
        ensures
            r@ == self@.threads[i as int],
    {
        &self.threads[i]
    }

    /// The position of the thread named `name`, if it is registered.
    pub fn find(&self, name: &String) -> (r: Option<usize>)
        ensures
            match r {
                Some(i) => i < self@.threads.len() && self@.threads[i as int].name == name@,
                None => forall|i: int|
                    0 <= i < self@.threads.len() ==> (#[trigger] self@.threads[i]).name != name@,
            },
    {
        let n = self.threads.len();
        for i in 0..n
            invariant
                n == self@.threads.len(),
                forall|k: int| 0 <= k < i ==> (#[trigger] self@.threads[k]).name != name@,
        {
            if *self.threads[i].name() == *name {
                return Some(i);
            }
        }
        None
    }

    /// The registry position of the thread named `name`, registering a
    /// fresh profiler under that name on the first call and returning the
    /// existing entry, untouched, on every later one.
    pub fn for_thread(&mut self, name: String) -> (i: usize)
        ensures
            i < final(self)@.threads.len(),
            final(self)@.threads[i as int].name == name@,
            taken(old(self)@, name@) ==> final(self)@ == old(self)@,
            !taken(old(self)@, name@) ==> i == old(self)@.threads.len()
                && final(self)@.threads == old(self)@.threads.push(
                ThreadModel {
                    name: name@,
                    frames: Seq::empty(),
                    frame_start: 0,
                    mark: 0,
                    open: Seq::empty(),
                    cur: Seq::empty(),
                },
            ) && crate::thread_profiler::live_inv(final(self)@.threads[i as int]),
            names_unique(old(self)@.threads) ==> names_unique(final(self)@.threads),
    {
        match self.find(&name) {
            Some(i) => i,
            None => {
                let i = self.threads.len();
                let ghost v = self@.threads;
                let tp = ThreadProfiler::new(name);
                let ghost tpv = tp@;
                self.threads.push(tp);
                proof {
                    assert(self@.threads =~= v.push(tpv));
                }
                i
            },
        }
    }

    /// Take the registered profilers out of the registry, in registration
    /// order.
    pub fn into_threads(self) -> (r: Vec<ThreadProfiler>)
        ensures
            r@.map_values(|t: ThreadProfiler| t@) == self@.threads,
    {
        self.threads
    }

    /// Register one thread's profiler. Registration is one-time per thread
    /// identity: it succeeds exactly when no profiler of the same name is
    /// present, and otherwise reports [`ProfilerError::Usage`] and leaves
    /// the registry unchanged.
    pub fn register(&mut self, tp: ThreadProfiler) -> (r: Result<(), ProfilerError>)
        ensures
            taken(old(self)@, tp@.name) ==> r == Err::<(), ProfilerError>(ProfilerError::Usage)
                && final(self)@ == old(self)@,
            !taken(old(self)@, tp@.name) ==> r == Ok::<(), ProfilerError>(())
                && final(self)@.threads == old(self)@.threads.push(tp@),
            names_unique(old(self)@.threads) ==> names_unique(final(self)@.threads),
    {
        match self.find(tp.name()) {
            Some(_) => Err(ProfilerError::Usage),
            None => {
                let ghost v = self@.threads;
                self.threads.push(tp);
                proof {
                    assert(self@.threads =~= v.push(tp@));
                }
                Ok(())
            },
        }
    }
}

} // verus!
