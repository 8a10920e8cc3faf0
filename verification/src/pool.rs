//! The worker pool's bookkeeping: the FIFO of queued tasks (by id), the
//! outstanding-task counter, and the worker-side decision to pop when
//! work is plentiful and otherwise wait. The pool proves the coordination
//! laws: a task is handed out at most once, ids come out in FIFO order,
//! and once the queue is drained and every worker is done the counter
//! is zero. The threads, mutex and condition variable that drive this
//! state live outside the library and mirror one call here per step.

use vstd::prelude::*;

verus! {

/// The task ids `0 .. n`, in order.
pub open spec fn id_range(n: u64) -> Seq<u64> {
    Seq::new(n as nat, |i: int| i as u64)
}

/// The pool's coordination state. `outstanding` mirrors the shared
/// atomic counter: tasks enqueued and not yet completed. `pending`
/// holds the queued task ids, front first. The ghost `taken` history
/// records every id handed to a worker, in order.
pub struct ThreadPool {
    pub pending: Vec<u64>,
    pub outstanding: usize,
    pub running: usize,
    pub next_id: u64,
    pub num_cpus: usize,
    pub taken: Ghost<Seq<u64>>,
}

impl ThreadPool {
    /// The pool's invariant: the counter counts queued plus running
    /// tasks, and the ids handed out so far followed by the ids still
    /// queued are exactly the ids ever issued, in order.
    pub open spec fn wf(&self) -> bool {
        &&& self.outstanding == self.pending@.len() + self.running
        &&& self.taken@ + self.pending@ == id_range(self.next_id)
    }

    /// A pool with the given number of workers and nothing queued.
    pub fn new(num_cpus: usize) -> (r: Self)
        ensures
            r.wf(),
            r.num_cpus == num_cpus,
            r.pending@.len() == 0,
            r.outstanding == 0,
            r.running == 0,
            r.next_id == 0u64,
            r.taken@ == Seq::<u64>::empty(),
    {
        let r = ThreadPool {
            pending: Vec::new(),
            outstanding: 0,
            running: 0,
            next_id: 0,
            num_cpus,
            taken: Ghost(Seq::empty()),
        };
        proof {
            assert(r.taken@ + r.pending@ =~= id_range(0));
        }
        r
    }

    /// Enqueues a task: its id goes to the back of the queue and the
    /// counter rises by one. The caller then signals the workers.
    pub fn spawn(&mut self) -> (id: u64)
        requires
            old(self).wf(),
            old(self).next_id < u64::MAX,
            old(self).outstanding < usize::MAX,
        ensures
            final(self).wf(),
            id == old(self).next_id,
            final(self).pending@ == old(self).pending@.push(id),
            final(self).outstanding == old(self).outstanding + 1,
            final(self).running == old(self).running,
            final(self).next_id == old(self).next_id + 1,
            final(self).taken@ == old(self).taken@,
            final(self).num_cpus == old(self).num_cpus,
    {
        let id = self.next_id;
        self.pending.push(id);
        self.outstanding += 1;
        self.next_id += 1;
        proof {
            assert(self.taken@ + self.pending@ =~= id_range(self.next_id)) by {
                assert(id_range(self.next_id) =~= id_range(id).push(id));
            }
        }
        id
    }

    /// The worker-side decision: with work plentiful (counter at or
    /// above the worker count) pop without waiting; otherwise wait on
    /// the condition variable first.
    pub fn work_is_plentiful(&self) -> (r: bool)
        ensures
            r == (self.outstanding >= self.num_cpus),
    {
        self.outstanding >= self.num_cpus
    }

    /// A worker takes the front task, which starts running; the counter
    /// is untouched until the task completes.
    pub fn take(&mut self) -> (r: Option<u64>)
        requires
            old(self).wf(),
            old(self).running < usize::MAX,
        ensures
            final(self).wf(),
            final(self).next_id == old(self).next_id,
            final(self).num_cpus == old(self).num_cpus,
            final(self).outstanding == old(self).outstanding,
            match r {
                Some(id) => {
                    &&& old(self).pending@.len() > 0
                    &&& id == old(self).pending@[0]
                    &&& final(self).pending@ == old(self).pending@.skip(1)
                    &&& final(self).running == old(self).running + 1
                    &&& final(self).taken@ == old(self).taken@.push(id)
                },
                None => {
                    &&& old(self).pending@.len() == 0
                    &&& *final(self) == *old(self)
                },
            },
    {
        if self.pending.len() == 0 {
            return None;
        }
        let id = self.pending.remove(0);
        self.running += 1;
        proof {
            self.taken@ = self.taken@.push(id);
            assert(self.pending@ =~= old(self).pending@.skip(1));
            assert(self.taken@ + self.pending@ =~= old(self).taken@ + old(self).pending@);
        }
        Some(id)
    }

    /// A worker finished a task: the counter drops by one.
    pub fn complete(&mut self)
        requires
            old(self).wf(),
            old(self).running > 0,
        ensures
            final(self).wf(),
            final(self).running == old(self).running - 1,
            final(self).outstanding == old(self).outstanding - 1,
            final(self).pending@ == old(self).pending@,
            final(self).taken@ == old(self).taken@,
            final(self).next_id == old(self).next_id,
            final(self).num_cpus == old(self).num_cpus,
    {
        self.outstanding -= 1;
        self.running -= 1;
    }
}

/// Tasks are handed out in spawn order, each exactly once: the history
/// of taken ids is an initial run of the issued ids, with no repeats.
pub proof fn lemma_taken_exactly_once(p: &ThreadPool)
    requires
        p.wf(),
    ensures
        forall|i: int| 0 <= i < p.taken@.len() ==> p.taken@[i] == i as u64,
        forall|i: int, j: int| 0 <= i < j < p.taken@.len() ==> p.taken@[i] != p.taken@[j],
{
    assert(p.taken@.len() + p.pending@.len() == id_range(p.next_id).len()) by {
        assert(p.taken@ + p.pending@ == id_range(p.next_id));
    }
    assert forall|i: int| 0 <= i < p.taken@.len() implies p.taken@[i] == i as u64 by {
        assert((p.taken@ + p.pending@)[i] == p.taken@[i]);
        assert((p.taken@ + p.pending@)[i] == id_range(p.next_id)[i]);
        assert(id_range(p.next_id)[i] == i as u64);
    }
}

/// Once the queue is drained and no task is still running, the
/// outstanding counter is zero and every task ever spawned was handed
/// out exactly once.
pub proof fn lemma_pool_drained(p: &ThreadPool)
    requires
        p.wf(),
        p.pending@.len() == 0,
        p.running == 0,
    ensures
        p.outstanding == 0,
        p.taken@ == id_range(p.next_id),
{
    assert(p.taken@ =~= p.taken@ + p.pending@);
}

} // verus!
