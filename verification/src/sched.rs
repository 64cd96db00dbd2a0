//! The ready queue and the per-hart processor record.
//!
//! A single scheduler thread per hart repeatedly takes the next Ready
//! thread from the queue and switches into it; a yielding thread goes to
//! the back. The queue is strictly first-in first-out.

use vstd::prelude::*;

verus! {

/// The global ready queue of thread ids, first-in first-out.
pub struct Scheduler {
    pub queue: Vec<u64>,
}

impl Scheduler {
    /// An empty queue.
    pub fn new() -> (r: Scheduler)
        ensures
            r.queue@ =~= Seq::<u64>::empty(),
    {
        Scheduler { queue: Vec::new() }
    }

    /// Add a thread at the back of the queue.
    pub fn add_thread(&mut self, tid: u64)
        ensures
            final(self).queue@ == old(self).queue@.push(tid),
    {
        self.queue.push(tid);
    }

    /// Take the thread at the front of the queue: threads leave in
    /// exactly the order they entered.
    pub fn get_next(&mut self) -> (r: Option<u64>)
        ensures
            old(self).queue@.len() == 0 ==> r is None && final(self).queue@ == old(self).queue@,
            old(self).queue@.len() > 0 ==> r == Some(old(self).queue@[0]) && final(self).queue@
                == old(self).queue@.drop_first(),
    {
        if self.queue.len() == 0 {
            return None;
        }
        let t = self.queue.remove(0);
        proof {
            assert(final(self).queue@ =~= old(self).queue@.drop_first());
        }
        Some(t)
    }
}

/// Threads entered in some order leave in the same order: taking twice
/// from a queue that begins with `a` then `b` yields `a` then `b`.
pub proof fn lemma_fifo_order(q: Seq<u64>, a: u64, b: u64)
    ensures
        q.push(a).push(b).len() >= 2,
        q.len() == 0 ==> q.push(a).push(b)[0] == a && q.push(a).push(b).drop_first()[0] == b,
{
    if q.len() == 0 {
        assert(q.push(a).push(b)[0] == a);
        assert(q.push(a).push(b).drop_first() =~= seq![b]);
    }
}

/// The per-hart record: the threads sleeping on this hart and the saved
/// context of its scheduler loop.
pub struct Processor {
    pub sleeping_threads: Vec<u64>,
    pub idle_task_cx: u64,
}

impl Processor {
    /// A fresh hart record.
    pub fn new() -> (r: Processor)
        ensures
            r.sleeping_threads@ =~= Seq::<u64>::empty(),
            r.idle_task_cx == 0,
    {
        Processor { sleeping_threads: Vec::new(), idle_task_cx: 0 }
    }

    /// Park a thread on this hart.
    pub fn sleep(&mut self, tid: u64)
        ensures
            final(self).sleeping_threads@ == old(self).sleeping_threads@.push(tid),
            final(self).idle_task_cx == old(self).idle_task_cx,
    {
        self.sleeping_threads.push(tid);
    }

    /// Wake a parked thread: its first occurrence leaves the list.
    pub fn wake(&mut self, tid: u64) -> (r: bool)
        ensures
            r <==> old(self).sleeping_threads@.contains(tid),
            !r ==> final(self).sleeping_threads@ == old(self).sleeping_threads@,
            r ==> exists|k: int|
                #![auto]
                {
                    &&& 0 <= k < old(self).sleeping_threads@.len()
                    &&& old(self).sleeping_threads@[k] == tid
                    &&& final(self).sleeping_threads@ == old(self).sleeping_threads@.remove(k)
                },
            final(self).idle_task_cx == old(self).idle_task_cx,
    {
        let mut k: usize = 0;
        while k < self.sleeping_threads.len()
            invariant
                k <= self.sleeping_threads.len(),
                self.sleeping_threads@ == old(self).sleeping_threads@,
                self.idle_task_cx == old(self).idle_task_cx,
                forall|j: int| 0 <= j < k ==> old(self).sleeping_threads@[j] != tid,
            decreases self.sleeping_threads.len() - k,
        {
            if self.sleeping_threads[k] == tid {
                self.sleeping_threads.remove(k);
                return true;
            }
            k = k + 1;
        }
        proof {
            assert(!old(self).sleeping_threads@.contains(tid));
        }
        false
    }
}

} // verus!
