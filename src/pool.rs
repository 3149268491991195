//! The routing state of a fixed-size pool of workers: which worker runs which request,
//! and which requests wait for a worker.

use vstd::prelude::*;

verus! {

/// Routing state of a pool. Each worker runs at most one request at a time; requests that
/// find every worker busy wait in arrival order. Requests are numbered as they arrive.
pub struct DispatchPool {
    /// For each worker, the request it runs, if any.
    pub busy: Vec<Option<u64>>,
    /// The requests waiting for a worker, oldest first.
    pub queue: Vec<u64>,
    /// The number that the next request gets.
    pub next_id: u64,
}

impl DispatchPool {
    /// The pool's invariant: at least one worker; every request that is running or waiting
    /// was numbered already and is in one place only; requests wait only while every
    /// worker is busy.
    pub open spec fn wf(&self) -> bool {
        &&& self.busy@.len() >= 1
        &&& forall|w: int| 0 <= w < self.busy@.len() ==> (#[trigger] self.busy@[w] matches Some(id) && id < self.next_id)
            || self.busy@[w] is None
        &&& forall|q: int| 0 <= q < self.queue@.len() ==> #[trigger] self.queue@[q] < self.next_id
        &&& forall|a: int, b: int| 0 <= a < self.busy@.len() && 0 <= b < self.busy@.len() && a != b
            && #[trigger] self.busy@[a] is Some ==> #[trigger] self.busy@[b] != self.busy@[a]
        &&& forall|a: int, b: int| 0 <= a < self.queue@.len() && 0 <= b < self.queue@.len() && a != b
            ==> #[trigger] self.queue@[a] != #[trigger] self.queue@[b]
        &&& forall|w: int, q: int| 0 <= w < self.busy@.len() && 0 <= q < self.queue@.len()
            ==> #[trigger] self.busy@[w] != Some(#[trigger] self.queue@[q])
        &&& self.queue@.len() > 0 ==> self.all_busy()
    }

    /// Every worker runs a request.
    pub open spec fn all_busy(&self) -> bool {
        forall|w: int| 0 <= w < self.busy@.len() ==> #[trigger] self.busy@[w] is Some
    }

    /// The request is running on some worker or waiting for one.
    pub open spec fn holds(&self, id: u64) -> bool {
        (exists|w: int| 0 <= w < self.busy@.len() && self.busy@[w] == Some(id)) || self.queue@.contains(id)
    }

    /// A pool of `workers` idle workers, with no request seen yet.
    pub fn new(workers: usize) -> (r: DispatchPool)
        requires
            workers >= 1,
        ensures
            r.wf(),
            r.busy@ == Seq::new(workers as nat, |w: int| None::<u64>),
            r.queue@ == Seq::<u64>::empty(),
            r.next_id == 0,
    {
        let mut busy: Vec<Option<u64>> = Vec::new();
        let mut i: usize = 0;
        while i < workers
            invariant
                i <= workers,
                busy@ == Seq::new(i as nat, |w: int| None::<u64>),
            decreases workers - i,
        {
            busy.push(None);
            i = i + 1;
            proof {
                assert(busy@ =~= Seq::new(i as nat, |w: int| None::<u64>));
            }
        }
        DispatchPool { busy, queue: Vec::new(), next_id: 0 }
    }

    /// Takes in a new request: it gets the next number and goes to the first idle worker,
    /// or waits at the end of the queue when every worker is busy. Returns the request's
    /// number and the worker it went to.
    pub fn submit(&mut self) -> (r: (u64, Option<usize>))
        requires
            old(self).wf(),
            old(self).next_id < u64::MAX,
        ensures
            final(self).wf(),
            r.0 == old(self).next_id,
            final(self).next_id == old(self).next_id + 1,
            !old(self).holds(r.0),
            final(self).holds(r.0),
            match r.1 {
                Some(w) => {
                    &&& w < old(self).busy@.len()
                    &&& old(self).busy@[w as int] is None
                    &&& forall|v: int| 0 <= v < w ==> #[trigger] old(self).busy@[v] is Some
                    &&& final(self).busy@ == old(self).busy@.update(w as int, Some(r.0))
                    &&& final(self).queue@ == old(self).queue@
                },
                None => {
                    &&& old(self).all_busy()
                    &&& final(self).busy@ == old(self).busy@
                    &&& final(self).queue@ == old(self).queue@.push(r.0)
                },
            },
    {
        let id = self.next_id;
        self.next_id = self.next_id + 1;
        let mut w: usize = 0;
        while w < self.busy.len()
            invariant
                w <= self.busy@.len(),
                forall|v: int| 0 <= v < w ==> #[trigger] self.busy@[v] is Some,
                old(self).wf(),
                id == old(self).next_id,
                self.next_id == id + 1,
                self.busy@ == old(self).busy@,
                self.queue@ == old(self).queue@,
            decreases self.busy.len() - w,
        {
            if self.busy[w].is_none() {
                self.busy.set(w, Some(id));
                assert(self.busy@[w as int] == Some(id));
                return (id, Some(w));
            }
            w = w + 1;
        }
        self.queue.push(id);
        assert(self.queue@[self.queue@.len() - 1] == id);
        (id, None)
    }

    /// Worker `worker` has finished its request. Returns that request's number, to which
    /// the result belongs, and the waiting request that the worker takes next, if any:
    /// the oldest one.
    pub fn complete(&mut self, worker: usize) -> (r: (u64, Option<u64>))
        requires
            old(self).wf(),
            worker < old(self).busy@.len(),
            old(self).busy@[worker as int] is Some,
        ensures
            final(self).wf(),
            r.0 == old(self).busy@[worker as int]->Some_0,
            final(self).next_id == old(self).next_id,
            !final(self).holds(r.0),
            if old(self).queue@.len() == 0 {
                &&& r.1 is None
                &&& final(self).busy@ == old(self).busy@.update(worker as int, None)
                &&& final(self).queue@ == old(self).queue@
            } else {
                &&& r.1 == Some(old(self).queue@[0])
                &&& final(self).busy@ == old(self).busy@.update(worker as int, Some(old(self).queue@[0]))
                &&& final(self).queue@ == old(self).queue@.drop_first()
            },
    {
        let done = self.busy[worker].unwrap();
        if self.queue.len() == 0 {
            self.busy.set(worker, None);
            (done, None)
        } else {
            let next = self.queue.remove(0);
            self.busy.set(worker, Some(next));
            (done, Some(next))
        }
    }
}

} // verus!
