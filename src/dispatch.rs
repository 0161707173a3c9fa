//! The dispatcher: the state that a pool's workers share. It owns the job
//! queue and the phase of every worker, and decides, for a worker that asks,
//! whether it runs the next job, waits, or stops.
//!
//! Each submitted job is given a ghost ticket (its rank among submissions).
//! The well-formedness predicate keeps every ticket in exactly one place:
//! waiting in the queue, held by exactly one running worker, or completed.
use crate::queue::{JobQueue, Refused, Take};
use vstd::prelude::*;

verus! {

/// Where a worker stands.
#[derive(Clone, Copy, Debug, PartialEq, Eq, Structural)]
pub enum Phase {
    /// Ready to take a job, or blocked waiting for one.
    Waiting,
    /// Running one job to completion.
    Running,
    /// Saw the queue closed and drained; it takes no more jobs.
    Stopped,
}

/// What the dispatcher tells a waiting worker to do.
pub enum Step<J> {
    /// Run this job, then report back with `finished`.
    Run(J),
    /// Nothing to do yet: block until a job is submitted or the queue closes.
    Wait,
    /// The queue is closed and empty: end the worker's thread.
    Stop,
}

#[verifier::reject_recursive_types(J)]
pub struct Dispatcher<J> {
    queue: JobQueue<J>,
    phases: Vec<Phase>,
    /// Ticket of each queued job, head first.
    tickets: Ghost<Seq<nat>>,
    /// For each worker, the ticket of the job it runs (read only while it
    /// is `Running`).
    held: Ghost<Seq<nat>>,
    /// Tickets `0 .. issued` have been handed out.
    issued: Ghost<nat>,
    /// Tickets whose job has run to completion.
    completed: Ghost<Set<nat>>,
}

impl<J> Dispatcher<J> {
    /// The jobs waiting in the queue, head first.
    pub closed spec fn pending(&self) -> Seq<J> {
        self.queue.pending()
    }

    /// Whether submissions are still accepted (the sending side is held).
    pub closed spec fn accepting(&self) -> bool {
        self.queue.is_open()
    }

    /// The phase of each worker, by id.
    pub closed spec fn phases(&self) -> Seq<Phase> {
        self.phases@
    }

    /// The tickets of the waiting jobs, head first.
    pub closed spec fn tickets(&self) -> Seq<nat> {
        self.tickets@
    }

    /// For each worker, the ticket of the job it runs.
    pub closed spec fn held(&self) -> Seq<nat> {
        self.held@
    }

    /// The number of jobs ever accepted.
    pub closed spec fn issued(&self) -> nat {
        self.issued@
    }

    /// The tickets of the jobs that have run to completion.
    pub closed spec fn completed(&self) -> Set<nat> {
        self.completed@
    }

    /// The number of workers.
    pub open spec fn size(&self) -> nat {
        self.phases().len()
    }

    /// Worker `w` is running the job with ticket `t`.
    pub open spec fn runs(&self, w: int, t: nat) -> bool {
        &&& 0 <= w < self.size()
        &&& self.phases()[w] == Phase::Running
        &&& self.held()[w] == t
    }

    /// Ticket `t` belongs to a job some worker is running.
    pub open spec fn in_flight(&self, t: nat) -> bool {
        exists|w: int| #[trigger] self.runs(w, t)
    }

    /// The tickets of the jobs being executed right now.
    pub open spec fn executing(&self) -> Set<nat> {
        Set::new(|t: nat| self.in_flight(t))
    }

    /// The ids of the workers that are running a job.
    pub open spec fn busy_workers(&self) -> Set<int> {
        Set::new(|w: int| 0 <= w < self.size() && self.phases()[w] == Phase::Running)
    }

    /// `self` and `other` agree on everything the contracts speak of.
    pub open spec fn same_as(&self, other: Self) -> bool {
        &&& self.pending() == other.pending()
        &&& self.accepting() == other.accepting()
        &&& self.phases() == other.phases()
        &&& self.tickets() == other.tickets()
        &&& self.held() == other.held()
        &&& self.issued() == other.issued()
        &&& self.completed() == other.completed()
    }

    /// The invariant every reachable dispatcher keeps.
    pub open spec fn wf(&self) -> bool {
        &&& self.size() > 0
        &&& self.held().len() == self.size()
        &&& self.tickets().len() == self.pending().len()
        &&& self.tickets().no_duplicates()
        &&& forall|i: int|
            0 <= i < self.tickets().len() ==> #[trigger] self.tickets()[i] < self.issued()
                && !self.completed().contains(self.tickets()[i])
        &&& forall|w: int|
            0 <= w < self.size() && #[trigger] self.phases()[w] == Phase::Running ==> {
                &&& self.held()[w] < self.issued()
                &&& !self.tickets().contains(self.held()[w])
                &&& !self.completed().contains(self.held()[w])
            }
        &&& forall|v: int, w: int|
            0 <= v < self.size() && 0 <= w < self.size() && v != w && self.phases()[v] == Phase::Running
                && self.phases()[w] == Phase::Running ==> #[trigger] self.held()[v] != #[trigger] self.held()[w]
        &&& forall|t: nat| #[trigger] self.completed().contains(t) ==> t < self.issued()
        &&& forall|t: nat|
            t < self.issued() ==> #[trigger] self.tickets().contains(t) || self.completed().contains(t)
                || self.in_flight(t)
        &&& forall|w: int|
            0 <= w < self.size() && #[trigger] self.phases()[w] == Phase::Stopped ==> !self.accepting()
                && self.pending().len() == 0
    }

    /// Well-formedness depends only on what `same_as` compares.
    proof fn lemma_same_wf(self, other: Self)
        requires
            self.wf(),
            self.same_as(other),
        ensures
            other.wf(),
    {
        assert forall|t: nat| self.in_flight(t) implies other.in_flight(t) by {
            let w = choose|w: int| self.runs(w, t);
            assert(other.runs(w, t));
        }
    }

    /// A dispatcher for `size` workers, all waiting, with an empty open queue.
    pub fn new(size: usize) -> (d: Self)
        requires
            size > 0,
        ensures
            d.wf(),
            d.size() == size,
            forall|w: int| 0 <= w < size ==> #[trigger] d.phases()[w] == Phase::Waiting,
            d.pending() == Seq::<J>::empty(),
            d.accepting(),
            d.issued() == 0,
            d.completed() == Set::<nat>::empty(),
    {
        let mut phases: Vec<Phase> = Vec::with_capacity(size);
        let mut i: usize = 0;
        while i < size
            invariant
                i <= size,
                phases@.len() == i,
                forall|w: int| 0 <= w < i ==> #[trigger] phases@[w] == Phase::Waiting,
            decreases size - i,
        {
            phases.push(Phase::Waiting);
            i = i + 1;
        }
        Dispatcher {
            queue: JobQueue::new(),
            phases,
            tickets: Ghost(Seq::empty()),
            held: Ghost(Seq::new(size as nat, |w: int| 0nat)),
            issued: Ghost(0),
            completed: Ghost(Set::empty()),
        }
    }

    /// Queues `job` while submissions are accepted, giving it the next
    /// ticket; once the queue is closed the job is handed back.
    pub fn submit(&mut self, job: J) -> (r: Result<(), Refused<J>>)
        requires
            old(self).wf(),
        ensures
            final(self).wf(),
            final(self).accepting() == old(self).accepting(),
            final(self).phases() == old(self).phases(),
            final(self).held() == old(self).held(),
            final(self).completed() == old(self).completed(),
            old(self).accepting() ==> {
                &&& r is Ok
                &&& final(self).pending() == old(self).pending().push(job)
                &&& final(self).tickets() == old(self).tickets().push(old(self).issued())
                &&& final(self).issued() == old(self).issued() + 1
            },
            !old(self).accepting() ==> {
                &&& r == Err::<(), Refused<J>>(Refused { job })
                &&& final(self).same_as(*old(self))
            },
    {
        let r = self.queue.enqueue(job);
        if r.is_ok() {
            let ghost t = self.issued@;
            self.tickets = Ghost(self.tickets@.push(t));
            self.issued = Ghost(t + 1);
            proof {
                assert(self.tickets().last() == t);
                assert forall|x: nat| #[trigger] self.completed().contains(x) implies x < self.issued() by {
                    assert(old(self).completed().contains(x));
                }
                assert forall|i: int| 0 <= i < self.tickets().len() implies
                    #[trigger] self.tickets()[i] < self.issued()
                    && !self.completed().contains(self.tickets()[i]) by {
                    if i < old(self).tickets().len() {
                        assert(self.tickets()[i] == old(self).tickets()[i]);
                    } else {
                        assert(self.tickets()[i] == t);
                        assert(!old(self).completed().contains(t));
                    }
                }
                assert forall|x: nat| x < self.issued() implies #[trigger] self.tickets().contains(x)
                    || self.completed().contains(x) || self.in_flight(x) by {
                    if x == t {
                        assert(self.tickets()[self.tickets().len() - 1] == t);
                    } else {
                        if old(self).tickets().contains(x) {
                            let i = choose|i: int| 0 <= i < old(self).tickets().len() && old(self).tickets()[i] == x;
                            assert(self.tickets()[i] == x);
                        }
                        if old(self).in_flight(x) {
                            let w = choose|w: int| old(self).runs(w, x);
                            assert(self.runs(w, x));
                        }
                    }
                }
                assert(self.tickets().no_duplicates()) by {
                    assert forall|i: int| 0 <= i < old(self).tickets().len() implies
                        #[trigger] old(self).tickets()[i] != t by {
                        assert(old(self).tickets()[i] < old(self).issued());
                    }
                }
                assert forall|w: int| 0 <= w < self.size() && #[trigger] self.phases()[w] == Phase::Running
                    implies !self.tickets().contains(self.held()[w]) by {
                    assert(old(self).held()[w] < t);
                    if self.tickets().contains(self.held()[w]) {
                        let i = choose|i: int| 0 <= i < self.tickets().len() && self.tickets()[i] == self.held()[w];
                        if i < old(self).tickets().len() {
                            assert(old(self).tickets()[i] == self.held()[w]);
                        }
                    }
                }
            }
        } else {
            proof {
                old(self).lemma_same_wf(*self);
            }
        }
        r
    }

    /// Tells waiting worker `worker` what to do: run the head job, wait for
    /// one, or stop because the queue is closed and drained.
    pub fn next(&mut self, worker: usize) -> (step: Step<J>)
        requires
            old(self).wf(),
            worker < old(self).size(),
            old(self).phases()[worker as int] == Phase::Waiting,
        ensures
            final(self).wf(),
            final(self).accepting() == old(self).accepting(),
            final(self).issued() == old(self).issued(),
            final(self).completed() == old(self).completed(),
            old(self).pending().len() > 0 ==> {
                &&& step == Step::Run(old(self).pending()[0])
                &&& final(self).pending() == old(self).pending().drop_first()
                &&& final(self).tickets() == old(self).tickets().drop_first()
                &&& final(self).phases() == old(self).phases().update(worker as int, Phase::Running)
                &&& final(self).held() == old(self).held().update(worker as int, old(self).tickets()[0])
            },
            old(self).pending().len() == 0 && old(self).accepting() ==> {
                &&& step is Wait
                &&& final(self).same_as(*old(self))
            },
            old(self).pending().len() == 0 && !old(self).accepting() ==> {
                &&& step is Stop
                &&& final(self).pending() == old(self).pending()
                &&& final(self).tickets() == old(self).tickets()
                &&& final(self).phases() == old(self).phases().update(worker as int, Phase::Stopped)
                &&& final(self).held() == old(self).held()
            },
    {
        match self.queue.take() {
            Take::Job(job) => {
                let ghost t = self.tickets@[0];
                proof {
                    assert(self.tickets().contains(t));
                }
                self.tickets = Ghost(self.tickets@.drop_first());
                self.held = Ghost(self.held@.update(worker as int, t));
                self.phases.set(worker, Phase::Running);
                proof {
                    assert forall|x: nat| #[trigger] self.completed().contains(x) implies x < self.issued() by {
                        assert(old(self).completed().contains(x));
                    }
                    assert(!self.tickets().contains(t)) by {
                        if self.tickets().contains(t) {
                            let i = choose|i: int| 0 <= i < self.tickets().len() && self.tickets()[i] == t;
                            assert(old(self).tickets()[i + 1] == t);
                        }
                    }
                    assert(self.runs(worker as int, t));
                    assert forall|x: nat| x < self.issued() implies #[trigger] self.tickets().contains(x)
                        || self.completed().contains(x) || self.in_flight(x) by {
                        if x != t {
                            if old(self).tickets().contains(x) {
                                let i = choose|i: int| 0 <= i < old(self).tickets().len() && old(self).tickets()[i] == x;
                                assert(i != 0);
                                assert(self.tickets()[i - 1] == x);
                            }
                            if old(self).in_flight(x) {
                                let w = choose|w: int| old(self).runs(w, x);
                                assert(self.runs(w, x));
                            }
                        } else {
                            assert(self.in_flight(x));
                        }
                    }
                    assert forall|w: int| 0 <= w < self.size() && #[trigger] self.phases()[w] == Phase::Running
                        implies !self.tickets().contains(self.held()[w]) by {
                        if w != worker && self.tickets().contains(self.held()[w]) {
                            let i = choose|i: int| 0 <= i < self.tickets().len() && self.tickets()[i] == self.held()[w];
                            assert(old(self).tickets()[i + 1] == self.held()[w]);
                        }
                    }
                    assert forall|i: int| 0 <= i < self.tickets().len() implies
                        #[trigger] self.tickets()[i] < self.issued()
                        && !self.completed().contains(self.tickets()[i]) by {
                        assert(self.tickets()[i] == old(self).tickets()[i + 1]);
                    }
                    assert forall|v: int, w: int|
                        0 <= v < self.size() && 0 <= w < self.size() && v != w && self.phases()[v] == Phase::Running
                && self.phases()[w] == Phase::Running implies #[trigger] self.held()[v] != #[trigger] self.held()[w] by {
                        if v == worker {
                            assert(old(self).phases@[w] == Phase::Running);
                        }
                        if w == worker {
                            assert(old(self).phases@[v] == Phase::Running);
                        }
                    }
                }
                Step::Run(job)
            },
            Take::Empty => {
                proof {
                old(self).lemma_same_wf(*self);
            }
                Step::Wait
            },
            Take::Closed => {
                self.phases.set(worker, Phase::Stopped);
                proof {
                    assert forall|x: nat| #[trigger] self.completed().contains(x) implies x < self.issued() by {
                        assert(old(self).completed().contains(x));
                    }
                    assert forall|x: nat| x < self.issued() implies #[trigger] self.tickets().contains(x)
                        || self.completed().contains(x) || self.in_flight(x) by {
                        if old(self).in_flight(x) {
                            let w = choose|w: int| old(self).runs(w, x);
                            assert(self.runs(w, x));
                        }
                    }
                    assert forall|v: int, w: int|
                        0 <= v < self.size() && 0 <= w < self.size() && v != w && self.phases()[v] == Phase::Running
                && self.phases()[w] == Phase::Running implies #[trigger] self.held()[v] != #[trigger] self.held()[w] by {
                        assert(old(self).phases@[v] == Phase::Running);
                        assert(old(self).phases@[w] == Phase::Running);
                    }
                }
                Step::Stop
            },
        }
    }
    /// Records that running worker `worker` has run its job to completion;
    /// the worker is waiting again.
    pub fn finished(&mut self, worker: usize)
        requires
            old(self).wf(),
            worker < old(self).size(),
            old(self).phases()[worker as int] == Phase::Running,
        ensures
            final(self).wf(),
            !old(self).completed().contains(old(self).held()[worker as int]),
            final(self).completed() == old(self).completed().insert(old(self).held()[worker as int]),
            final(self).phases() == old(self).phases().update(worker as int, Phase::Waiting),
            final(self).held() == old(self).held(),
            final(self).pending() == old(self).pending(),
            final(self).tickets() == old(self).tickets(),
            final(self).accepting() == old(self).accepting(),
            final(self).issued() == old(self).issued(),
    {
        let ghost t = self.held@[worker as int];
        self.phases.set(worker, Phase::Waiting);
        self.completed = Ghost(self.completed@.insert(t));
        proof {
            assert forall|x: nat| x < self.issued() implies #[trigger] self.tickets().contains(x)
                || self.completed().contains(x) || self.in_flight(x) by {
                if x != t && old(self).in_flight(x) {
                    let w = choose|w: int| old(self).runs(w, x);
                    assert(w != worker);
                    assert(self.runs(w, x));
                }
            }
            assert forall|x: nat| #[trigger] self.completed().contains(x) implies x < self.issued() by {
                if x != t {
                    assert(old(self).completed().contains(x));
                }
            }
            assert forall|i: int| 0 <= i < self.tickets().len() implies
                #[trigger] self.tickets()[i] < self.issued()
                && !self.completed().contains(self.tickets()[i]) by {
                assert(self.tickets().contains(self.tickets()[i]));
            }
            assert forall|w: int| 0 <= w < self.size() && #[trigger] self.phases()[w] == Phase::Running
                implies !self.completed().contains(self.held()[w]) by {
                assert(w != worker);
                assert(old(self).phases()[w] == Phase::Running);
            }
            assert forall|v: int, w: int|
                0 <= v < self.size() && 0 <= w < self.size() && v != w && self.phases()[v] == Phase::Running
                && self.phases()[w] == Phase::Running implies #[trigger] self.held()[v] != #[trigger] self.held()[w] by {
                assert(old(self).phases()[v] == Phase::Running);
                assert(old(self).phases()[w] == Phase::Running);
            }
        }
    }

    /// Releases the sending side: no further submission is accepted. Returns
    /// whether this call released it, so a second call is told it was not
    /// the first. Queued jobs stay and will still be handed out.
    pub fn close(&mut self) -> (released: bool)
        requires
            old(self).wf(),
        ensures
            final(self).wf(),
            released == old(self).accepting(),
            !final(self).accepting(),
            final(self).pending() == old(self).pending(),
            final(self).tickets() == old(self).tickets(),
            final(self).phases() == old(self).phases(),
            final(self).held() == old(self).held(),
            final(self).issued() == old(self).issued(),
            final(self).completed() == old(self).completed(),
    {
        let released = self.queue.close();
        proof {
            assert forall|x: nat| #[trigger] self.completed().contains(x) implies x < self.issued() by {
                assert(old(self).completed().contains(x));
            }
            assert forall|i: int| 0 <= i < self.tickets().len() implies
                #[trigger] self.tickets()[i] < self.issued()
                && !self.completed().contains(self.tickets()[i]) by {
                assert(old(self).tickets()[i] == self.tickets()[i]);
            }
            assert forall|x: nat| x < self.issued() implies #[trigger] self.tickets().contains(x)
                || self.completed().contains(x) || self.in_flight(x) by {
                if old(self).in_flight(x) {
                    let w = choose|w: int| old(self).runs(w, x);
                    assert(self.runs(w, x));
                }
            }
        }
        released
    }

    /// The number of workers.
    pub fn worker_count(&self) -> (n: usize)
        ensures
            n == self.size(),
    {
        self.phases.len()
    }

    /// The phase of worker `worker`.
    pub fn phase_of(&self, worker: usize) -> (p: Phase)
        requires
            worker < self.size(),
        ensures
            p == self.phases()[worker as int],
    {
        self.phases[worker]
    }

    /// The number of jobs waiting in the queue.
    pub fn waiting_jobs(&self) -> (n: usize)
        ensures
            n == self.pending().len(),
    {
        self.queue.len()
    }

    /// Whether submissions are still accepted.
    pub fn is_accepting(&self) -> (r: bool)
        ensures
            r == self.accepting(),
    {
        self.queue.open()
    }
}

} // verus!
