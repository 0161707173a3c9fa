//! Properties of every well-formed dispatcher, and so of every state that
//! `new`, `submit`, `next`, `finished` and `close` can reach.
use crate::dispatch::{Dispatcher, Phase};
use vstd::prelude::*;
use vstd::set_lib::{lemma_int_range, lemma_len_subset, lemma_map_size_bound, set_int_range};

verus! {

/// Every accepted job is in exactly one place: waiting in the queue, being
/// run by exactly one worker, or completed. So no job is lost, and none is
/// run twice or by two workers at once.
pub proof fn lemma_exactly_one_place<J>(d: Dispatcher<J>, t: nat)
    requires
        d.wf(),
        t < d.issued(),
    ensures
        d.tickets().contains(t) || d.in_flight(t) || d.completed().contains(t),
        !(d.tickets().contains(t) && d.in_flight(t)),
        !(d.tickets().contains(t) && d.completed().contains(t)),
        !(d.in_flight(t) && d.completed().contains(t)),
{
    if d.tickets().contains(t) {
        let i = choose|i: int| 0 <= i < d.tickets().len() && d.tickets()[i] == t;
        assert(!d.completed().contains(d.tickets()[i]));
        if d.in_flight(t) {
            let w = choose|w: int| d.runs(w, t);
            assert(d.phases()[w] == Phase::Running);
        }
    }
    if d.in_flight(t) {
        let w = choose|w: int| d.runs(w, t);
        assert(d.phases()[w] == Phase::Running);
    }
}

/// No job is delivered to two workers: two workers that run the same job
/// are the same worker.
pub proof fn lemma_no_double_start<J>(d: Dispatcher<J>, v: int, w: int, t: nat)
    requires
        d.wf(),
        d.runs(v, t),
        d.runs(w, t),
    ensures
        v == w,
{
    if v != w {
        assert(d.held()[v] != d.held()[w]);
    }
}

/// At any moment no more jobs are executing than there are workers.
pub proof fn lemma_bounded_concurrency<J>(d: Dispatcher<J>)
    requires
        d.wf(),
    ensures
        d.executing().finite(),
        d.executing().len() <= d.busy_workers().len(),
        d.busy_workers().len() <= d.size(),
{
    let busy = d.busy_workers();
    let range = set_int_range(0, d.size() as int);
    lemma_int_range(0, d.size() as int);
    assert(busy.subset_of(range));
    lemma_len_subset(busy, range);
    let f = |w: int| d.held()[w];
    assert(busy.map(f) =~= d.executing()) by {
        assert forall|t: nat| d.executing().contains(t) implies busy.map(f).contains(t) by {
            let w = choose|w: int| d.runs(w, t);
            assert(busy.contains(w) && f(w) == t);
        }
        assert forall|t: nat| busy.map(f).contains(t) implies d.executing().contains(t) by {
            let w = choose|w: int| busy.contains(w) && f(w) == t;
            assert(d.runs(w, t));
        }
    }
    lemma_map_size_bound(busy, d.executing(), f);
}

/// Once every worker has stopped, the queue is empty and every job ever
/// accepted has been completed: shutting down drains the queue and drops
/// nothing.
pub proof fn lemma_drained_when_stopped<J>(d: Dispatcher<J>)
    requires
        d.wf(),
        forall|w: int| 0 <= w < d.size() ==> #[trigger] d.phases()[w] == Phase::Stopped,
    ensures
        d.pending().len() == 0,
        !d.accepting(),
        d.executing() == Set::<nat>::empty(),
        d.completed() == Set::new(|t: nat| t < d.issued()),
{
    assert(d.phases()[0] == Phase::Stopped);
    assert forall|t: nat| !d.in_flight(t) by {
        if d.in_flight(t) {
            let w = choose|w: int| d.runs(w, t);
            assert(d.phases()[w] == Phase::Stopped);
        }
    }
    assert(d.executing() =~= Set::<nat>::empty());
    assert forall|t: nat| t < d.issued() implies d.completed().contains(t) by {
        assert(!d.tickets().contains(t));
        assert(!d.in_flight(t));
    }
    assert(d.completed() =~= Set::new(|t: nat| t < d.issued()));
}

/// A dispatcher that never accepted a job, once closed, has an empty queue
/// and no worker running: `next` tells every worker that is not yet stopped
/// to stop, so teardown cannot wait on anything.
pub proof fn lemma_idle_closure<J>(d: Dispatcher<J>)
    requires
        d.wf(),
        d.issued() == 0,
        !d.accepting(),
    ensures
        d.pending().len() == 0,
        d.executing() == Set::<nat>::empty(),
        forall|w: int|
            0 <= w < d.size() ==> #[trigger] d.phases()[w] == Phase::Waiting || d.phases()[w]
                == Phase::Stopped,
{
    if d.pending().len() > 0 {
        assert(d.tickets()[0] < d.issued());
    }
    assert forall|w: int| 0 <= w < d.size() implies #[trigger] d.phases()[w] == Phase::Waiting
        || d.phases()[w] == Phase::Stopped by {
        if d.phases()[w] == Phase::Running {
            assert(d.held()[w] < d.issued());
        }
    }
    assert forall|t: nat| !d.in_flight(t) by {
        if d.in_flight(t) {
            let w = choose|w: int| d.runs(w, t);
            assert(d.phases()[w] == Phase::Running);
        }
    }
    assert(d.executing() =~= Set::<nat>::empty());
}

} // verus!
