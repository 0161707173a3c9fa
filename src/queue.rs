//! The job queue: an unbounded FIFO with one sending side. Once the sending
//! side is released the queue is closed; a closed queue still hands out what
//! it holds, and reports closure only when it is empty.
use std::collections::VecDeque;
use vstd::prelude::*;

verus! {

/// What a take from the queue yields.
pub enum Take<J> {
    /// The job at the head of the queue, now removed from it.
    Job(J),
    /// The queue is empty but still open: the caller should wait.
    Empty,
    /// The queue is empty and closed: no job will ever arrive.
    Closed,
}

/// A job that was refused because the queue had been closed.
pub struct Refused<J> {
    pub job: J,
}

#[verifier::reject_recursive_types(J)]
pub struct JobQueue<J> {
    items: VecDeque<J>,
    open: bool,
}

impl<J> JobQueue<J> {
    /// The jobs waiting, head first.
    pub closed spec fn pending(&self) -> Seq<J> {
        self.items@
    }

    /// Whether the sending side is still held.
    pub closed spec fn is_open(&self) -> bool {
        self.open
    }

    /// An empty, open queue.
    pub fn new() -> (q: Self)
        ensures
            q.pending() == Seq::<J>::empty(),
            q.is_open(),
    {
        JobQueue { items: VecDeque::new(), open: true }
    }

    /// Appends `job` at the tail while the queue is open; a closed queue
    /// hands the job back untouched.
    pub fn enqueue(&mut self, job: J) -> (r: Result<(), Refused<J>>)
        ensures
            final(self).is_open() == old(self).is_open(),
            old(self).is_open() ==> r is Ok && final(self).pending() == old(self).pending().push(job),
            !old(self).is_open() ==> r == Err::<(), Refused<J>>(Refused { job })
                && final(self).pending() == old(self).pending(),
    {
        if self.open {
            self.items.push_back(job);
            Ok(())
        } else {
            Err(Refused { job })
        }
    }

    /// Removes and returns the head job; with none waiting, tells an open
    /// queue from a closed one.
    pub fn take(&mut self) -> (r: Take<J>)
        ensures
            final(self).is_open() == old(self).is_open(),
            old(self).pending().len() > 0 ==> r == Take::Job(old(self).pending()[0])
                && final(self).pending() == old(self).pending().drop_first(),
            old(self).pending().len() == 0 ==> final(self).pending() == old(self).pending()
                && r == (if old(self).is_open() { Take::<J>::Empty } else { Take::<J>::Closed }),
    {
        match self.items.pop_front() {
            Some(job) => Take::Job(job),
            None => if self.open {
                Take::Empty
            } else {
                Take::Closed
            },
        }
    }

    /// Releases the sending side. Returns whether this call was the one that
    /// released it; the jobs waiting stay.
    pub fn close(&mut self) -> (released: bool)
        ensures
            released == old(self).is_open(),
            !final(self).is_open(),
            final(self).pending() == old(self).pending(),
    {
        let released = self.open;
        self.open = false;
        released
    }

    /// The number of jobs waiting.
    pub fn len(&self) -> (n: usize)
        ensures
            n == self.pending().len(),
    {
        self.items.len()
    }

    /// Whether the sending side is still held.
    pub fn open(&self) -> (r: bool)
        ensures
            r == self.is_open(),
    {
        self.open
    }
}

} // verus!
