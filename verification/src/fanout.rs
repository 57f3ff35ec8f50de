//! Bounded-concurrency fan-out: the scheduler state for a phase that
//! uploads many items with a cap on how many run at once.
//!
//! A driver repeatedly asks `next_step`: launch another item, wait for one
//! to finish, or stop.  The structure's well-formedness bounds the
//! in-flight set by the capacity at every step, so no instant sees more
//! than the cap in flight.

use vstd::prelude::*;

verus! {

/// The in-flight cap used by every upload phase.
pub const UPLOAD_CONCURRENCY_LIMIT: usize = 25;

/// What the driver should do next.
#[derive(Clone, Copy, PartialEq, Eq, Structural, Debug)]
pub enum FanOutStep {
    /// Capacity is free and work is pending: start another item.
    Launch,
    /// Everything pending is either done or running at the cap: wait for
    /// one in-flight item to finish.
    AwaitOne,
    /// Nothing pending and nothing in flight.
    Finished,
}

/// The scheduler state of one bounded fan-out phase.
pub struct FanOut<T> {
    pending: Vec<T>,
    in_flight: Vec<T>,
    done: Vec<T>,
    cap: usize,
}

impl<T> FanOut<T> {
    pub closed spec fn pending_seq(self) -> Seq<T> {
        self.pending@
    }

    pub closed spec fn in_flight_seq(self) -> Seq<T> {
        self.in_flight@
    }

    pub closed spec fn done_seq(self) -> Seq<T> {
        self.done@
    }

    pub closed spec fn capacity(self) -> nat {
        self.cap as nat
    }

    /// At no instant are more than `capacity` items in flight.
    pub open spec fn wf(self) -> bool {
        &&& self.capacity() >= 1
        &&& self.in_flight_seq().len() <= self.capacity()
    }

    pub fn new(items: Vec<T>, cap: usize) -> (r: FanOut<T>)
        requires
            cap >= 1,
        ensures
            r.wf(),
            r.capacity() == cap,
            r.pending_seq() == items@,
            r.in_flight_seq() =~= Seq::<T>::empty(),
            r.done_seq() =~= Seq::<T>::empty(),
    {
        FanOut { pending: items, in_flight: Vec::new(), done: Vec::new(), cap }
    }

    /// A fan-out at the engine's upload cap.
    pub fn for_uploads(items: Vec<T>) -> (r: FanOut<T>)
        ensures
            r.wf(),
            r.capacity() == UPLOAD_CONCURRENCY_LIMIT as nat,
            r.pending_seq() == items@,
            r.in_flight_seq() =~= Seq::<T>::empty(),
            r.done_seq() =~= Seq::<T>::empty(),
    {
        Self::new(items, UPLOAD_CONCURRENCY_LIMIT)
    }

    /// The driver's next move.
    pub fn next_step(&self) -> (r: FanOutStep)
        requires
            self.wf(),
        ensures
            match r {
                FanOutStep::Launch => self.pending_seq().len() > 0 && self.in_flight_seq().len()
                    < self.capacity(),
                FanOutStep::AwaitOne => self.in_flight_seq().len() > 0 && (self.pending_seq().len()
                    == 0 || self.in_flight_seq().len() == self.capacity()),
                FanOutStep::Finished => self.pending_seq().len() == 0 && self.in_flight_seq().len()
                    == 0,
            },
    {
        if self.pending.len() > 0 && self.in_flight.len() < self.cap {
            FanOutStep::Launch
        } else if self.in_flight.len() > 0 {
            FanOutStep::AwaitOne
        } else {
            FanOutStep::Finished
        }
    }

    /// Starts one pending item and returns its in-flight slot; legal only
    /// below the cap, so the bound is never exceeded.
    pub fn launch(&mut self) -> (i: usize)
        requires
            old(self).wf(),
            old(self).pending_seq().len() > 0,
            old(self).in_flight_seq().len() < old(self).capacity(),
        ensures
            final(self).wf(),
            final(self).capacity() == old(self).capacity(),
            final(self).pending_seq() == old(self).pending_seq().drop_last(),
            final(self).in_flight_seq() == old(self).in_flight_seq().push(
                old(self).pending_seq().last(),
            ),
            final(self).done_seq() == old(self).done_seq(),
            i == final(self).in_flight_seq().len() - 1,
    {
        let item = self.pending.pop().unwrap();
        self.in_flight.push(item);
        self.in_flight.len() - 1
    }

    /// The in-flight item at slot `i`.
    pub fn item(&self, i: usize) -> (r: &T)
        requires
            self.wf(),
            i < self.in_flight_seq().len(),
        ensures
            *r == self.in_flight_seq()[i as int],
    {
        &self.in_flight[i]
    }

    /// Records that the in-flight item at `i` finished.
    pub fn complete(&mut self, i: usize)
        requires
            old(self).wf(),
            i < old(self).in_flight_seq().len(),
        ensures
            final(self).wf(),
            final(self).capacity() == old(self).capacity(),
            final(self).pending_seq() == old(self).pending_seq(),
            final(self).in_flight_seq() == old(self).in_flight_seq().remove(i as int),
            final(self).done_seq() == old(self).done_seq().push(
                old(self).in_flight_seq()[i as int],
            ),
    {
        let item = self.in_flight.remove(i);
        self.done.push(item);
    }
}

/// The concurrency bound, as a law: a well-formed fan-out never has more
/// items in flight than its capacity, and every operation keeps it
/// well-formed.
pub proof fn lemma_in_flight_bounded<T>(f: FanOut<T>)
    requires
        f.wf(),
    ensures
        f.in_flight_seq().len() <= f.capacity(),
{
}

} // verus!
