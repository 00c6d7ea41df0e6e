//! Queues of threads that wait for a condition.

use std::collections::VecDeque;
use vstd::prelude::*;
use super::{
    is_rescheduled, lemma_tags_pop, lemma_tags_push, no_idle, tags, Next, Scheduler, Switch, Thread,
};

verus! {

/// A queue of threads parked waiting for some condition. They are not touched
/// by the timer: they only become ready again by being woken.
#[derive(Debug)]
pub struct WaitQueue {
    pub waiters: VecDeque<Thread>,
}

/// What a thread that waits for a condition does next.
#[derive(Clone, Copy, Debug, PartialEq, Eq, Structural)]
pub enum WaitStep {
    /// Go on: the condition holds.
    Proceed,
    /// Test the condition again: the scheduler is not up, so nobody could wake the
    /// thread.
    Retry,
    /// The thread is parked. Make the switch, and test the condition again when
    /// the thread runs again.
    Parked(Option<Switch>),
}

impl WaitQueue {
    pub open spec fn wf(self) -> bool {
        no_idle(self.waiters@)
    }

    pub fn new() -> (r: Self)
        ensures
            r.wf(),
            r.waiters@.len() == 0,
    {
        WaitQueue { waiters: VecDeque::new() }
    }

    /// One round of waiting for a condition, with what the condition came to.
    ///
    /// The test and the parking happen in one step with interrupts off, so that
    /// a wakeup between them cannot be lost.
    pub fn wait_until(&mut self, s: &mut Scheduler, holds: bool, now: u64) -> (r: WaitStep)
        requires
            old(self).wf(),
            old(s).wf(),
            old(s).is_up ==> !old(s).current->0.is_idle,
        ensures
            final(self).wf(),
            final(s).wf(),
            r == WaitStep::Proceed <==> holds,
            r == WaitStep::Retry <==> !holds && !old(s).is_up,
            !(r is Parked) ==> *final(s) == *old(s) && final(self).waiters@ == old(self).waiters@,
            r matches WaitStep::Parked(switch) ==> {
                &&& final(self).waiters@ == old(self).waiters@.push(old(s).current->0)
                &&& is_rescheduled(
                    *old(s),
                    *final(s),
                    Next::Block,
                    now,
                    Some(old(s).current->0),
                    switch,
                )
            },
            final(s).threads().add(tags(final(self).waiters@).to_multiset()) == old(
                s,
            ).threads().add(tags(old(self).waiters@).to_multiset()),
    {
        if holds {
            return WaitStep::Proceed;
        }
        if !s.is_up {
            return WaitStep::Retry;
        }
        WaitStep::Parked(self.wait(s, now))
    }

    /// Park the running thread here.
    pub fn wait(&mut self, s: &mut Scheduler, now: u64) -> (r: Option<Switch>)
        requires
            old(self).wf(),
            old(s).wf(),
            old(s).is_up ==> !old(s).current->0.is_idle,
        ensures
            final(self).wf(),
            final(s).wf(),
            !old(s).is_up ==> r is None && *final(s) == *old(s) && final(self).waiters@ == old(
                self,
            ).waiters@,
            old(s).is_up ==> {
                &&& final(self).waiters@ == old(self).waiters@.push(old(s).current->0)
                &&& is_rescheduled(
                    *old(s),
                    *final(s),
                    Next::Block,
                    now,
                    Some(old(s).current->0),
                    r,
                )
            },
            final(s).threads().add(tags(final(self).waiters@).to_multiset()) == old(
                s,
            ).threads().add(tags(old(self).waiters@).to_multiset()),
    {
        if !s.is_up {
            return None;
        }
        let ghost w = self.waiters@;
        let (switch, parked) = s.reschedule(Next::Block, now);
        match parked {
            Some(t) => {
                self.waiters.push_back(t);
                proof {
                    lemma_tags_push(w, t);
                    assert(s.threads().add(tags(self.waiters@).to_multiset()) =~= old(
                        s,
                    ).threads().add(tags(w).to_multiset()));
                }
            },
            None => {},
        }
        switch
    }

    /// Move one waiting thread back onto the ready queue. Tells whether a
    /// thread was woken.
    pub fn wake_one(&mut self, s: &mut Scheduler) -> (r: bool)
        requires
            old(self).wf(),
            old(s).wf(),
        ensures
            final(self).wf(),
            final(s).wf(),
            r == (old(self).waiters@.len() > 0),
            r ==> {
                &&& final(self).waiters@ == old(self).waiters@.drop_first()
                &&& final(s).ready@ == old(s).ready@.push(old(self).waiters@[0])
            },
            !r ==> final(self).waiters@ == old(self).waiters@ && *final(s) == *old(s),
            final(s).same_but_ready(*old(s)),
            final(s).threads().add(tags(final(self).waiters@).to_multiset()) == old(
                s,
            ).threads().add(tags(old(self).waiters@).to_multiset()),
    {
        let ghost w = self.waiters@;
        match self.waiters.pop_front() {
            Some(t) => {
                proof {
                    assert(!w[0].is_idle);
                    lemma_tags_pop(w);
                    assert(self.waiters@ =~= w.drop_first());
                }
                s.enqueue(t);
                proof {
                    assert(s.threads().add(tags(self.waiters@).to_multiset()) =~= old(
                        s,
                    ).threads().add(tags(w).to_multiset()));
                }
                true
            },
            None => false,
        }
    }

    /// Move every waiting thread back onto the ready queue, in order.
    pub fn wake_all(&mut self, s: &mut Scheduler)
        requires
            old(self).wf(),
            old(s).wf(),
        ensures
            final(self).wf(),
            final(s).wf(),
            final(self).waiters@.len() == 0,
            final(s).ready@ == old(s).ready@ + old(self).waiters@,
            final(s).same_but_ready(*old(s)),
            final(s).threads().add(tags(final(self).waiters@).to_multiset()) == old(
                s,
            ).threads().add(tags(old(self).waiters@).to_multiset()),
    {
        let ghost w = self.waiters@;
        let ghost r = s.ready@;
        while self.waiters.len() > 0
            invariant
                self.wf(),
                s.wf(),
                s.ready@ + self.waiters@ == r + w,
                s.same_but_ready(*old(s)),
                s.threads().add(tags(self.waiters@).to_multiset()) == old(s).threads().add(
                    tags(w).to_multiset(),
                ),
            decreases self.waiters@.len(),
        {
            let ghost w0 = self.waiters@;
            let ghost r0 = s.ready@;
            let _ = self.wake_one(s);
            assert(r0.push(w0[0]) + w0.drop_first() =~= r0 + w0);
        }
        assert(s.ready@ =~= r + w);
    }

    /// Number of threads parked here.
    pub fn len(&self) -> (r: usize)
        ensures
            r == self.waiters@.len(),
    {
        self.waiters.len()
    }
}

/// What happens to a queue.
pub enum QueueEvent {
    /// A thread found that its condition does not hold, and is parked.
    Park(u64),
    WakeOne,
    WakeAll,
}

/// The threads that wait after events, and those that were woken, as the contracts of
/// `wait`, `wake_one` and `wake_all` have it.
pub open spec fn queue_after(events: Seq<QueueEvent>) -> (Seq<u64>, Seq<u64>)
    decreases events.len(),
{
    if events.len() == 0 {
        (Seq::empty(), Seq::empty())
    } else {
        let (waiting, woken) = queue_after(events.drop_last());
        match events.last() {
            QueueEvent::Park(id) => (waiting.push(id), woken),
            QueueEvent::WakeOne => if waiting.len() > 0 {
                (waiting.drop_first(), woken.push(waiting[0]))
            } else {
                (waiting, woken)
            },
            QueueEvent::WakeAll => (Seq::empty(), woken + waiting),
        }
    }
}

/// The threads that were parked, in that order.
pub open spec fn parked_by(events: Seq<QueueEvent>) -> Seq<u64>
    decreases events.len(),
{
    if events.len() == 0 {
        Seq::empty()
    } else {
        match events.last() {
            QueueEvent::Park(id) => parked_by(events.drop_last()).push(id),
            _ => parked_by(events.drop_last()),
        }
    }
}

/// No thread is lost and none is woken before one that was parked earlier: whatever
/// happens to a queue, the threads that were woken and then those that wait are the
/// threads that were parked, in the order in which they were.
pub proof fn law_waiters_wake_in_order(events: Seq<QueueEvent>)
    ensures
        queue_after(events).1 + queue_after(events).0 == parked_by(events),
    decreases events.len(),
{
    if events.len() > 0 {
        law_waiters_wake_in_order(events.drop_last());
        let (waiting, woken) = queue_after(events.drop_last());
        match events.last() {
            QueueEvent::Park(id) => {
                assert(woken + waiting.push(id) =~= (woken + waiting).push(id));
            },
            QueueEvent::WakeOne => {
                if waiting.len() > 0 {
                    assert(woken.push(waiting[0]) + waiting.drop_first() =~= woken + waiting);
                }
            },
            QueueEvent::WakeAll => {
                assert((woken + waiting) + Seq::<u64>::empty() =~= woken + waiting);
            },
        }
    }
}

} // verus!
