//! Blocking synchronization primitives.
//!
//! A thread that cannot proceed parks itself on a queue and is woken by whoever
//! releases the resource, rather than spinning or being polled by the timer.

use vstd::prelude::*;
use crate::scheduler::wait::WaitStep;
use crate::scheduler::{is_rescheduled, tags, Next, Scheduler, WaitQueue};

verus! {

/// A mutex that blocks (rather than spins) when contended.
#[derive(Debug)]
pub struct Mutex<T> {
    pub locked: bool,
    pub queue: WaitQueue,
    pub data: T,
}

impl<T> Mutex<T> {
    pub open spec fn wf(self) -> bool {
        self.queue.wf()
    }

    pub fn new(value: T) -> (r: Self)
        ensures
            r.wf(),
            !r.locked,
            r.queue.waiters@.len() == 0,
            r.data == value,
    {
        Mutex { locked: false, queue: WaitQueue::new(), data: value }
    }

    /// Take the lock only if it is free right now.
    pub fn try_lock(&mut self) -> (r: bool)
        ensures
            is_asked(*old(self), *final(self), r),
            final(self).queue == old(self).queue,
            final(self).data == old(self).data,
    {
        let free: bool = !self.locked;
        self.locked = true;
        free
    }

    /// One round of waiting for the lock. The running thread has it when told
    /// to proceed, and only then; otherwise it is parked, and tries again when it
    /// is woken. Before the scheduler is up nobody could wake it, so it tries again
    /// at once.
    pub fn lock(&mut self, s: &mut Scheduler, now: u64) -> (r: WaitStep)
        requires
            old(self).wf(),
            old(s).wf(),
            old(s).is_up ==> !old(s).current->0.is_idle,
        ensures
            final(self).wf(),
            final(s).wf(),
            is_asked(*old(self), *final(self), r == WaitStep::Proceed),
            final(self).data == old(self).data,
            r == WaitStep::Retry <==> old(self).locked && !old(s).is_up,
            !(r is Parked) ==> *final(s) == *old(s) && final(self).queue.waiters@ == old(
                self,
            ).queue.waiters@,
            r matches WaitStep::Parked(switch) ==> {
                &&& final(self).queue.waiters@ == old(self).queue.waiters@.push(old(s).current->0)
                &&& is_rescheduled(
                    *old(s),
                    *final(s),
                    Next::Block,
                    now,
                    Some(old(s).current->0),
                    switch,
                )
            },
            final(s).threads().add(tags(final(self).queue.waiters@).to_multiset()) == old(
                s,
            ).threads().add(tags(old(self).queue.waiters@).to_multiset()),
    {
        let taken: bool = self.try_lock();
        self.queue.wait_until(s, taken, now)
    }

    /// Give the lock up and wake one waiter. At most one can take the lock
    /// next, so waking one is enough. Tells whether one was woken.
    pub fn unlock(&mut self, s: &mut Scheduler) -> (r: bool)
        requires
            old(self).wf(),
            old(s).wf(),
            old(self).locked,
        ensures
            final(self).wf(),
            final(s).wf(),
            is_left(*old(self), *final(self)),
            final(self).data == old(self).data,
            r == (old(self).queue.waiters@.len() > 0),
            r ==> {
                &&& final(self).queue.waiters@ == old(self).queue.waiters@.drop_first()
                &&& final(s).ready@ == old(s).ready@.push(old(self).queue.waiters@[0])
            },
            !r ==> *final(s) == *old(s) && final(self).queue.waiters@ == old(self).queue.waiters@,
            final(s).same_but_ready(*old(s)),
            final(s).threads().add(tags(final(self).queue.waiters@).to_multiset()) == old(
                s,
            ).threads().add(tags(old(self).queue.waiters@).to_multiset()),
    {
        self.locked = false;
        self.queue.wake_one(s)
    }

    /// What the mutex protects, for the thread that has the lock.
    pub fn get(&self) -> (r: &T)
        requires
            self.locked,
        ensures
            *r == self.data,
    {
        &self.data
    }

    /// Change what the mutex protects.
    pub fn set(&mut self, value: T)
        requires
            old(self).locked,
        ensures
            final(self).locked,
            final(self).data == value,
            final(self).queue == old(self).queue,
    {
        self.data = value;
    }
}

/// A counting semaphore. Acquiring blocks while the count is zero; releasing
/// increments it and wakes one waiter.
#[derive(Debug)]
pub struct Semaphore {
    pub count: i64,
    pub queue: WaitQueue,
}

impl Semaphore {
    pub open spec fn wf(self) -> bool {
        self.queue.wf()
    }

    pub fn new(initial: i64) -> (r: Self)
        ensures
            r.wf(),
            r.count == initial,
            r.queue.waiters@.len() == 0,
    {
        Semaphore { count: initial, queue: WaitQueue::new() }
    }

    /// Try to acquire without blocking.
    pub fn try_acquire(&mut self) -> (r: bool)
        ensures
            is_admitted(*old(self), *final(self), r),
            final(self).queue == old(self).queue,
    {
        if self.count > 0 {
            self.count = self.count - 1;
            true
        } else {
            false
        }
    }

    /// One round of acquiring. The running thread has acquired when told to
    /// proceed, and only then; otherwise it is parked, and tries again when it is
    /// woken, or at once where the scheduler is not up.
    pub fn acquire(&mut self, s: &mut Scheduler, now: u64) -> (r: WaitStep)
        requires
            old(self).wf(),
            old(s).wf(),
            old(s).is_up ==> !old(s).current->0.is_idle,
        ensures
            final(self).wf(),
            final(s).wf(),
            is_admitted(*old(self), *final(self), r == WaitStep::Proceed),
            r == WaitStep::Retry <==> old(self).count <= 0 && !old(s).is_up,
            !(r is Parked) ==> *final(s) == *old(s) && final(self).queue.waiters@ == old(
                self,
            ).queue.waiters@,
            r matches WaitStep::Parked(switch) ==> {
                &&& final(self).queue.waiters@ == old(self).queue.waiters@.push(old(s).current->0)
                &&& is_rescheduled(
                    *old(s),
                    *final(s),
                    Next::Block,
                    now,
                    Some(old(s).current->0),
                    switch,
                )
            },
            final(s).threads().add(tags(final(self).queue.waiters@).to_multiset()) == old(
                s,
            ).threads().add(tags(old(self).queue.waiters@).to_multiset()),
    {
        let got: bool = self.try_acquire();
        self.queue.wait_until(s, got, now)
    }

    pub fn release(&mut self, s: &mut Scheduler) -> (r: bool)
        requires
            old(self).wf(),
            old(s).wf(),
            old(self).count < i64::MAX,
        ensures
            final(self).wf(),
            final(s).wf(),
            is_released(*old(self), *final(self)),
            r == (old(self).queue.waiters@.len() > 0),
            r ==> {
                &&& final(self).queue.waiters@ == old(self).queue.waiters@.drop_first()
                &&& final(s).ready@ == old(s).ready@.push(old(self).queue.waiters@[0])
            },
            !r ==> *final(s) == *old(s) && final(self).queue.waiters@ == old(self).queue.waiters@,
            final(s).same_but_ready(*old(s)),
            final(s).threads().add(tags(final(self).queue.waiters@).to_multiset()) == old(
                s,
            ).threads().add(tags(old(self).queue.waiters@).to_multiset()),
    {
        self.count = self.count + 1;
        self.queue.wake_one(s)
    }

    pub fn available(&self) -> (r: i64)
        ensures
            r == self.count,
    {
        self.count
    }
}

/// Whether asking for a mutex came to this: the lock is had if it was free, and
/// taken in any case.
pub open spec fn is_asked<T>(before: Mutex<T>, after: Mutex<T>, got: bool) -> bool {
    got == !before.locked && after.locked
}

/// Whether the lock was given up.
pub open spec fn is_left<T>(before: Mutex<T>, after: Mutex<T>) -> bool {
    before.locked && !after.locked
}

/// Whether asking for a place came to this: it is had if there was one, which is
/// then taken.
pub open spec fn is_admitted(before: Semaphore, after: Semaphore, got: bool) -> bool {
    &&& got == (before.count > 0)
    &&& after.count == if got {
        before.count - 1
    } else {
        before.count as int
    }
}

/// Whether a place was given up.
pub open spec fn is_released(before: Semaphore, after: Semaphore) -> bool {
    after.count == before.count + 1
}

/// What threads do with a mutex or a semaphore.
pub enum Event {
    /// A thread asks to come in, and is told whether it may.
    Ask { got: bool },
    /// A thread that is in leaves.
    Leave,
}

/// How many threads are in after events.
pub open spec fn inside(events: Seq<Event>) -> int
    decreases events.len(),
{
    if events.len() == 0 {
        0
    } else {
        inside(events.drop_last()) + match events.last() {
            Event::Ask { got } => if got {
                1int
            } else {
                0
            },
            Event::Leave => -1,
        }
    }
}

/// Whether only threads that are in leave.
pub open spec fn leaves_fit(events: Seq<Event>) -> bool {
    forall|i: int|
        0 <= i < events.len() && #[trigger] events[i] is Leave ==> inside(events.take(i)) > 0
}

/// Whether a mutex went through `states` by events, each of which is a call of
/// `lock` or `try_lock`, or one of `unlock` by a thread that has the lock.
pub open spec fn is_mutex_run<T>(states: Seq<Mutex<T>>, events: Seq<Event>) -> bool {
    &&& states.len() == events.len() + 1
    &&& !states[0].locked
    &&& leaves_fit(events)
    &&& forall|i: int|
        0 <= i < events.len() ==> match #[trigger] events[i] {
            Event::Ask { got } => is_asked(states[i], states[i + 1], got),
            Event::Leave => is_left(states[i], states[i + 1]),
        }
}

/// However threads ask for a mutex and leave it, no two of them have it at once, it
/// is locked exactly when one has it, and one that asks gets it exactly when no
/// other has it.
pub proof fn law_mutual_exclusion<T>(states: Seq<Mutex<T>>, events: Seq<Event>, n: int)
    requires
        is_mutex_run(states, events),
        0 <= n <= events.len(),
    ensures
        0 <= inside(events.take(n)) <= 1,
        inside(events.take(n)) == 1 <==> states[n].locked,
        n < events.len() ==> (events[n] matches Event::Ask { got } ==> got == (inside(
            events.take(n),
        ) == 0)),
    decreases n,
{
    if n > 0 {
        law_mutual_exclusion(states, events, n - 1);
        assert(events.take(n).drop_last() =~= events.take(n - 1));
        assert(events.take(n).last() == events[n - 1]);
    }
}

/// Whether a semaphore went through `states` by events, each of which is a call of
/// `acquire` or `try_acquire`, or one of `release` by a thread that is in.
pub open spec fn is_semaphore_run(states: Seq<Semaphore>, events: Seq<Event>) -> bool {
    &&& states.len() == events.len() + 1
    &&& leaves_fit(events)
    &&& forall|i: int|
        0 <= i < events.len() ==> match #[trigger] events[i] {
            Event::Ask { got } => is_admitted(states[i], states[i + 1], got),
            Event::Leave => is_released(states[i], states[i + 1]),
        }
}

/// However threads ask for a semaphore and leave it, never more are inside than
/// it has places, a place is free exactly when fewer are, and one that asks gets in
/// exactly when a place is free.
pub proof fn law_semaphore_never_over_admits(states: Seq<Semaphore>, events: Seq<Event>, n: int)
    requires
        is_semaphore_run(states, events),
        states[0].count >= 0,
        0 <= n <= events.len(),
    ensures
        0 <= inside(events.take(n)) <= states[0].count,
        states[n].count == states[0].count - inside(events.take(n)),
        n < events.len() ==> (events[n] matches Event::Ask { got } ==> got == (inside(
            events.take(n),
        ) < states[0].count)),
    decreases n,
{
    if n > 0 {
        law_semaphore_never_over_admits(states, events, n - 1);
        assert(events.take(n).drop_last() =~= events.take(n - 1));
        assert(events.take(n).last() == events[n - 1]);
    }
}

/// What a trial run of the primitives came to.
#[derive(Clone, Copy, Debug)]
pub struct BlockingRun {
    /// Whether the mutex workers finished in time.
    pub mutex_done: bool,
    /// What they counted up to together.
    pub total: u64,
    pub mutex_waiters: usize,
    /// Whether the semaphore workers finished in time.
    pub semaphore_done: bool,
    /// The most threads inside the semaphore at once.
    pub peak: u64,
    pub available: i64,
}

/// What was wrong with a trial run.
#[derive(Clone, Copy, Debug, PartialEq, Eq, Structural)]
pub enum BlockingFault {
    MutexTimedOut,
    LostUpdate { total: u64, expected: u64 },
    WaitersLeft,
    SemaphoreTimedOut,
    OverAdmitted { peak: u64 },
    NeverConcurrent { peak: u64 },
    WrongCount { count: i64 },
}

pub const MUTEX_WORKERS: u64 = 4;

pub const MUTEX_ITERS: u64 = 200;

pub const SEM_WORKERS: u64 = 5;

/// What is wrong with a trial run: the first thing in the order of the tests.
pub open spec fn fault_of(t: BlockingRun) -> Option<BlockingFault> {
    if !t.mutex_done {
        Some(BlockingFault::MutexTimedOut)
    } else if t.total != 800 {
        Some(BlockingFault::LostUpdate { total: t.total, expected: 800 })
    } else if t.mutex_waiters != 0 {
        Some(BlockingFault::WaitersLeft)
    } else if !t.semaphore_done {
        Some(BlockingFault::SemaphoreTimedOut)
    } else if t.peak > 2 {
        Some(BlockingFault::OverAdmitted { peak: t.peak })
    } else if t.peak < 2 {
        Some(BlockingFault::NeverConcurrent { peak: t.peak })
    } else if t.available != 2 {
        Some(BlockingFault::WrongCount { count: t.available })
    } else {
        None
    }
}

/// Judge a trial run of the primitives: four workers that count to 200 each
/// under a mutex, and five workers that go through a semaphore with two places.
pub fn self_test(t: &BlockingRun) -> (r: Result<(), BlockingFault>)
    ensures
        r == match fault_of(*t) {
            Some(f) => Err::<(), BlockingFault>(f),
            None => Ok(()),
        },
{
    if !t.mutex_done {
        return Err(BlockingFault::MutexTimedOut);
    }
    let expected: u64 = MUTEX_WORKERS * MUTEX_ITERS;
    if t.total != expected {
        return Err(BlockingFault::LostUpdate { total: t.total, expected });
    }
    if t.mutex_waiters != 0 {
        return Err(BlockingFault::WaitersLeft);
    }
    if !t.semaphore_done {
        return Err(BlockingFault::SemaphoreTimedOut);
    }
    if t.peak > 2 {
        return Err(BlockingFault::OverAdmitted { peak: t.peak });
    }
    if t.peak < 2 {
        return Err(BlockingFault::NeverConcurrent { peak: t.peak });
    }
    if t.available != 2 {
        return Err(BlockingFault::WrongCount { count: t.available });
    }
    Ok(())
}

} // verus!
