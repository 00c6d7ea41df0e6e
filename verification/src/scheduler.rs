//! Kernel thread scheduler (preemptive round-robin, single core).
//!
//! Threads switch voluntarily (yield, sleep, exit) and are also preempted by the
//! timer: `tick` decides whether the running thread's time slice is over, or a
//! sleeper is due, and asks for a switch, which `preempt_if_needed` makes.
//!
//! - The boot thread becomes thread 0. A dedicated idle thread runs whenever
//!   nothing else is runnable.
//! - Round-robin ready queue; sleeping threads are woken by comparing against
//!   the uptime whenever the scheduler runs.
//! - A thread that exits cannot free the stack it is still running on, so it
//!   parks itself on a zombie list and whichever thread runs next reaps it.

use std::collections::VecDeque;
use vstd::prelude::*;
use vstd::multiset::Multiset;

pub mod account;
pub mod report;
pub mod slices;
pub mod stacks;
pub mod wait;

pub use report::self_test;
pub use stacks::{init, spawn};
pub use wait::WaitQueue;

verus! {

/// The number of stacks there can be.
pub const MAX_SLOTS: usize = 512;

/// Length of a thread's time slice.
pub const TIME_SLICE_MS: u64 = 10;

#[derive(Clone, Copy, Debug)]
pub struct Thread {
    pub id: u64,
    pub name: &'static str,
    /// Saved stack pointer while the thread is not running.
    pub rsp: u64,
    /// Index into the stack region; none for the boot thread, which runs on the
    /// bootloader's stack.
    pub stack_slot: Option<usize>,
    /// Uptime in milliseconds at which a sleeping thread becomes runnable.
    pub wake_at: u64,
    pub is_idle: bool,
}

/// What becomes of the running thread when it is taken off the processor.
#[derive(Clone, Copy, Debug, PartialEq, Eq, Structural)]
pub enum Next {
    Yield,
    Sleep(u64),
    Exit,
    /// It is parked on a queue of the caller's.
    Block,
}

/// A switch from one thread to another: the stack pointer of the first is to be
/// saved, that of the second to be loaded.
#[derive(Clone, Copy, Debug, PartialEq, Eq, Structural)]
pub struct Switch {
    pub from: u64,
    pub to: u64,
    pub rsp: u64,
}

#[derive(Debug)]
pub struct Scheduler {
    pub current: Option<Thread>,
    pub ready: VecDeque<Thread>,
    pub sleeping: Vec<Thread>,
    pub idle: Option<Thread>,
    pub zombies: Vec<Thread>,
    pub free_slots: Vec<usize>,
    pub next_slot: usize,
    pub next_id: u64,
    /// Whether the scheduler has been initialised.
    pub is_up: bool,
    /// Timer ticks the current thread has used up of its slice.
    pub slice_ticks: u64,
    /// Set by `tick`, consumed by `preempt_if_needed`.
    pub need_resched: bool,
    /// How many times a thread was preempted by the timer.
    pub preemptions: u64,
}

impl Thread {
    /// What a thread keeps for as long as it lives: its id and its stack slot.
    pub open spec fn tag(self) -> (u64, Option<usize>) {
        (self.id, self.stack_slot)
    }
}

/// The ids and stack slots of threads.
pub open spec fn tags(t: Seq<Thread>) -> Seq<(u64, Option<usize>)> {
    t.map_values(|x: Thread| x.tag())
}

pub open spec fn one_tag(t: Option<Thread>) -> Multiset<(u64, Option<usize>)> {
    match t {
        Some(x) => Multiset::singleton(x.tag()),
        None => Multiset::empty(),
    }
}

pub open spec fn no_idle(t: Seq<Thread>) -> bool {
    forall|i: int| 0 <= i < t.len() ==> !(#[trigger] t[i]).is_idle
}

/// Sleeping and ready threads once those that are due, from place `i` on, have
/// been woken. The last sleeper takes the place of one that is woken.
pub open spec fn woken(sleeping: Seq<Thread>, ready: Seq<Thread>, now: u64, i: int) -> (
    Seq<Thread>,
    Seq<Thread>,
)
    decreases sleeping.len() - i,
{
    if i < 0 || i >= sleeping.len() {
        (sleeping, ready)
    } else if sleeping[i].wake_at <= now {
        woken(
            sleeping.update(i, sleeping.last()).drop_last(),
            ready.push(sleeping[i]),
            now,
            i,
        )
    } else {
        woken(sleeping, ready, now, i + 1)
    }
}

impl Scheduler {
    /// The ids and stack slots of all threads that the scheduler holds, each as often
    /// as it holds it.
    pub open spec fn threads(self) -> Multiset<(u64, Option<usize>)> {
        one_tag(self.current).add(tags(self.ready@).to_multiset()).add(
            tags(self.sleeping@).to_multiset(),
        ).add(one_tag(self.idle)).add(tags(self.zombies@).to_multiset())
    }

    /// Once the scheduler is up, and not before, there is a running thread, and the
    /// idle thread is running or waits in its place; it is in no queue.
    pub open spec fn wf(self) -> bool {
        &&& self.is_up ==> self.current is Some
        &&& !self.is_up ==> self.current is None && self.idle is None
        &&& self.is_up ==> (self.current->0.is_idle <==> self.idle is None)
        &&& self.idle matches Some(t) ==> t.is_idle
        &&& no_idle(self.ready@)
        &&& no_idle(self.sleeping@)
        &&& no_idle(self.zombies@)
        &&& self.slots_ok()
    }

    /// Free stack slots are slots that were in use, each listed once.
    pub open spec fn slots_ok(self) -> bool {
        &&& self.next_slot <= MAX_SLOTS
        &&& forall|i: int|
            0 <= i < self.free_slots@.len() ==> (#[trigger] self.free_slots@[i]) < self.next_slot
        &&& forall|i: int, j: int|
            0 <= i < j < self.free_slots@.len() ==> (#[trigger] self.free_slots@[i]) != (
            #[trigger] self.free_slots@[j])
    }

    /// How many stack slots are in use.
    pub open spec fn slots_in_use(self) -> int {
        self.next_slot - self.free_slots@.len()
    }

    /// Whether a stack slot is in use.
    pub open spec fn has_slot(self, slot: usize) -> bool {
        slot < self.next_slot && !self.free_slots@.contains(slot)
    }

    pub fn new() -> (r: Self)
        ensures
            r.wf(),
            !r.is_up,
            r.current is None,
            r.ready@.len() == 0,
            r.sleeping@.len() == 0,
            r.idle is None,
            r.zombies@.len() == 0,
            r.free_slots@.len() == 0,
            r.next_slot == 0,
            r.next_id == 1,
            r.slice_ticks == 0,
            !r.need_resched,
            r.preemptions == 0,
    {
        Scheduler {
            current: None,
            ready: VecDeque::new(),
            sleeping: Vec::new(),
            idle: None,
            zombies: Vec::new(),
            free_slots: Vec::new(),
            next_slot: 0,
            next_id: 1,
            is_up: false,
            slice_ticks: 0,
            need_resched: false,
            preemptions: 0,
        }
    }

    /// What stays as it is when threads are queued and dequeued.
    pub open spec fn same_slots(self, before: Scheduler) -> bool {
        &&& self.free_slots == before.free_slots
        &&& self.next_slot == before.next_slot
        &&& self.next_id == before.next_id
        &&& self.is_up == before.is_up
    }

    /// Whether all but the ready queue is as it was.
    pub open spec fn same_but_ready(self, before: Scheduler) -> bool {
        &&& self.current == before.current
        &&& self.sleeping == before.sleeping
        &&& self.idle == before.idle
        &&& self.zombies == before.zombies
        &&& self.same_slots(before)
        &&& self.slice_ticks == before.slice_ticks
        &&& self.need_resched == before.need_resched
        &&& self.preemptions == before.preemptions
    }

    /// Make every sleeper that is due ready.
    pub fn wake_sleepers(&mut self, now: u64)
        requires
            old(self).wf(),
        ensures
            final(self).wf(),
            (final(self).sleeping@, final(self).ready@) == woken(
                old(self).sleeping@,
                old(self).ready@,
                now,
                0,
            ),
            final(self).threads() == old(self).threads(),
            final(self).current == old(self).current,
            final(self).idle == old(self).idle,
            final(self).zombies == old(self).zombies,
            final(self).same_slots(*old(self)),
            final(self).slice_ticks == old(self).slice_ticks,
            final(self).need_resched == old(self).need_resched,
            final(self).preemptions == old(self).preemptions,
    {
        let mut i: usize = 0;
        while i < self.sleeping.len()
            invariant
                i <= self.sleeping@.len(),
                self.wf(),
                woken(self.sleeping@, self.ready@, now, i as int) == woken(
                    old(self).sleeping@,
                    old(self).ready@,
                    now,
                    0,
                ),
                self.threads() == old(self).threads(),
                self.current == old(self).current,
                self.idle == old(self).idle,
                self.zombies == old(self).zombies,
                self.same_slots(*old(self)),
                self.slice_ticks == old(self).slice_ticks,
                self.need_resched == old(self).need_resched,
                self.preemptions == old(self).preemptions,
            decreases self.sleeping@.len() - i,
        {
            let ghost s0 = self.sleeping@;
            let ghost r0 = self.ready@;
            if self.sleeping[i].wake_at <= now {
                let t: Thread = self.sleeping.swap_remove(i);
                self.ready.push_back(t);
                proof {
                    lemma_tags_push(r0, t);
                    lemma_tags_swap_remove(s0, i as int);
                    assert forall|k: int| 0 <= k < self.sleeping@.len() implies !(
                    #[trigger] self.sleeping@[k]).is_idle by {
                        assert(!s0[k].is_idle);
                        assert(!s0[s0.len() - 1].is_idle);
                    }
                    assert(self.threads() =~= old(self).threads());
                }
            } else {
                i += 1;
            }
        }
    }
}

/// Queueing a thread adds it.
pub proof fn lemma_tags_push(q: Seq<Thread>, t: Thread)
    ensures
        tags(q.push(t)).to_multiset() == tags(q).to_multiset().insert(t.tag()),
{
    broadcast use vstd::seq_lib::group_to_multiset_ensures;

    assert(tags(q.push(t)) =~= tags(q).push(t.tag()));
}

/// Taking the first thread off a queue takes it away.
pub proof fn lemma_tags_pop(q: Seq<Thread>)
    requires
        q.len() > 0,
    ensures
        tags(q).to_multiset() == tags(q.drop_first()).to_multiset().insert(q[0].tag()),
{
    broadcast use vstd::seq_lib::group_to_multiset_ensures;

    let r = tags(q.drop_first());
    assert(tags(q) =~= r.insert(0, q[0].tag()));
    vstd::seq_lib::to_multiset_insert(r, 0, q[0].tag());
}

proof fn lemma_tags_swap_remove(q: Seq<Thread>, i: int)
    requires
        0 <= i < q.len(),
    ensures
        tags(q).to_multiset() == tags(q.update(i, q.last()).drop_last()).to_multiset().insert(q[i].tag()),
{
    broadcast use vstd::seq_lib::group_to_multiset_ensures;

    let u = q.update(i, q.last()).drop_last();
    if i == q.len() - 1 {
        assert(u =~= q.drop_last());
        assert(tags(q) =~= tags(u).push(q[i].tag()));
    } else {
        let a = tags(q);
        let l = (q.len() - 1) as int;
        // Take out place `i`, then put the last in.
        assert(tags(u) =~= a.drop_last().update(i, a[l]));
        assert(a =~= a.drop_last().push(a[l]));
        vstd::seq_lib::to_multiset_update(a.drop_last(), i, a[l]);
        assert(a.drop_last().contains(a[i])) by {
            assert(a.drop_last()[i] == a[i]);
        }
        assert(tags(q).to_multiset() =~= tags(u).to_multiset().insert(q[i].tag()));
    }
}

/// Where the running thread goes, and which thread runs next.
pub open spec fn is_rescheduled(
    before: Scheduler,
    after: Scheduler,
    how: Next,
    now: u64,
    parked: Option<Thread>,
    switch: Option<Switch>,
) -> bool {
    let (sleeping, ready) = woken(before.sleeping@, before.ready@, now, 0);
    let cur = before.current->0;
    let queued = if how == Next::Yield && !cur.is_idle {
        ready.push(cur)
    } else {
        ready
    };
    let idle = if how == Next::Yield && cur.is_idle {
        Some(cur)
    } else {
        before.idle
    };
    let next = if queued.len() > 0 {
        queued[0]
    } else {
        idle->0
    };
    &&& after.current == Some(next)
    &&& after.ready@ == if queued.len() > 0 {
        queued.drop_first()
    } else {
        queued
    }
    &&& after.idle == if queued.len() > 0 {
        idle
    } else {
        None
    }
    &&& after.sleeping@ == match how {
        Next::Sleep(wake_at) => sleeping.push(Thread { wake_at, ..cur }),
        _ => sleeping,
    }
    &&& after.zombies@ == if how == Next::Exit {
        before.zombies@.push(cur)
    } else {
        before.zombies@
    }
    &&& parked == if how == Next::Block {
        Some(cur)
    } else {
        None
    }
    &&& switch == if next.id == cur.id {
        None
    } else {
        Some(Switch { from: cur.id, to: next.id, rsp: next.rsp })
    }
    &&& after.slice_ticks == 0
    &&& !after.need_resched
    &&& after.preemptions == before.preemptions
    &&& after.same_slots(before)
}

impl Scheduler {
    /// Take the running thread off the processor and choose the next one.
    ///
    /// Returns the switch to be made, unless the same thread goes on, and the
    /// thread itself where it is to be parked elsewhere. Whoever runs next gets
    /// a fresh time slice.
    pub fn reschedule(&mut self, how: Next, now: u64) -> (r: (Option<Switch>, Option<Thread>))
        requires
            old(self).wf(),
            old(self).is_up,
            old(self).current->0.is_idle ==> how == Next::Yield,
        ensures
            final(self).wf(),
            is_rescheduled(*old(self), *final(self), how, now, r.1, r.0),
            final(self).threads().add(one_tag(r.1)) == old(self).threads(),
    {
        self.slice_ticks = 0;
        self.need_resched = false;
        self.wake_sleepers(now);
        let ghost w = *self;
        let mut parked: Option<Thread> = None;
        let (from, to, rsp): (u64, u64, u64) = match self.current {
            Some(cur) => {
                match how {
                    Next::Yield => {
                        if cur.is_idle {
                            self.idle = Some(cur);
                        } else {
                            self.ready.push_back(cur);
                            proof {
                                lemma_tags_push(w.ready@, cur);
                            }
                        }
                    },
                    Next::Sleep(wake_at) => {
                        let t: Thread = Thread {
                            id: cur.id,
                            name: cur.name,
                            rsp: cur.rsp,
                            stack_slot: cur.stack_slot,
                            wake_at,
                            is_idle: cur.is_idle,
                        };
                        self.sleeping.push(t);
                        proof {
                            lemma_tags_push(w.sleeping@, t);
                        }
                    },
                    Next::Exit => {
                        self.zombies.push(cur);
                        proof {
                            lemma_tags_push(w.zombies@, cur);
                        }
                    },
                    Next::Block => {
                        parked = Some(cur);
                    },
                }
                let ghost p = *self;
                proof {
                    let rest = tags(p.ready@).to_multiset().add(tags(p.sleeping@).to_multiset()).add(
                        one_tag(p.idle),
                    ).add(tags(p.zombies@).to_multiset());
                    assert(rest.add(one_tag(parked)) =~= w.threads());
                }
                match self.ready.pop_front() {
                    Some(next) => {
                        self.current = Some(next);
                        proof {
                            lemma_tags_pop(p.ready@);
                            assert(self.ready@ =~= p.ready@.drop_first());
                            assert(next == p.ready@[0]);
                        }
                        (cur.id, next.id, next.rsp)
                    },
                    None => match self.idle {
                        Some(next) => {
                            self.idle = None;
                            self.current = Some(next);
                            (cur.id, next.id, next.rsp)
                        },
                        None => (cur.id, cur.id, 0),
                    },
                }
            },
            None => (0, 0, 0),
        };
        proof {
            assert(self.threads().add(one_tag(parked)) =~= old(self).threads());
        }
        if from == to {
            (None, parked)
        } else {
            (Some(Switch { from, to, rsp }), parked)
        }
    }
}

/// Each thread of the ready queue moves one place forward every time another
/// thread is taken off the processor, and the first one runs: no thread waits
/// for longer than there are threads before it.
pub proof fn law_round_robin(
    before: Scheduler,
    after: Scheduler,
    how: Next,
    now: u64,
    parked: Option<Thread>,
    switch: Option<Switch>,
    i: int,
)
    requires
        is_rescheduled(before, after, how, now, parked, switch),
        0 <= i < before.ready@.len(),
    ensures
        i == 0 ==> after.current == Some(before.ready@[0]),
        i > 0 ==> i - 1 < after.ready@.len() && after.ready@[i - 1] == before.ready@[i],
{
    lemma_woken_keeps_ready(before.sleeping@, before.ready@, now, 0);
}

proof fn lemma_woken_keeps_ready(sleeping: Seq<Thread>, ready: Seq<Thread>, now: u64, i: int)
    ensures
        woken(sleeping, ready, now, i).1.len() >= ready.len(),
        forall|k: int|
            0 <= k < ready.len() ==> #[trigger] woken(sleeping, ready, now, i).1[k] == ready[k],
    decreases sleeping.len() - i,
{
    if i < 0 || i >= sleeping.len() {
    } else if sleeping[i].wake_at <= now {
        let r = ready.push(sleeping[i]);
        lemma_woken_keeps_ready(sleeping.update(i, sleeping.last()).drop_last(), r, now, i);
        assert forall|k: int| 0 <= k < ready.len() implies #[trigger] woken(
            sleeping,
            ready,
            now,
            i,
        ).1[k] == ready[k] by {
            assert(r[k] == ready[k]);
        }
    } else {
        lemma_woken_keeps_ready(sleeping, ready, now, i + 1);
    }
}

/// A sleeper that is due is ready after the scheduler has run, and one that is
/// not due sleeps on.
pub proof fn law_sleepers_wake_on_time(sleeping: Seq<Thread>, ready: Seq<Thread>, now: u64, t: Thread)
    ensures
        sleeping.contains(t) && t.wake_at <= now ==> woken(sleeping, ready, now, 0).1.contains(t),
        sleeping.contains(t) && t.wake_at > now ==> woken(sleeping, ready, now, 0).0.contains(t),
        forall|k: int|
            0 <= k < woken(sleeping, ready, now, 0).0.len() ==> (#[trigger] woken(
                sleeping,
                ready,
                now,
                0,
            ).0[k]).wake_at > now,
{
    lemma_woken_all(sleeping, ready, now, 0, t);
}

proof fn lemma_woken_all(sleeping: Seq<Thread>, ready: Seq<Thread>, now: u64, i: int, t: Thread)
    requires
        0 <= i <= sleeping.len(),
        forall|k: int| 0 <= k < i ==> (#[trigger] sleeping[k]).wake_at > now,
    ensures
        sleeping.contains(t) && t.wake_at <= now ==> woken(sleeping, ready, now, i).1.contains(t),
        sleeping.contains(t) && t.wake_at > now ==> woken(sleeping, ready, now, i).0.contains(t),
        forall|k: int|
            0 <= k < woken(sleeping, ready, now, i).0.len() ==> (#[trigger] woken(
                sleeping,
                ready,
                now,
                i,
            ).0[k]).wake_at > now,
    decreases sleeping.len() - i,
{
    if i >= sleeping.len() {
        if sleeping.contains(t) {
            let k = choose|k: int| 0 <= k < sleeping.len() && sleeping[k] == t;
            assert(sleeping[k].wake_at > now);
        }
    } else if sleeping[i].wake_at <= now {
        let s = sleeping.update(i, sleeping.last()).drop_last();
        let r = ready.push(sleeping[i]);
        assert forall|k: int| 0 <= k < i implies (#[trigger] s[k]).wake_at > now by {
            assert(s[k] == sleeping[k]);
        }
        lemma_woken_all(s, r, now, i, t);
        if sleeping.contains(t) {
            let k = choose|k: int| 0 <= k < sleeping.len() && sleeping[k] == t;
            if k == i {
                lemma_woken_keeps_ready(s, r, now, i);
                assert(r[ready.len() as int] == t);
                assert(woken(s, r, now, i).1[ready.len() as int] == t);
            } else if k == sleeping.len() - 1 {
                assert(s[i] == t);
            } else {
                assert(s[k] == t);
            }
        }
    } else {
        lemma_woken_all(sleeping, ready, now, i + 1, t);
    }
}

impl Scheduler {
    /// What stays as it is when stack slots are taken and given back.
    pub open spec fn same_threads(self, before: Scheduler) -> bool {
        &&& self.current == before.current
        &&& self.ready == before.ready
        &&& self.sleeping == before.sleeping
        &&& self.idle == before.idle
        &&& self.zombies == before.zombies
        &&& self.is_up == before.is_up
        &&& self.slice_ticks == before.slice_ticks
        &&& self.need_resched == before.need_resched
        &&& self.preemptions == before.preemptions
    }

    /// The stack slot that the next thread gets, if there is one: the one given
    /// back last, or the next that was never in use.
    pub open spec fn next_free_slot(self) -> Option<usize> {
        if self.free_slots@.len() > 0 {
            Some(self.free_slots@.last())
        } else if self.next_slot < MAX_SLOTS {
            Some(self.next_slot)
        } else {
            None
        }
    }

    /// A stack slot and an id for a new thread. A slot that was given back is
    /// used first.
    pub fn take_slot(&mut self) -> (r: Option<(usize, u64)>)
        requires
            old(self).wf(),
            old(self).next_id < u64::MAX,
        ensures
            final(self).wf(),
            final(self).same_threads(*old(self)),
            r is None <==> old(self).free_slots@.len() == 0 && old(self).next_slot == MAX_SLOTS,
            r is None ==> final(self).free_slots@ == old(self).free_slots@ && final(self).next_slot
                == old(self).next_slot && final(self).next_id == old(self).next_id,
            r matches Some((slot, id)) ==> {
                &&& id == old(self).next_id
                &&& final(self).next_id == id + 1
                &&& slot < MAX_SLOTS
                &&& !old(self).has_slot(slot)
                &&& final(self).slots_in_use() == old(self).slots_in_use() + 1
                &&& forall|x: usize| #[trigger]
                    final(self).has_slot(x) == (old(self).has_slot(x) || x == slot)
                &&& slot == if old(self).free_slots@.len() > 0 {
                    old(self).free_slots@.last()
                } else {
                    old(self).next_slot
                }
            },
    {
        let ghost f = self.free_slots@;
        let slot: usize = match self.free_slots.pop() {
            Some(i) => {
                proof {
                    assert forall|x: usize| #[trigger] self.free_slots@.contains(x) == (f.contains(
                        x,
                    ) && x != i) by {
                        if f.contains(x) && x != i {
                            let k = choose|k: int| 0 <= k < f.len() && f[k] == x;
                            assert(self.free_slots@[k] == x);
                        }
                        if self.free_slots@.contains(x) {
                            let k = choose|k: int|
                                0 <= k < self.free_slots@.len() && self.free_slots@[k] == x;
                            assert(f[k] == x);
                            assert(f[k] != f[f.len() - 1]);
                        }
                    }
                    assert(f.contains(i)) by {
                        assert(f[f.len() - 1] == i);
                    }
                }
                i
            },
            None => {
                if self.next_slot >= MAX_SLOTS {
                    return None;
                }
                let i: usize = self.next_slot;
                self.next_slot = i + 1;
                proof {
                    assert(!f.contains(i));
                }
                i
            },
        };
        let id: u64 = self.next_id;
        self.next_id = id + 1;
        Some((slot, id))
    }

    /// Give a stack slot back.
    pub fn give_slot(&mut self, slot: usize)
        requires
            old(self).wf(),
            old(self).has_slot(slot),
        ensures
            final(self).wf(),
            final(self).same_threads(*old(self)),
            final(self).next_id == old(self).next_id,
            final(self).free_slots@ == old(self).free_slots@.push(slot),
            final(self).next_slot == old(self).next_slot,
            forall|x: usize| #[trigger]
                final(self).has_slot(x) == (old(self).has_slot(x) && x != slot),
    {
        let ghost f = self.free_slots@;
        self.free_slots.push(slot);
        proof {
            let g = self.free_slots@;
            assert forall|x: usize| #[trigger] g.contains(x) == (f.contains(x) || x == slot) by {
                if f.contains(x) {
                    let k = choose|k: int| 0 <= k < f.len() && f[k] == x;
                    assert(g[k] == x);
                }
                assert(g[f.len() as int] == slot);
            }
            assert forall|i: int, j: int| 0 <= i < j < g.len() implies (#[trigger] g[i]) != (
            #[trigger] g[j]) by {
                if j == f.len() {
                    if g[i] == slot {
                        assert(f[i] == slot);
                        assert(f.contains(slot));
                    }
                } else {
                    assert(f[i] != f[j]);
                }
            }
        }
    }

    /// Runs right after every switch, on the new thread's stack: the threads
    /// that exited just before it, which are to be freed.
    pub fn finish_switch(&mut self) -> (dead: Vec<Thread>)
        requires
            old(self).wf(),
        ensures
            final(self).wf(),
            dead@ == old(self).zombies@,
            final(self).zombies@.len() == 0,
            final(self).current == old(self).current,
            final(self).ready == old(self).ready,
            final(self).sleeping == old(self).sleeping,
            final(self).idle == old(self).idle,
            final(self).same_slots(*old(self)),
            final(self).slice_ticks == old(self).slice_ticks,
            final(self).need_resched == old(self).need_resched,
            final(self).preemptions == old(self).preemptions,
            final(self).threads().add(tags(dead@).to_multiset()) == old(self).threads(),
    {
        let mut dead: Vec<Thread> = Vec::new();
        std::mem::swap(&mut dead, &mut self.zombies);
        proof {
            broadcast use vstd::seq_lib::group_to_multiset_ensures;

            assert(tags(self.zombies@) =~= Seq::empty());
            assert(tags(self.zombies@).to_multiset() =~= Multiset::empty());
            assert(self.threads().add(tags(dead@).to_multiset()) =~= old(self).threads());
        }
        dead
    }

    /// Turn the running code into thread 0 and enable the scheduler.
    pub fn start(&mut self, idle: Thread)
        requires
            old(self).wf(),
            !old(self).is_up,
            idle.is_idle,
        ensures
            final(self).wf(),
            final(self).is_up,
            final(self).current matches Some(t) && t.id == 0 && t.name@ == "boot"@ && t.rsp == 0
                && t.stack_slot is None && t.wake_at == 0 && !t.is_idle,
            final(self).idle == Some(idle),
            final(self).ready == old(self).ready,
            final(self).sleeping == old(self).sleeping,
            final(self).zombies == old(self).zombies,
            final(self).free_slots == old(self).free_slots,
            final(self).next_slot == old(self).next_slot,
            final(self).next_id == old(self).next_id,
            final(self).slice_ticks == old(self).slice_ticks,
            final(self).need_resched == old(self).need_resched,
            final(self).preemptions == old(self).preemptions,
    {
        self.current = Some(
            Thread {
                id: 0,
                name: "boot",
                rsp: 0,
                stack_slot: None,
                wake_at: 0,
                is_idle: false,
            },
        );
        self.idle = Some(idle);
        self.is_up = true;
    }

    /// Make a thread runnable.
    pub fn enqueue(&mut self, t: Thread)
        requires
            old(self).wf(),
            !t.is_idle,
        ensures
            final(self).wf(),
            final(self).ready@ == old(self).ready@.push(t),
            final(self).threads() == old(self).threads().insert(t.tag()),
            final(self).same_but_ready(*old(self)),
    {
        let ghost r = self.ready@;
        self.ready.push_back(t);
        proof {
            lemma_tags_push(r, t);
            assert(self.threads() =~= old(self).threads().insert(t.tag()));
        }
    }
}

/// Give up the processor; the thread stays runnable.
pub fn yield_now(s: &mut Scheduler, now: u64) -> (r: Option<Switch>)
    requires
        old(s).wf(),
    ensures
        final(s).wf(),
        !old(s).is_up ==> r is None && *final(s) == *old(s),
        old(s).is_up ==> is_rescheduled(*old(s), *final(s), Next::Yield, now, None, r),
        final(s).threads() == old(s).threads(),
{
    if s.is_up {
        let (switch, parked) = s.reschedule(Next::Yield, now);
        proof {
            assert(s.threads() =~= s.threads().add(one_tag(parked)));
        }
        switch
    } else {
        None
    }
}

/// Sleep for at least `ms` milliseconds.
pub fn sleep_ms(s: &mut Scheduler, now: u64, ms: u64) -> (r: Option<Switch>)
    requires
        old(s).wf(),
        now + ms <= u64::MAX,
        old(s).is_up ==> !old(s).current->0.is_idle,
    ensures
        final(s).wf(),
        !old(s).is_up ==> r is None && *final(s) == *old(s),
        old(s).is_up ==> is_rescheduled(
            *old(s),
            *final(s),
            Next::Sleep((now + ms) as u64),
            now,
            None,
            r,
        ),
        final(s).threads() == old(s).threads(),
{
    if !s.is_up {
        return None;
    }
    let (switch, parked) = s.reschedule(Next::Sleep(now + ms), now);
    proof {
        assert(s.threads() =~= s.threads().add(one_tag(parked)));
    }
    switch
}

/// End the running thread.
pub fn exit(s: &mut Scheduler, now: u64) -> (r: Option<Switch>)
    requires
        old(s).wf(),
        old(s).is_up ==> !old(s).current->0.is_idle,
    ensures
        final(s).wf(),
        !old(s).is_up ==> r is None && *final(s) == *old(s),
        old(s).is_up ==> is_rescheduled(*old(s), *final(s), Next::Exit, now, None, r),
        final(s).threads() == old(s).threads(),
{
    if !s.is_up {
        return None;
    }
    let (switch, parked) = s.reschedule(Next::Exit, now);
    proof {
        assert(s.threads() =~= s.threads().add(one_tag(parked)));
    }
    switch
}

/// Timer ticks in a time slice: at least one.
pub open spec fn slice_length(frequency_hz: u64) -> int {
    let t = frequency_hz * TIME_SLICE_MS / 1000;
    if t > 1 {
        t
    } else {
        1
    }
}

/// Whether a sleeper is due.
pub open spec fn is_sleeper_due(s: Scheduler, now: u64) -> bool {
    exists|i: int| 0 <= i < s.sleeping@.len() && (#[trigger] s.sleeping@[i]).wake_at <= now
}

/// What a timer tick makes of the scheduler.
pub open spec fn is_ticked(before: Scheduler, after: Scheduler, now: u64, frequency_hz: u64) -> bool {
    let used = if before.slice_ticks == u64::MAX {
        0
    } else {
        before.slice_ticks + 1
    };
    &&& !before.is_up ==> after == before
    &&& before.is_up ==> {
        &&& after.slice_ticks == used
        &&& after.need_resched == (before.need_resched || is_sleeper_due(before, now) || (used
            >= slice_length(frequency_hz) && before.ready@.len() > 0))
    }
    &&& after.current == before.current
    &&& after.ready == before.ready
    &&& after.sleeping == before.sleeping
    &&& after.idle == before.idle
    &&& after.zombies == before.zombies
    &&& after.same_slots(before)
    &&& after.preemptions == before.preemptions
}

/// Called on every timer tick. Decides whether the running thread should be
/// preempted: its slice is used up and someone else is waiting, or a sleeper's
/// deadline has passed.
pub fn tick(s: &mut Scheduler, now: u64, frequency_hz: u64)
    requires
        old(s).wf(),
        frequency_hz * TIME_SLICE_MS <= u64::MAX,
    ensures
        final(s).wf(),
        is_ticked(*old(s), *final(s), now, frequency_hz),
        !old(s).is_up ==> *final(s) == *old(s),
        old(s).is_up ==> {
            let used = if old(s).slice_ticks == u64::MAX {
                0
            } else {
                old(s).slice_ticks + 1
            };
            &&& final(s).slice_ticks == used
            &&& final(s).need_resched == (old(s).need_resched || is_sleeper_due(*old(s), now) || (
            used >= slice_length(frequency_hz) && old(s).ready@.len() > 0))
        },
        final(s).current == old(s).current,
        final(s).ready == old(s).ready,
        final(s).sleeping == old(s).sleeping,
        final(s).idle == old(s).idle,
        final(s).zombies == old(s).zombies,
        final(s).same_slots(*old(s)),
        final(s).preemptions == old(s).preemptions,
{
    if !s.is_up {
        return;
    }
    let used: u64 = if s.slice_ticks == u64::MAX {
        0
    } else {
        s.slice_ticks + 1
    };
    s.slice_ticks = used;
    let t: u64 = frequency_hz * TIME_SLICE_MS / 1000;
    let slice: u64 = if t > 1 {
        t
    } else {
        1
    };
    let count: usize = s.sleeping.len();
    let mut due: bool = false;
    let mut i: usize = 0;
    while i < count
        invariant
            i <= count,
            count == s.sleeping@.len(),
            due == exists|k: int| 0 <= k < i && (#[trigger] s.sleeping@[k]).wake_at <= now,
        decreases count - i,
    {
        if s.sleeping[i].wake_at <= now {
            assert(s.sleeping@[i as int].wake_at <= now);
            due = true;
        }
        i += 1;
    }
    let over: bool = used >= slice && s.ready.len() > 0;
    if due || over {
        s.need_resched = true;
    }
}

/// Switch to another thread if `tick` asked for it.
pub fn preempt_if_needed(s: &mut Scheduler, now: u64) -> (r: Option<Switch>)
    requires
        old(s).wf(),
        old(s).need_resched ==> old(s).is_up && old(s).preemptions < u64::MAX,
    ensures
        final(s).wf(),
        !old(s).need_resched ==> r is None && *final(s) == *old(s),
        old(s).need_resched ==> {
            &&& final(s).preemptions == old(s).preemptions + 1
            &&& is_rescheduled(
                Scheduler { preemptions: (old(s).preemptions + 1) as u64, ..*old(s) },
                *final(s),
                Next::Yield,
                now,
                None,
                r,
            )
        },
        final(s).threads() == old(s).threads(),
{
    if s.need_resched {
        s.need_resched = false;
        s.preemptions = s.preemptions + 1;
        yield_now(s, now)
    } else {
        None
    }
}

pub fn preemption_count(s: &Scheduler) -> (r: u64)
    ensures
        r == s.preemptions,
{
    s.preemptions
}

/// The id of the running thread; zero before there are any.
pub fn current_id(s: &Scheduler) -> (r: u64)
    ensures
        r == match s.current {
            Some(t) => t.id,
            None => 0,
        },
{
    match s.current {
        Some(t) => t.id,
        None => 0,
    }
}

pub fn current_name(s: &Scheduler) -> (r: &'static str)
    ensures
        r@ == match s.current {
            Some(t) => t.name@,
            None => "?"@,
        },
{
    match s.current {
        Some(t) => t.name,
        None => "?",
    }
}

/// Stack slots in use (live threads other than the boot thread).
pub fn stack_slots_in_use(s: &Scheduler) -> (r: usize)
    requires
        s.wf(),
    ensures
        r == s.slots_in_use(),
{
    proof {
        lemma_distinct_below(s.free_slots@, s.next_slot as int);
    }
    s.next_slot - s.free_slots.len()
}

/// Distinct numbers below `n` are at most `n` many.
proof fn lemma_distinct_below(f: Seq<usize>, n: int)
    requires
        n >= 0,
        forall|i: int| 0 <= i < f.len() ==> (#[trigger] f[i]) < n,
        forall|i: int, j: int| 0 <= i < j < f.len() ==> (#[trigger] f[i]) != (#[trigger] f[j]),
    ensures
        f.len() <= n,
{
    let u = f.map_values(|x: usize| x as int);
    assert forall|i: int, j: int| 0 <= i < u.len() && 0 <= j < u.len() && i != j implies u[i]
        != u[j] by {
        if i < j {
            assert(f[i] != f[j]);
        } else {
            assert(f[j] != f[i]);
        }
    }
    u.unique_seq_to_set();
    let all = vstd::set_lib::set_int_range(0, n);
    vstd::set_lib::lemma_int_range(0, n);
    assert(u.to_set().subset_of(all)) by {
        assert forall|x: int| u.to_set().contains(x) implies all.contains(x) by {
            let i = choose|i: int| 0 <= i < u.len() && u[i] == x;
            assert(f[i] < n);
        }
    }
    vstd::set_lib::lemma_len_subset(u.to_set(), all);
}

} // verus!
