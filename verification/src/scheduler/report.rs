//! Judging a trial run of the scheduler.

use vstd::prelude::*;

verus! {

pub const WORKERS: usize = 3;

pub const ROUNDS: usize = 4;

/// What a trial run of the scheduler came to: three workers that yield between
/// their steps, a sleeper, and two busy threads that never yield.
#[derive(Debug)]
pub struct TrialRun {
    /// Threads of the first part that finished in time.
    pub finished: usize,
    /// The thread that took each step of the workers.
    pub order: Vec<u64>,
    /// How long a sleep of 50 ms took.
    pub slept: u64,
    /// Whether the busy threads stopped when they were told to.
    pub stopped: bool,
    /// How often each busy thread went round.
    pub spin_a: u64,
    pub spin_b: u64,
    /// Preemptions while they were busy.
    pub preemptions: u64,
    /// How long a sleep of 100 ms took while they were busy.
    pub woke_after: u64,
    pub slots_before: usize,
    pub slots_after: usize,
}

/// What was wrong with a trial run.
#[derive(Clone, Copy, Debug, PartialEq, Eq, Structural)]
pub enum SchedulerFault {
    TimedOut { finished: usize },
    WrongSteps { total: usize },
    UnevenSteps { id: u64, steps: usize },
    NoInterleaving,
    BadSleep { ms: u64 },
    DidNotStop,
    UnsharedCpu { a: u64, b: u64 },
    FewPreemptions { count: u64 },
    LateWakeup { ms: u64 },
    SlotsLeaked { before: usize, after: usize },
}

/// How many of the first `n` steps a thread took.
pub open spec fn steps_of(order: Seq<u64>, id: u64, n: int) -> int
    decreases n,
{
    if n <= 0 {
        0
    } else {
        steps_of(order, id, n - 1) + if order[n - 1] == id {
            1int
        } else {
            0
        }
    }
}

/// The first step, from `i` on, that was taken by a thread with a wrong number
/// of steps.
pub open spec fn first_uneven(order: Seq<u64>, i: int) -> Option<int>
    decreases order.len() - i,
{
    if i < 0 || i >= order.len() {
        None
    } else if steps_of(order, order[i], order.len() as int) != ROUNDS {
        Some(i)
    } else {
        first_uneven(order, i + 1)
    }
}

/// What is wrong with a trial run: the first thing in the order of the tests.
pub open spec fn fault_of(t: TrialRun) -> Option<SchedulerFault> {
    if t.finished < WORKERS + 1 {
        Some(SchedulerFault::TimedOut { finished: t.finished })
    } else if t.order@.len() != WORKERS * ROUNDS {
        Some(SchedulerFault::WrongSteps { total: t.order@.len() as usize })
    } else if first_uneven(t.order@, 0) matches Some(i) {
        Some(
            SchedulerFault::UnevenSteps {
                id: t.order@[first_uneven(t.order@, 0)->0],
                steps: steps_of(
                    t.order@,
                    t.order@[first_uneven(t.order@, 0)->0],
                    t.order@.len() as int,
                ) as usize,
            },
        )
    } else if t.order@[0] == t.order@[1] && t.order@[1] == t.order@[2] {
        Some(SchedulerFault::NoInterleaving)
    } else if t.slept < 50 || t.slept > 500 {
        Some(SchedulerFault::BadSleep { ms: t.slept })
    } else if !t.stopped {
        Some(SchedulerFault::DidNotStop)
    } else if t.spin_a == 0 || t.spin_b == 0 {
        Some(SchedulerFault::UnsharedCpu { a: t.spin_a, b: t.spin_b })
    } else if t.preemptions < 2 {
        Some(SchedulerFault::FewPreemptions { count: t.preemptions })
    } else if t.woke_after > 200 {
        Some(SchedulerFault::LateWakeup { ms: (t.woke_after - 100) as u64 })
    } else if t.slots_after != t.slots_before {
        Some(SchedulerFault::SlotsLeaked { before: t.slots_before, after: t.slots_after })
    } else {
        None
    }
}

fn count_steps(order: &Vec<u64>, id: u64) -> (r: usize)
    ensures
        r == steps_of(order@, id, order@.len() as int),
{
    let n: usize = order.len();
    let mut count: usize = 0;
    let mut i: usize = 0;
    while i < n
        invariant
            i <= n,
            n == order@.len(),
            count <= i,
            count == steps_of(order@, id, i as int),
        decreases n - i,
    {
        if order[i] == id {
            count += 1;
        }
        i += 1;
    }
    count
}

/// Judge a trial run. With the timer able to preempt a worker between two of
/// its steps, the exact order is not fixed, but each worker must have taken
/// exactly its steps and the first ones must not all belong to one thread.
pub fn self_test(t: &TrialRun) -> (r: Result<(), SchedulerFault>)
    ensures
        r == match fault_of(*t) {
            Some(f) => Err::<(), SchedulerFault>(f),
            None => Ok(()),
        },
{
    if t.finished < WORKERS + 1 {
        return Err(SchedulerFault::TimedOut { finished: t.finished });
    }
    let total: usize = t.order.len();
    if total != WORKERS * ROUNDS {
        return Err(SchedulerFault::WrongSteps { total });
    }
    let mut i: usize = 0;
    while i < total
        invariant
            i <= total,
            total == t.order@.len(),
            total == WORKERS * ROUNDS,
            t.finished >= WORKERS + 1,
            first_uneven(t.order@, 0) == first_uneven(t.order@, i as int),
        decreases total - i,
    {
        let n: usize = count_steps(&t.order, t.order[i]);
        if n != ROUNDS {
            return Err(SchedulerFault::UnevenSteps { id: t.order[i], steps: n });
        }
        i += 1;
    }
    if t.order[0] == t.order[1] && t.order[1] == t.order[2] {
        return Err(SchedulerFault::NoInterleaving);
    }
    if t.slept < 50 || t.slept > 500 {
        return Err(SchedulerFault::BadSleep { ms: t.slept });
    }
    if !t.stopped {
        return Err(SchedulerFault::DidNotStop);
    }
    if t.spin_a == 0 || t.spin_b == 0 {
        return Err(SchedulerFault::UnsharedCpu { a: t.spin_a, b: t.spin_b });
    }
    if t.preemptions < 2 {
        return Err(SchedulerFault::FewPreemptions { count: t.preemptions });
    }
    if t.woke_after > 200 {
        return Err(SchedulerFault::LateWakeup { ms: t.woke_after - 100 });
    }
    if t.slots_after != t.slots_before {
        return Err(
            SchedulerFault::SlotsLeaked { before: t.slots_before, after: t.slots_after },
        );
    }
    Ok(())
}

/// Whether to go on waiting for a counter: not once it has reached its target,
/// and not after the deadline.
#[derive(Clone, Copy, Debug, PartialEq, Eq, Structural)]
pub enum Patience {
    Reached,
    GaveUp,
    KeepWaiting,
}

/// One round of waiting for `counter` to reach `target`.
pub fn wait_for(counter: u64, target: u64, now: u64, deadline: u64) -> (r: Patience)
    ensures
        r == if counter >= target {
            Patience::Reached
        } else if now > deadline {
            Patience::GaveUp
        } else {
            Patience::KeepWaiting
        },
{
    if counter >= target {
        Patience::Reached
    } else if now > deadline {
        Patience::GaveUp
    } else {
        Patience::KeepWaiting
    }
}

} // verus!
