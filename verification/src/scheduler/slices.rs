//! How long a thread runs before it is preempted.

use vstd::prelude::*;
use super::{is_rescheduled, is_ticked, Next, Scheduler, Switch, Thread};

verus! {

/// Whether a scheduler went through timer ticks: state `j + 1` is what tick `j`, at the
/// uptime `now[j]`, made of state `j`.
pub open spec fn are_ticks(st: Seq<Scheduler>, now: Seq<u64>, hz: u64) -> bool {
    &&& st.len() == now.len() + 1
    &&& forall|j: int| 0 <= j < now.len() ==> #[trigger] is_ticked(st[j], st[j + 1], now[j], hz)
}

/// Whether no sleeper is due at any of the ticks.
pub open spec fn nobody_is_due(sleeping: Seq<Thread>, now: Seq<u64>) -> bool {
    forall|j: int, i: int|
        0 <= j < now.len() && 0 <= i < sleeping.len() ==> (#[trigger] sleeping[i]).wake_at
            > #[trigger] now[j]
}

/// Whether a scheduler is at the start of a time slice.
pub open spec fn starts_slice(s: Scheduler) -> bool {
    s.is_up && s.slice_ticks == 0 && !s.need_resched
}

/// A time slice lasts ten milliseconds: where a thread is ready, a switch has been asked
/// for once the ticks of the slice, of which there are `hz` in a second, make up that
/// time. Where no sleeper is due, it is not asked for while one more tick would still be
/// within that time, so that the running thread has its slice to itself.
pub proof fn law_slice_lasts_ten_milliseconds(st: Seq<Scheduler>, now: Seq<u64>, hz: u64)
    requires
        are_ticks(st, now, hz),
        1 <= now.len() < u64::MAX,
        starts_slice(st[0]),
        st[0].ready@.len() > 0,
    ensures
        now.len() * 1000 >= hz * 10 ==> st.last().need_resched,
        nobody_is_due(st[0].sleeping@, now) ==> (st.last().need_resched <==> (now.len() + 1) * 1000
            > hz * 10),
        st.last().ready == st[0].ready,
        st.last().current == st[0].current,
{
    lemma_ticks(st, now, hz, now.len() as int);
}

/// A thread that has the processor to itself, with nobody ready and no sleeper due, is not
/// disturbed, however long it runs.
pub proof fn law_lone_thread_runs_on(st: Seq<Scheduler>, now: Seq<u64>, hz: u64)
    requires
        are_ticks(st, now, hz),
        now.len() < u64::MAX,
        starts_slice(st[0]),
        st[0].ready@.len() == 0,
        nobody_is_due(st[0].sleeping@, now),
    ensures
        !st.last().need_resched,
{
    lemma_ticks(st, now, hz, now.len() as int);
}

/// A sleeper that is due makes the next tick ask for a switch.
pub proof fn law_due_sleeper_asks_for_a_switch(
    before: Scheduler,
    after: Scheduler,
    now: u64,
    hz: u64,
    i: int,
)
    requires
        is_ticked(before, after, now, hz),
        before.is_up,
        0 <= i < before.sleeping@.len(),
        before.sleeping@[i].wake_at <= now,
    ensures
        after.need_resched,
{
    assert(super::is_sleeper_due(before, now));
}

proof fn lemma_ticks(st: Seq<Scheduler>, now: Seq<u64>, hz: u64, k: int)
    requires
        are_ticks(st, now, hz),
        0 <= k <= now.len() < u64::MAX,
        starts_slice(st[0]),
    ensures
        st[k].is_up,
        st[k].slice_ticks == k,
        st[k].ready == st[0].ready,
        st[k].sleeping == st[0].sleeping,
        st[k].current == st[0].current,
        st[0].ready@.len() > 0 && k >= 1 && (k + 1) * 1000 > hz * 10 ==> st[k].need_resched,
        nobody_is_due(st[0].sleeping@, now) && (k == 0 || st[0].ready@.len() == 0 || (k + 1) * 1000
            <= hz * 10) ==> !st[k].need_resched,
    decreases k,
{
    if k > 0 {
        lemma_ticks(st, now, hz, k - 1);
        assert(is_ticked(st[k - 1], st[k - 1 + 1], now[k - 1], hz));
        if super::is_sleeper_due(st[k - 1], now[k - 1]) {
            let i = choose|i: int|
                0 <= i < st[0].sleeping@.len() && (#[trigger] st[0].sleeping@[i]).wake_at <= now[k
                    - 1];
            assert(st[0].sleeping@[i].wake_at <= now[k - 1]);
        }
    }
}

/// Where a switch was asked for, the thread that has been ready for longest runs next, and
/// the one that was running is ready again, behind all that were ready or have woken.
pub proof fn law_preempted_thread_goes_to_the_back(
    before: Scheduler,
    after: Scheduler,
    now: u64,
    switch: Option<Switch>,
)
    requires
        is_rescheduled(before, after, Next::Yield, now, None, switch),
        before.current matches Some(t) && !t.is_idle,
        before.ready@.len() > 0,
    ensures
        after.current == Some(before.ready@[0]),
        after.ready@.len() > 0,
        after.ready@.last() == before.current->0,
        before.ready@[0].id != before.current->0.id ==> switch == Some(
            Switch {
                from: before.current->0.id,
                to: before.ready@[0].id,
                rsp: before.ready@[0].rsp,
            },
        ),
        after.slice_ticks == 0,
        !after.need_resched,
{
    super::lemma_woken_keeps_ready(before.sleeping@, before.ready@, now, 0);
}

/// A thread that goes to sleep sleeps until the time that it asked for; one that ends is
/// to be freed; one that blocks is handed to the caller. None of them is ready or runs.
pub proof fn law_taken_off_thread_is_where_it_asked(
    before: Scheduler,
    after: Scheduler,
    how: Next,
    now: u64,
    parked: Option<Thread>,
    switch: Option<Switch>,
)
    requires
        is_rescheduled(before, after, how, now, parked, switch),
        before.current matches Some(t) && !t.is_idle,
        before.idle is Some,
    ensures
        how matches Next::Sleep(until) ==> after.sleeping@.len() > 0 && after.sleeping@.last()
            == (Thread { wake_at: until, ..before.current->0 }),
        how == Next::Exit ==> after.zombies@ == before.zombies@.push(before.current->0),
        how != Next::Exit ==> after.zombies@ == before.zombies@,
        how == Next::Block <==> parked == before.current,
        how != Next::Block ==> parked is None,
        how != Next::Yield ==> {
            let woken = super::woken(before.sleeping@, before.ready@, now, 0);
            if woken.1.len() == 0 {
                after.current == before.idle && after.ready@.len() == 0 && after.idle is None
            } else {
                after.current == Some(woken.1[0]) && after.ready@ == woken.1.skip(1) && after.idle
                    == before.idle
            }
        },
{
    let woken = super::woken(before.sleeping@, before.ready@, now, 0);
    assert(woken.1.len() > 0 ==> woken.1.drop_first() =~= woken.1.skip(1));
}

} // verus!
