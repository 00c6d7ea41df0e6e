//! Which threads there are, and whose the stack slots in use are.

use vstd::prelude::*;
use vstd::multiset::Multiset;
use super::{one_tag, tags, Scheduler, Thread};

verus! {

/// How many threads have an id.
pub open spec fn of_id(m: Multiset<(u64, Option<usize>)>, id: u64) -> nat {
    m.filter(|t: (u64, Option<usize>)| t.0 == id).len()
}

/// How many threads have a stack slot.
pub open spec fn of_slot(m: Multiset<(u64, Option<usize>)>, slot: usize) -> nat {
    m.filter(|t: (u64, Option<usize>)| t.1 == Some(slot)).len()
}

/// How many threads have a stack slot of any number.
pub open spec fn with_stack(m: Multiset<(u64, Option<usize>)>) -> nat {
    m.filter(|t: (u64, Option<usize>)| t.1 is Some).len()
}

/// All threads: those that the scheduler holds, and those that are out of its hands,
/// parked or about to be freed.
pub open spec fn all_threads(s: Scheduler, out: Seq<Thread>) -> Multiset<(u64, Option<usize>)> {
    s.threads().add(tags(out).to_multiset())
}

/// Whether ids and stack slots add up: no two threads have one id, and none has one that
/// is still to be given out; a slot in use is that of one thread, and no other slot is any
/// thread's; only the boot thread has none.
pub open spec fn is_accounted(s: Scheduler, out: Seq<Thread>) -> bool {
    let m = all_threads(s, out);
    &&& s.next_id >= 1
    &&& forall|id: u64| #[trigger] of_id(m, id) <= 1
    &&& forall|id: u64| id >= s.next_id || id == 0 && !s.is_up ==> #[trigger] of_id(m, id) == 0
    &&& forall|slot: usize| #[trigger]
        of_slot(m, slot) == if s.has_slot(slot) {
            1nat
        } else {
            0
        }
    &&& with_stack(m) == s.slots_in_use()
    &&& forall|t: (u64, Option<usize>)| #[trigger] m.count(t) > 0 && t.1 is None ==> t.0 == 0
}

/// What one thread more adds.
proof fn lemma_added(m: Multiset<(u64, Option<usize>)>, t: (u64, Option<usize>))
    ensures
        forall|id: u64| #[trigger]
            of_id(m.insert(t), id) == of_id(m, id) + if t.0 == id {
                1nat
            } else {
                0
            },
        forall|slot: usize| #[trigger]
            of_slot(m.insert(t), slot) == of_slot(m, slot) + if t.1 == Some(slot) {
                1nat
            } else {
                0
            },
        with_stack(m.insert(t)) == with_stack(m) + if t.1 is Some {
            1nat
        } else {
            0
        },
        forall|u: (u64, Option<usize>)| #[trigger]
            m.insert(t).count(u) == m.count(u) + if u == t {
                1nat
            } else {
                0
            },
{
    assert forall|id: u64| #[trigger]
        of_id(m.insert(t), id) == of_id(m, id) + if t.0 == id {
            1nat
        } else {
            0
        } by {
        lemma_filtered(m, t, |t: (u64, Option<usize>)| t.0 == id);
    }
    assert forall|slot: usize| #[trigger]
        of_slot(m.insert(t), slot) == of_slot(m, slot) + if t.1 == Some(slot) {
            1nat
        } else {
            0
        } by {
        lemma_filtered(m, t, |t: (u64, Option<usize>)| t.1 == Some(slot));
    }
    lemma_filtered(m, t, |t: (u64, Option<usize>)| t.1 is Some);
}

proof fn lemma_filtered(
    m: Multiset<(u64, Option<usize>)>,
    t: (u64, Option<usize>),
    f: spec_fn((u64, Option<usize>)) -> bool,
)
    ensures
        m.insert(t).filter(f).len() == m.filter(f).len() + if f(t) {
            1nat
        } else {
            0
        },
{
    if f(t) {
        assert(m.insert(t).filter(f) =~= m.filter(f).insert(t));
    } else {
        assert(m.insert(t).filter(f) =~= m.filter(f));
    }
}

proof fn lemma_nobody()
    ensures
        forall|id: u64| #[trigger] of_id(Multiset::empty(), id) == 0,
        forall|slot: usize| #[trigger] of_slot(Multiset::empty(), slot) == 0,
        with_stack(Multiset::empty()) == 0,
{
    let m = Multiset::<(u64, Option<usize>)>::empty();
    assert forall|id: u64| #[trigger] of_id(m, id) == 0 by {
        assert(m.filter(|t: (u64, Option<usize>)| t.0 == id) =~= m);
    }
    assert forall|slot: usize| #[trigger] of_slot(m, slot) == 0 by {
        assert(m.filter(|t: (u64, Option<usize>)| t.1 == Some(slot)) =~= m);
    }
    assert(m.filter(|t: (u64, Option<usize>)| t.1 is Some) =~= m);
}

/// A new scheduler has no threads and no slots in use.
pub proof fn law_new_is_accounted(s: Scheduler)
    requires
        s.wf(),
        !s.is_up,
        s.ready@.len() == 0,
        s.sleeping@.len() == 0,
        s.zombies@.len() == 0,
        s.free_slots@.len() == 0,
        s.next_slot == 0,
        s.next_id == 1,
    ensures
        is_accounted(s, Seq::empty()),
{
    broadcast use vstd::seq_lib::group_to_multiset_ensures;

    assert(tags(s.ready@) =~= Seq::empty());
    assert(tags(s.sleeping@) =~= Seq::empty());
    assert(tags(s.zombies@) =~= Seq::empty());
    assert(tags(Seq::<Thread>::empty()) =~= Seq::empty());
    assert(all_threads(s, Seq::empty()) =~= Multiset::empty());
    lemma_nobody();
}

/// A thread that is started adds itself: its id is larger than that of any thread there
/// is, its slot was nobody's, and there is one slot more in use.
pub proof fn law_spawning_keeps_account(a: Scheduler, b: Scheduler, out: Seq<Thread>)
    requires
        is_accounted(a, out),
        a.next_free_slot() matches Some(slot) && !a.has_slot(slot) && (forall|x: usize| #[trigger]
            b.has_slot(x) == (a.has_slot(x) || x == slot)),
        b.threads() == a.threads().insert((a.next_id, a.next_free_slot())),
        b.slots_in_use() == a.slots_in_use() + 1,
        b.next_id == a.next_id + 1,
        b.is_up == a.is_up,
    ensures
        is_accounted(b, out),
        forall|t: (u64, Option<usize>)| #[trigger]
            all_threads(a, out).count(t) > 0 ==> t.0 < a.next_id,
{
    let m = all_threads(a, out);
    let t = (a.next_id, a.next_free_slot());
    assert(all_threads(b, out) =~= m.insert(t));
    lemma_added(m, t);
    law_ids_are_below(a, out);
    assert(of_id(m, a.next_id) == 0);
}

/// A thread that could not be started for want of memory uses up an id, and nothing else.
pub proof fn law_no_thread_keeps_account(a: Scheduler, b: Scheduler, out: Seq<Thread>)
    requires
        is_accounted(a, out),
        b.same_threads(a),
        forall|x: usize| #[trigger] b.has_slot(x) == a.has_slot(x),
        b.slots_in_use() == a.slots_in_use(),
        a.next_id <= b.next_id,
    ensures
        is_accounted(b, out),
{
    assert(all_threads(b, out) == all_threads(a, out));
}

/// Every thread there is has an id that was given out.
pub proof fn law_ids_are_below(s: Scheduler, out: Seq<Thread>)
    requires
        is_accounted(s, out),
    ensures
        forall|t: (u64, Option<usize>)| #[trigger]
            all_threads(s, out).count(t) > 0 ==> t.0 < s.next_id,
{
    let m = all_threads(s, out);
    assert forall|t: (u64, Option<usize>)| #[trigger] m.count(t) > 0 implies t.0 < s.next_id by {
        lemma_counted(m, t);
        assert(of_id(m, t.0) >= 1);
    }
}

/// A thread that is there counts.
proof fn lemma_counted(m: Multiset<(u64, Option<usize>)>, t: (u64, Option<usize>))
    requires
        m.count(t) > 0,
    ensures
        of_id(m, t.0) >= 1,
{
    lemma_added(m.remove(t), t);
    assert(m.remove(t).insert(t) =~= m);
}

/// Starting the scheduler adds the boot thread, which has no stack slot, and the idle
/// thread, which has one.
pub proof fn law_starting_keeps_account(a: Scheduler, b: Scheduler, out: Seq<Thread>)
    requires
        is_accounted(a, out),
        a.wf(),
        !a.is_up,
        b.is_up,
        b.current matches Some(boot) && boot.id == 0 && boot.stack_slot is None,
        b.idle matches Some(idle) && idle.id == a.next_id && idle.stack_slot == a.next_free_slot(),
        b.ready == a.ready,
        b.sleeping == a.sleeping,
        b.zombies == a.zombies,
        a.next_free_slot() matches Some(slot) && !a.has_slot(slot) && (forall|x: usize| #[trigger]
            b.has_slot(x) == (a.has_slot(x) || x == slot)),
        b.slots_in_use() == a.slots_in_use() + 1,
        b.next_id == a.next_id + 1,
    ensures
        is_accounted(b, out),
{
    let m = all_threads(a, out);
    let boot = (0u64, None::<usize>);
    let idle = (a.next_id, a.next_free_slot());
    assert(all_threads(b, out) =~= m.insert(boot).insert(idle));
    lemma_added(m, boot);
    lemma_added(m.insert(boot), idle);
    assert(of_id(m, 0) == 0);
    assert(of_id(m, a.next_id) == 0);
}

/// Threads that only change places, among the queues of the scheduler and those outside
/// it, keep their ids and stack slots.
pub proof fn law_moving_keeps_account(
    a: Scheduler,
    b: Scheduler,
    out_a: Seq<Thread>,
    out_b: Seq<Thread>,
)
    requires
        is_accounted(a, out_a),
        b.threads().add(tags(out_b).to_multiset()) == a.threads().add(tags(out_a).to_multiset()),
        b.same_slots(a),
    ensures
        is_accounted(b, out_b),
{
    assert(all_threads(b, out_b) == all_threads(a, out_a));
    assert forall|x: usize| #[trigger] b.has_slot(x) == a.has_slot(x) by {}
}

/// Freeing a dead thread gives its stack slot back, and no other.
pub proof fn law_freeing_keeps_account(a: Scheduler, b: Scheduler, out: Seq<Thread>)
    requires
        is_accounted(a, out),
        out.len() > 0,
        out[0].stack_slot is None ==> b == a,
        out[0].stack_slot matches Some(slot) ==> {
            &&& b.same_threads(a)
            &&& b.next_id == a.next_id
            &&& forall|x: usize| #[trigger] b.has_slot(x) == (a.has_slot(x) && x != slot)
            &&& b.slots_in_use() == a.slots_in_use() - 1
        },
    ensures
        is_accounted(b, out.drop_first()),
        out[0].stack_slot matches Some(slot) ==> a.has_slot(slot),
{
    let t = out[0].tag();
    let m = all_threads(b, out.drop_first());
    super::lemma_tags_pop(out);
    assert(all_threads(a, out) =~= m.insert(t));
    lemma_added(m, t);
    assert forall|id: u64| #[trigger] of_id(m, id) <= 1 by {
        assert(of_id(m.insert(t), id) <= 1);
    }
    assert forall|id: u64| id >= b.next_id || id == 0 && !b.is_up implies #[trigger] of_id(m, id)
        == 0 by {
        assert(of_id(m.insert(t), id) == 0);
    }
    assert forall|slot: usize| #[trigger]
        of_slot(m, slot) == if b.has_slot(slot) {
            1nat
        } else {
            0
        } by {
        assert(of_slot(m.insert(t), slot) == if a.has_slot(slot) {
            1nat
        } else {
            0
        });
    }
    assert forall|u: (u64, Option<usize>)| #[trigger] m.count(u) > 0 && u.1 is None implies u.0
        == 0 by {
        assert(m.insert(t).count(u) > 0);
    }
    if t.1 is Some {
        assert(of_slot(m.insert(t), t.1->0) >= 1);
    }
}

/// A thread is not freed while it runs: none of those that `finish_switch` hands over to
/// be freed is the running one, nor has its stack.
pub proof fn law_running_thread_is_not_freed(s: Scheduler, out: Seq<Thread>, i: int)
    requires
        is_accounted(s, out),
        s.current is Some,
        0 <= i < s.zombies@.len(),
    ensures
        s.zombies@[i].id != s.current->0.id,
        s.zombies@[i].stack_slot is Some ==> s.zombies@[i].stack_slot != s.current->0.stack_slot,
{
    broadcast use vstd::seq_lib::group_to_multiset_ensures;

    let m = all_threads(s, out);
    let t = s.current->0.tag();
    let d = s.zombies@[i].tag();
    let dead = tags(s.zombies@);
    assert(dead[i] == d);
    assert(dead.contains(d));
    assert(dead.to_multiset().count(d) >= 1);
    assert(one_tag(s.current).count(t) == 1);
    let rest = m.remove(t).remove(d);
    assert(m =~= rest.insert(d).insert(t));
    lemma_added(rest, d);
    lemma_added(rest.insert(d), t);
    assert(of_id(m, t.0) <= 1);
    if d.1 is Some {
        assert(of_slot(m, d.1->0) <= 1);
    }
}

} // verus!
