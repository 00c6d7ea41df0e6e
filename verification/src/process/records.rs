//! What is noted of each process, as the table's operations change it.

use vstd::prelude::*;
use super::{are_distinct, exited, lemma_place, place_of, registered, taken, Process};

verus! {

/// Whether a process has no record.
pub open spec fn is_unknown(t: Seq<Process>, pid: u64) -> bool {
    forall|k: int| 0 <= k < t.len() ==> (#[trigger] t[k]).pid != pid
}

/// A program that starts is noted by its name, and how it ended if it has ended already.
pub proof fn law_started(t: Seq<Process>, pid: u64, name: Seq<char>, r: Process)
    requires
        are_distinct(t),
    ensures
        r.pid != pid ==> (registered(t, pid, name).contains(r) <==> t.contains(r)),
        r.pid == pid && t.contains(r) ==> registered(t, pid, name).contains(
            Process { pid, name, status: r.status },
        ),
        is_unknown(t, pid) ==> registered(t, pid, name).contains(
            Process { pid, name, status: None },
        ),
        are_distinct(registered(t, pid, name)),
{
    let u = registered(t, pid, name);
    lemma_place(t, pid, 0);
    lemma_changed(t, u, pid);
    lemma_same_others(t, u, pid, r);
    match place_of(t, pid, 0) {
        Some(i) => {
            assert(u[i] == Process { pid, name, status: t[i].status });
            if t.contains(r) && r.pid == pid {
                let k = choose|k: int| 0 <= k < t.len() && t[k] == r;
                assert(k == i);
            }
        },
        None => {
            assert(u[t.len() as int] == Process { pid, name, status: None });
            assert(u.contains(Process { pid, name, status: None }));
        },
    }
}

/// A program that ends keeps its name, and its status is noted, whether its start was or not.
pub proof fn law_ended(t: Seq<Process>, pid: u64, code: i64, r: Process)
    requires
        are_distinct(t),
    ensures
        r.pid != pid ==> (exited(t, pid, code).contains(r) <==> t.contains(r)),
        r.pid == pid && t.contains(r) ==> exited(t, pid, code).contains(
            Process { pid, name: r.name, status: Some(code) },
        ),
        is_unknown(t, pid) ==> exited(t, pid, code).contains(
            Process { pid, name: Seq::empty(), status: Some(code) },
        ),
        are_distinct(exited(t, pid, code)),
{
    let u = exited(t, pid, code);
    lemma_place(t, pid, 0);
    lemma_changed(t, u, pid);
    lemma_same_others(t, u, pid, r);
    match place_of(t, pid, 0) {
        Some(i) => {
            assert(u[i] == Process { pid, name: t[i].name, status: Some(code) });
            if t.contains(r) && r.pid == pid {
                let k = choose|k: int| 0 <= k < t.len() && t[k] == r;
                assert(k == i);
            }
        },
        None => {
            assert(u[t.len() as int] == Process { pid, name: Seq::empty(), status: Some(code) });
            assert(u.contains(Process { pid, name: Seq::empty(), status: Some(code) }));
        },
    }
}

/// The status of a program is collected where it has ended, and its record goes with it.
/// One that runs, or is not known, stays as it is.
pub proof fn law_collected(t: Seq<Process>, pid: u64, r: Process)
    requires
        are_distinct(t),
    ensures
        r.pid != pid ==> (taken(t, pid).0.contains(r) <==> t.contains(r)),
        r.pid == pid && t.contains(r) ==> taken(t, pid).1 == r.status,
        r.pid == pid && t.contains(r) && r.status is None ==> taken(t, pid).0 == t,
        is_unknown(t, pid) ==> taken(t, pid) == (t, None::<i64>),
        taken(t, pid).1 is Some ==> is_unknown(taken(t, pid).0, pid),
{
    let u = taken(t, pid).0;
    lemma_place(t, pid, 0);
    if let Some(i) = place_of(t, pid, 0) {
        if t.contains(r) && r.pid == pid {
            let k = choose|k: int| 0 <= k < t.len() && t[k] == r;
            assert(k == i);
        }
        if t[i].status is Some {
            let n = t.len() - 1;
            assert forall|k: int| 0 <= k < u.len() implies (#[trigger] u[k]).pid != pid by {
                if k == i {
                    assert(t[n].pid != t[i].pid);
                } else if k < i {
                    assert(t[k].pid != t[i].pid);
                } else {
                    assert(t[i].pid != t[k].pid);
                }
            }
            if r.pid != pid && t.contains(r) {
                let k = choose|k: int| 0 <= k < t.len() && t[k] == r;
                if k == n {
                    assert(u[i] == r);
                } else {
                    assert(u[k] == r);
                }
            }
            if r.pid != pid && u.contains(r) {
                let k = choose|k: int| 0 <= k < u.len() && u[k] == r;
                if k == i {
                    assert(t[n] == r);
                } else {
                    assert(t[k] == r);
                }
            }
        }
    }
}

/// Whether a table is another one but for the record of one process.
spec fn is_changed(t: Seq<Process>, u: Seq<Process>, pid: u64) -> bool {
    &&& t.len() <= u.len() <= t.len() + 1
    &&& forall|k: int| 0 <= k < t.len() ==> (#[trigger] u[k]).pid == t[k].pid
    &&& forall|k: int| 0 <= k < t.len() && t[k].pid != pid ==> #[trigger] u[k] == t[k]
    &&& u.len() > t.len() ==> is_unknown(t, pid) && u.last().pid == pid
}

proof fn lemma_changed(t: Seq<Process>, u: Seq<Process>, pid: u64)
    requires
        are_distinct(t),
        is_changed(t, u, pid),
    ensures
        are_distinct(u),
{
    assert forall|i: int, j: int| 0 <= i < j < u.len() implies (#[trigger] u[i]).pid != (
    #[trigger] u[j]).pid by {
        if j < t.len() {
            assert(t[i].pid != t[j].pid);
        } else {
            assert(t[i].pid != pid);
        }
    }
}

proof fn lemma_same_others(t: Seq<Process>, u: Seq<Process>, pid: u64, r: Process)
    requires
        is_changed(t, u, pid),
    ensures
        r.pid != pid ==> (u.contains(r) <==> t.contains(r)),
{
    if r.pid != pid {
        if t.contains(r) {
            let k = choose|k: int| 0 <= k < t.len() && t[k] == r;
            assert(u[k] == r);
        }
        if u.contains(r) {
            let k = choose|k: int| 0 <= k < u.len() && u[k] == r;
            assert(t[k] == r);
        }
    }
}

} // verus!
