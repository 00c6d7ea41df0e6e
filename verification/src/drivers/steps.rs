//! How the storage drivers go from step to step.

use vstd::prelude::*;
use crate::bytes::le32;
use crate::text::decimal;
use super::ahci::transfer::{stage_after, Stage as TransferStage, TransferAnswer};
use super::nvme::{
    all_disks, capacity_of, create_queue, identify, next, set_queue_count, usable, Answer, Ask, Stage,
};

verus! {

/// What the administration commands ask for: the controller or a namespace to be identified
/// into a page; one pair of queues (feature 7); a queue with the number 1 and sixteen places
/// in one page, and for the commands also the queue of their completions.
pub proof fn law_nvme_administration(nsid: u32, page: u64)
    ensures
        identify(0, page).opcode == 6 && identify(0, page).cdw10 == 1,
        nsid > 0 ==> identify(nsid, page).opcode == 6 && identify(nsid, page).cdw10 == 0 && identify(
            nsid,
            page,
        ).nsid == nsid,
        identify(nsid, page).prp1 == page,
        set_queue_count().opcode == 9 && set_queue_count().cdw10 == 7 && set_queue_count().cdw11 == 0,
        create_queue(5, page).cdw10 % 0x1_0000 == 1 && create_queue(5, page).cdw10 / 0x1_0000 + 1
            == 16,
        create_queue(1, page).cdw10 % 0x1_0000 == 1 && create_queue(1, page).cdw10 / 0x1_0000 + 1
            == 16,
        create_queue(5, page).cdw11 == 1,
        create_queue(1, page).cdw11 % 0x1_0000 == 1 && create_queue(1, page).cdw11 / 0x1_0000 == 1,
        create_queue(5, page).prp1 == page && create_queue(1, page).prp1 == page,
{
}

/// Whether an answer says that what was asked for was done.
pub open spec fn is_good(a: Answer) -> bool {
    match a {
        Answer::Ready(r) => r,
        Answer::Page(p) => p is Some,
        Answer::Completed(d) => d is Some,
    }
}

/// A controller is enabled with the queues that it was given pages for; its queue of
/// completions is made before the queue of commands, whose page was given first; and it is
/// in use with those two.
pub proof fn law_nvme_order(s: Stage, found: Seq<(u32, u64)>, a: Answer)
    ensures
        ({
            let r = next(s, found, a);
            &&& r.2 matches Ask::Enable { queue_sizes, submission, completion, configuration } ==> {
                &&& s == Stage::AdminData { submission, completion }
                &&& a matches Answer::Page(Some(_))
                &&& queue_sizes == 0x000f_000f && configuration == 0x0046_0001
            }
            &&& r.2 matches Ask::Submit(e) ==> {
                &&& e.opcode == 6 || e.opcode == 9 || e.opcode == 5 || e.opcode == 1
                &&& e.opcode == 5 ==> s is IoCompletion && a == Answer::Page(Some(e.prp1))
                &&& e.opcode == 1 ==> s is MakingCompletion && is_good(a) && e.prp1
                    == s->MakingCompletion_submission
                &&& e.opcode == 9 ==> s is Identifying && (a matches Answer::Completed(Some(d))
                    && le32(d@, 516) > 0)
            }
            &&& r.2 matches Ask::Finished { submission, completion, data } ==> s
                == Stage::BlockPage { submission, completion } && a == Answer::Page(Some(data))
            &&& !(s is Namespace) && !is_good(a) ==> r.2 is Failed && r.0 is Over && r.1 == found
            &&& !(s is Namespace) ==> r.1 == found
        }),
{
}

/// The namespaces are looked at one after the other from the first on, up to the last of
/// those that there are or the thirty-second. One whose blocks can be used is noted with
/// their number.
pub proof fn law_nvme_namespaces(s: Stage, found: Seq<(u32, u64)>, a: Answer)
    requires
        s is Namespace,
    ensures
        ({
            let r = next(s, found, a);
            let nsid = s->Namespace_nsid;
            let namespaces = s->Namespace_namespaces;
            &&& r.1 == match a {
                Answer::Completed(Some(d)) => if d@.len() == 4096 && capacity_of(d@) is Some {
                    found.push((nsid, capacity_of(d@)->0))
                } else {
                    found
                },
                _ => found,
            }
            &&& nsid < namespaces && nsid < 32 ==> r.0 is Namespace
                && r.0->Namespace_nsid == nsid + 1 && r.0->Namespace_namespaces == namespaces && (
            r.2 matches Ask::Submit(e) && e.opcode == 6 && e.nsid == nsid + 1 && e.prp1
                == s->Namespace_page)
            &&& !(nsid < namespaces && nsid < 32) ==> (if r.1.len() == 0 {
                r.2 is Failed
            } else {
                r.2 is Page && r.0 == Stage::BlockPage {
                    submission: s->Namespace_submission,
                    completion: s->Namespace_completion,
                }
            })
        }),
{
}

/// The controllers that came up are numbered in their order, without gaps.
pub proof fn law_nvme_numbers(up: Seq<Option<Vec<(u32, u64)>>>, n: int)
    requires
        0 <= n < up.len(),
    ensures
        usable(up, 0) == 0,
        up[n] is Some ==> usable(up, n + 1) == usable(up, n) + 1,
        up[n] is None ==> usable(up, n + 1) == usable(up, n),
{
}

/// Each namespace of a controller that came up is a disk, named after both, with its number
/// of blocks.
pub proof fn law_nvme_disks(up: Seq<Option<Vec<(u32, u64)>>>, n: int, i: int, j: int)
    requires
        0 <= i < n <= up.len(),
        up[i] is Some,
        0 <= j < up[i]->0@.len(),
    ensures
        all_disks(up, n).contains(
            (
                seq!['n', 'v', 'm', 'e'] + decimal(usable(up, i)) + seq!['n'] + decimal(
                    up[i]->0@[j].0 as nat,
                ),
                i as usize,
                up[i]->0@[j].0,
                up[i]->0@[j].1,
            ),
        ),
    decreases n,
{
    let d = (
        seq!['n', 'v', 'm', 'e'] + decimal(usable(up, i)) + seq!['n'] + decimal(
            up[i]->0@[j].0 as nat,
        ),
        i as usize,
        up[i]->0@[j].0,
        up[i]->0@[j].1,
    );
    let all = all_disks(up, n);
    let before = all_disks(up, n - 1);
    if i == n - 1 {
        reveal_strlit("nvme");
        reveal_strlit("n");
        assert("nvme"@ =~= seq!['n', 'v', 'm', 'e']);
        assert("n"@ =~= seq!['n']);
        assert(all[before.len() + j] == d);
    } else {
        law_nvme_disks(up, n - 1, i, j);
        let k = choose|k: int| 0 <= k < before.len() && before[k] == d;
        assert(all[k] == d);
    }
}

/// A command goes to a disk only where it is neither busy nor waiting for data, and its
/// sector is taken only where the disk reports no error.
pub proof fn law_sata_transfer(task_file: u32, status: u32, done: bool, issue: u32, waited_ms: u64)
    ensures
        stage_after(TransferStage::Asking, TransferAnswer::Register(task_file)) is Issuing <==> (
        task_file / 128 % 2 == 0 && task_file / 8 % 2 == 0),
        stage_after(
            TransferStage::Checking { completed: done },
            TransferAnswer::Register(status),
        ) is Fetching <==> done && status % 2 == 0,
        stage_after(
            TransferStage::Watching,
            TransferAnswer::Seen { command_issue: issue, interrupt_status: status, waited_ms },
        ) == (TransferStage::Checking { completed: true }) <==> issue % 2 == 0 || status % 2 == 1,
        !(stage_after(TransferStage::Asking, TransferAnswer::Register(task_file)) is Issuing)
            ==> stage_after(TransferStage::Asking, TransferAnswer::Register(task_file)) is Over,
{
}

} // verus!
