//! The initial stack of a process.

use vstd::prelude::*;
use crate::bytes::{copy_into, le64_bytes, spliced, u64_to_le, zeros};
use crate::pmm::{
    alloc_frame_zeroed, is_used, keeps_used, page_down, PhysicalMemory, Pmm, PAGE_SIZE,
};
use crate::vmm::closed::{is_closed, lemma_closed_mapped, lemma_closed_same};
use crate::vmm::inside::{
    lemma_inside_kept, lemma_inside_mapped, lemma_inside_twice, lemma_inside_written,
    stays_inside,
};
use crate::vmm::layout::lemma_frame_itself;
use crate::vmm::ledger::{
    keeps_accounts, lemma_owns_mapped, lemma_owns_taken, lemma_owns_written, lemma_plain_tables,
    lemma_same_ways, lemma_used_tables, owns, same_tables,
};
use crate::vmm::region::{is_out_of_frames, is_plain, lemma_fresh_plain, lemma_stays_plain};
use crate::vmm::space::{
    is_user_half, lemma_space_kept, lemma_tables_kept, AddressSpace, USER_END,
};
use crate::vmm::tables::{
    adds_just, is_passed, lemma_adds_none, lemma_adds_one, lemma_adds_same, lemma_reach,
    lemma_same_needs, lemma_stays_clear, reach,
};
use crate::vmm::{
    in_memory, index_of, is_clear, is_mapped_page, is_space, is_way_byte, leaf_at, leaf_of,
    lemma_apart, lemma_leaf_present, lemma_same_page_way, lemma_same_way, lemma_takes_only,
    lemma_uc_leaf, missing_tables, same_way, table_at, takes_only, walked, MapError, ADDR_MASK,
    PHYS_LIMIT, USER_RW,
};

verus! {

/// One past the highest byte of the user stack, which grows down from here.
pub const USER_STACK_TOP: u64 = 0x0000_7fff_ffff_f000;

/// Size of the initial user stack. The page below it is left unmapped, so
/// overflowing the stack is a page fault.
pub const USER_STACK_PAGES: u64 = 16;

/// The longest program name that is put on the stack.
pub const MAX_ARG: usize = 255;

/// The `k`th page of the stack, from the top.
pub open spec fn stack_page(k: int) -> int {
    USER_STACK_TOP - (k + 1) * 4096
}

/// Whether the first pages of a stack, in the frames `f`, are mapped for user
/// reads and writes and hold zeros, and everything else that was in use is as it
/// was.
#[verifier::opaque]
pub open spec fn are_stacked(m0: PhysicalMemory, m: PhysicalMemory, root: u64, f: Seq<u64>) -> bool {
    &&& is_space(m, root)
    &&& m.hhdm == m0.hhdm
    &&& m.bytes@.len() == m0.bytes@.len()
    &&& takes_only(m0.pmm->0, m.pmm->0)
    &&& forall|k: int|
        0 <= k < f.len() ==> {
            &&& (#[trigger] f[k]) % 4096 == 0
            &&& f[k] + 4096 <= m.bytes@.len()
            &&& !is_used(m0.pmm->0.bitmap@, f[k] as int / 4096)
            &&& is_used(m.pmm->0.bitmap@, f[k] as int / 4096)
            &&& is_plain(m.bytes@, root, f[k] as int)
            &&& leaf_at(m.bytes@, root, stack_page(k) as u64) == Some(leaf_of(f[k], USER_RW))
        }
    &&& forall|k: int, o: int|
        #![trigger m.bytes@[f[k] + o]]
        0 <= k < f.len() && 0 <= o < 4096 ==> m.bytes@[f[k] + o] == 0
    &&& forall|k: int, l: int| 0 <= k < l < f.len() ==> #[trigger] f[k] != #[trigger] f[l]
    &&& forall|k: int, v: u64|
        0 <= k < f.len() && page_down(v as int) == stack_page(k) ==> #[trigger] walked(
            m.bytes@,
            root,
            v,
        ) == Some((#[trigger] f[k] + v % 4096) as u64)
    &&& is_rest_kept(m0, m, root, f.len() as int)
}

/// Whether a process is as it was, but for the first `n` pages of its stack.
pub open spec fn is_rest_kept(m0: PhysicalMemory, m: PhysicalMemory, root: u64, n: int) -> bool {
    &&& forall|v: u64|
        v < USER_END && !(USER_STACK_TOP - n * 4096 <= v < USER_STACK_TOP) ==> #[trigger] walked(
            m.bytes@,
            root,
            v,
        ) == walked(m0.bytes@, root, v)
    &&& forall|v: u64|
        v < USER_END && !(USER_STACK_TOP - n * 4096 <= v < USER_STACK_TOP) && leaf_at(
            m0.bytes@,
            root,
            v,
        ) is Some ==> #[trigger] leaf_at(m.bytes@, root, v) == leaf_at(m0.bytes@, root, v)
    &&& forall|x: int|
        0 <= x < m0.bytes@.len() && is_used(m0.pmm->0.bitmap@, x / 4096) && is_plain(
            m0.bytes@,
            root,
            x,
        ) ==> #[trigger] m.bytes@[x] == m0.bytes@[x]
    &&& forall|x: int|
        0 <= x < m0.bytes@.len() && is_used(m0.pmm->0.bitmap@, x / 4096) && is_plain(
            m0.bytes@,
            root,
            x,
        ) ==> #[trigger] is_plain(m.bytes@, root, x)
}

/// What giving a process one page more does: a frame is handed out, filled with
/// zeros, and mapped at `virt`.
#[verifier::opaque]
spec fn is_grown(a: PhysicalMemory, c: PhysicalMemory, root: u64, virt: u64, phys: u64) -> bool {
    &&& is_space(c, root)
    &&& c.hhdm == a.hhdm
    &&& c.bytes@.len() == a.bytes@.len()
    &&& takes_only(a.pmm->0, c.pmm->0)
    &&& phys % 4096 == 0
    &&& phys + 4096 <= c.bytes@.len()
    &&& !is_used(a.pmm->0.bitmap@, phys as int / 4096)
    &&& is_used(c.pmm->0.bitmap@, phys as int / 4096)
    &&& is_plain(c.bytes@, root, phys as int)
    &&& leaf_at(c.bytes@, root, virt) == Some(leaf_of(phys, USER_RW))
    &&& forall|o: int| 0 <= o < 4096 ==> #[trigger] c.bytes@[phys + o] == 0
    &&& forall|v: u64|
        !same_way(v, virt, 4) ==> #[trigger] walked(c.bytes@, root, v) == walked(a.bytes@, root, v)
    &&& forall|v: u64|
        same_way(v, virt, 4) ==> #[trigger] walked(c.bytes@, root, v) == Some(
            (phys + v % 4096) as u64,
        )
    &&& forall|v: u64|
        !same_way(v, virt, 4) && leaf_at(a.bytes@, root, v) is Some ==> #[trigger] leaf_at(
            c.bytes@,
            root,
            v,
        ) == leaf_at(a.bytes@, root, v)
    &&& forall|x: int|
        0 <= x < a.bytes@.len() && is_used(a.pmm->0.bitmap@, x / 4096) && is_plain(
            a.bytes@,
            root,
            x,
        ) ==> #[trigger] c.bytes@[x] == a.bytes@[x]
    &&& forall|x: int|
        0 <= x < a.bytes@.len() && is_used(a.pmm->0.bitmap@, x / 4096) && is_plain(
            a.bytes@,
            root,
            x,
        ) ==> #[trigger] is_plain(c.bytes@, root, x)
}

/// Mapping a page leaves frames alone that hold no page table.
#[verifier::spinoff_prover]
proof fn lemma_plain_kept(b: PhysicalMemory, c: PhysicalMemory, root: u64, virt: u64, leaf: u64, x: int)
    requires
        is_space(b, root),
        is_mapped_page(b, c, root, virt, leaf),
        0 <= x < b.bytes@.len(),
        is_used(b.pmm->0.bitmap@, x / 4096),
        is_plain(b.bytes@, root, x),
    ensures
        is_plain(c.bytes@, root, x),
        c.bytes@[x] == b.bytes@[x],
{
    lemma_stays_plain(b, c, root, x);
    if is_way_byte(b.bytes@, root, virt, x) {
        reveal(is_plain);
        let l = choose|l: int|
            0 <= l <= 3 && ((#[trigger] table_at(b.bytes@, root, virt, l)) matches Some(t) && t <= x
                < t + 4096);
        let t = table_at(b.bytes@, root, virt, l)->0;
        assert(in_memory(b.bytes@, t));
        assert(t == page_down(x));
    }
}

#[verifier::spinoff_prover]
proof fn lemma_grown(
    a: PhysicalMemory,
    b: PhysicalMemory,
    c: PhysicalMemory,
    root: u64,
    virt: u64,
    phys: u64,
)
    requires
        is_space(a, root),
        b.wf(),
        b.pmm is Some,
        b.hhdm == a.hhdm,
        a.pmm->0.gave_one(b.pmm->0, phys),
        b.bytes@ == Seq::new(
            a.bytes@.len(),
            |i: int|
                if phys <= i < phys + 4096 {
                    0u8
                } else {
                    a.bytes@[i]
                },
        ),
        is_mapped_page(b, c, root, virt, leaf_of(phys, USER_RW)),
    ensures
        is_grown(a, c, root, virt, phys),
{
    reveal(is_grown);
    lemma_takes_only(a.pmm->0, b.pmm->0, phys);
    assert(phys + 4096 <= a.bytes@.len()) by {
        assert(phys as int / 4096 < a.pmm->0.total_frames);
    }
    assert forall|x: int| 0 <= x < a.bytes@.len() && is_used(a.pmm->0.bitmap@, x / 4096) implies
        #[trigger] b.bytes@[x] == a.bytes@[x] by {
        if phys <= x < phys + 4096 {
            assert(x / 4096 == phys as int / 4096);
        }
    }
    lemma_space_kept(a, b, root);
    lemma_fresh_plain(a, root, phys);
    assert forall|x: int| is_plain(a.bytes@, root, x) implies #[trigger] is_plain(b.bytes@, root, x) by {
        reveal(is_plain);
    }
    assert(is_used(b.pmm->0.bitmap@, phys as int / 4096));
    lemma_plain_kept(b, c, root, virt, leaf_of(phys, USER_RW), phys as int);
    lemma_uc_leaf(phys);
    lemma_frame_itself(phys);
    assert(leaf_of(phys, USER_RW) & ADDR_MASK == phys);
    assert(takes_only(a.pmm->0, c.pmm->0)) by {
        assert forall|i: int|
            0 <= i < a.pmm->0.total_frames && is_used(a.pmm->0.bitmap@, i) implies #[trigger] is_used(
            c.pmm->0.bitmap@,
            i,
        ) by {
            assert(is_used(b.pmm->0.bitmap@, i));
        }
    }
    assert forall|o: int| 0 <= o < 4096 implies #[trigger] c.bytes@[phys + o] == 0 by {
        let x = phys + o;
        assert(x / 4096 == phys as int / 4096);
        assert(is_plain(b.bytes@, root, x)) by {
            reveal(is_plain);
            assert(page_down(x) == page_down(phys as int));
        }
        lemma_plain_kept(b, c, root, virt, leaf_of(phys, USER_RW), x);
    }
    assert forall|x: int|
        0 <= x < a.bytes@.len() && is_used(a.pmm->0.bitmap@, x / 4096) && is_plain(
            a.bytes@,
            root,
            x,
        ) implies #[trigger] c.bytes@[x] == a.bytes@[x] by {
        assert(is_used(b.pmm->0.bitmap@, x / 4096));
        assert(is_plain(b.bytes@, root, x));
        lemma_plain_kept(b, c, root, virt, leaf_of(phys, USER_RW), x);
    }
    assert forall|x: int|
        0 <= x < a.bytes@.len() && is_used(a.pmm->0.bitmap@, x / 4096) && is_plain(
            a.bytes@,
            root,
            x,
        ) implies #[trigger] is_plain(c.bytes@, root, x) by {
        assert(is_used(b.pmm->0.bitmap@, x / 4096));
        assert(is_plain(b.bytes@, root, x));
        lemma_plain_kept(b, c, root, virt, leaf_of(phys, USER_RW), x);
    }
}

/// One more page of the stack.
#[verifier::spinoff_prover]
#[verifier::rlimit(40)]
proof fn lemma_one_stacked(
    m0: PhysicalMemory,
    a: PhysicalMemory,
    c: PhysicalMemory,
    root: u64,
    f: Seq<u64>,
    phys: u64,
)
    requires
        m0.wf(),
        m0.pmm is Some,
        are_stacked(m0, a, root, f),
        f.len() < 16,
        is_grown(a, c, root, stack_page(f.len() as int) as u64, phys),
    ensures
        are_stacked(m0, c, root, f.push(phys)),
{
    reveal(are_stacked);
    reveal(is_grown);
    let n = f.len() as int;
    let virt = stack_page(n) as u64;
    let g = f.push(phys);
    assert(takes_only(m0.pmm->0, c.pmm->0)) by {
        assert forall|i: int|
            0 <= i < m0.pmm->0.total_frames && is_used(m0.pmm->0.bitmap@, i) implies #[trigger] is_used(
            c.pmm->0.bitmap@,
            i,
        ) by {
            assert(is_used(a.pmm->0.bitmap@, i));
        }
    }
    assert forall|k: int| 0 <= k < g.len() implies {
        &&& (#[trigger] g[k]) % 4096 == 0
        &&& g[k] + 4096 <= c.bytes@.len()
        &&& !is_used(m0.pmm->0.bitmap@, g[k] as int / 4096)
        &&& is_used(c.pmm->0.bitmap@, g[k] as int / 4096)
        &&& is_plain(c.bytes@, root, g[k] as int)
        &&& leaf_at(c.bytes@, root, stack_page(k) as u64) == Some(leaf_of(g[k], USER_RW))
    } by {
        if k < n {
            assert(g[k] == f[k]);
            assert(c.bytes@[f[k] as int] == a.bytes@[f[k] as int]);
            lemma_apart(stack_page(k) as u64, virt);
            assert(leaf_at(a.bytes@, root, stack_page(k) as u64) is Some);
        } else {
            assert(g[k] == phys);
            assert(!is_used(a.pmm->0.bitmap@, phys as int / 4096));
        }
    }
    assert forall|k: int, o: int|
        #![trigger c.bytes@[g[k] + o]]
        0 <= k < g.len() && 0 <= o < 4096 implies c.bytes@[g[k] + o] == 0 by {
        let x = g[k] + o;
        if k < n {
            assert(g[k] == f[k]);
            assert(a.bytes@[f[k] + o] == 0);
            assert(x / 4096 == f[k] as int / 4096);
            assert(is_plain(a.bytes@, root, x)) by {
                reveal(is_plain);
                assert(is_plain(a.bytes@, root, f[k] as int));
                assert(page_down(x) == page_down(f[k] as int));
            }
            assert(c.bytes@[x] == a.bytes@[x]);
        } else {
            assert(g[k] == phys);
        }
    }
    assert forall|k: int, l: int| 0 <= k < l < g.len() implies #[trigger] g[k] != #[trigger] g[l] by {
        if l == n {
            assert(is_used(a.pmm->0.bitmap@, f[k] as int / 4096));
        }
    }
    assert forall|k: int, v: u64|
        0 <= k < g.len() && page_down(v as int) == stack_page(k) implies #[trigger] walked(
        c.bytes@,
        root,
        v,
    ) == Some((#[trigger] g[k] + v % 4096) as u64) by {
        if k < n {
            lemma_apart(v, virt);
            assert(walked(a.bytes@, root, v) == Some((f[k] + v % 4096) as u64));
        } else {
            lemma_same_page_way(v, virt);
        }
    }
    lemma_rest_kept(m0, a, c, root, n, phys);
}

#[verifier::spinoff_prover]
proof fn lemma_rest_kept(
    m0: PhysicalMemory,
    a: PhysicalMemory,
    c: PhysicalMemory,
    root: u64,
    n: int,
    phys: u64,
)
    requires
        m0.wf(),
        m0.pmm is Some,
        0 <= n < 16,
        a.bytes@.len() == m0.bytes@.len(),
        takes_only(m0.pmm->0, a.pmm->0),
        is_rest_kept(m0, a, root, n),
        is_grown(a, c, root, stack_page(n) as u64, phys),
    ensures
        is_rest_kept(m0, c, root, n + 1),
{
    reveal(is_grown);
    let virt = stack_page(n) as u64;
    assert forall|v: u64|
        v < USER_END && !(USER_STACK_TOP - (n + 1) * 4096 <= v < USER_STACK_TOP) implies #[trigger] walked(
        c.bytes@,
        root,
        v,
    ) == walked(m0.bytes@, root, v) by {
        lemma_apart(v, virt);
        assert(walked(a.bytes@, root, v) == walked(m0.bytes@, root, v));
    }
    assert forall|v: u64|
        v < USER_END && !(USER_STACK_TOP - (n + 1) * 4096 <= v < USER_STACK_TOP) && leaf_at(
            m0.bytes@,
            root,
            v,
        ) is Some implies #[trigger] leaf_at(c.bytes@, root, v) == leaf_at(m0.bytes@, root, v) by {
        lemma_apart(v, virt);
        assert(leaf_at(a.bytes@, root, v) == leaf_at(m0.bytes@, root, v));
    }
    assert forall|x: int|
        0 <= x < m0.bytes@.len() && is_used(m0.pmm->0.bitmap@, x / 4096) && is_plain(
            m0.bytes@,
            root,
            x,
        ) implies #[trigger] c.bytes@[x] == m0.bytes@[x] by {
        assert(a.bytes@[x] == m0.bytes@[x]);
        assert(is_plain(a.bytes@, root, x));
        assert(0 <= x / 4096 < m0.pmm->0.total_frames);
        assert(is_used(a.pmm->0.bitmap@, x / 4096));
    }
    assert forall|x: int|
        0 <= x < m0.bytes@.len() && is_used(m0.pmm->0.bitmap@, x / 4096) && is_plain(
            m0.bytes@,
            root,
            x,
        ) implies #[trigger] is_plain(c.bytes@, root, x) by {
        assert(a.bytes@[x] == m0.bytes@[x]);
        assert(is_plain(a.bytes@, root, x));
        assert(0 <= x / 4096 < m0.pmm->0.total_frames);
        assert(is_used(a.pmm->0.bitmap@, x / 4096));
    }
}

/// What is put of a program's name.
pub open spec fn arg_of(name: Seq<u8>) -> Seq<u8> {
    if name.len() > MAX_ARG {
        name.take(MAX_ARG as int)
    } else {
        name
    }
}

/// Where the program's name starts in the topmost page: a zero byte follows it.
pub open spec fn arg_offset(len: int) -> int {
    4096 - (len + 1)
}

/// Where the stack pointer stands in the topmost page: at a multiple of 16, with
/// six words above it.
pub open spec fn pointer_offset(len: int) -> int {
    arg_offset(len) / 16 * 16 - 48
}

/// The topmost page as the System V x86-64 ABI expects it at process entry: the
/// argument count, a pointer to the only argument, and the ends of the argument,
/// environment and auxiliary vectors, which are zeros.
pub open spec fn top_page(name: Seq<u8>) -> Seq<u8> {
    let arg = arg_of(name);
    let at = pointer_offset(arg.len() as int);
    let named = spliced(zeros(4096), arg_offset(arg.len() as int), arg);
    let counted = spliced(named, at, le64_bytes(1));
    spliced(
        counted,
        at + 8,
        le64_bytes((USER_STACK_TOP - 4096 + arg_offset(arg.len() as int)) as u64),
    )
}

/// The initial stack pointer.
pub open spec fn stack_pointer(name: Seq<u8>) -> int {
    USER_STACK_TOP - 4096 + pointer_offset(arg_of(name).len() as int)
}

/// What the stack holds at an address.
pub open spec fn stack_byte(name: Seq<u8>, v: int) -> u8 {
    if v >= USER_STACK_TOP - 4096 {
        top_page(name)[v - (USER_STACK_TOP - 4096)]
    } else {
        0
    }
}

/// Whether a process has its initial stack: sixteen pages of its own, mapped for
/// reads and writes, with the program's name in the topmost; and is otherwise as
/// it was.
#[verifier::opaque]
pub open spec fn is_stack(m0: PhysicalMemory, m: PhysicalMemory, root: u64, name: Seq<u8>) -> bool {
    let bottom = USER_STACK_TOP - 16 * 4096;
    &&& is_space(m, root)
    &&& m.hhdm == m0.hhdm
    &&& m.bytes@.len() == m0.bytes@.len()
    &&& takes_only(m0.pmm->0, m.pmm->0)
    &&& forall|v: u64|
        bottom <= v < USER_STACK_TOP ==> {
            &&& (#[trigger] walked(m.bytes@, root, v)) matches Some(p)
            &&& p < m.bytes@.len()
            &&& m.bytes@[p as int] == stack_byte(name, v as int)
            &&& !is_used(m0.pmm->0.bitmap@, p as int / 4096)
            &&& is_used(m.pmm->0.bitmap@, p as int / 4096)
            &&& is_plain(m.bytes@, root, p as int)
            &&& leaf_at(m.bytes@, root, page_down(v as int) as u64) == Some(
                leaf_of(page_down(p as int) as u64, USER_RW),
            )
        }
    &&& forall|v: u64, w: u64|
        bottom <= v < USER_STACK_TOP && bottom <= w < USER_STACK_TOP && v as int / 4096 != w as int
            / 4096 ==> (#[trigger] walked(m.bytes@, root, v))->0 as int / 4096 != (#[trigger] walked(
            m.bytes@,
            root,
            w,
        ))->0 as int / 4096
    &&& is_rest_kept(m0, m, root, 16)
}

/// Lay out the topmost page.
fn fill_top(name: &[u8]) -> (r: (Vec<u8>, u64))
    ensures
        r.0@ == top_page(name@),
        r.0@.len() == 4096,
        r.1 == stack_pointer(name@),
        r.1 % 16 == 0,
{
    let len: usize = if name.len() > MAX_ARG {
        MAX_ARG
    } else {
        name.len()
    };
    let arg: &[u8] = vstd::slice::slice_subrange(name, 0, len);
    assert(arg@ =~= arg_of(name@));
    let mut page: Vec<u8> = vec![0u8; 4096];
    assert(page@ =~= zeros(4096));
    let start: usize = 4096 - (len + 1);
    copy_into(&mut page, start, arg);
    let at: usize = start / 16 * 16 - 48;
    let str_addr: u64 = USER_STACK_TOP - 4096 + start as u64;
    let one: [u8; 8] = u64_to_le(1);
    copy_into(&mut page, at, one.as_slice());
    let pointer: [u8; 8] = u64_to_le(str_addr);
    copy_into(&mut page, at + 8, pointer.as_slice());
    (page, USER_STACK_TOP - 4096 + at as u64)
}

/// The topmost page was written.
#[verifier::spinoff_prover]
proof fn lemma_stack(
    m0: PhysicalMemory,
    a: PhysicalMemory,
    b: PhysicalMemory,
    root: u64,
    f: Seq<u64>,
    name: Seq<u8>,
)
    requires
        m0.wf(),
        m0.pmm is Some,
        are_stacked(m0, a, root, f),
        f.len() == 16,
        b.hhdm == a.hhdm,
        b.pmm == a.pmm,
        b.bytes@ == spliced(a.bytes@, f[0] as int, top_page(name)),
        top_page(name).len() == 4096,
    ensures
        is_stack(m0, b, root, name),
{
    reveal(are_stacked);
    reveal(is_stack);
    let top = f[0] as int;
    assert forall|v: u64, k: int, x: int|
        #![trigger table_at(a.bytes@, root, v, k), b.bytes@[x]]
        0 <= k <= 3 && (table_at(a.bytes@, root, v, k) matches Some(t) && t <= x < t + 4096) implies b.bytes@[x]
        == a.bytes@[x] by {
        let t = table_at(a.bytes@, root, v, k)->0;
        assert(in_memory(a.bytes@, t));
        reveal(is_plain);
        assert(is_plain(a.bytes@, root, top));
        assert(t != top);
    }
    lemma_tables_kept(a, b, root);
    let bottom = USER_STACK_TOP - 16 * 4096;
    assert forall|v: u64| bottom <= v < USER_STACK_TOP implies {
        let k = (USER_STACK_TOP - 1 - v) / 4096;
        &&& (#[trigger] walked(b.bytes@, root, v)) == Some((f[k] + v % 4096) as u64)
        &&& 0 <= k < 16
        &&& page_down(v as int) == stack_page(k)
        &&& f[k] + v % 4096 < b.bytes@.len()
        &&& b.bytes@[f[k] + v % 4096] == stack_byte(name, v as int)
    } by {
        let k = (USER_STACK_TOP - 1 - v) / 4096;
        assert(page_down(v as int) == stack_page(k));
        assert(walked(a.bytes@, root, v) == Some((f[k] + v % 4096) as u64));
        let o = v as int % 4096;
        assert(a.bytes@[f[k] + o] == 0);
        if k == 0 {
            assert(v - (USER_STACK_TOP - 4096) == o);
        } else {
            assert(f[0] != f[k]);
            assert(!(top <= f[k] + o < top + 4096));
        }
    }
    assert forall|v: u64| bottom <= v < USER_STACK_TOP implies {
        &&& (#[trigger] walked(b.bytes@, root, v)) matches Some(p)
        &&& p < b.bytes@.len()
        &&& b.bytes@[p as int] == stack_byte(name, v as int)
        &&& !is_used(m0.pmm->0.bitmap@, p as int / 4096)
        &&& is_used(b.pmm->0.bitmap@, p as int / 4096)
        &&& is_plain(b.bytes@, root, p as int)
        &&& leaf_at(b.bytes@, root, page_down(v as int) as u64) == Some(
            leaf_of(page_down(p as int) as u64, USER_RW),
        )
    } by {
        let k = (USER_STACK_TOP - 1 - v) / 4096;
        let p = (f[k] + v % 4096) as u64;
        assert(p as int / 4096 == f[k] as int / 4096);
        assert(page_down(p as int) == f[k]);
        assert(is_plain(b.bytes@, root, p as int)) by {
            assert(is_plain(a.bytes@, root, f[k] as int));
            reveal(is_plain);
            assert(page_down(f[k] as int) == f[k]);
        }
    }
    assert forall|v: u64, w: u64|
        bottom <= v < USER_STACK_TOP && bottom <= w < USER_STACK_TOP && v as int / 4096 != w as int
            / 4096 implies (#[trigger] walked(b.bytes@, root, v))->0 as int / 4096 != (
    #[trigger] walked(b.bytes@, root, w))->0 as int / 4096 by {
        let k = (USER_STACK_TOP - 1 - v) / 4096;
        let l = (USER_STACK_TOP - 1 - w) / 4096;
        assert(k != l);
        if k < l {
            assert(f[k] != f[l]);
        } else {
            assert(f[l] != f[k]);
        }
        assert(f[k] % 4096 == 0 && f[l] % 4096 == 0);
        assert((f[k] + v % 4096) / 4096 == f[k] as int / 4096);
        assert((f[l] + w % 4096) / 4096 == f[l] as int / 4096);
    }
    assert forall|x: int|
        0 <= x < m0.bytes@.len() && is_used(m0.pmm->0.bitmap@, x / 4096) && is_plain(
            m0.bytes@,
            root,
            x,
        ) implies #[trigger] b.bytes@[x] == m0.bytes@[x] by {
        assert(a.bytes@[x] == m0.bytes@[x]);
        if top <= x < top + 4096 {
            assert(x / 4096 == top / 4096);
        }
    }
    assert forall|x: int|
        0 <= x < m0.bytes@.len() && is_used(m0.pmm->0.bitmap@, x / 4096) && is_plain(
            m0.bytes@,
            root,
            x,
        ) implies #[trigger] is_plain(b.bytes@, root, x) by {
        assert(is_plain(a.bytes@, root, x));
        reveal(is_plain);
    }
}

/// Whether nothing is mapped where the stack is to go.
pub open spec fn is_stack_room(m: Seq<u8>, root: u64) -> bool {
    forall|v: u64|
        USER_STACK_TOP - 16 * 4096 <= v < USER_STACK_TOP ==> #[trigger] walked(m, root, v) is None
}

/// A page of the stack is the address space's.
#[verifier::spinoff_prover]
proof fn lemma_stacked_accounts(
    m0: PhysicalMemory,
    a: PhysicalMemory,
    b: PhysicalMemory,
    c: PhysicalMemory,
    root: u64,
    f: Seq<u64>,
    phys: u64,
)
    requires
        m0.wf(),
        m0.pmm is Some,
        are_stacked(m0, a, root, f),
        f.len() < 16,
        is_stack_room(m0.bytes@, root),
        keeps_accounts(m0, a, root),
        is_space(b, root),
        a.pmm->0.gave_one(b.pmm->0, phys),
        b.bytes@.len() == a.bytes@.len(),
        forall|x: int|
            0 <= x < a.bytes@.len() && is_used(a.pmm->0.bitmap@, x / 4096) ==> #[trigger] b.bytes@[x]
                == a.bytes@[x],
        is_mapped_page(b, c, root, stack_page(f.len() as int) as u64, leaf_of(phys, USER_RW)),
        walked(b.bytes@, root, stack_page(f.len() as int) as u64) == walked(
            a.bytes@,
            root,
            stack_page(f.len() as int) as u64,
        ),
    ensures
        keeps_accounts(m0, c, root),
{
    reveal(are_stacked);
    let virt = stack_page(f.len() as int) as u64;
    let leaf = leaf_of(phys, USER_RW);
    lemma_leaf_present(phys, USER_RW);
    lemma_uc_leaf(phys);
    assert(phys < PHYS_LIMIT) by {
        assert(phys as int / 4096 < a.pmm->0.total_frames);
    }
    lemma_frame_itself(phys);
    assert(walked(a.bytes@, root, virt) == walked(m0.bytes@, root, virt));
    assert(walked(m0.bytes@, root, virt) is None);
    assert(is_user_half(virt));
    lemma_used_tables(a, b, root);
    assert forall|base: Pmm| #[trigger] owns(base, m0, root, Set::empty()) implies owns(
        base,
        c,
        root,
        Set::empty(),
    ) by {
        let loose = Set::<u64>::empty().insert(phys);
        lemma_owns_taken(base, a, b, root, Set::empty(), phys);
        lemma_owns_mapped(base, b, c, root, loose, virt, leaf);
        assert(loose.remove(phys) =~= Set::empty());
    }
}

/// Filling the topmost page changes nothing about who has which frame.
proof fn lemma_filled_accounts(
    m0: PhysicalMemory,
    a: PhysicalMemory,
    b: PhysicalMemory,
    root: u64,
    f: Seq<u64>,
    page: Seq<u8>,
)
    requires
        are_stacked(m0, a, root, f),
        f.len() == 16,
        keeps_accounts(m0, a, root),
        b.pmm == a.pmm,
        b.bytes@ == spliced(a.bytes@, f[0] as int, page),
        page.len() == 4096,
    ensures
        keeps_accounts(m0, b, root),
{
    reveal(are_stacked);
    assert(f[0] % 4096 == 0);
    lemma_plain_tables(a, b, root, f[0]);
    assert forall|base: Pmm| #[trigger] owns(base, m0, root, Set::empty()) implies owns(
        base,
        b,
        root,
        Set::empty(),
    ) by {
        lemma_owns_written(base, a, b, root, Set::empty());
    }
}

proof fn lemma_filled_closed(
    m0: PhysicalMemory,
    a: PhysicalMemory,
    b: PhysicalMemory,
    root: u64,
    f: Seq<u64>,
    page: Seq<u8>,
)
    requires
        are_stacked(m0, a, root, f),
        f.len() == 16,
        is_closed(a.bytes@, root),
        b.bytes@ == spliced(a.bytes@, f[0] as int, page),
        page.len() == 4096,
    ensures
        is_closed(b.bytes@, root),
{
    reveal(are_stacked);
    assert(f[0] % 4096 == 0);
    lemma_plain_tables(a, b, root, f[0]);
    lemma_closed_same(a.bytes@, b.bytes@, root);
}

/// What building the stack comes to: whether there are frames for all of it, or why its
/// first page cannot be mapped. All its pages share one page table.
pub open spec fn stacking(mem: PhysicalMemory, root: u64) -> Result<bool, MapError> {
    let free = mem.pmm->0.free_frames;
    let missing = missing_tables(mem.bytes@, root, stack_page(0) as u64);
    if free == 0 {
        Ok(false)
    } else if !is_clear(mem.bytes@, root, stack_page(0) as u64) {
        Err(MapError::HugePage)
    } else if free - 1 < missing {
        Err(MapError::OutOfMemory)
    } else {
        Ok(free - missing >= 16)
    }
}

/// The addresses of the first `n` pages of the stack.
spec fn stack_pages(n: int) -> Seq<u64> {
    Seq::new(n as nat, |k: int| stack_page(k) as u64)
}

/// The state of building a stack, as far as tables and frames go.
#[verifier::opaque]
spec fn is_counted(m0: PhysicalMemory, m: PhysicalMemory, root: u64, i: int) -> bool {
    let first = stack_page(0) as u64;
    &&& adds_just(m0.bytes@, m.bytes@, root, stack_pages(i))
    &&& stays_inside(m0, m, root)
    &&& i == 0 ==> m == m0
    &&& i > 0 ==> is_clear(m0.bytes@, root, first) && m.pmm->0.free_frames
        == m0.pmm->0.free_frames - i - missing_tables(m0.bytes@, root, first)
}

/// What the next page needs, and what becomes of it where there is no frame for it or its
/// tables.
proof fn lemma_next_page(
    m0: PhysicalMemory,
    a: PhysicalMemory,
    b: PhysicalMemory,
    root: u64,
    i: int,
    phys: u64,
)
    requires
        0 <= i < 16,
        is_space(m0, root),
        is_space(a, root),
        is_counted(m0, a, root, i),
        same_tables(a.bytes@, b.bytes@, root),
        a.pmm->0.gave_one(b.pmm->0, phys),
        a.pmm->0.free_frames > 0,
    ensures
        missing_tables(b.bytes@, root, stack_page(i) as u64) == if i == 0 {
            missing_tables(m0.bytes@, root, stack_page(0) as u64)
        } else {
            0
        },
        is_clear(b.bytes@, root, stack_page(i) as u64) == is_clear(
            m0.bytes@,
            root,
            stack_page(0) as u64,
        ),
        adds_just(m0.bytes@, b.bytes@, root, stack_pages(i)),
{
    reveal(is_counted);
    let first = stack_page(0) as u64;
    let virt = stack_page(i) as u64;
    lemma_adds_same(m0.bytes@, a.bytes@, b.bytes@, root, stack_pages(i));
    lemma_same_needs(a.bytes@, b.bytes@, root, Set::empty());
    lemma_same_ways(a.bytes@, b.bytes@, root, virt);
    lemma_same_ways(a.bytes@, b.bytes@, root, first);
    assert(table_at(b.bytes@, root, virt, 1) == table_at(a.bytes@, root, virt, 1));
    assert(table_at(b.bytes@, root, virt, 2) == table_at(a.bytes@, root, virt, 2));
    assert(table_at(b.bytes@, root, virt, 3) == table_at(a.bytes@, root, virt, 3));
    assert(virt as int / reach(3) == first as int / reach(3));
    assert(virt as int / reach(1) == first as int / reach(1));
    lemma_reach(virt, first, 3);
    lemma_reach(virt, first, 1);
    lemma_same_way(b.bytes@, root, virt, first, 1);
    if i > 0 {
        lemma_stays_clear(m0.bytes@, b.bytes@, root, stack_pages(i), first);
        assert(stack_pages(i)[0] == first);
        assert(is_passed(stack_pages(i), virt, 3));
        reveal(adds_just);
        assert(table_at(b.bytes@, root, virt, 3) is Some);
        reveal_with_fuel(table_at, 4);
    }
}

/// The state after one page more.
proof fn lemma_page_counted(
    m0: PhysicalMemory,
    a: PhysicalMemory,
    b: PhysicalMemory,
    c: PhysicalMemory,
    root: u64,
    i: int,
    phys: u64,
)
    requires
        0 <= i < 16,
        is_space(m0, root),
        is_space(a, root),
        is_space(b, root),
        is_counted(m0, a, root, i),
        same_tables(a.bytes@, b.bytes@, root),
        a.pmm->0.gave_one(b.pmm->0, phys),
        a.pmm->0.free_frames > 0,
        b.hhdm == a.hhdm,
        keeps_used(a, b),
        is_clear(b.bytes@, root, stack_page(i) as u64),
        is_mapped_page(b, c, root, stack_page(i) as u64, leaf_of(phys, USER_RW)),
    ensures
        is_counted(m0, c, root, i + 1),
{
    lemma_next_page(m0, a, b, root, i, phys);
    reveal(is_counted);
    let virt = stack_page(i) as u64;
    let leaf = leaf_of(phys, USER_RW);
    lemma_adds_one(m0.bytes@, b, c, root, stack_pages(i), virt, leaf);
    assert(stack_pages(i + 1) =~= stack_pages(i).push(virt));
    lemma_takes_only(a.pmm->0, b.pmm->0, phys);
    lemma_inside_kept(a, b, root);
    lemma_inside_twice(m0, a, b, root);
    assert(is_user_half(virt));
    lemma_inside_mapped(b, c, root, virt, leaf);
    lemma_inside_twice(m0, b, c, root);
}

/// Map the user stack and lay out its initial contents. Returns the initial
/// stack pointer, or `None` if out of memory. Every frame is mapped the moment it
/// is handed out, so on failure the address space frees whatever was done: all the
/// frames taken are its own, where nothing was mapped in their place. The outer
/// error tells that a page could not be mapped.
pub fn build_stack(mem: &mut PhysicalMemory, aspace: &AddressSpace, name: &[u8]) -> (r: Result<
    Option<u64>,
    MapError,
>)
    requires
        is_space(*old(mem), aspace.pml4_phys),
    ensures
        match r {
            Ok(Some(sp)) => {
                &&& sp == stack_pointer(name@)
                &&& sp % 16 == 0
                &&& is_stack(*old(mem), *final(mem), aspace.pml4_phys, name@)
            },
            Ok(None) => {
                &&& is_out_of_frames(*final(mem))
                &&& exists|f: Seq<u64>|
                    f.len() < 16 && #[trigger] are_stacked(
                        *old(mem),
                        *final(mem),
                        aspace.pml4_phys,
                        f,
                    )
            },
            Err(e) => exists|k: int|
                0 <= k < 16 && aspace.map_result(
                    *final(mem),
                    #[trigger] stack_page(k) as u64,
                ) == Err::<(), MapError>(e),
        },
        match stacking(*old(mem), aspace.pml4_phys) {
            Ok(made) => r matches Ok(sp) && sp is Some == made,
            Err(e) => r == Err::<Option<u64>, MapError>(e),
        },
        r matches Ok(Some(_)) ==> final(mem).pmm->0.free_frames == old(mem).pmm->0.free_frames - 16
            - missing_tables(old(mem).bytes@, aspace.pml4_phys, stack_page(0) as u64),
        stays_inside(*old(mem), *final(mem), aspace.pml4_phys),
        r is Ok && is_stack_room(old(mem).bytes@, aspace.pml4_phys) ==> keeps_accounts(
            *old(mem),
            *final(mem),
            aspace.pml4_phys,
        ),
        is_closed(old(mem).bytes@, aspace.pml4_phys) ==> is_closed(
            final(mem).bytes@,
            aspace.pml4_phys,
        ),
{
    let ghost m0 = *mem;
    let ghost root = aspace.pml4_phys;
    let mut top_frame: u64 = 0;
    let ghost mut f: Seq<u64> = Seq::empty();
    proof {
        reveal(are_stacked);
        reveal(is_counted);
        lemma_adds_none(m0.bytes@, root);
        lemma_inside_kept(m0, m0, root);
        assert(stack_pages(0) =~= Seq::empty());
    }
    let mut i: u64 = 0;
    while i < USER_STACK_PAGES
        invariant
            is_space(m0, root),
            is_counted(m0, *mem, root, i as int),
            i <= 16,
            f.len() == i,
            m0 == *old(mem),
            root == aspace.pml4_phys,
            m0.wf(),
            m0.pmm is Some,
            is_space(*mem, root),
            are_stacked(m0, *mem, root, f),
            is_stack_room(m0.bytes@, root) ==> keeps_accounts(m0, *mem, root),
            is_closed(m0.bytes@, root) ==> is_closed(mem.bytes@, root),
            i > 0 ==> top_frame == f[0] && f[0] + 4096 <= mem.bytes@.len(),
        decreases 16 - i,
    {
        let ghost a = *mem;
        let phys: u64 = match alloc_frame_zeroed(mem) {
            Some(phys) => phys,
            None => {
                proof {
                    reveal(is_counted);
                }
                return Ok(None);
            },
        };
        let ghost b = *mem;
        proof {
            lemma_takes_only(a.pmm->0, b.pmm->0, phys);
            assert forall|x: int| 0 <= x < a.bytes@.len() && is_used(a.pmm->0.bitmap@, x / 4096) implies
                #[trigger] b.bytes@[x] == a.bytes@[x] by {
                if phys <= x < phys + 4096 {
                    assert(x / 4096 == phys as int / 4096);
                }
            }
            lemma_space_kept(a, b, root);
            lemma_used_tables(a, b, root);
            if is_closed(a.bytes@, root) {
                lemma_closed_same(a.bytes@, b.bytes@, root);
            }
            assert(stack_page(i as int) == USER_STACK_TOP - (i + 1) * 4096);
        }
        let virt: u64 = USER_STACK_TOP - (i + 1) * PAGE_SIZE;
        assert(index_of(virt, 0) < 256);
        proof {
            lemma_next_page(m0, a, b, root, i as int, phys);
            reveal(is_counted);
            lemma_inside_kept(a, b, root);
            lemma_inside_twice(m0, a, b, root);
        }
        aspace.map(mem, virt, phys, USER_RW)?;
        proof {
            lemma_page_counted(m0, a, b, *mem, root, i as int, phys);
            lemma_grown(a, b, *mem, root, virt, phys);
            lemma_one_stacked(m0, a, *mem, root, f, phys);
            if is_closed(b.bytes@, root) {
                lemma_closed_mapped(b, *mem, root, virt, leaf_of(phys, USER_RW));
            }
            if is_stack_room(m0.bytes@, root) {
                lemma_stacked_accounts(m0, a, b, *mem, root, f, phys);
            }
            f = f.push(phys);
            reveal(is_grown);
        }
        if i == 0 {
            top_frame = phys;
        }
        i += 1;
    }
    let (page, sp) = fill_top(name);
    let ghost a = *mem;
    let size: usize = mem.bytes.len();
    assert(top_frame + 4096 <= size);
    copy_into(&mut mem.bytes, top_frame as usize, page.as_slice());
    proof {
        reveal(is_counted);
        reveal(are_stacked);
        assert(f[0] % 4096 == 0);
        lemma_inside_written(m0, a, *mem, root, top_frame);
        lemma_stack(m0, a, *mem, root, f, name@);
        if is_closed(a.bytes@, root) {
            lemma_filled_closed(m0, a, *mem, root, f, page@);
        }
        if is_stack_room(m0.bytes@, root) {
            lemma_filled_accounts(m0, a, *mem, root, f, page@);
        }
    }
    Ok(Some(sp))
}

} // verus!
