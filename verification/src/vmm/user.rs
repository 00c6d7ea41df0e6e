//! Copying to and from user memory.

use vstd::prelude::*;
use crate::bytes::{copy_into, spliced};
use crate::pmm::{PhysicalMemory, PAGE_SIZE};
use super::{
    entry, in_memory, index, index_of, is_huge, is_present, lemma_frame_bound, lemma_same_page_way,
    lemma_same_tables, read_entry, table_at, tables_in_memory, walked, word, ADDR_MASK, HUGE,
    PRESENT, USER, USER_SPACE_END, WRITABLE,
};

verus! {

/// Whether an entry lets ring 3 through.
pub open spec fn is_user(e: u64) -> bool {
    e & (PRESENT | USER) == PRESENT | USER
}

/// Whether a leaf entry lets ring 3 write.
pub open spec fn is_user_writable(e: u64) -> bool {
    e & (PRESENT | USER | WRITABLE) == PRESENT | USER | WRITABLE
}

/// The physical address of a byte that ring 3 may read (or write). Only a 4 KiB
/// mapping that is user-accessible at every level counts.
#[verifier::opaque]
pub open spec fn user_walked(m: Seq<u8>, root: u64, virt: u64, write: bool) -> Option<u64> {
    let e0 = entry(m, root, index_of(virt, 0));
    let e1 = entry(m, e0 & ADDR_MASK, index_of(virt, 1));
    let e2 = entry(m, e1 & ADDR_MASK, index_of(virt, 2));
    let leaf = entry(m, e2 & ADDR_MASK, index_of(virt, 3));
    if !is_user(e0) || !is_user(e1) || is_huge(e1) || !is_user(e2) || is_huge(e2) || !(if write {
        is_user_writable(leaf)
    } else {
        is_user(leaf)
    }) {
        None
    } else {
        Some(((leaf & ADDR_MASK) + virt % PAGE_SIZE) as u64)
    }
}

pub proof fn lemma_user_present(e: u64)
    ensures
        is_user(e) ==> is_present(e),
        is_user_writable(e) ==> is_user(e),
{
    assert(e & (1u64 | 4u64) == 1u64 | 4u64 ==> e & 1u64 != 0) by (bit_vector);
    assert(e & (1u64 | 4u64 | 2u64) == 1u64 | 4u64 | 2u64 ==> e & (1u64 | 4u64) == 1u64 | 4u64) by (bit_vector);
}

/// Software walk for a ring-3 access of `virt`.
fn walk_user_access(mem: &PhysicalMemory, root: u64, virt: u64, write: bool) -> (r: Option<u64>)
    requires
        tables_in_memory(mem.bytes@, root),
    ensures
        r == user_walked(mem.bytes@, root, virt, write),
{
    let ghost m = mem.bytes@;
    proof {
        reveal(user_walked);
        reveal_with_fuel(table_at, 4);
        assert(table_at(m, root, virt, 0) == Some(root));
    }
    let e: u64 = read_entry(mem, root, index(virt, 0));
    if e & (PRESENT | USER) != PRESENT | USER {
        return None;
    }
    proof {
        lemma_user_present(e);
    }
    let pdpt: u64 = e & ADDR_MASK;
    assert(table_at(m, root, virt, 1) == Some(pdpt));
    let e: u64 = read_entry(mem, pdpt, index(virt, 1));
    if e & (PRESENT | USER) != PRESENT | USER || e & HUGE != 0 {
        return None;
    }
    proof {
        lemma_user_present(e);
    }
    let pd: u64 = e & ADDR_MASK;
    assert(table_at(m, root, virt, 2) == Some(pd));
    let e: u64 = read_entry(mem, pd, index(virt, 2));
    if e & (PRESENT | USER) != PRESENT | USER || e & HUGE != 0 {
        return None;
    }
    proof {
        lemma_user_present(e);
    }
    let pt: u64 = e & ADDR_MASK;
    assert(table_at(m, root, virt, 3) == Some(pt));
    let leaf: u64 = read_entry(mem, pt, index(virt, 3));
    if write {
        if leaf & (PRESENT | USER | WRITABLE) != PRESENT | USER | WRITABLE {
            return None;
        }
    } else if leaf & (PRESENT | USER) != PRESENT | USER {
        return None;
    }
    proof {
        lemma_frame_bound(leaf);
    }
    Some((leaf & ADDR_MASK) + virt % PAGE_SIZE)
}

/// Software walk for a ring-3 read of `virt`.
pub fn walk_user(mem: &PhysicalMemory, root: u64, virt: u64) -> (r: Option<u64>)
    requires
        tables_in_memory(mem.bytes@, root),
    ensures
        r == user_walked(mem.bytes@, root, virt, false),
{
    walk_user_access(mem, root, virt, false)
}

/// Software walk for a ring-3 write of `virt`: demands a writable leaf too.
pub fn walk_user_write(mem: &PhysicalMemory, root: u64, virt: u64) -> (r: Option<u64>)
    requires
        tables_in_memory(mem.bytes@, root),
    ensures
        r == user_walked(mem.bytes@, root, virt, true),
{
    walk_user_access(mem, root, virt, true)
}

/// Bytes of one page lie together in memory.
proof fn lemma_user_page(m: Seq<u8>, root: u64, a: u64, b: u64, write: bool)
    requires
        a as int / 4096 == b as int / 4096,
    ensures
        user_walked(m, root, a, write) is Some == user_walked(m, root, b, write) is Some,
        user_walked(m, root, a, write) matches Some(p) ==> (user_walked(m, root, b, write) matches Some(
            q,
        ) && q - p == b - a && p % 4096 == a % 4096),
{
    reveal(user_walked);
    lemma_same_page_way(a, b);
    if let Some(p) = user_walked(m, root, a, write) {
        let e0 = entry(m, root, index_of(a, 0));
        let e1 = entry(m, e0 & ADDR_MASK, index_of(a, 1));
        let e2 = entry(m, e1 & ADDR_MASK, index_of(a, 2));
        let leaf = entry(m, e2 & ADDR_MASK, index_of(a, 3));
        lemma_frame_bound(leaf);
    }
}

/// Whether a range is user memory that ring 3 may read (or write).
pub open spec fn is_user_range(m: Seq<u8>, root: u64, at: u64, len: int, write: bool) -> bool {
    &&& at + len <= USER_SPACE_END
    &&& forall|i: int|
        0 <= i < len ==> #[trigger] user_walked(m, root, (at + i) as u64, write) is Some
}

/// Whether all user memory lies in RAM.
pub open spec fn user_in_ram(m: Seq<u8>, root: u64) -> bool {
    &&& m.len() % 4096 == 0
    &&& forall|v: u64, write: bool|
        (#[trigger] user_walked(m, root, v, write)) matches Some(p) ==> p < m.len()
}

/// Copy bytes from user memory into `dst`. Fails (with `dst` partly written)
/// if any part of the range is outside user space or not mapped
/// user-accessible.
pub fn copy_from_user(mem: &PhysicalMemory, root: u64, dst: &mut [u8], src: u64) -> (r: bool)
    requires
        tables_in_memory(mem.bytes@, root),
        user_in_ram(mem.bytes@, root),
    ensures
        final(dst)@.len() == old(dst)@.len(),
        r == (old(dst)@.len() == 0 || is_user_range(
            mem.bytes@,
            root,
            src,
            old(dst)@.len() as int,
            false,
        )),
        r ==> forall|i: int|
            0 <= i < old(dst)@.len() ==> #[trigger] final(dst)@[i] == mem.bytes@[user_walked(
                mem.bytes@,
                root,
                (src + i) as u64,
                false,
            )->0 as int],
{
    if dst.len() == 0 {
        return true;
    }
    let end: u64 = match src.checked_add(dst.len() as u64) {
        Some(end) => end,
        None => {
            return false;
        },
    };
    if end > USER_SPACE_END {
        return false;
    }
    let ghost m = mem.bytes@;
    let size: usize = mem.bytes.len();
    let total: usize = dst.len();
    let mut done: usize = 0;
    while done < total
        invariant
            m == mem.bytes@,
            size == m.len(),
            total == old(dst)@.len(),
            dst@.len() == total,
            done <= total,
            src + total <= USER_SPACE_END,
            tables_in_memory(m, root),
            user_in_ram(m, root),
            forall|i: int|
                0 <= i < done ==> #[trigger] user_walked(m, root, (src + i) as u64, false) is Some
                    && dst@[i] == m[user_walked(m, root, (src + i) as u64, false)->0 as int],
        decreases total - done,
    {
        let va: u64 = src + done as u64;
        let page_off: usize = (va % PAGE_SIZE) as usize;
        let left: usize = total - done;
        let n: usize = if left < 4096 - page_off {
            left
        } else {
            4096 - page_off
        };
        let phys: u64 = match walk_user(mem, root, va) {
            Some(phys) => phys,
            None => {
                assert(user_walked(m, root, (src + done) as u64, false) is None);
                return false;
            },
        };
        proof {
            lemma_user_page(m, root, va, va, false);
        }
        let from: usize = phys as usize;
        let ghost before = dst@;
        let bytes: &[u8] = vstd::slice::slice_subrange(mem.bytes.as_slice(), from, from + n);
        copy_into(dst, done, bytes);
        assert forall|i: int| 0 <= i < done + n implies #[trigger] user_walked(
            m,
            root,
            (src + i) as u64,
            false,
        ) is Some && dst@[i] == m[user_walked(m, root, (src + i) as u64, false)->0 as int] by {
            if i < done {
                assert(user_walked(m, root, (src + i) as u64, false) is Some);
                assert(dst@[i] == before[i]);
            } else {
                let v = (src + i) as u64;
                assert(v as int / 4096 == va as int / 4096);
                lemma_user_page(m, root, va, v, false);
                assert(dst@[i] == bytes@[i - done]);
            }
        }
        done += n;
    }
    true
}

/// Memory after the first `n` bytes of `src` were written to user memory.
pub open spec fn user_written(m: Seq<u8>, root: u64, dst: u64, src: Seq<u8>, n: int) -> Seq<u8>
    decreases n,
{
    if n <= 0 {
        m
    } else {
        user_written(m, root, dst, src, n - 1).update(
            user_walked(m, root, (dst + n - 1) as u64, true)->0 as int,
            src[n - 1],
        )
    }
}

/// Whether no user memory is used as a page table.
pub open spec fn user_apart_from_tables(m: Seq<u8>, root: u64) -> bool {
    forall|v: u64, w: u64, l: int|
        #![trigger user_walked(m, root, v, true), table_at(m, root, w, l)]
        0 <= l <= 3 && user_walked(m, root, v, true) is Some && table_at(m, root, w, l) is Some
            ==> !(table_at(m, root, w, l)->0 <= user_walked(m, root, v, true)->0 < table_at(
            m,
            root,
            w,
            l,
        )->0 + 4096)
}

/// Memory with the same tables is walked in the same way.
pub proof fn lemma_user_walk_kept(m: Seq<u8>, w: Seq<u8>, root: u64, v: u64, write: bool)
    requires
        forall|v: u64, l: int, i: int|
            #![trigger table_at(m, root, v, l), entry(w, table_at(m, root, v, l)->0, i)]
            0 <= l <= 3 && 0 <= i < 512 && table_at(m, root, v, l) is Some ==> entry(
                w,
                table_at(m, root, v, l)->0,
                i,
            ) == entry(m, table_at(m, root, v, l)->0, i),
    ensures
        user_walked(w, root, v, write) == user_walked(m, root, v, write),
{
    reveal(user_walked);
    reveal_with_fuel(table_at, 4);
    let e0 = entry(m, root, index_of(v, 0));
    assert(table_at(m, root, v, 0) == Some(root));
    assert(entry(w, table_at(m, root, v, 0)->0, index_of(v, 0)) == e0);
    lemma_user_present(e0);
    if is_user(e0) {
        let t1 = e0 & ADDR_MASK;
        assert(table_at(m, root, v, 1) == Some(t1));
        assert(entry(w, table_at(m, root, v, 1)->0, index_of(v, 1)) == entry(m, t1, index_of(v, 1)));
        let e1 = entry(m, t1, index_of(v, 1));
        lemma_user_present(e1);
        if is_user(e1) && !is_huge(e1) {
            let t2 = e1 & ADDR_MASK;
            assert(table_at(m, root, v, 2) == Some(t2));
            assert(entry(w, table_at(m, root, v, 2)->0, index_of(v, 2)) == entry(
                m,
                t2,
                index_of(v, 2),
            ));
            let e2 = entry(m, t2, index_of(v, 2));
            lemma_user_present(e2);
            if is_user(e2) && !is_huge(e2) {
                let t3 = e2 & ADDR_MASK;
                assert(table_at(m, root, v, 3) == Some(t3));
                assert(entry(w, table_at(m, root, v, 3)->0, index_of(v, 3)) == entry(
                    m,
                    t3,
                    index_of(v, 3),
                ));
            }
        }
    }
}

/// An entry is a matter of the bytes of its table.
pub proof fn lemma_entry_bytes(m: Seq<u8>, w: Seq<u8>, t: u64, i: int)
    requires
        0 <= i < 512,
        in_memory(m, t),
        w.len() == m.len(),
        forall|x: int| t <= x < t + 4096 ==> #[trigger] w[x] == m[x],
    ensures
        entry(w, t, i) == entry(m, t, i),
{
    reveal(word);
    let o = t + 8 * i;
    assert(w[o] == m[o] && w[o + 1] == m[o + 1] && w[o + 2] == m[o + 2] && w[o + 3] == m[o + 3]
        && w[o + 4] == m[o + 4] && w[o + 5] == m[o + 5] && w[o + 6] == m[o + 6] && w[o + 7] == m[o
        + 7]);
}

/// Writing user memory leaves the tables alone.
proof fn lemma_user_written(m: Seq<u8>, root: u64, dst: u64, src: Seq<u8>, n: int)
    requires
        tables_in_memory(m, root),
        user_in_ram(m, root),
        user_apart_from_tables(m, root),
        0 <= n <= src.len(),
        is_user_range(m, root, dst, n, true),
    ensures
        user_written(m, root, dst, src, n).len() == m.len(),
        forall|w: u64, l: int, x: int|
            #![trigger table_at(m, root, w, l), user_written(m, root, dst, src, n)[x]]
            0 <= l <= 3 && table_at(m, root, w, l) is Some && table_at(m, root, w, l)->0 <= x
                < table_at(m, root, w, l)->0 + 4096 ==> user_written(m, root, dst, src, n)[x]
                == m[x],
    decreases n,
{
    if n > 0 {
        assert(is_user_range(m, root, dst, n - 1, true));
        lemma_user_written(m, root, dst, src, n - 1);
        let v = (dst + n - 1) as u64;
        let i = n - 1;
        assert(user_walked(m, root, (dst + i) as u64, true) is Some);
        assert forall|w: u64, l: int, x: int|
            #![trigger table_at(m, root, w, l), user_written(m, root, dst, src, n)[x]]
            0 <= l <= 3 && table_at(m, root, w, l) is Some && table_at(m, root, w, l)->0 <= x
                < table_at(m, root, w, l)->0 + 4096 implies user_written(m, root, dst, src, n)[x]
            == m[x] by {
            assert(user_walked(m, root, v, true) is Some && table_at(m, root, w, l) is Some);
            assert(user_written(m, root, dst, src, n - 1)[x] == m[x]);
        }
    }
}

/// Writing a piece of a page at once is writing its bytes one after the other.
proof fn lemma_user_chunk(m: Seq<u8>, root: u64, dst: u64, src: Seq<u8>, done: int, n: int)
    requires
        0 <= done,
        0 < n,
        done + n <= src.len(),
        dst + done + n <= USER_SPACE_END,
        (dst + done) / 4096 == (dst + done + n - 1) / 4096,
        user_walked(m, root, (dst + done) as u64, true) is Some,
        user_walked(m, root, (dst + done) as u64, true)->0 + n <= m.len(),
        user_written(m, root, dst, src, done).len() == m.len(),
    ensures
        user_written(m, root, dst, src, done + n) == spliced(
            user_written(m, root, dst, src, done),
            user_walked(m, root, (dst + done) as u64, true)->0 as int,
            src.subrange(done, done + n),
        ),
        is_user_range(m, root, dst, done, true) ==> is_user_range(m, root, dst, done + n, true),
    decreases n,
{
    let va = (dst + done) as u64;
    let p = user_walked(m, root, va, true)->0;
    let base = user_written(m, root, dst, src, done);
    assert forall|i: int| done <= i < done + n implies ((#[trigger] user_walked(
        m,
        root,
        (dst + i) as u64,
        true,
    )) matches Some(q) && q == p + i - done) by {
        lemma_user_page(m, root, va, (dst + i) as u64, true);
    }
    let last = done + n - 1;
    assert(user_walked(m, root, (dst + last) as u64, true)->0 == p + last - done);
    assert((dst + (done + n) - 1) as u64 == (dst + last) as u64);
    if n > 1 {
        lemma_user_chunk(m, root, dst, src, done, n - 1);
    } else {
        assert(spliced(base, p as int, src.subrange(done, done)) =~= base);
    }
    assert(user_written(m, root, dst, src, done + n) =~= spliced(
        base,
        p as int,
        src.subrange(done, done + n),
    ));
}

/// Where a process may go is where the page tables lead.
pub proof fn lemma_user_walked(m: Seq<u8>, root: u64, v: u64, write: bool)
    ensures
        user_walked(m, root, v, write) matches Some(p) ==> walked(m, root, v) == Some(p),
{
    reveal(user_walked);
    reveal(walked);
    reveal_with_fuel(table_at, 2);
    let e0 = entry(m, root, index_of(v, 0));
    let e1 = entry(m, e0 & ADDR_MASK, index_of(v, 1));
    let e2 = entry(m, e1 & ADDR_MASK, index_of(v, 2));
    let leaf = entry(m, e2 & ADDR_MASK, index_of(v, 3));
    lemma_user_present(e0);
    lemma_user_present(e1);
    lemma_user_present(e2);
    lemma_user_present(leaf);
}

/// Whether a process may write the byte at a physical address.
pub open spec fn is_writable_by_user(m: Seq<u8>, root: u64, x: int) -> bool {
    exists|v: u64| (#[trigger] user_walked(m, root, v, true)) matches Some(p) && p == x
}

/// Whether only bytes changed that a process may itself write.
pub open spec fn stays_in_user_memory(
    before: PhysicalMemory,
    after: PhysicalMemory,
    root: u64,
) -> bool {
    &&& after.pmm == before.pmm
    &&& after.hhdm == before.hhdm
    &&& after.bytes@.len() == before.bytes@.len()
    &&& forall|x: int|
        0 <= x < before.bytes@.len() && !is_writable_by_user(before.bytes@, root, x)
            ==> #[trigger] after.bytes@[x] == before.bytes@[x]
}

proof fn lemma_written_stays(m: Seq<u8>, root: u64, dst: u64, src: Seq<u8>, n: int, x: int)
    requires
        user_in_ram(m, root),
        0 <= n <= src.len(),
        is_user_range(m, root, dst, n, true),
        0 <= x < m.len(),
        !is_writable_by_user(m, root, x),
    ensures
        user_written(m, root, dst, src, n).len() == m.len(),
        user_written(m, root, dst, src, n)[x] == m[x],
    decreases n,
{
    if n > 0 {
        let i = n - 1;
        assert(is_user_range(m, root, dst, n - 1, true));
        lemma_written_stays(m, root, dst, src, n - 1, x);
        assert(user_walked(m, root, (dst + i) as u64, true) is Some);
        assert(user_walked(m, root, (dst + i) as u64, true)->0 != x);
    }
}

proof fn lemma_all_stays(
    before: PhysicalMemory,
    after: PhysicalMemory,
    root: u64,
    dst: u64,
    src: Seq<u8>,
    n: int,
)
    requires
        user_in_ram(before.bytes@, root),
        0 <= n <= src.len(),
        is_user_range(before.bytes@, root, dst, n, true),
        after.pmm == before.pmm,
        after.hhdm == before.hhdm,
        after.bytes@ == user_written(before.bytes@, root, dst, src, n),
        after.bytes@.len() == before.bytes@.len(),
    ensures
        stays_in_user_memory(before, after, root),
{
    assert forall|x: int|
        0 <= x < before.bytes@.len() && !is_writable_by_user(before.bytes@, root, x) implies
        #[trigger] after.bytes@[x] == before.bytes@[x] by {
        lemma_written_stays(before.bytes@, root, dst, src, n, x);
    }
}

/// What is written to a process's memory leaves its page tables alone: where it may
/// read and write is as it was, and still apart from every table.
pub proof fn law_user_writes_leave_the_tables_alone(
    before: PhysicalMemory,
    after: PhysicalMemory,
    root: u64,
)
    requires
        tables_in_memory(before.bytes@, root),
        user_in_ram(before.bytes@, root),
        user_apart_from_tables(before.bytes@, root),
        stays_in_user_memory(before, after, root),
    ensures
        tables_in_memory(after.bytes@, root),
        user_in_ram(after.bytes@, root),
        user_apart_from_tables(after.bytes@, root),
        forall|v: u64, l: int|
            0 <= l <= 3 ==> #[trigger] table_at(after.bytes@, root, v, l) == table_at(
                before.bytes@,
                root,
                v,
                l,
            ),
        forall|v: u64, write: bool| #[trigger]
            user_walked(after.bytes@, root, v, write) == user_walked(
                before.bytes@,
                root,
                v,
                write,
            ),
{
    let m = before.bytes@;
    let w = after.bytes@;
    assert forall|v: u64, l: int, i: int|
        #![trigger table_at(m, root, v, l), entry(w, table_at(m, root, v, l)->0, i)]
        0 <= l <= 3 && 0 <= i < 512 && table_at(m, root, v, l) is Some implies entry(
        w,
        table_at(m, root, v, l)->0,
        i,
    ) == entry(m, table_at(m, root, v, l)->0, i) by {
        let t = table_at(m, root, v, l)->0;
        assert(in_memory(m, t));
        assert forall|x: int| t <= x < t + 4096 implies #[trigger] w[x] == m[x] by {
            assert(!is_writable_by_user(m, root, x)) by {
                if is_writable_by_user(m, root, x) {
                    let u = choose|u: u64|
                        (#[trigger] user_walked(m, root, u, true)) matches Some(p) && p == x;
                    assert(table_at(m, root, v, l) is Some);
                    assert(user_walked(m, root, u, true) is Some);
                }
            }
        }
        lemma_entry_bytes(m, w, t, i);
    }
    assert forall|v: u64, l: int| 0 <= l <= 3 implies #[trigger] table_at(w, root, v, l) == table_at(
        m,
        root,
        v,
        l,
    ) by {
        lemma_same_tables(m, w, root, v, l);
    }
    assert forall|v: u64, write: bool| #[trigger] user_walked(w, root, v, write) == user_walked(
        m,
        root,
        v,
        write,
    ) by {
        lemma_user_walk_kept(m, w, root, v, write);
    }
    assert forall|v: u64, l: int| 0 <= l <= 3 implies ((#[trigger] table_at(w, root, v, l)) matches Some(
        t,
    ) ==> in_memory(w, t)) by {
        assert(table_at(m, root, v, l) matches Some(t) ==> in_memory(m, t));
    }
    assert forall|v: u64, u: u64, l: int|
        #![trigger user_walked(w, root, v, true), table_at(w, root, u, l)]
        0 <= l <= 3 && user_walked(w, root, v, true) is Some && table_at(w, root, u, l) is Some
            implies !(table_at(w, root, u, l)->0 <= user_walked(w, root, v, true)->0 < table_at(
        w,
        root,
        u,
        l,
    )->0 + 4096) by {
        assert(user_walked(m, root, v, true) is Some && table_at(m, root, u, l) is Some);
    }
}

/// Copy `src` into user memory. Fails (with the destination partly written) if
/// any part of the range is outside user space or not mapped user-writable.
/// Either way nothing changes that the process could not write itself.
pub fn copy_to_user(mem: &mut PhysicalMemory, root: u64, dst: u64, src: &[u8]) -> (r: bool)
    requires
        tables_in_memory(old(mem).bytes@, root),
        user_in_ram(old(mem).bytes@, root),
        user_apart_from_tables(old(mem).bytes@, root),
    ensures
        final(mem).pmm == old(mem).pmm,
        final(mem).hhdm == old(mem).hhdm,
        r == (src@.len() == 0 || is_user_range(
            old(mem).bytes@,
            root,
            dst,
            src@.len() as int,
            true,
        )),
        r ==> final(mem).bytes@ == user_written(
            old(mem).bytes@,
            root,
            dst,
            src@,
            src@.len() as int,
        ),
        !r ==> exists|n: int|
            0 <= n < src@.len() && final(mem).bytes@ == #[trigger] user_written(
                old(mem).bytes@,
                root,
                dst,
                src@,
                n,
            ),
        stays_in_user_memory(*old(mem), *final(mem), root),
{
    assert(user_written(mem.bytes@, root, dst, src@, 0) == mem.bytes@);
    if src.len() == 0 {
        return true;
    }
    let end: u64 = match dst.checked_add(src.len() as u64) {
        Some(end) => end,
        None => {
            return false;
        },
    };
    if end > USER_SPACE_END {
        return false;
    }
    let ghost m = mem.bytes@;
    let size: usize = mem.bytes.len();
    let total: usize = src.len();
    let mut done: usize = 0;
    while done < total
        invariant
            m == old(mem).bytes@,
            size == m.len(),
            total == src@.len(),
            done <= total,
            dst + total <= USER_SPACE_END,
            tables_in_memory(m, root),
            user_in_ram(m, root),
            user_apart_from_tables(m, root),
            mem.pmm == old(mem).pmm,
            mem.hhdm == old(mem).hhdm,
            mem.bytes@ == user_written(m, root, dst, src@, done as int),
            mem.bytes@.len() == m.len(),
            is_user_range(m, root, dst, done as int, true),
        decreases total - done,
    {
        let va: u64 = dst + done as u64;
        let page_off: usize = (va % PAGE_SIZE) as usize;
        let left: usize = total - done;
        let n: usize = if left < 4096 - page_off {
            left
        } else {
            4096 - page_off
        };
        let ghost w = mem.bytes@;
        proof {
            lemma_user_written(m, root, dst, src@, done as int);
            assert forall|v: u64, l: int, i: int|
                #![trigger table_at(m, root, v, l), entry(w, table_at(m, root, v, l)->0, i)]
                0 <= l <= 3 && 0 <= i < 512 && table_at(m, root, v, l) is Some implies entry(
                w,
                table_at(m, root, v, l)->0,
                i,
            ) == entry(m, table_at(m, root, v, l)->0, i) by {
                let t = table_at(m, root, v, l)->0;
                assert(in_memory(m, t));
                assert forall|x: int| t <= x < t + 4096 implies #[trigger] w[x] == m[x] by {
                    assert(table_at(m, root, v, l)->0 <= x);
                }
                lemma_entry_bytes(m, w, t, i);
            }
            lemma_user_walk_kept(m, w, root, va, true);
            assert forall|v: u64, l: int| 0 <= l <= 3 implies ((#[trigger] table_at(w, root, v, l)) matches Some(
                t,
            ) ==> in_memory(w, t)) by {
                lemma_same_tables(m, w, root, v, l);
                assert(table_at(m, root, v, l) matches Some(t) ==> in_memory(m, t));
            }
        }
        let phys: u64 = match walk_user_write(mem, root, va) {
            Some(phys) => phys,
            None => {
                proof {
                    assert(user_walked(m, root, (dst + done) as u64, true) is None);
                    lemma_all_stays(*old(mem), *mem, root, dst, src@, done as int);
                }
                return false;
            },
        };
        proof {
            lemma_user_page(m, root, va, va, true);
            lemma_user_chunk(m, root, dst, src@, done as int, n as int);
        }
        let bytes: &[u8] = vstd::slice::slice_subrange(src, done, done + n);
        copy_into(&mut mem.bytes, phys as usize, bytes);
        done += n;
    }
    proof {
        lemma_all_stays(*old(mem), *mem, root, dst, src@, done as int);
    }
    true
}

/// What was written to user memory is read back, where no two of the bytes lie
/// in the same place.
pub proof fn law_user_read_back(m: Seq<u8>, root: u64, dst: u64, src: Seq<u8>, n: int, i: int)
    requires
        user_in_ram(m, root),
        0 <= i < n <= src.len(),
        is_user_range(m, root, dst, n, true),
        forall|a: int, b: int|
            0 <= a < b < n ==> #[trigger] user_walked(m, root, (dst + a) as u64, true)
                != #[trigger] user_walked(m, root, (dst + b) as u64, true),
    ensures
        user_written(m, root, dst, src, n).len() == m.len(),
        user_written(m, root, dst, src, n)[user_walked(m, root, (dst + i) as u64, true)->0 as int]
            == src[i],
    decreases n,
{
    let last = n - 1;
    let v = user_walked(m, root, (dst + last) as u64, true);
    assert(v is Some);
    assert(is_user_range(m, root, dst, n - 1, true));
    assert(user_walked(m, root, (dst + i) as u64, true) is Some);
    if n == 1 {
        assert(user_written(m, root, dst, src, 0) == m);
    }
    if i < n - 1 {
        law_user_read_back(m, root, dst, src, n - 1, i);
        assert(user_walked(m, root, (dst + i) as u64, true) != v);
    } else if n > 1 {
        law_user_read_back(m, root, dst, src, n - 1, 0);
    }
}

} // verus!
