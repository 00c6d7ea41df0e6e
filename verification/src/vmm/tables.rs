//! How many page tables it takes to map pages of the user half.

use vstd::prelude::*;
use super::ledger::{lemma_same_ways, same_tables};
use super::space::{is_fresh_root, is_user_half, lemma_fresh_tables, USER_END};
use super::{
    adds_way, entry, huge_at, index_of, is_clear, is_mapped_page, lemma_same_way, missing_tables,
    same_way, table_at,
};

verus! {

/// How much of the address space a table of a level is for.
pub open spec fn reach(k: int) -> int {
    if k == 1 {
        0x80_0000_0000
    } else if k == 2 {
        0x4000_0000
    } else {
        0x20_0000
    }
}

/// The tables of a level, by number, that are missing for pages, which are given by
/// number too.
pub open spec fn absent_tables(m: Seq<u8>, root: u64, pages: Set<int>, k: int) -> Set<int> {
    Set::new(
        |x: int|
            exists|p: int| #[trigger]
                pages.contains(p) && table_at(m, root, (p * 4096) as u64, k) is None && x == p
                    * 4096 / reach(k),
    )
}

/// How many tables mapping pages takes.
pub open spec fn new_tables(m: Seq<u8>, root: u64, pages: Set<int>) -> int {
    (absent_tables(m, root, pages, 1).len() + absent_tables(m, root, pages, 2).len()
        + absent_tables(m, root, pages, 3).len()) as int
}

/// How many tables there are to a set of pages, where there are none yet.
pub open spec fn tables_for(pages: Set<int>) -> int {
    (pages.map(|p: int| p * 4096 / reach(1)).len() + pages.map(
        |p: int| p * 4096 / reach(2),
    ).len() + pages.map(|p: int| p * 4096 / reach(3)).len()) as int
}

/// The tables of a level that are missing for addresses, one after the other.
pub open spec fn absent_for(m: Seq<u8>, root: u64, vas: Seq<u64>, k: int) -> Set<int>
    decreases vas.len(),
{
    if vas.len() == 0 {
        Set::empty()
    } else {
        let rest = absent_for(m, root, vas.drop_last(), k);
        if table_at(m, root, vas.last(), k) is None {
            rest.insert(vas.last() as int / reach(k))
        } else {
            rest
        }
    }
}

/// How many tables mapping the pages at addresses takes.
pub open spec fn count_for(m: Seq<u8>, root: u64, vas: Seq<u64>) -> int {
    (absent_for(m, root, vas, 1).len() + absent_for(m, root, vas, 2).len() + absent_for(
        m,
        root,
        vas,
        3,
    ).len()) as int
}

/// Whether one of the addresses goes through the same table of a level.
pub open spec fn is_passed(vas: Seq<u64>, v: u64, k: int) -> bool {
    exists|j: int| 0 <= j < vas.len() && (#[trigger] vas[j]) as int / reach(k) == v as int / reach(k)
}

/// Whether, of the tables of the user half, just those that addresses need were added,
/// and no huge page.
#[verifier::opaque]
pub open spec fn adds_just(m0: Seq<u8>, m: Seq<u8>, root: u64, vas: Seq<u64>) -> bool {
    &&& forall|v: u64, k: int|
        v < USER_END && 1 <= k <= 3 ==> (#[trigger] table_at(m, root, v, k) is Some <==> table_at(
            m0,
            root,
            v,
            k,
        ) is Some || is_passed(vas, v, k))
    &&& forall|v: u64, k: int|
        0 <= k <= 2 && #[trigger] huge_at(m, root, v, k) ==> huge_at(m0, root, v, k)
}

/// Addresses of the user half go through the same table where they lie in its reach.
pub proof fn lemma_reach(a: u64, b: u64, k: int)
    requires
        a < USER_END,
        b < USER_END,
        1 <= k <= 3,
    ensures
        same_way(a, b, k) <==> a as int / reach(k) == b as int / reach(k),
        is_user_half(a),
{
    let x = a as int;
    let y = b as int;
    assert(x / 0x80_0000_0000 < 256 && y / 0x80_0000_0000 < 256);
    assert(x / 0x4000_0000 == x / 0x80_0000_0000 * 512 + index_of(a, 1));
    assert(y / 0x4000_0000 == y / 0x80_0000_0000 * 512 + index_of(b, 1));
    assert(x / 0x20_0000 == x / 0x4000_0000 * 512 + index_of(a, 2));
    assert(y / 0x20_0000 == y / 0x4000_0000 * 512 + index_of(b, 2));
}

pub proof fn lemma_adds_none(m: Seq<u8>, root: u64)
    ensures
        adds_just(m, m, root, Seq::empty()),
        count_for(m, root, Seq::empty()) == 0,
{
    reveal(adds_just);
    assert forall|v: u64, k: int| !is_passed(Seq::<u64>::empty(), v, k) by {}
}

/// Where no table has changed, none was added.
pub proof fn lemma_adds_same(m0: Seq<u8>, a: Seq<u8>, b: Seq<u8>, root: u64, vas: Seq<u64>)
    requires
        adds_just(m0, a, root, vas),
        same_tables(a, b, root),
    ensures
        adds_just(m0, b, root, vas),
{
    reveal(adds_just);
    assert forall|v: u64, k: int| v < USER_END && 1 <= k <= 3 implies (#[trigger] table_at(
        b,
        root,
        v,
        k,
    ) is Some <==> table_at(m0, root, v, k) is Some || is_passed(vas, v, k)) by {
        lemma_same_ways(a, b, root, v);
        assert(table_at(b, root, v, k) == table_at(a, root, v, k));
    }
    assert forall|v: u64, k: int| 0 <= k <= 2 && #[trigger] huge_at(b, root, v, k) implies huge_at(
        m0,
        root,
        v,
        k,
    ) by {
        lemma_same_ways(a, b, root, v);
        assert(table_at(b, root, v, k) == table_at(a, root, v, k));
        assert(huge_at(a, root, v, k));
    }
}

/// The numbers of tables that are missing are those of addresses that need them.
proof fn lemma_absent(m: Seq<u8>, root: u64, vas: Seq<u64>, k: int, x: int)
    ensures
        absent_for(m, root, vas, k).finite(),
        absent_for(m, root, vas, k).contains(x) <==> exists|j: int|
            0 <= j < vas.len() && (#[trigger] vas[j]) as int / reach(k) == x && table_at(
                m,
                root,
                vas[j],
                k,
            ) is None,
    decreases vas.len(),
{
    if vas.len() > 0 {
        let rest = vas.drop_last();
        lemma_absent(m, root, rest, k, x);
        if absent_for(m, root, rest, k).contains(x) {
            let j = choose|j: int|
                0 <= j < rest.len() && (#[trigger] rest[j]) as int / reach(k) == x && table_at(
                    m,
                    root,
                    rest[j],
                    k,
                ) is None;
            assert(vas[j] == rest[j]);
        }
        if exists|j: int|
            0 <= j < vas.len() && (#[trigger] vas[j]) as int / reach(k) == x && table_at(
                m,
                root,
                vas[j],
                k,
            ) is None {
            let j = choose|j: int|
                0 <= j < vas.len() && (#[trigger] vas[j]) as int / reach(k) == x && table_at(
                    m,
                    root,
                    vas[j],
                    k,
                ) is None;
            if j < rest.len() {
                assert(rest[j] == vas[j]);
            } else {
                assert(vas[j] == vas.last());
            }
        }
    }
}

/// One address more.
proof fn lemma_one_level(m0: Seq<u8>, m: Seq<u8>, root: u64, vas: Seq<u64>, virt: u64, k: int)
    requires
        adds_just(m0, m, root, vas),
        virt < USER_END,
        forall|j: int| 0 <= j < vas.len() ==> (#[trigger] vas[j]) < USER_END,
        1 <= k <= 3,
    ensures
        absent_for(m0, root, vas.push(virt), k).len() == absent_for(m0, root, vas, k).len()
            + if table_at(m, root, virt, k) is None {
            1nat
        } else {
            0
        },
{
    reveal(adds_just);
    let x = virt as int / reach(k);
    let more = vas.push(virt);
    assert(more.drop_last() =~= vas);
    lemma_absent(m0, root, vas, k, x);
    let s = absent_for(m0, root, vas, k);
    if table_at(m, root, virt, k) is None {
        assert(table_at(m0, root, virt, k) is None);
        if s.contains(x) {
            let j = choose|j: int|
                0 <= j < vas.len() && (#[trigger] vas[j]) as int / reach(k) == x && table_at(
                    m0,
                    root,
                    vas[j],
                    k,
                ) is None;
            assert(is_passed(vas, virt, k));
        }
    } else if table_at(m0, root, virt, k) is None {
        assert(is_passed(vas, virt, k));
        let j = choose|j: int|
            0 <= j < vas.len() && (#[trigger] vas[j]) as int / reach(k) == virt as int / reach(k);
        lemma_reach(vas[j], virt, k);
        lemma_same_way(m0, root, vas[j], virt, k);
        assert(s.contains(x));
        assert(s.insert(x) =~= s);
    }
}

/// The tables that mapping one page more takes.
pub proof fn lemma_one_counted(m0: Seq<u8>, m: Seq<u8>, root: u64, vas: Seq<u64>, virt: u64)
    requires
        adds_just(m0, m, root, vas),
        virt < USER_END,
        forall|j: int| 0 <= j < vas.len() ==> (#[trigger] vas[j]) < USER_END,
    ensures
        count_for(m0, root, vas.push(virt)) == count_for(m0, root, vas) + missing_tables(
            m,
            root,
            virt,
        ),
{
    lemma_one_level(m0, m, root, vas, virt, 1);
    lemma_one_level(m0, m, root, vas, virt, 2);
    lemma_one_level(m0, m, root, vas, virt, 3);
    reveal_with_fuel(table_at, 4);
}

/// Where no larger page was in the way of an address, none is.
pub proof fn lemma_stays_clear(m0: Seq<u8>, m: Seq<u8>, root: u64, vas: Seq<u64>, virt: u64)
    requires
        adds_just(m0, m, root, vas),
        is_clear(m0, root, virt),
    ensures
        is_clear(m, root, virt),
{
    reveal(adds_just);
    assert(table_at(m, root, virt, 0) == Some(root));
    assert(!huge_at(m0, root, virt, 0));
    assert(!huge_at(m0, root, virt, 1));
    assert(!huge_at(m, root, virt, 0));
    assert(!huge_at(m, root, virt, 1));
}

/// Mapping one page more.
pub proof fn lemma_adds_one(
    m0: Seq<u8>,
    a: crate::pmm::PhysicalMemory,
    b: crate::pmm::PhysicalMemory,
    root: u64,
    vas: Seq<u64>,
    virt: u64,
    leaf: u64,
)
    requires
        adds_just(m0, a.bytes@, root, vas),
        is_mapped_page(a, b, root, virt, leaf),
        virt < USER_END,
    ensures
        adds_just(m0, b.bytes@, root, vas.push(virt)),
{
    reveal(adds_just);
    reveal(adds_way);
    let m = a.bytes@;
    let w = b.bytes@;
    let more = vas.push(virt);
    assert(more[vas.len() as int] == virt);
    reveal_with_fuel(table_at, 4);
    assert forall|v: u64, k: int| v < USER_END && 1 <= k <= 3 implies (#[trigger] table_at(
        w,
        root,
        v,
        k,
    ) is Some <==> table_at(m0, root, v, k) is Some || is_passed(more, v, k)) by {
        lemma_reach(v, virt, k);
        if same_way(v, virt, k) {
            lemma_same_way(w, root, v, virt, k);
            assert(table_at(w, root, virt, k) is Some);
            assert(is_passed(more, v, k));
        } else {
            assert(is_passed(more, v, k) == is_passed(vas, v, k)) by {
                if is_passed(vas, v, k) {
                    let j = choose|j: int|
                        0 <= j < vas.len() && (#[trigger] vas[j]) as int / reach(k) == v as int
                            / reach(k);
                    assert(more[j] == vas[j]);
                }
                if is_passed(more, v, k) {
                    let j = choose|j: int|
                        0 <= j < more.len() && (#[trigger] more[j]) as int / reach(k) == v as int
                            / reach(k);
                    assert(j < vas.len());
                    assert(vas[j] == more[j]);
                }
            }
            assert(table_at(m, root, v, k) is Some <==> table_at(w, root, v, k) is Some);
        }
    }
    assert forall|v: u64, k: int| 0 <= k <= 2 && #[trigger] huge_at(w, root, v, k) implies huge_at(
        m0,
        root,
        v,
        k,
    ) by {
        assert(huge_at(m, root, v, k));
    }
}

/// Addresses one after the other take the tables that their pages take.
pub proof fn lemma_counted_pages(m: Seq<u8>, root: u64, vas: Seq<u64>, pages: Set<int>)
    requires
        forall|j: int| 0 <= j < vas.len() ==> (#[trigger] vas[j]) % 4096 == 0,
        forall|p: int| #[trigger]
            pages.contains(p) <==> 0 <= p * 4096 <= u64::MAX && vas.contains((p * 4096) as u64),
    ensures
        count_for(m, root, vas) == new_tables(m, root, pages),
{
    lemma_counted_level(m, root, vas, pages, 1);
    lemma_counted_level(m, root, vas, pages, 2);
    lemma_counted_level(m, root, vas, pages, 3);
}

proof fn lemma_counted_level(m: Seq<u8>, root: u64, vas: Seq<u64>, pages: Set<int>, k: int)
    requires
        forall|j: int| 0 <= j < vas.len() ==> (#[trigger] vas[j]) % 4096 == 0,
        forall|p: int| #[trigger]
            pages.contains(p) <==> 0 <= p * 4096 <= u64::MAX && vas.contains((p * 4096) as u64),
    ensures
        absent_for(m, root, vas, k) == absent_tables(m, root, pages, k),
{
    assert forall|x: int| absent_for(m, root, vas, k).contains(x) == absent_tables(
        m,
        root,
        pages,
        k,
    ).contains(x) by {
        lemma_absent(m, root, vas, k, x);
        if absent_for(m, root, vas, k).contains(x) {
            let j = choose|j: int|
                0 <= j < vas.len() && (#[trigger] vas[j]) as int / reach(k) == x && table_at(
                    m,
                    root,
                    vas[j],
                    k,
                ) is None;
            let p = vas[j] as int / 4096;
            assert(p * 4096 == vas[j]);
            assert(pages.contains(p));
        }
        if absent_tables(m, root, pages, k).contains(x) {
            let p = choose|p: int| #[trigger]
                pages.contains(p) && table_at(m, root, (p * 4096) as u64, k) is None && x == p
                    * 4096 / reach(k);
            let j = choose|j: int| 0 <= j < vas.len() && vas[j] == (p * 4096) as u64;
            assert(vas[j] as int / reach(k) == x);
        }
    }
    assert(absent_for(m, root, vas, k) =~= absent_tables(m, root, pages, k));
}

/// More addresses take no fewer tables.
pub proof fn lemma_count_grows(m: Seq<u8>, root: u64, vas: Seq<u64>, i: int)
    requires
        0 <= i <= vas.len(),
    ensures
        count_for(m, root, vas.take(i)) <= count_for(m, root, vas),
    decreases vas.len() - i,
{
    if i < vas.len() {
        lemma_count_grows(m, root, vas, i + 1);
        let more = vas.take(i + 1);
        assert(more.drop_last() =~= vas.take(i));
        lemma_absent(m, root, vas.take(i), 1, 0);
        lemma_absent(m, root, vas.take(i), 2, 0);
        lemma_absent(m, root, vas.take(i), 3, 0);
    } else {
        assert(vas.take(i) =~= vas);
    }
}

/// What mapping takes is a matter of the tables.
pub proof fn lemma_same_needs(a: Seq<u8>, b: Seq<u8>, root: u64, pages: Set<int>)
    requires
        same_tables(a, b, root),
    ensures
        new_tables(b, root, pages) == new_tables(a, root, pages),
        forall|v: u64| #[trigger] is_clear(b, root, v) == is_clear(a, root, v),
{
    assert forall|v: u64, k: int| 0 <= k <= 3 implies #[trigger] table_at(b, root, v, k)
        == table_at(a, root, v, k) by {
        lemma_same_ways(a, b, root, v);
    }
    assert forall|k: int| 1 <= k <= 3 implies #[trigger] absent_tables(b, root, pages, k)
        == absent_tables(a, root, pages, k) by {
        assert(absent_tables(b, root, pages, k) =~= absent_tables(a, root, pages, k));
    }
    assert forall|v: u64| #[trigger] is_clear(b, root, v) == is_clear(a, root, v) by {
        lemma_same_ways(a, b, root, v);
        assert(table_at(a, root, v, 0) == Some(root));
        assert(table_at(b, root, v, 1) == table_at(a, root, v, 1));
    }
}

/// Whether one of the pages goes through the same table of a level.
pub open spec fn is_passed_by(pages: Set<int>, v: u64, k: int) -> bool {
    exists|p: int| #[trigger] pages.contains(p) && p * 4096 / reach(k) == v as int / reach(k)
}

/// Whether, of the tables of the user half, just those that pages need were added, and no
/// huge page.
#[verifier::opaque]
pub open spec fn adds_for(m0: Seq<u8>, m: Seq<u8>, root: u64, pages: Set<int>) -> bool {
    &&& forall|v: u64, k: int|
        v < USER_END && 1 <= k <= 3 ==> (#[trigger] table_at(m, root, v, k) is Some <==> table_at(
            m0,
            root,
            v,
            k,
        ) is Some || is_passed_by(pages, v, k))
    &&& forall|v: u64, k: int|
        0 <= k <= 2 && #[trigger] huge_at(m, root, v, k) ==> huge_at(m0, root, v, k)
}

/// Addresses one after the other add the tables that their pages need.
pub proof fn lemma_adds_for(
    m0: Seq<u8>,
    m1: Seq<u8>,
    m: Seq<u8>,
    root: u64,
    vas: Seq<u64>,
    pages: Set<int>,
)
    requires
        same_tables(m0, m1, root),
        adds_just(m1, m, root, vas),
        forall|j: int| 0 <= j < vas.len() ==> (#[trigger] vas[j]) % 4096 == 0,
        forall|p: int| #[trigger]
            pages.contains(p) <==> 0 <= p * 4096 <= u64::MAX && vas.contains((p * 4096) as u64),
    ensures
        adds_for(m0, m, root, pages),
{
    reveal(adds_just);
    reveal(adds_for);
    assert forall|v: u64, k: int| v < USER_END && 1 <= k <= 3 implies (#[trigger] table_at(
        m,
        root,
        v,
        k,
    ) is Some <==> table_at(m0, root, v, k) is Some || is_passed_by(pages, v, k)) by {
        lemma_same_ways(m0, m1, root, v);
        assert(table_at(m1, root, v, k) == table_at(m0, root, v, k));
        if is_passed(vas, v, k) {
            let j = choose|j: int|
                0 <= j < vas.len() && (#[trigger] vas[j]) as int / reach(k) == v as int / reach(k);
            let p = vas[j] as int / 4096;
            assert(p * 4096 == vas[j]);
            assert(pages.contains(p));
        }
        if is_passed_by(pages, v, k) {
            let p = choose|p: int| #[trigger]
                pages.contains(p) && p * 4096 / reach(k) == v as int / reach(k);
            let j = choose|j: int| 0 <= j < vas.len() && vas[j] == (p * 4096) as u64;
            assert(vas[j] as int / reach(k) == v as int / reach(k));
        }
    }
    assert forall|v: u64, k: int| 0 <= k <= 2 && #[trigger] huge_at(m, root, v, k) implies huge_at(
        m0,
        root,
        v,
        k,
    ) by {
        lemma_same_ways(m0, m1, root, v);
        assert(table_at(m1, root, v, k) == table_at(m0, root, v, k));
        assert(huge_at(m1, root, v, k));
    }
}

/// In a fresh address space every table is missing.
pub proof fn lemma_all_missing(m: Seq<u8>, root: u64, kernel: u64, pages: Set<int>)
    requires
        is_fresh_root(m, root, kernel),
        forall|p: int| #[trigger] pages.contains(p) ==> 0 <= p * 4096 < USER_END,
    ensures
        new_tables(m, root, pages) == tables_for(pages),
        forall|p: int| #[trigger] pages.contains(p) ==> is_clear(m, root, (p * 4096) as u64),
{
    assert forall|p: int, k: int|
        #![trigger pages.contains(p), reach(k)]
        pages.contains(p) && 1 <= k <= 3 implies table_at(m, root, (p * 4096) as u64, k) is None by {
        lemma_reach((p * 4096) as u64, 0, 1);
        lemma_fresh_tables(m, root, kernel, (p * 4096) as u64, k);
    }
    assert(absent_tables(m, root, pages, 1) =~= pages.map(|p: int| p * 4096 / reach(1)));
    assert(absent_tables(m, root, pages, 2) =~= pages.map(|p: int| p * 4096 / reach(2)));
    assert(absent_tables(m, root, pages, 3) =~= pages.map(|p: int| p * 4096 / reach(3)));
    assert forall|p: int| #[trigger] pages.contains(p) implies is_clear(
        m,
        root,
        (p * 4096) as u64,
    ) by {
        let v = (p * 4096) as u64;
        lemma_reach(v, 0, 1);
        lemma_fresh_tables(m, root, kernel, v, 1);
        super::lemma_zero_entry();
        assert(entry(m, root, index_of(v, 0)) == 0);
    }
}

} // verus!
