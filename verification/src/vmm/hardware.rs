//! Addresses as the processor takes them apart, and the entries that it reads.

use vstd::prelude::*;
use crate::bytes::le64;
use super::user::user_walked;
use super::{index_of, is_clear, map_outcome, missing_tables, table_at, walked, MapError};
use crate::pmm::PhysicalMemory;

verus! {

/// The four places in the tables and the offset in the page make up the lower 48 bits of an
/// address.
pub proof fn law_address_parts(virt: u64)
    ensures
        0 <= index_of(virt, 0) < 512,
        0 <= index_of(virt, 1) < 512,
        0 <= index_of(virt, 2) < 512,
        0 <= index_of(virt, 3) < 512,
        index_of(virt, 0) * 0x80_0000_0000 + index_of(virt, 1) * 0x4000_0000 + index_of(virt, 2)
            * 0x20_0000 + index_of(virt, 3) * 0x1000 + virt % 0x1000 == virt % 0x1_0000_0000_0000,
{
    let v = virt as int;
    let (a, b, c, d) = (v / 0x1000, v / 0x20_0000, v / 0x4000_0000, v / 0x80_0000_0000);
    assert(b == a / 512 && c == b / 512 && d == c / 512);
    assert(v / 0x1_0000_0000_0000 == d / 512);
}

/// The entry that an address goes through in a table: eight bytes, the lowest first.
pub open spec fn entry_at(m: Seq<u8>, table: u64, i: int) -> u64 {
    le64(m, table + 8 * i) as u64
}

/// The part of an entry that is the address of a table or a page.
pub open spec fn address_in(e: u64) -> u64 {
    e & 0x000f_ffff_ffff_f000
}

/// The way of an address through the four tables, in pages of 4096 bytes: from the root,
/// each entry leads to the next table and the last one to the page. An entry that is not
/// present ends it.
pub proof fn law_way_through_the_tables(m: Seq<u8>, root: u64, virt: u64)
    ensures
        ({
            let e0 = entry_at(m, root, virt as int / 0x80_0000_0000 % 512);
            let e1 = entry_at(m, address_in(e0), virt as int / 0x4000_0000 % 512);
            let e2 = entry_at(m, address_in(e1), virt as int / 0x20_0000 % 512);
            let e3 = entry_at(m, address_in(e2), virt as int / 0x1000 % 512);
            &&& e0 & 1 == 0 ==> walked(m, root, virt) is None
            &&& e0 & 1 != 0 && e1 & 1 == 0 ==> walked(m, root, virt) is None
            &&& e0 & 1 != 0 && e1 & 1 != 0 && e1 & 0x80 != 0 ==> walked(m, root, virt) == Some(
                ((e1 & 0x000f_ffff_c000_0000) + virt % 0x4000_0000) as u64,
            )
            &&& e0 & 1 != 0 && e1 & 1 != 0 && e1 & 0x80 == 0 && e2 & 1 == 0 ==> walked(m, root, virt)
                is None
            &&& e0 & 1 != 0 && e1 & 1 != 0 && e1 & 0x80 == 0 && e2 & 1 != 0 && e2 & 0x80 != 0
                ==> walked(m, root, virt) == Some(
                ((e2 & 0x000f_ffff_ffe0_0000) + virt % 0x20_0000) as u64,
            )
            &&& e0 & 1 != 0 && e1 & 1 != 0 && e1 & 0x80 == 0 && e2 & 1 != 0 && e2 & 0x80 == 0 && e3
                & 1 == 0 ==> walked(m, root, virt) is None
            &&& e0 & 1 != 0 && e1 & 1 != 0 && e1 & 0x80 == 0 && e2 & 1 != 0 && e2 & 0x80 == 0 && e3
                & 1 != 0 ==> walked(m, root, virt) == Some(
                (address_in(e3) + virt % 0x1000) as u64,
            )
        }),
{
    reveal(walked);
    reveal(super::word);
    reveal_with_fuel(table_at, 2);
}

/// A program reaches a byte only through four entries that are all present and open to
/// programs, and writes it only where the last one allows that; the page is then the one
/// that the tables lead to.
pub proof fn law_programs_reach_what_is_theirs(m: Seq<u8>, root: u64, virt: u64, write: bool)
    ensures
        ({
            let e0 = entry_at(m, root, virt as int / 0x80_0000_0000 % 512);
            let e1 = entry_at(m, address_in(e0), virt as int / 0x4000_0000 % 512);
            let e2 = entry_at(m, address_in(e1), virt as int / 0x20_0000 % 512);
            let e3 = entry_at(m, address_in(e2), virt as int / 0x1000 % 512);
            let open = 1u64 | 4;
            let open_for_writing = 1u64 | 4 | 2;
            user_walked(m, root, virt, write) == if e0 & open == open && e1 & open == open && e1
                & 0x80 == 0 && e2 & open == open && e2 & 0x80 == 0 && (if write {
                e3 & open_for_writing == open_for_writing
            } else {
                e3 & open == open
            }) {
                Some((address_in(e3) + virt % 0x1000) as u64)
            } else {
                None
            }
        }),
{
    reveal(user_walked);
    reveal(super::word);
}

/// How many tables a page needs that are not there yet: one for each level below the first
/// entry on its way that is not present. Where a larger page is in the way of a table, that
/// is told, and nothing is mapped.
pub proof fn law_missing_tables(m: Seq<u8>, root: u64, virt: u64)
    ensures
        ({
            let e0 = entry_at(m, root, virt as int / 0x80_0000_0000 % 512);
            let e1 = entry_at(m, address_in(e0), virt as int / 0x4000_0000 % 512);
            let e2 = entry_at(m, address_in(e1), virt as int / 0x20_0000 % 512);
            &&& e0 & 1 == 0 ==> missing_tables(m, root, virt) == 3
            &&& e0 & 1 != 0 && e1 & 1 == 0 ==> missing_tables(m, root, virt) == 2
            &&& e0 & 1 != 0 && e1 & 1 != 0 && e1 & 0x80 == 0 && e2 & 1 == 0 ==> missing_tables(
                m,
                root,
                virt,
            ) == 1
            &&& e0 & 1 != 0 && e1 & 1 != 0 && e1 & 0x80 == 0 && e2 & 1 != 0 && e2 & 0x80 == 0
                ==> missing_tables(m, root, virt) == 0
            &&& is_clear(m, root, virt) <==> !(e0 & 1 != 0 && e0 & 0x80 != 0) && !(e0 & 1 != 0 && e1
                & 1 != 0 && e1 & 0x80 != 0)
        }),
{
    reveal(super::word);
    reveal_with_fuel(table_at, 4);
}

/// A page is mapped where no larger page of a gigabyte is in the way and there are frames for
/// the tables that it needs.
pub proof fn law_mapping_is_refused(mem: PhysicalMemory, root: u64, virt: u64)
    ensures
        map_outcome(mem, root, virt) is Ok <==> is_clear(mem.bytes@, root, virt)
            && mem.pmm->0.free_frames >= missing_tables(mem.bytes@, root, virt),
        map_outcome(mem, root, virt) == Err::<(), MapError>(MapError::HugePage) <==> !is_clear(
            mem.bytes@,
            root,
            virt,
        ),
{
}

} // verus!
