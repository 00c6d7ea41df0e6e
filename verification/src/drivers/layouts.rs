//! What is sent to devices and what is read from them, byte by byte.

use vstd::prelude::*;
use vstd::arithmetic::div_mod::lemma_fundamental_div_mod_converse;
use crate::bytes::{
    le16, le16_bytes, le32, le32_bytes, le64, le64_bytes, lemma_le64_round_trip,
    lemma_le_round_trip,
};
use super::ahci::{
    bring_up, command_fis, has_bit, header_bytes, high, is_disk, low, ports_in, region_bytes, PortOp,
};
use super::nvme::{capacity_of, read_block, Entry};
use super::pci::{
    address_of, bar_base, class_of, device_functions, functions, is_present, is_wide, present, Config,
    PciLocation,
};

verus! {

/// A command for a SATA disk: a register frame from the host with the command in it; a read
/// by DMA (0x25) has the sector's number, in six bytes, and the number of sectors.
pub proof fn law_sata_read_command(lba: u64, count: u16)
    requires
        lba < 0x1_0000_0000_0000,
    ensures
        ({
            let f = command_fis(0x25, lba, count);
            &&& f.len() == 20
            &&& f[0] == 0x27 && f[1] == 0x80 && f[2] == 0x25 && f[3] == 0 && f[7] == 0x40
            &&& f[4] + 0x100 * f[5] + 0x1_0000 * f[6] + 0x100_0000 * f[8] + 0x1_0000_0000 * f[9]
                + 0x100_0000_0000 * f[10] == lba
            &&& le16(f, 12) == count
            &&& f[11] == 0 && forall|i: int| 14 <= i < 20 ==> f[i] == 0
        }),
{
    let f = command_fis(0x25, lba, count);
    lemma_le_round_trip(count, 0);
    assert(f[12] == le16_bytes(count)[0] && f[13] == le16_bytes(count)[1]);
    let (b, c, d, e, g) = (
        lba / 0x100,
        lba / 0x1_0000,
        lba / 0x100_0000,
        lba / 0x1_0000_0000,
        lba / 0x100_0000_0000,
    );
    assert(c == b / 0x100 && d == c / 0x100 && e == d / 0x100 && g == e / 0x100);
    assert(g < 0x100);
}

proof fn lemma_head_counts(table: u64)
    ensures
        le16(header_bytes(table), 0) == 5,
        le16(header_bytes(table), 2) == 1,
{
    lemma_le_round_trip(5, 0);
    lemma_le_round_trip(1, 0);
    let h = header_bytes(table);
    assert(h[0] == le16_bytes(5)[0] && h[1] == le16_bytes(5)[1] && h[2] == le16_bytes(1)[0] && h[3]
        == le16_bytes(1)[1]);
}

proof fn lemma_head_address(table: u64)
    ensures
        le64(header_bytes(table), 8) == table,
{
    lemma_le64_round_trip(table);
    let h = header_bytes(table);
    let t = le64_bytes(table);
    assert(h.subrange(8, 16) =~= t);
    assert(h[8] == t[0] && h[9] == t[1] && h[10] == t[2] && h[11] == t[3] && h[12] == t[4] && h[13]
        == t[5] && h[14] == t[6] && h[15] == t[7]);
}

proof fn lemma_region_address(data: u64)
    ensures
        le64(region_bytes(data), 0) == data,
{
    lemma_le64_round_trip(data);
    let r = region_bytes(data);
    let d = le64_bytes(data);
    assert(r[0] == d[0] && r[1] == d[1] && r[2] == d[2] && r[3] == d[3] && r[4] == d[4] && r[5]
        == d[5] && r[6] == d[6] && r[7] == d[7]);
}

proof fn lemma_region_size(data: u64)
    ensures
        le32(region_bytes(data), 12) % 0x40_0000 + 1 == 512,
{
    lemma_le_round_trip(0, 0x8000_01ff);
    let r = region_bytes(data);
    let n = le32_bytes(0x8000_01ff);
    assert(r[12] == n[0] && r[13] == n[1] && r[14] == n[2] && r[15] == n[3]);
}

/// The head of a command says that the command has five words and one piece of memory, and
/// where its table is; that piece is a sector at the address given.
pub proof fn law_sata_command_memory(table: u64, data: u64)
    ensures
        header_bytes(table).len() == 32,
        le16(header_bytes(table), 0) == 5,
        le16(header_bytes(table), 2) == 1,
        le64(header_bytes(table), 8) == table,
        region_bytes(data).len() == 16,
        le64(region_bytes(data), 0) == data,
        le32(region_bytes(data), 12) % 0x40_0000 + 1 == 512,
{
    lemma_head_counts(table);
    lemma_head_address(table);
    lemma_region_address(data);
    lemma_region_size(data);
}

/// The two halves of an address make it up.
pub proof fn law_address_halves(v: u64)
    ensures
        low(v) + 0x1_0000_0000 * high(v) == v,
{
}

/// A port is given its memory only between the waits for its engines to stop and the writes
/// that start them, the frames first.
pub proof fn law_port_is_stopped_while_it_changes(list: u64, fis: u64)
    ensures
        ({
            let ops = bring_up(list, fis);
            &&& ops.len() == 15
            &&& ops[1] == (PortOp::AwaitClear { register: 0x18, bits: 0x8000 })
            &&& ops[3] == (PortOp::AwaitClear { register: 0x18, bits: 0x4000 })
            &&& forall|i: int|
                0 <= i < 4 || 11 <= i < 15 ==> !(#[trigger] ops[i] is Write)
            &&& ops[4] == (PortOp::Write { register: 0x00, value: low(list) })
            &&& ops[5] == (PortOp::Write { register: 0x04, value: high(list) })
            &&& ops[6] == (PortOp::Write { register: 0x08, value: low(fis) })
            &&& ops[7] == (PortOp::Write { register: 0x0c, value: high(fis) })
            &&& ops[12] == (PortOp::WriteRemembered { register: 0x18, bits: 0x10 })
            &&& ops[14] == (PortOp::WriteRemembered { register: 0x18, bits: 0x11 })
        }),
{
}

/// The ports that a controller has are those whose bits are set, in their order.
pub proof fn law_ports(pi: u32, n: int)
    requires
        0 <= n <= 32,
    ensures
        forall|p: usize| #[trigger] ports_in(pi, n).contains(p) <==> p < n && has_bit(pi, p as int),
        forall|i: int, j: int|
            0 <= i < j < ports_in(pi, n).len() ==> (#[trigger] ports_in(pi, n)[i]) < (
            #[trigger] ports_in(pi, n)[j]),
    decreases n,
{
    if n > 0 {
        law_ports(pi, n - 1);
        let (s, t) = (ports_in(pi, n), ports_in(pi, n - 1));
        assert forall|p: usize| #[trigger] s.contains(p) <==> p < n && has_bit(pi, p as int) by {
            if has_bit(pi, n - 1) {
                assert(s[t.len() as int] == n - 1);
                if t.contains(p) {
                    let k = choose|k: int| 0 <= k < t.len() && t[k] == p;
                    assert(s[k] == p);
                }
                if s.contains(p) {
                    let k = choose|k: int| 0 <= k < s.len() && s[k] == p;
                    if k < t.len() {
                        assert(t[k] == p);
                        assert(t.contains(p));
                    }
                }
            }
        }
        assert forall|i: int, j: int| 0 <= i < j < s.len() implies (#[trigger] s[i]) < (
        #[trigger] s[j]) by {
            assert(s[i] == t[i]);
            assert(t.contains(t[i]));
            if j < t.len() {
                assert(s[j] == t[j]);
            }
        }
    }
}

/// A port has a disk on it where the device is there and talks (3), the link is active (1),
/// and the signature is that of a disk.
pub proof fn law_disk_ports(ssts: u32, sig: u32)
    ensures
        is_disk(ssts, sig) <==> ssts % 16 == 3 && (ssts / 0x100) % 16 == 1 && sig == 0x0000_0101,
{
}

/// A command for an NVMe controller: its fields stand where the controller reads them, and
/// the rest is zero.
pub proof fn law_nvme_command(e: Entry)
    ensures
        e.image().len() == 64,
        e.image()[0] == e.opcode,
        le32(e.image(), 4) == e.nsid,
        le64(e.image(), 24) == e.prp1,
        le32(e.image(), 40) == e.cdw10,
        le32(e.image(), 44) == e.cdw11,
        forall|i: int|
            1 <= i < 4 || 8 <= i < 24 || 32 <= i < 40 || 48 <= i < 64 ==> #[trigger] e.image()[i] == 0,
{
    let m = e.image();
    lemma_le_round_trip(0, e.nsid);
    lemma_le_round_trip(0, e.cdw10);
    lemma_le_round_trip(0, e.cdw11);
    lemma_le64_round_trip(e.prp1);
    let (n, a, b, p) = (
        le32_bytes(e.nsid),
        le32_bytes(e.cdw10),
        le32_bytes(e.cdw11),
        le64_bytes(e.prp1),
    );
    assert(m[4] == n[0] && m[5] == n[1] && m[6] == n[2] && m[7] == n[3]);
    assert(m[40] == a[0] && m[41] == a[1] && m[42] == a[2] && m[43] == a[3]);
    assert(m[44] == b[0] && m[45] == b[1] && m[46] == b[2] && m[47] == b[3]);
    assert(m[24] == p[0] && m[25] == p[1] && m[26] == p[2] && m[27] == p[3] && m[28] == p[4] && m[29]
        == p[5] && m[30] == p[6] && m[31] == p[7]);
}

/// Reading a block is opcode 2, on the namespace, with the memory it goes to and the number
/// of the block in two words.
pub proof fn law_nvme_read(nsid: u32, lba: u64, page: u64)
    ensures
        ({
            let e = read_block(nsid, lba, page);
            &&& e.opcode == 2
            &&& e.nsid == nsid
            &&& e.prp1 == page
            &&& e.cdw10 + 0x1_0000_0000 * e.cdw11 == lba
        }),
{
}

/// A namespace can be used where its blocks are of 512 bytes and without metadata, by the
/// format that is in use; its first eight bytes say how many there are.
pub proof fn law_nvme_capacity(raw: Seq<u8>, k: int)
    requires
        raw.len() == 4096,
        k == raw[26] % 16,
    ensures
        match capacity_of(raw) {
            Some(n) => n == le64(raw, 0) && n > 0 && raw[128 + 4 * k + 2] == 9 && le16(
                raw,
                128 + 4 * k,
            ) == 0,
            None => le64(raw, 0) == 0 || raw[128 + 4 * k + 2] != 9 || le16(raw, 128 + 4 * k) != 0,
        },
{
}

/// The word that selects a register of a function: bus, device, function and register, in
/// fields of eight, five, three and eight bits, with the top bit set.
pub proof fn law_configuration_address(loc: PciLocation, offset: u8)
    requires
        loc.device < 32,
        loc.function < 8,
    ensures
        ({
            let a = address_of(loc, offset);
            &&& a / 0x8000_0000 == 1
            &&& a / 0x1_0000 % 0x100 == loc.bus
            &&& a / 0x800 % 32 == loc.device
            &&& a / 0x100 % 8 == loc.function
            &&& a % 0x100 == offset - offset % 4
        }),
{
    let (b, d, f) = (loc.bus as int, loc.device as int, loc.function as int);
    let o = (offset / 4 * 4) as int;
    let a = address_of(loc, offset);
    lemma_fundamental_div_mod_converse(a, 0x100, 0x80_0000 + b * 0x100 + d * 8 + f, o);
    lemma_fundamental_div_mod_converse(a, 0x800, 0x10_0000 + b * 32 + d, f * 0x100 + o);
    lemma_fundamental_div_mod_converse(a, 0x1_0000, 0x8000 + b, d * 0x800 + f * 0x100 + o);
    lemma_fundamental_div_mod_converse(
        a,
        0x8000_0000,
        1,
        b * 0x1_0000 + d * 0x800 + f * 0x100 + o,
    );
}

/// Whether there is a function to be found at a place: function 0 of its device is there,
/// and it is that function or, where the device has several, there itself.
pub open spec fn is_findable(c: Config, loc: PciLocation) -> bool {
    let first = PciLocation { bus: loc.bus, device: loc.device, function: 0 };
    &&& loc.device < 32
    &&& loc.function < 8
    &&& c(first, 0) % 0x1_0000 != 0xffff
    &&& c(loc, 0) % 0x1_0000 != 0xffff
    &&& loc.function > 0 ==> c(first, 0x0c) / 0x80_0000 % 2 == 1
}

proof fn lemma_functions(c: Config, bus: u8, device: u8, n: int, loc: PciLocation)
    requires
        0 <= n <= 8,
    ensures
        functions(c, bus, device, n).contains(loc) <==> loc.bus == bus && loc.device == device
            && loc.function < n && is_present(c, loc),
    decreases n,
{
    if n > 0 {
        lemma_functions(c, bus, device, n - 1, loc);
        let t = functions(c, bus, device, n - 1);
        let s = functions(c, bus, device, n);
        let last = PciLocation { bus, device, function: (n - 1) as u8 };
        if is_present(c, last) {
            assert(s[t.len() as int] == last);
            if t.contains(loc) {
                let k = choose|k: int| 0 <= k < t.len() && t[k] == loc;
                assert(s[k] == loc);
            }
            if s.contains(loc) {
                let k = choose|k: int| 0 <= k < s.len() && s[k] == loc;
                if k < t.len() {
                    assert(t[k] == loc);
                }
            }
        }
    }
}

proof fn lemma_present(c: Config, n: int, loc: PciLocation)
    requires
        0 <= n <= 8192,
    ensures
        present(c, n).contains(loc) <==> loc.bus * 32 + loc.device < n && is_findable(c, loc),
    decreases n,
{
    if n > 0 {
        lemma_present(c, n - 1, loc);
        let bus = ((n - 1) / 32) as u8;
        let device = ((n - 1) % 32) as u8;
        let (t, d) = (present(c, n - 1), device_functions(c, bus, device));
        lemma_functions(c, bus, device, 8, loc);
        lemma_functions(c, bus, device, 1, loc);
        let s = present(c, n);
        if t.contains(loc) {
            let k = choose|k: int| 0 <= k < t.len() && t[k] == loc;
            assert(s[k] == loc);
        }
        if d.contains(loc) {
            let k = choose|k: int| 0 <= k < d.len() && d[k] == loc;
            assert(s[t.len() + k] == loc);
        }
        if s.contains(loc) {
            let k = choose|k: int| 0 <= k < s.len() && s[k] == loc;
            if k < t.len() {
                assert(t[k] == loc);
            } else {
                assert(d[k - t.len()] == loc);
            }
        }
    }
}

/// Every function on the bus is found, and nothing else.
pub proof fn law_every_function_is_found(c: Config, loc: PciLocation)
    ensures
        present(c, 8192).contains(loc) <==> is_findable(c, loc),
{
    lemma_present(c, 8192, loc);
}

proof fn lemma_base_bits(l: u32)
    ensures
        l % 8 == 4 ==> l % 2 == 0 && is_wide(l),
        l % 8 == 0 || l % 8 == 2 || l % 8 == 6 ==> l % 2 == 0 && !is_wide(l),
        l / 16 * 16 == l - l % 16,
{
    let (q, r) = (l as int / 8, l as int % 8);
    assert(l == 8 * q + r);
    assert(l as int / 2 == 4 * q + r / 2);
    assert(l % 2 == r % 2);
    assert((4 * q + r / 2) % 4 == r / 2);
}

proof fn lemma_class(w: u32)
    ensures
        w as int / 0x100 * 0x100 <= w < (w as int / 0x100 + 1) * 0x100,
{
}

/// The memory of a device is where its base address register says: without its lowest four
/// bits, with the next register as its upper half where it is 64 bits wide, and nowhere for
/// one of I/O ports.
pub proof fn law_base_address(c: Config, loc: PciLocation, offset: u8)
    requires
        offset <= 0x24,
    ensures
        ({
            let l = c(loc, offset);
            let h = c(loc, (offset + 4) as u8);
            let base = bar_base(c, loc, offset as int);
            &&& l % 2 == 1 ==> base == 0
            &&& l % 8 == 4 ==> base == h * 0x1_0000_0000 + (l - l % 16)
            &&& l % 8 == 0 || l % 8 == 2 || l % 8 == 6 ==> base == l - l % 16
        }),
        class_of(c, loc) * 0x100 <= c(loc, 8) < (class_of(c, loc) + 1) * 0x100,
{
    lemma_base_bits(c(loc, offset));
    lemma_class(c(loc, 8));
}

} // verus!
