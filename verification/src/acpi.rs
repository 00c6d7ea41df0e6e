//! Just enough ACPI to find the MADT (Multiple APIC Description Table)
//! and pull out of it what the interrupt controllers need: the Local APIC's
//! base, every I/O APIC's base and GSI (Global System Interrupt) base, and
//! every legacy ISA IRQ that's been remapped to a different GSI than its own
//! number.
//!
//! No AML interpretation, no other ACPI tables, no shutdown or sleep support.
//! What physical memory holds comes from a function of the caller's, which has
//! to make the bytes readable first.

use vstd::prelude::*;
use crate::bytes::{le16, le32, le64, u16le, u32le, u64le};

pub mod entries;

verus! {

pub const MAX_IOAPICS: usize = 4;

pub const MAX_OVERRIDES: usize = 16;

/// The largest table that is read.
pub const MAX_TABLE: usize = 0x1_0000;

#[derive(Clone, Copy, Debug, PartialEq, Eq, Structural)]
pub struct IoApicInfo {
    pub id: u8,
    pub mmio_base: u32,
    pub gsi_base: u32,
}

#[derive(Clone, Copy, Debug, PartialEq, Eq, Structural)]
pub struct IsaOverride {
    pub isa_irq: u8,
    pub gsi: u32,
    /// Raw MPS INTI flags: bits 0:1 polarity, bits 2:3 trigger mode. Zero means
    /// the bus default, which for ISA is active-high and edge-triggered.
    pub flags: u16,
}

/// What the interrupt controllers need out of the MADT.
pub struct MadtInfo {
    pub local_apic_addr: u64,
    pub ioapics: [IoApicInfo; MAX_IOAPICS],
    pub ioapic_count: usize,
    pub overrides: [IsaOverride; MAX_OVERRIDES],
    pub override_count: usize,
}

/// What a MADT says: the Local APIC's address, the first I/O APICs and the first
/// overrides.
pub struct Madt {
    pub local_apic: int,
    pub ioapics: Seq<IoApicInfo>,
    pub overrides: Seq<IsaOverride>,
}

/// The first override of an IRQ.
pub open spec fn first_override(o: Seq<IsaOverride>, irq: u8) -> Option<(u32, u16)>
    decreases o.len(),
{
    if o.len() == 0 {
        None
    } else if o[0].isa_irq == irq {
        Some((o[0].gsi, o[0].flags))
    } else {
        first_override(o.skip(1), irq)
    }
}

impl MadtInfo {
    pub open spec fn wf(self) -> bool {
        self.ioapic_count <= MAX_IOAPICS && self.override_count <= MAX_OVERRIDES
    }

    pub open spec fn view(self) -> Madt {
        Madt {
            local_apic: self.local_apic_addr as int,
            ioapics: self.ioapics@.take(self.ioapic_count as int),
            overrides: self.overrides@.take(self.override_count as int),
        }
    }

    /// Look up whether ISA IRQ `irq` has been remapped to a different GSI,
    /// returning the GSI and override flags if so.
    pub fn override_for(&self, irq: u8) -> (r: Option<(u32, u16)>)
        requires
            self.wf(),
        ensures
            r == first_override(self.view().overrides, irq),
    {
        let ghost o = self.view().overrides;
        let mut i: usize = 0;
        assert(o.skip(0) =~= o);
        while i < self.override_count
            invariant
                self.wf(),
                i <= self.override_count,
                o == self.overrides@.take(self.override_count as int),
                first_override(o, irq) == first_override(o.skip(i as int), irq),
            decreases self.override_count - i,
        {
            if self.overrides[i].isa_irq == irq {
                return Some((self.overrides[i].gsi, self.overrides[i].flags));
            }
            assert(o.skip(i as int).skip(1) =~= o.skip(i + 1));
            i += 1;
        }
        None
    }
}

/// What physical memory holds.
pub type Contents = spec_fn(int) -> u8;

/// A piece of physical memory.
pub open spec fn window(m: Contents, at: int, len: int) -> Seq<u8> {
    Seq::new(len as nat, |i: int| m(at + i))
}

/// Whether a function reads physical memory, which does not change meanwhile and
/// holds `m`.
pub open spec fn reads<F: Fn(u64, usize) -> Vec<u8>>(read: F, m: Contents) -> bool {
    &&& forall|at: u64, len: usize| #[trigger] read.requires((at, len))
    &&& forall|at: u64, len: usize, v: Vec<u8>| #[trigger]
        read.ensures((at, len), v) ==> v@ == window(m, at as int, len as int)
}

/// The sum of the first `n` bytes.
pub open spec fn sum_of(b: Seq<u8>, n: int) -> int
    decreases n,
{
    if n <= 0 {
        0
    } else {
        sum_of(b, n - 1) + b[n - 1]
    }
}

/// Whether the bytes of a table add up to zero.
pub open spec fn is_sound(b: Seq<u8>) -> bool {
    sum_of(b, b.len() as int) % 256 == 0
}

pub fn checksum_ok(bytes: &[u8]) -> (r: bool)
    ensures
        r == is_sound(bytes@),
{
    let n: usize = bytes.len();
    let mut acc: u8 = 0;
    let mut i: usize = 0;
    while i < n
        invariant
            i <= n,
            n == bytes@.len(),
            acc == sum_of(bytes@, i as int) % 256,
        decreases n - i,
    {
        acc = acc.wrapping_add(bytes[i]);
        i += 1;
    }
    acc == 0
}

/// Whether a table begins with four letters.
pub open spec fn has_signature(b: Seq<u8>, sig: Seq<u8>) -> bool {
    b[0] == sig[0] && b[1] == sig[1] && b[2] == sig[2] && b[3] == sig[3]
}

/// The signatures `APIC`, `XSDT` and `RSDT`.
pub open spec fn apic() -> Seq<u8> {
    seq![0x41u8, 0x50, 0x49, 0x43]
}

pub open spec fn root_signature(wide: bool) -> Seq<u8> {
    if wide {
        seq![0x58u8, 0x53, 0x44, 0x54]
    } else {
        seq![0x52u8, 0x53, 0x44, 0x54]
    }
}

/// Whether a descriptor begins with `RSD PTR `.
pub open spec fn is_rsdp(b: Seq<u8>) -> bool {
    b[0] == 0x52 && b[1] == 0x53 && b[2] == 0x44 && b[3] == 0x20 && b[4] == 0x50 && b[5] == 0x54
        && b[6] == 0x52 && b[7] == 0x20
}

/// Where the root table is, and whether it holds 64-bit pointers: the XSDT where
/// the descriptor has one and is sound as a whole, else the RSDT where its first
/// part is sound.
pub open spec fn root_of(m: Contents, rsdp: int) -> Option<(int, bool)> {
    let b = window(m, rsdp, 36);
    let len = le32(b, 20);
    if !is_rsdp(b) {
        None
    } else if b[15] >= 2 && 36 <= len <= 4096 && is_sound(window(m, rsdp, len)) && le64(b, 24) != 0 {
        Some((le64(b, 24), true))
    } else if is_sound(window(m, rsdp, 20)) && le32(b, 16) != 0 {
        Some((le32(b, 16), false))
    } else {
        None
    }
}

/// The size of a pointer in the root table.
pub open spec fn entry_size(wide: bool) -> int {
    if wide {
        8
    } else {
        4
    }
}

/// The bytes of a table with a signature that is sound and neither shorter than
/// `least` nor longer than what is read.
pub open spec fn table_at(m: Contents, at: int, sig: Seq<u8>, least: int) -> Option<Seq<u8>> {
    let h = window(m, at, 36);
    let len = le32(h, 4);
    if has_signature(h, sig) && least <= len <= MAX_TABLE && is_sound(window(m, at, len)) {
        Some(window(m, at, len))
    } else {
        None
    }
}

pub open spec fn pointer(t: Seq<u8>, at: int, wide: bool) -> int {
    if wide {
        le64(t, at)
    } else {
        le32(t, at)
    }
}

/// The first table that a root table points to from `at` on with the signature
/// of the MADT.
pub open spec fn madt_from(m: Contents, t: Seq<u8>, at: int, wide: bool) -> Option<int>
    decreases t.len() - at,
{
    if at >= t.len() {
        None
    } else {
        let p = pointer(t, at, wide);
        if p != 0 && has_signature(window(m, p, 36), apic()) {
            Some(p)
        } else if at + entry_size(wide) > t.len() {
            None
        } else {
            madt_from(m, t, at + entry_size(wide), wide)
        }
    }
}

/// What an entry of a MADT adds to what came before it.
pub open spec fn with_entry(b: Seq<u8>, at: int, len: int, i: Madt) -> Madt {
    if b[at] == 1 && len >= 12 && i.ioapics.len() < MAX_IOAPICS {
        Madt {
            ioapics: i.ioapics.push(
                IoApicInfo {
                    id: b[at + 2],
                    mmio_base: le32(b, at + 4) as u32,
                    gsi_base: le32(b, at + 8) as u32,
                },
            ),
            ..i
        }
    } else if b[at] == 2 && len >= 10 && i.overrides.len() < MAX_OVERRIDES {
        Madt {
            overrides: i.overrides.push(
                IsaOverride {
                    isa_irq: b[at + 3],
                    gsi: le32(b, at + 4) as u32,
                    flags: le16(b, at + 8) as u16,
                },
            ),
            ..i
        }
    } else if b[at] == 5 && len >= 12 && le64(b, at + 4) != 0 {
        Madt { local_apic: le64(b, at + 4), ..i }
    } else {
        i
    }
}

/// What the entries of a MADT say from `at` on, unless one is malformed.
pub open spec fn entries_from(b: Seq<u8>, at: int, i: Madt) -> Option<Madt>
    decreases b.len() - at,
{
    if at < 0 || at + 2 > b.len() {
        Some(i)
    } else {
        let len = b[at + 1] as int;
        if len < 2 || at + len > b.len() {
            None
        } else {
            entries_from(b, at + len, with_entry(b, at, len, i))
        }
    }
}

/// What a MADT says; one without an I/O APIC is of no use.
pub open spec fn madt_of(b: Seq<u8>) -> Option<Madt> {
    match entries_from(
        b,
        44,
        Madt { local_apic: le32(b, 36), ioapics: Seq::empty(), overrides: Seq::empty() },
    ) {
        Some(i) => if i.ioapics.len() == 0 {
            None
        } else {
            Some(i)
        },
        None => None,
    }
}

/// What the MADT of a machine says, with the address of its RSDP.
pub open spec fn machine_madt(m: Contents, rsdp: int) -> Option<Madt> {
    match root_of(m, rsdp) {
        None => None,
        Some((at, wide)) => match table_at(m, at, root_signature(wide), 36) {
            None => None,
            Some(t) => if (t.len() - 36) % entry_size(wide) != 0 {
                None
            } else {
                match madt_from(m, t, 36, wide) {
                    None => None,
                    Some(p) => match table_at(m, p, apic(), 44) {
                        None => None,
                        Some(b) => madt_of(b),
                    },
                }
            },
        },
    }
}

/// Whether a result holds what a MADT says, or nothing where that says nothing.
pub open spec fn is_result(r: Option<MadtInfo>, i: Option<Madt>) -> bool {
    match r {
        Some(info) => info.wf() && i == Some(info.view()),
        None => i is None,
    }
}

/// Read the entries of a MADT.
pub fn parse_madt(b: &[u8]) -> (r: Option<MadtInfo>)
    requires
        44 <= b@.len() <= MAX_TABLE,
    ensures
        is_result(r, madt_of(b@)),
{
    let total: usize = b.len();
    let no_ioapic: IoApicInfo = IoApicInfo { id: 0, mmio_base: 0, gsi_base: 0 };
    let no_override: IsaOverride = IsaOverride { isa_irq: 0, gsi: 0, flags: 0 };
    let mut info: MadtInfo = MadtInfo {
        local_apic_addr: u32le(b, 36) as u64,
        ioapics: [no_ioapic; MAX_IOAPICS],
        ioapic_count: 0,
        overrides: [no_override; MAX_OVERRIDES],
        override_count: 0,
    };
    let mut at: usize = 44;
    assert(info.view().ioapics =~= Seq::empty());
    assert(info.view().overrides =~= Seq::empty());
    let ghost start = info.view();
    while at + 2 <= total
        invariant
            44 <= at <= total,
            total == b@.len(),
            total <= MAX_TABLE,
            info.wf(),
            start == (Madt {
                local_apic: le32(b@, 36),
                ioapics: Seq::empty(),
                overrides: Seq::empty(),
            }),
            entries_from(b@, 44, start) == entries_from(b@, at as int, info.view()),
        decreases total - at,
    {
        let kind: u8 = b[at];
        let len: usize = b[at + 1] as usize;
        if len < 2 || at + len > total {
            return None;
        }
        let ghost before = info.view();
        if kind == 1 && len >= 12 {
            if info.ioapic_count < MAX_IOAPICS {
                info.ioapics[info.ioapic_count] = IoApicInfo {
                    id: b[at + 2],
                    mmio_base: u32le(b, at + 4),
                    gsi_base: u32le(b, at + 8),
                };
                info.ioapic_count = info.ioapic_count + 1;
            }
        } else if kind == 2 && len >= 10 {
            if info.override_count < MAX_OVERRIDES {
                info.overrides[info.override_count] = IsaOverride {
                    isa_irq: b[at + 3],
                    gsi: u32le(b, at + 4),
                    flags: u16le(b, at + 8),
                };
                info.override_count = info.override_count + 1;
            }
        } else if kind == 5 && len >= 12 {
            let wide: u64 = u64le(b, at + 4);
            if wide != 0 {
                info.local_apic_addr = wide;
            }
        }
        proof {
            let next = with_entry(b@, at as int, len as int, before);
            assert(info.view().ioapics =~= next.ioapics);
            assert(info.view().overrides =~= next.overrides);
        }
        at = at + len;
    }
    if info.ioapic_count == 0 {
        return None;
    }
    Some(info)
}

/// Whether bytes begin with four letters.
fn starts_with(b: &[u8], sig: [u8; 4]) -> (r: bool)
    requires
        b@.len() >= 4,
    ensures
        r == has_signature(b@, sig@),
{
    b[0] == sig[0] && b[1] == sig[1] && b[2] == sig[2] && b[3] == sig[3]
}

/// Find the root table through the RSDP.
fn find_root<F: Fn(u64, usize) -> Vec<u8>>(rsdp: u64, read: &F) -> (r: Option<(u64, bool)>)
    requires
        exists|m: Contents| reads(*read, m),
    ensures
        forall|m: Contents| #[trigger]
            reads(*read, m) ==> match r {
                Some((at, wide)) => root_of(m, rsdp as int) == Some((at as int, wide)),
                None => root_of(m, rsdp as int) is None,
            },
{
    // Only the first 20 bytes are there in every revision.
    let old_part: Vec<u8> = read(rsdp, 20);
    assert(forall|m: Contents| #[trigger]
        reads(*read, m) ==> old_part@ == window(m, rsdp as int, 20));
    assert(old_part@.len() == 20);
    let b: &[u8] = old_part.as_slice();
    let named: bool = b[0] == 0x52 && b[1] == 0x53 && b[2] == 0x44 && b[3] == 0x20 && b[4] == 0x50
        && b[5] == 0x54 && b[6] == 0x52 && b[7] == 0x20;
    proof {
        assert forall|m: Contents, i: int| #[trigger]
            reads(*read, m) && 0 <= i < 20 implies #[trigger] window(m, rsdp as int, 36)[i] == b@[i] by {
            assert(old_part@ == window(m, rsdp as int, 20));
            assert(window(m, rsdp as int, 20)[i] == m(rsdp + i));
        }
    }
    if !named {
        return None;
    }
    if b[15] >= 2 {
        let whole: Vec<u8> = read(rsdp, 36);
        assert(forall|m: Contents| #[trigger]
            reads(*read, m) ==> whole@ == window(m, rsdp as int, 36));
        assert(whole@.len() == 36);
        let len: usize = u32le(whole.as_slice(), 20) as usize;
        let xsdt: u64 = u64le(whole.as_slice(), 24);
        if 36 <= len && len <= 4096 && xsdt != 0 {
            let all: Vec<u8> = read(rsdp, len);
            if checksum_ok(all.as_slice()) {
                return Some((xsdt, true));
            }
        }
    }
    let rsdt: u32 = u32le(b, 16);
    if !checksum_ok(b) || rsdt == 0 {
        return None;
    }
    Some((rsdt as u64, false))
}

/// Read a table.
fn read_table<F: Fn(u64, usize) -> Vec<u8>>(at: u64, sig: [u8; 4], least: usize, read: &F) -> (r:
    Option<Vec<u8>>)
    requires
        exists|m: Contents| reads(*read, m),
        least >= 36,
    ensures
        forall|m: Contents| #[trigger]
            reads(*read, m) ==> match r {
                Some(t) => table_at(m, at as int, sig@, least as int) == Some(t@),
                None => table_at(m, at as int, sig@, least as int) is None,
            },
        r matches Some(t) ==> least <= t@.len() <= MAX_TABLE,
{
    let head: Vec<u8> = read(at, 36);
    assert(forall|m: Contents| #[trigger] reads(*read, m) ==> head@ == window(m, at as int, 36));
    assert(head@.len() == 36);
    if !starts_with(head.as_slice(), sig) {
        return None;
    }
    let len: usize = u32le(head.as_slice(), 4) as usize;
    if len < least || len > MAX_TABLE {
        return None;
    }
    let all: Vec<u8> = read(at, len);
    assert(forall|m: Contents| #[trigger]
        reads(*read, m) ==> all@ == window(m, at as int, len as int));
    assert(all@.len() == len);
    if !checksum_ok(all.as_slice()) {
        return None;
    }
    Some(all)
}

/// Find the MADT among the tables that a root table points to.
fn find_pointer<F: Fn(u64, usize) -> Vec<u8>>(t: &Vec<u8>, wide: bool, read: &F) -> (r: Option<u64>)
    requires
        exists|m: Contents| reads(*read, m),
        36 <= t@.len() <= MAX_TABLE,
        (t@.len() - 36) % entry_size(wide) == 0,
    ensures
        forall|m: Contents| #[trigger]
            reads(*read, m) ==> match r {
                Some(p) => madt_from(m, t@, 36, wide) == Some(p as int),
                None => madt_from(m, t@, 36, wide) is None,
            },
{
    let total: usize = t.len();
    let size: usize = if wide {
        8
    } else {
        4
    };
    let mut at: usize = 36;
    while at < total
        invariant
            36 <= at <= total,
            total == t@.len(),
            total <= MAX_TABLE,
            size == entry_size(wide),
            (total - at) % entry_size(wide) == 0,
            exists|m: Contents| reads(*read, m),
            forall|m: Contents| #[trigger]
                reads(*read, m) ==> madt_from(m, t@, 36, wide) == madt_from(
                    m,
                    t@,
                    at as int,
                    wide,
                ),
        decreases total - at,
    {
        let p: u64 = if wide {
            u64le(t.as_slice(), at)
        } else {
            u32le(t.as_slice(), at) as u64
        };
        if p != 0 {
            let head: Vec<u8> = read(p, 36);
            assert(forall|m: Contents| #[trigger] reads(*read, m) ==> head@ == window(m, p as int, 36));
            assert(head@.len() == 36);
            let sig: [u8; 4] = [0x41, 0x50, 0x49, 0x43];
            assert(sig@ =~= apic());
            if starts_with(head.as_slice(), sig) {
                return Some(p);
            }
        }
        at = at + size;
    }
    None
}

/// Find and parse the MADT, given where the boot loader says that the RSDP is.
/// `None` where it says nothing, where a table cannot be trusted, or where there
/// is no MADT: the legacy PIC is to be used then.
pub fn find_madt<F: Fn(u64, usize) -> Vec<u8>>(rsdp: Option<u64>, read: &F) -> (r: Option<MadtInfo>)
    requires
        exists|m: Contents| reads(*read, m),
    ensures
        forall|m: Contents| #[trigger]
            reads(*read, m) ==> is_result(
                r,
                match rsdp {
                    Some(at) => if at == 0 {
                        None
                    } else {
                        machine_madt(m, at as int)
                    },
                    None => None,
                },
            ),
{
    let rsdp_addr: u64 = match rsdp {
        Some(at) => at,
        None => {
            return None;
        },
    };
    if rsdp_addr == 0 {
        return None;
    }
    let (root, wide): (u64, bool) = match find_root(rsdp_addr, read) {
        Some(found) => found,
        None => {
            return None;
        },
    };
    let sig: [u8; 4] = if wide {
        [0x58, 0x53, 0x44, 0x54]
    } else {
        [0x52, 0x53, 0x44, 0x54]
    };
    assert(sig@ =~= root_signature(wide));
    let t: Vec<u8> = match read_table(root, sig, 36, read) {
        Some(t) => t,
        None => {
            return None;
        },
    };
    let size: usize = if wide {
        8
    } else {
        4
    };
    if (t.len() - 36) % size != 0 {
        return None;
    }
    let p: u64 = match find_pointer(&t, wide, read) {
        Some(p) => p,
        None => {
            return None;
        },
    };
    let madt_sig: [u8; 4] = [0x41, 0x50, 0x49, 0x43];
    assert(madt_sig@ =~= apic());
    match read_table(p, madt_sig, 44, read) {
        Some(b) => parse_madt(b.as_slice()),
        None => None,
    }
}

} // verus!
