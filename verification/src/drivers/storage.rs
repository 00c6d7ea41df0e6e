//! Storage controllers on the PCI bus.

use vstd::prelude::*;
use super::pci::{
    bar_base, class_of, is_wide, present, present_functions, read_bar, reads, Config, PciLocation,
};

verus! {

/// The interfaces that there is a driver for.
#[derive(Clone, Copy, Debug, PartialEq, Eq, Structural)]
pub enum StorageKind {
    Ahci,
    Nvme,
}

/// A controller: where it is, and where its registers are.
#[derive(Clone, Copy, Debug, PartialEq, Eq, Structural)]
pub struct StorageController {
    pub location: PciLocation,
    pub mmio_base: u64,
}

impl StorageKind {
    /// Class, subclass and programming interface.
    pub open spec fn class(self) -> int {
        match self {
            StorageKind::Ahci => 0x01_0601,
            StorageKind::Nvme => 0x01_0802,
        }
    }

    /// The BAR that the registers are behind.
    pub open spec fn bar(self) -> int {
        match self {
            StorageKind::Ahci => 0x24,
            StorageKind::Nvme => 0x10,
        }
    }
}

/// The controller that a function is, if it is one whose registers are in memory; an
/// NVMe controller's BAR is 64 bits wide.
pub open spec fn storage_at(c: Config, kind: StorageKind, loc: PciLocation) -> Option<
    StorageController,
> {
    let base = bar_base(c, loc, kind.bar());
    if class_of(c, loc) != kind.class() || base == 0 || (kind == StorageKind::Nvme && !is_wide(
        c(loc, 0x10),
    )) {
        None
    } else {
        Some(StorageController { location: loc, mmio_base: base as u64 })
    }
}

/// The controllers among functions.
pub open spec fn storage_among(c: Config, kind: StorageKind, l: Seq<PciLocation>) -> Seq<
    StorageController,
>
    decreases l.len(),
{
    if l.len() == 0 {
        Seq::empty()
    } else {
        let before = storage_among(c, kind, l.drop_last());
        match storage_at(c, kind, l.last()) {
            Some(s) => before.push(s),
            None => before,
        }
    }
}

/// Find all controllers of a kind on the bus, in the order of their locations.
pub fn find_controllers<F: Fn(PciLocation, u8) -> u32>(read: &F, kind: StorageKind) -> (r: Vec<
    StorageController,
>)
    requires
        exists|c: Config| reads(*read, c),
    ensures
        forall|c: Config| #[trigger]
            reads(*read, c) ==> r@ == storage_among(c, kind, present(c, 8192)),
{
    let all: Vec<PciLocation> = present_functions(read);
    let n: usize = all.len();
    let class: u32 = match kind {
        StorageKind::Ahci => 0x01_0601,
        StorageKind::Nvme => 0x01_0802,
    };
    let bar: u8 = match kind {
        StorageKind::Ahci => 0x24,
        StorageKind::Nvme => 0x10,
    };
    let mut found: Vec<StorageController> = Vec::new();
    let mut i: usize = 0;
    assert(all@.take(0) =~= Seq::empty());
    while i < n
        invariant
            i <= n,
            n == all@.len(),
            class == kind.class(),
            bar == kind.bar(),
            exists|c: Config| reads(*read, c),
            forall|c: Config| #[trigger]
                reads(*read, c) ==> found@ == storage_among(c, kind, all@.take(i as int)),
        decreases n - i,
    {
        let loc: PciLocation = all[i];
        if read(loc, 0x08) / 0x100 == class {
            let mmio_base: u64 = read_bar(read, loc, bar);
            let narrow: bool = match kind {
                StorageKind::Ahci => false,
                StorageKind::Nvme => read(loc, 0x10) / 2 % 4 != 2,
            };
            if mmio_base != 0 && !narrow {
                found.push(StorageController { location: loc, mmio_base });
            }
        }
        proof {
            assert(all@.take(i + 1).drop_last() =~= all@.take(i as int));
        }
        i += 1;
    }
    assert(all@.take(n as int) =~= all@);
    found
}

/// The controllers that are found are the functions of the class, each where it is, with the
/// address of its registers, and in their order.
pub proof fn law_controllers_are_found(c: Config, kind: StorageKind, l: Seq<PciLocation>, i: int)
    requires
        0 <= i < l.len(),
    ensures
        storage_among(c, StorageKind::Ahci, l).contains(
            StorageController {
                location: l[i],
                mmio_base: bar_base(c, l[i], 0x24) as u64,
            },
        ) <== c(l[i], 8) / 0x100 == 0x01_0601 && bar_base(c, l[i], 0x24) != 0,
        storage_among(c, StorageKind::Nvme, l).contains(
            StorageController {
                location: l[i],
                mmio_base: bar_base(c, l[i], 0x10) as u64,
            },
        ) <== c(l[i], 8) / 0x100 == 0x01_0802 && bar_base(c, l[i], 0x10) != 0 && c(l[i], 0x10) % 8
            == 4,
        storage_among(c, kind, l) == storage_among(c, kind, l.take(i)) + storage_among(
            c,
            kind,
            l.skip(i),
        ),
    decreases l.len(),
{
    lemma_among(c, StorageKind::Ahci, l, i);
    lemma_among(c, StorageKind::Nvme, l, i);
    lemma_parted(c, kind, l.take(i), l.skip(i));
    assert(l.take(i) + l.skip(i) =~= l);
}

/// Nothing else is found.
pub proof fn law_only_controllers_are_found(c: Config, l: Seq<PciLocation>, s: StorageController)
    ensures
        storage_among(c, StorageKind::Ahci, l).contains(s) ==> l.contains(s.location) && c(
            s.location,
            8,
        ) / 0x100 == 0x01_0601,
        storage_among(c, StorageKind::Nvme, l).contains(s) ==> l.contains(s.location) && c(
            s.location,
            8,
        ) / 0x100 == 0x01_0802,
    decreases l.len(),
{
    if l.len() > 0 {
        law_only_controllers_are_found(c, l.drop_last(), s);
        assert(l.drop_last().contains(s.location) ==> l.contains(s.location)) by {
            if l.drop_last().contains(s.location) {
                let k = choose|k: int| 0 <= k < l.drop_last().len() && l.drop_last()[k] == s.location;
                assert(l[k] == s.location);
            }
        }
        assert(l[l.len() - 1] == l.last());
        lemma_grown(c, StorageKind::Ahci, l, s);
        lemma_grown(c, StorageKind::Nvme, l, s);
    }
}

proof fn lemma_grown(c: Config, kind: StorageKind, l: Seq<PciLocation>, s: StorageController)
    requires
        l.len() > 0,
    ensures
        storage_among(c, kind, l).contains(s) ==> storage_among(c, kind, l.drop_last()).contains(s)
            || storage_at(c, kind, l.last()) == Some(s),
{
    let all = storage_among(c, kind, l);
    let before = storage_among(c, kind, l.drop_last());
    if all.contains(s) {
        let k = choose|k: int| 0 <= k < all.len() && all[k] == s;
        if k < before.len() {
            assert(before[k] == s);
        }
    }
}

proof fn lemma_among(c: Config, kind: StorageKind, l: Seq<PciLocation>, i: int)
    requires
        0 <= i < l.len(),
    ensures
        storage_at(c, kind, l[i]) matches Some(s) ==> storage_among(c, kind, l).contains(s),
    decreases l.len(),
{
    let all = storage_among(c, kind, l);
    if let Some(s) = storage_at(c, kind, l[i]) {
        if i == l.len() - 1 {
            assert(all[all.len() - 1] == s);
        } else {
            lemma_among(c, kind, l.drop_last(), i);
            assert(l.drop_last()[i] == l[i]);
            let before = storage_among(c, kind, l.drop_last());
            let k = choose|k: int| 0 <= k < before.len() && before[k] == s;
            assert(all[k] == s);
        }
    }
}

proof fn lemma_parted(c: Config, kind: StorageKind, a: Seq<PciLocation>, b: Seq<PciLocation>)
    ensures
        storage_among(c, kind, a + b) == storage_among(c, kind, a) + storage_among(c, kind, b),
    decreases b.len(),
{
    if b.len() == 0 {
        assert(a + b =~= a);
        assert(storage_among(c, kind, a) + storage_among(c, kind, b) =~= storage_among(c, kind, a));
    } else {
        lemma_parted(c, kind, a, b.drop_last());
        assert((a + b).drop_last() =~= a + b.drop_last());
        assert(storage_among(c, kind, a + b) =~= storage_among(c, kind, a) + storage_among(c, kind, b));
    }
}

} // verus!
