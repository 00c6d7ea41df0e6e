//! Just enough PCI to find controllers.
//!
//! Configuration space is read through port I/O, so what a register holds comes
//! from a function of the caller's.

use vstd::prelude::*;

verus! {

#[derive(Clone, Copy, Debug, PartialEq, Eq, Structural)]
pub struct PciLocation {
    pub bus: u8,
    pub device: u8,
    pub function: u8,
}

/// What each register of configuration space holds.
pub type Config = spec_fn(PciLocation, u8) -> u32;

/// Whether a function reads configuration space, which does not change meanwhile
/// and holds `c`.
pub open spec fn reads<F: Fn(PciLocation, u8) -> u32>(read: F, c: Config) -> bool {
    &&& forall|l: PciLocation, o: u8| #[trigger] read.requires((l, o))
    &&& forall|l: PciLocation, o: u8, v: u32| #[trigger] read.ensures((l, o), v) ==> v == c(l, o)
}

/// The word that selects a register of configuration space.
pub open spec fn address_of(loc: PciLocation, offset: u8) -> int {
    0x8000_0000 + loc.bus * 0x1_0000 + (loc.device % 32) * 0x800 + (loc.function % 8) * 0x100 + offset
        / 4 * 4
}

/// The word that selects a register of configuration space.
pub fn config_address(loc: PciLocation, offset: u8) -> (r: u32)
    requires
        loc.device < 32,
        loc.function < 8,
    ensures
        r == address_of(loc, offset),
{
    0x8000_0000 + loc.bus as u32 * 0x1_0000 + loc.device as u32 * 0x800 + loc.function as u32 * 0x100
        + (offset / 4) as u32 * 4
}

/// Whether there is a function at a location.
pub open spec fn is_present(c: Config, loc: PciLocation) -> bool {
    c(loc, 0) % 0x1_0000 != 0xffff
}

/// Whether a device has more than one function.
pub open spec fn is_multifunction(c: Config, loc: PciLocation) -> bool {
    c(loc, 0x0c) / 0x80_0000 % 2 == 1
}

/// The functions of a device that are there, below function `n`.
pub open spec fn functions(c: Config, bus: u8, device: u8, n: int) -> Seq<PciLocation>
    decreases n,
{
    if n <= 0 {
        Seq::empty()
    } else {
        let loc = PciLocation { bus, device, function: (n - 1) as u8 };
        let before = functions(c, bus, device, n - 1);
        if is_present(c, loc) {
            before.push(loc)
        } else {
            before
        }
    }
}

/// The functions of the device at a slot: none where its function 0 is missing,
/// only that one where it does not have several.
pub open spec fn device_functions(c: Config, bus: u8, device: u8) -> Seq<PciLocation> {
    let first = PciLocation { bus, device, function: 0 };
    if !is_present(c, first) {
        Seq::empty()
    } else if is_multifunction(c, first) {
        functions(c, bus, device, 8)
    } else {
        functions(c, bus, device, 1)
    }
}

/// All functions in the first `n` slots, where slot `n` is device `n % 32` of bus
/// `n / 32`.
pub open spec fn present(c: Config, n: int) -> Seq<PciLocation>
    decreases n,
{
    if n <= 0 {
        Seq::empty()
    } else {
        present(c, n - 1) + device_functions(c, ((n - 1) / 32) as u8, ((n - 1) % 32) as u8)
    }
}

/// Find every function on the bus: 256 buses of 32 devices of up to 8 functions.
pub fn present_functions<F: Fn(PciLocation, u8) -> u32>(read: &F) -> (r: Vec<PciLocation>)
    requires
        exists|c: Config| reads(*read, c),
    ensures
        forall|c: Config| #[trigger] reads(*read, c) ==> r@ == present(c, 8192),
        forall|i: int| 0 <= i < r@.len() ==> (#[trigger] r@[i]).device < 32 && r@[i].function < 8,
{
    let mut found: Vec<PciLocation> = Vec::new();
    let mut slot: u32 = 0;
    while slot < 8192
        invariant
            slot <= 8192,
            exists|c: Config| reads(*read, c),
            forall|c: Config| #[trigger] reads(*read, c) ==> found@ == present(c, slot as int),
            forall|i: int|
                0 <= i < found@.len() ==> (#[trigger] found@[i]).device < 32 && found@[i].function
                    < 8,
        decreases 8192 - slot,
    {
        let bus: u8 = (slot / 32) as u8;
        let device: u8 = (slot % 32) as u8;
        let first: PciLocation = PciLocation { bus, device, function: 0 };
        let ghost before = found@;
        if read(first, 0) % 0x1_0000 != 0xffff {
            let count: u8 = if read(first, 0x0c) / 0x80_0000 % 2 == 1 {
                8
            } else {
                1
            };
            let mut function: u8 = 0;
            assert forall|c: Config| #[trigger] reads(*read, c) implies found@ == before
                + functions(c, bus, device, 0) by {
                assert(found@ =~= before + functions(c, bus, device, 0));
            }
            while function < count
                invariant
                    function <= count <= 8,
                    device < 32,
                    exists|c: Config| reads(*read, c),
                    forall|c: Config| #[trigger]
                        reads(*read, c) ==> found@ == before + functions(
                            c,
                            bus,
                            device,
                            function as int,
                        ),
                    forall|i: int|
                        0 <= i < found@.len() ==> (#[trigger] found@[i]).device < 32
                            && found@[i].function < 8,
                decreases count - function,
            {
                let loc: PciLocation = PciLocation { bus, device, function };
                if read(loc, 0) % 0x1_0000 != 0xffff {
                    found.push(loc);
                }
                function += 1;
                assert forall|c: Config| #[trigger] reads(*read, c) implies found@ == before
                    + functions(c, bus, device, function as int) by {
                    assert(found@ =~= before + functions(c, bus, device, function as int));
                }
            }
        }
        assert forall|c: Config| #[trigger] reads(*read, c) implies found@ == present(
            c,
            slot + 1,
        ) by {
            assert(found@ =~= before + device_functions(c, bus, device));
        }
        slot += 1;
    }
    found
}

/// Class, subclass and programming interface of a function, as one number.
pub open spec fn class_of(c: Config, loc: PciLocation) -> int {
    c(loc, 0x08) as int / 0x100
}

/// The base address in a memory BAR at `offset`; zero for an I/O BAR. A 64-bit
/// one takes the next register too.
pub open spec fn bar_base(c: Config, loc: PciLocation, offset: int) -> int {
    let low = c(loc, offset as u8);
    if low % 2 == 1 {
        0
    } else if is_wide(low) {
        low / 16 * 16 + c(loc, (offset + 4) as u8) * 0x1_0000_0000
    } else {
        low as int / 16 * 16
    }
}

/// Whether a BAR says it is 64 bits wide.
pub open spec fn is_wide(low: u32) -> bool {
    low / 2 % 4 == 2
}

/// Read the base address in a memory BAR.
pub fn read_bar<F: Fn(PciLocation, u8) -> u32>(
    read: &F,
    loc: PciLocation,
    offset: u8,
) -> (r: u64)
    requires
        exists|c: Config| reads(*read, c),
        offset <= 0x24,
    ensures
        forall|c: Config| #[trigger] reads(*read, c) ==> r == bar_base(c, loc, offset as int),
{
    let low: u32 = read(loc, offset);
    if low % 2 == 1 {
        return 0;
    }
    let base: u64 = (low / 16 * 16) as u64;
    if low / 2 % 4 == 2 {
        let high: u32 = read(loc, offset + 4);
        base + high as u64 * 0x1_0000_0000
    } else {
        base
    }
}

} // verus!
