//! Finding USB host controllers on the PCI bus.

use vstd::prelude::*;
use crate::drivers::pci::{
    bar_base, class_of, present, present_functions, read_bar, reads, Config,
};

pub use crate::drivers::pci::PciLocation;

verus! {

#[derive(Clone, Copy, Debug, PartialEq, Eq, Structural)]
pub enum ControllerKind {
    Uhci,
    Ohci,
    Ehci,
    Xhci,
}

/// The kind of USB controller that a programming interface stands for.
pub open spec fn kind_of(prog_if: int) -> Option<ControllerKind> {
    if prog_if == 0x00 {
        Some(ControllerKind::Uhci)
    } else if prog_if == 0x10 {
        Some(ControllerKind::Ohci)
    } else if prog_if == 0x20 {
        Some(ControllerKind::Ehci)
    } else if prog_if == 0x30 {
        Some(ControllerKind::Xhci)
    } else {
        None
    }
}

impl ControllerKind {
    pub open spec fn text(self) -> Seq<char> {
        match self {
            ControllerKind::Uhci => "UHCI"@,
            ControllerKind::Ohci => "OHCI"@,
            ControllerKind::Ehci => "EHCI"@,
            ControllerKind::Xhci => "xHCI"@,
        }
    }

    pub fn name(self) -> (r: &'static str)
        ensures
            r@ == self.text(),
    {
        match self {
            ControllerKind::Uhci => "UHCI",
            ControllerKind::Ohci => "OHCI",
            ControllerKind::Ehci => "EHCI",
            ControllerKind::Xhci => "xHCI",
        }
    }

    fn from_prog_if(prog_if: u8) -> (r: Option<ControllerKind>)
        ensures
            r == kind_of(prog_if as int),
    {
        match prog_if {
            0x00 => Some(ControllerKind::Uhci),
            0x10 => Some(ControllerKind::Ohci),
            0x20 => Some(ControllerKind::Ehci),
            0x30 => Some(ControllerKind::Xhci),
            _ => None,
        }
    }
}

#[derive(Clone, Copy, Debug, PartialEq, Eq, Structural)]
pub struct UsbController {
    pub location: PciLocation,
    pub kind: ControllerKind,
    /// Physical base address from BAR0.
    pub mmio_base: u64,
}

/// The USB controller that a function is, if it is one: class 0x0c, subclass
/// 0x03.
pub open spec fn usb_at(c: Config, loc: PciLocation) -> Option<UsbController> {
    if class_of(c, loc) / 0x100 != 0x0c03 {
        None
    } else {
        match kind_of(class_of(c, loc) % 0x100) {
            Some(kind) => Some(
                UsbController { location: loc, kind, mmio_base: bar_base(c, loc, 0x10) as u64 },
            ),
            None => None,
        }
    }
}

/// The USB controllers among functions.
pub open spec fn usb_among(c: Config, l: Seq<PciLocation>) -> Seq<UsbController>
    decreases l.len(),
{
    if l.len() == 0 {
        Seq::empty()
    } else {
        let before = usb_among(c, l.drop_last());
        match usb_at(c, l.last()) {
            Some(u) => before.push(u),
            None => before,
        }
    }
}

/// All USB controllers on the bus, in the order of their locations.
pub open spec fn usb_controllers(c: Config) -> Seq<UsbController> {
    usb_among(c, present(c, 8192))
}

/// Find all USB controllers on the bus.
pub fn find_usb_controllers<F: Fn(PciLocation, u8) -> u32>(read: &F) -> (r: Vec<UsbController>)
    requires
        exists|c: Config| reads(*read, c),
    ensures
        forall|c: Config| #[trigger] reads(*read, c) ==> r@ == usb_controllers(c),
{
    let all: Vec<PciLocation> = present_functions(read);
    let n: usize = all.len();
    let mut found: Vec<UsbController> = Vec::new();
    let mut i: usize = 0;
    assert(all@.take(0) =~= Seq::empty());
    while i < n
        invariant
            i <= n,
            n == all@.len(),
            exists|c: Config| reads(*read, c),
            forall|c: Config| #[trigger]
                reads(*read, c) ==> found@ == usb_among(c, all@.take(i as int)),
        decreases n - i,
    {
        let loc: PciLocation = all[i];
        let class: u32 = read(loc, 0x08) / 0x100;
        if class / 0x100 == 0x0c03 {
            match ControllerKind::from_prog_if((class % 0x100) as u8) {
                Some(kind) => {
                    let mmio_base: u64 = read_bar(read, loc, 0x10);
                    found.push(UsbController { location: loc, kind, mmio_base });
                },
                None => {},
            }
        }
        proof {
            assert(all@.take(i + 1).drop_last() =~= all@.take(i as int));
        }
        i += 1;
    }
    assert(all@.take(n as int) =~= all@);
    found
}

/// The command register of a function with memory decoding and bus mastering
/// enabled.
pub fn with_bus_master(command: u16) -> (r: u16)
    ensures
        r == command | 6,
{
    command | 6
}

/// The USB controllers that are found are the functions of class 0x0c and subclass 3 with one
/// of the four programming interfaces, and their registers are where the first base address
/// says.
pub proof fn law_usb_controllers(c: Config, l: Seq<PciLocation>, u: UsbController)
    ensures
        usb_among(c, l).contains(u) <==> l.contains(u.location) && u.mmio_base == bar_base(
            c,
            u.location,
            0x10,
        ) as u64 && ({
            let code = c(u.location, 8) / 0x100;
            ||| code == 0x0c_0300 && u.kind == ControllerKind::Uhci
            ||| code == 0x0c_0310 && u.kind == ControllerKind::Ohci
            ||| code == 0x0c_0320 && u.kind == ControllerKind::Ehci
            ||| code == 0x0c_0330 && u.kind == ControllerKind::Xhci
        }),
    decreases l.len(),
{
    if l.len() > 0 {
        let short = l.drop_last();
        let before = usb_among(c, short);
        let all = usb_among(c, l);
        law_usb_controllers(c, short, u);
        assert(l[l.len() - 1] == l.last());
        if l.contains(u.location) {
            let k = choose|k: int| 0 <= k < l.len() && l[k] == u.location;
            if k < short.len() {
                assert(short[k] == u.location);
            }
        }
        if short.contains(u.location) {
            let k = choose|k: int| 0 <= k < short.len() && short[k] == u.location;
            assert(l[k] == u.location);
        }
        if before.contains(u) {
            let k = choose|k: int| 0 <= k < before.len() && before[k] == u;
            assert(all[k] == u);
        }
        if all.contains(u) {
            let k = choose|k: int| 0 <= k < all.len() && all[k] == u;
            if k < before.len() {
                assert(before[k] == u);
            }
        }
        if usb_at(c, l.last()) == Some(u) {
            assert(all[all.len() - 1] == u);
        }
    }
}

} // verus!
