//! USB keyboards behind xHCI controllers.

use vstd::prelude::*;
use crate::drivers::pci::{reads, Config, PciLocation};
use self::pci::{find_usb_controllers, usb_controllers, ControllerKind, UsbController};

pub mod pci;
pub mod xhci;

verus! {

/// The first xHCI controller of a list, from place `i` on.
pub open spec fn first_xhci(c: Seq<UsbController>, i: int) -> Option<UsbController>
    decreases c.len() - i,
{
    if i < 0 || i >= c.len() {
        None
    } else if c[i].kind == ControllerKind::Xhci {
        Some(c[i])
    } else {
        first_xhci(c, i + 1)
    }
}

/// Discover USB host controllers and choose the one to start: the first xHCI
/// controller. All that were found come with it.
pub fn init<F: Fn(PciLocation, u8) -> u32>(read: &F) -> (r: (
    Vec<UsbController>,
    Option<UsbController>,
))
    requires
        exists|c: Config| reads(*read, c),
    ensures
        forall|c: Config| #[trigger] reads(*read, c) ==> r.0@ == usb_controllers(c),
        r.1 == first_xhci(r.0@, 0),
{
    let controllers: Vec<UsbController> = find_usb_controllers(read);
    let n: usize = controllers.len();
    let mut i: usize = 0;
    while i < n
        invariant
            i <= n,
            n == controllers@.len(),
            forall|c: Config| #[trigger]
                reads(*read, c) ==> controllers@ == usb_controllers(c),
            first_xhci(controllers@, 0) == first_xhci(controllers@, i as int),
        decreases n - i,
    {
        let c: UsbController = controllers[i];
        if c.kind == ControllerKind::Xhci {
            return (controllers, Some(c));
        }
        i += 1;
    }
    (controllers, None)
}

/// The controller that is started is the first xHCI controller of all.
pub proof fn law_first_xhci(c: Seq<UsbController>, i: int)
    requires
        0 <= i <= c.len(),
    ensures
        match first_xhci(c, i) {
            Some(u) => exists|k: int|
                i <= k < c.len() && #[trigger] c[k] == u && u.kind == ControllerKind::Xhci && forall|
                    j: int,
                |
                    i <= j < k ==> (#[trigger] c[j]).kind != ControllerKind::Xhci,
            None => forall|k: int| i <= k < c.len() ==> (#[trigger] c[k]).kind != ControllerKind::Xhci,
        },
    decreases c.len() - i,
{
    if i < c.len() && c[i].kind != ControllerKind::Xhci {
        law_first_xhci(c, i + 1);
        if let Some(u) = first_xhci(c, i + 1) {
            let k = choose|k: int|
                i + 1 <= k < c.len() && #[trigger] c[k] == u && forall|j: int|
                    i + 1 <= j < k ==> (#[trigger] c[j]).kind != ControllerKind::Xhci;
            assert(c[k] == u);
        }
    }
}

} // verus!
