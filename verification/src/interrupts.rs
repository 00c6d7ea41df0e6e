//! Runtime selection between the legacy 8259 PIC and ACPI-discovered APICs.

use vstd::prelude::*;

verus! {

/// Which interrupt controllers are in use.
#[derive(Clone, Copy, Debug, PartialEq, Eq, Structural)]
pub struct Routing {
    pub apic: bool,
}

/// The controller that is to be told of an IRQ.
#[derive(Clone, Copy, Debug, PartialEq, Eq, Structural)]
pub enum Controller {
    IoApic,
    LocalApic,
    Pic,
}

/// Switch ISA IRQ requests and acknowledgements to the APIC backend. Call only
/// after the Local APIC and all I/O APICs are initialized.
pub fn use_apic(routing: &mut Routing)
    ensures
        final(routing).apic,
{
    routing.apic = true;
}

pub fn using_apic(routing: &Routing) -> (r: bool)
    ensures
        r == routing.apic,
{
    routing.apic
}

/// The controller that lets an ISA IRQ through.
pub fn unmask_isa_irq(routing: &Routing) -> (r: Controller)
    ensures
        r == if routing.apic {
            Controller::IoApic
        } else {
            Controller::Pic
        },
{
    if using_apic(routing) {
        Controller::IoApic
    } else {
        Controller::Pic
    }
}

/// The controller that stops an ISA IRQ.
pub fn mask_isa_irq(routing: &Routing) -> (r: Controller)
    ensures
        r == if routing.apic {
            Controller::IoApic
        } else {
            Controller::Pic
        },
{
    if using_apic(routing) {
        Controller::IoApic
    } else {
        Controller::Pic
    }
}

/// The controller at which an interrupt is acknowledged.
pub fn end_of_interrupt(routing: &Routing) -> (r: Controller)
    ensures
        r == if routing.apic {
            Controller::LocalApic
        } else {
            Controller::Pic
        },
{
    if using_apic(routing) {
        Controller::LocalApic
    } else {
        Controller::Pic
    }
}

} // verus!
