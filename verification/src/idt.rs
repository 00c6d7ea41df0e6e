//! The interrupt descriptor table, and what is done about an interrupt.

use vstd::prelude::*;
use crate::gdt::{DOUBLE_FAULT_IST, KERNEL_CS};
use crate::interrupts::{end_of_interrupt, Controller, Routing};

pub mod report;

verus! {

pub const IDT_ENTRIES: usize = 256;

pub const GATE_INTERRUPT: u8 = 0x8e;

/// Vector that the first interrupt line lands on.
pub const IRQ_BASE: usize = 32;

pub const IRQ_COUNT: usize = 16;

pub const TOTAL_VECTORS: usize = 48;

/// An entry: where a vector's handler is, in three pieces, and how it is entered.
#[derive(Clone, Copy, Debug, PartialEq, Eq, Structural)]
pub struct Entry {
    pub offset_low: u16,
    pub selector: u16,
    pub ist: u8,
    pub type_attr: u8,
    pub offset_mid: u16,
    pub offset_high: u32,
    pub reserved: u32,
}

impl Entry {
    /// The address that the entry leads to.
    pub open spec fn handler(self) -> int {
        self.offset_low + 0x1_0000 * self.offset_mid + 0x1_0000_0000 * self.offset_high
    }

    /// An entry that leads nowhere.
    pub open spec fn missing() -> Entry {
        Entry {
            offset_low: 0,
            selector: 0,
            ist: 0,
            type_attr: 0,
            offset_mid: 0,
            offset_high: 0,
            reserved: 0,
        }
    }

    pub fn new(handler: u64, selector: u16, ist: u8, type_attr: u8) -> (r: Entry)
        ensures
            r.handler() == handler,
            r.selector == selector,
            r.ist == ist,
            r.type_attr == type_attr,
            r.reserved == 0,
    {
        Entry {
            offset_low: (handler % 0x1_0000) as u16,
            selector,
            ist,
            type_attr,
            offset_mid: (handler / 0x1_0000 % 0x1_0000) as u16,
            offset_high: (handler / 0x1_0000_0000) as u32,
            reserved: 0,
        }
    }
}

/// The stack that a vector's handler runs on; the double fault has its own.
pub open spec fn stack_of(vector: int) -> u8 {
    if vector == 8 {
        DOUBLE_FAULT_IST
    } else {
        0
    }
}

/// The table: an entry for each of the processor's exceptions and each interrupt
/// line, to the stub that is given for it; the others lead nowhere.
pub fn init(stubs: &[u64]) -> (r: Vec<Entry>)
    requires
        stubs@.len() == TOTAL_VECTORS,
    ensures
        r@.len() == IDT_ENTRIES,
        forall|v: int|
            0 <= v < TOTAL_VECTORS ==> {
                &&& (#[trigger] r@[v]).handler() == stubs@[v]
                &&& r@[v].selector == KERNEL_CS
                &&& r@[v].ist == stack_of(v)
                &&& r@[v].type_attr == GATE_INTERRUPT
                &&& r@[v].reserved == 0
            },
        forall|v: int|
            TOTAL_VECTORS <= v < IDT_ENTRIES ==> #[trigger] r@[v] == Entry::missing(),
{
    let mut r: Vec<Entry> = Vec::new();
    let mut v: usize = 0;
    while v < TOTAL_VECTORS
        invariant
            stubs@.len() == TOTAL_VECTORS,
            v <= TOTAL_VECTORS,
            r@.len() == v,
            forall|i: int|
                0 <= i < v ==> {
                    &&& (#[trigger] r@[i]).handler() == stubs@[i]
                    &&& r@[i].selector == KERNEL_CS
                    &&& r@[i].ist == stack_of(i)
                    &&& r@[i].type_attr == GATE_INTERRUPT
                    &&& r@[i].reserved == 0
                },
        decreases TOTAL_VECTORS - v,
    {
        let ist: u8 = if v == 8 {
            DOUBLE_FAULT_IST
        } else {
            0
        };
        r.push(Entry::new(stubs[v], KERNEL_CS, ist, GATE_INTERRUPT));
        v += 1;
    }
    while v < IDT_ENTRIES
        invariant
            stubs@.len() == TOTAL_VECTORS,
            TOTAL_VECTORS <= v <= IDT_ENTRIES,
            r@.len() == v,
            forall|i: int|
                0 <= i < TOTAL_VECTORS ==> {
                    &&& (#[trigger] r@[i]).handler() == stubs@[i]
                    &&& r@[i].selector == KERNEL_CS
                    &&& r@[i].ist == stack_of(i)
                    &&& r@[i].type_attr == GATE_INTERRUPT
                    &&& r@[i].reserved == 0
                },
            forall|i: int| TOTAL_VECTORS <= i < v ==> #[trigger] r@[i] == Entry::missing(),
        decreases IDT_ENTRIES - v,
    {
        r.push(Entry::new(0, 0, 0, 0));
        v += 1;
    }
    r
}

/// What is to run when each interrupt line fires.
pub struct IrqHandlers<T> {
    pub slots: Vec<Option<T>>,
}

impl<T: Copy> IrqHandlers<T> {
    pub open spec fn wf(self) -> bool {
        self.slots@.len() == IRQ_COUNT
    }

    pub fn new() -> (r: Self)
        ensures
            r.wf(),
            forall|i: int| 0 <= i < IRQ_COUNT ==> #[trigger] r.slots@[i] is None,
    {
        let mut slots: Vec<Option<T>> = Vec::new();
        while slots.len() < IRQ_COUNT
            invariant
                slots@.len() <= IRQ_COUNT,
                forall|i: int| 0 <= i < slots@.len() ==> #[trigger] slots@[i] is None,
            decreases IRQ_COUNT - slots@.len(),
        {
            slots.push(None);
        }
        IrqHandlers { slots }
    }
}

/// Let a handler run whenever a line fires. This does not unmask the line.
pub fn register_irq<T: Copy>(handlers: &mut IrqHandlers<T>, irq: u8, handler: T)
    requires
        old(handlers).wf(),
        irq < IRQ_COUNT,
    ensures
        final(handlers).wf(),
        final(handlers).slots@ == old(handlers).slots@.update(irq as int, Some(handler)),
{
    handlers.slots[irq as usize] = Some(handler);
}

/// What the stubs leave on the stack: the registers, the vector and the error code,
/// and what the processor put there itself.
#[derive(Clone, Copy, Debug, PartialEq, Eq, Structural)]
pub struct InterruptFrame {
    pub r15: u64,
    pub r14: u64,
    pub r13: u64,
    pub r12: u64,
    pub r11: u64,
    pub r10: u64,
    pub r9: u64,
    pub r8: u64,
    pub rbp: u64,
    pub rdi: u64,
    pub rsi: u64,
    pub rdx: u64,
    pub rcx: u64,
    pub rbx: u64,
    pub rax: u64,
    pub vector: u64,
    pub error_code: u64,
    pub rip: u64,
    pub cs: u64,
    pub rflags: u64,
    pub rsp: u64,
    pub ss: u64,
}

/// What is done about an interrupt.
#[derive(Clone, Copy, Debug, PartialEq, Eq, Structural)]
pub enum Response {
    /// An interrupt line fired.
    Line(u8),
    /// The program that was running goes, with this exit status.
    KillProcess(i64),
    /// A breakpoint is noted, and the code goes on.
    Breakpoint,
    /// The kernel cannot go on.
    Halt,
}

/// Whether an exception says that something is wrong with the machine, whoever was
/// running: a non-maskable interrupt, a double fault, a machine check.
pub open spec fn is_machine_fault(vector: int) -> bool {
    vector == 2 || vector == 8 || vector == 18
}

/// An exception in a program is that program's problem, not the kernel's; its exit
/// status follows the convention for death by a signal.
pub open spec fn response(f: InterruptFrame) -> Response {
    if f.vector >= IRQ_BASE {
        Response::Line((f.vector - IRQ_BASE) as u8)
    } else if f.cs % 4 == 3 && !is_machine_fault(f.vector as int) {
        Response::KillProcess((128 + f.vector) as i64)
    } else if f.vector == 3 {
        Response::Breakpoint
    } else {
        Response::Halt
    }
}

pub fn exception_handler(frame: &InterruptFrame) -> (r: Response)
    requires
        frame.vector < TOTAL_VECTORS,
    ensures
        r == response(*frame),
{
    let v: u64 = frame.vector;
    if v >= IRQ_BASE as u64 {
        return Response::Line((v - IRQ_BASE as u64) as u8);
    }
    if frame.cs % 4 == 3 && !(v == 2 || v == 8 || v == 18) {
        return Response::KillProcess(128 + v as i64);
    }
    if v == 3 {
        Response::Breakpoint
    } else {
        Response::Halt
    }
}

/// What runs for a line, if anything does, and which controller is then told that
/// the interrupt has been served.
pub fn irq_dispatch<T: Copy>(handlers: &IrqHandlers<T>, routing: &Routing, irq: u8) -> (r: (
    Option<T>,
    Controller,
))
    requires
        handlers.wf(),
        irq < IRQ_COUNT,
    ensures
        r.0 == handlers.slots@[irq as int],
        r.1 == if routing.apic {
            Controller::LocalApic
        } else {
            Controller::Pic
        },
{
    (handlers.slots[irq as usize], end_of_interrupt(routing))
}

/// A handler runs for its own line and for no other, until another takes its place.
pub proof fn law_registered_handler_runs<T: Copy>(
    before: IrqHandlers<T>,
    after: IrqHandlers<T>,
    irq: u8,
    handler: T,
    line: u8,
)
    requires
        before.wf(),
        irq < IRQ_COUNT,
        line < IRQ_COUNT,
        after.slots@ == before.slots@.update(irq as int, Some(handler)),
    ensures
        after.wf(),
        after.slots@[line as int] == if line == irq {
            Some(handler)
        } else {
            before.slots@[line as int]
        },
{
}

/// A fault in a program never stops the kernel, except where the machine itself is
/// at fault; a fault in the kernel never ends a program.
pub proof fn law_user_faults_are_contained(f: InterruptFrame)
    requires
        f.vector < IRQ_BASE,
    ensures
        f.cs % 4 == 3 && !is_machine_fault(f.vector as int) ==> response(f) is KillProcess,
        f.cs % 4 != 3 ==> !(response(f) is KillProcess),
        is_machine_fault(f.vector as int) ==> response(f) is Halt,
{
}

/// What each vector comes to: a fault in a program ends it with the status 128 and the number
/// of the fault, but for a non-maskable interrupt, a double fault and a machine check; the
/// vectors from 32 on are the interrupt lines, in their order; a breakpoint in the kernel is
/// gone on from.
pub proof fn law_vectors(f: InterruptFrame)
    requires
        f.vector < 48,
    ensures
        f.vector >= 32 ==> (response(f) matches Response::Line(n) && n + 32 == f.vector),
        f.vector < 32 && f.cs % 4 == 3 && f.vector != 2 && f.vector != 8 && f.vector != 18 ==> (
        response(f) matches Response::KillProcess(code) && code == 128 + f.vector),
        f.vector == 3 && f.cs % 4 != 3 ==> response(f) is Breakpoint,
        f.vector == 2 || f.vector == 8 || f.vector == 18 ==> response(f) is Halt,
        f.vector < 32 && f.vector != 3 && f.cs % 4 != 3 ==> response(f) is Halt,
{
}

} // verus!
