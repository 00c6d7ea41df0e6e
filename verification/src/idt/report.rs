//! What is said of an exception, in the log and on the screen.

use vstd::prelude::*;
use crate::pmm::PhysicalMemory;
use crate::text::{decimal, hex, hex0x, push_decimal, push_hex, push_hex0x, push_text};
use crate::vmm::{is_kernel_space, kernel_walked, try_translate, Vmm};
use super::InterruptFrame;

verus! {

/// The name of an exception.
pub open spec fn name_of(v: int) -> Seq<char> {
    if v == 0 {
        "Divide Error (#DE)"@
    } else if v == 1 {
        "Debug (#DB)"@
    } else if v == 2 {
        "Non-Maskable Interrupt (NMI)"@
    } else if v == 3 {
        "Breakpoint (#BP)"@
    } else if v == 4 {
        "Overflow (#OF)"@
    } else if v == 5 {
        "Bound Range Exceeded (#BR)"@
    } else if v == 6 {
        "Invalid Opcode (#UD)"@
    } else if v == 7 {
        "Device Not Available (#NM)"@
    } else if v == 8 {
        "Double Fault (#DF)"@
    } else if v == 9 {
        "Coprocessor Segment Overrun"@
    } else if v == 10 {
        "Invalid TSS (#TS)"@
    } else if v == 11 {
        "Segment Not Present (#NP)"@
    } else if v == 12 {
        "Stack-Segment Fault (#SS)"@
    } else if v == 13 {
        "General Protection Fault (#GP)"@
    } else if v == 14 {
        "Page Fault (#PF)"@
    } else if v == 16 {
        "x87 Floating-Point (#MF)"@
    } else if v == 17 {
        "Alignment Check (#AC)"@
    } else if v == 18 {
        "Machine Check (#MC)"@
    } else if v == 19 {
        "SIMD Floating-Point (#XM)"@
    } else if v == 20 {
        "Virtualization (#VE)"@
    } else if v == 21 {
        "Control Protection (#CP)"@
    } else if v == 28 {
        "Hypervisor Injection (#HV)"@
    } else if v == 29 {
        "VMM Communication (#VC)"@
    } else if v == 30 {
        "Security Exception (#SX)"@
    } else if v < 32 {
        "Reserved"@
    } else {
        "Unknown"@
    }
}

pub fn exception_name(v: u64) -> (r: &'static str)
    ensures
        r@ == name_of(v as int),
{
    if v == 0 {
        "Divide Error (#DE)"
    } else if v == 1 {
        "Debug (#DB)"
    } else if v == 2 {
        "Non-Maskable Interrupt (NMI)"
    } else if v == 3 {
        "Breakpoint (#BP)"
    } else if v == 4 {
        "Overflow (#OF)"
    } else if v == 5 {
        "Bound Range Exceeded (#BR)"
    } else if v == 6 {
        "Invalid Opcode (#UD)"
    } else if v == 7 {
        "Device Not Available (#NM)"
    } else if v == 8 {
        "Double Fault (#DF)"
    } else if v == 9 {
        "Coprocessor Segment Overrun"
    } else if v == 10 {
        "Invalid TSS (#TS)"
    } else if v == 11 {
        "Segment Not Present (#NP)"
    } else if v == 12 {
        "Stack-Segment Fault (#SS)"
    } else if v == 13 {
        "General Protection Fault (#GP)"
    } else if v == 14 {
        "Page Fault (#PF)"
    } else if v == 16 {
        "x87 Floating-Point (#MF)"
    } else if v == 17 {
        "Alignment Check (#AC)"
    } else if v == 18 {
        "Machine Check (#MC)"
    } else if v == 19 {
        "SIMD Floating-Point (#XM)"
    } else if v == 20 {
        "Virtualization (#VE)"
    } else if v == 21 {
        "Control Protection (#CP)"
    } else if v == 28 {
        "Hypervisor Injection (#HV)"
    } else if v == 29 {
        "VMM Communication (#VC)"
    } else if v == 30 {
        "Security Exception (#SX)"
    } else if v < 32 {
        "Reserved"
    } else {
        "Unknown"
    }
}

/// A line for the log of the processor's faults.
pub struct LogLine {
    pub function: &'static str,
    pub output: String,
}

/// What lines say: under which name, and what.
pub open spec fn lines(v: Seq<LogLine>) -> Seq<(Seq<char>, Seq<char>)> {
    v.map_values(|l: LogLine| (l.function@, l.output@))
}

/// What a page fault was: the address, and what its error code tells of it.
pub open spec fn page_fault_text(cr2: u64, e: u64) -> Seq<char> {
    hex0x(cr2 as nat, 16) + ": "@ + (if e % 2 == 1 {
        "protection violation"@
    } else {
        "page not present"@
    }) + " on "@ + (if e / 2 % 2 == 1 {
        "write"@
    } else {
        "read"@
    }) + (if e / 16 % 2 == 1 {
        " (instruction fetch)"@
    } else {
        ""@
    })
}

fn push_page_fault(s: &mut String, cr2: u64, e: u64)
    ensures
        final(s)@ == old(s)@ + page_fault_text(cr2, e),
{
    push_hex0x(s, cr2, 16);
    push_text(s, ": ");
    push_text(
        s,
        if e % 2 == 1 {
            "protection violation"
        } else {
            "page not present"
        },
    );
    push_text(s, " on ");
    push_text(
        s,
        if e / 2 % 2 == 1 {
            "write"
        } else {
            "read"
        },
    );
    push_text(
        s,
        if e / 16 % 2 == 1 {
            " (instruction fetch)"
        } else {
            ""
        },
    );
    assert(s@ =~= old(s)@ + page_fault_text(cr2, e));
}

/// A name and a number.
pub open spec fn field(name: Seq<char>, n: u64, digits: nat) -> Seq<char> {
    name + hex(n as nat, digits)
}

/// A name and a number with its prefix.
pub open spec fn field0x(name: Seq<char>, n: u64, digits: nat) -> Seq<char> {
    name + hex0x(n as nat, digits)
}

fn push_field(s: &mut String, name: &str, n: u64)
    ensures
        final(s)@ == old(s)@ + field(name@, n, 16),
{
    push_text(s, name);
    push_hex(s, n, 16);
    assert(s@ =~= old(s)@ + field(name@, n, 16));
}

fn push_field0x(s: &mut String, name: &str, n: u64, digits: u64)
    requires
        digits >= 1,
    ensures
        final(s)@ == old(s)@ + field0x(name@, n, digits as nat),
{
    push_text(s, name);
    push_hex0x(s, n, digits);
    assert(s@ =~= old(s)@ + field0x(name@, n, digits as nat));
}

/// What is logged of an exception that a program caused.
pub open spec fn user_fault_lines(f: InterruptFrame, pid: u64, cr2: u64) -> Seq<
    (Seq<char>, Seq<char>),
> {
    let first = seq![
        (
            "UserFault"@,
            name_of(f.vector as int) + " in user mode (pid "@ + decimal(pid as nat) + ")"@ + field0x(
                " - rip="@,
                f.rip,
                16,
            ) + field0x(" rsp="@, f.rsp, 16) + field0x(" error code "@, f.error_code, 1),
        ),
    ];
    if f.vector == 14 {
        first.push(("UserFault"@, "page fault at "@ + page_fault_text(cr2, f.error_code)))
    } else {
        first
    }
}

/// The log lines about a program that caused an exception.
pub fn kill_user_process(frame: &InterruptFrame, pid: u64, cr2: u64) -> (r: Vec<LogLine>)
    ensures
        lines(r@) == user_fault_lines(*frame, pid, cr2),
{
    let mut r: Vec<LogLine> = Vec::new();
    let mut s: String = String::new();
    push_text(&mut s, exception_name(frame.vector));
    push_text(&mut s, " in user mode (pid ");
    push_decimal(&mut s, pid);
    push_text(&mut s, ")");
    push_field0x(&mut s, " - rip=", frame.rip, 16);
    push_field0x(&mut s, " rsp=", frame.rsp, 16);
    push_field0x(&mut s, " error code ", frame.error_code, 1);
    assert(s@ =~= user_fault_lines(*frame, pid, cr2)[0].1);
    r.push(LogLine { function: "UserFault", output: s });
    if frame.vector == 14 {
        let mut s: String = String::new();
        push_text(&mut s, "page fault at ");
        push_page_fault(&mut s, cr2, frame.error_code);
        assert(s@ =~= "page fault at "@ + page_fault_text(cr2, frame.error_code));
        r.push(LogLine { function: "UserFault", output: s });
    }
    assert(lines(r@) =~= user_fault_lines(*frame, pid, cr2));
    r
}

/// All the registers, line by line.
pub open spec fn register_lines(f: InterruptFrame, cr2: u64, cr3: u64) -> Seq<(Seq<char>, Seq<char>)> {
    seq![
        ("Regs"@, field0x("RIP="@, f.rip, 16) + field0x(" RSP="@, f.rsp, 16) + field0x(" RFLAGS="@, f.rflags, 8)),
        ("Regs"@, field0x("CS="@, f.cs, 4) + field0x(" SS="@, f.ss, 4) + field0x(" CR2="@, cr2, 16) + field0x(" CR3="@, cr3, 16)),
        ("Regs"@, field("RAX="@, f.rax, 16) + field(" RBX="@, f.rbx, 16) + field(" RCX="@, f.rcx, 16) + field(" RDX="@, f.rdx, 16)),
        ("Regs"@, field("RSI="@, f.rsi, 16) + field(" RDI="@, f.rdi, 16) + field(" RBP="@, f.rbp, 16) + field(" R8 ="@, f.r8, 16)),
        ("Regs"@, field("R9 ="@, f.r9, 16) + field(" R10="@, f.r10, 16) + field(" R11="@, f.r11, 16) + field(" R12="@, f.r12, 16)),
        ("Regs"@, field("R13="@, f.r13, 16) + field(" R14="@, f.r14, 16) + field(" R15="@, f.r15, 16)),
    ]
}

fn push_registers(r: &mut Vec<LogLine>, frame: &InterruptFrame, cr2: u64, cr3: u64)
    ensures
        lines(final(r)@) == lines(old(r)@) + register_lines(*frame, cr2, cr3),
{
    let ghost want = register_lines(*frame, cr2, cr3);
    let mut s: String = String::new();
    push_field0x(&mut s, "RIP=", frame.rip, 16);
    push_field0x(&mut s, " RSP=", frame.rsp, 16);
    push_field0x(&mut s, " RFLAGS=", frame.rflags, 8);
    assert(s@ =~= want[0].1);
    r.push(LogLine { function: "Regs", output: s });
    let mut s: String = String::new();
    push_field0x(&mut s, "CS=", frame.cs, 4);
    push_field0x(&mut s, " SS=", frame.ss, 4);
    push_field0x(&mut s, " CR2=", cr2, 16);
    push_field0x(&mut s, " CR3=", cr3, 16);
    assert(s@ =~= want[1].1);
    r.push(LogLine { function: "Regs", output: s });
    let mut s: String = String::new();
    push_field(&mut s, "RAX=", frame.rax);
    push_field(&mut s, " RBX=", frame.rbx);
    push_field(&mut s, " RCX=", frame.rcx);
    push_field(&mut s, " RDX=", frame.rdx);
    assert(s@ =~= want[2].1);
    r.push(LogLine { function: "Regs", output: s });
    let mut s: String = String::new();
    push_field(&mut s, "RSI=", frame.rsi);
    push_field(&mut s, " RDI=", frame.rdi);
    push_field(&mut s, " RBP=", frame.rbp);
    push_field(&mut s, " R8 =", frame.r8);
    assert(s@ =~= want[3].1);
    r.push(LogLine { function: "Regs", output: s });
    let mut s: String = String::new();
    push_field(&mut s, "R9 =", frame.r9);
    push_field(&mut s, " R10=", frame.r10);
    push_field(&mut s, " R11=", frame.r11);
    push_field(&mut s, " R12=", frame.r12);
    assert(s@ =~= want[4].1);
    r.push(LogLine { function: "Regs", output: s });
    let mut s: String = String::new();
    push_field(&mut s, "R13=", frame.r13);
    push_field(&mut s, " R14=", frame.r14);
    push_field(&mut s, " R15=", frame.r15);
    assert(s@ =~= want[5].1);
    r.push(LogLine { function: "Regs", output: s });
    assert(lines(r@) =~= lines(old(r)@) + want);
}

/// What is logged of an exception that the kernel does not survive: what it was,
/// the address where it was a page fault, and all the registers.
pub open spec fn fatal_lines(f: InterruptFrame, cr2: u64, cr3: u64) -> Seq<(Seq<char>, Seq<char>)> {
    let first = seq![
        (
            "Exception"@,
            name_of(f.vector as int) + " - vector "@ + decimal(f.vector as nat) + field0x(
                ", error code "@,
                f.error_code,
                1,
            ),
        ),
    ];
    let second = if f.vector == 14 {
        first.push(("PageFault"@, "address "@ + page_fault_text(cr2, f.error_code)))
    } else {
        first
    };
    second + register_lines(f, cr2, cr3)
}

/// What the screen says of it; `mapped` is the physical address behind the one that
/// faulted, if there is one.
pub open spec fn fatal_text(f: InterruptFrame, cr2: u64, mapped: Option<u64>) -> Seq<char> {
    let head = name_of(f.vector as int) + "\n"@ + "vector "@ + decimal(f.vector as nat) + field0x(
        "   error code "@,
        f.error_code,
        1,
    ) + "\n"@;
    let fault = if f.vector != 14 {
        seq![]
    } else {
        field0x("faulting address "@, cr2, 16) + "\n"@ + match mapped {
            Some(phys) => field0x("(that address is mapped to phys "@, phys, 16)
                + " -- likely a permission violation)\n"@,
            None => seq![],
        }
    };
    head + fault + "\n"@ + field0x("RIP "@, f.rip, 16) + "\n"@ + field0x("RSP "@, f.rsp, 16)
        + "\n"@ + "\n"@ + "Full register dump is on the serial log.\n"@
}

/// The last words: the lines for the log, and what the screen shows under the title.
pub struct Report {
    pub log: Vec<LogLine>,
    pub title: &'static str,
    pub rgb: (u8, u8, u8),
    pub body: String,
}

fn screen_body(frame: &InterruptFrame, cr2: u64, mapped: Option<u64>) -> (s: String)
    ensures
        s@ == fatal_text(*frame, cr2, mapped),
{
    let mut s: String = String::new();
    push_text(&mut s, exception_name(frame.vector));
    push_text(&mut s, "\n");
    push_text(&mut s, "vector ");
    push_decimal(&mut s, frame.vector);
    push_field0x(&mut s, "   error code ", frame.error_code, 1);
    push_text(&mut s, "\n");
    if frame.vector == 14 {
        push_field0x(&mut s, "faulting address ", cr2, 16);
        push_text(&mut s, "\n");
        match mapped {
            Some(phys) => {
                push_field0x(&mut s, "(that address is mapped to phys ", phys, 16);
                push_text(&mut s, " -- likely a permission violation)\n");
            },
            None => {},
        }
    }
    push_text(&mut s, "\n");
    push_field0x(&mut s, "RIP ", frame.rip, 16);
    push_text(&mut s, "\n");
    push_field0x(&mut s, "RSP ", frame.rsp, 16);
    push_text(&mut s, "\n");
    push_text(&mut s, "\n");
    push_text(&mut s, "Full register dump is on the serial log.\n");
    assert(s@ =~= fatal_text(*frame, cr2, mapped));
    s
}

/// What is said of an exception that the kernel does not survive.
pub fn fatal(
    frame: &InterruptFrame,
    cr2: u64,
    cr3: u64,
    mem: &PhysicalMemory,
    vmm: Option<&Option<Vmm>>,
) -> (r: Report)
    requires
        vmm is Some ==> is_kernel_space(*mem, *vmm->0),
    ensures
        lines(r.log@) == fatal_lines(*frame, cr2, cr3),
        r.title@ == "KERNEL EXCEPTION"@,
        r.rgb == (130u8, 0u8, 0u8),
        r.body@ == fatal_text(
            *frame,
            cr2,
            match vmm {
                Some(v) => kernel_walked(*mem, *v, cr2),
                None => None,
            },
        ),
{
    let mut log: Vec<LogLine> = Vec::new();
    let mut s: String = String::new();
    push_text(&mut s, exception_name(frame.vector));
    push_text(&mut s, " - vector ");
    push_decimal(&mut s, frame.vector);
    push_field0x(&mut s, ", error code ", frame.error_code, 1);
    assert(s@ =~= fatal_lines(*frame, cr2, cr3)[0].1);
    log.push(LogLine { function: "Exception", output: s });
    if frame.vector == 14 {
        let mut s: String = String::new();
        push_text(&mut s, "address ");
        push_page_fault(&mut s, cr2, frame.error_code);
        assert(s@ =~= "address "@ + page_fault_text(cr2, frame.error_code));
        log.push(LogLine { function: "PageFault", output: s });
    }
    push_registers(&mut log, frame, cr2, cr3);
    assert(lines(log@) =~= fatal_lines(*frame, cr2, cr3));
    let mapped: Option<u64> = try_translate(mem, vmm, cr2);
    let body: String = screen_body(frame, cr2, mapped);
    Report { log, title: "KERNEL EXCEPTION", rgb: (130, 0, 0), body }
}

/// The words that tell of a page fault: of a page that is there, or not; of a write, or a
/// read; and of an instruction, or not.
pub proof fn law_page_fault_words(cr2: u64, e: u64, f: u64)
    ensures
        ({
            let at = hex0x(cr2 as nat, 16);
            let words = page_fault_text(cr2, e).skip(at.len() as int);
            &&& page_fault_text(cr2, e).take(at.len() as int) == at
            &&& words[2] == 'p'
            &&& words[3] == if e % 2 == 1 {
                'r'
            } else {
                'a'
            }
            &&& words[if e % 2 == 1 {
                26
            } else {
                22
            }] == if e / 2 % 2 == 1 {
                'w'
            } else {
                'r'
            }
            &&& words.last() == if e / 16 % 2 == 1 {
                ')'
            } else if e / 2 % 2 == 1 {
                'e'
            } else {
                'd'
            }
        }),
        e % 2 == f % 2 && e / 2 % 2 == f / 2 % 2 && e / 16 % 2 == f / 16 % 2 ==> page_fault_text(cr2, e)
            == page_fault_text(cr2, f),
{
    reveal_strlit(": ");
    reveal_strlit("protection violation");
    reveal_strlit("page not present");
    reveal_strlit(" on ");
    reveal_strlit("write");
    reveal_strlit("read");
    reveal_strlit(" (instruction fetch)");
    reveal_strlit("");
    let at = hex0x(cr2 as nat, 16);
    assert(page_fault_text(cr2, e).take(at.len() as int) =~= at);
}

} // verus!
