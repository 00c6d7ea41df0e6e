use eonos::acpi::{checksum_ok, find_madt, parse_madt};
use eonos::blocking::{self, BlockingFault, BlockingRun, Mutex, Semaphore};
use eonos::drivers::ahci::disk::{DiskAnswer, DiskAsk, NewDisk};
use eonos::drivers::ahci::transfer::{Transfer, TransferAnswer, TransferAsk};
use eonos::drivers::ahci::{self, PortOp};
use eonos::drivers::nvme::{self, Answer, Ask, Entry, Fault, Look, Queue, Setup};
use eonos::drivers::pci::{config_address, present_functions, PciLocation};
use eonos::drivers::ps2;
use eonos::drivers::queue::RingBuffer;
use eonos::drivers::usb;
use eonos::drivers::usb::xhci::{Op, Ring, Trb};
use eonos::gdt;
use eonos::idt::report::{exception_name, fatal, kill_user_process};
use eonos::idt::{self, irq_dispatch, register_irq, InterruptFrame, IrqHandlers, Response};
use eonos::interrupts::{self, Controller, Routing};
use eonos::ioapic::{self, IoApicFault, Mapped, RouteFault};
use eonos::lapic::{self, LapicFault, LapicWrite};
use eonos::pic::{self, Masks, PortWrite};
use eonos::pit::{self, TimerTrial};
use eonos::pmm::PhysicalMemory;
use eonos::scheduler::report::{SchedulerFault, TrialRun};
use eonos::scheduler::wait::WaitStep;
use eonos::scheduler::{self, Scheduler, Thread, WaitQueue};
use eonos::sync::{irq_flag, irq_restore, irq_save, Interrupts, IrqMutex};

fn frame(vector: u64, cs: u64) -> InterruptFrame {
    InterruptFrame {
        r15: 15, r14: 14, r13: 13, r12: 12, r11: 11, r10: 10, r9: 9, r8: 8,
        rbp: 7, rdi: 6, rsi: 5, rdx: 4, rcx: 3, rbx: 2, rax: 1,
        vector, error_code: 2, rip: 0x1234, cs, rflags: 0x202, rsp: 0xffff_8000_0000_0000, ss: 0x10,
    }
}

#[test]
fn entries_lead_to_their_handlers() {
    let stubs: Vec<u64> = (0..48u64).map(|i| 0xffff_8000_1234_0000 + i).collect();
    let t = idt::init(&stubs);
    assert_eq!(t.len(), 256);
    assert_eq!(t[3].offset_low, 3);
    assert_eq!(t[3].offset_mid, 0x1234);
    assert_eq!(t[3].offset_high, 0xffff_8000);
    assert_eq!((t[3].selector, t[3].type_attr, t[3].ist), (8, 0x8e, 0));
    assert_eq!(t[8].ist, 1);
    assert_eq!(t[48].type_attr, 0);
}

#[test]
fn exceptions_are_sorted_out() {
    assert_eq!(idt::exception_handler(&frame(33, 8)), Response::Line(1));
    assert_eq!(idt::exception_handler(&frame(14, 0x23)), Response::KillProcess(142));
    assert_eq!(idt::exception_handler(&frame(8, 0x23)), Response::Halt);
    assert_eq!(idt::exception_handler(&frame(3, 8)), Response::Breakpoint);
    assert_eq!(idt::exception_handler(&frame(13, 8)), Response::Halt);
    assert_eq!(exception_name(14), "Page Fault (#PF)");
    assert_eq!(exception_name(15), "Reserved");
    assert_eq!(exception_name(99), "Unknown");
    let l = kill_user_process(&frame(14, 0x23), 7, 0x10);
    assert_eq!(
        l[0].output,
        "Page Fault (#PF) in user mode (pid 7) - rip=0x0000000000001234 rsp=0xffff800000000000 error code 0x2"
    );
    assert_eq!(l[1].output, "page fault at 0x0000000000000010: page not present on write");
}

#[test]
fn the_last_report_has_the_registers() {
    let mem = PhysicalMemory { hhdm: 0, pmm: None, bytes: vec![] };
    let r = fatal(&frame(14, 8), 0xdead, 0x1000, &mem, None);
    let lines: Vec<&str> = r.log.iter().map(|l| l.output.as_str()).collect();
    assert_eq!(lines.len(), 8);
    assert_eq!(lines[0], "Page Fault (#PF) - vector 14, error code 0x2");
    assert_eq!(lines[1], "address 0x000000000000dead: page not present on write");
    assert_eq!(lines[2], "RIP=0x0000000000001234 RSP=0xffff800000000000 RFLAGS=0x00000202");
    assert_eq!(lines[3], "CS=0x0008 SS=0x0010 CR2=0x000000000000dead CR3=0x0000000000001000");
    assert_eq!(
        lines[7],
        "R13=000000000000000d R14=000000000000000e R15=000000000000000f"
    );
    assert_eq!(r.title, "KERNEL EXCEPTION");
    assert_eq!(r.rgb, (130, 0, 0));
    assert!(r.body.contains("faulting address 0x000000000000dead\n\nRIP 0x"));
    let other = fatal(&frame(13, 8), 0, 0, &mem, Some(&None));
    assert_eq!(other.log.len(), 7);
    assert!(!other.body.contains("faulting"));
}

#[test]
fn handlers_run_for_their_lines() {
    let mut h: IrqHandlers<u32> = IrqHandlers::new();
    register_irq(&mut h, 1, 77);
    let mut routing = Routing { apic: false };
    assert_eq!(irq_dispatch(&h, &routing, 1), (Some(77), Controller::Pic));
    assert_eq!(irq_dispatch(&h, &routing, 2), (None, Controller::Pic));
    interrupts::use_apic(&mut routing);
    assert_eq!(irq_dispatch(&h, &routing, 1), (Some(77), Controller::LocalApic));
    assert_eq!(interrupts::unmask_isa_irq(&routing), Controller::IoApic);
}

#[test]
fn locks_keep_interrupts_off() {
    let m = IrqMutex::new(5u32);
    let mut irq = irq_flag(0x202);
    assert!(irq.enabled);
    let mut g = m.lock(&mut irq);
    assert!(!irq.enabled);
    *g.get_mut() += 1;
    assert!(m.try_lock(&mut irq).is_none());
    let n = IrqMutex::new(1u8);
    let inner = n.try_lock(&mut irq).unwrap();
    inner.release(&mut irq);
    assert!(!irq.enabled);
    g.release(&mut irq);
    assert!(irq.enabled);
    let g = m.lock(&mut irq);
    assert_eq!(*g.get(), 6);
    g.release(&mut irq);
    let mut off = Interrupts { enabled: false };
    assert!(!irq_save(&mut off));
    irq_restore(&mut off, false);
    assert!(!off.enabled);
    let g = m.lock(&mut off);
    let mut on = Interrupts { enabled: true };
    assert!(m.try_lock(&mut on).is_none());
    assert!(on.enabled);
    g.release(&mut off);
    assert!(!off.enabled);
}

#[test]
fn the_old_controllers_are_programmed() {
    let w = pic::init();
    assert_eq!(w[0], PortWrite { port: 0x20, value: 0x11 });
    let m = Masks { master: 0xff, slave: 0xff };
    assert_eq!(pic::unmask(m, 1).master, 0xfd);
    let s = pic::unmask(m, 12);
    assert_eq!((s.master, s.slave), (0xfb, 0xef));
    assert_eq!(pic::mask(s, 12).slave, 0xff);
    assert_eq!(pic::end_of_interrupt(12).len(), 2);
    let (mut t, w) = pit::init(100);
    assert_eq!(t.hz, 100);
    assert_eq!(w[1].value as u32 + 256 * w[2].value as u32, 11931);
    for _ in 0..250 {
        pit::on_tick(&mut t);
    }
    assert_eq!((pit::ticks(&t), pit::uptime_ms(&t)), (250, 2500));
    assert!(matches!(pit::self_test(&t, 200, 0), TimerTrial::Passed { count: 50, ms: 500 }));
    assert_eq!(pit::self_test(&t, 250, 0), TimerTrial::Again);
    assert_eq!(pit::self_test(&t, 250, u64::MAX), TimerTrial::TimedOut);
    let g = gdt::table(0xffff_8000_1234_5678, 103);
    assert_eq!(g[5], 0x1200_8934_5678_0067);
    assert_eq!(g[6], 0xffff_8000);
    assert_eq!(gdt::tss_descriptor(0, 103).0, 0x0000_8900_0000_0067);
}

fn checksummed(mut b: Vec<u8>, at: usize) -> Vec<u8> {
    b[at] = 0;
    let s = b.iter().fold(0u8, |a, &x| a.wrapping_add(x));
    b[at] = 0u8.wrapping_sub(s);
    b
}

fn madt() -> Vec<u8> {
    let mut b = vec![0u8; 44];
    b[..4].copy_from_slice(b"APIC");
    b[36..40].copy_from_slice(&0xfee0_0000u32.to_le_bytes());
    b.extend_from_slice(&[1, 12, 2, 0, 0, 0, 0xc0, 0xfe, 0, 0, 0, 0]);
    b.extend_from_slice(&[2, 10, 0, 0, 2, 0, 0, 0, 0, 0]);
    let n = b.len() as u32;
    b[4..8].copy_from_slice(&n.to_le_bytes());
    checksummed(b, 9)
}

#[test]
fn the_interrupt_table_is_found() {
    let table = madt();
    assert!(checksum_ok(&table));
    let info = parse_madt(&table).unwrap();
    assert_eq!(info.local_apic_addr, 0xfee0_0000);
    assert_eq!(info.ioapics[0].mmio_base, 0xfec0_0000);
    assert_eq!(info.override_for(0), Some((2, 0)));
    assert_eq!(info.override_for(1), None);
    let mut memory = vec![0u8; 0x1000];
    let mut rsdp = vec![0u8; 36];
    rsdp[..8].copy_from_slice(b"RSD PTR ");
    rsdp[15] = 2;
    rsdp[20..24].copy_from_slice(&36u32.to_le_bytes());
    rsdp[24..32].copy_from_slice(&0x200u64.to_le_bytes());
    let first = rsdp[..20].iter().fold(0u8, |a, &x| a.wrapping_add(x));
    rsdp[8] = 0u8.wrapping_sub(first);
    let rsdp = checksummed(rsdp, 32);
    let mut xsdt = vec![0u8; 44];
    xsdt[..4].copy_from_slice(b"XSDT");
    xsdt[4..8].copy_from_slice(&44u32.to_le_bytes());
    xsdt[36..44].copy_from_slice(&0x400u64.to_le_bytes());
    let xsdt = checksummed(xsdt, 9);
    memory[0x100..0x100 + 36].copy_from_slice(&rsdp);
    memory[0x200..0x200 + 44].copy_from_slice(&xsdt);
    memory[0x400..0x400 + table.len()].copy_from_slice(&table);
    let read = |at: u64, len: usize| -> Vec<u8> {
        (0..len).map(|i| *memory.get(at as usize + i).unwrap_or(&0)).collect()
    };
    assert_eq!(find_madt(Some(0x100), &read).unwrap().ioapic_count, 1);
    assert!(find_madt(Some(0x101), &read).is_none());
    assert!(find_madt(None, &read).is_none());
}

#[test]
fn lines_are_routed() {
    let info = parse_madt(&madt()).unwrap();
    let c = ioapic::init(info, &[Mapped { base: 0x5000, version: 0x0017_0011 }]).unwrap();
    assert_eq!((c.controllers[0].gsi_start, c.controllers[0].gsi_end), (0, 24));
    assert_eq!(ioapic::isa_route(&c, 0).unwrap().1, 2);
    let c = Some(c);
    assert!(ioapic::supports_isa_irq(&c, 1));
    assert!(!ioapic::supports_isa_irq(&None, 1));
    let line = ioapic::find_line(&c, 1).unwrap();
    let w = ioapic::unmask_isa_irq(line, 1, 0x1_0000, 3);
    assert_eq!(w[2].value, 33);
    assert_eq!(w[1].value, 3 << 24);
    assert_eq!(ioapic::find_line(&None, 1), Err(RouteFault::NotInitialized));
    assert_eq!(ioapic::polarity_trigger(0x0f), Some(0xa000));
    assert_eq!(ioapic::polarity_trigger(0x02), None);
    let mut nowhere = madt();
    nowhere[50..52].copy_from_slice(&[0, 0]);
    let info = parse_madt(&checksummed(nowhere, 9)).unwrap();
    let r = ioapic::init(info, &[Mapped { base: 0, version: 0x0017_0011 }]);
    assert!(matches!(r.err(), Some(IoApicFault::ZeroBase { .. })));
    assert_eq!(lapic::plan(0, 0, 0), Err(LapicFault::Missing));
    assert_eq!(lapic::plan(1 << 9, 0xfee0_0c00, 0), Err(LapicFault::X2Apic));
    assert_eq!(lapic::plan(1 << 9, 0, 0), Err(LapicFault::NoAddress));
    assert_eq!(lapic::plan(1 << 9, 0xfee0_0900, 0).unwrap().phys_base, 0xfee0_0000);
    assert_eq!(lapic::end_of_interrupt(), LapicWrite { reg: 0xb0, value: 0 });
    assert_eq!(lapic::id(&lapic::enabled(0x0500_0000)), 5);
}

#[test]
fn every_input_is_masked() {
    let info = parse_madt(&madt()).unwrap();
    let c = ioapic::init(info, &[Mapped { base: 0x5000, version: 0x0017_0011 }]).unwrap();
    let inputs = ioapic::masking::inputs(&c);
    assert_eq!(inputs.len(), 24);
    let mut regs = [0x31u32; 64];
    for (io, index) in inputs {
        assert_eq!(io.base, 0x5000);
        let at = 0x10 + 2 * index as usize;
        for w in ioapic::mask_input(io, index, regs[at], regs[at + 1]) {
            regs[w.reg as usize] = w.value;
        }
    }
    for index in 0..24 {
        assert_eq!(regs[0x10 + 2 * index], 0x1_0031);
        assert_eq!(regs[0x11 + 2 * index], 0x31);
    }
}

fn config(loc: PciLocation, offset: u8) -> u32 {
    if loc.bus != 0 || loc.function != 0 {
        return 0xffff_ffff;
    }
    match (loc.device, offset) {
        (1, 0) | (2, 0) | (3, 0) => 0x1234_8086,
        (1, 8) => 0x0106_0100,
        (1, 0x24) => 0xfebf_0000,
        (2, 8) => 0x0108_0200,
        (2, 0x10) => 0xfe00_0004,
        (2, 0x14) => 1,
        (3, 8) => 0x0c03_3000,
        (3, 0x10) => 0xfd00_0000,
        (1, _) | (2, _) | (3, _) => 0,
        _ => 0xffff_ffff,
    }
}

#[test]
fn controllers_are_found_on_the_bus() {
    assert_eq!(config_address(PciLocation { bus: 1, device: 2, function: 3 }, 0x11), 0x8001_1310);
    assert_eq!(present_functions(&config).len(), 3);
    let a = ahci::pci_ahci_controllers(&config);
    assert_eq!((a.len(), a[0].mmio_base), (1, 0xfebf_0000));
    let n = nvme::controllers(&config);
    assert_eq!((n.len(), n[0].mmio_base), (1, 0x1_fe00_0000));
    let u = usb::pci::find_usb_controllers(&config);
    assert_eq!((u.len(), u[0].mmio_base), (1, 0xfd00_0000));
    assert_eq!(u[0].kind.name(), "xHCI");
}

#[test]
fn a_sata_disk_is_read() {
    assert!(ahci::is_usable(0x123, 0x101));
    assert!(!ahci::is_usable(0x120, 0x101));
    assert_eq!(ahci::implemented_ports(0x8000_0005), vec![0, 2, 31]);
    assert!(!ahci::is_reachable(false, &[0, 0x1_0000_0000]));
    assert!(ahci::is_reachable(true, &[0, 0x1_0000_0000]));
    let ops = ahci::port_ops(0x1_0000_2000, 0x3000);
    assert_eq!(ops[4], PortOp::Write { register: 0, value: 0x2000 });
    assert_eq!(ops[5], PortOp::Write { register: 4, value: 1 });
    let w = ahci::command_words(0x25, 0x0605_0403_0201, 1);
    assert_eq!(&w[..14], &[0x27, 0x80, 0x25, 0, 1, 2, 3, 0x40, 4, 5, 6, 0, 1, 0]);
    assert_eq!(ahci::command_header(0x77)[8], 0x77);
    assert_eq!(&ahci::region(0)[12..], &[0xff, 1, 0, 0x80]);
    assert!(!ahci::may_issue(0x80) && !ahci::may_issue(8) && ahci::may_issue(0x50));
    assert_eq!(ahci::waited(false, 3000), Some(false));
    assert_eq!(ahci::waited(false, 2999), None);
    let mut id = [0u8; 512];
    assert_eq!(ahci::identified_sectors(&id), None);
    id[200] = 9;
    assert_eq!(ahci::identified_sectors(&id), Some(9));
    let mut out = [0u8; 512];
    let r = ahci::read_sector(|c: u8, lba: u64, n: u16| Some([c + lba as u8 + n as u8; 512]), 9, 5, &mut out);
    assert!(r.is_ok());
    assert_eq!(out, [0x2bu8; 512]);
    assert!(ahci::read_sector(|_: u8, _: u64, _: u16| None, 9, 5, &mut out).is_err());
    assert!(ahci::read_sector(|_: u8, _: u64, _: u16| Some([0; 512]), 9, 9, &mut out).is_err());
    assert_eq!(ahci::disk_name(2), "sdc");
}

#[test]
fn an_nvme_controller_comes_up() {
    let e = Entry { opcode: 6, nsid: 1, prp1: 0x1000, cdw10: 1, cdw11: 2 };
    let b = e.bytes();
    assert_eq!((b.len(), b[0], b[4], b[25], b[40], b[44]), (64, 6, 1, 0x10, 1, 2));
    let mut q = Queue::new();
    for i in 0..16 {
        assert_eq!(q.submit(), i * 64);
        assert_eq!(q.look(0, 0), Look::Waiting);
        assert_eq!(q.look(1, 0), Look::Arrived(true));
    }
    assert_eq!(q, Queue { tail: 0, head: 0, phase: 0 });
    assert_eq!(q.look(1, 5001), Look::TimedOut);
    assert_eq!(q.look(4, 0), Look::Arrived(false));
    assert_eq!(nvme::doorbell_stride(0x0000_0002_0000_000f), Ok(16));
    assert_eq!(nvme::doorbell_stride(3), Err(Fault::ShortQueues));
    let (mut s, mut ask) = Setup::new();
    let mut pages = 0u64;
    let mut commands = vec![];
    loop {
        let answer = match ask {
            Ask::Disable | Ask::Enable { .. } => Answer::Ready(true),
            Ask::Page => {
                pages += 1;
                Answer::Page(Some(pages * 4096))
            }
            Ask::Submit(e) => {
                commands.push(e.opcode);
                let mut d = vec![0u8; 4096];
                if e.opcode == 6 && e.nsid == 0 {
                    d[516] = 2;
                } else if e.nsid == 2 {
                    d[0] = 50;
                    d[130] = 9;
                }
                Answer::Completed(Some(d))
            }
            Ask::Finished { submission, completion, data } => {
                assert_eq!((submission, completion, data), (4 * 4096, 5 * 4096, 7 * 4096));
                break;
            }
            Ask::Failed(f) => panic!("{:?}", f),
        };
        ask = s.controller(&answer);
    }
    assert_eq!(s.found, vec![(2, 50)]);
    assert_eq!(commands, vec![6, 9, 5, 1, 6, 6]);
    let (mut s, _) = Setup::new();
    assert_eq!(s.controller(&Answer::Ready(false)), Ask::Failed(Fault::NotDisabled));
    let disks = nvme::init(&vec![None, Some(vec![(1, 5), (3, 6)]), Some(vec![(1, 7)])]);
    let names: Vec<&str> = disks.iter().map(|d| d.name.as_str()).collect();
    assert_eq!(names, vec!["nvme0n1", "nvme0n3", "nvme1n1"]);
}

#[test]
fn keys_become_bytes() {
    let mut k = ps2::Keyboard::new();
    for code in [0x1e, 0x9e, 0x2a, 0x1e, 0xaa, 0x3a, 0x1e, 0x1c] {
        k.handle_scancode(code);
    }
    let mut got = vec![];
    while let Some(b) = ps2::try_read_byte(&mut k) {
        got.push(b);
    }
    assert_eq!(got, b"aAA\n");
    k.handle_scancode(0xe0);
    k.handle_scancode(0x48);
    let mut got = vec![];
    while let Some(b) = ps2::try_read_byte(&mut k) {
        got.push(b);
    }
    assert_eq!(got, b"\x1b[A");
    assert!(!ps2::is_ready(&k));
    let mut r = RingBuffer::new();
    r.push(1);
    r.push(2);
    assert_eq!((r.pop(), r.pop(), r.pop()), (Some(1), Some(2), None));
}

#[test]
fn a_ring_marks_its_rounds() {
    let (mut ring, first) = Ring::new(0x1000);
    assert!(matches!(first, Op::StoreTrb(0x10f0, _)));
    let mut ops = vec![];
    let t = Trb { parameter: 0, status: 0, control: 0 };
    for i in 0..15 {
        assert_eq!(ring.push(t, &mut ops), 0x1000 + 16 * i);
        assert_eq!(ring.cycle, if i < 14 { 1 } else { 0 });
    }
    assert_eq!(ops.len(), 16);
    assert_eq!(ring.push(t, &mut ops), 0x1000);
}

fn thread(id: u64, idle: bool) -> Thread {
    Thread { id, name: "t", rsp: id * 16, stack_slot: None, wake_at: 0, is_idle: idle }
}

fn running() -> Scheduler {
    let mut s = Scheduler::new();
    s.start(thread(1, true));
    s.enqueue(thread(2, false));
    s.enqueue(thread(3, false));
    s
}

#[test]
fn threads_take_turns() {
    let mut s = running();
    assert_eq!(scheduler::current_id(&s), 0);
    let sw = scheduler::yield_now(&mut s, 0).unwrap();
    assert_eq!((sw.from, sw.to, sw.rsp), (0, 2, 32));
    assert_eq!(scheduler::yield_now(&mut s, 0).unwrap().to, 3);
    assert_eq!(scheduler::yield_now(&mut s, 0).unwrap().to, 0);
    assert_eq!(scheduler::sleep_ms(&mut s, 100, 50).unwrap().to, 2);
    assert_eq!(scheduler::yield_now(&mut s, 149).unwrap().to, 3);
    s.wake_sleepers(150);
    assert_eq!(scheduler::yield_now(&mut s, 150).unwrap().to, 2);
    assert_eq!(scheduler::yield_now(&mut s, 150).unwrap().to, 0);
    assert_eq!(scheduler::current_name(&s), "boot");
}

#[test]
fn waiting_threads_are_woken_in_order() {
    let mut s = running();
    let mut q = WaitQueue::new();
    assert!(matches!(q.wait_until(&mut s, true, 0), WaitStep::Proceed));
    assert!(matches!(q.wait_until(&mut s, false, 0), WaitStep::Parked(Some(_))));
    assert_eq!((q.len(), scheduler::current_id(&s)), (1, 2));
    assert!(matches!(q.wait_until(&mut s, false, 0), WaitStep::Parked(Some(_))));
    assert!(q.wake_one(&mut s));
    assert_eq!(scheduler::yield_now(&mut s, 0).unwrap().to, 0);
    q.wake_all(&mut s);
    assert_eq!(q.len(), 0);
    assert!(!q.wake_one(&mut s));
}

#[test]
fn nobody_gets_a_held_lock_before_the_scheduler_is_up() {
    let mut s = Scheduler::new();
    let mut q = WaitQueue::new();
    assert_eq!(q.wait_until(&mut s, true, 0), WaitStep::Proceed);
    assert_eq!(q.wait_until(&mut s, false, 0), WaitStep::Retry);
    assert_eq!(q.len(), 0);
    let mut m = Mutex::new(7);
    assert_eq!(m.lock(&mut s, 0), WaitStep::Proceed);
    assert_eq!(m.lock(&mut s, 0), WaitStep::Retry);
    assert!(!m.try_lock());
    assert!(!m.unlock(&mut s));
    assert_eq!(m.lock(&mut s, 0), WaitStep::Proceed);
    let mut sem = Semaphore::new(1);
    assert_eq!(sem.acquire(&mut s, 0), WaitStep::Proceed);
    assert_eq!(sem.acquire(&mut s, 0), WaitStep::Retry);
    assert_eq!(sem.available(), 0);
}

#[test]
fn mutexes_and_semaphores_admit_as_many_as_they_should() {
    let mut s = running();
    let mut m = Mutex::new(1);
    assert!(matches!(m.lock(&mut s, 0), WaitStep::Proceed));
    assert!(!m.try_lock());
    m.set(2);
    assert_eq!(*m.get(), 2);
    assert!(matches!(m.lock(&mut s, 0), WaitStep::Parked(_)));
    assert!(m.unlock(&mut s));
    assert!(m.try_lock());
    let mut sem = Semaphore::new(2);
    assert!(sem.try_acquire());
    assert!(matches!(sem.acquire(&mut s, 0), WaitStep::Proceed));
    assert!(!sem.try_acquire());
    assert_eq!(sem.available(), 0);
    sem.release(&mut s);
    assert_eq!(sem.available(), 1);
    let mut run = BlockingRun {
        mutex_done: true,
        total: blocking::MUTEX_WORKERS * blocking::MUTEX_ITERS,
        mutex_waiters: 0,
        semaphore_done: true,
        peak: 2,
        available: 2,
    };
    assert_eq!(blocking::self_test(&run), Ok(()));
    run.mutex_done = false;
    assert_eq!(blocking::self_test(&run), Err(BlockingFault::MutexTimedOut));
}

#[test]
fn letting_go_wakes_a_waiter_and_nobody_else() {
    let mut s = running();
    let mut m = Mutex::new(0);
    assert_eq!(m.lock(&mut s, 0), WaitStep::Proceed);
    assert_eq!(scheduler::sleep_ms(&mut s, 0, 1000).unwrap().to, 2);
    assert!(matches!(m.lock(&mut s, 0), WaitStep::Parked(Some(_))));
    assert_eq!(scheduler::current_id(&s), 3);
    assert_eq!((s.sleeping.len(), s.ready.len()), (1, 0));
    assert!(m.unlock(&mut s));
    assert_eq!(scheduler::current_id(&s), 3);
    assert_eq!((s.sleeping[0].id, s.ready[0].id), (0, 2));
    let mut sem = Semaphore::new(0);
    sem.release(&mut s);
    assert_eq!((s.sleeping.len(), s.ready.len(), sem.available()), (1, 1, 1));
}

#[test]
fn a_trial_of_the_scheduler_is_judged() {
    let mut t = TrialRun {
        finished: 4,
        order: vec![1, 2, 3, 1, 2, 3, 1, 2, 3, 1, 2, 3],
        slept: 55,
        stopped: true,
        spin_a: 10,
        spin_b: 12,
        preemptions: 5,
        woke_after: 110,
        slots_before: 1,
        slots_after: 1,
    };
    assert_eq!(scheduler::self_test(&t), Ok(()));
    t.slept = 49;
    assert_eq!(scheduler::self_test(&t), Err(SchedulerFault::BadSleep { ms: 49 }));
    t.finished = 0;
    assert_eq!(scheduler::self_test(&t), Err(SchedulerFault::TimedOut { finished: 0 }));
}

/// Send a read of sector 5 and answer; what came of it, and how often the command was
/// looked at.
fn transferred(task_file: u32, looks: &[(u32, u32, u64)], status: u32) -> (Option<[u8; 512]>, usize) {
    let (mut t, mut ask) = Transfer::new(ahci::READ_DMA_EXT, 5, 1);
    let mut seen = 0;
    loop {
        let answer = match ask {
            TransferAsk::ReadTaskFile => TransferAnswer::Register(task_file),
            TransferAsk::Issue(words) => {
                assert_eq!(words, ahci::command_words(ahci::READ_DMA_EXT, 5, 1));
                TransferAnswer::Issued
            }
            TransferAsk::Watch => {
                let (command_issue, interrupt_status, waited_ms) = looks[seen];
                seen += 1;
                TransferAnswer::Seen { command_issue, interrupt_status, waited_ms }
            }
            TransferAsk::ReadStatus => TransferAnswer::Register(status),
            TransferAsk::Fetch => TransferAnswer::Sector([7; 512]),
            TransferAsk::Finished(sector) => return (sector, seen),
        };
        ask = t.step(&answer);
    }
}

#[test]
fn a_sector_comes_only_from_a_command_that_did_its_work() {
    assert_eq!(transferred(0x50, &[(1, 0, 0), (1, 0, 2999), (0, 0, 3000)], 0), (Some([7; 512]), 3));
    assert_eq!(transferred(0x80, &[], 0), (None, 0));
    assert_eq!(transferred(0x50, &[(1, 0, 10), (1, 0, 3000)], 0), (None, 2));
    assert_eq!(transferred(0x50, &[(1, 1, 10)], 1), (None, 1));
    let (mut t, _) = Transfer::new(ahci::READ_DMA_EXT, 5, 1);
    assert!(matches!(t.step(&TransferAnswer::Issued), TransferAsk::Finished(None)));
}

/// Bring a port up with these pages; how many sectors it has, and what was done to its
/// registers.
fn brought_up(wide: bool, pages: [u64; 4], good_steps: usize, id: [u8; 512]) -> (Option<u64>, usize) {
    let (mut d, mut ask) = NewDisk::new(wide);
    let mut taken = 0;
    let mut steps = 0;
    loop {
        let answer = match ask {
            DiskAsk::Page => {
                taken += 1;
                DiskAnswer::Page(Some(pages[taken - 1]))
            }
            DiskAsk::Prepare { list, header, table, region } => {
                assert_eq!((list, table), (pages[0], pages[2]));
                assert_eq!(header, ahci::command_header(pages[2]));
                assert_eq!(region, ahci::region(pages[3]));
                DiskAnswer::Done(true)
            }
            DiskAsk::Step(op) => {
                assert_eq!(op, ahci::port_ops(pages[0], pages[1])[steps]);
                steps += 1;
                DiskAnswer::Done(steps <= good_steps)
            }
            DiskAsk::Identify => DiskAnswer::Sector(Some(id)),
            DiskAsk::Finished(sectors) => return (sectors, steps),
        };
        ask = d.step(&answer);
    }
}

#[test]
fn a_port_is_started_only_with_memory_that_is_reached() {
    let mut id = [0u8; 512];
    let high = [0x1000, 0x2000, 0x3000, 0x1_0000_0000];
    assert_eq!(brought_up(true, high, 15, id), (None, 15));
    id[201] = 8;
    assert_eq!(brought_up(true, high, 15, id), (Some(2048), 15));
    assert_eq!(brought_up(false, high, 15, id), (None, 0));
    assert_eq!(brought_up(true, high, 1, id), (None, 2));
    let (mut d, _) = NewDisk::new(true);
    assert!(matches!(d.step(&DiskAnswer::Page(None)), DiskAsk::Finished(None)));
}

#[test]
fn nvme_reads_stay_on_the_namespace() {
    let mut out = [0u8; 512];
    let read = |e: nvme::Entry| Some([e.cdw10 as u8 + e.cdw11 as u8; 512]);
    assert_eq!(nvme::read_sector(read, 1, u64::MAX, 0x1000, 0x2_0000_0003, &mut out), Ok(()));
    assert_eq!(out, [5; 512]);
    assert!(nvme::read_sector(|_| None, 1, 9, 0x1000, 8, &mut out).is_err());
    assert!(nvme::read_sector(read, 1, 9, 0x1000, 9, &mut out).is_err());
    assert_eq!(out, [5; 512]);
    assert_eq!(nvme::wait_ready(1, true, 9000), Some(true));
    assert_eq!(nvme::wait_ready(1, false, 5000), None);
    assert_eq!(nvme::wait_ready(1, false, 5001), Some(false));
}
