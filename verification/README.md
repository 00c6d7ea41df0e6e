# EonOS

The core of a small operating system kernel for x86-64, verified with
[Verus](https://github.com/verus-lang/verus).

`src/` is the library: every decision that the kernel makes, written as functions
on plain values, with contracts that Verus proves. `app/` is the kernel image
around it: the entry point, the assembly, the registers and ports, the
boot loader's tables. `tests/` runs the library on concrete inputs.

## Layout of `src/`

| Modules | What they hold |
| --- | --- |
| `pmm`, `vmm`, `heap` | physical frames, page tables and address spaces, the kernel heap |
| `scheduler`, `blocking`, `sync` | threads, waiting, semaphores and locks, the interrupt-safe spinlock |
| `elf`, `process`, `syscall` | loading programs, making processes of them, serving their calls |
| `block`, `partition`, `fs_probe`, `fat32`, `initramfs`, `vfs` | disks, partition tables, file systems, mounts |
| `acpi`, `pic`, `lapic`, `ioapic`, `pit`, `interrupts`, `idt`, `gdt` | interrupts, the clock, descriptors |
| `drivers` | PCI, AHCI, NVMe, PS/2 and USB keyboards |
| `framebuffer`, `console`, `logger`, `panic_screen`, `serial` | what is shown and logged |
| `bits`, `bytes`, `text` | arithmetic on words, byte order, strings |

## How it is put together

- Physical memory is a value, `PhysicalMemory`: its bytes, and the bitmap of the
  frames that are in use. Page tables are bytes of it, so that what the processor
  would see at an address (`walked`, `leaf_at`) is a function of that value.
- A disk is a sequence of sectors. A mounted volume is described by what its
  sectors say, and every operation on it by the volume that it leaves.
- Hardware is never touched from `src/`. A driver is a state and a step function:
  it is told what came of its last request and says what is to be done next, or it
  returns the list of writes to make. `app/` carries them out.
- What holds across functions is stated by the proof functions whose names start
  with `law_`: what a read gives back of a write, that all memory of a process comes
  back, that no two loans overlap, that a lock is held by one at a time, whose the
  stack slots in use are, that the heap, the stacks and the processes leave each other's
  memory alone, that a driver's steps come to an end. Where they speak of calls, they
  speak of what the calls' own contracts say of the results.

## What is not proved

Verus takes the following on trust: `String::push`, `char::from_u32`,
`String::from_utf8_lossy` and `core::str::from_utf8` of the standard library, and
the lock of the `spin` crate. Each stands behind a declaration that says what is
taken for granted about it. The code in `app/` is ordinary Rust. It keeps the
library's preconditions by testing what comes from outside, and by handing the
library's own states and results on as they are.
