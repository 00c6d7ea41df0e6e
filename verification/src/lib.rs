//! The hardware-independent core of EonOS, a small x86_64 kernel.

pub mod bytes;
pub mod text;
pub mod block;
pub mod fat32;
pub mod bits;
pub mod pmm;
pub mod vmm;
pub mod elf;
pub mod heap;
pub mod scheduler;
pub mod blocking;
pub mod drivers;
pub mod initramfs;
pub mod partition;
pub mod fs_probe;
pub mod acpi;
pub mod syscall;
pub mod vfs;
pub mod process;
pub mod gdt;
pub mod pic;
pub mod pit;
pub mod interrupts;
pub mod ioapic;
pub mod lapic;
pub mod framebuffer;
pub mod console;
pub mod logger;
pub mod serial;
pub mod panic_screen;
pub mod idt;
pub mod sync;
