//! Lythos: the verified core of a capability-aware microkernel.

pub mod acpi;
pub mod apic;
pub mod boot;
pub mod bytes;
pub mod calllaws;
pub mod cap;
pub mod console;
pub mod device;
pub mod devlaws;
pub mod elf;
pub mod exceptions;
pub mod framebuffer;
pub mod gdt;
pub mod heap;
pub mod hwlaws;
pub mod identity;
pub mod idt;
pub mod ioapic;
pub mod kaslr;
pub mod kdf;
pub mod kernel;
pub mod keyboard;
pub mod layoutlaws;
pub mod log;
pub mod memlaws;
pub mod net;
pub mod pci;
pub mod pmm;
pub mod rfs;
pub mod serial;
pub mod smp;
pub mod store;
pub mod syscall;
pub mod task;
pub mod tasklaws;
pub mod termlaws;
pub mod text;
pub mod time;
pub mod vfs;
pub mod vfslaws;
pub mod vmm;
