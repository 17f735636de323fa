# Lythos

The core of a capability-aware microkernel, verified with Verus.

Authority in Lythos is something a task holds. Every call is decided against the
capabilities in the caller's table, rights only shrink as they are passed on, and
a revocation reaches everything that was derived from what is revoked. The
library decides; what it cannot do itself, on user memory, page tables,
endpoints, volumes or hardware, it hands back as a value that says what to do.

## Layout

- `src/` is the library. Each type has a view, and each function states over
  views what it returns and changes.
  - `cap`, `identity`, `kernel`, `task`, `syscall`: capabilities and their
    identities, the kernel's state, the scheduler, and the decision of every call.
  - `pmm`, `heap`, `vmm`, `elf`: frames, the heap, address spaces, binaries.
  - `rfs`, `vfs`, `store`: the on-disk file system; mounts and descriptors; the
    store, whose names are sealed and removed whole.
  - `net`: Ethernet, ARP, IPv4, ICMP and UDP.
  - `device`, `pci`: devices that drivers in user space may claim.
  - `acpi`, `apic`, `ioapic`, `idt`, `gdt`, `exceptions`, `smp`, `serial`,
    `keyboard`, `console`, `framebuffer`, `log`, `time`, `kaslr`, `kdf`, `boot`:
    the machine.
  - `bytes`, `text`: encodings that the others share.
- `tests/` runs the library on concrete values.
- `app/` drives the hardware and carries out what the library decides.

Proof functions whose names begin with `law_` state what holds across calls: that
no call amplifies authority, that a stale handle is refused, that frames are
handed out once, that a read gives back what was written, that what is made at a
path is found there.
