//! Devices on the bus, and the drivers that claim them.

use lythos::cap::{CapKind, CapRights, KernelObject};
use lythos::device::{claim_device, device_irq_dispatch, resolve_device, Wiring};
use lythos::ioapic::{IRQ_ACTIVE_LO, IRQ_LEVEL};
use lythos::kernel::Kernel;
use lythos::pci::{
    allowlisted, config_addr, enable_io_mem, find, find_device, find_nth_device, probe_bar,
    read_bar32, BarProbe, DeviceBar, Registry, SlotHeader, MAX_REGISTERED_DEVICES, PROBED,
};
use lythos::pmm::Frames;
use lythos::syscall::{
    syscall_dispatch, Action, SyscallFrame, EINVAL, ENOENT, ENOPERM, SYS_DEV_CFG_READ,
    SYS_DEV_CLAIM, SYS_DEV_DMA_ALLOC, SYS_DEV_IRQ_ACK, SYS_DEV_IRQ_WAIT, SYS_DEV_MMIO_MAP,
};
use lythos::time::Clock;
use lythos::vmm::PageFlags;

const USER: u64 = 0x7_0000_0000;

fn empty_slot() -> SlotHeader {
    SlotHeader { id: 0xFFFF_FFFF, command: 0, bar0: 0, irq_info: 0 }
}

fn net_slot(irq: u32) -> SlotHeader {
    SlotHeader { id: 0x1000_1AF4, command: 0x100, bar0: 0xC041, irq_info: 0x100 + irq }
}

fn unprobed() -> Vec<BarProbe> {
    vec![BarProbe { orig: 0, mask: 0 }; PROBED]
}

/// An I/O BAR and a memory BAR of two pages.
fn net_probes() -> Vec<BarProbe> {
    let mut p = unprobed();
    p[0] = BarProbe { orig: 0xC041, mask: 0xFFFF_FFC1 };
    p[1] = BarProbe { orig: 0xFEBF_0000, mask: 0xFFFF_E000 };
    p
}

fn registry(n: usize) -> Registry {
    let mut bus = vec![empty_slot()];
    let mut probes = vec![unprobed()];
    for k in 0..n {
        bus.push(net_slot(10 + k as u32));
        probes.push(net_probes());
    }
    Registry::init_device_registry(&bus, &probes).0
}

fn kernel(n: usize) -> Kernel {
    let frames = Frames::init_from_limine(&[(0, 0x100_0000, 0)], 0, 0x10_0000);
    Kernel::new(frames, registry(n), Clock::Anchored { epoch_ms: 0, mono: 0 }, false)
}

fn go(k: &mut Kernel, nr: u64, args: [u64; 4]) -> Action {
    let f = SyscallFrame {
        r15: 0,
        r14: 0,
        r13: 0,
        r12: 0,
        rbx: 0,
        rbp: 0,
        r11: 0,
        rcx: 0,
        nr,
        a1: args[0],
        a2: args[1],
        a3: args[2],
        a4: args[3],
        a5: 0,
        a6: 0,
    };
    syscall_dispatch(k, &f)
}

fn ret(r: u64) -> Action {
    Action::Return(r)
}

// ── The bus ──────────────────────────────────────────────────────────────────

#[test]
fn registers_have_addresses() {
    assert_eq!(config_addr(0, 3, 0, 0x10), 0x8000_1810);
    assert_eq!(config_addr(1, 31, 7, 0x3F), 0x8001_FF3C);
    assert_eq!(read_bar32(0, 2, 5), 0x8000_1024);
    assert_eq!(enable_io_mem(0x100), 0x103);
}

#[test]
fn devices_are_found_by_their_identity() {
    let mut other = net_slot(5);
    other.bar0 = 0xFEB0_0000;
    let bus = [empty_slot(), other, net_slot(11), net_slot(12)];
    assert_eq!(find(&bus, 0x1AF4, 0x1000), Some((0, 1)));
    assert_eq!(find(&bus, 0x1AF4, 0x1001), None);
    // Only one with an I/O BAR can be driven through it.
    let (d, command) = find_device(&bus, 0x1AF4, 0x1000).unwrap();
    assert_eq!((d.bus, d.dev, d.vendor, d.device), (0, 2, 0x1AF4, 0x1000));
    assert_eq!((d.io_bar0, d.irq_line), (0xC040, 11));
    assert_eq!(command, 0x104);
    let (d, _) = find_nth_device(&bus, 0x1AF4, 0x1000, 1).unwrap();
    assert_eq!(d.dev, 3);
    assert!(find_nth_device(&bus, 0x1AF4, 0x1000, 2).is_none());
    assert!(find_device(&[empty_slot()], 0xFFFF, 0xFFFF).is_none());
}

#[test]
fn bars_are_decoded() {
    let none = BarProbe { orig: 0, mask: 0 };
    let io = probe_bar(BarProbe { orig: 0xC041, mask: 0xFFFF_FFC1 }, none);
    assert_eq!(io, (DeviceBar { base: 0xC040, size: 0x40, is_mem: false }, false));
    let mem = probe_bar(BarProbe { orig: 0xFEBF_0000, mask: 0xFFFF_F000 }, none);
    assert_eq!(mem, (DeviceBar { base: 0xFEBF_0000, size: 0x1000, is_mem: true }, false));
    let wide = probe_bar(
        BarProbe { orig: 0xE000_000C, mask: 0xFFFF_C00C },
        BarProbe { orig: 0x8, mask: 0xFFFF_FFFF },
    );
    assert_eq!(wide, (DeviceBar { base: 0x8_E000_0000, size: 0x4000, is_mem: true }, true));
    assert_eq!(probe_bar(none, none), (DeviceBar { base: 0, size: 0, is_mem: true }, false));
}

#[test]
fn the_registry_holds_what_drivers_may_have() {
    assert_eq!(allowlisted(0x1AF4, 0x1000), Some(b"virtio-net".to_vec()));
    assert_eq!(allowlisted(0x1AF4, 0x1001), None);
    let r = registry(2);
    assert_eq!(r.registry_len(), 2);
    let d = r.registry_get(1).unwrap();
    assert_eq!((d.dev, d.irq_line, d.claimed), (2, 11, false));
    assert_eq!(d.bars[1].size, 0x2000);
    assert!(r.registry_get(2).is_none());
    assert_eq!(r.find_registered(b"virtio-net"), Some(0));
    assert_eq!(r.find_registered(b"virtio"), None);
    assert_eq!(r.registry_cfg_read(1, 4), Some(0x8000_1004));
    assert_eq!(r.registry_cfg_read(2, 4), None);
    assert_eq!(registry(20).registry_len(), MAX_REGISTERED_DEVICES);
    let (_, writes) = Registry::init_device_registry(
        &[empty_slot(), net_slot(10)],
        &vec![unprobed(), net_probes()],
    );
    assert_eq!(writes, vec![(0x8000_0804, 0x107)]);
}

#[test]
fn a_device_is_claimed_once() {
    let mut r = registry(1);
    assert!(r.mark_claimed(0));
    assert!(!r.mark_claimed(0));
    assert!(!r.mark_claimed(1));
}

// ── Drivers ──────────────────────────────────────────────────────────────────

#[test]
fn only_init_claims_devices() {
    let mut k = kernel(1);
    assert_eq!(go(&mut k, SYS_DEV_CLAIM, [USER, 10, 0, 0]), ret(ENOPERM));
    k.mint(KernelObject::Rollback, CapKind::Rollback, CapRights(0)).unwrap();
    assert_eq!(
        go(&mut k, SYS_DEV_CLAIM, [USER, 10, 0, 0]),
        Action::Claim { ptr: USER, len: 10 }
    );
    assert_eq!(go(&mut k, SYS_DEV_CLAIM, [USER, 65, 0, 0]), ret(EINVAL));
    assert_eq!(go(&mut k, SYS_DEV_CLAIM, [USER, 0, 0, 0]), ret(EINVAL));
    assert_eq!(claim_device(&mut k, b"nothing"), (ENOENT, None));
    assert_eq!(claim_device(&mut k, b"\xFF"), (EINVAL, None));
    let (handle, w) = claim_device(&mut k, b"virtio-net");
    assert_eq!(w, Some(Wiring { slot: 0, vector: 36, gsi: 10, flags: IRQ_LEVEL | IRQ_ACTIVE_LO }));
    assert_eq!(resolve_device(&k, handle, CapRights(CapRights::ALL)), Ok(0));
    assert_eq!(claim_device(&mut k, b"virtio-net"), (EINVAL, None));
}

#[test]
fn a_driver_reaches_its_device_only() {
    let mut k = kernel(1);
    assert_eq!(go(&mut k, SYS_DEV_CFG_READ, [0, 0, 0, 0]), ret(ENOPERM));
    let (h, _) = claim_device(&mut k, b"virtio-net");
    assert_eq!(
        go(&mut k, SYS_DEV_CFG_READ, [h, 0x3C, 0, 0]),
        Action::ReadConfig { addr: 0x8000_083C }
    );
    assert_eq!(go(&mut k, SYS_DEV_CFG_READ, [h, 0x3D, 0, 0]), ret(EINVAL));
    assert_eq!(go(&mut k, SYS_DEV_CFG_READ, [h, 256, 0, 0]), ret(EINVAL));
    assert_eq!(
        go(&mut k, SYS_DEV_MMIO_MAP, [h, 1, USER, 0]),
        Action::MapDevice {
            va: USER,
            phys: 0xFEBF_0000,
            pages: 2,
            flags: PageFlags(0x8000_0000_0000_0217),
            ret: 0x2000,
        }
    );
    // BAR 0 is an I/O one, BAR 2 is absent, and there are six.
    assert_eq!(go(&mut k, SYS_DEV_MMIO_MAP, [h, 0, USER, 0]), ret(EINVAL));
    assert_eq!(go(&mut k, SYS_DEV_MMIO_MAP, [h, 2, USER, 0]), ret(EINVAL));
    assert_eq!(go(&mut k, SYS_DEV_MMIO_MAP, [h, 6, USER, 0]), ret(EINVAL));
    assert_eq!(go(&mut k, SYS_DEV_MMIO_MAP, [h, 1, USER + 1, 0]), ret(EINVAL));
    assert_eq!(go(&mut k, SYS_DEV_MMIO_MAP, [h + 7, 1, USER, 0]), ret(ENOPERM));
}

#[test]
fn buffers_for_devices_are_contiguous() {
    let mut k = kernel(1);
    let (h, _) = claim_device(&mut k, b"virtio-net");
    let free = k.frames.free_frame_count();
    assert_eq!(
        go(&mut k, SYS_DEV_DMA_ALLOC, [h, USER, 0x2001, USER + 0x10000]),
        Action::MapDma {
            va: USER,
            phys: 0x10_0000,
            pages: 3,
            flags: PageFlags(PageFlags::USER_RW),
            out: USER + 0x10000,
        }
    );
    assert_eq!(k.frames.free_frame_count(), free - 3);
    assert_eq!(go(&mut k, SYS_DEV_DMA_ALLOC, [h, USER, 0, USER]), ret(EINVAL));
    assert_eq!(go(&mut k, SYS_DEV_DMA_ALLOC, [h, USER, 0x40_0001, USER]), ret(EINVAL));
    assert_eq!(go(&mut k, SYS_DEV_DMA_ALLOC, [h, USER, 0x1000, 0]), ret(EINVAL));
    assert_eq!(k.frames.free_frame_count(), free - 3);
}

#[test]
fn an_interrupt_wakes_its_driver() {
    let mut k = kernel(1);
    let (h, _) = claim_device(&mut k, b"virtio-net");
    // One that came before the wait is not lost.
    assert_eq!(device_irq_dispatch(&mut k, 0), Some(10));
    assert_eq!(go(&mut k, SYS_DEV_IRQ_WAIT, [h, 0, 0, 0]), ret(0));
    assert_eq!(go(&mut k, SYS_DEV_IRQ_WAIT, [h, 0, 0, 0]), Action::BlockOnIrq);
    assert_eq!(device_irq_dispatch(&mut k, 0), Some(10));
    assert_eq!(go(&mut k, SYS_DEV_IRQ_WAIT, [h, 0, 0, 0]), ret(0));
    assert_eq!(go(&mut k, SYS_DEV_IRQ_ACK, [h, 0, 0, 0]), Action::Unmask { gsi: 10 });
    // Slots that no device has are left alone.
    assert_eq!(device_irq_dispatch(&mut k, 1), None);
    assert_eq!(device_irq_dispatch(&mut k, 9), None);
    assert_eq!(go(&mut k, SYS_DEV_IRQ_ACK, [h + 1, 0, 0, 0]), ret(ENOPERM));
}
