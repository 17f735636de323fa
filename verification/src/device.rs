//! Devices owned by userspace drivers.
//!
//! A driver owns one device through a device capability. Every call resolves
//! the capability before it looks at any argument, so that a caller without it
//! learns nothing.

use vstd::prelude::*;
use vstd::utf8::valid_utf8;
use crate::cap::{
    get_object, holds_any, slot_lookup, CapHandle, CapKind, CapRights, KernelObject, KoTable,
};
use crate::kernel::{current_caps, current_task, minted, Kernel, KernelView};
use crate::pci::{address_of, claimed, named, DeviceBar};
use crate::pmm::{first_run, lemma_run_of, run_free, run_of, with_run, FRAME_SIZE};
use crate::syscall::{
    is_user_page, user_page, user_range, valid_user_range, Action, EINVAL, ENOENT, ENOPERM,
    USER_END,
};
use crate::task::{lemma_woken_shape, woken, SchedView, TaskId};
use crate::text::is_utf8;
use crate::vmm::PageFlags;

verus! {

/// The interrupt vector of the first device slot.
pub const DEV_IRQ_VEC_BASE: u8 = 36;

/// How a device's interrupt is redirected: level-triggered and active-low.
pub const DEV_IRQ_FLAGS: u32 = 0xA000;

/// The most devices with an interrupt at a time.
pub const MAX_DEV_IRQS: usize = 4;

/// The largest buffer that a driver may ask for.
pub const MAX_DMA: u64 = 0x40_0000;

/// The longest device name.
pub const MAX_NAME: u64 = 64;

/// The interrupt of a claimed device.
#[derive(Clone, Copy, Debug, PartialEq, Eq, Structural)]
pub struct DevIrq {
    pub active: bool,
    pub registry_idx: usize,
    pub gsi: u32,
    /// It was raised and not yet waited for.
    pub pending: bool,
    pub waiter: Option<TaskId>,
}

/// A slot that serves no device.
pub open spec fn idle_irq() -> DevIrq {
    DevIrq { active: false, registry_idx: 0, gsi: 0, pending: false, waiter: None }
}

/// No slot serves a device.
pub open spec fn idle_irqs() -> Seq<DevIrq> {
    seq![idle_irq(), idle_irq(), idle_irq(), idle_irq()]
}

pub struct IrqTable {
    slots: Vec<DevIrq>,
}

impl View for IrqTable {
    type V = Seq<DevIrq>;

    closed spec fn view(&self) -> Seq<DevIrq> {
        self.slots@
    }
}

/// The table has all its slots.
pub open spec fn irqs_ok(irqs: Seq<DevIrq>) -> bool {
    irqs.len() == MAX_DEV_IRQS
}

/// The first slot from `k` on that serves a device, or the length.
pub open spec fn serving(irqs: Seq<DevIrq>, registry_idx: usize, k: int) -> int
    decreases irqs.len() - k,
{
    if k >= irqs.len() {
        irqs.len() as int
    } else if irqs[k].active && irqs[k].registry_idx == registry_idx {
        k
    } else {
        serving(irqs, registry_idx, k + 1)
    }
}

/// The first slot from `k` on that serves no device, or the length.
pub open spec fn vacant(irqs: Seq<DevIrq>, k: int) -> int
    decreases irqs.len() - k,
{
    if k >= irqs.len() {
        irqs.len() as int
    } else if !irqs[k].active {
        k
    } else {
        vacant(irqs, k + 1)
    }
}

impl IrqTable {
    pub fn new() -> (t: IrqTable)
        ensures
            irqs_ok(t@),
            t@ == idle_irqs(),
    {
        let idle = DevIrq { active: false, registry_idx: 0, gsi: 0, pending: false, waiter: None };
        let mut slots: Vec<DevIrq> = Vec::new();
        slots.push(idle);
        slots.push(idle);
        slots.push(idle);
        slots.push(idle);
        assert(slots@ =~= idle_irqs());
        IrqTable { slots }
    }

    /// The slot that serves a device.
    pub fn irq_slot_for(&self, registry_idx: usize) -> (r: Option<usize>)
        ensures
            match r {
                Some(i) => i < self@.len() && i == serving(self@, registry_idx, 0),
                None => serving(self@, registry_idx, 0) == self@.len(),
            },
    {
        let mut k: usize = 0;
        while k < self.slots.len()
            invariant
                k <= self.slots@.len(),
                serving(self@, registry_idx, 0) == serving(self@, registry_idx, k as int),
            decreases self.slots@.len() - k,
        {
            if self.slots[k].active && self.slots[k].registry_idx == registry_idx {
                return Some(k);
            }
            k += 1;
        }
        None
    }

    fn vacant_slot(&self) -> (r: Option<usize>)
        ensures
            match r {
                Some(i) => i < self@.len() && i == vacant(self@, 0),
                None => vacant(self@, 0) == self@.len(),
            },
    {
        let mut k: usize = 0;
        while k < self.slots.len()
            invariant
                k <= self.slots@.len(),
                vacant(self@, 0) == vacant(self@, k as int),
            decreases self.slots@.len() - k,
        {
            if !self.slots[k].active {
                return Some(k);
            }
            k += 1;
        }
        None
    }

    fn put(&mut self, i: usize, d: DevIrq)
        requires
            i < old(self)@.len(),
        ensures
            final(self)@ == old(self)@.update(i as int, d),
    {
        self.slots.set(i, d);
    }

    fn at(&self, i: usize) -> (d: DevIrq)
        requires
            i < self@.len(),
        ensures
            d == self@[i as int],
    {
        self.slots[i]
    }
}

// ── Interrupts ───────────────────────────────────────────────────────────────

/// The state after a device raised its interrupt: it is latched, and a waiting
/// driver is woken.
pub open spec fn raised(k: KernelView, slot: int) -> KernelView {
    if 0 <= slot < k.irqs.len() && k.irqs[slot].active {
        KernelView {
            irqs: k.irqs.update(slot, DevIrq { pending: true, waiter: None, ..k.irqs[slot] }),
            sched: match k.irqs[slot].waiter {
                Some(id) => SchedView { tasks: woken(k.sched.tasks, id), ..k.sched },
                None => k.sched,
            },
            ..k
        }
    } else {
        k
    }
}

/// A device raised its interrupt. The result is the line to mask, so that it
/// does not fire again before the driver has served it.
pub fn device_irq_dispatch(k: &mut Kernel, slot: u32) -> (mask: Option<u32>)
    requires
        old(k).wf(),
    ensures
        final(k).wf(),
        final(k)@ == raised(old(k)@, slot as int),
        mask == if slot < old(k)@.irqs.len() && old(k)@.irqs[slot as int].active {
            Some(old(k)@.irqs[slot as int].gsi)
        } else {
            None
        },
{
    if slot as usize >= MAX_DEV_IRQS {
        return None;
    }
    let i: usize = slot as usize;
    let d: DevIrq = k.irqs.at(i);
    if !d.active {
        return None;
    }
    k.irqs.put(i, DevIrq { pending: true, waiter: None, ..d });
    if let Some(id) = d.waiter {
        proof {
            lemma_woken_shape(k@.sched, id);
        }
        k.sched.wake_task(id);
    }
    assert(k@ =~= raised(old(k)@, slot as int));
    Some(d.gsi)
}

// ── Capabilities ─────────────────────────────────────────────────────────────

/// The device that a handle of the current task names, where its capability
/// has the rights.
pub open spec fn resolved(k: KernelView, handle: u64, need: CapRights) -> Option<usize> {
    match slot_lookup(current_caps(k), handle) {
        Ok(cap) => if cap.kind == CapKind::Device && cap.rights.spec_has(need) {
            match slot_lookup(k.objects, cap.object.0) {
                Ok(KernelObject::Device { registry_idx }) => Some(registry_idx),
                _ => None,
            }
        } else {
            None
        },
        Err(_) => None,
    }
}

/// The device that a handle of the current task names, with the rights that are
/// needed; `ENOPERM` in every other case.
pub fn resolve_device(k: &Kernel, handle: u64, need: CapRights) -> (r: Result<usize, u64>)
    requires
        k.wf(),
    ensures
        r == match resolved(k@, handle, need) {
            Some(idx) => Ok(idx),
            None => Err(ENOPERM),
        },
{
    match k.current_table().get(CapHandle(handle)) {
        Ok(cap) => {
            if cap.kind != CapKind::Device || !cap.rights.has(need) {
                return Err(ENOPERM);
            }
            match get_object(&k.objects, cap.object) {
                Some(KernelObject::Device { registry_idx }) => Ok(*registry_idx),
                _ => Err(ENOPERM),
            }
        },
        Err(_) => Err(ENOPERM),
    }
}

// ── Calls ────────────────────────────────────────────────────────────────────

/// Claiming a device needs the rollback capability, which init alone holds.
pub open spec fn claim_call(k: KernelView, ptr: u64, len: u64) -> Action {
    if !holds_any(current_caps(k), CapKind::Rollback) {
        Action::Return(ENOPERM)
    } else if len == 0 || len > MAX_NAME || !user_range(ptr, len) {
        Action::Return(EINVAL)
    } else {
        Action::Claim { ptr, len }
    }
}

/// Claim a device by the name in user memory.
pub fn sys_dev_claim(k: &Kernel, ptr: u64, len: u64) -> (a: Action)
    requires
        k.wf(),
    ensures
        a == claim_call(k@, ptr, len),
{
    if !k.current_table().has_kind(CapKind::Rollback) {
        return Action::Return(ENOPERM);
    }
    if len == 0 || len > MAX_NAME || !valid_user_range(ptr, len) {
        return Action::Return(EINVAL);
    }
    Action::Claim { ptr, len }
}

/// The interrupt to set up for a device that was claimed.
#[derive(Clone, Copy, Debug, PartialEq, Eq, Structural)]
pub struct Wiring {
    pub slot: usize,
    pub vector: u8,
    pub gsi: u32,
    /// Level-triggered and active-low.
    pub flags: u32,
}

/// The interrupt slot that a device of the registry gets, where one is vacant.
pub open spec fn wiring(k: KernelView, idx: int) -> Option<Wiring> {
    let slot = vacant(k.irqs, 0);
    if slot < k.irqs.len() {
        Some(
            Wiring {
                slot: slot as usize,
                vector: (DEV_IRQ_VEC_BASE + slot) as u8,
                gsi: k.devices[idx].irq_line as u32,
                flags: DEV_IRQ_FLAGS,
            },
        )
    } else {
        None
    }
}

/// The state with a device claimed and its interrupt slot taken.
pub open spec fn wired(k: KernelView, idx: int) -> KernelView {
    KernelView {
        devices: claimed(k.devices, idx),
        irqs: match wiring(k, idx) {
            Some(w) => k.irqs.update(
                w.slot as int,
                DevIrq {
                    active: true,
                    registry_idx: idx as usize,
                    gsi: w.gsi,
                    pending: false,
                    waiter: None,
                },
            ),
            None => k.irqs,
        },
        ..k
    }
}

/// A device claimed by name: the state, the answer and the interrupt to set up.
/// The new capability has all rights.
pub open spec fn device_claimed(k: KernelView, name: Seq<u8>) -> (KernelView, u64, Option<Wiring>) {
    let idx = named(k.devices, name, 0);
    if !valid_utf8(name) {
        (k, EINVAL, None)
    } else if idx >= k.devices.len() {
        (k, ENOENT, None)
    } else if k.devices[idx].claimed {
        (k, EINVAL, None)
    } else if KoTable::full(k.objects) {
        (wired(k, idx), EINVAL, wiring(k, idx))
    } else {
        let (k1, handle) = minted(
            wired(k, idx),
            KernelObject::Device { registry_idx: idx as usize },
            CapKind::Device,
            CapRights(CapRights::ALL),
        );
        (k1, handle, wiring(k, idx))
    }
}

/// Claim the device with a name that was copied from user memory.
pub fn claim_device(k: &mut Kernel, name: &[u8]) -> (r: (u64, Option<Wiring>))
    requires
        old(k).wf(),
    ensures
        final(k).wf(),
        (final(k)@, r.0, r.1) == device_claimed(old(k)@, name@),
{
    if !is_utf8(name) {
        return (EINVAL, None);
    }
    let ghost k0 = k@;
    let idx: usize = match k.registry.find_registered(name) {
        Some(i) => i,
        None => {
            return (ENOENT, None);
        },
    };
    if !k.registry.mark_claimed(idx) {
        assert(k@.devices =~~= k0.devices);
        return (EINVAL, None);
    }
    let gsi: u32 = match k.registry.registry_get(idx) {
        Some(d) => d.irq_line as u32,
        None => 0,
    };
    let w: Option<Wiring> = match k.irqs.vacant_slot() {
        Some(slot) => {
            k.irqs.put(
                slot,
                DevIrq { active: true, registry_idx: idx, gsi, pending: false, waiter: None },
            );
            Some(Wiring { slot, vector: DEV_IRQ_VEC_BASE + slot as u8, gsi, flags: DEV_IRQ_FLAGS })
        },
        None => None,
    };
    assert(k@ =~= wired(k0, idx as int));
    let obj = KernelObject::Device { registry_idx: idx };
    match k.mint(obj, CapKind::Device, CapRights(CapRights::ALL)) {
        Some(handle) => (handle, w),
        None => (EINVAL, w),
    }
}

/// Reading a configuration register.
pub open spec fn cfg_read_call(k: KernelView, dev_cap: u64, offset: u64) -> Action {
    match resolved(k, dev_cap, CapRights(CapRights::READ)) {
        None => Action::Return(ENOPERM),
        Some(idx) => if offset >= 256 || offset % 4 != 0 || idx >= k.devices.len() {
            Action::Return(EINVAL)
        } else {
            let d = k.devices[idx as int];
            Action::ReadConfig { addr: address_of(d.bus, d.dev, 0, offset as u8) as u32 }
        },
    }
}

/// Read one dword of a device's configuration space.
pub fn sys_dev_cfg_read(k: &Kernel, dev_cap: u64, offset: u64) -> (a: Action)
    requires
        k.wf(),
    ensures
        a == cfg_read_call(k@, dev_cap, offset),
{
    match resolve_device(k, dev_cap, CapRights(CapRights::READ)) {
        Err(e) => Action::Return(e),
        Ok(idx) => {
            if offset >= 256 || offset % 4 != 0 {
                return Action::Return(EINVAL);
            }
            match k.registry.registry_cfg_read(idx, offset as u8) {
                Some(addr) => Action::ReadConfig { addr },
                None => Action::Return(EINVAL),
            }
        },
    }
}

/// Pages that so many bytes take.
pub open spec fn pages_for(size: u64) -> int {
    (size + 0xFFF) / 0x1000
}

/// Mapping a memory BAR, uncached, where it and its place are fit for that.
pub open spec fn mmio_map_call(k: KernelView, dev_cap: u64, bar: u64, virt: u64) -> Action {
    match resolved(k, dev_cap, CapRights(CapRights::WRITE)) {
        None => Action::Return(ENOPERM),
        Some(idx) => if bar >= 6 || !user_page(virt) || idx >= k.devices.len() {
            Action::Return(EINVAL)
        } else {
            let b = k.devices[idx as int].bars[bar as int];
            if !b.is_mem || b.size == 0 || b.base % 0x1000 != 0 || virt + pages_for(b.size) * 0x1000
                > USER_END {
                Action::Return(EINVAL)
            } else {
                Action::MapDevice {
                    va: virt,
                    phys: b.base,
                    pages: pages_for(b.size) as u64,
                    flags: PageFlags(0x8000_0000_0000_0217),
                    ret: b.size,
                }
            }
        },
    }
}

/// Map a memory BAR of a device.
pub fn sys_dev_mmio_map(k: &Kernel, dev_cap: u64, bar: u64, virt: u64) -> (a: Action)
    requires
        k.wf(),
    ensures
        a == mmio_map_call(k@, dev_cap, bar, virt),
{
    match resolve_device(k, dev_cap, CapRights(CapRights::WRITE)) {
        Err(e) => Action::Return(e),
        Ok(idx) => {
            if bar >= 6 || !is_user_page(virt) {
                return Action::Return(EINVAL);
            }
            match k.registry.registry_get(idx) {
                None => Action::Return(EINVAL),
                Some(d) => {
                    let b: DeviceBar = d.bars[bar as usize];
                    if !b.is_mem || b.size == 0 || b.base % 0x1000 != 0 {
                        return Action::Return(EINVAL);
                    }
                    let pages: u128 = (b.size as u128 + 0xFFF) / 0x1000;
                    if virt as u128 + pages * 0x1000 > USER_END as u128 {
                        return Action::Return(EINVAL);
                    }
                    Action::MapDevice {
                        va: virt,
                        phys: b.base,
                        pages: pages as u64,
                        flags: PageFlags(0x8000_0000_0000_0217),
                        ret: b.size,
                    }
                },
            }
        },
    }
}

/// Allocating a buffer that a device may be handed.
pub open spec fn dma_alloc_call(k: KernelView, dev_cap: u64, virt: u64, size: u64, out: u64) -> (
    KernelView,
    Action,
) {
    if resolved(k, dev_cap, CapRights(CapRights::WRITE)) is None {
        (k, Action::Return(ENOPERM))
    } else if size == 0 || size > MAX_DMA || !user_page(virt) || !user_range(out, 8) || virt
        + pages_for(size) * 0x1000 > USER_END {
        (k, Action::Return(EINVAL))
    } else {
        match run_of(k.used, pages_for(size), 0) {
            None => (k, Action::Return(EINVAL)),
            Some(start) => (
                KernelView {
                    used: with_run(k.used, start, start + pages_for(size), true),
                    ..k
                },
                Action::MapDma {
                    va: virt,
                    phys: (start * FRAME_SIZE) as u64,
                    pages: pages_for(size) as u64,
                    flags: PageFlags(PageFlags::USER_RW),
                    out,
                },
            ),
        }
    }
}

/// Allocate contiguous frames for a device's buffer.
pub fn sys_dev_dma_alloc(k: &mut Kernel, dev_cap: u64, virt: u64, size: u64, out: u64) -> (a: Action)
    requires
        old(k).wf(),
    ensures
        final(k).wf(),
        (final(k)@, a) == dma_alloc_call(old(k)@, dev_cap, virt, size, out),
{
    match resolve_device(k, dev_cap, CapRights(CapRights::WRITE)) {
        Err(e) => {
            return Action::Return(e);
        },
        Ok(_) => {},
    }
    if size == 0 || size > MAX_DMA || !is_user_page(virt) || !valid_user_range(out, 8) {
        return Action::Return(EINVAL);
    }
    let pages: u64 = (size + 0xFFF) / 0x1000;
    if virt + pages * 0x1000 > USER_END {
        return Action::Return(EINVAL);
    }
    proof {
        lemma_run_of(k@.used, pages as int, 0);
    }
    let ghost k0 = k@;
    match k.frames.alloc_frames_contiguous(pages as usize) {
        None => {
            proof {
                let r = run_of(k0.used, pages as int, 0);
                if r is Some {
                    assert(run_free(k0.used, r->0, r->0 + pages));
                }
            }
            Action::Return(EINVAL)
        },
        Some(p) => {
            proof {
                let start = p.0 as int / FRAME_SIZE as int;
                assert(first_run(k0.used, pages as int, start));
                assert(start * FRAME_SIZE == p.0);
            }
            Action::MapDma {
                va: virt,
                phys: p.as_u64(),
                pages,
                flags: PageFlags(PageFlags::USER_RW),
                out,
            }
        },
    }
}

/// Waiting for a device's interrupt: one that is pending is taken; else the task
/// is noted as waiting.
pub open spec fn irq_wait_call(k: KernelView, dev_cap: u64) -> (KernelView, Action) {
    match resolved(k, dev_cap, CapRights(CapRights::READ)) {
        None => (k, Action::Return(ENOPERM)),
        Some(idx) => {
            let slot = serving(k.irqs, idx, 0);
            if slot >= k.irqs.len() {
                (k, Action::Return(ENOPERM))
            } else if k.irqs[slot].pending {
                (
                    KernelView {
                        irqs: k.irqs.update(slot, DevIrq { pending: false, ..k.irqs[slot] }),
                        ..k
                    },
                    Action::Return(0),
                )
            } else {
                (
                    KernelView {
                        irqs: k.irqs.update(
                            slot,
                            DevIrq { waiter: Some(current_task(k).id), ..k.irqs[slot] },
                        ),
                        ..k
                    },
                    Action::BlockOnIrq,
                )
            }
        },
    }
}

/// Wait for a device's interrupt.
pub fn sys_dev_irq_wait(k: &mut Kernel, dev_cap: u64) -> (a: Action)
    requires
        old(k).wf(),
    ensures
        final(k).wf(),
        (final(k)@, a) == irq_wait_call(old(k)@, dev_cap),
{
    let idx: usize = match resolve_device(k, dev_cap, CapRights(CapRights::READ)) {
        Err(e) => {
            return Action::Return(e);
        },
        Ok(i) => i,
    };
    match k.irqs.irq_slot_for(idx) {
        None => Action::Return(ENOPERM),
        Some(slot) => {
            let d: DevIrq = k.irqs.at(slot);
            if d.pending {
                k.irqs.put(slot, DevIrq { pending: false, ..d });
                Action::Return(0)
            } else {
                let id: TaskId = k.sched.current_task_id();
                k.irqs.put(slot, DevIrq { waiter: Some(id), ..d });
                Action::BlockOnIrq
            }
        },
    }
}

/// Acknowledging a device's interrupt.
pub open spec fn irq_ack_call(k: KernelView, dev_cap: u64) -> Action {
    match resolved(k, dev_cap, CapRights(CapRights::READ)) {
        None => Action::Return(ENOPERM),
        Some(idx) => {
            let slot = serving(k.irqs, idx, 0);
            if slot >= k.irqs.len() {
                Action::Return(ENOPERM)
            } else {
                Action::Unmask { gsi: k.irqs[slot].gsi }
            }
        },
    }
}

/// Acknowledge a device's interrupt once it was served.
pub fn sys_dev_irq_ack(k: &Kernel, dev_cap: u64) -> (a: Action)
    requires
        k.wf(),
    ensures
        a == irq_ack_call(k@, dev_cap),
{
    match resolve_device(k, dev_cap, CapRights(CapRights::READ)) {
        Err(e) => Action::Return(e),
        Ok(idx) => match k.irqs.irq_slot_for(idx) {
            None => Action::Return(ENOPERM),
            Some(slot) => Action::Unmask { gsi: k.irqs.at(slot).gsi },
        },
    }
}

// ── Laws ─────────────────────────────────────────────────────────────────────

/// A task that a handle gives no device is refused, whatever its arguments are,
/// and nothing changes.
pub proof fn law_no_capability_no_device(
    k: KernelView,
    dev_cap: u64,
    a: u64,
    b: u64,
    c: u64,
)
    requires
        resolved(k, dev_cap, CapRights(CapRights::READ)) is None,
        resolved(k, dev_cap, CapRights(CapRights::WRITE)) is None,
    ensures
        cfg_read_call(k, dev_cap, a) == Action::Return(ENOPERM),
        mmio_map_call(k, dev_cap, a, b) == Action::Return(ENOPERM),
        dma_alloc_call(k, dev_cap, a, b, c) == (k, Action::Return(ENOPERM)),
        irq_wait_call(k, dev_cap) == (k, Action::Return(ENOPERM)),
        irq_ack_call(k, dev_cap) == Action::Return(ENOPERM),
{
}

/// Only a task with the rollback capability claims a device.
pub proof fn law_only_init_claims(k: KernelView, ptr: u64, len: u64)
    requires
        !holds_any(current_caps(k), CapKind::Rollback),
    ensures
        claim_call(k, ptr, len) == Action::Return(ENOPERM),
{
}

/// An interrupt that was raised before the driver waits is not lost: the wait
/// returns at once, and the next one blocks.
pub proof fn law_raised_interrupt_is_not_lost(k: KernelView, dev_cap: u64, idx: usize)
    requires
        resolved(k, dev_cap, CapRights(CapRights::READ)) == Some(idx),
        serving(k.irqs, idx, 0) < k.irqs.len(),
    ensures
        ({
            let slot = serving(k.irqs, idx, 0);
            let (k1, first) = irq_wait_call(raised(k, slot), dev_cap);
            let (k2, second) = irq_wait_call(k1, dev_cap);
            &&& first == Action::Return(0)
            &&& second == Action::BlockOnIrq
        }),
{
    let slot = serving(k.irqs, idx, 0);
    lemma_serving(k.irqs, idx, 0);
    let k0 = raised(k, slot);
    lemma_serving_same(k.irqs, k0.irqs, idx, 0);
    let k1 = irq_wait_call(k0, dev_cap).0;
    lemma_serving_same(k0.irqs, k1.irqs, idx, 0);
}

/// A driver that waits is woken when its device raises the interrupt.
pub proof fn law_waiting_driver_is_woken(k: KernelView, dev_cap: u64, idx: usize)
    requires
        resolved(k, dev_cap, CapRights(CapRights::READ)) == Some(idx),
        irq_wait_call(k, dev_cap).1 == Action::BlockOnIrq,
    ensures
        ({
            let k1 = irq_wait_call(k, dev_cap).0;
            let slot = serving(k.irqs, idx, 0);
            raised(k1, slot).sched.tasks == woken(k1.sched.tasks, current_task(k).id)
        }),
{
    lemma_serving(k.irqs, idx, 0);
}

pub proof fn lemma_serving(irqs: Seq<DevIrq>, idx: usize, k: int)
    requires
        0 <= k <= irqs.len(),
    ensures
        k <= serving(irqs, idx, k) <= irqs.len(),
        serving(irqs, idx, k) < irqs.len() ==> irqs[serving(irqs, idx, k)].active && irqs[serving(
            irqs,
            idx,
            k,
        )].registry_idx == idx,
        forall|i: int|
            k <= i < serving(irqs, idx, k) ==> !((#[trigger] irqs[i]).active
                && irqs[i].registry_idx == idx),
    decreases irqs.len() - k,
{
    if k < irqs.len() && !(irqs[k].active && irqs[k].registry_idx == idx) {
        lemma_serving(irqs, idx, k + 1);
    }
}

proof fn lemma_serving_same(a: Seq<DevIrq>, b: Seq<DevIrq>, idx: usize, k: int)
    requires
        0 <= k <= a.len(),
        a.len() == b.len(),
        forall|i: int|
            0 <= i < a.len() ==> (#[trigger] a[i]).active == b[i].active && a[i].registry_idx
                == b[i].registry_idx,
    ensures
        serving(a, idx, k) == serving(b, idx, k),
    decreases a.len() - k,
{
    if k < a.len() {
        assert(a[k].active == b[k].active);
        lemma_serving_same(a, b, idx, k + 1);
    }
}

} // verus!
