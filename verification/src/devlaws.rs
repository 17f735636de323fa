//! What holds of devices, and of what a task is handed: what is made, found or
//! claimed can be used through the handle that is answered.

use vstd::prelude::*;
use vstd::utf8::valid_utf8;
use crate::calllaws::{
    holds, lemma_names, lemma_reachable, names, own, reachable, INVALID, NOT_FOUND, NOT_PERMITTED,
};
use crate::cap::{
    first_vacant, holds_any, lemma_first_vacant_bounds, next_generation, root_cap, slots_with,
    word_for_next, CapKind, CapRights, CapView, KernelObject, KernelObjectRef, SlotView,
};
use crate::device::{
    device_claimed, lemma_serving, raised, resolved, serving, vacant, wired, DevIrq, Wiring,
};
use crate::kernel::{minted, KernelView};
use crate::memlaws::{law_only_the_run_changes, law_the_lowest_run_is_handed_out};
use crate::pci::{
    bar_of, bars_from, bars_of, claimed, empty_bar, enabling, named, registered, BarProbe,
    DeviceBar, DeviceView, SlotHeader,
};
use crate::pmm::run_of;
use crate::syscall::{
    cap_arrived, dispatched, endpoint_found, endpoint_made, Action, SyscallFrame,
};
use crate::vmm::PageFlags;

verus! {

// ── What is handed out ───────────────────────────────────────────────────────

/// There is room for another item in a table.
pub open spec fn has_room<T>(slots: Seq<SlotView<T>>) -> bool {
    slots.len() < 0x1_0000_0000
}

/// Whatever a table named before, it names still.
pub open spec fn still_named<T>(before: Seq<SlotView<T>>, after: Seq<SlotView<T>>) -> bool {
    forall|word: u64, item: T| #[trigger] names(before, word, item) ==> names(after, word, item)
}

/// Through a handle the running task holds an object, with these rights.
pub open spec fn holds_object(
    k: KernelView,
    handle: u64,
    obj: KernelObject,
    kind: CapKind,
    rights: u8,
) -> bool {
    exists|cap: CapView| #[trigger]
        names(own(k), handle, cap) && cap.kind == kind && cap.rights.0 == rights && cap.parent_id
            is None && cap.children.len() == 0 && names(k.objects, cap.object.0, obj)
}

proof fn lemma_put_is_named<T>(slots: Seq<SlotView<T>>, item: T)
    requires
        has_room(slots),
    ensures
        names(
            slots_with(slots, item),
            word_for_next(slots) as u64,
            item,
        ),
        still_named(slots, slots_with(slots, item)),
{
    lemma_first_vacant_bounds(slots, 0);
    let i = first_vacant(slots, 0);
    let g = next_generation(slots, i);
    let w = g * 0x1_0000_0000 + i;
    assert(w < 0x1_0000_0000_0000_0000 && w % 0x1_0000_0000 == i && w / 0x1_0000_0000 == g);
}

/// The task that makes an endpoint, or looks one up, holds it through the handle
/// that is answered: all rights on one that it made, and the rights that the lookup
/// gives on one that it found. Everything that had a handle keeps it.
pub proof fn law_an_endpoint_is_held_by_its_handle(
    k: KernelView,
    endpoint: usize,
    name: Seq<u8>,
    rights: CapRights,
)
    requires
        0 <= k.sched.current < k.sched.caps.len(),
        has_room(k.objects),
        has_room(own(k)),
    ensures
        ({
            let (after, h) = endpoint_made(k, Some(endpoint));
            &&& holds_object(
                after,
                h,
                KernelObject::Ipc { endpoint_idx: endpoint },
                CapKind::Ipc,
                15,
            )
            &&& still_named(own(k), own(after))
            &&& still_named(k.objects, after.objects)
        }),
        endpoint_made(k, None) == (k, INVALID),
        valid_utf8(name) ==> {
            let (after, h) = endpoint_found(k, name, Some(endpoint), rights);
            &&& holds_object(
                after,
                h,
                KernelObject::Ipc { endpoint_idx: endpoint },
                CapKind::Ipc,
                rights.0,
            )
            &&& still_named(own(k), own(after))
            &&& still_named(k.objects, after.objects)
        },
        valid_utf8(name) ==> endpoint_found(k, name, None, rights) == (k, NOT_FOUND),
        !valid_utf8(name) ==> endpoint_found(k, name, Some(endpoint), rights) == (k, INVALID),
{
    let obj = KernelObject::Ipc { endpoint_idx: endpoint };
    lemma_minted_is_held(k, obj, CapKind::Ipc, CapRights(15));
    lemma_minted_is_held(k, obj, CapKind::Ipc, rights);
}

pub proof fn lemma_minted_is_held(k: KernelView, obj: KernelObject, kind: CapKind, rights: CapRights)
    requires
        0 <= k.sched.current < k.sched.caps.len(),
        has_room(k.objects),
        has_room(own(k)),
    ensures
        ({
            let (after, h) = minted(k, obj, kind, rights);
            &&& holds_object(after, h, obj, kind, rights.0)
            &&& still_named(own(k), own(after))
            &&& still_named(k.objects, after.objects)
        }),
{
    reveal(minted);
    let (after, h) = minted(k, obj, kind, rights);
    let r = KernelObjectRef(word_for_next(k.objects) as u64);
    let cap = root_cap(k.ids.next, kind, rights, r);
    lemma_put_is_named(k.objects, obj);
    lemma_put_is_named(own(k), cap);
    assert(own(after) == slots_with(own(k), cap));
    assert(names(own(after), h, cap));
}

/// A capability that comes with a message is held as it came, under the handle that
/// is answered; where none came, all ones are answered, and where nobody asked for
/// one, nothing changes.
pub proof fn law_an_arrived_capability_is_held(k: KernelView, out: u64, cap: CapView)
    requires
        0 <= k.sched.current < k.sched.caps.len(),
        has_room(own(k)),
    ensures
        cap_arrived(k, 0, Some(cap)) == (k, None::<u64>),
        out != 0 ==> cap_arrived(k, out, None) == (k, Some(0xFFFF_FFFF_FFFF_FFFFu64)),
        out != 0 ==> {
            let (after, h) = cap_arrived(k, out, Some(cap));
            &&& h is Some
            &&& names(own(after), h->0, cap)
            &&& still_named(own(k), own(after))
            &&& after.objects == k.objects
        },
{
    lemma_put_is_named(own(k), cap);
}

// ── Devices ──────────────────────────────────────────────────────────────────

/// The running task holds a device through a handle, with a right.
pub open spec fn drives(k: KernelView, handle: u64, device: usize, right: u8) -> bool {
    exists|cap: CapView| #[trigger]
        names(own(k), handle, cap) && cap.kind == CapKind::Device && cap.rights.0 & right == right
            && names(k.objects, cap.object.0, KernelObject::Device { registry_idx: device })
}

proof fn lemma_drives(k: KernelView, handle: u64, device: usize, right: u8)
    requires
        drives(k, handle, device, right),
    ensures
        resolved(k, handle, CapRights(right)) == Some(device),
{
    let cap = choose|cap: CapView| #[trigger]
        names(own(k), handle, cap) && cap.kind == CapKind::Device && cap.rights.0 & right == right
            && names(k.objects, cap.object.0, KernelObject::Device { registry_idx: device });
    lemma_names(own(k), handle);
    lemma_names(k.objects, cap.object.0);
}

proof fn lemma_named(devs: Seq<DeviceView>, name: Seq<u8>, idx: int, k: int)
    requires
        0 <= k <= idx < devs.len(),
        devs[idx].name == name,
        forall|i: int| k <= i < idx ==> (#[trigger] devs[i]).name != name,
    ensures
        named(devs, name, k) == idx,
    decreases idx - k,
{
    if k < idx {
        assert(devs[k].name != name);
        lemma_named(devs, name, idx, k + 1);
    }
}

proof fn lemma_vacant(irqs: Seq<DevIrq>, k: int)
    requires
        0 <= k <= irqs.len(),
    ensures
        k <= vacant(irqs, k) <= irqs.len(),
        vacant(irqs, k) < irqs.len() ==> !irqs[vacant(irqs, k)].active,
        forall|i: int| k <= i < vacant(irqs, k) ==> (#[trigger] irqs[i]).active,
    decreases irqs.len() - k,
{
    if k < irqs.len() && irqs[k].active {
        lemma_vacant(irqs, k + 1);
    }
}

/// Whoever may roll back names a device of at most 64 bytes of its own memory.
pub proof fn law_a_device_is_asked_for_by_name(k: KernelView, f: SyscallFrame)
    requires
        f.nr == 61,
    ensures
        holds(own(k), CapKind::Rollback, 0) && 0 < f.a2 <= 64 && reachable(f.a1, f.a2 as int)
            ==> dispatched(k, f) == (k, Action::Claim { ptr: f.a1, len: f.a2 }),
        holds(own(k), CapKind::Rollback, 0) && (f.a2 == 0 || f.a2 > 64 || !reachable(
            f.a1,
            f.a2 as int,
        )) ==> dispatched(k, f) == (k, Action::Return(INVALID)),
        !holds(own(k), CapKind::Rollback, 0) ==> dispatched(k, f) == (
            k,
            Action::Return(NOT_PERMITTED),
        ),
{
    lemma_reachable(f.a1, f.a2);
    assert forall|x: u8| #[trigger] (x & 0) == 0 by {
        assert(x & 0 == 0) by (bit_vector);
    }
    assert(holds(own(k), CapKind::Rollback, 0) == holds_any(
        own(k),
        CapKind::Rollback,
    )) by {
        let s = own(k);
        if holds_any(s, CapKind::Rollback) {
            let j = choose|j: int|
                0 <= j < s.len() && (#[trigger] s[j]).item is Some && s[j].item->0.kind
                    == CapKind::Rollback;
            assert(s[j].item->0.rights.0 & 0 == 0);
        }
    }
}

/// The first device of a name is claimed: whoever claimed it drives it with all
/// rights through the handle that is answered, nobody claims it again, and no other
/// device changes. Its interrupt is wired to the first slot that is idle, where there
/// is one, and slots that were in use stay as they were.
pub proof fn law_a_claimed_device_is_driven(k: KernelView, name: Seq<u8>, idx: int)
    requires
        valid_utf8(name),
        0 <= idx < k.devices.len(),
        idx <= usize::MAX,
        k.devices[idx].name == name,
        forall|i: int| 0 <= i < idx ==> (#[trigger] k.devices[i]).name != name,
        !k.devices[idx].claimed,
        0 <= k.sched.current < k.sched.caps.len(),
        has_room(k.objects),
        has_room(own(k)),
        k.irqs.len() == 4,
    ensures
        ({
            let (after, h, w) = device_claimed(k, name);
            &&& holds_object(
                after,
                h,
                KernelObject::Device { registry_idx: idx as usize },
                CapKind::Device,
                15,
            )
            &&& still_named(own(k), own(after))
            &&& after.devices == k.devices.update(
                idx,
                DeviceView { claimed: true, ..k.devices[idx] },
            )
            &&& device_claimed(after, name) == (after, INVALID, None::<Wiring>)
            &&& match w {
                Some(w) => {
                    &&& w.slot < 4
                    &&& !k.irqs[w.slot as int].active
                    &&& forall|i: int| 0 <= i < w.slot ==> (#[trigger] k.irqs[i]).active
                    &&& w.vector == 36 + w.slot
                    &&& w.gsi == k.devices[idx].irq_line
                    &&& w.flags == 0xA000
                    &&& after.irqs.len() == 4
                    &&& after.irqs[w.slot as int].active
                    &&& after.irqs[w.slot as int].registry_idx == idx
                    &&& after.irqs[w.slot as int].gsi == k.devices[idx].irq_line
                    &&& !after.irqs[w.slot as int].pending
                    &&& after.irqs[w.slot as int].waiter is None
                    &&& forall|i: int|
                        0 <= i < 4 && i != w.slot ==> #[trigger] after.irqs[i] == k.irqs[i]
                },
                None => {
                    &&& after.irqs == k.irqs
                    &&& forall|i: int| 0 <= i < 4 ==> (#[trigger] k.irqs[i]).active
                },
            }
        }),
{
    lemma_named(k.devices, name, idx, 0);
    lemma_vacant(k.irqs, 0);
    lemma_first_vacant_bounds(k.objects, 0);
    let obj = KernelObject::Device { registry_idx: idx as usize };
    lemma_minted_is_held(wired(k, idx), obj, CapKind::Device, CapRights(15));
    let after = device_claimed(k, name).0;
    reveal(minted);
    assert(after.devices == claimed(k.devices, idx));
    lemma_named(after.devices, name, idx, 0);
}

/// A device that is not there, or that has been claimed, is not claimed.
pub proof fn law_what_cannot_be_claimed(k: KernelView, name: Seq<u8>)
    ensures
        !valid_utf8(name) ==> device_claimed(k, name) == (k, INVALID, None::<Wiring>),
        valid_utf8(name) && (forall|i: int|
            0 <= i < k.devices.len() ==> (#[trigger] k.devices[i]).name != name)
            ==> device_claimed(k, name) == (k, NOT_FOUND, None::<Wiring>),
{
    if forall|i: int| 0 <= i < k.devices.len() ==> (#[trigger] k.devices[i]).name != name {
        lemma_unnamed(k.devices, name, 0);
    }
}

proof fn lemma_unnamed(devs: Seq<DeviceView>, name: Seq<u8>, k: int)
    requires
        0 <= k <= devs.len(),
        forall|i: int| k <= i < devs.len() ==> (#[trigger] devs[i]).name != name,
    ensures
        named(devs, name, k) == devs.len(),
    decreases devs.len() - k,
{
    if k < devs.len() {
        assert(devs[k].name != name);
        lemma_unnamed(devs, name, k + 1);
    }
}

/// A driver reads the words of its own device's configuration: the address says
/// which bus, device and word, and that it is one.
#[verifier::spinoff_prover]
pub proof fn law_configuration_is_read_word_by_word(k: KernelView, f: SyscallFrame, idx: usize)
    requires
        f.nr == 62,
        drives(k, f.a1, idx, 1),
        idx < k.devices.len(),
        k.devices[idx as int].dev < 32,
    ensures
        f.a2 < 256 && f.a2 % 4 == 0 ==> {
            let (after, a) = dispatched(k, f);
            let addr = a->ReadConfig_addr as int;
            let d = k.devices[idx as int];
            &&& after == k
            &&& a is ReadConfig
            &&& addr / 0x100_0000 == 0x80
            &&& addr / 0x1_0000 % 256 == d.bus
            &&& addr / 0x800 % 32 == d.dev
            &&& addr / 0x100 % 8 == 0
            &&& addr % 256 == f.a2
        },
        f.a2 >= 256 || f.a2 % 4 != 0 ==> dispatched(k, f) == (k, Action::Return(INVALID)),
{
    lemma_drives(k, f.a1, idx, 1);
    if f.a2 < 256 && f.a2 % 4 == 0 {
        let d = k.devices[idx as int];
        lemma_address_parts(d.bus as int, d.dev as int, f.a2 as int);
        assert(dispatched(k, f).1->ReadConfig_addr == 0x8000_0000 + d.bus * 0x1_0000 + d.dev * 0x800
            + f.a2);
    }
}

proof fn lemma_address_parts(bus: int, dev: int, off: int)
    requires
        0 <= bus < 256,
        0 <= dev < 32,
        0 <= off < 256,
    ensures
        ({
            let addr = 0x8000_0000 + bus * 0x1_0000 + dev * 0x800 + off;
            &&& addr / 0x100_0000 == 0x80
            &&& addr / 0x1_0000 % 256 == bus
            &&& addr / 0x800 % 32 == dev
            &&& addr / 0x100 % 8 == 0
            &&& addr % 256 == off
        }),
{
    let addr = 0x8000_0000 + bus * 0x1_0000 + dev * 0x800 + off;
    assert(addr / 0x1_0000 == 0x8000 + bus);
    assert(addr / 0x800 == 0x10_0000 + bus * 32 + dev);
    assert(addr / 0x100 == 0x80_0000 + bus * 256 + dev * 8);
}

/// A driver maps a window of its own device's memory, all of it and no more pages
/// than that takes, where a page can be mapped and as far as users can address.
pub proof fn law_a_window_is_mapped_whole(
    k: KernelView,
    f: SyscallFrame,
    idx: usize,
    pages: u64,
)
    requires
        f.nr == 63,
        drives(k, f.a1, idx, 2),
        idx < k.devices.len(),
        f.a2 < 6,
        ({
            let b = k.devices[idx as int].bars[f.a2 as int];
            &&& b.is_mem
            &&& b.size > 0
            &&& b.base % 0x1000 == 0
            &&& (pages - 1) * 0x1000 < b.size <= pages * 0x1000
        }),
        f.a3 % 0x1000 == 0,
        0x4000_0000 <= f.a3,
        f.a3 + pages * 0x1000 <= 0x8000_0000_0000,
    ensures
        ({
            let b = k.devices[idx as int].bars[f.a2 as int];
            dispatched(k, f) == (
                k,
                Action::MapDevice {
                    va: f.a3,
                    phys: b.base,
                    pages,
                    flags: PageFlags(0x8000_0000_0000_0217),
                    ret: b.size,
                },
            )
        }),
{
    lemma_drives(k, f.a1, idx, 2);
}

/// A driver is given memory for its device in one run of the lowest frames that are
/// free, as many as the size takes; they are taken from then on, and no others.
pub proof fn law_device_memory_is_one_run(
    k: KernelView,
    f: SyscallFrame,
    idx: usize,
    pages: u64,
    at: int,
)
    requires
        f.nr == 64,
        drives(k, f.a1, idx, 2),
        0 < f.a3 <= 0x40_0000,
        (pages - 1) * 0x1000 < f.a3 <= pages * 0x1000,
        f.a2 % 0x1000 == 0,
        0x4000_0000 <= f.a2,
        f.a2 + pages * 0x1000 <= 0x8000_0000_0000,
        reachable(f.a4, 8),
        0 <= at,
        at + pages <= k.used.len() <= 0x10_0000_0000,
        forall|i: int| at <= i < at + pages ==> !#[trigger] k.used[i],
    ensures
        ({
            let (after, a) = dispatched(k, f);
            let s = (a->MapDma_phys / 0x1000) as int;
            &&& a == (Action::MapDma {
                va: f.a2,
                phys: (s * 0x1000) as u64,
                pages,
                flags: PageFlags(0x8000_0000_0000_0007),
                out: f.a4,
            })
            &&& 0 <= s <= at
            &&& forall|i: int| s <= i < s + pages ==> !#[trigger] k.used[i]
            &&& after.used.len() == k.used.len()
            &&& forall|i: int|
                0 <= i < k.used.len() ==> #[trigger] after.used[i] == (k.used[i] || s <= i < s
                    + pages)
            &&& after == (KernelView { used: after.used, ..k })
        }),
{
    lemma_drives(k, f.a1, idx, 2);
    lemma_reachable(f.a4, 8);
    law_the_lowest_run_is_handed_out(k.used, pages as int, at, 0);
    let s = run_of(k.used, pages as int, 0)->0;
    let (after, a) = dispatched(k, f);
    assert(a->MapDma_phys == s * 0x1000);
    assert forall|i: int| 0 <= i < k.used.len() implies #[trigger] after.used[i] == (k.used[i] || s
        <= i < s + pages) by {
        law_only_the_run_changes(k.used, s, s + pages, true, seq![], i);
    }
}

/// A driver waits for its own device's interrupt: one that is pending is taken, and
/// otherwise the driver is noted as waiting and blocks. It unmasks the line that its
/// device was wired to. Nothing of other devices changes.
pub proof fn law_a_driver_waits_for_its_own_interrupt(
    k: KernelView,
    f: SyscallFrame,
    idx: usize,
    slot: int,
)
    requires
        drives(k, f.a1, idx, 1),
        0 <= slot < k.irqs.len(),
        k.irqs[slot].active,
        k.irqs[slot].registry_idx == idx,
        forall|i: int|
            0 <= i < slot ==> !((#[trigger] k.irqs[i]).active && k.irqs[i].registry_idx == idx),
    ensures
        f.nr == 65 && k.irqs[slot].pending ==> dispatched(k, f) == (
            KernelView {
                irqs: k.irqs.update(slot, DevIrq { pending: false, ..k.irqs[slot] }),
                ..k
            },
            Action::Return(0),
        ),
        f.nr == 65 && !k.irqs[slot].pending ==> dispatched(k, f) == (
            KernelView {
                irqs: k.irqs.update(
                    slot,
                    DevIrq {
                        waiter: Some(k.sched.tasks[k.sched.current].id),
                        ..k.irqs[slot]
                    },
                ),
                ..k
            },
            Action::BlockOnIrq,
        ),
        f.nr == 66 ==> dispatched(k, f) == (k, Action::Unmask { gsi: k.irqs[slot].gsi }),
        raised(k, slot).irqs == k.irqs.update(
            slot,
            DevIrq { pending: true, waiter: None, ..k.irqs[slot] },
        ),
        k.irqs[slot].waiter is None ==> raised(k, slot).sched == k.sched,
{
    lemma_drives(k, f.a1, idx, 1);
    lemma_serving(k.irqs, idx, 0);
    let s = serving(k.irqs, idx, 0);
    assert(s == slot) by {
        if s < slot {
            assert(!(k.irqs[s].active && k.irqs[s].registry_idx == idx));
        }
    }
}

/// A base register of a device says where a window is and, once all ones were
/// written to it, how large: the size is what the bits that stayed clear span.
pub proof fn law_a_base_register_tells_place_and_size(lo: BarProbe, hi: BarProbe, size: u64)
    ensures
        // A window of memory with an address of 32 bits.
        lo.orig % 8 == 0 && size >= 16 && size <= 0x8000_0000 && size % 16 == 0 && lo.mask
            - lo.mask % 16 == 0x1_0000_0000 - size ==> {
            let b = bar_of(lo, hi);
            b.is_mem && b.size == size && b.base <= lo.orig < b.base + 16 && b.base % 16 == 0
        },
        // One with an address of 64 bits.
        lo.orig % 8 == 4 && size >= 16 && hi.mask * 0x1_0000_0000 + (lo.mask - lo.mask % 16)
            == 0x1_0000_0000_0000_0000 - size ==> {
            let b = bar_of(lo, hi);
            b.is_mem && b.size == size && b.base / 0x1_0000_0000 == hi.orig && b.base
                % 0x1_0000_0000 == lo.orig - lo.orig % 16
        },
        // A range of ports.
        lo.orig % 4 == 1 && lo.orig >= 4 && 4 <= size <= 0x1_0000 && (lo.mask - lo.mask % 4)
            % 0x1_0000 == 0x1_0000 - size ==> {
            let b = bar_of(lo, hi);
            !b.is_mem && b.size == size && b.base == lo.orig - 1
        },
{
}

/// Whoever does not hold a device with the right that a call needs is not permitted it,
/// and nothing changes.
pub proof fn law_nobody_else_uses_a_device(k: KernelView, f: SyscallFrame)
    ensures
        (forall|idx: usize| !drives(k, f.a1, idx, 1)) && (f.nr == 62 || f.nr == 65 || f.nr == 66)
            ==> dispatched(k, f) == (k, Action::Return(NOT_PERMITTED)),
        (forall|idx: usize| !drives(k, f.a1, idx, 2)) && (f.nr == 63 || f.nr == 64) ==> dispatched(
            k,
            f,
        ) == (k, Action::Return(NOT_PERMITTED)),
{
    lemma_resolved_drives(k, f.a1, 1);
    lemma_resolved_drives(k, f.a1, 2);
}

proof fn lemma_resolved_drives(k: KernelView, handle: u64, right: u8)
    ensures
        resolved(k, handle, CapRights(right)) matches Some(idx) ==> drives(k, handle, idx, right),
{
    lemma_names(own(k), handle);
    if let Some(idx) = resolved(k, handle, CapRights(right)) {
        let cap = own(k)[handle as int % 0x1_0000_0000].item->0;
        assert(names(own(k), handle, cap));
        assert(names(k.objects, cap.object.0, KernelObject::Device { registry_idx: idx }));
    }
}

// ── The bus ──────────────────────────────────────────────────────────────────

/// The slots, among the first, that hold a network card of the kind that drivers may
/// claim.
pub open spec fn cards(bus: Seq<SlotHeader>, n: int) -> Seq<int>
    decreases n,
{
    if n <= 0 {
        seq![]
    } else if bus[n - 1].id == 0x1000_1AF4 {
        cards(bus, n - 1).push(n - 1)
    } else {
        cards(bus, n - 1)
    }
}

/// The devices that may be claimed are the network cards on the bus, the first eight
/// of them, in order. Each is told of as its slot says, under the name `virtio-net`,
/// and is free.
pub proof fn law_cards_can_be_claimed(
    bus: Seq<SlotHeader>,
    probes: Seq<Seq<BarProbe>>,
    i: int,
)
    requires
        bus.len() <= 32,
        0 <= i < cards(bus, bus.len() as int).len(),
        i < 8,
    ensures
        ({
            let devs = registered(bus, probes, seq![], 0);
            let all = cards(bus, bus.len() as int);
            let slot = all[i];
            &&& devs.len() <= all.len() && devs.len() <= 8
            &&& devs.len() == all.len() || devs.len() == 8
            &&& devs[i].dev == slot
            &&& devs[i].bus == 0
            &&& devs[i].vendor == 0x1AF4
            &&& devs[i].device == 0x1000
            &&& devs[i].irq_line == bus[slot].irq_info as int % 256
            &&& devs[i].bars == bars_of(probes[slot])
            &&& devs[i].name == "virtio-net"@.map_values(|c: char| c as u8)
            &&& !devs[i].claimed
        }),
{
    reveal_strlit("virtio-net");
    let name = seq![0x76u8, 0x69, 0x72, 0x74, 0x69, 0x6F, 0x2D, 0x6E, 0x65, 0x74];
    assert("virtio-net"@.map_values(|c: char| c as u8) =~= name);
    lemma_cards(bus, bus.len() as int);
    assert(cards(bus, 0) =~= seq![]);
    lemma_cards_registered(bus, probes, seq![], 0);
}

proof fn lemma_cards(bus: Seq<SlotHeader>, n: int)
    requires
        0 <= n <= bus.len(),
    ensures
        cards(bus, n).len() <= n,
        forall|j: int|
            0 <= j < cards(bus, n).len() ==> 0 <= #[trigger] cards(bus, n)[j] < n && bus[cards(
                bus,
                n,
            )[j]].id == 0x1000_1AF4,
    decreases n,
{
    if n > 0 {
        lemma_cards(bus, n - 1);
    }
}

/// The devices are the first cards.
spec fn are_cards(
    bus: Seq<SlotHeader>,
    probes: Seq<Seq<BarProbe>>,
    devs: Seq<DeviceView>,
    all: Seq<int>,
) -> bool {
    &&& devs.len() <= 8
    &&& devs.len() <= all.len()
    &&& devs.len() < 8 ==> devs.len() == all.len()
    &&& forall|j: int|
        0 <= j < devs.len() ==> (#[trigger] devs[j]) == (DeviceView {
            name: seq![0x76u8, 0x69, 0x72, 0x74, 0x69, 0x6F, 0x2D, 0x6E, 0x65, 0x74],
            bus: 0,
            dev: all[j] as u8,
            vendor: 0x1AF4,
            device: 0x1000,
            bars: bars_of(probes[all[j]]),
            irq_line: (bus[all[j]].irq_info % 0x100) as u8,
            claimed: false,
        })
}

proof fn lemma_cards_registered(
    bus: Seq<SlotHeader>,
    probes: Seq<Seq<BarProbe>>,
    devs: Seq<DeviceView>,
    k: int,
)
    requires
        bus.len() <= 32,
        0 <= k <= bus.len(),
        are_cards(bus, probes, devs, cards(bus, k)),
    ensures
        are_cards(
            bus,
            probes,
            registered(bus, probes, devs, k),
            cards(bus, bus.len() as int),
        ),
    decreases bus.len() - k,
{
    if devs.len() >= 8 {
        lemma_cards_grow(bus, k, bus.len() as int);
    } else if k < bus.len() {
        let h = bus[k];
        let all = cards(bus, k + 1);
        if h.id == 0x1000_1AF4 {
            let d = DeviceView {
                name: seq![0x76u8, 0x69, 0x72, 0x74, 0x69, 0x6F, 0x2D, 0x6E, 0x65, 0x74],
                bus: 0,
                dev: k as u8,
                vendor: 0x1AF4,
                device: 0x1000,
                bars: bars_of(probes[k]),
                irq_line: (h.irq_info % 0x100) as u8,
                claimed: false,
            };
            assert(all == cards(bus, k).push(k));
            assert(are_cards(bus, probes, devs.push(d), all));
            lemma_cards_registered(bus, probes, devs.push(d), k + 1);
        } else {
            assert(all == cards(bus, k));
            lemma_cards_registered(bus, probes, devs, k + 1);
        }
    }
}

proof fn lemma_cards_grow(bus: Seq<SlotHeader>, k: int, n: int)
    requires
        0 <= k <= n <= bus.len(),
    ensures
        cards(bus, k).len() <= cards(bus, n).len(),
        forall|j: int|
            0 <= j < cards(bus, k).len() ==> #[trigger] cards(bus, n)[j] == cards(bus, k)[j],
    decreases n - k,
{
    if k < n {
        lemma_cards_grow(bus, k, n - 1);
    }
}

/// Each device that may be claimed is switched on: for ports, for memory and as bus
/// master. What else its command register says is kept.
pub proof fn law_cards_are_switched_on(bus: Seq<SlotHeader>, devs: Seq<DeviceView>, i: int)
    requires
        0 <= i < devs.len(),
        devs[i].dev < 32,
    ensures
        ({
            let (addr, value) = enabling(bus, devs)[i];
            let command = bus[devs[i].dev as int].command;
            &&& enabling(bus, devs).len() == devs.len()
            &&& addr / 0x1_0000 == 0x8000
            &&& addr / 0x800 % 32 == devs[i].dev
            &&& addr % 0x800 == 4
            &&& value % 8 == 7
            &&& value / 8 == command / 8
        }),
{
    let command = bus[devs[i].dev as int].command;
    assert((command | 0x7u32) % 8 == 7 && (command | 0x7u32) / 8 == command / 8) by (bit_vector);
    lemma_address_parts(0, devs[i].dev as int, 4);
}

/// A window is described by the register `j`, counted from register `i` on: a window
/// with an address of 64 bits takes two registers.
pub open spec fn describes(probes: Seq<BarProbe>, i: int, j: int) -> bool
    decreases j + 1 - i,
{
    if i >= j {
        i == j
    } else if probes[i].orig % 8 == 4 {
        describes(probes, i + 2, j)
    } else {
        describes(probes, i + 1, j)
    }
}

/// Every register that describes a window is taken for one, and the upper half of a
/// long address is not.
pub proof fn law_windows_are_told_apart(probes: Seq<BarProbe>, j: int)
    requires
        0 <= j < 6,
    ensures
        bars_of(probes).len() == 6,
        describes(probes, 0, j) ==> bars_of(probes)[j] == bar_of(probes[j], probes[j + 1]),
        !describes(probes, 0, j) ==> bars_of(probes)[j].size == 0 && !bars_of(probes)[j].is_mem,
{
    lemma_windows(probes, Seq::new(6, |i: int| empty_bar()), 0, j);
}

proof fn lemma_windows(probes: Seq<BarProbe>, bars: Seq<DeviceBar>, i: int, j: int)
    requires
        bars.len() == 6,
        0 <= i <= 7,
        0 <= j < 6,
    ensures
        bars_from(probes, bars, i).len() == 6,
        describes(probes, i, j) ==> bars_from(probes, bars, i)[j] == bar_of(
            probes[j],
            probes[j + 1],
        ),
        !describes(probes, i, j) ==> bars_from(probes, bars, i)[j] == bars[j],
    decreases 7 - i,
{
    if i < 6 {
        let next = bars.update(i, bar_of(probes[i], probes[i + 1]));
        let step = if probes[i].orig % 8 == 4 {
            2int
        } else {
            1int
        };
        lemma_windows(probes, next, i + step, j);
        if i == j {
            assert(!describes(probes, i + step, j));
        }
    }
}

} // verus!
