//! What holds of the machine at boot: which tables and devices are found, where
//! interrupts go, and what init is started with.

use vstd::prelude::*;
use crate::acpi::{
    byte_of, byte_sum, dword_of, entries_taken, entry_taken, madt_in, madt_taken, word_of,
    MadtInfo, MadtView,
};
use crate::apic::calibrated;
use crate::boot::init_caps;
use crate::calllaws::{names, own};
use crate::cap::{
    children_of, first_vacant, lemma_first_vacant_bounds, CapHandle, CapId, CapKind, CapRights,
    CapSlots, CapView, KernelObject,
};
use crate::console::line_pixel;
use crate::devlaws::{has_room, holds_object, lemma_minted_is_held, still_named};
use crate::exceptions::{decided, ExceptionFrame, Verdict};
use crate::ioapic::routed;
use crate::kdf::{first_drawn, frames_for, scratch_at, typed_on, Echo};
use crate::kernel::{boot_state, minted, with_current_caps, KernelView};
use crate::pci::{device_in, matches_io, nth_slot_of, DeviceView, SlotHeader};
use crate::pmm::{free_below, lemma_run_of, Used};
use crate::smp::ap_count_of;
use crate::task::TaskState;
use crate::time::{stable_from, Clock, RtcSnapshot};

verus! {

// ── Capabilities ─────────────────────────────────────────────────────────────

/// At boot one task runs, the first, as root and with priority 1, and holds nothing.
/// There are no objects and no wired interrupts, nobody waits or sleeps, and no time has
/// passed. The next task is number 1, and so is the next capability.
pub proof fn law_what_there_is_at_boot(
    used: Used,
    devices: Seq<DeviceView>,
    clock: Clock,
    blk_present: bool,
)
    ensures
        ({
            let k = boot_state(used, devices, clock, blk_present);
            let t = k.sched.tasks[0];
            &&& k.sched.tasks.len() == 1
            &&& k.sched.current == 0
            &&& t.id == 0 && t.state == TaskState::Running && t.priority == 1
            &&& t.uid == 0 && t.gid == 0 && t.spawner == 0
            &&& t.page_table is None && t.vma_list.len() == 0 && t.brk == 0
            &&& k.sched.caps.len() == 1 && own(k).len() == 0
            &&& k.sched.next_id == 1
            &&& k.ids.next == 1
            &&& k.sched.exits.len() == 0
            &&& forall|i: int|
                0 <= i < k.sched.waiters.len() ==> (#[trigger] k.sched.waiters[i]) is None
            &&& forall|i: int|
                0 <= i < k.sched.sleepers.len() ==> (#[trigger] k.sched.sleepers[i]) is None
            &&& k.objects.len() == 0
            &&& k.irqs.len() == 4
            &&& forall|i: int| 0 <= i < 4 ==> !(#[trigger] k.irqs[i]).active
            &&& k.used == used && k.devices == devices && k.clock == clock && k.blk_present
                == blk_present
            &&& k.next_stack == 0 && k.ticks == 0 && k.in_transit is None
        }),
{
}

/// Init holds, under the handles 0 to 3, all memory, the rollback trigger, the
/// endpoint of its boot message and the mount authority, each with all rights, and
/// nothing else.
pub proof fn law_what_init_holds(k: KernelView, endpoint_idx: usize)
    requires
        0 <= k.sched.current < k.sched.caps.len(),
        k.objects.len() + 4 <= 0x1_0000_0000,
    ensures
        ({
            let after = init_caps(k, endpoint_idx);
            let frame_count = free_below(k.used, 0x10_0000) as u64;
            &&& own(after).len() == 4
            &&& holds_object(
                after,
                0,
                KernelObject::Memory { base_pa: 0, frame_count },
                CapKind::Memory,
                15,
            )
            &&& holds_object(after, 1, KernelObject::Rollback, CapKind::Rollback, 15)
            &&& holds_object(after, 2, KernelObject::Ipc { endpoint_idx }, CapKind::Ipc, 15)
            &&& holds_object(after, 3, KernelObject::Filesystem, CapKind::Filesystem, 15)
        }),
{
    let all = CapRights(15);
    let free = free_below(k.used, 0x10_0000) as u64;
    let memory = KernelObject::Memory { base_pa: 0, frame_count: free };
    let ipc = KernelObject::Ipc { endpoint_idx };
    let k0 = with_current_caps(k, seq![]);
    let k1 = minted(k0, memory, CapKind::Memory, all).0;
    let k2 = minted(k1, KernelObject::Rollback, CapKind::Rollback, all).0;
    let k3 = minted(k2, ipc, CapKind::Ipc, all).0;
    let k4 = minted(k3, KernelObject::Filesystem, CapKind::Filesystem, all).0;
    lemma_handle_is_next(k0, 0, memory, CapKind::Memory, all);
    lemma_handle_is_next(k1, 1, KernelObject::Rollback, CapKind::Rollback, all);
    lemma_handle_is_next(k2, 2, ipc, CapKind::Ipc, all);
    lemma_handle_is_next(k3, 3, KernelObject::Filesystem, CapKind::Filesystem, all);
    lemma_held_on(k1, k2, 0, memory, CapKind::Memory, 15);
    lemma_held_on(k2, k3, 0, memory, CapKind::Memory, 15);
    lemma_held_on(k3, k4, 0, memory, CapKind::Memory, 15);
    lemma_held_on(k2, k3, 1, KernelObject::Rollback, CapKind::Rollback, 15);
    lemma_held_on(k3, k4, 1, KernelObject::Rollback, CapKind::Rollback, 15);
    lemma_held_on(k3, k4, 2, ipc, CapKind::Ipc, 15);
}

spec fn all_taken(slots: CapSlots, n: int) -> bool {
    slots.len() == n && forall|i: int| 0 <= i < n ==> (#[trigger] slots[i]).item is Some
}

proof fn lemma_handle_is_next(
    k: KernelView,
    n: int,
    obj: KernelObject,
    kind: CapKind,
    rights: CapRights,
)
    requires
        0 <= n < 4,
        0 <= k.sched.current < k.sched.caps.len(),
        all_taken(own(k), n),
        has_room(k.objects),
    ensures
        ({
            let (after, h) = minted(k, obj, kind, rights);
            &&& h == n
            &&& holds_object(after, n as u64, obj, kind, rights.0)
            &&& still_named(own(k), own(after))
            &&& still_named(k.objects, after.objects)
            &&& all_taken(own(after), n + 1)
            &&& after.objects.len() <= k.objects.len() + 1
            &&& after.sched.current == k.sched.current
            &&& after.sched.caps.len() == k.sched.caps.len()
        }),
{
    lemma_minted_is_held(k, obj, kind, rights);
    lemma_first_vacant_bounds(own(k), 0);
    lemma_first_vacant_bounds(k.objects, 0);
    let i = first_vacant(own(k), 0);
    assert(i == n) by {
        if i < n {
            assert(own(k)[i].item is Some);
        }
    }
    reveal(minted);
    let (after, h) = minted(k, obj, kind, rights);
    assert(own(after).len() == n + 1);
    assert(own(after).take(n) =~= own(k));
    assert forall|j: int| 0 <= j < n + 1 implies (#[trigger] own(after)[j]).item is Some by {
        if j < n {
            assert(own(after).take(n)[j] == own(k)[j]);
        }
    }
    assert(h == n as u64);
}

proof fn lemma_held_on(
    k: KernelView,
    after: KernelView,
    h: u64,
    obj: KernelObject,
    kind: CapKind,
    rights: u8,
)
    requires
        holds_object(k, h, obj, kind, rights),
        still_named(own(k), own(after)),
        still_named(k.objects, after.objects),
    ensures
        holds_object(after, h, obj, kind, rights),
{
    let cap = choose|cap: CapView| #[trigger]
        names(own(k), h, cap) && cap.kind == kind && cap.rights.0 == rights && cap.parent_id
            is None && cap.children.len() == 0 && names(k.objects, cap.object.0, obj);
    assert(names(own(after), h, cap));
    assert(names(after.objects, cap.object.0, obj));
}

/// Exactly the capabilities that were derived from one are found as its children,
/// each by the handle that names it.
pub proof fn law_all_children_are_found(slots: CapSlots, parent: CapId, word: u64)
    requires
        slots.len() <= 0x1_0000_0000,
    ensures
        children_of(slots, parent, slots.len() as int).contains(CapHandle(word)) <==> exists|
            cap: CapView,
        | #[trigger]
            names(slots, word, cap) && cap.parent_id == Some(parent),
{
    lemma_children(slots, parent, slots.len() as int, word);
    let i = word as int % 0x1_0000_0000;
    if i < slots.len() && slots[i].item is Some && slots[i].item->0.parent_id == Some(parent)
        && slots[i].generation as int == word as int / 0x1_0000_0000 {
        assert(names(slots, word, slots[i].item->0));
    }
}

proof fn lemma_children(slots: CapSlots, parent: CapId, n: int, word: u64)
    requires
        0 <= n <= slots.len() <= 0x1_0000_0000,
    ensures
        ({
            let i = word as int % 0x1_0000_0000;
            children_of(slots, parent, n).contains(CapHandle(word)) <==> i < n && slots[i].item
                is Some && slots[i].item->0.parent_id == Some(parent)
                && slots[i].generation as int == word as int / 0x1_0000_0000
        }),
    decreases n,
{
    if n > 0 {
        lemma_children(slots, parent, n - 1, word);
        let rest = children_of(slots, parent, n - 1);
        let slot = slots[n - 1];
        let w = slot.generation * 0x1_0000_0000 + (n - 1);
        assert(0 <= w < 0x1_0000_0000_0000_0000);
        assert(w % 0x1_0000_0000 == n - 1 && w / 0x1_0000_0000 == slot.generation);
        if slot.item is Some && slot.item->0.parent_id == Some(parent) {
            let all = rest.push(CapHandle(w as u64));
            assert(children_of(slots, parent, n) == all);
            assert(all[rest.len() as int] == CapHandle(w as u64));
            if rest.contains(CapHandle(word)) {
                let j = rest.index_of(CapHandle(word));
                assert(all[j] == CapHandle(word));
            }
            if all.contains(CapHandle(word)) {
                let j = all.index_of(CapHandle(word));
                if j < rest.len() {
                    assert(rest[j] == CapHandle(word));
                }
            }
        }
    }
}

// ── Tables ───────────────────────────────────────────────────────────────────

/// The entries of a table, one behind the other, each as long as it says, until no
/// more is left.
pub open spec fn are_entries(mem: Seq<u8>, at: Seq<int>, p: int, end: int) -> bool
    decreases at.len(),
{
    let len = byte_of(mem, p + 1) as int;
    if at.len() == 0 {
        p + 2 > end || len < 2 || p + len > end
    } else {
        at[0] == p && p + 2 <= end && len >= 2 && p + len <= end && are_entries(
            mem,
            at.subrange(1, at.len() as int),
            p + len,
            end,
        )
    }
}

/// An entry moves an interrupt.
pub open spec fn moves(mem: Seq<u8>, p: int, irq: u8) -> bool {
    byte_of(mem, p) == 2 && byte_of(mem, p + 3) == irq
}

/// Where the table of interrupts moves one, the last entry that does so holds: the
/// interrupt goes where it says, active low and on a level where it says so. One that
/// no entry moves keeps its number, active high and on an edge.
pub proof fn law_interrupts_go_where_the_table_says(
    mem: Seq<u8>,
    madt: int,
    m: MadtView,
    at: Seq<int>,
    irq: u8,
    j: int,
    info: MadtInfo,
)
    requires
        irq < 16,
        m.overrides.len() == 16,
        are_entries(mem, at, madt + 44, madt + dword_of(mem, madt + 4)),
        info.overrides@ == madt_taken(m, mem, madt).overrides,
    ensures
        0 <= j < at.len() && moves(mem, at[j], irq) && (forall|i: int|
            j < i < at.len() ==> !#[trigger] moves(mem, at[i], irq)) ==> {
            let (gsi, flags) = info.route(irq);
            let said = word_of(mem, at[j] + 8);
            &&& gsi == dword_of(mem, at[j] + 4)
            &&& flags == (if said % 4 == 3 {
                0x2000int
            } else {
                0
            }) + (if said / 4 % 4 == 3 {
                0x8000int
            } else {
                0
            })
        },
        m.overrides[irq as int] is None && (forall|i: int|
            0 <= i < at.len() ==> !#[trigger] moves(mem, at[i], irq)) ==> info.route(irq) == (
            irq as u32,
            0u32,
        ),
{
    let start = MadtView { lapic: dword_of(mem, madt + 36) as u64, ..m };
    let end = madt + dword_of(mem, madt + 4);
    if 0 <= j < at.len() && moves(mem, at[j], irq) && (forall|i: int|
        j < i < at.len() ==> !#[trigger] moves(mem, at[i], irq)) {
        lemma_moved(mem, start, at, madt + 44, end, irq, j);
    }
    if forall|i: int| 0 <= i < at.len() ==> !#[trigger] moves(mem, at[i], irq) {
        lemma_not_moved(mem, start, at, madt + 44, end, irq);
    }
}

proof fn lemma_not_moved(mem: Seq<u8>, m: MadtView, at: Seq<int>, p: int, end: int, irq: u8)
    requires
        irq < 16,
        m.overrides.len() == 16,
        are_entries(mem, at, p, end),
        forall|i: int| 0 <= i < at.len() ==> !#[trigger] moves(mem, at[i], irq),
    ensures
        entries_taken(m, mem, p, end).overrides[irq as int] == m.overrides[irq as int],
    decreases at.len(),
{
    if at.len() > 0 {
        let rest = at.subrange(1, at.len() as int);
        assert(!moves(mem, at[0], irq));
        assert forall|i: int| 0 <= i < rest.len() implies !#[trigger] moves(mem, rest[i], irq) by {
            assert(!moves(mem, at[i + 1], irq));
        }
        let len = byte_of(mem, p + 1) as int;
        lemma_not_moved(mem, entry_taken(m, mem, p), rest, p + len, end, irq);
    }
}

proof fn lemma_moved(
    mem: Seq<u8>,
    m: MadtView,
    at: Seq<int>,
    p: int,
    end: int,
    irq: u8,
    j: int,
)
    requires
        irq < 16,
        m.overrides.len() == 16,
        are_entries(mem, at, p, end),
        0 <= j < at.len(),
        moves(mem, at[j], irq),
        forall|i: int| j < i < at.len() ==> !#[trigger] moves(mem, at[i], irq),
    ensures
        entries_taken(m, mem, p, end).overrides[irq as int] == Some(
            (dword_of(mem, at[j] + 4), word_of(mem, at[j] + 8)),
        ),
    decreases at.len(),
{
    let rest = at.subrange(1, at.len() as int);
    let len = byte_of(mem, p + 1) as int;
    let next = entry_taken(m, mem, p);
    assert forall|i: int| j - 1 < i < rest.len() implies !#[trigger] moves(mem, rest[i], irq) by {
        assert(!moves(mem, at[i + 1], irq));
    }
    if j == 0 {
        lemma_not_moved(mem, next, rest, p + len, end, irq);
    } else {
        assert(rest[j - 1] == at[j]);
        lemma_moved(mem, next, rest, p + len, end, irq, j - 1);
    }
}

/// A table is the one of interrupts: it can be reached, and says so.
pub open spec fn tells_of_interrupts(mem: Seq<u8>, table: int) -> bool {
    0 < table < 0x4000_0000 && byte_of(mem, table) == 0x41 && byte_of(mem, table + 1) == 0x50
        && byte_of(mem, table + 2) == 0x49 && byte_of(mem, table + 3) == 0x43
}

/// The address of a table in a list of short or of long addresses.
pub open spec fn listed(mem: Seq<u8>, p: int, size: int, i: int) -> int {
    if size == 8 {
        dword_of(mem, p + 8 * i) + 0x1_0000_0000 * dword_of(mem, p + 8 * i + 4)
    } else {
        dword_of(mem, p + size * i) as int
    }
}

/// The first table of a list that tells of interrupts is the one that is taken.
pub proof fn law_the_table_of_interrupts_is_found(
    mem: Seq<u8>,
    p: int,
    end: int,
    size: int,
    i: int,
)
    requires
        size == 4 || size == 8,
        0 <= i,
        p + size * (i + 1) <= end,
        tells_of_interrupts(mem, listed(mem, p, size, i)),
        forall|j: int| 0 <= j < i ==> !tells_of_interrupts(mem, #[trigger] listed(mem, p, size, j)),
    ensures
        madt_in(mem, p, end, size) == Some(listed(mem, p, size, i)),
    decreases i,
{
    let here = listed(mem, p, size, 0);
    if i > 0 {
        assert(!tells_of_interrupts(mem, here));
        assert forall|j: int| 0 <= j < i - 1 implies !tells_of_interrupts(
            mem,
            #[trigger] listed(mem, p + size, size, j),
        ) by {
            assert(listed(mem, p + size, size, j) == listed(mem, p, size, j + 1)) by {
                assert(size * (j + 1) == size * j + size) by (nonlinear_arith);
            }
        }
        assert(size * i == size * (i - 1) + size) by (nonlinear_arith);
        assert(size * (i + 1) == size * i + size) by (nonlinear_arith);
        assert(listed(mem, p + size, size, i - 1) == listed(mem, p, size, i));
        law_the_table_of_interrupts_is_found(mem, p + size, end, size, i - 1);
    }
}

/// The bytes of a range, added up.
pub open spec fn added_up(mem: Seq<u8>, a: int, n: nat) -> int
    decreases n,
{
    if n == 0 {
        0
    } else {
        byte_of(mem, a) + added_up(mem, a + 1, (n - 1) as nat)
    }
}

/// A table checks out where its bytes add up to a multiple of 256.
pub proof fn law_a_table_checks_out_by_its_sum(mem: Seq<u8>, a: int, n: nat)
    ensures
        byte_sum(mem, a, n) == added_up(mem, a, n) % 256,
    decreases n,
{
    if n > 0 {
        let m = (n - 1) as nat;
        law_a_table_checks_out_by_its_sum(mem, a, m);
        lemma_added_last(mem, a, n);
    }
}

proof fn lemma_added_last(mem: Seq<u8>, a: int, n: nat)
    requires
        n > 0,
    ensures
        added_up(mem, a, n) == added_up(mem, a, (n - 1) as nat) + byte_of(mem, a + n - 1),
    decreases n,
{
    if n > 1 {
        lemma_added_last(mem, a + 1, (n - 1) as nat);
    } else {
        assert(added_up(mem, a + 1, 0) == 0);
    }
}

// ── Devices ──────────────────────────────────────────────────────────────────

/// How many of the first slots hold the device asked for.
pub open spec fn held_before(bus: Seq<SlotHeader>, vendor: u16, device: u16, n: int) -> int
    decreases n,
{
    if n <= 0 {
        0
    } else {
        held_before(bus, vendor, device, n - 1) + if bus[n - 1].id == device * 0x1_0000 + vendor
            && bus[n - 1].bar0 % 2 == 1 {
            1int
        } else {
            0
        }
    }
}

/// The device that is found is one of those asked for, with as many before it as were
/// to be passed over, and what is told of it is what its slot says. None is found
/// where there are not as many.
pub proof fn law_the_device_asked_for_is_found(
    bus: Seq<SlotHeader>,
    vendor: u16,
    device: u16,
    skip: nat,
)
    requires
        bus.len() <= 32,
        vendor != 0 && vendor != 0xFFFF,
    ensures
        ({
            let k = nth_slot_of(bus, vendor, device, skip, 0);
            let d = device_in(bus[k], k);
            &&& 0 <= k <= bus.len()
            &&& k < bus.len() ==> {
                &&& held_before(bus, vendor, device, k) == skip
                &&& held_before(bus, vendor, device, k + 1) == skip + 1
                &&& d.dev == k
                &&& d.vendor == vendor
                &&& d.device == device
                &&& d.irq_line == bus[k].irq_info as int % 256
                &&& bus[k].bar0 < 0x1_0000 ==> d.io_bar0 <= bus[k].bar0 < d.io_bar0 + 4
                    && d.io_bar0 % 4 == 0
            }
            &&& k == bus.len() ==> held_before(bus, vendor, device, k) <= skip
        }),
{
    lemma_nth(bus, vendor, device, skip, skip, 0);
}

proof fn lemma_nth(
    bus: Seq<SlotHeader>,
    vendor: u16,
    device: u16,
    skip: nat,
    left: nat,
    k: int,
)
    requires
        vendor != 0 && vendor != 0xFFFF,
        0 <= k <= bus.len(),
        held_before(bus, vendor, device, k) + left == skip,
    ensures
        ({
            let r = nth_slot_of(bus, vendor, device, left, k);
            &&& k <= r <= bus.len()
            &&& r < bus.len() ==> matches_io(bus[r], vendor, device) && held_before(
                bus,
                vendor,
                device,
                r,
            ) == skip && held_before(bus, vendor, device, r + 1) == skip + 1
            &&& r == bus.len() ==> held_before(bus, vendor, device, r) <= skip
        }),
    decreases bus.len() - k,
{
    if k < bus.len() {
        let h = bus[k];
        assert(h.id == device * 0x1_0000 + vendor ==> h.id != 0 && h.id != 0xFFFF_FFFF);
        if !matches_io(h, vendor, device) {
            lemma_nth(bus, vendor, device, skip, left, k + 1);
        } else if left > 0 {
            lemma_nth(bus, vendor, device, skip, (left - 1) as nat, k + 1);
        }
    }
}

/// An interrupt is routed to its vector, unmasked, through the two registers of its
/// own; no other flag of its route is lost.
pub proof fn law_an_interrupt_is_routed_by_its_own_registers(gsi: u8, vector: u8, flags: u32)
    requires
        gsi < 120,
        flags % 256 == 0,
        flags < 0x1_0000,
    ensures
        ({
            let r = routed(gsi, vector, flags);
            &&& r.lo_reg == 16 + 2 * gsi
            &&& r.hi_reg == 17 + 2 * gsi
            &&& r.lo == flags + vector
            &&& r.hi == 0
        }),
{
    assert((vector as u32 | (flags & !0x1_0000u32)) == flags + vector as u32) by (bit_vector)
        requires
            flags % 256 == 0,
            flags < 0x1_0000,
    ;
}

/// The timer's rate is what it counted in ten milliseconds, divided by ten.
pub proof fn law_the_timer_is_calibrated(counted: u32)
    requires
        counted >= 10,
    ensures
        ({
            let rate = calibrated((0xFFFF_FFFF - counted) as u32);
            rate * 10 <= counted < rate * 10 + 10
        }),
{
}

/// All processors but the first are counted, up to seven.
pub proof fn law_other_processors_are_counted(rest: u32, total: u8, low: u16)
    requires
        rest < 0x100,
        total > 0,
    ensures
        ({
            let n = ap_count_of((rest * 0x100_0000 + total * 0x1_0000 + low) as u32);
            &&& total <= 8 ==> n == total - 1
            &&& total > 8 ==> n == 7
        }),
{
}

/// An exception of user code ends its task, and one of the kernel stops the machine;
/// of a page fault it is told whether the page was there, whether it was written to
/// and whether a user did.
pub proof fn law_only_a_users_fault_ends_a_task(f: ExceptionFrame)
    ensures
        decided(f).0 == Verdict::KillTask <==> f.cs as int % 4 == 3,
        decided(f).0 == Verdict::Halt <==> f.cs as int % 4 != 3,
        f.vector != 14 ==> decided(f).1 is None,
        f.vector == 14 && f.error_code < 8 ==> {
            let i = (decided(f).1)->0;
            &&& decided(f).1 is Some
            &&& f.error_code == (if i.protection {
                1int
            } else {
                0
            }) + (if i.write {
                2int
            } else {
                0
            }) + (if i.user {
                4int
            } else {
                0
            })
        },
{
}

/// A line of a glyph shows its bits from left to right, the highest first.
pub proof fn law_a_glyph_shows_its_bits(bits: u8, fg: u32, bg: u32)
    ensures
        line_pixel(bits, fg, bg, 0) == if bits >= 128 { fg } else { bg },
        line_pixel(bits, fg, bg, 1) == if bits % 128 >= 64 { fg } else { bg },
        line_pixel(bits, fg, bg, 2) == if bits % 64 >= 32 { fg } else { bg },
        line_pixel(bits, fg, bg, 3) == if bits % 32 >= 16 { fg } else { bg },
        line_pixel(bits, fg, bg, 4) == if bits % 16 >= 8 { fg } else { bg },
        line_pixel(bits, fg, bg, 5) == if bits % 8 >= 4 { fg } else { bg },
        line_pixel(bits, fg, bg, 6) == if bits % 4 >= 2 { fg } else { bg },
        line_pixel(bits, fg, bg, 7) == if bits % 2 == 1 { fg } else { bg },
{
    assert((bits & (0x80u8 >> 0u8) != 0) == (bits >= 128) && (bits & (0x80u8 >> 1u8) != 0) == (bits
        % 128 >= 64) && (bits & (0x80u8 >> 2u8) != 0) == (bits % 64 >= 32) && (bits & (0x80u8
        >> 3u8) != 0) == (bits % 32 >= 16) && (bits & (0x80u8 >> 4u8) != 0) == (bits % 16 >= 8)
        && (bits & (0x80u8 >> 5u8) != 0) == (bits % 8 >= 4) && (bits & (0x80u8 >> 6u8) != 0) == (
    bits % 4 >= 2) && (bits & (0x80u8 >> 7u8) != 0) == (bits % 2 == 1)) by (bit_vector);
}

// ── Secrets and the clock ────────────────────────────────────────────────────

/// What a passphrase has become after bytes were typed.
pub open spec fn passphrase_after(buf: Seq<u8>, typed: Seq<u8>) -> Seq<u8>
    decreases typed.len(),
{
    if typed.len() == 0 {
        buf
    } else {
        typed_on(passphrase_after(buf, typed.drop_last()), typed.last()).0
    }
}

/// A passphrase is what was typed, byte by byte; a backspace takes the last byte back,
/// and a line end completes it as it is.
pub proof fn law_a_passphrase_is_what_was_typed(buf: Seq<u8>, typed: Seq<u8>, b: u8)
    requires
        forall|i: int|
            0 <= i < typed.len() ==> #[trigger] typed[i] != 0x08 && typed[i] != 0x0A && typed[i]
                != 0x0D && typed[i] != 0x1B && typed[i] != 0x7F,
    ensures
        passphrase_after(buf, typed) == buf + typed,
        b == 0x08 || b == 0x7F ==> typed_on(buf.push(0x61), b) == (buf, Echo::Erase),
        b == 0x0A || b == 0x0D <==> typed_on(buf, b).1 == Echo::Done,
        b == 0x0A || b == 0x0D ==> typed_on(buf, b).0 == buf,
    decreases typed.len(),
{
    assert(buf.push(0x61).drop_last() =~= buf);
    if typed.len() > 0 {
        law_a_passphrase_is_what_was_typed(buf, typed.drop_last(), b);
        assert(typed[typed.len() - 1] == typed.last());
        assert(buf + typed =~= (buf + typed.drop_last()).push(typed.last()));
    } else {
        assert(buf + typed =~= buf);
    }
}

/// The first of ten attempts that gives a random number is the one that counts.
pub proof fn law_the_first_number_drawn_counts(tries: Seq<Option<u64>>, i: int, k: int)
    requires
        0 <= k <= i < tries.len(),
        i < 10,
        tries[i] is Some,
        forall|j: int| k <= j < i ==> (#[trigger] tries[j]) is None,
    ensures
        first_drawn(tries, k) == tries[i],
    decreases i - k,
{
    if k < i {
        assert(tries[k] is None);
        law_the_first_number_drawn_counts(tries, i, k + 1);
    }
}

/// The first of eight readings of the clock that was the same twice is the one that
/// counts.
pub proof fn law_the_first_stable_reading_counts(
    reads: Seq<(RtcSnapshot, RtcSnapshot)>,
    i: int,
    k: int,
)
    requires
        0 <= k <= i < reads.len(),
        i < 8,
        reads[i].0 == reads[i].1,
        forall|j: int| k <= j < i ==> (#[trigger] reads[j]).0 != reads[j].1,
    ensures
        stable_from(reads, k) == Some(reads[i].0),
    decreases i - k,
{
    if k < i {
        assert(reads[k].0 != reads[k].1);
        law_the_first_stable_reading_counts(reads, i, k + 1);
    }
}

/// The memory for deriving a key is as many frames as its blocks of 1024 bytes take, in
/// one run of free frames.
pub proof fn law_scratch_has_room_for_its_blocks(used: Used, blocks: usize)
    ensures
        blocks * 1024 <= frames_for(blocks) * 4096 < blocks * 1024 + 4096,
        scratch_at(used, blocks) matches Some(s) ==> 0 <= s && s + frames_for(blocks)
            <= used.len() && blocks > 0 && forall|i: int|
            s <= i < s + frames_for(blocks) ==> !#[trigger] used[i],
{
    if let Some(s) = scratch_at(used, blocks) {
        lemma_run_of(used, frames_for(blocks), 0);
    }
}

} // verus!
