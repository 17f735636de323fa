//! What is computed at boot: addresses from the boot loader, the first message
//! to init, and its capabilities.

use vstd::prelude::*;
use crate::bytes::{le32, le64, push_bytes, push_u32, push_u64, zeros};
use crate::cap::{
    first_vacant, lemma_first_vacant_bounds, CapHandle, CapKind, CapRights, CapSlots,
    CapabilityTable, KernelObject, KoTable,
};
use crate::kernel::{current_caps, current_task, minted, with_current_caps, Kernel, KernelView};
use crate::pmm::{free_below, MAX_FRAMES};
use crate::task::{find_task, info_of, live, TaskInfo, TaskView, Tasks};

verus! {

/// Entries that are kept of the boot loader's memory map.
pub const MAX_MMAP: usize = 256;

/// The mark of a boot message.
pub const BOOT_SIGNATURE: u64 = 0xB007_1000_B007_1000;

/// Milliseconds between two idle reports.
pub const REPORT_TICKS: u64 = 2000;

/// Bytes of a line of task states.
pub const STATES_LEN: usize = 128;

// ── Addresses ────────────────────────────────────────────────────────────────

/// An address that the boot loader gave as it is, or moved by `hhdm`, as a
/// physical one.
pub fn physical(addr: u64, hhdm: u64) -> (p: u64)
    ensures
        p == if addr >= hhdm {
            addr - hhdm
        } else {
            addr as int
        },
{
    if addr >= hhdm {
        addr - hhdm
    } else {
        addr
    }
}

/// The end of the kernel in physical memory.
pub fn kernel_phys_end(phys_base: u64, start: u64, end: u64) -> (e: u64)
    requires
        end >= start ==> phys_base + (end - start) <= u64::MAX,
    ensures
        e == phys_base + if end >= start {
            end - start
        } else {
            0
        },
{
    phys_base + end.saturating_sub(start)
}

// ── Boot message ─────────────────────────────────────────────────────────────

/// The name of the processor's maker, from the registers it is given in.
pub open spec fn vendor_of(ebx: u32, edx: u32, ecx: u32) -> Seq<u8> {
    le32(ebx) + le32(edx) + le32(ecx)
}

/// The first message to init: the mark, the memory that is free in bytes and in
/// frames, and the maker of the processor.
pub open spec fn boot_info(free: u64, ebx: u32, edx: u32, ecx: u32) -> Seq<u8> {
    le64(BOOT_SIGNATURE) + le64((free * 4096) as u64) + le64(free) + vendor_of(ebx, edx, ecx)
        + zeros(28)
}

/// Build the first message to init.
pub fn build_boot_info(k: &Kernel, ebx: u32, edx: u32, ecx: u32) -> (v: Vec<u8>)
    requires
        k.wf(),
    ensures
        v@ == boot_info(free_below(k@.used, MAX_FRAMES as int) as u64, ebx, edx, ecx),
        v@.len() == 64,
{
    proof {
        lemma_free_below(k@.used, MAX_FRAMES as int);
    }
    let free: u64 = k.frames.free_frame_count() as u64;
    let mut v: Vec<u8> = Vec::new();
    push_u64(&mut v, BOOT_SIGNATURE);
    push_u64(&mut v, free * 4096);
    push_u64(&mut v, free);
    push_u32(&mut v, ebx);
    push_u32(&mut v, edx);
    push_u32(&mut v, ecx);
    let pad: Vec<u8> = vec![0u8; 28];
    push_bytes(&mut v, pad.as_slice(), 0, 28);
    assert(pad@.subrange(0, 28) =~= zeros(28));
    assert(v@ =~= boot_info(free, ebx, edx, ecx));
    v
}

proof fn lemma_free_below(used: Seq<bool>, n: int)
    requires
        0 <= n,
    ensures
        free_below(used, n) <= n,
    decreases n,
{
    if n > 0 {
        lemma_free_below(used, n - 1);
    }
}

// ── Capabilities of init ─────────────────────────────────────────────────────

/// The capabilities that init is started with, in order: all memory, the
/// rollback trigger, the endpoint that holds the boot message, and the mount
/// authority, each with all rights. The bootstrap task holds nothing else.
pub open spec fn init_caps(k: KernelView, endpoint_idx: usize) -> KernelView {
    let all = CapRights(CapRights::ALL);
    let free = free_below(k.used, MAX_FRAMES as int) as u64;
    let k0 = with_current_caps(k, seq![]);
    let k1 = minted(
        k0,
        KernelObject::Memory { base_pa: 0, frame_count: free },
        CapKind::Memory,
        all,
    ).0;
    let k2 = minted(k1, KernelObject::Rollback, CapKind::Rollback, all).0;
    let k3 = minted(k2, KernelObject::Ipc { endpoint_idx }, CapKind::Ipc, all).0;
    minted(k3, KernelObject::Filesystem, CapKind::Filesystem, all).0
}

/// There is room for `n` more objects.
pub open spec fn room_for(k: KernelView, n: int) -> bool {
    k.objects.len() + n <= 0x1_0000_0000
}

/// Give the bootstrap task the capabilities that init is started with. Their
/// handles are 0 to 3.
pub fn grant_init_caps(k: &mut Kernel, endpoint_idx: usize) -> (h: [CapHandle; 4])
    requires
        old(k).wf(),
        room_for(old(k)@, 4),
        current_task(old(k)@).id == 0,
        old(k)@.sched.current == find_task(old(k)@.sched.tasks, 0, 0),
    ensures
        final(k).wf(),
        final(k)@ == init_caps(old(k)@, endpoint_idx),
        h@ == seq![CapHandle(0), CapHandle(1), CapHandle(2), CapHandle(3)],
{
    let ghost k0 = k@;
    let c: usize = k.sched.current;
    let empty = CapabilityTable::new();
    assert(empty@ =~= seq![]);
    assert(k@.sched.caps[c as int].0 == 0);
    k.sched.set_bootstrap_cap_table(empty);
    assert(k@ =~= with_current_caps(k0, seq![]));
    let all = CapRights(CapRights::ALL);
    let free: u64 = k.frames.free_frame_count() as u64;
    let memory = KernelObject::Memory { base_pa: 0, frame_count: free };
    proof {
        lemma_minted(k@, 0, memory, CapKind::Memory, all);
    }
    let mem = k.mint(memory, CapKind::Memory, all);
    proof {
        lemma_minted(k@, 1, KernelObject::Rollback, CapKind::Rollback, all);
    }
    let rollback = k.mint(KernelObject::Rollback, CapKind::Rollback, all);
    proof {
        lemma_minted(k@, 2, KernelObject::Ipc { endpoint_idx }, CapKind::Ipc, all);
    }
    let boot = k.mint(KernelObject::Ipc { endpoint_idx }, CapKind::Ipc, all);
    proof {
        lemma_minted(k@, 3, KernelObject::Filesystem, CapKind::Filesystem, all);
    }
    let fs = k.mint(KernelObject::Filesystem, CapKind::Filesystem, all);
    let h: [CapHandle; 4] = match (mem, rollback, boot, fs) {
        (Some(a), Some(b), Some(c), Some(d)) => [
            CapHandle(a),
            CapHandle(b),
            CapHandle(c),
            CapHandle(d),
        ],
        _ => [CapHandle(0), CapHandle(1), CapHandle(2), CapHandle(3)],
    };
    assert(h@ =~= seq![CapHandle(0), CapHandle(1), CapHandle(2), CapHandle(3)]);
    h
}

/// The current table has `n` slots, all of them taken.
spec fn filled_table(k: KernelView, n: int) -> bool {
    current_caps(k).len() == n && forall|i: int|
        0 <= i < n ==> (#[trigger] current_caps(k)[i]).item is Some
}

/// With `n` slots, all of them taken, the next handle is `n`.
proof fn lemma_minted(k: KernelView, n: int, obj: KernelObject, kind: CapKind, rights: CapRights)
    requires
        0 <= n < 0x1_0000_0000,
        filled_table(k, n),
        k.objects.len() < 0x1_0000_0000,
        0 <= k.sched.current < k.sched.caps.len(),
    ensures
        !KoTable::full(k.objects),
        minted(k, obj, kind, rights).1 == n,
        filled_table(minted(k, obj, kind, rights).0, n + 1),
        minted(k, obj, kind, rights).0.objects.len() <= k.objects.len() + 1,
{
    reveal(minted);
    lemma_all_taken(current_caps(k), 0);
    lemma_first_vacant_bounds(k.objects, 0);
}

proof fn lemma_all_taken(slots: CapSlots, i: int)
    requires
        0 <= i <= slots.len(),
        forall|j: int| 0 <= j < slots.len() ==> (#[trigger] slots[j]).item is Some,
    ensures
        first_vacant(slots, i) == slots.len(),
    decreases slots.len() - i,
{
    if i < slots.len() {
        lemma_all_taken(slots, i + 1);
    }
}

// ── Idle report ──────────────────────────────────────────────────────────────

/// The lowest `n` digits of a number, without leading zeros where it has fewer.
pub open spec fn low_digits(x: u64, n: nat) -> Seq<u8>
    decreases n,
{
    if x == 0 || n == 0 {
        seq![]
    } else {
        low_digits(x / 10, (n - 1) as nat).push((0x30 + x % 10) as u8)
    }
}

/// A task in the line of task states: its identity and the digit of its state.
pub open spec fn state_word(t: TaskInfo) -> Seq<u8> {
    let id = if t.id == 0 {
        seq![0x30u8]
    } else {
        low_digits(t.id, 8)
    };
    id + seq![0x3Au8, (0x30 + t.state) as u8, 0x20]
}

/// The states of the first `n` tasks in a line, as far as there is room.
pub open spec fn states_line(tasks: Tasks, n: nat) -> Seq<u8>
    decreases n,
{
    if n == 0 {
        seq![]
    } else {
        let head = states_line(tasks, (n - 1) as nat);
        if head.len() + 12 >= STATES_LEN {
            head
        } else {
            head + state_word(info_of(tasks[n - 1]))
        }
    }
}

fn push_digits(v: &mut Vec<u8>, x: u64, n: u32)
    ensures
        final(v)@ == old(v)@ + low_digits(x, n as nat),
    decreases n,
{
    if x == 0 || n == 0 {
        assert(v@ =~= old(v)@ + low_digits(x, n as nat));
        return;
    }
    push_digits(v, x / 10, n - 1);
    v.push(0x30 + (x % 10) as u8);
    assert(v@ =~= old(v)@ + low_digits(x, n as nat));
}

/// The states of the live tasks in a line, for the idle report.
pub fn task_states(k: &Kernel) -> (v: Vec<u8>)
    ensures
        v@ == states_line(live(k@.sched.tasks), live(k@.sched.tasks).len()),
{
    let infos: Vec<TaskInfo> = k.sched.for_each_task();
    let ghost tasks = live(k@.sched.tasks);
    let mut v: Vec<u8> = Vec::new();
    let mut i: usize = 0;
    while i < infos.len()
        invariant
            i <= infos@.len(),
            infos@ == tasks.map(|i: int, t: TaskView| info_of(t)),
            v@ == states_line(tasks, i as nat),
        decreases infos@.len() - i,
    {
        let t: TaskInfo = infos[i];
        assert(t == info_of(tasks[i as int]));
        if v.len() < STATES_LEN - 12 {
            let ghost before = v@;
            if t.id == 0 {
                v.push(0x30);
            } else {
                push_digits(&mut v, t.id, 8);
            }
            v.push(0x3A);
            v.push(0x30 + t.state as u8);
            v.push(0x20);
            assert(v@ =~= before + state_word(t));
        }
        i += 1;
    }
    v
}

} // verus!
