//! System calls: what each call asks for, and what it is answered.
//!
//! [`syscall_dispatch`] decides a call on the kernel's state. What it cannot do
//! itself, on user memory, page tables, endpoints, files or hardware, it hands
//! back as an [`Action`].

use vstd::prelude::*;
use vstd::string::*;
use vstd::utf8::{decode_utf8_encode_utf8, valid_utf8};
use crate::bytes::{copy_range, le16, le32, le64, push_bytes, push_u16, push_u32, push_u64, zeros};
use crate::cap::{
    cap_cascade_revoke, cap_grant, derived_cap, descends, first_vacant, get_object, grant_chain,
    holds_any, holds_kind, inherited_cap, law_cascade_removes_descendants_only,
    law_grant_never_amplifies, law_granted_descends, law_inserted_is_found,
    law_stale_handle_is_refused, lemma_first_vacant_bounds, node_of, slot_lookup, slots_with,
    slots_without, task_at, vacated, with_child, word_for_next, CapError, CapHandle, CapIds,
    CapKind, CapRights, CapSlots, CapView, Capability, CapabilityTable, KernelObject, KoTable, Node,
    Space, INDEX_SPAN,
};
use crate::device::{
    cfg_read_call, claim_call, dma_alloc_call, irq_ack_call, irq_wait_call, mmio_map_call,
    sys_dev_cfg_read, sys_dev_claim, sys_dev_dma_alloc, sys_dev_irq_ack, sys_dev_irq_wait,
    sys_dev_mmio_map,
};
use crate::elf::{arg_bytes, exec, image_loaded, takes_slot, task_name};
use crate::kernel::{
    current_caps, current_task, lemma_caps_keep_shape, minted, with_current_caps, Kernel,
    KernelView,
};
use crate::rfs::path::{last_slash, parts};
use crate::keyboard::Keyboard;
use crate::pmm::{
    frames_taken, free_below, lemma_taken_stuck, lowest_free, PhysAddr, FRAME_SIZE, MAX_FRAMES,
};
use crate::task::{
    can_kill, exit_status_normal, find_task, info_of, inherited_all, is_alive, kernel_task, killed,
    law_remove_undoes_insert, lemma_find_task, live, overlaps, plan_of, sched_ok, starts_at,
    status_of, user_joined, vma_with, vma_without, with_brk, with_owner, with_vmas, zero_at,
    SchedView, TaskInfo, TaskView, Tasks, MAX_PRIORITY, STACK_ALLOC,
};
use crate::text::{is_utf8, utf8_str};
use crate::time::{epoch_ms, epoch_ms_at};
use crate::vfs::{entry_views, DirEntry, DirEntryView, Stat};
use crate::vmm::{PageFlags, SpaceView, UserSpace};

verus! {

pub const SYS_YIELD: u64 = 0;

pub const SYS_TASK_EXIT: u64 = 1;

pub const SYS_MMAP: u64 = 2;

pub const SYS_MUNMAP: u64 = 3;

pub const SYS_CAP_GRANT: u64 = 4;

pub const SYS_CAP_REVOKE: u64 = 5;

pub const SYS_IPC_SEND: u64 = 6;

pub const SYS_IPC_RECV: u64 = 7;

pub const SYS_IPC_CREATE: u64 = 8;

pub const SYS_ROLLBACK: u64 = 9;

pub const SYS_EXEC: u64 = 10;

pub const SYS_LOG: u64 = 11;

pub const SYS_IPC_SEND_CAP: u64 = 12;

pub const SYS_IPC_RECV_CAP: u64 = 13;

pub const SYS_SERIAL_READ: u64 = 14;

pub const SYS_TIME: u64 = 15;

pub const SYS_TASK_STATUS: u64 = 16;

pub const SYS_TASK_LIST: u64 = 17;

pub const SYS_MEM_STAT: u64 = 18;

pub const SYS_TASK_KILL: u64 = 19;

pub const SYS_BLK_READ: u64 = 20;

pub const SYS_BLK_WRITE: u64 = 21;

pub const SYS_OPEN: u64 = 22;

pub const SYS_READ: u64 = 23;

pub const SYS_WRITE: u64 = 24;

pub const SYS_CLOSE: u64 = 25;

pub const SYS_STAT: u64 = 26;

pub const SYS_READDIR: u64 = 27;

pub const SYS_CREATE: u64 = 28;

pub const SYS_UNLINK: u64 = 29;

pub const SYS_SERIAL_AVAIL: u64 = 30;

pub const SYS_TASK_WAIT: u64 = 31;

pub const SYS_MKDIR: u64 = 32;

pub const SYS_NANOSLEEP: u64 = 33;

pub const SYS_TASK_SETPRIORITY: u64 = 34;

pub const SYS_RENAME: u64 = 35;

pub const SYS_SEEK: u64 = 36;

pub const SYS_PS: u64 = 37;

pub const SYS_BRK: u64 = 38;

pub const SYS_IPC_POLL: u64 = 39;

pub const SYS_IPC_BIND: u64 = 40;

pub const SYS_IPC_LOOKUP: u64 = 41;

pub const SYS_IPC_RECV_TIMEOUT: u64 = 42;

pub const SYS_IPC_SEND_TIMEOUT: u64 = 43;

pub const SYS_TIME_EPOCH: u64 = 44;

pub const SYS_GETUID: u64 = 45;

pub const SYS_GETGID: u64 = 46;

pub const SYS_SETUID: u64 = 47;

pub const SYS_SETGID: u64 = 48;

pub const SYS_POWEROFF: u64 = 55;

pub const SYS_MOUNT: u64 = 56;

pub const SYS_SYMLINK: u64 = 57;

pub const SYS_READLINK: u64 = 58;

pub const SYS_STORE_REMOVE: u64 = 60;

pub const SYS_DEV_CLAIM: u64 = 61;

pub const SYS_DEV_CFG_READ: u64 = 62;

pub const SYS_DEV_MMIO_MAP: u64 = 63;

pub const SYS_DEV_DMA_ALLOC: u64 = 64;

pub const SYS_DEV_IRQ_WAIT: u64 = 65;

pub const SYS_DEV_IRQ_ACK: u64 = 66;

pub const SYS_UNMOUNT: u64 = 69;

/// The highest number that is assigned. Below it 49, 50 to 54, 59, 67 and 68
/// are not.
pub const SYSCALL_MAX: u64 = 69;

/// Unknown call.
pub const ENOSYS: u64 = 0xFFFF_FFFF_FFFF_FFFF;

/// Invalid or stale capability handle.
pub const ENOCAP: u64 = 0xFFFF_FFFF_FFFF_FFFE;

/// Rights that do not suffice.
pub const ENOPERM: u64 = 0xFFFF_FFFF_FFFF_FFFD;

/// Invalid argument.
pub const EINVAL: u64 = 0xFFFF_FFFF_FFFF_FFFC;

/// No such file or directory.
pub const ENOENT: u64 = 0xFFFF_FFFF_FFFF_FFFB;

/// Bad file descriptor.
pub const EBADF: u64 = 0xFFFF_FFFF_FFFF_FFFA;

/// Nothing there now.
pub const EAGAIN: u64 = 0xFFFF_FFFF_FFFF_FFF9;

/// The end of the user half of the address space.
pub const USER_END: u64 = 0x8000_0000_0000;

/// The end of the identity map: nothing below is for users to map.
pub const USER_MAP_START: u64 = 0x4000_0000;

/// Bytes of a message.
pub const MSG_SIZE: u64 = 64;

/// The longest path.
pub const MAX_PATH: u64 = 4096;

/// The longest name of an endpoint.
pub const MAX_IPC_NAME: u64 = 128;

/// The most that one read or write moves.
pub const MAX_IO: u64 = 0x10_0000;

/// The longest argument block of a new process.
pub const MAX_ARGV: u64 = 4000;

/// Bytes of a disk sector.
pub const SECTOR_SIZE: u64 = 512;

/// Where the heap of a process starts.
pub const HEAP_BASE: u64 = 0x4_0000_0000;

/// The heap stays below this.
pub const HEAP_END: u64 = 0x7FFE_0000_0000;

/// Bytes of a file's attributes.
pub const STAT_SIZE: u64 = 48;

/// Bytes of a directory entry.
pub const DIRENT_SIZE: u64 = 264;

/// Bytes of an entry in the list of tasks.
pub const TASK_INFO_SIZE: u64 = 24;

/// Bytes of an entry in the extended list of tasks.
pub const PS_ENTRY_SIZE: u64 = 48;

/// The most that one log call writes.
pub const MAX_LOG: u64 = 4096;

/// The registers at entry: the call's number and its arguments.
#[derive(Clone, Copy, Debug, PartialEq, Eq, Structural)]
pub struct SyscallFrame {
    pub r15: u64,
    pub r14: u64,
    pub r13: u64,
    pub r12: u64,
    pub rbx: u64,
    pub rbp: u64,
    /// The caller's flags.
    pub r11: u64,
    /// Where the caller goes on.
    pub rcx: u64,
    pub nr: u64,
    pub a1: u64,
    pub a2: u64,
    pub a3: u64,
    pub a4: u64,
    pub a5: u64,
    pub a6: u64,
}

/// What is done with a path.
#[derive(Clone, Copy, Debug, PartialEq, Eq, Structural)]
pub enum PathOp {
    Open,
    Create,
    Unlink,
    Mkdir,
    /// Mount a file system of the kind `source` there.
    Mount { source: u64, flags: u64 },
    Unmount,
    StoreRemove,
}

/// What is left to do to answer a call. A range of user memory in it is valid.
#[derive(Clone, Copy, Debug, PartialEq, Eq, Structural)]
pub enum Action {
    /// Answer with the value.
    Return(u64),
    /// Let another task run, then answer 0.
    Yield,
    /// End the task.
    Exit { status: u64 },
    /// Map a page, then answer 0.
    MapPage { va: u64, frame: PhysAddr, flags: PageFlags },
    /// Unmap a page, give its frame back, then answer 0.
    UnmapPage { va: u64 },
    /// Make an endpoint, and answer as [`ipc_created`] says.
    CreateEndpoint,
    /// Send a message, then answer 0.
    Send { endpoint: usize, ptr: u64, len: u64 },
    /// Send a message with the capability in transit, then answer 0.
    SendCap { endpoint: usize, ptr: u64, len: u64 },
    /// Send a message, and answer 0, or `EAGAIN` when the time is up.
    SendTimeout { endpoint: usize, ptr: u64, len: u64, timeout_ms: u64 },
    /// Wait for a message, copy it, and answer its length.
    Recv { endpoint: usize, ptr: u64, len: u64 },
    /// Wait for a message, and answer as [`cap_received`] says.
    RecvCap { endpoint: usize, ptr: u64, len: u64, out: u64 },
    /// Copy a message if there is one, and answer its length, else `EAGAIN`.
    Poll { endpoint: usize, ptr: u64, len: u64 },
    /// Wait for a message, and answer its length, or `EAGAIN` when the time is
    /// up.
    RecvTimeout { endpoint: usize, ptr: u64, len: u64, timeout_ms: u64 },
    /// Bind the name in user memory to an endpoint, and answer as [`ipc_bound`]
    /// says.
    BindName { endpoint: usize, ptr: u64, len: u64 },
    /// Look up the name in user memory, and answer as [`ipc_looked_up`] says.
    LookupName { ptr: u64, len: u64, rights: CapRights },
    /// Stop the machine.
    Halt,
    /// Copy the binary, the handles and the arguments, and answer as
    /// [`sys_exec`] says.
    Exec { elf: u64, elf_len: u64, caps: u64, caps_len: u64, argv: u64, argv_len: u64 },
    /// Log the text in user memory, where it is valid, then answer 0.
    Log { ptr: u64, len: u64 },
    /// Wait for input, and answer how much was read.
    ReadInput { ptr: u64, len: u64 },
    /// Answer 1 where input is ready, else 0.
    InputReady,
    /// Copy the list of tasks out, up to `cap` entries.
    TaskList { ptr: u64, cap: u64 },
    /// Copy the extended list of tasks out, up to `cap` entries.
    Ps { ptr: u64, cap: u64 },
    /// Read a sector, and answer 0, or `EINVAL` where that fails.
    ReadSector { sector: u64, ptr: u64 },
    /// Write a sector, and answer 0, or `EINVAL` where that fails.
    WriteSector { sector: u64, ptr: u64 },
    /// Work on the path in user memory.
    Path { op: PathOp, ptr: u64, len: u64 },
    /// Read from a file, and copy what was read.
    Read { fd: u64, ptr: u64, len: u64 },
    Write { fd: u64, ptr: u64, len: u64 },
    Close { fd: u64 },
    Seek { fd: u64, offset: u64, whence: u32 },
    /// Copy the attributes of the path's file out, and answer as [`stat_answer`]
    /// says.
    Stat { ptr: u64, len: u64, out: u64 },
    /// Copy the entries of the path's directory out, and answer as
    /// [`readdir_answer`] says.
    ReadDir { ptr: u64, len: u64, out: u64, out_len: u64 },
    /// Copy the target of a link out.
    ReadLink { ptr: u64, len: u64, out: u64, out_len: u64 },
    Rename { from: u64, from_len: u64, to: u64, to_len: u64 },
    Symlink { target: u64, target_len: u64, link: u64, link_len: u64 },
    /// Wait for a task to end, and answer its status.
    Wait { target: u64 },
    /// Sleep until the tick, then answer 0.
    Sleep { until: u64 },
    /// Map fresh pages for `[from, to)`, and answer as [`brk_grow`] says.
    GrowBrk { from: u64, to: u64, brk: u64 },
    /// Unmap `[from, to)`, give the frames back, and answer `brk`.
    ShrinkBrk { from: u64, to: u64, brk: u64 },
    /// Copy a device name, and answer as [`crate::device::claim_device`] says.
    Claim { ptr: u64, len: u64 },
    /// Read the configuration register, and answer its value.
    ReadConfig { addr: u32 },
    /// Map pages of a device, then answer `ret`.
    MapDevice { va: u64, phys: u64, pages: u64, flags: PageFlags, ret: u64 },
    /// Zero and map the frames, store the physical address, then answer 0.
    MapDma { va: u64, phys: u64, pages: u64, flags: PageFlags, out: u64 },
    /// Block until woken, then make the call again.
    BlockOnIrq,
    /// Unmask the interrupt line, then answer 0.
    Unmask { gsi: u32 },
    PowerOff,
}

// ── User memory ──────────────────────────────────────────────────────────────

/// `[ptr, ptr + len)` lies in the user half, and `ptr` is not null.
pub open spec fn user_range(ptr: u64, len: u64) -> bool {
    ptr != 0 && (len == 0 || ptr + len <= USER_END)
}

pub fn valid_user_range(ptr: u64, len: u64) -> (r: bool)
    ensures
        r == user_range(ptr, len),
{
    if ptr == 0 {
        return false;
    }
    if len == 0 {
        return true;
    }
    match ptr.checked_add(len) {
        Some(end) => end <= USER_END,
        None => false,
    }
}

/// A page that users may map.
pub open spec fn user_page(va: u64) -> bool {
    va % 0x1000 == 0 && USER_MAP_START <= va < USER_END
}

pub(crate) fn is_user_page(va: u64) -> (r: bool)
    ensures
        r == user_page(va),
{
    va % 0x1000 == 0 && USER_MAP_START <= va && va < USER_END
}

fn smaller(a: u64, b: u64) -> (r: u64)
    ensures
        r == least(a, b),
{
    if a <= b {
        a
    } else {
        b
    }
}

/// The smaller of the two.
pub open spec fn least(a: u64, b: u64) -> u64 {
    if a <= b {
        a
    } else {
        b
    }
}

// ── Memory ───────────────────────────────────────────────────────────────────

/// The current task may map memory.
pub open spec fn may_map(k: KernelView) -> bool {
    holds_kind(current_caps(k), CapKind::Memory, CapRights(CapRights::WRITE))
}

/// The flags that users may choose, and the user flag always.
pub open spec fn user_flags(bits: u64) -> PageFlags {
    PageFlags((bits & 0x8000_0000_0000_0007) | 0x4)
}

/// Mapping a fresh page: the caller names neither the frame nor kernel flags.
pub open spec fn mmap_call(k: KernelView, f: SyscallFrame) -> (KernelView, Action) {
    let l = current_task(k).vma_list;
    if !user_page(f.a1) {
        (k, Action::Return(EINVAL))
    } else if !may_map(k) {
        (k, Action::Return(ENOPERM))
    } else if overlaps(l, f.a1) {
        (k, Action::Return(EINVAL))
    } else {
        match lowest_free(k.used, 0) {
            None => (k, Action::Return(EINVAL)),
            Some(i) => (
                KernelView {
                    sched: with_vmas(k.sched, vma_with(l, f.a1)),
                    used: k.used.update(i, true),
                    ..k
                },
                Action::MapPage {
                    va: f.a1,
                    frame: PhysAddr((i * FRAME_SIZE) as u64),
                    flags: user_flags(f.a3),
                },
            ),
        }
    }
}

fn sys_mmap(k: &mut Kernel, f: &SyscallFrame) -> (a: Action)
    requires
        old(k).wf(),
    ensures
        final(k).wf(),
        (final(k)@, a) == mmap_call(old(k)@, *f),
{
    if !is_user_page(f.a1) {
        return Action::Return(EINVAL);
    }
    if !k.current_table().has_kind_with_rights(CapKind::Memory, CapRights(CapRights::WRITE)) {
        return Action::Return(ENOPERM);
    }
    let ghost k0 = k@;
    let ghost l = current_task(k@).vma_list;
    if !k.sched.vma_insert(f.a1) {
        return Action::Return(EINVAL);
    }
    let flags = PageFlags((f.a3 & 0x8000_0000_0000_0007) | 0x4);
    match k.frames.alloc_frame() {
        Some(frame) => Action::MapPage { va: f.a1, frame, flags },
        None => {
            proof {
                law_remove_undoes_insert(l, f.a1);
            }
            let _undone: bool = k.sched.vma_remove(f.a1);
            assert(k@.sched.tasks =~= k0.sched.tasks);
            assert(k@ =~= k0);
            Action::Return(EINVAL)
        },
    }
}

/// Unmapping a page that the task mapped.
pub open spec fn munmap_call(k: KernelView, f: SyscallFrame) -> (KernelView, Action) {
    let l = current_task(k).vma_list;
    if !user_page(f.a1) || !starts_at(l, f.a1) {
        (k, Action::Return(EINVAL))
    } else {
        (
            KernelView { sched: with_vmas(k.sched, vma_without(l, f.a1)), ..k },
            Action::UnmapPage { va: f.a1 },
        )
    }
}

fn sys_munmap(k: &mut Kernel, f: &SyscallFrame) -> (a: Action)
    requires
        old(k).wf(),
    ensures
        final(k).wf(),
        (final(k)@, a) == munmap_call(old(k)@, *f),
{
    if !is_user_page(f.a1) {
        return Action::Return(EINVAL);
    }
    if !k.sched.vma_remove(f.a1) {
        return Action::Return(EINVAL);
    }
    Action::UnmapPage { va: f.a1 }
}

/// The end of the page that an address reaches into; machine arithmetic.
pub open spec fn page_top(x: u64) -> u64 {
    ((x + 0xFFF) % 0x1_0000_0000_0000_0000 / 0x1000 * 0x1000) as u64
}

fn round_up(x: u64) -> (r: u64)
    ensures
        r == page_top(x),
{
    x.wrapping_add(0xFFF) / 0x1000 * 0x1000
}

/// The current break: the start of the heap until it is first moved.
pub open spec fn break_of(k: KernelView) -> u64 {
    if current_task(k).brk == 0 {
        HEAP_BASE
    } else {
        current_task(k).brk
    }
}

/// The state with another break of the current task.
pub open spec fn with_break(k: KernelView, brk: u64) -> KernelView {
    KernelView { sched: with_brk(k.sched, brk), ..k }
}

/// Asking for the break, or moving it. What lies between the old and the new
/// end of the heap is mapped or unmapped page by page; a task without a page
/// table of its own unmaps nothing.
pub open spec fn brk_call(k: KernelView, f: SyscallFrame) -> (KernelView, Action) {
    let cur = break_of(k);
    let new = f.a1;
    if !may_map(k) {
        (k, Action::Return(ENOPERM))
    } else if new == 0 {
        (with_break(k, cur), Action::Return(cur))
    } else if new <= cur {
        if new < HEAP_BASE {
            (k, Action::Return(EINVAL))
        } else if current_task(k).page_table is Some {
            (
                with_break(k, new),
                Action::ShrinkBrk { from: page_top(new), to: page_top(cur), brk: new },
            )
        } else {
            (with_break(k, new), Action::Return(new))
        }
    } else if new >= HEAP_END {
        (k, Action::Return(EINVAL))
    } else {
        (k, Action::GrowBrk { from: page_top(cur), to: page_top(new), brk: new })
    }
}

fn sys_brk(k: &mut Kernel, f: &SyscallFrame) -> (a: Action)
    requires
        old(k).wf(),
    ensures
        final(k).wf(),
        (final(k)@, a) == brk_call(old(k)@, *f),
{
    if !k.current_table().has_kind_with_rights(CapKind::Memory, CapRights(CapRights::WRITE)) {
        return Action::Return(ENOPERM);
    }
    let b: u64 = k.sched.current_task_brk();
    let cur: u64 = if b == 0 {
        HEAP_BASE
    } else {
        b
    };
    let new: u64 = f.a1;
    if new == 0 {
        k.sched.set_current_task_brk(cur);
        return Action::Return(cur);
    }
    if new <= cur {
        if new < HEAP_BASE {
            return Action::Return(EINVAL);
        }
        let own: bool = k.sched.current_page_table().is_some();
        k.sched.set_current_task_brk(new);
        if own {
            return Action::ShrinkBrk { from: round_up(new), to: round_up(cur), brk: new };
        }
        return Action::Return(new);
    }
    if new >= HEAP_END {
        return Action::Return(EINVAL);
    }
    Action::GrowBrk { from: round_up(cur), to: round_up(new), brk: new }
}

/// The heap grown over `[from, to)`: the state, the frames for its pages, and the
/// break, which stays behind what can be mapped.
pub open spec fn heap_grown(k: KernelView, from: u64, to: u64, brk: u64) -> (
    KernelView,
    Seq<PhysAddr>,
    u64,
) {
    let n = ((to - from) / 0x1000) as nat;
    let (used, frames) = frames_taken(k.used, n);
    let end = if frames.len() == n {
        brk
    } else {
        (from + frames.len() * 0x1000) as u64
    };
    (with_break(KernelView { used, ..k }, end), frames, end)
}

/// Frames for the pages of `[from, to)`, in order, and the answer: the new
/// break, or where memory ran out, the end of what can be mapped. The break
/// moves there.
pub fn brk_grow(k: &mut Kernel, from: u64, to: u64, brk: u64) -> (r: (Vec<PhysAddr>, u64))
    requires
        old(k).wf(),
        from % 0x1000 == 0,
        to % 0x1000 == 0,
        from <= to,
    ensures
        final(k).wf(),
        ({
            let n = ((to - from) / 0x1000) as nat;
            let (used, frames) = frames_taken(old(k)@.used, n);
            let end = if frames.len() == n {
                brk
            } else {
                (from + frames.len() * 0x1000) as u64
            };
            &&& r.0@ == frames
            &&& r.1 == end
            &&& final(k)@ == with_break(KernelView { used, ..old(k)@ }, end)
        }),
        (final(k)@, r.0@, r.1) == heap_grown(old(k)@, from, to, brk),
{
    let n: u64 = (to - from) / 0x1000;
    let ghost u0 = k@.used;
    let ghost k0 = k@;
    let mut frames: Vec<PhysAddr> = Vec::new();
    let mut i: u64 = 0;
    while i < n
        invariant
            k.wf(),
            i <= n,
            n == (to - from) / 0x1000,
            from <= to,
            k0 == old(k)@,
            u0 == k0.used,
            frames@.len() == i,
            (k@.used, frames@) == frames_taken(u0, i as nat),
            k@ == (KernelView { used: k@.used, ..k0 }),
        decreases n - i,
    {
        match k.frames.alloc_frame() {
            Some(p) => {
                frames.push(p);
            },
            None => {
                let end: u64 = from + i * 0x1000;
                proof {
                    lemma_taken_stuck(u0, (i + 1) as nat, n as nat);
                }
                k.sched.set_current_task_brk(end);
                return (frames, end);
            },
        }
        i += 1;
    }
    k.sched.set_current_task_brk(brk);
    (frames, brk)
}

// ── Capabilities ─────────────────────────────────────────────────────────────

/// The state with other capabilities of task `i`.
pub open spec fn with_caps_of(k: KernelView, i: int, slots: CapSlots) -> KernelView {
    KernelView {
        sched: SchedView { caps: k.sched.caps.update(i, (k.sched.caps[i].0, slots)), ..k.sched },
        ..k
    }
}

/// Granting a capability to another task. A bad handle is told before a bad
/// task.
pub open spec fn cap_grant_call(k: KernelView, f: SyscallFrame) -> (KernelView, Action) {
    let to = find_task(k.sched.tasks, f.a2, 0);
    match slot_lookup(current_caps(k), f.a1) {
        Err(_) => (k, Action::Return(ENOCAP)),
        Ok(cap) => if to >= k.sched.tasks.len() || to == k.sched.current {
            (k, Action::Return(EINVAL))
        } else if !cap.rights.spec_has(CapRights(CapRights::GRANT)) {
            (k, Action::Return(ENOPERM))
        } else {
            let target = k.sched.caps[to].1;
            let child = CapHandle(word_for_next(target) as u64);
            let k1 = with_caps_of(
                KernelView { ids: CapIds { next: k.ids.after() }, ..k },
                to,
                slots_with(target, derived_cap(cap, k.ids.next, CapRights(f.a3 as u8))),
            );
            (
                with_current_caps(
                    k1,
                    with_child(current_caps(k), CapHandle(f.a1).slot(), f.a2, child),
                ),
                Action::Return(child.0),
            )
        },
    }
}

fn sys_cap_grant(k: &mut Kernel, f: &SyscallFrame) -> (a: Action)
    requires
        old(k).wf(),
    ensures
        final(k).wf(),
        (final(k)@, a) == cap_grant_call(old(k)@, *f),
{
    let handle = CapHandle(f.a1);
    let ghost k0 = k@;
    if k.current_table().get(handle).is_err() {
        return Action::Return(ENOCAP);
    }
    let c: usize = k.sched.current;
    let t: usize = match k.sched.cap_table_index(f.a2) {
        Some(t) => t,
        None => {
            return Action::Return(EINVAL);
        },
    };
    if t == c {
        return Action::Return(EINVAL);
    }
    assert(k.sched@.caps[c as int] == k.sched.caps.tasks@[c as int]@);
    assert(k.sched@.caps[t as int] == k.sched.caps.tasks@[t as int]@);
    let mut to = CapabilityTable::new();
    core::mem::swap(&mut to, &mut k.sched.caps.tasks[t].table);
    let mask = CapRights(#[verifier::truncate] (f.a3 as u8));
    let r = cap_grant(
        &mut k.ids,
        &mut k.sched.caps.tasks[c].table,
        handle,
        f.a2,
        &mut to,
        mask,
    );
    core::mem::swap(&mut to, &mut k.sched.caps.tasks[t].table);
    assert(k.sched@.tasks =~= k0.sched.tasks);
    match r {
        Ok(h) => {
            proof {
                let k2 = cap_grant_call(k0, *f).0;
                let mid = with_caps_of(k0, t as int, k2.sched.caps[t as int].1).sched;
                lemma_caps_keep_shape(k0.sched, t as int, k2.sched.caps[t as int].1);
                lemma_caps_keep_shape(mid, c as int, k2.sched.caps[c as int].1);
                assert(k.ids == k2.ids);
                assert(k.sched@.caps =~= k2.sched.caps);
                assert(k@ =~= k2);
            }
            Action::Return(h.0)
        },
        Err(e) => {
            assert(k.sched@.caps =~= k0.sched.caps);
            assert(k.ids == k0.ids);
            assert(k@ =~= k0);
            if e == CapError::NoGrant {
                Action::Return(ENOPERM)
            } else {
                Action::Return(ENOCAP)
            }
        },
    }
}

/// Revoking a capability and all that was derived from it.
pub open spec fn cap_revoke_call(k: KernelView, f: SyscallFrame) -> (KernelView, Action) {
    let id = current_task(k).id;
    let handle = CapHandle(f.a1);
    match slot_lookup(current_caps(k), f.a1) {
        Err(_) => (k, Action::Return(ENOCAP)),
        Ok(cap) => if !cap.rights.spec_has(CapRights(CapRights::REVOKE)) {
            (k, Action::Return(ENOPERM))
        } else {
            (
                KernelView {
                    sched: SchedView {
                        caps: vacated(
                            k.sched.caps,
                            |n: Node|
                                descends(
                                    k.sched.caps,
                                    node_of(k.sched.caps, id, handle)->0,
                                    n,
                                ),
                        ),
                        ..k.sched
                    },
                    ..k
                },
                Action::Return(0),
            )
        },
    }
}

/// The current task's table is found under its identity.
proof fn lemma_current_table(s: SchedView, i: int)
    requires
        sched_ok(s),
        0 <= i <= s.current,
    ensures
        task_at(s.caps, s.tasks[s.current].id, i) == s.current,
    decreases s.current - i,
{
    assert(s.caps[s.current].0 == s.tasks[s.current].id);
    if i < s.current {
        assert(s.caps[i].0 == s.tasks[i].id);
        assert(s.tasks[i].id != s.tasks[s.current].id);
        lemma_current_table(s, i + 1);
    }
}

fn sys_cap_revoke(k: &mut Kernel, f: &SyscallFrame) -> (a: Action)
    requires
        old(k).wf(),
    ensures
        final(k).wf(),
        (final(k)@, a) == cap_revoke_call(old(k)@, *f),
{
    let handle = CapHandle(f.a1);
    let ghost k0 = k@;
    proof {
        lemma_current_table(k@.sched, 0);
    }
    let id: u64 = k.sched.current_task_id();
    match cap_cascade_revoke(&mut k.sched.caps, id, handle) {
        Ok(()) => {
            proof {
                let k2 = cap_revoke_call(k0, *f).0;
                assert(k.sched@.tasks =~= k0.sched.tasks);
                assert(k.sched@.caps =~= k2.sched.caps);
                assert(forall|i: int|
                    0 <= i < k2.sched.caps.len() ==> (#[trigger] k2.sched.caps[i]).0
                        == k0.sched.caps[i].0);
                assert(k@ =~= k2);
            }
            Action::Return(0)
        },
        Err(e) => {
            assert(k.sched@.tasks =~= k0.sched.tasks);
            assert(k@ =~= k0);
            if e == CapError::NoRevoke {
                Action::Return(ENOPERM)
            } else {
                Action::Return(ENOCAP)
            }
        },
    }
}

// ── Endpoints ────────────────────────────────────────────────────────────────

/// The endpoint that a handle of the current task names, with the rights
/// needed.
pub open spec fn endpoint_of(k: KernelView, handle: u64, need: u8) -> Result<usize, u64> {
    match slot_lookup(current_caps(k), handle) {
        Err(_) => Err(ENOCAP),
        Ok(cap) => if cap.kind == CapKind::Ipc && cap.rights.spec_has(CapRights(need)) {
            match slot_lookup(k.objects, cap.object.0) {
                Ok(KernelObject::Ipc { endpoint_idx }) => Ok(endpoint_idx),
                _ => Err(ENOCAP),
            }
        } else {
            Err(ENOPERM)
        },
    }
}

fn resolve_endpoint(k: &Kernel, handle: u64, need: u8) -> (r: Result<usize, u64>)
    requires
        k.wf(),
    ensures
        r == endpoint_of(k@, handle, need),
{
    match k.current_table().get(CapHandle(handle)) {
        Err(_) => Err(ENOCAP),
        Ok(cap) => {
            if cap.kind != CapKind::Ipc || !cap.rights.has(CapRights(need)) {
                return Err(ENOPERM);
            }
            match get_object(&k.objects, cap.object) {
                Some(KernelObject::Ipc { endpoint_idx }) => Ok(*endpoint_idx),
                _ => Err(ENOCAP),
            }
        },
    }
}

/// A call on an endpoint with a message buffer, up to the endpoint.
pub open spec fn message_call(k: KernelView, f: SyscallFrame, need: u8) -> Result<usize, u64> {
    if !user_range(f.a2, least(f.a3, MSG_SIZE)) {
        Err(EINVAL)
    } else {
        endpoint_of(k, f.a1, need)
    }
}

fn resolve_message(k: &Kernel, f: &SyscallFrame, need: u8) -> (r: Result<usize, u64>)
    requires
        k.wf(),
    ensures
        r == message_call(k@, *f, need),
{
    if !valid_user_range(f.a2, smaller(f.a3, MSG_SIZE)) {
        return Err(EINVAL);
    }
    resolve_endpoint(k, f.a1, need)
}

/// The calls that send or receive without a capability.
pub open spec fn ipc_call(k: KernelView, f: SyscallFrame) -> Action {
    let need = if f.nr == SYS_IPC_SEND || f.nr == SYS_IPC_SEND_TIMEOUT {
        CapRights::WRITE
    } else {
        CapRights::READ
    };
    let len = least(f.a3, MSG_SIZE);
    match message_call(k, f, need) {
        Err(e) => Action::Return(e),
        Ok(endpoint) => if f.nr == SYS_IPC_SEND {
            Action::Send { endpoint, ptr: f.a2, len }
        } else if f.nr == SYS_IPC_SEND_TIMEOUT {
            Action::SendTimeout { endpoint, ptr: f.a2, len, timeout_ms: f.a4 }
        } else if f.nr == SYS_IPC_RECV {
            Action::Recv { endpoint, ptr: f.a2, len }
        } else if f.nr == SYS_IPC_RECV_TIMEOUT {
            Action::RecvTimeout { endpoint, ptr: f.a2, len, timeout_ms: f.a4 }
        } else {
            Action::Poll { endpoint, ptr: f.a2, len }
        },
    }
}

fn sys_ipc(k: &Kernel, f: &SyscallFrame) -> (a: Action)
    requires
        k.wf(),
    ensures
        a == ipc_call(k@, *f),
{
    let need: u8 = if f.nr == SYS_IPC_SEND || f.nr == SYS_IPC_SEND_TIMEOUT {
        CapRights::WRITE
    } else {
        CapRights::READ
    };
    let len: u64 = smaller(f.a3, MSG_SIZE);
    match resolve_message(k, f, need) {
        Err(e) => Action::Return(e),
        Ok(endpoint) => {
            if f.nr == SYS_IPC_SEND {
                Action::Send { endpoint, ptr: f.a2, len }
            } else if f.nr == SYS_IPC_SEND_TIMEOUT {
                Action::SendTimeout { endpoint, ptr: f.a2, len, timeout_ms: f.a4 }
            } else if f.nr == SYS_IPC_RECV {
                Action::Recv { endpoint, ptr: f.a2, len }
            } else if f.nr == SYS_IPC_RECV_TIMEOUT {
                Action::RecvTimeout { endpoint, ptr: f.a2, len, timeout_ms: f.a4 }
            } else {
                Action::Poll { endpoint, ptr: f.a2, len }
            }
        },
    }
}

/// Sending a capability: it leaves the caller's table and is in transit.
pub open spec fn send_cap_call(k: KernelView, f: SyscallFrame) -> (KernelView, Action) {
    match message_call(k, f, CapRights::WRITE) {
        Err(e) => (k, Action::Return(e)),
        Ok(endpoint) => match slot_lookup(current_caps(k), f.a4) {
            Err(_) => (k, Action::Return(ENOCAP)),
            Ok(cap) => (
                KernelView {
                    in_transit: Some(cap),
                    ..with_current_caps(
                        k,
                        slots_without(current_caps(k), CapHandle(f.a4).slot()),
                    )
                },
                Action::SendCap { endpoint, ptr: f.a2, len: least(f.a3, MSG_SIZE) },
            ),
        },
    }
}

fn sys_ipc_send_cap(k: &mut Kernel, f: &SyscallFrame) -> (a: Action)
    requires
        old(k).wf(),
    ensures
        final(k).wf(),
        (final(k)@, a) == send_cap_call(old(k)@, *f),
{
    let ghost k0 = k@;
    let endpoint: usize = match resolve_message(k, f, CapRights::WRITE) {
        Err(e) => {
            return Action::Return(e);
        },
        Ok(e) => e,
    };
    let c: usize = k.sched.current;
    assert(k.sched@.caps[c as int] == k.sched.caps.tasks@[c as int]@);
    match k.sched.caps.tasks[c].table.take(CapHandle(f.a4)) {
        Err(_) => {
            assert(k.sched@.tasks =~= k0.sched.tasks);
            assert(k.sched@.caps =~= k0.sched.caps);
            assert(k@ =~= k0);
            Action::Return(ENOCAP)
        },
        Ok(cap) => {
            k.in_transit = Some(cap);
            proof {
                let k2 = send_cap_call(k0, *f).0;
                lemma_caps_keep_shape(k0.sched, c as int, k2.sched.caps[c as int].1);
                assert(k.sched@.tasks =~= k0.sched.tasks);
                assert(k.sched@.caps =~= k2.sched.caps);
                assert(k@ =~= k2);
            }
            Action::SendCap { endpoint, ptr: f.a2, len: smaller(f.a3, MSG_SIZE) }
        },
    }
}

/// Receiving with a capability; the place for its handle may be left out.
pub open spec fn recv_cap_call(k: KernelView, f: SyscallFrame) -> Action {
    let len = least(f.a3, MSG_SIZE);
    if !user_range(f.a2, len) || (f.a4 != 0 && !user_range(f.a4, 8)) {
        Action::Return(EINVAL)
    } else {
        match endpoint_of(k, f.a1, CapRights::READ) {
            Err(e) => Action::Return(e),
            Ok(endpoint) => Action::RecvCap { endpoint, ptr: f.a2, len, out: f.a4 },
        }
    }
}

fn sys_ipc_recv_cap(k: &Kernel, f: &SyscallFrame) -> (a: Action)
    requires
        k.wf(),
    ensures
        a == recv_cap_call(k@, *f),
{
    let len: u64 = smaller(f.a3, MSG_SIZE);
    if !valid_user_range(f.a2, len) || (f.a4 != 0 && !valid_user_range(f.a4, 8)) {
        return Action::Return(EINVAL);
    }
    match resolve_endpoint(k, f.a1, CapRights::READ) {
        Err(e) => Action::Return(e),
        Ok(endpoint) => Action::RecvCap { endpoint, ptr: f.a2, len, out: f.a4 },
    }
}

/// Binding a name needs the grant right.
pub open spec fn bind_call(k: KernelView, f: SyscallFrame) -> Action {
    if f.a3 == 0 || f.a3 > MAX_IPC_NAME || !user_range(f.a2, f.a3) {
        Action::Return(EINVAL)
    } else {
        match endpoint_of(k, f.a1, CapRights::GRANT) {
            Err(e) => Action::Return(e),
            Ok(endpoint) => Action::BindName { endpoint, ptr: f.a2, len: f.a3 },
        }
    }
}

fn sys_ipc_bind(k: &Kernel, f: &SyscallFrame) -> (a: Action)
    requires
        k.wf(),
    ensures
        a == bind_call(k@, *f),
{
    if f.a3 == 0 || f.a3 > MAX_IPC_NAME || !valid_user_range(f.a2, f.a3) {
        return Action::Return(EINVAL);
    }
    match resolve_endpoint(k, f.a1, CapRights::GRANT) {
        Err(e) => Action::Return(e),
        Ok(endpoint) => Action::BindName { endpoint, ptr: f.a2, len: f.a3 },
    }
}

/// The rights that a lookup gives: read and write at most, and both where the
/// mask names neither.
pub open spec fn lookup_rights(mask: u64) -> CapRights {
    let r = (mask as u8) & 0x3;
    CapRights(
        if r == 0 {
            0x3
        } else {
            r
        },
    )
}

/// Looking up an endpoint by name.
pub open spec fn lookup_call(f: SyscallFrame) -> Action {
    if f.a2 == 0 || f.a2 > MAX_IPC_NAME || !user_range(f.a1, f.a2) {
        Action::Return(EINVAL)
    } else {
        Action::LookupName { ptr: f.a1, len: f.a2, rights: lookup_rights(f.a3) }
    }
}

fn sys_ipc_lookup(f: &SyscallFrame) -> (a: Action)
    ensures
        a == lookup_call(*f),
{
    if f.a2 == 0 || f.a2 > MAX_IPC_NAME || !valid_user_range(f.a1, f.a2) {
        return Action::Return(EINVAL);
    }
    let r: u8 = (#[verifier::truncate] (f.a3 as u8)) & 0x3;
    let rights = CapRights(
        if r == 0 {
            0x3
        } else {
            r
        },
    );
    Action::LookupName { ptr: f.a1, len: f.a2, rights }
}

/// An endpoint was made, or could not be: the state, and the answer. The maker
/// gets all rights on it.
pub open spec fn endpoint_made(k: KernelView, made: Option<usize>) -> (KernelView, u64) {
    match made {
        None => (k, EINVAL),
        Some(endpoint_idx) => minted(
            k,
            KernelObject::Ipc { endpoint_idx },
            CapKind::Ipc,
            CapRights(CapRights::ALL),
        ),
    }
}

/// Answer a call that makes an endpoint.
pub fn ipc_created(k: &mut Kernel, made: Option<usize>) -> (r: u64)
    requires
        old(k).wf(),
        !KoTable::full(old(k)@.objects),
    ensures
        final(k).wf(),
        (final(k)@, r) == endpoint_made(old(k)@, made),
{
    match made {
        None => EINVAL,
        Some(endpoint_idx) => {
            let obj = KernelObject::Ipc { endpoint_idx };
            match k.mint(obj, CapKind::Ipc, CapRights(CapRights::ALL)) {
                Some(h) => h,
                None => EINVAL,
            }
        },
    }
}

/// A name was bound to an endpoint, or was taken already. A name that is not text
/// is refused.
pub fn ipc_bound(name: &[u8], bound: bool) -> (r: u64)
    ensures
        r == if !valid_utf8(name@) {
            EINVAL
        } else if bound {
            0
        } else {
            ENOSYS
        },
{
    if !is_utf8(name) {
        EINVAL
    } else if bound {
        0
    } else {
        ENOSYS
    }
}

/// An endpoint was looked up by name: the state, and the answer. A name that is
/// not text is refused.
pub open spec fn endpoint_found(
    k: KernelView,
    name: Seq<u8>,
    found: Option<usize>,
    rights: CapRights,
) -> (KernelView, u64) {
    if !valid_utf8(name) {
        (k, EINVAL)
    } else {
        match found {
            None => (k, ENOENT),
            Some(endpoint_idx) => minted(
                k,
                KernelObject::Ipc { endpoint_idx },
                CapKind::Ipc,
                rights,
            ),
        }
    }
}

/// Answer a call that looks up an endpoint.
pub fn ipc_looked_up(k: &mut Kernel, name: &[u8], found: Option<usize>, rights: CapRights) -> (r:
    u64)
    requires
        old(k).wf(),
        !KoTable::full(old(k)@.objects),
    ensures
        final(k).wf(),
        (final(k)@, r) == endpoint_found(old(k)@, name@, found, rights),
{
    if !is_utf8(name) {
        return EINVAL;
    }
    match found {
        None => ENOENT,
        Some(endpoint_idx) => {
            let obj = KernelObject::Ipc { endpoint_idx };
            match k.mint(obj, CapKind::Ipc, rights) {
                Some(h) => h,
                None => ENOENT,
            }
        },
    }
}

/// A capability came with a message, or none: it is put into the caller's table
/// where the caller asked for its handle. The value is what to store there.
pub open spec fn cap_arrived(k: KernelView, out: u64, cap: Option<CapView>) -> (
    KernelView,
    Option<u64>,
) {
    if out == 0 {
        (k, None)
    } else {
        match cap {
            None => (k, Some(u64::MAX)),
            Some(c) => (
                with_current_caps(k, slots_with(current_caps(k), c)),
                Some(word_for_next(current_caps(k)) as u64),
            ),
        }
    }
}

/// Take in a capability that came with a message.
pub fn cap_received(k: &mut Kernel, out: u64, cap: Option<Capability>) -> (r: Option<u64>)
    requires
        old(k).wf(),
    ensures
        final(k).wf(),
        (final(k)@, r) == cap_arrived(
            old(k)@,
            out,
            match cap {
                Some(c) => Some(c@),
                None => None,
            },
        ),
{
    if out == 0 {
        return None;
    }
    match cap {
        None => Some(u64::MAX),
        Some(c) => {
            let ghost k0 = k@;
            let ghost cv = c@;
            let cur: usize = k.sched.current;
            assert(k.sched@.caps[cur as int] == k.sched.caps.tasks@[cur as int]@);
            let h = k.sched.caps.tasks[cur].table.insert(c);
            proof {
                let k2 = cap_arrived(k0, out, Some(cv)).0;
                lemma_caps_keep_shape(k0.sched, cur as int, k2.sched.caps[cur as int].1);
                assert(k.sched@.tasks =~= k0.sched.tasks);
                assert(k.sched@.caps =~= k2.sched.caps);
                assert(k@ =~= k2);
            }
            Some(h.0)
        },
    }
}

// ── New processes ────────────────────────────────────────────────────────────

/// Where the field that starts at `i` ends: at the next zero, or the end.
pub open spec fn field_end(buf: Seq<u8>, i: int) -> int
    decreases buf.len() - i,
{
    if i >= buf.len() {
        buf.len() as int
    } else if buf[i] == 0 {
        i
    } else {
        field_end(buf, i + 1)
    }
}

proof fn lemma_field_end(buf: Seq<u8>, i: int)
    requires
        0 <= i <= buf.len(),
    ensures
        i <= field_end(buf, i) <= buf.len(),
    decreases buf.len() - i,
{
    if i < buf.len() && buf[i] != 0 {
        lemma_field_end(buf, i + 1);
    }
}

/// The arguments in a block from `i` on: what stands between zeros, where it is
/// not empty and is text.
pub open spec fn args_from(buf: Seq<u8>, i: int) -> Seq<Seq<u8>>
    decreases buf.len() + 1 - i,
{
    if i < 0 || i >= buf.len() {
        seq![]
    } else {
        let e = field_end(buf, i);
        if e < i || e > buf.len() {
            seq![]
        } else {
            let field = buf.subrange(i, e);
            let rest = args_from(buf, e + 1);
            if field.len() > 0 && valid_utf8(field) {
                seq![field] + rest
            } else {
                rest
            }
        }
    }
}

/// The arguments in a block.
pub fn split_args(buf: &[u8]) -> (v: Vec<Vec<u8>>)
    ensures
        v@.len() == args_from(buf@, 0).len(),
        forall|i: int| 0 <= i < v@.len() ==> (#[trigger] v@[i])@ == args_from(buf@, 0)[i],
        forall|i: int| 0 <= i < v@.len() ==> valid_utf8((#[trigger] v@[i])@),
{
    let mut v: Vec<Vec<u8>> = Vec::new();
    let ghost goal = args_from(buf@, 0);
    let mut i: usize = 0;
    assert(parts(v@) + args_from(buf@, 0) =~= goal);
    while i < buf.len()
        invariant
            i <= buf@.len() + 1,
            goal == args_from(buf@, 0),
            goal == parts(v@) + args_from(buf@, i as int),
            forall|j: int| 0 <= j < v@.len() ==> valid_utf8((#[trigger] v@[j])@),
        decreases buf@.len() + 1 - i,
    {
        let mut e: usize = i;
        while e < buf.len() && buf[e] != 0
            invariant
                i <= e <= buf@.len(),
                field_end(buf@, i as int) == field_end(buf@, e as int),
            decreases buf@.len() - e,
        {
            e += 1;
        }
        let field: Vec<u8> = copy_range(buf, i, e);
        let ghost before = parts(v@);
        let ghost rest = args_from(buf@, e + 1);
        assert(args_from(buf@, i as int) == if field@.len() > 0 && valid_utf8(field@) {
            seq![field@] + rest
        } else {
            rest
        });
        if field.len() > 0 && is_utf8(field.as_slice()) {
            let ghost fv = field@;
            v.push(field);
            assert(parts(v@) =~= before.push(fv));
            assert(before.push(fv) + rest =~= before + (seq![fv] + rest));
        }
        if e < buf.len() {
            i = e + 1;
        } else {
            assert(rest =~= seq![]);
            assert(args_from(buf@, e as int) =~= seq![]);
            i = e;
        }
    }
    assert(parts(v@) + args_from(buf@, i as int) =~= parts(v@));
    assert(forall|j: int| 0 <= j < v@.len() ==> parts(v@)[j] == (#[trigger] v@[j])@);
    v
}

/// The ranges that a new process is made from are all valid, and the arguments
/// fit on a page of its stack.
pub open spec fn exec_call(f: SyscallFrame) -> Action {
    if !user_range(f.a1, f.a2) || (f.a4 > 0 && !(f.a3 != 0 && f.a3 + f.a4 * 8 <= USER_END)) || (f.a6
        > 0 && !user_range(f.a5, f.a6)) || f.a6 > MAX_ARGV {
        Action::Return(EINVAL)
    } else {
        Action::Exec {
            elf: f.a1,
            elf_len: f.a2,
            caps: f.a3,
            caps_len: f.a4,
            argv: f.a5,
            argv_len: f.a6,
        }
    }
}

fn sys_exec_args(f: &SyscallFrame) -> (a: Action)
    ensures
        a == exec_call(*f),
{
    let caps_bytes: u64 = match f.a4.checked_mul(8) {
        Some(n) => n,
        None => u64::MAX,
    };
    if !valid_user_range(f.a1, f.a2) {
        return Action::Return(EINVAL);
    }
    if f.a4 > 0 && !valid_user_range(f.a3, caps_bytes) {
        return Action::Return(EINVAL);
    }
    if f.a6 > 0 && !valid_user_range(f.a5, f.a6) {
        return Action::Return(EINVAL);
    }
    if f.a6 > MAX_ARGV {
        return Action::Return(EINVAL);
    }
    Action::Exec {
        elf: f.a1,
        elf_len: f.a2,
        caps: f.a3,
        caps_len: f.a4,
        argv: f.a5,
        argv_len: f.a6,
    }
}

/// A process made from what was copied from user memory: the state, the answer,
/// and its address space.
pub open spec fn exec_done(
    k: KernelView,
    base: u64,
    guard_phys: u64,
    page_table: u64,
    elf: Seq<u8>,
    caps: Seq<CapHandle>,
    argv: Seq<u8>,
) -> (KernelView, u64, Option<SpaceView>) {
    let args = args_from(argv, 0);
    let (mem, result) = image_loaded(k.used, k.next_stack, elf, args);
    let next_stack = if takes_slot(k.used, elf) {
        ((k.next_stack + 1) % 0x1_0000_0000_0000_0000) as u64
    } else {
        k.next_stack
    };
    let k1 = KernelView { used: mem.used, next_stack, ..k };
    match result {
        Err(_) => (k1, EINVAL, None),
        Ok((entry, rsp)) => {
            let (sched, ids) = user_joined(
                k.sched,
                k.ids,
                kernel_task(k.sched, plan_of(base), guard_phys),
                entry,
                rsp,
                caps,
                page_table,
                task_name(args),
            );
            (KernelView { sched, ids, ..k1 }, k.sched.next_id, Some(mem.space))
        },
    }
}

/// Make a process from what was copied from user memory. Its kernel stack is
/// allocated at `base`, with a guard page whose frame is `guard_phys`; its page
/// table is at `page_table`.
pub fn sys_exec(
    k: &mut Kernel,
    base: u64,
    guard_phys: u64,
    page_table: u64,
    elf: &[u8],
    caps: &[CapHandle],
    argv: &[u8],
) -> (r: (u64, Option<UserSpace>))
    requires
        old(k).wf(),
        old(k)@.sched.next_id < u64::MAX,
        base + STACK_ALLOC <= u64::MAX,
    ensures
        final(k).wf(),
        ({
            let (k1, answer, space) = exec_done(
                old(k)@,
                base,
                guard_phys,
                page_table,
                elf@,
                caps@,
                argv@,
            );
            &&& final(k)@ == k1
            &&& r.0 == answer
            &&& match space {
                Some(m) => r.1 matches Some(u) && u.wf() && u@ == m,
                None => r.1 is None,
            }
        }),
{
    let ghost k0 = k@;
    let args: Vec<Vec<u8>> = split_args(argv);
    let mut strs: Vec<&str> = Vec::new();
    let mut i: usize = 0;
    while i < args.len()
        invariant
            i <= args@.len(),
            strs@.len() == i,
            forall|j: int| 0 <= j < args@.len() ==> valid_utf8((#[trigger] args@[j])@),
            forall|j: int| 0 <= j < i ==> (#[trigger] strs@[j]).spec_bytes() == args@[j]@,
        decreases args@.len() - i,
    {
        proof {
            decode_utf8_encode_utf8(args@[i as int]@);
        }
        if let Some(t) = utf8_str(args[i].as_slice()) {
            strs.push(t);
        }
        i += 1;
    }
    assert(arg_bytes(strs@) =~= args_from(argv@, 0));
    let r = exec(
        &mut k.sched,
        &mut k.ids,
        &mut k.frames,
        &mut k.stacks,
        base,
        guard_phys,
        page_table,
        elf,
        caps,
        strs.as_slice(),
    );
    let ghost k1 = exec_done(k0, base, guard_phys, page_table, elf@, caps@, argv@).0;
    assert(k@ =~= k1);
    match r {
        Ok((id, space)) => (id, Some(space)),
        Err(_) => (EINVAL, None),
    }
}

// ── Files ────────────────────────────────────────────────────────────────────

/// A path in user memory.
pub open spec fn path_range(ptr: u64, len: u64) -> bool {
    0 < len <= MAX_PATH && user_range(ptr, len)
}

fn is_path_range(ptr: u64, len: u64) -> (r: bool)
    ensures
        r == path_range(ptr, len),
{
    len > 0 && len <= MAX_PATH && valid_user_range(ptr, len)
}

/// Access is permitted. Root may do anything; else the bits of the owner, of
/// the group or of the others decide, the first that fits.
pub open spec fn dac_permits(
    mode: u16,
    inode_uid: u32,
    inode_gid: u32,
    task_uid: u32,
    task_gid: u32,
    bits: u16,
) -> bool {
    let class: u16 = if task_uid == inode_uid {
        (mode / 64 % 8) as u16
    } else if task_gid == inode_gid {
        (mode / 8 % 8) as u16
    } else {
        (mode % 8) as u16
    };
    task_uid == 0 || class & bits == bits
}

pub fn dac_check(
    mode: u16,
    inode_uid: u32,
    inode_gid: u32,
    task_uid: u32,
    task_gid: u32,
    bits: u16,
) -> (r: bool)
    ensures
        r == dac_permits(mode, inode_uid, inode_gid, task_uid, task_gid, bits),
{
    if task_uid == 0 {
        return true;
    }
    let class: u16 = if task_uid == inode_uid {
        mode / 64 % 8
    } else if task_gid == inode_gid {
        mode / 8 % 8
    } else {
        mode % 8
    };
    class & bits == bits
}

/// The directory that a path is in: what stands before the last slash, or the
/// root. The root too for a path that is not text.
pub open spec fn parent_path(path: Seq<u8>) -> Seq<u8> {
    let i = last_slash(path, path.len() as int);
    if !valid_utf8(path) || i <= 0 {
        seq![0x2Fu8]
    } else {
        path.take(i)
    }
}

pub fn parent_of(path: &[u8]) -> (v: Vec<u8>)
    ensures
        v@ == parent_path(path@),
{
    let mut n: usize = path.len();
    if is_utf8(path) {
        while n > 0 && path[n - 1] != 0x2F
            invariant
                n <= path@.len(),
                last_slash(path@, path@.len() as int) == last_slash(path@, n as int),
            decreases n,
        {
            n -= 1;
        }
        if n > 1 {
            let v: Vec<u8> = copy_range(path, 0, n - 1);
            assert(v@ =~= path@.take(n - 1));
            return v;
        }
    }
    let mut root: Vec<u8> = Vec::new();
    root.push(0x2F);
    assert(root@ =~= seq![0x2Fu8]);
    root
}

/// The mode and the owner of a file.
#[derive(Clone, Copy, Debug, PartialEq, Eq, Structural)]
pub struct Access {
    pub mode: u16,
    pub uid: u32,
    pub gid: u32,
}

/// What a call on a file, or in a directory, is refused with: `ENOENT` where it
/// is not there, `ENOPERM` where the current task may not do it.
pub open spec fn refusal(k: KernelView, found: Option<Access>, bits: u16) -> Option<u64> {
    match found {
        None => Some(ENOENT),
        Some(a) => if dac_permits(
            a.mode,
            a.uid,
            a.gid,
            current_task(k).uid,
            current_task(k).gid,
            bits,
        ) {
            None
        } else {
            Some(ENOPERM)
        },
    }
}

/// Decide a call on a file, or in a directory, by its mode and owner.
pub fn check_access(k: &Kernel, found: Option<Access>, bits: u16) -> (r: Option<u64>)
    requires
        k.wf(),
    ensures
        r == refusal(k@, found, bits),
{
    match found {
        None => Some(ENOENT),
        Some(a) => {
            let (uid, gid): (u32, u32) = k.sched.current_task_owner();
            if dac_check(a.mode, a.uid, a.gid, uid, gid, bits) {
                None
            } else {
                Some(ENOPERM)
            }
        },
    }
}

/// What is checked before a call on a path: reading the file for an open,
/// writing its directory for a change. A mount is a matter of capabilities.
pub open spec fn path_check(op: PathOp) -> Option<(bool, u16)> {
    match op {
        PathOp::Open => Some((false, 4)),
        PathOp::Create => Some((true, 2)),
        PathOp::Unlink => Some((true, 2)),
        PathOp::Mkdir => Some((true, 2)),
        _ => None,
    }
}

/// Which path is looked at before a call on a path, and for which access.
pub fn access_needed(op: PathOp, path: &[u8]) -> (r: Option<(Vec<u8>, u16)>)
    ensures
        match path_check(op) {
            None => r is None,
            Some((parent, bits)) => r matches Some((p, b)) && b == bits && p@ == if parent {
                parent_path(path@)
            } else {
                path@
            },
        },
{
    match op {
        PathOp::Open => {
            let p: Vec<u8> = copy_range(path, 0, path.len());
            assert(p@ =~= path@);
            Some((p, 4))
        },
        PathOp::Create => Some((parent_of(path), 2)),
        PathOp::Unlink => Some((parent_of(path), 2)),
        PathOp::Mkdir => Some((parent_of(path), 2)),
        _ => None,
    }
}

/// The current task may change the mount table and the store.
pub open spec fn may_mount(k: KernelView) -> bool {
    holds_kind(current_caps(k), CapKind::Filesystem, CapRights(CapRights::WRITE))
}

/// The calls on one path. Mounting, unmounting and removing from the store ask
/// for the capability before any argument is looked at.
pub open spec fn path_call(k: KernelView, f: SyscallFrame) -> Action {
    let gated = f.nr == SYS_MOUNT || f.nr == SYS_UNMOUNT || f.nr == SYS_STORE_REMOVE;
    let op = if f.nr == SYS_OPEN {
        PathOp::Open
    } else if f.nr == SYS_CREATE {
        PathOp::Create
    } else if f.nr == SYS_UNLINK {
        PathOp::Unlink
    } else if f.nr == SYS_MKDIR {
        PathOp::Mkdir
    } else if f.nr == SYS_MOUNT {
        PathOp::Mount { source: f.a3, flags: f.a4 }
    } else if f.nr == SYS_UNMOUNT {
        PathOp::Unmount
    } else {
        PathOp::StoreRemove
    };
    if gated && !may_mount(k) {
        Action::Return(ENOPERM)
    } else if !path_range(f.a1, f.a2) {
        Action::Return(EINVAL)
    } else {
        Action::Path { op, ptr: f.a1, len: f.a2 }
    }
}

fn sys_path(k: &Kernel, f: &SyscallFrame) -> (a: Action)
    requires
        k.wf(),
    ensures
        a == path_call(k@, *f),
{
    let gated: bool = f.nr == SYS_MOUNT || f.nr == SYS_UNMOUNT || f.nr == SYS_STORE_REMOVE;
    if gated && !k.current_table().has_kind_with_rights(
        CapKind::Filesystem,
        CapRights(CapRights::WRITE),
    ) {
        return Action::Return(ENOPERM);
    }
    if !is_path_range(f.a1, f.a2) {
        return Action::Return(EINVAL);
    }
    let op: PathOp = if f.nr == SYS_OPEN {
        PathOp::Open
    } else if f.nr == SYS_CREATE {
        PathOp::Create
    } else if f.nr == SYS_UNLINK {
        PathOp::Unlink
    } else if f.nr == SYS_MKDIR {
        PathOp::Mkdir
    } else if f.nr == SYS_MOUNT {
        PathOp::Mount { source: f.a3, flags: f.a4 }
    } else if f.nr == SYS_UNMOUNT {
        PathOp::Unmount
    } else {
        PathOp::StoreRemove
    };
    Action::Path { op, ptr: f.a1, len: f.a2 }
}

/// The other calls on files.
pub open spec fn file_call(f: SyscallFrame) -> Action {
    if f.nr == SYS_READ || f.nr == SYS_WRITE {
        let len = least(f.a3, MAX_IO);
        if len > 0 && !user_range(f.a2, f.a3) {
            Action::Return(EINVAL)
        } else if f.nr == SYS_READ {
            Action::Read { fd: f.a1, ptr: f.a2, len }
        } else {
            Action::Write { fd: f.a1, ptr: f.a2, len }
        }
    } else if f.nr == SYS_CLOSE {
        Action::Close { fd: f.a1 }
    } else if f.nr == SYS_SEEK {
        Action::Seek { fd: f.a1, offset: f.a2, whence: f.a3 as u32 }
    } else if f.nr == SYS_STAT {
        if !path_range(f.a1, f.a2) || !user_range(f.a3, STAT_SIZE) {
            Action::Return(EINVAL)
        } else {
            Action::Stat { ptr: f.a1, len: f.a2, out: f.a3 }
        }
    } else if f.nr == SYS_READDIR {
        if !path_range(f.a1, f.a2) || (f.a4 > 0 && !user_range(f.a3, f.a4)) {
            Action::Return(EINVAL)
        } else {
            Action::ReadDir { ptr: f.a1, len: f.a2, out: f.a3, out_len: f.a4 }
        }
    } else if f.nr == SYS_READLINK {
        if !path_range(f.a1, f.a2) || f.a4 > MAX_PATH || (f.a4 > 0 && !user_range(f.a3, f.a4)) {
            Action::Return(EINVAL)
        } else {
            Action::ReadLink { ptr: f.a1, len: f.a2, out: f.a3, out_len: f.a4 }
        }
    } else if f.nr == SYS_RENAME {
        if !path_range(f.a1, f.a2) || !path_range(f.a3, f.a4) {
            Action::Return(EINVAL)
        } else {
            Action::Rename { from: f.a1, from_len: f.a2, to: f.a3, to_len: f.a4 }
        }
    } else {
        if !path_range(f.a1, f.a2) || !path_range(f.a3, f.a4) {
            Action::Return(EINVAL)
        } else {
            Action::Symlink { target: f.a1, target_len: f.a2, link: f.a3, link_len: f.a4 }
        }
    }
}

fn sys_file(f: &SyscallFrame) -> (a: Action)
    ensures
        a == file_call(*f),
{
    if f.nr == SYS_READ || f.nr == SYS_WRITE {
        let len: u64 = smaller(f.a3, MAX_IO);
        if len > 0 && !valid_user_range(f.a2, f.a3) {
            Action::Return(EINVAL)
        } else if f.nr == SYS_READ {
            Action::Read { fd: f.a1, ptr: f.a2, len }
        } else {
            Action::Write { fd: f.a1, ptr: f.a2, len }
        }
    } else if f.nr == SYS_CLOSE {
        Action::Close { fd: f.a1 }
    } else if f.nr == SYS_SEEK {
        Action::Seek { fd: f.a1, offset: f.a2, whence: #[verifier::truncate] (f.a3 as u32) }
    } else if f.nr == SYS_STAT {
        if !is_path_range(f.a1, f.a2) || !valid_user_range(f.a3, STAT_SIZE) {
            Action::Return(EINVAL)
        } else {
            Action::Stat { ptr: f.a1, len: f.a2, out: f.a3 }
        }
    } else if f.nr == SYS_READDIR {
        if !is_path_range(f.a1, f.a2) || (f.a4 > 0 && !valid_user_range(f.a3, f.a4)) {
            Action::Return(EINVAL)
        } else {
            Action::ReadDir { ptr: f.a1, len: f.a2, out: f.a3, out_len: f.a4 }
        }
    } else if f.nr == SYS_READLINK {
        if !is_path_range(f.a1, f.a2) || f.a4 > MAX_PATH || (f.a4 > 0 && !valid_user_range(
            f.a3,
            f.a4,
        )) {
            Action::Return(EINVAL)
        } else {
            Action::ReadLink { ptr: f.a1, len: f.a2, out: f.a3, out_len: f.a4 }
        }
    } else if f.nr == SYS_RENAME {
        if !is_path_range(f.a1, f.a2) || !is_path_range(f.a3, f.a4) {
            Action::Return(EINVAL)
        } else {
            Action::Rename { from: f.a1, from_len: f.a2, to: f.a3, to_len: f.a4 }
        }
    } else {
        if !is_path_range(f.a1, f.a2) || !is_path_range(f.a3, f.a4) {
            Action::Return(EINVAL)
        } else {
            Action::Symlink { target: f.a1, target_len: f.a2, link: f.a3, link_len: f.a4 }
        }
    }
}

/// What mounting and unmounting refuse a path with that is not text.
pub fn check_text(op: PathOp, path: &[u8]) -> (r: Option<u64>)
    ensures
        r == if (op is Mount || op is Unmount) && !valid_utf8(path@) {
            Some(EINVAL)
        } else {
            None
        },
{
    match op {
        PathOp::Mount { .. } | PathOp::Unmount => {
            if is_utf8(path) {
                None
            } else {
                Some(EINVAL)
            }
        },
        _ => None,
    }
}

/// What a symlink is refused with: its directory is written.
pub fn check_symlink(k: &Kernel, parent: Option<Access>) -> (r: Option<u64>)
    requires
        k.wf(),
    ensures
        r == refusal(k@, parent, 2),
{
    check_access(k, parent, 2)
}

/// A rename is refused by the directory it leaves, else by the one it enters.
pub open spec fn rename_refusal(
    k: KernelView,
    old_parent: Option<Access>,
    new_parent: Option<Access>,
) -> Option<u64> {
    match refusal(k, old_parent, 2) {
        Some(e) => Some(e),
        None => refusal(k, new_parent, 2),
    }
}

/// Decide a rename by the modes and owners of both directories.
pub fn check_rename(k: &Kernel, old_parent: Option<Access>, new_parent: Option<Access>) -> (r:
    Option<u64>)
    requires
        k.wf(),
    ensures
        r == rename_refusal(k@, old_parent, new_parent),
{
    match check_access(k, old_parent, 2) {
        Some(e) => Some(e),
        None => check_access(k, new_parent, 2),
    }
}

// ── Tasks, time and the rest ─────────────────────────────────────────────────

/// So many nanoseconds in milliseconds, rounded up.
pub open spec fn ms_of(ns: u64) -> int {
    (ns + 999_999) / 1_000_000
}

fn round_ms(ns: u64) -> (ms: u64)
    ensures
        ms == ms_of(ns),
{
    ns / 1_000_000 + if ns % 1_000_000 != 0 {
        1
    } else {
        0
    }
}

/// The status of a task that ends by itself: the low 8 bits of its code.
fn status_word(code: u64) -> (status: u64)
    ensures
        status == code % 0x100,
{
    exit_status_normal((code % 0x1_0000_0000) as u32)
}

/// Killing a task is for root.
pub open spec fn kill_call(k: KernelView, f: SyscallFrame) -> (KernelView, Action) {
    if current_task(k).uid != 0 {
        (k, Action::Return(ENOPERM))
    } else if can_kill(k.sched, f.a1) {
        (KernelView { sched: killed(k.sched, f.a1), ..k }, Action::Return(0))
    } else {
        (k, Action::Return(EINVAL))
    }
}

fn sys_kill(k: &mut Kernel, f: &SyscallFrame) -> (a: Action)
    requires
        old(k).wf(),
    ensures
        final(k).wf(),
        (final(k)@, a) == kill_call(old(k)@, *f),
{
    if k.sched.current_task_owner().0 != 0 {
        return Action::Return(ENOPERM);
    }
    if k.sched.kill_task(f.a1) {
        Action::Return(0)
    } else {
        Action::Return(EINVAL)
    }
}

/// Setting the priority of a task that is alive.
pub open spec fn priority_call(k: KernelView, f: SyscallFrame) -> (KernelView, Action) {
    let i = find_task(k.sched.tasks, f.a1, 0);
    if f.a2 <= MAX_PRIORITY && is_alive(k.sched.tasks, f.a1) {
        (
            KernelView {
                sched: SchedView {
                    tasks: k.sched.tasks.update(
                        i,
                        TaskView { priority: f.a2 as u8, ..k.sched.tasks[i] },
                    ),
                    ..k.sched
                },
                ..k
            },
            Action::Return(0),
        )
    } else {
        (k, Action::Return(EINVAL))
    }
}

fn sys_priority(k: &mut Kernel, f: &SyscallFrame) -> (a: Action)
    requires
        old(k).wf(),
    ensures
        final(k).wf(),
        (final(k)@, a) == priority_call(old(k)@, *f),
{
    if f.a2 > MAX_PRIORITY as u64 {
        return Action::Return(EINVAL);
    }
    if k.sched.set_task_priority(f.a1, f.a2 as u8) {
        Action::Return(0)
    } else {
        Action::Return(EINVAL)
    }
}

/// The calls on tasks.
pub open spec fn task_call(k: KernelView, f: SyscallFrame) -> (KernelView, Action) {
    if f.nr == SYS_TASK_EXIT {
        (k, Action::Exit { status: (f.a1 % 0x100) as u64 })
    } else if f.nr == SYS_TASK_STATUS {
        (k, Action::Return(status_of(k.sched.tasks, f.a1)))
    } else if f.nr == SYS_TASK_LIST {
        if f.a2 == 0 {
            (k, Action::Return(0))
        } else if f.a1 != 0 && f.a1 + f.a2 * TASK_INFO_SIZE <= USER_END {
            (k, Action::TaskList { ptr: f.a1, cap: f.a2 })
        } else {
            (k, Action::Return(EINVAL))
        }
    } else if f.nr == SYS_PS {
        if f.a2 == 0 {
            (k, Action::Return(0))
        } else if f.a1 != 0 && f.a1 + f.a2 * PS_ENTRY_SIZE <= USER_END {
            (k, Action::Ps { ptr: f.a1, cap: f.a2 })
        } else {
            (k, Action::Return(EINVAL))
        }
    } else if f.nr == SYS_TASK_KILL {
        kill_call(k, f)
    } else if f.nr == SYS_TASK_WAIT {
        (k, Action::Wait { target: f.a1 })
    } else if f.nr == SYS_NANOSLEEP {
        if f.a1 == 0 {
            (k, Action::Yield)
        } else {
            (
                k,
                Action::Sleep {
                    until: ((k.ticks + ms_of(f.a1)) % 0x1_0000_0000_0000_0000) as u64,
                },
            )
        }
    } else {
        priority_call(k, f)
    }
}

/// A table of `n` entries at `ptr` lies in user memory.
fn valid_table(ptr: u64, n: u64, size: u64) -> (r: bool)
    requires
        n > 0,
        size > 0,
    ensures
        r == (ptr != 0 && ptr + n * size <= USER_END),
{
    match n.checked_mul(size) {
        Some(bytes) => {
            assert(n * size > 0) by (nonlinear_arith)
                requires
                    n > 0,
                    size > 0,
            ;
            valid_user_range(ptr, bytes)
        },
        None => false,
    }
}

fn sys_task(k: &mut Kernel, f: &SyscallFrame) -> (a: Action)
    requires
        old(k).wf(),
    ensures
        final(k).wf(),
        (final(k)@, a) == task_call(old(k)@, *f),
{
    if f.nr == SYS_TASK_EXIT {
        Action::Exit { status: status_word(f.a1) }
    } else if f.nr == SYS_TASK_STATUS {
        Action::Return(k.sched.task_status_raw(f.a1))
    } else if f.nr == SYS_TASK_LIST {
        if f.a2 == 0 {
            Action::Return(0)
        } else if valid_table(f.a1, f.a2, TASK_INFO_SIZE) {
            Action::TaskList { ptr: f.a1, cap: f.a2 }
        } else {
            Action::Return(EINVAL)
        }
    } else if f.nr == SYS_PS {
        if f.a2 == 0 {
            Action::Return(0)
        } else if valid_table(f.a1, f.a2, PS_ENTRY_SIZE) {
            Action::Ps { ptr: f.a1, cap: f.a2 }
        } else {
            Action::Return(EINVAL)
        }
    } else if f.nr == SYS_TASK_KILL {
        sys_kill(k, f)
    } else if f.nr == SYS_TASK_WAIT {
        Action::Wait { target: f.a1 }
    } else if f.nr == SYS_NANOSLEEP {
        if f.a1 == 0 {
            return Action::Yield;
        }
        Action::Sleep { until: k.ticks.wrapping_add(round_ms(f.a1)) }
    } else {
        sys_priority(k, f)
    }
}

/// The calls on the owner of the current task. Only root takes on an identity
/// that is not its own.
pub open spec fn owner_call(k: KernelView, f: SyscallFrame) -> (KernelView, Action) {
    let t = current_task(k);
    let new = (f.a1 % 0x1_0000_0000) as u32;
    if f.nr == SYS_GETUID {
        (k, Action::Return(t.uid as u64))
    } else if f.nr == SYS_GETGID {
        (k, Action::Return(t.gid as u64))
    } else if f.nr == SYS_SETUID {
        if t.uid != 0 && new != t.uid {
            (k, Action::Return(ENOPERM))
        } else {
            (KernelView { sched: with_owner(k.sched, new, t.gid), ..k }, Action::Return(0))
        }
    } else {
        if t.uid != 0 && new != t.gid {
            (k, Action::Return(ENOPERM))
        } else {
            (KernelView { sched: with_owner(k.sched, t.uid, new), ..k }, Action::Return(0))
        }
    }
}

fn sys_owner(k: &mut Kernel, f: &SyscallFrame) -> (a: Action)
    requires
        old(k).wf(),
    ensures
        final(k).wf(),
        (final(k)@, a) == owner_call(old(k)@, *f),
{
    let (uid, gid): (u32, u32) = k.sched.current_task_owner();
    let new: u32 = (f.a1 % 0x1_0000_0000) as u32;
    if f.nr == SYS_GETUID {
        Action::Return(uid as u64)
    } else if f.nr == SYS_GETGID {
        Action::Return(gid as u64)
    } else if f.nr == SYS_SETUID {
        if uid != 0 && new != uid {
            return Action::Return(ENOPERM);
        }
        k.sched.set_current_task_owner(new, gid);
        Action::Return(0)
    } else {
        if uid != 0 && new != gid {
            return Action::Return(ENOPERM);
        }
        k.sched.set_current_task_owner(uid, new);
        Action::Return(0)
    }
}

/// The calls on disk sectors, the console, memory and time.
pub open spec fn misc_call(k: KernelView, f: SyscallFrame) -> Action {
    if f.nr == SYS_BLK_READ || f.nr == SYS_BLK_WRITE {
        if current_task(k).uid != 0 {
            Action::Return(ENOPERM)
        } else if !k.blk_present {
            Action::Return(ENOSYS)
        } else if !user_range(f.a2, SECTOR_SIZE) {
            Action::Return(EINVAL)
        } else if f.nr == SYS_BLK_READ {
            Action::ReadSector { sector: f.a1, ptr: f.a2 }
        } else {
            Action::WriteSector { sector: f.a1, ptr: f.a2 }
        }
    } else if f.nr == SYS_LOG {
        if f.a2 == 0 {
            Action::Return(0)
        } else if f.a2 > MAX_LOG || !user_range(f.a1, f.a2) {
            Action::Return(EINVAL)
        } else {
            Action::Log { ptr: f.a1, len: f.a2 }
        }
    } else if f.nr == SYS_SERIAL_READ {
        let len = least(f.a2, MAX_LOG);
        if len == 0 {
            Action::Return(0)
        } else if !user_range(f.a1, len) {
            Action::Return(EINVAL)
        } else {
            Action::ReadInput { ptr: f.a1, len }
        }
    } else if f.nr == SYS_SERIAL_AVAIL {
        Action::InputReady
    } else if f.nr == SYS_TIME {
        Action::Return(k.ticks)
    } else if f.nr == SYS_TIME_EPOCH {
        Action::Return(epoch_ms_at(k.clock, k.ticks))
    } else if f.nr == SYS_MEM_STAT {
        Action::Return(free_below(k.used, MAX_FRAMES as int) as u64)
    } else if f.nr == SYS_ROLLBACK {
        if holds_any(current_caps(k), CapKind::Rollback) {
            Action::Halt
        } else {
            Action::Return(ENOPERM)
        }
    } else if f.nr == SYS_IPC_CREATE {
        Action::CreateEndpoint
    } else {
        Action::PowerOff
    }
}

fn sys_misc(k: &Kernel, f: &SyscallFrame) -> (a: Action)
    requires
        k.wf(),
    ensures
        a == misc_call(k@, *f),
{
    if f.nr == SYS_BLK_READ || f.nr == SYS_BLK_WRITE {
        if k.sched.current_task_owner().0 != 0 {
            Action::Return(ENOPERM)
        } else if !k.blk_present {
            Action::Return(ENOSYS)
        } else if !valid_user_range(f.a2, SECTOR_SIZE) {
            Action::Return(EINVAL)
        } else if f.nr == SYS_BLK_READ {
            Action::ReadSector { sector: f.a1, ptr: f.a2 }
        } else {
            Action::WriteSector { sector: f.a1, ptr: f.a2 }
        }
    } else if f.nr == SYS_LOG {
        if f.a2 == 0 {
            Action::Return(0)
        } else if f.a2 > MAX_LOG || !valid_user_range(f.a1, f.a2) {
            Action::Return(EINVAL)
        } else {
            Action::Log { ptr: f.a1, len: f.a2 }
        }
    } else if f.nr == SYS_SERIAL_READ {
        let len: u64 = smaller(f.a2, MAX_LOG);
        if len == 0 {
            Action::Return(0)
        } else if !valid_user_range(f.a1, len) {
            Action::Return(EINVAL)
        } else {
            Action::ReadInput { ptr: f.a1, len }
        }
    } else if f.nr == SYS_SERIAL_AVAIL {
        Action::InputReady
    } else if f.nr == SYS_TIME {
        Action::Return(k.ticks)
    } else if f.nr == SYS_TIME_EPOCH {
        Action::Return(epoch_ms(&k.clock, k.ticks))
    } else if f.nr == SYS_MEM_STAT {
        Action::Return(k.frames.free_frame_count() as u64)
    } else if f.nr == SYS_ROLLBACK {
        if k.current_table().has_kind(CapKind::Rollback) {
            Action::Halt
        } else {
            Action::Return(ENOPERM)
        }
    } else if f.nr == SYS_IPC_CREATE {
        Action::CreateEndpoint
    } else {
        Action::PowerOff
    }
}

// ── Dispatch ─────────────────────────────────────────────────────────────────

/// The number is that of a call.
pub open spec fn assigned(nr: u64) -> bool {
    nr <= 48 || 55 <= nr <= 58 || 60 <= nr <= 66 || nr == 69
}

/// What a call does to the state, and what is left to do to answer it.
pub open spec fn dispatched(k: KernelView, f: SyscallFrame) -> (KernelView, Action) {
    let nr = f.nr;
    if !assigned(nr) {
        (k, Action::Return(ENOSYS))
    } else if nr == SYS_YIELD {
        (k, Action::Yield)
    } else if nr == SYS_MMAP {
        mmap_call(k, f)
    } else if nr == SYS_MUNMAP {
        munmap_call(k, f)
    } else if nr == SYS_BRK {
        brk_call(k, f)
    } else if nr == SYS_CAP_GRANT {
        cap_grant_call(k, f)
    } else if nr == SYS_CAP_REVOKE {
        cap_revoke_call(k, f)
    } else if nr == SYS_IPC_SEND || nr == SYS_IPC_RECV || nr == SYS_IPC_POLL || nr
        == SYS_IPC_RECV_TIMEOUT || nr == SYS_IPC_SEND_TIMEOUT {
        (k, ipc_call(k, f))
    } else if nr == SYS_IPC_SEND_CAP {
        send_cap_call(k, f)
    } else if nr == SYS_IPC_RECV_CAP {
        (k, recv_cap_call(k, f))
    } else if nr == SYS_IPC_BIND {
        (k, bind_call(k, f))
    } else if nr == SYS_IPC_LOOKUP {
        (k, lookup_call(f))
    } else if nr == SYS_EXEC {
        (k, exec_call(f))
    } else if nr == SYS_OPEN || nr == SYS_CREATE || nr == SYS_UNLINK || nr == SYS_MKDIR || nr
        == SYS_MOUNT || nr == SYS_UNMOUNT || nr == SYS_STORE_REMOVE {
        (k, path_call(k, f))
    } else if (SYS_READ <= nr && nr <= SYS_READDIR) || nr == SYS_RENAME || nr == SYS_SEEK || nr
        == SYS_SYMLINK || nr == SYS_READLINK {
        (k, file_call(f))
    } else if nr == SYS_TASK_EXIT || nr == SYS_TASK_STATUS || nr == SYS_TASK_LIST || nr
        == SYS_TASK_KILL || nr == SYS_TASK_WAIT || nr == SYS_NANOSLEEP || nr
        == SYS_TASK_SETPRIORITY || nr == SYS_PS {
        task_call(k, f)
    } else if SYS_GETUID <= nr && nr <= SYS_SETGID {
        owner_call(k, f)
    } else if nr == SYS_DEV_CLAIM {
        (k, claim_call(k, f.a1, f.a2))
    } else if nr == SYS_DEV_CFG_READ {
        (k, cfg_read_call(k, f.a1, f.a2))
    } else if nr == SYS_DEV_MMIO_MAP {
        (k, mmio_map_call(k, f.a1, f.a2, f.a3))
    } else if nr == SYS_DEV_DMA_ALLOC {
        dma_alloc_call(k, f.a1, f.a2, f.a3, f.a4)
    } else if nr == SYS_DEV_IRQ_WAIT {
        irq_wait_call(k, f.a1)
    } else if nr == SYS_DEV_IRQ_ACK {
        (k, irq_ack_call(k, f.a1))
    } else {
        (k, misc_call(k, f))
    }
}

/// Decide a call of the current task.
pub fn syscall_dispatch(k: &mut Kernel, f: &SyscallFrame) -> (a: Action)
    requires
        old(k).wf(),
    ensures
        final(k).wf(),
        (final(k)@, a) == dispatched(old(k)@, *f),
{
    let nr: u64 = f.nr;
    if !(nr <= 48 || (55 <= nr && nr <= 58) || (60 <= nr && nr <= 66) || nr == 69) {
        Action::Return(ENOSYS)
    } else if nr == SYS_YIELD {
        Action::Yield
    } else if nr == SYS_MMAP {
        sys_mmap(k, f)
    } else if nr == SYS_MUNMAP {
        sys_munmap(k, f)
    } else if nr == SYS_BRK {
        sys_brk(k, f)
    } else if nr == SYS_CAP_GRANT {
        sys_cap_grant(k, f)
    } else if nr == SYS_CAP_REVOKE {
        sys_cap_revoke(k, f)
    } else if nr == SYS_IPC_SEND || nr == SYS_IPC_RECV || nr == SYS_IPC_POLL || nr
        == SYS_IPC_RECV_TIMEOUT || nr == SYS_IPC_SEND_TIMEOUT {
        sys_ipc(k, f)
    } else if nr == SYS_IPC_SEND_CAP {
        sys_ipc_send_cap(k, f)
    } else if nr == SYS_IPC_RECV_CAP {
        sys_ipc_recv_cap(k, f)
    } else if nr == SYS_IPC_BIND {
        sys_ipc_bind(k, f)
    } else if nr == SYS_IPC_LOOKUP {
        sys_ipc_lookup(f)
    } else if nr == SYS_EXEC {
        sys_exec_args(f)
    } else if nr == SYS_OPEN || nr == SYS_CREATE || nr == SYS_UNLINK || nr == SYS_MKDIR || nr
        == SYS_MOUNT || nr == SYS_UNMOUNT || nr == SYS_STORE_REMOVE {
        sys_path(k, f)
    } else if (SYS_READ <= nr && nr <= SYS_READDIR) || nr == SYS_RENAME || nr == SYS_SEEK || nr
        == SYS_SYMLINK || nr == SYS_READLINK {
        sys_file(f)
    } else if nr == SYS_TASK_EXIT || nr == SYS_TASK_STATUS || nr == SYS_TASK_LIST || nr
        == SYS_TASK_KILL || nr == SYS_TASK_WAIT || nr == SYS_NANOSLEEP || nr
        == SYS_TASK_SETPRIORITY || nr == SYS_PS {
        sys_task(k, f)
    } else if SYS_GETUID <= nr && nr <= SYS_SETGID {
        sys_owner(k, f)
    } else if nr == SYS_DEV_CLAIM {
        sys_dev_claim(k, f.a1, f.a2)
    } else if nr == SYS_DEV_CFG_READ {
        sys_dev_cfg_read(k, f.a1, f.a2)
    } else if nr == SYS_DEV_MMIO_MAP {
        sys_dev_mmio_map(k, f.a1, f.a2, f.a3)
    } else if nr == SYS_DEV_DMA_ALLOC {
        sys_dev_dma_alloc(k, f.a1, f.a2, f.a3, f.a4)
    } else if nr == SYS_DEV_IRQ_WAIT {
        sys_dev_irq_wait(k, f.a1)
    } else if nr == SYS_DEV_IRQ_ACK {
        sys_dev_irq_ack(k, f.a1)
    } else {
        sys_misc(k, f)
    }
}

// ── Buffers ──────────────────────────────────────────────────────────────────

/// A file's attributes as they are copied out.
pub open spec fn stat_layout(s: Stat) -> Seq<u8> {
    le64(s.size) + le64(s.mtime) + le64(s.ctime) + le32(s.flags) + le32(s.uid) + le32(s.gid)
        + le32(s.nlink) + le16(s.mode) + zeros(6)
}

/// Lay out a file's attributes.
pub fn stat_bytes(s: &Stat) -> (v: Vec<u8>)
    ensures
        v@ == stat_layout(*s),
        v@.len() == STAT_SIZE,
{
    let mut v: Vec<u8> = Vec::new();
    push_u64(&mut v, s.size);
    push_u64(&mut v, s.mtime);
    push_u64(&mut v, s.ctime);
    push_u32(&mut v, s.flags);
    push_u32(&mut v, s.uid);
    push_u32(&mut v, s.gid);
    push_u32(&mut v, s.nlink);
    push_u16(&mut v, s.mode);
    push_zeros(&mut v, 6);
    assert(v@ =~= stat_layout(*s));
    v
}

/// The answer to a call for a file's attributes, and what to copy out.
pub fn stat_answer(found: Option<Stat>) -> (r: (Vec<u8>, u64))
    ensures
        match found {
            Some(s) => r.0@ == stat_layout(s) && r.1 == 0,
            None => r.0@.len() == 0 && r.1 == ENOENT,
        },
{
    match found {
        Some(s) => (stat_bytes(&s), 0),
        None => (Vec::new(), ENOENT),
    }
}

fn push_zeros(v: &mut Vec<u8>, n: usize)
    ensures
        final(v)@ == old(v)@ + zeros(n as nat),
{
    let mut i: usize = 0;
    while i < n
        invariant
            i <= n,
            v@ == old(v)@ + zeros(i as nat),
        decreases n - i,
    {
        v.push(0);
        i += 1;
        assert(v@ =~= old(v)@ + zeros(i as nat));
    }
    assert(v@ =~= old(v)@ + zeros(n as nat));
}

/// How much of a name an entry holds.
pub open spec fn name_kept(name: Seq<u8>) -> nat {
    if name.len() < 255 {
        name.len()
    } else {
        255
    }
}

/// A directory entry as it is copied out.
pub open spec fn dirent_layout(e: DirEntryView) -> Seq<u8> {
    let n = name_kept(e.name);
    le32(e.ino) + seq![e.file_type, n as u8, 0u8, 0u8] + e.name.take(n as int) + zeros(
        (256 - n) as nat,
    )
}

/// The first `n` directory entries as they are copied out.
pub open spec fn dirents_layout(entries: Seq<DirEntryView>, n: nat) -> Seq<u8>
    decreases n,
{
    if n == 0 {
        seq![]
    } else {
        dirents_layout(entries, (n - 1) as nat) + dirent_layout(entries[n - 1])
    }
}

/// Directory entries laid out, as many as fit, and their count.
pub open spec fn entries_out(entries: Seq<DirEntryView>, out_len: u64) -> (Seq<u8>, int) {
    let room = out_len as int / DIRENT_SIZE as int;
    let n = if entries.len() <= room {
        entries.len() as int
    } else {
        room
    };
    (dirents_layout(entries, n as nat), n)
}

/// Lay out directory entries, as many as fit; the count is the answer.
pub fn readdir_bytes(entries: &Vec<DirEntry>, out_len: u64) -> (r: (Vec<u8>, u64))
    ensures
        (r.0@, r.1 as int) == entries_out(entry_views(entries@), out_len),
        ({
            let room = out_len as int / DIRENT_SIZE as int;
            let n = if entries@.len() <= room {
                entries@.len() as int
            } else {
                room
            };
            &&& r.1 == n
            &&& r.0@ == dirents_layout(entry_views(entries@), n as nat)
        }),
{
    let room: u64 = out_len / DIRENT_SIZE;
    let ghost all = entry_views(entries@);
    let mut v: Vec<u8> = Vec::new();
    let mut i: usize = 0;
    while i < entries.len() && (i as u64) < room
        invariant
            i <= entries@.len(),
            i <= room,
            all == entry_views(entries@),
            v@ == dirents_layout(all, i as nat),
        decreases entries@.len() - i,
    {
        let e: &DirEntry = &entries[i];
        assert(all[i as int] == e@);
        let n: usize = if e.name.len() < 255 {
            e.name.len()
        } else {
            255
        };
        let ghost before = v@;
        push_u32(&mut v, e.ino);
        v.push(e.file_type);
        v.push(n as u8);
        v.push(0);
        v.push(0);
        push_bytes(&mut v, e.name.as_slice(), 0, n);
        push_zeros(&mut v, 256 - n);
        assert(v@ =~= before + dirent_layout(e@));
        i += 1;
    }
    (v, i as u64)
}

/// The answer to a call for the entries of a directory, and what to copy out.
pub fn readdir_answer(listed: Option<Vec<DirEntry>>, out_len: u64) -> (r: (Vec<u8>, u64))
    ensures
        match listed {
            Some(entries) => {
                let room = out_len as int / DIRENT_SIZE as int;
                let n = if entries@.len() <= room {
                    entries@.len() as int
                } else {
                    room
                };
                r.1 == n && r.0@ == dirents_layout(entry_views(entries@), n as nat)
            },
            None => r.0@.len() == 0 && r.1 == ENOENT,
        },
{
    match listed {
        Some(entries) => readdir_bytes(&entries, out_len),
        None => (Vec::new(), ENOENT),
    }
}

/// A task in the list of tasks as it is copied out.
pub open spec fn info_layout(t: TaskInfo) -> Seq<u8> {
    le64(t.id) + le64(t.state) + seq![t.kind] + zeros(7)
}

/// The first `n` tasks as they are copied out.
pub open spec fn infos_layout(tasks: Tasks, n: nat) -> Seq<u8>
    decreases n,
{
    if n == 0 {
        seq![]
    } else {
        infos_layout(tasks, (n - 1) as nat) + info_layout(info_of(tasks[n - 1]))
    }
}

/// The list of live tasks laid out, at most `cap` of them, and their count.
pub open spec fn tasks_out(tasks: Tasks, cap: u64) -> (Seq<u8>, int) {
    let alive = live(tasks);
    let n = if alive.len() <= cap {
        alive.len() as int
    } else {
        cap as int
    };
    (infos_layout(alive, n as nat), n)
}

/// Lay out the list of live tasks, at most `cap` of them; the count is the
/// answer.
pub fn task_list_bytes(k: &Kernel, cap: u64) -> (r: (Vec<u8>, u64))
    ensures
        (r.0@, r.1 as int) == tasks_out(k@.sched.tasks, cap),
        ({
            let tasks = live(k@.sched.tasks);
            let n = if tasks.len() <= cap {
                tasks.len() as int
            } else {
                cap as int
            };
            &&& r.1 == n
            &&& r.0@ == infos_layout(tasks, n as nat)
        }),
{
    let infos: Vec<TaskInfo> = k.sched.for_each_task();
    let ghost tasks = live(k@.sched.tasks);
    let mut v: Vec<u8> = Vec::new();
    let mut i: usize = 0;
    while i < infos.len() && (i as u64) < cap
        invariant
            i <= infos@.len(),
            i <= cap,
            tasks == live(k@.sched.tasks),
            infos@ == tasks.map(|i: int, t: TaskView| info_of(t)),
            v@ == infos_layout(tasks, i as nat),
        decreases infos@.len() - i,
    {
        let t: TaskInfo = infos[i];
        assert(t == info_of(tasks[i as int]));
        let ghost before = v@;
        push_u64(&mut v, t.id);
        push_u64(&mut v, t.state);
        v.push(t.kind);
        push_zeros(&mut v, 7);
        assert(v@ =~= before + info_layout(t));
        i += 1;
    }
    (v, i as u64)
}

/// A task in the extended list as it is copied out.
pub open spec fn ps_layout(t: TaskView) -> Seq<u8> {
    let i = info_of(t);
    le64(i.id) + le64(i.state) + seq![i.kind, t.priority, zero_at(t.name, 0) as u8] + zeros(5)
        + t.name + zeros(8)
}

/// The first `n` tasks of the extended list as they are copied out.
pub open spec fn ps_layouts(tasks: Tasks, n: nat) -> Seq<u8>
    decreases n,
{
    if n == 0 {
        seq![]
    } else {
        ps_layouts(tasks, (n - 1) as nat) + ps_layout(tasks[n - 1])
    }
}

/// The extended list of live tasks laid out, at most `cap` of them, and their count.
pub open spec fn ps_out(tasks: Tasks, cap: u64) -> (Seq<u8>, int) {
    let alive = live(tasks);
    let n = if alive.len() <= cap {
        alive.len() as int
    } else {
        cap as int
    };
    (ps_layouts(alive, n as nat), n)
}

/// Lay out the extended list of live tasks, at most `cap` of them; the count is
/// the answer.
pub fn ps_bytes(k: &Kernel, cap: u64) -> (r: (Vec<u8>, u64))
    ensures
        (r.0@, r.1 as int) == ps_out(k@.sched.tasks, cap),
        ({
            let tasks = live(k@.sched.tasks);
            let n = if tasks.len() <= cap {
                tasks.len() as int
            } else {
                cap as int
            };
            &&& r.1 == n
            &&& r.0@ == ps_layouts(tasks, n as nat)
        }),
{
    let infos: Vec<(TaskInfo, u8, [u8; 16])> = k.sched.for_each_task_ps();
    let ghost tasks = live(k@.sched.tasks);
    let mut v: Vec<u8> = Vec::new();
    let mut i: usize = 0;
    while i < infos.len() && (i as u64) < cap
        invariant
            i <= infos@.len(),
            i <= cap,
            infos@.len() == tasks.len(),
            forall|k: int|
                0 <= k < infos@.len() ==> (#[trigger] infos@[k]).0 == info_of(tasks[k])
                    && infos@[k].1 == tasks[k].priority && infos@[k].2@ == tasks[k].name,
            v@ == ps_layouts(tasks, i as nat),
        decreases infos@.len() - i,
    {
        let (t, priority, name): (TaskInfo, u8, [u8; 16]) = infos[i];
        let ghost before = v@;
        let mut n: usize = 0;
        while n < 16 && name[n] != 0
            invariant
                n <= 16,
                zero_at(name@, 0) == zero_at(name@, n as int),
            decreases 16 - n,
        {
            n += 1;
        }
        push_u64(&mut v, t.id);
        push_u64(&mut v, t.state);
        v.push(t.kind);
        v.push(priority);
        v.push(n as u8);
        push_zeros(&mut v, 5);
        push_bytes(&mut v, name.as_slice(), 0, 16);
        push_zeros(&mut v, 8);
        assert(name@.subrange(0, 16) =~= name@);
        assert(v@ =~= before + ps_layout(tasks[i as int]));
        i += 1;
    }
    (v, i as u64)
}

// ── Input ────────────────────────────────────────────────────────────────────

/// What a reader gets of what was typed and what serial has ready, and how much of
/// each.
pub open spec fn input_taken(typed: Seq<u8>, ready: Seq<u8>, max: int) -> (Seq<u8>, int, int) {
    let n = if typed.len() <= max {
        typed.len() as int
    } else {
        max
    };
    let m = if ready.len() <= max - n {
        ready.len() as int
    } else {
        max - n
    };
    (typed.take(n) + ready.take(m), n, m)
}

/// The input that is there: what was typed first, then what serial has ready, up
/// to `max` bytes. The count tells how many of the ready bytes were taken. An
/// empty result means that the reader waits.
pub fn read_input(kbd: &mut Keyboard, ready: &[u8], max: usize) -> (r: (Vec<u8>, usize))
    requires
        old(kbd).wf(),
    ensures
        final(kbd).wf(),
        ({
            let typed = old(kbd).buf@;
            let n = if typed.len() <= max {
                typed.len() as int
            } else {
                max as int
            };
            let m = if ready@.len() <= max - n {
                ready@.len() as int
            } else {
                max - n
            };
            &&& r.0@ == typed.take(n) + ready@.take(m)
            &&& r.1 == m
            &&& final(kbd).buf@ == typed.skip(n)
        }),
        ({
            let (bytes, n, m) = input_taken(old(kbd).buf@, ready@, max as int);
            r.0@ == bytes && r.1 == m && final(kbd).buf@ == old(kbd).buf@.skip(n)
        }),
        final(kbd).state == old(kbd).state,
{
    let ghost typed = kbd.buf@;
    let mut v: Vec<u8> = Vec::new();
    let mut used: usize = 0;
    let mut more: bool = true;
    assert(typed.skip(0) =~= typed);
    while more && v.len() < max
        invariant
            kbd.wf(),
            kbd.state == old(kbd).state,
            v@.len() <= max,
            used <= ready@.len(),
            v@.len() - used <= typed.len(),
            v@ == typed.take(v@.len() - used) + ready@.take(used as int),
            kbd.buf@ == typed.skip(v@.len() - used),
            used > 0 ==> kbd.buf@.len() == 0,
            !more ==> kbd.buf@.len() == 0 && used == ready@.len(),
        decreases max - v@.len(), if more {
            1int
        } else {
            0int
        },
    {
        let ghost n = v@.len() - used;
        let ghost before = v@;
        match kbd.try_read() {
            Some(b) => {
                v.push(b);
                proof {
                    assert(used == 0);
                    assert(b == typed[n]);
                    assert(v@ =~= typed.take(n + 1) + ready@.take(0));
                    assert(kbd.buf@ =~= typed.skip(n + 1));
                }
            },
            None => {
                if used < ready.len() {
                    v.push(ready[used]);
                    used += 1;
                    assert(v@ =~= typed.take(n) + ready@.take(used as int));
                } else {
                    more = false;
                }
            },
        }
    }
    (v, used)
}

/// True if a read would not wait.
pub fn input_ready(kbd: &Keyboard, serial_ready: bool) -> (r: bool)
    requires
        kbd.wf(),
    ensures
        r == (kbd.buf@.len() > 0 || serial_ready),
{
    kbd.data_ready() || serial_ready
}

// ── Entry ────────────────────────────────────────────────────────────────────

/// The register that selects the code and stack segments at entry and return:
/// the kernel's at 0x08, the user's from 0x10 on.
pub const STAR: u64 = 0x0010_0008_0000_0000;

/// The flags that are cleared at entry: interrupts are off.
pub const FMASK: u64 = 0x200;

/// The feature register with system calls enabled.
pub fn efer_enabled(efer: u64) -> (r: u64)
    ensures
        r == efer | 1,
{
    efer | 1
}

/// The control register with the protections that the processor has: against
/// running user pages, and against touching them by accident. The flag tells
/// whether the second is on.
pub fn cr4_protected(cr4: u64, ebx: u32) -> (r: (u64, bool))
    ensures
        r.1 == (ebx / 0x10_0000 % 2 == 1),
        r.0 == (cr4 | (if ebx / 0x80 % 2 == 1 {
            0x10_0000u64
        } else {
            0
        })) | (if r.1 {
            0x20_0000u64
        } else {
            0
        }),
{
    let smep: u64 = if ebx / 0x80 % 2 == 1 {
        0x10_0000
    } else {
        0
    };
    let on: bool = ebx / 0x10_0000 % 2 == 1;
    let smap: u64 = if on {
        0x20_0000
    } else {
        0
    };
    ((cr4 | smep) | smap, on)
}

// ── Laws ─────────────────────────────────────────────────────────────────────

/// Numbers that are not assigned are refused, and nothing changes.
pub proof fn law_unknown_calls_are_refused(k: KernelView, f: SyscallFrame)
    requires
        !assigned(f.nr),
    ensures
        dispatched(k, f) == (k, Action::Return(ENOSYS)),
{
}

/// Without the capability that a call asks for first, it is refused whatever its
/// arguments are, and nothing changes.
pub proof fn law_gates_come_before_arguments(k: KernelView, f: SyscallFrame)
    ensures
        (f.nr == SYS_MOUNT || f.nr == SYS_UNMOUNT || f.nr == SYS_STORE_REMOVE) && !may_mount(k)
            ==> dispatched(k, f) == (k, Action::Return(ENOPERM)),
        f.nr == SYS_BRK && !may_map(k) ==> dispatched(k, f) == (k, Action::Return(ENOPERM)),
        (f.nr == SYS_ROLLBACK || f.nr == SYS_DEV_CLAIM) && !holds_any(
            current_caps(k),
            CapKind::Rollback,
        ) ==> dispatched(k, f) == (k, Action::Return(ENOPERM)),
        (f.nr == SYS_TASK_KILL || f.nr == SYS_BLK_READ || f.nr == SYS_BLK_WRITE) && current_task(
            k,
        ).uid != 0 ==> dispatched(k, f) == (k, Action::Return(ENOPERM)),
{
}

/// Every range of user memory that is left to be touched is valid.
pub open spec fn ranges_valid(a: Action) -> bool {
    match a {
        Action::Send { ptr, len, .. } => user_range(ptr, len),
        Action::SendCap { ptr, len, .. } => user_range(ptr, len),
        Action::SendTimeout { ptr, len, .. } => user_range(ptr, len),
        Action::Recv { ptr, len, .. } => user_range(ptr, len),
        Action::RecvCap { ptr, len, out, .. } => user_range(ptr, len) && (out == 0 || user_range(
            out,
            8,
        )),
        Action::Poll { ptr, len, .. } => user_range(ptr, len),
        Action::RecvTimeout { ptr, len, .. } => user_range(ptr, len),
        Action::BindName { ptr, len, .. } => user_range(ptr, len),
        Action::LookupName { ptr, len, .. } => user_range(ptr, len),
        Action::Exec { elf, elf_len, caps, caps_len, argv, argv_len } => {
            &&& user_range(elf, elf_len)
            &&& caps_len > 0 ==> caps != 0 && caps + caps_len * 8 <= USER_END
            &&& argv_len > 0 ==> user_range(argv, argv_len)
        },
        Action::Log { ptr, len } => user_range(ptr, len),
        Action::ReadInput { ptr, len } => user_range(ptr, len),
        Action::TaskList { ptr, cap } => ptr != 0 && ptr + cap * TASK_INFO_SIZE <= USER_END,
        Action::Ps { ptr, cap } => ptr != 0 && ptr + cap * PS_ENTRY_SIZE <= USER_END,
        Action::ReadSector { ptr, .. } => user_range(ptr, SECTOR_SIZE),
        Action::WriteSector { ptr, .. } => user_range(ptr, SECTOR_SIZE),
        Action::Path { ptr, len, .. } => user_range(ptr, len),
        Action::Read { ptr, len, .. } => len == 0 || user_range(ptr, len),
        Action::Write { ptr, len, .. } => len == 0 || user_range(ptr, len),
        Action::Stat { ptr, len, out } => user_range(ptr, len) && user_range(out, STAT_SIZE),
        Action::ReadDir { ptr, len, out, out_len } => user_range(ptr, len) && (out_len == 0
            || user_range(out, out_len)),
        Action::ReadLink { ptr, len, out, out_len } => user_range(ptr, len) && (out_len == 0
            || user_range(out, out_len)),
        Action::Rename { from, from_len, to, to_len } => user_range(from, from_len) && user_range(
            to,
            to_len,
        ),
        Action::Symlink { target, target_len, link, link_len } => user_range(target, target_len)
            && user_range(link, link_len),
        Action::Claim { ptr, len } => user_range(ptr, len),
        Action::MapPage { va, .. } => user_page(va),
        Action::UnmapPage { va } => user_page(va),
        Action::MapDevice { va, pages, .. } => user_page(va) && va + pages * 0x1000 <= USER_END,
        Action::MapDma { va, pages, out, .. } => user_page(va) && va + pages * 0x1000 <= USER_END
            && user_range(out, 8),
        _ => true,
    }
}

/// Whatever the arguments of a call are, no memory outside the user half is
/// touched or mapped on its behalf.
pub proof fn law_user_ranges_are_checked(k: KernelView, f: SyscallFrame)
    ensures
        ranges_valid(dispatched(k, f).1),
{
}

/// A page that a user maps is for users, and carries no flag that users may not
/// choose.
pub proof fn law_user_pages_carry_user_flags(bits: u64)
    ensures
        user_flags(bits).0 & 0x4 == 0x4,
        user_flags(bits).0 & !0x8000_0000_0000_0007u64 == 0,
{
    assert(((bits & 0x8000_0000_0000_0007) | 0x4) & 0x4 == 0x4) by (bit_vector);
    assert(((bits & 0x8000_0000_0000_0007) | 0x4) & !0x8000_0000_0000_0007u64 == 0) by (bit_vector);
}

/// A task that is not root never takes on another identity by a call, and never
/// changes that of another task.
pub proof fn law_only_root_changes_identity(k: KernelView, f: SyscallFrame, i: int)
    requires
        sched_ok(k.sched),
        current_task(k).uid != 0,
        0 <= i < k.sched.tasks.len(),
    ensures
        ({
            let after = dispatched(k, f).0.sched;
            &&& after.tasks.len() == k.sched.tasks.len()
            &&& after.current == k.sched.current
            &&& after.tasks[i].uid == k.sched.tasks[i].uid
            &&& after.tasks[i].gid == k.sched.tasks[i].gid
            &&& after.tasks[i].id == k.sched.tasks[i].id
        }),
{
    lemma_find_task(k.sched.tasks, f.a1, 0);
}

/// Looking up an endpoint never gives the rights to grant or to revoke.
pub proof fn law_lookup_never_elevates(mask: u64)
    ensures
        !lookup_rights(mask).spec_has(CapRights(CapRights::GRANT)),
        !lookup_rights(mask).spec_has(CapRights(CapRights::REVOKE)),
        lookup_rights(mask).0 != 0,
{
    let r = (mask as u8) & 0x3;
    assert(r & 4 == 0 && r & 8 == 0) by (bit_vector)
        requires
            r == (mask as u8) & 0x3,
    ;
    assert(3u8 & 4 == 0 && 3u8 & 8 == 0) by (bit_vector);
}

/// Unmapping a page that was just mapped leaves the task's ranges as they were,
/// and a page cannot be mapped twice.
pub proof fn law_munmap_undoes_mmap(k: KernelView, f: SyscallFrame, g: SyscallFrame)
    requires
        sched_ok(k.sched),
        f.nr == SYS_MMAP,
        g.nr == SYS_MUNMAP,
        g.a1 == f.a1,
        dispatched(k, f).1 is MapPage,
    ensures
        ({
            let k1 = dispatched(k, f).0;
            &&& dispatched(k1, f).1 == Action::Return(EINVAL)
            &&& dispatched(k1, g).1 == Action::UnmapPage { va: f.a1 }
            &&& dispatched(k1, g).0.sched == k.sched
        }),
{
    let l = current_task(k).vma_list;
    law_remove_undoes_insert(l, f.a1);
    let k1 = dispatched(k, f).0;
    assert(current_task(k1).vma_list == vma_with(l, f.a1));
    assert(dispatched(k1, g).0.sched.tasks =~= k.sched.tasks);
}

/// The second capability gives nothing that the first does not.
pub open spec fn covers(a: CapView, b: CapView) -> bool {
    a.object == b.object && a.kind == b.kind && a.rights.spec_has(b.rights)
}

/// Some slot of the table covers the capability.
pub open spec fn covered_in(slots: CapSlots, cap: CapView) -> bool {
    exists|j: int|
        0 <= j < slots.len() && (#[trigger] slots[j]).item is Some && covers(
            slots[j].item->0,
            cap,
        )
}

/// Some task holds a capability that covers this one.
pub open spec fn covered(space: Space, cap: CapView) -> bool {
    exists|i: int| 0 <= i < space.len() && covered_in((#[trigger] space[i]).1, cap)
}

proof fn lemma_covers_itself(space: Space, i: int, j: int)
    requires
        0 <= i < space.len(),
        0 <= j < space[i].1.len(),
        space[i].1[j].item is Some,
    ensures
        covered(space, space[i].1[j].item->0),
{
    let r = space[i].1[j].item->0.rights.0;
    assert(r & r == r) by (bit_vector);
    assert(covered_in(space[i].1, space[i].1[j].item->0));
}

/// Whatever a task holds in `after` is covered by what some task holds in
/// `before`.
pub open spec fn holds_no_more(after: Space, before: Space) -> bool {
    forall|i: int, j: int|
        0 <= i < after.len() && 0 <= j < after[i].1.len() && (#[trigger] after[i].1[j]).item is Some
            ==> covered(before, after[i].1[j].item->0)
}

/// No call amplifies authority. Whatever a task holds after a call, or is on its
/// way to another, is covered by what some task held before.
pub proof fn law_no_call_amplifies(k: KernelView, f: SyscallFrame)
    requires
        sched_ok(k.sched),
    ensures
        holds_no_more(dispatched(k, f).0.sched.caps, k.sched.caps),
        dispatched(k, f).0.in_transit != k.in_transit ==> dispatched(k, f).0.in_transit is Some
            && covered(k.sched.caps, dispatched(k, f).0.in_transit->0),
{
    let space = k.sched.caps;
    let after = dispatched(k, f).0.sched.caps;
    if f.nr == SYS_IPC_SEND_CAP && after != space {
        lemma_covers_itself(space, k.sched.current, CapHandle(f.a4).slot());
    }
    assert forall|i: int, j: int|
        0 <= i < after.len() && 0 <= j < after[i].1.len() && (
        #[trigger] after[i].1[j]).item is Some implies covered(space, after[i].1[j].item->0) by {
        if f.nr == SYS_CAP_GRANT && after != space {
            lemma_grant_is_covered(k, f, i, j);
        } else {
            assert(space[i].1[j] == after[i].1[j]);
            lemma_covers_itself(space, i, j);
        }
    }
}

proof fn lemma_grant_is_covered(k: KernelView, f: SyscallFrame, i: int, j: int)
    requires
        sched_ok(k.sched),
        cap_grant_call(k, f).0.sched.caps != k.sched.caps,
        0 <= i < cap_grant_call(k, f).0.sched.caps.len(),
        0 <= j < cap_grant_call(k, f).0.sched.caps[i].1.len(),
        cap_grant_call(k, f).0.sched.caps[i].1[j].item is Some,
    ensures
        covered(k.sched.caps, cap_grant_call(k, f).0.sched.caps[i].1[j].item->0),
{
    let space = k.sched.caps;
    let after = cap_grant_call(k, f).0.sched.caps;
    let c = k.sched.current;
    let to = find_task(k.sched.tasks, f.a2, 0);
    let from = CapHandle(f.a1).slot();
    let cap = space[c].1[from].item->0;
    let r = cap.rights.0;
    assert(r & r == r) by (bit_vector);
    lemma_find_task(k.sched.tasks, f.a2, 0);
    lemma_first_vacant_bounds(space[to].1, 0);
    if i == to && j == first_vacant(space[to].1, 0) {
        law_grant_never_amplifies(cap, k.ids.next, CapRights(f.a3 as u8));
        assert(covered_in(space[c].1, after[i].1[j].item->0));
    } else if i == c && j == from {
        assert(covers(cap, after[i].1[j].item->0));
        assert(covered_in(space[c].1, after[i].1[j].item->0));
    } else {
        assert(space[i].1[j] == after[i].1[j]);
        lemma_covers_itself(space, i, j);
    }
}

/// A task starts with nothing that the task that starts it does not hold.
pub proof fn law_a_new_task_holds_no_more(
    from: CapSlots,
    handles: Seq<CapHandle>,
    ids: CapIds,
    j: int,
)
    requires
        0 <= j < inherited_all(from, handles, 0, seq![], ids).0.len(),
        inherited_all(from, handles, 0, seq![], ids).0[j].item is Some,
    ensures
        covered_in(from, inherited_all(from, handles, 0, seq![], ids).0[j].item->0),
{
    lemma_inherits_no_more(from, handles, 0, seq![], ids);
}

proof fn lemma_inherits_no_more(
    from: CapSlots,
    handles: Seq<CapHandle>,
    k: int,
    to: CapSlots,
    ids: CapIds,
)
    requires
        forall|j: int|
            0 <= j < to.len() && (#[trigger] to[j]).item is Some ==> covered_in(
                from,
                to[j].item->0,
            ),
    ensures
        ({
            let r = inherited_all(from, handles, k, to, ids).0;
            forall|j: int|
                0 <= j < r.len() && (#[trigger] r[j]).item is Some ==> covered_in(
                    from,
                    r[j].item->0,
                )
        }),
    decreases handles.len() - k,
{
    if k < handles.len() {
        match slot_lookup(from, handles[k].0) {
            Ok(cap) => {
                let r = cap.rights.0;
                let child = inherited_cap(cap, ids.next);
                assert(r & r == r) by (bit_vector);
                assert(from[handles[k].slot()].item == Some(cap));
                assert(covered_in(from, child));
                lemma_first_vacant_bounds(to, 0);
                lemma_inherits_no_more(
                    from,
                    handles,
                    k + 1,
                    slots_with(to, child),
                    CapIds { next: ids.after() },
                );
            },
            Err(_) => lemma_inherits_no_more(from, handles, k + 1, to, ids),
        }
    }
}

/// The current task holds what an action asks for: memory, the endpoint, the
/// device, the mount table or the rollback. Actions that need no capability are
/// open to all.
pub open spec fn authorised(k: KernelView, a: Action) -> bool {
    let held = |kind: CapKind, need: u8| holds_kind(current_caps(k), kind, CapRights(need));
    match a {
        Action::MapPage { .. } => held(CapKind::Memory, CapRights::WRITE),
        Action::GrowBrk { .. } => held(CapKind::Memory, CapRights::WRITE),
        Action::ShrinkBrk { .. } => held(CapKind::Memory, CapRights::WRITE),
        Action::Send { .. } => held(CapKind::Ipc, CapRights::WRITE),
        Action::SendCap { .. } => held(CapKind::Ipc, CapRights::WRITE),
        Action::SendTimeout { .. } => held(CapKind::Ipc, CapRights::WRITE),
        Action::Recv { .. } => held(CapKind::Ipc, CapRights::READ),
        Action::RecvCap { .. } => held(CapKind::Ipc, CapRights::READ),
        Action::RecvTimeout { .. } => held(CapKind::Ipc, CapRights::READ),
        Action::Poll { .. } => held(CapKind::Ipc, CapRights::READ),
        Action::BindName { .. } => held(CapKind::Ipc, CapRights::GRANT),
        Action::Halt => holds_any(current_caps(k), CapKind::Rollback),
        Action::Claim { .. } => holds_any(current_caps(k), CapKind::Rollback),
        Action::ReadConfig { .. } => held(CapKind::Device, CapRights::READ),
        Action::BlockOnIrq => held(CapKind::Device, CapRights::READ),
        Action::Unmask { .. } => held(CapKind::Device, CapRights::READ),
        Action::MapDevice { .. } => held(CapKind::Device, CapRights::WRITE),
        Action::MapDma { .. } => held(CapKind::Device, CapRights::WRITE),
        Action::Path { op, .. } => (op is Mount || op is Unmount || op is StoreRemove) ==> held(
            CapKind::Filesystem,
            CapRights::WRITE,
        ),
        _ => true,
    }
}

/// What a handle names is in the table.
proof fn lemma_named_is_held(slots: CapSlots, word: u64, need: CapRights)
    requires
        slot_lookup(slots, word) is Ok,
        (slot_lookup(slots, word)->Ok_0).rights.spec_has(need),
    ensures
        holds_kind(slots, (slot_lookup(slots, word)->Ok_0).kind, need),
{
    let i = CapHandle(word).slot();
    assert(slots[i].item == Some(slot_lookup(slots, word)->Ok_0));
}

/// There is no ambient authority. Nothing is done with memory, an endpoint, a
/// device, the mount table or the rollback unless the calling task holds a
/// capability of that kind with the right that is needed.
pub proof fn law_no_ambient_authority(k: KernelView, f: SyscallFrame)
    ensures
        authorised(k, dispatched(k, f).1),
{
    let slots = current_caps(k);
    if slot_lookup(slots, f.a1) is Ok {
        let cap = slot_lookup(slots, f.a1)->Ok_0;
        if cap.rights.spec_has(CapRights(CapRights::READ)) {
            lemma_named_is_held(slots, f.a1, CapRights(CapRights::READ));
        }
        if cap.rights.spec_has(CapRights(CapRights::WRITE)) {
            lemma_named_is_held(slots, f.a1, CapRights(CapRights::WRITE));
        }
        if cap.rights.spec_has(CapRights(CapRights::GRANT)) {
            lemma_named_is_held(slots, f.a1, CapRights(CapRights::GRANT));
        }
    }
}

/// A capability that is sent moves: its handle names nothing any more, and the
/// receiver finds it whole under the handle that it is given.
pub proof fn law_a_sent_capability_moves(k: KernelView, f: SyscallFrame, r: KernelView, out: u64)
    requires
        sched_ok(k.sched),
        sched_ok(r.sched),
        send_cap_call(k, f).1 is SendCap,
        out != 0,
        first_vacant(current_caps(r), 0) < INDEX_SPAN,
    ensures
        slot_lookup(current_caps(send_cap_call(k, f).0), f.a4) is Err,
        send_cap_call(k, f).0.in_transit is Some,
        slot_lookup(current_caps(k), f.a4) == Ok::<CapView, CapError>(
            send_cap_call(k, f).0.in_transit->0,
        ),
        ({
            let (r1, handle) = cap_arrived(r, out, send_cap_call(k, f).0.in_transit);
            handle is Some && slot_lookup(current_caps(r1), handle->0) == slot_lookup(
                current_caps(k),
                f.a4,
            )
        }),
{
    let cap = slot_lookup(current_caps(k), f.a4)->Ok_0;
    law_stale_handle_is_refused(current_caps(k), f.a4, cap);
    let word = word_for_next(current_caps(r)) as u64;
    lemma_first_vacant_bounds(current_caps(r), 0);
    law_inserted_is_found(current_caps(r), cap, word);
}

/// A task's table is where the task is.
proof fn lemma_table_of(s: SchedView, id: u64, i: int)
    requires
        sched_ok(s),
        0 <= i <= s.tasks.len(),
    ensures
        task_at(s.caps, id, i) == find_task(s.tasks, id, i),
    decreases s.tasks.len() - i,
{
    if i < s.tasks.len() {
        assert(s.caps[i].0 == s.tasks[i].id);
        if s.tasks[i].id != id {
            lemma_table_of(s, id, i + 1);
        }
    }
}

/// A revocation reaches everything that was derived. Afterwards a handle resolves
/// exactly where it did before and what it names was not derived from what is
/// revoked; the revoked handle itself names nothing.
pub proof fn law_revocation_reaches_what_was_derived(
    k: KernelView,
    f: SyscallFrame,
    task: u64,
    handle: CapHandle,
)
    requires
        sched_ok(k.sched),
        cap_revoke_call(k, f).1 == Action::Return(0),
        slot_lookup(current_caps(k), f.a1) is Ok,
    ensures
        ({
            let before = k.sched.caps;
            let after = cap_revoke_call(k, f).0.sched.caps;
            let root = (k.sched.current, CapHandle(f.a1).slot());
            &&& node_of(after, task, handle) == match node_of(before, task, handle) {
                Some(n) => if descends(before, root, n) {
                    None
                } else {
                    Some(n)
                },
                None => None,
            }
            &&& slot_lookup(current_caps(cap_revoke_call(k, f).0), f.a1) is Err
        }),
{
    let before = k.sched.caps;
    let id = current_task(k).id;
    let root = (k.sched.current, CapHandle(f.a1).slot());
    lemma_current_table(k.sched, 0);
    assert(node_of(before, id, CapHandle(f.a1)) == Some(root));
    law_cascade_removes_descendants_only(before, root, task, handle);
    let path = seq![root];
    assert(grant_chain(before, path) && path[0] == root && path.last() == root);
    assert(descends(before, root, root));
}

/// What was granted is taken back by revoking what it was granted from: the other
/// task's handle names nothing any more.
pub proof fn law_revoking_takes_a_grant_back(k: KernelView, f: SyscallFrame, g: SyscallFrame)
    requires
        sched_ok(k.sched),
        cap_grant_call(k, f).0 != k,
        first_vacant(k.sched.caps[find_task(k.sched.tasks, f.a2, 0)].1, 0) < INDEX_SPAN,
        g.a1 == f.a1,
        (slot_lookup(current_caps(k), f.a1)->Ok_0).rights.spec_has(CapRights(CapRights::REVOKE)),
    ensures
        ({
            let (k1, granted) = cap_grant_call(k, f);
            let (k2, revoked) = cap_revoke_call(k1, g);
            let to = find_task(k.sched.tasks, f.a2, 0);
            &&& granted is Return
            &&& slot_lookup(k1.sched.caps[to].1, granted->Return_0) is Ok
            &&& revoked == Action::Return(0)
            &&& slot_lookup(k2.sched.caps[to].1, granted->Return_0) is Err
        }),
{
    let (k1, granted) = cap_grant_call(k, f);
    let to = find_task(k.sched.tasks, f.a2, 0);
    let c = k.sched.current;
    let space = k.sched.caps;
    let handle = CapHandle(f.a1);
    let cap = slot_lookup(current_caps(k), f.a1)->Ok_0;
    let child = CapHandle(word_for_next(space[to].1) as u64);
    let derived = derived_cap(cap, k.ids.next, CapRights(f.a3 as u8));
    lemma_find_task(k.sched.tasks, f.a2, 0);
    lemma_table_of(k.sched, f.a2, 0);
    lemma_first_vacant_bounds(space[to].1, 0);
    law_granted_descends(space, c, to, handle, f.a2, child, cap, derived);
    law_inserted_is_found(space[to].1, derived, child.0);
    let after = space.update(
        c,
        (space[c].0, with_child(space[c].1, handle.slot(), f.a2, child)),
    ).update(to, (space[to].0, slots_with(space[to].1, derived)));
    assert(k1.sched.caps =~= after);
    lemma_caps_keep_shape(k.sched, to, slots_with(space[to].1, derived));
    let mid = with_caps_of(k, to, slots_with(space[to].1, derived)).sched;
    lemma_caps_keep_shape(mid, c, with_child(space[c].1, handle.slot(), f.a2, child));
    assert(sched_ok(k1.sched));
    lemma_table_of(k1.sched, f.a2, 0);
    law_revocation_reaches_what_was_derived(k1, g, f.a2, child);
    let k2 = cap_revoke_call(k1, g).0;
    assert(node_of(k1.sched.caps, f.a2, child) == Some((to, child.slot())));
    assert(node_of(k2.sched.caps, f.a2, child) is None);
    assert(forall|i: int|
        0 <= i < k2.sched.caps.len() ==> (#[trigger] k2.sched.caps[i]).0 == k1.sched.caps[i].0);
    assert(sched_ok(k2.sched));
    lemma_table_of(k2.sched, f.a2, 0);
}

} // verus!
