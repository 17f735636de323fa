//! System calls on the kernel's state.

use lythos::cap::{
    cap_grant, CapHandle, CapKind, CapRights, Capability, KernelObject, KernelObjectRef,
};
use lythos::kernel::Kernel;
use lythos::keyboard::Keyboard;
use lythos::pci::Registry;
use lythos::pmm::{Frames, PhysAddr};
use lythos::syscall;
use lythos::syscall::{
    access_needed, brk_grow, cap_received, check_access, check_rename, check_symlink, check_text,
    cr4_protected, dac_check, efer_enabled, input_ready, ipc_bound, ipc_created, ipc_looked_up,
    parent_of, ps_bytes, read_input, readdir_answer, readdir_bytes, split_args, stat_answer,
    stat_bytes, sys_exec, syscall_dispatch, task_list_bytes, valid_user_range, Access, Action,
    PathOp, SyscallFrame,
};
use lythos::task::TaskState;
use lythos::time::Clock;
use lythos::vfs::{DirEntry, Stat};
use lythos::vmm::PageFlags;

const USER: u64 = 0x7_0000_0000;

fn kernel() -> Kernel {
    let frames = Frames::init_from_limine(&[(0, 0x100_0000, 0)], 0, 0x10_0000);
    Kernel::new(frames, Registry::new(), Clock::Anchored { epoch_ms: 1_000_000, mono: 10 }, true)
}

fn call(nr: u64, args: [u64; 6]) -> SyscallFrame {
    SyscallFrame {
        r15: 0,
        r14: 0,
        r13: 0,
        r12: 0,
        rbx: 0,
        rbp: 0,
        r11: 0,
        rcx: 0,
        nr,
        a1: args[0],
        a2: args[1],
        a3: args[2],
        a4: args[3],
        a5: args[4],
        a6: args[5],
    }
}

fn go(k: &mut Kernel, nr: u64, args: [u64; 6]) -> Action {
    syscall_dispatch(k, &call(nr, args))
}

fn ret(r: u64) -> Action {
    Action::Return(r)
}

fn with_memory() -> Kernel {
    let mut k = kernel();
    k.mint(
        KernelObject::Memory { base_pa: 0, frame_count: 1 },
        CapKind::Memory,
        CapRights(CapRights::ALL),
    )
        .unwrap();
    k
}

fn endpoint(k: &mut Kernel, rights: u8) -> u64 {
    k.mint(KernelObject::Ipc { endpoint_idx: 5 }, CapKind::Ipc, CapRights(rights)).unwrap()
}

#[test]
fn user_ranges_end_with_user_space() {
    assert!(!valid_user_range(0, 1));
    assert!(!valid_user_range(0, 0));
    assert!(valid_user_range(1, 0));
    assert!(valid_user_range(syscall::USER_END - 8, 8));
    assert!(!valid_user_range(syscall::USER_END - 8, 9));
    assert!(!valid_user_range(8, u64::MAX));
}

#[test]
fn unmapping_undoes_mapping() {
    let mut k = kernel();
    assert_eq!(go(&mut k, syscall::SYS_MMAP, [USER, 0, 0, 0, 0, 0]), ret(syscall::ENOPERM));
    let mut k = with_memory();
    let free = k.frames.free_frame_count();
    let a = go(&mut k, syscall::SYS_MMAP, [USER, 0, u64::MAX, 0, 0, 0]);
    let flags = PageFlags(0x8000_0000_0000_0007);
    assert_eq!(a, Action::MapPage { va: USER, frame: PhysAddr(0x10_0000), flags });
    assert_eq!(k.frames.free_frame_count(), free - 1);
    assert_eq!(go(&mut k, syscall::SYS_MMAP, [USER, 0, 0, 0, 0, 0]), ret(syscall::EINVAL));
    assert_eq!(
        go(&mut k, syscall::SYS_MUNMAP, [USER, 0, 0, 0, 0, 0]),
        Action::UnmapPage { va: USER }
    );
    assert!(k.sched.tasks[0].vma_list.is_empty());
    assert_eq!(go(&mut k, syscall::SYS_MUNMAP, [USER, 0, 0, 0, 0, 0]), ret(syscall::EINVAL));
}

#[test]
fn the_break_moves() {
    let mut k = kernel();
    assert_eq!(go(&mut k, syscall::SYS_BRK, [0; 6]), ret(syscall::ENOPERM));
    let mut k = with_memory();
    let base = syscall::HEAP_BASE;
    assert_eq!(go(&mut k, syscall::SYS_BRK, [0; 6]), ret(base));
    assert_eq!(
        go(&mut k, syscall::SYS_BRK, [base + 0x1800, 0, 0, 0, 0, 0]),
        Action::GrowBrk { from: base, to: base + 0x2000, brk: base + 0x1800 }
    );
    let (pages, r) = brk_grow(&mut k, base, base + 0x2000, base + 0x1800);
    assert_eq!((pages.len(), r), (2, base + 0x1800));
    assert_eq!(go(&mut k, syscall::SYS_BRK, [0; 6]), ret(base + 0x1800));
    assert_eq!(go(&mut k, syscall::SYS_BRK, [base - 1, 0, 0, 0, 0, 0]), ret(syscall::EINVAL));
    k.sched.tasks[0].page_table = Some(0x7000);
    assert_eq!(
        go(&mut k, syscall::SYS_BRK, [base + 1, 0, 0, 0, 0, 0]),
        Action::ShrinkBrk { from: base + 0x1000, to: base + 0x2000, brk: base + 1 }
    );
}

#[test]
fn capabilities_are_granted_to_other_tasks() {
    let mut k = with_memory();
    let child = k.sched.spawn_kernel_task(0xFFFF_C000_0000_0000, 0);
    assert_eq!(
        go(&mut k, syscall::SYS_CAP_GRANT, [0, child, CapRights::READ as u64, 0, 0, 0]),
        ret(0)
    );
    assert_eq!(k.sched.caps.tasks[1].table.get(CapHandle(0)).unwrap().rights.0, CapRights::READ);
    let weak = endpoint(&mut k, CapRights::READ);
    assert_eq!(
        go(&mut k, syscall::SYS_CAP_GRANT, [weak, child, 1, 0, 0, 0]),
        ret(syscall::ENOPERM)
    );
    assert_eq!(go(&mut k, syscall::SYS_CAP_REVOKE, [weak, 0, 0, 0, 0, 0]), ret(syscall::ENOPERM));
    assert_eq!(go(&mut k, syscall::SYS_CAP_REVOKE, [0; 6]), ret(0));
    assert!(k.sched.caps.tasks[1].table.get(CapHandle(0)).is_err());
}

#[test]
fn messages_need_an_endpoint_and_the_right() {
    let mut k = kernel();
    let both = endpoint(&mut k, CapRights::READ | CapRights::WRITE);
    let reader = endpoint(&mut k, CapRights::READ);
    let memory = k
        .mint(
            KernelObject::Memory { base_pa: 0, frame_count: 1 },
            CapKind::Memory,
            CapRights(CapRights::ALL),
        )
        .unwrap();
    assert_eq!(
        go(&mut k, syscall::SYS_IPC_SEND, [both, USER, 64, 0, 0, 0]),
        Action::Send { endpoint: 5, ptr: USER, len: 64 }
    );
    assert_eq!(
        go(&mut k, syscall::SYS_IPC_RECV, [reader, USER, 64, 0, 0, 0]),
        Action::Recv { endpoint: 5, ptr: USER, len: 64 }
    );
    assert_eq!(
        go(&mut k, syscall::SYS_IPC_POLL, [reader, USER, 64, 0, 0, 0]),
        Action::Poll { endpoint: 5, ptr: USER, len: 64 }
    );
    assert_eq!(
        go(&mut k, syscall::SYS_IPC_SEND, [reader, USER, 64, 0, 0, 0]),
        ret(syscall::ENOPERM)
    );
    assert_eq!(go(&mut k, syscall::SYS_IPC_SEND, [9, USER, 64, 0, 0, 0]), ret(syscall::ENOCAP));
    assert!(matches!(
        go(&mut k, syscall::SYS_IPC_SEND, [memory, USER, 64, 0, 0, 0]),
        Action::Return(_)
    ));
}

#[test]
fn endpoints_are_made_and_found() {
    let mut k = kernel();
    assert_eq!(go(&mut k, syscall::SYS_IPC_CREATE, [0; 6]), Action::CreateEndpoint);
    let h = ipc_created(&mut k, Some(3));
    assert_eq!(h, 0);
    assert_eq!(k.current_table().get(CapHandle(h)).unwrap().rights.0, CapRights::ALL);
    let before = k.current_table().get(CapHandle(1)).is_err();
    assert!(before);
    assert_eq!(
        go(&mut k, syscall::SYS_IPC_LOOKUP, [USER, 4, 0xFF, 0, 0, 0]),
        Action::LookupName { ptr: USER, len: 4, rights: CapRights(3) }
    );
    let found = ipc_looked_up(&mut k, b"svc", Some(3), CapRights(1));
    assert_eq!(k.current_table().get(CapHandle(found)).unwrap().rights.0, 1);
    assert_eq!(ipc_looked_up(&mut k, b"svc", None, CapRights(1)), syscall::ENOENT);
    assert_eq!(ipc_looked_up(&mut k, b"\xFF", Some(3), CapRights(1)), syscall::EINVAL);
    assert_eq!(ipc_bound(b"svc", true), 0);
    assert_eq!(ipc_bound(b"svc", false), syscall::ENOSYS);
    assert_eq!(ipc_bound(b"\xC0", true), syscall::EINVAL);
}

#[test]
fn a_capability_travels_with_a_message() {
    let mut k = with_memory();
    let ep = endpoint(&mut k, CapRights::ALL);
    assert_eq!(
        go(&mut k, syscall::SYS_IPC_SEND_CAP, [ep, USER, 64, 0, 0, 0]),
        Action::SendCap { endpoint: 5, ptr: USER, len: 64 }
    );
    assert!(k.current_table().get(CapHandle(0)).is_err());
    let cap = k.take_transit().unwrap();
    assert_eq!(cap.kind, CapKind::Memory);
    assert!(k.take_transit().is_none());
    assert_eq!(
        go(&mut k, syscall::SYS_IPC_RECV_CAP, [ep, USER, 64, USER + 8, 0, 0]),
        Action::RecvCap { endpoint: 5, ptr: USER, len: 64, out: USER + 8 }
    );
    let h = cap_received(&mut k, USER + 8, Some(cap)).unwrap();
    assert_eq!(k.current_table().get(CapHandle(h)).unwrap().kind, CapKind::Memory);
}

#[test]
fn arguments_are_split_at_zeros() {
    assert_eq!(split_args(b"ls\0-l\0"), vec![b"ls".to_vec(), b"-l".to_vec()]);
    assert_eq!(split_args(b"ls"), vec![b"ls".to_vec()]);
    assert!(split_args(b"").is_empty());
}

#[test]
fn a_bad_binary_is_answered() {
    let mut k = kernel();
    let (r, space) = sys_exec(&mut k, 0, 0, 0, &[1, 2, 3], &[], b"");
    assert_eq!(r, syscall::EINVAL);
    assert!(space.is_none());
    assert_eq!(k.sched.tasks.len(), 1);
    assert_eq!(
        go(&mut k, syscall::SYS_EXEC, [USER, 128, 0, 0, 0, 0]),
        Action::Exec { elf: USER, elf_len: 128, caps: 0, caps_len: 0, argv: 0, argv_len: 0 }
    );
}

#[test]
fn modes_decide_access() {
    assert!(dac_check(0, 1, 1, 0, 0, 7));
    assert!(dac_check(0o640, 5, 6, 5, 9, 6));
    assert!(!dac_check(0o640, 5, 6, 7, 6, 2));
    assert!(dac_check(0o640, 5, 6, 7, 6, 4));
    assert!(!dac_check(0o640, 5, 6, 7, 8, 4));
    assert!(!dac_check(0o047, 5, 6, 5, 6, 4));
    let mut k = kernel();
    k.sched.set_current_task_owner(7, 8);
    let own = Access { mode: 0o700, uid: 7, gid: 1 };
    let foreign = Access { mode: 0o755, uid: 1, gid: 1 };
    assert_eq!(check_access(&k, None, 4), Some(syscall::ENOENT));
    assert_eq!(check_access(&k, Some(own), 2), None);
    assert_eq!(check_access(&k, Some(foreign), 2), Some(syscall::ENOPERM));
    assert_eq!(check_rename(&k, Some(own), Some(own)), None);
    assert_eq!(check_rename(&k, Some(own), Some(foreign)), Some(syscall::ENOPERM));
    assert_eq!(check_rename(&k, None, Some(foreign)), Some(syscall::ENOENT));
}

#[test]
fn parents_of_paths() {
    assert_eq!(parent_of(b"/etc/passwd"), b"/etc".to_vec());
    assert_eq!(parent_of(b"/etc"), b"/".to_vec());
    assert_eq!(parent_of(b"etc"), b"/".to_vec());
    assert_eq!(parent_of(&[0x2F, 0x61, 0x2F, 0xFF]), b"/".to_vec());
    assert_eq!(access_needed(PathOp::Open, b"/a/b"), Some((b"/a/b".to_vec(), 4)));
    assert_eq!(access_needed(PathOp::Create, b"/a/b"), Some((b"/a".to_vec(), 2)));
    assert_eq!(access_needed(PathOp::Unmount, b"/a/b"), None);
}

#[test]
fn paths_and_files_are_handed_on() {
    let mut k = kernel();
    assert_eq!(
        go(&mut k, syscall::SYS_OPEN, [USER, 9, 0, 0, 0, 0]),
        Action::Path { op: PathOp::Open, ptr: USER, len: 9 }
    );
    assert_eq!(go(&mut k, syscall::SYS_OPEN, [USER, 0, 0, 0, 0, 0]), ret(syscall::EINVAL));
    assert_eq!(
        go(&mut k, syscall::SYS_READ, [3, USER, 100, 0, 0, 0]),
        Action::Read { fd: 3, ptr: USER, len: 100 }
    );
    assert_eq!(
        go(&mut k, syscall::SYS_READ, [3, 0, 0, 0, 0, 0]),
        Action::Read { fd: 3, ptr: 0, len: 0 }
    );
    assert_eq!(
        go(&mut k, syscall::SYS_WRITE, [3, USER, u64::MAX, 0, 0, 0]),
        ret(syscall::EINVAL)
    );
    assert_eq!(go(&mut k, syscall::SYS_CLOSE, [3, 0, 0, 0, 0, 0]), Action::Close { fd: 3 });
    assert_eq!(
        go(&mut k, syscall::SYS_SEEK, [3, 7, 2, 0, 0, 0]),
        Action::Seek { fd: 3, offset: 7, whence: 2 }
    );
    assert_eq!(
        go(&mut k, syscall::SYS_STAT, [USER, 4, 0xFFFF_8000_0000_0000, 0, 0, 0]),
        ret(syscall::EINVAL)
    );
    assert_eq!(
        go(&mut k, syscall::SYS_RENAME, [USER, 4, USER + 8, 5, 0, 0]),
        Action::Rename { from: USER, from_len: 4, to: USER + 8, to_len: 5 }
    );
}

#[test]
fn only_root_changes_who_it_is() {
    let mut k = kernel();
    assert_eq!(go(&mut k, syscall::SYS_GETUID, [0; 6]), ret(0));
    assert_eq!(go(&mut k, syscall::SYS_SETGID, [50, 0, 0, 0, 0, 0]), ret(0));
    assert_eq!(go(&mut k, syscall::SYS_SETUID, [7, 0, 0, 0, 0, 0]), ret(0));
    assert_eq!(go(&mut k, syscall::SYS_GETUID, [0; 6]), ret(7));
    assert_eq!(go(&mut k, syscall::SYS_GETGID, [0; 6]), ret(50));
    assert_eq!(go(&mut k, syscall::SYS_SETUID, [0; 6]), ret(syscall::ENOPERM));
    assert_eq!(go(&mut k, syscall::SYS_SETUID, [7, 0, 0, 0, 0, 0]), ret(0));
    assert_eq!(go(&mut k, syscall::SYS_SETGID, [1, 0, 0, 0, 0, 0]), ret(syscall::ENOPERM));
    assert_eq!(go(&mut k, syscall::SYS_BLK_READ, [0, USER, 0, 0, 0, 0]), ret(syscall::ENOPERM));
    assert_eq!(go(&mut k, syscall::SYS_TASK_KILL, [1, 0, 0, 0, 0, 0]), ret(syscall::ENOPERM));
}

#[test]
fn tasks_and_time() {
    let mut k = kernel();
    k.ticks = 25;
    assert_eq!(go(&mut k, syscall::SYS_TIME, [0; 6]), ret(25));
    assert_eq!(go(&mut k, syscall::SYS_TIME_EPOCH, [0; 6]), ret(1_000_015));
    assert_eq!(
        go(&mut k, syscall::SYS_NANOSLEEP, [1_500_000, 0, 0, 0, 0, 0]),
        Action::Sleep { until: 27 }
    );
    assert_eq!(go(&mut k, syscall::SYS_YIELD, [0; 6]), Action::Yield);
    assert_eq!(go(&mut k, syscall::SYS_TASK_EXIT, [7, 0, 0, 0, 0, 0]), Action::Exit { status: 7 });
    assert_eq!(
        go(&mut k, syscall::SYS_TASK_SETPRIORITY, [0, 2, 0, 0, 0, 0]),
        ret(0)
    );
    assert_eq!(k.sched.tasks[0].priority, 2);
    assert_eq!(
        go(&mut k, syscall::SYS_TASK_SETPRIORITY, [0, 256, 0, 0, 0, 0]),
        ret(syscall::EINVAL)
    );
    assert_eq!(
        go(&mut k, syscall::SYS_MEM_STAT, [0; 6]),
        ret(k.frames.free_frame_count() as u64)
    );
    let child = k.sched.spawn_kernel_task(0xFFFF_C000_0000_0000, 0);
    assert_eq!(go(&mut k, syscall::SYS_TASK_STATUS, [child, 0, 0, 0, 0, 0]), ret(1));
    assert_eq!(go(&mut k, syscall::SYS_TASK_KILL, [child, 0, 0, 0, 0, 0]), ret(0));
    assert_eq!(go(&mut k, syscall::SYS_TASK_STATUS, [child, 0, 0, 0, 0, 0]), ret(0));
    assert_eq!(
        go(&mut k, syscall::SYS_BLK_READ, [4, USER, 0, 0, 0, 0]),
        Action::ReadSector { sector: 4, ptr: USER }
    );
    k.blk_present = false;
    assert_eq!(go(&mut k, syscall::SYS_BLK_WRITE, [4, USER, 0, 0, 0, 0]), ret(syscall::ENOSYS));
}

#[test]
fn power_and_rollback_are_gated() {
    let mut k = kernel();
    assert_eq!(go(&mut k, syscall::SYS_ROLLBACK, [0; 6]), ret(syscall::ENOPERM));
    k.mint(KernelObject::Rollback, CapKind::Rollback, CapRights(0)).unwrap();
    assert_eq!(go(&mut k, syscall::SYS_ROLLBACK, [0; 6]), Action::Halt);
    assert!(matches!(
        go(&mut k, syscall::SYS_POWEROFF, [0; 6]),
        Action::PowerOff | Action::Return(_)
    ));
}

#[test]
fn structures_are_laid_out() {
    let s = Stat {
        size: 0x1122,
        flags: 3,
        mode: 0o644,
        uid: 5,
        gid: 6,
        nlink: 2,
        mtime: 7,
        ctime: 8,
    };
    let b = stat_bytes(&s);
    assert_eq!(b.len() as u64, syscall::STAT_SIZE);
    assert_eq!(&b[0..8], &0x1122u64.to_le_bytes());
    assert_eq!(&b[8..24], &[7, 0, 0, 0, 0, 0, 0, 0, 8, 0, 0, 0, 0, 0, 0, 0]);
    assert_eq!(&b[24..40], &[3, 0, 0, 0, 5, 0, 0, 0, 6, 0, 0, 0, 2, 0, 0, 0]);
    assert_eq!(&b[40..48], &[0xA4, 1, 0, 0, 0, 0, 0, 0]);
    let entries = vec![
        DirEntry { ino: 9, file_type: 1, name: b"a.txt".to_vec() },
        DirEntry { ino: 10, file_type: 2, name: b"bin".to_vec() },
    ];
    let (b, n) = readdir_bytes(&entries, 2 * syscall::DIRENT_SIZE - 1);
    assert_eq!(n, 1);
    assert_eq!(b.len() as u64, syscall::DIRENT_SIZE);
    assert_eq!(&b[0..13], &[9, 0, 0, 0, 1, 5, 0, 0, b'a', b'.', b't', b'x', b't']);
    assert_eq!(readdir_bytes(&entries, 10_000).1, 2);
}

#[test]
fn task_lists_are_laid_out() {
    let mut k = kernel();
    k.sched.spawn_kernel_task(0xFFFF_C000_0000_0000, 0);
    k.sched.tasks[1].state = TaskState::Blocked;
    let (b, n) = task_list_bytes(&k, 10);
    assert_eq!((b.len() as u64, n), (2 * syscall::TASK_INFO_SIZE, 2));
    assert_eq!(&b[24..41], &[1, 0, 0, 0, 0, 0, 0, 0, 3, 0, 0, 0, 0, 0, 0, 0, 0]);
    assert_eq!(task_list_bytes(&k, 1).1, 1);
    let (b, n) = ps_bytes(&k, 1);
    assert_eq!((b.len() as u64, n), (syscall::PS_ENTRY_SIZE, 1));
    assert_eq!(&b[8..29], b"\x01\0\0\0\0\0\0\0\0\x01\x05\0\0\0\0\0kmain");
}

#[test]
fn typed_input_comes_before_serial() {
    let mut kbd = Keyboard::new();
    assert!(!input_ready(&kbd, false));
    assert!(input_ready(&kbd, true));
    kbd.inject(b"ab");
    assert!(input_ready(&kbd, false));
    assert_eq!(read_input(&mut kbd, b"xyz", 4), (b"abxy".to_vec(), 2));
    assert_eq!(read_input(&mut kbd, b"", 4), (Vec::new(), 0));
}

#[test]
fn control_registers() {
    assert_eq!(efer_enabled(0x500), 0x501);
    let (cr4, smap) = cr4_protected(0x20, (1 << 20) | (1 << 7));
    assert!(smap);
    assert_eq!(cr4 & 0x20, 0x20);
    assert_eq!(cr4 & (1 << 20), 1 << 20);
    assert_eq!(cr4 & (1 << 21), 1 << 21);
    let (cr4, smap) = cr4_protected(0x20, 0);
    assert!(!smap);
    assert_eq!(cr4 & (1 << 21), 0);
}

#[test]
fn a_received_capability_keeps_its_rights() {
    let mut k = kernel();
    let cap = Capability {
        id: 40,
        kind: CapKind::Memory,
        rights: CapRights(CapRights::READ),
        object: KernelObjectRef(0),
        parent_id: None,
        children: Vec::new(),
    };
    let h = cap_received(&mut k, USER, Some(cap)).unwrap();
    assert_eq!(k.current_table().get(CapHandle(h)).unwrap().rights.0, CapRights::READ);
    let mut other = lythos::cap::CapabilityTable::new();
    let i = k.sched.current;
    assert!(cap_grant(
        &mut k.ids,
        &mut k.sched.caps.tasks[i].table,
        CapHandle(h),
        1,
        &mut other,
        CapRights(CapRights::ALL)
    )
    .is_err());
}

#[test]
fn paths_are_checked_before_they_are_used() {
    let mut k = kernel();
    assert_eq!(check_text(PathOp::Unmount, b"/\xFF"), Some(syscall::EINVAL));
    assert_eq!(check_text(PathOp::Mount { source: 0, flags: 0 }, b"/mnt"), None);
    assert_eq!(check_text(PathOp::Open, b"/\xFF"), None);
    let dir = Access { mode: 0o755, uid: 5, gid: 5 };
    assert_eq!(check_symlink(&k, Some(dir)), None);
    assert_eq!(check_symlink(&k, None), Some(syscall::ENOENT));
    assert_eq!(go(&mut k, syscall::SYS_SETUID, [7, 0, 0, 0, 0, 0]), ret(0));
    assert_eq!(check_symlink(&k, Some(dir)), Some(syscall::ENOPERM));
}

#[test]
fn missing_files_are_told() {
    assert_eq!(stat_answer(None), (Vec::new(), syscall::ENOENT));
    let s = Stat { size: 5, flags: 1, mode: 0o644, uid: 0, gid: 0, nlink: 1, mtime: 2, ctime: 3 };
    let (bytes, r) = stat_answer(Some(s));
    assert_eq!((bytes[0], bytes[8], bytes.len(), r), (5, 2, 48, 0));
    assert_eq!(readdir_answer(None, 1000), (Vec::new(), syscall::ENOENT));
    let e = DirEntry { ino: 9, file_type: 1, name: b"n".to_vec() };
    let (bytes, r) = readdir_answer(Some(vec![e]), 264);
    assert_eq!((bytes[0], bytes.len(), r), (9, 264, 1));
}
