//! The checks that the kernel makes of itself at boot, on the library's own state.

use lythos::cap::{
    cap_cascade_revoke, cap_grant, cap_revoke, create_object, create_root_cap, CapError, CapHandle,
    CapIds, CapKind, CapRights, CapSpace, CapabilityTable, KernelObject, KoTable, TaskCaps,
};
use lythos::kernel::Kernel;
use lythos::pci::Registry;
use lythos::pmm::{Frames, PhysAddr};
use lythos::syscall;
use lythos::syscall::{syscall_dispatch, Action, SyscallFrame};
use lythos::task::{exit_status_normal, Scheduler, Switch, TaskId, Wait};
use lythos::time::Clock;
use lythos::vfs;

/// 32 MiB of memory, all of it usable but for the kernel's first MiB.
fn memory() -> Frames {
    Frames::init_from_limine(&[(0, 0x200_0000, 0)], 0, 0x10_0000)
}

fn kernel() -> Kernel {
    Kernel::new(memory(), Registry::new(), Clock::Anchored { epoch_ms: 0, mono: 0 }, false)
}

fn call(nr: u64, args: [u64; 4]) -> SyscallFrame {
    SyscallFrame {
        r15: 0,
        r14: 0,
        r13: 0,
        r12: 0,
        rbx: 0,
        rbp: 0,
        r11: 0,
        rcx: 0,
        nr,
        a1: args[0],
        a2: args[1],
        a3: args[2],
        a4: args[3],
        a5: 0,
        a6: 0,
    }
}

fn answer(k: &mut Kernel, nr: u64, args: [u64; 4]) -> u64 {
    match syscall_dispatch(k, &call(nr, args)) {
        Action::Return(r) => r,
        a => panic!("call {} is not answered at once: {:?}", nr, a),
    }
}

#[test]
fn frames_come_back_in_the_same_order() {
    let mut f = memory();
    let before = f.free_frame_count();
    let mut taken: Vec<PhysAddr> = Vec::new();
    for _ in 0..1000 {
        taken.push(f.alloc_frame().unwrap());
    }
    assert_eq!(f.free_frame_count(), before - 1000);
    for a in taken.iter().rev() {
        f.free_frame(*a);
    }
    for a in taken.iter() {
        assert_eq!(f.alloc_frame().unwrap(), *a);
    }
    for a in taken.iter().rev() {
        f.free_frame(*a);
    }
    assert_eq!(f.free_frame_count(), before);
}

#[test]
fn capabilities_are_granted_and_revoked() {
    let mut ids = CapIds::new();
    let mut objects = KoTable::new();
    let mut alice = CapabilityTable::new();
    let mut bob = CapabilityTable::new();
    let obj = create_object(&mut objects, KernelObject::Memory { base_pa: 0x1000, frame_count: 1 })
        .unwrap();
    let h_alice = create_root_cap(
        &mut ids,
        &mut alice,
        CapKind::Memory,
        CapRights(CapRights::ALL),
        obj,
    );
    let h_bob = cap_grant(
        &mut ids,
        &mut alice,
        h_alice,
        99,
        &mut bob,
        CapRights(CapRights::READ),
    )
        .unwrap();
    assert_eq!(bob.get(h_bob).unwrap().rights.0, CapRights::READ);
    assert_eq!(
        cap_grant(&mut ids, &mut bob, h_bob, 0, &mut alice, CapRights(CapRights::READ)),
        Err(CapError::NoGrant)
    );
    assert_eq!(cap_revoke(&mut alice, h_alice), Ok(()));
    assert!(alice.get(h_alice).is_err());
    assert!(bob.get(h_bob).is_ok());
}

#[test]
fn a_cascade_takes_what_was_granted() {
    let mut ids = CapIds::new();
    let mut objects = KoTable::new();
    let mut alice = CapabilityTable::new();
    let mut bob = CapabilityTable::new();
    let obj = create_object(&mut objects, KernelObject::Memory { base_pa: 0x3000, frame_count: 1 })
        .unwrap();
    let all = CapRights(CapRights::ALL);
    let h_alice = create_root_cap(&mut ids, &mut alice, CapKind::Memory, all, obj);
    let h_bob = cap_grant(
        &mut ids,
        &mut alice,
        h_alice,
        99,
        &mut bob,
        CapRights(CapRights::READ),
    )
        .unwrap();
    let mut space = CapSpace {
        tasks: vec![
            TaskCaps { task_id: 1, table: alice },
            TaskCaps { task_id: 99, table: bob },
        ],
    };
    assert_eq!(cap_cascade_revoke(&mut space, 1, h_alice), Ok(()));
    assert!(space.tasks[0].table.get(h_alice).is_err());
    assert!(space.tasks[1].table.get(h_bob).is_err());
}

#[test]
fn tasks_take_turns() {
    let mut s = Scheduler::new();
    let b = s.spawn_kernel_task(0xFFFF_C000_0000_0000, 0x5000);
    assert_eq!(b, 1);
    for _ in 0..3 {
        assert_eq!(s.yield_task().switch, Switch::To { from: 0, to: 1 });
        assert_eq!(s.current_task_id(), 1);
        assert_eq!(s.yield_task().switch, Switch::To { from: 1, to: 0 });
        assert_eq!(s.current_task_id(), 0);
    }
    s.yield_task();
    assert_eq!(s.task_exit(exit_status_normal(0)), Switch::To { from: 1, to: 0 });
    let step = s.yield_task();
    assert_eq!(step.reaped.len(), 1);
    assert_eq!(step.reaped[0].id, b);
    assert!(!s.task_exists(b));
}

#[test]
fn a_call_without_a_capability_is_refused() {
    let mut k = kernel();
    assert_eq!(
        answer(&mut k, syscall::SYS_CAP_GRANT, [0xDEAD_BEEF_0000_0000, 99, 0xFF, 0]),
        syscall::ENOCAP
    );
}

#[test]
fn devices_are_gated_before_arguments() {
    let mut k = kernel();
    for nr in [
        syscall::SYS_DEV_MMIO_MAP,
        syscall::SYS_DEV_DMA_ALLOC,
        syscall::SYS_DEV_IRQ_WAIT,
        syscall::SYS_DEV_CFG_READ,
    ] {
        assert_eq!(
            answer(&mut k, nr, [0xDEAD_BEEF_0000_0000, 0xFFFF_FFFF, 0xFFFF_FFFF, 0]),
            syscall::ENOPERM
        );
    }
    assert_eq!(answer(&mut k, syscall::SYS_DEV_CLAIM, [0x1000, 4, 0, 0]), syscall::ENOPERM);
}

#[test]
fn grants_and_revokes_through_calls() {
    let mut k = kernel();
    let h = k
        .mint(
            KernelObject::Memory { base_pa: 0xA000, frame_count: 1 },
            CapKind::Memory,
            CapRights(CapRights::ALL),
        )
        .unwrap();
    let read = CapRights::READ as u64;
    assert_eq!(answer(&mut k, syscall::SYS_CAP_GRANT, [h, 0, read, 0]), syscall::EINVAL);
    assert_eq!(answer(&mut k, syscall::SYS_CAP_GRANT, [h, 9999, read, 0]), syscall::EINVAL);
    assert_eq!(answer(&mut k, syscall::SYS_CAP_REVOKE, [h, 0, 0, 0]), 0);
    assert!(k.current_table().get(CapHandle(h)).is_err());
}

#[test]
fn bad_calls_are_rejected() {
    let mut k = kernel();
    for nr in [syscall::SYSCALL_MAX + 1, syscall::SYSCALL_MAX + 100, u64::MAX] {
        assert_eq!(answer(&mut k, nr, [0, 0, 0, 0]), syscall::ENOSYS);
    }
    for va in [
        0x0000_0007_0000_0001u64,
        0x0000_0000_0010_0000,
        0x0000_0000_3FFF_F000,
        0xFFFF_C000_0000_0000,
    ] {
        assert_eq!(answer(&mut k, syscall::SYS_MMAP, [va, 0, 0, 0]), syscall::EINVAL);
    }
    for va in [
        0x0000_0007_0000_0FFFu64,
        0x0000_0000_1000_0000,
        0xFFFF_D000_0000_0000,
        0x0000_0007_0000_0000,
    ] {
        assert_eq!(answer(&mut k, syscall::SYS_MUNMAP, [va, 0, 0, 0]), syscall::EINVAL);
    }
    for nr in [
        syscall::SYS_IPC_SEND,
        syscall::SYS_IPC_RECV,
        syscall::SYS_IPC_SEND_CAP,
        syscall::SYS_IPC_RECV_CAP,
    ] {
        assert_eq!(answer(&mut k, nr, [0, 0, 64, 0]), syscall::EINVAL);
    }
    assert_eq!(
        answer(
            &mut k,
            syscall::SYS_IPC_RECV_CAP,
            [0, 0x0000_0007_0000_0000, 64, 0xFFFF_8000_0000_0000]
        ),
        syscall::EINVAL
    );
    assert_eq!(answer(&mut k, syscall::SYS_EXEC, [0, 128, 0, 0]), syscall::EINVAL);
    assert_eq!(answer(&mut k, syscall::SYS_EXEC, [1, u64::MAX, 0, 0]), syscall::EINVAL);
    assert_eq!(answer(&mut k, syscall::SYS_LOG, [0, 10, 0, 0]), syscall::EINVAL);
    assert_eq!(answer(&mut k, syscall::SYS_LOG, [0xFFFF_8000_0000_0000, 4, 0, 0]), syscall::EINVAL);
    assert_eq!(
        answer(&mut k, syscall::SYS_LOG, [0x0000_0007_0000_0000, 0x1001, 0, 0]),
        syscall::EINVAL
    );
    assert_eq!(answer(&mut k, syscall::SYS_SERIAL_READ, [0, 16, 0, 0]), syscall::EINVAL);
    assert_eq!(
        answer(&mut k, syscall::SYS_SERIAL_READ, [0xFFFF_8000_0000_0000, 16, 0, 0]),
        syscall::EINVAL
    );
    assert_eq!(
        answer(&mut k, syscall::SYS_CAP_GRANT, [0xDEAD_BEEF_DEAD_BEEF, 99, 0xFF, 0]),
        syscall::ENOCAP
    );
    assert_eq!(answer(&mut k, syscall::SYS_CAP_REVOKE, [u64::MAX, 0, 0, 0]), syscall::ENOCAP);
    assert!(answer(&mut k, syscall::SYS_TIME, [0, 0, 0, 0]) < syscall::EINVAL);
    assert_eq!(answer(&mut k, syscall::SYS_TASK_STATUS, [0xDEAD_BEEF_DEAD_BEEF, 0, 0, 0]), 0);
    assert_eq!(answer(&mut k, syscall::SYS_TASK_STATUS, [0, 0, 0, 0]), 1);
}

#[test]
fn mounting_is_gated_before_arguments() {
    let mut k = kernel();
    assert_eq!(answer(&mut k, syscall::SYS_MOUNT, [0, 0, 0, 0]) as i64, -3);
    k.mint(KernelObject::Filesystem, CapKind::Filesystem, CapRights(CapRights::ALL)).unwrap();
    assert_eq!(answer(&mut k, syscall::SYS_MOUNT, [0, 0, 0, 0]) as i64, -4);
}

#[test]
fn frames_beyond_the_direct_map_are_refused() {
    assert!(vfs::frame_in_direct_map(0));
    assert!(vfs::frame_in_direct_map(vfs::IDENTITY_MAP_LIMIT - 4096));
    assert!(!vfs::frame_in_direct_map(vfs::IDENTITY_MAP_LIMIT));
    assert!(!vfs::frame_in_direct_map(vfs::IDENTITY_MAP_LIMIT + 4096));
    assert!(!vfs::frame_in_direct_map(u64::MAX - 4095));
    assert!(!vfs::frame_in_direct_map(0x1234));
}

fn spawn(s: &mut Scheduler) -> TaskId {
    s.spawn_kernel_task(0xFFFF_C000_0000_0000, 0x5000)
}

/// Run the child to its end and come back to the bootstrap task.
fn run_to_exit(s: &mut Scheduler, child: TaskId, code: u32) {
    s.yield_task();
    assert_eq!(s.current_task_id(), child);
    s.task_exit(exit_status_normal(code));
    assert_eq!(s.current_task_id(), 0);
    s.yield_task();
    assert_eq!(s.task_status_raw(child), 0);
}

fn waited(s: &mut Scheduler, id: TaskId) -> u64 {
    match s.wait_for_task(id) {
        Wait::Done(status) => status,
        Wait::Blocked(_) => panic!("task {} is still there", id),
    }
}

#[test]
fn exit_codes_reach_the_waiter() {
    let mut s = Scheduler::new();
    // The waiter comes first, and is woken by the exit.
    for code in [0u32, 42] {
        let child = spawn(&mut s);
        assert!(matches!(s.wait_for_task(child), Wait::Blocked(_)));
        assert_eq!(s.current_task_id(), child);
        s.task_exit(exit_status_normal(code));
        assert_eq!(s.current_task_id(), 0);
        assert_eq!(waited(&mut s, child), code as u64);
    }
    // The child is gone before it is waited for; a second wait finds nothing.
    let child = spawn(&mut s);
    run_to_exit(&mut s, child, 42);
    assert_eq!(waited(&mut s, child), 42);
    assert_eq!(waited(&mut s, child), syscall::ENOENT);
    assert_eq!(waited(&mut s, 0xDEAD_BEEF), syscall::ENOENT);
}

#[test]
fn exit_records_are_not_evicted() {
    let mut s = Scheduler::new();
    let mut ids: Vec<TaskId> = Vec::new();
    for _ in 0..80 {
        let child = spawn(&mut s);
        run_to_exit(&mut s, child, 42);
        ids.push(child);
    }
    for id in ids {
        assert_eq!(waited(&mut s, id), 42);
    }
}

#[test]
fn records_die_with_the_spawner() {
    let mut s = Scheduler::new();
    let parent = spawn(&mut s);
    s.yield_task();
    assert_eq!(s.current_task_id(), parent);
    let child = spawn(&mut s);
    assert_eq!(child, parent + 1);
    s.yield_task();
    while s.current_task_id() != child {
        s.yield_task();
    }
    s.task_exit(exit_status_normal(42));
    while s.current_task_id() != parent {
        s.yield_task();
    }
    s.task_exit(exit_status_normal(7));
    while s.task_status_raw(parent) != 0 {
        s.yield_task();
    }
    assert_eq!(waited(&mut s, child), syscall::ENOENT);
    assert_eq!(waited(&mut s, parent), 7);
}

#[test]
fn the_kernel_starts_with_one_task_and_nothing_else() {
    let k = kernel();
    assert_eq!(k.sched.tasks.len(), 1);
    assert_eq!(k.sched.next_id, 1);
    assert_eq!(k.sched.current_task_name(), b"kmain".to_vec());
    assert_eq!(k.sched.tasks[0].priority, 1);
    assert!(k.sched.waiters.iter().all(|w| w.is_none()));
    assert!(k.sched.sleepers.iter().all(|s| s.is_none()));
    assert!(k.sched.exits.is_empty());
    assert_eq!((k.ids.next, k.ticks), (1, 0));
    assert!(k.in_transit.is_none());
}
