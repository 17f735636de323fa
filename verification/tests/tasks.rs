//! Scheduling, waiting, sleeping and what tasks own.

use lythos::cap::{
    create_root_cap, CapHandle, CapIds, CapKind, CapRights, CapabilityTable, KernelObjectRef,
};
use lythos::task;
use lythos::task::{
    canary_intact, exit_status_abnormal, exit_status_normal, initial_frame, make_name, plan_stack,
    ExitRecord, Scheduler, Switch, TaskState, Wait, ENOENT,
};

const BASE: u64 = 0xFFFF_C000_0000_0010;

fn with_tasks(n: usize) -> Scheduler {
    let mut s = Scheduler::new();
    for _ in 0..n {
        s.spawn_kernel_task(BASE, 0x9000);
    }
    s
}

#[test]
fn the_bootstrap_task_is_first() {
    let s = Scheduler::new();
    assert_eq!(s.current_task_id(), 0);
    assert_eq!(s.current_task_name(), b"kmain".to_vec());
    assert_eq!(s.current_kernel_stack_top(), 0);
    assert_eq!(s.current_page_table(), None);
    assert_eq!(s.task_status_raw(0), 1);
}

#[test]
fn a_stack_is_laid_out_above_its_guard() {
    let p = plan_stack(BASE);
    assert_eq!(p.guard_va, 0xFFFF_C000_0000_1000);
    assert_eq!(p.stack_top, p.guard_va + task::PAGE + task::KERNEL_STACK_SIZE);
    assert_eq!(p.initial_rsp, p.stack_top - 64);
    assert_eq!(initial_frame(0x1234), [0, 0, 0, 0, 0, 0, 0x1234, 0]);
    assert!(canary_intact(None, 0));
    assert!(canary_intact(Some((1, 2)), task::STACK_CANARY));
    assert!(!canary_intact(Some((1, 2)), task::STACK_CANARY + 1));
    let s = with_tasks(1);
    assert_eq!(s.tasks[1].context.rsp, p.initial_rsp);
    assert_eq!(s.tasks[1].guard_page, Some((p.guard_va, 0x9000)));
    assert_eq!(&s.tasks[1].name[..8], b"kthread\0");
}

#[test]
fn names_are_cut_to_their_field() {
    assert_eq!(&make_name(b"init"), b"init\0\0\0\0\0\0\0\0\0\0\0\0");
    assert_eq!(&make_name(b"a-rather-long-name")[..15], b"a-rather-long-n");
}

#[test]
fn the_highest_priority_runs_first() {
    let mut s = with_tasks(3);
    assert_eq!(s.find_next_ready(1), Some(1));
    assert!(s.set_task_priority(3, 2));
    assert!(s.set_task_priority(1, 0));
    assert!(!s.set_task_priority(2, 3));
    assert!(!s.set_task_priority(9, 1));
    assert_eq!(s.find_next_ready(1), Some(3));
    s.tasks[3].state = TaskState::Blocked;
    assert_eq!(s.find_next_ready(1), Some(2));
    s.tasks[2].state = TaskState::Blocked;
    assert_eq!(s.find_next_ready(2), Some(1));
    s.tasks[1].state = TaskState::Blocked;
    assert_eq!(s.find_next_ready(0), None);
}

#[test]
fn turns_go_round_among_equals() {
    let mut s = with_tasks(2);
    let mut order: Vec<u64> = Vec::new();
    for _ in 0..6 {
        s.yield_task();
        order.push(s.current_task_id());
    }
    assert_eq!(order, vec![1, 2, 0, 1, 2, 0]);
    let mut alone = Scheduler::new();
    assert_eq!(alone.yield_task().switch, Switch::Stay);
}

#[test]
fn blocking_and_waking() {
    let mut s = with_tasks(1);
    assert_eq!(s.block_and_yield().switch, Switch::To { from: 0, to: 1 });
    assert_eq!(s.tasks[0].state, TaskState::Blocked);
    assert_eq!(s.task_status_raw(0), 2);
    assert_eq!(s.yield_task().switch, Switch::Stay);
    s.wake_task(0);
    assert_eq!(s.tasks[0].state, TaskState::Ready);
    s.wake_task(1);
    assert_eq!(s.tasks[1].state, TaskState::Running);
    s.block_task(1);
    assert_eq!(s.tasks[1].state, TaskState::Running);
    s.block_task(0);
    assert_eq!(s.tasks[0].state, TaskState::Blocked);
    assert_eq!(s.block_and_yield().switch, Switch::Halt);
}

#[test]
fn the_dead_are_swept() {
    let mut s = with_tasks(3);
    s.tasks[1].state = TaskState::Dead;
    s.tasks[2].state = TaskState::Dead;
    s.yield_task();
    assert_eq!(s.current_task_id(), 3);
    assert_eq!(s.tasks.len(), 2);
    assert_eq!(s.current, 1);
    assert!(!s.task_exists(1) && !s.task_exists(2));
    assert_eq!(s.caps.tasks.len(), 2);
}

#[test]
fn killing_has_limits() {
    let mut s = with_tasks(2);
    assert!(!s.kill_task(0));
    assert!(!s.kill_task(77));
    s.yield_task();
    assert!(!s.kill_task(1));
    assert!(s.kill_task(2));
    assert!(!s.kill_task(2));
    assert_eq!(s.task_status_raw(2), 0);
}

#[test]
fn a_killed_task_wakes_its_waiter() {
    let mut s = with_tasks(2);
    assert!(matches!(s.wait_for_task(2), Wait::Blocked(_)));
    assert_eq!(s.current_task_id(), 1);
    assert_eq!(s.tasks[0].state, TaskState::Blocked);
    assert!(s.kill_task(2));
    assert_eq!(s.tasks[0].state, TaskState::Ready);
}

#[test]
fn sleepers_wake_on_time() {
    let mut s = with_tasks(1);
    assert_eq!(s.sleep_until(50).switch, Switch::To { from: 0, to: 1 });
    s.wake_sleepers(49);
    assert_eq!(s.tasks[0].state, TaskState::Blocked);
    s.wake_sleepers(50);
    assert_eq!(s.tasks[0].state, TaskState::Ready);
    assert!(s.sleepers.iter().all(|x| x.is_none()));
}

#[test]
fn mapped_ranges_do_not_overlap() {
    let mut s = Scheduler::new();
    assert!(s.vma_insert(0x5000_0000));
    assert!(s.vma_insert(0x4000_0000));
    assert!(!s.vma_insert(0x5000_0000));
    assert!(s.vma_insert(0x5000_1000));
    assert_eq!(
        s.tasks[0].vma_list,
        vec![
            (0x4000_0000, 0x4000_1000),
            (0x5000_0000, 0x5000_1000),
            (0x5000_1000, 0x5000_2000)
        ]
    );
    assert!(s.vma_remove(0x5000_0000));
    assert!(!s.vma_remove(0x5000_0000));
    assert!(s.vma_insert(0x5000_0000));
}

#[test]
fn a_userspace_task_inherits() {
    let mut s = Scheduler::new();
    let mut ids = CapIds::new();
    let mut table = CapabilityTable::new();
    let h = create_root_cap(&mut ids, &mut table, CapKind::Rollback, CapRights(15), KernelObjectRef(2));
    s.set_bootstrap_cap_table(table);
    s.set_current_task_owner(7, 8);
    let id = s.spawn_userspace_task(
        &mut ids,
        BASE,
        0x9000,
        0x1000_0000,
        0x2000_0000,
        &[CapHandle(55), h],
        0x7000,
        b"shell",
    );
    assert_eq!(id, 1);
    let t = &s.tasks[1];
    assert_eq!((t.entry_point, t.user_stack_top), (Some(0x1000_0000), Some(0x2000_0000)));
    assert_eq!((t.uid, t.gid), (7, 8));
    assert_eq!(t.page_table, Some(0x7000));
    let index = s.cap_table_index(id).unwrap();
    assert_eq!(s.cap_table_index(9), None);
    let got = s.caps.tasks[index].table.get(CapHandle(0)).unwrap();
    assert_eq!((got.kind, got.rights.0, got.object.0), (CapKind::Rollback, 15, 2));
    s.yield_task();
    assert_eq!(s.current_entry_and_stack(), (0x1000_0000, 0x2000_0000));
    assert_eq!(s.current_page_table(), Some(0x7000));
    assert_eq!(s.current_task_name(), b"shell".to_vec());
    assert_eq!(s.current_task_owner(), (7, 8));
    assert_eq!(s.current_task_brk(), 0);
    s.set_current_task_brk(0x123);
    assert_eq!(s.current_task_brk(), 0x123);
}

#[test]
fn live_tasks_are_listed() {
    let mut s = with_tasks(3);
    s.tasks[1].state = TaskState::Dead;
    s.tasks[2].state = TaskState::Blocked;
    s.tasks[3].page_table = Some(1);
    let l = s.for_each_task();
    let seen: Vec<(u64, u64, u8)> = l.iter().map(|t| (t.id, t.state, t.kind)).collect();
    assert_eq!(seen, vec![(0, 1, 0), (2, 3, 0), (3, 2, 1)]);
    let p = s.for_each_task_ps();
    assert_eq!(p.len(), 3);
    assert_eq!(p[0].1, 1);
    assert_eq!(&p[0].2[..6], b"kmain\0");
}

#[test]
fn statuses_are_encoded() {
    assert_eq!(exit_status_normal(0), 0);
    assert_eq!(exit_status_normal(42), 42);
    assert_eq!(exit_status_normal(0x1FF), 0xFF);
    // A fault is told apart from every end by itself.
    assert_eq!(exit_status_abnormal(0), 0x100);
    assert_eq!(exit_status_abnormal(14), 0x10E);
}

#[test]
fn the_last_task_halts_at_its_end() {
    let mut s = Scheduler::new();
    assert_eq!(s.task_exit(exit_status_normal(1)), Switch::Halt);
}

#[test]
fn a_kill_drops_the_statuses_of_its_children() {
    let mut s = with_tasks(2);
    s.exits.push(ExitRecord { id: 7, owner: 2, status: 5 });
    s.exits.push(ExitRecord { id: 8, owner: 1, status: 6 });
    assert!(s.kill_task(2));
    assert_eq!(s.exits.len(), 1);
    assert!(matches!(s.wait_for_task(7), Wait::Done(ENOENT)));
    assert!(matches!(s.wait_for_task(8), Wait::Done(6)));
}
