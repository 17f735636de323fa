//! Tasks and the scheduler's decisions: who runs next, who sleeps, who waits.
//!
//! The scheduler decides; switching the processor to the task it names is left
//! to the caller.

use vstd::prelude::*;
use crate::cap::{
    cap_inherit, inherited_cap, slot_lookup, slots_with, CapHandle, CapIds, CapSlots, CapSpace,
    CapabilityTable, Space, TaskCaps,
};
use crate::text::utf8_str;

verus! {

pub type TaskId = u64;

#[derive(Clone, Copy, Debug, PartialEq, Eq, Structural)]
pub enum TaskState {
    Running,
    Ready,
    /// Waiting on an event; not scheduled until woken.
    Blocked,
    /// Exited; freed by the next sweep.
    Dead,
}

/// Saved scheduler state: the rest of a task's registers lie on its stack.
#[derive(Clone, Copy, Debug, PartialEq, Eq, Structural)]
pub struct TaskContext {
    pub rsp: u64,
}

/// Bytes of a kernel stack.
pub const KERNEL_STACK_SIZE: u64 = 0x1_0000;

/// Bytes of a page.
pub const PAGE: u64 = 0x1000;

/// The word at the bottom of every kernel stack.
pub const STACK_CANARY: u64 = 0x5AFE_C0DE_DEAD_BEEF;

/// Tasks that can sleep at a time.
pub const MAX_SLEEPERS: usize = 64;

/// Tasks that can wait for another task's end at a time.
pub const MAX_WAITERS: usize = 32;

/// Bytes of a task's name, the final zero among them.
pub const NAME_LEN: usize = 16;

/// The highest scheduling priority.
pub const MAX_PRIORITY: u8 = 2;

/// No exit record and no live task under a number.
pub const ENOENT: u64 = 0xFFFF_FFFF_FFFF_FFFB;

pub struct Task {
    pub id: TaskId,
    pub state: TaskState,
    pub context: TaskContext,
    /// 0 is low, 1 is normal, 2 is high.
    pub priority: u8,
    pub name: [u8; 16],
    /// The task that started this one.
    pub spawner: TaskId,
    pub uid: u32,
    pub gid: u32,
    /// Top of the kernel stack; 0 for the bootstrap task.
    pub stack_top: u64,
    /// The guard page below the kernel stack: its address and its frame.
    pub guard_page: Option<(u64, u64)>,
    pub entry_point: Option<u64>,
    pub user_stack_top: Option<u64>,
    /// The task's own page table; `None` for a kernel task.
    pub page_table: Option<u64>,
    /// Mapped user ranges `[start, end)`, in order.
    pub vma_list: Vec<(u64, u64)>,
    /// Program break; 0 until it is first used.
    pub brk: u64,
}

/// A task as a mathematical value.
#[verifier::ext_equal]
pub struct TaskView {
    pub id: TaskId,
    pub state: TaskState,
    pub context: TaskContext,
    pub priority: u8,
    pub name: Seq<u8>,
    pub spawner: TaskId,
    pub uid: u32,
    pub gid: u32,
    pub stack_top: u64,
    pub guard_page: Option<(u64, u64)>,
    pub entry_point: Option<u64>,
    pub user_stack_top: Option<u64>,
    pub page_table: Option<u64>,
    pub vma_list: Seq<(u64, u64)>,
    pub brk: u64,
}

impl View for Task {
    type V = TaskView;

    open spec fn view(&self) -> TaskView {
        TaskView {
            id: self.id,
            state: self.state,
            context: self.context,
            priority: self.priority,
            name: self.name@,
            spawner: self.spawner,
            uid: self.uid,
            gid: self.gid,
            stack_top: self.stack_top,
            guard_page: self.guard_page,
            entry_point: self.entry_point,
            user_stack_top: self.user_stack_top,
            page_table: self.page_table,
            vma_list: self.vma_list@,
            brk: self.brk,
        }
    }
}

/// The status that a task left, kept until it is asked for or the task that
/// owns it ends.
#[derive(Clone, Copy, Debug, PartialEq, Eq, Structural)]
pub struct ExitRecord {
    pub id: TaskId,
    pub owner: TaskId,
    pub status: u64,
}

pub struct Scheduler {
    pub tasks: Vec<Task>,
    /// The tasks' capability tables, in the order of the tasks.
    pub caps: CapSpace,
    pub current: usize,
    pub next_id: TaskId,
    /// `(waiter, target)`.
    pub waiters: Vec<Option<(TaskId, TaskId)>>,
    /// `(task, wake tick)`.
    pub sleepers: Vec<Option<(TaskId, u64)>>,
    pub exits: Vec<ExitRecord>,
}

/// The scheduler's tasks.
pub type Tasks = Seq<TaskView>;

/// The scheduler as a mathematical value.
#[verifier::ext_equal]
pub struct SchedView {
    pub tasks: Tasks,
    pub caps: Space,
    pub current: int,
    pub next_id: TaskId,
    pub waiters: Seq<Option<(TaskId, TaskId)>>,
    pub sleepers: Seq<Option<(TaskId, u64)>>,
    pub exits: Seq<ExitRecord>,
}

impl View for Scheduler {
    type V = SchedView;

    open spec fn view(&self) -> SchedView {
        SchedView {
            tasks: Seq::new(self.tasks@.len(), |i: int| self.tasks@[i]@),
            caps: self.caps@,
            current: self.current as int,
            next_id: self.next_id,
            waiters: self.waiters@,
            sleepers: self.sleepers@,
            exits: self.exits@,
        }
    }
}

// ── Validity ─────────────────────────────────────────────────────────────────

/// Mapped ranges are in order and do not overlap.
pub open spec fn vmas_ok(l: Seq<(u64, u64)>) -> bool {
    &&& forall|i: int| 0 <= i < l.len() ==> (#[trigger] l[i]).0 < l[i].1
    &&& forall|i: int, j: int| 0 <= i < j < l.len() ==> (#[trigger] l[i]).1 <= (#[trigger] l[j]).0
}

/// No task but perhaps the current one runs; identities are distinct and below
/// the next one; every task has its capability table.
pub open spec fn shape_ok(s: SchedView) -> bool {
    &&& 0 <= s.current < s.tasks.len()
    &&& forall|i: int|
        0 <= i < s.tasks.len() && i != s.current ==> (#[trigger] s.tasks[i]).state
            != TaskState::Running
    &&& forall|i: int| 0 <= i < s.tasks.len() ==> (#[trigger] s.tasks[i]).id < s.next_id
    &&& forall|i: int| 0 <= i < s.tasks.len() ==> (#[trigger] s.tasks[i]).priority <= MAX_PRIORITY
    &&& forall|i: int, j: int|
        0 <= i < j < s.tasks.len() ==> (#[trigger] s.tasks[i]).id != (#[trigger] s.tasks[j]).id
    &&& forall|i: int| 0 <= i < s.tasks.len() ==> vmas_ok((#[trigger] s.tasks[i]).vma_list)
    &&& s.caps.len() == s.tasks.len()
    &&& forall|i: int| 0 <= i < s.tasks.len() ==> (#[trigger] s.caps[i]).0 == s.tasks[i].id
    &&& s.waiters.len() == MAX_WAITERS
    &&& s.sleepers.len() == MAX_SLEEPERS
}

/// The scheduler is in shape, and the current task runs.
pub open spec fn sched_ok(s: SchedView) -> bool {
    shape_ok(s) && s.tasks[s.current].state == TaskState::Running
}

impl Scheduler {
    pub open spec fn wf(&self) -> bool {
        sched_ok(self@)
    }
}

/// The tasks with task `i` in another state.
pub open spec fn with_state(tasks: Tasks, i: int, state: TaskState) -> Tasks {
    tasks.update(i, TaskView { state, ..tasks[i] })
}

/// The first task from `i` on with this identity, or the length.
pub open spec fn find_task(tasks: Tasks, id: TaskId, i: int) -> int
    decreases tasks.len() - i,
{
    if i >= tasks.len() {
        tasks.len() as int
    } else if tasks[i].id == id {
        i
    } else {
        find_task(tasks, id, i + 1)
    }
}

/// The task with this identity made ready, where it is blocked.
pub open spec fn woken(tasks: Tasks, id: TaskId) -> Tasks {
    let i = find_task(tasks, id, 0);
    if i < tasks.len() && tasks[i].state == TaskState::Blocked {
        with_state(tasks, i, TaskState::Ready)
    } else {
        tasks
    }
}

impl Scheduler {
    fn find(&self, id: TaskId) -> (r: Option<usize>)
        ensures
            match r {
                Some(i) => i == find_task(self@.tasks, id, 0) && i < self.tasks@.len()
                    && self.tasks@[i as int].id == id,
                None => find_task(self@.tasks, id, 0) == self.tasks@.len(),
            },
    {
        let mut i: usize = 0;
        while i < self.tasks.len()
            invariant
                i <= self.tasks@.len(),
                find_task(self@.tasks, id, 0) == find_task(self@.tasks, id, i as int),
            decreases self.tasks@.len() - i,
        {
            assert(self@.tasks[i as int] == self.tasks@[i as int]@);
            if self.tasks[i].id == id {
                return Some(i);
            }
            i += 1;
        }
        None
    }

    fn set_state(&mut self, i: usize, state: TaskState)
        requires
            i < old(self).tasks@.len(),
        ensures
            final(self)@ == (SchedView {
                tasks: with_state(old(self)@.tasks, i as int, state),
                ..old(self)@
            }),
            final(self).tasks@.len() == old(self).tasks@.len(),
    {
        self.tasks[i].state = state;
        assert(self@.tasks =~= with_state(old(self)@.tasks, i as int, state));
    }

    /// Make a blocked task eligible to run again.
    pub fn wake_task(&mut self, id: TaskId)
        ensures
            final(self)@ == (SchedView { tasks: woken(old(self)@.tasks, id), ..old(self)@ }),
    {
        if let Some(i) = self.find(id) {
            assert(self@.tasks[i as int] == self.tasks@[i as int]@);
            if self.tasks[i].state == TaskState::Blocked {
                self.set_state(i, TaskState::Ready);
            }
        }
    }

    /// Block a ready task until it is woken.
    pub fn block_task(&mut self, id: TaskId)
        ensures
            ({
                let i = find_task(old(self)@.tasks, id, 0);
                final(self)@ == if i < old(self)@.tasks.len() && old(self)@.tasks[i].state
                    == TaskState::Ready {
                    SchedView {
                        tasks: with_state(old(self)@.tasks, i, TaskState::Blocked),
                        ..old(self)@
                    }
                } else {
                    old(self)@
                }
            }),
    {
        if let Some(i) = self.find(id) {
            assert(self@.tasks[i as int] == self.tasks@[i as int]@);
            if self.tasks[i].state == TaskState::Ready {
                self.set_state(i, TaskState::Blocked);
            }
        }
    }
}

// ── Choosing the next task ───────────────────────────────────────────────────

/// Task `i` is ready at this priority.
pub open spec fn ready_at(tasks: Tasks, i: int, priority: u8) -> bool {
    tasks[i].state == TaskState::Ready && tasks[i].priority == priority
}

/// `i` is the task to run when the search starts at `start`: ready, of the
/// highest priority that a ready task has, and of those the first from `start`
/// on, round the queue.
pub open spec fn is_next(tasks: Tasks, start: int, i: int) -> bool {
    &&& 0 <= i < tasks.len()
    &&& tasks[i].state == TaskState::Ready
    &&& forall|j: int|
        0 <= j < tasks.len() && (#[trigger] tasks[j]).state == TaskState::Ready && tasks[j].priority
            <= MAX_PRIORITY ==> tasks[j].priority <= tasks[i].priority
    &&& tasks[i].priority <= MAX_PRIORITY
    &&& forall|j: int|
        0 <= j < tasks.len() && turn(tasks, start, j) < turn(tasks, start, i)
            ==> !(#[trigger] ready_at(tasks, j, tasks[i].priority))
}

/// How many steps round the queue lie between `start` and `i`.
pub open spec fn turn(tasks: Tasks, start: int, i: int) -> int {
    if i >= start {
        i - start
    } else {
        i - start + tasks.len()
    }
}

/// No task is ready at any priority.
pub open spec fn none_ready(tasks: Tasks) -> bool {
    forall|j: int|
        0 <= j < tasks.len() && (#[trigger] tasks[j]).priority <= MAX_PRIORITY ==> tasks[j].state
            != TaskState::Ready
}

impl Scheduler {
    /// The first ready task of this priority from `start` on, round the queue.
    fn scan(&self, start: usize, priority: u8) -> (r: Option<usize>)
        requires
            start < self.tasks@.len(),
        ensures
            match r {
                Some(i) => i < self.tasks@.len() && ready_at(self@.tasks, i as int, priority)
                    && forall|j: int|
                    0 <= j < self.tasks@.len() && turn(self@.tasks, start as int, j) < turn(
                        self@.tasks,
                        start as int,
                        i as int,
                    ) ==> !(#[trigger] ready_at(self@.tasks, j, priority)),
                None => forall|j: int|
                    0 <= j < self.tasks@.len() ==> !(#[trigger] ready_at(
                        self@.tasks,
                        j,
                        priority,
                    )),
            },
    {
        let n: usize = self.tasks.len();
        let mut i: usize = start;
        let mut checked: usize = 0;
        while checked < n
            invariant
                n == self.tasks@.len(),
                start < n,
                i < n,
                checked <= n,
                checked < n ==> turn(self@.tasks, start as int, i as int) == checked,
                forall|j: int|
                    0 <= j < n && turn(self@.tasks, start as int, j) < checked ==> !(
                    #[trigger] ready_at(self@.tasks, j, priority)),
            decreases n - checked,
        {
            assert(self@.tasks[i as int] == self.tasks@[i as int]@);
            if self.tasks[i].state == TaskState::Ready && self.tasks[i].priority == priority {
                return Some(i);
            }
            i = if i + 1 < n {
                i + 1
            } else {
                0
            };
            checked += 1;
        }
        None
    }

    /// The ready task to run next, searching from `start` on: higher priorities
    /// first, in turn within a priority.
    pub fn find_next_ready(&self, start: usize) -> (r: Option<usize>)
        requires
            start < self.tasks@.len(),
        ensures
            match r {
                Some(i) => is_next(self@.tasks, start as int, i as int),
                None => none_ready(self@.tasks),
            },
    {
        let mut left: u8 = MAX_PRIORITY + 1;
        while left > 0
            invariant
                left <= MAX_PRIORITY + 1,
                start < self.tasks@.len(),
                forall|j: int, p: u8|
                    0 <= j < self.tasks@.len() && left <= p <= MAX_PRIORITY ==> !(
                    #[trigger] ready_at(self@.tasks, j, p)),
            decreases left,
        {
            left -= 1;
            if let Some(i) = self.scan(start, left) {
                proof {
                    let tasks = self@.tasks;
                    assert forall|j: int|
                        0 <= j < tasks.len() && (#[trigger] tasks[j]).state == TaskState::Ready
                            && tasks[j].priority <= MAX_PRIORITY implies tasks[j].priority
                        <= tasks[i as int].priority by {
                        assert(ready_at(tasks, j, tasks[j].priority));
                    }
                }
                return Some(i);
            }
        }
        proof {
            let tasks = self@.tasks;
            assert forall|j: int|
                0 <= j < tasks.len() && (#[trigger] tasks[j]).priority
                    <= MAX_PRIORITY implies tasks[j].state != TaskState::Ready by {
                assert(!ready_at(tasks, j, tasks[j].priority));
            }
        }
        None
    }
}

/// There is only one task to run next.
pub proof fn law_next_is_unique(tasks: Tasks, start: int, i: int, j: int)
    requires
        0 <= start < tasks.len(),
        is_next(tasks, start, i),
        is_next(tasks, start, j),
    ensures
        i == j,
{
    assert(ready_at(tasks, i, tasks[j].priority));
    assert(ready_at(tasks, j, tasks[i].priority));
}

// ── Sweeping ─────────────────────────────────────────────────────────────────

/// The tasks that are not dead, in order.
pub open spec fn live(tasks: Tasks) -> Tasks
    decreases tasks.len(),
{
    if tasks.len() == 0 {
        seq![]
    } else if tasks.last().state == TaskState::Dead {
        live(tasks.drop_last())
    } else {
        live(tasks.drop_last()).push(tasks.last())
    }
}

/// The tasks that are dead, in order.
pub open spec fn dead(tasks: Tasks) -> Tasks
    decreases tasks.len(),
{
    if tasks.len() == 0 {
        seq![]
    } else if tasks.last().state == TaskState::Dead {
        dead(tasks.drop_last()).push(tasks.last())
    } else {
        dead(tasks.drop_last())
    }
}

/// The capability tables of the tasks that are not dead.
pub open spec fn live_tables(tasks: Tasks, caps: Space) -> Space
    decreases tasks.len(),
{
    if tasks.len() == 0 {
        seq![]
    } else if tasks.last().state == TaskState::Dead {
        live_tables(tasks.drop_last(), caps.drop_last())
    } else {
        live_tables(tasks.drop_last(), caps.drop_last()).push(caps.last())
    }
}

/// The scheduler without its dead tasks; the current task stays the same.
pub open spec fn swept(s: SchedView) -> SchedView {
    SchedView {
        tasks: live(s.tasks),
        caps: live_tables(s.tasks, s.caps),
        current: live(s.tasks.take(s.current)).len() as int,
        ..s
    }
}

/// The scheduler without task `i`.
spec fn removed_at(s: SchedView, i: int) -> SchedView {
    SchedView {
        tasks: s.tasks.remove(i),
        caps: s.caps.remove(i),
        current: if i < s.current {
            s.current - 1
        } else {
            s.current
        },
        ..s
    }
}

proof fn lemma_remove_ok(s: SchedView, i: int)
    requires
        sched_ok(s),
        0 <= i < s.tasks.len(),
        s.tasks[i].state == TaskState::Dead,
    ensures
        sched_ok(removed_at(s, i)),
{
    let r = removed_at(s, i);
    assert forall|k: int| 0 <= k < r.tasks.len() implies #[trigger] r.tasks[k] == s.tasks[if k < i {
        k
    } else {
        k + 1
    }] && r.caps[k] == s.caps[if k < i {
        k
    } else {
        k + 1
    }] by {}
    assert forall|a: int, b: int| 0 <= a < b < r.tasks.len() implies (#[trigger] r.tasks[a]).id != (
    #[trigger] r.tasks[b]).id by {
        let x = if a < i {
            a
        } else {
            a + 1
        };
        let y = if b < i {
            b
        } else {
            b + 1
        };
        assert(s.tasks[x].id != s.tasks[y].id);
    }
    assert forall|k: int| 0 <= k < r.tasks.len() && k != r.current implies (#[trigger] r.tasks[k]).state
        != TaskState::Running by {
        let x = if k < i {
            k
        } else {
            k + 1
        };
        assert(s.tasks[x].state != TaskState::Running);
    }
}

proof fn lemma_live_grows(tasks: Tasks, a: int, b: int)
    requires
        0 <= a <= b <= tasks.len(),
    ensures
        live(tasks.take(a)).len() <= live(tasks.take(b)).len(),
    decreases b - a,
{
    if a < b {
        lemma_live_grows(tasks, a, b - 1);
        assert(tasks.take(b).drop_last() =~= tasks.take(b - 1));
    }
}

impl Scheduler {
    /// Remove all dead tasks. They are handed back so that the caller can free
    /// their page tables and stacks.
    #[verifier::rlimit(80)]
    #[verifier::spinoff_prover]
    pub fn sweep_dead(&mut self) -> (reaped: Vec<Task>)
        requires
            old(self).wf(),
        ensures
            final(self).wf(),
            final(self)@ == swept(old(self)@),
            Seq::new(reaped@.len(), |i: int| reaped@[i]@) == dead(old(self)@.tasks),
    {
        let ghost s0 = self@;
        let ghost all = self@.tasks;
        let ghost tables = self@.caps;
        let ghost mut k: int = 0;
        let mut reaped: Vec<Task> = Vec::new();
        let mut i: usize = 0;
        proof {
            assert(all.take(0) =~= Seq::<TaskView>::empty());
            assert(tables.take(0) =~= Seq::<(u64, crate::cap::CapSlots)>::empty());
            assert(all.skip(0) =~= all);
            assert(tables.skip(0) =~= tables);
            assert(live(all.take(0)) + all.skip(0) =~= all);
            assert(live_tables(all.take(0), tables.take(0)) + tables.skip(0) =~= tables);
        }
        while i < self.tasks.len()
            invariant
                sched_ok(s0),
                s0 == old(self)@,
                all == s0.tasks,
                tables == s0.caps,
                self.wf(),
                0 <= k <= all.len(),
                i == live(all.take(k)).len(),
                i <= self.tasks@.len(),
                self@.tasks == live(all.take(k)) + all.skip(k),
                self@.caps == live_tables(all.take(k), tables.take(k)) + tables.skip(k),
                live_tables(all.take(k), tables.take(k)).len() == i,
                self@ == (SchedView {
                    tasks: self@.tasks,
                    caps: self@.caps,
                    current: self@.current,
                    ..s0
                }),
                self@.current == if k <= s0.current {
                    i + (s0.current - k)
                } else {
                    live(all.take(s0.current)).len() as int
                },
                Seq::new(reaped@.len(), |j: int| reaped@[j]@) == dead(all.take(k)),
            decreases self.tasks@.len() - i,
        {
            assert(self@.tasks[i as int] == self.tasks@[i as int]@);
            assert(self@.tasks[i as int] == all[k]);
            proof {
                assert(all.take(k + 1).drop_last() =~= all.take(k));
                assert(tables.take(k + 1).drop_last() =~= tables.take(k));
                assert(all.take(k + 1).last() == all[k]);
                assert(tables.take(k + 1).last() == tables[k]);
                assert(all.skip(k) =~= seq![all[k]] + all.skip(k + 1));
                assert(tables.skip(k) =~= seq![tables[k]] + tables.skip(k + 1));
            }
            let ghost before = self@;
            if self.tasks[i].state == TaskState::Dead {
                proof {
                    lemma_remove_ok(self@, i as int);
                    if k > s0.current {
                        lemma_live_grows(all, s0.current + 1, k);
                        assert(all.take(s0.current + 1).drop_last() =~= all.take(s0.current));
                    }
                }
                let ghost done = Seq::new(reaped@.len(), |j: int| reaped@[j]@);
                let t = self.tasks.remove(i);
                let _table = self.caps.tasks.remove(i);
                let ghost tv = t@;
                reaped.push(t);
                if i < self.current {
                    self.current = self.current - 1;
                }
                proof {
                    assert(self@.tasks =~= before.tasks.remove(i as int));
                    assert(self@.caps =~= before.caps.remove(i as int));
                    assert(self@ == removed_at(before, i as int));
                    k = k + 1;
                    assert(self@.tasks =~= live(all.take(k)) + all.skip(k));
                    assert(self@.caps =~= live_tables(all.take(k), tables.take(k)) + tables.skip(k));
                    assert(Seq::new(reaped@.len(), |j: int| reaped@[j]@) =~= done.push(tv));
                }
            } else {
                i += 1;
                proof {
                    k = k + 1;
                    assert(self@.tasks =~= live(all.take(k)) + all.skip(k));
                    assert(self@.caps =~= live_tables(all.take(k), tables.take(k)) + tables.skip(k));
                }
            }
        }
        proof {
            assert(all.skip(k).len() == 0);
            assert(all.take(k) =~= all);
            assert(tables.take(k) =~= tables);
            assert(self@.tasks =~= live(all));
            assert(self@.caps =~= live_tables(all, tables));
        }
        reaped
    }
}

// ── Switching ────────────────────────────────────────────────────────────────

/// What the processor is to do next.
#[derive(Clone, Copy, Debug, PartialEq, Eq, Structural)]
pub enum Switch {
    /// Go on with the current task.
    Stay,
    /// Save the task in slot `from` and continue the one in slot `to`.
    To { from: usize, to: usize },
    /// No task can run: halt.
    Halt,
}

/// A scheduling step: the tasks to free and the switch to make.
pub struct Step {
    pub reaped: Vec<Task>,
    pub switch: Switch,
}

/// The slot after the current one, round the queue.
pub open spec fn after_current(s: SchedView) -> int {
    if s.current + 1 < s.tasks.len() {
        s.current + 1
    } else {
        0
    }
}

/// Task `to` runs, and the one that ran is left in `state`.
pub open spec fn switched(s: SchedView, state: TaskState, to: int) -> SchedView {
    SchedView {
        tasks: with_state(with_state(s.tasks, s.current, state), to, TaskState::Running),
        current: to,
        ..s
    }
}

/// The current task in another state.
pub open spec fn current_in(s: SchedView, state: TaskState) -> SchedView {
    SchedView { tasks: with_state(s.tasks, s.current, state), ..s }
}

proof fn lemma_switched_ok(s: SchedView, state: TaskState, to: int)
    requires
        shape_ok(s),
        state != TaskState::Running,
        0 <= to < s.tasks.len(),
    ensures
        sched_ok(switched(s, state, to)),
{
    let r = switched(s, state, to);
    assert forall|i: int, j: int| 0 <= i < j < r.tasks.len() implies (#[trigger] r.tasks[i]).id != (
    #[trigger] r.tasks[j]).id by {
        assert(s.tasks[i].id != s.tasks[j].id);
    }
}

proof fn lemma_state_shape(s: SchedView, i: int, state: TaskState)
    requires
        shape_ok(s),
        0 <= i < s.tasks.len(),
        state != TaskState::Running || i == s.current,
    ensures
        shape_ok(SchedView { tasks: with_state(s.tasks, i, state), ..s }),
{
    let r = SchedView { tasks: with_state(s.tasks, i, state), ..s };
    assert forall|a: int, b: int| 0 <= a < b < r.tasks.len() implies (#[trigger] r.tasks[a]).id != (
    #[trigger] r.tasks[b]).id by {
        assert(s.tasks[a].id != s.tasks[b].id);
    }
}

/// Waking a task keeps the scheduler's shape.
pub proof fn lemma_woken_shape(s: SchedView, id: TaskId)
    requires
        shape_ok(s),
    ensures
        shape_ok(SchedView { tasks: woken(s.tasks, id), ..s }),
        woken(s.tasks, id).len() == s.tasks.len(),
        s.tasks[s.current].state != TaskState::Blocked ==> woken(s.tasks, id)[s.current]
            == s.tasks[s.current],
{
    lemma_find_task(s.tasks, id, 0);
    let i = find_task(s.tasks, id, 0);
    if i < s.tasks.len() && s.tasks[i].state == TaskState::Blocked {
        lemma_state_shape(s, i, TaskState::Ready);
    }
}

/// A task that is found has the identity.
pub proof fn lemma_find_task(tasks: Tasks, id: TaskId, i: int)
    requires
        0 <= i <= tasks.len(),
    ensures
        i <= find_task(tasks, id, i) <= tasks.len(),
        find_task(tasks, id, i) < tasks.len() ==> tasks[find_task(tasks, id, i)].id == id,
        forall|k: int| i <= k < find_task(tasks, id, i) ==> (#[trigger] tasks[k]).id != id,
    decreases tasks.len() - i,
{
    if i < tasks.len() && tasks[i].id != id {
        lemma_find_task(tasks, id, i + 1);
    }
}

impl Scheduler {
    fn slot_after(&self) -> (r: usize)
        requires
            self.current < self.tasks@.len(),
        ensures
            r == after_current(self@),
            r < self.tasks@.len(),
    {
        if self.current < self.tasks.len() - 1 {
            self.current + 1
        } else {
            0
        }
    }

    /// Let another task run: the current one stays ready. Dead tasks are swept
    /// first. Nothing is switched where no other task is ready.
    pub fn yield_task(&mut self) -> (step: Step)
        requires
            old(self).wf(),
        ensures
            final(self).wf(),
            Seq::new(step.reaped@.len(), |i: int| step.reaped@[i]@) == dead(old(self)@.tasks),
            ({
                let s = swept(old(self)@);
                match step.switch {
                    Switch::To { from, to } => from == s.current && is_next(
                        s.tasks,
                        after_current(s),
                        to as int,
                    ) && final(self)@ == switched(s, TaskState::Ready, to as int),
                    Switch::Stay => none_ready(s.tasks) && final(self)@ == s,
                    Switch::Halt => false,
                }
            }),
    {
        let reaped: Vec<Task> = self.sweep_dead();
        let ghost s = self@;
        let start: usize = self.slot_after();
        match self.find_next_ready(start) {
            Some(to) => {
                let from: usize = self.current;
                proof {
                    lemma_switched_ok(s, TaskState::Ready, to as int);
                }
                self.set_state(from, TaskState::Ready);
                self.set_state(to, TaskState::Running);
                self.current = to;
                Step { reaped, switch: Switch::To { from, to } }
            },
            None => Step { reaped, switch: Switch::Stay },
        }
    }

    /// Block the current task and let another run. Dead tasks are swept first.
    pub fn block_and_yield(&mut self) -> (step: Step)
        requires
            old(self).wf(),
        ensures
            Seq::new(step.reaped@.len(), |i: int| step.reaped@[i]@) == dead(old(self)@.tasks),
            ({
                let s = swept(old(self)@);
                let b = current_in(s, TaskState::Blocked);
                match step.switch {
                    Switch::To { from, to } => final(self).wf() && from == s.current && is_next(
                        b.tasks,
                        after_current(s),
                        to as int,
                    ) && final(self)@ == switched(s, TaskState::Blocked, to as int),
                    Switch::Halt => none_ready(b.tasks) && final(self)@ == b,
                    Switch::Stay => false,
                }
            }),
    {
        let reaped: Vec<Task> = self.sweep_dead();
        let ghost s = self@;
        let from: usize = self.current;
        self.set_state(from, TaskState::Blocked);
        let start: usize = self.slot_after();
        match self.find_next_ready(start) {
            Some(to) => {
                proof {
                    lemma_switched_ok(s, TaskState::Blocked, to as int);
                }
                self.set_state(to, TaskState::Running);
                self.current = to;
                Step { reaped, switch: Switch::To { from, to } }
            },
            None => Step { reaped, switch: Switch::Halt },
        }
    }
}

// ── Ending and waiting ───────────────────────────────────────────────────────

/// The status word of a task that ends by itself: the low 8 bits of its code.
pub fn exit_status_normal(code: u32) -> (status: u64)
    ensures
        status == code % 0x100,
{
    (code % 0x100) as u64
}

/// The status word of a task that is ended by a fault: the fault's vector, above
/// the words of tasks that end by themselves.
pub fn exit_status_abnormal(vector: u8) -> (status: u64)
    ensures
        status == 0x100 + vector,
        status < 0x1_0000,
{
    0x100 + vector as u64
}

/// Every task that waits for `target` woken, and its wait forgotten, from slot
/// `k` on.
pub open spec fn notified(
    tasks: Tasks,
    waiters: Seq<Option<(TaskId, TaskId)>>,
    target: TaskId,
    k: int,
) -> (Tasks, Seq<Option<(TaskId, TaskId)>>)
    decreases waiters.len() - k,
{
    if k < 0 || k >= waiters.len() {
        (tasks, waiters)
    } else if waiters[k] is Some && (waiters[k]->0).1 == target {
        notified(woken(tasks, (waiters[k]->0).0), waiters.update(k, None), target, k + 1)
    } else {
        notified(tasks, waiters, target, k + 1)
    }
}

/// The exit records that `owner` does not own.
pub open spec fn not_owned(exits: Seq<ExitRecord>, owner: TaskId) -> Seq<ExitRecord>
    decreases exits.len(),
{
    if exits.len() == 0 {
        seq![]
    } else if exits.last().owner == owner {
        not_owned(exits.drop_last(), owner)
    } else {
        not_owned(exits.drop_last(), owner).push(exits.last())
    }
}

/// The first record of a task, from `k` on, or the length.
pub open spec fn find_exit(exits: Seq<ExitRecord>, id: TaskId, k: int) -> int
    decreases exits.len() - k,
{
    if k >= exits.len() {
        exits.len() as int
    } else if exits[k].id == id {
        k
    } else {
        find_exit(exits, id, k + 1)
    }
}

/// The current task dead, its waiters woken, its status kept for its spawner,
/// and the statuses that it never asked for dropped.
pub open spec fn ended(s: SchedView, status: u64) -> SchedView {
    let dying = s.tasks[s.current];
    let (tasks, waiters) = notified(
        with_state(s.tasks, s.current, TaskState::Dead),
        s.waiters,
        dying.id,
        0,
    );
    SchedView {
        tasks,
        waiters,
        exits: not_owned(s.exits, dying.id).push(
            ExitRecord { id: dying.id, owner: dying.spawner, status },
        ),
        ..s
    }
}

impl Scheduler {
    fn notify(&mut self, target: TaskId)
        requires
            shape_ok(old(self)@),
            old(self)@.tasks[old(self)@.current].state != TaskState::Blocked,
        ensures
            shape_ok(final(self)@),
            final(self)@.tasks[final(self)@.current] == old(self)@.tasks[old(self)@.current],
            ({
                let (tasks, waiters) = notified(old(self)@.tasks, old(self)@.waiters, target, 0);
                final(self)@ == (SchedView { tasks, waiters, ..old(self)@ })
            }),
    {
        let ghost goal = notified(self@.tasks, self@.waiters, target, 0);
        let mut k: usize = 0;
        while k < MAX_WAITERS
            invariant
                k <= MAX_WAITERS,
                shape_ok(self@),
                self@.current == old(self)@.current,
                old(self)@.tasks[old(self)@.current].state != TaskState::Blocked,
                self@.tasks[self@.current] == old(self)@.tasks[old(self)@.current],
                goal == notified(old(self)@.tasks, old(self)@.waiters, target, 0),
                goal == notified(self@.tasks, self@.waiters, target, k as int),
                self@ == (SchedView {
                    tasks: self@.tasks,
                    waiters: self@.waiters,
                    ..old(self)@
                }),
            decreases MAX_WAITERS - k,
        {
            if let Some((waiter, t)) = self.waiters[k] {
                if t == target {
                    proof {
                        lemma_woken_shape(self@, waiter);
                    }
                    self.wake_task(waiter);
                    self.waiters[k] = None;
                }
            }
            k += 1;
        }
    }

    fn drop_owned(&mut self, owner: TaskId)
        ensures
            final(self)@ == (SchedView {
                exits: not_owned(old(self)@.exits, owner),
                ..old(self)@
            }),
            final(self).tasks == old(self).tasks,
    {
        let mut kept: Vec<ExitRecord> = Vec::new();
        let mut k: usize = 0;
        assert(self.exits@.take(0) =~= Seq::<ExitRecord>::empty());
        while k < self.exits.len()
            invariant
                k <= self.exits@.len(),
                *self == *old(self),
                kept@ == not_owned(self.exits@.take(k as int), owner),
            decreases self.exits@.len() - k,
        {
            proof {
                assert(self.exits@.take(k + 1).drop_last() =~= self.exits@.take(k as int));
            }
            let r: ExitRecord = self.exits[k];
            if r.owner != owner {
                kept.push(r);
            }
            k += 1;
        }
        assert(self.exits@.take(k as int) =~= self.exits@);
        self.exits = kept;
    }

    /// End the current task with a status and let another run.
    pub fn task_exit(&mut self, status: u64) -> (r: Switch)
        requires
            old(self).wf(),
        ensures
            ({
                let e = ended(old(self)@, status);
                match r {
                    Switch::To { from, to } => final(self).wf() && from == e.current && is_next(
                        e.tasks,
                        after_current(e),
                        to as int,
                    ) && final(self)@ == switched(e, TaskState::Dead, to as int),
                    Switch::Halt => none_ready(e.tasks) && final(self)@ == e,
                    Switch::Stay => false,
                }
            }),
    {
        let ghost s = self@;
        let from: usize = self.current;
        assert(self@.tasks[from as int] == self.tasks@[from as int]@);
        let dying: TaskId = self.tasks[from].id;
        let owner: TaskId = self.tasks[from].spawner;
        proof {
            lemma_state_shape(self@, from as int, TaskState::Dead);
        }
        self.set_state(from, TaskState::Dead);
        self.notify(dying);
        self.drop_owned(dying);
        self.exits.push(ExitRecord { id: dying, owner, status });
        let ghost e = self@;
        assert(e == ended(s, status));
        let start: usize = self.slot_after();
        match self.find_next_ready(start) {
            Some(to) => {
                proof {
                    lemma_switched_ok(e, TaskState::Dead, to as int);
                    assert(with_state(e.tasks, e.current, TaskState::Dead) =~= e.tasks);
                }
                self.set_state(to, TaskState::Running);
                self.current = to;
                Switch::To { from, to }
            },
            None => Switch::Halt,
        }
    }
}

/// A task with this identity is there and not dead.
pub open spec fn is_alive(tasks: Tasks, id: TaskId) -> bool {
    find_task(tasks, id, 0) < tasks.len() && tasks[find_task(tasks, id, 0)].state
        != TaskState::Dead
}

/// A task can be killed: alive, and neither the bootstrap task nor the current
/// one.
pub open spec fn can_kill(s: SchedView, id: TaskId) -> bool {
    id != 0 && id != s.tasks[s.current].id && is_alive(s.tasks, id)
}

/// The task dead, its waiters woken, and the statuses of its children dropped:
/// nobody is left to ask for them.
pub open spec fn killed(s: SchedView, id: TaskId) -> SchedView {
    let (tasks, waiters) = notified(
        with_state(s.tasks, find_task(s.tasks, id, 0), TaskState::Dead),
        s.waiters,
        id,
        0,
    );
    SchedView { tasks, waiters, exits: not_owned(s.exits, id), ..s }
}

/// The first empty slot from `k` on, or the length.
pub open spec fn free_slot<T>(slots: Seq<Option<T>>, k: int) -> int
    decreases slots.len() - k,
{
    if k >= slots.len() {
        slots.len() as int
    } else if slots[k] is None {
        k
    } else {
        free_slot(slots, k + 1)
    }
}

/// The slots with `x` in the first empty one; full slots stay as they are.
pub open spec fn enlisted<T>(slots: Seq<Option<T>>, x: T) -> Seq<Option<T>> {
    let k = free_slot(slots, 0);
    if k < slots.len() {
        slots.update(k, Some(x))
    } else {
        slots
    }
}

fn enlist(slots: &mut Vec<Option<(u64, u64)>>, x: (u64, u64))
    ensures
        final(slots)@ == enlisted(old(slots)@, x),
        final(slots)@.len() == old(slots)@.len(),
{
    let mut k: usize = 0;
    while k < slots.len()
        invariant
            k <= slots@.len(),
            slots@ == old(slots)@,
            free_slot(slots@, 0) == free_slot(slots@, k as int),
        decreases slots@.len() - k,
    {
        if slots[k].is_none() {
            slots[k] = Some(x);
            return;
        }
        k += 1;
    }
}

/// The outcome of waiting for a task.
pub enum Wait {
    /// The task has ended with this status; [`ENOENT`] where nothing is known
    /// of it.
    Done(u64),
    /// The task is alive: make this step, then ask again.
    Blocked(Step),
}

impl Scheduler {
    /// Kill another task; tells whether that was done.
    pub fn kill_task(&mut self, id: TaskId) -> (r: bool)
        requires
            old(self).wf(),
        ensures
            final(self).wf(),
            r == can_kill(old(self)@, id),
            final(self)@ == if r {
                killed(old(self)@, id)
            } else {
                old(self)@
            },
    {
        if id == 0 {
            return false;
        }
        assert(self@.tasks[self.current as int] == self.tasks@[self.current as int]@);
        if id == self.tasks[self.current].id {
            return false;
        }
        match self.find(id) {
            Some(i) => {
                assert(self@.tasks[i as int] == self.tasks@[i as int]@);
                if self.tasks[i].state == TaskState::Dead {
                    return false;
                }
                proof {
                    lemma_state_shape(self@, i as int, TaskState::Dead);
                }
                self.set_state(i, TaskState::Dead);
                self.notify(id);
                self.drop_owned(id);
                true
            },
            None => false,
        }
    }

    /// Wait for a task to end. A status is handed out once.
    pub fn wait_for_task(&mut self, target: TaskId) -> (r: Wait)
        requires
            old(self).wf(),
        ensures
            ({
                let s = old(self)@;
                let k = find_exit(s.exits, target, 0);
                if !is_alive(s.tasks, target) {
                    &&& final(self).wf()
                    &&& if k < s.exits.len() {
                        r == Wait::Done(s.exits[k].status) && final(self)@ == (SchedView {
                            exits: s.exits.remove(k),
                            ..s
                        })
                    } else {
                        r == Wait::Done(ENOENT) && final(self)@ == s
                    }
                } else {
                    let w = swept(
                        SchedView {
                            waiters: enlisted(s.waiters, (s.tasks[s.current].id, target)),
                            ..s
                        },
                    );
                    let b = current_in(w, TaskState::Blocked);
                    let reaped = r->Blocked_0.reaped@;
                    r is Blocked && Seq::new(reaped.len(), |i: int| reaped[i]@) == dead(s.tasks)
                        && match r->Blocked_0.switch {
                        Switch::To { from, to } => final(self).wf() && from == w.current && is_next(
                            b.tasks,
                            after_current(w),
                            to as int,
                        ) && final(self)@ == switched(w, TaskState::Blocked, to as int),
                        Switch::Halt => none_ready(b.tasks) && final(self)@ == b,
                        Switch::Stay => false,
                    }
                }
            }),
    {
        let alive: bool = match self.find(target) {
            Some(i) => {
                assert(self@.tasks[i as int] == self.tasks@[i as int]@);
                self.tasks[i].state != TaskState::Dead
            },
            None => false,
        };
        if !alive {
            let mut k: usize = 0;
            while k < self.exits.len()
                invariant
                    k <= self.exits@.len(),
                    *self == *old(self),
                    self.wf(),
                    !is_alive(self@.tasks, target),
                    find_exit(self.exits@, target, 0) == find_exit(self.exits@, target, k as int),
                decreases self.exits@.len() - k,
            {
                if self.exits[k].id == target {
                    let rec: ExitRecord = self.exits.remove(k);
                    return Wait::Done(rec.status);
                }
                k += 1;
            }
            return Wait::Done(ENOENT);
        }
        assert(self@.tasks[self.current as int] == self.tasks@[self.current as int]@);
        let me: TaskId = self.tasks[self.current].id;
        enlist(&mut self.waiters, (me, target));
        assert(self@.tasks =~= old(self)@.tasks);
        assert(self@.caps =~= old(self)@.caps);
        Wait::Blocked(self.block_and_yield())
    }

    /// Block the current task until the tick counter reaches `wake_tick`.
    pub fn sleep_until(&mut self, wake_tick: u64) -> (step: Step)
        requires
            old(self).wf(),
        ensures
            ({
                let s = old(self)@;
                let w = swept(
                    SchedView {
                        sleepers: enlisted(s.sleepers, (s.tasks[s.current].id, wake_tick)),
                        ..s
                    },
                );
                let b = current_in(w, TaskState::Blocked);
                &&& Seq::new(step.reaped@.len(), |i: int| step.reaped@[i]@) == dead(s.tasks)
                &&& match step.switch {
                    Switch::To { from, to } => final(self).wf() && from == w.current && is_next(
                        b.tasks,
                        after_current(w),
                        to as int,
                    ) && final(self)@ == switched(w, TaskState::Blocked, to as int),
                    Switch::Halt => none_ready(b.tasks) && final(self)@ == b,
                    Switch::Stay => false,
                }
            }),
    {
        assert(self@.tasks[self.current as int] == self.tasks@[self.current as int]@);
        let me: TaskId = self.tasks[self.current].id;
        enlist(&mut self.sleepers, (me, wake_tick));
        assert(self@.tasks =~= old(self)@.tasks);
        assert(self@.caps =~= old(self)@.caps);
        self.block_and_yield()
    }
}

/// Every sleeper whose time has come woken and forgotten, from slot `k` on.
pub open spec fn roused(
    tasks: Tasks,
    sleepers: Seq<Option<(TaskId, u64)>>,
    tick: u64,
    k: int,
) -> (Tasks, Seq<Option<(TaskId, u64)>>)
    decreases sleepers.len() - k,
{
    if k < 0 || k >= sleepers.len() {
        (tasks, sleepers)
    } else if sleepers[k] is Some && (sleepers[k]->0).1 <= tick {
        roused(woken(tasks, (sleepers[k]->0).0), sleepers.update(k, None), tick, k + 1)
    } else {
        roused(tasks, sleepers, tick, k + 1)
    }
}

impl Scheduler {
    /// Wake the tasks whose sleep is over at this tick.
    pub fn wake_sleepers(&mut self, tick: u64)
        requires
            old(self).wf(),
        ensures
            final(self).wf(),
            ({
                let (tasks, sleepers) = roused(old(self)@.tasks, old(self)@.sleepers, tick, 0);
                final(self)@ == (SchedView { tasks, sleepers, ..old(self)@ })
            }),
    {
        let ghost goal = roused(self@.tasks, self@.sleepers, tick, 0);
        let mut k: usize = 0;
        while k < MAX_SLEEPERS
            invariant
                k <= MAX_SLEEPERS,
                self.wf(),
                goal == roused(old(self)@.tasks, old(self)@.sleepers, tick, 0),
                goal == roused(self@.tasks, self@.sleepers, tick, k as int),
                self@ == (SchedView {
                    tasks: self@.tasks,
                    sleepers: self@.sleepers,
                    ..old(self)@
                }),
            decreases MAX_SLEEPERS - k,
        {
            if let Some((id, wake_tick)) = self.sleepers[k] {
                if tick >= wake_tick {
                    proof {
                        lemma_woken_shape(self@, id);
                    }
                    self.wake_task(id);
                    self.sleepers[k] = None;
                }
            }
            k += 1;
        }
    }
}

// ── Starting tasks ───────────────────────────────────────────────────────────

/// A name of at most 15 bytes, filled up with zeros.
pub open spec fn name_of(s: Seq<u8>) -> Seq<u8> {
    Seq::new(
        NAME_LEN as nat,
        |i: int|
            if i < s.len() && i < NAME_LEN - 1 {
                s[i]
            } else {
                0u8
            },
    )
}

pub fn make_name(s: &[u8]) -> (n: [u8; 16])
    ensures
        n@ == name_of(s@),
{
    let mut n: [u8; 16] = [0u8; 16];
    let len: usize = if s.len() < NAME_LEN - 1 {
        s.len()
    } else {
        NAME_LEN - 1
    };
    let mut i: usize = 0;
    while i < len
        invariant
            i <= len,
            len <= s@.len(),
            len <= NAME_LEN - 1,
            len == s@.len() || len == NAME_LEN - 1,
            forall|k: int| 0 <= k < i ==> n@[k] == s@[k],
            forall|k: int| i <= k < NAME_LEN ==> n@[k] == 0,
        decreases len - i,
    {
        n[i] = s[i];
        i += 1;
    }
    assert(n@ =~= name_of(s@));
    n
}

/// Where a kernel stack's parts lie in its allocation.
#[derive(Clone, Copy, Debug, PartialEq, Eq, Structural)]
pub struct StackPlan {
    /// The guard page, left unmapped.
    pub guard_va: u64,
    /// The highest address of the stack.
    pub stack_top: u64,
    /// The stack pointer that a new task starts from.
    pub initial_rsp: u64,
}

/// Bytes to allocate for a kernel stack and its guard page.
pub const STACK_ALLOC: u64 = 0x1_2000;

/// The guard page is the first page boundary in the allocation; the stack lies
/// above it, and eight words are laid out at its top.
pub open spec fn plan_of(base: u64) -> StackPlan {
    let guard_va = (base + (PAGE - 1)) / PAGE as int * PAGE;
    let stack_top = guard_va + PAGE + KERNEL_STACK_SIZE;
    StackPlan {
        guard_va: guard_va as u64,
        stack_top: stack_top as u64,
        initial_rsp: (stack_top - 64) as u64,
    }
}

/// Lay out a kernel stack in an allocation at `base`.
pub fn plan_stack(base: u64) -> (p: StackPlan)
    requires
        base + STACK_ALLOC <= u64::MAX,
    ensures
        p == plan_of(base),
        p.guard_va % PAGE == 0,
        base <= p.guard_va < base + PAGE,
        p.stack_top == p.guard_va + PAGE + KERNEL_STACK_SIZE,
        p.stack_top <= base + STACK_ALLOC,
        p.initial_rsp == p.stack_top - 64,
        p.initial_rsp % 16 == 0,
{
    let guard_va: u64 = (base + (PAGE - 1)) / PAGE * PAGE;
    let stack_top: u64 = guard_va + PAGE + KERNEL_STACK_SIZE;
    StackPlan { guard_va, stack_top, initial_rsp: stack_top - 64 }
}

/// The words at a new task's stack pointer: six zeroed registers, the address
/// where it starts, and padding.
pub fn initial_frame(entry: u64) -> (f: [u64; 8])
    ensures
        f@ == seq![0u64, 0, 0, 0, 0, 0, entry, 0],
{
    let f: [u64; 8] = [0, 0, 0, 0, 0, 0, entry, 0];
    assert(f@ =~= seq![0u64, 0, 0, 0, 0, 0, entry, 0]);
    f
}

/// The stack's lowest word still holds the canary. A task without a guard page
/// has none to check.
pub fn canary_intact(guard_page: Option<(u64, u64)>, word: u64) -> (ok: bool)
    ensures
        ok == (guard_page is None || word == STACK_CANARY),
{
    guard_page.is_none() || word == STACK_CANARY
}

/// The capabilities of `from` that the handles name, from `k` on, inherited
/// into `to`; a handle that names none is passed over.
pub open spec fn inherited_all(
    from: CapSlots,
    handles: Seq<CapHandle>,
    k: int,
    to: CapSlots,
    ids: CapIds,
) -> (CapSlots, CapIds)
    decreases handles.len() - k,
{
    if k >= handles.len() {
        (to, ids)
    } else {
        match slot_lookup(from, handles[k].0) {
            Ok(cap) => inherited_all(
                from,
                handles,
                k + 1,
                slots_with(to, inherited_cap(cap, ids.next)),
                CapIds { next: ids.after() },
            ),
            Err(_) => inherited_all(from, handles, k + 1, to, ids),
        }
    }
}

/// A new kernel task.
pub open spec fn kernel_task(s: SchedView, p: StackPlan, guard_phys: u64) -> TaskView {
    TaskView {
        id: s.next_id,
        state: TaskState::Ready,
        context: TaskContext { rsp: p.initial_rsp },
        priority: 1,
        name: name_of(seq![0x6Bu8, 0x74, 0x68, 0x72, 0x65, 0x61, 0x64]),
        spawner: s.tasks[s.current].id,
        uid: s.tasks[s.current].uid,
        gid: s.tasks[s.current].gid,
        stack_top: p.stack_top,
        guard_page: Some((p.guard_va, guard_phys)),
        entry_point: None,
        user_stack_top: None,
        page_table: None,
        vma_list: seq![],
        brk: 0,
    }
}

/// A new task behind the others, with its capability table.
pub open spec fn joined(s: SchedView, t: TaskView, table: CapSlots) -> SchedView {
    SchedView {
        tasks: s.tasks.push(t),
        caps: s.caps.push((t.id, table)),
        next_id: (s.next_id + 1) as u64,
        ..s
    }
}

/// The state with a userspace task added: the kernel task `t` with an entry, a
/// stack, a page table and a name, and the capabilities of the current task
/// that the handles name.
pub open spec fn user_joined(
    s: SchedView,
    ids: CapIds,
    t: TaskView,
    entry: u64,
    user_stack: u64,
    caps: Seq<CapHandle>,
    page_table: u64,
    name: Seq<u8>,
) -> (SchedView, CapIds) {
    let (table, ids1) = inherited_all(s.caps[s.current].1, caps, 0, seq![], ids);
    (
        joined(
            s,
            TaskView {
                name: name_of(name),
                entry_point: Some(entry),
                user_stack_top: Some(user_stack),
                page_table: Some(page_table),
                ..t
            },
            table,
        ),
        ids1,
    )
}

proof fn lemma_joined_ok(s: SchedView, t: TaskView, table: CapSlots)
    requires
        sched_ok(s),
        s.next_id < u64::MAX,
        t.id == s.next_id,
        t.state == TaskState::Ready,
        t.priority <= MAX_PRIORITY,
        t.vma_list.len() == 0,
    ensures
        sched_ok(joined(s, t, table)),
{
    let r = joined(s, t, table);
    assert forall|i: int, j: int| 0 <= i < j < r.tasks.len() implies (#[trigger] r.tasks[i]).id != (
    #[trigger] r.tasks[j]).id by {
        if j < s.tasks.len() {
            assert(s.tasks[i].id != s.tasks[j].id);
        } else {
            assert(r.tasks[i] == s.tasks[i]);
        }
    }
    assert forall|i: int| 0 <= i < r.tasks.len() implies (#[trigger] r.caps[i]).0 == r.tasks[i].id by {
        if i < s.tasks.len() {
            assert(s.caps[i].0 == s.tasks[i].id);
        }
    }
}

/// The bootstrap task, `kmain`.
pub open spec fn boot_task() -> TaskView {
    TaskView {
        id: 0,
        state: TaskState::Running,
        context: TaskContext { rsp: 0 },
        priority: 1,
        name: name_of(seq![0x6Bu8, 0x6D, 0x61, 0x69, 0x6E]),
        spawner: 0,
        uid: 0,
        gid: 0,
        stack_top: 0,
        guard_page: None,
        entry_point: None,
        user_stack_top: None,
        page_table: None,
        vma_list: seq![],
        brk: 0,
    }
}

/// The scheduler at boot: the bootstrap task runs, holds nothing, and nobody waits
/// or sleeps.
pub open spec fn boot_sched() -> SchedView {
    SchedView {
        tasks: seq![boot_task()],
        caps: seq![(0u64, seq![])],
        current: 0,
        next_id: 1,
        waiters: Seq::new(MAX_WAITERS as nat, |k: int| None),
        sleepers: Seq::new(MAX_SLEEPERS as nat, |k: int| None),
        exits: seq![],
    }
}

impl Scheduler {
    /// A scheduler with the bootstrap task, which runs.
    pub fn new() -> (s: Scheduler)
        ensures
            s.wf(),
            s@ == boot_sched(),
    {
        let kmain: [u8; 5] = [0x6B, 0x6D, 0x61, 0x69, 0x6E];
        assert(kmain@ =~= seq![0x6Bu8, 0x6D, 0x61, 0x69, 0x6E]);
        let mut tasks: Vec<Task> = Vec::new();
        tasks.push(
            Task {
                id: 0,
                state: TaskState::Running,
                context: TaskContext { rsp: 0 },
                priority: 1,
                name: make_name(kmain.as_slice()),
                spawner: 0,
                uid: 0,
                gid: 0,
                stack_top: 0,
                guard_page: None,
                entry_point: None,
                user_stack_top: None,
                page_table: None,
                vma_list: Vec::new(),
                brk: 0,
            },
        );
        let mut tables: Vec<TaskCaps> = Vec::new();
        tables.push(TaskCaps { task_id: 0, table: CapabilityTable::new() });
        let caps = CapSpace { tasks: tables };
        let mut waiters: Vec<Option<(u64, u64)>> = Vec::new();
        let mut k: usize = 0;
        while k < MAX_WAITERS
            invariant
                k <= MAX_WAITERS,
                waiters@.len() == k,
                forall|j: int| 0 <= j < k ==> waiters@[j] is None,
            decreases MAX_WAITERS - k,
        {
            waiters.push(None);
            k += 1;
        }
        let mut sleepers: Vec<Option<(u64, u64)>> = Vec::new();
        let mut j: usize = 0;
        while j < MAX_SLEEPERS
            invariant
                j <= MAX_SLEEPERS,
                sleepers@.len() == j,
                forall|i: int| 0 <= i < j ==> sleepers@[i] is None,
            decreases MAX_SLEEPERS - j,
        {
            sleepers.push(None);
            j += 1;
        }
        let s = Scheduler {
            tasks,
            caps,
            current: 0,
            next_id: 1,
            waiters,
            sleepers,
            exits: Vec::new(),
        };
        assert(s@.tasks[0].vma_list =~= seq![]);
        assert(s@.tasks =~= boot_sched().tasks);
        assert(s@.caps[0] == s.caps.tasks@[0]@);
        assert(s@.caps[0].1 =~= seq![]);
        assert(s@.caps =~= boot_sched().caps);
        assert(s@.waiters =~= boot_sched().waiters);
        assert(s@.sleepers =~= boot_sched().sleepers);
        assert(s@.exits =~= seq![]);
        s
    }

    fn join(&mut self, t: Task, table: CapabilityTable)
        requires
            old(self).wf(),
            old(self).next_id < u64::MAX,
            t.id == old(self).next_id,
            t.state == TaskState::Ready,
            t.priority <= MAX_PRIORITY,
            t.vma_list@.len() == 0,
        ensures
            final(self).wf(),
            final(self)@ == joined(old(self)@, t@, table@),
    {
        proof {
            lemma_joined_ok(self@, t@, table@);
        }
        let ghost s = self@;
        let ghost tv = t@;
        let ghost cv = table@;
        self.caps.tasks.push(TaskCaps { task_id: t.id, table });
        self.tasks.push(t);
        self.next_id = self.next_id + 1;
        assert(self@.tasks =~= s.tasks.push(tv));
        assert(self@.caps =~= s.caps.push((tv.id, cv)));
    }

    /// Start a kernel task on a stack allocated at `base`, whose guard page has
    /// the frame `guard_phys`.
    pub fn spawn_kernel_task(&mut self, base: u64, guard_phys: u64) -> (id: TaskId)
        requires
            old(self).wf(),
            old(self).next_id < u64::MAX,
            base + STACK_ALLOC <= u64::MAX,
        ensures
            final(self).wf(),
            id == old(self).next_id,
            final(self)@ == joined(
                old(self)@,
                kernel_task(old(self)@, plan_of(base), guard_phys),
                seq![],
            ),
    {
        let p: StackPlan = plan_stack(base);
        let kthread: [u8; 7] = [0x6B, 0x74, 0x68, 0x72, 0x65, 0x61, 0x64];
        assert(kthread@ =~= seq![0x6Bu8, 0x74, 0x68, 0x72, 0x65, 0x61, 0x64]);
        let id: TaskId = self.next_id;
        assert(self@.tasks[self.current as int] == self.tasks@[self.current as int]@);
        let t = Task {
            id,
            state: TaskState::Ready,
            context: TaskContext { rsp: p.initial_rsp },
            priority: 1,
            name: make_name(kthread.as_slice()),
            spawner: self.tasks[self.current].id,
            uid: self.tasks[self.current].uid,
            gid: self.tasks[self.current].gid,
            stack_top: p.stack_top,
            guard_page: Some((p.guard_va, guard_phys)),
            entry_point: None,
            user_stack_top: None,
            page_table: None,
            vma_list: Vec::new(),
            brk: 0,
        };
        assert(t@ =~= kernel_task(self@, p, guard_phys));
        let table = CapabilityTable::new();
        assert(table@ =~= seq![]);
        self.join(t, table);
        id
    }

    /// Start a userspace task that inherits the capabilities `caps` of the
    /// current task.
    pub fn spawn_userspace_task(
        &mut self,
        ids: &mut CapIds,
        base: u64,
        guard_phys: u64,
        entry: u64,
        user_stack: u64,
        caps: &[CapHandle],
        page_table: u64,
        name: &[u8],
    ) -> (id: TaskId)
        requires
            old(self).wf(),
            old(self).next_id < u64::MAX,
            base + STACK_ALLOC <= u64::MAX,
        ensures
            final(self).wf(),
            id == old(self).next_id,
            (final(self)@, *final(ids)) == user_joined(
                old(self)@,
                *old(ids),
                kernel_task(old(self)@, plan_of(base), guard_phys),
                entry,
                user_stack,
                caps@,
                page_table,
                name@,
            ),
    {
        let p: StackPlan = plan_stack(base);
        let id: TaskId = self.next_id;
        let cur: usize = self.current;
        assert(self@.tasks[cur as int] == self.tasks@[cur as int]@);
        assert(self@.caps[cur as int] == self.caps.tasks@[cur as int]@);
        let mut table = CapabilityTable::new();
        assert(table@ =~= seq![]);
        let ghost from = self@.caps[cur as int].1;
        let ghost goal = inherited_all(from, caps@, 0, seq![], *ids);
        let mut k: usize = 0;
        while k < caps.len()
            invariant
                k <= caps@.len(),
                *self == *old(self),
                cur < self.caps.tasks@.len(),
                self.caps.tasks@[cur as int].table@ == from,
                goal == inherited_all(from, caps@, 0, seq![], *old(ids)),
                goal == inherited_all(from, caps@, k as int, table@, *ids),
            decreases caps@.len() - k,
        {
            let _r = cap_inherit(ids, &self.caps.tasks[cur].table, caps[k], &mut table);
            k += 1;
        }
        let t = Task {
            id,
            state: TaskState::Ready,
            context: TaskContext { rsp: p.initial_rsp },
            priority: 1,
            name: make_name(name),
            spawner: self.tasks[cur].id,
            uid: self.tasks[cur].uid,
            gid: self.tasks[cur].gid,
            stack_top: p.stack_top,
            guard_page: Some((p.guard_va, guard_phys)),
            entry_point: Some(entry),
            user_stack_top: Some(user_stack),
            page_table: Some(page_table),
            vma_list: Vec::new(),
            brk: 0,
        };
        let ghost view = TaskView {
            name: name_of(name@),
            entry_point: Some(entry),
            user_stack_top: Some(user_stack),
            page_table: Some(page_table),
            ..kernel_task(self@, p, guard_phys)
        };
        assert(t@ =~= view);
        self.join(t, table);
        id
    }
}

// ── Mapped ranges ────────────────────────────────────────────────────────────

/// The page at `va` overlaps one of the ranges.
pub open spec fn overlaps(l: Seq<(u64, u64)>, va: u64) -> bool {
    exists|i: int| 0 <= i < l.len() && (#[trigger] l[i]).0 < va + PAGE && va < l[i].1
}

/// A range starts at `va`.
pub open spec fn starts_at(l: Seq<(u64, u64)>, va: u64) -> bool {
    exists|i: int| 0 <= i < l.len() && (#[trigger] l[i]).0 == va
}

/// How many of the ranges from `i` on start below `va`, in a list in order.
pub open spec fn lower_bound(l: Seq<(u64, u64)>, va: u64, i: int) -> int
    decreases l.len() - i,
{
    if i >= l.len() || l[i].0 >= va {
        i
    } else {
        lower_bound(l, va, i + 1)
    }
}

/// The ranges with the page at `va` among them.
pub open spec fn vma_with(l: Seq<(u64, u64)>, va: u64) -> Seq<(u64, u64)> {
    l.insert(lower_bound(l, va, 0), (va, (va + PAGE) as u64))
}

/// The ranges without the one that starts at `va`.
pub open spec fn vma_without(l: Seq<(u64, u64)>, va: u64) -> Seq<(u64, u64)> {
    l.remove(lower_bound(l, va, 0))
}

proof fn lemma_lower_bound(l: Seq<(u64, u64)>, va: u64, i: int)
    requires
        vmas_ok(l),
        0 <= i <= l.len(),
        forall|k: int| 0 <= k < i ==> (#[trigger] l[k]).0 < va,
    ensures
        ({
            let p = lower_bound(l, va, i);
            &&& i <= p <= l.len()
            &&& forall|k: int| 0 <= k < p ==> (#[trigger] l[k]).0 < va
            &&& forall|k: int| p <= k < l.len() ==> (#[trigger] l[k]).0 >= va
        }),
    decreases l.len() - i,
{
    if i < l.len() && l[i].0 < va {
        lemma_lower_bound(l, va, i + 1);
    } else if i < l.len() {
        assert forall|k: int| i <= k < l.len() implies (#[trigger] l[k]).0 >= va by {
            if k > i {
                assert(l[i].1 <= l[k].0);
            }
        }
    }
}

proof fn lemma_vma_with_ok(l: Seq<(u64, u64)>, va: u64)
    requires
        vmas_ok(l),
        va + PAGE <= u64::MAX,
        !overlaps(l, va),
    ensures
        vmas_ok(vma_with(l, va)),
{
    lemma_lower_bound(l, va, 0);
    let p = lower_bound(l, va, 0);
    let r = vma_with(l, va);
    assert forall|i: int, j: int| 0 <= i < j < r.len() implies (#[trigger] r[i]).1 <= (
    #[trigger] r[j]).0 by {
        if i < p && j == p {
            assert(l[i].0 < va);
            assert(!(l[i].0 < va + PAGE && va < l[i].1));
        } else if i == p && j > p {
            assert(r[j] == l[j - 1]);
            assert(l[j - 1].0 >= va);
            assert(!(l[j - 1].0 < va + PAGE && va < l[j - 1].1));
        } else if j < p {
            assert(l[i].1 <= l[j].0);
        } else if i < p {
            assert(r[j] == l[j - 1]);
            assert(l[i].1 <= l[j - 1].0);
        } else {
            assert(r[i] == l[i - 1] && r[j] == l[j - 1]);
            assert(l[i - 1].1 <= l[j - 1].0);
        }
    }
    assert forall|i: int| 0 <= i < r.len() implies (#[trigger] r[i]).0 < r[i].1 by {
        if i > p {
            assert(r[i] == l[i - 1]);
        } else if i < p {
            assert(r[i] == l[i]);
        }
    }
}

proof fn lemma_vma_without_ok(l: Seq<(u64, u64)>, va: u64)
    requires
        vmas_ok(l),
        starts_at(l, va),
    ensures
        vmas_ok(vma_without(l, va)),
        0 <= lower_bound(l, va, 0) < l.len(),
        l[lower_bound(l, va, 0)].0 == va,
{
    lemma_lower_bound(l, va, 0);
    let p = lower_bound(l, va, 0);
    let i = choose|i: int| 0 <= i < l.len() && (#[trigger] l[i]).0 == va;
    assert(p <= i);
    if p < i {
        assert(l[p].1 <= l[i].0);
        assert(l[p].0 < l[p].1);
    }
    let r = vma_without(l, va);
    assert forall|a: int, b: int| 0 <= a < b < r.len() implies (#[trigger] r[a]).1 <= (
    #[trigger] r[b]).0 by {
        let x = if a < p {
            a
        } else {
            a + 1
        };
        let y = if b < p {
            b
        } else {
            b + 1
        };
        assert(l[x].1 <= l[y].0);
    }
    assert forall|a: int| 0 <= a < r.len() implies (#[trigger] r[a]).0 < r[a].1 by {
        let x = if a < p {
            a
        } else {
            a + 1
        };
        assert(l[x].0 < l[x].1);
    }
}

/// A page cannot be recorded twice, and removing it gives back the list as it
/// was.
pub proof fn law_remove_undoes_insert(l: Seq<(u64, u64)>, va: u64)
    requires
        vmas_ok(l),
        va + PAGE <= u64::MAX,
        !overlaps(l, va),
    ensures
        overlaps(vma_with(l, va), va),
        starts_at(vma_with(l, va), va),
        vma_without(vma_with(l, va), va) == l,
{
    lemma_lower_bound(l, va, 0);
    lemma_vma_with_ok(l, va);
    let p = lower_bound(l, va, 0);
    let r = vma_with(l, va);
    assert(r[p] == (va, (va + PAGE) as u64));
    lemma_vma_without_ok(r, va);
    let q = lower_bound(r, va, 0);
    if q < p {
        assert(r[q] == l[q]);
    } else if q > p {
        assert(r[p].1 <= r[q].0);
    }
    assert(r.remove(p) =~= l);
}

/// The current task with another list of mapped ranges.
pub open spec fn with_vmas(s: SchedView, l: Seq<(u64, u64)>) -> SchedView {
    SchedView {
        tasks: s.tasks.update(s.current, TaskView { vma_list: l, ..s.tasks[s.current] }),
        ..s
    }
}

proof fn lemma_vmas_ok(s: SchedView, l: Seq<(u64, u64)>)
    requires
        sched_ok(s),
        vmas_ok(l),
    ensures
        sched_ok(with_vmas(s, l)),
{
    let r = with_vmas(s, l);
    assert forall|i: int, j: int| 0 <= i < j < r.tasks.len() implies (#[trigger] r.tasks[i]).id != (
    #[trigger] r.tasks[j]).id by {
        assert(s.tasks[i].id != s.tasks[j].id);
    }
}

impl Scheduler {
    fn vma_position(&self, va: u64) -> (p: usize)
        requires
            self.wf(),
        ensures
            p == lower_bound(self@.tasks[self@.current].vma_list, va, 0),
            p <= self.tasks@[self.current as int].vma_list@.len(),
    {
        let cur: usize = self.current;
        assert(self@.tasks[cur as int] == self.tasks@[cur as int]@);
        let ghost l = self.tasks@[cur as int].vma_list@;
        let mut p: usize = 0;
        while p < self.tasks[cur].vma_list.len() && self.tasks[cur].vma_list[p].0 < va
            invariant
                cur < self.tasks@.len(),
                l == self.tasks@[cur as int].vma_list@,
                p <= l.len(),
                lower_bound(l, va, 0) == lower_bound(l, va, p as int),
            decreases l.len() - p,
        {
            p += 1;
        }
        p
    }

    /// Record the page at `va` as mapped by the current task; refused where it
    /// overlaps what is mapped already.
    pub fn vma_insert(&mut self, va: u64) -> (ok: bool)
        requires
            old(self).wf(),
            va + PAGE <= u64::MAX,
        ensures
            final(self).wf(),
            ({
                let s = old(self)@;
                let l = s.tasks[s.current].vma_list;
                &&& ok == !overlaps(l, va)
                &&& final(self)@ == if ok {
                    with_vmas(s, vma_with(l, va))
                } else {
                    s
                }
            }),
    {
        let cur: usize = self.current;
        let end: u64 = va + PAGE;
        assert(self@.tasks[cur as int] == self.tasks@[cur as int]@);
        let ghost s = self@;
        let ghost l = self.tasks@[cur as int].vma_list@;
        assert(vmas_ok(l));
        let p: usize = self.vma_position(va);
        proof {
            lemma_lower_bound(l, va, 0);
        }
        if p > 0 && self.tasks[cur].vma_list[p - 1].1 > va {
            assert(l[p - 1].0 < va + PAGE && va < l[p - 1].1);
            return false;
        }
        if p < self.tasks[cur].vma_list.len() && self.tasks[cur].vma_list[p].0 < end {
            assert(l[p as int].0 < va + PAGE && va < l[p as int].1);
            return false;
        }
        proof {
            assert forall|i: int| 0 <= i < l.len() implies !((#[trigger] l[i]).0 < va + PAGE && va
                < l[i].1) by {
                if i < p {
                    if i < p - 1 {
                        assert(l[i].1 <= l[p - 1].0);
                        assert(l[p - 1].0 < l[p - 1].1);
                    }
                } else if i > p {
                    assert(l[p as int].1 <= l[i].0);
                    assert(l[p as int].0 < l[p as int].1);
                }
            }
            lemma_vma_with_ok(l, va);
            lemma_vmas_ok(s, vma_with(l, va));
        }
        self.tasks[cur].vma_list.insert(p, (va, end));
        assert(self@.tasks =~= with_vmas(s, vma_with(l, va)).tasks);
        true
    }

    /// Forget the page that starts at `va`; refused where there is none.
    pub fn vma_remove(&mut self, va: u64) -> (ok: bool)
        requires
            old(self).wf(),
        ensures
            final(self).wf(),
            ({
                let s = old(self)@;
                let l = s.tasks[s.current].vma_list;
                &&& ok == starts_at(l, va)
                &&& final(self)@ == if ok {
                    with_vmas(s, vma_without(l, va))
                } else {
                    s
                }
            }),
    {
        let cur: usize = self.current;
        assert(self@.tasks[cur as int] == self.tasks@[cur as int]@);
        let ghost s = self@;
        let ghost l = self.tasks@[cur as int].vma_list@;
        assert(vmas_ok(l));
        let p: usize = self.vma_position(va);
        proof {
            lemma_lower_bound(l, va, 0);
        }
        if p < self.tasks[cur].vma_list.len() && self.tasks[cur].vma_list[p].0 == va {
            proof {
                assert(l[p as int].0 == va);
                lemma_vma_without_ok(l, va);
                lemma_vmas_ok(s, vma_without(l, va));
            }
            let _range: (u64, u64) = self.tasks[cur].vma_list.remove(p);
            assert(self@.tasks =~= with_vmas(s, vma_without(l, va)).tasks);
            return true;
        }
        proof {
            if starts_at(l, va) {
                lemma_vma_without_ok(l, va);
            }
        }
        false
    }
}

// ── What is asked of the scheduler ───────────────────────────────────────────

/// One live task in a list.
#[derive(Clone, Copy, Debug, PartialEq, Eq, Structural)]
pub struct TaskInfo {
    pub id: TaskId,
    /// 1 is running, 2 is ready, 3 is blocked.
    pub state: u64,
    /// 0 is a kernel task, 1 a userspace task.
    pub kind: u8,
}

/// The code of a state in a list of tasks.
pub open spec fn state_code(state: TaskState) -> u64 {
    match state {
        TaskState::Running => 1,
        TaskState::Ready => 2,
        TaskState::Blocked => 3,
        TaskState::Dead => 0,
    }
}

/// What a list of tasks says of one.
pub open spec fn info_of(t: TaskView) -> TaskInfo {
    TaskInfo {
        id: t.id,
        state: state_code(t.state),
        kind: if t.page_table is Some {
            1
        } else {
            0
        },
    }
}

/// What is said of a task's liveness: 0 where it is not there or dead, 1 where
/// it runs or is ready, 2 where it is blocked.
pub open spec fn status_of(tasks: Tasks, id: TaskId) -> u64 {
    let i = find_task(tasks, id, 0);
    if i >= tasks.len() {
        0
    } else {
        match tasks[i].state {
            TaskState::Dead => 0,
            TaskState::Running => 1,
            TaskState::Ready => 1,
            TaskState::Blocked => 2,
        }
    }
}

impl Scheduler {
    /// True if a task with this identity has not been swept yet.
    pub fn task_exists(&self, id: TaskId) -> (r: bool)
        ensures
            r == (find_task(self@.tasks, id, 0) < self@.tasks.len()),
    {
        self.find(id).is_some()
    }

    /// The liveness of a task.
    pub fn task_status_raw(&self, id: TaskId) -> (r: u64)
        ensures
            r == status_of(self@.tasks, id),
    {
        match self.find(id) {
            None => 0,
            Some(i) => {
                assert(self@.tasks[i as int] == self.tasks@[i as int]@);
                match self.tasks[i].state {
                    TaskState::Dead => 0,
                    TaskState::Running => 1,
                    TaskState::Ready => 1,
                    TaskState::Blocked => 2,
                }
            },
        }
    }

    /// The live tasks, in order.
    pub fn for_each_task(&self) -> (v: Vec<TaskInfo>)
        ensures
            v@ == live(self@.tasks).map(|i: int, t: TaskView| info_of(t)),
    {
        let ghost all = self@.tasks;
        let mut v: Vec<TaskInfo> = Vec::new();
        let mut i: usize = 0;
        assert(all.take(0) =~= Seq::<TaskView>::empty());
        assert(live(all.take(0)).map(|i: int, t: TaskView| info_of(t)) =~= seq![]);
        while i < self.tasks.len()
            invariant
                i <= self.tasks@.len(),
                all == self@.tasks,
                v@ == live(all.take(i as int)).map(|i: int, t: TaskView| info_of(t)),
            decreases self.tasks@.len() - i,
        {
            proof {
                assert(all[i as int] == self.tasks@[i as int]@);
                assert(all.take(i + 1).drop_last() =~= all.take(i as int));
            }
            let ghost before = live(all.take(i as int));
            let code: u64 = match self.tasks[i].state {
                TaskState::Running => 1,
                TaskState::Ready => 2,
                TaskState::Blocked => 3,
                TaskState::Dead => 0,
            };
            if code != 0 {
                let kind: u8 = if self.tasks[i].page_table.is_some() {
                    1
                } else {
                    0
                };
                v.push(TaskInfo { id: self.tasks[i].id, state: code, kind });
                assert(v@ =~= before.push(all[i as int]).map(|i: int, t: TaskView| info_of(t)));
            }
            i += 1;
        }
        assert(all.take(i as int) =~= all);
        v
    }

    /// The live tasks with their priorities and names, in order.
    pub fn for_each_task_ps(&self) -> (v: Vec<(TaskInfo, u8, [u8; 16])>)
        ensures
            v@.len() == live(self@.tasks).len(),
            forall|k: int|
                0 <= k < v@.len() ==> (#[trigger] v@[k]).0 == info_of(live(self@.tasks)[k])
                    && v@[k].1 == live(self@.tasks)[k].priority && v@[k].2@ == live(
                    self@.tasks,
                )[k].name,
    {
        let ghost all = self@.tasks;
        let mut v: Vec<(TaskInfo, u8, [u8; 16])> = Vec::new();
        let mut i: usize = 0;
        assert(all.take(0) =~= Seq::<TaskView>::empty());
        while i < self.tasks.len()
            invariant
                i <= self.tasks@.len(),
                all == self@.tasks,
                v@.len() == live(all.take(i as int)).len(),
                forall|k: int|
                    0 <= k < v@.len() ==> (#[trigger] v@[k]).0 == info_of(
                        live(all.take(i as int))[k],
                    ) && v@[k].1 == live(all.take(i as int))[k].priority && v@[k].2@ == live(
                        all.take(i as int),
                    )[k].name,
            decreases self.tasks@.len() - i,
        {
            proof {
                assert(all[i as int] == self.tasks@[i as int]@);
                assert(all.take(i + 1).drop_last() =~= all.take(i as int));
            }
            let code: u64 = match self.tasks[i].state {
                TaskState::Running => 1,
                TaskState::Ready => 2,
                TaskState::Blocked => 3,
                TaskState::Dead => 0,
            };
            if code != 0 {
                let kind: u8 = if self.tasks[i].page_table.is_some() {
                    1
                } else {
                    0
                };
                v.push(
                    (
                        TaskInfo { id: self.tasks[i].id, state: code, kind },
                        self.tasks[i].priority,
                        self.tasks[i].name,
                    ),
                );
            }
            i += 1;
        }
        assert(all.take(i as int) =~= all);
        v
    }

    /// Set a live task's priority; tells whether that was done.
    pub fn set_task_priority(&mut self, id: TaskId, priority: u8) -> (r: bool)
        requires
            old(self).wf(),
        ensures
            final(self).wf(),
            r == (priority <= MAX_PRIORITY && is_alive(old(self)@.tasks, id)),
            ({
                let i = find_task(old(self)@.tasks, id, 0);
                final(self)@ == if r {
                    SchedView {
                        tasks: old(self)@.tasks.update(
                            i,
                            TaskView { priority, ..old(self)@.tasks[i] },
                        ),
                        ..old(self)@
                    }
                } else {
                    old(self)@
                }
            }),
    {
        if priority > MAX_PRIORITY {
            return false;
        }
        match self.find(id) {
            Some(i) => {
                let ghost s = self@;
                assert(self@.tasks[i as int] == self.tasks@[i as int]@);
                if self.tasks[i].state == TaskState::Dead {
                    return false;
                }
                self.tasks[i].priority = priority;
                proof {
                    let r = s.tasks.update(i as int, TaskView { priority, ..s.tasks[i as int] });
                    assert(self@.tasks =~= r);
                    assert forall|a: int, b: int| 0 <= a < b < r.len() implies (#[trigger] r[a]).id
                        != (#[trigger] r[b]).id by {
                        assert(s.tasks[a].id != s.tasks[b].id);
                    }
                }
                true
            },
            None => false,
        }
    }

    pub fn current_task_id(&self) -> (id: TaskId)
        requires
            self.wf(),
        ensures
            id == self@.tasks[self@.current].id,
    {
        assert(self@.tasks[self.current as int] == self.tasks@[self.current as int]@);
        self.tasks[self.current].id
    }

    /// The bytes of the current task's name before its first zero; `?` where
    /// they are not text.
    pub fn current_task_name(&self) -> (n: Vec<u8>)
        requires
            self.wf(),
        ensures
            n@ == shown_name(self@.tasks[self@.current].name),
    {
        let cur: usize = self.current;
        assert(self@.tasks[cur as int] == self.tasks@[cur as int]@);
        let name: [u8; 16] = self.tasks[cur].name;
        let mut len: usize = 0;
        while len < NAME_LEN && name[len] != 0
            invariant
                len <= NAME_LEN,
                name@.len() == NAME_LEN,
                zero_at(name@, 0) == zero_at(name@, len as int),
            decreases NAME_LEN - len,
        {
            len += 1;
        }
        let bytes: Vec<u8> = crate::bytes::copy_range(name.as_slice(), 0, len);
        if utf8_str(&bytes).is_some() {
            bytes
        } else {
            let mut q: Vec<u8> = Vec::new();
            q.push(0x3F);
            assert(q@ =~= seq![0x3Fu8]);
            q
        }
    }

    /// The entry point and stack of the current userspace task.
    pub fn current_entry_and_stack(&self) -> (r: (u64, u64))
        requires
            self.wf(),
            self@.tasks[self@.current].entry_point is Some,
            self@.tasks[self@.current].user_stack_top is Some,
        ensures
            Some(r.0) == self@.tasks[self@.current].entry_point,
            Some(r.1) == self@.tasks[self@.current].user_stack_top,
    {
        assert(self@.tasks[self.current as int] == self.tasks@[self.current as int]@);
        (
            self.tasks[self.current].entry_point.unwrap(),
            self.tasks[self.current].user_stack_top.unwrap(),
        )
    }

    pub fn current_page_table(&self) -> (r: Option<u64>)
        requires
            self.wf(),
        ensures
            r == self@.tasks[self@.current].page_table,
    {
        assert(self@.tasks[self.current as int] == self.tasks@[self.current as int]@);
        self.tasks[self.current].page_table
    }

    pub fn current_kernel_stack_top(&self) -> (r: u64)
        requires
            self.wf(),
        ensures
            r == self@.tasks[self@.current].stack_top,
    {
        assert(self@.tasks[self.current as int] == self.tasks@[self.current as int]@);
        self.tasks[self.current].stack_top
    }

    pub fn current_task_brk(&self) -> (r: u64)
        requires
            self.wf(),
        ensures
            r == self@.tasks[self@.current].brk,
    {
        assert(self@.tasks[self.current as int] == self.tasks@[self.current as int]@);
        self.tasks[self.current].brk
    }

    pub fn set_current_task_brk(&mut self, addr: u64)
        requires
            old(self).wf(),
        ensures
            final(self).wf(),
            final(self)@ == with_brk(old(self)@, addr),
    {
        let ghost s = self@;
        let cur: usize = self.current;
        self.tasks[cur].brk = addr;
        proof {
            let r = with_brk(s, addr);
            assert(self@.tasks =~= r.tasks);
            assert forall|a: int, b: int| 0 <= a < b < r.tasks.len() implies (#[trigger] r.tasks[a]).id
                != (#[trigger] r.tasks[b]).id by {
                assert(s.tasks[a].id != s.tasks[b].id);
            }
        }
    }

    /// The owner of the current task: user and group.
    pub fn current_task_owner(&self) -> (r: (u32, u32))
        requires
            self.wf(),
        ensures
            r.0 == self@.tasks[self@.current].uid,
            r.1 == self@.tasks[self@.current].gid,
    {
        assert(self@.tasks[self.current as int] == self.tasks@[self.current as int]@);
        (self.tasks[self.current].uid, self.tasks[self.current].gid)
    }

    pub fn set_current_task_owner(&mut self, uid: u32, gid: u32)
        requires
            old(self).wf(),
        ensures
            final(self).wf(),
            final(self)@ == with_owner(old(self)@, uid, gid),
    {
        let ghost s = self@;
        let cur: usize = self.current;
        self.tasks[cur].uid = uid;
        self.tasks[cur].gid = gid;
        proof {
            let r = with_owner(s, uid, gid);
            assert(self@.tasks =~= r.tasks);
            assert forall|a: int, b: int| 0 <= a < b < r.tasks.len() implies (#[trigger] r.tasks[a]).id
                != (#[trigger] r.tasks[b]).id by {
                assert(s.tasks[a].id != s.tasks[b].id);
            }
        }
    }

    /// Replace the capability table of the bootstrap task.
    pub fn set_bootstrap_cap_table(&mut self, table: CapabilityTable)
        requires
            old(self).wf(),
            find_task(old(self)@.tasks, 0, 0) < old(self)@.tasks.len(),
        ensures
            final(self).wf(),
            final(self)@ == (SchedView {
                caps: old(self)@.caps.update(
                    find_task(old(self)@.tasks, 0, 0),
                    (0u64, table@),
                ),
                ..old(self)@
            }),
    {
        if let Some(i) = self.find(0) {
            let ghost s = self@;
            let ghost tv = table@;
            assert(self@.tasks[i as int] == self.tasks@[i as int]@);
            self.caps.tasks[i] = TaskCaps { task_id: 0, table };
            assert(self@.caps =~= s.caps.update(i as int, (0u64, tv)));
            assert(self@.tasks =~= s.tasks);
        }
    }

    /// The slot of a task's capability table.
    pub fn cap_table_index(&self, id: TaskId) -> (r: Option<usize>)
        requires
            self.wf(),
        ensures
            match r {
                Some(i) => i == find_task(self@.tasks, id, 0) && i < self@.tasks.len()
                    && self@.caps[i as int].0 == id,
                None => find_task(self@.tasks, id, 0) == self@.tasks.len(),
            },
    {
        self.find(id)
    }
}

/// The first zero from `i` on, or the length.
pub open spec fn zero_at(name: Seq<u8>, i: int) -> int
    decreases name.len() - i,
{
    if i >= name.len() {
        name.len() as int
    } else if name[i] == 0 {
        i
    } else {
        zero_at(name, i + 1)
    }
}

/// The part of a name before its first zero, or `?` where that is not text.
pub open spec fn shown_name(name: Seq<u8>) -> Seq<u8> {
    let part = name.subrange(0, zero_at(name, 0));
    if vstd::utf8::valid_utf8(part) {
        part
    } else {
        seq![0x3Fu8]
    }
}

/// The current task with another program break.
pub open spec fn with_brk(s: SchedView, addr: u64) -> SchedView {
    SchedView {
        tasks: s.tasks.update(s.current, TaskView { brk: addr, ..s.tasks[s.current] }),
        ..s
    }
}

/// The current task with another owner.
pub open spec fn with_owner(s: SchedView, uid: u32, gid: u32) -> SchedView {
    SchedView {
        tasks: s.tasks.update(s.current, TaskView { uid, gid, ..s.tasks[s.current] }),
        ..s
    }
}

// ── Laws ─────────────────────────────────────────────────────────────────────

/// Identities are distinct.
pub open spec fn distinct_ids(tasks: Tasks) -> bool {
    forall|i: int, j: int|
        0 <= i < j < tasks.len() ==> (#[trigger] tasks[i]).id != (#[trigger] tasks[j]).id
}

proof fn lemma_find_is(tasks: Tasks, i: int)
    requires
        distinct_ids(tasks),
        0 <= i < tasks.len(),
    ensures
        find_task(tasks, tasks[i].id, 0) == i,
{
    lemma_find_task(tasks, tasks[i].id, 0);
    let f = find_task(tasks, tasks[i].id, 0);
    if f < i {
        assert(tasks[f].id != tasks[i].id);
    } else if f > i {
        assert(tasks[i].id != tasks[i].id);
    }
}

/// Waking the waiters changes no task but from blocked to ready, and does so
/// for each blocked one that is on the list.
proof fn lemma_notified(
    tasks: Tasks,
    waiters: Seq<Option<(TaskId, TaskId)>>,
    target: TaskId,
    k: int,
    i: int,
)
    requires
        distinct_ids(tasks),
        0 <= k <= waiters.len(),
        0 <= i < tasks.len(),
    ensures
        ({
            let r = notified(tasks, waiters, target, k).0;
            &&& r.len() == tasks.len()
            &&& r[i].id == tasks[i].id
            &&& r[i].state == tasks[i].state || (tasks[i].state == TaskState::Blocked && r[i].state
                == TaskState::Ready)
            &&& tasks[i].state == TaskState::Blocked && (exists|m: int|
                k <= m < waiters.len() && #[trigger] waiters[m] == Some((tasks[i].id, target)))
                ==> r[i].state == TaskState::Ready
        }),
    decreases waiters.len() - k,
{
    if k < waiters.len() {
        if waiters[k] is Some && (waiters[k]->0).1 == target {
            let w = (waiters[k]->0).0;
            let t1 = woken(tasks, w);
            lemma_find_task(tasks, w, 0);
            assert(distinct_ids(t1)) by {
                assert forall|a: int, b: int| 0 <= a < b < t1.len() implies (#[trigger] t1[a]).id
                    != (#[trigger] t1[b]).id by {
                    assert(tasks[a].id != tasks[b].id);
                }
            }
            let ws = waiters.update(k, None);
            lemma_notified(t1, ws, target, k + 1, i);
            if tasks[i].state == TaskState::Blocked {
                if w == tasks[i].id {
                    lemma_find_is(tasks, i);
                } else if exists|m: int|
                    k <= m < waiters.len() && #[trigger] waiters[m] == Some((tasks[i].id, target)) {
                    let m = choose|m: int|
                        k <= m < waiters.len() && #[trigger] waiters[m] == Some(
                            (tasks[i].id, target),
                        );
                    assert(ws[m] == waiters[m]);
                }
            }
        } else {
            lemma_notified(tasks, waiters, target, k + 1, i);
        }
    }
}

proof fn lemma_not_owned(exits: Seq<ExitRecord>, owner: TaskId, r: ExitRecord)
    ensures
        not_owned(exits, owner).contains(r) == (exits.contains(r) && r.owner != owner),
    decreases exits.len(),
{
    if exits.len() > 0 {
        let rest = exits.drop_last();
        lemma_not_owned(rest, owner, r);
        assert(exits =~= rest.push(exits.last()));
        lemma_push_contains(rest, exits.last(), r);
        lemma_push_contains(not_owned(rest, owner), exits.last(), r);
    }
}

proof fn lemma_push_contains(l: Seq<ExitRecord>, x: ExitRecord, r: ExitRecord)
    ensures
        l.push(x).contains(r) == (l.contains(r) || r == x),
{
    let p = l.push(x);
    if l.contains(r) {
        let k = choose|k: int| 0 <= k < l.len() && l[k] == r;
        assert(p[k] == r);
    }
    if r == x {
        assert(p[l.len() as int] == r);
    }
    if p.contains(r) {
        let k = choose|k: int| 0 <= k < p.len() && p[k] == r;
        if k < l.len() {
            assert(l[k] == r);
        }
    }
}

/// A task that waits for the one that ends is ready afterwards.
pub proof fn law_end_wakes_waiters(s: SchedView, status: u64, i: int, m: int)
    requires
        sched_ok(s),
        0 <= i < s.tasks.len(),
        i != s.current,
        s.tasks[i].state == TaskState::Blocked,
        0 <= m < s.waiters.len(),
        s.waiters[m] == Some((s.tasks[i].id, s.tasks[s.current].id)),
    ensures
        ended(s, status).tasks[i].state == TaskState::Ready,
{
    let t = with_state(s.tasks, s.current, TaskState::Dead);
    assert(distinct_ids(t)) by {
        assert forall|a: int, b: int| 0 <= a < b < t.len() implies (#[trigger] t[a]).id != (
        #[trigger] t[b]).id by {
            assert(s.tasks[a].id != s.tasks[b].id);
        }
    }
    lemma_notified(t, s.waiters, s.tasks[s.current].id, 0, i);
}

/// The status of a task that ends is what waiting for it gives, however many
/// other statuses are kept.
pub proof fn law_status_is_kept(s: SchedView, status: u64)
    requires
        sched_ok(s),
        find_exit(s.exits, s.tasks[s.current].id, 0) == s.exits.len(),
    ensures
        ({
            let e = ended(s, status);
            let id = s.tasks[s.current].id;
            let k = find_exit(e.exits, id, 0);
            &&& !is_alive(e.tasks, id)
            &&& k < e.exits.len()
            &&& e.exits[k].status == status
            &&& find_exit(e.exits.remove(k), id, 0) == e.exits.len() - 1
        }),
{
    let id = s.tasks[s.current].id;
    let e = ended(s, status);
    let t = with_state(s.tasks, s.current, TaskState::Dead);
    assert(distinct_ids(t)) by {
        assert forall|a: int, b: int| 0 <= a < b < t.len() implies (#[trigger] t[a]).id != (
        #[trigger] t[b]).id by {
            assert(s.tasks[a].id != s.tasks[b].id);
        }
    }
    lemma_notified(t, s.waiters, id, 0, s.current);
    assert(distinct_ids(e.tasks)) by {
        assert forall|a: int, b: int| 0 <= a < b < e.tasks.len() implies (#[trigger] e.tasks[a]).id
            != (#[trigger] e.tasks[b]).id by {
            lemma_notified(t, s.waiters, id, 0, a);
            lemma_notified(t, s.waiters, id, 0, b);
            assert(t[a].id != t[b].id);
        }
    }
    assert(e.tasks.len() == t.len());
    lemma_find_is(e.tasks, s.current);
    let kept = not_owned(s.exits, id);
    assert forall|j: int| 0 <= j < kept.len() implies (#[trigger] kept[j]).id != id by {
        lemma_not_owned(s.exits, id, kept[j]);
        assert(kept.contains(kept[j]));
        let m = choose|m: int| 0 <= m < s.exits.len() && s.exits[m] == kept[j];
        lemma_no_exit(s.exits, id, 0, m);
    }
    lemma_find_last(kept, ExitRecord { id, owner: s.tasks[s.current].spawner, status }, 0);
    assert(e.exits.remove(kept.len() as int) =~= kept);
    lemma_find_none(kept, id, 0);
}

proof fn lemma_no_exit(exits: Seq<ExitRecord>, id: TaskId, k: int, m: int)
    requires
        0 <= k <= m < exits.len(),
        find_exit(exits, id, k) == exits.len(),
    ensures
        exits[m].id != id,
    decreases m - k,
{
    if k < m {
        lemma_no_exit(exits, id, k + 1, m);
    }
}

proof fn lemma_find_none(exits: Seq<ExitRecord>, id: TaskId, k: int)
    requires
        0 <= k <= exits.len(),
        forall|j: int| 0 <= j < exits.len() ==> (#[trigger] exits[j]).id != id,
    ensures
        find_exit(exits, id, k) == exits.len(),
    decreases exits.len() - k,
{
    if k < exits.len() {
        lemma_find_none(exits, id, k + 1);
    }
}

proof fn lemma_find_last(kept: Seq<ExitRecord>, r: ExitRecord, k: int)
    requires
        0 <= k <= kept.len(),
        forall|j: int| 0 <= j < kept.len() ==> (#[trigger] kept[j]).id != r.id,
    ensures
        find_exit(kept.push(r), r.id, k) == kept.len(),
    decreases kept.len() - k,
{
    if k < kept.len() {
        assert(kept.push(r)[k] == kept[k]);
        lemma_find_last(kept, r, k + 1);
    }
}

/// When a task ends, the statuses that other tasks own stay and those that it
/// owns itself are dropped.
pub proof fn law_statuses_of_others_survive(s: SchedView, status: u64, r: ExitRecord)
    requires
        sched_ok(s),
        s.exits.contains(r),
    ensures
        r.owner != s.tasks[s.current].id ==> ended(s, status).exits.contains(r),
        r.owner == s.tasks[s.current].id && r.id != s.tasks[s.current].id ==> !ended(
            s,
            status,
        ).exits.contains(r),
{
    let id = s.tasks[s.current].id;
    let kept = not_owned(s.exits, id);
    lemma_not_owned(s.exits, id, r);
    lemma_push_contains(
        kept,
        ExitRecord { id, owner: s.tasks[s.current].spawner, status },
        r,
    );
}

/// When a task is killed, the statuses that other tasks own stay and those that
/// it owns are dropped.
pub proof fn law_a_kill_drops_what_the_dead_own(s: SchedView, id: TaskId, r: ExitRecord)
    requires
        sched_ok(s),
        can_kill(s, id),
    ensures
        killed(s, id).exits.contains(r) == (s.exits.contains(r) && r.owner != id),
        !is_alive(killed(s, id).tasks, id),
{
    lemma_not_owned(s.exits, id, r);
    let at = find_task(s.tasks, id, 0);
    let t = with_state(s.tasks, at, TaskState::Dead);
    lemma_find_task(s.tasks, id, 0);
    assert(distinct_ids(t)) by {
        assert forall|a: int, b: int| 0 <= a < b < t.len() implies (#[trigger] t[a]).id != (
        #[trigger] t[b]).id by {
            assert(s.tasks[a].id != s.tasks[b].id);
        }
    }
    lemma_notified(t, s.waiters, id, 0, at);
    let e = killed(s, id);
    assert(distinct_ids(e.tasks)) by {
        assert forall|a: int, b: int| 0 <= a < b < e.tasks.len() implies (#[trigger] e.tasks[a]).id
            != (#[trigger] e.tasks[b]).id by {
            lemma_notified(t, s.waiters, id, 0, a);
            lemma_notified(t, s.waiters, id, 0, b);
            assert(t[a].id != t[b].id);
        }
    }
    lemma_find_is(e.tasks, at);
}

/// A yield never lets a lower priority run while a higher one is ready, and
/// never picks a task that is blocked or dead.
pub proof fn law_highest_priority_runs(s: SchedView, to: int, j: int)
    requires
        sched_ok(s),
        is_next(s.tasks, after_current(s), to),
        0 <= j < s.tasks.len(),
        s.tasks[j].state == TaskState::Ready,
    ensures
        s.tasks[j].priority <= s.tasks[to].priority,
        s.tasks[to].state == TaskState::Ready,
        sched_ok(switched(s, TaskState::Ready, to)),
{
    lemma_switched_ok(s, TaskState::Ready, to);
}

} // verus!
