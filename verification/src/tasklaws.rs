//! What the scheduler does for tasks: who runs next, who is woken, what a new task
//! starts with, and what is left of one that has ended.

use vstd::prelude::*;
use vstd::utf8::valid_utf8;
use crate::calllaws::{lemma_woken_by, names, names_nothing, waits_from};
use crate::cap::{
    first_vacant, inherited_cap, slot_lookup, slots_with, CapHandle, CapIds, CapSlots, SlotView,
    Space,
};
use crate::task::{
    after_current, dead, distinct_ids, ended, enlisted, find_exit, find_task, free_slot, info_of,
    inherited_all, is_next, kernel_task, killed, lemma_find_task, live, live_tables, name_of,
    none_ready, not_owned, plan_of, roused, sched_ok, shown_name, switched, swept, user_joined,
    with_state, woken, zero_at, ExitRecord, SchedView, TaskState, TaskView, Tasks,
};

verus! {

// ── Turns ────────────────────────────────────────────────────────────────────

/// How many places behind the running task, going round, a task stands.
pub open spec fn distance(n: int, current: int, i: int) -> int {
    (i - current - 1) % n
}

/// The task that runs next is ready, of the highest priority among those that are,
/// and of these the one that stands next behind the running task, going round. It
/// runs then and no other does, the one that ran is as it was left, and nobody else
/// changes.
pub proof fn law_the_next_in_turn_runs(s: SchedView, to: int, left: TaskState, j: int)
    requires
        sched_ok(s),
        is_next(with_state(s.tasks, s.current, left), after_current(s), to),
        to != s.current,
        left != TaskState::Running,
        0 <= j < s.tasks.len(),
    ensures
        ({
            let r = switched(s, left, to);
            let n = s.tasks.len() as int;
            &&& s.tasks[to].state == TaskState::Ready
            &&& j != s.current && s.tasks[j].state == TaskState::Ready ==> s.tasks[j].priority
                < s.tasks[to].priority || (s.tasks[j].priority == s.tasks[to].priority && distance(
                n,
                s.current,
                to,
            ) <= distance(n, s.current, j))
            &&& r.current == to
            &&& r.tasks[to].state == TaskState::Running
            &&& r.tasks[s.current].state == left
            &&& j != to && j != s.current ==> r.tasks[j] == s.tasks[j]
            &&& r == (SchedView { tasks: r.tasks, current: to, ..s })
            &&& r.tasks.len() == s.tasks.len()
            &&& r.tasks[to] == (TaskView { state: TaskState::Running, ..s.tasks[to] })
            &&& r.tasks[s.current] == (TaskView { state: left, ..s.tasks[s.current] })
        }),
{
    let ts = with_state(s.tasks, s.current, left);
    let n = s.tasks.len() as int;
    let start = after_current(s);
    assert(ts[to] == s.tasks[to]);
    assert(ts[j].priority == s.tasks[j].priority);
    lemma_distance(n, s.current, to);
    lemma_distance(n, s.current, j);
    if j != s.current && s.tasks[j].state == TaskState::Ready {
        assert(ts[j] == s.tasks[j]);
        assert(crate::task::ready_at(ts, j, ts[j].priority));
    }
}

proof fn lemma_distance(n: int, current: int, i: int)
    requires
        0 <= current < n,
        0 <= i < n,
    ensures
        distance(n, current, i) == if current + 1 < n {
            if i >= current + 1 {
                i - (current + 1)
            } else {
                i - (current + 1) + n
            }
        } else {
            i
        },
{
    let d = i - current - 1;
    if d < 0 {
        assert((d + n) % n == d % n) by (nonlinear_arith)
            requires
                n > 0,
        ;
        assert(0 <= d + n < n);
        vstd::arithmetic::div_mod::lemma_small_mod((d + n) as nat, n as nat);
    } else {
        vstd::arithmetic::div_mod::lemma_small_mod(d as nat, n as nat);
    }
}

/// Nothing is ready exactly when no task is.
pub proof fn law_someone_ready_is_seen(s: SchedView)
    requires
        sched_ok(s),
    ensures
        none_ready(s.tasks) == (forall|j: int|
            0 <= j < s.tasks.len() ==> (#[trigger] s.tasks[j]).state != TaskState::Ready),
{
    if none_ready(s.tasks) {
        assert forall|j: int| 0 <= j < s.tasks.len() implies (#[trigger] s.tasks[j]).state
            != TaskState::Ready by {
            assert(s.tasks[j].priority <= 2);
        }
    }
}

// ── Ends ─────────────────────────────────────────────────────────────────────

/// What an end leaves behind: the task is dead, exactly the blocked tasks that wait
/// for it are ready, its own children's statuses are dropped, and its own status is
/// kept, last of all, for the task that started it.
pub proof fn law_what_an_end_leaves(s: SchedView, status: u64, j: int)
    requires
        sched_ok(s),
        0 <= j < s.tasks.len(),
    ensures
        ({
            let r = ended(s, status);
            let me = s.tasks[s.current];
            let u = s.tasks[j];
            &&& r.tasks.len() == s.tasks.len()
            &&& r.tasks[s.current] == (TaskView { state: TaskState::Dead, ..me })
            &&& j != s.current ==> r.tasks[j] == (TaskView {
                state: if u.state == TaskState::Blocked && waits_from(
                    s.waiters,
                    0,
                    u.id,
                    me.id,
                ) {
                    TaskState::Ready
                } else {
                    u.state
                },
                ..u
            })
            &&& r.exits == s.exits.filter(|x: ExitRecord| x.owner != me.id).push(
                ExitRecord { id: me.id, owner: me.spawner, status },
            )
            &&& r.waiters.len() == s.waiters.len()
            &&& forall|m: int|
                0 <= m < s.waiters.len() ==> #[trigger] r.waiters[m] == if s.waiters[m] is Some && (
                s.waiters[m]->0).1 == me.id {
                    None
                } else {
                    s.waiters[m]
                }
            &&& r == (SchedView { tasks: r.tasks, waiters: r.waiters, exits: r.exits, ..s })
        }),
{
    let t = with_state(s.tasks, s.current, TaskState::Dead);
    let id = s.tasks[s.current].id;
    assert(distinct_ids(t)) by {
        assert forall|a: int, b: int| 0 <= a < b < t.len() implies (#[trigger] t[a]).id != (
        #[trigger] t[b]).id by {
            assert(s.tasks[a].id != s.tasks[b].id);
        }
    }
    lemma_woken_by(t, s.waiters, id, 0);
    lemma_dropped(s.exits, id);
    assert(ended(s, status).tasks[j] == ended(s, status).tasks[j]);
    assert(ended(s, status).tasks[s.current].state == TaskState::Dead);
}

proof fn lemma_dropped(exits: Seq<ExitRecord>, owner: u64)
    ensures
        not_owned(exits, owner) == exits.filter(|x: ExitRecord| x.owner != owner),
    decreases exits.len(),
{
    reveal(Seq::filter);
    if exits.len() > 0 {
        lemma_dropped(exits.drop_last(), owner);
    }
}

/// What a kill leaves behind: the task is dead, exactly the blocked tasks that wait
/// for it are ready, its children's statuses are dropped, and it leaves none itself.
pub proof fn law_what_a_kill_leaves(s: SchedView, i: int, j: int)
    requires
        sched_ok(s),
        0 <= i < s.tasks.len(),
        0 <= j < s.tasks.len(),
    ensures
        ({
            let id = s.tasks[i].id;
            let r = killed(s, id);
            let u = s.tasks[j];
            &&& r.tasks.len() == s.tasks.len()
            &&& r.tasks[i] == (TaskView { state: TaskState::Dead, ..s.tasks[i] })
            &&& j != i ==> r.tasks[j] == (TaskView {
                state: if u.state == TaskState::Blocked && waits_from(s.waiters, 0, u.id, id) {
                    TaskState::Ready
                } else {
                    u.state
                },
                ..u
            })
            &&& r.exits == s.exits.filter(|x: ExitRecord| x.owner != id)
            &&& r == (SchedView { tasks: r.tasks, waiters: r.waiters, exits: r.exits, ..s })
        }),
{
    let id = s.tasks[i].id;
    let t = with_state(s.tasks, i, TaskState::Dead);
    lemma_find_task(s.tasks, id, 0);
    let at = find_task(s.tasks, id, 0);
    if at < i {
        assert(s.tasks[at].id != s.tasks[i].id);
    }
    assert(distinct_ids(t)) by {
        assert forall|a: int, b: int| 0 <= a < b < t.len() implies (#[trigger] t[a]).id != (
        #[trigger] t[b]).id by {
            assert(s.tasks[a].id != s.tasks[b].id);
        }
    }
    lemma_woken_by(t, s.waiters, id, 0);
    lemma_dropped(s.exits, id);
    assert(killed(s, id).tasks[j] == killed(s, id).tasks[j]);
    assert(killed(s, id).tasks[i].state == TaskState::Dead);
}

/// The status that is found for a task is the first that was kept for it; where
/// none was kept, none is found.
pub proof fn law_the_first_status_is_found(exits: Seq<ExitRecord>, id: u64, k: int)
    ensures
        0 <= k < exits.len() && exits[k].id == id && (forall|j: int|
            0 <= j < k ==> (#[trigger] exits[j]).id != id) ==> find_exit(exits, id, 0) == k,
        (forall|j: int| 0 <= j < exits.len() ==> (#[trigger] exits[j]).id != id) ==> find_exit(
            exits,
            id,
            0,
        ) == exits.len(),
{
    lemma_exit_at(exits, id, 0, k);
}

proof fn lemma_exit_at(exits: Seq<ExitRecord>, id: u64, from: int, k: int)
    requires
        0 <= from <= exits.len(),
    ensures
        from <= k < exits.len() && exits[k].id == id && (forall|j: int|
            0 <= j < k ==> (#[trigger] exits[j]).id != id) ==> find_exit(exits, id, from) == k,
        (forall|j: int| 0 <= j < exits.len() ==> (#[trigger] exits[j]).id != id) ==> find_exit(
            exits,
            id,
            from,
        ) == exits.len(),
    decreases exits.len() - from,
{
    if from < exits.len() && exits[from].id != id {
        lemma_exit_at(exits, id, from + 1, k);
    }
}

/// Sweeping takes out the dead, whole and in order, and no one else: the living stay
/// in their order with what they hold, and the running task still runs.
pub proof fn law_the_living_stay(s: SchedView)
    requires
        sched_ok(s),
    ensures
        live(s.tasks) == s.tasks.filter(|t: TaskView| t.state != TaskState::Dead),
        dead(s.tasks) == s.tasks.filter(|t: TaskView| t.state == TaskState::Dead),
        swept(s).tasks == live(s.tasks),
        swept(s).caps.len() == swept(s).tasks.len(),
        0 <= swept(s).current < swept(s).tasks.len(),
        swept(s).tasks[swept(s).current] == s.tasks[s.current],
        swept(s).caps[swept(s).current] == s.caps[s.current],
        forall|i: int|
            0 <= i < swept(s).tasks.len() ==> (#[trigger] swept(s).caps[i]).0
                == swept(s).tasks[i].id,
        swept(s) == (SchedView {
            tasks: swept(s).tasks,
            caps: swept(s).caps,
            current: swept(s).current,
            ..s
        }),
{
    lemma_live(s.tasks, s.caps, s.current);
}

proof fn lemma_live(tasks: Tasks, caps: Space, at: int)
    requires
        caps.len() == tasks.len(),
        forall|i: int| 0 <= i < tasks.len() ==> (#[trigger] caps[i]).0 == tasks[i].id,
    ensures
        live(tasks) == tasks.filter(|t: TaskView| t.state != TaskState::Dead),
        dead(tasks) == tasks.filter(|t: TaskView| t.state == TaskState::Dead),
        live_tables(tasks, caps).len() == live(tasks).len(),
        forall|i: int|
            0 <= i < live(tasks).len() ==> (#[trigger] live_tables(tasks, caps)[i]).0 == live(
                tasks,
            )[i].id,
        0 <= at < tasks.len() && tasks[at].state != TaskState::Dead ==> {
            let p = live(tasks.take(at)).len() as int;
            p < live(tasks).len() && live(tasks)[p] == tasks[at] && live_tables(tasks, caps)[p]
                == caps[at]
        },
    decreases tasks.len(),
{
    reveal(Seq::filter);
    if tasks.len() > 0 {
        let ts = tasks.drop_last();
        let cs = caps.drop_last();
        assert forall|i: int| 0 <= i < ts.len() implies (#[trigger] cs[i]).0 == ts[i].id by {
            assert(caps[i].0 == tasks[i].id);
        }
        lemma_live(ts, cs, at);
        if 0 <= at < ts.len() {
            assert(ts.take(at) =~= tasks.take(at));
        } else if at == ts.len() {
            assert(tasks.take(at) =~= ts);
        }
        assert(caps[tasks.len() - 1].0 == tasks[tasks.len() - 1].id);
    }
}

// ── Waiting and sleeping ─────────────────────────────────────────────────────

/// One that is put on a list stands there, in a slot that was free, and all others
/// stay where they were.
pub proof fn law_a_place_is_found(slots: Seq<Option<(u64, u64)>>, x: (u64, u64), free: int)
    requires
        0 <= free < slots.len(),
        slots[free] is None,
    ensures
        exists|k: int|
            #![trigger slots[k]]
            0 <= k <= free && slots[k] is None && enlisted(slots, x) == slots.update(k, Some(x)),
{
    lemma_free_slot(slots, 0, free);
    let k = free_slot(slots, 0);
    assert(slots[k] is None);
}

proof fn lemma_free_slot(slots: Seq<Option<(u64, u64)>>, from: int, free: int)
    requires
        0 <= from <= free < slots.len(),
        slots[free] is None,
    ensures
        from <= free_slot(slots, from) <= free,
        slots[free_slot(slots, from)] is None,
    decreases free - from,
{
    if slots[from] is Some {
        lemma_free_slot(slots, from + 1, free);
    }
}

/// A task sleeps in a slot from `k` on, until a tick that has come.
pub open spec fn due_from(
    sleepers: Seq<Option<(u64, u64)>>,
    k: int,
    id: u64,
    tick: u64,
) -> bool {
    exists|m: int|
        k <= m < sleepers.len() && (#[trigger] sleepers[m]) is Some && (sleepers[m]->0).0 == id && (
        sleepers[m]->0).1 <= tick
}

/// Exactly the blocked tasks whose time has come are woken, and their slots are free
/// again; all others sleep on.
pub proof fn law_sleepers_wake_when_due(
    tasks: Tasks,
    sleepers: Seq<Option<(u64, u64)>>,
    tick: u64,
)
    requires
        distinct_ids(tasks),
    ensures
        ({
            let (ts, ss) = roused(tasks, sleepers, tick, 0);
            &&& ts.len() == tasks.len()
            &&& ss.len() == sleepers.len()
            &&& forall|i: int|
                0 <= i < tasks.len() ==> #[trigger] ts[i] == (TaskView {
                    state: if tasks[i].state == TaskState::Blocked && due_from(
                        sleepers,
                        0,
                        tasks[i].id,
                        tick,
                    ) {
                        TaskState::Ready
                    } else {
                        tasks[i].state
                    },
                    ..tasks[i]
                })
            &&& forall|m: int|
                0 <= m < sleepers.len() ==> #[trigger] ss[m] == if sleepers[m] is Some && (
                sleepers[m]->0).1 <= tick {
                    None
                } else {
                    sleepers[m]
                }
        }),
{
    lemma_roused(tasks, sleepers, tick, 0);
}

proof fn lemma_roused(tasks: Tasks, sleepers: Seq<Option<(u64, u64)>>, tick: u64, k: int)
    requires
        distinct_ids(tasks),
        0 <= k <= sleepers.len(),
    ensures
        ({
            let (ts, ss) = roused(tasks, sleepers, tick, k);
            &&& ts.len() == tasks.len()
            &&& ss.len() == sleepers.len()
            &&& forall|i: int|
                0 <= i < tasks.len() ==> #[trigger] ts[i] == (TaskView {
                    state: if tasks[i].state == TaskState::Blocked && due_from(
                        sleepers,
                        k,
                        tasks[i].id,
                        tick,
                    ) {
                        TaskState::Ready
                    } else {
                        tasks[i].state
                    },
                    ..tasks[i]
                })
            &&& forall|m: int|
                0 <= m < sleepers.len() ==> #[trigger] ss[m] == if k <= m && sleepers[m] is Some && (
                sleepers[m]->0).1 <= tick {
                    None
                } else {
                    sleepers[m]
                }
        }),
    decreases sleepers.len() - k,
{
    let (ts, ss) = roused(tasks, sleepers, tick, k);
    if k < sleepers.len() {
        if sleepers[k] is Some && (sleepers[k]->0).1 <= tick {
            let w = (sleepers[k]->0).0;
            let t1 = woken(tasks, w);
            let s1 = sleepers.update(k, None);
            lemma_find_task(tasks, w, 0);
            let at = find_task(tasks, w, 0);
            assert(distinct_ids(t1)) by {
                assert forall|a: int, b: int| 0 <= a < b < t1.len() implies (#[trigger] t1[a]).id != (
                #[trigger] t1[b]).id by {
                    assert(tasks[a].id != tasks[b].id);
                }
            }
            lemma_roused(t1, s1, tick, k + 1);
            assert forall|i: int| 0 <= i < tasks.len() implies #[trigger] ts[i] == (TaskView {
                state: if tasks[i].state == TaskState::Blocked && due_from(
                    sleepers,
                    k,
                    tasks[i].id,
                    tick,
                ) {
                    TaskState::Ready
                } else {
                    tasks[i].state
                },
                ..tasks[i]
            }) by {
                let id = tasks[i].id;
                if due_from(s1, k + 1, id, tick) {
                    let m = choose|m: int|
                        k + 1 <= m < s1.len() && (#[trigger] s1[m]) is Some && (s1[m]->0).0 == id
                            && (s1[m]->0).1 <= tick;
                    assert(sleepers[m] is Some);
                }
                if due_from(sleepers, k, id, tick) && w != id {
                    let m = choose|m: int|
                        k <= m < sleepers.len() && (#[trigger] sleepers[m]) is Some && (
                        sleepers[m]->0).0 == id && (sleepers[m]->0).1 <= tick;
                    assert(s1[m] is Some);
                }
                if w == id {
                    assert(sleepers[k] is Some);
                    if at < i {
                        assert(tasks[at].id != tasks[i].id);
                    }
                    assert(at == i);
                } else if at < tasks.len() {
                    assert(tasks[at].id == w);
                }
            }
        } else {
            lemma_roused(tasks, sleepers, tick, k + 1);
            assert forall|i: int| 0 <= i < tasks.len() implies due_from(
                sleepers,
                k,
                (#[trigger] tasks[i]).id,
                tick,
            ) == due_from(sleepers, k + 1, tasks[i].id, tick) by {
                let id = tasks[i].id;
                if due_from(sleepers, k, id, tick) {
                    let m = choose|m: int|
                        k <= m < sleepers.len() && (#[trigger] sleepers[m]) is Some && (
                        sleepers[m]->0).0 == id && (sleepers[m]->0).1 <= tick;
                    assert(m != k);
                }
                if due_from(sleepers, k + 1, id, tick) {
                    let m = choose|m: int|
                        k + 1 <= m < sleepers.len() && (#[trigger] sleepers[m]) is Some && (
                        sleepers[m]->0).0 == id && (sleepers[m]->0).1 <= tick;
                    assert(sleepers[m] is Some);
                }
            }
        }
    }
}

// ── New tasks ────────────────────────────────────────────────────────────────

/// A kernel stack has 64 KiB above a guard page, which is the first whole page of
/// what was allocated, and starts with the eight words that the first switch takes.
pub proof fn law_a_stack_lies_above_its_guard(base: u64)
    requires
        base < 0xFFFF_FFFF_0000_0000,
    ensures
        plan_of(base).guard_va % 0x1000 == 0,
        base <= plan_of(base).guard_va < base + 0x1000,
        plan_of(base).stack_top == plan_of(base).guard_va + 0x1000 + 0x1_0000,
        plan_of(base).initial_rsp + 8 * 8 == plan_of(base).stack_top,
{
}

/// A new task has the next identity, is ready at normal priority with nothing
/// mapped, and belongs to the user and group of the task that starts it, which owns
/// it. Started in user space it begins at its entry, on its stack, in its own
/// address space, under its name. It stands behind all others, who do not change.
pub proof fn law_a_new_task_belongs_to_its_parent(
    s: SchedView,
    ids: CapIds,
    base: u64,
    guard_phys: u64,
    entry: u64,
    stack: u64,
    caps: Seq<CapHandle>,
    page_table: u64,
    name: Seq<u8>,
)
    requires
        sched_ok(s),
        s.next_id < u64::MAX,
    ensures
        ({
            let me = s.tasks[s.current];
            let k = kernel_task(s, plan_of(base), guard_phys);
            let r = user_joined(s, ids, k, entry, stack, caps, page_table, name).0;
            let u = r.tasks[s.tasks.len() as int];
            &&& k.id == s.next_id && u.id == s.next_id
            &&& k.state == TaskState::Ready && u.state == TaskState::Ready
            &&& k.priority == 1 && u.priority == 1
            &&& k.spawner == me.id && u.spawner == me.id
            &&& k.uid == me.uid && u.uid == me.uid
            &&& k.gid == me.gid && u.gid == me.gid
            &&& k.page_table is None && k.entry_point is None && k.user_stack_top is None
            &&& u.page_table == Some(page_table)
            &&& u.entry_point == Some(entry)
            &&& u.user_stack_top == Some(stack)
            &&& u.vma_list.len() == 0 && u.brk == 0
            &&& u.guard_page == Some((plan_of(base).guard_va, guard_phys))
            &&& u.stack_top == plan_of(base).stack_top
            &&& u.context.rsp == plan_of(base).initial_rsp
            &&& r.tasks.len() == s.tasks.len() + 1
            &&& forall|i: int| 0 <= i < s.tasks.len() ==> #[trigger] r.tasks[i] == s.tasks[i]
            &&& forall|i: int| 0 <= i < s.tasks.len() ==> #[trigger] r.caps[i] == s.caps[i]
            &&& r.caps.len() == s.caps.len() + 1
            &&& r.caps[s.tasks.len() as int].0 == s.next_id
            &&& r.next_id == s.next_id + 1
            &&& r.current == s.current
            &&& r.exits == s.exits && r.waiters == s.waiters && r.sleepers == s.sleepers
            &&& u.name == name_of(name)
        }),
{
}

/// A name of at most 15 bytes of text without a zero is shown as it was given, and a
/// longer one by its first 15 bytes.
pub proof fn law_a_name_is_shown_as_given(name: Seq<u8>)
    requires
        forall|i: int| 0 <= i < name.len() ==> name[i] != 0,
    ensures
        name_of(name).len() == 16,
        ({
            let part = if name.len() <= 15 {
                name
            } else {
                name.take(15)
            };
            valid_utf8(part) ==> shown_name(name_of(name)) == part
        }),
{
    let n = name_of(name);
    let m = if name.len() <= 15 {
        name.len() as int
    } else {
        15
    };
    lemma_zero_at(n, 0, m);
    let part = if name.len() <= 15 {
        name
    } else {
        name.take(15)
    };
    assert(n.subrange(0, m) =~= part);
}

proof fn lemma_zero_at(name: Seq<u8>, i: int, m: int)
    requires
        0 <= i <= m < name.len(),
        forall|j: int| i <= j < m ==> name[j] != 0,
        name[m] == 0,
    ensures
        zero_at(name, i) == m,
    decreases m - i,
{
    if i < m {
        lemma_zero_at(name, i + 1, m);
    }
}

/// A new task inherits, in order, exactly the capabilities that the handles name:
/// each of the same kind, object and rights, under an identity of its own. Handles
/// that name nothing are passed over.
pub proof fn law_a_new_task_inherits_what_it_is_given(
    from: CapSlots,
    handles: Seq<CapHandle>,
    ids: CapIds,
)
    requires
        ids.next + handles.len() <= u64::MAX,
    ensures
        ({
            let given = handles.filter(|h: CapHandle| !names_nothing(from, h.0));
            let (table, after) = inherited_all(from, handles, 0, seq![], ids);
            &&& table.len() == given.len()
            &&& after.next == ids.next + given.len()
            &&& forall|j: int|
                0 <= j < given.len() ==> {
                    let c = (#[trigger] table[j]).item;
                    let p = from[given[j].0 as int % 0x1_0000_0000].item->0;
                    &&& table[j].generation == 0
                    &&& names(from, given[j].0, p)
                    &&& c is Some
                    &&& c->0.kind == p.kind
                    &&& c->0.object == p.object
                    &&& c->0.rights == p.rights
                    &&& c->0.parent_id == p.parent_id
                    &&& c->0.id == ids.next + j
                    &&& c->0.children.len() == 0
                }
        }),
{
    lemma_inherits(from, handles, 0, seq![], ids, seq![], ids);
    let keep = |h: CapHandle| !names_nothing(from, h.0);
    assert(handles.skip(0) =~= handles);
    assert(seq![] + handles.filter(keep) =~= handles.filter(keep));
}

/// A table in which stand, in order, the heirs of what the handles name.
spec fn heirs(from: CapSlots, given: Seq<CapHandle>, table: CapSlots, first: int) -> bool {
    &&& table.len() == given.len()
    &&& forall|j: int|
        0 <= j < given.len() ==> {
            let c = (#[trigger] table[j]).item;
            let p = from[given[j].0 as int % 0x1_0000_0000].item->0;
            &&& table[j].generation == 0
            &&& names(from, given[j].0, p)
            &&& c is Some
            &&& c->0.kind == p.kind
            &&& c->0.object == p.object
            &&& c->0.rights == p.rights
            &&& c->0.parent_id == p.parent_id
            &&& c->0.id == first + j
            &&& c->0.children.len() == 0
        }
}

proof fn lemma_inherits(
    from: CapSlots,
    handles: Seq<CapHandle>,
    k: int,
    to: CapSlots,
    ids: CapIds,
    given: Seq<CapHandle>,
    first: CapIds,
)
    requires
        0 <= k <= handles.len(),
        heirs(from, given, to, first.next as int),
        ids.next == first.next + given.len(),
        ids.next + (handles.len() - k) <= u64::MAX,
    ensures
        ({
            let all = given + handles.skip(k).filter(
                |h: CapHandle| !names_nothing(from, h.0),
            );
            let (table, after) = inherited_all(from, handles, k, to, ids);
            heirs(from, all, table, first.next as int) && after.next == first.next + all.len()
        }),
    decreases handles.len() - k,
{
    let keep = |h: CapHandle| !names_nothing(from, h.0);
    let rest = handles.skip(k);
    reveal(Seq::filter);
    if k == handles.len() {
        assert(rest =~= seq![]);
        assert(given + rest.filter(keep) =~= given);
    } else {
        let h = handles[k];
        assert(rest.drop_first() =~= handles.skip(k + 1));
        assert(rest[0] == h);
        lemma_filter_first(rest, keep);
        lemma_word_names(from, h.0);
        match slot_lookup(from, h.0) {
            Ok(cap) => {
                let child = inherited_cap(cap, ids.next);
                assert(names(from, h.0, cap));
                let next = slots_with(to, child);
                lemma_full(to, 0);
                assert(next =~= to.push(SlotView { generation: 0, item: Some(child) }));
                let more = given.push(h);
                assert(heirs(from, more, next, first.next as int)) by {
                    assert forall|j: int| 0 <= j < more.len() implies ({
                        let c = (#[trigger] next[j]).item;
                        let p = from[more[j].0 as int % 0x1_0000_0000].item->0;
                        &&& next[j].generation == 0
                        &&& names(from, more[j].0, p)
                        &&& c is Some
                        &&& c->0.kind == p.kind
                        &&& c->0.object == p.object
                        &&& c->0.rights == p.rights
                        &&& c->0.parent_id == p.parent_id
                        &&& c->0.id == first.next + j
                        &&& c->0.children.len() == 0
                    }) by {
                        if j < given.len() {
                            assert(next[j] == to[j]);
                            assert(more[j] == given[j]);
                        }
                    }
                }
                lemma_inherits(
                    from,
                    handles,
                    k + 1,
                    next,
                    CapIds { next: ids.after() },
                    more,
                    first,
                );
                assert(more + handles.skip(k + 1).filter(keep) =~= given + rest.filter(keep));
            },
            Err(_) => {
                lemma_inherits(from, handles, k + 1, to, ids, given, first);
                assert(given + handles.skip(k + 1).filter(keep) =~= given + rest.filter(keep));
            },
        }
    }
}

proof fn lemma_word_names(slots: CapSlots, word: u64)
    ensures
        slot_lookup(slots, word) is Ok ==> names(slots, word, slot_lookup(slots, word)->Ok_0)
            && !names_nothing(slots, word),
        slot_lookup(slots, word) is Err ==> names_nothing(slots, word),
{
    if slot_lookup(slots, word) is Ok {
        assert(names(slots, word, slot_lookup(slots, word)->Ok_0));
    }
}

proof fn lemma_full(slots: CapSlots, from: int)
    requires
        0 <= from <= slots.len(),
        forall|j: int| 0 <= j < slots.len() ==> (#[trigger] slots[j]).item is Some,
    ensures
        first_vacant(slots, from) == slots.len(),
    decreases slots.len() - from,
{
    if from < slots.len() {
        lemma_full(slots, from + 1);
    }
}

proof fn lemma_filter_first(s: Seq<CapHandle>, keep: spec_fn(CapHandle) -> bool)
    requires
        s.len() > 0,
    ensures
        s.filter(keep) == (if keep(s[0]) {
            seq![s[0]]
        } else {
            seq![]
        }) + s.drop_first().filter(keep),
    decreases s.len(),
{
    reveal(Seq::filter);
    let head = if keep(s[0]) {
        seq![s[0]]
    } else {
        seq![]
    };
    if s.len() == 1 {
        assert(s.drop_last() =~= seq![]);
        assert(s.drop_first() =~= seq![]);
        assert(s.filter(keep) =~= head + s.drop_first().filter(keep));
    } else {
        lemma_filter_first(s.drop_last(), keep);
        assert(s.drop_last()[0] == s[0]);
        assert(s.drop_last().drop_first() =~= s.drop_first().drop_last());
        assert(s.drop_first().last() == s.last());
        assert(s.filter(keep) =~= head + s.drop_first().filter(keep));
    }
}

/// How a task is listed: its identity, 1 while it runs, 2 while it is ready, 3 while
/// it is blocked, 0 once it is dead, and 1 for user space or 0 for the kernel.
pub proof fn law_how_a_task_is_listed(t: TaskView)
    ensures
        info_of(t).id == t.id,
        t.state == TaskState::Running ==> info_of(t).state == 1,
        t.state == TaskState::Ready ==> info_of(t).state == 2,
        t.state == TaskState::Blocked ==> info_of(t).state == 3,
        t.state == TaskState::Dead ==> info_of(t).state == 0,
        (info_of(t).kind == 1) == (t.page_table is Some),
        info_of(t).kind == 0 || info_of(t).kind == 1,
{
}

} // verus!
