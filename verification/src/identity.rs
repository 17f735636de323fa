//! What holds of capability identities: they are given out once, so that no two
//! capabilities are taken for one another.

use vstd::prelude::*;
use crate::cap::{
    derived_cap, first_vacant, inherited_cap, lemma_first_vacant_bounds, root_cap, slot_lookup,
    slots_with, word_for_next, CapHandle, CapId, CapIds, CapKind, CapRights, CapSlots, CapView,
    KernelObject, KernelObjectRef, Space,
};
use crate::kernel::{boot_state, current_caps, minted, KernelView};
use crate::pci::DeviceView;
use crate::pmm::Used;
use crate::syscall::{
    cap_arrived, dispatched, exec_done, SyscallFrame, SYS_CAP_GRANT, SYS_CAP_REVOKE,
    SYS_IPC_SEND_CAP,
};
use crate::task::{
    find_task, inherited_all, lemma_find_task, live_tables, sched_ok, swept, TaskState, Tasks,
};
use crate::time::Clock;

verus! {

/// A capability stands in slot `j` of table `i`.
pub open spec fn live_at(space: Space, i: int, j: int) -> bool {
    0 <= i < space.len() && 0 <= j < space[i].1.len() && space[i].1[j].item is Some
}

/// The identity of the capability in slot `j` of table `i`.
pub open spec fn id_at(space: Space, i: int, j: int) -> CapId {
    space[i].1[j].item->0.id
}

/// No table holds a capability with this identity.
pub open spec fn absent(space: Space, id: CapId) -> bool {
    forall|i: int, j: int| #[trigger] live_at(space, i, j) ==> id_at(space, i, j) != id
}

/// Every identity in a table is below the next one to be given out, and no two
/// are equal.
pub open spec fn identities_ok(space: Space, next: CapId) -> bool {
    &&& forall|i: int, j: int| #[trigger] live_at(space, i, j) ==> id_at(space, i, j) < next
    &&& forall|i: int, j: int, m: int, n: int|
        #[trigger] live_at(space, i, j) && #[trigger] live_at(space, m, n) && (i != m || j != n)
            ==> id_at(space, i, j) != id_at(space, m, n)
}

/// So it is in the kernel's tables, and with the capability that is in transit.
pub open spec fn unique_identities(k: KernelView) -> bool {
    &&& identities_ok(k.sched.caps, k.ids.next)
    &&& k.in_transit matches Some(c) ==> c.id < k.ids.next && absent(k.sched.caps, c.id)
}

/// Whatever capabilities are left in `after` stood at the same places before.
pub open spec fn only_fewer(space: Space, after: Space) -> bool {
    forall|i: int, j: int| #[trigger]
        live_at(after, i, j) ==> live_at(space, i, j) && id_at(after, i, j) == id_at(space, i, j)
}

proof fn lemma_fewer(space: Space, after: Space, next: CapId, id: CapId)
    requires
        only_fewer(space, after),
        identities_ok(space, next),
    ensures
        identities_ok(after, next),
        absent(space, id) ==> absent(after, id),
{
}

/// One more capability, with an identity that no table holds.
proof fn lemma_one_more(space: Space, t: int, cap: CapView, next: CapId, id: CapId)
    requires
        0 <= t < space.len(),
        identities_ok(space, next),
        absent(space, cap.id),
    ensures
        ({
            let after = space.update(t, (space[t].0, slots_with(space[t].1, cap)));
            &&& cap.id < next ==> identities_ok(after, next)
            &&& cap.id == next && next < u64::MAX ==> identities_ok(after, (next + 1) as u64)
            &&& absent(space, id) && cap.id != id ==> absent(after, id)
        }),
{
    let after = space.update(t, (space[t].0, slots_with(space[t].1, cap)));
    lemma_first_vacant_bounds(space[t].1, 0);
    let v = first_vacant(space[t].1, 0);
    assert forall|i: int, j: int| #[trigger] live_at(after, i, j) implies (if i == t && j == v {
        id_at(after, i, j) == cap.id
    } else {
        live_at(space, i, j) && id_at(after, i, j) == id_at(space, i, j)
    }) by {}
}

/// No call gives two capabilities one identity, until the counter of identities
/// wraps: what is new gets one above all others, and what is sent keeps its own.
pub proof fn law_calls_keep_identities_unique(k: KernelView, f: SyscallFrame)
    requires
        sched_ok(k.sched),
        unique_identities(k),
        k.ids.next < u64::MAX,
    ensures
        unique_identities(dispatched(k, f).0),
{
    let after = dispatched(k, f).0;
    let space = k.sched.caps;
    let c = k.sched.current;
    let held = match k.in_transit {
        Some(x) => x.id,
        None => k.ids.next,
    };
    if f.nr == SYS_CAP_GRANT {
        if after != k {
            let to = find_task(k.sched.tasks, f.a2, 0);
            lemma_find_task(k.sched.tasks, f.a2, 0);
            let cap = slot_lookup(current_caps(k), f.a1)->Ok_0;
            let derived = derived_cap(cap, k.ids.next, CapRights(f.a3 as u8));
            lemma_one_more(space, to, derived, k.ids.next, held);
            let mid = space.update(to, (space[to].0, slots_with(space[to].1, derived)));
            let last = after.sched.caps;
            assert forall|i: int, j: int| #[trigger] live_at(last, i, j) implies live_at(mid, i, j)
                && id_at(last, i, j) == id_at(mid, i, j) by {}
            lemma_fewer(mid, last, (k.ids.next + 1) as u64, held);
        }
    } else if f.nr == SYS_CAP_REVOKE {
        lemma_fewer(space, after.sched.caps, k.ids.next, held);
    } else if f.nr == SYS_IPC_SEND_CAP {
        if after != k {
            let at = CapHandle(f.a4).slot();
            assert(live_at(space, c, at));
            lemma_fewer(space, after.sched.caps, k.ids.next, held);
            assert forall|i: int, j: int| #[trigger]
                live_at(after.sched.caps, i, j) implies id_at(after.sched.caps, i, j) != id_at(
                space,
                c,
                at,
            ) by {
                assert(live_at(space, i, j));
            }
        }
    } else {
        assert(after.sched.caps == space);
        assert(after.ids == k.ids && after.in_transit == k.in_transit);
    }
}

/// A new root capability has an identity of its own.
pub proof fn law_minting_keeps_identities_unique(
    k: KernelView,
    obj: KernelObject,
    kind: CapKind,
    rights: CapRights,
)
    requires
        sched_ok(k.sched),
        unique_identities(k),
        k.ids.next < u64::MAX,
    ensures
        unique_identities(minted(k, obj, kind, rights).0),
{
    reveal(minted);
    let space = k.sched.caps;
    let held = match k.in_transit {
        Some(x) => x.id,
        None => k.ids.next,
    };
    let r = KernelObjectRef(word_for_next(k.objects) as u64);
    lemma_one_more(
        space,
        k.sched.current,
        root_cap(k.ids.next, kind, rights, r),
        k.ids.next,
        held,
    );
}

/// A capability that arrives with its own identity, which no table holds and
/// which is not in transit any more, keeps identities unique.
pub proof fn law_arrival_keeps_identities_unique(k: KernelView, out: u64, cap: Option<CapView>)
    requires
        sched_ok(k.sched),
        unique_identities(k),
        cap matches Some(c) ==> c.id < k.ids.next && absent(k.sched.caps, c.id) && (
        k.in_transit matches Some(x) ==> x.id != c.id),
    ensures
        unique_identities(cap_arrived(k, out, cap).0),
{
    if let Some(c) = cap {
        let held = match k.in_transit {
            Some(x) => x.id,
            None => k.ids.next,
        };
        lemma_one_more(k.sched.caps, k.sched.current, c, k.ids.next, held);
    }
}

/// The identities that a new table takes.
proof fn lemma_inherited(
    space: Space,
    from: CapSlots,
    handles: Seq<CapHandle>,
    n: int,
    to: CapSlots,
    owner: u64,
    ids: CapIds,
    held: Option<CapId>,
)
    requires
        0 <= n <= handles.len(),
        ids.next + (handles.len() - n) <= u64::MAX,
        identities_ok(space.push((owner, to)), ids.next),
        held matches Some(id) ==> id < ids.next && absent(space.push((owner, to)), id),
    ensures
        ({
            let (table, ids1) = inherited_all(from, handles, n, to, ids);
            &&& identities_ok(space.push((owner, table)), ids1.next)
            &&& held matches Some(id) ==> id < ids1.next && absent(
                space.push((owner, table)),
                id,
            )
        }),
    decreases handles.len() - n,
{
    if n < handles.len() {
        match slot_lookup(from, handles[n].0) {
            Ok(cap) => {
                let child = inherited_cap(cap, ids.next);
                let now = space.push((owner, to));
                let t = space.len() as int;
                let id = match held {
                    Some(id) => id,
                    None => 0,
                };
                lemma_one_more(now, t, child, ids.next, id);
                assert(now.update(t, (now[t].0, slots_with(now[t].1, child))) =~= space.push(
                    (owner, slots_with(to, child)),
                ));
                lemma_inherited(
                    space,
                    from,
                    handles,
                    n + 1,
                    slots_with(to, child),
                    owner,
                    CapIds { next: ids.after() },
                    held,
                );
            },
            Err(_) => {
                lemma_inherited(space, from, handles, n + 1, to, owner, ids, held);
            },
        }
    }
}

/// A new task's capabilities have identities of their own, as long as the counter
/// does not wrap.
pub proof fn law_a_new_task_keeps_identities_unique(
    k: KernelView,
    base: u64,
    guard_phys: u64,
    page_table: u64,
    elf: Seq<u8>,
    caps: Seq<CapHandle>,
    argv: Seq<u8>,
)
    requires
        sched_ok(k.sched),
        unique_identities(k),
        k.ids.next + caps.len() <= u64::MAX,
    ensures
        unique_identities(exec_done(k, base, guard_phys, page_table, elf, caps, argv).0),
{
    let space = k.sched.caps;
    let owner = k.sched.next_id;
    let started = space.push((owner, seq![]));
    assert(only_fewer(space, started));
    let held = match k.in_transit {
        Some(x) => Some(x.id),
        None => None,
    };
    lemma_fewer(space, started, k.ids.next, match held {
        Some(id) => id,
        None => 0,
    });
    lemma_inherited(space, current_caps(k), caps, 0, seq![], owner, k.ids, held);
}

/// The place in the list of tasks of the `i`-th one that is not dead.
spec fn source(tasks: Tasks, caps: Space, i: int) -> int
    decreases tasks.len(),
{
    if tasks.len() == 0 {
        0
    } else if tasks.last().state != TaskState::Dead && i == live_tables(
        tasks.drop_last(),
        caps.drop_last(),
    ).len() {
        tasks.len() - 1
    } else {
        source(tasks.drop_last(), caps.drop_last(), i)
    }
}

proof fn lemma_source(tasks: Tasks, caps: Space, i: int, m: int)
    requires
        caps.len() == tasks.len(),
        0 <= i <= m < live_tables(tasks, caps).len(),
    ensures
        0 <= source(tasks, caps, i) < tasks.len(),
        live_tables(tasks, caps)[i] == caps[source(tasks, caps, i)],
        i < m ==> source(tasks, caps, i) < source(tasks, caps, m),
    decreases tasks.len(),
{
    let rest = live_tables(tasks.drop_last(), caps.drop_last());
    if i < rest.len() {
        lemma_source(tasks.drop_last(), caps.drop_last(), i, if m < rest.len() {
            m
        } else {
            i
        });
    }
}

/// Sweeping out the dead tasks keeps identities unique.
pub proof fn law_sweeping_keeps_identities_unique(k: KernelView)
    requires
        sched_ok(k.sched),
        unique_identities(k),
    ensures
        unique_identities(KernelView { sched: swept(k.sched), ..k }),
{
    let tasks = k.sched.tasks;
    let space = k.sched.caps;
    let after = live_tables(tasks, space);
    assert forall|i: int, j: int| #[trigger] live_at(after, i, j) implies live_at(
        space,
        source(tasks, space, i),
        j,
    ) && id_at(after, i, j) == id_at(space, source(tasks, space, i), j) by {
        lemma_source(tasks, space, i, i);
    }
    assert forall|i: int, j: int, m: int, n: int|
        #[trigger] live_at(after, i, j) && #[trigger] live_at(after, m, n) && (i != m || j
            != n) implies id_at(after, i, j) != id_at(after, m, n) by {
        if i < m {
            lemma_source(tasks, space, i, m);
        } else if m < i {
            lemma_source(tasks, space, m, i);
        }
        assert(live_at(space, source(tasks, space, i), j));
        assert(live_at(space, source(tasks, space, m), n));
    }
}

/// At boot, without capabilities, identities are unique.
pub proof fn law_identities_are_unique_at_boot(
    used: Used,
    devices: Seq<DeviceView>,
    clock: Clock,
    blk_present: bool,
)
    ensures
        unique_identities(boot_state(used, devices, clock, blk_present)),
{
}

} // verus!
