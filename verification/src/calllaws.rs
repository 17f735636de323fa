//! What every call does, in terms of what the caller asks for and holds: which
//! requests are permitted, and what is then done.

use vstd::prelude::*;
use vstd::utf8::valid_utf8;
use crate::cap::{
    cap_at, derived_cap, derives, descends, first_vacant, grant_chain, holds_kind, inherited_cap,
    lemma_descends_step, lemma_first_vacant_bounds, next_generation, node_of, slot_lookup, task_at,
    CapHandle, CapKind, CapRights, CapSlots, CapView, KernelObject, Node, SlotView, Space,
};
use crate::kernel::KernelView;
use crate::memlaws::law_frames_are_taken_in_order;
use crate::pmm::lowest_free;
use crate::syscall::{
    args_from, dac_permits, dispatched, field_end, heap_grown, input_taken, path_check, refusal,
    rename_refusal, user_range, Access, Action, PathOp, SyscallFrame,
};
use crate::task::{
    distinct_ids, find_task, lemma_find_task, lower_bound, notified, overlaps, sched_ok, vma_with,
    vmas_ok, with_state, woken, SchedView, TaskState, TaskView, Tasks,
};
use crate::time::Clock;

verus! {

// ── What a caller holds ──────────────────────────────────────────────────────

/// The answers that refuse a call.
pub const NO_SUCH_CALL: u64 = 0xFFFF_FFFF_FFFF_FFFF;

pub const NO_CAPABILITY: u64 = 0xFFFF_FFFF_FFFF_FFFE;

pub const NOT_PERMITTED: u64 = 0xFFFF_FFFF_FFFF_FFFD;

pub const INVALID: u64 = 0xFFFF_FFFF_FFFF_FFFC;

pub const NOT_FOUND: u64 = 0xFFFF_FFFF_FFFF_FFFB;

/// A word names an item: its low half is the slot, its high half the slot's
/// generation.
pub open spec fn names<T>(slots: Seq<SlotView<T>>, word: u64, item: T) -> bool {
    let i = word as int % 0x1_0000_0000;
    &&& i < slots.len()
    &&& slots[i].generation as int == word as int / 0x1_0000_0000
    &&& slots[i].item == Some(item)
}

/// A word names nothing.
pub open spec fn names_nothing<T>(slots: Seq<SlotView<T>>, word: u64) -> bool {
    forall|item: T| !names(slots, word, item)
}

/// The capabilities of the task that runs.
pub open spec fn own(k: KernelView) -> CapSlots {
    k.sched.caps[k.sched.current].1
}

/// Some capability of a kind has all the rights of a word.
pub open spec fn holds(slots: CapSlots, kind: CapKind, rights: u8) -> bool {
    exists|j: int|
        0 <= j < slots.len() && (#[trigger] slots[j]).item is Some && slots[j].item->0.kind == kind
            && slots[j].item->0.rights.0 & rights == rights
}

/// Every byte of a range is one that users can address, and none is at 0.
pub open spec fn reachable(ptr: u64, len: int) -> bool {
    ptr != 0 && forall|a: int| #![trigger in_user_half(a)] ptr <= a < ptr + len ==> in_user_half(a)
}

pub open spec fn in_user_half(a: int) -> bool {
    0 <= a < 0x8000_0000_0000
}

pub proof fn lemma_names<T>(slots: Seq<SlotView<T>>, word: u64)
    ensures
        forall|item: T| #[trigger]
            names(slots, word, item) ==> slot_lookup(slots, word) == Ok::<T, crate::cap::CapError>(
                item,
            ),
        names_nothing(slots, word) ==> slot_lookup(slots, word) is Err,
{
    if slot_lookup(slots, word) is Ok {
        assert(names(slots, word, slot_lookup(slots, word)->Ok_0));
    }
}

pub proof fn lemma_reachable(ptr: u64, len: u64)
    ensures
        user_range(ptr, len) == reachable(ptr, len as int),
{
    if len > 0 && reachable(ptr, len as int) {
        assert(in_user_half(ptr + len - 1));
    }
}

// ── Messages ─────────────────────────────────────────────────────────────────

/// How much of a message is moved: all of it, up to 64 bytes.
pub open spec fn is_moved(asked: u64, len: u64) -> bool {
    len <= asked && len <= 64 && (len == asked || len == 64)
}

/// Whoever holds a capability for an endpoint with the right to write sends there
/// what the call names, whole up to 64 bytes, and whoever holds one with the right
/// to read receives there; nothing of the state changes. Without the right the call
/// is not permitted.
pub proof fn law_a_message_is_moved_whole(
    k: KernelView,
    f: SyscallFrame,
    cap: CapView,
    endpoint: usize,
    len: u64,
)
    requires
        names(own(k), f.a1, cap),
        cap.kind == CapKind::Ipc,
        names(k.objects, cap.object.0, KernelObject::Ipc { endpoint_idx: endpoint }),
        is_moved(f.a3, len),
        reachable(f.a2, len as int),
    ensures
        cap.rights.0 & 2 == 2 ==> {
            &&& f.nr == 6 ==> dispatched(k, f) == (k, Action::Send { endpoint, ptr: f.a2, len })
            &&& f.nr == 43 ==> dispatched(k, f) == (
                k,
                Action::SendTimeout { endpoint, ptr: f.a2, len, timeout_ms: f.a4 },
            )
        },
        cap.rights.0 & 1 == 1 ==> {
            &&& f.nr == 7 ==> dispatched(k, f) == (k, Action::Recv { endpoint, ptr: f.a2, len })
            &&& f.nr == 39 ==> dispatched(k, f) == (k, Action::Poll { endpoint, ptr: f.a2, len })
            &&& f.nr == 42 ==> dispatched(k, f) == (
                k,
                Action::RecvTimeout { endpoint, ptr: f.a2, len, timeout_ms: f.a4 },
            )
            &&& f.nr == 13 && (f.a4 == 0 || reachable(f.a4, 8)) ==> dispatched(k, f) == (
                k,
                Action::RecvCap { endpoint, ptr: f.a2, len, out: f.a4 },
            )
        },
        cap.rights.0 & 2 != 2 && (f.nr == 6 || f.nr == 43 || f.nr == 12) ==> dispatched(k, f) == (
            k,
            Action::Return(NOT_PERMITTED),
        ),
        cap.rights.0 & 1 != 1 && (f.nr == 7 || f.nr == 39 || f.nr == 42 || (f.nr == 13 && (f.a4 == 0
            || reachable(f.a4, 8)))) ==> dispatched(k, f) == (k, Action::Return(NOT_PERMITTED)),
{
    lemma_names(own(k), f.a1);
    lemma_names(k.objects, cap.object.0);
    lemma_reachable(f.a2, len);
    lemma_reachable(f.a4, 8);
}

/// A message whose buffer does not lie where users can address it is refused as
/// invalid, and one to what is no endpoint of the caller's as such: the handle names
/// nothing, or something else, or an object that is gone.
pub proof fn law_a_bad_message_is_refused(k: KernelView, f: SyscallFrame, len: u64)
    requires
        f.nr == 6 || f.nr == 7 || f.nr == 39 || f.nr == 42 || f.nr == 43 || f.nr == 12 || f.nr == 13,
        is_moved(f.a3, len),
    ensures
        !reachable(f.a2, len as int) ==> dispatched(k, f) == (k, Action::Return(INVALID)),
        f.nr == 13 && f.a4 != 0 && !reachable(f.a4, 8) ==> dispatched(k, f) == (
            k,
            Action::Return(INVALID),
        ),
        reachable(f.a2, len as int) && (f.nr == 13 ==> f.a4 == 0 || reachable(f.a4, 8)) ==> {
            &&& names_nothing(own(k), f.a1) ==> dispatched(k, f) == (
                k,
                Action::Return(NO_CAPABILITY),
            )
            &&& forall|cap: CapView| #[trigger]
                names(own(k), f.a1, cap) && cap.kind != CapKind::Ipc ==> dispatched(k, f) == (
                    k,
                    Action::Return(NOT_PERMITTED),
                )
            &&& forall|cap: CapView| #[trigger]
                names(own(k), f.a1, cap) && cap.kind == CapKind::Ipc && cap.rights.0 & 3 == 3
                    && names_nothing(k.objects, cap.object.0) ==> dispatched(k, f) == (
                    k,
                    Action::Return(NO_CAPABILITY),
                )
        },
{
    lemma_names(own(k), f.a1);
    lemma_reachable(f.a2, len);
    lemma_reachable(f.a4, 8);
    assert forall|cap: CapView| #[trigger]
        names(own(k), f.a1, cap) && cap.kind == CapKind::Ipc && cap.rights.0 & 3 == 3
            && names_nothing(k.objects, cap.object.0) && reachable(f.a2, len as int) && (f.nr == 13
            ==> f.a4 == 0 || reachable(f.a4, 8)) implies dispatched(k, f) == (
        k,
        Action::Return(NO_CAPABILITY),
    ) by {
        lemma_names(k.objects, cap.object.0);
        let r = cap.rights.0;
        assert(r & 1 == 1 && r & 2 == 2) by (bit_vector)
            requires
                r & 3 == 3,
        ;
    }
}

// ── Access to files ──────────────────────────────────────────────────────────

/// The three bits of a mode that decide over a task: those of the owner, of the
/// group, or of all others, from the highest to the lowest.
pub open spec fn decides(mode: u16, shift: u16, bit: u16) -> bool {
    (mode >> shift) & bit == bit
}

/// Root may do everything. Whoever owns a file may do what the owner's bits of its
/// mode permit, else whoever is in its group what the group's bits do, and everyone
/// else what the lowest three bits do. Each kind of access is decided on its own,
/// and several are permitted exactly when each of them is.
pub proof fn law_the_mode_decides(
    mode: u16,
    inode_uid: u32,
    inode_gid: u32,
    uid: u32,
    gid: u32,
    bits: u16,
)
    requires
        bits <= 7,
    ensures
        ({
            let may = dac_permits(mode, inode_uid, inode_gid, uid, gid, bits);
            &&& uid == 0 ==> may
            &&& uid != 0 && uid == inode_uid ==> may == decides(mode, 6, bits)
            &&& uid != 0 && uid != inode_uid && gid == inode_gid ==> may == decides(mode, 3, bits)
            &&& uid != 0 && uid != inode_uid && gid != inode_gid ==> may == decides(mode, 0, bits)
            &&& may == ((bits & 4 == 4 ==> dac_permits(mode, inode_uid, inode_gid, uid, gid, 4)) && (
            bits & 2 == 2 ==> dac_permits(mode, inode_uid, inode_gid, uid, gid, 2)) && (bits & 1
                == 1 ==> dac_permits(mode, inode_uid, inode_gid, uid, gid, 1)))
            &&& mode % 0x200 == 0x1FF ==> may
            &&& mode % 0x200 == 0 && uid != 0 && bits != 0 ==> !may
        }),
{
    assert(((mode / 64) % 8) & bits == (mode >> 6) & bits) by (bit_vector)
        requires
            bits <= 7,
    ;
    assert(((mode / 8) % 8) & bits == (mode >> 3) & bits) by (bit_vector)
        requires
            bits <= 7,
    ;
    assert((mode % 8) & bits == (mode >> 0) & bits) by (bit_vector)
        requires
            bits <= 7,
    ;
    lemma_bits_apart((mode / 64 % 8) as u16, bits);
    lemma_bits_apart((mode / 8 % 8) as u16, bits);
    lemma_bits_apart((mode % 8) as u16, bits);
    if mode % 0x200 == 0x1FF {
        assert(mode / 64 % 8 == 7 && mode / 8 % 8 == 7 && mode % 8 == 7);
    }
    if mode % 0x200 == 0 {
        assert(mode / 64 % 8 == 0 && mode / 8 % 8 == 0 && mode % 8 == 0);
    }
}

proof fn lemma_bits_apart(class: u16, bits: u16)
    requires
        bits <= 7,
        class <= 7,
    ensures
        (class & bits == bits) == ((bits & 4 == 4 ==> class & 4 == 4) && (bits & 2 == 2 ==> class & 2
            == 2) && (bits & 1 == 1 ==> class & 1 == 1)),
        class == 7 ==> class & bits == bits,
        class == 0 && bits != 0 ==> class & bits != bits,
{
    assert((class & bits == bits) == ((bits & 4 == 4 ==> class & 4 == 4) && (bits & 2 == 2 ==> class
        & 2 == 2) && (bits & 1 == 1 ==> class & 1 == 1)) && (class == 7 ==> class & bits == bits)
        && (class == 0 && bits != 0 ==> class & bits != bits)) by (bit_vector)
        requires
            bits <= 7,
            class <= 7,
    ;
}

/// What is asked for beyond reading, writing and running is permitted to nobody but
/// root.
pub proof fn law_nothing_else_is_permitted(
    mode: u16,
    inode_uid: u32,
    inode_gid: u32,
    uid: u32,
    gid: u32,
    bits: u16,
)
    requires
        bits > 7,
    ensures
        dac_permits(mode, inode_uid, inode_gid, uid, gid, bits) == (uid == 0),
{
    assert(forall|class: u16| class < 8 && #[trigger] (class & bits) == bits ==> bits < 8)
        by (bit_vector);
}

// ── Arguments of new processes ───────────────────────────────────────────────

/// Fields one after the other, with a zero behind each.
pub open spec fn block_of(fields: Seq<Seq<u8>>) -> Seq<u8>
    decreases fields.len(),
{
    if fields.len() == 0 {
        seq![]
    } else {
        fields[0] + seq![0u8] + block_of(fields.drop_first())
    }
}

/// No field holds a zero.
pub open spec fn zero_free(fields: Seq<Seq<u8>>) -> bool {
    forall|i: int, j: int|
        0 <= i < fields.len() && 0 <= j < fields[i].len() ==> #[trigger] fields[i][j] != 0
}

/// The arguments of a new process come out of their block as they went in: each
/// string that is text and not empty, in order, and nothing else. What is empty or
/// no text is passed over, and the last one may go without its zero.
pub proof fn law_arguments_come_out_as_they_went_in(fields: Seq<Seq<u8>>, last: Seq<u8>)
    requires
        zero_free(fields.push(last)),
    ensures
        args_from(block_of(fields), 0) == fields.filter(
            |x: Seq<u8>| x.len() > 0 && valid_utf8(x),
        ),
        args_from(block_of(fields) + last, 0) == fields.push(last).filter(
            |x: Seq<u8>| x.len() > 0 && valid_utf8(x),
        ),
        (forall|i: int|
            0 <= i < fields.len() ==> (#[trigger] fields[i]).len() > 0 && valid_utf8(fields[i]))
            ==> args_from(block_of(fields), 0) == fields,
{
    let keep = |x: Seq<u8>| x.len() > 0 && valid_utf8(x);
    let all = fields.push(last);
    assert forall|i: int, j: int|
        0 <= i < fields.len() && 0 <= j < fields[i].len() implies #[trigger] fields[i][j] != 0 by {
        assert(all[i][j] != 0);
    }
    assert forall|j: int| 0 <= j < last.len() implies #[trigger] last[j] != 0 by {
        assert(all[fields.len() as int][j] != 0);
    }
    lemma_fields(seq![], fields, seq![]);
    lemma_fields(seq![], fields, last);
    assert(seq![] + block_of(fields) + seq![] =~= block_of(fields));
    assert(seq![] + block_of(fields) + last =~= block_of(fields) + last);
    assert(kept(seq![]) =~= seq![]);
    assert(fields.filter(keep) + seq![] =~= fields.filter(keep));
    assert(all.filter(keep) =~= fields.filter(keep) + kept(last)) by {
        reveal(Seq::filter);
        assert(all.drop_last() =~= fields);
        assert(all.last() == last);
    }
    if forall|i: int|
        0 <= i < fields.len() ==> (#[trigger] fields[i]).len() > 0 && valid_utf8(fields[i]) {
        lemma_all_kept(fields);
    }
}

/// A last field, where it is an argument.
spec fn kept(last: Seq<u8>) -> Seq<Seq<u8>> {
    if last.len() > 0 && valid_utf8(last) {
        seq![last]
    } else {
        seq![]
    }
}

proof fn lemma_all_kept(fields: Seq<Seq<u8>>)
    requires
        forall|i: int|
            0 <= i < fields.len() ==> (#[trigger] fields[i]).len() > 0 && valid_utf8(fields[i]),
    ensures
        fields.filter(|x: Seq<u8>| x.len() > 0 && valid_utf8(x)) == fields,
    decreases fields.len(),
{
    reveal(Seq::filter);
    if fields.len() > 0 {
        lemma_all_kept(fields.drop_last());
        assert(fields.drop_last().push(fields.last()) =~= fields);
    }
}

proof fn lemma_field_ends(buf: Seq<u8>, i: int, e: int)
    requires
        0 <= i <= e <= buf.len(),
        forall|j: int| i <= j < e ==> buf[j] != 0,
        e < buf.len() ==> buf[e] == 0,
    ensures
        field_end(buf, i) == e,
    decreases e - i,
{
    if i < e {
        lemma_field_ends(buf, i + 1, e);
    }
}

/// The filter of a sequence, from its front.
proof fn lemma_filter_front(fields: Seq<Seq<u8>>)
    requires
        fields.len() > 0,
    ensures
        fields.filter(|x: Seq<u8>| x.len() > 0 && valid_utf8(x)) == kept(fields[0])
            + fields.drop_first().filter(|x: Seq<u8>| x.len() > 0 && valid_utf8(x)),
    decreases fields.len(),
{
    let keep = |x: Seq<u8>| x.len() > 0 && valid_utf8(x);
    reveal(Seq::filter);
    if fields.len() == 1 {
        assert(fields.drop_last() =~= seq![]);
        assert(fields.drop_first() =~= seq![]);
        assert(fields.filter(keep) =~= kept(fields[0]) + fields.drop_first().filter(keep));
    } else {
        lemma_filter_front(fields.drop_last());
        assert(fields.drop_last()[0] == fields[0]);
        assert(fields.drop_last().drop_first() =~= fields.drop_first().drop_last());
        assert(fields.drop_first().last() == fields.last());
        assert(fields.filter(keep) =~= kept(fields[0]) + fields.drop_first().filter(keep));
    }
}

/// The arguments behind what stands before them in a block.
proof fn lemma_fields(before: Seq<u8>, fields: Seq<Seq<u8>>, last: Seq<u8>)
    requires
        zero_free(fields),
        forall|j: int| 0 <= j < last.len() ==> last[j] != 0,
    ensures
        args_from(before + block_of(fields) + last, before.len() as int) == fields.filter(
            |x: Seq<u8>| x.len() > 0 && valid_utf8(x),
        ) + kept(last),
    decreases fields.len(),
{
    let keep = |x: Seq<u8>| x.len() > 0 && valid_utf8(x);
    let buf = before + block_of(fields) + last;
    let i = before.len() as int;
    if fields.len() == 0 {
        reveal(Seq::filter);
        assert(buf =~= before + last);
        lemma_field_ends(buf, i, buf.len() as int);
        assert(buf.subrange(i, buf.len() as int) =~= last);
        assert(args_from(buf, buf.len() as int + 1) =~= seq![]);
        if i < buf.len() {
            assert(args_from(buf, i) =~= kept(last));
        } else {
            assert(last =~= seq![]);
        }
        assert(fields.filter(keep) =~= seq![]);
        assert(fields.filter(keep) + kept(last) =~= kept(last));
    } else {
        let x = fields[0];
        let rest = fields.drop_first();
        let e = i + x.len();
        assert(block_of(fields) =~= x + seq![0u8] + block_of(rest));
        assert forall|j: int| i <= j < e implies buf[j] != 0 by {
            assert(buf[j] == fields[0][j - i]);
        }
        assert(buf[e] == 0);
        lemma_field_ends(buf, i, e);
        assert(buf.subrange(i, e) =~= x);
        let upto = before + x + seq![0u8];
        assert(upto + block_of(rest) + last =~= buf);
        assert forall|a: int, b: int|
            0 <= a < rest.len() && 0 <= b < rest[a].len() implies #[trigger] rest[a][b] != 0 by {
            assert(fields[a + 1][b] != 0);
        }
        lemma_fields(upto, rest, last);
        lemma_filter_front(fields);
        assert(args_from(buf, i) =~= kept(x) + args_from(buf, e + 1));
        assert(args_from(buf, i) =~= fields.filter(keep) + kept(last));
    }
}

// ── Sending capabilities, and names of endpoints ─────────────────────────────

/// A capability that is sent leaves the sender's table for the message, and nothing
/// else moves: its slot is empty and keeps its generation, every other slot of every
/// task stays, and so does the rest of the state. One that is not there cannot be
/// sent.
pub proof fn law_a_capability_leaves_with_its_message(
    k: KernelView,
    f: SyscallFrame,
    cap: CapView,
    endpoint: usize,
    len: u64,
)
    requires
        sched_ok(k.sched),
        f.nr == 12,
        names(own(k), f.a1, cap),
        cap.kind == CapKind::Ipc,
        cap.rights.0 & 2 == 2,
        names(k.objects, cap.object.0, KernelObject::Ipc { endpoint_idx: endpoint }),
        is_moved(f.a3, len),
        reachable(f.a2, len as int),
    ensures
        names_nothing(own(k), f.a4) ==> dispatched(k, f) == (k, Action::Return(NO_CAPABILITY)),
        forall|moved: CapView| #[trigger]
            names(own(k), f.a4, moved) ==> {
                let (after, a) = dispatched(k, f);
                let at = f.a4 as int % 0x1_0000_0000;
                &&& a == Action::SendCap { endpoint, ptr: f.a2, len }
                &&& after.in_transit == Some(moved)
                &&& after == (KernelView {
                    sched: SchedView { caps: after.sched.caps, ..k.sched },
                    in_transit: Some(moved),
                    ..k
                })
                &&& after.sched.caps.len() == k.sched.caps.len()
                &&& forall|i: int|
                    0 <= i < k.sched.caps.len() && i != k.sched.current
                        ==> #[trigger] after.sched.caps[i] == k.sched.caps[i]
                &&& own(after).len() == own(k).len()
                &&& own(after)[at] == (SlotView {
                    generation: own(k)[at].generation,
                    item: None::<CapView>,
                })
                &&& forall|j: int|
                    0 <= j < own(k).len() && j != at ==> #[trigger] own(after)[j] == own(k)[j]
            },
{
    lemma_names(own(k), f.a1);
    lemma_names(own(k), f.a4);
    lemma_names(k.objects, cap.object.0);
    lemma_reachable(f.a2, len);
}

/// A name has 1 to 128 bytes that the caller can address. Binding one takes an
/// endpoint with the right to grant.
pub proof fn law_an_endpoint_is_bound_to_a_name(
    k: KernelView,
    f: SyscallFrame,
    cap: CapView,
    endpoint: usize,
)
    requires
        names(own(k), f.a1, cap),
        names(k.objects, cap.object.0, KernelObject::Ipc { endpoint_idx: endpoint }),
    ensures
        f.nr == 40 ==> dispatched(k, f) == (
            k,
            if !(1 <= f.a3 <= 128 && reachable(f.a2, f.a3 as int)) {
                Action::Return(INVALID)
            } else if cap.kind == CapKind::Ipc && cap.rights.0 & 4 == 4 {
                Action::BindName { endpoint, ptr: f.a2, len: f.a3 }
            } else {
                Action::Return(NOT_PERMITTED)
            },
        ),
{
    lemma_names(own(k), f.a1);
    lemma_names(k.objects, cap.object.0);
    lemma_reachable(f.a2, f.a3);
}

/// Looking up a name takes no capability, and asks for the rights to read and to
/// write that the call names, or for both where it names neither.
pub proof fn law_anyone_looks_up_a_name(k: KernelView, f: SyscallFrame)
    requires
        f.nr == 41,
    ensures
        dispatched(k, f).0 == k,
        1 <= f.a2 <= 128 && reachable(f.a1, f.a2 as int) ==> {
            &&& dispatched(k, f).1 matches Action::LookupName { ptr, len, rights } && ptr == f.a1
                && len == f.a2 && rights.0 as int == if f.a3 % 4 == 0 {
                3int
            } else {
                (f.a3 % 4) as int
            }
        },
        !(1 <= f.a2 <= 128 && reachable(f.a1, f.a2 as int)) ==> dispatched(k, f).1
            == Action::Return(INVALID),
{
    lemma_reachable(f.a1, f.a2);
    let m = f.a3;
    assert(((m as u8) & 0x3) as u64 == m % 4) by (bit_vector);
}

// ── Capabilities ─────────────────────────────────────────────────────────────

/// A right is one of the eight bits of a word of rights.
pub open spec fn has_right(rights: u8, n: int) -> bool {
    0 <= n < 8 && (rights >> (n as u8)) & 1 == 1
}

/// A grant passes on exactly the rights that both the parent and the mask have, of
/// the same object, and names the parent. What is inherited has all rights of what
/// it is inherited from. Neither has children of its own.
pub proof fn law_a_grant_passes_what_both_have(
    cap: CapView,
    id: u64,
    mask: CapRights,
    n: int,
)
    requires
        0 <= n < 8,
    ensures
        ({
            let child = derived_cap(cap, id, mask);
            &&& has_right(child.rights.0, n) == (has_right(cap.rights.0, n) && has_right(mask.0, n))
            &&& child.kind == cap.kind
            &&& child.object == cap.object
            &&& child.parent_id == Some(cap.id)
            &&& child.id == id
            &&& child.children.len() == 0
        }),
        ({
            let heir = inherited_cap(cap, id);
            &&& has_right(heir.rights.0, n) == has_right(cap.rights.0, n)
            &&& heir.kind == cap.kind
            &&& heir.object == cap.object
            &&& heir.parent_id == cap.parent_id
            &&& heir.id == id
            &&& heir.children.len() == 0
        }),
        cap.rights.spec_has(mask) == (forall|m: int|
            #![trigger has_right(mask.0, m)]
            has_right(mask.0, m) ==> has_right(cap.rights.0, m)),
{
    let a = cap.rights.0;
    let m = mask.0;
    let s = n as u8;
    assert((((a & m) >> s) & 1 == 1) == (((a >> s) & 1 == 1) && ((m >> s) & 1 == 1))) by (bit_vector)
        requires
            s < 8,
    ;
    lemma_all_rights(a, m);
}

proof fn lemma_all_rights(a: u8, m: u8)
    ensures
        (a & m == m) == (forall|n: int|
            #![trigger has_right(m, n)]
            has_right(m, n) ==> has_right(a, n)),
{
    if a & m == m {
        assert forall|n: int| #![trigger has_right(m, n)] has_right(m, n) implies has_right(a, n) by {
            let s = n as u8;
            assert(((m >> s) & 1 == 1) ==> ((a >> s) & 1 == 1)) by (bit_vector)
                requires
                    s < 8,
                    a & m == m,
            ;
        }
    } else {
        let w = !a & m;
        assert(w != 0) by (bit_vector)
            requires
                a & m != m,
                w == !a & m,
        ;
        assert(((w >> 0) & 1 == 1) || ((w >> 1) & 1 == 1) || ((w >> 2) & 1 == 1) || ((w >> 3) & 1
            == 1) || ((w >> 4) & 1 == 1) || ((w >> 5) & 1 == 1) || ((w >> 6) & 1 == 1) || ((w >> 7)
            & 1 == 1)) by (bit_vector)
            requires
                w != 0,
        ;
        let n = if (w >> 0) & 1 == 1 {
            0int
        } else if (w >> 1) & 1 == 1 {
            1
        } else if (w >> 2) & 1 == 1 {
            2
        } else if (w >> 3) & 1 == 1 {
            3
        } else if (w >> 4) & 1 == 1 {
            4
        } else if (w >> 5) & 1 == 1 {
            5
        } else if (w >> 6) & 1 == 1 {
            6
        } else {
            7
        };
        let s = n as u8;
        assert((m >> s) & 1 == 1 && (a >> s) & 1 == 0) by (bit_vector)
            requires
                s < 8,
                w == !a & m,
                (w >> s) & 1 == 1,
        ;
        assert(has_right(m, n) && !has_right(a, n));
    }
}

/// Granting a capability to another task puts a new one into that task's table,
/// under the handle that is answered: of the same kind and object, with exactly the
/// rights that the granted one and the mask both have. The granted one stays, and
/// so does everything else that any task holds.
pub proof fn law_what_is_granted_is_held(k: KernelView, f: SyscallFrame, cap: CapView, to: int)
    requires
        sched_ok(k.sched),
        f.nr == 4,
        names(own(k), f.a1, cap),
        cap.rights.0 & 4 == 4,
        0 <= to < k.sched.tasks.len(),
        to != k.sched.current,
        k.sched.tasks[to].id == f.a2,
        k.sched.caps[to].1.len() < 0x1_0000_0000,
    ensures
        ({
            let (after, a) = dispatched(k, f);
            let h = a->Return_0;
            let child = after.sched.caps[to].1[h as int % 0x1_0000_0000].item->0;
            &&& a is Return
            &&& names(after.sched.caps[to].1, h, child)
            &&& child.kind == cap.kind
            &&& child.object == cap.object
            &&& child.parent_id == Some(cap.id)
            &&& forall|n: int|
                0 <= n < 8 ==> #[trigger] has_right(child.rights.0, n) == (has_right(
                    cap.rights.0,
                    n,
                ) && has_right((f.a3 % 0x100) as u8, n))
            &&& forall|word: u64, x: CapView| #[trigger]
                names(k.sched.caps[to].1, word, x) ==> names(after.sched.caps[to].1, word, x)
            &&& names(own(after), f.a1, CapView {
                children: cap.children.push((f.a2, CapHandle(h))),
                ..cap
            })
            &&& forall|word: u64, x: CapView| #[trigger]
                names(own(k), word, x) && word != f.a1 ==> names(own(after), word, x)
            &&& forall|i: int|
                0 <= i < k.sched.caps.len() && i != to && i != k.sched.current
                    ==> #[trigger] after.sched.caps[i] == k.sched.caps[i]
            &&& after == (KernelView {
                ids: after.ids,
                sched: SchedView { caps: after.sched.caps, ..k.sched },
                ..k
            })
        }),
{
    lemma_names(own(k), f.a1);
    lemma_find_task(k.sched.tasks, f.a2, 0);
    let at = find_task(k.sched.tasks, f.a2, 0);
    if at < to {
        assert(k.sched.tasks[at].id != k.sched.tasks[to].id);
    }
    assert(at == to);
    let (after, a) = dispatched(k, f);
    let slots = k.sched.caps[to].1;
    let v = first_vacant(slots, 0);
    lemma_first_vacant_bounds(slots, 0);
    let h = a->Return_0;
    let g = next_generation(slots, v);
    assert(h == g * 0x1_0000_0000 + v);
    assert(h as int % 0x1_0000_0000 == v && h as int / 0x1_0000_0000 == g);
    let m = f.a3;
    assert((m as u8) == (m % 0x100) as u8) by (bit_vector);
    let child = derived_cap(cap, k.ids.next, CapRights((f.a3 % 0x100) as u8));
    assert(after.sched.caps[to].1[v].item == Some(child));
    assert forall|n: int| 0 <= n < 8 implies #[trigger] has_right(child.rights.0, n) == (has_right(
        cap.rights.0,
        n,
    ) && has_right((f.a3 % 0x100) as u8, n)) by {
        law_a_grant_passes_what_both_have(cap, k.ids.next, CapRights((f.a3 % 0x100) as u8), n);
    }
    assert forall|word: u64, x: CapView| #[trigger]
        names(own(k), word, x) && word != f.a1 implies names(own(after), word, x) by {
        if word as int % 0x1_0000_0000 == f.a1 as int % 0x1_0000_0000 {
            assert(word as int / 0x1_0000_0000 == f.a1 as int / 0x1_0000_0000);
            assert(word == f.a1);
        }
    }
}

/// A grant is refused where the handle names nothing, where the other task is not
/// there or is the caller itself, and where the right to grant is missing, in this
/// order. Nothing changes.
pub proof fn law_a_bad_grant_is_refused(k: KernelView, f: SyscallFrame, cap: CapView)
    requires
        sched_ok(k.sched),
        f.nr == 4,
    ensures
        names_nothing(own(k), f.a1) ==> dispatched(k, f) == (k, Action::Return(NO_CAPABILITY)),
        names(own(k), f.a1, cap) ==> {
            let stranger = exists|i: int|
                0 <= i < k.sched.tasks.len() && i != k.sched.current && (
                #[trigger] k.sched.tasks[i]).id == f.a2;
            &&& !stranger ==> dispatched(k, f) == (k, Action::Return(INVALID))
            &&& stranger && cap.rights.0 & 4 != 4 ==> dispatched(k, f) == (
                k,
                Action::Return(NOT_PERMITTED),
            )
        },
{
    lemma_names(own(k), f.a1);
    lemma_find_task(k.sched.tasks, f.a2, 0);
    let at = find_task(k.sched.tasks, f.a2, 0);
    if exists|i: int|
        0 <= i < k.sched.tasks.len() && i != k.sched.current && (#[trigger] k.sched.tasks[i]).id
            == f.a2 {
        let i = choose|i: int|
            0 <= i < k.sched.tasks.len() && i != k.sched.current && (#[trigger] k.sched.tasks[i]).id
                == f.a2;
        if at < i {
            assert(k.sched.tasks[at].id != k.sched.tasks[i].id);
        }
        assert(at == i);
    } else if at < k.sched.tasks.len() {
        assert(k.sched.tasks[at].id == f.a2);
    }
}

/// A revocation takes the handle's capability and all that was granted on from it:
/// whatever is gone of what a task held was derived, grant by grant, from what is
/// revoked, and everything that was derived from something that is gone is gone too.
pub proof fn law_a_revocation_takes_what_was_granted_on(
    k: KernelView,
    f: SyscallFrame,
    cap: CapView,
)
    requires
        sched_ok(k.sched),
        f.nr == 5,
        names(own(k), f.a1, cap) || names_nothing(own(k), f.a1),
    ensures
        names_nothing(own(k), f.a1) ==> dispatched(k, f) == (k, Action::Return(NO_CAPABILITY)),
        names(own(k), f.a1, cap) && cap.rights.0 & 8 != 8 ==> dispatched(k, f) == (
            k,
            Action::Return(NOT_PERMITTED),
        ),
        names(own(k), f.a1, cap) && cap.rights.0 & 8 == 8 ==> {
            let (after, a) = dispatched(k, f);
            &&& a == Action::Return(0)
            &&& names_nothing(own(after), f.a1)
            &&& after == (KernelView {
                sched: SchedView { caps: after.sched.caps, ..k.sched },
                ..k
            })
            &&& forall|i: int, j: int, c: int|
                #![trigger k.sched.caps[i].1[j].item->0.children[c]]
                0 <= i < k.sched.caps.len() && 0 <= j < k.sched.caps[i].1.len()
                    && k.sched.caps[i].1[j].item is Some && after.sched.caps[i].1[j].item is None
                    && 0 <= c < k.sched.caps[i].1[j].item->0.children.len() ==> {
                    let (task, h) = k.sched.caps[i].1[j].item->0.children[c];
                    forall|t: int|
                        0 <= t < k.sched.tasks.len() && (#[trigger] k.sched.tasks[t]).id == task
                            ==> names_nothing(after.sched.caps[t].1, h.0)
                }
        },
{
    lemma_names(own(k), f.a1);
    let space = k.sched.caps;
    let cur = k.sched.current;
    let id = k.sched.tasks[cur].id;
    let handle = CapHandle(f.a1);
    if names(own(k), f.a1, cap) && cap.rights.0 & 8 == 8 {
        lemma_task_at(k.sched, cur);
        let root = node_of(space, id, handle)->0;
        assert(root == (cur, handle.slot()));
        let path = seq![root];
        assert(grant_chain(space, path) && path[0] == root && path.last() == root);
        assert(descends(space, root, root));
        let (after, a) = dispatched(k, f);
        assert forall|i: int, j: int, c: int|
            #![trigger k.sched.caps[i].1[j].item->0.children[c]]
            0 <= i < k.sched.caps.len() && 0 <= j < k.sched.caps[i].1.len()
                && k.sched.caps[i].1[j].item is Some && after.sched.caps[i].1[j].item is None && 0
                <= c < k.sched.caps[i].1[j].item->0.children.len() implies ({
            let (task, h) = k.sched.caps[i].1[j].item->0.children[c];
            forall|t: int|
                0 <= t < k.sched.tasks.len() && (#[trigger] k.sched.tasks[t]).id == task
                    ==> names_nothing(after.sched.caps[t].1, h.0)
        }) by {
            let (task, h) = k.sched.caps[i].1[j].item->0.children[c];
            assert(descends(space, root, (i, j)));
            assert forall|t: int|
                0 <= t < k.sched.tasks.len() && (
                #[trigger] k.sched.tasks[t]).id == task implies names_nothing(
                after.sched.caps[t].1,
                h.0,
            ) by {
                lemma_task_at(k.sched, t);
                lemma_names(space[t].1, h.0);
                if !names_nothing(after.sched.caps[t].1, h.0) {
                    let x = choose|x: CapView| names(after.sched.caps[t].1, h.0, x);
                    assert(names(space[t].1, h.0, x));
                    let b = (t, h.slot());
                    assert(node_of(space, task, h) == Some(b));
                    assert(cap_at(space, (i, j)).children[c] == (task, h));
                    assert(derives(space, (i, j), b));
                    lemma_descends_step(space, root, (i, j), b);
                }
            }
        }
    }
}

/// Each task's table is found under its identity.
proof fn lemma_task_at(s: SchedView, t: int)
    requires
        sched_ok(s),
        0 <= t < s.tasks.len(),
    ensures
        task_at(s.caps, s.tasks[t].id, 0) == t,
{
    lemma_task_at_from(s, t, 0);
}

proof fn lemma_task_at_from(s: SchedView, t: int, i: int)
    requires
        sched_ok(s),
        0 <= i <= t < s.tasks.len(),
    ensures
        task_at(s.caps, s.tasks[t].id, i) == t,
    decreases t - i,
{
    assert(s.caps[i].0 == s.tasks[i].id);
    if i < t {
        assert(s.tasks[i].id != s.tasks[t].id);
        lemma_task_at_from(s, t, i + 1);
    }
}

/// What is gone after a revocation descends from what was revoked: without grants
/// there is nothing else to lose.
pub proof fn law_a_revocation_takes_nothing_else(k: KernelView, f: SyscallFrame, i: int, j: int)
    requires
        sched_ok(k.sched),
        f.nr == 5,
        0 <= i < k.sched.caps.len(),
        0 <= j < k.sched.caps[i].1.len(),
        (i, j) != (k.sched.current, f.a1 as int % 0x1_0000_0000),
        forall|a: int, b: int, c: int|
            #![trigger k.sched.caps[a].1[b].item->0.children[c]]
            0 <= a < k.sched.caps.len() && 0 <= b < k.sched.caps[a].1.len() && 0 <= c
                < k.sched.caps[a].1[b].item->0.children.len() ==> {
                let (task, h) = k.sched.caps[a].1[b].item->0.children[c];
                task != k.sched.tasks[i].id || h.0 as int % 0x1_0000_0000 != j
            },
    ensures
        dispatched(k, f).0.sched.caps[i].1[j] == k.sched.caps[i].1[j],
        dispatched(k, f).0.sched.caps.len() == k.sched.caps.len(),
        dispatched(k, f).0.sched.caps[i].1.len() == k.sched.caps[i].1.len(),
{
    let space = k.sched.caps;
    let cur = k.sched.current;
    let id = k.sched.tasks[cur].id;
    let handle = CapHandle(f.a1);
    lemma_task_at(k.sched, cur);
    lemma_task_at(k.sched, i);
    if slot_lookup(own(k), f.a1) is Ok {
        let root = node_of(space, id, handle)->0;
        assert(root == (cur, handle.slot()));
        if descends(space, root, (i, j)) {
            let path = choose|path: Seq<Node>| #[trigger]
                grant_chain(space, path) && path[0] == root && path.last() == (i, j);
            lemma_chain_within(space, path, path.len() - 1);
            let n = path.len() - 2;
            assert(path.len() > 1);
            assert(derives(space, path[n], path[n + 1]));
            let a = path[n];
            let c = choose|c: int|
                0 <= c < cap_at(space, a).children.len() && node_of(
                    space,
                    (#[trigger] cap_at(space, a).children[c]).0,
                    cap_at(space, a).children[c].1,
                ) == Some((i, j));
            let (task, h) = cap_at(space, a).children[c];
            assert(space[a.0].1[a.1].item->0.children[c] == (task, h));
            assert(task_at(space, task, 0) == i);
            lemma_task_at_owner(space, task, 0);
            assert(space[i].0 == k.sched.tasks[i].id);
        }
    }
}

proof fn lemma_task_at_owner(space: Space, task: u64, from: int)
    requires
        0 <= from,
        task_at(space, task, from) < space.len(),
    ensures
        space[task_at(space, task, from)].0 == task,
    decreases space.len() - from,
{
    if from < space.len() && space[from].0 != task {
        lemma_task_at_owner(space, task, from + 1);
    }
}

/// Every place on a chain of grants but the first is a place in some table.
proof fn lemma_chain_within(space: Space, path: Seq<Node>, n: int)
    requires
        grant_chain(space, path),
        0 <= n < path.len(),
        0 <= path[0].0 < space.len(),
        0 <= path[0].1 < space[path[0].0].1.len(),
    ensures
        forall|m: int|
            0 <= m <= n ==> 0 <= (#[trigger] path[m]).0 < space.len() && 0 <= path[m].1
                < space[path[m].0].1.len(),
    decreases n,
{
    if n > 0 {
        lemma_chain_within(space, path, n - 1);
        assert(derives(space, path[n - 1], path[n - 1 + 1]));
        let a = path[n - 1];
        let c = choose|c: int|
            0 <= c < cap_at(space, a).children.len() && node_of(
                space,
                (#[trigger] cap_at(space, a).children[c]).0,
                cap_at(space, a).children[c].1,
            ) == Some(path[n]);
        lemma_task_at_low(space, cap_at(space, a).children[c].0, 0);
    }
}

proof fn lemma_task_at_low(space: Space, task: u64, from: int)
    requires
        0 <= from <= space.len(),
    ensures
        from <= task_at(space, task, from) <= space.len(),
    decreases space.len() - from,
{
    if from < space.len() && space[from].0 != task {
        lemma_task_at_low(space, task, from + 1);
    }
}

// ── Memory ───────────────────────────────────────────────────────────────────

/// The lowest frame that is free.
pub open spec fn is_lowest_free(used: Seq<bool>, i: int) -> bool {
    0 <= i < used.len() && !used[i] && forall|j: int| 0 <= j < i ==> #[trigger] used[j]
}

/// An address lies in one of the ranges.
pub open spec fn in_ranges(l: Seq<(u64, u64)>, a: int) -> bool {
    exists|i: int| 0 <= i < l.len() && (#[trigger] l[i]).0 <= a < l[i].1
}

/// A page of the user half above the identity map, where nothing is mapped yet, is
/// mapped to the lowest free frame, with the flags that the caller may choose, and
/// always for users. The page and nothing else becomes part of the caller's ranges,
/// and the frame and no other is taken.
pub proof fn law_a_page_is_mapped(k: KernelView, f: SyscallFrame, i: int)
    requires
        sched_ok(k.sched),
        f.nr == 2,
        k.used.len() == 0x10_0000,
    ensures
        ({
            let (after, a) = dispatched(k, f);
            let t = k.sched.tasks[k.sched.current];
            let t1 = after.sched.tasks[k.sched.current];
            let page = f.a1 % 0x1000 == 0 && 0x4000_0000 <= f.a1 < 0x8000_0000_0000;
            let clear = forall|x: int|
                f.a1 <= x < f.a1 + 0x1000 ==> !#[trigger] in_ranges(t.vma_list, x);
            &&& !page ==> (after, a) == (k, Action::Return(INVALID))
            &&& page && !holds(own(k), CapKind::Memory, 2) ==> (after, a) == (
                k,
                Action::Return(NOT_PERMITTED),
            )
            &&& page && holds(own(k), CapKind::Memory, 2) && !clear ==> (after, a) == (
                k,
                Action::Return(INVALID),
            )
            &&& page && holds(own(k), CapKind::Memory, 2) && clear && (forall|j: int|
                0 <= j < k.used.len() ==> #[trigger] k.used[j]) ==> (after, a) == (
                k,
                Action::Return(INVALID),
            )
            &&& page && holds(own(k), CapKind::Memory, 2) && clear && is_lowest_free(k.used, i) ==> {
                &&& a matches Action::MapPage { va, frame, flags } && va == f.a1 && frame.0 == i
                    * 0x1000 && flags.0 == f.a3 & 0x8000_0000_0000_0003 | 4
                &&& after.used.len() == k.used.len()
                &&& forall|j: int|
                    0 <= j < k.used.len() ==> #[trigger] after.used[j] == (k.used[j] || j == i)
                &&& forall|x: int| #[trigger]
                    in_ranges(t1.vma_list, x) == (in_ranges(t.vma_list, x) || f.a1 <= x < f.a1
                        + 0x1000)
                &&& t1 == (TaskView { vma_list: t1.vma_list, ..t })
                &&& after.sched.tasks == k.sched.tasks.update(k.sched.current, t1)
                &&& after == (KernelView {
                    used: after.used,
                    sched: SchedView { tasks: after.sched.tasks, ..k.sched },
                    ..k
                })
            }
        }),
{
    let t = k.sched.tasks[k.sched.current];
    let l = t.vma_list;
    let va = f.a1;
    let bits = f.a3;
    assert((bits & 0x8000_0000_0000_0007) | 0x4 == bits & 0x8000_0000_0000_0003 | 4) by (bit_vector);
    if va % 0x1000 == 0 && 0x4000_0000 <= va < 0x8000_0000_0000 {
        let clear = forall|x: int| va <= x < va + 0x1000 ==> !#[trigger] in_ranges(l, x);
        assert(clear == !overlaps(l, va)) by {
            lemma_clear(l, va);
        }
        assert(holds(own(k), CapKind::Memory, 2) == holds_kind(
            own(k),
            CapKind::Memory,
            CapRights(2),
        )) by {
            lemma_holds(own(k), CapKind::Memory, 2);
        }
        lemma_lowest(k.used, 0, i);
        lemma_with_range(l, va);
    }
}

proof fn lemma_holds(slots: CapSlots, kind: CapKind, rights: u8)
    ensures
        holds(slots, kind, rights) == holds_kind(slots, kind, CapRights(rights)),
{
}

/// A page is clear of the ranges exactly when none of them overlaps it.
proof fn lemma_clear(l: Seq<(u64, u64)>, va: u64)
    requires
        vmas_ok(l),
    ensures
        (forall|x: int| va <= x < va + 0x1000 ==> !#[trigger] in_ranges(l, x)) == !overlaps(l, va),
{
    if overlaps(l, va) {
        let i = choose|i: int|
            0 <= i < l.len() && (#[trigger] l[i]).0 < va + 0x1000 && va < l[i].1;
        let x = if l[i].0 <= va {
            va as int
        } else {
            l[i].0 as int
        };
        assert(in_ranges(l, x)) by {
            assert(l[i].0 <= x < l[i].1);
        }
    } else {
        assert forall|x: int| va <= x < va + 0x1000 implies !#[trigger] in_ranges(l, x) by {
            if in_ranges(l, x) {
                let i = choose|i: int| 0 <= i < l.len() && (#[trigger] l[i]).0 <= x < l[i].1;
                assert(l[i].0 < va + 0x1000 && va < l[i].1);
            }
        }
    }
}

proof fn lemma_lowest(used: Seq<bool>, from: int, i: int)
    requires
        0 <= from <= used.len(),
    ensures
        from <= i && is_lowest_free(used, i) ==> lowest_free(used, from) == Some(i),
        (forall|j: int| 0 <= j < used.len() ==> #[trigger] used[j]) ==> lowest_free(used, from)
            is None,
    decreases used.len() - from,
{
    if from < used.len() && used[from] {
        lemma_lowest(used, from + 1, i);
    }
}

proof fn lemma_with_range(l: Seq<(u64, u64)>, va: u64)
    requires
        va + 0x1000 <= u64::MAX,
    ensures
        forall|x: int| #[trigger]
            in_ranges(vma_with(l, va), x) == (in_ranges(l, x) || va <= x < va + 0x1000),
{
    let p = lower_bound(l, va, 0);
    lemma_bound_within(l, va, 0);
    let r = vma_with(l, va);
    assert forall|x: int| #[trigger]
        in_ranges(r, x) == (in_ranges(l, x) || va <= x < va + 0x1000) by {
        if in_ranges(r, x) {
            let i = choose|i: int| 0 <= i < r.len() && (#[trigger] r[i]).0 <= x < r[i].1;
            if i < p {
                assert(l[i] == r[i]);
            } else if i > p {
                assert(l[i - 1] == r[i]);
            }
        }
        if in_ranges(l, x) {
            let i = choose|i: int| 0 <= i < l.len() && (#[trigger] l[i]).0 <= x < l[i].1;
            if i < p {
                assert(r[i] == l[i]);
            } else {
                assert(r[i + 1] == l[i]);
            }
        }
        if va <= x < va + 0x1000 {
            assert(r[p].0 <= x < r[p].1);
        }
    }
}

proof fn lemma_bound_within(l: Seq<(u64, u64)>, va: u64, i: int)
    requires
        0 <= i <= l.len(),
    ensures
        i <= lower_bound(l, va, i) <= l.len(),
        forall|j: int| i <= j < lower_bound(l, va, i) ==> (#[trigger] l[j]).0 < va,
        lower_bound(l, va, i) < l.len() ==> l[lower_bound(l, va, i)].0 >= va,
    decreases l.len() - i,
{
    if i < l.len() && l[i].0 < va {
        lemma_bound_within(l, va, i + 1);
    }
}

/// A page is unmapped where a range of the caller's begins, and only there: that
/// range leaves the list, and nothing else changes.
pub proof fn law_a_page_is_unmapped(k: KernelView, f: SyscallFrame, i: int)
    requires
        sched_ok(k.sched),
        f.nr == 3,
    ensures
        ({
            let (after, a) = dispatched(k, f);
            let t = k.sched.tasks[k.sched.current];
            let t1 = after.sched.tasks[k.sched.current];
            let l = t.vma_list;
            let page = f.a1 % 0x1000 == 0 && 0x4000_0000 <= f.a1 < 0x8000_0000_0000;
            &&& !page || (forall|j: int| 0 <= j < l.len() ==> (#[trigger] l[j]).0 != f.a1) ==> (
                after,
                a,
            ) == (k, Action::Return(INVALID))
            &&& page && 0 <= i < l.len() && l[i].0 == f.a1 ==> {
                &&& a == Action::UnmapPage { va: f.a1 }
                &&& t1 == (TaskView { vma_list: l.remove(i), ..t })
                &&& after == (KernelView {
                    sched: SchedView {
                        tasks: k.sched.tasks.update(k.sched.current, t1),
                        ..k.sched
                    },
                    ..k
                })
            }
        }),
{
    let l = k.sched.tasks[k.sched.current].vma_list;
    lemma_bound_within(l, f.a1, 0);
    let p = lower_bound(l, f.a1, 0);
    if 0 <= i < l.len() && l[i].0 == f.a1 {
        if p < i {
            assert(l[p].1 <= l[i].0);
        }
        assert(p == i);
    }
}

/// The break is where it was last put, or at the start of the heap; the call is for
/// tasks that may map memory. Asked for 0 it answers that. It is put anywhere
/// between the start of the heap and its end: downwards at once, with what lies
/// between the pages that are still in use and the old end to be unmapped, and
/// upwards once the pages up to there are mapped.
pub proof fn law_the_break_is_moved(k: KernelView, f: SyscallFrame)
    requires
        sched_ok(k.sched),
        f.nr == 38,
        k.sched.tasks[k.sched.current].brk < 0x7FFE_0000_0000,
    ensures
        ({
            let (after, a) = dispatched(k, f);
            let t = k.sched.tasks[k.sched.current];
            let cur = if t.brk == 0 {
                0x4_0000_0000
            } else {
                t.brk
            };
            let at = |b: u64|
                KernelView {
                    sched: SchedView {
                        tasks: k.sched.tasks.update(k.sched.current, TaskView { brk: b, ..t }),
                        ..k.sched
                    },
                    ..k
                };
            if !holds(own(k), CapKind::Memory, 2) {
                (after, a) == (k, Action::Return(NOT_PERMITTED))
            } else if f.a1 == 0 {
                (after, a) == (at(cur), Action::Return(cur))
            } else if f.a1 <= cur {
                if f.a1 < 0x4_0000_0000 {
                    (after, a) == (k, Action::Return(INVALID))
                } else if t.page_table is None {
                    (after, a) == (at(f.a1), Action::Return(f.a1))
                } else {
                    &&& after == at(f.a1)
                    &&& a matches Action::ShrinkBrk { from, to, brk } && brk == f.a1
                        && is_page_top(f.a1, from) && is_page_top(cur, to)
                }
            } else if f.a1 >= 0x7FFE_0000_0000 {
                (after, a) == (k, Action::Return(INVALID))
            } else {
                &&& after == k
                &&& a matches Action::GrowBrk { from, to, brk } && brk == f.a1 && is_page_top(
                    cur,
                    from,
                ) && is_page_top(f.a1, to)
            }
        }),
{
    lemma_holds(own(k), CapKind::Memory, 2);
}

/// The end of the last page that reaches below an address.
pub open spec fn is_page_top(x: u64, top: u64) -> bool {
    top % 0x1000 == 0 && x <= top < x + 0x1000
}

/// A new process is made from ranges that the caller can address: the binary, the
/// handles of eight bytes each, and at most 4000 bytes of arguments.
pub proof fn law_a_process_is_made_from_valid_ranges(k: KernelView, f: SyscallFrame)
    requires
        f.nr == 10,
    ensures
        dispatched(k, f) == (
            k,
            if reachable(f.a1, f.a2 as int) && (f.a4 == 0 || reachable(f.a3, f.a4 * 8)) && (f.a6 == 0
                || reachable(f.a5, f.a6 as int)) && f.a6 <= 4000 {
                Action::Exec {
                    elf: f.a1,
                    elf_len: f.a2,
                    caps: f.a3,
                    caps_len: f.a4,
                    argv: f.a5,
                    argv_len: f.a6,
                }
            } else {
                Action::Return(INVALID)
            },
        ),
{
    lemma_reachable(f.a1, f.a2);
    lemma_reachable(f.a5, f.a6);
    if f.a4 > 0 && reachable(f.a3, f.a4 * 8) {
        assert(in_user_half(f.a3 + f.a4 * 8 - 1));
    }
}

// ── Files ────────────────────────────────────────────────────────────────────

/// A path has 1 to 4096 bytes that the caller can address.
pub open spec fn is_path(ptr: u64, len: u64) -> bool {
    1 <= len <= 4096 && reachable(ptr, len as int)
}

/// A call on a path works on the path that it names. Mounting, unmounting and
/// removing from a store take a capability for the file system with the right to
/// write, which is asked for first.
pub proof fn law_a_path_is_worked_on(k: KernelView, f: SyscallFrame, op: PathOp)
    requires
        (f.nr == 22 && op == PathOp::Open) || (f.nr == 28 && op == PathOp::Create) || (f.nr == 29
            && op == PathOp::Unlink) || (f.nr == 32 && op == PathOp::Mkdir) || (f.nr == 56 && op
            == (PathOp::Mount { source: f.a3, flags: f.a4 })) || (f.nr == 69 && op
            == PathOp::Unmount) || (f.nr == 60 && op == PathOp::StoreRemove),
    ensures
        dispatched(k, f) == (
            k,
            if (f.nr == 56 || f.nr == 69 || f.nr == 60) && !holds(own(k), CapKind::Filesystem, 2) {
                Action::Return(NOT_PERMITTED)
            } else if is_path(f.a1, f.a2) {
                Action::Path { op, ptr: f.a1, len: f.a2 }
            } else {
                Action::Return(INVALID)
            },
        ),
{
    lemma_holds(own(k), CapKind::Filesystem, 2);
    lemma_reachable(f.a1, f.a2);
}

/// A read or a write moves what the call names, up to a mebibyte, through the
/// descriptor that it names. Closing and seeking hand on what they are given.
pub proof fn law_a_descriptor_is_worked_on(k: KernelView, f: SyscallFrame, len: u64)
    requires
        len <= f.a3 && len <= 0x10_0000 && (len == f.a3 || len == 0x10_0000),
    ensures
        f.nr == 23 || f.nr == 24 ==> dispatched(k, f) == (
            k,
            if f.a3 > 0 && !reachable(f.a2, f.a3 as int) {
                Action::Return(INVALID)
            } else if f.nr == 23 {
                Action::Read { fd: f.a1, ptr: f.a2, len }
            } else {
                Action::Write { fd: f.a1, ptr: f.a2, len }
            },
        ),
        f.nr == 25 ==> dispatched(k, f) == (k, Action::Close { fd: f.a1 }),
        f.nr == 36 ==> dispatched(k, f) == (
            k,
            Action::Seek { fd: f.a1, offset: f.a2, whence: (f.a3 % 0x1_0000_0000) as u32 },
        ),
{
    lemma_reachable(f.a2, f.a3);
    let w = f.a3;
    assert(w as u32 == (w % 0x1_0000_0000) as u32) by (bit_vector);
}

/// What is asked of one path or two, and where the answer goes: 48 bytes of
/// attributes, entries or a link's target of the length that the call names. All of
/// it must be for the caller to address.
pub proof fn law_paths_and_answers_are_the_callers(k: KernelView, f: SyscallFrame)
    ensures
        f.nr == 26 ==> dispatched(k, f) == (
            k,
            if is_path(f.a1, f.a2) && reachable(f.a3, 48) {
                Action::Stat { ptr: f.a1, len: f.a2, out: f.a3 }
            } else {
                Action::Return(INVALID)
            },
        ),
        f.nr == 27 ==> dispatched(k, f) == (
            k,
            if is_path(f.a1, f.a2) && (f.a4 == 0 || reachable(f.a3, f.a4 as int)) {
                Action::ReadDir { ptr: f.a1, len: f.a2, out: f.a3, out_len: f.a4 }
            } else {
                Action::Return(INVALID)
            },
        ),
        f.nr == 58 ==> dispatched(k, f) == (
            k,
            if is_path(f.a1, f.a2) && f.a4 <= 4096 && (f.a4 == 0 || reachable(f.a3, f.a4 as int)) {
                Action::ReadLink { ptr: f.a1, len: f.a2, out: f.a3, out_len: f.a4 }
            } else {
                Action::Return(INVALID)
            },
        ),
        f.nr == 35 ==> dispatched(k, f) == (
            k,
            if is_path(f.a1, f.a2) && is_path(f.a3, f.a4) {
                Action::Rename { from: f.a1, from_len: f.a2, to: f.a3, to_len: f.a4 }
            } else {
                Action::Return(INVALID)
            },
        ),
        f.nr == 57 ==> dispatched(k, f) == (
            k,
            if is_path(f.a1, f.a2) && is_path(f.a3, f.a4) {
                Action::Symlink { target: f.a1, target_len: f.a2, link: f.a3, link_len: f.a4 }
            } else {
                Action::Return(INVALID)
            },
        ),
{
    lemma_reachable(f.a1, f.a2);
    lemma_reachable(f.a3, f.a4);
    lemma_reachable(f.a3, 48);
}

/// Opening a file for reading asks the file itself for the right to read. Creating,
/// unlinking and making a directory ask the directory that the path is in for the
/// right to write, and so do both directories of a rename, the one it leaves first.
pub proof fn law_access_is_asked_of_the_right_file(
    k: KernelView,
    a: Option<Access>,
    b: Option<Access>,
)
    ensures
        path_check(PathOp::Open) == Some((false, 4u16)),
        path_check(PathOp::Create) == Some((true, 2u16)),
        path_check(PathOp::Unlink) == Some((true, 2u16)),
        path_check(PathOp::Mkdir) == Some((true, 2u16)),
        path_check(PathOp::Unmount) is None,
        path_check(PathOp::StoreRemove) is None,
        a is None ==> rename_refusal(k, a, b) == Some(NOT_FOUND),
        a is Some && refusal(k, a, 2) is None && b is None ==> rename_refusal(k, a, b) == Some(
            NOT_FOUND,
        ),
        (a is Some && b is Some) ==> (rename_refusal(k, a, b) is None) == (refusal(k, a, 2) is None
            && refusal(k, b, 2) is None),
        (a is Some && b is Some) ==> (rename_refusal(k, a, b) is None || rename_refusal(k, a, b)
            == Some(NOT_PERMITTED)),
{
}

/// A file that is not there cannot be found, and one that is there is refused
/// exactly where its mode does not permit the access to the task that runs.
pub proof fn law_the_running_task_is_asked_for(k: KernelView, mode: u16, uid: u32, gid: u32, bits: u16)
    ensures
        refusal(k, None, bits) == Some(NOT_FOUND),
        refusal(k, Some(Access { mode, uid, gid }), bits) == (if dac_permits(
            mode,
            uid,
            gid,
            k.sched.tasks[k.sched.current].uid,
            k.sched.tasks[k.sched.current].gid,
            bits,
        ) {
            None
        } else {
            Some(NOT_PERMITTED)
        }),
{
}

// ── Tasks ────────────────────────────────────────────────────────────────────

/// What a task asks of itself and of others: it yields, ends with the low eight
/// bits of a code, waits for another, sleeps for as many milliseconds as cover the
/// nanoseconds it names, or asks how another is.
pub proof fn law_what_a_task_asks_for(k: KernelView, f: SyscallFrame, i: int)
    requires
        sched_ok(k.sched),
    ensures
        f.nr == 0 ==> dispatched(k, f) == (k, Action::Yield),
        f.nr == 1 ==> dispatched(k, f) == (k, Action::Exit { status: f.a1 % 256 }),
        f.nr == 31 ==> dispatched(k, f) == (k, Action::Wait { target: f.a1 }),
        f.nr == 33 && f.a1 == 0 ==> dispatched(k, f) == (k, Action::Yield),
        f.nr == 33 && f.a1 > 0 && k.ticks < 0x8000_0000_0000_0000 ==> {
            &&& dispatched(k, f).0 == k
            &&& dispatched(k, f).1 matches Action::Sleep { until } && until > k.ticks && (until
                - k.ticks) * 1_000_000 >= f.a1 && (until - k.ticks - 1) * 1_000_000 < f.a1
        },
        f.nr == 16 ==> dispatched(k, f).0 == k,
        f.nr == 16 && 0 <= i < k.sched.tasks.len() && k.sched.tasks[i].id == f.a1 ==> dispatched(
            k,
            f,
        ).1 == Action::Return(
            match k.sched.tasks[i].state {
                TaskState::Dead => 0,
                TaskState::Running => 1,
                TaskState::Ready => 1,
                TaskState::Blocked => 2,
            },
        ),
        f.nr == 16 && (forall|j: int|
            0 <= j < k.sched.tasks.len() ==> (#[trigger] k.sched.tasks[j]).id != f.a1)
            ==> dispatched(k, f).1 == Action::Return(0),
{
    lemma_task_found(k.sched, f.a1, i);
}

/// The task with an identity is the one that is found under it.
proof fn lemma_task_found(s: SchedView, id: u64, i: int)
    requires
        sched_ok(s),
    ensures
        0 <= i < s.tasks.len() && s.tasks[i].id == id ==> find_task(s.tasks, id, 0) == i,
        (forall|j: int| 0 <= j < s.tasks.len() ==> (#[trigger] s.tasks[j]).id != id) ==> find_task(
            s.tasks,
            id,
            0,
        ) == s.tasks.len(),
{
    lemma_find_task(s.tasks, id, 0);
    let at = find_task(s.tasks, id, 0);
    if 0 <= i < s.tasks.len() && s.tasks[i].id == id {
        if at < i {
            assert(s.tasks[at].id != s.tasks[i].id);
        }
    } else if at < s.tasks.len() {
        assert(s.tasks[at].id == id);
    }
}

/// A task waits for another, in a slot from `k` on.
pub open spec fn waits_from(
    waiters: Seq<Option<(u64, u64)>>,
    k: int,
    waiter: u64,
    target: u64,
) -> bool {
    exists|m: int| k <= m < waiters.len() && #[trigger] waiters[m] == Some((waiter, target))
}

/// Who is woken when a task has ended: exactly those that are blocked and wait for
/// it; and these slots are free again.
pub proof fn lemma_woken_by(tasks: Tasks, waiters: Seq<Option<(u64, u64)>>, target: u64, k: int)
    requires
        distinct_ids(tasks),
        0 <= k <= waiters.len(),
    ensures
        ({
            let (ts, ws) = notified(tasks, waiters, target, k);
            &&& ts.len() == tasks.len()
            &&& ws.len() == waiters.len()
            &&& forall|i: int|
                0 <= i < tasks.len() ==> #[trigger] ts[i] == (TaskView {
                    state: if tasks[i].state == TaskState::Blocked && waits_from(
                        waiters,
                        k,
                        tasks[i].id,
                        target,
                    ) {
                        TaskState::Ready
                    } else {
                        tasks[i].state
                    },
                    ..tasks[i]
                })
            &&& forall|m: int|
                0 <= m < waiters.len() ==> #[trigger] ws[m] == if k <= m && waiters[m] is Some && (
                waiters[m]->0).1 == target {
                    None
                } else {
                    waiters[m]
                }
        }),
    decreases waiters.len() - k,
{
    let (ts, ws) = notified(tasks, waiters, target, k);
    if k < waiters.len() {
        if waiters[k] is Some && (waiters[k]->0).1 == target {
            let w = (waiters[k]->0).0;
            let t1 = woken(tasks, w);
            let ws1 = waiters.update(k, None);
            lemma_find_task(tasks, w, 0);
            let at = find_task(tasks, w, 0);
            assert(distinct_ids(t1)) by {
                assert forall|a: int, b: int| 0 <= a < b < t1.len() implies (#[trigger] t1[a]).id != (
                #[trigger] t1[b]).id by {
                    assert(tasks[a].id != tasks[b].id);
                }
            }
            lemma_woken_by(t1, ws1, target, k + 1);
            assert forall|i: int| 0 <= i < tasks.len() implies #[trigger] ts[i] == (TaskView {
                state: if tasks[i].state == TaskState::Blocked && waits_from(
                    waiters,
                    k,
                    tasks[i].id,
                    target,
                ) {
                    TaskState::Ready
                } else {
                    tasks[i].state
                },
                ..tasks[i]
            }) by {
                let id = tasks[i].id;
                if waits_from(ws1, k + 1, id, target) {
                    let m = choose|m: int|
                        k + 1 <= m < ws1.len() && #[trigger] ws1[m] == Some((id, target));
                    assert(waiters[m] == Some((id, target)));
                }
                if waits_from(waiters, k, id, target) && w != id {
                    let m = choose|m: int|
                        k <= m < waiters.len() && #[trigger] waiters[m] == Some((id, target));
                    assert(ws1[m] == Some((id, target)));
                }
                if w == id {
                    assert(waiters[k] == Some((id, target)));
                    if at < i {
                        assert(tasks[at].id != tasks[i].id);
                    }
                    assert(at == i);
                } else if at < tasks.len() {
                    assert(tasks[at].id == w);
                }
            }
        } else {
            lemma_woken_by(tasks, waiters, target, k + 1);
            assert forall|i: int| 0 <= i < tasks.len() implies #[trigger] ts[i] == (TaskView {
                state: if tasks[i].state == TaskState::Blocked && waits_from(
                    waiters,
                    k,
                    tasks[i].id,
                    target,
                ) {
                    TaskState::Ready
                } else {
                    tasks[i].state
                },
                ..tasks[i]
            }) by {
                let id = tasks[i].id;
                if waits_from(waiters, k, id, target) {
                    let m = choose|m: int|
                        k <= m < waiters.len() && #[trigger] waiters[m] == Some((id, target));
                    assert(m != k);
                    assert(waits_from(waiters, k + 1, id, target));
                }
                if waits_from(waiters, k + 1, id, target) {
                    let m = choose|m: int|
                        k + 1 <= m < waiters.len() && #[trigger] waiters[m] == Some((id, target));
                    assert(waits_from(waiters, k, id, target));
                }
            }
        }
    }
}

/// Root kills any task that lives but the first and itself. Nobody else kills.
pub proof fn law_root_kills(k: KernelView, f: SyscallFrame, i: int)
    requires
        sched_ok(k.sched),
        f.nr == 19,
        0 <= i < k.sched.tasks.len(),
    ensures
        ({
            let (after, a) = dispatched(k, f);
            let me = k.sched.tasks[k.sched.current];
            let t = k.sched.tasks[i];
            &&& me.uid != 0 ==> (after, a) == (k, Action::Return(NOT_PERMITTED))
            &&& me.uid == 0 && t.id == f.a1 ==> {
                &&& (f.a1 == 0 || i == k.sched.current || t.state == TaskState::Dead) ==> (after, a)
                    == (k, Action::Return(INVALID))
                &&& !(f.a1 == 0 || i == k.sched.current || t.state == TaskState::Dead) ==> {
                    &&& a == Action::Return(0)
                    &&& after.sched.tasks[i].state == TaskState::Dead
                    &&& after.sched.tasks.len() == k.sched.tasks.len()
                    &&& forall|j: int|
                        0 <= j < k.sched.tasks.len() && j != i ==> {
                            let u = k.sched.tasks[j];
                            let waits = u.state == TaskState::Blocked && k.sched.waiters.contains(
                                Some((u.id, f.a1)),
                            );
                            #[trigger] after.sched.tasks[j] == (TaskView {
                                state: if waits {
                                    TaskState::Ready
                                } else {
                                    u.state
                                },
                                ..u
                            })
                        }
                }
            }
            &&& me.uid == 0 && (forall|j: int|
                0 <= j < k.sched.tasks.len() ==> (#[trigger] k.sched.tasks[j]).id != f.a1) ==> (
                after,
                a,
            ) == (k, Action::Return(INVALID))
        }),
{
    lemma_task_found(k.sched, f.a1, i);
    let s = k.sched;
    if s.tasks[i].id == f.a1 {
        if i != s.current {
            assert(s.tasks[s.current].id != f.a1) by {
                if i < s.current {
                    assert(s.tasks[i].id != s.tasks[s.current].id);
                } else {
                    assert(s.tasks[s.current].id != s.tasks[i].id);
                }
            }
        }
        let t = with_state(s.tasks, i, TaskState::Dead);
        assert(distinct_ids(t)) by {
            assert forall|a: int, b: int| 0 <= a < b < t.len() implies (#[trigger] t[a]).id != (
            #[trigger] t[b]).id by {
                assert(s.tasks[a].id != s.tasks[b].id);
            }
        }
        assert forall|j: int| 0 <= j < t.len() implies #[trigger] notified(
            t,
            s.waiters,
            f.a1,
            0,
        ).0[j] == (TaskView {
            state: if t[j].state == TaskState::Blocked && s.waiters.contains(
                Some((t[j].id, f.a1)),
            ) {
                TaskState::Ready
            } else {
                t[j].state
            },
            ..t[j]
        }) by {
            lemma_woken_by(t, s.waiters, f.a1, 0);
            let w = Some((t[j].id, f.a1));
            if s.waiters.contains(w) {
                let m = choose|m: int| 0 <= m < s.waiters.len() && s.waiters[m] == w;
                assert(waits_from(s.waiters, 0, t[j].id, f.a1));
            }
        }
        lemma_woken_by(t, s.waiters, f.a1, 0);
    }
}

/// A priority of 0, 1 or 2 is given to any task that lives, and nothing else
/// changes.
pub proof fn law_a_priority_is_set(k: KernelView, f: SyscallFrame, i: int)
    requires
        sched_ok(k.sched),
        f.nr == 34,
        0 <= i < k.sched.tasks.len(),
    ensures
        ({
            let (after, a) = dispatched(k, f);
            let t = k.sched.tasks[i];
            &&& f.a2 > 2 ==> (after, a) == (k, Action::Return(INVALID))
            &&& t.id == f.a1 && t.state == TaskState::Dead ==> (after, a) == (
                k,
                Action::Return(INVALID),
            )
            &&& t.id == f.a1 && t.state != TaskState::Dead && f.a2 <= 2 ==> {
                &&& a == Action::Return(0)
                &&& after.sched.tasks[i].priority == f.a2
                &&& after == (KernelView {
                    sched: SchedView {
                        tasks: k.sched.tasks.update(i, after.sched.tasks[i]),
                        ..k.sched
                    },
                    ..k
                })
                &&& after.sched.tasks[i] == (TaskView {
                    priority: after.sched.tasks[i].priority,
                    ..t
                })
            }
            &&& (forall|j: int|
                0 <= j < k.sched.tasks.len() ==> (#[trigger] k.sched.tasks[j]).id != f.a1) ==> (
                after,
                a,
            ) == (k, Action::Return(INVALID))
        }),
{
    lemma_task_found(k.sched, f.a1, i);
}

/// A task is told its own user and group. Root takes on any other, everyone else
/// only its own, and the other of the two stays.
pub proof fn law_users_and_groups(k: KernelView, f: SyscallFrame)
    requires
        sched_ok(k.sched),
    ensures
        ({
            let (after, a) = dispatched(k, f);
            let t = k.sched.tasks[k.sched.current];
            let new = f.a1 % 0x1_0000_0000;
            let as_task = |u: TaskView|
                KernelView {
                    sched: SchedView {
                        tasks: k.sched.tasks.update(k.sched.current, u),
                        ..k.sched
                    },
                    ..k
                };
            &&& f.nr == 45 ==> (after, a) == (k, Action::Return(t.uid as u64))
            &&& f.nr == 46 ==> (after, a) == (k, Action::Return(t.gid as u64))
            &&& f.nr == 47 && (t.uid == 0 || new == t.uid) ==> (after, a) == (
                as_task(TaskView { uid: new as u32, ..t }),
                Action::Return(0),
            )
            &&& f.nr == 48 && (t.uid == 0 || new == t.gid) ==> (after, a) == (
                as_task(TaskView { gid: new as u32, ..t }),
                Action::Return(0),
            )
            &&& f.nr == 47 && t.uid != 0 && new != t.uid ==> (after, a) == (
                k,
                Action::Return(NOT_PERMITTED),
            )
            &&& f.nr == 48 && t.uid != 0 && new != t.gid ==> (after, a) == (
                k,
                Action::Return(NOT_PERMITTED),
            )
        }),
{
}

/// The lists of tasks go where the caller can address as many entries as it asks
/// for, of 24 bytes each, or of 48.
pub proof fn law_lists_of_tasks_fit_where_they_go(k: KernelView, f: SyscallFrame)
    ensures
        f.nr == 17 ==> dispatched(k, f) == (
            k,
            if f.a2 == 0 {
                Action::Return(0)
            } else if reachable(f.a1, f.a2 * 24) {
                Action::TaskList { ptr: f.a1, cap: f.a2 }
            } else {
                Action::Return(INVALID)
            },
        ),
        f.nr == 37 ==> dispatched(k, f) == (
            k,
            if f.a2 == 0 {
                Action::Return(0)
            } else if reachable(f.a1, f.a2 * 48) {
                Action::Ps { ptr: f.a1, cap: f.a2 }
            } else {
                Action::Return(INVALID)
            },
        ),
{
    if f.a2 > 0 {
        if reachable(f.a1, f.a2 * 24) {
            assert(in_user_half(f.a1 + f.a2 * 24 - 1));
        }
        if reachable(f.a1, f.a2 * 48) {
            assert(in_user_half(f.a1 + f.a2 * 48 - 1));
        }
    }
}

// ── The rest ─────────────────────────────────────────────────────────────────

/// Root reads and writes the sectors of the disk, where there is one, and nobody
/// else does.
pub proof fn law_root_works_on_sectors(k: KernelView, f: SyscallFrame)
    requires
        f.nr == 20 || f.nr == 21,
    ensures
        dispatched(k, f) == (
            k,
            if k.sched.tasks[k.sched.current].uid != 0 {
                Action::Return(NOT_PERMITTED)
            } else if !k.blk_present {
                Action::Return(NO_SUCH_CALL)
            } else if !reachable(f.a2, 512) {
                Action::Return(INVALID)
            } else if f.nr == 20 {
                Action::ReadSector { sector: f.a1, ptr: f.a2 }
            } else {
                Action::WriteSector { sector: f.a1, ptr: f.a2 }
            },
        ),
{
    lemma_reachable(f.a2, 512);
}

/// The log takes up to 4096 bytes, input fills as much of a buffer up to that, and
/// the clock, the free memory and the end of the machine are as they are.
pub proof fn law_what_else_is_asked_for(k: KernelView, f: SyscallFrame, len: u64)
    requires
        len <= f.a2 && len <= 4096 && (len == f.a2 || len == 4096),
    ensures
        f.nr == 11 ==> dispatched(k, f) == (
            k,
            if f.a2 == 0 {
                Action::Return(0)
            } else if f.a2 <= 4096 && reachable(f.a1, f.a2 as int) {
                Action::Log { ptr: f.a1, len: f.a2 }
            } else {
                Action::Return(INVALID)
            },
        ),
        f.nr == 14 ==> dispatched(k, f) == (
            k,
            if f.a2 == 0 {
                Action::Return(0)
            } else if reachable(f.a1, len as int) {
                Action::ReadInput { ptr: f.a1, len }
            } else {
                Action::Return(INVALID)
            },
        ),
        f.nr == 30 ==> dispatched(k, f) == (k, Action::InputReady),
        f.nr == 15 ==> dispatched(k, f) == (k, Action::Return(k.ticks)),
        f.nr == 8 ==> dispatched(k, f) == (k, Action::CreateEndpoint),
        f.nr == 55 ==> dispatched(k, f) == (k, Action::PowerOff),
        f.nr == 9 ==> dispatched(k, f) == (
            k,
            if exists|j: int|
                0 <= j < own(k).len() && (#[trigger] own(k)[j]).item is Some && own(k)[j].item->0.kind
                    == CapKind::Rollback {
                Action::Halt
            } else {
                Action::Return(NOT_PERMITTED)
            },
        ),
        f.nr == 44 ==> dispatched(k, f).0 == k,
        f.nr == 44 && k.clock == Clock::Unset ==> dispatched(k, f).1 == Action::Return(0),
        f.nr == 44 ==> match k.clock {
            Clock::Unset => true,
            Clock::Anchored { epoch_ms, mono } => mono <= k.ticks && epoch_ms + (k.ticks - mono)
                <= u64::MAX ==> dispatched(k, f).1 == Action::Return(
                (epoch_ms + (k.ticks - mono)) as u64,
            ),
        },
        f.nr == 18 ==> dispatched(k, f).0 == k,
        (49 <= f.nr <= 54 || f.nr == 59 || f.nr == 67 || f.nr == 68 || f.nr > 69) ==> dispatched(
            k,
            f,
        ) == (k, Action::Return(NO_SUCH_CALL)),
{
    lemma_reachable(f.a1, f.a2);
    lemma_reachable(f.a1, len);
}

/// A heap that grows gets a free frame for each of its pages, no two the same, and
/// its break is where it was asked to be. Where frames run out, the break is at the
/// end of the last page that got one.
pub proof fn law_a_heap_grows_by_its_pages(k: KernelView, from: u64, to: u64, brk: u64, j: int, m: int)
    requires
        from % 0x1000 == 0,
        to % 0x1000 == 0,
        from <= to,
        k.used.len() == 0x10_0000,
    ensures
        ({
            let (after, frames, end) = heap_grown(k, from, to, brk);
            let t = k.sched.tasks[k.sched.current];
            &&& frames.len() * 0x1000 <= to - from
            &&& frames.len() * 0x1000 == to - from ==> end == brk
            &&& frames.len() * 0x1000 < to - from ==> end == from + frames.len() * 0x1000 && (
            forall|i: int| 0 <= i < after.used.len() ==> #[trigger] after.used[i])
            &&& 0 <= j < frames.len() ==> {
                let i = frames[j].0 as int / 4096;
                frames[j].0 as int == i * 4096 && 0 <= i < k.used.len() && !k.used[i]
                    && after.used[i]
            }
            &&& 0 <= j < m < frames.len() ==> frames[j].0 != frames[m].0
            &&& after == (KernelView {
                used: after.used,
                sched: SchedView {
                    tasks: k.sched.tasks.update(k.sched.current, TaskView { brk: end, ..t }),
                    ..k.sched
                },
                ..k
            })
        }),
{
    law_frames_are_taken_in_order(k.used, ((to - from) / 0x1000) as nat);
    let n = ((to - from) / 0x1000) as nat;
    assert(n * 0x1000 == to - from);
    let frames = heap_grown(k, from, to, brk).1;
    if 0 <= j < frames.len() {
        assert(frames[j] == frames[j]);
    }
}

/// Input comes in the order in which it was typed, then in which serial received it,
/// none of it twice and none left out, as much as there is room for.
pub proof fn law_input_comes_in_order(typed: Seq<u8>, ready: Seq<u8>, max: int)
    requires
        max >= 0,
    ensures
        ({
            let (got, n, m) = input_taken(typed, ready, max);
            let all = typed + ready;
            &&& 0 <= n <= typed.len()
            &&& 0 <= m <= ready.len()
            &&& got.len() == n + m
            &&& got == all.take(n + m)
            &&& got.len() <= max
            &&& got.len() == max || got == all
            &&& m > 0 ==> n == typed.len()
        }),
{
    let (got, n, m) = input_taken(typed, ready, max);
    let all = typed + ready;
    assert(got =~= all.take(n + m));
    if n + m == all.len() {
        assert(all.take(n + m) =~= all);
    }
}

} // verus!
