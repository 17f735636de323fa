//! What is copied out to user memory says what it is meant to say: a reader that
//! knows the places finds every value there.

use vstd::prelude::*;
use vstd::utf8::valid_utf8;
use crate::boot::{boot_info, low_digits};
use crate::bytes::{
    be16_at, be32_at, le16, le16_at, le32, le32_at, le64, le64_at, lemma_le16_round,
    lemma_le32_round, lemma_le64_round,
};
use crate::calllaws::INVALID;
use crate::cap::CapHandle;
use crate::elf::{image_loaded, task_name};
use crate::kernel::KernelView;
use crate::rfs::path::last_slash;
use crate::syscall::{
    args_from, dirent_layout, dirents_layout, entries_out, exec_done, info_layout, infos_layout,
    ms_of, parent_path, ps_layout, ps_layouts, ps_out, stat_layout, tasks_out,
};
use crate::task::{info_of, live, sched_ok, zero_at, TaskState, TaskView, Tasks};
use crate::tasklaws::law_a_new_task_belongs_to_its_parent;
use crate::text::decimal;
use crate::vfs::{DirEntryView, Stat};

verus! {

/// The byte that counts least comes first in what users and disks hold, and last in
/// what the network carries.
pub proof fn law_the_order_of_bytes(s: Seq<u8>, at: int)
    ensures
        le16_at(s, at) == s[at] + 0x100 * s[at + 1],
        le32_at(s, at) == s[at] + 0x100 * s[at + 1] + 0x1_0000 * s[at + 2] + 0x100_0000 * s[at + 3],
        le64_at(s, at) == s[at] + 0x100 * s[at + 1] + 0x1_0000 * s[at + 2] + 0x100_0000 * s[at + 3]
            + 0x1_0000_0000 * (s[at + 4] + 0x100 * s[at + 5] + 0x1_0000 * s[at + 6] + 0x100_0000
            * s[at + 7]),
        be16_at(s, at) == 0x100 * s[at] + s[at + 1],
        be32_at(s, at) == 0x100_0000 * s[at] + 0x1_0000 * s[at + 1] + 0x100 * s[at + 2] + s[at + 3],
{
}

// ── Files ────────────────────────────────────────────────────────────────────

/// The attributes of a file are found in their places.
pub proof fn law_attributes_are_found_in_their_places(s: Stat)
    ensures
        ({
            let v = stat_layout(s);
            &&& v.len() == 48
            &&& le64_at(v, 0) == s.size
            &&& le64_at(v, 8) == s.mtime
            &&& le64_at(v, 16) == s.ctime
            &&& le32_at(v, 24) == s.flags
            &&& le32_at(v, 28) == s.uid
            &&& le32_at(v, 32) == s.gid
            &&& le32_at(v, 36) == s.nlink
            &&& le16_at(v, 40) == s.mode
            &&& forall|i: int| 42 <= i < 48 ==> #[trigger] v[i] == 0
        }),
{
    let v = stat_layout(s);
    assert(v.subrange(0, 8) =~= le64(s.size));
    assert(v.subrange(8, 16) =~= le64(s.mtime));
    assert(v.subrange(16, 24) =~= le64(s.ctime));
    assert(v.subrange(24, 28) =~= le32(s.flags));
    assert(v.subrange(28, 32) =~= le32(s.uid));
    assert(v.subrange(32, 36) =~= le32(s.gid));
    assert(v.subrange(36, 40) =~= le32(s.nlink));
    assert(v.subrange(40, 42) =~= le16(s.mode));
    lemma_le64_round(v, 0, s.size);
    lemma_le64_round(v, 8, s.mtime);
    lemma_le64_round(v, 16, s.ctime);
    lemma_le32_round(v, 24, s.flags);
    lemma_le32_round(v, 28, s.uid);
    lemma_le32_round(v, 32, s.gid);
    lemma_le32_round(v, 36, s.nlink);
    lemma_le16_round(v, 40, s.mode);
}

/// As many entries of a directory are listed as there are, or as there is room for,
/// in order. Each says its number, its kind and its name, whole up to 255 bytes, with
/// zeros behind it.
pub proof fn law_entries_are_listed_in_order(entries: Seq<DirEntryView>, out_len: u64, i: int)
    requires
        0 <= i < entries.len(),
        (i + 1) * 264 <= out_len,
    ensures
        ({
            let (v, n) = entries_out(entries, out_len);
            let e = entries[i];
            let at = i * 264;
            let len = v[at + 5] as int;
            &&& i < n <= entries.len()
            &&& n == entries.len() || (n + 1) * 264 > out_len
            &&& v.len() == n * 264
            &&& le32_at(v, at) == e.ino
            &&& v[at + 4] == e.file_type
            &&& len <= e.name.len() && (len == e.name.len() || len == 255)
            &&& forall|j: int| 0 <= j < len ==> #[trigger] v[at + 8 + j] == e.name[j]
            &&& forall|j: int| len <= j < 256 ==> #[trigger] v[at + 8 + j] == 0
        }),
{
    let (v, n) = entries_out(entries, out_len);
    lemma_dirents(entries, n as nat, i);
    let at = i * 264;
    let d = dirent_layout(entries[i]);
    assert(d.subrange(0, 4) =~= le32(entries[i].ino));
    assert(v.subrange(at, at + 4) =~= v.subrange(at, at + 264).subrange(0, 4));
    lemma_le32_round(v, at, entries[i].ino);
    assert forall|j: int| 0 <= j < 264 implies #[trigger] v[at + j] == d[j] by {
        assert(v.subrange(at, at + 264)[j] == v[at + j]);
    }
    let len = d[5] as int;
    assert(v[at + 5] == d[5]);
    assert(v[at + 4] == d[4]);
    assert forall|j: int| 0 <= j < len implies #[trigger] v[at + 8 + j] == entries[i].name[j] by {
        assert(v[at + (8 + j)] == d[8 + j]);
    }
    assert forall|j: int| len <= j < 256 implies #[trigger] v[at + 8 + j] == 0 by {
        assert(v[at + (8 + j)] == d[8 + j]);
    }
}

proof fn lemma_dirents(entries: Seq<DirEntryView>, n: nat, i: int)
    requires
        0 <= n <= entries.len(),
    ensures
        dirents_layout(entries, n).len() == n * 264,
        0 <= i < n ==> dirents_layout(entries, n).subrange(i * 264, i * 264 + 264)
            == dirent_layout(entries[i]),
    decreases n,
{
    if n > 0 {
        let m = (n - 1) as nat;
        lemma_dirents(entries, m, i);
        let head = dirents_layout(entries, m);
        let last = dirent_layout(entries[n - 1]);
        assert(last.len() == 264);
        let v = head + last;
        if i == m {
            assert(v.subrange(i * 264, i * 264 + 264) =~= last);
        } else if 0 <= i < m {
            assert(v.subrange(i * 264, i * 264 + 264) =~= head.subrange(i * 264, i * 264 + 264));
        }
    }
}

/// What stands in a directory has that directory as its parent; what stands in the
/// root has the root.
pub proof fn law_the_parent_of_what_stands_in_a_directory(dir: Seq<u8>, name: Seq<u8>)
    requires
        forall|i: int| 0 <= i < name.len() ==> #[trigger] name[i] != 0x2F,
        valid_utf8(dir + seq![0x2Fu8] + name),
    ensures
        dir.len() > 0 ==> parent_path(dir + seq![0x2Fu8] + name) == dir,
        dir.len() == 0 ==> parent_path(dir + seq![0x2Fu8] + name) == seq![0x2Fu8],
{
    let p = dir + seq![0x2Fu8] + name;
    lemma_last_slash(p, p.len() as int, dir.len() as int);
    assert(p.take(dir.len() as int) =~= dir);
}

proof fn lemma_last_slash(p: Seq<u8>, i: int, at: int)
    requires
        0 <= at < i <= p.len(),
        p[at] == 0x2F,
        forall|j: int| at < j < i ==> #[trigger] p[j] != 0x2F,
    ensures
        last_slash(p, i) == at,
    decreases i,
{
    if i - 1 > at {
        lemma_last_slash(p, i - 1, at);
    }
}

// ── Tasks ────────────────────────────────────────────────────────────────────

proof fn lemma_alive(tasks: Tasks)
    ensures
        live(tasks) == tasks.filter(|t: TaskView| t.state != TaskState::Dead),
    decreases tasks.len(),
{
    reveal(Seq::filter);
    if tasks.len() > 0 {
        lemma_alive(tasks.drop_last());
    }
}

/// As many live tasks are listed as there are, or as there is room for, in order,
/// and no dead one. Each says who it is, what it does and what kind it is.
pub proof fn law_live_tasks_are_listed_in_order(tasks: Tasks, cap: u64, i: int)
    requires
        0 <= i < tasks.filter(|t: TaskView| t.state != TaskState::Dead).len(),
        i < cap,
    ensures
        ({
            let alive = tasks.filter(|t: TaskView| t.state != TaskState::Dead);
            let (v, n) = tasks_out(tasks, cap);
            let t = info_of(alive[i]);
            &&& i < n <= alive.len() && n <= cap
            &&& n == alive.len() || n == cap
            &&& v.len() == n * 24
            &&& le64_at(v, i * 24) == t.id
            &&& le64_at(v, i * 24 + 8) == t.state
            &&& v[i * 24 + 16] == t.kind
        }),
{
    let alive = tasks.filter(|t: TaskView| t.state != TaskState::Dead);
    lemma_alive(tasks);
    let (v, n) = tasks_out(tasks, cap);
    lemma_infos(alive, n as nat, i);
    let at = i * 24;
    let t = info_of(alive[i]);
    let d = info_layout(t);
    assert(d.subrange(0, 8) =~= le64(t.id));
    assert(d.subrange(8, 16) =~= le64(t.state));
    let part = v.subrange(at, at + 24);
    assert(v.subrange(at, at + 8) =~= part.subrange(0, 8));
    assert(v.subrange(at + 8, at + 16) =~= part.subrange(8, 16));
    assert(part[16] == v[at + 16]);
    lemma_le64_round(v, at, t.id);
    lemma_le64_round(v, at + 8, t.state);
}

proof fn lemma_infos(tasks: Tasks, n: nat, i: int)
    requires
        0 <= n <= tasks.len(),
    ensures
        infos_layout(tasks, n).len() == n * 24,
        0 <= i < n ==> infos_layout(tasks, n).subrange(i * 24, i * 24 + 24) == info_layout(
            info_of(tasks[i]),
        ),
    decreases n,
{
    if n > 0 {
        let m = (n - 1) as nat;
        lemma_infos(tasks, m, i);
        let head = infos_layout(tasks, m);
        let last = info_layout(info_of(tasks[n - 1]));
        assert(last.len() == 24);
        let v = head + last;
        if i == m {
            assert(v.subrange(i * 24, i * 24 + 24) =~= last);
        } else if 0 <= i < m {
            assert(v.subrange(i * 24, i * 24 + 24) =~= head.subrange(i * 24, i * 24 + 24));
        }
    }
}

/// The extended list says of each live task, besides, its priority and its name, and
/// how long the name is.
pub proof fn law_the_extended_list_names_tasks(tasks: Tasks, cap: u64, i: int)
    requires
        forall|j: int| 0 <= j < tasks.len() ==> (#[trigger] tasks[j]).name.len() == 16,
        0 <= i < tasks.filter(|t: TaskView| t.state != TaskState::Dead).len(),
        i < cap,
    ensures
        ({
            let alive = tasks.filter(|t: TaskView| t.state != TaskState::Dead);
            let (v, n) = ps_out(tasks, cap);
            let t = alive[i];
            let len = v[i * 48 + 18] as int;
            &&& i < n <= alive.len() && n <= cap
            &&& n == alive.len() || n == cap
            &&& v.len() == n * 48
            &&& le64_at(v, i * 48) == t.id
            &&& le64_at(v, i * 48 + 8) == info_of(t).state
            &&& v[i * 48 + 16] == info_of(t).kind
            &&& v[i * 48 + 17] == t.priority
            &&& len <= 16
            &&& forall|j: int| 0 <= j < len ==> #[trigger] t.name[j] != 0
            &&& len < 16 ==> t.name[len] == 0
            &&& v.subrange(i * 48 + 24, i * 48 + 40) == t.name
        }),
{
    let keep = |t: TaskView| t.state != TaskState::Dead;
    let alive = tasks.filter(keep);
    lemma_alive(tasks);
    assert forall|j: int| 0 <= j < alive.len() implies (#[trigger] alive[j]).name.len() == 16 by {
        tasks.lemma_filter_contains_rev(keep, alive[j]);
    }
    let (v, n) = ps_out(tasks, cap);
    lemma_ps(alive, n as nat, i);
    let at = i * 48;
    let t = alive[i];
    let d = ps_layout(t);
    assert(d.subrange(0, 8) =~= le64(t.id));
    assert(d.subrange(8, 16) =~= le64(info_of(t).state));
    let part = v.subrange(at, at + 48);
    assert(v.subrange(at, at + 8) =~= part.subrange(0, 8));
    assert(v.subrange(at + 8, at + 16) =~= part.subrange(8, 16));
    assert(part[16] == v[at + 16] && part[17] == v[at + 17] && part[18] == v[at + 18]);
    lemma_le64_round(v, at, t.id);
    lemma_le64_round(v, at + 8, info_of(t).state);
    assert(v.subrange(at + 24, at + 40) =~= d.subrange(24, 40));
    assert(d.subrange(24, 40) =~= t.name);
    lemma_zero_at(t.name, 0);
}

proof fn lemma_zero_at(name: Seq<u8>, i: int)
    requires
        0 <= i <= name.len(),
    ensures
        i <= zero_at(name, i) <= name.len(),
        forall|j: int| i <= j < zero_at(name, i) ==> #[trigger] name[j] != 0,
        zero_at(name, i) < name.len() ==> name[zero_at(name, i)] == 0,
    decreases name.len() - i,
{
    if i < name.len() && name[i] != 0 {
        lemma_zero_at(name, i + 1);
    }
}

proof fn lemma_ps(tasks: Tasks, n: nat, i: int)
    requires
        0 <= n <= tasks.len(),
        forall|j: int| 0 <= j < tasks.len() ==> (#[trigger] tasks[j]).name.len() == 16,
    ensures
        ps_layouts(tasks, n).len() == n * 48,
        0 <= i < n ==> ps_layouts(tasks, n).subrange(i * 48, i * 48 + 48) == ps_layout(tasks[i]),
    decreases n,
{
    if n > 0 {
        let m = (n - 1) as nat;
        lemma_ps(tasks, m, i);
        let head = ps_layouts(tasks, m);
        let last = ps_layout(tasks[n - 1]);
        assert(last.len() == 48);
        let v = head + last;
        if i == m {
            assert(v.subrange(i * 48, i * 48 + 48) =~= last);
        } else if 0 <= i < m {
            assert(v.subrange(i * 48, i * 48 + 48) =~= head.subrange(i * 48, i * 48 + 48));
        }
    }
}

/// A sleep is as many whole milliseconds as it takes not to be too short.
pub proof fn law_a_sleep_is_not_too_short(ns: u64)
    ensures
        ns <= ms_of(ns) * 1_000_000 < ns + 1_000_000,
{
}

/// An image that loads becomes a task of the next number, which is answered, with
/// the entry, the stack and the memory that loading gave; it is ready to run. One that
/// does not load adds no task.
pub proof fn law_a_loaded_image_becomes_a_task(
    k: KernelView,
    base: u64,
    guard_phys: u64,
    page_table: u64,
    elf: Seq<u8>,
    caps: Seq<CapHandle>,
    argv: Seq<u8>,
)
    requires
        sched_ok(k.sched),
        k.sched.next_id < u64::MAX,
    ensures
        ({
            let (mem, r) = image_loaded(k.used, k.next_stack, elf, args_from(argv, 0));
            let (after, answer, space) = exec_done(
                k,
                base,
                guard_phys,
                page_table,
                elf,
                caps,
                argv,
            );
            &&& after.used == mem.used
            &&& after.objects == k.objects && after.devices == k.devices && after.irqs == k.irqs
                && after.ticks == k.ticks && after.clock == k.clock && after.in_transit
                == k.in_transit
            &&& match r {
                Ok((entry, rsp)) => {
                    let n = k.sched.tasks.len() as int;
                    let t = after.sched.tasks[n];
                    &&& answer == k.sched.next_id
                    &&& space == Some(mem.space)
                    &&& after.sched.tasks.len() == n + 1
                    &&& t.id == answer
                    &&& t.state == TaskState::Ready
                    &&& t.page_table == Some(page_table)
                    &&& t.entry_point == Some(entry)
                    &&& t.user_stack_top == Some(rsp)
                    &&& forall|i: int|
                        0 <= i < n ==> #[trigger] after.sched.tasks[i] == k.sched.tasks[i]
                },
                Err(_) => {
                    &&& answer == INVALID
                    &&& space is None
                    &&& after.sched == k.sched
                    &&& after.ids == k.ids
                },
            }
        }),
{
    let args = args_from(argv, 0);
    let (mem, r) = image_loaded(k.used, k.next_stack, elf, args);
    if let Ok((entry, rsp)) = r {
        law_a_new_task_belongs_to_its_parent(
            k.sched,
            k.ids,
            base,
            guard_phys,
            entry,
            rsp,
            caps,
            page_table,
            task_name(args),
        );
    }
}

// ── At boot ──────────────────────────────────────────────────────────────────

/// What init finds at boot: the mark, the free memory in bytes and in frames, and
/// the name of the processor.
pub proof fn law_what_init_is_told(free: u64, ebx: u32, edx: u32, ecx: u32)
    requires
        free <= 0x10_0000_0000_0000 - 1,
    ensures
        ({
            let v = boot_info(free, ebx, edx, ecx);
            &&& v.len() == 64
            &&& le64_at(v, 8) == free * 4096
            &&& le64_at(v, 16) == free
            &&& le32_at(v, 24) == ebx
            &&& le32_at(v, 28) == edx
            &&& le32_at(v, 32) == ecx
            &&& forall|i: int| 36 <= i < 64 ==> #[trigger] v[i] == 0
        }),
{
    let v = boot_info(free, ebx, edx, ecx);
    assert(v.subrange(8, 16) =~= le64((free * 4096) as u64));
    assert(v.subrange(16, 24) =~= le64(free));
    assert(v.subrange(24, 28) =~= le32(ebx));
    assert(v.subrange(28, 32) =~= le32(edx));
    assert(v.subrange(32, 36) =~= le32(ecx));
    lemma_le64_round(v, 8, (free * 4096) as u64);
    lemma_le64_round(v, 16, free);
    lemma_le32_round(v, 24, ebx);
    lemma_le32_round(v, 28, edx);
    lemma_le32_round(v, 32, ecx);
}

/// The number that decimal digits say.
pub open spec fn said_by(digits: Seq<u8>) -> int
    decreases digits.len(),
{
    if digits.len() == 0 {
        0
    } else {
        10 * said_by(digits.drop_last()) + (digits.last() - 0x30)
    }
}

/// A number is written in digits that say it, without a zero in front.
pub proof fn law_digits_say_the_number(n: nat)
    ensures
        said_by(decimal(n)) == n,
        decimal(n).len() > 0,
        forall|i: int| 0 <= i < decimal(n).len() ==> 0x30 <= #[trigger] decimal(n)[i] <= 0x39,
        n > 0 ==> decimal(n)[0] != 0x30,
    decreases n,
{
    let d = decimal(n);
    if n < 10 {
        assert(d.drop_last() =~= seq![]);
        assert(said_by(d.drop_last()) == 0);
    } else {
        law_digits_say_the_number(n / 10);
        assert(d.drop_last() =~= decimal(n / 10));
    }
}

/// Ten, so many times.
pub open spec fn tens(n: nat) -> int
    decreases n,
{
    if n == 0 {
        1
    } else {
        10 * tens((n - 1) as nat)
    }
}

/// In a line of tasks, a number of at most 8 digits is written in digits that say it.
pub proof fn law_short_digits_say_the_number(x: u64)
    requires
        x < 1_0000_0000,
    ensures
        said_by(low_digits(x, 8)) == x,
        x > 0 ==> low_digits(x, 8).len() > 0 && low_digits(x, 8)[0] != 0x30,
{
    reveal_with_fuel(tens, 9);
    lemma_low_digits(x, 8);
}

proof fn lemma_low_digits(x: u64, n: nat)
    requires
        x < tens(n),
    ensures
        said_by(low_digits(x, n)) == x,
        x > 0 ==> low_digits(x, n).len() > 0 && low_digits(x, n)[0] != 0x30,
    decreases n,
{
    if x > 0 && n > 0 {
        let m = (n - 1) as nat;
        lemma_low_digits(x / 10, m);
        assert(low_digits(x, n).drop_last() =~= low_digits(x / 10, m));
        if x / 10 == 0 {
            assert(low_digits(0, m) =~= seq![]);
        }
    }
}

} // verus!
