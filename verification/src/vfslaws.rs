//! What holds of open files, of paths that are followed, and of what a mount and a
//! change are answered.

use vstd::prelude::*;
use crate::rfs::path::{components, components_from, last_slash, next_slash, SLASH};
use crate::vfs::{
    candidate, change_answer, created_file, file_of, free_fd, fs_errno, fs_error_of, joined_path,
    key_step, load_place, mount_errno, mount_plan, moved_to, opened_file, parent_and_name, passed,
    read_place, realized_names, rename_plan, root_way, seen_entries, stat_of, through, unlocking,
    was_got, with_rest, write_place, wrote, DirEntryView, FsError, InodeMeta, KeyStep, MountError,
    MountPlan, MountState, OpenView, RenameOutcome, RenamePlan, RenameSteps, RootPlan, Steps,
    VfsView, VolumeEntry, VolumeError, WalkView,
};

verus! {

// ── Open files ───────────────────────────────────────────────────────────────

/// A write that succeeds through a descriptor lands behind all that was written
/// before: where the write went to `at`, the next one goes to `at` and the length on,
/// the file is that much longer, the offset is at its end, and the answer is the
/// length. No other descriptor changes.
pub proof fn law_writes_follow_one_another(v: VfsView, fd: u64, n: u32, m: u64, other: u64)
    requires
        n > 0,
        m > 0,
        v.fds.len() == 64,
        write_place(v, fd, false, n as u64) is Ok,
        file_of(v, fd)->Ok_0.size + n <= u64::MAX,
    ensures
        ({
            let f = file_of(v, fd)->Ok_0;
            let (v1, r) = wrote(v, fd, false, n, true, Ok(()), Ok(()));
            let f1 = file_of(v1, fd)->Ok_0;
            &&& write_place(v, fd, false, n as u64) == Ok::<Option<(u64, u64, u64)>, i64>(
                Some((f.mount, f.ino, f.size)),
            )
            &&& r == n
            &&& file_of(v1, fd) is Ok
            &&& f1.size == f.size + n
            &&& f1.offset == f.size + n
            &&& write_place(v1, fd, false, m) == Ok::<Option<(u64, u64, u64)>, i64>(
                Some((f.mount, f.ino, (f.size + n) as u64)),
            )
            &&& f1.mount == f.mount && f1.ino == f.ino && f1.writable == f.writable && f1.top
                == f.top
            &&& other != fd ==> file_of(v1, other) == file_of(v, other)
            &&& v1.ready == v.ready && v1.fds.len() == v.fds.len()
        }),
{
}

/// Any number of writes through a descriptor, one after the other.
pub open spec fn written_through(v: VfsView, fd: u64, lens: Seq<u32>) -> VfsView
    decreases lens.len(),
{
    if lens.len() == 0 {
        v
    } else {
        wrote(
            written_through(v, fd, lens.drop_last()),
            fd,
            false,
            lens.last(),
            true,
            Ok(()),
            Ok(()),
        ).0
    }
}

/// The sum of lengths.
pub open spec fn total(lens: Seq<u32>) -> int
    decreases lens.len(),
{
    if lens.len() == 0 {
        0
    } else {
        total(lens.drop_last()) + lens.last()
    }
}

/// However many writes go through a descriptor, the file is as much longer as they
/// are together.
pub proof fn law_a_file_grows_by_all_that_is_written(v: VfsView, fd: u64, lens: Seq<u32>)
    requires
        v.fds.len() == 64,
        file_of(v, fd) is Ok,
        file_of(v, fd)->Ok_0.writable,
        file_of(v, fd)->Ok_0.size + total(lens) <= u64::MAX,
    ensures
        0 <= total(lens),
        file_of(written_through(v, fd, lens), fd) is Ok,
        file_of(written_through(v, fd, lens), fd)->Ok_0.size == file_of(v, fd)->Ok_0.size + total(
            lens,
        ),
        file_of(written_through(v, fd, lens), fd)->Ok_0.writable,
        written_through(v, fd, lens).fds.len() == 64,
    decreases lens.len(),
{
    if lens.len() > 0 {
        lemma_total(lens.drop_last());
        law_a_file_grows_by_all_that_is_written(v, fd, lens.drop_last());
    }
}

proof fn lemma_total(lens: Seq<u32>)
    ensures
        0 <= total(lens),
    decreases lens.len(),
{
    if lens.len() > 0 {
        lemma_total(lens.drop_last());
    }
}

/// What cannot be written: nothing goes through a descriptor that is not open for
/// writing, or below a sealed name, or where the volume is gone or refuses it, and
/// then nothing changes.
pub proof fn law_a_refused_write_changes_nothing(
    v: VfsView,
    fd: u64,
    n: u32,
    sealed: bool,
    present: bool,
    done: Result<(), FsError>,
    committed: Result<(), FsError>,
)
    requires
        v.ready,
        file_of(v, fd) is Ok,
    ensures
        ({
            let f = file_of(v, fd)->Ok_0;
            let w = wrote(v, fd, sealed, n, present, done, committed);
            &&& !f.writable ==> w == (v, -6i64)
            &&& f.writable && sealed && f.top is Some ==> w == (v, -14i64)
            &&& f.writable && !(sealed && f.top is Some) && n == 0 ==> w == (v, 0i64)
            &&& f.writable && !(sealed && f.top is Some) && n > 0 && !present ==> w == (v, -6i64)
            &&& f.writable && !(sealed && f.top is Some) && n > 0 && present && (done is Err
                || committed is Err) ==> w.0 == v && w.1 < 0
        }),
{
}

/// A read starts where the one before it ended, and changes nothing but the offset
/// of its descriptor.
pub proof fn law_reads_follow_one_another(v: VfsView, fd: u64, n: u32, other: u64)
    requires
        v.fds.len() == 64,
        file_of(v, fd) is Ok,
        file_of(v, fd)->Ok_0.offset + n <= u64::MAX,
    ensures
        ({
            let f = file_of(v, fd)->Ok_0;
            let (v1, r) = was_got(v, fd, true, Ok(n));
            &&& r == n
            &&& read_place(v, fd) == Ok::<(u64, u64, u64), i64>((f.mount, f.ino, f.offset))
            &&& read_place(v1, fd) == Ok::<(u64, u64, u64), i64>(
                (f.mount, f.ino, (f.offset + n) as u64),
            )
            &&& file_of(v1, fd) == Ok::<OpenView, i64>(
                OpenView { offset: (f.offset + n) as u64, ..f },
            )
            &&& other != fd ==> file_of(v1, other) == file_of(v, other)
            &&& was_got(v, fd, false, Ok(n)) == (v, -6i64)
            &&& forall|e: FsError| #[trigger] was_got(v, fd, true, Err(e)) == (v, fs_errno(e))
        }),
{
}

/// A seek leads to so many bytes from the start, from where the file is read, or
/// from its end; the next read is from there. One before the start, or by another
/// rule, is refused, and nothing changes.
pub proof fn law_a_seek_leads_there(v: VfsView, fd: u64, offset: i64, whence: u32, other: u64)
    requires
        v.fds.len() == 64,
        file_of(v, fd) is Ok,
        file_of(v, fd)->Ok_0.offset <= 0x3FFF_FFFF_FFFF_FFFF,
        file_of(v, fd)->Ok_0.size <= 0x3FFF_FFFF_FFFF_FFFF,
        -0x3FFF_FFFF_FFFF_FFFF <= offset <= 0x3FFF_FFFF_FFFF_FFFF,
    ensures
        ({
            let f = file_of(v, fd)->Ok_0;
            let (v1, r) = moved_to(v, fd, offset, whence);
            let to = if whence == 0 {
                offset as int
            } else if whence == 1 {
                f.offset + offset
            } else {
                f.size + offset
            };
            &&& whence <= 2 && to >= 0 ==> {
                &&& r == to
                &&& read_place(v1, fd) == Ok::<(u64, u64, u64), i64>((f.mount, f.ino, to as u64))
                &&& file_of(v1, fd) == Ok::<OpenView, i64>(OpenView { offset: to as u64, ..f })
                &&& other != fd ==> file_of(v1, other) == file_of(v, other)
            }
            &&& whence > 2 || to < 0 ==> (v1, r) == (v, -4i64)
        }),
{
}

/// A descriptor that is not open, and every one while the root is not mounted, is
/// refused by all.
pub proof fn law_what_is_not_open_is_refused(v: VfsView, fd: u64, n: u32, offset: i64, whence: u32)
    ensures
        ({
            let e = if !v.ready {
                -9i64
            } else {
                -6i64
            };
            !v.ready || fd >= v.fds.len() || v.fds[fd as int] is None ==> {
                &&& read_place(v, fd) == Err::<(u64, u64, u64), i64>(e)
                &&& write_place(v, fd, false, n as u64) == Err::<Option<(u64, u64, u64)>, i64>(e)
                &&& was_got(v, fd, true, Ok(n)) == (v, e)
                &&& wrote(v, fd, false, n, true, Ok(()), Ok(())) == (v, e)
                &&& moved_to(v, fd, offset, whence) == (v, e)
            }
        }),
{
}

/// Opening a file gives the lowest descriptor that is free, from which its bytes are
/// read from the start and nothing is written. Creating one gives such a descriptor
/// too, of an empty file that is written. No other descriptor changes. Where none is
/// free, or any step before failed, none is given and nothing changes.
pub proof fn law_a_file_is_opened_at_the_lowest_descriptor(
    v: VfsView,
    st: Steps,
    m: InodeMeta,
    mount: u64,
    top: Option<Seq<u8>>,
    k: int,
)
    requires
        v.ready,
        v.fds.len() == 64,
        st.resolved is Ok && st.routed is Ok && st.guarded is Ok && st.present,
        !m.is_dir,
    ensures
        ({
            let o = opened_file(v, true, st, Ok(m), Ok(()), mount, top);
            let c = created_file(
                v,
                true,
                Steps { committed: Ok(()), ..st },
                Ok(m.ino),
                Ok(()),
                mount,
                top,
            );
            let free = 0 <= k < 64 && v.fds[k] is None && forall|j: int|
                0 <= j < k ==> (#[trigger] v.fds[j]) is Some;
            &&& free ==> {
                &&& o.1 == k && c.1 == k
                &&& o.0.fds == v.fds.update(
                    k,
                    Some(
                        OpenView {
                            mount,
                            ino: m.ino,
                            offset: 0,
                            size: m.size,
                            writable: false,
                            top,
                        },
                    ),
                )
                &&& c.0.fds == v.fds.update(
                    k,
                    Some(
                        OpenView { mount, ino: m.ino, offset: 0, size: 0, writable: true, top },
                    ),
                )
                &&& o.0.ready && c.0.ready
            }
            &&& (forall|j: int| 0 <= j < 64 ==> (#[trigger] v.fds[j]) is Some) ==> o == (v, -10i64)
                && c == (v, -10i64)
        }),
{
    lemma_lowest(v.fds, 0, k);
}

proof fn lemma_lowest(fds: Seq<Option<OpenView>>, from: int, k: int)
    requires
        0 <= from <= fds.len(),
    ensures
        from <= k < fds.len() && fds[k] is None && (forall|j: int|
            0 <= j < k ==> (#[trigger] fds[j]) is Some) ==> free_fd(fds, from) == k,
        (forall|j: int| 0 <= j < fds.len() ==> (#[trigger] fds[j]) is Some) ==> free_fd(fds, from)
            == fds.len(),
    decreases fds.len() - from,
{
    if from < fds.len() && fds[from] is Some {
        lemma_lowest(fds, from + 1, k);
    }
}

// ── What is answered ─────────────────────────────────────────────────────────

/// The first step of a change that fails answers it, and only one that went well
/// throughout is answered 0.
pub proof fn law_the_first_fault_answers(ready: bool, text: bool, st: Steps)
    ensures
        ({
            let a = change_answer(ready, text, st);
            let s1 = ready && text;
            let s2 = s1 && st.resolved is Ok;
            let s3 = s2 && st.routed is Ok;
            let s4 = s3 && st.guarded is Ok;
            let s5 = s4 && st.present;
            let s6 = s5 && st.done is Ok;
            &&& !ready ==> a == -9
            &&& ready && !text ==> a == -4
            &&& s1 && !s2 ==> a == st.resolved->Err_0
            &&& s2 && !s3 ==> a == mount_errno(st.routed->Err_0)
            &&& s3 && !s4 ==> a == fs_errno(st.guarded->Err_0)
            &&& s4 && !s5 ==> a == -9
            &&& s5 && !s6 ==> a == fs_errno(st.done->Err_0)
            &&& s6 && st.committed is Err ==> a == fs_errno(st.committed->Err_0)
            &&& s6 && st.committed is Ok ==> a == 0
        }),
{
}

/// Each error has a number of its own below 0, and these are they.
pub proof fn law_errors_have_numbers()
    ensures
        fs_errno(FsError::Invalid) == -4,
        fs_errno(FsError::NotFound) == -5,
        fs_errno(FsError::NotDir) == -8,
        fs_errno(FsError::Exists) == -11,
        fs_errno(FsError::NoSpace) == -12,
        fs_errno(FsError::ReadOnly) == -14,
        fs_errno(FsError::IsDir) == -15,
        fs_errno(FsError::NotEmpty) == -16,
        fs_errno(FsError::Device) == -17,
        mount_errno(MountError::Invalid) == -4,
        mount_errno(MountError::AlreadyMounted) == -13,
        mount_errno(MountError::NoSuchPath) == -5,
        mount_errno(MountError::NotDir) == -8,
        mount_errno(MountError::NotMounted) == -9,
        forall|e: FsError| #[trigger] mount_errno(MountError::Backend(e)) == fs_errno(e),
{
}

/// The first step of a rename that fails answers it. It stays on one volume; what a
/// guard has to say comes before whether the volume is there, and the rename is made
/// only where nothing is against it. It seals exactly where there is a guard.
pub proof fn law_a_rename_is_planned(ready: bool, text: bool, st: RenameSteps)
    ensures
        ({
            let p = rename_plan(ready, text, st);
            let s1 = ready && text;
            let s2 = s1 && st.old_resolved is Ok;
            let s3 = s2 && st.new_resolved is Ok;
            let s4 = s3 && st.old_mount is Ok;
            let s5 = s4 && st.new_mount is Ok;
            let s6 = s5 && st.old_mount->Ok_0 == st.new_mount->Ok_0;
            let refused = st.guard matches Some(Err(_));
            let undone = st.guard == Some(Ok::<RenameOutcome, FsError>(RenameOutcome::NoOp));
            &&& !ready ==> p == RenamePlan::Answer(-9i64)
            &&& ready && !text ==> p == RenamePlan::Answer(-4i64)
            &&& s1 && !s2 ==> p == RenamePlan::Answer(st.old_resolved->Err_0)
            &&& s2 && !s3 ==> p == RenamePlan::Answer(st.new_resolved->Err_0)
            &&& s3 && !s4 ==> p == RenamePlan::Answer(mount_errno(st.old_mount->Err_0))
            &&& s4 && !s5 ==> p == RenamePlan::Answer(mount_errno(st.new_mount->Err_0))
            &&& s5 && !s6 ==> p == RenamePlan::Answer(-4i64)
            &&& s6 && refused ==> p == RenamePlan::Answer(fs_errno(st.guard->0->Err_0))
            &&& s6 && undone ==> p == RenamePlan::Answer(0)
            &&& s6 && !refused && !undone && !st.present ==> p == RenamePlan::Answer(-9i64)
            &&& s6 && !refused && !undone && st.present ==> p == RenamePlan::Move {
                seal: st.guard is Some,
            }
        }),
{
}

/// A mount is for a place that is free, from memory (0) or from the second disk (1),
/// of which every eight sectors make a block, and as a store where the flag says so.
pub proof fn law_a_mount_is_planned(st: MountState, source: u64, flags: u64)
    ensures
        ({
            let p = mount_plan(st, source, flags);
            &&& !st.ready ==> p == MountPlan::Refuse(-9i64)
            &&& st.ready && flags > 1 ==> p == MountPlan::Refuse(-4i64)
            &&& st.ready && flags <= 1 && st.taken ==> p == MountPlan::Refuse(-13i64)
            &&& st.ready && flags <= 1 && !st.taken ==> {
                &&& source == 0 ==> p == MountPlan::Ram {
                    store: flags == 1,
                }
                &&& source == 1 && st.disk_sectors is Some ==> {
                    let n = st.disk_sectors->0;
                    &&& n < 8 ==> p == MountPlan::Refuse(-17i64)
                    &&& n >= 8 ==> {
                        &&& p is Disk
                        &&& p->blocks * 8 <= n < p->blocks * 8 + 8
                        &&& p->encrypted == st.root_encrypted
                        &&& p->Disk_store == (flags == 1)
                    }
                }
                &&& source == 1 && st.disk_sectors is None ==> p
                    == MountPlan::Refuse(-17i64)
                &&& source != 0 && source
                    != 1 ==> p == MountPlan::Refuse(-4i64)
            }
        }),
{
}

/// When a store is mounted again, exactly its directories are sealed whose names do
/// not begin with a dot, in order.
pub proof fn law_what_was_realized_is_sealed_again(entries: Seq<DirEntryView>)
    ensures
        realized_names(entries) == entries.filter(
            |e: DirEntryView| e.file_type == 2 && !(e.name.len() > 0 && e.name[0] == 46),
        ).map_values(|e: DirEntryView| e.name),
    decreases entries.len(),
{
    let keep = |e: DirEntryView| e.file_type == 2 && !(e.name.len() > 0 && e.name[0] == 46);
    let named = |e: DirEntryView| e.name;
    reveal(Seq::filter);
    if entries.len() > 0 {
        law_what_was_realized_is_sealed_again(entries.drop_last());
        let head = entries.drop_last().filter(keep);
        assert(head.push(entries.last()).map_values(named) =~= head.map_values(named).push(
            entries.last().name,
        ));
    }
    assert(realized_names(entries) =~= entries.filter(keep).map_values(named));
}

// ── Paths ────────────────────────────────────────────────────────────────────

/// A name has no slash and is not empty.
pub open spec fn is_name(n: Seq<u8>) -> bool {
    n.len() > 0 && forall|i: int| 0 <= i < n.len() ==> n[i] != 47
}

/// A path put together from a directory and a name comes apart into them again.
pub proof fn law_a_joined_path_comes_apart(dir: Seq<u8>, name: Seq<u8>)
    requires
        is_name(name),
        dir.len() > 0,
        dir[0] == 47,
        dir.len() > 1 ==> dir.last() != 47,
    ensures
        parent_and_name(joined_path(dir, name)) == Some((dir, name)),
{
    let p = joined_path(dir, name);
    let at = p.len() - name.len() - 1;
    assert(p.last() == name.last());
    lemma_last_slash_at(p, p.len() as int, at);
    assert(p.subrange(at + 1, p.len() as int) =~= name);
    if dir.len() == 1 {
        assert(dir =~= seq![SLASH]);
    } else {
        assert(p.take(at) =~= dir);
    }
}

proof fn lemma_last_slash_at(p: Seq<u8>, n: int, at: int)
    requires
        0 <= at < n <= p.len(),
        p[at] == 47,
        forall|i: int| at < i < n ==> p[i] != 47,
    ensures
        last_slash(p, n) == at,
    decreases n - at,
{
    if at < n - 1 {
        lemma_last_slash_at(p, n - 1, at);
    }
}

/// A path that is not absolute, or that ends in a slash, names nothing in a
/// directory.
pub proof fn law_what_names_nothing_in_a_directory(p: Seq<u8>)
    requires
        p.len() == 0 || p[0] != 47 || p.last() == 47,
    ensures
        parent_and_name(p) is None,
{
}

/// Names, each behind a slash, come apart into themselves again, and so they do with
/// any number of slashes before, between and behind them.
pub proof fn law_a_path_comes_apart_into_its_names(path: Seq<u8>, names: Seq<Seq<u8>>, last: Seq<u8>)
    requires
        forall|i: int| 0 <= i < names.len() ==> is_name(#[trigger] names[i]),
        is_name(last),
    ensures
        components(with_rest(seq![], names, 0)) == names,
        components(seq![SLASH] + path) == components(path),
        components(path.push(SLASH)) == components(path),
        components(path.push(SLASH) + last) == components(path).push(last),
{
    lemma_append_name(path, last);
    lemma_slash_before(path);
    lemma_slash_behind(path, 0);
    lemma_names_joined(names, names.len() as int);
    assert(names.take(names.len() as int) =~= names);
    assert(components(path.push(SLASH)) == components(path));
}

proof fn lemma_next(p: Seq<u8>, i: int)
    requires
        0 <= i <= p.len(),
    ensures
        i <= next_slash(p, i) <= p.len(),
        next_slash(p, i) < p.len() ==> p[next_slash(p, i)] == 47,
        forall|j: int| i <= j < next_slash(p, i) ==> p[j] != 47,
    decreases p.len() - i,
{
    if i < p.len() && p[i] != 47 {
        lemma_next(p, i + 1);
    }
}

proof fn lemma_next_is(p: Seq<u8>, i: int, e: int)
    requires
        0 <= i <= e <= p.len(),
        forall|j: int| i <= j < e ==> p[j] != 47,
        e < p.len() ==> p[e] == 47,
    ensures
        next_slash(p, i) == e,
    decreases e - i,
{
    if i < e {
        lemma_next_is(p, i + 1, e);
    }
}

proof fn lemma_slash_before(p: Seq<u8>)
    ensures
        components(seq![SLASH] + p) == components(p),
{
    let q = seq![SLASH] + p;
    lemma_next_is(q, 0, 0);
    lemma_shifted(q, p, 0);
    if p.len() == 0 {
        assert(components_from(q, 1) =~= seq![]);
        assert(components(p) =~= seq![]);
    }
    assert(components(q) == components_from(q, 1));
}

proof fn lemma_shifted(q: Seq<u8>, p: Seq<u8>, i: int)
    requires
        q == seq![SLASH] + p,
        0 <= i <= p.len(),
    ensures
        components_from(q, i + 1) == components_from(p, i),
    decreases p.len() - i,
{
    if i < p.len() {
        lemma_next(p, i);
        let j = next_slash(p, i);
        assert forall|k: int| i + 1 <= k < j + 1 implies q[k] != 47 by {
            assert(q[k] == p[k - 1]);
        }
        lemma_next_is(q, i + 1, j + 1);
        assert(q.subrange(i + 1, j + 1) =~= p.subrange(i, j));
        if j < p.len() {
            lemma_shifted(q, p, j + 1);
        }
    }
}

proof fn lemma_slash_behind(p: Seq<u8>, i: int)
    requires
        0 <= i <= p.len(),
    ensures
        components_from(p.push(SLASH), i) == components_from(
            p,
            i,
        ),
    decreases p.len() - i,
{
    let q = p.push(SLASH);
    lemma_next(p, i);
    let j = next_slash(p, i);
    lemma_next_is(q, i, j);
    assert(components_from(q, q.len() as int) =~= seq![]);
    if i < p.len() {
        assert(q.subrange(i, j) =~= p.subrange(i, j));
        if j < p.len() {
            lemma_slash_behind(p, j + 1);
        }
    } else {
        assert(components_from(q, i) =~= seq![]);
        assert(components_from(p, i) =~= seq![]);
    }
}

proof fn lemma_append_name(p: Seq<u8>, last: Seq<u8>)
    requires
        is_name(last),
    ensures
        components(p.push(SLASH) + last) == components(p).push(last),
{
    lemma_append_from(p, last, 0);
}

proof fn lemma_append_from(p: Seq<u8>, last: Seq<u8>, i: int)
    requires
        is_name(last),
        0 <= i <= p.len(),
    ensures
        components_from(p.push(SLASH) + last, i)
            == components_from(p, i).push(last),
    decreases p.len() - i,
{
    let q = p.push(SLASH) + last;
    let n = p.len() as int;
    assert forall|k: int| n + 1 <= k < q.len() implies q[k] != 47 by {
        assert(q[k] == last[k - n - 1]);
    }
    lemma_next_is(q, n + 1, q.len() as int);
    assert(q.subrange(n + 1, q.len() as int) =~= last);
    assert(components_from(q, n + 1) =~= seq![last]);
    lemma_next(p, i);
    let j = next_slash(p, i);
    lemma_next_is(q, i, j);
    if i < p.len() {
        assert(q.subrange(i, j) =~= p.subrange(i, j));
        if j < p.len() {
            lemma_append_from(p, last, j + 1);
        } else {
            assert(components_from(p, i) =~= seq![p.subrange(i, j)]);
        }
        assert(components_from(q, i) =~= components_from(
            p,
            i,
        ).push(last));
    } else {
        assert(components_from(p, i) =~= seq![]);
        assert(components_from(q, i) =~= seq![last]);
    }
}

proof fn lemma_names_joined(names: Seq<Seq<u8>>, n: int)
    requires
        0 <= n <= names.len(),
        forall|i: int| 0 <= i < names.len() ==> is_name(#[trigger] names[i]),
    ensures
        components(with_rest(seq![], names.take(n), 0)) == names.take(n),
    decreases n,
{
    if n == 0 {
        assert(names.take(0) =~= seq![]);
        assert(components(Seq::<u8>::empty()) =~= seq![]);
    } else {
        lemma_names_joined(names, n - 1);
        lemma_rest_last(seq![], names.take(n), 0);
        assert(names.take(n).drop_last() =~= names.take(n - 1));
        lemma_append_name(with_rest(seq![], names.take(n - 1), 0), names[n - 1]);
        assert(names.take(n - 1).push(names[n - 1]) =~= names.take(n));
    }
}

proof fn lemma_rest_last(path: Seq<u8>, comps: Seq<Seq<u8>>, k: int)
    requires
        0 <= k < comps.len(),
    ensures
        with_rest(path, comps, k) == with_rest(path, comps.drop_last(), k).push(SLASH)
            + comps.last(),
    decreases comps.len() - k,
{
    if k + 1 < comps.len() {
        assert(comps.drop_last()[k] == comps[k]);
        lemma_rest_last(path.push(SLASH) + comps[k], comps, k + 1);
    } else {
        assert(with_rest(path.push(SLASH) + comps[k], comps, k + 1) == path.push(SLASH)
            + comps[k]);
        assert(with_rest(path, comps.drop_last(), k) == path);
    }
}

/// A walk looks at each component below what it has resolved. Past one that is no
/// symlink it goes on below it. Through a symlink it starts anew, at the root where
/// the target does and else in the directory that holds the link, with what is left
/// of the path behind the target.
pub proof fn law_a_symlink_is_followed(w: WalkView, target: Seq<u8>)
    requires
        0 <= w.next < w.comps.len(),
        forall|i: int| 0 <= i < w.comps.len() ==> is_name(#[trigger] w.comps[i]),
    ensures
        candidate(w) == w.resolved + seq![47u8] + w.comps[w.next],
        passed(w).resolved == candidate(w),
        passed(w).next == w.next + 1,
        passed(w).comps == w.comps,
        target.len() > 0 && target[0] == 47 ==> components(through(w, target)) == components(
            target,
        ) + w.comps.skip(w.next + 1),
        !(target.len() > 0 && target[0] == 47) ==> components(through(w, target)) == components(
            w.resolved.push(SLASH) + target,
        ) + w.comps.skip(w.next + 1),
{
    assert(candidate(w) =~= w.resolved + seq![47u8] + w.comps[w.next]);
    let head = if target.len() > 0 && target[0] == SLASH {
        target
    } else {
        w.resolved.push(SLASH) + target
    };
    lemma_rest_components(head, w.comps, w.next + 1, w.comps.len() as int);
    assert(w.comps.take(w.comps.len() as int) =~= w.comps);
    assert(w.comps.subrange(w.next + 1, w.comps.len() as int) =~= w.comps.skip(w.next + 1));
}

proof fn lemma_rest_components(path: Seq<u8>, comps: Seq<Seq<u8>>, k: int, n: int)
    requires
        0 <= k <= n <= comps.len(),
        forall|i: int| 0 <= i < comps.len() ==> is_name(#[trigger] comps[i]),
    ensures
        components(with_rest(path, comps.take(n), k)) == components(path) + comps.subrange(k, n),
    decreases n - k,
{
    if k == n {
        assert(comps.subrange(k, n) =~= seq![]);
        assert(with_rest(path, comps.take(n), k) == path);
        assert(components(path) + comps.subrange(k, n) =~= components(path));
    } else {
        let next = path.push(SLASH) + comps[k];
        assert(comps.take(n)[k] == comps[k]);
        lemma_append_name(path, comps[k]);
        lemma_rest_components(next, comps, k + 1, n);
        assert(components(path).push(comps[k]) + comps.subrange(k + 1, n) =~= components(path)
            + comps.subrange(k, n));
    }
}

// ── Disks and attributes ─────────────────────────────────────────────────────

/// Attributes are those of the file: its size, its owner and its links as they are,
/// the twelve bits of its mode that say who may do what, its times in milliseconds,
/// and flags that say that it is in use and what it is.
pub proof fn law_attributes_are_those_of_the_file(m: InodeMeta)
    ensures
        ({
            let s = stat_of(m);
            &&& s.size == m.size
            &&& s.uid == m.uid
            &&& s.gid == m.gid
            &&& s.nlink == m.nlink
            &&& s.mode < 0x1000
            &&& (m.mode - s.mode) % 0x1000 == 0
            &&& s.mtime * 1_000_000 <= m.mtime < (s.mtime + 1) * 1_000_000
            &&& s.ctime * 1_000_000 <= m.ctime < (s.ctime + 1) * 1_000_000
            &&& s.flags < 8
            &&& s.flags % 2 == 1
            &&& s.flags / 2 % 2 == (if m.is_dir {
                1int
            } else {
                0
            })
            &&& s.flags / 4 % 2 == (if m.is_symlink {
                1int
            } else {
                0
            })
        }),
{
}

/// What a volume fails with is answered with a number of its own, or with that of a
/// fault of the device.
pub proof fn law_faults_of_a_volume_have_numbers(e: VolumeError)
    ensures
        ({
            let n = fs_errno(fs_error_of(e));
            &&& e is NotFound <==> n == -5
            &&& e is NotDir <==> n == -8
            &&& e is Exists <==> n == -11
            &&& e is NoSpace || e is GenExhausted <==> n == -12
            &&& e is ReadOnly <==> n == -14
            &&& e is IsDir <==> n == -15
            &&& e is NotEmpty <==> n == -16
            &&& e is Invalid || e is Perm <==> n == -4
            &&& n == -5 || n == -8 || n == -11 || n == -12 || n == -14 || n == -15 || n == -16 || n
                == -4 || n == -17
        }),
{
}

/// A file is loaded whole, from its start; a directory, an empty file and one of more
/// than 32 MiB are not.
pub proof fn law_a_file_is_loaded_whole(m: InodeMeta)
    ensures
        match load_place(m) {
            Some((ino, at, len)) => ino == m.ino && at == 0 && len == m.size && !m.is_dir && 0
                < len <= 33_554_432,
            None => m.is_dir || m.size == 0 || m.size > 33_554_432,
        },
{
}

/// The root is mounted from all whole blocks of the first disk, each of eight sectors;
/// it is unlocked first exactly where its header says that it is encrypted.
pub proof fn law_the_root_takes_the_whole_disk(sectors: u64, encrypted: Option<bool>)
    ensures
        match root_way(Some(sectors), encrypted) {
            RootPlan::Plain { blocks } => encrypted != Some(true) && blocks * 8 <= sectors < blocks
                * 8 + 8,
            RootPlan::Encrypted { blocks } => encrypted == Some(true) && blocks * 8 <= sectors
                < blocks * 8 + 8,
            RootPlan::Absent => false,
        },
        root_way(None, encrypted) is Absent,
{
}

/// A key of 32 bytes is used, and a key is drawn only where there is none and nothing
/// that it could have locked. In all other cases the store is given up.
pub proof fn law_a_key_is_drawn_for_a_blank_store_only(key_len: Option<usize>, formatted: bool)
    ensures
        key_step(key_len, formatted) is Use <==> key_len == Some(32usize),
        key_step(key_len, formatted) is Mint <==> key_len is None && !formatted,
        key_step(key_len, formatted) is Fail ==> key_step(key_len, formatted) == KeyStep::Fail(
            -17i64,
        ),
{
}

/// A passphrase can be tried three times: a wrong one is asked for again but the third
/// time, the right one mounts the root, and one that unlocks what cannot be mounted
/// ends it.
pub proof fn law_a_passphrase_is_asked_for_three_times(n: u32, unlocked: bool, mounted: bool)
    requires
        1 <= n,
    ensures
        unlocking(n, unlocked, mounted) is Mounted <==> unlocked && mounted,
        unlocking(n, unlocked, mounted) is Retry <==> !unlocked && (n == 1 || n == 2),
{
}

/// A directory shows the entries of its volume, each with its name, its kind and its
/// number.
pub proof fn law_entries_are_shown_as_they_are(es: Seq<VolumeEntry>, i: int)
    requires
        0 <= i < es.len(),
    ensures
        seen_entries(es).len() == es.len(),
        seen_entries(es)[i].name == es[i].name@,
        seen_entries(es)[i].file_type == es[i].file_type,
        es[i].ino < 0x1_0000_0000 ==> seen_entries(es)[i].ino == es[i].ino,
{
}

} // verus!
