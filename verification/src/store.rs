//! The store: a name is sealed by the rename that puts it in place, and an entry
//! is removed whole.

use vstd::prelude::*;
use crate::rfs::path::{components, parts, split_components};
use crate::vfs::{
    change_answer, errno_fs, file_of, fs_errno, is_child, joined_path, op_on, rename_plan,
    retargeted, store_entry_of, store_removal, with_entries, wrote, DirEntryView, FsError,
    MountError, PendingView, RemoveOp, RenameOutcome, RenamePlan, RenameSteps, Steps, StoreRemoval,
    StoreRemovalView, Vfs, VfsView, EINVAL, EROFS, FT_DIR,
};

verus! {

// ── Renaming into place ──────────────────────────────────────────────────────

/// The first component of a path on a volume: what a store seals.
pub open spec fn top_of(rel: Seq<u8>) -> Option<Seq<u8>> {
    if components(rel).len() > 0 {
        Some(components(rel)[0])
    } else {
        None
    }
}

/// The first component of a path on a volume.
pub fn top_component(rel: &[u8]) -> (r: Option<Vec<u8>>)
    ensures
        match top_of(rel@) {
            None => r is None,
            Some(n) => r matches Some(v) && v@ == n,
        },
{
    let mut v: Vec<Vec<u8>> = split_components(rel);
    let ghost c = parts(v@);
    if v.len() == 0 {
        return None;
    }
    assert(c[0] == v@[0]@);
    Some(v.remove(0))
}

/// A rename that was planned and, where it was to be made, tried: the open files
/// afterwards, the answer, and the name to seal. A name is sealed only once the
/// rename is committed, and open files below what was renamed are then below it.
pub open spec fn rename_settled(
    v: VfsView,
    plan: RenamePlan,
    mount: u64,
    old_rel: Seq<u8>,
    new_rel: Seq<u8>,
    done: Result<(), FsError>,
    committed: Result<(), FsError>,
) -> (VfsView, i64, Option<Seq<u8>>) {
    match (plan, done, committed) {
        (RenamePlan::Answer(r), _, _) => (v, r, None),
        (RenamePlan::Move { .. }, Err(e), _) => (v, fs_errno(e), None),
        (RenamePlan::Move { .. }, Ok(_), Err(e)) => (v, fs_errno(e), None),
        (RenamePlan::Move { seal }, Ok(_), Ok(_)) => match (top_of(old_rel), top_of(new_rel)) {
            (Some(from), Some(name)) if seal => (
                VfsView { fds: retargeted(v.fds, mount, from, name), ..v },
                0,
                Some(name),
            ),
            (None, Some(name)) if seal => (v, 0, Some(name)),
            _ => (v, 0, None),
        },
    }
}

impl Vfs {
    /// Settle a rename that was planned and, where it was to be made, tried: the
    /// answer, and the name to seal.
    pub fn settle_rename(
        &mut self,
        plan: RenamePlan,
        mount: u64,
        old_rel: &[u8],
        new_rel: &[u8],
        done: Result<(), FsError>,
        committed: Result<(), FsError>,
    ) -> (r: (i64, Option<Vec<u8>>))
        requires
            old(self).wf(),
        ensures
            final(self).wf(),
            ({
                let s = rename_settled(
                    old(self)@,
                    plan,
                    mount,
                    old_rel@,
                    new_rel@,
                    done,
                    committed,
                );
                &&& final(self)@ == s.0
                &&& r.0 == s.1
                &&& match s.2 {
                    Some(n) => r.1 matches Some(v) && v@ == n,
                    None => r.1 is None,
                }
            }),
    {
        let seal: bool = match plan {
            RenamePlan::Answer(r) => {
                return (r, None);
            },
            RenamePlan::Move { seal } => seal,
        };
        if let Err(e) = done {
            return (errno_fs(e), None);
        }
        if let Err(e) = committed {
            return (errno_fs(e), None);
        }
        if !seal {
            return (0, None);
        }
        match top_component(new_rel) {
            None => (0, None),
            Some(name) => {
                if let Some(from) = top_component(old_rel) {
                    self.retarget(mount, from.as_slice(), name.as_slice());
                }
                (0, Some(name))
            },
        }
    }
}

/// The sealed names, each with its volume.
pub type Seals = Set<(u64, Seq<u8>)>;

/// The first component of a path is sealed.
pub open spec fn is_sealed(seals: Seals, mount: u64, rel: Seq<u8>) -> bool {
    top_of(rel) matches Some(n) && seals.contains((mount, n))
}

/// What a store's guard says of a rename, by the names that are sealed. A sealed
/// entry is not moved away, nothing is moved into one, and a second rename onto a
/// sealed name is left undone. The first one onto a name goes ahead.
pub open spec fn guards_rename(
    seals: Seals,
    mount: u64,
    old_rel: Seq<u8>,
    new_rel: Seq<u8>,
    said: Option<Result<RenameOutcome, FsError>>,
) -> bool {
    let from = is_sealed(seals, mount, old_rel);
    let onto = is_sealed(seals, mount, new_rel);
    let whole = store_entry_of(new_rel) is Some;
    &&& from && !onto ==> said == Some(Err::<RenameOutcome, FsError>(FsError::ReadOnly))
    &&& !from && onto && whole ==> said == Some(Ok::<RenameOutcome, FsError>(RenameOutcome::NoOp))
    &&& !from && onto && !whole ==> said == Some(
        Err::<RenameOutcome, FsError>(FsError::ReadOnly),
    )
    &&& !from && !onto && whole ==> said == Some(
        Ok::<RenameOutcome, FsError>(RenameOutcome::Proceed),
    )
}

/// What a store's guard says of a change: none is made in a sealed entry.
pub open spec fn guards_change(
    seals: Seals,
    mount: u64,
    rel: Seq<u8>,
    said: Result<(), FsError>,
) -> bool {
    is_sealed(seals, mount, rel) ==> said == Err::<(), FsError>(FsError::ReadOnly)
}

/// Both paths of a rename were found, on a volume that is there.
pub open spec fn on_volume(st: RenameSteps, mount: u64) -> bool {
    &&& st.old_resolved is Ok
    &&& st.new_resolved is Ok
    &&& st.old_mount == Ok::<u64, MountError>(mount)
    &&& st.new_mount == Ok::<u64, MountError>(mount)
    &&& st.present
}

/// A rename on a store, of which the volume does what it is asked: the open files
/// and the seals afterwards, and the answer.
pub open spec fn stored(
    v: VfsView,
    seals: Seals,
    mount: u64,
    old_rel: Seq<u8>,
    new_rel: Seq<u8>,
    st: RenameSteps,
) -> (VfsView, Seals, i64) {
    let s = rename_settled(
        v,
        rename_plan(v.ready, true, st),
        mount,
        old_rel,
        new_rel,
        Ok(()),
        Ok(()),
    );
    match s.2 {
        Some(n) => (s.0, seals.insert((mount, n)), s.1),
        None => (s.0, seals, s.1),
    }
}

/// The first writer wins. The first rename onto a name of a store seals that name
/// and no other. From then on a second rename onto it answers 0 and changes
/// nothing, moving the entry away is refused, and so is every change in it, and
/// every write through a descriptor that was held below what was renamed. A
/// descriptor below anything else keeps its file, and is sealed only if it was.
pub proof fn law_the_first_writer_wins(
    v: VfsView,
    seals: Seals,
    mount: u64,
    first: Seq<u8>,
    second: Seq<u8>,
    target: Seq<u8>,
    elsewhere: Seq<u8>,
    st1: RenameSteps,
    st2: RenameSteps,
    st3: RenameSteps,
)
    requires
        v.ready,
        store_entry_of(target) is Some,
        !is_sealed(seals, mount, target),
        top_of(first) is Some,
        !is_sealed(seals, mount, first),
        !is_sealed(seals, mount, second),
        top_of(second) != top_of(target),
        on_volume(st1, mount),
        guards_rename(seals, mount, first, target, st1.guard),
        on_volume(st2, mount),
        guards_rename(
            stored(v, seals, mount, first, target, st1).1,
            mount,
            second,
            target,
            st2.guard,
        ),
        on_volume(st3, mount),
        !is_sealed(stored(v, seals, mount, first, target, st1).1, mount, elsewhere),
        guards_rename(
            stored(v, seals, mount, first, target, st1).1,
            mount,
            target,
            elsewhere,
            st3.guard,
        ),
    ensures
        ({
            let name = store_entry_of(target)->0;
            let (v1, seals1, r1) = stored(v, seals, mount, first, target, st1);
            &&& r1 == 0
            &&& seals1 == seals.insert((mount, name))
            &&& is_sealed(seals1, mount, target)
            &&& stored(v1, seals1, mount, second, target, st2) == (v1, seals1, 0i64)
            &&& stored(v1, seals1, mount, target, elsewhere, st3) == (v1, seals1, EROFS)
            &&& forall|st: Steps, rel: Seq<u8>|
                top_of(rel) == Some(name) && st.resolved is Ok && st.routed is Ok
                    && #[trigger] guards_change(seals1, mount, rel, st.guarded) ==> change_answer(
                    true,
                    true,
                    st,
                ) == EROFS
            &&& forall|
                fd: u64,
                len: u32,
                present: bool,
                done: Result<(), FsError>,
                committed: Result<(), FsError>,
            |
                #![trigger wrote(v1, fd, true, len, present, done, committed)]
                file_of(v, fd) is Ok && file_of(v, fd)->Ok_0.mount == mount && file_of(
                    v,
                    fd,
                )->Ok_0.top == top_of(first) && file_of(v, fd)->Ok_0.writable ==> {
                    &&& fd_sealed(seals1, v1, fd)
                    &&& wrote(v1, fd, true, len, present, done, committed) == (v1, EROFS)
                }
            &&& forall|fd: u64|
                file_of(v, fd) is Ok && (file_of(v, fd)->Ok_0.mount != mount || file_of(
                    v,
                    fd,
                )->Ok_0.top != top_of(first) && file_of(v, fd)->Ok_0.top != Some(name))
                    ==> #[trigger] file_of(v1, fd) == file_of(v, fd) && fd_sealed(seals1, v1, fd)
                    == fd_sealed(seals, v, fd)
        }),
{
    let name = store_entry_of(target)->0;
    assert(top_of(target) == Some(name));
    let (v1, seals1, r1) = stored(v, seals, mount, first, target, st1);
    assert(seals1.contains((mount, name)));
    assert forall|fd: u64|
        file_of(v, fd) is Ok && (file_of(v, fd)->Ok_0.mount != mount || file_of(v, fd)->Ok_0.top
            != top_of(first) && file_of(v, fd)->Ok_0.top != Some(name)) implies
        #[trigger] file_of(v1, fd) == file_of(v, fd) && fd_sealed(seals1, v1, fd) == fd_sealed(
        seals,
        v,
        fd,
    ) by {
        let f = file_of(v, fd)->Ok_0;
        assert(v1.fds[fd as int] == v.fds[fd as int]);
        if f.top is Some {
            assert((f.mount, f.top->0) != (mount, name));
        }
    }
}

/// What the file of a descriptor lies below is sealed.
pub open spec fn fd_sealed(seals: Seals, v: VfsView, fd: u64) -> bool {
    file_of(v, fd) matches Ok(f) && f.top matches Some(n) && seals.contains((f.mount, n))
}

// ── Removing an entry ────────────────────────────────────────────────────────

/// A removal that was planned and, where there was something to remove, tried: the
/// answer, and the name whose seal is forgotten. `fault` is what the removal of
/// the tree was given up with. A seal is forgotten only once the entry is gone.
pub open spec fn removal_settled(
    plan: StoreRemovalView,
    fault: Option<i64>,
    committed: Result<(), FsError>,
) -> (i64, Option<Seq<u8>>) {
    match (plan, fault, committed) {
        (StoreRemovalView::Refused(e), _, _) => (e, None),
        (StoreRemovalView::Gone { name }, _, _) => (0, Some(name)),
        (StoreRemovalView::Remove { .. }, Some(e), _) => (e, None),
        (StoreRemovalView::Remove { .. }, None, Err(e)) => (fs_errno(e), None),
        (StoreRemovalView::Remove { name, .. }, None, Ok(_)) => (0, Some(name)),
    }
}

/// Settle a removal that was planned and, where there was something to remove,
/// tried: the answer, and the name whose seal is to be forgotten.
pub fn settle_removal(
    plan: StoreRemoval,
    fault: Option<i64>,
    committed: Result<(), FsError>,
) -> (r: (i64, Option<Vec<u8>>))
    ensures
        ({
            let s = removal_settled(plan@, fault, committed);
            &&& r.0 == s.0
            &&& match s.1 {
                Some(n) => r.1 matches Some(v) && v@ == n,
                None => r.1 is None,
            }
        }),
{
    match plan {
        StoreRemoval::Refused(e) => (e, None),
        StoreRemoval::Gone { name } => (0, Some(name)),
        StoreRemoval::Remove { name, is_dir: _ } => match fault {
            Some(e) => (e, None),
            None => match committed {
                Err(e) => (errno_fs(e), None),
                Ok(_) => (0, Some(name)),
            },
        },
    }
}

/// The entries of a directory, one after the other; a directory among them has
/// entries of its own.
pub enum Forest {
    Empty,
    File { name: Seq<u8>, rest: Box<Forest> },
    Dir { name: Seq<u8>, inside: Box<Forest>, rest: Box<Forest> },
}

/// The entries from `k` on that a volume lists are those of the forest, in their
/// order. A directory's entries for itself and its parent do not count.
pub open spec fn lists(es: Seq<DirEntryView>, k: int, f: Forest) -> bool
    decreases es.len() - k,
{
    if k < 0 || k >= es.len() {
        f is Empty
    } else if !is_child(es[k]) {
        lists(es, k + 1, f)
    } else {
        match f {
            Forest::Empty => false,
            Forest::File { name, rest } => es[k].name == name && es[k].file_type != FT_DIR
                && lists(es, k + 1, *rest),
            Forest::Dir { name, inside, rest } => es[k].name == name && es[k].file_type == FT_DIR
                && lists(es, k + 1, *rest),
        }
    }
}

/// What a volume lists of every directory in the forest is what is in it.
pub open spec fn shows(
    listing: spec_fn(Seq<u8>) -> Seq<DirEntryView>,
    base: Seq<u8>,
    f: Forest,
) -> bool
    decreases f,
{
    match f {
        Forest::Empty => true,
        Forest::File { name, rest } => shows(listing, base, *rest),
        Forest::Dir { name, inside, rest } => {
            let p = joined_path(base, name);
            &&& lists(listing(p), 0, *inside)
            &&& shows(listing, p, *inside)
            &&& shows(listing, base, *rest)
        },
    }
}

/// What is to be done to remove the entries of a directory: each file is unlinked,
/// and each directory is listed, emptied, and removed after that.
pub open spec fn removing(base: Seq<u8>, f: Forest) -> Seq<(RemoveOp, Seq<u8>)>
    decreases f,
{
    match f {
        Forest::Empty => seq![],
        Forest::File { name, rest } => seq![(RemoveOp::Unlink, joined_path(base, name))] + removing(
            base,
            *rest,
        ),
        Forest::Dir { name, inside, rest } => {
            let p = joined_path(base, name);
            seq![(RemoveOp::List, p)] + removing(p, *inside) + seq![(RemoveOp::Rmdir, p)]
                + removing(base, *rest)
        },
    }
}

/// The paths of the entries of a directory, and of all that is in them.
pub open spec fn paths(base: Seq<u8>, f: Forest) -> Set<Seq<u8>>
    decreases f,
{
    match f {
        Forest::Empty => Set::empty(),
        Forest::File { name, rest } => paths(base, *rest).insert(joined_path(base, name)),
        Forest::Dir { name, inside, rest } => {
            let p = joined_path(base, name);
            paths(p, *inside).union(paths(base, *rest)).insert(p)
        },
    }
}

/// The operations that a removal asks for, up to so many, by what the volume lists;
/// `None` where they do not suffice.
pub open spec fn asked(
    stack: Seq<PendingView>,
    listing: spec_fn(Seq<u8>) -> Seq<DirEntryView>,
    steps: nat,
) -> Option<Seq<(RemoveOp, Seq<u8>)>>
    decreases steps,
{
    if stack.len() == 0 {
        Some(seq![])
    } else if steps == 0 {
        None
    } else {
        let t = stack.last();
        let next = if op_on(t) == RemoveOp::List {
            with_entries(
                stack.drop_last().push(PendingView { listed: true, ..t }),
                t.path,
                listing(t.path),
                0,
            )
        } else {
            stack.drop_last()
        };
        match asked(next, listing, (steps - 1) as nat) {
            Some(rest) => Some(seq![(op_on(t), t.path)] + rest),
            None => None,
        }
    }
}

/// The pending entries of a directory, the first of them on top.
spec fn pending(base: Seq<u8>, f: Forest) -> Seq<PendingView>
    decreases f,
{
    match f {
        Forest::Empty => seq![],
        Forest::File { name, rest } => pending(base, *rest).push(
            PendingView { path: joined_path(base, name), is_dir: false, listed: false },
        ),
        Forest::Dir { name, inside, rest } => pending(base, *rest).push(
            PendingView { path: joined_path(base, name), is_dir: true, listed: false },
        ),
    }
}

/// How many operations a removal takes.
pub open spec fn cost(f: Forest) -> nat
    decreases f,
{
    match f {
        Forest::Empty => 0,
        Forest::File { name, rest } => 1 + cost(*rest),
        Forest::Dir { name, inside, rest } => 2 + cost(*inside) + cost(*rest),
    }
}

proof fn lemma_listed(
    stack: Seq<PendingView>,
    base: Seq<u8>,
    es: Seq<DirEntryView>,
    k: int,
    f: Forest,
)
    requires
        0 <= k <= es.len(),
        lists(es, k, f),
    ensures
        with_entries(stack, base, es, k) == stack + pending(base, f),
    decreases es.len() - k,
{
    if k >= es.len() {
        assert(stack + pending(base, f) =~= stack);
    } else if !is_child(es[k]) {
        lemma_listed(stack, base, es, k + 1, f);
    } else {
        match f {
            Forest::Empty => {},
            Forest::File { name, rest } => {
                lemma_listed(stack, base, es, k + 1, *rest);
                assert(with_entries(stack, base, es, k) =~= stack + pending(base, f));
            },
            Forest::Dir { name, inside, rest } => {
                lemma_listed(stack, base, es, k + 1, *rest);
                assert(with_entries(stack, base, es, k) =~= stack + pending(base, f));
            },
        }
    }
}

/// The entries of a directory are removed in order, and then what lies below them.
proof fn lemma_asked(
    stack: Seq<PendingView>,
    listing: spec_fn(Seq<u8>) -> Seq<DirEntryView>,
    base: Seq<u8>,
    f: Forest,
    more: nat,
)
    requires
        shows(listing, base, f),
    ensures
        asked(stack + pending(base, f), listing, cost(f) + more) == (match asked(
            stack,
            listing,
            more,
        ) {
            Some(rest) => Some(removing(base, f) + rest),
            None => None,
        }),
    decreases f,
{
    let all = stack + pending(base, f);
    match f {
        Forest::Empty => {
            assert(all =~= stack);
            if let Some(rest) = asked(stack, listing, more) {
                assert(removing(base, f) + rest =~= rest);
            }
        },
        Forest::File { name, rest } => {
            let below = stack + pending(base, *rest);
            lemma_asked(stack, listing, base, *rest, more);
            let t = PendingView { path: joined_path(base, name), is_dir: false, listed: false };
            assert(all =~= below.push(t));
            assert(all.last() == t && all.drop_last() =~= below);
            assert(cost(f) + more - 1 == cost(*rest) + more);
            if let Some(r) = asked(stack, listing, more) {
                assert(seq![(RemoveOp::Unlink, t.path)] + (removing(base, *rest) + r) =~= removing(
                    base,
                    f,
                ) + r);
            }
        },
        Forest::Dir { name, inside, rest } => {
            let p = joined_path(base, name);
            let below = stack + pending(base, *rest);
            let t = PendingView { path: p, is_dir: true, listed: false };
            let u = PendingView { path: p, is_dir: true, listed: true };
            let m1 = cost(*rest) + more;
            lemma_asked(stack, listing, base, *rest, more);
            assert(all =~= below.push(t));
            assert(all.last() == t && all.drop_last() =~= below);
            let opened = below.push(u);
            lemma_listed(opened, p, listing(p), 0, *inside);
            lemma_asked(opened, listing, p, *inside, 1 + m1);
            assert(opened.last() == u && opened.drop_last() =~= below);
            assert(asked(opened, listing, 1 + m1) == (match asked(below, listing, m1) {
                Some(r) => Some(seq![(RemoveOp::Rmdir, p)] + r),
                None => None,
            }));
            assert((cost(f) + more - 1) as nat == cost(*inside) + (1 + m1));
            if let Some(r) = asked(stack, listing, more) {
                assert(seq![(RemoveOp::List, p)] + (removing(p, *inside) + (seq![
                    (RemoveOp::Rmdir, p),
                ] + (removing(base, *rest) + r))) =~= removing(base, f) + r);
            }
        },
    }
}

/// A path lies inside a directory.
pub open spec fn lies_inside(dir: Seq<u8>, path: Seq<u8>) -> bool {
    exists|name: Seq<u8>| name.len() > 0 && path == #[trigger] joined_path(dir, name)
}

/// What a volume holds after operations that it was asked for; `None` where it
/// refuses one. It refuses to remove a directory that something is in.
pub open spec fn held_after(held: Set<Seq<u8>>, ops: Seq<(RemoveOp, Seq<u8>)>) -> Option<
    Set<Seq<u8>>,
>
    decreases ops.len(),
{
    if ops.len() == 0 {
        Some(held)
    } else {
        let (op, path) = ops[0];
        if op == RemoveOp::List {
            held_after(held, ops.drop_first())
        } else if op == RemoveOp::Rmdir && exists|q: Seq<u8>|
            #![trigger held.contains(q)]
            held.contains(q) && lies_inside(path, q) {
            None
        } else {
            held_after(held.remove(path), ops.drop_first())
        }
    }
}

/// The forest is all that the volume holds in its directories.
pub open spec fn is_all(held: Set<Seq<u8>>, base: Seq<u8>, f: Forest) -> bool
    decreases f,
{
    match f {
        Forest::Empty => true,
        Forest::File { name, rest } => is_all(held, base, *rest),
        Forest::Dir { name, inside, rest } => {
            let p = joined_path(base, name);
            &&& forall|q: Seq<u8>|
                #![trigger held.contains(q)]
                held.contains(q) && lies_inside(p, q) ==> paths(p, *inside).contains(q)
            &&& is_all(held, p, *inside)
            &&& is_all(held, base, *rest)
        },
    }
}

proof fn lemma_all_of_fewer(held: Set<Seq<u8>>, less: Set<Seq<u8>>, base: Seq<u8>, f: Forest)
    requires
        is_all(held, base, f),
        less.subset_of(held),
    ensures
        is_all(less, base, f),
    decreases f,
{
    match f {
        Forest::Empty => {},
        Forest::File { name, rest } => {
            lemma_all_of_fewer(held, less, base, *rest);
        },
        Forest::Dir { name, inside, rest } => {
            lemma_all_of_fewer(held, less, joined_path(base, name), *inside);
            lemma_all_of_fewer(held, less, base, *rest);
        },
    }
}

/// The volume does what it is asked for, and the forest is gone from it.
proof fn lemma_forest_goes(
    held: Set<Seq<u8>>,
    base: Seq<u8>,
    f: Forest,
    more: Seq<(RemoveOp, Seq<u8>)>,
)
    requires
        is_all(held, base, f),
    ensures
        held_after(held, removing(base, f) + more) == held_after(
            held.difference(paths(base, f)),
            more,
        ),
    decreases f,
{
    let ops = removing(base, f) + more;
    match f {
        Forest::Empty => {
            assert(ops =~= more);
            assert(held.difference(paths(base, f)) =~= held);
        },
        Forest::File { name, rest } => {
            let p = joined_path(base, name);
            let less = held.remove(p);
            assert(ops.drop_first() =~= removing(base, *rest) + more);
            assert(ops[0] == (RemoveOp::Unlink, p));
            lemma_all_of_fewer(held, less, base, *rest);
            lemma_forest_goes(less, base, *rest, more);
            assert(less.difference(paths(base, *rest)) =~= held.difference(paths(base, f)));
        },
        Forest::Dir { name, inside, rest } => {
            let p = joined_path(base, name);
            let last = seq![(RemoveOp::Rmdir, p)] + (removing(base, *rest) + more);
            assert(ops[0] == (RemoveOp::List, p));
            assert(ops.drop_first() =~= removing(p, *inside) + last);
            lemma_forest_goes(held, p, *inside, last);
            let emptied = held.difference(paths(p, *inside));
            assert(last[0] == (RemoveOp::Rmdir, p));
            assert(last.drop_first() =~= removing(base, *rest) + more);
            assert(!(exists|q: Seq<u8>|
                #![trigger emptied.contains(q)]
                emptied.contains(q) && lies_inside(p, q))) by {
                if exists|q: Seq<u8>|
                    #![trigger emptied.contains(q)]
                    emptied.contains(q) && lies_inside(p, q) {
                    let q = choose|q: Seq<u8>|
                        #![trigger emptied.contains(q)]
                        emptied.contains(q) && lies_inside(p, q);
                    assert(held.contains(q));
                }
            }
            let less = emptied.remove(p);
            lemma_all_of_fewer(held, less, base, *rest);
            lemma_forest_goes(less, base, *rest, more);
            assert(less.difference(paths(base, *rest)) =~= held.difference(paths(base, f)));
        },
    }
}

/// What is to be done to remove an entry, with what is inside where it is a
/// directory.
pub open spec fn removing_entry(rel: Seq<u8>, inside: Option<Forest>) -> Seq<(RemoveOp, Seq<u8>)> {
    match inside {
        None => seq![(RemoveOp::Unlink, rel)],
        Some(f) => seq![(RemoveOp::List, rel)] + removing(rel, f) + seq![(RemoveOp::Rmdir, rel)],
    }
}

/// How many operations the removal of an entry takes.
pub open spec fn entry_cost(inside: Option<Forest>) -> nat {
    match inside {
        None => 1,
        Some(f) => 2 + cost(f),
    }
}

/// The paths of an entry and of all that is in it.
pub open spec fn entry_paths(rel: Seq<u8>, inside: Option<Forest>) -> Set<Seq<u8>> {
    match inside {
        None => set![rel],
        Some(f) => paths(rel, f).insert(rel),
    }
}

/// The volume lists the entry as it is, and the entry is all that it holds there.
pub open spec fn is_as_listed(
    held: Set<Seq<u8>>,
    listing: spec_fn(Seq<u8>) -> Seq<DirEntryView>,
    rel: Seq<u8>,
    inside: Option<Forest>,
) -> bool {
    match inside {
        None => true,
        Some(f) => {
            &&& lists(listing(rel), 0, f)
            &&& shows(listing, rel, f)
            &&& is_all(held, rel, f)
            &&& forall|q: Seq<u8>|
                #![trigger held.contains(q)]
                held.contains(q) && lies_inside(rel, q) ==> paths(rel, f).contains(q)
        },
    }
}

/// A tree is removed whole, and nothing else is: the removal asks for each entry
/// once, for a directory after everything in it, and comes to an end; a volume
/// that does what it is asked for refuses nothing, and holds afterwards what it
/// held but for the tree.
pub proof fn law_a_tree_is_removed_whole(
    held: Set<Seq<u8>>,
    listing: spec_fn(Seq<u8>) -> Seq<DirEntryView>,
    rel: Seq<u8>,
    inside: Option<Forest>,
)
    requires
        is_as_listed(held, listing, rel, inside),
    ensures
        ({
            let start = seq![PendingView { path: rel, is_dir: inside is Some, listed: false }];
            &&& asked(start, listing, entry_cost(inside)) == Some(removing_entry(rel, inside))
            &&& held_after(held, removing_entry(rel, inside)) == Some(
                held.difference(entry_paths(rel, inside)),
            )
        }),
{
    let none = Seq::<PendingView>::empty();
    let no_ops = Seq::<(RemoveOp, Seq<u8>)>::empty();
    let t = PendingView { path: rel, is_dir: inside is Some, listed: false };
    let start = seq![t];
    assert(start.last() == t && start.drop_last() =~= none);
    let ops = removing_entry(rel, inside);
    match inside {
        None => {
            assert(asked(none, listing, 0) == Some(no_ops));
            assert(asked(start, listing, 1) == Some(seq![(RemoveOp::Unlink, rel)] + no_ops));
            assert(seq![(RemoveOp::Unlink, rel)] + no_ops =~= ops);
            assert(ops.drop_first() =~= no_ops);
            assert(held_after(held.remove(rel), no_ops) == Some(held.remove(rel)));
            assert(held.remove(rel) =~= held.difference(entry_paths(rel, inside)));
        },
        Some(f) => {
            let u = PendingView { path: rel, is_dir: true, listed: true };
            let opened = none.push(u);
            lemma_listed(opened, rel, listing(rel), 0, f);
            lemma_asked(opened, listing, rel, f, 1);
            assert(opened.last() == u && opened.drop_last() =~= none);
            assert(asked(none, listing, 0) == Some(no_ops));
            let last = seq![(RemoveOp::Rmdir, rel)];
            assert(last + no_ops =~= last);
            assert(asked(opened, listing, 1) == Some(last));
            assert((2 + cost(f) - 1) as nat == cost(f) + 1);
            assert(seq![(RemoveOp::List, rel)] + (removing(rel, f) + last) =~= ops);
            assert(ops.drop_first() =~= removing(rel, f) + last);
            lemma_forest_goes(held, rel, f, last);
            let emptied = held.difference(paths(rel, f));
            assert(last.drop_first() =~= no_ops);
            assert(!(exists|q: Seq<u8>|
                #![trigger emptied.contains(q)]
                emptied.contains(q) && lies_inside(rel, q))) by {
                if exists|q: Seq<u8>|
                    #![trigger emptied.contains(q)]
                    emptied.contains(q) && lies_inside(rel, q) {
                    let q = choose|q: Seq<u8>|
                        #![trigger emptied.contains(q)]
                        emptied.contains(q) && lies_inside(rel, q);
                    assert(held.contains(q));
                }
            }
            assert(held_after(emptied.remove(rel), no_ops) == Some(emptied.remove(rel)));
            assert(emptied.remove(rel) =~= held.difference(entry_paths(rel, inside)));
        },
    }
}

/// An entry of a store is removed in one call, and it alone. Where the volume is
/// no store, or the path below it is not exactly one name, the call is refused and
/// nothing is forgotten. Else the tree is planned for removal as it lies there, it
/// is gone when that is done, the answer is 0, and its seal alone is forgotten. A
/// repeated call, which finds nothing, answers 0 too.
pub proof fn law_a_store_entry_goes_in_one_call(
    st: Steps,
    is_store: bool,
    rel: Seq<u8>,
    mount: u64,
    seals: Seals,
    held: Set<Seq<u8>>,
    listing: spec_fn(Seq<u8>) -> Seq<DirEntryView>,
    inside: Option<Forest>,
)
    requires
        st.routed is Ok,
        is_as_listed(held, listing, rel, inside),
    ensures
        ({
            let entry = store_entry_of(rel);
            let found = Ok::<bool, FsError>(inside is Some);
            let gone = Err::<bool, FsError>(FsError::NotFound);
            let plan = store_removal(true, true, st, is_store, entry, found);
            let again = store_removal(true, true, st, is_store, entry, gone);
            let done = Ok::<(), FsError>(());
            if !is_store || entry is None {
                &&& removal_settled(plan, None, done) == (EINVAL, None::<Seq<u8>>)
                &&& removal_settled(again, None, done) == (EINVAL, None::<Seq<u8>>)
            } else {
                st.present ==> {
                    let name = entry->0;
                    let ops = removing_entry(rel, inside);
                    &&& plan == StoreRemovalView::Remove { name, is_dir: inside is Some }
                    &&& asked(
                        seq![PendingView { path: rel, is_dir: inside is Some, listed: false }],
                        listing,
                        entry_cost(inside),
                    ) == Some(ops)
                    &&& held_after(held, ops) == Some(held.difference(entry_paths(rel, inside)))
                    &&& !held.difference(entry_paths(rel, inside)).contains(rel)
                    &&& removal_settled(plan, None, done) == (0i64, Some(name))
                    &&& removal_settled(again, None, done) == (0i64, Some(name))
                    &&& forall|m: u64, other: Seq<u8>|
                        (m, other) != (mount, name) ==> #[trigger] forgotten(
                            seals,
                            mount,
                            name,
                        ).contains((m, other)) == seals.contains((m, other))
                    &&& !forgotten(seals, mount, name).contains((mount, name))
                }
            }
        }),
{
    law_a_tree_is_removed_whole(held, listing, rel, inside);
}

/// The seals without one name.
pub open spec fn forgotten(seals: Seals, mount: u64, name: Seq<u8>) -> Seals {
    seals.remove((mount, name))
}

/// A rename that is answered without being tried, or that fails, changes nothing and
/// seals nothing, and is answered with its fault. One that succeeds is answered 0; it
/// seals the name that it leads to exactly where it is to.
pub proof fn law_a_failed_rename_seals_nothing(
    v: VfsView,
    mount: u64,
    old_rel: Seq<u8>,
    new_rel: Seq<u8>,
    answer: i64,
    e: FsError,
    done: Result<(), FsError>,
    seal: bool,
)
    ensures
        rename_settled(v, RenamePlan::Answer(answer), mount, old_rel, new_rel, done, Ok(())) == (
            v,
            answer,
            None::<Seq<u8>>,
        ),
        rename_settled(v, RenamePlan::Move { seal }, mount, old_rel, new_rel, Err(e), Ok(())) == (
            v,
            fs_errno(e),
            None::<Seq<u8>>,
        ),
        rename_settled(v, RenamePlan::Move { seal }, mount, old_rel, new_rel, Ok(()), Err(e)) == (
            v,
            fs_errno(e),
            None::<Seq<u8>>,
        ),
        fs_errno(e) < 0,
        ({
            let r = rename_settled(
                v,
                RenamePlan::Move { seal },
                mount,
                old_rel,
                new_rel,
                Ok(()),
                Ok(()),
            );
            &&& r.1 == 0
            &&& !seal ==> r.0 == v && r.2 is None
            &&& seal && components(new_rel).len() > 0 ==> r.2 == Some(components(new_rel)[0])
        }),
{
}

/// A removal that is refused, or that fails on the way or at its end, is answered with
/// its fault, and no name is forgotten. One that succeeds is answered 0, and its name is
/// forgotten; so is that of an entry that is already gone.
pub proof fn law_a_failed_removal_forgets_nothing(
    plan: StoreRemovalView,
    fault: i64,
    e: FsError,
    committed: Result<(), FsError>,
)
    ensures
        match plan {
            StoreRemovalView::Refused(why) => removal_settled(plan, None, committed) == (
                why,
                None::<Seq<u8>>,
            ),
            StoreRemovalView::Gone { name } => removal_settled(plan, None, committed) == (
                0i64,
                Some(name),
            ),
            StoreRemovalView::Remove { name, .. } => {
                &&& removal_settled(plan, Some(fault), committed) == (fault, None::<Seq<u8>>)
                &&& removal_settled(plan, None, Err(e)) == (fs_errno(e), None::<Seq<u8>>)
                &&& removal_settled(plan, None, Ok(())) == (0i64, Some(name))
            },
        },
{
}

} // verus!
