//! Paths: splitting them and following them, symlinks among them.

use vstd::prelude::*;
use vstd::utf8::{encode_utf8, valid_utf8};

use crate::bytes::{copy_range, zero_bytes};
use crate::rfs::dir::lookup_in_dir;
use crate::rfs::disk::{Blocks, Disk, BLOCK_SIZE};
use crate::rfs::file::{file_byte, is_read};
use crate::rfs::inode::{
    inode_extents, read_inode, Inode, InodeView, INODE_DIR, INODE_FAST_SYM, INODE_SYMLINK,
};
use crate::text::is_utf8;

verus! {

/// The separator of path components.
pub const SLASH: u8 = 0x2F;

/// Symlinks that one resolution follows.
pub const MAX_SYMLINK_HOPS: u32 = 8;

/// Bytes of a symlink target that an inode can hold itself.
pub const FAST_SYM_MAX: u64 = 64;

// ── Splitting ────────────────────────────────────────────────────────────────

/// The first slash at or after `i`, or the length.
pub open spec fn next_slash(p: Seq<u8>, i: int) -> int
    decreases p.len() - i,
{
    if i >= p.len() {
        p.len() as int
    } else if p[i] == SLASH {
        i
    } else {
        next_slash(p, i + 1)
    }
}

/// The search for a slash ends within the path.
pub proof fn lemma_next_slash(p: Seq<u8>, i: int)
    requires
        0 <= i <= p.len(),
    ensures
        i <= next_slash(p, i) <= p.len(),
    decreases p.len() - i,
{
    if i < p.len() && p[i] != SLASH {
        lemma_next_slash(p, i + 1);
    }
}

/// The nonempty parts between the slashes of a path, from byte `i` on.
pub open spec fn components_from(p: Seq<u8>, i: int) -> Seq<Seq<u8>>
    decreases p.len() - i,
{
    if i < 0 || i >= p.len() {
        seq![]
    } else {
        proof {
            lemma_next_slash(p, i);
        }
        let j = next_slash(p, i);
        let rest = if j < p.len() {
            components_from(p, j + 1)
        } else {
            seq![]
        };
        if i < j {
            seq![p.subrange(i, j)] + rest
        } else {
            rest
        }
    }
}

/// The components of a path.
pub open spec fn components(p: Seq<u8>) -> Seq<Seq<u8>> {
    components_from(p, 0)
}

/// The last slash before `i`, or -1.
pub open spec fn last_slash(p: Seq<u8>, i: int) -> int
    decreases i,
{
    if i <= 0 {
        -1
    } else if p[i - 1] == SLASH {
        i - 1
    } else {
        last_slash(p, i - 1)
    }
}

/// The directory part of a path; `/` where there is none.
pub open spec fn parent_part(p: Seq<u8>) -> Seq<u8> {
    let i = last_slash(p, p.len() as int);
    if i <= 0 {
        seq![SLASH]
    } else {
        p.subrange(0, i)
    }
}

/// What follows the last slash of a path.
pub open spec fn name_part(p: Seq<u8>) -> Seq<u8> {
    p.subrange(last_slash(p, p.len() as int) + 1, p.len() as int)
}

/// Views of a list of byte strings.
pub open spec fn parts(v: Seq<Vec<u8>>) -> Seq<Seq<u8>> {
    Seq::new(v.len(), |k: int| v[k]@)
}

/// The components of a path.
pub fn split_components(p: &[u8]) -> (v: Vec<Vec<u8>>)
    ensures
        parts(v@) == components(p@),
{
    let mut v: Vec<Vec<u8>> = Vec::new();
    let mut i: usize = 0;
    assert(parts(v@) + components(p@) =~= components(p@));
    while i < p.len()
        invariant
            i <= p.len(),
            components(p@) == parts(v@) + components_from(p@, i as int),
        decreases p.len() - i,
    {
        let mut j: usize = i;
        proof {
            lemma_next_slash(p@, i as int);
        }
        while j < p.len() && p[j] != SLASH
            invariant
                i <= j <= p.len(),
                next_slash(p@, i as int) == next_slash(p@, j as int),
            decreases p.len() - j,
        {
            j += 1;
        }
        let ghost before = parts(v@);
        if i < j {
            let part: Vec<u8> = copy_range(p, i, j);
            let ghost pv = part@;
            v.push(part);
            assert(parts(v@) =~= before.push(pv));
            let ghost rest = if j < p@.len() {
                components_from(p@, j + 1)
            } else {
                seq![]
            };
            assert(before + (seq![pv] + rest) =~= before.push(pv) + rest);
        }
        if j < p.len() {
            i = j + 1;
        } else {
            i = j;
        }
    }
    assert(parts(v@) =~= components(p@));
    v
}

/// Split a path into its directory part and the name behind the last slash.
pub fn split_parent(p: &[u8]) -> (r: (Vec<u8>, Vec<u8>))
    ensures
        r.0@ == parent_part(p@),
        r.1@ == name_part(p@),
{
    let mut i: usize = p.len();
    while i > 0 && p[i - 1] != SLASH
        invariant
            i <= p.len(),
            last_slash(p@, p@.len() as int) == last_slash(p@, i as int),
        decreases i,
    {
        i -= 1;
    }
    let name: Vec<u8> = copy_range(p, i, p.len());
    if i <= 1 {
        let mut parent: Vec<u8> = Vec::new();
        parent.push(SLASH);
        assert(parent@ =~= parent_part(p@));
        (parent, name)
    } else {
        (copy_range(p, 0, i - 1), name)
    }
}

// ── Symlinks ─────────────────────────────────────────────────────────────────

/// The whole file, where every byte of it can be read.
pub open spec fn whole_file(d: Blocks, i: InodeView) -> Option<Seq<u8>> {
    if forall|k: int| 0 <= k < i.size ==> #[trigger] file_byte(d, i, k as u64) is Some {
        Some(Seq::new(i.size as nat, |k: int| file_byte(d, i, k as u64)->0))
    } else {
        None
    }
}

/// The target of a symlink: kept in the inode where it is short, else the
/// contents of the file.
pub open spec fn symlink_target(d: Blocks, i: InodeView) -> Option<Seq<u8>> {
    if i.is(INODE_FAST_SYM) {
        Some(
            inode_extents(i).take(
                if i.size < FAST_SYM_MAX {
                    i.size as int
                } else {
                    FAST_SYM_MAX as int
                },
            ),
        )
    } else {
        whole_file(d, i)
    }
}

impl Disk {
    /// The whole file, or `None` where a block of it cannot be read.
    pub fn read_whole(&self, inode: &Inode) -> (r: Option<Vec<u8>>)
        requires
            self.wf(),
        ensures
            match whole_file(self@, inode@) {
                Some(s) => r is Some && r->0@ == s,
                None => r is None,
            },
    {
        let mut out: Vec<u8> = Vec::new();
        let size: u64 = inode.size;
        let mut pos: u64 = 0;
        while pos < size
            invariant
                self.wf(),
                size == inode.size,
                pos <= size,
                out@.len() == pos,
                forall|k: int|
                    0 <= k < pos ==> file_byte(self@, inode@, k as u64) == Some(
                        #[trigger] out@[k],
                    ),
            decreases size - pos,
        {
            let want: usize = if size - pos < BLOCK_SIZE as u64 {
                (size - pos) as usize
            } else {
                BLOCK_SIZE
            };
            let mut chunk: Vec<u8> = zero_bytes(want);
            let n: usize = self.read_file_data(inode, pos, chunk.as_mut_slice());
            if n < want {
                proof {
                    let got = chunk@.take(n as int);
                    assert(file_byte(self@, inode@, (pos + got.len()) as u64) is None);
                    assert(file_byte(self@, inode@, (pos + n) as u64) is None);
                    let k = pos + n;
                    assert(0 <= k < inode@.size && file_byte(self@, inode@, k as u64) is None);
                }
                return None;
            }
            let ghost before = out@;
            let ghost got = chunk@.take(n as int);
            assert(got =~= chunk@);
            assert(is_read(self@, inode@, pos, want as int, chunk@));
            out.append(&mut chunk);
            proof {
                assert forall|k: int| 0 <= k < pos + want implies file_byte(
                    self@,
                    inode@,
                    k as u64,
                ) == Some(#[trigger] out@[k]) by {
                    if k < pos {
                        assert(out@[k] == before[k]);
                    } else {
                        assert(out@[k] == got[k - pos]);
                        assert(file_byte(self@, inode@, (pos + (k - pos)) as u64) == Some(
                            got[k - pos],
                        ));
                    }
                }
            }
            pos = pos + want as u64;
        }
        proof {
            let s = Seq::new(size as nat, |k: int| file_byte(self@, inode@, k as u64)->0);
            assert forall|k: int| 0 <= k < inode@.size implies #[trigger] file_byte(
                self@,
                inode@,
                k as u64,
            ) is Some by {
                let x = out@[k];
                assert(file_byte(self@, inode@, k as u64) == Some(x));
            }
            assert(out@ =~= s);
        }
        Some(out)
    }

    fn read_symlink_target(&self, inode: &Inode) -> (r: Option<Vec<u8>>)
        requires
            self.wf(),
        ensures
            match symlink_target(self@, inode@) {
                Some(s) => r is Some && r->0@ == s,
                None => r is None,
            },
    {
        if inode.flags & INODE_FAST_SYM != 0 {
            let capped: usize = if inode.size < FAST_SYM_MAX {
                inode.size as usize
            } else {
                FAST_SYM_MAX as usize
            };
            let raw: Vec<u8> = crate::rfs::inode::bytes_of_extents(inode);
            let out: Vec<u8> = copy_range(&raw, 0, capped);
            assert(out@ =~= inode_extents(inode@).take(capped as int));
            Some(out)
        } else {
            self.read_whole(inode)
        }
    }
}

// ── Resolution ───────────────────────────────────────────────────────────────

/// A symlink target joined with what follows it starts at the root.
pub open spec fn restarts(target: Seq<u8>, rest: Seq<Seq<u8>>) -> bool {
    if target.len() > 0 {
        target[0] == SLASH
    } else {
        rest.len() > 0
    }
}

/// Follow components from a directory. A symlink continues with the
/// components of its target, from the root or from the directory it is in.
pub open spec fn walk(
    d: Blocks,
    ino: u32,
    inode: InodeView,
    comps: Seq<Seq<u8>>,
    hops: int,
) -> Option<(u32, InodeView)>
    decreases MAX_SYMLINK_HOPS - hops, comps.len(),
{
    if comps.len() == 0 {
        Some((ino, inode))
    } else if !inode.is(INODE_DIR) {
        None
    } else {
        match lookup_in_dir(d, inode, comps[0]) {
            None => None,
            Some(child_ino) => match read_inode(d, child_ino) {
                None => None,
                Some(child) => if !child.is(INODE_SYMLINK) {
                    walk(d, child_ino, child, comps.drop_first(), hops)
                } else {
                    match symlink_target(d, child) {
                        None => None,
                        Some(target) => if !valid_utf8(target) || hops >= MAX_SYMLINK_HOPS {
                            None
                        } else {
                            let base = if restarts(target, comps.drop_first()) {
                                0u32
                            } else {
                                ino
                            };
                            match read_inode(d, base) {
                                None => None,
                                Some(b) => walk(
                                    d,
                                    base,
                                    b,
                                    components(target) + comps.drop_first(),
                                    hops + 1,
                                ),
                            }
                        },
                    }
                },
            },
        }
    }
}

/// The inode that a path leads to, from the root on.
pub open spec fn resolve_path(d: Blocks, path: Seq<u8>) -> Option<(u32, InodeView)> {
    match read_inode(d, 0) {
        None => None,
        Some(root) => walk(d, 0, root, components(path), 0),
    }
}

/// The executable result is the specified one.
pub open spec fn same_node(r: Option<(u32, Inode)>, s: Option<(u32, InodeView)>) -> bool {
    match s {
        Some(x) => r is Some && (r->0).0 == x.0 && (r->0).1@ == x.1,
        None => r is None,
    }
}

impl Disk {
    /// Resolve the bytes of a path to an inode, following symlinks.
    pub fn resolve_bytes(&self, path: &[u8]) -> (r: Option<(u32, Inode)>)
        requires
            self.wf(),
        ensures
            same_node(r, resolve_path(self@, path@)),
    {
        let mut ino: u32 = 0;
        let mut inode: Inode = match self.read_inode(0) {
            Some(i) => i,
            None => {
                return None;
            },
        };
        let mut comps: Vec<Vec<u8>> = split_components(path);
        let mut i: usize = 0;
        let mut hops: u32 = 0;
        let ghost goal = resolve_path(self@, path@);
        assert(parts(comps@).skip(0) =~= components(path@));
        while i < comps.len()
            invariant
                self.wf(),
                i <= comps.len(),
                hops <= MAX_SYMLINK_HOPS,
                goal == resolve_path(self@, path@),
                goal == walk(self@, ino, inode@, parts(comps@).skip(i as int), hops as int),
            decreases MAX_SYMLINK_HOPS - hops, comps.len() - i,
        {
            let ghost here = parts(comps@).skip(i as int);
            let ghost rest = here.drop_first();
            assert(here[0] == comps@[i as int]@);
            assert(rest =~= parts(comps@).skip(i + 1));
            if inode.flags & INODE_DIR == 0 {
                return None;
            }
            let child_ino: u32 = match self.lookup_in_dir(&inode, &comps[i]) {
                Some(c) => c,
                None => {
                    return None;
                },
            };
            let child: Inode = match self.read_inode(child_ino) {
                Some(c) => c,
                None => {
                    return None;
                },
            };
            i += 1;
            if child.flags & INODE_SYMLINK != 0 {
                let target: Vec<u8> = match self.read_symlink_target(&child) {
                    Some(t) => t,
                    None => {
                        return None;
                    },
                };
                if !is_utf8(&target) || hops >= MAX_SYMLINK_HOPS {
                    return None;
                }
                let from_root: bool = if target.len() > 0 {
                    target[0] == SLASH
                } else {
                    i < comps.len()
                };
                if from_root {
                    ino = 0;
                }
                inode = match self.read_inode(ino) {
                    Some(b) => b,
                    None => {
                        return None;
                    },
                };
                let mut joined: Vec<Vec<u8>> = split_components(&target);
                let ghost head = parts(joined@);
                let mut j: usize = i;
                while j < comps.len()
                    invariant
                        i <= j <= comps.len(),
                        parts(joined@) == head + parts(comps@).subrange(i as int, j as int),
                    decreases comps.len() - j,
                {
                    let part: Vec<u8> = comps[j].clone();
                    let ghost before = parts(joined@);
                    joined.push(part);
                    assert(parts(joined@) =~= before.push(comps@[j as int]@));
                    assert(parts(comps@).subrange(i as int, j + 1) =~= parts(comps@).subrange(
                        i as int,
                        j as int,
                    ).push(comps@[j as int]@));
                    j += 1;
                    assert(parts(joined@) =~= head + parts(comps@).subrange(i as int, j as int));
                }
                assert(parts(joined@).skip(0) =~= head + rest);
                comps = joined;
                i = 0;
                hops += 1;
            } else {
                ino = child_ino;
                inode = child;
            }
        }
        assert(parts(comps@).skip(i as int).len() == 0);
        Some((ino, inode))
    }

    /// Resolve a path to an inode, following symlinks.
    pub fn resolve_path(&self, path: &str) -> (r: Option<(u32, Inode)>)
        requires
            self.wf(),
        ensures
            same_node(r, resolve_path(self@, encode_utf8(path@))),
    {
        self.resolve_bytes(path.as_bytes())
    }
}

} // verus!
