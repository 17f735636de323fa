//! The virtual file system between system calls and mounted volumes: error
//! numbers, attributes, path resolution across mounts, descriptors, and what is
//! decided around a mount. The volumes themselves are handed in as what they
//! answered.

use vstd::prelude::*;
use vstd::slice::slice_subrange;
use vstd::utf8::valid_utf8;
use crate::bytes::{copy_into, copy_range, push_bytes, splice};
use crate::pmm::{
    all_freed, all_in_use, frames_taken, lemma_taken, lemma_taken_stuck, Frames, PhysAddr, Used,
    MAX_FRAMES,
};
use crate::rfs::path::{components, last_slash, parts, split_components, SLASH};
use crate::text::{is_utf8, same_bytes};

verus! {

pub const EINVAL: i64 = -4;

pub const ENOENT: i64 = -5;

pub const EBADF: i64 = -6;

pub const ENOTDIR: i64 = -8;

pub const ENOMNT: i64 = -9;

pub const EMFILE: i64 = -10;

pub const EEXIST: i64 = -11;

pub const ENOSPC: i64 = -12;

/// There is a mount there already.
pub const EMOUNTED: i64 = -13;

/// The path is read-only or sealed.
pub const EROFS: i64 = -14;

pub const EISDIR: i64 = -15;

pub const ENOTEMPTY: i64 = -16;

/// A device or integrity fault.
pub const EIO: i64 = -17;

/// Descriptors that can be open at a time.
pub const MAX_FDS: usize = 64;

/// Symlinks that one resolution follows.
pub const MAX_SYMLINK_HOPS: u32 = 8;

pub const BLOCK_SIZE: u64 = 4096;

pub const SECTORS_PER_BLOCK: u64 = 8;

/// Blocks of a volume in memory.
pub const RAM_DISK_BLOCKS: usize = 4096;

/// The end of the kernel's identity map.
pub const IDENTITY_MAP_LIMIT: u64 = 0x4000_0000;

/// The largest file that is loaded whole.
pub const MAX_LOAD: u64 = 0x200_0000;

/// A fresh volume in memory.
pub const MOUNT_SRC_RFS2_RAM: u64 = 0;

/// The volume on the second disk.
pub const MOUNT_SRC_RFS2_BLK: u64 = 1;

/// Entries of the mount become read-only once they are realized.
pub const MOUNT_STORE: u64 = 1;

pub const INODE_USED: u32 = 1;

pub const INODE_DIR: u32 = 2;

pub const INODE_SYMLINK: u32 = 4;

pub const FT_REG: u8 = 1;

pub const FT_DIR: u8 = 2;

pub const FT_SYMLINK: u8 = 3;

// ── Errors ───────────────────────────────────────────────────────────────────

/// What a mounted volume refuses an operation with.
#[derive(Clone, Copy, Debug, PartialEq, Eq, Structural)]
pub enum FsError {
    NotFound,
    Exists,
    NotDir,
    IsDir,
    NoSpace,
    Invalid,
    NotEmpty,
    ReadOnly,
    Device,
}

/// What the mount table refuses an operation with.
#[derive(Clone, Copy, Debug, PartialEq, Eq, Structural)]
pub enum MountError {
    Invalid,
    AlreadyMounted,
    NoSuchPath,
    NotDir,
    NotMounted,
    Backend(FsError),
}

/// What a volume's own format refuses an operation with.
#[derive(Clone, Copy, Debug, PartialEq, Eq, Structural)]
pub enum VolumeError {
    NotFound,
    Exists,
    NotDir,
    IsDir,
    NotEmpty,
    NoSpace,
    GenExhausted,
    ReadOnly,
    Invalid,
    Perm,
    Io,
    Auth,
    BadHeader,
    Unsupported,
    NoSuperblock,
    Corrupt,
}

pub open spec fn fs_errno(e: FsError) -> i64 {
    match e {
        FsError::NotFound => ENOENT,
        FsError::Exists => EEXIST,
        FsError::NotDir => ENOTDIR,
        FsError::IsDir => EISDIR,
        FsError::NoSpace => ENOSPC,
        FsError::Invalid => EINVAL,
        FsError::NotEmpty => ENOTEMPTY,
        FsError::ReadOnly => EROFS,
        FsError::Device => EIO,
    }
}

/// The error number of a volume's refusal.
pub fn errno_fs(e: FsError) -> (r: i64)
    ensures
        r == fs_errno(e),
{
    match e {
        FsError::NotFound => ENOENT,
        FsError::Exists => EEXIST,
        FsError::NotDir => ENOTDIR,
        FsError::IsDir => EISDIR,
        FsError::NoSpace => ENOSPC,
        FsError::Invalid => EINVAL,
        FsError::NotEmpty => ENOTEMPTY,
        FsError::ReadOnly => EROFS,
        FsError::Device => EIO,
    }
}

pub open spec fn mount_errno(e: MountError) -> i64 {
    match e {
        MountError::Invalid => EINVAL,
        MountError::AlreadyMounted => EMOUNTED,
        MountError::NoSuchPath => ENOENT,
        MountError::NotDir => ENOTDIR,
        MountError::NotMounted => ENOMNT,
        MountError::Backend(e) => fs_errno(e),
    }
}

/// The error number of the mount table's refusal.
pub fn errno_mount(e: MountError) -> (r: i64)
    ensures
        r == mount_errno(e),
{
    match e {
        MountError::Invalid => EINVAL,
        MountError::AlreadyMounted => EMOUNTED,
        MountError::NoSuchPath => ENOENT,
        MountError::NotDir => ENOTDIR,
        MountError::NotMounted => ENOMNT,
        MountError::Backend(e) => errno_fs(e),
    }
}

/// A format's refusal as a volume's: what is wrong with the device or with its
/// contents is one fault.
pub open spec fn fs_error_of(e: VolumeError) -> FsError {
    match e {
        VolumeError::NotFound => FsError::NotFound,
        VolumeError::Exists => FsError::Exists,
        VolumeError::NotDir => FsError::NotDir,
        VolumeError::IsDir => FsError::IsDir,
        VolumeError::NotEmpty => FsError::NotEmpty,
        VolumeError::NoSpace => FsError::NoSpace,
        VolumeError::GenExhausted => FsError::NoSpace,
        VolumeError::ReadOnly => FsError::ReadOnly,
        VolumeError::Invalid => FsError::Invalid,
        VolumeError::Perm => FsError::Invalid,
        _ => FsError::Device,
    }
}

pub fn fs_err(e: VolumeError) -> (r: FsError)
    ensures
        r == fs_error_of(e),
{
    match e {
        VolumeError::NotFound => FsError::NotFound,
        VolumeError::Exists => FsError::Exists,
        VolumeError::NotDir => FsError::NotDir,
        VolumeError::IsDir => FsError::IsDir,
        VolumeError::NotEmpty => FsError::NotEmpty,
        VolumeError::NoSpace => FsError::NoSpace,
        VolumeError::GenExhausted => FsError::NoSpace,
        VolumeError::ReadOnly => FsError::ReadOnly,
        VolumeError::Invalid => FsError::Invalid,
        VolumeError::Perm => FsError::Invalid,
        _ => FsError::Device,
    }
}

// ── Attributes ───────────────────────────────────────────────────────────────

/// The attributes of a file as callers see them.
#[derive(Clone, Copy, Debug, PartialEq, Eq, Structural)]
pub struct Stat {
    pub size: u64,
    pub flags: u32,
    pub mode: u16,
    pub uid: u32,
    pub gid: u32,
    pub nlink: u32,
    /// Milliseconds.
    pub mtime: u64,
    /// Milliseconds.
    pub ctime: u64,
}

/// The attributes of a file as its volume keeps them.
#[derive(Clone, Copy, Debug, PartialEq, Eq, Structural)]
pub struct InodeMeta {
    pub ino: u64,
    pub size: u64,
    pub is_dir: bool,
    pub is_symlink: bool,
    pub mode: u16,
    pub uid: u32,
    pub gid: u32,
    pub nlink: u32,
    /// Nanoseconds.
    pub mtime: u64,
    /// Nanoseconds.
    pub ctime: u64,
}

/// The attributes that callers see: the permission bits alone, the type among
/// the flags, and times in milliseconds.
pub open spec fn stat_of(m: InodeMeta) -> Stat {
    Stat {
        size: m.size,
        flags: (INODE_USED + (if m.is_dir {
            INODE_DIR as int
        } else {
            0
        }) + (if m.is_symlink {
            INODE_SYMLINK as int
        } else {
            0
        })) as u32,
        mode: (m.mode % 0x1000) as u16,
        uid: m.uid,
        gid: m.gid,
        nlink: m.nlink,
        mtime: (m.mtime / 1_000_000) as u64,
        ctime: (m.ctime / 1_000_000) as u64,
    }
}

impl Stat {
    pub fn from_meta(m: &InodeMeta) -> (s: Stat)
        ensures
            s == stat_of(*m),
    {
        let mut flags: u32 = INODE_USED;
        if m.is_dir {
            flags = flags + INODE_DIR;
        }
        if m.is_symlink {
            flags = flags + INODE_SYMLINK;
        }
        Stat {
            size: m.size,
            flags,
            mode: m.mode % 0x1000,
            uid: m.uid,
            gid: m.gid,
            nlink: m.nlink,
            mtime: m.mtime / 1_000_000,
            ctime: m.ctime / 1_000_000,
        }
    }
}

/// An entry of a directory.
pub struct DirEntry {
    pub ino: u32,
    pub file_type: u8,
    pub name: Vec<u8>,
}

/// An entry of a directory as a mathematical value.
#[verifier::ext_equal]
pub struct DirEntryView {
    pub ino: u32,
    pub file_type: u8,
    pub name: Seq<u8>,
}

impl View for DirEntry {
    type V = DirEntryView;

    open spec fn view(&self) -> DirEntryView {
        DirEntryView { ino: self.ino, file_type: self.file_type, name: self.name@ }
    }
}

/// An entry of a directory, as its volume lists it.
pub struct VolumeEntry {
    pub ino: u64,
    pub file_type: u8,
    pub name: Vec<u8>,
}

/// An entry as callers see it: the low half of the inode number.
pub open spec fn seen_entry(e: VolumeEntry) -> DirEntryView {
    DirEntryView {
        ino: (e.ino as int % 0x1_0000_0000) as u32,
        file_type: e.file_type,
        name: e.name@,
    }
}

pub open spec fn seen_entries(es: Seq<VolumeEntry>) -> Seq<DirEntryView> {
    Seq::new(es.len(), |i: int| seen_entry(es[i]))
}

/// Nanoseconds of a clock in milliseconds; machine arithmetic.
pub fn clock_ns(epoch_ms: u64) -> (ns: u64)
    ensures
        ns == epoch_ms * 1_000_000 % 0x1_0000_0000_0000_0000,
{
    epoch_ms.wrapping_mul(1_000_000)
}

/// What is read to load a file whole, where it is one and not too large.
pub open spec fn load_place(m: InodeMeta) -> Option<(u64, u64, u64)> {
    if !m.is_dir && 0 < m.size <= MAX_LOAD {
        Some((m.ino, 0u64, m.size))
    } else {
        None
    }
}

/// What is read to load a file whole: the file, from where, and how much. `None`
/// for a directory, an empty file, or one that is too large.
pub fn load_target(m: &InodeMeta) -> (r: Option<(u64, u64, u64)>)
    ensures
        r == load_place(*m),
        r == if !m.is_dir && 0 < m.size <= MAX_LOAD {
            Some((m.ino, 0u64, m.size))
        } else {
            None
        },
{
    if m.is_dir || m.size == 0 || m.size > MAX_LOAD {
        None
    } else {
        Some((m.ino, 0, m.size))
    }
}

// ── Resolution ───────────────────────────────────────────────────────────────

/// A resolution on its way through a path. Each component is looked at on the
/// volume that covers it; a symlink starts the walk anew.
pub struct Walk {
    resolved: Vec<u8>,
    comps: Vec<Vec<u8>>,
    next: usize,
    hops: u32,
}

/// A resolution as a mathematical value.
#[verifier::ext_equal]
pub struct WalkView {
    /// The path so far, without symlinks; empty for the root.
    pub resolved: Seq<u8>,
    pub comps: Seq<Seq<u8>>,
    /// The component that is looked at next.
    pub next: int,
    /// Symlinks followed.
    pub hops: int,
}

impl View for Walk {
    type V = WalkView;

    closed spec fn view(&self) -> WalkView {
        WalkView {
            resolved: self.resolved@,
            comps: parts(self.comps@),
            next: self.next as int,
            hops: self.hops as int,
        }
    }
}

/// A walk at the start of a path.
pub open spec fn walk_from(path: Seq<u8>, hops: int) -> WalkView {
    WalkView { resolved: seq![], comps: components(path), next: 0, hops }
}

/// The path to look at: what is resolved and the next component.
pub open spec fn candidate(w: WalkView) -> Seq<u8> {
    w.resolved.push(SLASH) + w.comps[w.next]
}

/// The walk past a component that is no symlink.
pub open spec fn passed(w: WalkView) -> WalkView {
    WalkView { resolved: candidate(w), next: w.next + 1, ..w }
}

/// A path with the components from `k` on behind it.
pub open spec fn with_rest(path: Seq<u8>, comps: Seq<Seq<u8>>, k: int) -> Seq<u8>
    decreases comps.len() - k,
{
    if k < 0 || k >= comps.len() {
        path
    } else {
        with_rest(path.push(SLASH) + comps[k], comps, k + 1)
    }
}

/// The path that goes on through a symlink: its target, from the directory that
/// holds it unless it starts at the root, and what is left of the path.
pub open spec fn through(w: WalkView, target: Seq<u8>) -> Seq<u8> {
    let head = if target.len() > 0 && target[0] == SLASH {
        target
    } else {
        w.resolved.push(SLASH) + target
    };
    with_rest(head, w.comps, w.next + 1)
}

/// Where the walk ends.
pub open spec fn resolved_path(w: WalkView) -> Seq<u8> {
    if w.resolved.len() == 0 {
        seq![SLASH]
    } else {
        w.resolved
    }
}

impl Walk {
    pub closed spec fn wf(&self) -> bool {
        self.next <= self.comps@.len() && self.hops <= MAX_SYMLINK_HOPS
    }

    /// Start at a path.
    pub fn new(path: &[u8]) -> (w: Walk)
        ensures
            w.wf(),
            w@ == walk_from(path@, 0),
    {
        let w = Walk { resolved: Vec::new(), comps: split_components(path), next: 0, hops: 0 };
        assert(w@.resolved =~= seq![]);
        w
    }

    /// The path to look at next; `None` at the end.
    pub fn pending(&self) -> (r: Option<Vec<u8>>)
        requires
            self.wf(),
        ensures
            self@.next <= self@.comps.len(),
            match r {
                Some(p) => self@.next < self@.comps.len() && p@ == candidate(self@),
                None => self@.next == self@.comps.len(),
            },
    {
        if self.next < self.comps.len() {
            Some(self.candidate_path())
        } else {
            None
        }
    }

    fn candidate_path(&self) -> (p: Vec<u8>)
        requires
            self.wf(),
            self@.next < self@.comps.len(),
        ensures
            p@ == candidate(self@),
    {
        let mut p: Vec<u8> = copy_range(self.resolved.as_slice(), 0, self.resolved.len());
        p.push(SLASH);
        let c: &Vec<u8> = &self.comps[self.next];
        push_bytes(&mut p, c.as_slice(), 0, c.len());
        assert(self@.comps[self.next as int] == self.comps@[self.next as int]@);
        assert(p@ =~= candidate(self@));
        p
    }

    /// The component looked at is no symlink.
    pub fn pass(&mut self)
        requires
            old(self).wf(),
            old(self)@.next < old(self)@.comps.len(),
        ensures
            final(self).wf(),
            final(self)@ == passed(old(self)@),
    {
        let n: usize = self.comps.len();
        assert(self.next < n);
        let p: Vec<u8> = self.candidate_path();
        self.resolved = p;
        self.next = self.next + 1;
    }

    /// The component looked at is a symlink. False once too many were followed.
    pub fn follow(&mut self, target: &[u8]) -> (ok: bool)
        requires
            old(self).wf(),
            old(self)@.next < old(self)@.comps.len(),
        ensures
            final(self).wf(),
            ok == (old(self)@.hops < MAX_SYMLINK_HOPS),
            final(self)@ == if ok {
                walk_from(through(old(self)@, target@), old(self)@.hops + 1)
            } else {
                old(self)@
            },
    {
        if self.hops >= MAX_SYMLINK_HOPS {
            return false;
        }
        let mut path: Vec<u8> = Vec::new();
        if target.len() == 0 || target[0] != SLASH {
            push_bytes(&mut path, self.resolved.as_slice(), 0, self.resolved.len());
            path.push(SLASH);
        }
        push_bytes(&mut path, target, 0, target.len());
        let ghost head = if target@.len() > 0 && target@[0] == SLASH {
            target@
        } else {
            self@.resolved.push(SLASH) + target@
        };
        assert(path@ =~= head);
        let n: usize = self.comps.len();
        assert(self.next < n);
        let mut k: usize = self.next + 1;
        while k < n
            invariant
                self.next < k <= n,
                n == self.comps@.len(),
                through(self@, target@) == with_rest(path@, self@.comps, k as int),
            decreases self.comps@.len() - k,
        {
            let c: &Vec<u8> = &self.comps[k];
            let ghost before = path@;
            path.push(SLASH);
            push_bytes(&mut path, c.as_slice(), 0, c.len());
            assert(self@.comps[k as int] == self.comps@[k as int]@);
            assert(path@ =~= before.push(SLASH) + self@.comps[k as int]);
            k += 1;
        }
        self.comps = split_components(path.as_slice());
        self.resolved = Vec::new();
        self.next = 0;
        self.hops = self.hops + 1;
        assert(self@.resolved =~= seq![]);
        true
    }

    /// The path without symlinks, at the end of the walk.
    pub fn result(&self) -> (p: Vec<u8>)
        ensures
            p@ == resolved_path(self@),
    {
        if self.resolved.len() == 0 {
            let mut p: Vec<u8> = Vec::new();
            p.push(SLASH);
            assert(p@ =~= seq![SLASH]);
            p
        } else {
            let p: Vec<u8> = copy_range(self.resolved.as_slice(), 0, self.resolved.len());
            assert(p@ =~= self@.resolved);
            p
        }
    }
}

/// The directory and the name of a path whose last component is not followed;
/// `None` for a path that is not absolute or ends in a slash.
pub open spec fn parent_and_name(path: Seq<u8>) -> Option<(Seq<u8>, Seq<u8>)> {
    if path.len() == 0 || path[0] != SLASH || path.last() == SLASH {
        None
    } else {
        let i = last_slash(path, path.len() as int);
        Some(
            (
                if i == 0 {
                    seq![SLASH]
                } else {
                    path.take(i)
                },
                path.subrange(i + 1, path.len() as int),
            ),
        )
    }
}

proof fn lemma_last_slash(path: Seq<u8>, n: int)
    requires
        0 < n <= path.len(),
        path[0] == SLASH,
    ensures
        0 <= last_slash(path, n) < n,
    decreases n,
{
    if path[n - 1] != SLASH {
        assert(n > 1);
        lemma_last_slash(path, n - 1);
    }
}

/// Split a path into its directory and its last component.
pub fn split_parent_name(path: &[u8]) -> (r: Option<(Vec<u8>, Vec<u8>)>)
    ensures
        match parent_and_name(path@) {
            None => r is None,
            Some((d, n)) => r matches Some((dv, nv)) && dv@ == d && nv@ == n,
        },
{
    if path.len() == 0 || path[0] != SLASH || path[path.len() - 1] == SLASH {
        return None;
    }
    let mut n: usize = path.len();
    proof {
        lemma_last_slash(path@, path@.len() as int);
    }
    while path[n - 1] != SLASH
        invariant
            0 < n <= path@.len(),
            path@[0] == SLASH,
            last_slash(path@, path@.len() as int) == last_slash(path@, n as int),
        decreases n,
    {
        assert(n > 1);
        n -= 1;
    }
    let i: usize = n - 1;
    let dir: Vec<u8> = if i == 0 {
        let mut d: Vec<u8> = Vec::new();
        d.push(SLASH);
        assert(d@ =~= seq![SLASH]);
        d
    } else {
        let d: Vec<u8> = copy_range(path, 0, i);
        assert(d@ =~= path@.take(i as int));
        d
    };
    let name: Vec<u8> = copy_range(path, i + 1, path.len());
    Some((dir, name))
}

/// A name in a resolved directory.
pub open spec fn joined_path(base: Seq<u8>, name: Seq<u8>) -> Seq<u8> {
    if base.len() > 0 && base.last() == SLASH {
        base + name
    } else {
        base.push(SLASH) + name
    }
}

pub fn join_path(base: &[u8], name: &[u8]) -> (p: Vec<u8>)
    ensures
        p@ == joined_path(base@, name@),
{
    let mut p: Vec<u8> = copy_range(base, 0, base.len());
    assert(p@ =~= base@);
    if base.len() == 0 || base[base.len() - 1] != SLASH {
        p.push(SLASH);
    }
    push_bytes(&mut p, name, 0, name.len());
    assert(p@ =~= joined_path(base@, name@));
    p
}

/// The store entry that a path on a store names: its one component.
pub open spec fn store_entry_of(rel: Seq<u8>) -> Option<Seq<u8>> {
    let c = components(rel);
    if c.len() == 1 {
        Some(c[0])
    } else {
        None
    }
}

/// The store entry that a path on a store names; `None` for the store itself
/// and for what lies inside an entry.
pub fn store_entry(rel: &[u8]) -> (r: Option<Vec<u8>>)
    ensures
        match store_entry_of(rel@) {
            None => r is None,
            Some(n) => r matches Some(v) && v@ == n,
        },
{
    let mut v: Vec<Vec<u8>> = split_components(rel);
    let ghost c = parts(v@);
    if v.len() != 1 {
        return None;
    }
    assert(c[0] == v@[0]@);
    v.pop()
}

// ── Disks ────────────────────────────────────────────────────────────────────

/// A disk behind a device: which one, and how many blocks it has.
#[derive(Clone, Copy, Debug, PartialEq, Eq, Structural)]
pub struct VirtioDisk {
    pub dev_index: usize,
    pub blocks: u64,
}

impl VirtioDisk {
    /// A disk with so many sectors.
    pub fn new(dev_index: usize, sectors: u64) -> (d: VirtioDisk)
        ensures
            d.dev_index == dev_index,
            d.blocks == sectors as int / SECTORS_PER_BLOCK as int,
    {
        VirtioDisk { dev_index, blocks: sectors / SECTORS_PER_BLOCK }
    }

    pub fn total_blocks(&self) -> (n: u64)
        ensures
            n == self.blocks,
    {
        self.blocks
    }

    /// The first sector of a block; machine arithmetic.
    pub fn first_sector(&self, block: u64) -> (s: u64)
        ensures
            s == block * SECTORS_PER_BLOCK % 0x1_0000_0000_0000_0000,
    {
        block.wrapping_mul(SECTORS_PER_BLOCK)
    }
}

/// A frame lies wholly in the identity map.
pub open spec fn in_direct_map(pa: u64) -> bool {
    pa % BLOCK_SIZE == 0 && pa + BLOCK_SIZE <= IDENTITY_MAP_LIMIT
}

pub fn frame_in_direct_map(pa: u64) -> (r: bool)
    ensures
        r == in_direct_map(pa),
{
    pa % BLOCK_SIZE == 0 && pa <= IDENTITY_MAP_LIMIT - BLOCK_SIZE
}

/// A disk in memory: one frame for each block.
pub struct RamDisk {
    frames: Vec<PhysAddr>,
}

impl View for RamDisk {
    type V = Seq<PhysAddr>;

    closed spec fn view(&self) -> Seq<PhysAddr> {
        self.frames@
    }
}

/// All frames of a disk lie in the identity map.
pub open spec fn all_mapped(frames: Seq<PhysAddr>) -> bool {
    forall|j: int| 0 <= j < frames.len() ==> in_direct_map((#[trigger] frames[j]).0)
}

/// There are frames for a disk of `n` blocks, and all can be reached.
pub open spec fn disk_fits(used: Used, n: nat) -> bool {
    let list = frames_taken(used, n).1;
    list.len() == n && all_mapped(list)
}

impl RamDisk {
    /// A disk of so many blocks; `None`, with nothing taken, where there are not
    /// enough frames or one of them cannot be reached.
    pub fn new(frames: &mut Frames, blocks: usize) -> (r: Option<RamDisk>)
        requires
            old(frames).wf(),
        ensures
            final(frames).wf(),
            match r {
                Some(d) => disk_fits(old(frames)@, blocks as nat) && (final(frames)@, d@)
                    == frames_taken(old(frames)@, blocks as nat),
                None => !disk_fits(old(frames)@, blocks as nat) && final(frames)@ == old(frames)@,
            },
    {
        let ghost u0 = frames@;
        proof {
            frames.lemma_len();
        }
        let mut list: Vec<PhysAddr> = Vec::new();
        let mut i: usize = 0;
        while i < blocks
            invariant
                frames.wf(),
                u0 == old(frames)@,
                u0.len() == MAX_FRAMES,
                i <= blocks,
                list@.len() == i,
                all_mapped(list@),
                (frames@, list@) == frames_taken(u0, i as nat),
            decreases blocks - i,
        {
            match frames.alloc_frame() {
                Some(p) => {
                    list.push(p);
                    proof {
                        lemma_taken(u0, (i + 1) as nat);
                    }
                    if !frame_in_direct_map(p.as_u64()) {
                        frames.free_all(&list);
                        proof {
                            lemma_prefix(u0, (i + 1) as nat, blocks as nat);
                            if disk_fits(u0, blocks as nat) {
                                let all = frames_taken(u0, blocks as nat).1;
                                assert(all[i as int] == p);
                            }
                        }
                        return None;
                    }
                },
                None => {
                    proof {
                        lemma_taken(u0, i as nat);
                        lemma_taken_stuck(u0, (i + 1) as nat, blocks as nat);
                    }
                    frames.free_all(&list);
                    return None;
                },
            }
            i += 1;
        }
        Some(RamDisk { frames: list })
    }

    /// How many blocks the disk has.
    pub fn total_blocks(&self) -> (n: u64)
        ensures
            n == self@.len(),
    {
        self.frames.len() as u64
    }

    /// The frame of a block; `None` behind the end.
    pub fn frame_of(&self, block: u64) -> (r: Option<PhysAddr>)
        ensures
            r == if block < self@.len() {
                Some(self@[block as int])
            } else {
                None
            },
    {
        if block < self.frames.len() as u64 {
            Some(self.frames[block as usize])
        } else {
            None
        }
    }

    /// Give all frames back.
    pub fn release(self, frames: &mut Frames)
        requires
            old(frames).wf(),
            all_in_use(old(frames)@, self@),
        ensures
            final(frames).wf(),
            final(frames)@ == all_freed(old(frames)@, self@),
    {
        frames.free_all(&self.frames);
    }
}

/// Taking more frames keeps those that were taken.
proof fn lemma_prefix(used: Used, m: nat, n: nat)
    requires
        m <= n,
        frames_taken(used, m).1.len() == m,
    ensures
        frames_taken(used, n).1.len() >= m,
        frames_taken(used, n).1.take(m as int) == frames_taken(used, m).1,
        forall|j: int|
            0 <= j < m ==> #[trigger] frames_taken(used, n).1[j] == frames_taken(used, m).1[j],
    decreases n,
{
    let list = frames_taken(used, m).1;
    if m < n {
        lemma_prefix(used, m, (n - 1) as nat);
        let prev = frames_taken(used, (n - 1) as nat).1;
        let all = frames_taken(used, n).1;
        assert(all.take(m as int) =~= prev.take(m as int));
    } else {
        assert(list.take(m as int) =~= list);
    }
    assert(frames_taken(used, n).1.take(m as int) == list);
    assert forall|j: int| 0 <= j < m implies frames_taken(used, n).1[j] == list[j] by {
        assert(frames_taken(used, n).1.take(m as int)[j] == list[j]);
    }
}

/// A disk in memory that is given back leaves no trace.
pub proof fn law_ram_disk_is_given_back(used: Used, n: nat)
    requires
        used.len() == MAX_FRAMES,
    ensures
        all_in_use(frames_taken(used, n).0, frames_taken(used, n).1),
        all_freed(frames_taken(used, n).0, frames_taken(used, n).1) == used,
{
    lemma_taken(used, n);
}

// ── Mounting ─────────────────────────────────────────────────────────────────

/// Which volume a mount asks for, once its arguments are in order.
#[derive(Clone, Copy, Debug, PartialEq, Eq, Structural)]
pub enum MountPlan {
    /// Refuse with an error number.
    Refuse(i64),
    /// Format and mount a fresh volume in memory.
    Ram { store: bool },
    /// Mount the volume on the second disk, of so many blocks, and format it
    /// first where it is blank. It is encrypted where the root is.
    Disk { blocks: u64, encrypted: bool, store: bool },
}

/// What a mount needs to know of the system.
#[derive(Clone, Copy, Debug, PartialEq, Eq, Structural)]
pub struct MountState {
    /// The root is mounted.
    pub ready: bool,
    /// Something is mounted at the place already.
    pub taken: bool,
    /// The sectors of the second disk, where there is one.
    pub disk_sectors: Option<u64>,
    pub root_encrypted: bool,
}

pub open spec fn mount_plan(st: MountState, source: u64, flags: u64) -> MountPlan {
    let store = flags == MOUNT_STORE;
    if !st.ready {
        MountPlan::Refuse(ENOMNT)
    } else if flags > MOUNT_STORE {
        MountPlan::Refuse(EINVAL)
    } else if st.taken {
        MountPlan::Refuse(EMOUNTED)
    } else if source == MOUNT_SRC_RFS2_RAM {
        MountPlan::Ram { store }
    } else if source == MOUNT_SRC_RFS2_BLK {
        match st.disk_sectors {
            Some(s) if s / 8 > 0 => MountPlan::Disk {
                blocks: (s / 8) as u64,
                encrypted: st.root_encrypted,
                store,
            },
            _ => MountPlan::Refuse(EIO),
        }
    } else {
        MountPlan::Refuse(EINVAL)
    }
}

/// Decide a mount.
pub fn mount(st: &MountState, source: u64, flags: u64) -> (p: MountPlan)
    ensures
        p == mount_plan(*st, source, flags),
{
    if !st.ready {
        return MountPlan::Refuse(ENOMNT);
    }
    if flags > MOUNT_STORE {
        return MountPlan::Refuse(EINVAL);
    }
    let store: bool = flags == MOUNT_STORE;
    if st.taken {
        return MountPlan::Refuse(EMOUNTED);
    }
    if source == MOUNT_SRC_RFS2_RAM {
        return MountPlan::Ram { store };
    }
    if source == MOUNT_SRC_RFS2_BLK {
        match st.disk_sectors {
            Some(sectors) => {
                let blocks: u64 = sectors / SECTORS_PER_BLOCK;
                if blocks == 0 {
                    return MountPlan::Refuse(EIO);
                }
                return MountPlan::Disk { blocks, encrypted: st.root_encrypted, store };
            },
            None => {
                return MountPlan::Refuse(EIO);
            },
        }
    }
    MountPlan::Refuse(EINVAL)
}

/// How the root is mounted.
#[derive(Clone, Copy, Debug, PartialEq, Eq, Structural)]
pub enum RootPlan {
    /// There is no disk.
    Absent,
    Plain { blocks: u64 },
    /// It needs the passphrase first.
    Encrypted { blocks: u64 },
}

/// How the root is mounted.
pub open spec fn root_way(sectors: Option<u64>, encrypted: Option<bool>) -> RootPlan {
    match sectors {
        None => RootPlan::Absent,
        Some(s) => {
            let blocks = (s as int / SECTORS_PER_BLOCK as int) as u64;
            if encrypted == Some(true) {
                RootPlan::Encrypted { blocks }
            } else {
                RootPlan::Plain { blocks }
            }
        },
    }
}

/// Decide how the root is mounted, by the sectors of the first disk and by whether
/// its header, where it can be read, says that it is encrypted.
pub fn root_plan(sectors: Option<u64>, encrypted: Option<bool>) -> (p: RootPlan)
    ensures
        p == root_way(sectors, encrypted),
        p == match sectors {
            None => RootPlan::Absent,
            Some(s) => {
                let blocks = (s as int / SECTORS_PER_BLOCK as int) as u64;
                if encrypted == Some(true) {
                    RootPlan::Encrypted { blocks }
                } else {
                    RootPlan::Plain { blocks }
                }
            },
        },
{
    match sectors {
        None => RootPlan::Absent,
        Some(s) => {
            let blocks: u64 = s / SECTORS_PER_BLOCK;
            match encrypted {
                Some(true) => RootPlan::Encrypted { blocks },
                _ => RootPlan::Plain { blocks },
            }
        },
    }
}

/// The inode to write a file of the root to: a new one, or the one that is there
/// already.
pub fn root_file_inode(created: Result<u64, FsError>, found: Result<u64, FsError>) -> (r: Option<
    u64,
>)
    ensures
        r == match created {
            Ok(ino) => Some(ino),
            Err(FsError::Exists) => match found {
                Ok(ino) => Some(ino),
                Err(_) => None::<u64>,
            },
            Err(_) => None,
        },
{
    match created {
        Ok(ino) => Some(ino),
        Err(FsError::Exists) => match found {
            Ok(ino) => Some(ino),
            Err(_) => None,
        },
        Err(_) => None,
    }
}

/// How a volume in memory came out: `ENOSPC` without a disk, `EIO` where it
/// could not be formatted or mounted.
pub fn ram_volume(disk: bool, formatted: bool, mounted: bool) -> (r: Option<i64>)
    ensures
        r == if !disk {
            Some(ENOSPC)
        } else if !formatted || !mounted {
            Some(EIO)
        } else {
            None
        },
{
    if !disk {
        Some(ENOSPC)
    } else if !formatted || !mounted {
        Some(EIO)
    } else {
        None
    }
}

/// How a blank disk came out that was formatted and mounted: `EIO` where that
/// failed.
pub fn fresh_store(formatted: bool, mounted: bool) -> (r: Option<i64>)
    ensures
        r == if formatted && mounted {
            None::<i64>
        } else {
            Some(EIO)
        },
{
    if formatted && mounted {
        None
    } else {
        Some(EIO)
    }
}

/// What follows an attempt to mount the store.
#[derive(Clone, Copy, Debug, PartialEq, Eq, Structural)]
pub enum StoreStep {
    /// It is mounted.
    Use,
    /// It is blank: format it once, and mount it; [`fresh_store`] says how that
    /// came out.
    Format,
    /// Give up.
    Fail(i64),
}

/// Only a blank disk is formatted; any other fault is reported.
pub fn mount_or_format_store(mounted: Result<(), VolumeError>) -> (s: StoreStep)
    ensures
        s == match mounted {
            Ok(_) => StoreStep::Use,
            Err(VolumeError::NoSuperblock) => StoreStep::Format,
            Err(VolumeError::BadHeader) => StoreStep::Format,
            Err(_) => StoreStep::Fail(EIO),
        },
{
    match mounted {
        Ok(_) => StoreStep::Use,
        Err(VolumeError::NoSuperblock) => StoreStep::Format,
        Err(VolumeError::BadHeader) => StoreStep::Format,
        Err(_) => StoreStep::Fail(EIO),
    }
}

/// Where the key of an encrypted store comes from.
#[derive(Clone, Copy, Debug, PartialEq, Eq, Structural)]
pub enum KeyStep {
    /// The key file holds it.
    Use,
    /// Draw a key, and keep it in the root; [`store_key_minted`] says how that
    /// came out.
    Mint,
    Fail(i64),
}

/// What is done for the key of a store.
pub open spec fn key_step(key_len: Option<usize>, formatted: bool) -> KeyStep {
    match key_len {
        Some(n) => if n == 32 {
            KeyStep::Use
        } else {
            KeyStep::Fail(EIO)
        },
        None => if formatted {
            KeyStep::Fail(EIO)
        } else {
            KeyStep::Mint
        },
    }
}

/// A key is drawn only for a store that is blank: a store whose key is lost is
/// refused, never formatted anew.
pub fn obtain_store_dek(key_len: Option<usize>, formatted: bool) -> (s: KeyStep)
    ensures
        s == key_step(key_len, formatted),
        s == match key_len {
            Some(n) => if n == 32 {
                KeyStep::Use
            } else {
                KeyStep::Fail(EIO)
            },
            None => if formatted {
                KeyStep::Fail(EIO)
            } else {
                KeyStep::Mint
            },
        },
{
    match key_len {
        Some(n) => {
            if n == 32 {
                KeyStep::Use
            } else {
                KeyStep::Fail(EIO)
            }
        },
        None => {
            if formatted {
                KeyStep::Fail(EIO)
            } else {
                KeyStep::Mint
            }
        },
    }
}

/// How drawing a key came out: without the hardware generator there is none, and
/// one that could not be kept in the root is not used.
pub fn store_key_minted(drawn: bool, kept: bool) -> (r: Option<i64>)
    ensures
        r == if drawn && kept {
            None::<i64>
        } else {
            Some(EIO)
        },
{
    if drawn && kept {
        None
    } else {
        Some(EIO)
    }
}

/// What follows an attempt to unlock the root.
#[derive(Clone, Copy, Debug, PartialEq, Eq, Structural)]
pub enum UnlockStep {
    Mounted,
    /// Ask again.
    Retry,
    /// Leave the root locked.
    Abort,
}

/// What follows an attempt at the root's passphrase.
pub open spec fn unlocking(n: u32, unlocked: bool, mounted: bool) -> UnlockStep {
    if unlocked && mounted {
        UnlockStep::Mounted
    } else if unlocked || n >= 3 {
        UnlockStep::Abort
    } else {
        UnlockStep::Retry
    }
}

/// Attempt `n`, counted from 1, at the root's passphrase. A wrong one is asked
/// for again, three times in all; a volume that does not mount once it is
/// unlocked is given up.
pub fn unlock_step(n: u32, unlocked: bool, mounted: bool) -> (s: UnlockStep)
    ensures
        s == unlocking(n, unlocked, mounted),
        s == if unlocked && mounted {
            UnlockStep::Mounted
        } else if unlocked || n >= 3 {
            UnlockStep::Abort
        } else {
            UnlockStep::Retry
        },
{
    if unlocked {
        if mounted {
            UnlockStep::Mounted
        } else {
            UnlockStep::Abort
        }
    } else if n >= 3 {
        UnlockStep::Abort
    } else {
        UnlockStep::Retry
    }
}

/// An entry that is sealed when a store is mounted again: a directory whose name
/// does not start with a dot.
pub open spec fn is_realized(e: DirEntryView) -> bool {
    e.file_type == FT_DIR && !(e.name.len() > 0 && e.name[0] == 0x2E)
}

/// The names that are sealed when a store is mounted again.
pub open spec fn realized_names(entries: Seq<DirEntryView>) -> Seq<Seq<u8>>
    decreases entries.len(),
{
    if entries.len() == 0 {
        seq![]
    } else {
        let head = realized_names(entries.drop_last());
        if is_realized(entries.last()) {
            head.push(entries.last().name)
        } else {
            head
        }
    }
}

/// The entries as values.
pub open spec fn entry_views(v: Seq<DirEntry>) -> Seq<DirEntryView> {
    Seq::new(v.len(), |i: int| v[i]@)
}

/// The names to seal when a store is mounted again, so that what was realized
/// before stays read-only.
pub fn reconstruct_seals(entries: &Vec<DirEntry>) -> (names: Vec<Vec<u8>>)
    ensures
        parts(names@) == realized_names(entry_views(entries@)),
{
    let ghost all = entry_views(entries@);
    let mut names: Vec<Vec<u8>> = Vec::new();
    let mut i: usize = 0;
    assert(all.take(0) =~= seq![]);
    assert(parts(names@) =~= seq![]);
    while i < entries.len()
        invariant
            i <= entries@.len(),
            all == entry_views(entries@),
            parts(names@) == realized_names(all.take(i as int)),
        decreases entries@.len() - i,
    {
        assert(all.take(i + 1).drop_last() =~= all.take(i as int));
        assert(all[i as int] == entries@[i as int]@);
        let e: &DirEntry = &entries[i];
        if e.file_type == FT_DIR && !(e.name.len() > 0 && e.name[0] == 0x2E) {
            let ghost before = parts(names@);
            let n: Vec<u8> = copy_range(e.name.as_slice(), 0, e.name.len());
            assert(n@ =~= e.name@);
            names.push(n);
            assert(parts(names@) =~= before.push(e.name@));
        }
        i += 1;
    }
    assert(all.take(i as int) =~= all);
    names
}

/// What an unmount is refused with, before it is tried: the root stays.
pub fn unmount(ready: bool, is_root: bool) -> (r: Option<i64>)
    ensures
        r == if !ready {
            Some(ENOMNT)
        } else if is_root {
            Some(EINVAL)
        } else {
            None
        },
{
    if !ready {
        Some(ENOMNT)
    } else if is_root {
        Some(EINVAL)
    } else {
        None
    }
}

/// The answer to a mount: why the volume could not be had, else whether it found
/// its place.
pub fn mounted(volume: Option<i64>, placed: Result<(), MountError>) -> (r: i64)
    ensures
        r == match (volume, placed) {
            (Some(e), _) => e,
            (None, Err(e)) => mount_errno(e),
            (None, Ok(_)) => 0,
        },
{
    match volume {
        Some(e) => e,
        None => match placed {
            Err(e) => errno_mount(e),
            Ok(_) => 0,
        },
    }
}

/// The answer to an unmount that was tried, and whether to free the volume: only
/// once nothing is routed to it any more.
pub fn unmounted(result: Result<(), MountError>, still_routed: bool) -> (r: (i64, bool))
    ensures
        r == match result {
            Ok(_) => (0i64, !still_routed),
            Err(e) => (mount_errno(e), false),
        },
{
    match result {
        Ok(_) => (0, !still_routed),
        Err(e) => (errno_mount(e), false),
    }
}

// ── Descriptors ──────────────────────────────────────────────────────────────

/// An open file.
pub struct OpenFile {
    /// The volume that it was opened on.
    pub mount: u64,
    pub ino: u64,
    pub offset: u64,
    pub size: u64,
    pub writable: bool,
    /// The first component of its path on the volume: what a store seals.
    pub top: Option<Vec<u8>>,
}

/// An open file as a mathematical value.
#[verifier::ext_equal]
pub struct OpenView {
    pub mount: u64,
    pub ino: u64,
    pub offset: u64,
    pub size: u64,
    pub writable: bool,
    pub top: Option<Seq<u8>>,
}

impl View for OpenFile {
    type V = OpenView;

    open spec fn view(&self) -> OpenView {
        OpenView {
            mount: self.mount,
            ino: self.ino,
            offset: self.offset,
            size: self.size,
            writable: self.writable,
            top: match self.top {
                Some(t) => Some(t@),
                None => None,
            },
        }
    }
}

/// The open files, and whether the root is mounted.
pub struct Vfs {
    ready: bool,
    fds: Vec<Option<OpenFile>>,
}

/// The open files as a mathematical value.
#[verifier::ext_equal]
pub struct VfsView {
    pub ready: bool,
    pub fds: Seq<Option<OpenView>>,
}

/// A descriptor's slot.
pub open spec fn slot_view(f: Option<OpenFile>) -> Option<OpenView> {
    match f {
        Some(f) => Some(f@),
        None => None,
    }
}

impl View for Vfs {
    type V = VfsView;

    closed spec fn view(&self) -> VfsView {
        VfsView {
            ready: self.ready,
            fds: Seq::new(self.fds@.len(), |i: int| slot_view(self.fds@[i])),
        }
    }
}

/// The file of a descriptor; the error number where there is none.
pub open spec fn file_of(v: VfsView, fd: u64) -> Result<OpenView, i64> {
    if !v.ready {
        Err(ENOMNT)
    } else if fd < v.fds.len() && v.fds[fd as int] is Some {
        Ok(v.fds[fd as int]->0)
    } else {
        Err(EBADF)
    }
}

/// The state with another file at a descriptor.
pub open spec fn with_file(v: VfsView, fd: u64, f: Option<OpenView>) -> VfsView {
    VfsView { fds: v.fds.update(fd as int, f), ..v }
}

/// The first free descriptor from `k` on, or the length.
pub open spec fn free_fd(fds: Seq<Option<OpenView>>, k: int) -> int
    decreases fds.len() - k,
{
    if k >= fds.len() {
        fds.len() as int
    } else if fds[k] is None {
        k
    } else {
        free_fd(fds, k + 1)
    }
}

/// The open files as a store's rename to `name` leaves them: those below the
/// entry that was renamed are now below the new one.
pub open spec fn retargeted(
    fds: Seq<Option<OpenView>>,
    mount: u64,
    old_top: Seq<u8>,
    name: Seq<u8>,
) -> Seq<Option<OpenView>> {
    Seq::new(
        fds.len(),
        |i: int|
            match fds[i] {
                Some(f) if f.mount == mount && f.top == Some(old_top) => Some(
                    OpenView { top: Some(name), ..f },
                ),
                _ => fds[i],
            },
    )
}

/// Where a seek leads; `None` where it cannot.
pub open spec fn seek_to(f: OpenView, offset: i64, whence: u32) -> Option<int> {
    let base = if whence == 0 {
        0
    } else if whence == 1 {
        signed(f.offset)
    } else {
        signed(f.size)
    };
    if whence > 2 || base + offset < 0 || base + offset > i64::MAX {
        None
    } else {
        Some(base + offset)
    }
}

/// The word as a signed number.
pub open spec fn signed(x: u64) -> int {
    if x > i64::MAX {
        x - 0x1_0000_0000_0000_0000
    } else {
        x as int
    }
}

impl Vfs {
    pub closed spec fn wf(&self) -> bool {
        self.fds@.len() == MAX_FDS
    }

    /// No file is open; `ready` tells whether the root is mounted.
    pub fn init(ready: bool) -> (v: Vfs)
        ensures
            v.wf(),
            v@.ready == ready,
            v@.fds.len() == MAX_FDS,
            forall|i: int| 0 <= i < MAX_FDS ==> (#[trigger] v@.fds[i]) is None,
    {
        let mut fds: Vec<Option<OpenFile>> = Vec::new();
        let mut i: usize = 0;
        while i < MAX_FDS
            invariant
                i <= MAX_FDS,
                fds@.len() == i,
                forall|j: int| 0 <= j < i ==> (#[trigger] fds@[j]) is None,
            decreases MAX_FDS - i,
        {
            fds.push(None);
            i += 1;
        }
        Vfs { ready, fds }
    }

    /// There are always so many descriptors.
    pub proof fn lemma_len(&self)
        requires
            self.wf(),
        ensures
            self@.fds.len() == MAX_FDS,
    {
    }

    /// Put an open file at the first free descriptor, and answer it; `EMFILE`
    /// where there is none.
    fn install(&mut self, f: OpenFile) -> (r: i64)
        requires
            old(self).wf(),
        ensures
            final(self).wf(),
            (final(self)@, r) == installed(old(self)@, f@),
    {
        let mut k: usize = 0;
        while k < MAX_FDS
            invariant
                self.wf(),
                *self == *old(self),
                k <= MAX_FDS,
                free_fd(self@.fds, 0) == free_fd(self@.fds, k as int),
            decreases MAX_FDS - k,
        {
            assert(self@.fds[k as int] == slot_view(self.fds@[k as int]));
            if self.fds[k].is_none() {
                let ghost fv = f@;
                self.fds.set(k, Some(f));
                assert(self@.fds =~= old(self)@.fds.update(k as int, Some(fv)));
                return k as i64;
            }
            k += 1;
        }
        EMFILE
    }

    /// The file that is open under a descriptor.
    pub fn find(&self, fd: u64) -> (r: Result<&OpenFile, i64>)
        requires
            self.wf(),
        ensures
            match file_of(self@, fd) {
                Ok(f) => r matches Ok(o) && o@ == f && fd < MAX_FDS,
                Err(e) => r matches Err(x) && x == e,
            },
    {
        if !self.ready {
            return Err(ENOMNT);
        }
        if fd >= MAX_FDS as u64 {
            return Err(EBADF);
        }
        assert(self@.fds[fd as int] == slot_view(self.fds@[fd as int]));
        match &self.fds[fd as usize] {
            Some(f) => Ok(f),
            None => Err(EBADF),
        }
    }

    /// Where a read is from: the volume, the file and the offset.
    pub fn read_target(&self, fd: u64) -> (r: Result<(u64, u64, u64), i64>)
        requires
            self.wf(),
        ensures
            r == read_place(self@, fd),
            r == match file_of(self@, fd) {
                Ok(f) => Ok::<(u64, u64, u64), i64>((f.mount, f.ino, f.offset)),
                Err(e) => Err(e),
            },
    {
        match self.find(fd) {
            Ok(f) => Ok((f.mount, f.ino, f.offset)),
            Err(e) => Err(e),
        }
    }

    /// What was read, where the volume is still there: the offset moves behind
    /// it, and the answer is how much it was.
    pub fn read(&mut self, fd: u64, present: bool, got: Result<u32, FsError>) -> (r: i64)
        requires
            old(self).wf(),
        ensures
            final(self).wf(),
            (final(self)@, r) == was_got(old(self)@, fd, present, got),
            match file_of(old(self)@, fd) {
                Err(e) => r == e && final(self)@ == old(self)@,
                Ok(f) => if !present {
                    r == EBADF && final(self)@ == old(self)@
                } else {
                    match got {
                        Err(e) => r == fs_errno(e) && final(self)@ == old(self)@,
                        Ok(n) => r == n && final(self)@ == with_file(
                            old(self)@,
                            fd,
                            Some(
                                OpenView {
                                    offset: ((f.offset + n) % 0x1_0000_0000_0000_0000) as u64,
                                    ..f
                                },
                            ),
                        ),
                    }
                },
            },
    {
        let offset: u64 = match self.find(fd) {
            Ok(f) => f.offset,
            Err(e) => {
                return e;
            },
        };
        if !present {
            return EBADF;
        }
        match got {
            Err(e) => errno_fs(e),
            Ok(n) => {
                assert(self@.fds[fd as int] == slot_view(self.fds@[fd as int]));
                if let Some(f) = &mut self.fds[fd as usize] {
                    f.offset = offset.wrapping_add(n as u64);
                }
                assert(self@.fds =~= with_file(
                    old(self)@,
                    fd,
                    self@.fds[fd as int],
                ).fds);
                n as i64
            },
        }
    }

    /// Where a write goes: the volume, the file and its end. Nothing is written
    /// through a descriptor that is not writable, or into an entry that was
    /// sealed since; `sealed` tells whether it was. `None` where there is
    /// nothing to write.
    pub fn write_target(&self, fd: u64, sealed: bool, len: u64) -> (r: Result<
        Option<(u64, u64, u64)>,
        i64,
    >)
        requires
            self.wf(),
        ensures
            r == write_place(self@, fd, sealed, len),
            r == match file_of(self@, fd) {
                Err(e) => Err(e),
                Ok(f) => if !f.writable {
                    Err(EBADF)
                } else if sealed && f.top is Some {
                    Err(EROFS)
                } else if len == 0 {
                    Ok(None)
                } else {
                    Ok::<Option<(u64, u64, u64)>, i64>(Some((f.mount, f.ino, f.size)))
                },
            },
    {
        match self.find(fd) {
            Err(e) => Err(e),
            Ok(f) => {
                if !f.writable {
                    Err(EBADF)
                } else if sealed && f.top.is_some() {
                    Err(EROFS)
                } else if len == 0 {
                    Ok(None)
                } else {
                    Ok(Some((f.mount, f.ino, f.size)))
                }
            },
        }
    }

    /// Write through a descriptor: where the volume is still there, and took and
    /// committed it, the file grew by it, the offset is at the new end, and the
    /// answer is how much it was.
    pub fn write(
        &mut self,
        fd: u64,
        sealed: bool,
        len: u32,
        present: bool,
        done: Result<(), FsError>,
        committed: Result<(), FsError>,
    ) -> (r: i64)
        requires
            old(self).wf(),
        ensures
            final(self).wf(),
            (final(self)@, r) == wrote(old(self)@, fd, sealed, len, present, done, committed),
    {
        let size: u64 = match self.write_target(fd, sealed, len as u64) {
            Ok(Some((_, _, size))) => size,
            Ok(None) => {
                return 0;
            },
            Err(e) => {
                return e;
            },
        };
        if !present {
            return EBADF;
        }
        if let Err(e) = done {
            return errno_fs(e);
        }
        if let Err(e) = committed {
            return errno_fs(e);
        }
        let end: u64 = size.wrapping_add(len as u64);
        assert(self@.fds[fd as int] == slot_view(self.fds@[fd as int]));
        if let Some(f) = &mut self.fds[fd as usize] {
            f.size = end;
            f.offset = end;
        }
        assert(self@.fds =~= with_file(old(self)@, fd, self@.fds[fd as int]).fds);
        len as i64
    }

    /// Release a descriptor: the file that was open.
    pub fn close(&mut self, fd: u64) -> (r: Result<OpenFile, i64>)
        requires
            old(self).wf(),
        ensures
            final(self).wf(),
            match file_of(old(self)@, fd) {
                Err(e) => r matches Err(x) && x == e && final(self)@ == old(self)@,
                Ok(f) => r matches Ok(o) && o@ == f && final(self)@ == with_file(
                    old(self)@,
                    fd,
                    None,
                ),
            },
    {
        match self.find(fd) {
            Ok(_) => {},
            Err(e) => {
                return Err(e);
            },
        }
        assert(self@.fds[fd as int] == slot_view(self.fds@[fd as int]));
        let taken: Option<OpenFile> = self.fds[fd as usize].take();
        assert(self@.fds =~= with_file(old(self)@, fd, None).fds);
        match taken {
            Some(f) => Ok(f),
            None => Err(EBADF),
        }
    }

    /// Move the offset of a descriptor; the answer is the new offset.
    pub fn seek(&mut self, fd: u64, offset: i64, whence: u32) -> (r: i64)
        requires
            old(self).wf(),
        ensures
            final(self).wf(),
            (final(self)@, r) == moved_to(old(self)@, fd, offset, whence),
            match file_of(old(self)@, fd) {
                Err(e) => r == e && final(self)@ == old(self)@,
                Ok(f) => match seek_to(f, offset, whence) {
                    None => r == EINVAL && final(self)@ == old(self)@,
                    Some(t) => r == t && final(self)@ == with_file(
                        old(self)@,
                        fd,
                        Some(OpenView { offset: t as u64, ..f }),
                    ),
                },
            },
    {
        let (at, size): (u64, u64) = match self.find(fd) {
            Ok(f) => (f.offset, f.size),
            Err(e) => {
                return e;
            },
        };
        if whence > 2 {
            return EINVAL;
        }
        let base: u64 = if whence == 0 {
            0
        } else if whence == 1 {
            at
        } else {
            size
        };
        let from: i128 = if base > i64::MAX as u64 {
            base as i128 - 0x1_0000_0000_0000_0000
        } else {
            base as i128
        };
        let to: i128 = from + offset as i128;
        if to < 0 || to > i64::MAX as i128 {
            return EINVAL;
        }
        assert(self@.fds[fd as int] == slot_view(self.fds@[fd as int]));
        if let Some(f) = &mut self.fds[fd as usize] {
            f.offset = to as u64;
        }
        assert(self@.fds =~= with_file(old(self)@, fd, self@.fds[fd as int]).fds);
        to as i64
    }

    /// A store entry was renamed: files that are open below it follow, so that
    /// the seal reaches them.
    pub fn retarget(&mut self, mount: u64, old_top: &[u8], name: &[u8])
        requires
            old(self).wf(),
        ensures
            final(self).wf(),
            final(self)@ == (VfsView {
                fds: retargeted(old(self)@.fds, mount, old_top@, name@),
                ..old(self)@
            }),
    {
        let ghost v0 = self@;
        let mut i: usize = 0;
        while i < MAX_FDS
            invariant
                self.wf(),
                i <= MAX_FDS,
                v0 == old(self)@,
                self@.ready == v0.ready,
                v0.fds.len() == MAX_FDS,
                forall|j: int|
                    0 <= j < i ==> #[trigger] self@.fds[j] == retargeted(
                        v0.fds,
                        mount,
                        old_top@,
                        name@,
                    )[j],
                forall|j: int| i <= j < MAX_FDS ==> #[trigger] self@.fds[j] == v0.fds[j],
            decreases MAX_FDS - i,
        {
            let ghost before = self@;
            assert(self@.fds[i as int] == slot_view(self.fds@[i as int]));
            let hit: bool = match &self.fds[i] {
                Some(f) => f.mount == mount && match &f.top {
                    Some(t) => same_bytes(t.as_slice(), old_top),
                    None => false,
                },
                None => false,
            };
            if hit {
                let n: Vec<u8> = copy_range(name, 0, name.len());
                assert(n@ =~= name@);
                if let Some(f) = &mut self.fds[i] {
                    f.top = Some(n);
                }
            }
            assert(self@.fds[i as int] == slot_view(self.fds@[i as int]));
            assert forall|j: int| 0 <= j < MAX_FDS && j != i implies #[trigger] self@.fds[j]
                == before.fds[j] by {
                assert(self@.fds[j] == slot_view(self.fds@[j]));
                assert(before.fds[j] == slot_view(self.fds@[j]));
            }
            i += 1;
        }
        assert(self@.fds =~= retargeted(v0.fds, mount, old_top@, name@));
    }
}

/// The answer to a close, once its pin is dropped and what that staged is
/// committed, if anything.
pub fn close_answer(committed: Option<Result<(), FsError>>) -> (r: i64)
    ensures
        r == match committed {
            Some(Err(e)) => fs_errno(e),
            _ => 0,
        },
{
    match committed {
        Some(Err(e)) => errno_fs(e),
        _ => 0,
    }
}

// ── Calls on paths ───────────────────────────────────────────────────────────

/// How the steps of a call on a path came out. They are taken in this order, and
/// none after the first that fails: what was not tried is left as if it had
/// succeeded.
#[derive(Clone, Copy, Debug)]
pub struct Steps {
    /// The path was resolved.
    pub resolved: Result<(), i64>,
    /// The mount table knows the volume.
    pub routed: Result<(), MountError>,
    /// The store's guard, if there is one, lets it happen.
    pub guarded: Result<(), FsError>,
    /// The volume is there.
    pub present: bool,
    /// The volume did it.
    pub done: Result<(), FsError>,
    /// The volume committed it.
    pub committed: Result<(), FsError>,
}

/// What a call is refused with before its volume is reached.
pub open spec fn before_volume(ready: bool, text: bool, st: Steps) -> Option<i64> {
    if !ready {
        Some(ENOMNT)
    } else if !text {
        Some(EINVAL)
    } else {
        match st.resolved {
            Err(e) => Some(e),
            Ok(_) => match st.routed {
                Err(e) => Some(mount_errno(e)),
                Ok(_) => match st.guarded {
                    Err(e) => Some(fs_errno(e)),
                    Ok(_) => if st.present {
                        None
                    } else {
                        Some(ENOMNT)
                    },
                },
            },
        }
    }
}

fn refused_before_volume(ready: bool, text: bool, st: &Steps) -> (r: Option<i64>)
    ensures
        r == before_volume(ready, text, *st),
{
    if !ready {
        return Some(ENOMNT);
    }
    if !text {
        return Some(EINVAL);
    }
    if let Err(e) = st.resolved {
        return Some(e);
    }
    if let Err(e) = st.routed {
        return Some(errno_mount(e));
    }
    if let Err(e) = st.guarded {
        return Some(errno_fs(e));
    }
    if st.present {
        None
    } else {
        Some(ENOMNT)
    }
}

/// The answer to a change: what refused it first, or 0.
pub open spec fn change_answer(ready: bool, text: bool, st: Steps) -> i64 {
    match before_volume(ready, text, st) {
        Some(e) => e,
        None => match st.done {
            Err(e) => fs_errno(e),
            Ok(_) => match st.committed {
                Err(e) => fs_errno(e),
                Ok(_) => 0,
            },
        },
    }
}

fn answer_change(ready: bool, text: bool, st: &Steps) -> (r: i64)
    ensures
        r == change_answer(ready, text, *st),
{
    match refused_before_volume(ready, text, st) {
        Some(e) => e,
        None => match st.done {
            Err(e) => errno_fs(e),
            Ok(_) => match st.committed {
                Err(e) => errno_fs(e),
                Ok(_) => 0,
            },
        },
    }
}

impl Vfs {
    /// Whether a file of the root was written, made first where it was not there:
    /// `done` tells of the write.
    pub fn write_root_file(
        &self,
        st: &Steps,
        created: Result<u64, FsError>,
        found: Result<u64, FsError>,
    ) -> (ok: bool)
        ensures
            ok == (self@.ready && st.resolved is Ok && st.routed is Ok && st.present && (created is Ok
                || (created == Err::<u64, FsError>(FsError::Exists) && found is Ok)) && st.done is Ok
                && st.committed is Ok),
    {
        self.ready && st.resolved.is_ok() && st.routed.is_ok() && st.present && root_file_inode(
            created,
            found,
        ).is_some() && st.done.is_ok() && st.committed.is_ok()
    }
}

impl Vfs {
    /// Answer an unlink. The last component of the path is not followed.
    pub fn unlink(&self, path: &[u8], st: &Steps) -> (r: i64)
        ensures
            r == change_answer(self@.ready, valid_utf8(path@), *st),
    {
        answer_change(self.ready, is_utf8(path), st)
    }

    /// Answer the making of a directory. A mount point is there already, whatever
    /// its volume would say.
    pub fn mkdir(&self, path: &[u8], st: &Steps, is_mount_root: bool) -> (r: i64)
        ensures
            r == if self@.ready && valid_utf8(path@) && st.resolved is Ok && st.routed is Ok
                && is_mount_root {
                EEXIST
            } else {
                change_answer(self@.ready, valid_utf8(path@), *st)
            },
    {
        let text: bool = is_utf8(path);
        if self.ready && text && st.resolved.is_ok() && st.routed.is_ok() && is_mount_root {
            return EEXIST;
        }
        answer_change(self.ready, text, st)
    }

    /// Answer the making of a symlink. Its target is any text that is not empty.
    pub fn symlink(&self, target: &[u8], link: &[u8], st: &Steps) -> (r: i64)
        ensures
            r == change_answer(
                self@.ready,
                valid_utf8(target@) && valid_utf8(link@) && target@.len() > 0,
                *st,
            ),
    {
        let text: bool = is_utf8(target) && is_utf8(link) && target.len() > 0;
        answer_change(self.ready, text, st)
    }

    /// Answer the reading of a symlink: its target is copied as far as there is
    /// room, and its whole length is the answer.
    pub fn readlink(
        &self,
        path: &[u8],
        st: &Steps,
        target: Result<Vec<u8>, FsError>,
        out: &mut [u8],
    ) -> (r: i64)
        requires
            target is Ok ==> target->Ok_0@.len() <= i64::MAX,
        ensures
            match before_volume(self@.ready, valid_utf8(path@), *st) {
                Some(e) => r == e && final(out)@ == old(out)@,
                None => match target {
                    Err(e) => r == fs_errno(e) && final(out)@ == old(out)@,
                    Ok(t) => {
                        let n = if t@.len() <= old(out)@.len() {
                            t@.len() as int
                        } else {
                            old(out)@.len() as int
                        };
                        r == t@.len() && final(out)@ == splice(old(out)@, 0, t@.take(n))
                    },
                },
            },
    {
        match refused_before_volume(self.ready, is_utf8(path), st) {
            Some(e) => e,
            None => match target {
                Err(e) => errno_fs(e),
                Ok(t) => {
                    let n: usize = if t.len() <= out.len() {
                        t.len()
                    } else {
                        out.len()
                    };
                    let part: &[u8] = slice_subrange(t.as_slice(), 0, n);
                    assert(part@ =~= t@.take(n as int));
                    copy_into(out, 0, part);
                    t.len() as i64
                },
            },
        }
    }

    /// The attributes of a path's file, where it is found.
    pub fn stat_path(&self, path: &[u8], st: &Steps, meta: Result<InodeMeta, FsError>) -> (r: Option<
        Stat,
    >)
        ensures
            r == if before_volume(self@.ready, valid_utf8(path@), *st) is None && meta is Ok {
                Some(stat_of(meta->Ok_0))
            } else {
                None
            },
    {
        if refused_before_volume(self.ready, is_utf8(path), st).is_some() {
            return None;
        }
        match meta {
            Ok(m) => Some(Stat::from_meta(&m)),
            Err(_) => None,
        }
    }

    /// A path's file, loaded whole: what was read of it from its start, where that
    /// is all of it. A directory, an empty file and one that is too large are not
    /// loaded.
    pub fn load_file(
        &self,
        path: &[u8],
        st: &Steps,
        meta: Result<InodeMeta, FsError>,
        got: Result<Vec<u8>, FsError>,
    ) -> (r: Option<Vec<u8>>)
        ensures
            if before_volume(self@.ready, valid_utf8(path@), *st) is None && meta is Ok
                && !meta->Ok_0.is_dir && 0 < meta->Ok_0.size <= MAX_LOAD && got is Ok
                && got->Ok_0@.len() >= meta->Ok_0.size {
                r matches Some(v) && v@ == got->Ok_0@
            } else {
                r is None
            },
    {
        if refused_before_volume(self.ready, is_utf8(path), st).is_some() {
            return None;
        }
        match meta {
            Err(_) => None,
            Ok(m) => match load_target(&m) {
                None => None,
                Some((_, _, size)) => match got {
                    Err(_) => None,
                    Ok(v) => {
                        if (v.len() as u64) < size {
                            None
                        } else {
                            Some(v)
                        }
                    },
                },
            },
        }
    }

    /// The entries of a path's directory, by what its volume listed.
    pub fn readdir_path(
        &self,
        path: &[u8],
        st: &Steps,
        listed: Result<Vec<VolumeEntry>, FsError>,
    ) -> (r: Option<Vec<DirEntry>>)
        ensures
            if before_volume(self@.ready, valid_utf8(path@), *st) is None && listed is Ok {
                r matches Some(v) && entry_views(v@) == seen_entries(listed->Ok_0@)
            } else {
                r is None
            },
    {
        if refused_before_volume(self.ready, is_utf8(path), st).is_some() {
            return None;
        }
        match listed {
            Err(_) => None,
            Ok(es) => {
                let mut v: Vec<DirEntry> = Vec::new();
                let mut i: usize = 0;
                while i < es.len()
                    invariant
                        i <= es@.len(),
                        v@.len() == i,
                        forall|j: int| 0 <= j < i ==> (#[trigger] v@[j])@ == seen_entry(es@[j]),
                    decreases es@.len() - i,
                {
                    let e: &VolumeEntry = &es[i];
                    let name: Vec<u8> = copy_range(e.name.as_slice(), 0, e.name.len());
                    assert(name@ =~= e.name@);
                    v.push(
                        DirEntry {
                            ino: (e.ino % 0x1_0000_0000) as u32,
                            file_type: e.file_type,
                            name,
                        },
                    );
                    i += 1;
                }
                assert(entry_views(v@) =~= seen_entries(es@));
                Some(v)
            },
        }
    }

    /// Answer an open, by what the file is and whether it could be pinned. Where
    /// no descriptor is free the answer is `EMFILE`, and the pin is to be
    /// dropped.
    pub fn open(
        &mut self,
        path: &[u8],
        st: &Steps,
        meta: Result<InodeMeta, FsError>,
        pinned: Result<(), FsError>,
        mount: u64,
        top: Option<Vec<u8>>,
    ) -> (r: i64)
        requires
            old(self).wf(),
        ensures
            final(self).wf(),
            (final(self)@, r) == opened_file(
                old(self)@,
                valid_utf8(path@),
                *st,
                meta,
                pinned,
                mount,
                match top {
                    Some(t) => Some(t@),
                    None => None,
                },
            ),
            match before_volume(old(self)@.ready, valid_utf8(path@), *st) {
                Some(e) => r == e && final(self)@ == old(self)@,
                None => match meta {
                    Err(e) => r == fs_errno(e) && final(self)@ == old(self)@,
                    Ok(m) => if m.is_dir {
                        r == EISDIR && final(self)@ == old(self)@
                    } else {
                        match pinned {
                            Err(e) => r == fs_errno(e) && final(self)@ == old(self)@,
                            Ok(_) => (final(self)@, r) == installed(
                                old(self)@,
                                OpenView {
                                    mount,
                                    ino: m.ino,
                                    offset: 0,
                                    size: m.size,
                                    writable: false,
                                    top: match top {
                                        Some(t) => Some(t@),
                                        None => None,
                                    },
                                },
                            ),
                        }
                    },
                },
            },
    {
        if let Some(e) = refused_before_volume(self.ready, is_utf8(path), st) {
            return e;
        }
        match meta {
            Err(e) => errno_fs(e),
            Ok(m) => {
                if m.is_dir {
                    return EISDIR;
                }
                if let Err(e) = pinned {
                    return errno_fs(e);
                }
                self.install(
                    OpenFile {
                        mount,
                        ino: m.ino,
                        offset: 0,
                        size: m.size,
                        writable: false,
                        top,
                    },
                )
            },
        }
    }

    /// Answer the creation of a file, by its inode and whether it could be pinned
    /// and committed: it is open for writing.
    pub fn create(
        &mut self,
        path: &[u8],
        st: &Steps,
        made: Result<u64, FsError>,
        pinned: Result<(), FsError>,
        mount: u64,
        top: Option<Vec<u8>>,
    ) -> (r: i64)
        requires
            old(self).wf(),
        ensures
            final(self).wf(),
            (final(self)@, r) == created_file(
                old(self)@,
                valid_utf8(path@),
                *st,
                made,
                pinned,
                mount,
                match top {
                    Some(t) => Some(t@),
                    None => None,
                },
            ),
            match before_volume(old(self)@.ready, valid_utf8(path@), *st) {
                Some(e) => r == e && final(self)@ == old(self)@,
                None => match made {
                    Err(e) => r == fs_errno(e) && final(self)@ == old(self)@,
                    Ok(ino) => match pinned {
                        Err(e) => r == fs_errno(e) && final(self)@ == old(self)@,
                        Ok(_) => match st.committed {
                            Err(e) => r == fs_errno(e) && final(self)@ == old(self)@,
                            Ok(_) => (final(self)@, r) == installed(
                                old(self)@,
                                OpenView {
                                    mount,
                                    ino,
                                    offset: 0,
                                    size: 0,
                                    writable: true,
                                    top: match top {
                                        Some(t) => Some(t@),
                                        None => None,
                                    },
                                },
                            ),
                        },
                    },
                },
            },
    {
        if let Some(e) = refused_before_volume(self.ready, is_utf8(path), st) {
            return e;
        }
        match made {
            Err(e) => errno_fs(e),
            Ok(ino) => {
                if let Err(e) = pinned {
                    return errno_fs(e);
                }
                if let Err(e) = st.committed {
                    return errno_fs(e);
                }
                self.install(
                    OpenFile { mount, ino, offset: 0, size: 0, writable: true, top },
                )
            },
        }
    }

    /// How an entry of a store is removed, by the path on its volume and by whether
    /// it is a directory there. Only a whole entry of a store is removed.
    pub fn store_remove_tree(
        &self,
        path: &[u8],
        st: &Steps,
        is_store: bool,
        rel: &[u8],
        is_dir: Result<bool, FsError>,
    ) -> (r: StoreRemoval)
        ensures
            r@ == store_removal(
                self@.ready,
                valid_utf8(path@),
                *st,
                is_store,
                store_entry_of(rel@),
                is_dir,
            ),
    {
        if !self.ready {
            return StoreRemoval::Refused(ENOMNT);
        }
        if !is_utf8(path) {
            return StoreRemoval::Refused(EINVAL);
        }
        if let Err(e) = st.routed {
            return StoreRemoval::Refused(errno_mount(e));
        }
        if !is_store {
            return StoreRemoval::Refused(EINVAL);
        }
        match store_entry(rel) {
            None => StoreRemoval::Refused(EINVAL),
            Some(name) => {
                if !st.present {
                    return StoreRemoval::Refused(ENOMNT);
                }
                match is_dir {
                    Ok(is_dir) => StoreRemoval::Remove { name, is_dir },
                    Err(FsError::NotFound) => StoreRemoval::Gone { name },
                    Err(e) => StoreRemoval::Refused(errno_fs(e)),
                }
            },
        }
    }
}

/// How an entry of a store is removed.
pub enum StoreRemoval {
    /// Not at all.
    Refused(i64),
    /// It is gone already: its seal is forgotten, and the answer is 0.
    Gone { name: Vec<u8> },
    /// Its tree is removed, and the removal committed; then its seal is
    /// forgotten.
    Remove { name: Vec<u8>, is_dir: bool },
}

/// The removal of a store's entry as a mathematical value.
#[verifier::ext_equal]
pub enum StoreRemovalView {
    Refused(i64),
    Gone { name: Seq<u8> },
    Remove { name: Seq<u8>, is_dir: bool },
}

impl View for StoreRemoval {
    type V = StoreRemovalView;

    open spec fn view(&self) -> StoreRemovalView {
        match *self {
            StoreRemoval::Refused(e) => StoreRemovalView::Refused(e),
            StoreRemoval::Gone { name } => StoreRemovalView::Gone { name: name@ },
            StoreRemoval::Remove { name, is_dir } => StoreRemovalView::Remove {
                name: name@,
                is_dir,
            },
        }
    }
}

/// How an entry of a store is removed: by the mount table's answer, by whether
/// the volume is a store, by the entry that the path names there, and by what the
/// volume says of it.
pub open spec fn store_removal(
    ready: bool,
    text: bool,
    st: Steps,
    is_store: bool,
    entry: Option<Seq<u8>>,
    is_dir: Result<bool, FsError>,
) -> StoreRemovalView {
    if !ready {
        StoreRemovalView::Refused(ENOMNT)
    } else if !text {
        StoreRemovalView::Refused(EINVAL)
    } else {
        match (st.routed, entry) {
            (Err(e), _) => StoreRemovalView::Refused(mount_errno(e)),
            (Ok(_), None) => StoreRemovalView::Refused(EINVAL),
            (Ok(_), Some(name)) => if !is_store {
                StoreRemovalView::Refused(EINVAL)
            } else if !st.present {
                StoreRemovalView::Refused(ENOMNT)
            } else {
                match is_dir {
                    Ok(is_dir) => StoreRemovalView::Remove { name, is_dir },
                    Err(FsError::NotFound) => StoreRemovalView::Gone { name },
                    Err(e) => StoreRemovalView::Refused(fs_errno(e)),
                }
            },
        }
    }
}

/// A write through a descriptor: nothing goes through one that is not writable,
/// or into an entry that was sealed since.
pub open spec fn wrote(
    v: VfsView,
    fd: u64,
    sealed: bool,
    len: u32,
    present: bool,
    done: Result<(), FsError>,
    committed: Result<(), FsError>,
) -> (VfsView, i64) {
    match file_of(v, fd) {
        Err(e) => (v, e),
        Ok(f) => if !f.writable {
            (v, EBADF)
        } else if sealed && f.top is Some {
            (v, EROFS)
        } else if len == 0 {
            (v, 0)
        } else if !present {
            (v, EBADF)
        } else {
            match (done, committed) {
                (Err(e), _) => (v, fs_errno(e)),
                (Ok(_), Err(e)) => (v, fs_errno(e)),
                (Ok(_), Ok(_)) => {
                    let size = ((f.size + len) % 0x1_0000_0000_0000_0000) as u64;
                    (with_file(v, fd, Some(OpenView { size, offset: size, ..f })), len as i64)
                },
            }
        },
    }
}

/// Where a read is from.
pub open spec fn read_place(v: VfsView, fd: u64) -> Result<(u64, u64, u64), i64> {
    match file_of(v, fd) {
        Ok(f) => Ok((f.mount, f.ino, f.offset)),
        Err(e) => Err(e),
    }
}

/// Where a write goes; `None` where there is nothing to write.
pub open spec fn write_place(v: VfsView, fd: u64, sealed: bool, len: u64) -> Result<
    Option<(u64, u64, u64)>,
    i64,
> {
    match file_of(v, fd) {
        Err(e) => Err(e),
        Ok(f) => if !f.writable {
            Err(EBADF)
        } else if sealed && f.top is Some {
            Err(EROFS)
        } else if len == 0 {
            Ok(None)
        } else {
            Ok(Some((f.mount, f.ino, f.size)))
        },
    }
}

/// A read through a descriptor, of which the volume gave so much.
pub open spec fn was_got(v: VfsView, fd: u64, present: bool, got: Result<u32, FsError>) -> (
    VfsView,
    i64,
) {
    match file_of(v, fd) {
        Err(e) => (v, e),
        Ok(f) => if !present {
            (v, EBADF)
        } else {
            match got {
                Err(e) => (v, fs_errno(e)),
                Ok(n) => {
                    let offset = ((f.offset + n) % 0x1_0000_0000_0000_0000) as u64;
                    (with_file(v, fd, Some(OpenView { offset, ..f })), n as i64)
                },
            }
        },
    }
}

/// A seek through a descriptor.
pub open spec fn moved_to(v: VfsView, fd: u64, offset: i64, whence: u32) -> (VfsView, i64) {
    match file_of(v, fd) {
        Err(e) => (v, e),
        Ok(f) => match seek_to(f, offset, whence) {
            None => (v, EINVAL),
            Some(t) => (with_file(v, fd, Some(OpenView { offset: t as u64, ..f })), t as i64),
        },
    }
}

/// A file opened for reading.
pub open spec fn opened_file(
    v: VfsView,
    text: bool,
    st: Steps,
    meta: Result<InodeMeta, FsError>,
    pinned: Result<(), FsError>,
    mount: u64,
    top: Option<Seq<u8>>,
) -> (VfsView, i64) {
    match (before_volume(v.ready, text, st), meta, pinned) {
        (Some(e), _, _) => (v, e),
        (None, Err(e), _) => (v, fs_errno(e)),
        (None, Ok(m), p) => if m.is_dir {
            (v, EISDIR)
        } else {
            match p {
                Err(e) => (v, fs_errno(e)),
                Ok(_) => installed(
                    v,
                    OpenView {
                        mount,
                        ino: m.ino,
                        offset: 0,
                        size: m.size,
                        writable: false,
                        top,
                    },
                ),
            }
        },
    }
}

/// A file created, and open for writing.
pub open spec fn created_file(
    v: VfsView,
    text: bool,
    st: Steps,
    made: Result<u64, FsError>,
    pinned: Result<(), FsError>,
    mount: u64,
    top: Option<Seq<u8>>,
) -> (VfsView, i64) {
    match (before_volume(v.ready, text, st), made, pinned, st.committed) {
        (Some(e), _, _, _) => (v, e),
        (None, Err(e), _, _) => (v, fs_errno(e)),
        (None, Ok(_), Err(e), _) => (v, fs_errno(e)),
        (None, Ok(_), Ok(_), Err(e)) => (v, fs_errno(e)),
        (None, Ok(ino), Ok(_), Ok(_)) => installed(
            v,
            OpenView { mount, ino, offset: 0, size: 0, writable: true, top },
        ),
    }
}

/// A file put at the first free descriptor: the state, and the answer.
pub open spec fn installed(v: VfsView, f: OpenView) -> (VfsView, i64) {
    let k = free_fd(v.fds, 0);
    if k < MAX_FDS {
        (with_file(v, k as u64, Some(f)), k as i64)
    } else {
        (v, EMFILE)
    }
}

/// What a store's guard says of a rename.
#[derive(Clone, Copy, Debug, PartialEq, Eq, Structural)]
pub enum RenameOutcome {
    /// The name is realized already: nothing is left to do.
    NoOp,
    /// Rename, and seal the name afterwards.
    Proceed,
}

/// What is done about a rename.
#[derive(Clone, Copy, Debug, PartialEq, Eq, Structural)]
pub enum RenamePlan {
    Answer(i64),
    /// Rename and commit; seal the name once that is done.
    Move { seal: bool },
}

/// How the steps of a rename came out, as far as they were tried.
#[derive(Clone, Copy, Debug)]
pub struct RenameSteps {
    /// The directories of the two paths were resolved.
    pub old_resolved: Result<(), i64>,
    pub new_resolved: Result<(), i64>,
    /// The volumes that the mount table gives for them.
    pub old_mount: Result<u64, MountError>,
    pub new_mount: Result<u64, MountError>,
    /// What the volume's guard says, where there is one.
    pub guard: Option<Result<RenameOutcome, FsError>>,
    /// The volume is there.
    pub present: bool,
}

/// What is done about a rename: the first step that fails answers it. It stays on
/// one volume.
pub open spec fn rename_plan(ready: bool, text: bool, st: RenameSteps) -> RenamePlan {
    if !ready {
        RenamePlan::Answer(ENOMNT)
    } else if !text {
        RenamePlan::Answer(EINVAL)
    } else {
        match (st.old_resolved, st.new_resolved, st.old_mount, st.new_mount) {
            (Err(e), _, _, _) => RenamePlan::Answer(e),
            (_, Err(e), _, _) => RenamePlan::Answer(e),
            (_, _, Err(e), _) => RenamePlan::Answer(mount_errno(e)),
            (_, _, _, Err(e)) => RenamePlan::Answer(mount_errno(e)),
            (Ok(_), Ok(_), Ok(from), Ok(to)) => if from != to {
                RenamePlan::Answer(EINVAL)
            } else {
                match st.guard {
                    Some(Err(e)) => RenamePlan::Answer(fs_errno(e)),
                    Some(Ok(RenameOutcome::NoOp)) => RenamePlan::Answer(0),
                    _ => if !st.present {
                        RenamePlan::Answer(ENOMNT)
                    } else {
                        RenamePlan::Move { seal: st.guard is Some }
                    },
                }
            },
        }
    }
}

impl Vfs {
    /// Decide a rename.
    pub fn rename(&self, old_path: &[u8], new_path: &[u8], st: &RenameSteps) -> (p: RenamePlan)
        ensures
            p == rename_plan(
                self@.ready,
                valid_utf8(old_path@) && valid_utf8(new_path@),
                *st,
            ),
    {
        if !self.ready {
            return RenamePlan::Answer(ENOMNT);
        }
        if !is_utf8(old_path) || !is_utf8(new_path) {
            return RenamePlan::Answer(EINVAL);
        }
        if let Err(e) = st.old_resolved {
            return RenamePlan::Answer(e);
        }
        if let Err(e) = st.new_resolved {
            return RenamePlan::Answer(e);
        }
        match (st.old_mount, st.new_mount) {
            (Err(e), _) => RenamePlan::Answer(errno_mount(e)),
            (Ok(_), Err(e)) => RenamePlan::Answer(errno_mount(e)),
            (Ok(from), Ok(to)) => {
                if from != to {
                    return RenamePlan::Answer(EINVAL);
                }
                match st.guard {
                    Some(Err(e)) => RenamePlan::Answer(errno_fs(e)),
                    Some(Ok(RenameOutcome::NoOp)) => RenamePlan::Answer(0),
                    _ => {
                        if st.present {
                            RenamePlan::Move { seal: st.guard.is_some() }
                        } else {
                            RenamePlan::Answer(ENOMNT)
                        }
                    },
                }
            },
        }
    }
}

// ── Removing a tree ──────────────────────────────────────────────────────────

/// The next operation of a removal, on the path that goes with it.
#[derive(Clone, Copy, Debug, PartialEq, Eq, Structural)]
pub enum RemoveOp {
    /// List a directory.
    List,
    /// Unlink what is no directory. A symlink goes as a link.
    Unlink,
    /// Remove a directory that was emptied.
    Rmdir,
}

/// A place in the tree that is still there.
pub struct Pending {
    pub path: Vec<u8>,
    pub is_dir: bool,
    /// Its entries lie above it.
    pub listed: bool,
}

/// A place in the tree as a mathematical value.
#[verifier::ext_equal]
pub struct PendingView {
    pub path: Seq<u8>,
    pub is_dir: bool,
    pub listed: bool,
}

impl View for Pending {
    type V = PendingView;

    open spec fn view(&self) -> PendingView {
        PendingView { path: self.path@, is_dir: self.is_dir, listed: self.listed }
    }
}

/// The removal of a tree, bottom up: what is on top goes first.
pub struct Removal {
    stack: Vec<Pending>,
}

impl View for Removal {
    type V = Seq<PendingView>;

    closed spec fn view(&self) -> Seq<PendingView> {
        Seq::new(self.stack@.len(), |i: int| self.stack@[i]@)
    }
}

/// The operation on what is on top.
pub open spec fn op_on(p: PendingView) -> RemoveOp {
    if !p.is_dir {
        RemoveOp::Unlink
    } else if !p.listed {
        RemoveOp::List
    } else {
        RemoveOp::Rmdir
    }
}

/// An entry of a directory other than itself and its parent.
pub open spec fn is_child(e: DirEntryView) -> bool {
    e.name != seq![0x2Eu8] && e.name != seq![0x2Eu8, 0x2E]
}

/// The stack with a directory's entries from `k` on, the first of them on top.
pub open spec fn with_entries(
    stack: Seq<PendingView>,
    base: Seq<u8>,
    entries: Seq<DirEntryView>,
    k: int,
) -> Seq<PendingView>
    decreases entries.len() - k,
{
    if k < 0 || k >= entries.len() {
        stack
    } else {
        let rest = with_entries(stack, base, entries, k + 1);
        let e = entries[k];
        if is_child(e) {
            rest.push(
                PendingView {
                    path: joined_path(base, e.name),
                    is_dir: e.file_type == FT_DIR,
                    listed: false,
                },
            )
        } else {
            rest
        }
    }
}

fn names_child(name: &Vec<u8>) -> (r: bool)
    ensures
        r == (name@ != seq![0x2Eu8] && name@ != seq![0x2Eu8, 0x2E]),
{
    if name.len() == 1 && name[0] == 0x2E {
        assert(name@ =~= seq![0x2Eu8]);
        return false;
    }
    if name.len() == 2 && name[0] == 0x2E && name[1] == 0x2E {
        assert(name@ =~= seq![0x2Eu8, 0x2E]);
        return false;
    }
    assert(name@ != seq![0x2Eu8]) by {
        if name@ == seq![0x2Eu8] {
            assert(name@.len() == 1 && name@[0] == 0x2E);
        }
    }
    assert(name@ != seq![0x2Eu8, 0x2E]) by {
        if name@ == seq![0x2Eu8, 0x2E] {
            assert(name@.len() == 2 && name@[0] == 0x2E && name@[1] == 0x2E);
        }
    }
    true
}

impl Removal {
    /// The removal of the tree at a path.
    pub fn new(path: &[u8], is_dir: bool) -> (r: Removal)
        ensures
            r@ == seq![PendingView { path: path@, is_dir, listed: false }],
    {
        let p: Vec<u8> = copy_range(path, 0, path.len());
        assert(p@ =~= path@);
        let mut stack: Vec<Pending> = Vec::new();
        stack.push(Pending { path: p, is_dir, listed: false });
        let r = Removal { stack };
        assert(r@ =~= seq![PendingView { path: path@, is_dir, listed: false }]);
        r
    }

    /// What to do next, and on which path; `None` once the tree is gone.
    pub fn next(&self) -> (r: Option<(RemoveOp, &Vec<u8>)>)
        ensures
            if self@.len() == 0 {
                r is None
            } else {
                r matches Some((op, path)) && op == op_on(self@.last()) && path@
                    == self@.last().path
            },
    {
        if self.stack.len() == 0 {
            return None;
        }
        let t: &Pending = &self.stack[self.stack.len() - 1];
        assert(self@.last() == self.stack@[self.stack@.len() - 1]@);
        let op: RemoveOp = if !t.is_dir {
            RemoveOp::Unlink
        } else if !t.listed {
            RemoveOp::List
        } else {
            RemoveOp::Rmdir
        };
        Some((op, &t.path))
    }

    /// What was on top is gone.
    pub fn done(&mut self)
        requires
            old(self)@.len() > 0,
        ensures
            final(self)@ == old(self)@.drop_last(),
    {
        let _gone: Option<Pending> = self.stack.pop();
        assert(self@ =~= old(self)@.drop_last());
    }

    /// The directory on top was listed: its entries go before it.
    pub fn expand(&mut self, entries: &Vec<DirEntry>)
        requires
            old(self)@.len() > 0,
        ensures
            ({
                let d = old(self)@.last();
                final(self)@ == with_entries(
                    old(self)@.drop_last().push(PendingView { listed: true, ..d }),
                    d.path,
                    entry_views(entries@),
                    0,
                )
            }),
    {
        let ghost d = self@.last();
        let ghost all = entry_views(entries@);
        let top: usize = self.stack.len() - 1;
        assert(self@.last() == self.stack@[top as int]@);
        self.stack[top].listed = true;
        let base: Vec<u8> = copy_range(
            self.stack[top].path.as_slice(),
            0,
            self.stack[top].path.len(),
        );
        assert(base@ =~= d.path);
        let ghost start = old(self)@.drop_last().push(PendingView { listed: true, ..d });
        assert(self@ =~= start);
        let mut k: usize = entries.len();
        while k > 0
            invariant
                k <= entries@.len(),
                all == entry_views(entries@),
                base@ == d.path,
                self@ == with_entries(start, d.path, all, k as int),
            decreases k,
        {
            k -= 1;
            let e: &DirEntry = &entries[k];
            assert(all[k as int] == e@);
            if names_child(&e.name) {
                let ghost before = self@;
                let p = Pending {
                    path: join_path(base.as_slice(), e.name.as_slice()),
                    is_dir: e.file_type == FT_DIR,
                    listed: false,
                };
                let ghost pv = p@;
                self.stack.push(p);
                assert(self@ =~= before.push(pv));
            }
        }
    }
}

/// What a removal is given up with: whatever fails, except that something is
/// gone already.
pub fn removal_fault(r: Result<(), FsError>) -> (e: Option<i64>)
    ensures
        e == match r {
            Ok(_) => None::<i64>,
            Err(FsError::NotFound) => None,
            Err(x) => Some(fs_errno(x)),
        },
{
    match r {
        Ok(_) => None,
        Err(FsError::NotFound) => None,
        Err(x) => Some(errno_fs(x)),
    }
}

// ── Laws ─────────────────────────────────────────────────────────────────────

/// Something from `from` on, on a stack, has this path.
pub open spec fn lies_from(stack: Seq<PendingView>, from: int, path: Seq<u8>) -> bool {
    exists|j: int| from <= j < stack.len() && (#[trigger] stack[j]).path == path
}

/// One of a directory's entries from `k` on has this path.
pub open spec fn among_entries(
    base: Seq<u8>,
    entries: Seq<DirEntryView>,
    k: int,
    path: Seq<u8>,
) -> bool {
    exists|i: int|
        k <= i < entries.len() && is_child(#[trigger] entries[i]) && path == joined_path(
            base,
            entries[i].name,
        )
}

/// A directory goes after everything in it: its entries all lie above it and
/// above whatever was below it, and nothing else was put there.
pub proof fn law_a_directory_goes_last(
    stack: Seq<PendingView>,
    base: Seq<u8>,
    entries: Seq<DirEntryView>,
    k: int,
)
    requires
        0 <= k <= entries.len(),
    ensures
        with_entries(stack, base, entries, k).len() >= stack.len(),
        forall|j: int|
            0 <= j < stack.len() ==> #[trigger] with_entries(stack, base, entries, k)[j]
                == stack[j],
        forall|i: int|
            k <= i < entries.len() && is_child(#[trigger] entries[i]) ==> lies_from(
                with_entries(stack, base, entries, k),
                stack.len() as int,
                joined_path(base, entries[i].name),
            ),
        forall|j: int|
            stack.len() <= j < with_entries(stack, base, entries, k).len() ==> among_entries(
                base,
                entries,
                k,
                (#[trigger] with_entries(stack, base, entries, k)[j]).path,
            ),
    decreases entries.len() - k,
{
    let after = with_entries(stack, base, entries, k);
    if k < entries.len() {
        law_a_directory_goes_last(stack, base, entries, k + 1);
        let rest = with_entries(stack, base, entries, k + 1);
        let n = stack.len() as int;
        assert(forall|j: int| 0 <= j < rest.len() ==> after[j] == #[trigger] rest[j]);
        assert forall|j: int| 0 <= j < n implies #[trigger] after[j] == stack[j] by {
            assert(rest[j] == stack[j]);
        }
        assert forall|i: int| k <= i < entries.len() && is_child(#[trigger] entries[i]) implies
            lies_from(after, n, joined_path(base, entries[i].name)) by {
            let path = joined_path(base, entries[i].name);
            if i == k {
                assert(after[after.len() - 1].path == path);
            } else {
                assert(lies_from(rest, n, path));
                let j = choose|j: int| n <= j < rest.len() && (#[trigger] rest[j]).path == path;
                assert(after[j].path == path);
            }
        }
        assert forall|j: int| n <= j < after.len() implies among_entries(
            base,
            entries,
            k,
            (#[trigger] after[j]).path,
        ) by {
            let path = after[j].path;
            if j < rest.len() {
                assert(rest[j].path == path);
                assert(among_entries(base, entries, k + 1, path));
                let i = choose|i: int|
                    k + 1 <= i < entries.len() && is_child(#[trigger] entries[i]) && path
                        == joined_path(base, entries[i].name);
                assert(is_child(entries[i]));
            } else {
                assert(is_child(entries[k]));
            }
        }
    }
}

/// A path without symlinks resolves to its components, each behind a slash.
pub proof fn law_plain_path_resolves_to_itself(w: WalkView, n: nat)
    requires
        0 <= w.next,
        w.next + n <= w.comps.len(),
    ensures
        walked(w, n).next == w.next + n,
        walked(w, n).hops == w.hops,
        walked(w, n).comps == w.comps,
        walked(w, n).resolved == with_rest(w.resolved, w.comps.take(w.next + n), w.next),
    decreases n,
{
    let upto = w.comps.take(w.next + n);
    if n > 0 {
        law_plain_path_resolves_to_itself(passed(w), (n - 1) as nat);
        assert(passed(w).comps.take(passed(w).next + (n - 1)) =~= upto);
        assert(upto[w.next] == w.comps[w.next]);
    }
}

/// The walk past `n` components that are no symlinks.
pub open spec fn walked(w: WalkView, n: nat) -> WalkView
    decreases n,
{
    if n == 0 {
        w
    } else {
        walked(passed(w), (n - 1) as nat)
    }
}

/// A file that is put at a descriptor is found there, and no other descriptor
/// changes; closing it makes the descriptor free again.
pub proof fn law_descriptors_are_kept_apart(v: VfsView, f: OpenView)
    requires
        v.ready,
        v.fds.len() == MAX_FDS,
        free_fd(v.fds, 0) < MAX_FDS,
    ensures
        ({
            let fd = free_fd(v.fds, 0) as u64;
            let v1 = with_file(v, fd, Some(f));
            &&& file_of(v, fd) == Err::<OpenView, i64>(EBADF)
            &&& file_of(v1, fd) == Ok::<OpenView, i64>(f)
            &&& forall|other: u64| other != fd ==> file_of(v1, other) == file_of(v, other)
            &&& with_file(v1, fd, None) == v
        }),
{
    lemma_free_fd(v.fds, 0);
    let fd = free_fd(v.fds, 0) as u64;
    assert(with_file(with_file(v, fd, Some(f)), fd, None).fds =~= v.fds);
}

/// A descriptor that was closed names no file any more: whatever is asked of it is
/// refused, and a write through it changes nothing. All others keep their file.
pub proof fn law_a_closed_file_is_refused(
    v: VfsView,
    fd: u64,
    sealed: bool,
    len: u32,
    present: bool,
    done: Result<(), FsError>,
    committed: Result<(), FsError>,
)
    requires
        v.fds.len() == MAX_FDS,
        file_of(v, fd) is Ok,
    ensures
        ({
            let after = with_file(v, fd, None);
            &&& file_of(after, fd) == Err::<OpenView, i64>(EBADF)
            &&& wrote(after, fd, sealed, len, present, done, committed) == (after, EBADF)
            &&& forall|other: u64|
                other != fd ==> #[trigger] file_of(after, other) == file_of(v, other)
        }),
{
}

proof fn lemma_free_fd(fds: Seq<Option<OpenView>>, k: int)
    requires
        0 <= k <= fds.len(),
    ensures
        k <= free_fd(fds, k) <= fds.len(),
        free_fd(fds, k) < fds.len() ==> fds[free_fd(fds, k)] is None,
    decreases fds.len() - k,
{
    if k < fds.len() && fds[k] is Some {
        lemma_free_fd(fds, k + 1);
    }
}

/// A file that was open for writing below a store entry when the entry was
/// renamed is below the name that is sealed: the seal reaches it.
pub proof fn law_the_seal_reaches_open_files(
    v: VfsView,
    fd: u64,
    mount: u64,
    old_top: Seq<u8>,
    name: Seq<u8>,
)
    requires
        file_of(v, fd) is Ok,
        file_of(v, fd)->Ok_0.mount == mount,
        file_of(v, fd)->Ok_0.top == Some(old_top),
    ensures
        ({
            let v1 = VfsView { fds: retargeted(v.fds, mount, old_top, name), ..v };
            file_of(v1, fd) is Ok && file_of(v1, fd)->Ok_0.top == Some(name)
        }),
{
}

/// Nothing is written into an entry once it is sealed, whatever descriptor was
/// open below it before: the write is refused and nothing changes.
pub proof fn law_sealed_content_is_not_written(
    v: VfsView,
    fd: u64,
    len: u32,
    present: bool,
    done: Result<(), FsError>,
    committed: Result<(), FsError>,
)
    requires
        file_of(v, fd) is Ok,
        file_of(v, fd)->Ok_0.writable,
        file_of(v, fd)->Ok_0.top is Some,
    ensures
        wrote(v, fd, true, len, present, done, committed) == (v, EROFS),
{
}

} // verus!
