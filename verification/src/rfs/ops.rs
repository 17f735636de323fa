//! The file system's operations: mounting, and files by path and descriptor.
//!
//! A result below zero is an error code.

use vstd::prelude::*;
use vstd::utf8::{encode_utf8, valid_utf8};
use crate::bytes::{get_u32, le32_at};
use crate::rfs::dir::{
    add_dir_entry, dir_entries, remove_dir_entry, DirEntry, NewEntry, FT_DIR, FT_REG,
};
use crate::rfs::disk::{read_at, Blocks, Disk};
use crate::rfs::file::{append_to_file, free_inode_blocks, is_read, wrap64};
use crate::rfs::inode::{
    free_inode, free_inode_from, write_inode, Extent, Inode, InodeView, INODE_DIR, INODE_USED,
};
use crate::rfs::path::{name_part, parent_part, resolve_path, split_parent, whole_file};
use crate::text::{is_utf8, same_bytes};

verus! {

pub const ENODEV: i64 = -1;
pub const EINVAL: i64 = -4;
pub const ENOENT: i64 = -5;
pub const EBADF: i64 = -6;
pub const EISDIR: i64 = -7;
pub const ENOTDIR: i64 = -8;
pub const ENOMNT: i64 = -9;
pub const EMFILE: i64 = -10;
pub const EEXIST: i64 = -11;
pub const ENOSPC: i64 = -12;

/// Descriptors that can be open at a time.
pub const MAX_FDS: usize = 64;

/// The largest file that is loaded as a whole.
pub const MAX_LOAD: u64 = 0x200_0000;

/// What a file's inode says of it.
#[derive(Clone, Copy, Debug, PartialEq, Eq, Structural)]
pub struct Stat {
    pub size: u64,
    pub flags: u32,
    pub mode: u16,
    pub uid: u32,
    pub gid: u32,
    pub nlink: u32,
    pub mtime: u64,
    pub ctime: u64,
}

impl Stat {
    pub open spec fn of(i: InodeView) -> Stat {
        Stat {
            size: i.size,
            flags: i.flags,
            mode: i.mode,
            uid: i.uid,
            gid: i.gid,
            nlink: i.nlink,
            mtime: i.mtime,
            ctime: i.ctime,
        }
    }

    pub fn from_inode(n: &Inode) -> (s: Stat)
        ensures
            s == Stat::of(n@),
    {
        Stat {
            size: n.size,
            flags: n.flags,
            mode: n.mode,
            uid: n.uid,
            gid: n.gid,
            nlink: n.nlink,
            mtime: n.mtime,
            ctime: n.ctime,
        }
    }
}

/// An open file.
#[derive(Clone, Copy)]
pub struct OpenFile {
    pub ino_num: u32,
    pub inode: Inode,
    pub offset: u64,
    pub writable: bool,
}

/// A file system on a device, with its open files.
pub struct Rfs {
    pub disk: Disk,
    pub mounted: bool,
    pub total_blocks: u32,
    pub fds: Vec<Option<OpenFile>>,
}

/// An open file as a mathematical value.
#[verifier::ext_equal]
pub struct FileView {
    pub ino_num: u32,
    pub inode: InodeView,
    pub offset: u64,
    pub writable: bool,
}

/// A file system as a mathematical value.
#[verifier::ext_equal]
pub struct FsView {
    pub disk: Blocks,
    pub mounted: bool,
    pub total_blocks: u32,
    pub fds: Seq<Option<FileView>>,
}

impl View for OpenFile {
    type V = FileView;

    open spec fn view(&self) -> FileView {
        FileView {
            ino_num: self.ino_num,
            inode: self.inode@,
            offset: self.offset,
            writable: self.writable,
        }
    }
}

pub open spec fn slot_view(f: Option<OpenFile>) -> Option<FileView> {
    match f {
        Some(x) => Some(x@),
        None => None,
    }
}

impl View for Rfs {
    type V = FsView;

    open spec fn view(&self) -> FsView {
        FsView {
            disk: self.disk@,
            mounted: self.mounted,
            total_blocks: self.total_blocks,
            fds: Seq::new(self.fds@.len(), |k: int| slot_view(self.fds@[k])),
        }
    }
}

impl Rfs {
    pub open spec fn wf(&self) -> bool {
        self.disk.wf() && self.fds@.len() == MAX_FDS
    }

    /// A file system that is not mounted yet.
    pub fn new(disk: Disk) -> (fs: Rfs)
        requires
            disk.wf(),
        ensures
            fs.wf(),
            fs.disk == disk,
            !fs.mounted,
            fs.total_blocks == 0,
            forall|k: int| 0 <= k < MAX_FDS ==> fs@.fds[k] is None,
    {
        let mut fds: Vec<Option<OpenFile>> = Vec::new();
        let mut k: usize = 0;
        while k < MAX_FDS
            invariant
                k <= MAX_FDS,
                fds@.len() == k,
                forall|j: int| 0 <= j < k ==> fds@[j] is None,
            decreases MAX_FDS - k,
        {
            fds.push(None);
            k += 1;
        }
        Rfs { disk, mounted: false, total_blocks: 0, fds }
    }
}

// ── Mounting ─────────────────────────────────────────────────────────────────

/// The superblock starts with the file system's name.
pub open spec fn has_magic(b: Seq<u8>) -> bool {
    b[0] == 0x52 && b[1] == 0x46 && b[2] == 0x53 && b[3] == 0x5F && b[4] == 0x56 && b[5] == 0x31
        && b[6] == 0 && b[7] == 0
}

/// Check the superblock and mount the file system.
pub fn init(fs: &mut Rfs) -> (ok: bool)
    requires
        old(fs).wf(),
    ensures
        final(fs).wf(),
        final(fs).disk == old(fs).disk,
        final(fs).fds == old(fs).fds,
        ok == (old(fs).disk.present && read_at(old(fs)@.disk, 0) is Some && has_magic(
            read_at(old(fs)@.disk, 0)->0,
        )),
        ok ==> final(fs).mounted && final(fs).total_blocks == le32_at(
            read_at(old(fs)@.disk, 0)->0,
            16,
        ),
        !ok ==> *final(fs) == *old(fs),
{
    if !fs.disk.present {
        return false;
    }
    let total: u32 = match fs.disk.read_block(0) {
        Some(b) => {
            if !(b[0] == 0x52 && b[1] == 0x46 && b[2] == 0x53 && b[3] == 0x5F && b[4] == 0x56
                && b[5] == 0x31 && b[6] == 0 && b[7] == 0) {
                return false;
            }
            get_u32(b, 16)
        },
        None => {
            return false;
        },
    };
    fs.mounted = true;
    fs.total_blocks = total;
    true
}

// ── Descriptors ──────────────────────────────────────────────────────────────

/// The first free descriptor from `k` on, or the number of descriptors.
pub open spec fn free_fd(fds: Seq<Option<FileView>>, k: int) -> int
    decreases fds.len() - k,
{
    if k >= fds.len() {
        fds.len() as int
    } else if fds[k] is None {
        k
    } else {
        free_fd(fds, k + 1)
    }
}

/// Open a file under the first free descriptor.
pub open spec fn with_file(fs: FsView, f: FileView) -> (FsView, i64) {
    let k = free_fd(fs.fds, 0);
    if k < fs.fds.len() {
        (FsView { fds: fs.fds.update(k, Some(f)), ..fs }, k as i64)
    } else {
        (fs, EMFILE)
    }
}

/// A descriptor is open.
pub open spec fn is_open(fs: FsView, fd: u64) -> bool {
    fd < MAX_FDS && fs.fds[fd as int] is Some
}

fn install(fs: &mut Rfs, f: OpenFile) -> (r: i64)
    requires
        old(fs).wf(),
    ensures
        final(fs).wf(),
        (final(fs)@, r) == with_file(old(fs)@, f@),
        final(fs).disk.present == old(fs).disk.present,
{
    let mut k: usize = 0;
    while k < MAX_FDS
        invariant
            fs.wf(),
            *fs == *old(fs),
            k <= MAX_FDS,
            free_fd(fs@.fds, 0) == free_fd(fs@.fds, k as int),
        decreases MAX_FDS - k,
    {
        assert(fs@.fds[k as int] == slot_view(fs.fds@[k as int]));
        if fs.fds[k].is_none() {
            fs.fds[k] = Some(f);
            assert(fs@.fds =~= old(fs)@.fds.update(k as int, Some(f@)));
            return k as i64;
        }
        k += 1;
    }
    EMFILE
}

// ── Opening and reading ──────────────────────────────────────────────────────

/// Open a file for reading.
pub open spec fn opened(fs: FsView, path: Seq<u8>) -> (FsView, i64) {
    if !fs.mounted {
        (fs, ENOMNT)
    } else if !valid_utf8(path) {
        (fs, EINVAL)
    } else {
        match resolve_path(fs.disk, path) {
            None => (fs, ENOENT),
            Some(n) => if n.1.is(INODE_DIR) {
                (fs, EISDIR)
            } else {
                with_file(
                    fs,
                    FileView { ino_num: n.0, inode: n.1, offset: 0, writable: false },
                )
            },
        }
    }
}

/// Open a regular file by path for reading.
pub fn open(fs: &mut Rfs, path: &[u8]) -> (r: i64)
    requires
        old(fs).wf(),
    ensures
        final(fs).wf(),
        final(fs).disk.present == old(fs).disk.present,
        (final(fs)@, r) == opened(old(fs)@, path@),
{
    if !fs.mounted {
        return ENOMNT;
    }
    if !is_utf8(path) {
        return EINVAL;
    }
    match fs.disk.resolve_bytes(path) {
        None => ENOENT,
        Some((ino_num, inode)) => {
            if inode.flags & INODE_DIR != 0 {
                return EISDIR;
            }
            install(fs, OpenFile { ino_num, inode, offset: 0, writable: false })
        },
    }
}

/// The outcome of a read from a descriptor: the bytes from its offset on are in
/// the buffer, as far as they fit, and the offset has moved behind them.
pub open spec fn was_read(
    fs: FsView,
    fd: u64,
    buf: Seq<u8>,
    after: FsView,
    out: Seq<u8>,
    r: i64,
) -> bool {
    if !fs.mounted {
        r == ENOMNT && after == fs && out == buf
    } else if !is_open(fs, fd) {
        r == EBADF && after == fs && out == buf
    } else {
        let f = fs.fds[fd as int]->0;
        &&& 0 <= r <= buf.len()
        &&& out.len() == buf.len()
        &&& is_read(fs.disk, f.inode, f.offset, buf.len() as int, out.take(r as int))
        &&& out.skip(r as int) == buf.skip(r as int)
        &&& after == FsView {
            fds: fs.fds.update(
                fd as int,
                Some(FileView { offset: wrap64(f.offset, r as u64), ..f }),
            ),
            ..fs
        }
    }
}

/// Read from a descriptor at its offset, and move the offset by what was read.
pub fn read(fs: &mut Rfs, fd: u64, buf: &mut [u8]) -> (r: i64)
    requires
        old(fs).wf(),
        old(buf)@.len() <= i64::MAX,
    ensures
        final(fs).wf(),
        final(fs).disk.present == old(fs).disk.present,
        was_read(old(fs)@, fd, old(buf)@, final(fs)@, final(buf)@, r),
{
    if !fs.mounted {
        return ENOMNT;
    }
    if fd >= MAX_FDS as u64 {
        return EBADF;
    }
    let k: usize = fd as usize;
    assert(fs@.fds[k as int] == slot_view(fs.fds@[k as int]));
    let f: OpenFile = match fs.fds[k] {
        Some(f) => f,
        None => {
            return EBADF;
        },
    };
    let n: usize = fs.disk.read_file_data(&f.inode, f.offset, buf);
    let moved = OpenFile { offset: f.offset.wrapping_add(n as u64), ..f };
    fs.fds[k] = Some(moved);
    assert(fs@.fds =~= old(fs)@.fds.update(fd as int, Some(moved@)));
    n as i64
}

/// Release a descriptor: that one alone, and only where it is open.
pub open spec fn closed(fs: FsView, fd: u64) -> (FsView, i64) {
    if is_open(fs, fd) {
        (FsView { fds: fs.fds.update(fd as int, None), ..fs }, 0)
    } else {
        (fs, EBADF)
    }
}

/// Release a descriptor.
pub fn close(fs: &mut Rfs, fd: u64) -> (r: i64)
    requires
        old(fs).wf(),
    ensures
        final(fs).wf(),
        final(fs).disk.present == old(fs).disk.present,
        (final(fs)@, r) == closed(old(fs)@, fd),
{
    if fd >= MAX_FDS as u64 {
        return EBADF;
    }
    let k: usize = fd as usize;
    assert(fs@.fds[k as int] == slot_view(fs.fds@[k as int]));
    if fs.fds[k].is_none() {
        return EBADF;
    }
    fs.fds[k] = None;
    assert(fs@.fds =~= old(fs)@.fds.update(fd as int, None));
    0
}

/// The inode that a path names on a mounted file system.
pub open spec fn node_at(fs: FsView, path: Seq<u8>) -> Option<InodeView> {
    if fs.mounted && valid_utf8(path) {
        match resolve_path(fs.disk, path) {
            Some(n) => Some(n.1),
            None => None,
        }
    } else {
        None
    }
}

/// Fill `out` with what the inode of a path says; tells whether there is one.
pub fn stat_path(fs: &Rfs, path: &[u8], out: &mut Stat) -> (ok: bool)
    requires
        fs.wf(),
    ensures
        match node_at(fs@, path@) {
            Some(i) => ok && *final(out) == Stat::of(i),
            None => !ok && *final(out) == *old(out),
        },
{
    if !fs.mounted || !is_utf8(path) {
        return false;
    }
    match fs.disk.resolve_bytes(path) {
        Some((_, inode)) => {
            *out = Stat::from_inode(&inode);
            true
        },
        None => false,
    }
}

/// The contents of a file that is loaded as a whole: one that is no directory,
/// is not empty and not larger than the limit, and can be read throughout.
pub open spec fn loaded(d: Blocks, path: Seq<u8>) -> Option<Seq<u8>> {
    match resolve_path(d, path) {
        None => None,
        Some(n) => if n.1.is(INODE_DIR) || n.1.size == 0 || n.1.size > MAX_LOAD {
            None
        } else {
            whole_file(d, n.1)
        },
    }
}

/// Read an entire file by path.
pub fn load_file(fs: &Rfs, path: &str) -> (r: Option<Vec<u8>>)
    requires
        fs.wf(),
    ensures
        match loaded(fs@.disk, encode_utf8(path@)) {
            Some(s) => r is Some && r->0@ == s,
            None => r is None,
        },
{
    match fs.disk.resolve_path(path) {
        None => None,
        Some((_, inode)) => {
            if inode.flags & INODE_DIR != 0 || inode.size == 0 || inode.size > MAX_LOAD {
                return None;
            }
            fs.disk.read_whole(&inode)
        },
    }
}

/// The entries of the directory that a path names.
pub fn readdir_path(fs: &Rfs, path: &[u8]) -> (r: Option<Vec<DirEntry>>)
    requires
        fs.wf(),
    ensures
        match node_at(fs@, path@) {
            None => r is None,
            Some(i) => if i.is(INODE_DIR) {
                &&& r is Some
                &&& r->0@.len() == dir_entries(fs@.disk, i).len()
                &&& forall|k: int|
                    0 <= k < r->0@.len() ==> (#[trigger] r->0@[k]).shows(
                        dir_entries(fs@.disk, i)[k],
                    )
            } else {
                r is None
            },
        },
{
    if !fs.mounted || !is_utf8(path) {
        return None;
    }
    match fs.disk.resolve_bytes(path) {
        None => None,
        Some((_, inode)) => {
            if inode.flags & INODE_DIR == 0 {
                return None;
            }
            Some(fs.disk.scan_dir(&inode))
        },
    }
}

// ── Writing ──────────────────────────────────────────────────────────────────

/// Append to an open writable file at time `now`. What reached the device
/// before a failure stays there; the open file is then as before.
pub open spec fn wrote(fs: FsView, fd: u64, data: Seq<u8>, now: u64) -> (FsView, i64) {
    if !fs.mounted {
        (fs, ENOMNT)
    } else if !is_open(fs, fd) || !(fs.fds[fd as int]->0).writable {
        (fs, EBADF)
    } else if data.len() == 0 {
        (fs, 0)
    } else {
        let f = fs.fds[fd as int]->0;
        let stamped = InodeView { mtime: now, ..f.inode };
        match append_to_file(fs.disk, f.ino_num, stamped, data, fs.total_blocks) {
            (d, _, false) => (FsView { disk: d, ..fs }, ENOSPC),
            (d, i, true) => (
                FsView {
                    disk: d,
                    fds: fs.fds.update(
                        fd as int,
                        Some(FileView { inode: i, offset: i.size, ..f }),
                    ),
                    ..fs
                },
                data.len() as i64,
            ),
        }
    }
}

/// Append `buf` to a file that was opened for writing.
pub fn write(fs: &mut Rfs, fd: u64, buf: &[u8], now: u64) -> (r: i64)
    requires
        old(fs).wf(),
        buf@.len() <= i64::MAX,
    ensures
        final(fs).wf(),
        final(fs).disk.present == old(fs).disk.present,
        (final(fs)@, r) == wrote(old(fs)@, fd, buf@, now),
{
    if !fs.mounted {
        return ENOMNT;
    }
    if fd >= MAX_FDS as u64 {
        return EBADF;
    }
    let k: usize = fd as usize;
    assert(fs@.fds[k as int] == slot_view(fs.fds@[k as int]));
    let f: OpenFile = match fs.fds[k] {
        Some(f) => f,
        None => {
            return EBADF;
        },
    };
    if !f.writable {
        return EBADF;
    }
    if buf.len() == 0 {
        return 0;
    }
    let mut inode: Inode = f.inode;
    inode.mtime = now;
    let total: u32 = fs.total_blocks;
    if !fs.disk.append_to_file(f.ino_num, &mut inode, buf, total) {
        assert(fs@.fds =~= old(fs)@.fds);
        return ENOSPC;
    }
    let grown = OpenFile { inode, offset: inode.size, ..f };
    fs.fds[k] = Some(grown);
    assert(fs@.fds =~= old(fs)@.fds.update(fd as int, Some(grown@)));
    buf.len() as i64
}

/// A new inode without contents.
pub open spec fn fresh_inode(flags: u32, mode: u16, now: u64) -> InodeView {
    let hole = Extent { logical: 0, physical: 0, count: 0, flags: 0 };
    InodeView {
        flags,
        mode,
        uid: 0,
        gid: 0,
        nlink: 1,
        size: 0,
        blocks: 0,
        mtime: now,
        ctime: now,
        ovfl_block: 0,
        extent_count: 0,
        extents: seq![hole, hole, hole, hole],
    }
}

fn make_inode(flags: u32, mode: u16, now: u64) -> (i: Inode)
    ensures
        i@ == fresh_inode(flags, mode, now),
{
    let hole = Extent { logical: 0, physical: 0, count: 0, flags: 0 };
    let i = Inode {
        flags,
        mode,
        uid: 0,
        gid: 0,
        nlink: 1,
        size: 0,
        blocks: 0,
        mtime: now,
        ctime: now,
        ovfl_block: 0,
        extent_count: 0,
        extents: [hole, hole, hole, hole],
    };
    assert(i@.extents =~= fresh_inode(flags, mode, now).extents);
    i
}

/// The directory into which a new path goes, or why nothing can be put there.
pub open spec fn new_place(fs: FsView, path: Seq<u8>) -> Result<u32, i64> {
    if !fs.mounted {
        Err(ENOMNT)
    } else if !valid_utf8(path) || path.len() == 0 {
        Err(EINVAL)
    } else if resolve_path(fs.disk, path) is Some {
        Err(EEXIST)
    } else if name_part(path).len() == 0 {
        Err(EINVAL)
    } else {
        match resolve_path(fs.disk, parent_part(path)) {
            None => Err(ENOENT),
            Some(n) => if n.1.is(INODE_DIR) {
                Ok(n.0)
            } else {
                Err(ENOTDIR)
            },
        }
    }
}

/// Store a new inode and enter it in a directory: the device afterwards, and
/// the inode's number where both succeeded.
pub open spec fn linked(
    d: Blocks,
    dir: u32,
    name: Seq<u8>,
    inode: InodeView,
    file_type: u8,
    total: u32,
) -> (Blocks, Option<u32>) {
    match free_inode_from(d, 0) {
        None => (d, None),
        Some(ino) => match write_inode(d, ino, inode) {
            (d1, false) => (d1, None),
            (d1, true) => match add_dir_entry(d1, dir, NewEntry { ino, name, file_type }, total) {
                (d2, true) => (d2, Some(ino)),
                (d2, false) => (free_inode(d2, ino).0, None),
            },
        },
    }
}

/// Create an empty regular file and open it for writing.
pub open spec fn created(fs: FsView, path: Seq<u8>, now: u64) -> (FsView, i64) {
    match new_place(fs, path) {
        Err(e) => (fs, e),
        Ok(dir) => {
            let inode = fresh_inode(INODE_USED, 0o644, now);
            match linked(fs.disk, dir, name_part(path), inode, FT_REG, fs.total_blocks) {
                (d, None) => (FsView { disk: d, ..fs }, ENOSPC),
                (d, Some(ino)) => with_file(
                    FsView { disk: d, ..fs },
                    FileView { ino_num: ino, inode, offset: 0, writable: true },
                ),
            }
        },
    }
}

/// Create an empty directory.
pub open spec fn made_dir(fs: FsView, path: Seq<u8>, now: u64) -> (FsView, i64) {
    match new_place(fs, path) {
        Err(e) => (fs, e),
        Ok(dir) => {
            let inode = fresh_inode(INODE_USED | INODE_DIR, 0o755, now);
            match linked(fs.disk, dir, name_part(path), inode, FT_DIR, fs.total_blocks) {
                (d, None) => (FsView { disk: d, ..fs }, ENOSPC),
                (d, Some(_)) => (FsView { disk: d, ..fs }, 0),
            }
        },
    }
}

fn find_place(fs: &Rfs, path: &[u8]) -> (r: Result<(u32, Vec<u8>), i64>)
    requires
        fs.wf(),
    ensures
        match new_place(fs@, path@) {
            Ok(dir) => r is Ok && (r->Ok_0).0 == dir && (r->Ok_0).1@ == name_part(path@),
            Err(e) => r is Err && r->Err_0 == e,
        },
{
    if !fs.mounted {
        return Err(ENOMNT);
    }
    if !is_utf8(path) || path.len() == 0 {
        return Err(EINVAL);
    }
    if fs.disk.resolve_bytes(path).is_some() {
        return Err(EEXIST);
    }
    let (parent, name) = split_parent(path);
    if name.len() == 0 {
        return Err(EINVAL);
    }
    match fs.disk.resolve_bytes(&parent) {
        None => Err(ENOENT),
        Some((ino, inode)) => {
            if inode.flags & INODE_DIR == 0 {
                Err(ENOTDIR)
            } else {
                Ok((ino, name))
            }
        },
    }
}

fn link_new(
    fs: &mut Rfs,
    dir: u32,
    name: &[u8],
    inode: &Inode,
    file_type: u8,
) -> (r: Option<u32>)
    requires
        old(fs).wf(),
    ensures
        final(fs).wf(),
        final(fs).disk.present == old(fs).disk.present,
        final(fs)@ == (FsView { disk: final(fs)@.disk, ..old(fs)@ }),
        (final(fs)@.disk, r) == linked(
            old(fs)@.disk,
            dir,
            name@,
            inode@,
            file_type,
            old(fs).total_blocks,
        ),
{
    let total: u32 = fs.total_blocks;
    let ino: u32 = match fs.disk.alloc_inode() {
        Some(i) => i,
        None => {
            return None;
        },
    };
    if !fs.disk.write_inode(ino, inode) {
        assert(fs@.fds =~= old(fs)@.fds);
        return None;
    }
    if !fs.disk.add_dir_entry(dir, ino, name, file_type, total) {
        let _freed = fs.disk.free_inode(ino);
        assert(fs@.fds =~= old(fs)@.fds);
        return None;
    }
    assert(fs@.fds =~= old(fs)@.fds);
    Some(ino)
}

/// Create a new empty regular file; the descriptor is open for writing.
pub fn create(fs: &mut Rfs, path: &[u8], now: u64) -> (r: i64)
    requires
        old(fs).wf(),
    ensures
        final(fs).wf(),
        final(fs).disk.present == old(fs).disk.present,
        (final(fs)@, r) == created(old(fs)@, path@, now),
{
    let (dir, name) = match find_place(fs, path) {
        Ok(p) => p,
        Err(e) => {
            return e;
        },
    };
    let inode: Inode = make_inode(INODE_USED, 0o644, now);
    match link_new(fs, dir, &name, &inode, FT_REG) {
        None => ENOSPC,
        Some(ino) => install(fs, OpenFile { ino_num: ino, inode, offset: 0, writable: true }),
    }
}

/// Create a directory; its parent must exist.
pub fn mkdir(fs: &mut Rfs, path: &[u8], now: u64) -> (r: i64)
    requires
        old(fs).wf(),
    ensures
        final(fs).wf(),
        final(fs).disk.present == old(fs).disk.present,
        (final(fs)@, r) == made_dir(old(fs)@, path@, now),
{
    let (dir, name) = match find_place(fs, path) {
        Ok(p) => p,
        Err(e) => {
            return e;
        },
    };
    let inode: Inode = make_inode(INODE_USED | INODE_DIR, 0o755, now);
    match link_new(fs, dir, &name, &inode, FT_DIR) {
        None => ENOSPC,
        Some(_) => 0,
    }
}

// ── Seeking ──────────────────────────────────────────────────────────────────

/// The signed number with the same bits.
pub open spec fn as_signed(x: u64) -> int {
    if x < 0x8000_0000_0000_0000 {
        x as int
    } else {
        x - 0x1_0000_0000_0000_0000
    }
}

/// A sum as signed machine arithmetic gives it.
pub open spec fn wrapped_signed(x: int) -> int {
    if x > i64::MAX {
        x - 0x1_0000_0000_0000_0000
    } else if x < i64::MIN {
        x + 0x1_0000_0000_0000_0000
    } else {
        x
    }
}

/// The offset that a seek asks for: from the start, from the current offset,
/// or from the end.
pub open spec fn seek_target(f: FileView, offset: i64, whence: u32) -> Option<int> {
    if whence == 0 {
        Some(offset as int)
    } else if whence == 1 {
        Some(wrapped_signed(as_signed(f.offset) + offset))
    } else if whence == 2 {
        Some(wrapped_signed(as_signed(f.inode.size) + offset))
    } else {
        None
    }
}

/// Move the offset of a descriptor: the state, and the new offset.
pub open spec fn sought(fs: FsView, fd: u64, offset: i64, whence: u32) -> (FsView, i64) {
    if !fs.mounted {
        (fs, ENOMNT)
    } else if !is_open(fs, fd) {
        (fs, EBADF)
    } else {
        let f = fs.fds[fd as int]->0;
        match seek_target(f, offset, whence) {
            Some(t) => if t < 0 {
                (fs, EINVAL)
            } else {
                (
                    FsView {
                        fds: fs.fds.update(fd as int, Some(FileView { offset: t as u64, ..f })),
                        ..fs
                    },
                    t as i64,
                )
            },
            None => (fs, EINVAL),
        }
    }
}

fn to_signed(x: u64) -> (r: i64)
    ensures
        r == as_signed(x),
{
    if x < 0x8000_0000_0000_0000 {
        x as i64
    } else {
        -((u64::MAX - x) as i64) - 1
    }
}

/// Move the offset of a descriptor; the result is the new offset.
pub fn seek(fs: &mut Rfs, fd: u64, offset: i64, whence: u32) -> (r: i64)
    requires
        old(fs).wf(),
    ensures
        final(fs).wf(),
        final(fs).disk.present == old(fs).disk.present,
        (final(fs)@, r) == sought(old(fs)@, fd, offset, whence),
{
    if !fs.mounted {
        return ENOMNT;
    }
    if fd >= MAX_FDS as u64 {
        return EBADF;
    }
    let k: usize = fd as usize;
    assert(fs@.fds[k as int] == slot_view(fs.fds@[k as int]));
    let f: OpenFile = match fs.fds[k] {
        Some(f) => f,
        None => {
            return EBADF;
        },
    };
    let target: i64 = match whence {
        0 => offset,
        1 => to_signed(f.offset).wrapping_add(offset),
        2 => to_signed(f.inode.size).wrapping_add(offset),
        _ => {
            return EINVAL;
        },
    };
    if target < 0 {
        return EINVAL;
    }
    let moved = OpenFile { offset: target as u64, ..f };
    fs.fds[k] = Some(moved);
    assert(fs@.fds =~= old(fs)@.fds.update(fd as int, Some(moved@)));
    target
}

// ── Renaming and removing ────────────────────────────────────────────────────

/// Enter the file under its new name, then remove the old entry; where that
/// fails the new entry is taken back.
pub open spec fn renamed(fs: FsView, from: Seq<u8>, to: Seq<u8>) -> (FsView, i64) {
    if !fs.mounted {
        (fs, ENOMNT)
    } else if !valid_utf8(from) || !valid_utf8(to) || from.len() == 0 || to.len() == 0 {
        (fs, EINVAL)
    } else {
        match resolve_path(fs.disk, from) {
            None => (fs, ENOENT),
            Some(n) => if n.1.is(INODE_DIR) {
                (fs, EISDIR)
            } else if resolve_path(fs.disk, to) is Some {
                (fs, EEXIST)
            } else if name_part(from).len() == 0 || name_part(to).len() == 0 {
                (fs, EINVAL)
            } else {
                match (
                    resolve_path(fs.disk, parent_part(from)),
                    resolve_path(fs.disk, parent_part(to)),
                ) {
                    (Some(a), Some(b)) => if !b.1.is(INODE_DIR) {
                        (fs, ENOTDIR)
                    } else {
                        moved_entry(fs, n.0, a.0, name_part(from), b.0, name_part(to))
                    },
                    _ => (fs, ENOENT),
                }
            },
        }
    }
}

/// Move an entry from one directory to another.
pub open spec fn moved_entry(
    fs: FsView,
    ino: u32,
    from_dir: u32,
    from: Seq<u8>,
    to_dir: u32,
    to: Seq<u8>,
) -> (FsView, i64) {
    let e = NewEntry { ino, name: to, file_type: FT_REG };
    match add_dir_entry(fs.disk, to_dir, e, fs.total_blocks) {
        (d1, false) => (FsView { disk: d1, ..fs }, ENOSPC),
        (d1, true) => match remove_dir_entry(d1, from_dir, from) {
            (d2, true) => (FsView { disk: d2, ..fs }, 0),
            (d2, false) => (FsView { disk: remove_dir_entry(d2, to_dir, to).0, ..fs }, ENOENT),
        },
    }
}

/// Rename or move a regular file.
pub fn rename(fs: &mut Rfs, old_path: &[u8], new_path: &[u8]) -> (r: i64)
    requires
        old(fs).wf(),
    ensures
        final(fs).wf(),
        final(fs).disk.present == old(fs).disk.present,
        (final(fs)@, r) == renamed(old(fs)@, old_path@, new_path@),
{
    if !fs.mounted {
        return ENOMNT;
    }
    if !is_utf8(old_path) || !is_utf8(new_path) || old_path.len() == 0 || new_path.len() == 0 {
        return EINVAL;
    }
    let ino: u32 = match fs.disk.resolve_bytes(old_path) {
        None => {
            return ENOENT;
        },
        Some((ino, inode)) => {
            if inode.flags & INODE_DIR != 0 {
                return EISDIR;
            }
            ino
        },
    };
    if fs.disk.resolve_bytes(new_path).is_some() {
        return EEXIST;
    }
    let (old_parent, old_name) = split_parent(old_path);
    let (new_parent, new_name) = split_parent(new_path);
    if old_name.len() == 0 || new_name.len() == 0 {
        return EINVAL;
    }
    let old_dir: u32 = match fs.disk.resolve_bytes(&old_parent) {
        None => {
            return ENOENT;
        },
        Some((ino, _)) => ino,
    };
    let new_dir: u32 = match fs.disk.resolve_bytes(&new_parent) {
        None => {
            return ENOENT;
        },
        Some((ino, inode)) => {
            if inode.flags & INODE_DIR == 0 {
                return ENOTDIR;
            }
            ino
        },
    };
    let total: u32 = fs.total_blocks;
    if !fs.disk.add_dir_entry(new_dir, ino, &new_name, FT_REG, total) {
        assert(fs@.fds =~= old(fs)@.fds);
        return ENOSPC;
    }
    if !fs.disk.remove_dir_entry(old_dir, &old_name) {
        let _undone = fs.disk.remove_dir_entry(new_dir, &new_name);
        assert(fs@.fds =~= old(fs)@.fds);
        return ENOENT;
    }
    assert(fs@.fds =~= old(fs)@.fds);
    0
}

/// A name that stands for a directory itself or its parent.
pub open spec fn is_dot_name(name: Seq<u8>) -> bool {
    name == seq![0x2Eu8] || name == seq![0x2Eu8, 0x2Eu8]
}

/// Remove a regular file: its entry, its blocks and its inode.
pub open spec fn unlinked(fs: FsView, path: Seq<u8>) -> (FsView, i64) {
    if !fs.mounted {
        (fs, ENOMNT)
    } else if !valid_utf8(path) || path.len() == 0 || name_part(path).len() == 0 || is_dot_name(
        name_part(path),
    ) {
        (fs, EINVAL)
    } else {
        match resolve_path(fs.disk, path) {
            None => (fs, ENOENT),
            Some(n) => if n.1.is(INODE_DIR) {
                (fs, EISDIR)
            } else {
                match resolve_path(fs.disk, parent_part(path)) {
                    None => (fs, ENOENT),
                    Some(dir) => match remove_dir_entry(fs.disk, dir.0, name_part(path)) {
                        (d1, false) => (FsView { disk: d1, ..fs }, ENOENT),
                        (d1, true) => (
                            FsView {
                                disk: free_inode(free_inode_blocks(d1, n.1), n.0).0,
                                ..fs
                            },
                            0,
                        ),
                    },
                }
            },
        }
    }
}

/// Delete the regular file at a path.
pub fn unlink(fs: &mut Rfs, path: &[u8]) -> (r: i64)
    requires
        old(fs).wf(),
    ensures
        final(fs).wf(),
        final(fs).disk.present == old(fs).disk.present,
        (final(fs)@, r) == unlinked(old(fs)@, path@),
{
    if !fs.mounted {
        return ENOMNT;
    }
    if !is_utf8(path) || path.len() == 0 {
        return EINVAL;
    }
    let (parent, name) = split_parent(path);
    let dot: [u8; 1] = [0x2E];
    let dots: [u8; 2] = [0x2E, 0x2E];
    assert(dot@ =~= seq![0x2Eu8]);
    assert(dots@ =~= seq![0x2Eu8, 0x2Eu8]);
    if name.len() == 0 || same_bytes(&name, dot.as_slice()) || same_bytes(&name, dots.as_slice()) {
        return EINVAL;
    }
    let (ino, inode) = match fs.disk.resolve_bytes(path) {
        None => {
            return ENOENT;
        },
        Some(n) => n,
    };
    if inode.flags & INODE_DIR != 0 {
        return EISDIR;
    }
    let dir: u32 = match fs.disk.resolve_bytes(&parent) {
        None => {
            return ENOENT;
        },
        Some((ino, _)) => ino,
    };
    if !fs.disk.remove_dir_entry(dir, &name) {
        assert(fs@.fds =~= old(fs)@.fds);
        return ENOENT;
    }
    fs.disk.free_inode_blocks(&inode);
    let _freed = fs.disk.free_inode(ino);
    assert(fs@.fds =~= old(fs)@.fds);
    0
}

} // verus!
