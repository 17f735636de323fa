//! What holds of reading, seeking and handing out, call by call.

use vstd::prelude::*;
use vstd::utf8::valid_utf8;
use crate::rfs::disk::{
    alloc_block, can_write, first_free, lemma_first_free, read_at, used, wf_blocks, written, Blocks,
    BITMAP_BLOCK, BLOCK_SIZE,
};
use crate::rfs::file::{
    append_to_file, block_for_append, chunk_len, covers, file_byte, place, resolve_block, wrap64,
};
use crate::rfs::dir::{block_entries, lookup_in_dir, EntryView, NewEntry};
use crate::rfs::inode::{
    free_inode_from, inode_at, inode_block, inode_extents, inode_offset, read_inode, Extent,
    InodeView,
};
use crate::rfs::ops::{
    created, free_fd, fresh_inode, is_open, loaded, made_dir, opened, renamed, sought, unlinked,
    was_read, wrote, FileView, FsView, Stat,
};
use crate::rfs::path::{components, name_part, resolve_path, symlink_target, walk};
use crate::bytes::{
    le16, le16_at, le32, le32_at, le64_at, lemma_le16_round, lemma_le32_round, splice,
};

verus! {

// ── Extents and bytes ────────────────────────────────────────────────────────

/// An extent maps as many logical blocks as it counts, from its first one on, each
/// to the block as far behind its first.
pub proof fn law_an_extent_maps_block_by_block(e: Extent, l: u32)
    requires
        e.logical + e.count <= u32::MAX,
        e.physical + e.count <= u32::MAX,
    ensures
        covers(e, l) == (e.logical <= l < e.logical + e.count),
        covers(e, l) ==> place(e, l) - e.physical == l - e.logical,
{
}

/// A byte that no block holds is 0, and one that a block holds is read from there:
/// the block of its position, at its place in the block.
pub proof fn law_a_byte_is_where_its_block_is(d: Blocks, i: InodeView, block: u32, at: u64, p: u32)
    requires
        at < 4096,
    ensures
        ({
            let pos = (block * 4096 + at) as u64;
            &&& resolve_block(d, i, block) is None ==> file_byte(d, i, pos) == Some(0u8)
            &&& resolve_block(d, i, block) == Some(p) && read_at(d, p) is Some ==> file_byte(
                d,
                i,
                pos,
            ) == Some(read_at(d, p)->0[at as int])
            &&& resolve_block(d, i, block) == Some(p) && read_at(d, p) is None ==> file_byte(
                d,
                i,
                pos,
            ) is None
        }),
{
    let pos = (block * 4096 + at) as u64;
    assert(pos / 4096 == block);
    assert(pos % 4096 == at);
}

// ── Descriptors ──────────────────────────────────────────────────────────────

/// A read gives all there is from the offset to the end of the file, as far as it
/// fits, byte for byte, and the next one goes on behind it. At the end, and beyond,
/// there is nothing. Nothing else changes.
pub proof fn law_a_read_gives_what_is_there(
    fs: FsView,
    fd: u64,
    buf: Seq<u8>,
    after: FsView,
    out: Seq<u8>,
    r: i64,
    k: int,
)
    requires
        fs.mounted,
        fs.fds.len() == 64,
        is_open(fs, fd),
        was_read(fs, fd, buf, after, out, r),
        forall|pos: u64| #[trigger] file_byte(fs.disk, fs.fds[fd as int]->0.inode, pos) is Some,
        fs.fds[fd as int]->0.offset + buf.len() <= u64::MAX,
    ensures
        ({
            let f = fs.fds[fd as int]->0;
            let left = f.inode.size - f.offset;
            &&& left <= 0 ==> r == 0
            &&& 0 < left <= buf.len() ==> r == left
            &&& left > buf.len() ==> r == buf.len()
            &&& 0 <= k < r ==> file_byte(fs.disk, f.inode, (f.offset + k) as u64) == Some(out[k])
            &&& r <= k < buf.len() ==> out[k] == buf[k]
            &&& out.len() == buf.len()
            &&& after.fds[fd as int] == Some(FileView { offset: (f.offset + r) as u64, ..f })
            &&& after == (FsView { fds: after.fds, ..fs })
            &&& 0 <= k < 64 && k != fd ==> after.fds[k] == fs.fds[k]
        }),
{
    let f = fs.fds[fd as int]->0;
    let got = out.take(r as int);
    assert(file_byte(fs.disk, f.inode, (f.offset + got.len()) as u64) is Some);
    if 0 <= k < r {
        assert(got[k] == out[k]);
    }
    if r <= k < buf.len() {
        assert(out.skip(r as int)[k - r] == buf.skip(r as int)[k - r]);
    }
}

/// A seek leads to so many bytes from the start, from the offset, or from the end of
/// the file, and nothing else changes; one before the start, or by another rule, is
/// refused.
pub proof fn law_a_seek_moves_the_offset(fs: FsView, fd: u64, offset: i64, whence: u32, k: int)
    requires
        fs.mounted,
        fs.fds.len() == 64,
        is_open(fs, fd),
        fs.fds[fd as int]->0.offset <= 0x3FFF_FFFF_FFFF_FFFF,
        fs.fds[fd as int]->0.inode.size <= 0x3FFF_FFFF_FFFF_FFFF,
        -0x3FFF_FFFF_FFFF_FFFF <= offset <= 0x3FFF_FFFF_FFFF_FFFF,
    ensures
        ({
            let f = fs.fds[fd as int]->0;
            let (after, r) = sought(fs, fd, offset, whence);
            let to = if whence == 0 {
                offset as int
            } else if whence == 1 {
                f.offset + offset
            } else {
                f.inode.size + offset
            };
            &&& whence <= 2 && to >= 0 ==> r == to && after == (FsView {
                fds: fs.fds.update(fd as int, Some(FileView { offset: to as u64, ..f })),
                ..fs
            })
            &&& whence > 2 || to < 0 ==> (after, r) == (fs, -4i64)
        }),
{
}

/// A file is opened under the lowest descriptor that is free, at its start, for
/// reading alone, with the inode that its path leads to. A path that leads nowhere or
/// to a directory is refused, and so is every file where no descriptor is free.
pub proof fn law_a_file_is_opened_by_its_path(fs: FsView, path: Seq<u8>, k: int)
    requires
        fs.mounted,
        fs.fds.len() == 64,
        valid_utf8(path),
    ensures
        ({
            let (after, r) = opened(fs, path);
            let n = resolve_path(fs.disk, path);
            let free = 0 <= k < 64 && fs.fds[k] is None && forall|j: int|
                0 <= j < k ==> (#[trigger] fs.fds[j]) is Some;
            &&& n is None ==> (after, r) == (fs, -5i64)
            &&& n is Some && (n->0).1.flags & 2 != 0 ==> r < 0 && after == fs
            &&& n is Some && (n->0).1.flags & 2 == 0 && free ==> {
                &&& r == k
                &&& after == (FsView {
                    fds: fs.fds.update(
                        k,
                        Some(
                            FileView {
                                ino_num: (n->0).0,
                                inode: (n->0).1,
                                offset: 0,
                                writable: false,
                            },
                        ),
                    ),
                    ..fs
                })
            }
            &&& n is Some && (n->0).1.flags & 2 == 0 && (forall|j: int|
                0 <= j < 64 ==> (#[trigger] fs.fds[j]) is Some) ==> (after, r) == (fs, -10i64)
        }),
{
    lemma_lowest_fd(fs.fds, 0, k);
}

proof fn lemma_lowest_fd(fds: Seq<Option<FileView>>, from: int, k: int)
    requires
        0 <= from <= fds.len(),
    ensures
        from <= k < fds.len() && fds[k] is None && (forall|j: int|
            0 <= j < k ==> (#[trigger] fds[j]) is Some) ==> free_fd(fds, from) == k,
        (forall|j: int| 0 <= j < fds.len() ==> (#[trigger] fds[j]) is Some) ==> free_fd(fds, from)
            == fds.len(),
    decreases fds.len() - from,
{
    if from < fds.len() && fds[from] is Some {
        lemma_lowest_fd(fds, from + 1, k);
    }
}

/// A file's attributes are those of its inode.
pub proof fn law_attributes_are_the_inodes(i: InodeView)
    ensures
        Stat::of(i).size == i.size,
        Stat::of(i).flags == i.flags,
        Stat::of(i).mode == i.mode,
        Stat::of(i).uid == i.uid,
        Stat::of(i).gid == i.gid,
        Stat::of(i).nlink == i.nlink,
        Stat::of(i).mtime == i.mtime,
        Stat::of(i).ctime == i.ctime,
{
}

// ── Handing out ──────────────────────────────────────────────────────────────

/// The block that is handed out is the lowest data block of the volume that is free,
/// and one is handed out whenever one is free and the bitmap takes it.
pub proof fn law_the_lowest_block_is_handed_out(d: Blocks, total: u32, q: int)
    requires
        wf_blocks(d),
        read_at(d, BITMAP_BLOCK) is Some,
        can_write(d, BITMAP_BLOCK),
        34 <= q < total,
        q < 32768,
        !used(read_at(d, BITMAP_BLOCK)->0, q),
    ensures
        alloc_block(d, total).1 is Some,
        34 <= alloc_block(d, total).1->0 <= q,
        !used(read_at(d, BITMAP_BLOCK)->0, alloc_block(d, total).1->0 as int),
        forall|p: int|
            34 <= p < alloc_block(d, total).1->0 ==> #[trigger] used(
                read_at(d, BITMAP_BLOCK)->0,
                p,
            ),
{
    let map = read_at(d, BITMAP_BLOCK)->0;
    let end = if total < 32768 {
        total as int
    } else {
        32768
    };
    lemma_first_free(map, 34, end);
    lemma_lowest_bit(map, 34, end, q);
}

proof fn lemma_lowest_bit(map: Seq<u8>, from: int, end: int, q: int)
    requires
        0 <= from <= q < end <= 32768,
        !used(map, q),
    ensures
        first_free(map, from, end) is Some,
        from <= first_free(map, from, end)->0 <= q,
        forall|p: int| from <= p < first_free(map, from, end)->0 ==> #[trigger] used(map, p),
    decreases q - from,
{
    if used(map, from) {
        lemma_lowest_bit(map, from + 1, end, q);
    }
}

/// The inode that is handed out is the lowest that is not in use, but never the
/// root's, and one is handed out whenever one is free and the table can be read.
pub proof fn law_the_lowest_inode_is_handed_out(d: Blocks, from: u32, n: u32)
    requires
        from <= n < 1024,
        n != 0,
        forall|o: u32| o <= n ==> (#[trigger] read_at(d, inode_block(o))) is Some,
        le32_at(read_at(d, inode_block(n))->0, inode_offset(n)) & 1 == 0,
    ensures
        free_inode_from(d, from) is Some,
        from <= free_inode_from(d, from)->0 <= n,
        free_inode_from(d, from)->0 != 0,
        forall|o: u32|
            from <= o < free_inode_from(d, from)->0 && o != 0 ==> #[trigger] le32_at(
                read_at(d, inode_block(o))->0,
                inode_offset(o),
            ) & 1 != 0,
    decreases n - from,
{
    assert(read_at(d, inode_block(from)) is Some);
    if from == 0 || le32_at(read_at(d, inode_block(from))->0, inode_offset(from)) & 1 != 0 {
        law_the_lowest_inode_is_handed_out(d, (from + 1) as u32, n);
    }
}

// ── Making, writing and loading ──────────────────────────────────────────────

/// What is made anew is in use, empty and linked once; it belongs to root, has the
/// flags and the mode that it is made with, and was changed and made now.
pub proof fn law_what_is_made_is_empty(flags: u32, mode: u16, now: u64)
    ensures
        ({
            let i = fresh_inode(flags, mode, now);
            &&& i.flags == flags
            &&& i.mode == mode
            &&& i.uid == 0
            &&& i.gid == 0
            &&& i.nlink == 1
            &&& i.size == 0
            &&& i.blocks == 0
            &&& i.mtime == now
            &&& i.ctime == now
            &&& i.ovfl_block == 0
            &&& i.extent_count == 0
            &&& i.extents.len() == 4
        }),
{
}

/// A file that is created is open for writing from its start, under the lowest
/// descriptor that was free, with an inode that says that it is a file whose owner
/// writes and all others read. No other descriptor changes.
pub proof fn law_a_created_file_is_open(fs: FsView, path: Seq<u8>, now: u64)
    requires
        fs.fds.len() == 64,
        created(fs, path, now).1 >= 0,
    ensures
        ({
            let (after, r) = created(fs, path, now);
            let f = after.fds[r as int]->0;
            &&& r < 64
            &&& fs.fds[r as int] is None
            &&& forall|j: int| 0 <= j < r ==> (#[trigger] fs.fds[j]) is Some
            &&& after.fds == fs.fds.update(r as int, Some(f))
            &&& after.mounted
            &&& after.total_blocks == fs.total_blocks
            &&& f.offset == 0
            &&& f.writable
            &&& f.inode.flags == 1
            &&& f.inode.mode == 0o644
            &&& f.inode.size == 0
            &&& f.inode.nlink == 1
            &&& f.inode.mtime == now
            &&& f.inode.ctime == now
        }),
{
    lemma_free_fd(fs.fds, 0);
}

proof fn lemma_free_fd(fds: Seq<Option<FileView>>, k: int)
    requires
        0 <= k <= fds.len(),
    ensures
        k <= free_fd(fds, k) <= fds.len(),
        free_fd(fds, k) < fds.len() ==> fds[free_fd(fds, k)] is None,
        forall|j: int| k <= j < free_fd(fds, k) ==> (#[trigger] fds[j]) is Some,
    decreases fds.len() - k,
{
    if k < fds.len() && fds[k] is Some {
        lemma_free_fd(fds, k + 1);
    }
}

/// A write through a descriptor notes when it was made, and leaves the file's kind,
/// mode, owner, links and making as they were; the answer is how much was written.
/// Where the volume is full, the descriptor stays as it was.
pub proof fn law_a_write_is_noted(fs: FsView, fd: u64, data: Seq<u8>, now: u64)
    requires
        fs.mounted,
        fs.fds.len() == 64,
        fd < 64,
        fs.fds[fd as int] is Some,
        fs.fds[fd as int]->0.writable,
        0 < data.len() <= i64::MAX,
    ensures
        ({
            let (after, r) = wrote(fs, fd, data, now);
            let f = fs.fds[fd as int]->0;
            let g = after.fds[fd as int]->0;
            &&& r == data.len() || r == -12
            &&& r == -12 ==> after.fds == fs.fds
            &&& r == data.len() ==> {
                &&& after.fds == fs.fds.update(fd as int, Some(g))
                &&& g.ino_num == f.ino_num
                &&& g.writable
                &&& g.offset == g.inode.size
                &&& g.inode.mtime == now
                &&& g.inode.ctime == f.inode.ctime
                &&& g.inode.flags == f.inode.flags
                &&& g.inode.mode == f.inode.mode
                &&& g.inode.uid == f.inode.uid
                &&& g.inode.gid == f.inode.gid
                &&& g.inode.nlink == f.inode.nlink
            }
            &&& after.mounted && after.total_blocks == fs.total_blocks
        }),
{
    let f = fs.fds[fd as int]->0;
    let stamped = InodeView { mtime: now, ..f.inode };
    lemma_append_keeps(fs.disk, f.ino_num, stamped, data, fs.total_blocks);
}

proof fn lemma_append_keeps(d: Blocks, ino: u32, i: InodeView, data: Seq<u8>, total: u32)
    ensures
        ({
            let j = append_to_file(d, ino, i, data, total).1;
            &&& j.mtime == i.mtime
            &&& j.ctime == i.ctime
            &&& j.flags == i.flags
            &&& j.mode == i.mode
            &&& j.uid == i.uid
            &&& j.gid == i.gid
            &&& j.nlink == i.nlink
        }),
    decreases data.len(),
{
    if data.len() > 0 {
        let (d1, i1, b) = block_for_append(d, i, total);
        if b is Some && read_at(d1, b->0) is Some && can_write(d1, b->0) {
            let p = b->0;
            let n = chunk_len(i1.size, data.len() as int);
            let b1 = splice(
                read_at(d1, p)->0,
                (i1.size % BLOCK_SIZE as u64) as int,
                data.take(n),
            );
            let i2 = InodeView { size: wrap64(i1.size, n as u64), ..i1 };
            assert(data.skip(n).len() < data.len());
            lemma_append_keeps(written(d1, p, b1), ino, i2, data.skip(n), total);
        }
    }
}

/// Without a mounted volume every call is refused as such; a descriptor that is not
/// open for writing is not written to, and what is empty is written without effect.
pub proof fn law_what_a_volume_refuses(
    fs: FsView,
    fd: u64,
    path: Seq<u8>,
    to: Seq<u8>,
    data: Seq<u8>,
    now: u64,
)
    requires
        fs.fds.len() == 64,
    ensures
        !fs.mounted ==> {
            &&& opened(fs, path) == (fs, -9i64)
            &&& created(fs, path, now) == (fs, -9i64)
            &&& made_dir(fs, path, now) == (fs, -9i64)
            &&& unlinked(fs, path) == (fs, -9i64)
            &&& renamed(fs, path, to) == (fs, -9i64)
            &&& wrote(fs, fd, data, now) == (fs, -9i64)
        },
        fs.mounted && (path.len() == 0 || !valid_utf8(path)) ==> {
            &&& created(fs, path, now) == (fs, -4i64)
            &&& made_dir(fs, path, now) == (fs, -4i64)
            &&& unlinked(fs, path) == (fs, -4i64)
            &&& renamed(fs, path, to) == (fs, -4i64)
            &&& renamed(fs, to, path) == (fs, -4i64)
        },
        fs.mounted && (fd >= 64 || fs.fds[fd as int] is None || !fs.fds[fd as int]->0.writable)
            ==> wrote(fs, fd, data, now) == (fs, -6i64),
        fs.mounted && fd < 64 && fs.fds[fd as int] is Some && fs.fds[fd as int]->0.writable
            && data.len() == 0 ==> wrote(fs, fd, data, now) == (fs, 0i64),
{
}

/// Nothing is renamed that is not there or is a directory, and nothing onto a path
/// that leads somewhere; nothing is unlinked that is not there or is a directory. The
/// volume stays as it was.
pub proof fn law_what_cannot_be_renamed_or_unlinked(fs: FsView, from: Seq<u8>, to: Seq<u8>)
    requires
        fs.mounted,
        valid_utf8(from),
        valid_utf8(to),
        from.len() > 0,
        to.len() > 0,
    ensures
        ({
            let n = resolve_path(fs.disk, from);
            &&& n is None ==> renamed(fs, from, to) == (fs, -5i64)
            &&& n is Some && (n->0).1.flags & 2 != 0 ==> renamed(fs, from, to) == (fs, -7i64)
            &&& n is Some && (n->0).1.flags & 2 == 0 && resolve_path(fs.disk, to) is Some
                ==> renamed(fs, from, to) == (fs, -11i64)
            &&& name_part(from).len() > 0 && name_part(from) != seq![0x2Eu8] && name_part(from)
                != seq![0x2Eu8, 0x2Eu8] ==> {
                &&& n is None ==> unlinked(fs, from) == (fs, -5i64)
                &&& n is Some && (n->0).1.flags & 2 != 0 ==> unlinked(fs, from) == (fs, -7i64)
            }
            &&& name_part(from).len() == 0 || name_part(from) == seq![0x2Eu8] || name_part(from)
                == seq![0x2Eu8, 0x2Eu8] ==> unlinked(fs, from) == (fs, -4i64)
        }),
{
}

/// A file of at most 32 MiB is loaded whole: as long as it is, byte by byte what is
/// read there. A directory and an empty file are not loaded.
pub proof fn law_a_file_is_loaded_byte_by_byte(d: Blocks, path: Seq<u8>, k: int)
    requires
        resolve_path(d, path) is Some,
    ensures
        ({
            let i = (resolve_path(d, path)->0).1;
            let whole = loaded(d, path);
            let readable = forall|j: int|
                0 <= j < i.size ==> #[trigger] file_byte(d, i, j as u64) is Some;
            &&& i.flags & 2 != 0 || i.size == 0 || i.size > 33_554_432 ==> whole is None
            &&& i.flags & 2 == 0 && 0 < i.size <= 33_554_432 && readable ==> {
                &&& whole is Some
                &&& whole->0.len() == i.size
                &&& 0 <= k < i.size ==> Some(whole->0[k]) == file_byte(d, i, k as u64)
            }
        }),
{
}

// ── On disk ──────────────────────────────────────────────────────────────────

/// Where on a volume an inode lies: 32 of them to a block of 4096 bytes, from the third
/// block on.
pub proof fn law_where_an_inode_lies(ino: u32)
    requires
        ino < 1024,
    ensures
        (inode_block(ino) - 2) * 4096 + inode_offset(ino) == ino * 128,
        0 <= inode_offset(ino) <= 4096 - 128,
{
}

/// What an inode says, it says in its place, and so do its extents.
pub proof fn law_an_inode_is_read_in_its_places(b: Seq<u8>, at: int, k: int)
    requires
        0 <= k < 4,
    ensures
        ({
            let i = inode_at(b, at);
            let e = i.extents[k];
            &&& i.flags == le32_at(b, at)
            &&& i.mode == le16_at(b, at + 4)
            &&& i.uid == le32_at(b, at + 8)
            &&& i.gid == le32_at(b, at + 12)
            &&& i.nlink == le32_at(b, at + 16)
            &&& i.size == le64_at(b, at + 20)
            &&& i.blocks == le64_at(b, at + 28)
            &&& i.mtime == le64_at(b, at + 36)
            &&& i.ctime == le64_at(b, at + 44)
            &&& i.ovfl_block == le32_at(b, at + 52)
            &&& i.extent_count == le16_at(b, at + 56)
            &&& e.logical == le32_at(b, at + 60 + 16 * k)
            &&& e.physical == le32_at(b, at + 64 + 16 * k)
            &&& e.count == le32_at(b, at + 68 + 16 * k)
            &&& e.flags == le32_at(b, at + 72 + 16 * k)
        }),
{
    reveal(inode_at);
}

/// An entry of a directory says in its places whose it is, how long its record is, how
/// long its name is, what it is, and its name; a record is a multiple of four bytes long
/// and has room for all of that.
pub proof fn law_an_entry_is_written_in_its_places(e: NewEntry, rec: u16)
    requires
        e.name.len() <= 255,
    ensures
        ({
            let b = e.bytes(rec);
            &&& b.len() == 8 + e.name.len()
            &&& le32_at(b, 0) == e.ino
            &&& le16_at(b, 4) == rec
            &&& b[6] == e.name.len()
            &&& b[7] == e.file_type
            &&& b.subrange(8, b.len() as int) == e.name
        }),
        e.rec() % 4 == 0,
        8 + e.name.len() <= e.rec() < 8 + e.name.len() + 4,
{
    let b = e.bytes(rec);
    assert(b.subrange(0, 4) =~= le32(e.ino));
    lemma_le32_round(b, 0, e.ino);
    assert(b.subrange(4, 6) =~= le16(rec));
    lemma_le16_round(b, 4, rec);
    assert(b.subrange(8, b.len() as int) =~= e.name);
}

/// What stands in a record of a directory is an entry where it names an inode and its
/// name is text that is not empty and lies in the block.
pub proof fn law_an_entry_is_read_in_its_places(b: Seq<u8>, pos: int, limit: int)
    requires
        b.len() == 4096,
        0 <= pos,
        pos + 8 <= limit <= 4096,
        le16_at(b, pos + 4) > 0,
    ensures
        ({
            let len = b[pos + 6] as int;
            let rest = block_entries(b, pos + le16_at(b, pos + 4), limit);
            let name = b.subrange(pos + 8, pos + 8 + len);
            &&& le32_at(b, pos) != 0 && len > 0 && pos + 8 + len <= 4096 && valid_utf8(name)
                ==> block_entries(b, pos, limit) == seq![
                EntryView { ino: le32_at(b, pos), file_type: b[pos + 7], name },
            ] + rest
            &&& le32_at(b, pos) == 0 || len == 0 || pos + 8 + len > 4096 || !valid_utf8(name)
                ==> block_entries(b, pos, limit) == rest
        }),
{
}

/// The target of a short symlink is kept in the inode, and that of another one is what
/// the file holds.
pub proof fn law_where_the_target_of_a_symlink_is(d: Blocks, i: InodeView)
    requires
        i.extents.len() == 4,
    ensures
        i.flags & 8 != 0 && i.size <= 64 ==> {
            let t = symlink_target(d, i);
            &&& t is Some
            &&& t->0.len() == i.size
            &&& t->0 == inode_extents(i).subrange(0, i.size as int)
        },
        i.flags & 8 == 0 && (forall|j: int|
            0 <= j < i.size ==> #[trigger] file_byte(d, i, j as u64) is Some) ==> {
            let t = symlink_target(d, i);
            &&& t is Some
            &&& t->0.len() == i.size
            &&& forall|j: int|
                0 <= j < i.size ==> Some(#[trigger] t->0[j]) == file_byte(d, i, j as u64)
        },
{
    assert(inode_extents(i).len() == 64);
}

/// A path goes on behind a symlink as if its target stood in its place: from the root
/// where the target starts there, else from the directory that holds it. More than eight
/// symlinks lead nowhere.
pub proof fn law_a_path_goes_on_behind_a_symlink(
    d: Blocks,
    ino: u32,
    dir: InodeView,
    comps: Seq<Seq<u8>>,
    hops: int,
    n: u32,
    link: InodeView,
    target: Seq<u8>,
    root: InodeView,
)
    requires
        comps.len() > 0,
        dir.flags & 2 != 0,
        lookup_in_dir(d, dir, comps[0]) == Some(n),
        read_inode(d, n) == Some(link),
        link.flags & 4 != 0,
        symlink_target(d, link) == Some(target),
        target.len() > 0,
        valid_utf8(target),
        0 <= hops,
        read_inode(d, 0) == Some(root),
        read_inode(d, ino) == Some(dir),
    ensures
        ({
            let rest = components(target) + comps.subrange(1, comps.len() as int);
            &&& hops < 8 && target[0] == 0x2F ==> walk(d, ino, dir, comps, hops) == walk(
                d,
                0,
                root,
                rest,
                hops + 1,
            )
            &&& hops < 8 && target[0] != 0x2F ==> walk(d, ino, dir, comps, hops) == walk(
                d,
                ino,
                dir,
                rest,
                hops + 1,
            )
            &&& hops >= 8 ==> walk(d, ino, dir, comps, hops) is None
        }),
{
    assert(comps.drop_first() =~= comps.subrange(1, comps.len() as int));
}

} // verus!
