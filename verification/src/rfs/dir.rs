//! Directories: reading, adding and removing entries.

use vstd::prelude::*;
use vstd::utf8::{decode_utf8, valid_utf8};
use crate::bytes::{
    copy_range, get_u16, get_u32, le16, le16_at, le32, le32_at, put_bytes, put_u16, put_u32, splice,
    zero_bytes, zeros,
};
use crate::rfs::dirlaws::{entry_of, findable, joined, law_added_entry_joins_the_others, sound_dir};
use crate::rfs::disk::{
    alloc_block, can_write, free_block, read_at, written, Blocks, Disk, BLOCK_SIZE,
};
use crate::rfs::file::{
    add_extent, block_count, count_blocks, logical_of, one_block, resolve_block, wrap64,
};
use crate::rfs::inode::{read_inode, write_inode, Extent, Inode, InodeView};
use crate::text::{is_utf8, same_bytes, utf8_str};

verus! {

pub const FT_REG: u8 = 1;
pub const FT_DIR: u8 = 2;
pub const FT_SYMLINK: u8 = 3;

/// Bytes of a directory entry before its name.
pub const DIRENT_HDR: usize = 8;

/// A directory entry.
pub struct DirEntry {
    pub ino: u32,
    pub file_type: u8,
    pub name: String,
}

/// A directory entry as a mathematical value; the name is its bytes.
#[verifier::ext_equal]
pub struct EntryView {
    pub ino: u32,
    pub file_type: u8,
    pub name: Seq<u8>,
}

struct RawEntry {
    ino: u32,
    file_type: u8,
    name: Vec<u8>,
}

impl View for RawEntry {
    type V = EntryView;

    closed spec fn view(&self) -> EntryView {
        EntryView { ino: self.ino, file_type: self.file_type, name: self.name@ }
    }
}

impl DirEntry {
    /// The entry says what `e` says.
    pub open spec fn shows(&self, e: EntryView) -> bool {
        &&& self.ino == e.ino
        &&& self.file_type == e.file_type
        &&& self.name@ == decode_utf8(e.name)
    }
}

// ── Entries of a block ───────────────────────────────────────────────────────

/// Length of the record at `pos`.
pub open spec fn rec_len(b: Seq<u8>, pos: int) -> u16 {
    le16_at(b, pos + 4)
}

/// The name of the record at `pos`.
pub open spec fn rec_name(b: Seq<u8>, pos: int) -> Seq<u8> {
    b.subrange(pos + DIRENT_HDR, pos + DIRENT_HDR + b[pos + 6])
}

/// The record's name lies within its block.
pub open spec fn name_fits(b: Seq<u8>, pos: int) -> bool {
    pos + DIRENT_HDR + b[pos + 6] <= BLOCK_SIZE
}

/// The record at `pos` is an entry: in use, and with a name that is text.
pub open spec fn is_entry(b: Seq<u8>, pos: int) -> bool {
    le32_at(b, pos) != 0 && b[pos + 6] > 0 && name_fits(b, pos) && valid_utf8(rec_name(b, pos))
}

/// The bytes left before `limit`.
pub open spec fn left(pos: int, limit: int) -> int {
    if pos < limit {
        limit - pos
    } else {
        0
    }
}

/// The entries of a block from `pos` on, of which `limit` bytes are in use. A
/// record of length 0 ends the block.
pub open spec fn block_entries(b: Seq<u8>, pos: int, limit: int) -> Seq<EntryView>
    decreases left(pos, limit),
{
    if pos + DIRENT_HDR > limit || rec_len(b, pos) == 0 {
        seq![]
    } else {
        let rest = block_entries(b, pos + rec_len(b, pos), limit);
        if is_entry(b, pos) {
            seq![
                EntryView {
                    ino: le32_at(b, pos),
                    file_type: b[pos + 7],
                    name: rec_name(b, pos),
                },
            ] + rest
        } else {
            rest
        }
    }
}

/// The bytes in use of logical block `l` of a directory of this size.
pub open spec fn scan_limit(size: u64, l: int) -> int {
    if (l + 1) * BLOCK_SIZE > size && size % BLOCK_SIZE as u64 != 0 {
        (size % BLOCK_SIZE as u64) as int
    } else {
        BLOCK_SIZE as int
    }
}

/// The entries of a directory from logical block `l` on; a block that is a
/// hole or cannot be read is passed over.
pub open spec fn entries_from(d: Blocks, i: InodeView, l: int, n: int) -> Seq<EntryView>
    decreases n - l,
{
    if l >= n {
        seq![]
    } else {
        let rest = entries_from(d, i, l + 1, n);
        match resolve_block(d, i, l as u32) {
            None => rest,
            Some(p) => match read_at(d, p) {
                None => rest,
                Some(b) => block_entries(b, 0, scan_limit(i.size, l)) + rest,
            },
        }
    }
}

/// All entries of a directory.
pub open spec fn dir_entries(d: Blocks, i: InodeView) -> Seq<EntryView> {
    entries_from(d, i, 0, block_count(i.size) as int)
}

/// The inode of the first entry from `k` on with this name.
pub open spec fn lookup_from(es: Seq<EntryView>, k: int, name: Seq<u8>) -> Option<u32>
    decreases es.len() - k,
{
    if k >= es.len() {
        None
    } else if es[k].name == name {
        Some(es[k].ino)
    } else {
        lookup_from(es, k + 1, name)
    }
}

/// The inode that a directory has under a name.
pub open spec fn lookup_in_dir(d: Blocks, i: InodeView, name: Seq<u8>) -> Option<u32> {
    lookup_from(dir_entries(d, i), 0, name)
}

spec fn views(v: Seq<RawEntry>) -> Seq<EntryView> {
    Seq::new(v.len(), |k: int| v[k]@)
}

/// Append the entries of one block to `out`.
fn scan_block(b: &Vec<u8>, limit: usize, out: &mut Vec<RawEntry>)
    requires
        b.len() == BLOCK_SIZE,
        limit <= BLOCK_SIZE,
    ensures
        views(final(out)@) == views(old(out)@) + block_entries(b@, 0, limit as int),
{
    let ghost goal = views(out@) + block_entries(b@, 0, limit as int);
    let mut pos: usize = 0;
    while pos + DIRENT_HDR <= limit
        invariant
            b.len() == BLOCK_SIZE,
            limit <= BLOCK_SIZE,
            pos <= limit + 0x1_0000,
            goal == views(old(out)@) + block_entries(b@, 0, limit as int),
            goal == views(out@) + block_entries(b@, pos as int, limit as int),
        decreases limit + 0x1_0000 - pos,
    {
        let ino: u32 = get_u32(b, pos);
        let rec: usize = get_u16(b, pos + 4) as usize;
        let name_len: usize = b[pos + 6] as usize;
        let file_type: u8 = b[pos + 7];
        if rec == 0 {
            assert(goal =~= views(out@));
            return;
        }
        let ghost rest = block_entries(b@, pos + rec, limit as int);
        let ghost before = views(out@);
        if ino != 0 && name_len > 0 && pos + DIRENT_HDR + name_len <= BLOCK_SIZE {
            let name: Vec<u8> = copy_range(b, pos + DIRENT_HDR, pos + DIRENT_HDR + name_len);
            if is_utf8(&name) {
                let e = RawEntry { ino, file_type, name };
                let ghost ev = e@;
                out.push(e);
                assert(views(out@) =~= before.push(ev));
                assert(before + (seq![ev] + rest) =~= before.push(ev) + rest);
            }
        }
        pos += rec;
    }
    assert(goal =~= views(out@));
}

impl Disk {
    fn scan_raw(&self, inode: &Inode) -> (out: Vec<RawEntry>)
        requires
            self.wf(),
        ensures
            views(out@) == dir_entries(self@, inode@),
    {
        let mut out: Vec<RawEntry> = Vec::new();
        let n: u32 = count_blocks(inode.size);
        let size: u64 = inode.size;
        let ghost goal = dir_entries(self@, inode@);
        assert(views(out@) + goal =~= goal);
        let mut l: u32 = 0;
        while l < n
            invariant
                self.wf(),
                size == inode.size,
                n == block_count(size),
                l <= n,
                goal == dir_entries(self@, inode@),
                goal == views(out@) + entries_from(self@, inode@, l as int, n as int),
            decreases n - l,
        {
            let ghost before = views(out@);
            let ghost rest = entries_from(self@, inode@, l + 1, n as int);
            if let Some(p) = self.resolve_block(inode, l) {
                if let Some(b) = self.read_block(p) {
                    let tail: usize = (size % BLOCK_SIZE as u64) as usize;
                    let limit: usize = if (l as u64 + 1) * BLOCK_SIZE as u64 > size && tail != 0 {
                        tail
                    } else {
                        BLOCK_SIZE
                    };
                    scan_block(b, limit, &mut out);
                    let ghost mid = block_entries(b@, 0, limit as int);
                    assert(before + (mid + rest) =~= (before + mid) + rest);
                }
            }
            l += 1;
        }
        assert(views(out@) =~= goal);
        out
    }

    /// All entries of a directory, `.` and `..` among them where they exist.
    pub fn scan_dir(&self, inode: &Inode) -> (out: Vec<DirEntry>)
        requires
            self.wf(),
        ensures
            out@.len() == dir_entries(self@, inode@).len(),
            forall|k: int|
                0 <= k < out@.len() ==> (#[trigger] out@[k]).shows(dir_entries(self@, inode@)[k]),
    {
        let raw: Vec<RawEntry> = self.scan_raw(inode);
        let ghost es = dir_entries(self@, inode@);
        proof {
            lemma_entries_are_text(self@, inode@, 0, block_count(inode.size) as int);
        }
        let mut out: Vec<DirEntry> = Vec::new();
        let mut k: usize = 0;
        while k < raw.len()
            invariant
                k <= raw.len(),
                views(raw@) == es,
                out@.len() == k,
                forall|j: int| 0 <= j < es.len() ==> valid_utf8((#[trigger] es[j]).name),
                forall|j: int| 0 <= j < k ==> (#[trigger] out@[j]).shows(es[j]),
            decreases raw.len() - k,
        {
            assert(es[k as int] == raw@[k as int]@);
            if let Some(s) = utf8_str(&raw[k].name) {
                out.push(
                    DirEntry { ino: raw[k].ino, file_type: raw[k].file_type, name: s.to_owned() },
                );
            }
            k += 1;
        }
        out
    }

    /// The inode that a directory has under a name.
    pub fn lookup_in_dir(&self, inode: &Inode, name: &[u8]) -> (r: Option<u32>)
        requires
            self.wf(),
        ensures
            r == lookup_in_dir(self@, inode@, name@),
    {
        let raw: Vec<RawEntry> = self.scan_raw(inode);
        let ghost es = dir_entries(self@, inode@);
        let mut k: usize = 0;
        while k < raw.len()
            invariant
                k <= raw.len(),
                views(raw@) == es,
                es == dir_entries(self@, inode@),
                lookup_from(es, 0, name@) == lookup_from(es, k as int, name@),
            decreases raw.len() - k,
        {
            assert(es[k as int] == raw@[k as int]@);
            if same_bytes(&raw[k].name, name) {
                return Some(raw[k].ino);
            }
            k += 1;
        }
        None
    }
}

proof fn lemma_block_entries_are_text(b: Seq<u8>, pos: int, limit: int)
    ensures
        forall|k: int|
            0 <= k < block_entries(b, pos, limit).len() ==> valid_utf8(
                (#[trigger] block_entries(b, pos, limit)[k]).name,
            ),
    decreases left(pos, limit),
{
    if !(pos + DIRENT_HDR > limit || rec_len(b, pos) == 0) {
        lemma_block_entries_are_text(b, pos + rec_len(b, pos), limit);
        let all = block_entries(b, pos, limit);
        let rest = block_entries(b, pos + rec_len(b, pos), limit);
        assert forall|k: int| 0 <= k < all.len() implies valid_utf8((#[trigger] all[k]).name) by {
            if is_entry(b, pos) {
                if k > 0 {
                    assert(all[k] == rest[k - 1]);
                }
            } else {
                assert(all[k] == rest[k]);
            }
        }
    }
}

proof fn lemma_entries_are_text(d: Blocks, i: InodeView, l: int, n: int)
    ensures
        forall|k: int|
            0 <= k < entries_from(d, i, l, n).len() ==> valid_utf8(
                (#[trigger] entries_from(d, i, l, n)[k]).name,
            ),
    decreases n - l,
{
    if l < n {
        lemma_entries_are_text(d, i, l + 1, n);
        let all = entries_from(d, i, l, n);
        let rest = entries_from(d, i, l + 1, n);
        if let Some(p) = resolve_block(d, i, l as u32) {
            if let Some(b) = read_at(d, p) {
                lemma_block_entries_are_text(b, 0, scan_limit(i.size, l));
                let here = block_entries(b, 0, scan_limit(i.size, l));
                assert forall|k: int| 0 <= k < all.len() implies valid_utf8(
                    (#[trigger] all[k]).name,
                ) by {
                    if k < here.len() {
                        assert(all[k] == here[k]);
                    } else {
                        assert(all[k] == rest[k - here.len()]);
                    }
                }
            }
        }
    }
}

// ── Adding an entry ──────────────────────────────────────────────────────────

/// An entry to be added.
#[verifier::ext_equal]
pub struct NewEntry {
    pub ino: u32,
    pub name: Seq<u8>,
    pub file_type: u8,
}

impl NewEntry {
    /// Length of the entry's record: header and name, rounded up to 4 bytes.
    pub open spec fn rec(self) -> u16 {
        ((DIRENT_HDR + self.name.len() + 3) / 4 * 4) as u16
    }

    /// The bytes that are written of a record of length `rec`.
    pub open spec fn bytes(self, rec: u16) -> Seq<u8> {
        le32(self.ino) + le16(rec) + seq![self.name.len() as u8, self.file_type] + self.name
    }
}

/// The first deleted record from `pos` on that the entry fits into.
pub open spec fn free_slot(b: Seq<u8>, pos: int, limit: int, e: NewEntry) -> Option<int>
    decreases left(pos, limit),
{
    if pos + DIRENT_HDR > limit || rec_len(b, pos) == 0 {
        None
    } else if le32_at(b, pos) == 0 && rec_len(b, pos) >= e.rec() && pos + DIRENT_HDR + e.name.len()
        <= BLOCK_SIZE {
        Some(pos)
    } else {
        free_slot(b, pos + rec_len(b, pos), limit, e)
    }
}

/// The bytes in use of logical block `l` of `n`.
pub open spec fn used_limit(size: u64, l: int, n: int) -> int {
    if l + 1 == n && size % BLOCK_SIZE as u64 != 0 {
        (size % BLOCK_SIZE as u64) as int
    } else {
        BLOCK_SIZE as int
    }
}

/// Put the entry into the directory's blocks from `l` on: into a deleted
/// record, which keeps its length so that the records behind it stay where they
/// are, or at the end of the last block. `None` where there is no room.
pub open spec fn add_in_blocks(
    d: Blocks,
    dir_ino: u32,
    dir: InodeView,
    e: NewEntry,
    l: int,
    n: int,
) -> Option<(Blocks, bool)>
    decreases n - l,
{
    if l >= n {
        None
    } else {
        match resolve_block(d, dir, l as u32) {
            None => add_in_blocks(d, dir_ino, dir, e, l + 1, n),
            Some(p) => match read_at(d, p) {
                None => add_in_blocks(d, dir_ino, dir, e, l + 1, n),
                Some(b) => {
                    let limit = used_limit(dir.size, l, n);
                    match free_slot(b, 0, limit, e) {
                        Some(pos) => Some(
                            (
                                written(d, p, splice(b, pos, e.bytes(rec_len(b, pos)))),
                                can_write(d, p),
                            ),
                        ),
                        None => if l + 1 == n && limit + e.rec() <= BLOCK_SIZE {
                            if can_write(d, p) {
                                Some(
                                    write_inode(
                                        written(d, p, splice(b, limit, e.bytes(e.rec()))),
                                        dir_ino,
                                        InodeView { size: wrap64(dir.size, e.rec() as u64), ..dir },
                                    ),
                                )
                            } else {
                                Some((d, false))
                            }
                        } else {
                            add_in_blocks(d, dir_ino, dir, e, l + 1, n)
                        },
                    }
                },
            },
        }
    }
}

/// The last record of a block, from `pos` on.
pub open spec fn last_record(b: Seq<u8>, pos: int, limit: int) -> Option<int>
    decreases left(pos, limit),
{
    if pos + DIRENT_HDR > limit || rec_len(b, pos) == 0 {
        None
    } else {
        match last_record(b, pos + rec_len(b, pos), limit) {
            Some(q) => Some(q),
            None => Some(pos),
        }
    }
}

/// A block whose last record reaches to the block's end.
pub open spec fn stretched(b: Seq<u8>, limit: int) -> Seq<u8> {
    match last_record(b, 0, limit) {
        Some(q) => splice(b, q + 4, le16((BLOCK_SIZE - q) as u16)),
        None => b,
    }
}

/// What the partly used last block of a directory becomes before the directory
/// grows beyond it, and where it stands.
pub open spec fn filled_up(d: Blocks, dir: InodeView) -> Option<(u32, Seq<u8>)> {
    if dir.size % BLOCK_SIZE as u64 == 0 {
        None
    } else {
        match resolve_block(d, dir, logical_of(dir.size)) {
            None => None,
            Some(p) => match read_at(d, p) {
                None => None,
                Some(b) => Some((p, stretched(b, (dir.size % BLOCK_SIZE as u64) as int))),
            },
        }
    }
}

/// A size rounded up to whole blocks.
pub open spec fn whole_blocks(size: u64) -> u64 {
    if size % BLOCK_SIZE as u64 == 0 {
        size
    } else {
        wrap64((size - size % BLOCK_SIZE as u64) as u64, BLOCK_SIZE as u64)
    }
}

/// Put the entry into a new block of the directory. The block before it is
/// filled up, so that its records reach to where the new block begins.
pub open spec fn add_in_new_block(
    d: Blocks,
    dir_ino: u32,
    dir: InodeView,
    e: NewEntry,
    total: u32,
) -> (Blocks, bool) {
    match alloc_block(d, total) {
        (d1, None) => (d1, false),
        (d1, Some(p)) => match add_extent(d1, dir, one_block(block_count(dir.size), p), total) {
            (d2, _, false) => (free_block(d2, p), false),
            (d2, dir2, true) => if can_write(d2, p) {
                let d3 = written(d2, p, splice(zeros(BLOCK_SIZE as nat), 0, e.bytes(e.rec())));
                let grown = InodeView {
                    size: wrap64(whole_blocks(dir.size), e.rec() as u64),
                    blocks: wrap64(dir2.blocks, 1),
                    ..dir2
                };
                match filled_up(d, dir) {
                    None => write_inode(d3, dir_ino, grown),
                    Some((q, c)) => if can_write(d3, q) {
                        write_inode(written(d3, q, c), dir_ino, grown)
                    } else {
                        (free_block(d3, p), false)
                    },
                }
            } else {
                (free_block(d2, p), false)
            },
        },
    }
}

/// Add an entry to a directory. A name has 1 to 255 bytes.
pub open spec fn add_dir_entry(d: Blocks, dir_ino: u32, e: NewEntry, total: u32) -> (Blocks, bool) {
    if e.name.len() == 0 || e.name.len() > 255 {
        (d, false)
    } else {
        match read_inode(d, dir_ino) {
            None => (d, false),
            Some(dir) => match add_in_blocks(d, dir_ino, dir, e, 0, block_count(dir.size) as int) {
                Some(r) => r,
                None => add_in_new_block(d, dir_ino, dir, e, total),
            },
        }
    }
}

/// Write a record of length `rec` at `pos`.
fn write_dirent(buf: &mut Vec<u8>, pos: usize, ino: u32, rec: u16, name: &[u8], file_type: u8)
    requires
        old(buf).len() == BLOCK_SIZE,
        0 < name@.len() <= 255,
        pos + DIRENT_HDR + name@.len() <= BLOCK_SIZE,
    ensures
        final(buf)@ == splice(
            old(buf)@,
            pos as int,
            (NewEntry { ino, name: name@, file_type }).bytes(rec),
        ),
{
    let ghost e = NewEntry { ino, name: name@, file_type };
    put_u32(buf, pos, ino);
    put_u16(buf, pos + 4, rec);
    buf[pos + 6] = name.len() as u8;
    buf[pos + 7] = file_type;
    put_bytes(buf, pos + DIRENT_HDR, name, 0, name.len());
    assert(name@.subrange(0, name@.len() as int) =~= name@);
    assert(buf@ =~= splice(old(buf)@, pos as int, e.bytes(rec)));
}

/// Find the first deleted record that the entry fits into.
fn find_free_slot(b: &Vec<u8>, limit: usize, rec: u16, name_len: usize, e: Ghost<NewEntry>) -> (r:
    Option<usize>)
    requires
        b.len() == BLOCK_SIZE,
        limit <= BLOCK_SIZE,
        e@.name.len() == name_len,
        0 < name_len <= 255,
        rec == e@.rec(),
    ensures
        match free_slot(b@, 0, limit as int, e@) {
            Some(p) => r == Some(p as usize) && p + DIRENT_HDR + name_len <= BLOCK_SIZE && 0 <= p,
            None => r is None,
        },
{
    let mut pos: usize = 0;
    while pos + DIRENT_HDR <= limit
        invariant
            b.len() == BLOCK_SIZE,
            limit <= BLOCK_SIZE,
            e@.name.len() == name_len,
            name_len <= 255,
            rec == e@.rec(),
            pos <= limit + 0x1_0000,
            free_slot(b@, 0, limit as int, e@) == free_slot(b@, pos as int, limit as int, e@),
        decreases limit + 0x1_0000 - pos,
    {
        let ino: u32 = get_u32(b, pos);
        let this_rec: u16 = get_u16(b, pos + 4);
        if this_rec == 0 {
            return None;
        }
        if ino == 0 && this_rec >= rec && pos + DIRENT_HDR + name_len <= BLOCK_SIZE {
            return Some(pos);
        }
        pos += this_rec as usize;
    }
    None
}

/// Make the last record of a block reach to the block's end.
fn stretch_last(b: &mut Vec<u8>, limit: usize)
    requires
        old(b).len() == BLOCK_SIZE,
        limit <= BLOCK_SIZE,
    ensures
        final(b)@ == stretched(old(b)@, limit as int),
        final(b).len() == BLOCK_SIZE,
{
    let mut pos: usize = 0;
    let mut last: Option<usize> = None;
    while pos + DIRENT_HDR <= limit
        invariant_except_break
            pos <= limit + 0x1_0000,
            last_record(b@, 0, limit as int) == (match last_record(b@, pos as int, limit as int) {
                Some(q) => Some(q),
                None => match last {
                    Some(q) => Some(q as int),
                    None => None,
                },
            }),
        invariant
            b@ == old(b)@,
            b.len() == BLOCK_SIZE,
            limit <= BLOCK_SIZE,
            last matches Some(q) ==> q + DIRENT_HDR <= BLOCK_SIZE,
        ensures
            last_record(b@, 0, limit as int) == (match last {
                Some(q) => Some(q as int),
                None => None,
            }),
        decreases limit + 0x1_0000 - pos,
    {
        let rec: u16 = get_u16(b, pos + 4);
        if rec == 0 {
            break;
        }
        last = Some(pos);
        pos += rec as usize;
    }
    if let Some(q) = last {
        put_u16(b, q + 4, (BLOCK_SIZE - q) as u16);
    }
}

impl Disk {
    /// The partly used last block of a directory, filled up, and where it stands.
    fn filled_up(&self, dir: &Inode) -> (r: Option<(u32, Vec<u8>)>)
        requires
            self.wf(),
        ensures
            match filled_up(self@, dir@) {
                Some((p, c)) => r matches Some(x) && x.0 == p && x.1@ == c && c.len() == BLOCK_SIZE,
                None => r is None,
            },
    {
        let tail: usize = (dir.size % BLOCK_SIZE as u64) as usize;
        if tail == 0 {
            return None;
        }
        let last: u32 = ((dir.size / BLOCK_SIZE as u64) % 0x1_0000_0000) as u32;
        let p: u32 = match self.resolve_block(dir, last) {
            Some(p) => p,
            None => {
                return None;
            },
        };
        let mut buf: Vec<u8> = match self.read_block(p) {
            Some(b) => b.clone(),
            None => {
                return None;
            },
        };
        stretch_last(&mut buf, tail);
        Some((p, buf))
    }

    fn add_in_blocks(&mut self, dir_ino: u32, dir: &Inode, ino: u32, name: &[u8], file_type: u8) -> (r:
        Option<bool>)
        requires
            old(self).wf(),
            0 < name@.len() <= 255,
        ensures
            final(self).wf(),
            final(self).present == old(self).present,
            match add_in_blocks(
                old(self)@,
                dir_ino,
                dir@,
                NewEntry { ino, name: name@, file_type },
                0,
                block_count(dir.size) as int,
            ) {
                Some(x) => r == Some(x.1) && final(self)@ == x.0,
                None => r is None && final(self)@ == old(self)@,
            },
    {
        let ghost e = NewEntry { ino, name: name@, file_type };
        let name_len: usize = name.len();
        let rec: u16 = ((DIRENT_HDR + name_len + 3) / 4 * 4) as u16;
        let n: u32 = count_blocks(dir.size);
        let mut l: u32 = 0;
        while l < n
            invariant
                self.wf(),
                self@ == old(self)@,
                self.present == old(self).present,
                name_len == name@.len(),
                0 < name_len <= 255,
                e == (NewEntry { ino, name: name@, file_type }),
                rec == e.rec(),
                n == block_count(dir.size),
                l <= n,
                add_in_blocks(old(self)@, dir_ino, dir@, e, 0, n as int) == add_in_blocks(
                    old(self)@,
                    dir_ino,
                    dir@,
                    e,
                    l as int,
                    n as int,
                ),
            decreases n - l,
        {
            if let Some(p) = self.resolve_block(dir, l) {
                let found: Option<Vec<u8>> = match self.read_block(p) {
                    Some(b) => Some(b.clone()),
                    None => None,
                };
                if let Some(b) = found {
                    let mut buf: Vec<u8> = b;
                    let tail: usize = (dir.size % BLOCK_SIZE as u64) as usize;
                    let is_last: bool = l + 1 == n;
                    let limit: usize = if is_last && tail != 0 {
                        tail
                    } else {
                        BLOCK_SIZE
                    };
                    if let Some(pos) = find_free_slot(&buf, limit, rec, name_len, Ghost(e)) {
                        let kept: u16 = get_u16(&buf, pos + 4);
                        write_dirent(&mut buf, pos, ino, kept, name, file_type);
                        return Some(self.write_block(p, buf));
                    }
                    if is_last && limit + rec as usize <= BLOCK_SIZE {
                        write_dirent(&mut buf, limit, ino, rec, name, file_type);
                        if !self.write_block(p, buf) {
                            return Some(false);
                        }
                        let mut grown: Inode = *dir;
                        grown.size = dir.size.wrapping_add(rec as u64);
                        return Some(self.write_inode(dir_ino, &grown));
                    }
                }
            }
            l += 1;
        }
        None
    }

    /// Put the entry into a new block of the directory.
    #[verifier::spinoff_prover]
    #[verifier::rlimit(30)]
    fn add_in_new_block(
        &mut self,
        dir_ino: u32,
        dir: Inode,
        ino: u32,
        name: &[u8],
        file_type: u8,
        total: u32,
    ) -> (ok: bool)
        requires
            old(self).wf(),
            0 < name@.len() <= 255,
        ensures
            final(self).wf(),
            final(self).present == old(self).present,
            (final(self)@, ok) == add_in_new_block(
                old(self)@,
                dir_ino,
                dir@,
                NewEntry { ino, name: name@, file_type },
                total,
            ),
    {
        let rec: u16 = ((DIRENT_HDR + name.len() + 3) / 4 * 4) as u16;
        let filled: Option<(u32, Vec<u8>)> = self.filled_up(&dir);
        let tail: u64 = dir.size % BLOCK_SIZE as u64;
        let whole: u64 = if tail == 0 {
            dir.size
        } else {
            (dir.size - tail).wrapping_add(BLOCK_SIZE as u64)
        };
        assert(whole == whole_blocks(dir.size));
        let mut grown: Inode = dir;
        let blk: u32 = match self.alloc_block(total) {
            Some(b) => b,
            None => {
                return false;
            },
        };
        let e = Extent { logical: count_blocks(dir.size), physical: blk, count: 1, flags: 0 };
        if !self.add_extent(&mut grown, e, total) {
            self.free_block(blk);
            return false;
        }
        let mut buf: Vec<u8> = zero_bytes(BLOCK_SIZE);
        write_dirent(&mut buf, 0, ino, rec, name, file_type);
        if !self.write_block(blk, buf) {
            self.free_block(blk);
            return false;
        }
        if let Some((last, old_block)) = filled {
            if !self.write_block(last, old_block) {
                self.free_block(blk);
                return false;
            }
        }
        grown.size = whole.wrapping_add(rec as u64);
        grown.blocks = grown.blocks.wrapping_add(1);
        self.write_inode(dir_ino, &grown)
    }

    /// Add an entry to a directory, in a new block if none has room. Where the
    /// directory is in order, the entry joins the others, and it stays so.
    pub fn add_dir_entry(
        &mut self,
        dir_ino: u32,
        ino: u32,
        name: &[u8],
        file_type: u8,
        total: u32,
    ) -> (ok: bool)
        requires
            old(self).wf(),
        ensures
            final(self).wf(),
            final(self).present == old(self).present,
            (final(self)@, ok) == add_dir_entry(
                old(self)@,
                dir_ino,
                NewEntry { ino, name: name@, file_type },
                total,
            ),
            name@.len() == 0 || name@.len() > 255 ==> !ok && final(self)@ == old(self)@,
            ({
                let e = NewEntry { ino, name: name@, file_type };
                let before = read_inode(old(self)@, dir_ino);
                let after = read_inode(final(self)@, dir_ino);
                ok && findable(e) && before is Some && sound_dir(old(self)@, before->0) ==> {
                    &&& after is Some
                    &&& sound_dir(final(self)@, after->0)
                    &&& joined(
                        dir_entries(old(self)@, before->0),
                        dir_entries(final(self)@, after->0),
                        entry_of(e),
                    )
                }
            }),
    {
        let name_len: usize = name.len();
        if name_len == 0 || name_len > 255 {
            return false;
        }
        proof {
            let e = NewEntry { ino, name: name@, file_type };
            let i = read_inode(self@, dir_ino);
            if findable(e) && i is Some && sound_dir(self@, i->0) && add_dir_entry(
                self@,
                dir_ino,
                e,
                total,
            ).1 {
                law_added_entry_joins_the_others(self@, dir_ino, i->0, e, total);
            }
        }
        let dir: Inode = match self.read_inode(dir_ino) {
            Some(i) => i,
            None => {
                return false;
            },
        };
        match self.add_in_blocks(dir_ino, &dir, ino, name, file_type) {
            Some(ok) => ok,
            None => self.add_in_new_block(dir_ino, dir, ino, name, file_type, total),
        }
    }
}

// ── Removing an entry ────────────────────────────────────────────────────────

/// The first record from `pos` on that is in use under this name.
pub open spec fn named_slot(b: Seq<u8>, pos: int, limit: int, name: Seq<u8>) -> Option<int>
    decreases left(pos, limit),
{
    if pos + DIRENT_HDR > limit || rec_len(b, pos) == 0 {
        None
    } else if le32_at(b, pos) != 0 && name_fits(b, pos) && rec_name(b, pos) == name {
        Some(pos)
    } else {
        named_slot(b, pos + rec_len(b, pos), limit, name)
    }
}

/// Zero the inode number of the first record with this name, in the blocks
/// from `l` on; tells whether there was one and the device took the change.
pub open spec fn remove_in_blocks(
    d: Blocks,
    dir: InodeView,
    name: Seq<u8>,
    l: int,
    n: int,
) -> (Blocks, bool)
    decreases n - l,
{
    if l >= n {
        (d, false)
    } else {
        match resolve_block(d, dir, l as u32) {
            None => remove_in_blocks(d, dir, name, l + 1, n),
            Some(p) => match read_at(d, p) {
                None => remove_in_blocks(d, dir, name, l + 1, n),
                Some(b) => match named_slot(b, 0, used_limit(dir.size, l, n), name) {
                    Some(pos) => (written(d, p, splice(b, pos, le32(0))), can_write(d, p)),
                    None => remove_in_blocks(d, dir, name, l + 1, n),
                },
            },
        }
    }
}

/// Remove the first entry with this name from a directory.
pub open spec fn remove_dir_entry(d: Blocks, dir_ino: u32, name: Seq<u8>) -> (Blocks, bool) {
    match read_inode(d, dir_ino) {
        None => (d, false),
        Some(dir) => remove_in_blocks(d, dir, name, 0, block_count(dir.size) as int),
    }
}

fn find_named(b: &Vec<u8>, limit: usize, name: &[u8]) -> (r: Option<usize>)
    requires
        b.len() == BLOCK_SIZE,
        limit <= BLOCK_SIZE,
    ensures
        match named_slot(b@, 0, limit as int, name@) {
            Some(p) => r == Some(p as usize) && 0 <= p && p + DIRENT_HDR <= BLOCK_SIZE,
            None => r is None,
        },
{
    let mut pos: usize = 0;
    while pos + DIRENT_HDR <= limit
        invariant
            b.len() == BLOCK_SIZE,
            limit <= BLOCK_SIZE,
            pos <= limit + 0x1_0000,
            named_slot(b@, 0, limit as int, name@) == named_slot(
                b@,
                pos as int,
                limit as int,
                name@,
            ),
        decreases limit + 0x1_0000 - pos,
    {
        let ino: u32 = get_u32(b, pos);
        let rec: u16 = get_u16(b, pos + 4);
        if rec == 0 {
            return None;
        }
        let name_len: usize = b[pos + 6] as usize;
        if ino != 0 && pos + DIRENT_HDR + name_len <= BLOCK_SIZE {
            let this: Vec<u8> = copy_range(b, pos + DIRENT_HDR, pos + DIRENT_HDR + name_len);
            if same_bytes(&this, name) {
                return Some(pos);
            }
        }
        pos += rec as usize;
    }
    None
}

impl Disk {
    /// Zero the inode field of the first entry with this name.
    pub fn remove_dir_entry(&mut self, dir_ino: u32, name: &[u8]) -> (ok: bool)
        requires
            old(self).wf(),
        ensures
            final(self).wf(),
            final(self).present == old(self).present,
            (final(self)@, ok) == remove_dir_entry(old(self)@, dir_ino, name@),
    {
        let dir: Inode = match self.read_inode(dir_ino) {
            Some(i) => i,
            None => {
                return false;
            },
        };
        let n: u32 = count_blocks(dir.size);
        let mut l: u32 = 0;
        while l < n
            invariant
                self.wf(),
                self@ == old(self)@,
                self.present == old(self).present,
                read_inode(old(self)@, dir_ino) == Some(dir@),
                n == block_count(dir.size),
                l <= n,
                remove_in_blocks(old(self)@, dir@, name@, 0, n as int) == remove_in_blocks(
                    old(self)@,
                    dir@,
                    name@,
                    l as int,
                    n as int,
                ),
            decreases n - l,
        {
            if let Some(p) = self.resolve_block(&dir, l) {
                let found: Option<Vec<u8>> = match self.read_block(p) {
                    Some(b) => Some(b.clone()),
                    None => None,
                };
                if let Some(b) = found {
                    let mut buf: Vec<u8> = b;
                    let tail: usize = (dir.size % BLOCK_SIZE as u64) as usize;
                    let limit: usize = if l + 1 == n && tail != 0 {
                        tail
                    } else {
                        BLOCK_SIZE
                    };
                    if let Some(pos) = find_named(&buf, limit, name) {
                        put_u32(&mut buf, pos, 0);
                        return self.write_block(p, buf);
                    }
                }
            }
            l += 1;
        }
        false
    }
}

} // verus!
