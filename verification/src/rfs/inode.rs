//! Inodes: their on-disk form, the inode table, and the map from logical to
//! physical blocks.

use vstd::prelude::*;
use crate::bytes::{
    get_u16, get_u32, get_u64, le16, le16_at, le32, le32_at, le64, le64_at, put_bytes, splice,
    zeros,
};
use crate::bytes::{lemma_le16_round, lemma_le32_round, lemma_le64_round};
use crate::rfs::disk::{can_write, read_at, wf_blocks, written, Blocks, Disk, BLOCK_SIZE};

verus! {

/// The first block of the inode table.
pub const INODE_START: u32 = 2;

/// Inodes in the table.
pub const INODE_COUNT: u32 = 1024;

/// Inodes in one block of the table.
pub const INODES_PER_BLOCK: u32 = 32;

/// Bytes of an inode on disk.
pub const INODE_SIZE: usize = 128;

/// Extents in an inode itself.
pub const INLINE_EXTENTS: usize = 4;

/// Extents in an overflow block.
pub const OVFL_EXTENTS: usize = 255;

/// Bytes before the extents of an overflow block.
pub const OVFL_HDR: usize = 16;

/// Bytes of an extent on disk.
pub const EXTENT_SIZE: usize = 16;

pub const INODE_USED: u32 = 1;
pub const INODE_DIR: u32 = 2;
pub const INODE_SYMLINK: u32 = 4;
pub const INODE_FAST_SYM: u32 = 8;

/// A run of blocks: `count` logical blocks from `logical` on lie at `physical`.
#[derive(Clone, Copy, Debug, PartialEq, Eq, Structural)]
pub struct Extent {
    pub logical: u32,
    pub physical: u32,
    pub count: u32,
    pub flags: u32,
}

/// An inode.
#[derive(Clone, Copy)]
pub struct Inode {
    pub flags: u32,
    pub mode: u16,
    pub uid: u32,
    pub gid: u32,
    pub nlink: u32,
    pub size: u64,
    pub blocks: u64,
    pub mtime: u64,
    pub ctime: u64,
    pub ovfl_block: u32,
    pub extent_count: u16,
    pub extents: [Extent; 4],
}

/// An inode as a mathematical value.
#[verifier::ext_equal]
pub struct InodeView {
    pub flags: u32,
    pub mode: u16,
    pub uid: u32,
    pub gid: u32,
    pub nlink: u32,
    pub size: u64,
    pub blocks: u64,
    pub mtime: u64,
    pub ctime: u64,
    pub ovfl_block: u32,
    pub extent_count: u16,
    pub extents: Seq<Extent>,
}

impl View for Inode {
    type V = InodeView;

    open spec fn view(&self) -> InodeView {
        InodeView {
            flags: self.flags,
            mode: self.mode,
            uid: self.uid,
            gid: self.gid,
            nlink: self.nlink,
            size: self.size,
            blocks: self.blocks,
            mtime: self.mtime,
            ctime: self.ctime,
            ovfl_block: self.ovfl_block,
            extent_count: self.extent_count,
            extents: self.extents@,
        }
    }
}

impl InodeView {
    /// The flag bits `mask` are not all clear.
    pub open spec fn is(self, mask: u32) -> bool {
        self.flags & mask != 0
    }
}

// ── On-disk form ─────────────────────────────────────────────────────────────

/// The extent that lies at `at` of a byte sequence.
pub open spec fn extent_at(b: Seq<u8>, at: int) -> Extent {
    Extent {
        logical: le32_at(b, at),
        physical: le32_at(b, at + 4),
        count: le32_at(b, at + 8),
        flags: le32_at(b, at + 12),
    }
}

/// The bytes of an extent.
pub open spec fn extent_bytes(e: Extent) -> Seq<u8> {
    le32(e.logical) + le32(e.physical) + le32(e.count) + le32(e.flags)
}

/// The inode that lies at `at` of a byte sequence.
#[verifier::opaque]
pub open spec fn inode_at(b: Seq<u8>, at: int) -> InodeView {
    InodeView {
        flags: le32_at(b, at),
        mode: le16_at(b, at + 4),
        uid: le32_at(b, at + 8),
        gid: le32_at(b, at + 12),
        nlink: le32_at(b, at + 16),
        size: le64_at(b, at + 20),
        blocks: le64_at(b, at + 28),
        mtime: le64_at(b, at + 36),
        ctime: le64_at(b, at + 44),
        ovfl_block: le32_at(b, at + 52),
        extent_count: le16_at(b, at + 56),
        extents: seq![
            extent_at(b, at + 60),
            extent_at(b, at + 76),
            extent_at(b, at + 92),
            extent_at(b, at + 108),
        ],
    }
}

/// The bytes of an inode up to its size.
pub open spec fn inode_ids(i: InodeView) -> Seq<u8> {
    le32(i.flags) + le16(i.mode) + zeros(2) + le32(i.uid) + le32(i.gid) + le32(i.nlink)
}

/// The bytes of an inode from its size to its times.
pub open spec fn inode_sizes(i: InodeView) -> Seq<u8> {
    le64(i.size) + le64(i.blocks) + le64(i.mtime) + le64(i.ctime)
}

/// The bytes of an inode between its times and its extents.
pub open spec fn inode_counts(i: InodeView) -> Seq<u8> {
    le32(i.ovfl_block) + le16(i.extent_count) + zeros(2)
}

/// The bytes of the extents in an inode.
pub open spec fn inode_extents(i: InodeView) -> Seq<u8> {
    extent_bytes(i.extents[0]) + extent_bytes(i.extents[1]) + extent_bytes(i.extents[2])
        + extent_bytes(i.extents[3])
}

/// The bytes of an inode.
#[verifier::opaque]
pub open spec fn inode_bytes(i: InodeView) -> Seq<u8> {
    inode_ids(i) + inode_sizes(i) + inode_counts(i) + inode_extents(i) + zeros(4)
}

fn push_u16(v: &mut Vec<u8>, x: u16)
    ensures
        final(v)@ == old(v)@ + le16(x),
{
    v.push((x % 0x100) as u8);
    v.push((x / 0x100) as u8);
    assert(v@ =~= old(v)@ + le16(x));
}

fn push_u32(v: &mut Vec<u8>, x: u32)
    ensures
        final(v)@ == old(v)@ + le32(x),
{
    v.push((x % 0x100) as u8);
    v.push((x / 0x100 % 0x100) as u8);
    v.push((x / 0x1_0000 % 0x100) as u8);
    v.push((x / 0x100_0000) as u8);
    assert(v@ =~= old(v)@ + le32(x));
}

fn push_u64(v: &mut Vec<u8>, x: u64)
    ensures
        final(v)@ == old(v)@ + le64(x),
{
    push_u32(v, (x % 0x1_0000_0000) as u32);
    push_u32(v, (x / 0x1_0000_0000) as u32);
    assert(v@ =~= old(v)@ + le64(x));
}

fn push_extent(v: &mut Vec<u8>, e: Extent)
    ensures
        final(v)@ == old(v)@ + extent_bytes(e),
{
    push_u32(v, e.logical);
    push_u32(v, e.physical);
    push_u32(v, e.count);
    push_u32(v, e.flags);
    assert(v@ =~= old(v)@ + extent_bytes(e));
}

/// The bytes of the extents in an inode.
pub fn bytes_of_extents(i: &Inode) -> (v: Vec<u8>)
    ensures
        v@ == inode_extents(i@),
        v@.len() == 64,
{
    let mut v: Vec<u8> = Vec::new();
    push_extent(&mut v, i.extents[0]);
    assert(v@ =~= extent_bytes(i@.extents[0]));
    push_extent(&mut v, i.extents[1]);
    push_extent(&mut v, i.extents[2]);
    push_extent(&mut v, i.extents[3]);
    v
}

fn parse_extent(b: &[u8], at: usize) -> (e: Extent)
    requires
        at + EXTENT_SIZE <= b.len(),
    ensures
        e == extent_at(b@, at as int),
{
    Extent {
        logical: get_u32(b, at),
        physical: get_u32(b, at + 4),
        count: get_u32(b, at + 8),
        flags: get_u32(b, at + 12),
    }
}

/// Read the inode that lies at `at`.
pub fn parse_inode(b: &[u8], at: usize) -> (i: Inode)
    requires
        at + INODE_SIZE <= b.len(),
    ensures
        i@ == inode_at(b@, at as int),
{
    let i = Inode {
        flags: get_u32(b, at),
        mode: get_u16(b, at + 4),
        uid: get_u32(b, at + 8),
        gid: get_u32(b, at + 12),
        nlink: get_u32(b, at + 16),
        size: get_u64(b, at + 20),
        blocks: get_u64(b, at + 28),
        mtime: get_u64(b, at + 36),
        ctime: get_u64(b, at + 44),
        ovfl_block: get_u32(b, at + 52),
        extent_count: get_u16(b, at + 56),
        extents: [
            parse_extent(b, at + 60),
            parse_extent(b, at + 76),
            parse_extent(b, at + 92),
            parse_extent(b, at + 108),
        ],
    };
    proof {
        reveal(inode_at);
    }
    assert(i@.extents =~= inode_at(b@, at as int).extents);
    i
}

fn push_ids(v: &mut Vec<u8>, i: &Inode)
    ensures
        final(v)@ == old(v)@ + inode_ids(i@),
{
    push_u32(v, i.flags);
    push_u16(v, i.mode);
    v.push(0);
    v.push(0);
    push_u32(v, i.uid);
    push_u32(v, i.gid);
    push_u32(v, i.nlink);
    assert(v@ =~= old(v)@ + inode_ids(i@));
}

fn push_sizes(v: &mut Vec<u8>, i: &Inode)
    ensures
        final(v)@ == old(v)@ + inode_sizes(i@),
{
    push_u64(v, i.size);
    push_u64(v, i.blocks);
    push_u64(v, i.mtime);
    push_u64(v, i.ctime);
    assert(v@ =~= old(v)@ + inode_sizes(i@));
}

fn push_counts(v: &mut Vec<u8>, i: &Inode)
    ensures
        final(v)@ == old(v)@ + inode_counts(i@),
{
    push_u32(v, i.ovfl_block);
    push_u16(v, i.extent_count);
    v.push(0);
    v.push(0);
    assert(v@ =~= old(v)@ + inode_counts(i@));
}

/// The bytes of an inode, as they lie in the table.
pub fn serialize_inode(i: &Inode) -> (v: Vec<u8>)
    ensures
        v@ == inode_bytes(i@),
        v@.len() == INODE_SIZE,
{
    let mut v: Vec<u8> = Vec::new();
    push_ids(&mut v, i);
    assert(v@ =~= inode_ids(i@));
    push_sizes(&mut v, i);
    push_counts(&mut v, i);
    let mut extents: Vec<u8> = bytes_of_extents(i);
    v.append(&mut extents);
    let mut pad: Vec<u8> = crate::bytes::zero_bytes(4);
    v.append(&mut pad);
    proof {
        reveal(inode_bytes);
        law_inode_round_trip(i@);
    }
    v
}

/// An extent is read back as it was written.
pub proof fn lemma_extent_round(s: Seq<u8>, at: int, e: Extent)
    requires
        0 <= at,
        at + EXTENT_SIZE <= s.len(),
        s.subrange(at, at + 16) == extent_bytes(e),
    ensures
        extent_at(s, at) == e,
{
    let t = s.subrange(at, at + 16);
    assert(s.subrange(at, at + 4) =~= t.subrange(0, 4));
    assert(s.subrange(at + 4, at + 8) =~= t.subrange(4, 8));
    assert(s.subrange(at + 8, at + 12) =~= t.subrange(8, 12));
    assert(s.subrange(at + 12, at + 16) =~= t.subrange(12, 16));
    assert(t.subrange(0, 4) =~= le32(e.logical));
    assert(t.subrange(4, 8) =~= le32(e.physical));
    assert(t.subrange(8, 12) =~= le32(e.count));
    assert(t.subrange(12, 16) =~= le32(e.flags));
    lemma_le32_round(s, at, e.logical);
    lemma_le32_round(s, at + 4, e.physical);
    lemma_le32_round(s, at + 8, e.count);
    lemma_le32_round(s, at + 12, e.flags);
}

/// Bytes that agree from `at` on read as the same values.
proof fn lemma_inode_at_shift(a: Seq<u8>, at: int, b: Seq<u8>)
    requires
        0 <= at,
        at + INODE_SIZE <= a.len(),
        b == a.subrange(at, at + INODE_SIZE),
    ensures
        inode_at(a, at) == inode_at(b, 0),
{
    assert forall|k: int| 0 <= k <= 124 implies le32_at(a, #[trigger] (at + k)) == le32_at(b, k) by {
        assert(a[at + k] == b[k] && a[at + k + 1] == b[k + 1] && a[at + k + 2] == b[k + 2]
            && a[at + k + 3] == b[k + 3]);
    }
    assert forall|k: int| 0 <= k <= 126 implies le16_at(a, #[trigger] (at + k)) == le16_at(b, k) by {
        assert(a[at + k] == b[k] && a[at + k + 1] == b[k + 1]);
    }
    assert forall|k: int| 0 <= k <= 120 implies le64_at(a, #[trigger] (at + k)) == le64_at(b, k) by {
        assert(le32_at(a, at + k) == le32_at(b, k));
        assert(le32_at(a, at + (k + 4)) == le32_at(b, k + 4));
    }
    assert forall|k: int| 0 <= k <= 112 implies extent_at(a, #[trigger] (at + k)) == extent_at(b, k) by {
        assert(le32_at(a, at + k) == le32_at(b, k));
        assert(le32_at(a, at + (k + 4)) == le32_at(b, k + 4));
        assert(le32_at(a, at + (k + 8)) == le32_at(b, k + 8));
        assert(le32_at(a, at + (k + 12)) == le32_at(b, k + 12));
    }
    reveal(inode_at);
    assert(inode_at(a, at).extents =~= inode_at(b, 0).extents);
}

/// A part of a part is a part of the whole.
proof fn lemma_part_of_part(s: Seq<u8>, at: int, part: Seq<u8>, from: int, to: int)
    requires
        0 <= at,
        at + part.len() <= s.len(),
        s.subrange(at, at + part.len()) == part,
        0 <= from <= to <= part.len(),
    ensures
        s.subrange(at + from, at + to) == part.subrange(from, to),
{
    assert(s.subrange(at + from, at + to) =~= s.subrange(at, at + part.len()).subrange(from, to));
}

proof fn lemma_ids_round(s: Seq<u8>, i: InodeView)
    requires
        s.len() >= 20,
        s.subrange(0, 20) == inode_ids(i),
    ensures
        le32_at(s, 0) == i.flags,
        le16_at(s, 4) == i.mode,
        le32_at(s, 8) == i.uid,
        le32_at(s, 12) == i.gid,
        le32_at(s, 16) == i.nlink,
{
    let t = inode_ids(i);
    assert(t.subrange(0, 4) =~= le32(i.flags));
    lemma_part_of_part(s, 0, t, 0, 4);
    lemma_le32_round(s, 0, i.flags);
    assert(t.subrange(4, 6) =~= le16(i.mode));
    lemma_part_of_part(s, 0, t, 4, 6);
    lemma_le16_round(s, 4, i.mode);
    assert(t.subrange(8, 12) =~= le32(i.uid));
    lemma_part_of_part(s, 0, t, 8, 12);
    lemma_le32_round(s, 8, i.uid);
    assert(t.subrange(12, 16) =~= le32(i.gid));
    lemma_part_of_part(s, 0, t, 12, 16);
    lemma_le32_round(s, 12, i.gid);
    assert(t.subrange(16, 20) =~= le32(i.nlink));
    lemma_part_of_part(s, 0, t, 16, 20);
    lemma_le32_round(s, 16, i.nlink);
}

proof fn lemma_sizes_round(s: Seq<u8>, i: InodeView)
    requires
        s.len() >= 52,
        s.subrange(20, 52) == inode_sizes(i),
    ensures
        le64_at(s, 20) == i.size,
        le64_at(s, 28) == i.blocks,
        le64_at(s, 36) == i.mtime,
        le64_at(s, 44) == i.ctime,
{
    let t = inode_sizes(i);
    assert(t.subrange(0, 8) =~= le64(i.size));
    lemma_part_of_part(s, 20, t, 0, 8);
    lemma_le64_round(s, 20, i.size);
    assert(t.subrange(8, 16) =~= le64(i.blocks));
    lemma_part_of_part(s, 20, t, 8, 16);
    lemma_le64_round(s, 28, i.blocks);
    assert(t.subrange(16, 24) =~= le64(i.mtime));
    lemma_part_of_part(s, 20, t, 16, 24);
    lemma_le64_round(s, 36, i.mtime);
    assert(t.subrange(24, 32) =~= le64(i.ctime));
    lemma_part_of_part(s, 20, t, 24, 32);
    lemma_le64_round(s, 44, i.ctime);
}

proof fn lemma_counts_round(s: Seq<u8>, i: InodeView)
    requires
        s.len() >= 60,
        s.subrange(52, 60) == inode_counts(i),
    ensures
        le32_at(s, 52) == i.ovfl_block,
        le16_at(s, 56) == i.extent_count,
{
    let t = inode_counts(i);
    assert(t.subrange(0, 4) =~= le32(i.ovfl_block));
    lemma_part_of_part(s, 52, t, 0, 4);
    lemma_le32_round(s, 52, i.ovfl_block);
    assert(t.subrange(4, 6) =~= le16(i.extent_count));
    lemma_part_of_part(s, 52, t, 4, 6);
    lemma_le16_round(s, 56, i.extent_count);
}

proof fn lemma_extents_round(s: Seq<u8>, i: InodeView)
    requires
        s.len() >= 124,
        s.subrange(60, 124) == inode_extents(i),
    ensures
        extent_at(s, 60) == i.extents[0],
        extent_at(s, 76) == i.extents[1],
        extent_at(s, 92) == i.extents[2],
        extent_at(s, 108) == i.extents[3],
{
    let t = inode_extents(i);
    assert(t.subrange(0, 16) =~= extent_bytes(i.extents[0]));
    lemma_part_of_part(s, 60, t, 0, 16);
    lemma_extent_round(s, 60, i.extents[0]);
    assert(t.subrange(16, 32) =~= extent_bytes(i.extents[1]));
    lemma_part_of_part(s, 60, t, 16, 32);
    lemma_extent_round(s, 76, i.extents[1]);
    assert(t.subrange(32, 48) =~= extent_bytes(i.extents[2]));
    lemma_part_of_part(s, 60, t, 32, 48);
    lemma_extent_round(s, 92, i.extents[2]);
    assert(t.subrange(48, 64) =~= extent_bytes(i.extents[3]));
    lemma_part_of_part(s, 60, t, 48, 64);
    lemma_extent_round(s, 108, i.extents[3]);
}

proof fn lemma_five_parts(a: Seq<u8>, b: Seq<u8>, c: Seq<u8>, e: Seq<u8>, z: Seq<u8>)
    requires
        a.len() == 20,
        b.len() == 32,
        c.len() == 8,
        e.len() == 64,
        z.len() == 4,
    ensures
        ({
            let s = a + b + c + e + z;
            &&& s.len() == INODE_SIZE
            &&& s.subrange(0, 20) == a
            &&& s.subrange(20, 52) == b
            &&& s.subrange(52, 60) == c
            &&& s.subrange(60, 124) == e
        }),
{
    let s = a + b + c + e + z;
    assert(s.subrange(0, 20) =~= a);
    assert(s.subrange(20, 52) =~= b);
    assert(s.subrange(52, 60) =~= c);
    assert(s.subrange(60, 124) =~= e);
}

proof fn lemma_part_lengths(i: InodeView)
    ensures
        inode_ids(i).len() == 20,
        inode_sizes(i).len() == 32,
        inode_counts(i).len() == 8,
        inode_extents(i).len() == 64,
{
}

/// An inode is read back as it was written.
pub proof fn law_inode_round_trip(i: InodeView)
    requires
        i.extents.len() == INLINE_EXTENTS,
    ensures
        inode_at(inode_bytes(i), 0) == i,
        inode_bytes(i).len() == INODE_SIZE,
{
    let s = inode_bytes(i);
    reveal(inode_bytes);
    lemma_part_lengths(i);
    lemma_five_parts(inode_ids(i), inode_sizes(i), inode_counts(i), inode_extents(i), zeros(4));
    lemma_round_of_parts(s, i);
}

proof fn lemma_round_of_parts(s: Seq<u8>, i: InodeView)
    requires
        i.extents.len() == INLINE_EXTENTS,
        s.len() == INODE_SIZE,
        s.subrange(0, 20) == inode_ids(i),
        s.subrange(20, 52) == inode_sizes(i),
        s.subrange(52, 60) == inode_counts(i),
        s.subrange(60, 124) == inode_extents(i),
    ensures
        inode_at(s, 0) == i,
{
    lemma_ids_round(s, i);
    lemma_sizes_round(s, i);
    lemma_counts_round(s, i);
    lemma_extents_round(s, i);
    lemma_assemble(s, i);
}

proof fn lemma_assemble(s: Seq<u8>, i: InodeView)
    requires
        i.extents.len() == INLINE_EXTENTS,
        le32_at(s, 0) == i.flags,
        le16_at(s, 4) == i.mode,
        le32_at(s, 8) == i.uid,
        le32_at(s, 12) == i.gid,
        le32_at(s, 16) == i.nlink,
        le64_at(s, 20) == i.size,
        le64_at(s, 28) == i.blocks,
        le64_at(s, 36) == i.mtime,
        le64_at(s, 44) == i.ctime,
        le32_at(s, 52) == i.ovfl_block,
        le16_at(s, 56) == i.extent_count,
        extent_at(s, 60) == i.extents[0],
        extent_at(s, 76) == i.extents[1],
        extent_at(s, 92) == i.extents[2],
        extent_at(s, 108) == i.extents[3],
    ensures
        inode_at(s, 0) == i,
{
    reveal(inode_at);
    assert(inode_at(s, 0).extents =~= i.extents);
}

// ── The inode table ──────────────────────────────────────────────────────────

/// The block of the table that holds inode `ino`.
pub open spec fn inode_block(ino: u32) -> u32 {
    (INODE_START + ino / INODES_PER_BLOCK) as u32
}

/// Where in its block inode `ino` lies.
pub open spec fn inode_offset(ino: u32) -> int {
    (ino % INODES_PER_BLOCK) * INODE_SIZE
}

/// The inode in use under a number, where the table can be read.
pub open spec fn read_inode(d: Blocks, ino: u32) -> Option<InodeView> {
    if ino >= INODE_COUNT {
        None
    } else {
        match read_at(d, inode_block(ino)) {
            None => None,
            Some(b) => {
                let i = inode_at(b, inode_offset(ino));
                if i.is(INODE_USED) {
                    Some(i)
                } else {
                    None
                }
            },
        }
    }
}

/// Overwrite the table's entry for `ino`; tells whether that succeeded.
pub open spec fn put_inode(d: Blocks, ino: u32, raw: Seq<u8>) -> (Blocks, bool) {
    match read_at(d, inode_block(ino)) {
        None => (d, false),
        Some(b) => (
            written(d, inode_block(ino), splice(b, inode_offset(ino), raw)),
            can_write(d, inode_block(ino)),
        ),
    }
}

/// Store an inode under a number.
pub open spec fn write_inode(d: Blocks, ino: u32, i: InodeView) -> (Blocks, bool) {
    if ino >= INODE_COUNT {
        (d, false)
    } else {
        put_inode(d, ino, inode_bytes(i))
    }
}

/// Zero an inode, which marks it free. Inode 0 is never freed.
pub open spec fn free_inode(d: Blocks, ino: u32) -> (Blocks, bool) {
    if ino == 0 || ino >= INODE_COUNT {
        (d, false)
    } else {
        put_inode(d, ino, zeros(INODE_SIZE as nat))
    }
}

/// The first inode from `ino` on that is not in use; a block of the table that
/// cannot be read ends the search.
pub open spec fn free_inode_from(d: Blocks, ino: u32) -> Option<u32>
    decreases INODE_COUNT - ino,
{
    if ino >= INODE_COUNT {
        None
    } else {
        match read_at(d, inode_block(ino)) {
            None => None,
            Some(b) => if ino != 0 && le32_at(b, inode_offset(ino)) & INODE_USED == 0 {
                Some(ino)
            } else {
                free_inode_from(d, (ino + 1) as u32)
            },
        }
    }
}

impl Disk {
    pub fn read_inode(&self, ino: u32) -> (r: Option<Inode>)
        requires
            self.wf(),
        ensures
            match read_inode(self@, ino) {
                Some(i) => r is Some && r->0@ == i,
                None => r is None,
            },
    {
        if ino >= INODE_COUNT {
            return None;
        }
        let blk: u32 = INODE_START + ino / INODES_PER_BLOCK;
        match self.read_block(blk) {
            Some(buf) => {
                let off: usize = (ino % INODES_PER_BLOCK) as usize * INODE_SIZE;
                let i = parse_inode(buf, off);
                if i.flags & INODE_USED == 0 {
                    None
                } else {
                    Some(i)
                }
            },
            None => None,
        }
    }

    fn put_inode(&mut self, ino: u32, raw: &Vec<u8>) -> (ok: bool)
        requires
            old(self).wf(),
            ino < INODE_COUNT,
            raw.len() == INODE_SIZE,
        ensures
            final(self).wf(),
            (final(self)@, ok) == put_inode(old(self)@, ino, raw@),
            final(self).present == old(self).present,
    {
        let blk: u32 = INODE_START + ino / INODES_PER_BLOCK;
        let off: usize = (ino % INODES_PER_BLOCK) as usize * INODE_SIZE;
        let mut buf: Vec<u8> = match self.read_block(blk) {
            Some(b) => b.clone(),
            None => {
                return false;
            },
        };
        put_bytes(&mut buf, off, raw, 0, INODE_SIZE);
        assert(raw@.subrange(0, INODE_SIZE as int) =~= raw@);
        self.write_block(blk, buf)
    }

    pub fn write_inode(&mut self, ino: u32, i: &Inode) -> (ok: bool)
        requires
            old(self).wf(),
        ensures
            final(self).wf(),
            (final(self)@, ok) == write_inode(old(self)@, ino, i@),
            final(self).present == old(self).present,
    {
        if ino >= INODE_COUNT {
            return false;
        }
        let raw: Vec<u8> = serialize_inode(i);
        self.put_inode(ino, &raw)
    }

    /// Zero an inode on disk, marking it free.
    pub fn free_inode(&mut self, ino: u32) -> (ok: bool)
        requires
            old(self).wf(),
        ensures
            final(self).wf(),
            (final(self)@, ok) == free_inode(old(self)@, ino),
            final(self).present == old(self).present,
    {
        if ino == 0 || ino >= INODE_COUNT {
            return false;
        }
        let raw: Vec<u8> = crate::bytes::zero_bytes(INODE_SIZE);
        self.put_inode(ino, &raw)
    }

    /// Find an inode that is not in use.
    pub fn alloc_inode(&self) -> (r: Option<u32>)
        requires
            self.wf(),
        ensures
            r == free_inode_from(self@, 0),
    {
        let mut ino: u32 = 0;
        while ino < INODE_COUNT
            invariant
                self.wf(),
                free_inode_from(self@, 0) == free_inode_from(self@, ino),
            decreases INODE_COUNT - ino,
        {
            let blk: u32 = INODE_START + ino / INODES_PER_BLOCK;
            let off: usize = (ino % INODES_PER_BLOCK) as usize * INODE_SIZE;
            match self.read_block(blk) {
                None => {
                    return None;
                },
                Some(buf) => {
                    if ino != 0 && get_u32(buf, off) & INODE_USED == 0 {
                        return Some(ino);
                    }
                },
            }
            ino += 1;
        }
        None
    }
}

/// An inode that was stored is read back, and no other inode is touched.
pub proof fn law_stored_inode_is_read(d: Blocks, ino: u32, i: InodeView, other: u32)
    requires
        wf_blocks(d),
        i.extents.len() == INLINE_EXTENTS,
        i.is(INODE_USED),
        write_inode(d, ino, i).1,
        other != ino,
    ensures
        read_inode(write_inode(d, ino, i).0, ino) == Some(i),
        read_inode(write_inode(d, ino, i).0, other) == read_inode(d, other),
{
    let after = write_inode(d, ino, i).0;
    let b = read_at(d, inode_block(ino))->0;
    let raw = inode_bytes(i);
    let off = inode_offset(ino);
    let s = splice(b, off, raw);
    law_inode_round_trip(i);
    assert(b.len() == BLOCK_SIZE);
    assert(0 <= off && off + INODE_SIZE <= BLOCK_SIZE);
    assert(s.subrange(off, off + INODE_SIZE) =~= raw);
    lemma_inode_at_shift(s, off, raw);
    assert(read_at(after, inode_block(ino)) == Some(s));
    if other < INODE_COUNT {
        let oo = inode_offset(other);
        if inode_block(other) == inode_block(ino) {
            assert(oo + INODE_SIZE <= off || off + INODE_SIZE <= oo);
            let part = b.subrange(oo, oo + INODE_SIZE);
            assert(s.subrange(oo, oo + INODE_SIZE) =~= part);
            lemma_inode_at_shift(s, oo, part);
            lemma_inode_at_shift(b, oo, part);
        } else {
            assert(read_at(after, inode_block(other)) == read_at(d, inode_block(other)));
        }
    }
}

/// An inode that was freed is not in use, and no other changes.
pub proof fn law_a_freed_inode_is_not_in_use(d: Blocks, ino: u32, other: u32)
    requires
        wf_blocks(d),
        free_inode(d, ino).1,
        other != ino,
    ensures
        read_inode(free_inode(d, ino).0, ino) is None,
        read_inode(free_inode(d, ino).0, other) == read_inode(d, other),
{
    let after = free_inode(d, ino).0;
    let b = read_at(d, inode_block(ino))->0;
    let raw = zeros(INODE_SIZE as nat);
    let off = inode_offset(ino);
    let s = splice(b, off, raw);
    assert(b.len() == BLOCK_SIZE);
    assert(0 <= off && off + INODE_SIZE <= BLOCK_SIZE);
    assert(s[off] == 0 && s[off + 1] == 0 && s[off + 2] == 0 && s[off + 3] == 0);
    assert(le32_at(s, off) == 0);
    assert(inode_at(s, off).flags == 0) by {
        reveal(inode_at);
    }
    assert(0u32 & INODE_USED == 0) by (bit_vector);
    assert(read_at(after, inode_block(ino)) == Some(s));
    if other < INODE_COUNT {
        let oo = inode_offset(other);
        if inode_block(other) == inode_block(ino) {
            assert(oo + INODE_SIZE <= off || off + INODE_SIZE <= oo);
            let part = b.subrange(oo, oo + INODE_SIZE);
            assert(s.subrange(oo, oo + INODE_SIZE) =~= part);
            lemma_inode_at_shift(s, oo, part);
            lemma_inode_at_shift(b, oo, part);
        } else {
            assert(read_at(after, inode_block(other)) == read_at(d, inode_block(other)));
        }
    }
}

} // verus!
