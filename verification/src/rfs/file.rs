//! File data: the block map, reading, and growing a file.

use vstd::prelude::*;
use crate::bytes::{get_u32, le32, le32_at, put_bytes, put_u32, splice, zero_bytes, zeros};
use crate::rfs::disk::{
    alloc_block, can_write, free_block, read_at, written, Blocks, Disk, BLOCK_SIZE,
};
use crate::rfs::inode::{
    extent_at, extent_bytes, write_inode, Extent, Inode, InodeView, EXTENT_SIZE, INLINE_EXTENTS,
    OVFL_EXTENTS, OVFL_HDR,
};

verus! {

/// Machine addition of block numbers.
pub open spec fn wrap32(a: u32, b: u32) -> u32 {
    ((a + b) % 0x1_0000_0000) as u32
}

fn add32(a: u32, b: u32) -> (r: u32)
    ensures
        r == wrap32(a, b),
{
    a.wrapping_add(b)
}

// ── Extents ──────────────────────────────────────────────────────────────────

/// The extent maps this logical block.
pub open spec fn covers(e: Extent, logical: u32) -> bool {
    e.logical <= logical && logical < wrap32(e.logical, e.count)
}

/// Where the extent puts a logical block that it maps.
pub open spec fn place(e: Extent, logical: u32) -> u32 {
    wrap32(e.physical, (logical - e.logical) as u32)
}

/// Where the first extent from `i` on that maps the logical block puts it.
pub open spec fn find_from(es: Seq<Extent>, i: int, logical: u32) -> Option<u32>
    decreases es.len() - i,
{
    if i >= es.len() {
        None
    } else if covers(es[i], logical) {
        Some(place(es[i], logical))
    } else {
        find_from(es, i + 1, logical)
    }
}

/// The extents that the inode itself holds.
pub open spec fn inline_extents(i: InodeView) -> Seq<Extent> {
    i.extents.take(
        if i.extent_count < INLINE_EXTENTS {
            i.extent_count as int
        } else {
            INLINE_EXTENTS as int
        },
    )
}

/// The number of the overflow block that follows, or 0.
pub open spec fn ovfl_next(b: Seq<u8>) -> u32 {
    le32_at(b, 0)
}

/// How many extents an overflow block says it holds.
pub open spec fn ovfl_used(b: Seq<u8>) -> u32 {
    le32_at(b, 4)
}

/// The extents of an overflow block.
pub open spec fn ovfl_extents(b: Seq<u8>) -> Seq<Extent> {
    Seq::new(
        if ovfl_used(b) < OVFL_EXTENTS {
            ovfl_used(b) as nat
        } else {
            OVFL_EXTENTS as nat
        },
        |k: int| extent_at(b, OVFL_HDR + k * EXTENT_SIZE),
    )
}

/// The longest chain of overflow blocks that is followed on a device of `n`
/// blocks. No chain that ends is longer.
pub open spec fn chain_fuel(n: nat) -> nat {
    if n < 0x1_0000 {
        0x1_0000
    } else {
        n
    }
}

fn fuel_for(n: usize) -> (r: usize)
    ensures
        r == chain_fuel(n as nat),
{
    if n < 0x1_0000 {
        0x1_0000
    } else {
        n
    }
}

/// Search the chain of overflow blocks from `ovfl` on, of which `count - seen`
/// extents are still to come. A chain of more than `fuel` blocks runs in a
/// circle and maps nothing.
pub open spec fn chain_find(
    d: Blocks,
    ovfl: u32,
    seen: int,
    count: int,
    logical: u32,
    fuel: nat,
) -> Option<u32>
    decreases fuel,
{
    if fuel == 0 {
        None
    } else {
        match read_at(d, ovfl) {
            None => None,
            Some(b) => match find_from(ovfl_extents(b), 0, logical) {
                Some(p) => Some(p),
                None => if seen + ovfl_used(b) >= count || ovfl_next(b) == 0 {
                    None
                } else {
                    chain_find(
                        d,
                        ovfl_next(b),
                        seen + ovfl_used(b),
                        count,
                        logical,
                        (fuel - 1) as nat,
                    )
                },
            },
        }
    }
}

/// The physical block of a logical one; `None` is a hole.
pub open spec fn resolve_block(d: Blocks, i: InodeView, logical: u32) -> Option<u32> {
    match find_from(inline_extents(i), 0, logical) {
        Some(p) => Some(p),
        None => if i.extent_count <= INLINE_EXTENTS || i.ovfl_block == 0 {
            None
        } else {
            chain_find(
                d,
                i.ovfl_block,
                INLINE_EXTENTS as int,
                i.extent_count as int,
                logical,
                chain_fuel(d.len()),
            )
        },
    }
}

/// The logical block of a byte position.
pub open spec fn logical_of(pos: u64) -> u32 {
    ((pos / BLOCK_SIZE as u64) % 0x1_0000_0000) as u32
}

/// The byte of a file at a position: 0 in a hole, `None` where the block
/// cannot be read.
pub open spec fn file_byte(d: Blocks, i: InodeView, pos: u64) -> Option<u8> {
    match resolve_block(d, i, logical_of(pos)) {
        None => Some(0),
        Some(p) => match read_at(d, p) {
            Some(b) => Some(b[(pos % BLOCK_SIZE as u64) as int]),
            None => None,
        },
    }
}

/// How many bytes a read at `offset` of at most `want` bytes asks for.
pub open spec fn wanted(i: InodeView, offset: u64, want: int) -> int {
    if offset >= i.size {
        0
    } else if want < i.size - offset {
        want
    } else {
        i.size - offset
    }
}

/// `out` is what the file holds from `offset` on, up to `want` bytes, the end
/// of the file, or the first block that cannot be read.
pub open spec fn is_read(d: Blocks, i: InodeView, offset: u64, want: int, out: Seq<u8>) -> bool {
    &&& out.len() <= wanted(i, offset, want)
    &&& forall|k: int|
        0 <= k < out.len() ==> file_byte(d, i, (offset + k) as u64) == Some(#[trigger] out[k])
    &&& out.len() < wanted(i, offset, want) ==> file_byte(d, i, (offset + out.len()) as u64) is None
}

fn extent_in(b: &[u8], off: usize) -> (e: Extent)
    requires
        off + EXTENT_SIZE <= b.len(),
    ensures
        e == extent_at(b@, off as int),
{
    Extent {
        logical: get_u32(b, off),
        physical: get_u32(b, off + 4),
        count: get_u32(b, off + 8),
        flags: get_u32(b, off + 12),
    }
}

/// Search the extents of one overflow block.
fn find_in_ovfl(buf: &Vec<u8>, logical: u32) -> (r: Option<u32>)
    requires
        buf.len() == BLOCK_SIZE,
    ensures
        r == find_from(ovfl_extents(buf@), 0, logical),
{
    let used: u32 = get_u32(buf, 4);
    let n: usize = if used < OVFL_EXTENTS as u32 {
        used as usize
    } else {
        OVFL_EXTENTS
    };
    let ghost es = ovfl_extents(buf@);
    let mut k: usize = 0;
    while k < n
        invariant
            buf@.len() == BLOCK_SIZE,
            n == es.len(),
            n <= OVFL_EXTENTS,
            es == ovfl_extents(buf@),
            find_from(es, 0, logical) == find_from(es, k as int, logical),
        decreases n - k,
    {
        let e: Extent = extent_in(buf, OVFL_HDR + k * EXTENT_SIZE);
        assert(e == es[k as int]);
        if logical >= e.logical && logical < add32(e.logical, e.count) {
            return Some(add32(e.physical, logical - e.logical));
        }
        k += 1;
    }
    None
}

impl Disk {
    fn chain_find(&self, first: u32, count: u16, logical: u32) -> (r: Option<u32>)
        requires
            self.wf(),
            count > INLINE_EXTENTS,
        ensures
            r == chain_find(
                self@,
                first,
                INLINE_EXTENTS as int,
                count as int,
                logical,
                chain_fuel(self@.len()),
            ),
    {
        let mut ovfl: u32 = first;
        let mut seen: u64 = INLINE_EXTENTS as u64;
        let mut fuel: usize = fuel_for(self.blocks.len());
        while fuel > 0
            invariant
                self.wf(),
                seen < count,
                chain_find(
                    self@,
                    first,
                    INLINE_EXTENTS as int,
                    count as int,
                    logical,
                    chain_fuel(self@.len()),
                ) == chain_find(self@, ovfl, seen as int, count as int, logical, fuel as nat),
            decreases fuel,
        {
            let buf: &Vec<u8> = match self.read_block(ovfl) {
                Some(b) => b,
                None => {
                    return None;
                },
            };
            if let Some(p) = find_in_ovfl(buf, logical) {
                return Some(p);
            }
            let used: u32 = get_u32(buf, 4);
            seen = seen + used as u64;
            if seen >= count as u64 {
                return None;
            }
            let next: u32 = get_u32(buf, 0);
            if next == 0 {
                return None;
            }
            ovfl = next;
            fuel -= 1;
        }
        None
    }

    /// Map a logical block to a physical one; `None` is a hole.
    pub fn resolve_block(&self, inode: &Inode, logical: u32) -> (r: Option<u32>)
        requires
            self.wf(),
        ensures
            r == resolve_block(self@, inode@, logical),
    {
        let n: usize = if (inode.extent_count as usize) < INLINE_EXTENTS {
            inode.extent_count as usize
        } else {
            INLINE_EXTENTS
        };
        let ghost es = inline_extents(inode@);
        let mut k: usize = 0;
        while k < n
            invariant
                n == es.len(),
                n <= INLINE_EXTENTS,
                es == inline_extents(inode@),
                find_from(es, 0, logical) == find_from(es, k as int, logical),
            decreases n - k,
        {
            let e: Extent = inode.extents[k];
            assert(e == es[k as int]);
            if logical >= e.logical && logical < add32(e.logical, e.count) {
                return Some(add32(e.physical, logical - e.logical));
            }
            k += 1;
        }
        if inode.extent_count as usize <= INLINE_EXTENTS || inode.ovfl_block == 0 {
            return None;
        }
        self.chain_find(inode.ovfl_block, inode.extent_count, logical)
    }

    /// Read into `buf` what the file holds from byte `offset` on; holes read as
    /// zero. Returns how many bytes were read.
    pub fn read_file_data(&self, inode: &Inode, offset: u64, buf: &mut [u8]) -> (n: usize)
        requires
            self.wf(),
        ensures
            n <= old(buf)@.len(),
            final(buf)@.len() == old(buf)@.len(),
            is_read(self@, inode@, offset, old(buf)@.len() as int, final(buf)@.take(n as int)),
            final(buf)@.skip(n as int) == old(buf)@.skip(n as int),
    {
        let ghost want = old(buf)@.len() as int;
        if offset >= inode.size {
            assert(buf@.take(0).len() == 0);
            return 0;
        }
        let avail: u64 = inode.size - offset;
        let room: u64 = buf.len() as u64;
        let to_read: usize = if room < avail {
            buf.len()
        } else {
            avail as usize
        };
        let mut done: usize = 0;
        while done < to_read
            invariant
                self.wf(),
                done <= to_read,
                to_read == wanted(inode@, offset, want),
                to_read <= want,
                offset + to_read <= inode.size,
                buf@.len() == want,
                old(buf)@.len() == want,
                forall|k: int|
                    0 <= k < done ==> file_byte(self@, inode@, (offset + k) as u64) == Some(
                        #[trigger] buf@[k],
                    ),
                forall|k: int| done <= k < want ==> buf@[k] == old(buf)@[k],
            decreases to_read - done,
        {
            let pos: u64 = offset + done as u64;
            let logical: u32 = ((pos / BLOCK_SIZE as u64) % 0x1_0000_0000) as u32;
            let off: usize = (pos % BLOCK_SIZE as u64) as usize;
            let chunk: usize = if BLOCK_SIZE - off < to_read - done {
                BLOCK_SIZE - off
            } else {
                to_read - done
            };
            let block: Option<&Vec<u8>> = match self.resolve_block(inode, logical) {
                Some(p) => {
                    let b = self.read_block(p);
                    if b.is_none() {
                        assert(file_byte(self@, inode@, pos) is None);
                        assert(buf@.skip(done as int) =~= old(buf)@.skip(done as int));
                        return done;
                    }
                    b
                },
                None => None,
            };
            let start: usize = done;
            let mut j: usize = 0;
            while j < chunk
                invariant
                    self.wf(),
                    start + chunk <= to_read,
                    off + chunk <= BLOCK_SIZE,
                    pos == offset + start,
                    off == pos % BLOCK_SIZE as u64,
                    offset + to_read <= inode.size,
                    logical == logical_of(pos),
                    to_read <= want,
                    buf@.len() == want,
                    old(buf)@.len() == want,
                    j <= chunk,
                    match resolve_block(self@, inode@, logical) {
                        Some(p) => block is Some && read_at(self@, p) == Some(block->0@)
                            && block->0@.len() == BLOCK_SIZE,
                        None => block is None,
                    },
                    forall|k: int|
                        0 <= k < start + j ==> file_byte(self@, inode@, (offset + k) as u64)
                            == Some(#[trigger] buf@[k]),
                    forall|k: int| start + j <= k < want ==> buf@[k] == old(buf)@[k],
                decreases chunk - j,
            {
                let byte: u8 = match block {
                    Some(b) => b[off + j],
                    None => 0,
                };
                proof {
                    let at = (pos + j) as u64;
                    assert(at / BLOCK_SIZE as u64 == pos / BLOCK_SIZE as u64 && at
                        % BLOCK_SIZE as u64 == off + j) by {
                        lemma_same_block(pos as int, j as int);
                    }
                    assert(file_byte(self@, inode@, at) == Some(byte));
                }
                buf[start + j] = byte;
                j += 1;
            }
            done = start + chunk;
        }
        assert(buf@.skip(done as int) =~= old(buf)@.skip(done as int));
        done
    }
}

/// Two positions in one block.
pub proof fn lemma_same_block(pos: int, j: int)
    requires
        0 <= pos,
        0 <= j,
        pos % 4096 + j < 4096,
    ensures
        (pos + j) / 4096 == pos / 4096,
        (pos + j) % 4096 == pos % 4096 + j,
{
}

// ── Growing and freeing ──────────────────────────────────────────────────────

/// The number of logical blocks of a file of this size.
pub open spec fn block_count(size: u64) -> u32 {
    ((size as int / 4096 + if size % 4096 != 0 {
        1int
    } else {
        0int
    }) % 0x1_0000_0000) as u32
}

pub fn count_blocks(size: u64) -> (n: u32)
    ensures
        n == block_count(size),
{
    let full: u64 = size / 4096;
    let n: u64 = if size % 4096 != 0 {
        full + 1
    } else {
        full
    };
    (n % 0x1_0000_0000) as u32
}

/// The count after one more extent; the counter is 16 bits wide.
pub open spec fn next_count(n: u16) -> u16 {
    ((n + 1) % 0x1_0000) as u16
}

/// A fresh overflow block that holds one extent.
pub open spec fn new_ovfl(e: Extent) -> Seq<u8> {
    splice(splice(zeros(BLOCK_SIZE as nat), 4, le32(1)), OVFL_HDR as int, extent_bytes(e))
}

/// An overflow block with one more extent.
pub open spec fn grown_ovfl(b: Seq<u8>, e: Extent) -> Seq<u8> {
    splice(
        splice(b, OVFL_HDR + ovfl_used(b) * EXTENT_SIZE, extent_bytes(e)),
        4,
        le32((ovfl_used(b) + 1) as u32),
    )
}

/// Append an extent at the end of the overflow chain that starts at `ovfl`.
/// A chain of more than `fuel` blocks runs in a circle and takes no extent.
pub open spec fn chain_append(
    d: Blocks,
    ovfl: u32,
    e: Extent,
    total: u32,
    fuel: nat,
) -> (Blocks, bool)
    decreases fuel,
{
    if fuel == 0 {
        (d, false)
    } else {
        match read_at(d, ovfl) {
            None => (d, false),
            Some(b) => if ovfl_next(b) != 0 {
                chain_append(d, ovfl_next(b), e, total, (fuel - 1) as nat)
            } else if ovfl_used(b) < OVFL_EXTENTS {
                (written(d, ovfl, grown_ovfl(b, e)), can_write(d, ovfl))
            } else {
                match alloc_block(d, total) {
                    (d1, None) => (d1, false),
                    (d1, Some(n)) => if can_write(d1, n) {
                        let d2 = written(d1, n, new_ovfl(e));
                        (written(d2, ovfl, splice(b, 0, le32(n))), can_write(d2, ovfl))
                    } else {
                        (free_block(d1, n), false)
                    },
                }
            },
        }
    }
}

/// Append an extent to an inode: the device, the inode, and whether it was
/// done.
pub open spec fn add_extent(d: Blocks, i: InodeView, e: Extent, total: u32) -> (
    Blocks,
    InodeView,
    bool,
) {
    if i.extent_count < INLINE_EXTENTS {
        let i1 = InodeView {
            extents: i.extents.update(i.extent_count as int, e),
            extent_count: next_count(i.extent_count),
            ..i
        };
        (d, i1, true)
    } else if i.ovfl_block == 0 {
        match alloc_block(d, total) {
            (d1, None) => (d1, i, false),
            (d1, Some(b)) => if can_write(d1, b) {
                let i1 = InodeView {
                    ovfl_block: b,
                    extent_count: next_count(i.extent_count),
                    ..i
                };
                (written(d1, b, new_ovfl(e)), i1, true)
            } else {
                (free_block(d1, b), i, false)
            },
        }
    } else {
        match chain_append(d, i.ovfl_block, e, total, chain_fuel(d.len())) {
            (d1, true) => (d1, InodeView { extent_count: next_count(i.extent_count), ..i }, true),
            (d1, false) => (d1, i, false),
        }
    }
}

/// The extent for one new block.
pub open spec fn one_block(logical: u32, physical: u32) -> Extent {
    Extent { logical, physical, count: 1, flags: 0 }
}

/// The block to which the next byte of a file goes, allocated where the file
/// has none there yet.
pub open spec fn block_for_append(d: Blocks, i: InodeView, total: u32) -> (
    Blocks,
    InodeView,
    Option<u32>,
) {
    let logical = logical_of(i.size);
    match resolve_block(d, i, logical) {
        Some(p) => (d, i, Some(p)),
        None => match alloc_block(d, total) {
            (d1, None) => (d1, i, None),
            (d1, Some(b)) => match add_extent(d1, i, one_block(logical, b), total) {
                (d2, i2, true) => (d2, InodeView { blocks: wrap64(i2.blocks, 1), ..i2 }, Some(b)),
                (d2, i2, false) => (free_block(d2, b), i2, None),
            },
        },
    }
}

/// Machine addition of 64-bit counters.
pub open spec fn wrap64(a: u64, b: u64) -> u64 {
    ((a + b) % 0x1_0000_0000_0000_0000) as u64
}

/// How many of `len` bytes still fit into the block at the end of the file.
pub open spec fn chunk_len(size: u64, len: int) -> int {
    let room = BLOCK_SIZE - size % BLOCK_SIZE as u64;
    if room < len {
        room
    } else {
        len
    }
}

/// Append bytes to a file block by block, then store its inode. What was
/// appended before a failure stays on the device.
pub open spec fn append_to_file(d: Blocks, ino: u32, i: InodeView, data: Seq<u8>, total: u32) -> (
    Blocks,
    InodeView,
    bool,
)
    decreases data.len(),
{
    if data.len() == 0 {
        let (d1, ok) = write_inode(d, ino, i);
        (d1, i, ok)
    } else {
        match block_for_append(d, i, total) {
            (d1, i1, None) => (d1, i1, false),
            (d1, i1, Some(p)) => match read_at(d1, p) {
                None => (d1, i1, false),
                Some(b) => {
                    let n = chunk_len(i1.size, data.len() as int);
                    if can_write(d1, p) {
                        let b1 = splice(b, (i1.size % BLOCK_SIZE as u64) as int, data.take(n));
                        let i2 = InodeView { size: wrap64(i1.size, n as u64), ..i1 };
                        append_to_file(written(d1, p, b1), ino, i2, data.skip(n), total)
                    } else {
                        (d1, i1, false)
                    }
                },
            },
        }
    }
}

/// Give back the blocks that a file's extents map, from logical block `l` on.
pub open spec fn free_mapped(d: Blocks, i: InodeView, l: int, n: int) -> Blocks
    decreases n - l,
{
    if l >= n {
        d
    } else {
        match resolve_block(d, i, l as u32) {
            Some(p) => free_mapped(free_block(d, p), i, l + 1, n),
            None => free_mapped(d, i, l + 1, n),
        }
    }
}

/// Give back the overflow blocks of a chain of at most `fuel` blocks.
pub open spec fn free_chain(d: Blocks, ovfl: u32, fuel: nat) -> Blocks
    decreases fuel,
{
    if fuel == 0 || ovfl == 0 {
        d
    } else {
        match read_at(d, ovfl) {
            None => d,
            Some(b) => free_chain(free_block(d, ovfl), ovfl_next(b), (fuel - 1) as nat),
        }
    }
}

/// Give back all blocks of a file.
pub open spec fn free_inode_blocks(d: Blocks, i: InodeView) -> Blocks {
    let d1 = free_mapped(d, i, 0, block_count(i.size) as int);
    free_chain(d1, i.ovfl_block, chain_fuel(d1.len()))
}

fn add64(a: u64, b: u64) -> (r: u64)
    ensures
        r == wrap64(a, b),
{
    a.wrapping_add(b)
}

fn bytes_of_extent(e: Extent) -> (v: Vec<u8>)
    ensures
        v@ == extent_bytes(e),
        v@.len() == EXTENT_SIZE,
{
    let mut v: Vec<u8> = zero_bytes(EXTENT_SIZE);
    put_u32(&mut v, 0, e.logical);
    put_u32(&mut v, 4, e.physical);
    put_u32(&mut v, 8, e.count);
    put_u32(&mut v, 12, e.flags);
    assert(v@ =~= extent_bytes(e));
    v
}

/// Write extent `idx` of an overflow block.
fn write_ovfl_extent(buf: &mut Vec<u8>, idx: usize, e: Extent)
    requires
        old(buf).len() == BLOCK_SIZE,
        idx < OVFL_EXTENTS,
    ensures
        final(buf)@ == splice(old(buf)@, OVFL_HDR + idx * EXTENT_SIZE, extent_bytes(e)),
{
    let raw: Vec<u8> = bytes_of_extent(e);
    put_bytes(buf, OVFL_HDR + idx * EXTENT_SIZE, &raw, 0, EXTENT_SIZE);
    assert(raw@.subrange(0, EXTENT_SIZE as int) =~= raw@);
}

fn make_ovfl(e: Extent) -> (v: Vec<u8>)
    ensures
        v@ == new_ovfl(e),
        v@.len() == BLOCK_SIZE,
{
    let mut v: Vec<u8> = zero_bytes(BLOCK_SIZE);
    put_u32(&mut v, 4, 1);
    write_ovfl_extent(&mut v, 0, e);
    v
}

impl Disk {
    fn chain_append(&mut self, first: u32, e: Extent, total: u32) -> (ok: bool)
        requires
            old(self).wf(),
        ensures
            final(self).wf(),
            (final(self)@, ok) == chain_append(
                old(self)@,
                first,
                e,
                total,
                chain_fuel(old(self)@.len()),
            ),
            final(self).present == old(self).present,
    {
        let ghost d0 = self@;
        let mut ovfl: u32 = first;
        let mut fuel: usize = fuel_for(self.blocks.len());
        while fuel > 0
            invariant
                self.wf(),
                self@ == d0,
                d0 == old(self)@,
                self.present == old(self).present,
                chain_append(d0, first, e, total, chain_fuel(d0.len())) == chain_append(
                    d0,
                    ovfl,
                    e,
                    total,
                    fuel as nat,
                ),
            decreases fuel,
        {
            let mut obuf: Vec<u8> = match self.read_block(ovfl) {
                Some(b) => b.clone(),
                None => {
                    return false;
                },
            };
            let next: u32 = get_u32(&obuf, 0);
            let used: u32 = get_u32(&obuf, 4);
            if next == 0 {
                if used < OVFL_EXTENTS as u32 {
                    write_ovfl_extent(&mut obuf, used as usize, e);
                    put_u32(&mut obuf, 4, used + 1);
                    return self.write_block(ovfl, obuf);
                }
                let new_blk: u32 = match self.alloc_block(total) {
                    Some(b) => b,
                    None => {
                        return false;
                    },
                };
                if !self.write_block(new_blk, make_ovfl(e)) {
                    self.free_block(new_blk);
                    return false;
                }
                put_u32(&mut obuf, 0, new_blk);
                return self.write_block(ovfl, obuf);
            }
            ovfl = next;
            fuel -= 1;
        }
        false
    }

    /// Append one extent to `inode`, allocating an overflow block if needed.
    pub fn add_extent(&mut self, inode: &mut Inode, e: Extent, total: u32) -> (ok: bool)
        requires
            old(self).wf(),
        ensures
            final(self).wf(),
            (final(self)@, final(inode)@, ok) == add_extent(old(self)@, old(inode)@, e, total),
            final(self).present == old(self).present,
    {
        let idx: usize = inode.extent_count as usize;
        if idx < INLINE_EXTENTS {
            inode.extents[idx] = e;
            inode.extent_count = inode.extent_count + 1;
            return true;
        }
        if inode.ovfl_block == 0 {
            let blk: u32 = match self.alloc_block(total) {
                Some(b) => b,
                None => {
                    return false;
                },
            };
            if !self.write_block(blk, make_ovfl(e)) {
                self.free_block(blk);
                return false;
            }
            inode.ovfl_block = blk;
            inode.extent_count = inode.extent_count.wrapping_add(1);
            return true;
        }
        if !self.chain_append(inode.ovfl_block, e, total) {
            return false;
        }
        inode.extent_count = inode.extent_count.wrapping_add(1);
        true
    }

    fn block_for_append(&mut self, inode: &mut Inode, total: u32) -> (r: Option<u32>)
        requires
            old(self).wf(),
        ensures
            final(self).wf(),
            (final(self)@, final(inode)@, r) == block_for_append(old(self)@, old(inode)@, total),
            final(self).present == old(self).present,
    {
        let logical: u32 = ((inode.size / BLOCK_SIZE as u64) % 0x1_0000_0000) as u32;
        if let Some(p) = self.resolve_block(inode, logical) {
            return Some(p);
        }
        let blk: u32 = match self.alloc_block(total) {
            Some(b) => b,
            None => {
                return None;
            },
        };
        let e = Extent { logical, physical: blk, count: 1, flags: 0 };
        if !self.add_extent(inode, e, total) {
            self.free_block(blk);
            return None;
        }
        inode.blocks = add64(inode.blocks, 1);
        Some(blk)
    }

    /// Append `data` to the end of a file, allocating blocks as needed, and
    /// store the inode.
    pub fn append_to_file(&mut self, ino: u32, inode: &mut Inode, data: &[u8], total: u32) -> (ok:
        bool)
        requires
            old(self).wf(),
        ensures
            final(self).wf(),
            (final(self)@, final(inode)@, ok) == append_to_file(
                old(self)@,
                ino,
                old(inode)@,
                data@,
                total,
            ),
            final(self).present == old(self).present,
    {
        let ghost goal = append_to_file(self@, ino, inode@, data@, total);
        let mut pos: usize = 0;
        assert(data@.skip(0) =~= data@);
        while pos < data.len()
            invariant
                self.wf(),
                self.present == old(self).present,
                pos <= data.len(),
                goal == append_to_file(old(self)@, ino, old(inode)@, data@, total),
                goal == append_to_file(self@, ino, inode@, data@.skip(pos as int), total),
            decreases data.len() - pos,
        {
            let ghost rest = data@.skip(pos as int);
            let phys: u32 = match self.block_for_append(inode, total) {
                Some(p) => p,
                None => {
                    return false;
                },
            };
            let mut buf: Vec<u8> = match self.read_block(phys) {
                Some(b) => b.clone(),
                None => {
                    return false;
                },
            };
            let off: usize = (inode.size % BLOCK_SIZE as u64) as usize;
            let chunk: usize = if BLOCK_SIZE - off < data.len() - pos {
                BLOCK_SIZE - off
            } else {
                data.len() - pos
            };
            put_bytes(&mut buf, off, data, pos, chunk);
            assert(data@.subrange(pos as int, pos + chunk) =~= rest.take(chunk as int));
            if !self.write_block(phys, buf) {
                return false;
            }
            inode.size = add64(inode.size, chunk as u64);
            pos += chunk;
            assert(rest.skip(chunk as int) =~= data@.skip(pos as int));
        }
        assert(data@.skip(pos as int).len() == 0);
        self.write_inode(ino, inode)
    }

    /// Free all data blocks and overflow blocks of a file.
    pub fn free_inode_blocks(&mut self, inode: &Inode)
        requires
            old(self).wf(),
        ensures
            final(self).wf(),
            final(self)@ == free_inode_blocks(old(self)@, inode@),
            final(self).present == old(self).present,
    {
        let n: u32 = count_blocks(inode.size);
        let ghost d0 = self@;
        let mut l: u32 = 0;
        while l < n
            invariant
                self.wf(),
                self.present == old(self).present,
                n == block_count(inode.size),
                l <= n,
                free_mapped(d0, inode@, 0, n as int) == free_mapped(
                    self@,
                    inode@,
                    l as int,
                    n as int,
                ),
            decreases n - l,
        {
            if let Some(p) = self.resolve_block(inode, l) {
                self.free_block(p);
            }
            l += 1;
        }
        let ghost d1 = self@;
        let mut ovfl: u32 = inode.ovfl_block;
        let mut fuel: usize = fuel_for(self.blocks.len());
        while fuel > 0 && ovfl != 0
            invariant
                self.wf(),
                self.present == old(self).present,
                d1 == free_mapped(old(self)@, inode@, 0, block_count(inode.size) as int),
                free_chain(d1, inode.ovfl_block, chain_fuel(d1.len())) == free_chain(
                    self@,
                    ovfl,
                    fuel as nat,
                ),
            decreases fuel,
        {
            let next: u32 = match self.read_block(ovfl) {
                Some(b) => get_u32(b, 0),
                None => {
                    return;
                },
            };
            self.free_block(ovfl);
            ovfl = next;
            fuel -= 1;
        }
    }
}

} // verus!
