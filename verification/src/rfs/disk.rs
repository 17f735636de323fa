//! The block device as the file system sees it, and the block bitmap.

use vstd::prelude::*;

verus! {

/// Bytes in a block.
pub const BLOCK_SIZE: usize = 4096;

/// The block that holds the bitmap.
pub const BITMAP_BLOCK: u32 = 1;

/// The first block that the bitmap hands out.
pub const DATA_START: u32 = 34;

/// Blocks that one bitmap block describes.
pub const BITMAP_SPAN: u32 = 32768;

/// One block of the device. A block that the device cannot read or cannot
/// write fails every such access.
pub struct Block {
    pub data: Vec<u8>,
    pub readable: bool,
    pub writable: bool,
}

/// A block device. `present` tells whether there is a device at all.
pub struct Disk {
    pub present: bool,
    pub blocks: Vec<Block>,
}

/// A block as a mathematical value.
#[verifier::ext_equal]
pub struct BlockView {
    pub data: Seq<u8>,
    pub readable: bool,
    pub writable: bool,
}

/// The contents of a device.
pub type Blocks = Seq<BlockView>;

impl View for Block {
    type V = BlockView;

    open spec fn view(&self) -> BlockView {
        BlockView { data: self.data@, readable: self.readable, writable: self.writable }
    }
}

impl View for Disk {
    type V = Blocks;

    open spec fn view(&self) -> Blocks {
        Seq::new(self.blocks@.len(), |i: int| self.blocks@[i]@)
    }
}

/// Every block has the block size.
pub open spec fn wf_blocks(d: Blocks) -> bool {
    forall|i: int| 0 <= i < d.len() ==> (#[trigger] d[i]).data.len() == BLOCK_SIZE
}

/// What a read of block `blk` gives.
pub open spec fn read_at(d: Blocks, blk: u32) -> Option<Seq<u8>> {
    if blk < d.len() && d[blk as int].readable {
        Some(d[blk as int].data)
    } else {
        None
    }
}

/// A write to block `blk` succeeds.
pub open spec fn can_write(d: Blocks, blk: u32) -> bool {
    blk < d.len() && d[blk as int].writable
}

/// The device after a write to block `blk`; one that fails changes nothing.
pub open spec fn written(d: Blocks, blk: u32, data: Seq<u8>) -> Blocks {
    if can_write(d, blk) {
        d.update(blk as int, BlockView { data, ..d[blk as int] })
    } else {
        d
    }
}

impl Disk {
    pub open spec fn wf(&self) -> bool {
        wf_blocks(self@)
    }

    /// The contents of a block, where the device gives them.
    pub fn read_block(&self, blk: u32) -> (r: Option<&Vec<u8>>)
        requires
            self.wf(),
        ensures
            match read_at(self@, blk) {
                Some(data) => r is Some && r->0@ == data && data.len() == BLOCK_SIZE,
                None => r is None,
            },
    {
        if (blk as u64) < self.blocks.len() as u64 {
            let i: usize = blk as usize;
            assert(self@[i as int] == self.blocks@[i as int]@);
            if self.blocks[i].readable {
                return Some(&self.blocks[i].data);
            }
        }
        None
    }

    /// Replace the contents of a block; tells whether the device took them.
    pub fn write_block(&mut self, blk: u32, data: Vec<u8>) -> (ok: bool)
        requires
            old(self).wf(),
            data.len() == BLOCK_SIZE,
        ensures
            final(self).wf(),
            ok == can_write(old(self)@, blk),
            final(self)@ == written(old(self)@, blk, data@),
            final(self).present == old(self).present,
    {
        if (blk as u64) < self.blocks.len() as u64 {
            let i: usize = blk as usize;
            assert(self@[i as int] == self.blocks@[i as int]@);
            if self.blocks[i].writable {
                let ghost dv = data@;
                self.blocks[i].data = data;
                assert(self@ =~= written(old(self)@, blk, dv));
                return true;
            }
        }
        false
    }
}

// ── Bitmap ───────────────────────────────────────────────────────────────────

/// Bit `k` of a byte.
pub open spec fn bit(byte: u8, k: u8) -> bool {
    byte & (1u8 << k) != 0
}

/// Block `blk` is marked used.
pub open spec fn used(map: Seq<u8>, blk: int) -> bool {
    bit(map[blk / 8], (blk % 8) as u8)
}

/// The bitmap with block `blk` marked used.
pub open spec fn marked(map: Seq<u8>, blk: int) -> Seq<u8> {
    map.update(blk / 8, map[blk / 8] | (1u8 << ((blk % 8) as u8)))
}

/// The bitmap with block `blk` marked free.
pub open spec fn unmarked(map: Seq<u8>, blk: int) -> Seq<u8> {
    map.update(blk / 8, map[blk / 8] & !(1u8 << ((blk % 8) as u8)))
}

/// The first free block in `[from, end)`.
pub open spec fn first_free(map: Seq<u8>, from: int, end: int) -> Option<u32>
    decreases end - from,
{
    if from >= end {
        None
    } else if !used(map, from) {
        Some(from as u32)
    } else {
        first_free(map, from + 1, end)
    }
}

/// The end of the blocks that can be handed out.
pub open spec fn alloc_end(total: u32) -> u32 {
    if total < BITMAP_SPAN {
        total
    } else {
        BITMAP_SPAN
    }
}

/// Take the first free data block: the device afterwards and the block.
pub open spec fn alloc_block(d: Blocks, total: u32) -> (Blocks, Option<u32>) {
    match read_at(d, BITMAP_BLOCK) {
        None => (d, None),
        Some(map) => match first_free(map, DATA_START as int, alloc_end(total) as int) {
            None => (d, None),
            Some(blk) => if can_write(d, BITMAP_BLOCK) {
                (written(d, BITMAP_BLOCK, marked(map, blk as int)), Some(blk))
            } else {
                (d, None)
            },
        },
    }
}

/// Give a data block back. A block that the bitmap does not describe, or that
/// is not a data block, is left alone.
pub open spec fn free_block(d: Blocks, blk: u32) -> Blocks {
    match read_at(d, BITMAP_BLOCK) {
        Some(map) => if DATA_START <= blk < BITMAP_SPAN {
            written(d, BITMAP_BLOCK, unmarked(map, blk as int))
        } else {
            d
        },
        None => d,
    }
}

/// Setting and clearing one bit of a byte changes that bit alone.
pub proof fn lemma_bits(byte: u8, k: u8, j: u8)
    requires
        k < 8,
        j < 8,
    ensures
        bit(byte | (1u8 << k), j) == (j == k || bit(byte, j)),
        bit(byte & !(1u8 << k), j) == (j != k && bit(byte, j)),
{
    assert((byte | (1u8 << k)) & (1u8 << j) != 0 <==> (j == k || byte & (1u8 << j) != 0))
        by (bit_vector)
        requires
            k < 8,
            j < 8,
    ;
    assert((byte & !(1u8 << k)) & (1u8 << j) != 0 <==> (j != k && byte & (1u8 << j) != 0))
        by (bit_vector)
        requires
            k < 8,
            j < 8,
    ;
}

pub proof fn lemma_first_free(map: Seq<u8>, from: int, end: int)
    requires
        0 <= from,
        end <= BITMAP_SPAN,
    ensures
        match first_free(map, from, end) {
            Some(b) => from <= b < end && !used(map, b as int),
            None => forall|b: int| from <= b < end ==> used(map, b),
        },
    decreases end - from,
{
    if from < end && used(map, from) {
        lemma_first_free(map, from + 1, end);
    }
}

impl Disk {
    /// Find a free data block, mark it used and return it.
    pub fn alloc_block(&mut self, total: u32) -> (r: Option<u32>)
        requires
            old(self).wf(),
        ensures
            final(self).wf(),
            (final(self)@, r) == alloc_block(old(self)@, total),
            final(self).present == old(self).present,
    {
        let mut map: Vec<u8> = match self.read_block(BITMAP_BLOCK) {
            Some(b) => b.clone(),
            None => {
                return None;
            },
        };
        let ghost map0 = map@;
        let end: u32 = if total < BITMAP_SPAN {
            total
        } else {
            BITMAP_SPAN
        };
        let mut blk: u32 = DATA_START;
        while blk < end
            invariant
                DATA_START <= blk,
                end == alloc_end(total),
                map@ == map0,
                map@.len() == BLOCK_SIZE,
                self.wf(),
                *self == *old(self),
                read_at(self@, BITMAP_BLOCK) == Some(map0),
                first_free(map0, DATA_START as int, end as int) == first_free(
                    map0,
                    blk as int,
                    end as int,
                ),
            decreases end - blk,
        {
            let i: usize = (blk / 8) as usize;
            let k: u8 = (blk % 8) as u8;
            if map[i] & (1u8 << k) == 0 {
                let byte: u8 = map[i];
                map[i] = byte | (1u8 << k);
                assert(map@ =~= marked(map0, blk as int));
                if !self.write_block(BITMAP_BLOCK, map) {
                    return None;
                }
                return Some(blk);
            }
            blk += 1;
        }
        None
    }

    /// Mark a data block free again.
    pub fn free_block(&mut self, blk: u32)
        requires
            old(self).wf(),
        ensures
            final(self).wf(),
            final(self)@ == free_block(old(self)@, blk),
            final(self).present == old(self).present,
    {
        if blk < DATA_START || blk >= BITMAP_SPAN {
            return;
        }
        let mut map: Vec<u8> = match self.read_block(BITMAP_BLOCK) {
            Some(b) => b.clone(),
            None => {
                return;
            },
        };
        let ghost map0 = map@;
        let i: usize = (blk / 8) as usize;
        let k: u8 = (blk % 8) as u8;
        let byte: u8 = map[i];
        map[i] = byte & !(1u8 << k);
        assert(map@ =~= unmarked(map0, blk as int));
        let _ok = self.write_block(BITMAP_BLOCK, map);
    }
}

} // verus!
