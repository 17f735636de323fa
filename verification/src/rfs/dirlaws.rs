//! What holds of directories: entries that are added are found, and entries that
//! are removed are gone.

use vstd::prelude::*;
use vstd::utf8::valid_utf8;
use crate::bytes::{le16, le32, le32_at, lemma_le16_round, lemma_le32_round, splice, zeros};
use crate::rfs::dir::{
    add_dir_entry, add_in_blocks, add_in_new_block, block_entries, dir_entries, entries_from,
    filled_up, free_slot, is_entry, last_record, left, lookup_from, lookup_in_dir, named_slot,
    rec_len, rec_name, remove_dir_entry, remove_in_blocks, scan_limit, stretched, used_limit,
    whole_blocks, EntryView, NewEntry, DIRENT_HDR, FT_REG,
};
use crate::rfs::disk::{
    alloc_block, can_write, read_at, wf_blocks, written, Blocks, BITMAP_BLOCK, BITMAP_SPAN,
    BLOCK_SIZE, DATA_START,
};
use crate::rfs::file::{
    add_extent, block_count, inline_extents, logical_of, one_block, resolve_block, wrap64,
};
use crate::rfs::inode::{
    free_inode_from, inode_at, inode_block, inode_bytes, inode_offset, law_inode_round_trip,
    law_stored_inode_is_read, read_inode, write_inode, InodeView, INLINE_EXTENTS, INODE_COUNT,
    INODE_DIR, INODE_USED,
};
use crate::rfs::ops::{fresh_inode, linked, moved_entry, FsView};
use crate::rfs::laws::{
    bitmap, file_chain, grows_to, healthy, law_new_file_is_healthy, lemma_file_frame,
    lemma_map_block, lemma_same_map, lemma_same_owner, lemma_write_data, lemma_written, owns,
    reads_back, same_shape, taken, MAX_FILE,
};

verus! {

// ── Blocks ───────────────────────────────────────────────────────────────────

/// The records from `pos` on fill a block up to `limit`, each with room for its
/// name.
pub open spec fn tiled(b: Seq<u8>, pos: int, limit: int) -> bool
    decreases left(pos, limit),
{
    if pos >= limit {
        pos == limit
    } else {
        &&& pos + DIRENT_HDR <= limit
        &&& rec_len(b, pos) >= DIRENT_HDR + b[pos + 6]
        &&& tiled(b, pos + rec_len(b, pos), limit)
    }
}

/// What an entry that is added reads as.
pub open spec fn entry_of(e: NewEntry) -> EntryView {
    EntryView { ino: e.ino, file_type: e.file_type, name: e.name }
}

/// An entry that can be found: a file's number, and a name that is text.
pub open spec fn findable(e: NewEntry) -> bool {
    e.ino != 0 && 0 < e.name.len() <= 255 && valid_utf8(e.name)
}

proof fn lemma_tiled_bound(b: Seq<u8>, pos: int, limit: int)
    requires
        tiled(b, pos, limit),
    ensures
        pos <= limit,
{
}

/// Records that are there already read the same in a block that agrees on them.
proof fn lemma_same_records(b: Seq<u8>, c: Seq<u8>, pos: int, limit: int)
    requires
        0 <= pos,
        limit <= BLOCK_SIZE,
        b.len() == BLOCK_SIZE,
        c.len() == BLOCK_SIZE,
        tiled(b, pos, limit),
        forall|j: int| pos <= j < limit ==> c[j] == b[j],
    ensures
        tiled(c, pos, limit),
        block_entries(c, pos, limit) == block_entries(b, pos, limit),
    decreases left(pos, limit),
{
    if pos < limit {
        let next = pos + rec_len(b, pos);
        lemma_tiled_bound(b, next, limit);
        assert(rec_len(c, pos) == rec_len(b, pos));
        assert(le32_at(c, pos) == le32_at(b, pos));
        assert(c[pos + 6] == b[pos + 6] && c[pos + 7] == b[pos + 7]);
        assert(rec_name(c, pos) =~= rec_name(b, pos));
        lemma_same_records(b, c, next, limit);
    }
}

/// The entries of a block are those before a record and those from it on.
proof fn lemma_join(b: Seq<u8>, pos: int, mid: int, limit: int)
    requires
        tiled(b, pos, mid),
        mid <= limit,
    ensures
        block_entries(b, pos, limit) == block_entries(b, pos, mid) + block_entries(b, mid, limit),
    decreases left(pos, mid),
{
    if pos < mid {
        let next = pos + rec_len(b, pos);
        lemma_join(b, next, mid, limit);
        assert(block_entries(b, pos, limit) =~= block_entries(b, pos, mid) + block_entries(
            b,
            mid,
            limit,
        ));
    } else {
        assert(block_entries(b, pos, mid) =~= seq![]);
        assert(seq![] + block_entries(b, mid, limit) =~= block_entries(b, mid, limit));
    }
}

/// The record that is written reads as the entry.
proof fn lemma_new_record(b: Seq<u8>, pos: int, e: NewEntry, rec: u16)
    requires
        b.len() == BLOCK_SIZE,
        0 <= pos,
        pos + DIRENT_HDR + e.name.len() <= BLOCK_SIZE,
        findable(e),
    ensures
        ({
            let c = splice(b, pos, e.bytes(rec));
            &&& c.len() == BLOCK_SIZE
            &&& rec_len(c, pos) == rec
            &&& c[pos + 6] == e.name.len()
            &&& is_entry(c, pos)
            &&& (EntryView { ino: le32_at(c, pos), file_type: c[pos + 7], name: rec_name(c, pos) })
                == entry_of(e)
            &&& DIRENT_HDR + e.name.len() <= e.rec() <= DIRENT_HDR + e.name.len() + 3
            &&& forall|j: int| 0 <= j < pos ==> c[j] == b[j]
            &&& forall|j: int| pos + DIRENT_HDR + e.name.len() <= j < BLOCK_SIZE ==> c[j] == b[j]
        }),
{
    let c = splice(b, pos, e.bytes(rec));
    assert(e.bytes(rec).len() == DIRENT_HDR + e.name.len());
    assert(c.subrange(pos, pos + 4) =~= le32(e.ino));
    lemma_le32_round(c, pos, e.ino);
    assert(c.subrange(pos + 4, pos + 6) =~= le16(rec));
    lemma_le16_round(c, pos + 4, rec);
    assert(c[pos + 6] == e.name.len() as u8);
    assert(rec_name(c, pos) =~= e.name);
}

/// The entries from the record on that is written.
proof fn lemma_new_entries(b: Seq<u8>, pos: int, limit: int, e: NewEntry, rec: u16)
    requires
        b.len() == BLOCK_SIZE,
        0 <= pos,
        pos + DIRENT_HDR <= limit,
        pos + DIRENT_HDR + e.name.len() <= BLOCK_SIZE,
        findable(e),
        rec >= e.rec(),
    ensures
        ({
            let c = splice(b, pos, e.bytes(rec));
            &&& c.len() == BLOCK_SIZE
            &&& block_entries(c, pos, limit) == seq![entry_of(e)] + block_entries(
                c,
                pos + rec,
                limit,
            )
            &&& tiled(c, pos + rec, limit) ==> tiled(c, pos, limit)
            &&& DIRENT_HDR + e.name.len() <= e.rec() <= DIRENT_HDR + e.name.len() + 3
            &&& forall|j: int| 0 <= j < pos ==> c[j] == b[j]
            &&& forall|j: int| pos + rec <= j < BLOCK_SIZE ==> c[j] == b[j]
        }),
{
    lemma_new_record(b, pos, e, rec);
}

/// Where a deleted record is found.
proof fn lemma_free_slot(b: Seq<u8>, pos: int, limit: int, e: NewEntry)
    requires
        0 <= pos,
        tiled(b, pos, limit),
        free_slot(b, pos, limit, e) is Some,
    ensures
        ({
            let at = free_slot(b, pos, limit, e)->0;
            &&& pos <= at
            &&& at + DIRENT_HDR <= limit
            &&& tiled(b, pos, at)
            &&& tiled(b, at, limit)
            &&& le32_at(b, at) == 0
            &&& rec_len(b, at) >= e.rec()
            &&& at + DIRENT_HDR + e.name.len() <= BLOCK_SIZE
        }),
    decreases left(pos, limit),
{
    let at = free_slot(b, pos, limit, e)->0;
    if le32_at(b, pos) == 0 && rec_len(b, pos) >= e.rec() && pos + DIRENT_HDR + e.name.len()
        <= BLOCK_SIZE {
        assert(at == pos);
    } else {
        let next = pos + rec_len(b, pos);
        lemma_free_slot(b, next, limit, e);
        lemma_tiled_bound(b, next, at);
    }
}

/// An entry put into a deleted record of a block joins the others.
proof fn lemma_filled(b: Seq<u8>, limit: int, e: NewEntry)
    requires
        b.len() == BLOCK_SIZE,
        0 <= limit <= BLOCK_SIZE,
        tiled(b, 0, limit),
        findable(e),
        free_slot(b, 0, limit, e) is Some,
    ensures
        ({
            let at = free_slot(b, 0, limit, e)->0;
            let c = splice(b, at, e.bytes(rec_len(b, at)));
            let k = block_entries(b, 0, at).len() as int;
            &&& c.len() == BLOCK_SIZE
            &&& k <= block_entries(b, 0, limit).len()
            &&& block_entries(c, 0, limit) == block_entries(b, 0, limit).insert(k, entry_of(e))
            &&& tiled(c, 0, limit)
        }),
{
    let at = free_slot(b, 0, limit, e)->0;
    let rec = rec_len(b, at);
    let c = splice(b, at, e.bytes(rec));
    lemma_free_slot(b, 0, limit, e);
    lemma_new_entries(b, at, limit, e, rec);
    lemma_join(b, 0, at, limit);
    lemma_same_records(b, c, 0, at);
    lemma_join(c, 0, at, limit);
    lemma_same_records(b, c, at + rec, limit);
    let before = block_entries(b, 0, at);
    let rest = block_entries(b, at + rec, limit);
    assert(block_entries(b, at, limit) == rest);
    let all = block_entries(b, 0, limit);
    let after = block_entries(c, 0, limit);
    assert(after == before + (seq![entry_of(e)] + rest));
    assert(after =~= all.insert(before.len() as int, entry_of(e)));
    lemma_tile(c, 0, at, limit);
}

/// Records up to a place and from there on fill the whole.
proof fn lemma_tile(b: Seq<u8>, pos: int, mid: int, limit: int)
    requires
        tiled(b, pos, mid),
        tiled(b, mid, limit),
    ensures
        tiled(b, pos, limit),
    decreases left(pos, mid),
{
    lemma_tiled_bound(b, mid, limit);
    if pos < mid {
        lemma_tile(b, pos + rec_len(b, pos), mid, limit);
    }
}

/// An entry put behind the records of a block is its last one.
proof fn lemma_appended(b: Seq<u8>, limit: int, e: NewEntry)
    requires
        b.len() == BLOCK_SIZE,
        0 <= limit,
        tiled(b, 0, limit),
        findable(e),
        limit + e.rec() <= BLOCK_SIZE,
    ensures
        ({
            let c = splice(b, limit, e.bytes(e.rec()));
            &&& c.len() == BLOCK_SIZE
            &&& block_entries(c, 0, limit + e.rec()) == block_entries(b, 0, limit).push(entry_of(e))
            &&& tiled(c, 0, limit + e.rec())
        }),
{
    let c = splice(b, limit, e.bytes(e.rec()));
    assert(e.rec() >= DIRENT_HDR + e.name.len());
    let end = limit + e.rec();
    lemma_new_entries(b, limit, end, e, e.rec());
    lemma_same_records(b, c, 0, limit);
    lemma_join(c, 0, limit, end);
    assert(block_entries(c, end, end) =~= seq![]);
    assert(block_entries(c, 0, end) =~= block_entries(b, 0, limit).push(entry_of(e)));
    lemma_tile(c, 0, limit, end);
}

/// An entry at the start of a new block is its only one.
proof fn lemma_started(e: NewEntry)
    requires
        findable(e),
    ensures
        ({
            let c = splice(zeros(BLOCK_SIZE as nat), 0, e.bytes(e.rec()));
            &&& c.len() == BLOCK_SIZE
            &&& block_entries(c, 0, e.rec() as int) == seq![entry_of(e)]
            &&& tiled(c, 0, e.rec() as int)
        }),
{
    let z = zeros(BLOCK_SIZE as nat);
    let c = splice(z, 0, e.bytes(e.rec()));
    let rec = e.rec() as int;
    assert(rec >= DIRENT_HDR + e.name.len());
    lemma_new_entries(z, 0, rec, e, e.rec());
    assert(tiled(c, rec, rec));
    assert(block_entries(c, rec, rec) =~= seq![]);
    assert(block_entries(c, 0, rec) =~= seq![entry_of(e)]);
}

/// Where the last record of a block stands.
proof fn lemma_last_record(b: Seq<u8>, pos: int, limit: int)
    requires
        0 <= pos < limit,
        tiled(b, pos, limit),
    ensures
        ({
            let q = last_record(b, pos, limit)->0;
            &&& last_record(b, pos, limit) is Some
            &&& pos <= q
            &&& q + DIRENT_HDR <= limit
            &&& tiled(b, pos, q)
            &&& tiled(b, q, limit)
            &&& q + rec_len(b, q) == limit
        }),
    decreases left(pos, limit),
{
    let next = pos + rec_len(b, pos);
    lemma_tiled_bound(b, next, limit);
    if next < limit {
        lemma_last_record(b, next, limit);
        let q = last_record(b, next, limit)->0;
        lemma_tiled_bound(b, next, q);
    } else {
        assert(last_record(b, next, limit) is None);
    }
}

/// A block whose last record is stretched to its end is full, with the same
/// entries.
proof fn lemma_stretched(b: Seq<u8>, limit: int)
    requires
        b.len() == BLOCK_SIZE,
        0 < limit <= BLOCK_SIZE,
        tiled(b, 0, limit),
    ensures
        stretched(b, limit).len() == BLOCK_SIZE,
        tiled(stretched(b, limit), 0, BLOCK_SIZE as int),
        block_entries(stretched(b, limit), 0, BLOCK_SIZE as int) == block_entries(b, 0, limit),
{
    lemma_last_record(b, 0, limit);
    let q = last_record(b, 0, limit)->0;
    let end = BLOCK_SIZE as int;
    let rec = (BLOCK_SIZE - q) as u16;
    let c = stretched(b, limit);
    assert(c =~= splice(b, q + 4, le16(rec)));
    assert(c.subrange(q + 4, q + 6) =~= le16(rec));
    lemma_le16_round(c, q + 4, rec);
    assert(rec_len(c, q) == rec);
    assert(le32_at(c, q) == le32_at(b, q));
    assert(c[q + 6] == b[q + 6] && c[q + 7] == b[q + 7]);
    assert(rec_name(c, q) =~= rec_name(b, q));
    lemma_same_records(b, c, 0, q);
    lemma_join(b, 0, q, limit);
    lemma_join(c, 0, q, end);
    assert(block_entries(c, end, end) =~= seq![]);
    assert(block_entries(b, limit, limit) =~= seq![]);
    assert(block_entries(c, q, end) == block_entries(b, q, limit));
    assert(tiled(c, end, end));
    lemma_tile(c, 0, q, end);
}

// ── Removing ─────────────────────────────────────────────────────────────────

/// The first place from `k` on where a name stands, or the length.
pub open spec fn first_named(es: Seq<EntryView>, name: Seq<u8>, k: int) -> int
    decreases es.len() - k,
{
    if k >= es.len() {
        es.len() as int
    } else if es[k].name == name {
        k
    } else {
        first_named(es, name, k + 1)
    }
}

/// Where a record in use under a name is found.
proof fn lemma_named_slot(b: Seq<u8>, pos: int, limit: int, name: Seq<u8>)
    requires
        b.len() == BLOCK_SIZE,
        0 <= pos,
        limit <= BLOCK_SIZE,
        tiled(b, pos, limit),
        0 < name.len(),
        valid_utf8(name),
    ensures
        match named_slot(b, pos, limit, name) {
            Some(at) => {
                &&& pos <= at
                &&& at + DIRENT_HDR <= limit
                &&& tiled(b, pos, at)
                &&& tiled(b, at, limit)
                &&& is_entry(b, at)
                &&& rec_name(b, at) == name
                &&& forall|k: int|
                    0 <= k < block_entries(b, pos, at).len() ==> (#[trigger] block_entries(
                        b,
                        pos,
                        at,
                    )[k]).name != name
            },
            None => forall|k: int|
                0 <= k < block_entries(b, pos, limit).len() ==> (#[trigger] block_entries(
                    b,
                    pos,
                    limit,
                )[k]).name != name,
        },
    decreases left(pos, limit),
{
    if pos < limit {
        let next = pos + rec_len(b, pos);
        lemma_named_slot(b, next, limit, name);
        let here = le32_at(b, pos) != 0 && crate::rfs::dir::name_fits(b, pos) && rec_name(b, pos)
            == name;
        if here {
            assert(rec_name(b, pos).len() == b[pos + 6]);
            assert(block_entries(b, pos, pos).len() == 0);
        } else {
            match named_slot(b, next, limit, name) {
                Some(at) => {
                    lemma_join(b, next, at, at);
                    assert forall|k: int| 0 <= k < block_entries(b, pos, at).len() implies (
                    #[trigger] block_entries(b, pos, at)[k]).name != name by {
                        lemma_tiled_bound(b, next, at);
                        let rest = block_entries(b, next, at);
                        if is_entry(b, pos) {
                            if k > 0 {
                                assert(block_entries(b, pos, at)[k] == rest[k - 1]);
                            }
                        } else {
                            assert(block_entries(b, pos, at)[k] == rest[k]);
                        }
                    }
                },
                None => {
                    assert forall|k: int| 0 <= k < block_entries(b, pos, limit).len() implies (
                    #[trigger] block_entries(b, pos, limit)[k]).name != name by {
                        let rest = block_entries(b, next, limit);
                        if is_entry(b, pos) {
                            if k > 0 {
                                assert(block_entries(b, pos, limit)[k] == rest[k - 1]);
                            }
                        } else {
                            assert(block_entries(b, pos, limit)[k] == rest[k]);
                        }
                    }
                },
            }
        }
    }
}

/// A record whose number is zeroed is no entry any more, and all others stay.
proof fn lemma_cleared(b: Seq<u8>, limit: int, name: Seq<u8>)
    requires
        b.len() == BLOCK_SIZE,
        0 <= limit <= BLOCK_SIZE,
        tiled(b, 0, limit),
        0 < name.len(),
        valid_utf8(name),
        named_slot(b, 0, limit, name) is Some,
    ensures
        ({
            let at = named_slot(b, 0, limit, name)->0;
            let c = splice(b, at, le32(0));
            let k = block_entries(b, 0, at).len() as int;
            let all = block_entries(b, 0, limit);
            &&& c.len() == BLOCK_SIZE
            &&& k < all.len()
            &&& all[k].name == name
            &&& forall|j: int| 0 <= j < k ==> (#[trigger] all[j]).name != name
            &&& block_entries(c, 0, limit) == all.remove(k)
            &&& tiled(c, 0, limit)
        }),
{
    let at = named_slot(b, 0, limit, name)->0;
    let c = splice(b, at, le32(0));
    lemma_named_slot(b, 0, limit, name);
    let next = at + rec_len(b, at);
    lemma_tiled_bound(b, next, limit);
    assert(c.subrange(at, at + 4) =~= le32(0));
    lemma_le32_round(c, at, 0);
    assert(rec_len(c, at) == rec_len(b, at));
    assert(c[at + 6] == b[at + 6]);
    lemma_same_records(b, c, 0, at);
    lemma_same_records(b, c, next, limit);
    lemma_join(b, 0, at, limit);
    lemma_join(c, 0, at, limit);
    lemma_tile(c, 0, at, limit);
    let before = block_entries(b, 0, at);
    let rest = block_entries(b, next, limit);
    let all = block_entries(b, 0, limit);
    assert(block_entries(c, at, limit) == rest);
    assert(all == before + block_entries(b, at, limit));
    assert forall|j: int| 0 <= j < before.len() implies (#[trigger] all[j]).name != name by {
        assert(all[j] == before[j]);
    }
    assert(block_entries(c, 0, limit) =~= all.remove(before.len() as int));
}

// ── Directories ──────────────────────────────────────────────────────────────

/// The contents of a directory's logical block.
pub open spec fn dir_block(d: Blocks, i: InodeView, l: int) -> Option<Seq<u8>> {
    match resolve_block(d, i, l as u32) {
        None => None,
        Some(p) => read_at(d, p),
    }
}

/// The entries in a directory's logical block.
pub open spec fn block_of_entries(d: Blocks, i: InodeView, l: int) -> Seq<EntryView> {
    match dir_block(d, i, l) {
        None => seq![],
        Some(b) => block_entries(b, 0, scan_limit(i.size, l)),
    }
}

/// A directory in order: its file is healthy, with no more extents than blocks,
/// and its blocks are all there, filled with records up to its size, with none
/// beyond.
pub open spec fn sound_dir(d: Blocks, i: InodeView) -> bool {
    let n = block_count(i.size);
    &&& healthy(d, i)
    &&& i.is(INODE_USED)
    &&& i.size <= MAX_FILE
    &&& i.extent_count <= n
    &&& forall|l: u32| l >= n ==> (#[trigger] resolve_block(d, i, l)) is None
    &&& forall|l: int|
        0 <= l < n ==> (#[trigger] dir_block(d, i, l)) is Some && tiled(
            dir_block(d, i, l)->0,
            0,
            scan_limit(i.size, l),
        )
}

/// A directory is no larger than the blocks that the bitmap describes.
proof fn lemma_dir_size(d: Blocks, i: InodeView)
    requires
        sound_dir(d, i),
    ensures
        block_count(i.size) <= BITMAP_SPAN - DATA_START,
        i.size <= (BITMAP_SPAN - DATA_START) * BLOCK_SIZE,
        i.extent_count + 1 < u16::MAX,
{
    let n = block_count(i.size);
    let places = Seq::new(n as nat, |l: int| resolve_block(d, i, l as u32)->0 as int);
    let all = vstd::set_lib::set_int_range(DATA_START as int, BITMAP_SPAN as int);
    assert forall|l: int| 0 <= l < n implies all.contains(#[trigger] places[l]) by {
        assert(dir_block(d, i, l) is Some);
        assert(taken(d, resolve_block(d, i, l as u32)->0));
    }
    assert(places.no_duplicates()) by {
        assert forall|l: int, m: int| 0 <= l < n && 0 <= m < n && l != m implies places[l]
            != places[m] by {
            assert(dir_block(d, i, l) is Some && dir_block(d, i, m) is Some);
            assert(resolve_block(d, i, l as u32) != resolve_block(d, i, m as u32));
        }
    }
    places.unique_seq_to_set();
    vstd::set_lib::lemma_int_range(DATA_START as int, BITMAP_SPAN as int);
    assert(places.to_set().subset_of(all));
    vstd::set_lib::lemma_len_subset(places.to_set(), all);
    assert(i.size as int == i.size as int / 4096 * 4096 + i.size as int % 4096);
}

proof fn lemma_dir_step(d: Blocks, i: InodeView, l: int, n: int)
    requires
        l < n,
    ensures
        entries_from(d, i, l, n) == block_of_entries(d, i, l) + entries_from(d, i, l + 1, n),
{
    assert(entries_from(d, i, l, n) =~= block_of_entries(d, i, l) + entries_from(d, i, l + 1, n));
}

proof fn lemma_dir_split(d: Blocks, i: InodeView, l: int, m: int, n: int)
    requires
        l <= m <= n,
    ensures
        entries_from(d, i, l, n) == entries_from(d, i, l, m) + entries_from(d, i, m, n),
    decreases m - l,
{
    if l < m {
        lemma_dir_step(d, i, l, n);
        lemma_dir_step(d, i, l, m);
        lemma_dir_split(d, i, l + 1, m, n);
        assert(entries_from(d, i, l, n) =~= entries_from(d, i, l, m) + entries_from(d, i, m, n));
    } else {
        assert(entries_from(d, i, l, m) =~= seq![]);
        assert(entries_from(d, i, l, n) =~= entries_from(d, i, l, m) + entries_from(d, i, m, n));
    }
}

proof fn lemma_dir_same(d: Blocks, i: InodeView, d1: Blocks, i1: InodeView, l: int, n: int)
    requires
        forall|k: int|
            l <= k < n ==> #[trigger] block_of_entries(d1, i1, k) == block_of_entries(d, i, k),
    ensures
        entries_from(d1, i1, l, n) == entries_from(d, i, l, n),
    decreases n - l,
{
    if l < n {
        lemma_dir_step(d, i, l, n);
        lemma_dir_step(d1, i1, l, n);
        lemma_dir_same(d, i, d1, i1, l + 1, n);
    }
}

/// How far the blocks of a directory are filled.
proof fn lemma_limits(size: u64, l: int)
    requires
        size <= MAX_FILE,
        0 <= l < block_count(size),
    ensures
        scan_limit(size, l) == used_limit(size, l, block_count(size) as int),
        0 < scan_limit(size, l) <= BLOCK_SIZE,
        l + 1 == block_count(size) ==> size == l * BLOCK_SIZE + scan_limit(size, l),
        l + 1 < block_count(size) ==> scan_limit(size, l) == BLOCK_SIZE && (l + 1) * BLOCK_SIZE
            <= size,
{
    let n = block_count(size) as int;
    assert(n == size as int / 4096 + if size % 4096 != 0 {
        1int
    } else {
        0int
    });
    assert(size as int == size as int / 4096 * 4096 + size as int % 4096);
}

/// One entry has joined the others, which stay in their order.
pub open spec fn joined(before: Seq<EntryView>, after: Seq<EntryView>, e: EntryView) -> bool {
    exists|k: int| 0 <= k <= before.len() && after == #[trigger] before.insert(k, e)
}

/// An entry with a name is found, if none before it has the name.
proof fn lemma_first_is_found(es: Seq<EntryView>, k: int, at: int, name: Seq<u8>)
    requires
        0 <= k <= at < es.len(),
        es[at].name == name,
        forall|j: int| k <= j < at ==> (#[trigger] es[j]).name != name,
    ensures
        lookup_from(es, k, name) == Some(es[at].ino),
    decreases at - k,
{
    if k < at {
        lemma_first_is_found(es, k + 1, at, name);
    }
}

pub proof fn lemma_absent(es: Seq<EntryView>, k: int, name: Seq<u8>)
    requires
        0 <= k,
    ensures
        lookup_from(es, k, name) is None == (forall|j: int|
            k <= j < es.len() ==> (#[trigger] es[j]).name != name),
    decreases es.len() - k,
{
    if k < es.len() {
        lemma_absent(es, k + 1, name);
    }
}

/// An entry that joins entries without its name is found, and the others are
/// found as before.
pub proof fn lemma_found(before: Seq<EntryView>, after: Seq<EntryView>, e: EntryView)
    requires
        joined(before, after, e),
    ensures
        lookup_from(before, 0, e.name) is None ==> lookup_from(after, 0, e.name) == Some(e.ino),
        forall|name: Seq<u8>|
            name != e.name ==> #[trigger] lookup_from(after, 0, name) == lookup_from(
                before,
                0,
                name,
            ),
{
    let k = choose|k: int| 0 <= k <= before.len() && after == #[trigger] before.insert(k, e);
    if lookup_from(before, 0, e.name) is None {
        lemma_absent(before, 0, e.name);
        assert forall|j: int| 0 <= j < k implies (#[trigger] after[j]).name != e.name by {
            assert(after[j] == before[j]);
        }
        lemma_first_is_found(after, 0, k, e.name);
    }
    assert forall|name: Seq<u8>| name != e.name implies #[trigger] lookup_from(after, 0, name)
        == lookup_from(before, 0, name) by {
        lemma_other_name(before, k, e, 0, name);
    }
}

/// An entry under another name changes no lookup.
pub proof fn lemma_other_name(before: Seq<EntryView>, k: int, e: EntryView, from: int, name: Seq<u8>)
    requires
        0 <= k <= before.len(),
        0 <= from <= before.len(),
        name != e.name,
    ensures
        from <= k ==> lookup_from(before.insert(k, e), from, name) == lookup_from(
            before,
            from,
            name,
        ),
        from >= k ==> lookup_from(before.insert(k, e), from + 1, name) == lookup_from(
            before,
            from,
            name,
        ),
    decreases before.len() - from,
{
    let after = before.insert(k, e);
    if from < before.len() {
        lemma_other_name(before, k, e, from + 1, name);
        if from < k {
            assert(after[from] == before[from]);
        } else {
            assert(after[from + 1] == before[from]);
        }
    }
    if from == k {
        assert(after[k] == e);
    }
}

/// An entry that joins one block's entries joins the directory's.
proof fn lemma_in_block(
    d: Blocks,
    i: InodeView,
    d1: Blocks,
    i1: InodeView,
    l: int,
    n: int,
    k: int,
    e: EntryView,
)
    requires
        0 <= l < n,
        forall|m: int|
            0 <= m < n && m != l ==> #[trigger] block_of_entries(d1, i1, m) == block_of_entries(
                d,
                i,
                m,
            ),
        0 <= k <= block_of_entries(d, i, l).len(),
        block_of_entries(d1, i1, l) == block_of_entries(d, i, l).insert(k, e),
    ensures
        joined(entries_from(d, i, 0, n), entries_from(d1, i1, 0, n), e),
{
    let head = entries_from(d, i, 0, l);
    let tail = entries_from(d, i, l + 1, n);
    let mid = block_of_entries(d, i, l);
    let mid1 = block_of_entries(d1, i1, l);
    lemma_dir_same(d, i, d1, i1, 0, l);
    lemma_dir_same(d, i, d1, i1, l + 1, n);
    lemma_dir_split(d, i, 0, l, n);
    lemma_dir_split(d1, i1, 0, l, n);
    lemma_dir_step(d, i, l, n);
    lemma_dir_step(d1, i1, l, n);
    let before = entries_from(d, i, 0, n);
    let after = entries_from(d1, i1, 0, n);
    assert(before == head + (mid + tail));
    assert(after == head + (mid1 + tail));
    let at = head.len() + k;
    assert(after =~= before.insert(at, e));
}

// ── Adding an entry ──────────────────────────────────────────────────────────

/// The table of inodes lies before the blocks that are handed out.
pub proof fn lemma_inode_apart(d: Blocks, ino: u32, p: u32)
    requires
        ino < INODE_COUNT,
        taken(d, p),
    ensures
        p != inode_block(ino),
{
}

/// Writing a data block of a directory leaves its inode and its other blocks.
proof fn lemma_dir_write(d: Blocks, ino: u32, i: InodeView, l: int, c: Seq<u8>)
    requires
        sound_dir(d, i),
        read_inode(d, ino) == Some(i),
        0 <= l < block_count(i.size),
        can_write(d, resolve_block(d, i, l as u32)->0),
        c.len() == BLOCK_SIZE,
    ensures
        ({
            let d1 = written(d, resolve_block(d, i, l as u32)->0, c);
            &&& read_inode(d1, ino) == Some(i)
            &&& forall|o: u32| #[trigger] read_inode(d1, o) == read_inode(d, o)
            &&& healthy(d1, i)
            &&& dir_block(d1, i, l) == Some(c)
            &&& forall|m: int|
                0 <= m < block_count(i.size) && m != l ==> #[trigger] dir_block(d1, i, m)
                    == dir_block(d, i, m)
            &&& forall|m: u32| #[trigger] resolve_block(d1, i, m) == resolve_block(d, i, m)
            &&& confined(d, i, d1, i)
        }),
{
    assert(dir_block(d, i, l) is Some);
    let p = resolve_block(d, i, l as u32)->0;
    let d1 = written(d, p, c);
    lemma_write_data(d, i, l as u32, c);
    lemma_same_owner(d, i, d1, i);
    assert(owns(d, i, p));
    assert(resolve_block(d, i, l as u32) is Some);
    assert forall|o: u32| #[trigger] read_inode(d1, o) == read_inode(d, o) by {
        if o < INODE_COUNT {
            lemma_inode_apart(d, o, p);
            assert(read_at(d1, inode_block(o)) == read_at(d, inode_block(o)));
        }
    }
    assert(resolve_block(d1, i, l as u32) == Some(p));
    assert forall|m: int| 0 <= m < block_count(i.size) && m != l implies #[trigger] dir_block(
        d1,
        i,
        m,
    ) == dir_block(d, i, m) by {
        assert(dir_block(d, i, m) is Some);
        let q = resolve_block(d, i, m as u32)->0;
        assert(resolve_block(d1, i, m as u32) == Some(q));
        assert(q != p);
        assert(read_at(d1, q) == read_at(d, q));
    }
}

/// Storing a directory's inode leaves its blocks and those of all other files,
/// and it is read back.
pub proof fn lemma_dir_store(d: Blocks, ino: u32, i: InodeView)
    requires
        healthy(d, i),
        i.is(INODE_USED),
        write_inode(d, ino, i).1,
    ensures
        ({
            let d1 = write_inode(d, ino, i).0;
            &&& read_inode(d1, ino) == Some(i)
            &&& forall|o: u32| o != ino ==> #[trigger] read_inode(d1, o) == read_inode(d, o)
            &&& healthy(d1, i)
            &&& forall|m: u32| #[trigger] resolve_block(d1, i, m) == resolve_block(d, i, m)
            &&& forall|m: int| #[trigger] dir_block(d1, i, m) == dir_block(d, i, m)
            &&& grows_to(d, d1)
            &&& forall|q: u32| taken(d, q) ==> #[trigger] read_at(d1, q) == read_at(d, q)
            &&& forall|q: u32| #[trigger] owns(d1, i, q) == owns(d, i, q)
        }),
{
    let d1 = write_inode(d, ino, i).0;
    let blk = inode_block(ino);
    let b = read_at(d, blk)->0;
    let raw = splice(b, inode_offset(ino), inode_bytes(i));
    assert(d1 == written(d, blk, raw));
    lemma_written(d, blk, raw);
    assert(grows_to(d, d1)) by {
        assert(bitmap(d1) == bitmap(d));
    }
    assert forall|q: u32| taken(d, q) implies #[trigger] read_at(d1, q) == read_at(d, q) by {
        lemma_inode_apart(d, ino, q);
    }
    lemma_file_frame(d, d1, i);
    law_stored_inode_is_read(d, ino, i, if ino == 0 {
        1
    } else {
        0
    });
    assert forall|o: u32| o != ino implies #[trigger] read_inode(d1, o) == read_inode(d, o) by {
        law_stored_inode_is_read(d, ino, i, o);
    }
    assert forall|m: int| #[trigger] dir_block(d1, i, m) == dir_block(d, i, m) by {
        assert(resolve_block(d1, i, m as u32) == resolve_block(d, i, m as u32));
        if resolve_block(d, i, m as u32) is Some {
            assert(taken(d, resolve_block(d, i, m as u32)->0));
        }
    }
}

/// Only blocks of one file, and blocks that were free, have changed, and the
/// file has taken no block of another.
pub open spec fn confined(d: Blocks, i: InodeView, d1: Blocks, i1: InodeView) -> bool {
    &&& grows_to(d, d1)
    &&& forall|q: u32|
        taken(d, q) && !owns(d, i, q) ==> #[trigger] read_at(d1, q) == read_at(d, q)
    &&& forall|q: u32| #[trigger] owns(d1, i1, q) ==> owns(d, i, q) || !taken(d, q)
}

/// The outcome of adding an entry: it has joined the others, the directory is in
/// order, and nothing but the directory has changed.
pub open spec fn added(d: Blocks, i: InodeView, d1: Blocks, ino: u32, e: NewEntry) -> bool {
    let i1 = read_inode(d1, ino)->0;
    &&& read_inode(d1, ino) is Some
    &&& i1.flags == i.flags
    &&& forall|o: u32| o != ino ==> #[trigger] read_inode(d1, o) == read_inode(d, o)
    &&& sound_dir(d1, i1)
    &&& joined(dir_entries(d, i), dir_entries(d1, i1), entry_of(e))
    &&& confined(d, i, d1, i1)
}

proof fn lemma_add_in_slot(d: Blocks, ino: u32, i: InodeView, e: NewEntry, l: int)
    requires
        sound_dir(d, i),
        read_inode(d, ino) == Some(i),
        findable(e),
        0 <= l < block_count(i.size),
        can_write(d, resolve_block(d, i, l as u32)->0),
        free_slot(dir_block(d, i, l)->0, 0, scan_limit(i.size, l), e) is Some,
    ensures
        ({
            let p = resolve_block(d, i, l as u32)->0;
            let b = dir_block(d, i, l)->0;
            let at = free_slot(b, 0, scan_limit(i.size, l), e)->0;
            let d1 = written(d, p, splice(b, at, e.bytes(rec_len(b, at))));
            added(d, i, d1, ino, e)
        }),
{
    let n = block_count(i.size) as int;
    let p = resolve_block(d, i, l as u32)->0;
    assert(dir_block(d, i, l) is Some);
    let b = dir_block(d, i, l)->0;
    let limit = scan_limit(i.size, l);
    let at = free_slot(b, 0, limit, e)->0;
    let c = splice(b, at, e.bytes(rec_len(b, at)));
    let d1 = written(d, p, c);
    lemma_limits(i.size, l);
    assert(b.len() == BLOCK_SIZE);
    lemma_filled(b, limit, e);
    lemma_dir_write(d, ino, i, l, c);
    let k = block_entries(b, 0, at).len() as int;
    assert forall|m: int| 0 <= m < n && m != l implies #[trigger] block_of_entries(d1, i, m)
        == block_of_entries(d, i, m) by {
        assert(dir_block(d1, i, m) == dir_block(d, i, m));
    }
    lemma_in_block(d, i, d1, i, l, n, k, entry_of(e));
    lemma_block_changed(d, i, d1, l, c);
    assert(read_inode(d1, ino)->0 == i);
    assert(forall|o: u32| o != ino ==> #[trigger] read_inode(d1, o) == read_inode(d, o));
}

/// A directory is in order in which a block has been replaced by one in order.
#[verifier::spinoff_prover]
proof fn lemma_block_changed(d: Blocks, i: InodeView, d1: Blocks, l: int, c: Seq<u8>)
    requires
        sound_dir(d, i),
        healthy(d1, i),
        0 <= l < block_count(i.size),
        forall|m: u32| #[trigger] resolve_block(d1, i, m) == resolve_block(d, i, m),
        forall|m: int|
            0 <= m < block_count(i.size) && m != l ==> #[trigger] dir_block(d1, i, m) == dir_block(
                d,
                i,
                m,
            ),
        dir_block(d1, i, l) == Some(c),
        tiled(c, 0, scan_limit(i.size, l)),
    ensures
        sound_dir(d1, i),
{
    let n = block_count(i.size) as int;
    assert forall|m: u32| m >= n implies (#[trigger] resolve_block(d1, i, m)) is None by {
        assert(resolve_block(d, i, m) is None);
    }
    assert forall|m: int| 0 <= m < n implies (#[trigger] dir_block(d1, i, m)) is Some && tiled(
        dir_block(d1, i, m)->0,
        0,
        scan_limit(i.size, m),
    ) by {
        if m != l {
            assert(dir_block(d, i, m) is Some);
        }
    }
}

/// A directory that grows within its last block.
proof fn lemma_grown_within(size: u64, rec: int)
    requires
        size + rec <= MAX_FILE,
        size % BLOCK_SIZE as u64 != 0,
        0 < rec,
        size % BLOCK_SIZE as u64 + rec <= BLOCK_SIZE,
    ensures
        ({
            let grown = (size + rec) as u64;
            let n = block_count(size) as int;
            &&& block_count(grown) == n
            &&& n > 0
            &&& scan_limit(grown, n - 1) == size % BLOCK_SIZE as u64 + rec
            &&& forall|l: int| 0 <= l < n - 1 ==> scan_limit(grown, l) == scan_limit(size, l)
        }),
{
    let s = size as int % 4096;
    let q = size as int / 4096;
    let grown = (size + rec) as u64;
    assert(size as int == q * 4096 + s);
    let n = block_count(size) as int;
    assert(n == q + 1);
    if s + rec == 4096 {
        assert(grown as int == (q + 1) * 4096);
        assert(grown as int / 4096 == q + 1 && grown as int % 4096 == 0);
    } else {
        assert(grown as int / 4096 == q && grown as int % 4096 == s + rec);
    }
}

#[verifier::spinoff_prover]
#[verifier::rlimit(30)]
proof fn lemma_add_at_end(d: Blocks, ino: u32, i: InodeView, e: NewEntry)
    requires
        sound_dir(d, i),
        read_inode(d, ino) == Some(i),
        findable(e),
        i.size % BLOCK_SIZE as u64 != 0,
        i.size % BLOCK_SIZE as u64 + e.rec() <= BLOCK_SIZE,
        ({
            let l = block_count(i.size) - 1;
            let p = resolve_block(d, i, l as u32)->0;
            let b = dir_block(d, i, l)->0;
            let d1 = written(d, p, splice(b, scan_limit(i.size, l), e.bytes(e.rec())));
            let i1 = InodeView { size: wrap64(i.size, e.rec() as u64), ..i };
            can_write(d, p) && write_inode(d1, ino, i1).1
        }),
    ensures
        ({
            let l = block_count(i.size) - 1;
            let p = resolve_block(d, i, l as u32)->0;
            let b = dir_block(d, i, l)->0;
            let d1 = written(d, p, splice(b, scan_limit(i.size, l), e.bytes(e.rec())));
            let i1 = InodeView { size: wrap64(i.size, e.rec() as u64), ..i };
            added(d, i, write_inode(d1, ino, i1).0, ino, e)
        }),
{
    let n = block_count(i.size) as int;
    let l = n - 1;
    lemma_dir_size(d, i);
    lemma_grown_within(i.size, e.rec() as int);
    lemma_limits(i.size, l);
    let p = resolve_block(d, i, l as u32)->0;
    assert(dir_block(d, i, l) is Some);
    let b = dir_block(d, i, l)->0;
    let limit = scan_limit(i.size, l);
    let c = splice(b, limit, e.bytes(e.rec()));
    let d1 = written(d, p, c);
    let i1 = InodeView { size: wrap64(i.size, e.rec() as u64), ..i };
    assert(i1.size == i.size + e.rec());
    assert(b.len() == BLOCK_SIZE);
    lemma_appended(b, limit, e);
    lemma_dir_write(d, ino, i, l, c);
    lemma_same_map(d1, i, i1);
    lemma_dir_store(d1, ino, i1);
    let d2 = write_inode(d1, ino, i1).0;
    let before = block_of_entries(d, i, l);
    let after = block_of_entries(d2, i1, l);
    assert(dir_block(d2, i1, l) == dir_block(d1, i1, l));
    assert(dir_block(d1, i1, l) == dir_block(d1, i, l));
    assert(after == before.push(entry_of(e)));
    let k = before.len() as int;
    assert(after =~= before.insert(k, entry_of(e)));
    assert forall|m: int| 0 <= m < n && m != l implies #[trigger] block_of_entries(d2, i1, m)
        == block_of_entries(d, i, m) by {
        assert(dir_block(d2, i1, m) == dir_block(d1, i1, m));
        assert(dir_block(d1, i1, m) == dir_block(d1, i, m));
        assert(dir_block(d1, i, m) == dir_block(d, i, m));
    }
    lemma_in_block(d, i, d2, i1, l, n, k, entry_of(e));
    assert forall|m: u32| m >= n implies (#[trigger] resolve_block(d2, i1, m)) is None by {
        assert(resolve_block(d1, i1, m) == resolve_block(d1, i, m));
        assert(resolve_block(d1, i, m) == resolve_block(d, i, m));
    }
    assert forall|m: int| 0 <= m < l implies #[trigger] dir_block(d2, i1, m) == dir_block(
        d,
        i,
        m,
    ) by {
        assert(dir_block(d2, i1, m) == dir_block(d1, i1, m));
        assert(dir_block(d1, i1, m) == dir_block(d1, i, m));
        assert(dir_block(d1, i, m) == dir_block(d, i, m));
    }
    assert forall|o: u32| o != ino implies #[trigger] read_inode(d2, o) == read_inode(d, o) by {
        assert(read_inode(d1, o) == read_inode(d, o));
    }
    lemma_last_block_changed(d, i, d2, i1, c);
    lemma_same_owner(d1, i, d1, i1);
    lemma_confined(d, i, d1, i1, d2);
    assert(read_inode(d2, ino)->0 == i1);
}

/// Storing the inode afterwards changes no file's blocks.
pub proof fn lemma_confined(d: Blocks, i: InodeView, d1: Blocks, i1: InodeView, d2: Blocks)
    requires
        confined(d, i, d1, i1),
        grows_to(d1, d2),
        forall|q: u32| taken(d1, q) ==> #[trigger] read_at(d2, q) == read_at(d1, q),
        forall|q: u32| #[trigger] owns(d2, i1, q) == owns(d1, i1, q),
    ensures
        confined(d, i, d2, i1),
{
    assert forall|q: u32| taken(d, q) && !owns(d, i, q) implies #[trigger] read_at(d2, q)
        == read_at(d, q) by {
        assert(taken(d1, q));
        assert(read_at(d1, q) == read_at(d, q));
    }
    assert forall|q: u32| taken(d, q) implies #[trigger] taken(d2, q) by {
        assert(taken(d1, q));
    }
    assert forall|q: u32| #[trigger] owns(d2, i1, q) implies owns(d, i, q) || !taken(d, q) by {
        assert(owns(d1, i1, q));
    }
    assert forall|q: u32| #[trigger] can_write(d2, q) == can_write(d, q) by {
        assert(can_write(d1, q) == can_write(d, q));
    }
    assert forall|q: u32| (#[trigger] read_at(d2, q) is Some) == (read_at(d, q) is Some) by {
        assert((read_at(d1, q) is Some) == (read_at(d, q) is Some));
    }
}

/// A directory is in order whose last block, in order, has been replaced.
proof fn lemma_last_block_changed(
    d: Blocks,
    i: InodeView,
    d1: Blocks,
    i1: InodeView,
    c: Seq<u8>,
)
    requires
        sound_dir(d, i),
        healthy(d1, i1),
        i1.is(INODE_USED),
        i1.size <= MAX_FILE,
        i1.extent_count <= block_count(i.size),
        block_count(i1.size) == block_count(i.size),
        0 < block_count(i.size),
        forall|m: u32| m >= block_count(i.size) ==> (#[trigger] resolve_block(d1, i1, m)) is None,
        forall|m: int|
            0 <= m < block_count(i.size) - 1 ==> #[trigger] dir_block(d1, i1, m) == dir_block(
                d,
                i,
                m,
            ),
        forall|m: int|
            0 <= m < block_count(i.size) - 1 ==> scan_limit(i1.size, m) == scan_limit(i.size, m),
        dir_block(d1, i1, block_count(i.size) - 1) == Some(c),
        tiled(c, 0, scan_limit(i1.size, block_count(i.size) - 1)),
    ensures
        sound_dir(d1, i1),
{
    let n = block_count(i.size) as int;
    assert forall|m: int| 0 <= m < n implies (#[trigger] dir_block(d1, i1, m)) is Some && tiled(
        dir_block(d1, i1, m)->0,
        0,
        scan_limit(i1.size, m),
    ) by {
        if m < n - 1 {
            assert(dir_block(d, i, m) is Some);
        }
    }
}

/// A directory that grows into a new block: how far that is filled, and that the
/// others are.
proof fn lemma_grown_over(size: u64, rec: u16)
    requires
        size <= (BITMAP_SPAN - DATA_START) * BLOCK_SIZE,
        0 < rec < BLOCK_SIZE,
    ensures
        ({
            let grown = wrap64(whole_blocks(size), rec as u64);
            let n = block_count(size) as int;
            &&& grown == n * BLOCK_SIZE + rec
            &&& grown <= MAX_FILE
            &&& block_count(grown) == n + 1
            &&& n < u32::MAX
            &&& scan_limit(grown, n) == rec
            &&& forall|l: int| 0 <= l < n ==> scan_limit(grown, l) == BLOCK_SIZE
            &&& size % BLOCK_SIZE as u64 != 0 ==> n > 0 && logical_of(size) == n - 1
        }),
{
    let s = size as int % 4096;
    let q = size as int / 4096;
    let grown = wrap64(whole_blocks(size), rec as u64);
    let n = block_count(size) as int;
    assert(size as int == q * 4096 + s);
    assert(n == if s == 0 {
        q
    } else {
        q + 1
    });
    assert(whole_blocks(size) == n * 4096);
    assert(grown == n * 4096 + rec);
    assert(grown as int / 4096 == n && grown as int % 4096 == rec);
}

/// What filling up the last block of a directory does to its entries: nothing.
proof fn lemma_filled_up(d: Blocks, i: InodeView)
    requires
        sound_dir(d, i),
        i.size % BLOCK_SIZE as u64 != 0,
    ensures
        ({
            let l = block_count(i.size) - 1;
            let c = stretched(dir_block(d, i, l)->0, (i.size % BLOCK_SIZE as u64) as int);
            &&& l >= 0
            &&& resolve_block(d, i, l as u32) is Some
            &&& filled_up(d, i) == Some((resolve_block(d, i, l as u32)->0, c))
            &&& c.len() == BLOCK_SIZE
            &&& tiled(c, 0, BLOCK_SIZE as int)
            &&& block_entries(c, 0, BLOCK_SIZE as int) == block_of_entries(d, i, l)
        }),
{
    let l = block_count(i.size) - 1;
    lemma_dir_size(d, i);
    lemma_grown_over(i.size, 1);
    lemma_limits(i.size, l);
    assert(dir_block(d, i, l) is Some);
    let b = dir_block(d, i, l)->0;
    assert(b.len() == BLOCK_SIZE);
    lemma_stretched(b, scan_limit(i.size, l));
}

/// A block behind the others with one entry adds that entry.
proof fn lemma_one_more_block(d: Blocks, i: InodeView, d1: Blocks, i1: InodeView, e: EntryView)
    requires
        block_count(i1.size) == block_count(i.size) + 1,
        forall|m: int|
            0 <= m < block_count(i.size) ==> #[trigger] block_of_entries(d1, i1, m)
                == block_of_entries(d, i, m),
        block_of_entries(d1, i1, block_count(i.size) as int) == seq![e],
    ensures
        joined(dir_entries(d, i), dir_entries(d1, i1), e),
{
    let n = block_count(i.size) as int;
    lemma_dir_same(d, i, d1, i1, 0, n);
    lemma_dir_split(d1, i1, 0, n, n + 1);
    lemma_dir_step(d1, i1, n, n + 1);
    assert(entries_from(d1, i1, n + 1, n + 1) =~= seq![]);
    let before = dir_entries(d, i);
    let after = dir_entries(d1, i1);
    assert(after =~= before.insert(before.len() as int, e));
}

/// The block that a directory grows by, before the one ahead of it is filled up.
#[verifier::spinoff_prover]
#[verifier::rlimit(40)]
proof fn lemma_new_block(d: Blocks, i: InodeView, c: Seq<u8>, total: u32)
    requires
        sound_dir(d, i),
        c.len() == BLOCK_SIZE,
        ({
            let (da, r) = alloc_block(d, total);
            let (d2, _, ok) = add_extent(da, i, one_block(block_count(i.size), r->0), total);
            r is Some && ok && can_write(d2, r->0)
        }),
    ensures
        ({
            let n = block_count(i.size);
            let (da, r) = alloc_block(d, total);
            let (d2, i2, _) = add_extent(da, i, one_block(n, r->0), total);
            let d3 = written(d2, r->0, c);
            &&& healthy(d3, i2)
            &&& i2.flags == i.flags
            &&& i2.extent_count == i.extent_count + 1
            &&& dir_block(d3, i2, n as int) == Some(c)
            &&& resolve_block(d3, i2, n) is Some
            &&& forall|m: u32|
                m != n ==> #[trigger] resolve_block(d3, i2, m) == resolve_block(d, i, m)
            &&& forall|m: int|
                0 <= m < n ==> #[trigger] dir_block(d3, i2, m) == dir_block(d, i, m)
            &&& forall|o: u32| #[trigger] read_inode(d3, o) == read_inode(d, o)
            &&& confined(d, i, d3, i2)
        }),
{
    let n = block_count(i.size);
    let (da, r) = alloc_block(d, total);
    let p = r->0;
    let (d2, i2, _) = add_extent(da, i, one_block(n, p), total);
    assert(resolve_block(d, i, n) is None);
    lemma_dir_size(d, i);
    lemma_map_block(d, i, n, total);
    let d3 = written(d2, p, c);
    lemma_write_data(d2, i2, n, c);
    assert(i2.flags == i.flags);
    assert forall|m: u32| m != n implies #[trigger] resolve_block(d3, i2, m) == resolve_block(
        d,
        i,
        m,
    ) by {
        assert(resolve_block(d2, i2, m) == resolve_block(d, i, m));
    }
    assert forall|m: int| 0 <= m < n implies #[trigger] dir_block(d3, i2, m) == dir_block(
        d,
        i,
        m,
    ) by {
        assert(dir_block(d, i, m) is Some);
        let q = resolve_block(d, i, m as u32)->0;
        assert(taken(d, q) && q != p);
        assert(resolve_block(d3, i2, m as u32) == Some(q));
        assert(read_at(d3, q) == read_at(d2, q));
    }
    assert(resolve_block(d3, i2, n) == Some(p));
    assert(taken(d2, p)) by {
        assert(resolve_block(d2, i2, n) == Some(p));
    }
    assert forall|o: u32| #[trigger] read_inode(d3, o) == read_inode(d, o) by {
        if o < INODE_COUNT {
            lemma_inode_apart(d2, o, p);
            assert(read_at(d2, inode_block(o)) == read_at(d, inode_block(o)));
            assert(read_at(d3, inode_block(o)) == read_at(d2, inode_block(o)));
        }
    }
    assert forall|q: u32| taken(d, q) implies #[trigger] taken(d3, q) by {
        assert(taken(d2, q));
    }
    assert forall|q: u32| #[trigger] can_write(d3, q) == can_write(d, q) by {
        assert(can_write(d2, q) == can_write(d, q));
    }
    assert forall|q: u32| (#[trigger] read_at(d3, q) is Some) == (read_at(d, q) is Some) by {
        assert((read_at(d2, q) is Some) == (read_at(d, q) is Some));
    }
    assert(grows_to(d, d3));
    assert forall|q: u32| taken(d, q) && !owns(d, i, q) implies #[trigger] read_at(d3, q)
        == read_at(d, q) by {
        assert(q != p);
        assert(read_at(d2, q) == read_at(d, q));
    }
    assert forall|q: u32| #[trigger] owns(d3, i2, q) implies owns(d, i, q) || !taken(d, q) by {
        if file_chain(d3, i2, q) {
            assert(file_chain(d2, i2, q));
        } else {
            let m = choose|m: u32| #[trigger] resolve_block(d3, i2, m) == Some(q);
            if m != n {
                assert(resolve_block(d, i, m) == Some(q));
            }
        }
    }
}

/// A directory is in order whose blocks are all full but for a last one with one
/// entry, and that entry has joined the others.
#[verifier::spinoff_prover]
proof fn lemma_block_joins(d: Blocks, i: InodeView, d1: Blocks, i1: InodeView, e: NewEntry)
    requires
        sound_dir(d, i),
        findable(e),
        i1.size == wrap64(whole_blocks(i.size), e.rec() as u64),
        healthy(d1, i1),
        i1.flags == i.flags,
        i1.extent_count == i.extent_count + 1,
        forall|m: u32| m > block_count(i.size) ==> (#[trigger] resolve_block(d1, i1, m)) is None,
        forall|m: int|
            0 <= m < block_count(i.size) ==> (#[trigger] dir_block(d1, i1, m)) is Some && tiled(
                dir_block(d1, i1, m)->0,
                0,
                BLOCK_SIZE as int,
            ) && block_entries(dir_block(d1, i1, m)->0, 0, BLOCK_SIZE as int) == block_of_entries(
                d,
                i,
                m,
            ),
        dir_block(d1, i1, block_count(i.size) as int) == Some(
            splice(zeros(BLOCK_SIZE as nat), 0, e.bytes(e.rec())),
        ),
    ensures
        sound_dir(d1, i1),
        joined(dir_entries(d, i), dir_entries(d1, i1), entry_of(e)),
{
    let n = block_count(i.size) as int;
    lemma_dir_size(d, i);
    assert(0 < e.rec() <= 266);
    lemma_grown_over(i.size, e.rec());
    lemma_started(e);
    assert forall|m: int| 0 <= m <= n implies (#[trigger] dir_block(d1, i1, m)) is Some && tiled(
        dir_block(d1, i1, m)->0,
        0,
        scan_limit(i1.size, m),
    ) by {}
    assert forall|m: int| 0 <= m < n implies #[trigger] block_of_entries(d1, i1, m)
        == block_of_entries(d, i, m) by {
        assert(dir_block(d1, i1, m) is Some);
    }
    lemma_one_more_block(d, i, d1, i1, entry_of(e));
}

#[verifier::spinoff_prover]
#[verifier::rlimit(40)]
proof fn lemma_add_block(d: Blocks, ino: u32, i: InodeView, e: NewEntry, total: u32)
    requires
        sound_dir(d, i),
        read_inode(d, ino) == Some(i),
        findable(e),
        add_in_new_block(d, ino, i, e, total).1,
    ensures
        added(d, i, add_in_new_block(d, ino, i, e, total).0, ino, e),
{
    let n = block_count(i.size);
    let (da, r) = alloc_block(d, total);
    let (d2, i2, _) = add_extent(da, i, one_block(n, r->0), total);
    let c = splice(zeros(BLOCK_SIZE as nat), 0, e.bytes(e.rec()));
    let d3 = written(d2, r->0, c);
    lemma_started(e);
    lemma_new_block(d, i, c, total);
    let i3 = InodeView {
        size: wrap64(whole_blocks(i.size), e.rec() as u64),
        blocks: wrap64(i2.blocks, 1),
        ..i2
    };
    let d4 = match filled_up(d, i) {
        None => d3,
        Some((q, b)) => written(d3, q, b),
    };
    let d5 = write_inode(d4, ino, i3).0;
    assert(add_in_new_block(d, ino, i, e, total).0 == d5);
    let tail = i.size % BLOCK_SIZE as u64 != 0;
    if tail {
        lemma_filled_up(d, i);
        let q = (filled_up(d, i)->0).0;
        let b = (filled_up(d, i)->0).1;
        let l = (n - 1) as u32;
        assert(resolve_block(d3, i2, l) == Some(q));
        lemma_write_data(d3, i2, l, b);
        lemma_same_owner(d3, i2, d4, i2);
        lemma_last_filled(d, i, d3, i2, d4, q);
    }
    assert(healthy(d4, i2));
    assert(forall|m: u32| #[trigger] resolve_block(d4, i2, m) == resolve_block(d3, i2, m));
    lemma_same_map(d4, i2, i3);
    lemma_same_owner(d4, i2, d4, i3);
    lemma_dir_store(d4, ino, i3);
    lemma_confined(d, i, d4, i3, d5);
    assert forall|m: u32| m > n implies (#[trigger] resolve_block(d5, i3, m)) is None by {
        assert(resolve_block(d4, i3, m) == resolve_block(d4, i2, m));
        assert(resolve_block(d4, i2, m) == resolve_block(d3, i2, m));
        assert(resolve_block(d3, i2, m) == resolve_block(d, i, m));
    }
    assert forall|m: int| 0 <= m < n implies (#[trigger] dir_block(d5, i3, m)) is Some && tiled(
        dir_block(d5, i3, m)->0,
        0,
        BLOCK_SIZE as int,
    ) && block_entries(dir_block(d5, i3, m)->0, 0, BLOCK_SIZE as int) == block_of_entries(
        d,
        i,
        m,
    ) by {
        assert(dir_block(d5, i3, m) == dir_block(d4, i3, m));
        assert(resolve_block(d4, i3, m as u32) == resolve_block(d3, i2, m as u32));
        assert(dir_block(d3, i2, m) == dir_block(d, i, m));
        assert(dir_block(d, i, m) is Some);
        lemma_limits(i.size, m);
        if tail && m + 1 == n {
            assert(dir_block(d4, i3, m) == Some((filled_up(d, i)->0).1));
        } else {
            if tail {
                assert(resolve_block(d3, i2, m as u32) != resolve_block(d3, i2, (n - 1) as u32));
            }
            assert(dir_block(d4, i3, m) == dir_block(d3, i2, m));
        }
    }
    assert(dir_block(d5, i3, n as int) == dir_block(d4, i3, n as int));
    assert(resolve_block(d4, i3, n) == resolve_block(d3, i2, n));
    if tail {
        assert(resolve_block(d3, i2, n) != resolve_block(d3, i2, (n - 1) as u32));
    }
    assert(dir_block(d5, i3, n as int) == Some(c));
    lemma_block_joins(d, i, d5, i3, e);
    assert(read_inode(d5, ino)->0 == i3);
    assert forall|o: u32| o != ino implies #[trigger] read_inode(d5, o) == read_inode(d, o) by {
        assert(read_inode(d4, o) == read_inode(d3, o)) by {
            if tail && o < INODE_COUNT {
                assert(resolve_block(d, i, (n - 1) as u32) is Some);
                lemma_inode_apart(d, o, (filled_up(d, i)->0).0);
            }
        }
        assert(read_inode(d3, o) == read_inode(d, o));
    }
}

/// Changing another block of the file afterwards stays within the file.
proof fn lemma_last_filled(
    d: Blocks,
    i: InodeView,
    d1: Blocks,
    i1: InodeView,
    d2: Blocks,
    p: u32,
)
    requires
        confined(d, i, d1, i1),
        grows_to(d1, d2),
        owns(d, i, p),
        forall|q: u32| q != p ==> #[trigger] read_at(d2, q) == read_at(d1, q),
        forall|q: u32| #[trigger] owns(d2, i1, q) == owns(d1, i1, q),
    ensures
        confined(d, i, d2, i1),
{
    assert forall|q: u32| taken(d, q) && !owns(d, i, q) implies #[trigger] read_at(d2, q)
        == read_at(d, q) by {
        assert(read_at(d1, q) == read_at(d, q));
    }
    assert forall|q: u32| taken(d, q) implies #[trigger] taken(d2, q) by {
        assert(taken(d1, q));
    }
    assert forall|q: u32| #[trigger] owns(d2, i1, q) implies owns(d, i, q) || !taken(d, q) by {
        assert(owns(d1, i1, q));
    }
    assert forall|q: u32| #[trigger] can_write(d2, q) == can_write(d, q) by {
        assert(can_write(d1, q) == can_write(d, q));
    }
    assert forall|q: u32| (#[trigger] read_at(d2, q) is Some) == (read_at(d, q) is Some) by {
        assert((read_at(d1, q) is Some) == (read_at(d, q) is Some));
    }
}

proof fn lemma_add_in_blocks(d: Blocks, ino: u32, i: InodeView, e: NewEntry, l: int)
    requires
        sound_dir(d, i),
        read_inode(d, ino) == Some(i),
        findable(e),
        0 <= l <= block_count(i.size),
    ensures
        add_in_blocks(d, ino, i, e, l, block_count(i.size) as int) matches Some((d1, ok)) ==> ok
            ==> added(d, i, d1, ino, e),
    decreases block_count(i.size) - l,
{
    let n = block_count(i.size) as int;
    if l < n {
        lemma_limits(i.size, l);
        assert(dir_block(d, i, l) is Some);
        let p = resolve_block(d, i, l as u32)->0;
        let b = dir_block(d, i, l)->0;
        let limit = scan_limit(i.size, l);
        if free_slot(b, 0, limit, e) is Some {
            if can_write(d, p) {
                lemma_add_in_slot(d, ino, i, e, l);
            }
        } else if l + 1 == n && limit + e.rec() <= BLOCK_SIZE {
            assert(i.size % BLOCK_SIZE as u64 != 0);
            if can_write(d, p) {
                let d1 = written(d, p, splice(b, limit, e.bytes(e.rec())));
                let i1 = InodeView { size: wrap64(i.size, e.rec() as u64), ..i };
                if write_inode(d1, ino, i1).1 {
                    lemma_add_at_end(d, ino, i, e);
                }
            }
        } else {
            lemma_add_in_blocks(d, ino, i, e, l + 1);
        }
    }
}

/// An entry that is added to a directory joins the others, which all stay in
/// their order. The directory stays in order, and no other file changes.
pub proof fn law_added_entry_joins_the_others(
    d: Blocks,
    ino: u32,
    i: InodeView,
    e: NewEntry,
    total: u32,
)
    requires
        read_inode(d, ino) == Some(i),
        sound_dir(d, i),
        findable(e),
        add_dir_entry(d, ino, e, total).1,
    ensures
        ({
            let d1 = add_dir_entry(d, ino, e, total).0;
            let i1 = read_inode(d1, ino)->0;
            &&& read_inode(d1, ino) is Some
            &&& i1.flags == i.flags
            &&& joined(dir_entries(d, i), dir_entries(d1, i1), entry_of(e))
            &&& sound_dir(d1, i1)
            &&& forall|o: u32| o != ino ==> #[trigger] read_inode(d1, o) == read_inode(d, o)
            &&& confined(d, i, d1, i1)
        }),
{
    lemma_add_in_blocks(d, ino, i, e, 0);
    if add_in_blocks(d, ino, i, e, 0, block_count(i.size) as int) is None {
        lemma_add_block(d, ino, i, e, total);
    }
}

/// An entry that was added to a directory is found there under its name, and all
/// other names are found as before.
pub proof fn law_added_entry_is_found(d: Blocks, ino: u32, i: InodeView, e: NewEntry, total: u32)
    requires
        read_inode(d, ino) == Some(i),
        sound_dir(d, i),
        findable(e),
        add_dir_entry(d, ino, e, total).1,
    ensures
        ({
            let d1 = add_dir_entry(d, ino, e, total).0;
            let i1 = read_inode(d1, ino)->0;
            &&& read_inode(d1, ino) is Some
            &&& lookup_in_dir(d, i, e.name) is None ==> lookup_in_dir(d1, i1, e.name) == Some(e.ino)
            &&& forall|name: Seq<u8>|
                name != e.name ==> #[trigger] lookup_in_dir(d1, i1, name) == lookup_in_dir(
                    d,
                    i,
                    name,
                )
        }),
{
    law_added_entry_joins_the_others(d, ino, i, e, total);
    let d1 = add_dir_entry(d, ino, e, total).0;
    let i1 = read_inode(d1, ino)->0;
    lemma_found(dir_entries(d, i), dir_entries(d1, i1), entry_of(e));
    assert forall|name: Seq<u8>| name != e.name implies #[trigger] lookup_in_dir(d1, i1, name)
        == lookup_in_dir(d, i, name) by {}
}

/// A directory that was just made is in order on every device that is.
pub proof fn law_new_directory_is_in_order(d: Blocks, mode: u16, now: u64)
    requires
        wf_blocks(d),
        reads_back(d),
        read_at(d, BITMAP_BLOCK) is Some,
    ensures
        sound_dir(d, fresh_inode((INODE_USED | INODE_DIR) as u32, mode, now)),
        dir_entries(d, fresh_inode((INODE_USED | INODE_DIR) as u32, mode, now)).len() == 0,
{
    let i = fresh_inode((INODE_USED | INODE_DIR) as u32, mode, now);
    law_new_file_is_healthy(d, (INODE_USED | INODE_DIR) as u32, mode, now);
    assert(inline_extents(i).len() == 0);
    assert forall|l: u32| #[trigger] resolve_block(d, i, l) is None by {}
    assert((INODE_USED | INODE_DIR) & INODE_USED != 0) by (bit_vector);
}

// ── Removing an entry ────────────────────────────────────────────────────────

proof fn lemma_remove_in_blocks(d: Blocks, ino: u32, i: InodeView, name: Seq<u8>, l: int)
    requires
        sound_dir(d, i),
        read_inode(d, ino) == Some(i),
        0 < name.len(),
        valid_utf8(name),
        0 <= l <= block_count(i.size),
        remove_in_blocks(d, i, name, l, block_count(i.size) as int).1,
        forall|j: int|
            0 <= j < entries_from(d, i, 0, l).len() ==> (#[trigger] entries_from(
                d,
                i,
                0,
                l,
            )[j]).name != name,
    ensures
        ({
            let d1 = remove_in_blocks(d, i, name, l, block_count(i.size) as int).0;
            let es = dir_entries(d, i);
            let k = first_named(es, name, 0);
            &&& read_inode(d1, ino) == Some(i)
            &&& k < es.len()
            &&& dir_entries(d1, i) == es.remove(k)
            &&& sound_dir(d1, i)
            &&& forall|o: u32| #[trigger] read_inode(d1, o) == read_inode(d, o)
            &&& confined(d, i, d1, i)
        }),
    decreases block_count(i.size) - l,
{
    let n = block_count(i.size) as int;
    assert(l < n);
    lemma_limits(i.size, l);
    assert(dir_block(d, i, l) is Some);
    let p = resolve_block(d, i, l as u32)->0;
    let b = dir_block(d, i, l)->0;
    let limit = scan_limit(i.size, l);
    let here = block_of_entries(d, i, l);
    let head = entries_from(d, i, 0, l);
    assert(b.len() == BLOCK_SIZE);
    lemma_named_slot(b, 0, limit, name);
    lemma_dir_split(d, i, 0, l, l + 1);
    lemma_dir_step(d, i, l, l + 1);
    assert(entries_from(d, i, l + 1, l + 1) =~= seq![]);
    match named_slot(b, 0, limit, name) {
        None => {
            let upto = entries_from(d, i, 0, l + 1);
            assert(upto =~= head + here);
            assert forall|j: int| 0 <= j < upto.len() implies (#[trigger] upto[j]).name != name by {
                if j < head.len() {
                    assert(upto[j] == head[j]);
                } else {
                    assert(upto[j] == here[j - head.len()]);
                }
            }
            lemma_remove_in_blocks(d, ino, i, name, l + 1);
        },
        Some(at) => {
            let c = splice(b, at, le32(0));
            let d1 = written(d, p, c);
            lemma_cleared(b, limit, name);
            lemma_dir_write(d, ino, i, l, c);
            let tail = entries_from(d, i, l + 1, n);
            assert forall|m: int| 0 <= m < n && m != l implies #[trigger] block_of_entries(
                d1,
                i,
                m,
            ) == block_of_entries(d, i, m) by {
                assert(dir_block(d1, i, m) == dir_block(d, i, m));
            }
            lemma_dir_same(d, i, d1, i, 0, l);
            lemma_dir_same(d, i, d1, i, l + 1, n);
            lemma_dir_split(d, i, 0, l, n);
            lemma_dir_split(d1, i, 0, l, n);
            lemma_dir_step(d, i, l, n);
            lemma_dir_step(d1, i, l, n);
            let es = dir_entries(d, i);
            let j = block_entries(b, 0, at).len() as int;
            let k = head.len() + j;
            assert(es == head + (here + tail));
            assert(es[k] == here[j]);
            assert forall|m: int| 0 <= m < k implies (#[trigger] es[m]).name != name by {
                if m < head.len() {
                    assert(es[m] == head[m]);
                } else {
                    assert(es[m] == here[m - head.len()]);
                }
            }
            lemma_first_named(es, name, 0, k);
            assert(dir_entries(d1, i) == head + (here.remove(j) + tail));
            assert(dir_entries(d1, i) =~= es.remove(k));
            lemma_block_changed(d, i, d1, l, c);
        },
    }
}

proof fn lemma_first_named(es: Seq<EntryView>, name: Seq<u8>, from: int, k: int)
    requires
        0 <= from <= k < es.len(),
        es[k].name == name,
        forall|m: int| from <= m < k ==> (#[trigger] es[m]).name != name,
    ensures
        first_named(es, name, from) == k,
    decreases k - from,
{
    if from < k {
        lemma_first_named(es, name, from + 1, k);
    }
}

/// Removing a name takes the first entry that has it out of the directory, and
/// leaves all others in their order. The directory stays in order.
pub proof fn law_removal_takes_the_first_entry(d: Blocks, ino: u32, i: InodeView, name: Seq<u8>)
    requires
        read_inode(d, ino) == Some(i),
        sound_dir(d, i),
        0 < name.len(),
        valid_utf8(name),
        remove_dir_entry(d, ino, name).1,
    ensures
        ({
            let d1 = remove_dir_entry(d, ino, name).0;
            let es = dir_entries(d, i);
            let k = first_named(es, name, 0);
            &&& read_inode(d1, ino) == Some(i)
            &&& k < es.len()
            &&& dir_entries(d1, i) == es.remove(k)
            &&& sound_dir(d1, i)
            &&& forall|o: u32| #[trigger] read_inode(d1, o) == read_inode(d, o)
            &&& confined(d, i, d1, i)
        }),
{
    lemma_remove_in_blocks(d, ino, i, name, 0);
}

// ── New files ────────────────────────────────────────────────────────────────

/// An inode that is handed out was not in use.
pub proof fn lemma_free_inode(d: Blocks, from: u32)
    requires
        wf_blocks(d),
    ensures
        free_inode_from(d, from) matches Some(ino) ==> from <= ino < INODE_COUNT && ino != 0
            && read_inode(d, ino) is None,
    decreases INODE_COUNT - from,
{
    if from < INODE_COUNT {
        lemma_free_inode(d, (from + 1) as u32);
        if let Some(b) = read_at(d, inode_block(from)) {
            assert(inode_at(b, inode_offset(from)).flags == le32_at(b, inode_offset(from))) by {
                reveal(inode_at);
            }
        }
    }
}

/// No block belongs to both files.
pub open spec fn apart(d: Blocks, i: InodeView, j: InodeView) -> bool {
    forall|q: u32| #[trigger] owns(d, i, q) ==> !owns(d, j, q)
}

/// A directory whose blocks are as they were is in order, with the same entries.
pub proof fn lemma_dir_kept(d: Blocks, d1: Blocks, i: InodeView)
    requires
        sound_dir(d, i),
        same_shape(d, d1),
        forall|q: u32| taken(d, q) && owns(d, i, q) ==> #[trigger] taken(d1, q),
        forall|q: u32|
            taken(d, q) && owns(d, i, q) ==> #[trigger] read_at(d1, q) == read_at(d, q),
    ensures
        sound_dir(d1, i),
        dir_entries(d1, i) == dir_entries(d, i),
        forall|q: u32| #[trigger] owns(d1, i, q) == owns(d, i, q),
{
    lemma_file_frame(d, d1, i);
    let n = block_count(i.size) as int;
    assert forall|m: int| #[trigger] dir_block(d1, i, m) == dir_block(d, i, m) by {
        assert(resolve_block(d1, i, m as u32) == resolve_block(d, i, m as u32));
        if resolve_block(d, i, m as u32) is Some {
            assert(taken(d, resolve_block(d, i, m as u32)->0));
            assert(owns(d, i, resolve_block(d, i, m as u32)->0));
        }
    }
    if n > 0 {
        assert(dir_block(d, i, n - 1) is Some);
        lemma_block_changed(d, i, d1, n - 1, dir_block(d, i, n - 1)->0);
    } else {
        assert forall|m: u32| m >= n implies (#[trigger] resolve_block(d1, i, m)) is None by {
            assert(resolve_block(d, i, m) is None);
        }
    }
    assert forall|m: int| 0 <= m < n implies #[trigger] block_of_entries(d1, i, m)
        == block_of_entries(d, i, m) by {
        assert(dir_block(d1, i, m) == dir_block(d, i, m));
    }
    lemma_dir_same(d, i, d1, i, 0, n);
}

/// Storing some inode leaves a directory's blocks.
proof fn lemma_dir_unmoved(d: Blocks, ino: u32, x: InodeView, i: InodeView)
    requires
        sound_dir(d, i),
        write_inode(d, ino, x).1,
        x.extents.len() == INLINE_EXTENTS,
    ensures
        sound_dir(write_inode(d, ino, x).0, i),
        dir_entries(write_inode(d, ino, x).0, i) == dir_entries(d, i),
        grows_to(d, write_inode(d, ino, x).0),
        forall|q: u32|
            taken(d, q) ==> #[trigger] read_at(write_inode(d, ino, x).0, q) == read_at(d, q),
        forall|q: u32| #[trigger] owns(write_inode(d, ino, x).0, i, q) == owns(d, i, q),
{
    let d1 = write_inode(d, ino, x).0;
    let blk = inode_block(ino);
    let raw = splice(read_at(d, blk)->0, inode_offset(ino), inode_bytes(x));
    assert(d1 == written(d, blk, raw));
    law_inode_round_trip(x);
    lemma_written(d, blk, raw);
    assert(grows_to(d, d1)) by {
        assert(bitmap(d1) == bitmap(d));
    }
    assert forall|q: u32| taken(d, q) implies #[trigger] read_at(d1, q) == read_at(d, q) by {
        lemma_inode_apart(d, ino, q);
    }
    lemma_dir_kept(d, d1, i);
}

/// A directory that shares no block with one that changes keeps its entries.
pub proof fn law_other_directories_are_kept(
    d: Blocks,
    i: InodeView,
    d1: Blocks,
    i1: InodeView,
    j: InodeView,
)
    requires
        confined(d, i, d1, i1),
        sound_dir(d, j),
        apart(d, i, j),
    ensures
        sound_dir(d1, j),
        dir_entries(d1, j) == dir_entries(d, j),
        apart(d1, i1, j),
{
    assert forall|q: u32| taken(d, q) && owns(d, j, q) implies #[trigger] read_at(d1, q)
        == read_at(d, q) by {
        assert(!owns(d, i, q));
    }
    lemma_dir_kept(d, d1, j);
    assert forall|q: u32| #[trigger] owns(d1, i1, q) implies !owns(d1, j, q) by {
        if owns(d1, j, q) {
            assert(owns(d, j, q));
            lemma_owned_is_taken(d, j, q);
        }
    }
}

pub proof fn lemma_owned_is_taken(d: Blocks, i: InodeView, q: u32)
    requires
        healthy(d, i),
        owns(d, i, q),
    ensures
        taken(d, q),
{
    if !file_chain(d, i, q) {
        let l = choose|l: u32| #[trigger] resolve_block(d, i, l) == Some(q);
        assert(resolve_block(d, i, l) is Some);
    }
}

/// A new file joins the entries of its directory, is found there under its name,
/// and its inode is what was stored. Its number was not in use, and no other
/// inode than the directory's changes.
pub proof fn law_linked_file_is_found(
    d: Blocks,
    dir: u32,
    i: InodeView,
    name: Seq<u8>,
    inode: InodeView,
    file_type: u8,
    total: u32,
)
    requires
        read_inode(d, dir) == Some(i),
        sound_dir(d, i),
        valid_utf8(name),
        lookup_in_dir(d, i, name) is None,
        inode.is(INODE_USED),
        inode.extents.len() == INLINE_EXTENTS,
        linked(d, dir, name, inode, file_type, total).1 is Some,
    ensures
        ({
            let (d2, r) = linked(d, dir, name, inode, file_type, total);
            let i2 = read_inode(d2, dir)->0;
            &&& read_inode(d2, dir) is Some
            &&& i2.flags == i.flags
            &&& lookup_in_dir(d2, i2, name) == r
            &&& joined(
                dir_entries(d, i),
                dir_entries(d2, i2),
                EntryView { ino: r->0, file_type, name },
            )
            &&& read_inode(d2, r->0) == Some(inode)
            &&& read_inode(d, r->0) is None
            &&& forall|o: u32|
                o != dir && o != r->0 ==> #[trigger] read_inode(d2, o) == read_inode(d, o)
            &&& sound_dir(d2, i2)
            &&& confined(d, i, d2, i2)
        }),
{
    let ino = free_inode_from(d, 0)->0;
    lemma_free_inode(d, 0);
    let e = NewEntry { ino, name, file_type };
    let d1 = write_inode(d, ino, inode).0;
    law_stored_inode_is_read(d, ino, inode, dir);
    lemma_dir_unmoved(d, ino, inode, i);
    law_added_entry_is_found(d1, dir, i, e, total);
    law_added_entry_joins_the_others(d1, dir, i, e, total);
    let d2 = add_dir_entry(d1, dir, e, total).0;
    let i2 = read_inode(d2, dir)->0;
    lemma_confined_after(d, i, d1, d2, i2);
    assert forall|o: u32| o != dir && o != ino implies #[trigger] read_inode(d2, o) == read_inode(
        d,
        o,
    ) by {
        law_stored_inode_is_read(d, ino, inode, o);
    }
}

/// A change within a file after one that leaves all files.
proof fn lemma_confined_after(d: Blocks, i: InodeView, d1: Blocks, d2: Blocks, i2: InodeView)
    requires
        confined(d1, i, d2, i2),
        grows_to(d, d1),
        forall|q: u32| taken(d, q) ==> #[trigger] read_at(d1, q) == read_at(d, q),
        forall|q: u32| #[trigger] owns(d1, i, q) == owns(d, i, q),
    ensures
        confined(d, i, d2, i2),
{
    assert forall|q: u32| taken(d, q) && !owns(d, i, q) implies #[trigger] read_at(d2, q)
        == read_at(d, q) by {
        assert(taken(d1, q));
        assert(!owns(d1, i, q));
        assert(read_at(d1, q) == read_at(d, q));
    }
    assert forall|q: u32| taken(d, q) implies #[trigger] taken(d2, q) by {
        assert(taken(d1, q));
    }
    assert forall|q: u32| #[trigger] owns(d2, i2, q) implies owns(d, i, q) || !taken(d, q) by {
        assert(owns(d1, i, q) == owns(d, i, q));
        if taken(d, q) {
            assert(taken(d1, q));
        }
    }
    assert forall|q: u32| #[trigger] can_write(d2, q) == can_write(d, q) by {
        assert(can_write(d1, q) == can_write(d, q));
    }
    assert forall|q: u32| (#[trigger] read_at(d2, q) is Some) == (read_at(d, q) is Some) by {
        assert((read_at(d1, q) is Some) == (read_at(d, q) is Some));
    }
}

// ── Renaming ─────────────────────────────────────────────────────────────────

/// The name stands in the directory at most once.
pub open spec fn stands_once(es: Seq<EntryView>, name: Seq<u8>) -> bool {
    forall|j: int, k: int|
        0 <= j < es.len() && 0 <= k < es.len() && (#[trigger] es[j]).name == name && (
        #[trigger] es[k]).name == name ==> j == k
}

pub proof fn lemma_first_named_has_it(es: Seq<EntryView>, name: Seq<u8>, from: int)
    requires
        0 <= from,
        first_named(es, name, from) < es.len(),
    ensures
        from <= first_named(es, name, from),
        es[first_named(es, name, from)].name == name,
    decreases es.len() - from,
{
    if from < es.len() && es[from].name != name {
        lemma_first_named_has_it(es, name, from + 1);
    }
}

/// One entry in, another out: the first is found, the second is gone.
proof fn lemma_one_for_another(
    before: Seq<EntryView>,
    k: int,
    e: EntryView,
    from: Seq<u8>,
    gone: int,
)
    requires
        0 <= k <= before.len(),
        from != e.name,
        stands_once(before, from),
        forall|j: int| 0 <= j < before.len() ==> (#[trigger] before[j]).name != e.name,
        0 <= gone < before.len() + 1,
        before.insert(k, e)[gone].name == from,
    ensures
        lookup_from(before.insert(k, e).remove(gone), 0, e.name) == Some(e.ino),
        lookup_from(before.insert(k, e).remove(gone), 0, from) is None,
        joined(before.remove(first_named(before, from, 0)), before.insert(k, e).remove(gone), e),
{
    let mid = before.insert(k, e);
    let after = mid.remove(gone);
    assert(gone != k);
    assert forall|j: int| 0 <= j < mid.len() implies (#[trigger] mid[j]) == if j < k {
        before[j]
    } else if j == k {
        e
    } else {
        before[j - 1]
    } by {}
    let at = if gone < k {
        k - 1
    } else {
        k
    };
    assert(after[at] == e);
    assert forall|j: int| 0 <= j < at implies (#[trigger] after[j]).name != e.name by {
        let m = if j < gone {
            j
        } else {
            j + 1
        };
        assert(after[j] == mid[m]);
    }
    lemma_first_is_found(after, 0, at, e.name);
    assert forall|j: int| 0 <= j < after.len() implies (#[trigger] after[j]).name != from by {
        let m = if j < gone {
            j
        } else {
            j + 1
        };
        assert(after[j] == mid[m]);
        let old_m = if m < k {
            m
        } else {
            m - 1
        };
        let old_gone = if gone < k {
            gone
        } else {
            gone - 1
        };
        assert(before[old_gone].name == from);
        if m != k && before[old_m].name == from {
            assert(old_m == old_gone);
        }
    }
    lemma_absent(after, 0, from);
    let old_gone = if gone < k {
        gone
    } else {
        gone - 1
    };
    assert(before[old_gone].name == from);
    lemma_first_named(before, from, 0, old_gone);
    let rest = before.remove(old_gone);
    assert(after =~= rest.insert(at, e));
}

/// A file that is renamed within a directory is found under its new name and no
/// longer under the old one. The old entry leaves, the new one joins the others,
/// and nothing but the directory's blocks and inode changes.
pub proof fn law_a_renamed_file_is_found(
    fs: FsView,
    ino: u32,
    dir: u32,
    i: InodeView,
    from: Seq<u8>,
    to: Seq<u8>,
)
    requires
        read_inode(fs.disk, dir) == Some(i),
        sound_dir(fs.disk, i),
        findable(NewEntry { ino, name: to, file_type: FT_REG }),
        0 < from.len(),
        valid_utf8(from),
        from != to,
        lookup_in_dir(fs.disk, i, to) is None,
        stands_once(dir_entries(fs.disk, i), from),
        moved_entry(fs, ino, dir, from, dir, to).1 == 0,
    ensures
        ({
            let d = moved_entry(fs, ino, dir, from, dir, to).0.disk;
            let i1 = read_inode(d, dir)->0;
            let before = dir_entries(fs.disk, i);
            &&& read_inode(d, dir) is Some
            &&& lookup_in_dir(d, i1, to) == Some(ino)
            &&& lookup_in_dir(d, i1, from) is None
            &&& joined(
                before.remove(first_named(before, from, 0)),
                dir_entries(d, i1),
                EntryView { ino, file_type: FT_REG, name: to },
            )
            &&& forall|o: u32| o != dir ==> #[trigger] read_inode(d, o) == read_inode(fs.disk, o)
            &&& sound_dir(d, i1)
            &&& confined(fs.disk, i, d, i1)
        }),
{
    let e = NewEntry { ino, name: to, file_type: FT_REG };
    let before = dir_entries(fs.disk, i);
    let d1 = add_dir_entry(fs.disk, dir, e, fs.total_blocks).0;
    law_added_entry_joins_the_others(fs.disk, dir, i, e, fs.total_blocks);
    let i1 = read_inode(d1, dir)->0;
    let mid = dir_entries(d1, i1);
    law_removal_takes_the_first_entry(d1, dir, i1, from);
    let d2 = remove_dir_entry(d1, dir, from).0;
    let gone = first_named(mid, from, 0);
    lemma_first_named_has_it(mid, from, 0);
    let k = choose|k: int| 0 <= k <= before.len() && mid == #[trigger] before.insert(k, entry_of(e));
    lemma_absent(before, 0, to);
    lemma_one_for_another(before, k, entry_of(e), from, gone);
    lemma_confined_on(fs.disk, i, d1, i1, d2, i1);
}

/// A file that is moved to another directory is found there under its new name
/// and no longer in the old directory. The new entry joins those of the one, the
/// old entry leaves the other, and nothing but the two directories changes.
pub proof fn law_a_moved_file_is_found(
    fs: FsView,
    ino: u32,
    from_dir: u32,
    i: InodeView,
    from: Seq<u8>,
    to_dir: u32,
    j: InodeView,
    to: Seq<u8>,
)
    requires
        from_dir != to_dir,
        read_inode(fs.disk, from_dir) == Some(i),
        read_inode(fs.disk, to_dir) == Some(j),
        sound_dir(fs.disk, i),
        sound_dir(fs.disk, j),
        apart(fs.disk, j, i),
        findable(NewEntry { ino, name: to, file_type: FT_REG }),
        0 < from.len(),
        valid_utf8(from),
        lookup_in_dir(fs.disk, j, to) is None,
        stands_once(dir_entries(fs.disk, i), from),
        moved_entry(fs, ino, from_dir, from, to_dir, to).1 == 0,
    ensures
        ({
            let d = moved_entry(fs, ino, from_dir, from, to_dir, to).0.disk;
            let i1 = read_inode(d, from_dir)->0;
            let j1 = read_inode(d, to_dir)->0;
            let before = dir_entries(fs.disk, i);
            &&& read_inode(d, from_dir) is Some
            &&& read_inode(d, to_dir) is Some
            &&& lookup_in_dir(d, j1, to) == Some(ino)
            &&& lookup_in_dir(d, i1, from) is None
            &&& dir_entries(d, i1) == before.remove(first_named(before, from, 0))
            &&& joined(
                dir_entries(fs.disk, j),
                dir_entries(d, j1),
                EntryView { ino, file_type: FT_REG, name: to },
            )
            &&& forall|o: u32|
                o != from_dir && o != to_dir ==> #[trigger] read_inode(d, o) == read_inode(
                    fs.disk,
                    o,
                )
            &&& sound_dir(d, i1)
            &&& sound_dir(d, j1)
            &&& forall|q: u32|
                taken(fs.disk, q) && !owns(fs.disk, i, q) && !owns(fs.disk, j, q)
                    ==> #[trigger] read_at(d, q) == read_at(fs.disk, q)
        }),
{
    let e = NewEntry { ino, name: to, file_type: FT_REG };
    let before = dir_entries(fs.disk, i);
    let d1 = add_dir_entry(fs.disk, to_dir, e, fs.total_blocks).0;
    law_added_entry_joins_the_others(fs.disk, to_dir, j, e, fs.total_blocks);
    law_added_entry_is_found(fs.disk, to_dir, j, e, fs.total_blocks);
    let j1 = read_inode(d1, to_dir)->0;
    law_other_directories_are_kept(fs.disk, j, d1, j1, i);
    assert(read_inode(d1, from_dir) == Some(i));
    let d2 = remove_dir_entry(d1, from_dir, from).0;
    law_removal_takes_the_first_entry(d1, from_dir, i, from);
    assert(apart(d1, i, j1)) by {
        assert forall|q: u32| #[trigger] owns(d1, i, q) implies !owns(d1, j1, q) by {
            if owns(d1, j1, q) {
                assert(!owns(d1, i, q));
            }
        }
    }
    law_other_directories_are_kept(d1, i, d2, i, j1);
    assert(read_inode(d2, to_dir) == Some(j1));
    let gone = first_named(before, from, 0);
    lemma_first_named_has_it(before, from, 0);
    let after = before.remove(gone);
    assert forall|m: int| 0 <= m < after.len() implies (#[trigger] after[m]).name != from by {
        let w = if m < gone {
            m
        } else {
            m + 1
        };
        assert(after[m] == before[w]);
    }
    lemma_absent(after, 0, from);
    assert forall|q: u32|
        taken(fs.disk, q) && !owns(fs.disk, i, q) && !owns(fs.disk, j, q) implies #[trigger] read_at(
        d2,
        q,
    ) == read_at(fs.disk, q) by {
        assert(read_at(d1, q) == read_at(fs.disk, q));
        assert(taken(d1, q));
        lemma_dir_kept_owner(fs.disk, j, d1, j1, i, q);
    }
    assert forall|o: u32| o != from_dir && o != to_dir implies #[trigger] read_inode(d2, o)
        == read_inode(fs.disk, o) by {
        assert(read_inode(d1, o) == read_inode(fs.disk, o));
    }
}

proof fn lemma_dir_kept_owner(
    d: Blocks,
    i: InodeView,
    d1: Blocks,
    i1: InodeView,
    j: InodeView,
    q: u32,
)
    requires
        confined(d, i, d1, i1),
        sound_dir(d, j),
        apart(d, i, j),
    ensures
        owns(d1, j, q) == owns(d, j, q),
{
    assert forall|p: u32| taken(d, p) && owns(d, j, p) implies #[trigger] read_at(d1, p)
        == read_at(d, p) by {
        assert(!owns(d, i, p));
    }
    lemma_dir_kept(d, d1, j);
}

/// Two changes within a file, one after the other.
pub proof fn lemma_confined_on(
    d: Blocks,
    i: InodeView,
    d1: Blocks,
    i1: InodeView,
    d2: Blocks,
    i2: InodeView,
)
    requires
        confined(d, i, d1, i1),
        confined(d1, i1, d2, i2),
    ensures
        confined(d, i, d2, i2),
{
    assert forall|q: u32| taken(d, q) implies #[trigger] taken(d2, q) by {
        assert(taken(d1, q));
    }
    assert forall|q: u32| taken(d, q) && !owns(d, i, q) implies #[trigger] read_at(d2, q)
        == read_at(d, q) by {
        assert(taken(d1, q));
        assert(!owns(d1, i1, q));
        assert(read_at(d1, q) == read_at(d, q));
    }
    assert forall|q: u32| #[trigger] owns(d2, i2, q) implies owns(d, i, q) || !taken(d, q) by {
        if taken(d, q) {
            assert(taken(d1, q));
            assert(owns(d1, i1, q));
        }
    }
    assert forall|q: u32| #[trigger] can_write(d2, q) == can_write(d, q) by {
        assert(can_write(d1, q) == can_write(d, q));
    }
    assert forall|q: u32| (#[trigger] read_at(d2, q) is Some) == (read_at(d, q) is Some) by {
        assert((read_at(d1, q) is Some) == (read_at(d, q) is Some));
    }
}

} // verus!
