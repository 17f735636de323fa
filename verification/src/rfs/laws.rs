//! What holds across the file system's operations.

use vstd::prelude::*;
use crate::bytes::{le32, le32_at, lemma_le32_round, splice, zeros};
use crate::rfs::disk::{
    alloc_block, alloc_end, can_write, free_block, lemma_bits, lemma_first_free, marked, read_at,
    unmarked, used, wf_blocks, written, Blocks, BITMAP_BLOCK, BITMAP_SPAN, BLOCK_SIZE, DATA_START,
};
use crate::rfs::file::{
    add_extent, append_to_file, block_count, block_for_append, chain_append, chain_find, chain_fuel,
    chunk_len, covers, file_byte, find_from, free_chain, free_inode_blocks, free_mapped, grown_ovfl,
    inline_extents, is_read, lemma_same_block, logical_of, new_ovfl, one_block, ovfl_extents,
    ovfl_next, ovfl_used, place, resolve_block, wanted, wrap64,
};
use crate::rfs::inode::{
    extent_at, extent_bytes, inode_block, inode_bytes, lemma_extent_round, write_inode, Extent,
    InodeView, EXTENT_SIZE, INLINE_EXTENTS, OVFL_EXTENTS, OVFL_HDR,
};
use crate::rfs::ops::{
    closed, fresh_inode, is_open, sought, was_read, wrote, FsView, EBADF, MAX_FDS,
};

verus! {

// ── The bitmap ───────────────────────────────────────────────────────────────

/// The bitmap of a device whose bitmap block can be read.
pub open spec fn bitmap(d: Blocks) -> Seq<u8> {
    read_at(d, BITMAP_BLOCK)->0
}

/// An allocation hands out a data block that was free, marks that block used
/// and no other, and touches nothing but the bitmap.
pub proof fn law_allocation_takes_one_free_block(d: Blocks, total: u32)
    requires
        wf_blocks(d),
        alloc_block(d, total).1 is Some,
    ensures
        ({
            let (d1, r) = alloc_block(d, total);
            let b = r->0;
            &&& DATA_START <= b < alloc_end(total)
            &&& !used(bitmap(d), b as int)
            &&& used(bitmap(d1), b as int)
            &&& forall|q: int|
                0 <= q < BITMAP_SPAN && q != b ==> used(bitmap(d1), q) == used(bitmap(d), q)
            &&& d1.len() == d.len()
            &&& wf_blocks(d1)
            &&& read_at(d, BITMAP_BLOCK) is Some
            &&& read_at(d1, BITMAP_BLOCK) is Some
            &&& forall|q: u32|
                q != BITMAP_BLOCK ==> read_at(d1, q) == read_at(d, q)
            &&& forall|q: u32| can_write(d1, q) == can_write(d, q)
        }),
{
    let (d1, r) = alloc_block(d, total);
    let b = r->0;
    let map = bitmap(d);
    lemma_first_free(map, DATA_START as int, alloc_end(total) as int);
    let m1 = marked(map, b as int);
    assert(bitmap(d1) == m1);
    let k = (b % 8) as u8;
    lemma_bits(map[b as int / 8], k, k);
    assert forall|q: int| 0 <= q < BITMAP_SPAN && q != b implies used(m1, q) == used(map, q) by {
        if q / 8 == b as int / 8 {
            lemma_bits(map[b as int / 8], k, (q % 8) as u8);
        }
    }
}

/// Giving back the block that was just handed out restores the device.
pub proof fn law_free_undoes_allocation(d: Blocks, total: u32)
    requires
        wf_blocks(d),
        alloc_block(d, total).1 is Some,
    ensures
        free_block(alloc_block(d, total).0, alloc_block(d, total).1->0) == d,
{
    let (d1, r) = alloc_block(d, total);
    let b = r->0;
    let map = bitmap(d);
    lemma_first_free(map, DATA_START as int, alloc_end(total) as int);
    let byte = map[b as int / 8];
    let k = (b % 8) as u8;
    assert(byte & (1u8 << k) == 0 ==> (byte | (1u8 << k)) & !(1u8 << k) == byte) by (bit_vector)
        requires
            k < 8,
    ;
    assert(unmarked(marked(map, b as int), b as int) =~= map);
    let d2 = free_block(d1, b);
    assert(d2[BITMAP_BLOCK as int].data =~= d[BITMAP_BLOCK as int].data);
    assert(d2 =~= d);
}

// ── Overflow chains ──────────────────────────────────────────────────────────

/// The chain from `o` on ends within `fuel` blocks, and its blocks hold `rest`
/// extents in all.
pub open spec fn chain_ok(d: Blocks, o: u32, rest: int, fuel: nat) -> bool
    decreases fuel,
{
    &&& fuel > 0
    &&& read_at(d, o) is Some
    &&& {
        let b = read_at(d, o)->0;
        &&& 1 <= ovfl_used(b) <= OVFL_EXTENTS
        &&& if ovfl_next(b) == 0 {
            ovfl_used(b) == rest
        } else {
            ovfl_used(b) < rest && chain_ok(
                d,
                ovfl_next(b),
                rest - ovfl_used(b),
                (fuel - 1) as nat,
            )
        }
    }
}

/// `c` is one of the blocks of the chain from `o` on.
pub open spec fn in_chain(d: Blocks, o: u32, fuel: nat, c: u32) -> bool
    decreases fuel,
{
    &&& fuel > 0
    &&& read_at(d, o) is Some
    &&& (c == o || (ovfl_next(read_at(d, o)->0) != 0 && in_chain(
        d,
        ovfl_next(read_at(d, o)->0),
        (fuel - 1) as nat,
        c,
    )))
}

/// Blocks outside the chain do not matter to it.
proof fn lemma_chain_frame(d: Blocks, e: Blocks, o: u32, rest: int, fuel: nat)
    requires
        chain_ok(d, o, rest, fuel),
        forall|c: u32| #[trigger] in_chain(d, o, fuel, c) ==> read_at(e, c) == read_at(d, c),
    ensures
        chain_ok(e, o, rest, fuel),
        forall|c: u32|
            #![trigger in_chain(e, o, fuel, c)]
            #![trigger in_chain(d, o, fuel, c)]
            in_chain(e, o, fuel, c) == in_chain(d, o, fuel, c),
        forall|seen: int, l: u32|
            chain_find(e, o, seen, seen + rest, l, fuel) == #[trigger] chain_find(
                d,
                o,
                seen,
                seen + rest,
                l,
                fuel,
            ),
    decreases fuel,
{
    assert(in_chain(d, o, fuel, o));
    let b = read_at(d, o)->0;
    if ovfl_next(b) != 0 {
        assert forall|c: u32| #[trigger]
            in_chain(d, ovfl_next(b), (fuel - 1) as nat, c) implies read_at(e, c) == read_at(
            d,
            c,
        ) by {
            assert(in_chain(d, o, fuel, c));
        }
        lemma_chain_frame(d, e, ovfl_next(b), rest - ovfl_used(b), (fuel - 1) as nat);
        assert forall|c: u32|
            #![trigger in_chain(e, o, fuel, c)]
            #![trigger in_chain(d, o, fuel, c)]
            in_chain(e, o, fuel, c) == in_chain(d, o, fuel, c) by {
            assert(in_chain(e, ovfl_next(b), (fuel - 1) as nat, c) == in_chain(
                d,
                ovfl_next(b),
                (fuel - 1) as nat,
                c,
            ));
        }
        assert forall|seen: int, l: u32|
            chain_find(e, o, seen, seen + rest, l, fuel) == #[trigger] chain_find(
                d,
                o,
                seen,
                seen + rest,
                l,
                fuel,
            ) by {
            let s2 = seen + ovfl_used(b);
            let r2 = rest - ovfl_used(b);
            assert(s2 + r2 == seen + rest);
            assert(chain_find(e, ovfl_next(b), s2, s2 + r2, l, (fuel - 1) as nat) == chain_find(
                d,
                ovfl_next(b),
                s2,
                s2 + r2,
                l,
                (fuel - 1) as nat,
            ));
        }
    }
}

/// More fuel than a chain needs changes nothing.
proof fn lemma_chain_fuel(d: Blocks, o: u32, rest: int, f: nat, g: nat)
    requires
        chain_ok(d, o, rest, f),
        f <= g,
    ensures
        chain_ok(d, o, rest, g),
        forall|c: u32|
            #![trigger in_chain(d, o, g, c)]
            #![trigger in_chain(d, o, f, c)]
            in_chain(d, o, g, c) == in_chain(d, o, f, c),
        forall|seen: int, l: u32| #[trigger]
            chain_find(d, o, seen, seen + rest, l, g) == chain_find(
                d,
                o,
                seen,
                seen + rest,
                l,
                f,
            ),
    decreases f,
{
    let b = read_at(d, o)->0;
    if ovfl_next(b) != 0 {
        lemma_chain_fuel(d, ovfl_next(b), rest - ovfl_used(b), (f - 1) as nat, (g - 1) as nat);
        assert forall|c: u32|
            #![trigger in_chain(d, o, g, c)]
            #![trigger in_chain(d, o, f, c)]
            in_chain(d, o, g, c) == in_chain(d, o, f, c) by {
            assert(in_chain(d, ovfl_next(b), (g - 1) as nat, c) == in_chain(
                d,
                ovfl_next(b),
                (f - 1) as nat,
                c,
            ));
        }
        assert forall|seen: int, l: u32| #[trigger]
            chain_find(d, o, seen, seen + rest, l, g) == chain_find(
                d,
                o,
                seen,
                seen + rest,
                l,
                f,
            ) by {
            let s2 = seen + ovfl_used(b);
            let r2 = rest - ovfl_used(b);
            assert(s2 + r2 == seen + rest);
            assert(chain_find(d, ovfl_next(b), s2, s2 + r2, l, (g - 1) as nat) == chain_find(
                d,
                ovfl_next(b),
                s2,
                s2 + r2,
                l,
                (f - 1) as nat,
            ));
        }
    }
}

// ── One more extent ──────────────────────────────────────────────────────────

/// Where a list of extents puts a block, or else one more extent does.
pub open spec fn or_in(found: Option<u32>, e: Extent, l: u32) -> Option<u32> {
    match found {
        Some(p) => Some(p),
        None => if covers(e, l) {
            Some(place(e, l))
        } else {
            None
        },
    }
}

proof fn lemma_find_push(es: Seq<Extent>, e: Extent, k: int, l: u32)
    requires
        0 <= k <= es.len(),
    ensures
        find_from(es.push(e), k, l) == or_in(find_from(es, k, l), e, l),
    decreases es.len() - k,
{
    if k < es.len() {
        lemma_find_push(es, e, k + 1, l);
        assert(es.push(e)[k] == es[k]);
    } else {
        assert(es.push(e)[k] == e);
        assert(find_from(es.push(e), k + 1, l) is None);
    }
}

proof fn lemma_le32_outside(s: Seq<u8>, at: int, part: Seq<u8>, k: int)
    requires
        0 <= k,
        k + 4 <= s.len(),
        k + 4 <= at || at + part.len() <= k,
    ensures
        le32_at(splice(s, at, part), k) == le32_at(s, k),
{
}

proof fn lemma_extent_outside(s: Seq<u8>, at: int, part: Seq<u8>, k: int)
    requires
        0 <= k,
        k + 16 <= s.len(),
        k + 16 <= at || at + part.len() <= k,
    ensures
        extent_at(splice(s, at, part), k) == extent_at(s, k),
{
    lemma_le32_outside(s, at, part, k);
    lemma_le32_outside(s, at, part, k + 4);
    lemma_le32_outside(s, at, part, k + 8);
    lemma_le32_outside(s, at, part, k + 12);
}

/// A grown overflow block has its extents and the new one.
proof fn lemma_grown_ovfl(b: Seq<u8>, e: Extent)
    requires
        b.len() == BLOCK_SIZE,
        ovfl_used(b) < OVFL_EXTENTS,
    ensures
        grown_ovfl(b, e).len() == BLOCK_SIZE,
        ovfl_next(grown_ovfl(b, e)) == ovfl_next(b),
        ovfl_used(grown_ovfl(b, e)) == ovfl_used(b) + 1,
        ovfl_extents(grown_ovfl(b, e)) == ovfl_extents(b).push(e),
{
    let n = ovfl_used(b) as int;
    let at = OVFL_HDR + n * EXTENT_SIZE;
    let m = splice(b, at, extent_bytes(e));
    let g = grown_ovfl(b, e);
    let cnt = le32((n + 1) as u32);
    assert(extent_bytes(e).len() == 16);
    assert(cnt.len() == 4);
    assert(g == splice(m, 4, cnt));
    lemma_le32_outside(b, at, extent_bytes(e), 0);
    lemma_le32_outside(m, 4, cnt, 0);
    assert(g.subrange(4, 8) =~= cnt);
    lemma_le32_round(g, 4, (n + 1) as u32);
    assert(m.subrange(at, at + 16) =~= extent_bytes(e));
    lemma_extent_round(m, at, e);
    lemma_extent_outside(m, 4, cnt, at);
    assert forall|k: int| 0 <= k < n implies ovfl_extents(g)[k] == ovfl_extents(b)[k] by {
        let o = OVFL_HDR + k * EXTENT_SIZE;
        lemma_extent_outside(b, at, extent_bytes(e), o);
        lemma_extent_outside(m, 4, cnt, o);
    }
    assert(ovfl_extents(g) =~= ovfl_extents(b).push(e));
}

/// A fresh overflow block has the one extent and no successor.
proof fn lemma_new_ovfl(e: Extent)
    ensures
        new_ovfl(e).len() == BLOCK_SIZE,
        ovfl_next(new_ovfl(e)) == 0,
        ovfl_used(new_ovfl(e)) == 1,
        ovfl_extents(new_ovfl(e)) == seq![e],
{
    let z = zeros(BLOCK_SIZE as nat);
    let m = splice(z, 4, le32(1));
    let g = new_ovfl(e);
    assert(extent_bytes(e).len() == 16);
    lemma_le32_outside(z, 4, le32(1), 0);
    lemma_le32_outside(m, 16, extent_bytes(e), 0);
    assert(m.subrange(4, 8) =~= le32(1));
    lemma_le32_round(m, 4, 1);
    lemma_le32_outside(m, 16, extent_bytes(e), 4);
    assert(g.subrange(16, 32) =~= extent_bytes(e));
    lemma_extent_round(g, 16, e);
    assert(ovfl_extents(g) =~= seq![e]);
}

/// An overflow block that gets a successor keeps its extents.
proof fn lemma_linked_ovfl(b: Seq<u8>, n: u32)
    requires
        b.len() == BLOCK_SIZE,
    ensures
        splice(b, 0, le32(n)).len() == BLOCK_SIZE,
        ovfl_next(splice(b, 0, le32(n))) == n,
        ovfl_used(splice(b, 0, le32(n))) == ovfl_used(b),
        ovfl_extents(splice(b, 0, le32(n))) == ovfl_extents(b),
{
    let g = splice(b, 0, le32(n));
    assert(g.subrange(0, 4) =~= le32(n));
    lemma_le32_round(g, 0, n);
    lemma_le32_outside(b, 0, le32(n), 4);
    assert forall|k: int| 0 <= k < ovfl_extents(b).len() implies ovfl_extents(g)[k]
        == ovfl_extents(b)[k] by {
        lemma_extent_outside(b, 0, le32(n), OVFL_HDR + k * EXTENT_SIZE);
    }
    assert(ovfl_extents(g) =~= ovfl_extents(b));
}

/// A device that takes a block's contents also gives them back.
pub open spec fn reads_back(d: Blocks) -> bool {
    forall|q: u32| #[trigger] can_write(d, q) ==> read_at(d, q) is Some
}

/// Block `q` is a data block that the bitmap marks used.
pub open spec fn taken(d: Blocks, q: u32) -> bool {
    DATA_START <= q < BITMAP_SPAN && used(bitmap(d), q as int)
}

/// The blocks before those that are handed out, but for the bitmap, are as they
/// were.
pub open spec fn same_tables(d: Blocks, d1: Blocks) -> bool {
    forall|q: u32|
        q < DATA_START && q != BITMAP_BLOCK ==> #[trigger] read_at(d1, q) == read_at(d, q)
}

/// The device keeps its shape: the same blocks can be read and written.
pub open spec fn same_shape(d: Blocks, d1: Blocks) -> bool {
    &&& d1.len() == d.len()
    &&& wf_blocks(d1)
    &&& read_at(d1, BITMAP_BLOCK) is Some
    &&& forall|q: u32| (#[trigger] read_at(d1, q) is Some) == (read_at(d, q) is Some)
    &&& forall|q: u32| #[trigger] can_write(d1, q) == can_write(d, q)
}

/// The device keeps its shape, and no block that was taken is given back.
pub open spec fn grows_to(d: Blocks, d1: Blocks) -> bool {
    &&& same_shape(d, d1)
    &&& forall|q: u32| taken(d, q) ==> #[trigger] taken(d1, q)
}

pub proof fn lemma_written(d: Blocks, p: u32, data: Seq<u8>)
    requires
        wf_blocks(d),
        data.len() == BLOCK_SIZE,
        can_write(d, p),
        read_at(d, p) is Some,
    ensures
        written(d, p, data).len() == d.len(),
        wf_blocks(written(d, p, data)),
        read_at(written(d, p, data), p) == Some(data),
        forall|q: u32| q != p ==> read_at(written(d, p, data), q) == read_at(d, q),
        forall|q: u32|
            (#[trigger] read_at(written(d, p, data), q) is Some) == (read_at(d, q) is Some),
        forall|q: u32| #[trigger] can_write(written(d, p, data), q) == can_write(d, q),
{
}

#[verifier::rlimit(40)]
proof fn lemma_chain_append(d: Blocks, o: u32, e: Extent, total: u32, rest: int, fuel: nat)
    requires
        wf_blocks(d),
        reads_back(d),
        read_at(d, BITMAP_BLOCK) is Some,
        chain_ok(d, o, rest, fuel),
        forall|c: u32| #[trigger] in_chain(d, o, fuel, c) ==> taken(d, c),
        chain_append(d, o, e, total, fuel).1,
    ensures
        ({
            let d1 = chain_append(d, o, e, total, fuel).0;
            &&& grows_to(d, d1)
            &&& same_tables(d, d1)
            &&& chain_ok(d1, o, rest + 1, fuel + 1)
            &&& forall|seen: int, l: u32| #[trigger]
                chain_find(d1, o, seen, seen + rest + 1, l, fuel + 1) == or_in(
                    chain_find(d, o, seen, seen + rest, l, fuel),
                    e,
                    l,
                )
            &&& forall|q: u32|
                taken(d, q) && !in_chain(d, o, fuel, q) ==> #[trigger] read_at(d1, q) == read_at(
                    d,
                    q,
                )
            &&& forall|q: u32|
                taken(d, q) && read_at(d, q) is Some && ovfl_next(read_at(d, q)->0) != 0
                    ==> #[trigger] read_at(d1, q) == read_at(d, q)
            &&& forall|c: u32| #[trigger]
                in_chain(d1, o, fuel + 1, c) ==> taken(d1, c) && (in_chain(d, o, fuel, c) || !taken(
                    d,
                    c,
                ))
        }),
    decreases fuel,
{
    let b = read_at(d, o)->0;
    let d1 = chain_append(d, o, e, total, fuel).0;
    assert(in_chain(d, o, fuel, o));
    assert(b.len() == BLOCK_SIZE);
    if ovfl_next(b) != 0 {
        let nx = ovfl_next(b);
        let f = (fuel - 1) as nat;
        assert forall|c: u32| #[trigger] in_chain(d, nx, f, c) implies taken(d, c) by {
            assert(in_chain(d, o, fuel, c));
        }
        lemma_chain_append(d, nx, e, total, rest - ovfl_used(b), f);
        assert(read_at(d1, o) == read_at(d, o));
        assert forall|seen: int, l: u32| #[trigger]
            chain_find(d1, o, seen, seen + rest + 1, l, fuel + 1) == or_in(
                chain_find(d, o, seen, seen + rest, l, fuel),
                e,
                l,
            ) by {
            let s2 = seen + ovfl_used(b);
            let r2 = rest - ovfl_used(b);
            assert(s2 + r2 + 1 == seen + rest + 1);
            assert(s2 + r2 == seen + rest);
            assert(chain_find(d1, nx, s2, s2 + r2 + 1, l, f + 1) == or_in(
                chain_find(d, nx, s2, s2 + r2, l, f),
                e,
                l,
            ));
            assert((fuel + 1 - 1) as nat == f + 1);
        }
        assert forall|q: u32|
            taken(d, q) && !in_chain(d, o, fuel, q) implies #[trigger] read_at(d1, q) == read_at(
            d,
            q,
        ) by {
            assert(!in_chain(d, nx, f, q));
        }
        assert forall|c: u32| #[trigger] in_chain(d1, o, fuel + 1, c) implies taken(d1, c) && (
        in_chain(d, o, fuel, c) || !taken(d, c)) by {
            if c != o {
                assert(in_chain(d1, nx, f + 1, c));
            } else {
                assert(taken(d1, o));
            }
        }
    } else if ovfl_used(b) < OVFL_EXTENTS {
        let g = grown_ovfl(b, e);
        lemma_grown_ovfl(b, e);
        lemma_written(d, o, g);
        assert(bitmap(d1) == bitmap(d));
        assert forall|seen: int, l: u32| #[trigger]
            chain_find(d1, o, seen, seen + rest + 1, l, fuel + 1) == or_in(
                chain_find(d, o, seen, seen + rest, l, fuel),
                e,
                l,
            ) by {
            lemma_find_push(ovfl_extents(b), e, 0, l);
        }
    } else {
        let (da, r) = alloc_block(d, total);
        let n = r->0;
        law_allocation_takes_one_free_block(d, total);
        let nb = new_ovfl(e);
        lemma_new_ovfl(e);
        assert(can_write(da, n));
        assert(n != BITMAP_BLOCK);
        assert(n != o);
        assert(can_write(d, n));
        assert(read_at(da, n) is Some);
        lemma_written(da, n, nb);
        let d2 = written(da, n, nb);
        let lb = splice(b, 0, le32(n));
        lemma_linked_ovfl(b, n);
        assert(can_write(d2, o));
        assert(read_at(d2, o) == Some(b));
        lemma_written(d2, o, lb);
        assert(d1 == written(d2, o, lb));
        assert(read_at(d1, n) == Some(nb));
        assert(bitmap(d1) == bitmap(da));
        assert(chain_ok(d1, n, 1, fuel));
        assert forall|seen: int, l: u32| #[trigger]
            chain_find(d1, o, seen, seen + rest + 1, l, fuel + 1) == or_in(
                chain_find(d, o, seen, seen + rest, l, fuel),
                e,
                l,
            ) by {
            let s2 = seen + OVFL_EXTENTS;
            assert((fuel + 1 - 1) as nat == fuel);
            assert(find_from(seq![e], 0, l) == or_in(None, e, l)) by {
                lemma_find_push(seq![], e, 0, l);
                assert(seq![e] =~= Seq::<Extent>::empty().push(e));
            }
            assert(chain_find(d1, n, s2, seen + rest + 1, l, fuel) == or_in(None, e, l));
        }
        assert forall|c: u32| #[trigger] in_chain(d1, o, fuel + 1, c) implies taken(d1, c) && (
        in_chain(d, o, fuel, c) || !taken(d, c)) by {
            if c != o {
                assert(in_chain(d1, n, fuel, c));
                assert(c == n);
            } else {
                assert(taken(da, o));
            }
        }
        assert forall|q: u32| taken(d, q) implies #[trigger] taken(d1, q) by {
            assert(used(bitmap(da), q as int) == used(bitmap(d), q as int));
        }
    }
}

/// Every block of a chain holds an extent, so it has at most as many blocks as
/// extents.
proof fn lemma_chain_short(d: Blocks, o: u32, rest: int, fuel: nat)
    requires
        chain_ok(d, o, rest, fuel),
    ensures
        rest >= 1,
        chain_ok(d, o, rest, rest as nat),
    decreases fuel,
{
    let b = read_at(d, o)->0;
    if ovfl_next(b) != 0 {
        let r2 = rest - ovfl_used(b);
        lemma_chain_short(d, ovfl_next(b), r2, (fuel - 1) as nat);
        lemma_chain_fuel(d, ovfl_next(b), r2, r2 as nat, (rest - 1) as nat);
    }
}

/// Two amounts of fuel that both suffice for a chain.
proof fn lemma_chain_any_fuel(d: Blocks, o: u32, rest: int, f: nat, g: nat)
    requires
        chain_ok(d, o, rest, f),
        rest <= g,
    ensures
        chain_ok(d, o, rest, g),
        forall|c: u32|
            #![trigger in_chain(d, o, g, c)]
            #![trigger in_chain(d, o, f, c)]
            in_chain(d, o, g, c) == in_chain(d, o, f, c),
        forall|seen: int, l: u32|
            #![trigger chain_find(d, o, seen, seen + rest, l, g)]
            #![trigger chain_find(d, o, seen, seen + rest, l, f)]
            chain_find(d, o, seen, seen + rest, l, g) == chain_find(
                d,
                o,
                seen,
                seen + rest,
                l,
                f,
            ),
{
    lemma_chain_short(d, o, rest, f);
    lemma_chain_fuel(d, o, rest, rest as nat, g);
    lemma_chain_fuel(d, o, rest, rest as nat, if f < rest {
        rest as nat
    } else {
        f
    });
    if f < rest {
        lemma_chain_fuel(d, o, rest, f, rest as nat);
    }
}

// ── Healthy files ────────────────────────────────────────────────────────────

/// `c` is one of the file's overflow blocks.
pub open spec fn file_chain(d: Blocks, i: InodeView, c: u32) -> bool {
    i.extent_count > INLINE_EXTENTS && in_chain(d, i.ovfl_block, chain_fuel(d.len()), c)
}

/// `q` is one of the file's blocks.
pub open spec fn owns(d: Blocks, i: InodeView, q: u32) -> bool {
    file_chain(d, i, q) || exists|l: u32| #[trigger] resolve_block(d, i, l) == Some(q)
}

/// The inode's extents are all where the counts say.
pub open spec fn chained(d: Blocks, i: InodeView) -> bool {
    &&& i.extents.len() == INLINE_EXTENTS
    &&& i.extent_count <= INLINE_EXTENTS ==> i.ovfl_block == 0
    &&& i.extent_count > INLINE_EXTENTS ==> i.ovfl_block != 0 && chain_ok(
        d,
        i.ovfl_block,
        i.extent_count - INLINE_EXTENTS,
        chain_fuel(d.len()),
    )
    &&& forall|c: u32| #[trigger] file_chain(d, i, c) ==> taken(d, c)
}

/// The device is in order, the file's data blocks and overflow blocks are
/// marked used, and no block serves twice in it.
pub open spec fn healthy(d: Blocks, i: InodeView) -> bool {
    &&& wf_blocks(d)
    &&& reads_back(d)
    &&& read_at(d, BITMAP_BLOCK) is Some
    &&& chained(d, i)
    &&& forall|l: u32|
        (#[trigger] resolve_block(d, i, l)) is Some ==> taken(d, resolve_block(d, i, l)->0)
            && !file_chain(d, i, resolve_block(d, i, l)->0)
    &&& forall|l: u32, m: u32|
        l != m && (#[trigger] resolve_block(d, i, l)) is Some && (#[trigger] resolve_block(
            d,
            i,
            m,
        )) is Some ==> resolve_block(d, i, l) != resolve_block(d, i, m)
}

/// The outcome of one more extent: each logical block is where it was, or else
/// where the new extent puts it. The file's overflow blocks are in order, and none
/// of them was taken by another.
pub open spec fn extent_added(
    d: Blocks,
    i: InodeView,
    d1: Blocks,
    i1: InodeView,
    e: Extent,
) -> bool {
    &&& grows_to(d, d1)
    &&& same_tables(d, d1)
    &&& chained(d1, i1)
    &&& i1.extent_count == i.extent_count + 1
    &&& i1.size == i.size
    &&& forall|l: u32| #[trigger]
        resolve_block(d1, i1, l) == or_in(resolve_block(d, i, l), e, l)
    &&& forall|q: u32|
        taken(d, q) && !file_chain(d, i, q) ==> #[trigger] read_at(d1, q) == read_at(d, q)
    &&& forall|c: u32| #[trigger] file_chain(d1, i1, c) ==> file_chain(d, i, c) || !taken(d, c)
}

/// An extent in the inode.
#[verifier::spinoff_prover]
proof fn lemma_inline_extent(d: Blocks, i: InodeView, e: Extent, total: u32)
    requires
        wf_blocks(d),
        reads_back(d),
        read_at(d, BITMAP_BLOCK) is Some,
        chained(d, i),
        i.extent_count < u16::MAX,
        add_extent(d, i, e, total).2,
        i.extent_count < INLINE_EXTENTS,
    ensures
        extent_added(d, i, add_extent(d, i, e, total).0, add_extent(d, i, e, total).1, e),
{
    let (d1, i1, _) = add_extent(d, i, e, total);
    assert(inline_extents(i1) =~= inline_extents(i).push(e));
    assert forall|l: u32| #[trigger]
        resolve_block(d1, i1, l) == or_in(resolve_block(d, i, l), e, l) by {
        lemma_find_push(inline_extents(i), e, 0, l);
    }
}

/// The first extent that does not fit in the inode.
#[verifier::spinoff_prover]
#[verifier::rlimit(40)]
proof fn lemma_first_overflow(d: Blocks, i: InodeView, e: Extent, total: u32)
    requires
        wf_blocks(d),
        reads_back(d),
        read_at(d, BITMAP_BLOCK) is Some,
        chained(d, i),
        i.extent_count < u16::MAX,
        add_extent(d, i, e, total).2,
        i.extent_count >= INLINE_EXTENTS,
        i.ovfl_block == 0,
    ensures
        extent_added(d, i, add_extent(d, i, e, total).0, add_extent(d, i, e, total).1, e),
{
    let (d1, i1, _) = add_extent(d, i, e, total);
    let fuel = chain_fuel(d.len());
    let (da, r) = alloc_block(d, total);
    let n = r->0;
    law_allocation_takes_one_free_block(d, total);
    let nb = new_ovfl(e);
    lemma_new_ovfl(e);
    assert(can_write(d, n));
    assert(read_at(da, n) is Some);
    lemma_written(da, n, nb);
    assert(bitmap(d1) == bitmap(da));
    assert(inline_extents(i1) =~= inline_extents(i));
    assert(chain_ok(d1, n, 1, fuel));
    assert forall|l: u32| #[trigger]
        resolve_block(d1, i1, l) == or_in(resolve_block(d, i, l), e, l) by {
        lemma_find_push(seq![], e, 0, l);
        assert(seq![e] =~= Seq::<Extent>::empty().push(e));
        assert(chain_find(d1, n, 4, 5, l, fuel) == or_in(None, e, l));
    }
    assert forall|q: u32| taken(d, q) implies #[trigger] taken(d1, q) by {
        assert(used(bitmap(da), q as int) == used(bitmap(d), q as int));
    }
    assert forall|c: u32| #[trigger] file_chain(d1, i1, c) implies taken(d1, c) && !taken(
        d,
        c,
    ) by {
        assert(in_chain(d1, n, fuel, c));
        assert(c == n);
    }
}

/// An extent at the end of the overflow blocks.
#[verifier::spinoff_prover]
#[verifier::rlimit(40)]
proof fn lemma_later_overflow(d: Blocks, i: InodeView, e: Extent, total: u32)
    requires
        wf_blocks(d),
        reads_back(d),
        read_at(d, BITMAP_BLOCK) is Some,
        chained(d, i),
        i.extent_count < u16::MAX,
        add_extent(d, i, e, total).2,
        i.extent_count >= INLINE_EXTENTS,
        i.ovfl_block != 0,
    ensures
        extent_added(d, i, add_extent(d, i, e, total).0, add_extent(d, i, e, total).1, e),
{
    let (d1, i1, _) = add_extent(d, i, e, total);
    let fuel = chain_fuel(d.len());
    let o = i.ovfl_block;
    let rest = i.extent_count - INLINE_EXTENTS;
    assert forall|c: u32| #[trigger] in_chain(d, o, fuel, c) implies taken(d, c) by {
        assert(file_chain(d, i, c));
    }
    lemma_chain_append(d, o, e, total, rest, fuel);
    lemma_chain_any_fuel(d1, o, rest + 1, fuel + 1, fuel);
    assert(inline_extents(i1) =~= inline_extents(i));
    assert forall|l: u32| #[trigger]
        resolve_block(d1, i1, l) == or_in(resolve_block(d, i, l), e, l) by {
        assert(4 + (rest + 1) == 4 + rest + 1);
        assert(chain_find(d1, o, 4, 4 + rest + 1, l, fuel + 1) == or_in(
            chain_find(d, o, 4, 4 + rest, l, fuel),
            e,
            l,
        ));
        assert(chain_find(d1, o, 4, 4 + (rest + 1), l, fuel) == chain_find(
            d1,
            o,
            4,
            4 + (rest + 1),
            l,
            fuel + 1,
        ));
    }
    assert forall|c: u32| #[trigger] file_chain(d1, i1, c) implies taken(d1, c) && (file_chain(
        d,
        i,
        c,
    ) || !taken(d, c)) by {
        assert(in_chain(d1, o, fuel + 1, c));
    }
    assert forall|q: u32|
        taken(d, q) && !file_chain(d, i, q) implies #[trigger] read_at(d1, q) == read_at(
        d,
        q,
    ) by {
        assert(!in_chain(d, o, fuel, q));
    }
}

/// One more extent, of any length: each logical block is where it was, or else
/// where the new extent puts it. The file's overflow blocks stay in order, it takes
/// none that was taken, and nothing that another file holds changes.
pub proof fn law_an_extent_maps_its_blocks(d: Blocks, i: InodeView, e: Extent, total: u32)
    requires
        wf_blocks(d),
        reads_back(d),
        read_at(d, BITMAP_BLOCK) is Some,
        chained(d, i),
        i.extent_count < u16::MAX,
        add_extent(d, i, e, total).2,
    ensures
        extent_added(d, i, add_extent(d, i, e, total).0, add_extent(d, i, e, total).1, e),
{
    if i.extent_count < INLINE_EXTENTS {
        lemma_inline_extent(d, i, e, total);
    } else if i.ovfl_block == 0 {
        lemma_first_overflow(d, i, e, total);
    } else {
        lemma_later_overflow(d, i, e, total);
    }
}

/// The largest file whose last byte lies in a block that an extent can map.
pub const MAX_FILE: u64 = 0xFFF_FFFF_F000;

/// A change of blocks that are neither the bitmap nor taken leaves a file as it
/// is.
pub proof fn lemma_file_frame(d: Blocks, d1: Blocks, i: InodeView)
    requires
        healthy(d, i),
        same_shape(d, d1),
        forall|q: u32| taken(d, q) && owns(d, i, q) ==> #[trigger] taken(d1, q),
        forall|q: u32|
            taken(d, q) && owns(d, i, q) ==> #[trigger] read_at(d1, q) == read_at(d, q),
    ensures
        healthy(d1, i),
        forall|l: u32| #[trigger] resolve_block(d1, i, l) == resolve_block(d, i, l),
        forall|c: u32| #[trigger] file_chain(d1, i, c) == file_chain(d, i, c),
        forall|q: u32| #[trigger] owns(d1, i, q) == owns(d, i, q),
        forall|pos: u64| #[trigger] file_byte(d1, i, pos) == file_byte(d, i, pos),
{
    let fuel = chain_fuel(d.len());
    if i.extent_count > INLINE_EXTENTS {
        assert forall|c: u32| #[trigger]
            in_chain(d, i.ovfl_block, fuel, c) implies read_at(d1, c) == read_at(d, c) by {
            assert(file_chain(d, i, c));
            assert(owns(d, i, c));
        }
        lemma_chain_frame(d, d1, i.ovfl_block, i.extent_count - INLINE_EXTENTS, fuel);
        assert forall|l: u32| #[trigger] resolve_block(d1, i, l) == resolve_block(d, i, l) by {
            assert(chain_find(d1, i.ovfl_block, 4, 4 + (i.extent_count - 4), l, fuel)
                == chain_find(d, i.ovfl_block, 4, 4 + (i.extent_count - 4), l, fuel));
        }
    }
    assert forall|c: u32| #[trigger] file_chain(d1, i, c) == file_chain(d, i, c) by {
        if i.extent_count > INLINE_EXTENTS {
            assert(in_chain(d1, i.ovfl_block, fuel, c) == in_chain(d, i.ovfl_block, fuel, c));
        }
    }
    assert forall|l: u32| (#[trigger] resolve_block(d1, i, l)) is Some implies taken(
        d1,
        resolve_block(d1, i, l)->0,
    ) && !file_chain(d1, i, resolve_block(d1, i, l)->0) by {
        assert(resolve_block(d, i, l) is Some);
    }
    assert forall|l: u32, m: u32|
        l != m && (#[trigger] resolve_block(d1, i, l)) is Some && (#[trigger] resolve_block(
            d1,
            i,
            m,
        )) is Some implies resolve_block(d1, i, l) != resolve_block(d1, i, m) by {
        assert(resolve_block(d, i, l) is Some && resolve_block(d, i, m) is Some);
    }
    lemma_same_owner(d, i, d1, i);
    assert forall|pos: u64| #[trigger] file_byte(d1, i, pos) == file_byte(d, i, pos) by {
        assert(resolve_block(d1, i, logical_of(pos)) == resolve_block(d, i, logical_of(pos)));
        if let Some(q) = resolve_block(d, i, logical_of(pos)) {
            assert(owns(d, i, q));
        }
    }
}

/// A file with the same map has the same blocks.
pub proof fn lemma_same_owner(d: Blocks, i: InodeView, d1: Blocks, i1: InodeView)
    requires
        forall|l: u32| #[trigger] resolve_block(d1, i1, l) == resolve_block(d, i, l),
        forall|c: u32| #[trigger] file_chain(d1, i1, c) == file_chain(d, i, c),
    ensures
        forall|q: u32| #[trigger] owns(d1, i1, q) == owns(d, i, q),
{
    assert forall|q: u32| #[trigger] owns(d1, i1, q) == owns(d, i, q) by {
        if exists|l: u32| #[trigger] resolve_block(d1, i1, l) == Some(q) {
            let l = choose|l: u32| #[trigger] resolve_block(d1, i1, l) == Some(q);
            assert(resolve_block(d, i, l) == Some(q));
        }
        if exists|l: u32| #[trigger] resolve_block(d, i, l) == Some(q) {
            let l = choose|l: u32| #[trigger] resolve_block(d, i, l) == Some(q);
            assert(resolve_block(d1, i1, l) == Some(q));
        }
        assert(file_chain(d1, i1, q) == file_chain(d, i, q));
    }
}

/// A logical block that was a hole gets a block of its own, and nothing else of
/// the file changes.
pub proof fn lemma_map_block(d: Blocks, i: InodeView, lg: u32, total: u32)
    requires
        healthy(d, i),
        i.extent_count < u16::MAX,
        lg < u32::MAX,
        resolve_block(d, i, lg) is None,
        alloc_block(d, total).1 is Some,
        add_extent(
            alloc_block(d, total).0,
            i,
            one_block(lg, alloc_block(d, total).1->0),
            total,
        ).2,
    ensures
        ({
            let (da, r) = alloc_block(d, total);
            let (d1, i1, _) = add_extent(da, i, one_block(lg, r->0), total);
            &&& healthy(d1, i1)
            &&& grows_to(d, d1)
            &&& same_tables(d, d1)
            &&& i1.size == i.size
            &&& i1.extent_count == i.extent_count + 1
            &&& !taken(d, r->0)
            &&& resolve_block(d1, i1, lg) == r
            &&& forall|l: u32|
                l != lg ==> #[trigger] resolve_block(d1, i1, l) == resolve_block(d, i, l)
            &&& forall|l: u32|
                (#[trigger] resolve_block(d, i, l)) is Some ==> read_at(
                    d1,
                    resolve_block(d, i, l)->0,
                ) == read_at(d, resolve_block(d, i, l)->0)
            &&& forall|q: u32|
                taken(d, q) && !file_chain(d, i, q) ==> #[trigger] read_at(d1, q) == read_at(d, q)
            &&& forall|c: u32| #[trigger]
                file_chain(d1, i1, c) ==> file_chain(d, i, c) || !taken(d, c)
        }),
{
    let (da, r) = alloc_block(d, total);
    let b = r->0;
    law_allocation_takes_one_free_block(d, total);
    assert forall|q: u32| taken(d, q) implies #[trigger] taken(da, q) by {
        assert(used(bitmap(da), q as int) == used(bitmap(d), q as int));
    }
    lemma_file_frame(d, da, i);
    let e = one_block(lg, b);
    assert(reads_back(da)) by {
        assert forall|q: u32| #[trigger] can_write(da, q) implies read_at(da, q) is Some by {
            assert(can_write(d, q));
        }
    }
    law_an_extent_maps_its_blocks(da, i, e, total);
    let (d1, i1, _) = add_extent(da, i, e, total);
    assert forall|l: u32| covers(e, l) == (l == lg) by {}
    assert(place(e, lg) == b);
    assert forall|l: u32| #[trigger]
        resolve_block(d1, i1, l) == or_in(resolve_block(d, i, l), e, l) by {
        assert(resolve_block(da, i, l) == resolve_block(d, i, l));
    }
    assert(taken(da, b) && !taken(d, b));
    assert forall|l: u32| (#[trigger] resolve_block(d1, i1, l)) is Some implies taken(
        d1,
        resolve_block(d1, i1, l)->0,
    ) && !file_chain(d1, i1, resolve_block(d1, i1, l)->0) by {
        let q = resolve_block(d1, i1, l)->0;
        if l == lg {
            assert(q == b);
            assert(taken(d1, b));
            assert(!file_chain(da, i, b));
        } else {
            assert(resolve_block(d, i, l) == Some(q));
            assert(taken(da, q));
        }
    }
    assert forall|l: u32, m: u32|
        l != m && (#[trigger] resolve_block(d1, i1, l)) is Some && (#[trigger] resolve_block(
            d1,
            i1,
            m,
        )) is Some implies resolve_block(d1, i1, l) != resolve_block(d1, i1, m) by {
        if l != lg {
            assert(taken(d, resolve_block(d, i, l)->0));
        }
        if m != lg {
            assert(taken(d, resolve_block(d, i, m)->0));
        }
    }
    assert(chained(d1, i1));
    assert(reads_back(d1)) by {
        assert forall|q: u32| #[trigger] can_write(d1, q) implies read_at(d1, q) is Some by {
            assert(can_write(da, q));
            assert(read_at(da, q) is Some);
        }
    }
    assert forall|l: u32| (#[trigger] resolve_block(d, i, l)) is Some implies read_at(
        d1,
        resolve_block(d, i, l)->0,
    ) == read_at(d, resolve_block(d, i, l)->0) by {
        let q = resolve_block(d, i, l)->0;
        assert(taken(da, q) && !file_chain(da, i, q));
        assert(read_at(d1, q) == read_at(da, q));
    }
    assert forall|q: u32| taken(d, q) && !file_chain(d, i, q) implies #[trigger] read_at(d1, q)
        == read_at(d, q) by {
        assert(taken(da, q) && !file_chain(da, i, q));
        assert(read_at(d1, q) == read_at(da, q));
    }
}

/// The block for the next byte is mapped where it was not, and nothing else of
/// the file changes.
pub proof fn lemma_block_for_append(d: Blocks, i: InodeView, total: u32)
    requires
        healthy(d, i),
        i.extent_count < u16::MAX,
        i.size < MAX_FILE,
        block_for_append(d, i, total).2 is Some,
        read_at(block_for_append(d, i, total).0, block_for_append(d, i, total).2->0) is Some,
    ensures
        ({
            let (d1, i1, r) = block_for_append(d, i, total);
            let lg = logical_of(i.size);
            &&& healthy(d1, i1)
            &&& grows_to(d, d1)
            &&& i1.size == i.size
            &&& i1.extent_count <= i.extent_count + 1
            &&& resolve_block(d, i, lg) is Some ==> i1 == i && d1 == d
            &&& resolve_block(d1, i1, lg) == r
            &&& forall|l: u32|
                l != lg ==> #[trigger] resolve_block(d1, i1, l) == resolve_block(d, i, l)
            &&& forall|l: u32|
                (#[trigger] resolve_block(d, i, l)) is Some ==> read_at(
                    d1,
                    resolve_block(d, i, l)->0,
                ) == read_at(d, resolve_block(d, i, l)->0)
        }),
{
    let (d1, i1, r) = block_for_append(d, i, total);
    let lg = logical_of(i.size);
    if resolve_block(d, i, lg) is None {
        assert(i.size as int / 4096 < 0xFFFF_FFFF);
        assert(lg < u32::MAX);
        lemma_map_block(d, i, lg, total);
        let (da, ra) = alloc_block(d, total);
        let i2 = add_extent(da, i, one_block(lg, ra->0), total).1;
        lemma_same_map(d1, i2, i1);
    }
}

/// Overwriting a data block of a file keeps the file's map.
pub proof fn lemma_write_data(d: Blocks, i: InodeView, lg: u32, data: Seq<u8>)
    requires
        healthy(d, i),
        resolve_block(d, i, lg) is Some,
        can_write(d, resolve_block(d, i, lg)->0),
        data.len() == BLOCK_SIZE,
    ensures
        ({
            let p = resolve_block(d, i, lg)->0;
            let d1 = written(d, p, data);
            &&& healthy(d1, i)
            &&& grows_to(d, d1)
            &&& read_at(d1, p) == Some(data)
            &&& forall|q: u32| q != p ==> #[trigger] read_at(d1, q) == read_at(d, q)
            &&& forall|l: u32| #[trigger] resolve_block(d1, i, l) == resolve_block(d, i, l)
            &&& forall|c: u32| #[trigger] file_chain(d1, i, c) == file_chain(d, i, c)
        }),
{
    let p = resolve_block(d, i, lg)->0;
    let d1 = written(d, p, data);
    let fuel = chain_fuel(d.len());
    assert(can_write(d, p));
    lemma_written(d, p, data);
    assert(taken(d, p));
    assert(bitmap(d1) == bitmap(d));
    assert(reads_back(d1)) by {
        assert forall|q: u32| #[trigger] can_write(d1, q) implies read_at(d1, q) is Some by {
            assert(can_write(d, q));
            assert(read_at(d, q) is Some);
        }
    }
    if i.extent_count > INLINE_EXTENTS {
        assert forall|c: u32| #[trigger]
            in_chain(d, i.ovfl_block, fuel, c) implies read_at(d1, c) == read_at(d, c) by {
            assert(file_chain(d, i, c));
        }
        lemma_chain_frame(d, d1, i.ovfl_block, i.extent_count - INLINE_EXTENTS, fuel);
        assert forall|l: u32| #[trigger] resolve_block(d1, i, l) == resolve_block(d, i, l) by {
            assert(chain_find(d1, i.ovfl_block, 4, 4 + (i.extent_count - 4), l, fuel)
                == chain_find(d, i.ovfl_block, 4, 4 + (i.extent_count - 4), l, fuel));
        }
    }
    assert forall|c: u32| #[trigger] file_chain(d1, i, c) == file_chain(d, i, c) by {
        if i.extent_count > INLINE_EXTENTS {
            assert(in_chain(d1, i.ovfl_block, fuel, c) == in_chain(d, i.ovfl_block, fuel, c));
        }
    }
    assert forall|l: u32| (#[trigger] resolve_block(d1, i, l)) is Some implies taken(
        d1,
        resolve_block(d1, i, l)->0,
    ) && !file_chain(d1, i, resolve_block(d1, i, l)->0) by {
        assert(resolve_block(d, i, l) is Some);
    }
    assert forall|l: u32, m: u32|
        l != m && (#[trigger] resolve_block(d1, i, l)) is Some && (#[trigger] resolve_block(
            d1,
            i,
            m,
        )) is Some implies resolve_block(d1, i, l) != resolve_block(d1, i, m) by {
        assert(resolve_block(d, i, l) is Some && resolve_block(d, i, m) is Some);
    }
}

/// The partly filled block at the end of a file, if there is one, is mapped.
pub open spec fn tail_mapped(d: Blocks, i: InodeView) -> bool {
    i.size % BLOCK_SIZE as u64 != 0 ==> resolve_block(d, i, logical_of(i.size)) is Some
}

/// The file at `i1` is the one at `i` with `data` behind it.
pub open spec fn extends(d: Blocks, i: InodeView, d1: Blocks, i1: InodeView, data: Seq<u8>) -> bool {
    &&& i1.size == i.size + data.len()
    &&& forall|pos: u64|
        pos < i.size ==> #[trigger] file_byte(d1, i1, pos) == file_byte(d, i, pos)
    &&& forall|pos: u64|
        i.size <= pos < i1.size ==> #[trigger] file_byte(d1, i1, pos) == Some(data[pos - i.size])
}

/// Two inodes with the same extents map the same blocks.
pub open spec fn same_map(a: InodeView, b: InodeView) -> bool {
    &&& a.extents == b.extents
    &&& a.extent_count == b.extent_count
    &&& a.ovfl_block == b.ovfl_block
}

pub proof fn lemma_same_map(d: Blocks, a: InodeView, b: InodeView)
    requires
        same_map(a, b),
    ensures
        forall|l: u32| #[trigger] resolve_block(d, b, l) == resolve_block(d, a, l),
        forall|c: u32| #[trigger] file_chain(d, b, c) == file_chain(d, a, c),
        healthy(d, a) ==> healthy(d, b),
{
    assert(inline_extents(b) == inline_extents(a));
    assert forall|l: u32| #[trigger] resolve_block(d, b, l) == resolve_block(d, a, l) by {}
    assert forall|c: u32| #[trigger] file_chain(d, b, c) == file_chain(d, a, c) by {}
    if healthy(d, a) {
        assert forall|l: u32| (#[trigger] resolve_block(d, b, l)) is Some implies taken(
            d,
            resolve_block(d, b, l)->0,
        ) && !file_chain(d, b, resolve_block(d, b, l)->0) by {
            assert(resolve_block(d, a, l) is Some);
        }
        assert forall|l: u32, m: u32|
            l != m && (#[trigger] resolve_block(d, b, l)) is Some && (#[trigger] resolve_block(
                d,
                b,
                m,
            )) is Some implies resolve_block(d, b, l) != resolve_block(d, b, m) by {
            assert(resolve_block(d, a, l) is Some && resolve_block(d, a, m) is Some);
        }
    }
}

/// One chunk of an append.
#[verifier::rlimit(40)]
pub proof fn lemma_append_chunk(d: Blocks, i: InodeView, data: Seq<u8>, total: u32)
    requires
        healthy(d, i),
        tail_mapped(d, i),
        data.len() > 0,
        i.extent_count < u16::MAX,
        i.size + data.len() <= MAX_FILE,
        block_for_append(d, i, total).2 is Some,
        read_at(block_for_append(d, i, total).0, block_for_append(d, i, total).2->0) is Some,
        can_write(block_for_append(d, i, total).0, block_for_append(d, i, total).2->0),
    ensures
        ({
            let (d1, i1, r) = block_for_append(d, i, total);
            let p = r->0;
            let n = chunk_len(i1.size, data.len() as int);
            let b1 = splice(
                read_at(d1, p)->0,
                (i1.size % BLOCK_SIZE as u64) as int,
                data.take(n),
            );
            let d2 = written(d1, p, b1);
            let i2 = InodeView { size: wrap64(i1.size, n as u64), ..i1 };
            &&& 0 < n <= data.len()
            &&& healthy(d2, i2)
            &&& grows_to(d, d2)
            &&& tail_mapped(d2, i2)
            &&& extends(d, i, d2, i2, data.take(n))
            &&& i2.extent_count <= i.extent_count + if i.size % BLOCK_SIZE as u64 == 0 {
                1int
            } else {
                0
            }
        }),
{
    let (d1, i1, r) = block_for_append(d, i, total);
    let p = r->0;
    let lg = logical_of(i.size);
    lemma_block_for_append(d, i, total);
    let n = chunk_len(i1.size, data.len() as int);
    let off = (i1.size % BLOCK_SIZE as u64) as int;
    let b = read_at(d1, p)->0;
    let part = data.take(n);
    let b1 = splice(b, off, part);
    let d2 = written(d1, p, b1);
    let i2 = InodeView { size: wrap64(i1.size, n as u64), ..i1 };
    lemma_write_data(d1, i1, lg, b1);
    assert(i2.size == i.size + n);
    lemma_same_map(d2, i1, i2);
    assert(tail_mapped(d2, i2)) by {
        if i2.size % BLOCK_SIZE as u64 != 0 {
            assert(logical_of(i2.size) == lg) by {
                lemma_same_block(i.size as int, n);
            }
            assert(resolve_block(d2, i2, lg) is Some);
        }
    }
    assert forall|pos: u64| pos < i.size implies #[trigger] file_byte(d2, i2, pos) == file_byte(
        d,
        i,
        pos,
    ) by {
        let l = logical_of(pos);
        assert(pos as int / 4096 <= i.size as int / 4096);
        if l == lg {
            assert(pos as int / 4096 == i.size as int / 4096);
            assert(resolve_block(d, i, lg) is Some);
            assert(b1[(pos % 4096) as int] == b[(pos % 4096) as int]);
        } else {
            assert(resolve_block(d2, i2, l) == resolve_block(d, i, l));
            if resolve_block(d, i, l) is Some {
                let q = resolve_block(d, i, l)->0;
                assert(resolve_block(d1, i1, l) == Some(q));
                assert(q != p);
                assert(read_at(d2, q) == read_at(d1, q));
            }
        }
    }
    assert forall|pos: u64| i.size <= pos < i2.size implies #[trigger] file_byte(d2, i2, pos)
        == Some(part[pos - i.size]) by {
        let j = pos - i.size;
        lemma_same_block(i.size as int, j);
        assert(logical_of(pos) == lg);
        assert(b1[(pos % 4096) as int] == part[j]);
    }
    assert(grows_to(d, d2)) by {
        assert forall|q: u32| (#[trigger] read_at(d2, q) is Some) == (read_at(d, q) is Some) by {
            assert(read_at(d1, q) is Some == read_at(d, q) is Some);
        }
        assert forall|q: u32| #[trigger] can_write(d2, q) == can_write(d, q) by {
            assert(can_write(d1, q) == can_write(d, q));
        }
        assert forall|q: u32| taken(d, q) implies #[trigger] taken(d2, q) by {
            assert(taken(d1, q));
        }
    }
}

/// Extents that an append of `len` bytes can add.
pub open spec fn extents_needed(len: nat) -> int {
    (len + BLOCK_SIZE - 1) / BLOCK_SIZE as int
}

/// Storing the inode of a healthy file changes nothing of its contents.
proof fn lemma_store_inode(d: Blocks, ino: u32, i: InodeView)
    requires
        healthy(d, i),
        tail_mapped(d, i),
        write_inode(d, ino, i).1,
    ensures
        healthy(write_inode(d, ino, i).0, i),
        tail_mapped(write_inode(d, ino, i).0, i),
        extends(d, i, write_inode(d, ino, i).0, i, seq![]),
{
    let d1 = write_inode(d, ino, i).0;
    let blk = inode_block(ino);
    let b = read_at(d, blk)->0;
    let raw = splice(b, crate::rfs::inode::inode_offset(ino), inode_bytes(i));
    assert(d1 == written(d, blk, raw));
    lemma_written(d, blk, raw);
    assert(bitmap(d1) == bitmap(d));
    assert(grows_to(d, d1));
    lemma_file_frame(d, d1, i);
    assert(resolve_block(d1, i, logical_of(i.size)) == resolve_block(d, i, logical_of(i.size)));
}

#[verifier::rlimit(60)]
proof fn lemma_append(d: Blocks, ino: u32, i: InodeView, data: Seq<u8>, total: u32)
    requires
        healthy(d, i),
        tail_mapped(d, i),
        i.size + data.len() <= MAX_FILE,
        i.extent_count + extents_needed(data.len()) <= u16::MAX,
        append_to_file(d, ino, i, data, total).2,
    ensures
        ({
            let (d1, i1, _) = append_to_file(d, ino, i, data, total);
            &&& healthy(d1, i1)
            &&& tail_mapped(d1, i1)
            &&& extends(d, i, d1, i1, data)
        }),
    decreases data.len(),
{
    let (d1, i1, _) = append_to_file(d, ino, i, data, total);
    if data.len() == 0 {
        lemma_store_inode(d, ino, i);
    } else {
        let (da, ia, r) = block_for_append(d, i, total);
        let p = r->0;
        lemma_append_chunk(d, i, data, total);
        let n = chunk_len(ia.size, data.len() as int);
        let b1 = splice(
            read_at(da, p)->0,
            (ia.size % BLOCK_SIZE as u64) as int,
            data.take(n),
        );
        let d2 = written(da, p, b1);
        let i2 = InodeView { size: wrap64(ia.size, n as u64), ..ia };
        let rest = data.skip(n);
        assert(i.size == ia.size) by {
            lemma_block_for_append(d, i, total);
        }
        assert(extents_needed(rest.len()) + (i2.extent_count - i.extent_count) <= extents_needed(
            data.len(),
        ));
        lemma_append(d2, ino, i2, rest, total);
        assert forall|pos: u64| pos < i.size implies #[trigger] file_byte(d1, i1, pos) == file_byte(
            d,
            i,
            pos,
        ) by {
            assert(file_byte(d1, i1, pos) == file_byte(d2, i2, pos));
        }
        assert forall|pos: u64| i.size <= pos < i1.size implies #[trigger] file_byte(d1, i1, pos)
            == Some(data[pos - i.size]) by {
            if pos < i2.size {
                assert(file_byte(d1, i1, pos) == file_byte(d2, i2, pos));
                assert(data.take(n)[pos - i.size] == data[pos - i.size]);
            } else {
                assert(rest[pos - i2.size] == data[pos - i.size]);
            }
        }
    }
}

/// An append that succeeds leaves what the file held and puts the data behind
/// it; the file stays healthy.
pub proof fn law_append_extends_the_file(
    d: Blocks,
    ino: u32,
    i: InodeView,
    data: Seq<u8>,
    total: u32,
)
    requires
        healthy(d, i),
        tail_mapped(d, i),
        i.size + data.len() <= MAX_FILE,
        i.extent_count + extents_needed(data.len()) <= u16::MAX,
        append_to_file(d, ino, i, data, total).2,
    ensures
        ({
            let (d1, i1, _) = append_to_file(d, ino, i, data, total);
            &&& healthy(d1, i1)
            &&& tail_mapped(d1, i1)
            &&& extends(d, i, d1, i1, data)
        }),
{
    lemma_append(d, ino, i, data, total);
}

/// What was written to a descriptor is what a read at that place gives back.
pub proof fn law_read_gives_back_what_was_written(
    fs: FsView,
    fd: u64,
    data: Seq<u8>,
    now: u64,
    out: Seq<u8>,
)
    requires
        is_open(fs, fd),
        data.len() > 0,
        wrote(fs, fd, data, now).1 == data.len(),
        healthy(fs.disk, fs.fds[fd as int]->0.inode),
        tail_mapped(fs.disk, fs.fds[fd as int]->0.inode),
        fs.fds[fd as int]->0.inode.size + data.len() <= MAX_FILE,
        fs.fds[fd as int]->0.inode.extent_count + extents_needed(data.len()) <= u16::MAX,
        fs.fds.len() == MAX_FDS,
        is_read(
            wrote(fs, fd, data, now).0.disk,
            wrote(fs, fd, data, now).0.fds[fd as int]->0.inode,
            fs.fds[fd as int]->0.inode.size,
            data.len() as int,
            out,
        ),
    ensures
        out == data,
        wrote(fs, fd, data, now).0.fds[fd as int]->0.offset == fs.fds[fd as int]->0.inode.size
            + data.len(),
{
    let f = fs.fds[fd as int]->0;
    let stamped = InodeView { mtime: now, ..f.inode };
    lemma_same_map(fs.disk, f.inode, stamped);
    let (d1, i1, ok) = append_to_file(fs.disk, f.ino_num, stamped, data, fs.total_blocks);
    lemma_append(fs.disk, f.ino_num, stamped, data, fs.total_blocks);
    assert(wanted(i1, f.inode.size, data.len() as int) == data.len());
    if out.len() < data.len() {
        assert(file_byte(d1, i1, (f.inode.size + out.len()) as u64) == Some(data[out.len() as int]));
    }
    assert forall|k: int| 0 <= k < data.len() implies out[k] == data[k] by {
        assert(file_byte(d1, i1, (f.inode.size + k) as u64) == Some(data[k]));
    }
    assert(out =~= data);
}

/// A new file is healthy on every device that is in order, so the laws on
/// appending hold of it from the first byte on.
pub proof fn law_new_file_is_healthy(d: Blocks, flags: u32, mode: u16, now: u64)
    requires
        wf_blocks(d),
        reads_back(d),
        read_at(d, BITMAP_BLOCK) is Some,
    ensures
        healthy(d, fresh_inode(flags, mode, now)),
        tail_mapped(d, fresh_inode(flags, mode, now)),
{
    let i = fresh_inode(flags, mode, now);
    assert(inline_extents(i).len() == 0);
    assert forall|l: u32| #[trigger] resolve_block(d, i, l) is None by {}
}

// ── Giving a file's blocks back ──────────────────────────────────────────────

/// Nothing but the bitmap's contents differs.
pub open spec fn only_the_bitmap(d: Blocks, e: Blocks) -> bool {
    &&& e.len() == d.len()
    &&& wf_blocks(e)
    &&& read_at(e, BITMAP_BLOCK) is Some
    &&& forall|q: u32| q != BITMAP_BLOCK ==> #[trigger] read_at(e, q) == read_at(d, q)
    &&& forall|q: u32| #[trigger] can_write(e, q) == can_write(d, q)
}

/// `q` is where one of the logical blocks in `[from, to)` of the file lies.
pub open spec fn holds_data(d: Blocks, i: InodeView, from: int, to: int, q: u32) -> bool {
    exists|l: u32| from <= l < to && #[trigger] resolve_block(d, i, l) == Some(q)
}

proof fn lemma_free_one(d: Blocks, e: Blocks, p: u32)
    requires
        only_the_bitmap(d, e),
        can_write(d, BITMAP_BLOCK),
        DATA_START <= p < BITMAP_SPAN,
    ensures
        only_the_bitmap(d, free_block(e, p)),
        forall|q: u32|
            q < BITMAP_SPAN ==> #[trigger] used(bitmap(free_block(e, p)), q as int) == (q != p
                && used(bitmap(e), q as int)),
{
    let map = bitmap(e);
    let m1 = unmarked(map, p as int);
    let k = (p % 8) as u8;
    assert(can_write(e, BITMAP_BLOCK));
    assert(free_block(e, p) == written(e, BITMAP_BLOCK, m1));
    lemma_written(e, BITMAP_BLOCK, m1);
    assert(bitmap(free_block(e, p)) == m1);
    lemma_bits(map[p as int / 8], k, k);
    assert forall|q: u32| q < BITMAP_SPAN implies #[trigger] used(m1, q as int) == (q != p && used(
        map,
        q as int,
    )) by {
        if q as int / 8 == p as int / 8 {
            lemma_bits(map[p as int / 8], k, (q % 8) as u8);
        }
    }
}

/// Where a file's blocks are does not depend on the bitmap.
proof fn lemma_map_kept(d: Blocks, e: Blocks, i: InodeView)
    requires
        healthy(d, i),
        only_the_bitmap(d, e),
    ensures
        forall|l: u32| #[trigger] resolve_block(e, i, l) == resolve_block(d, i, l),
{
    let fuel = chain_fuel(d.len());
    if i.extent_count > INLINE_EXTENTS {
        assert forall|c: u32| #[trigger]
            in_chain(d, i.ovfl_block, fuel, c) implies read_at(e, c) == read_at(d, c) by {
            assert(file_chain(d, i, c));
            assert(taken(d, c));
        }
        lemma_chain_frame(d, e, i.ovfl_block, i.extent_count - INLINE_EXTENTS, fuel);
        assert forall|l: u32| #[trigger] resolve_block(e, i, l) == resolve_block(d, i, l) by {
            assert(chain_find(e, i.ovfl_block, 4, 4 + (i.extent_count - 4), l, fuel)
                == chain_find(d, i.ovfl_block, 4, 4 + (i.extent_count - 4), l, fuel));
        }
    }
}

proof fn lemma_free_mapped(d: Blocks, e: Blocks, i: InodeView, l: int, n: int)
    requires
        healthy(d, i),
        only_the_bitmap(d, e),
        can_write(d, BITMAP_BLOCK),
        0 <= l,
        n <= u32::MAX,
    ensures
        only_the_bitmap(d, free_mapped(e, i, l, n)),
        forall|q: u32|
            q < BITMAP_SPAN ==> #[trigger] used(bitmap(free_mapped(e, i, l, n)), q as int) == (used(
                bitmap(e),
                q as int,
            ) && !holds_data(d, i, l, n, q)),
    decreases n - l,
{
    let r = free_mapped(e, i, l, n);
    if l < n {
        lemma_map_kept(d, e, i);
        let at = resolve_block(d, i, l as u32);
        assert(resolve_block(e, i, l as u32) == at);
        let e1 = match at {
            Some(p) => free_block(e, p),
            None => e,
        };
        if at is Some {
            assert(taken(d, at->0));
            lemma_free_one(d, e, at->0);
        }
        lemma_free_mapped(d, e1, i, l + 1, n);
        assert forall|q: u32| q < BITMAP_SPAN implies #[trigger] used(bitmap(r), q as int) == (used(
            bitmap(e),
            q as int,
        ) && !holds_data(d, i, l, n, q)) by {
            assert(holds_data(d, i, l, n, q) == (at == Some(q) || holds_data(d, i, l + 1, n, q))) by {
                if holds_data(d, i, l, n, q) {
                    let m = choose|m: u32| l <= m < n && #[trigger] resolve_block(d, i, m) == Some(q);
                    if m != l {
                        assert(l + 1 <= m < n && resolve_block(d, i, m) == Some(q));
                    }
                }
                if holds_data(d, i, l + 1, n, q) {
                    let m = choose|m: u32|
                        l + 1 <= m < n && #[trigger] resolve_block(d, i, m) == Some(q);
                    assert(l <= m < n && resolve_block(d, i, m) == Some(q));
                }
            }
        }
    }
}

proof fn lemma_free_chain(d: Blocks, e: Blocks, o: u32, rest: int, fuel: nat)
    requires
        only_the_bitmap(d, e),
        can_write(d, BITMAP_BLOCK),
        o != 0,
        chain_ok(d, o, rest, fuel),
        forall|c: u32| #[trigger] in_chain(d, o, fuel, c) ==> DATA_START <= c < BITMAP_SPAN,
    ensures
        only_the_bitmap(d, free_chain(e, o, fuel)),
        forall|q: u32|
            q < BITMAP_SPAN ==> #[trigger] used(bitmap(free_chain(e, o, fuel)), q as int) == (used(
                bitmap(e),
                q as int,
            ) && !in_chain(d, o, fuel, q)),
    decreases fuel,
{
    assert(in_chain(d, o, fuel, o));
    let b = read_at(d, o)->0;
    let next = ovfl_next(b);
    assert(read_at(e, o) == read_at(d, o));
    lemma_free_one(d, e, o);
    let e1 = free_block(e, o);
    let r = free_chain(e, o, fuel);
    assert(r == free_chain(e1, next, (fuel - 1) as nat));
    if next != 0 {
        assert forall|c: u32| #[trigger]
            in_chain(d, next, (fuel - 1) as nat, c) implies DATA_START <= c < BITMAP_SPAN by {
            assert(in_chain(d, o, fuel, c));
        }
        lemma_free_chain(d, e1, next, rest - ovfl_used(b), (fuel - 1) as nat);
    }
    assert forall|q: u32| q < BITMAP_SPAN implies #[trigger] used(bitmap(r), q as int) == (used(
        bitmap(e),
        q as int,
    ) && !in_chain(d, o, fuel, q)) by {
        assert(used(bitmap(e1), q as int) == (q != o && used(bitmap(e), q as int)));
    }
}

/// A file that is removed gives back its blocks, and nothing else: afterwards the
/// bitmap marks exactly the blocks that it marked before and that neither held
/// the file's data nor described where it lies. No other block is touched.
pub proof fn law_a_removed_file_gives_its_blocks_back(d: Blocks, i: InodeView)
    requires
        healthy(d, i),
        can_write(d, BITMAP_BLOCK),
    ensures
        only_the_bitmap(d, free_inode_blocks(d, i)),
        forall|q: u32|
            q < BITMAP_SPAN ==> #[trigger] used(bitmap(free_inode_blocks(d, i)), q as int) == (used(
                bitmap(d),
                q as int,
            ) && !holds_data(d, i, 0, block_count(i.size) as int, q) && !file_chain(d, i, q)),
{
    let n = block_count(i.size) as int;
    let d1 = free_mapped(d, i, 0, n);
    lemma_free_mapped(d, d, i, 0, n);
    if i.extent_count > INLINE_EXTENTS {
        let fuel = chain_fuel(d.len());
        assert forall|c: u32| #[trigger]
            in_chain(d, i.ovfl_block, fuel, c) implies DATA_START <= c < BITMAP_SPAN by {
            assert(file_chain(d, i, c));
            assert(taken(d, c));
        }
        lemma_free_chain(d, d1, i.ovfl_block, i.extent_count - INLINE_EXTENTS, fuel);
    } else {
        assert(free_inode_blocks(d, i) == d1);
    }
}

// ── Descriptors ──────────────────────────────────────────────────────────────

/// A descriptor that was closed is refused: by a read, a write, a seek and a second
/// close, and nothing changes. All other descriptors keep their file and offset.
pub proof fn law_a_closed_descriptor_is_refused(
    fs: FsView,
    fd: u64,
    data: Seq<u8>,
    now: u64,
    offset: i64,
    whence: u32,
    buf: Seq<u8>,
    read_to: FsView,
    out: Seq<u8>,
    r: i64,
)
    requires
        fs.mounted,
        fs.fds.len() == MAX_FDS,
        is_open(fs, fd),
    ensures
        ({
            let after = closed(fs, fd).0;
            &&& closed(fs, fd).1 == 0
            &&& !is_open(after, fd)
            &&& closed(after, fd) == (after, EBADF)
            &&& wrote(after, fd, data, now) == (after, EBADF)
            &&& sought(after, fd, offset, whence) == (after, EBADF)
            &&& was_read(after, fd, buf, read_to, out, r) == (r == EBADF && read_to == after && out
                == buf)
            &&& after == (FsView { fds: after.fds, ..fs })
            &&& after.fds.len() == MAX_FDS
            &&& forall|other: int|
                0 <= other < MAX_FDS && other != fd ==> #[trigger] after.fds[other]
                    == fs.fds[other]
        }),
{
}

} // verus!
