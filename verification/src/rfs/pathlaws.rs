//! What holds of paths: what is made at a path is found there, what is moved is
//! found at its new path only, and all other paths lead where they led.

use vstd::prelude::*;
use vstd::utf8::{
    is_char_boundary_iff_not_is_continuation_byte, is_continuation_byte, pop_first_scalar,
    valid_utf8, valid_utf8_split,
};
use crate::bytes::{le32, splice, zeros};
use crate::rfs::dir::{
    add_dir_entry, add_in_blocks, add_in_new_block, dir_entries, filled_up, left, lookup_from,
    lookup_in_dir, named_slot, rec_len, remove_dir_entry, remove_in_blocks, used_limit, EntryView,
    NewEntry, DIRENT_HDR, FT_DIR, FT_REG,
};
use crate::rfs::dirlaws::{
    apart, confined, entry_of, findable, first_named, joined, law_added_entry_is_found,
    law_added_entry_joins_the_others, law_linked_file_is_found, law_other_directories_are_kept,
    law_removal_takes_the_first_entry, lemma_absent, lemma_confined, lemma_confined_on,
    lemma_dir_kept, lemma_dir_store, lemma_first_named_has_it, lemma_found, lemma_free_inode,
    lemma_inode_apart, lemma_other_name, lemma_owned_is_taken, sound_dir,
};
use crate::rfs::disk::{
    alloc_block, can_write, read_at, used, wf_blocks, written, Blocks, BITMAP_BLOCK, BITMAP_SPAN,
    BLOCK_SIZE,
};
use crate::rfs::file::{
    add_extent, append_to_file, block_count, block_for_append, chain_append, chain_fuel,
    chunk_len, file_byte, free_inode_blocks, inline_extents, logical_of, one_block, ovfl_next,
    ovfl_used, resolve_block, wrap64,
};
use crate::rfs::inode::{
    free_inode, free_inode_from, inode_block, inode_bytes, inode_offset,
    law_a_freed_inode_is_not_in_use, law_inode_round_trip, law_stored_inode_is_read, read_inode,
    write_inode, Extent, InodeView, INLINE_EXTENTS, INODE_COUNT, INODE_DIR, INODE_FAST_SYM,
    INODE_SIZE, INODE_SYMLINK, INODE_USED, OVFL_EXTENTS,
};
use crate::rfs::laws::{
    bitmap, extends, extents_needed, file_chain, grows_to, healthy, holds_data,
    law_a_removed_file_gives_its_blocks_back, law_allocation_takes_one_free_block,
    law_append_extends_the_file, law_free_undoes_allocation, lemma_append_chunk,
    lemma_block_for_append, lemma_file_frame, lemma_map_block, lemma_same_map, lemma_same_owner,
    lemma_write_data, lemma_written, owns, same_shape, tail_mapped, taken, MAX_FILE,
};
use crate::rfs::ops::{
    created, fresh_inode, is_open, linked, made_dir, new_place, renamed, unlinked, wrote, FsView,
    EEXIST, ENOENT, ENOSPC, ENOTDIR, MAX_FDS,
};
use crate::rfs::path::{
    components, components_from, last_slash, name_part, next_slash, parent_part, resolve_path,
    restarts, symlink_target, walk, whole_file, MAX_SYMLINK_HOPS, SLASH,
};

verus! {

// ── Splitting ────────────────────────────────────────────────────────────────

proof fn lemma_last_slash(p: Seq<u8>, i: int)
    requires
        0 <= i <= p.len(),
    ensures
        -1 <= last_slash(p, i) < i,
        last_slash(p, i) >= 0 ==> p[last_slash(p, i)] == SLASH,
        forall|k: int| last_slash(p, i) < k < i ==> p[k] != SLASH,
    decreases i,
{
    if i > 0 && p[i - 1] != SLASH {
        lemma_last_slash(p, i - 1);
    }
}

proof fn lemma_next_slash_is(p: Seq<u8>, i: int, j: int)
    requires
        0 <= i <= j <= p.len(),
        forall|k: int| i <= k < j ==> p[k] != SLASH,
        j < p.len() ==> p[j] == SLASH,
    ensures
        next_slash(p, i) == j,
    decreases j - i,
{
    if i < j {
        lemma_next_slash_is(p, i + 1, j);
    }
}

proof fn lemma_next_slash_first(p: Seq<u8>, i: int)
    requires
        0 <= i <= p.len(),
    ensures
        i <= next_slash(p, i) <= p.len(),
        next_slash(p, i) < p.len() ==> p[next_slash(p, i)] == SLASH,
        forall|k: int| i <= k < next_slash(p, i) ==> p[k] != SLASH,
    decreases p.len() - i,
{
    if i < p.len() && p[i] != SLASH {
        lemma_next_slash_first(p, i + 1);
    }
}

/// What follows a slash, without another in it, is the last component.
proof fn lemma_components_split(p: Seq<u8>, i: int, at: int)
    requires
        0 <= i <= at < p.len() - 1,
        p[at] == SLASH,
        forall|k: int| at < k < p.len() ==> p[k] != SLASH,
    ensures
        components_from(p, i) == components_from(p.subrange(0, at), i).push(
            p.subrange(at + 1, p.len() as int),
        ),
    decreases at - i,
{
    let q = p.subrange(0, at);
    let name = p.subrange(at + 1, p.len() as int);
    lemma_next_slash_first(p, i);
    let j = next_slash(p, i);
    assert(j <= at);
    lemma_next_slash_is(p, at + 1, p.len() as int);
    assert(components_from(p, at + 1) =~= seq![name]);
    if i == at {
        assert(components_from(q, i) =~= seq![]);
        assert(j == i);
        assert(components_from(p, i) =~= seq![name]);
    } else if j == at {
        lemma_next_slash_is(q, i, at);
        assert(q.subrange(i, at) =~= p.subrange(i, at));
        assert(components_from(q, i) =~= seq![p.subrange(i, at)]);
        assert(components_from(p, i) =~= seq![p.subrange(i, at), name]);
    } else {
        lemma_next_slash_is(q, i, j);
        lemma_components_split(p, j + 1, at);
        assert(q.subrange(i, j) =~= p.subrange(i, j));
        assert(components_from(p, i) =~= components_from(q, i).push(name));
    }
}

/// The components of a path are those of its directory part and its name.
pub proof fn law_a_path_is_its_directory_and_its_name(p: Seq<u8>)
    requires
        name_part(p).len() > 0,
    ensures
        components(p) == components(parent_part(p)).push(name_part(p)),
{
    lemma_last_slash(p, p.len() as int);
    let at = last_slash(p, p.len() as int);
    let root = seq![SLASH];
    if at <= 0 {
        lemma_next_slash_is(root, 0, 0);
        assert(components_from(root, 1) =~= seq![]);
        assert(components(root) =~= seq![]);
    }
    if at < 0 {
        lemma_next_slash_is(p, 0, p.len() as int);
        assert(components(p) =~= seq![name_part(p)]);
    } else if at == 0 {
        lemma_components_split(p, 0, 0);
        assert(components_from(p.subrange(0, 0), 0) =~= seq![]);
        assert(components(p) =~= seq![name_part(p)]);
    } else {
        lemma_components_split(p, 0, at);
    }
}

/// The name at the end of a path that is text is text.
proof fn lemma_name_is_text(p: Seq<u8>)
    requires
        valid_utf8(p),
        name_part(p).len() > 0,
    ensures
        valid_utf8(name_part(p)),
{
    lemma_last_slash(p, p.len() as int);
    let at = last_slash(p, p.len() as int);
    if at >= 0 {
        assert(!is_continuation_byte(p[at]));
        is_char_boundary_iff_not_is_continuation_byte(p, at);
        valid_utf8_split(p, at);
        let tail = p.subrange(at, p.len() as int);
        assert(tail[0] == SLASH);
        assert(pop_first_scalar(tail) =~= name_part(p));
    } else {
        assert(name_part(p) =~= p);
    }
}

// ── Walking ──────────────────────────────────────────────────────────────────

/// Every symlink leads somewhere: none is empty.
pub open spec fn no_empty_links(d: Blocks) -> bool {
    forall|o: u32|
        (#[trigger] read_inode(d, o)) is Some && read_inode(d, o)->0.is(INODE_SYMLINK)
            ==> symlink_target(d, read_inode(d, o)->0) != Some(Seq::<u8>::empty())
}

/// A walk that leads to a place goes on from there with one more component.
proof fn lemma_walk_on(
    d: Blocks,
    ino: u32,
    inode: InodeView,
    comps: Seq<Seq<u8>>,
    hops: int,
    name: Seq<u8>,
) -> (h: int)
    requires
        no_empty_links(d),
        walk(d, ino, inode, comps, hops) is Some,
    ensures
        ({
            let n = walk(d, ino, inode, comps, hops)->0;
            walk(d, ino, inode, comps.push(name), hops) == walk(d, n.0, n.1, seq![name], h)
        }),
    decreases MAX_SYMLINK_HOPS - hops, comps.len(),
{
    let all = comps.push(name);
    if comps.len() == 0 {
        assert(all =~= seq![name]);
        hops
    } else {
        assert(all[0] == comps[0]);
        assert(all.drop_first() =~= comps.drop_first().push(name));
        let child_ino = lookup_in_dir(d, inode, comps[0])->0;
        let child = read_inode(d, child_ino)->0;
        if !child.is(INODE_SYMLINK) {
            lemma_walk_on(d, child_ino, child, comps.drop_first(), hops, name)
        } else {
            let target = symlink_target(d, child)->0;
            assert(read_inode(d, child_ino) is Some);
            assert(target.len() > 0) by {
                if target.len() == 0 {
                    assert(target =~= Seq::<u8>::empty());
                }
            }
            let base = if restarts(target, comps.drop_first()) {
                0u32
            } else {
                ino
            };
            let rest = components(target) + comps.drop_first();
            assert(components(target) + all.drop_first() =~= rest.push(name));
            lemma_walk_on(d, base, read_inode(d, base)->0, rest, hops + 1, name)
        }
    }
}

/// An inode that serves as it did: a directory still is one, and a symlink has
/// its target.
pub open spec fn same_role(d: Blocks, i: InodeView, d1: Blocks, i1: InodeView) -> bool {
    &&& i1.is(INODE_DIR) == i.is(INODE_DIR)
    &&& i1.is(INODE_SYMLINK) == i.is(INODE_SYMLINK)
    &&& i.is(INODE_SYMLINK) ==> symlink_target(d1, i1) == symlink_target(d, i)
}

/// The inode that an entry stands for.
pub open spec fn entry_inode(d: Blocks, entry: Option<(u32, Seq<u8>)>) -> Option<u32> {
    match entry {
        Some((o, name)) => lookup_in_dir(d, read_inode(d, o)->0, name),
        None => None,
    }
}

/// All inodes in use serve as they did, and all names in directories stand for
/// the inodes that they stood for, but for one entry that is gone and was of a
/// file, and that file.
pub open spec fn leads_on(d: Blocks, d1: Blocks, gone: Option<(u32, Seq<u8>)>) -> bool {
    &&& forall|o: u32|
        (#[trigger] read_inode(d, o)) is Some && Some(o) != entry_inode(d, gone) ==> read_inode(
            d1,
            o,
        ) is Some && same_role(d, read_inode(d, o)->0, d1, read_inode(d1, o)->0)
    &&& forall|o: u32, name: Seq<u8>|
        read_inode(d, o) is Some && read_inode(d, o)->0.is(INODE_DIR) && (
        #[trigger] lookup_in_dir(d, read_inode(d, o)->0, name)) is Some && gone != Some((o, name))
            ==> lookup_in_dir(d1, read_inode(d1, o)->0, name) == lookup_in_dir(
            d,
            read_inode(d, o)->0,
            name,
        )
    &&& entry_inode(d, gone) matches Some(o) ==> {
        let c = read_inode(d, o);
        c is Some ==> !c->0.is(INODE_DIR) && !c->0.is(INODE_SYMLINK)
    }
}

/// A walk leads where it led. Where an entry of a file is gone, that is said of
/// walks that lead to a directory.
proof fn lemma_walk_kept(
    d: Blocks,
    d1: Blocks,
    gone: Option<(u32, Seq<u8>)>,
    ino: u32,
    comps: Seq<Seq<u8>>,
    hops: int,
)
    requires
        leads_on(d, d1, gone),
        read_inode(d, ino) is Some,
        walk(d, ino, read_inode(d, ino)->0, comps, hops) is Some,
        gone is Some ==> (walk(d, ino, read_inode(d, ino)->0, comps, hops)->0).1.is(INODE_DIR),
    ensures
        ({
            let n = walk(d, ino, read_inode(d, ino)->0, comps, hops)->0;
            &&& read_inode(d, n.0) == Some(n.1)
            &&& read_inode(d1, n.0) is Some
            &&& walk(d1, ino, read_inode(d1, ino)->0, comps, hops) == Some(
                (n.0, read_inode(d1, n.0)->0),
            )
        }),
    decreases MAX_SYMLINK_HOPS - hops, comps.len(),
{
    let inode = read_inode(d, ino)->0;
    if comps.len() > 0 {
        let found = lookup_in_dir(d, inode, comps[0]);
        let child_ino = found->0;
        let child = read_inode(d, child_ino)->0;
        assert(read_inode(d, child_ino) is Some);
        assert(found != entry_inode(d, gone)) by {
            if found == entry_inode(d, gone) {
                assert(!child.is(INODE_DIR) && !child.is(INODE_SYMLINK));
                assert(comps.drop_first().len() == 0);
            }
        }
        assert(lookup_in_dir(d1, read_inode(d1, ino)->0, comps[0]) == found);
        if !child.is(INODE_SYMLINK) {
            lemma_walk_kept(d, d1, gone, child_ino, comps.drop_first(), hops);
        } else {
            let target = symlink_target(d, child)->0;
            let base = if restarts(target, comps.drop_first()) {
                0u32
            } else {
                ino
            };
            let rest = components(target) + comps.drop_first();
            lemma_walk_kept(d, d1, gone, base, rest, hops + 1);
        }
    }
}

// ── Volumes ──────────────────────────────────────────────────────────────────

/// No name stands twice in a directory.
pub open spec fn unique_names(es: Seq<EntryView>) -> bool {
    forall|j: int, k: int|
        0 <= j < k < es.len() ==> (#[trigger] es[j]).name != (#[trigger] es[k]).name
}

/// An inode in order. One that holds a symlink's target itself maps no blocks.
pub open spec fn inode_ok(d: Blocks, i: InodeView) -> bool {
    &&& i.is(INODE_FAST_SYM) ==> i.is(INODE_SYMLINK)
    &&& !i.is(INODE_FAST_SYM) ==> healthy(d, i)
    &&& i.is(INODE_DIR) ==> {
        &&& !i.is(INODE_SYMLINK)
        &&& !i.is(INODE_FAST_SYM)
        &&& sound_dir(d, i)
        &&& unique_names(dir_entries(d, i))
    }
}

/// A volume in order: every inode in use is, and no block belongs to two.
pub open spec fn sound_volume(d: Blocks) -> bool {
    &&& forall|o: u32| (#[trigger] read_inode(d, o)) is Some ==> inode_ok(d, read_inode(d, o)->0)
    &&& forall|o: u32, p: u32|
        o != p && (#[trigger] read_inode(d, o)) is Some && (#[trigger] read_inode(d, p)) is Some
            && !read_inode(d, o)->0.is(INODE_FAST_SYM) && !read_inode(d, p)->0.is(INODE_FAST_SYM)
            ==> apart(d, read_inode(d, o)->0, read_inode(d, p)->0)
}

/// A file that shares no block with a directory that changes is as it was.
proof fn lemma_file_kept(d: Blocks, i: InodeView, d1: Blocks, i1: InodeView, j: InodeView)
    requires
        confined(d, i, d1, i1),
        healthy(d, j),
        apart(d, i, j),
    ensures
        healthy(d1, j),
        forall|pos: u64| #[trigger] file_byte(d1, j, pos) == file_byte(d, j, pos),
        forall|q: u32| #[trigger] owns(d1, j, q) == owns(d, j, q),
        apart(d1, i1, j),
        apart(d1, j, i1),
{
    assert forall|q: u32| taken(d, q) && owns(d, j, q) implies #[trigger] read_at(d1, q)
        == read_at(d, q) by {
        assert(!owns(d, i, q));
    }
    lemma_file_frame(d, d1, j);
    assert forall|q: u32| #[trigger] owns(d1, i1, q) implies !owns(d1, j, q) by {
        if owns(d1, j, q) {
            assert(owns(d, j, q));
            lemma_owned_is_taken(d, j, q);
        }
    }
    assert forall|q: u32| #[trigger] owns(d1, j, q) implies !owns(d1, i1, q) by {}
}

/// The target of a symlink whose bytes are as they were.
proof fn lemma_target_kept(d: Blocks, d1: Blocks, i: InodeView)
    requires
        !i.is(INODE_FAST_SYM) ==> forall|pos: u64| #[trigger]
            file_byte(d1, i, pos) == file_byte(d, i, pos),
    ensures
        symlink_target(d1, i) == symlink_target(d, i),
{
    if !i.is(INODE_FAST_SYM) {
        assert forall|k: int| 0 <= k < i.size implies #[trigger] file_byte(d1, i, k as u64)
            == file_byte(d, i, k as u64) by {}
        if whole_file(d, i) is Some {
            assert forall|k: int| 0 <= k < i.size implies #[trigger] file_byte(
                d1,
                i,
                k as u64,
            ) is Some by {
                assert(file_byte(d, i, k as u64) is Some);
            }
            assert(whole_file(d1, i)->0 =~= whole_file(d, i)->0);
        } else if whole_file(d1, i) is Some {
            assert forall|k: int| 0 <= k < i.size implies #[trigger] file_byte(
                d,
                i,
                k as u64,
            ) is Some by {
                assert(file_byte(d1, i, k as u64) is Some);
            }
        }
    }
}

/// One file or directory has changed, within its own blocks, and at most one
/// inode is new, which maps nothing yet.
pub open spec fn one_file_changed(
    d: Blocks,
    dir: u32,
    d1: Blocks,
    fresh: Option<u32>,
) -> bool {
    let i = read_inode(d, dir)->0;
    let i1 = read_inode(d1, dir)->0;
    &&& read_inode(d, dir) is Some
    &&& read_inode(d1, dir) is Some
    &&& !i.is(INODE_SYMLINK)
    &&& i1.flags == i.flags
    &&& confined(d, i, d1, i1)
    &&& inode_ok(d1, i1)
    &&& forall|o: u32|
        o != dir && Some(o) != fresh ==> #[trigger] read_inode(d1, o) == read_inode(d, o)
    &&& fresh matches Some(n) ==> {
        &&& n != dir
        &&& read_inode(d, n) is None
        &&& read_inode(d1, n) is Some
        &&& inode_ok(d1, read_inode(d1, n)->0)
        &&& !read_inode(d1, n)->0.is(INODE_SYMLINK)
        &&& forall|q: u32| !#[trigger] owns(d1, read_inode(d1, n)->0, q)
    }
}

/// The volume stays in order, and all inodes but the one that changed are as they
/// were.
#[verifier::spinoff_prover]
#[verifier::rlimit(30)]
proof fn lemma_volume_kept(d: Blocks, dir: u32, d1: Blocks, fresh: Option<u32>)
    requires
        sound_volume(d),
        one_file_changed(d, dir, d1, fresh),
    ensures
        sound_volume(d1),
        forall|o: u32|
            o != dir && (#[trigger] read_inode(d, o)) is Some ==> {
                let j = read_inode(d, o)->0;
                &&& read_inode(d1, o) == Some(j)
                &&& symlink_target(d1, j) == symlink_target(d, j)
                &&& j.is(INODE_DIR) ==> dir_entries(d1, j) == dir_entries(d, j)
                &&& !j.is(INODE_FAST_SYM) ==> forall|pos: u64| #[trigger]
                    file_byte(d1, j, pos) == file_byte(d, j, pos)
            },
        no_empty_links(d) ==> no_empty_links(d1),
{
    let i = read_inode(d, dir)->0;
    let i1 = read_inode(d1, dir)->0;
    assert forall|o: u32| o != dir && (#[trigger] read_inode(d, o)) is Some implies ({
        let j = read_inode(d, o)->0;
        &&& read_inode(d1, o) == Some(j)
        &&& inode_ok(d1, j)
        &&& symlink_target(d1, j) == symlink_target(d, j)
        &&& j.is(INODE_DIR) ==> dir_entries(d1, j) == dir_entries(d, j)
        &&& !j.is(INODE_FAST_SYM) ==> apart(d1, i1, j) && apart(d1, j, i1) && (forall|pos: u64|
            #[trigger]
            file_byte(d1, j, pos) == file_byte(d, j, pos)) && (forall|q: u32| #[trigger]
            owns(d1, j, q) == owns(d, j, q))
    }) by {
        let j = read_inode(d, o)->0;
        assert(Some(o) != fresh);
        assert(read_inode(d1, o) == read_inode(d, o));
        if !j.is(INODE_FAST_SYM) {
            assert(apart(d, i, j));
            lemma_file_kept(d, i, d1, i1, j);
            if j.is(INODE_DIR) {
                law_other_directories_are_kept(d, i, d1, i1, j);
            }
        }
        lemma_target_kept(d, d1, j);
    }
    assert forall|o: u32| (#[trigger] read_inode(d1, o)) is Some implies inode_ok(
        d1,
        read_inode(d1, o)->0,
    ) by {
        if o != dir && Some(o) != fresh {
            assert(read_inode(d, o) is Some);
        }
    }
    assert forall|o: u32, p: u32|
        o != p && (#[trigger] read_inode(d1, o)) is Some && (#[trigger] read_inode(d1, p)) is Some
            && !read_inode(d1, o)->0.is(INODE_FAST_SYM) && !read_inode(d1, p)->0.is(
            INODE_FAST_SYM,
        ) implies apart(d1, read_inode(d1, o)->0, read_inode(d1, p)->0) by {
        let x = read_inode(d1, o)->0;
        let y = read_inode(d1, p)->0;
        if Some(o) == fresh {
        } else if Some(p) == fresh {
            assert forall|q: u32| #[trigger] owns(d1, x, q) implies !owns(d1, y, q) by {}
        } else if o == dir {
            assert(read_inode(d, p) is Some);
        } else if p == dir {
            assert(read_inode(d, o) is Some);
        } else {
            assert(read_inode(d, o) is Some && read_inode(d, p) is Some);
            assert(apart(d, x, y));
            assert forall|q: u32| #[trigger] owns(d1, x, q) implies !owns(d1, y, q) by {
                assert(owns(d, x, q) == owns(d1, x, q));
            }
        }
    }
    if no_empty_links(d) {
        assert forall|o: u32|
            (#[trigger] read_inode(d1, o)) is Some && read_inode(d1, o)->0.is(
                INODE_SYMLINK,
            ) implies symlink_target(d1, read_inode(d1, o)->0) != Some(Seq::<u8>::empty()) by {
            assert(o != dir && Some(o) != fresh);
            assert(read_inode(d, o) is Some);
        }
    }
}

/// All names but those of one entry stand in a directory as they stood.
pub open spec fn names_kept(d: Blocks, i: InodeView, d1: Blocks, i1: InodeView, but: Seq<u8>) -> bool {
    forall|name: Seq<u8>|
        name != but ==> #[trigger] lookup_in_dir(d1, i1, name) == lookup_in_dir(d, i, name)
}

/// Where one file has changed, or a directory by one name, all else leads on.
proof fn lemma_leads_on(d: Blocks, dir: u32, d1: Blocks, fresh: Option<u32>, name: Seq<u8>, gone: bool)
    requires
        sound_volume(d),
        one_file_changed(d, dir, d1, fresh),
        read_inode(d, dir)->0.is(INODE_DIR) ==> names_kept(
            d,
            read_inode(d, dir)->0,
            d1,
            read_inode(d1, dir)->0,
            name,
        ),
        !gone && read_inode(d, dir)->0.is(INODE_DIR) ==> lookup_in_dir(d, read_inode(d, dir)->0, name) is None,
        gone ==> {
            let c = read_inode(d, lookup_in_dir(d, read_inode(d, dir)->0, name)->0);
            c is Some ==> !c->0.is(INODE_DIR) && !c->0.is(INODE_SYMLINK)
        },
    ensures
        leads_on(d, d1, if gone {
            Some((dir, name))
        } else {
            None
        }),
{
    lemma_volume_kept(d, dir, d1, fresh);
    let g = if gone {
        Some((dir, name))
    } else {
        None
    };
    assert forall|o: u32| (#[trigger] read_inode(d, o)) is Some implies read_inode(d1, o) is Some
        && same_role(d, read_inode(d, o)->0, d1, read_inode(d1, o)->0) by {
        if o == dir {
            assert(inode_ok(d, read_inode(d, o)->0));
        }
    }
    assert forall|o: u32, nm: Seq<u8>|
        read_inode(d, o) is Some && read_inode(d, o)->0.is(INODE_DIR) && (
        #[trigger] lookup_in_dir(d, read_inode(d, o)->0, nm)) is Some && g != Some(
            (o, nm),
        ) implies lookup_in_dir(d1, read_inode(d1, o)->0, nm) == lookup_in_dir(
        d,
        read_inode(d, o)->0,
        nm,
    ) by {
        if o == dir {
            assert(nm != name);
        }
    }
}

/// Two changes, one after the other.
proof fn lemma_leads_on_again(d: Blocks, d1: Blocks, d2: Blocks, gone: (u32, Seq<u8>))
    requires
        leads_on(d, d1, None),
        leads_on(d1, d2, Some(gone)),
        read_inode(d, gone.0) is Some,
        read_inode(d, gone.0)->0.is(INODE_DIR),
        lookup_in_dir(d, read_inode(d, gone.0)->0, gone.1) is Some,
    ensures
        leads_on(d, d2, Some(gone)),
{
    let found = lookup_in_dir(d, read_inode(d, gone.0)->0, gone.1);
    assert(entry_inode(d, None) is None);
    assert(lookup_in_dir(d1, read_inode(d1, gone.0)->0, gone.1) == found);
    assert forall|o: u32|
        (#[trigger] read_inode(d, o)) is Some && Some(o) != entry_inode(
            d,
            Some(gone),
        ) implies read_inode(d2, o) is Some && same_role(
        d,
        read_inode(d, o)->0,
        d2,
        read_inode(d2, o)->0,
    ) by {
        assert(read_inode(d1, o) is Some);
    }
    assert forall|o: u32, name: Seq<u8>|
        read_inode(d, o) is Some && read_inode(d, o)->0.is(INODE_DIR) && (
        #[trigger] lookup_in_dir(d, read_inode(d, o)->0, name)) is Some && Some(gone) != Some(
            (o, name),
        ) implies lookup_in_dir(d2, read_inode(d2, o)->0, name) == lookup_in_dir(
        d,
        read_inode(d, o)->0,
        name,
    ) by {
        assert(lookup_in_dir(d1, read_inode(d1, o)->0, name) is Some);
    }
    if read_inode(d, found->0) is Some {
        assert(read_inode(d1, found->0) is Some);
    }
}

/// An entry under a new name keeps names unique.
proof fn lemma_joined_unique(before: Seq<EntryView>, after: Seq<EntryView>, e: EntryView)
    requires
        joined(before, after, e),
        unique_names(before),
        lookup_from(before, 0, e.name) is None,
    ensures
        unique_names(after),
{
    let n = choose|n: int| 0 <= n <= before.len() && after == #[trigger] before.insert(n, e);
    lemma_absent(before, 0, e.name);
    assert forall|j: int, k: int| 0 <= j < k < after.len() implies (#[trigger] after[j]).name != (
    #[trigger] after[k]).name by {
        let a = if j < n {
            j
        } else {
            j - 1
        };
        let b = if k < n {
            k
        } else {
            k - 1
        };
        if j != n {
            assert(after[j] == before[a]);
        }
        if k != n {
            assert(after[k] == before[b]);
        }
    }
}

// ── Making files ─────────────────────────────────────────────────────────────

/// What a new file or directory does to a volume in order.
proof fn lemma_linked_volume(
    d: Blocks,
    dir: u32,
    name: Seq<u8>,
    inode: InodeView,
    file_type: u8,
    total: u32,
)
    requires
        sound_volume(d),
        read_inode(d, dir) is Some,
        read_inode(d, dir)->0.is(INODE_DIR),
        valid_utf8(name),
        lookup_in_dir(d, read_inode(d, dir)->0, name) is None,
        inode.is(INODE_USED),
        !inode.is(INODE_SYMLINK),
        !inode.is(INODE_FAST_SYM),
        inode.extents.len() == INLINE_EXTENTS,
        inode.extent_count == 0,
        inode.size == 0,
        inode.ovfl_block == 0,
        linked(d, dir, name, inode, file_type, total).1 is Some,
    ensures
        ({
            let (d2, r) = linked(d, dir, name, inode, file_type, total);
            &&& one_file_changed(d, dir, d2, r)
            &&& names_kept(d, read_inode(d, dir)->0, d2, read_inode(d2, dir)->0, name)
            &&& lookup_in_dir(d2, read_inode(d2, dir)->0, name) == r
            &&& read_inode(d2, r->0) == Some(inode)
            &&& dir_entries(d2, inode).len() == 0
        }),
{
    let i = read_inode(d, dir)->0;
    assert(inode_ok(d, i));
    law_linked_file_is_found(d, dir, i, name, inode, file_type, total);
    let (d2, r) = linked(d, dir, name, inode, file_type, total);
    let i2 = read_inode(d2, dir)->0;
    let e = EntryView { ino: r->0, file_type, name };
    lemma_found(dir_entries(d, i), dir_entries(d2, i2), e);
    assert forall|nm: Seq<u8>| nm != name implies #[trigger] lookup_in_dir(d2, i2, nm)
        == lookup_in_dir(d, i, nm) by {}
    lemma_joined_unique(dir_entries(d, i), dir_entries(d2, i2), e);
    assert(inline_extents(inode).len() == 0);
    assert forall|l: u32| #[trigger] resolve_block(d2, inode, l) is None by {}
    assert forall|q: u32| !#[trigger] owns(d2, inode, q) by {
        assert(!file_chain(d2, inode, q));
    }
    assert(healthy(d2, inode));
    assert(block_count(inode.size) == 0);
    assert(dir_entries(d2, inode) =~= seq![]);
    if inode.is(INODE_DIR) {
        assert(sound_dir(d2, inode));
    }
}

/// A path leads to an inode that is in use under its number.
proof fn lemma_resolved(d: Blocks, path: Seq<u8>)
    requires
        resolve_path(d, path) is Some,
    ensures
        ({
            let n = resolve_path(d, path)->0;
            read_inode(d, n.0) == Some(n.1)
        }),
{
    lemma_walk_kept(d, d, None, 0, components(path), 0);
}

/// A path leads where it led.
pub proof fn law_paths_lead_on(d: Blocks, d1: Blocks, gone: Option<(u32, Seq<u8>)>, path: Seq<u8>)
    requires
        leads_on(d, d1, gone),
        resolve_path(d, path) is Some,
        gone is Some ==> (resolve_path(d, path)->0).1.is(INODE_DIR),
    ensures
        ({
            let n = resolve_path(d, path)->0;
            resolve_path(d1, path) == Some((n.0, read_inode(d1, n.0)->0)) && read_inode(
                d1,
                n.0,
            ) is Some
        }),
{
    lemma_walk_kept(d, d1, gone, 0, components(path), 0);
}

/// A path leads to what its name stands for in its directory, where that is no
/// symlink, and nowhere where the name does not stand there.
proof fn lemma_resolve_name(d: Blocks, path: Seq<u8>)
    requires
        no_empty_links(d),
        name_part(path).len() > 0,
        resolve_path(d, parent_part(path)) is Some,
        (resolve_path(d, parent_part(path))->0).1.is(INODE_DIR),
    ensures
        ({
            let dir = (resolve_path(d, parent_part(path))->0).1;
            let found = lookup_in_dir(d, dir, name_part(path));
            &&& found is None ==> resolve_path(d, path) is None
            &&& found is Some && read_inode(d, found->0) is Some && !read_inode(
                d,
                found->0,
            )->0.is(INODE_SYMLINK) ==> resolve_path(d, path) == Some(
                (found->0, read_inode(d, found->0)->0),
            )
        }),
{
    law_a_path_is_its_directory_and_its_name(path);
    let root = read_inode(d, 0)->0;
    let n = resolve_path(d, parent_part(path))->0;
    let name = name_part(path);
    let h = lemma_walk_on(d, 0, root, components(parent_part(path)), 0, name);
    let found = lookup_in_dir(d, n.1, name);
    assert(seq![name][0] == name);
    if found is Some && read_inode(d, found->0) is Some {
        let c = read_inode(d, found->0)->0;
        if !c.is(INODE_SYMLINK) {
            assert(seq![name].drop_first() =~= seq![]);
            assert(walk(d, found->0, c, seq![], h) == Some((found->0, c)));
        }
    }
}

/// Where a path that is to be made goes: its directory, and the name that is not
/// in it.
pub open spec fn free_name(d: Blocks, path: Seq<u8>) -> bool {
    resolve_path(d, parent_part(path)) matches Some(n) && lookup_in_dir(d, n.1, name_part(path))
        is None
}

/// What making a file at a path does to a volume in order.
proof fn lemma_made(
    d: Blocks,
    path: Seq<u8>,
    inode: InodeView,
    file_type: u8,
    total: u32,
)
    requires
        sound_volume(d),
        no_empty_links(d),
        valid_utf8(path),
        name_part(path).len() > 0,
        free_name(d, path),
        (resolve_path(d, parent_part(path))->0).1.is(INODE_DIR),
        inode.is(INODE_USED),
        !inode.is(INODE_SYMLINK),
        !inode.is(INODE_FAST_SYM),
        inode.extents.len() == INLINE_EXTENTS,
        inode.extent_count == 0,
        inode.size == 0,
        inode.ovfl_block == 0,
        linked(
            d,
            (resolve_path(d, parent_part(path))->0).0,
            name_part(path),
            inode,
            file_type,
            total,
        ).1 is Some,
    ensures
        ({
            let dir = (resolve_path(d, parent_part(path))->0).0;
            let (d1, r) = linked(d, dir, name_part(path), inode, file_type, total);
            &&& resolve_path(d1, path) == Some((r->0, inode))
            &&& read_inode(d, r->0) is None
            &&& dir_entries(d1, inode).len() == 0
            &&& leads_on(d, d1, None)
            &&& sound_volume(d1)
            &&& no_empty_links(d1)
            &&& one_file_changed(d, dir, d1, r)
        }),
{
    let dir = (resolve_path(d, parent_part(path))->0).0;
    let name = name_part(path);
    lemma_resolved(d, parent_part(path));
    lemma_name_is_text(path);
    lemma_linked_volume(d, dir, name, inode, file_type, total);
    let (d1, r) = linked(d, dir, name, inode, file_type, total);
    lemma_volume_kept(d, dir, d1, r);
    lemma_leads_on(d, dir, d1, r, name, false);
    law_paths_lead_on(d, d1, None, parent_part(path));
    lemma_resolve_name(d1, path);
}

/// What making a directory is answered: that the path exists, that its directory
/// does not, that this is none, or else 0 or that there is no room. In the first
/// three cases nothing changes.
pub proof fn law_what_making_a_directory_is_answered(fs: FsView, path: Seq<u8>, now: u64)
    requires
        fs.mounted,
        valid_utf8(path),
        name_part(path).len() > 0,
    ensures
        ({
            let parent = resolve_path(fs.disk, parent_part(path));
            if resolve_path(fs.disk, path) is Some {
                made_dir(fs, path, now) == (fs, EEXIST)
            } else if parent is None {
                made_dir(fs, path, now) == (fs, ENOENT)
            } else if !(parent->0).1.is(INODE_DIR) {
                made_dir(fs, path, now) == (fs, ENOTDIR)
            } else {
                made_dir(fs, path, now).1 == 0 || made_dir(fs, path, now).1 == ENOSPC
            }
        }),
{
}

/// A directory that was made is found at its path: empty, with an inode that was
/// not in use. Making it again is refused, as the path exists. All paths that led
/// somewhere still do, and the volume stays in order.
#[verifier::spinoff_prover]
pub proof fn law_a_made_directory_resolves(fs: FsView, path: Seq<u8>, now: u64, later: u64)
    requires
        sound_volume(fs.disk),
        no_empty_links(fs.disk),
        free_name(fs.disk, path),
        made_dir(fs, path, now).1 == 0,
    ensures
        ({
            let after = made_dir(fs, path, now).0;
            let n = resolve_path(after.disk, path)->0;
            &&& resolve_path(after.disk, path) is Some
            &&& n.1 == fresh_inode(INODE_USED | INODE_DIR, 0o755, now)
            &&& n.1.is(INODE_DIR)
            &&& read_inode(fs.disk, n.0) is None
            &&& dir_entries(after.disk, n.1).len() == 0
            &&& made_dir(after, path, later) == (after, EEXIST)
            &&& leads_on(fs.disk, after.disk, None)
            &&& sound_volume(after.disk)
            &&& no_empty_links(after.disk)
        }),
{
    let inode = fresh_inode(INODE_USED | INODE_DIR, 0o755, now);
    lemma_flags();
    let dir = (resolve_path(fs.disk, parent_part(path))->0).0;
    assert(new_place(fs, path) == Ok::<u32, i64>(dir));
    let (d1, r) = linked(fs.disk, dir, name_part(path), inode, FT_DIR, fs.total_blocks);
    let after = FsView { disk: d1, ..fs };
    assert(r is Some && made_dir(fs, path, now).0 == after);
    lemma_made(fs.disk, path, inode, FT_DIR, fs.total_blocks);
    assert(new_place(after, path) == Err::<u32, i64>(EEXIST));
}

/// A file that was created is found at its path: empty, with an inode that was not
/// in use. All paths that led somewhere still do, and the volume stays in order.
#[verifier::spinoff_prover]
pub proof fn law_a_created_file_resolves(fs: FsView, path: Seq<u8>, now: u64)
    requires
        sound_volume(fs.disk),
        no_empty_links(fs.disk),
        free_name(fs.disk, path),
        created(fs, path, now).1 >= 0,
    ensures
        ({
            let after = created(fs, path, now).0;
            let n = resolve_path(after.disk, path)->0;
            &&& resolve_path(after.disk, path) is Some
            &&& n.1 == fresh_inode(INODE_USED, 0o644, now)
            &&& !n.1.is(INODE_DIR)
            &&& read_inode(fs.disk, n.0) is None
            &&& leads_on(fs.disk, after.disk, None)
            &&& sound_volume(after.disk)
            &&& no_empty_links(after.disk)
        }),
{
    let inode = fresh_inode(INODE_USED, 0o644, now);
    lemma_flags();
    let dir = (resolve_path(fs.disk, parent_part(path))->0).0;
    assert(new_place(fs, path) == Ok::<u32, i64>(dir));
    lemma_made(fs.disk, path, inode, FT_REG, fs.total_blocks);
}

proof fn lemma_flags()
    ensures
        ({
            let flags = INODE_USED | INODE_DIR;
            flags & INODE_USED != 0 && flags & INODE_DIR != 0 && flags & INODE_SYMLINK == 0 && flags
                & INODE_FAST_SYM == 0
        }),
        INODE_USED & INODE_USED != 0,
        INODE_USED & INODE_DIR == 0,
        INODE_USED & INODE_SYMLINK == 0,
        INODE_USED & INODE_FAST_SYM == 0,
{
    assert((INODE_USED | INODE_DIR) & INODE_USED != 0 && (INODE_USED | INODE_DIR) & INODE_DIR != 0
        && (INODE_USED | INODE_DIR) & INODE_SYMLINK == 0 && (INODE_USED | INODE_DIR)
        & INODE_FAST_SYM == 0 && INODE_USED & INODE_USED != 0 && INODE_USED & INODE_DIR == 0
        && INODE_USED & INODE_SYMLINK == 0 && INODE_USED & INODE_FAST_SYM == 0) by (bit_vector);
}

// ── Renaming ─────────────────────────────────────────────────────────────────

/// Taking out the first entry with a name that stands once.
proof fn lemma_name_out(es: Seq<EntryView>, name: Seq<u8>)
    requires
        unique_names(es),
        first_named(es, name, 0) < es.len(),
    ensures
        ({
            let rest = es.remove(first_named(es, name, 0));
            &&& unique_names(rest)
            &&& lookup_from(rest, 0, name) is None
            &&& forall|other: Seq<u8>|
                other != name ==> #[trigger] lookup_from(rest, 0, other) == lookup_from(
                    es,
                    0,
                    other,
                )
        }),
{
    let k = first_named(es, name, 0);
    lemma_first_named_has_it(es, name, 0);
    let rest = es.remove(k);
    assert forall|j: int| 0 <= j < rest.len() implies #[trigger] rest[j] == es[if j < k {
        j
    } else {
        j + 1
    }] by {}
    assert forall|j: int| 0 <= j < rest.len() implies (#[trigger] rest[j]).name != name by {
        assert(es[k].name == name);
    }
    lemma_absent(rest, 0, name);
    assert(es =~= rest.insert(k, es[k]));
    assert forall|other: Seq<u8>| other != name implies #[trigger] lookup_from(rest, 0, other)
        == lookup_from(es, 0, other) by {
        lemma_other_name(rest, k, es[k], 0, other);
    }
}

/// What removing an entry of a file does to a volume in order.
proof fn lemma_removed_volume(d: Blocks, dir: u32, name: Seq<u8>)
    requires
        sound_volume(d),
        read_inode(d, dir) is Some,
        read_inode(d, dir)->0.is(INODE_DIR),
        0 < name.len(),
        valid_utf8(name),
        remove_dir_entry(d, dir, name).1,
    ensures
        ({
            let d1 = remove_dir_entry(d, dir, name).0;
            let i = read_inode(d, dir)->0;
            &&& one_file_changed(d, dir, d1, None)
            &&& read_inode(d1, dir) == Some(i)
            &&& names_kept(d, i, d1, i, name)
            &&& lookup_in_dir(d1, i, name) is None
        }),
{
    let d1 = remove_dir_entry(d, dir, name).0;
    let i = read_inode(d, dir)->0;
    assert(inode_ok(d, i));
    law_removal_takes_the_first_entry(d, dir, i, name);
    lemma_name_out(dir_entries(d, i), name);
    assert forall|nm: Seq<u8>| nm != name implies #[trigger] lookup_in_dir(d1, i, nm)
        == lookup_in_dir(d, i, nm) by {}
}

/// What adding an entry does to a volume in order.
proof fn lemma_added_volume(d: Blocks, dir: u32, e: NewEntry, total: u32)
    requires
        sound_volume(d),
        read_inode(d, dir) is Some,
        read_inode(d, dir)->0.is(INODE_DIR),
        findable(e),
        lookup_in_dir(d, read_inode(d, dir)->0, e.name) is None,
        add_dir_entry(d, dir, e, total).1,
    ensures
        ({
            let d1 = add_dir_entry(d, dir, e, total).0;
            let i1 = read_inode(d1, dir)->0;
            &&& one_file_changed(d, dir, d1, None)
            &&& names_kept(d, read_inode(d, dir)->0, d1, i1, e.name)
            &&& lookup_in_dir(d1, i1, e.name) == Some(e.ino)
        }),
{
    let i = read_inode(d, dir)->0;
    assert(inode_ok(d, i));
    let d1 = add_dir_entry(d, dir, e, total).0;
    let i1 = read_inode(d1, dir)->0;
    law_added_entry_joins_the_others(d, dir, i, e, total);
    law_added_entry_is_found(d, dir, i, e, total);
    lemma_joined_unique(dir_entries(d, i), dir_entries(d1, i1), entry_of(e));
}

/// A file that is renamed or moved is found at its new path, with the same inode,
/// and no longer at the old one. All other names stand for what they stood for,
/// no other inode than those of the two directories changes, nor any file's
/// bytes, and the volume stays in order. The old name must stand for the file
/// itself, not for a symlink to it.
#[verifier::spinoff_prover]
#[verifier::rlimit(30)]
pub proof fn law_a_renamed_path_resolves(fs: FsView, from: Seq<u8>, to: Seq<u8>)
    requires
        sound_volume(fs.disk),
        no_empty_links(fs.disk),
        free_name(fs.disk, to),
        renamed(fs, from, to).1 == 0,
        ({
            let n = resolve_path(fs.disk, from)->0;
            let a = resolve_path(fs.disk, parent_part(from))->0;
            !n.1.is(INODE_SYMLINK) && lookup_in_dir(fs.disk, a.1, name_part(from)) == Some(n.0)
        }),
    ensures
        ({
            let d1 = renamed(fs, from, to).0.disk;
            let n = resolve_path(fs.disk, from)->0;
            let a = resolve_path(fs.disk, parent_part(from))->0;
            let b = resolve_path(fs.disk, parent_part(to))->0;
            &&& resolve_path(d1, to) == Some(n)
            &&& resolve_path(d1, from) is None
            &&& leads_on(fs.disk, d1, Some((a.0, name_part(from))))
            &&& forall|o: u32|
                o != a.0 && o != b.0 ==> #[trigger] read_inode(d1, o) == read_inode(fs.disk, o)
            &&& forall|o: u32, pos: u64|
                o != a.0 && o != b.0 && read_inode(fs.disk, o) is Some && !read_inode(
                    fs.disk,
                    o,
                )->0.is(INODE_FAST_SYM) ==> #[trigger] file_byte(d1, read_inode(fs.disk, o)->0, pos)
                    == file_byte(fs.disk, read_inode(fs.disk, o)->0, pos)
            &&& sound_volume(d1)
            &&& no_empty_links(d1)
        }),
{
    let d = fs.disk;
    let n = resolve_path(d, from)->0;
    let a = resolve_path(d, parent_part(from))->0;
    let b = resolve_path(d, parent_part(to))->0;
    let fname = name_part(from);
    let tname = name_part(to);
    lemma_resolved(d, from);
    lemma_resolved(d, parent_part(from));
    lemma_resolved(d, parent_part(to));
    lemma_name_is_text(from);
    lemma_name_is_text(to);
    law_a_path_is_its_directory_and_its_name(from);
    let h = lemma_walk_on(d, 0, read_inode(d, 0)->0, components(parent_part(from)), 0, fname);
    assert(a.1.is(INODE_DIR));
    assert(components(from).len() > 0);
    assert(read_inode(d, 0)->0.is(INODE_DIR));
    let e = NewEntry { ino: n.0, name: tname, file_type: FT_REG };
    let d1 = add_dir_entry(d, b.0, e, fs.total_blocks).0;
    let d2 = remove_dir_entry(d1, a.0, fname).0;
    assert(renamed(fs, from, to).0.disk == d2);
    lemma_added_volume(d, b.0, e, fs.total_blocks);
    lemma_leads_on(d, b.0, d1, None, tname, false);
    lemma_volume_kept(d, b.0, d1, None);
    let a1 = read_inode(d1, a.0)->0;
    assert(read_inode(d1, a.0) is Some && a1.is(INODE_DIR));
    assert(lookup_in_dir(d1, a1, fname) == Some(n.0));
    assert(n.0 != b.0 && n.0 != a.0);
    assert(read_inode(d1, n.0) == Some(n.1));
    lemma_removed_volume(d1, a.0, fname);
    lemma_leads_on(d1, a.0, d2, None, fname, true);
    lemma_volume_kept(d1, a.0, d2, None);
    lemma_leads_on_again(d, d1, d2, (a.0, fname));
    let gone = Some((a.0, fname));
    law_paths_lead_on(d, d2, gone, parent_part(to));
    law_paths_lead_on(d, d2, gone, parent_part(from));
    let b1 = read_inode(d1, b.0)->0;
    let b2 = read_inode(d2, b.0)->0;
    assert(b1.is(INODE_DIR));
    assert(lookup_in_dir(d1, b1, tname) == Some(n.0));
    assert(lookup_in_dir(d2, b2, tname) == Some(n.0));
    assert(b2.is(INODE_DIR));
    lemma_resolve_name(d2, to);
    lemma_resolve_name(d2, from);
    assert(read_inode(d2, n.0) == Some(n.1));
    assert forall|o: u32| o != a.0 && o != b.0 implies #[trigger] read_inode(d2, o) == read_inode(
        d,
        o,
    ) by {
        assert(read_inode(d1, o) == read_inode(d, o));
    }
    assert forall|o: u32, pos: u64|
        o != a.0 && o != b.0 && read_inode(d, o) is Some && !read_inode(d, o)->0.is(
            INODE_FAST_SYM,
        ) implies #[trigger] file_byte(d2, read_inode(d, o)->0, pos) == file_byte(
        d,
        read_inode(d, o)->0,
        pos,
    ) by {
        let x = read_inode(d, o)->0;
        assert(read_inode(d1, o) == Some(x));
        assert(file_byte(d1, x, pos) == file_byte(d, x, pos));
    }
}

// ── What is refused ──────────────────────────────────────────────────────────

/// The device takes every read and write, and the volume lies within it.
pub open spec fn device_works(d: Blocks, total: u32) -> bool {
    &&& wf_blocks(d)
    &&& total <= d.len()
    &&& forall|i: int| 0 <= i < d.len() ==> (#[trigger] d[i]).readable && d[i].writable
}

proof fn lemma_still_works(d: Blocks, total: u32)
    requires
        device_works(d, total),
        alloc_block(d, total).1 is Some,
    ensures
        device_works(alloc_block(d, total).0, total),
        alloc_block(d, total).1->0 < total,
        alloc_block(d, total).0.len() == d.len(),
{
    law_allocation_takes_one_free_block(d, total);
    let (d1, r) = alloc_block(d, total);
    assert forall|i: int| 0 <= i < d1.len() implies (#[trigger] d1[i]).readable && d1[i].writable by {
        assert(d[i].readable && d[i].writable);
    }
}

/// A chain that takes no extent stays as it is.
proof fn lemma_chain_refused(d: Blocks, o: u32, e: Extent, total: u32, fuel: nat)
    requires
        device_works(d, total),
        !chain_append(d, o, e, total, fuel).1,
    ensures
        chain_append(d, o, e, total, fuel).0 == d,
    decreases fuel,
{
    if fuel > 0 && read_at(d, o) is Some {
        let b = read_at(d, o)->0;
        assert(d[o as int].writable);
        if ovfl_next(b) != 0 {
            lemma_chain_refused(d, ovfl_next(b), e, total, (fuel - 1) as nat);
        } else if ovfl_used(b) >= OVFL_EXTENTS {
            if alloc_block(d, total).1 is Some {
                lemma_still_works(d, total);
                let (d1, r) = alloc_block(d, total);
                assert(d1[r->0 as int].writable);
                assert(can_write(d1, r->0));
                assert(d1[o as int].writable);
            }
        }
    }
}

/// An entry that a directory does not take changes nothing.
pub proof fn law_a_refused_entry_changes_nothing(d: Blocks, dir: u32, e: NewEntry, total: u32)
    requires
        device_works(d, total),
        !add_dir_entry(d, dir, e, total).1,
    ensures
        add_dir_entry(d, dir, e, total).0 == d,
{
    if 0 < e.name.len() <= 255 && read_inode(d, dir) is Some {
        let i = read_inode(d, dir)->0;
        lemma_blocks_refuse(d, dir, i, e, 0);
        if add_in_blocks(d, dir, i, e, 0, block_count(i.size) as int) is None {
            lemma_new_block_refused(d, dir, i, e, total);
        }
    }
}

proof fn lemma_blocks_refuse(d: Blocks, dir: u32, i: InodeView, e: NewEntry, l: int)
    requires
        wf_blocks(d),
        forall|q: int| 0 <= q < d.len() ==> (#[trigger] d[q]).readable && d[q].writable,
        read_inode(d, dir) is Some,
    ensures
        add_in_blocks(d, dir, i, e, l, block_count(i.size) as int) matches Some((_, ok)) ==> ok,
    decreases block_count(i.size) - l,
{
    let n = block_count(i.size) as int;
    if l < n {
        lemma_blocks_refuse(d, dir, i, e, l + 1);
        if let Some(p) = resolve_block(d, i, l as u32) {
            if let Some(b) = read_at(d, p) {
                assert(d[p as int].writable);
                assert(d[inode_block(dir) as int].writable);
            }
        }
    }
}

#[verifier::spinoff_prover]
proof fn lemma_new_block_refused(d: Blocks, dir: u32, i: InodeView, e: NewEntry, total: u32)
    requires
        device_works(d, total),
        read_inode(d, dir) is Some,
        !add_in_new_block(d, dir, i, e, total).1,
    ensures
        add_in_new_block(d, dir, i, e, total).0 == d,
{
    let (d1, r) = alloc_block(d, total);
    if r is Some {
        let p = r->0;
        let x = one_block(block_count(i.size), p);
        lemma_still_works(d, total);
        law_free_undoes_allocation(d, total);
        let (d2, i2, ok) = add_extent(d1, i, x, total);
        if !ok {
            lemma_extent_refused(d1, i, x, total);
        } else {
            lemma_extent_works(d1, i, x, total);
            assert(d2[p as int].writable);
            let d3 = written(d2, p, splice(zeros(BLOCK_SIZE as nat), 0, e.bytes(e.rec())));
            assert(d3.len() == d.len());
            assert forall|k: int| 0 <= k < d3.len() implies (#[trigger] d3[k]).readable
                && d3[k].writable by {
                assert(d2[k].readable && d2[k].writable);
            }
            assert(inode_block(dir) < d.len());
            if let Some((q, c)) = filled_up(d, i) {
                assert(q < d.len());
                assert(d3[q as int].writable);
                let d4 = written(d3, q, c);
                assert(d4[inode_block(dir) as int].readable);
                assert(d4[inode_block(dir) as int].writable);
            } else {
                assert(d3[inode_block(dir) as int].writable);
            }
        }
    }
}

proof fn lemma_extent_refused(d: Blocks, i: InodeView, e: Extent, total: u32)
    requires
        device_works(d, total),
        !add_extent(d, i, e, total).2,
    ensures
        add_extent(d, i, e, total).0 == d,
{
    if i.extent_count >= INLINE_EXTENTS {
        if i.ovfl_block == 0 {
            if alloc_block(d, total).1 is Some {
                lemma_still_works(d, total);
                let (d1, r) = alloc_block(d, total);
                assert(d1[r->0 as int].writable);
            }
        } else {
            lemma_chain_refused(d, i.ovfl_block, e, total, chain_fuel(d.len()));
        }
    }
}

proof fn lemma_extent_works(d: Blocks, i: InodeView, e: Extent, total: u32)
    requires
        device_works(d, total),
    ensures
        ({
            let d1 = add_extent(d, i, e, total).0;
            &&& d1.len() == d.len()
            &&& forall|k: int|
                0 <= k < d1.len() ==> (#[trigger] d1[k]).readable && d1[k].writable
        }),
{
    let d1 = add_extent(d, i, e, total).0;
    if i.extent_count >= INLINE_EXTENTS && i.ovfl_block != 0 {
        lemma_chain_works(d, i.ovfl_block, e, total, chain_fuel(d.len()));
    }
    assert forall|k: int| 0 <= k < d1.len() implies (#[trigger] d1[k]).readable && d1[k].writable by {
        assert(d[k].readable && d[k].writable);
    }
}

proof fn lemma_chain_works(d: Blocks, o: u32, e: Extent, total: u32, fuel: nat)
    requires
        device_works(d, total),
    ensures
        ({
            let d1 = chain_append(d, o, e, total, fuel).0;
            &&& d1.len() == d.len()
            &&& forall|k: int|
                0 <= k < d1.len() ==> (#[trigger] d1[k]).readable && d1[k].writable
        }),
    decreases fuel,
{
    let d1 = chain_append(d, o, e, total, fuel).0;
    if fuel > 0 && read_at(d, o) is Some && ovfl_next(read_at(d, o)->0) != 0 {
        lemma_chain_works(d, ovfl_next(read_at(d, o)->0), e, total, (fuel - 1) as nat);
    }
    assert forall|k: int| 0 <= k < d1.len() implies (#[trigger] d1[k]).readable && d1[k].writable by {
        assert(d[k].readable && d[k].writable);
    }
}

/// Where all inodes and all their blocks are as they were, all paths lead where
/// they led, and those that led nowhere still do.
proof fn lemma_same_paths(d: Blocks, d1: Blocks, path: Seq<u8>)
    requires
        sound_volume(d),
        grows_to(d, d1),
        forall|q: u32| taken(d, q) ==> #[trigger] read_at(d1, q) == read_at(d, q),
        forall|o: u32| #[trigger] read_inode(d1, o) == read_inode(d, o),
    ensures
        resolve_path(d1, path) == resolve_path(d, path),
{
    assert forall|o: u32| (#[trigger] read_inode(d, o)) is Some implies ({
        let i = read_inode(d, o)->0;
        &&& symlink_target(d1, i) == symlink_target(d, i)
        &&& i.is(INODE_DIR) ==> dir_entries(d1, i) == dir_entries(d, i)
    }) by {
        let i = read_inode(d, o)->0;
        assert(inode_ok(d, i));
        if !i.is(INODE_FAST_SYM) {
            lemma_file_frame(d, d1, i);
        }
        lemma_target_kept(d, d1, i);
        if i.is(INODE_DIR) {
            lemma_dir_kept(d, d1, i);
        }
    }
    assert(leads_on(d, d1, None)) by {
        assert forall|o: u32| (#[trigger] read_inode(d, o)) is Some implies read_inode(d1, o)
            is Some && same_role(d, read_inode(d, o)->0, d1, read_inode(d1, o)->0) by {
            assert(read_inode(d1, o) == read_inode(d, o));
        }
        assert forall|o: u32, name: Seq<u8>|
            read_inode(d, o) is Some && read_inode(d, o)->0.is(INODE_DIR) && (
            #[trigger] lookup_in_dir(d, read_inode(d, o)->0, name)) is Some implies lookup_in_dir(
            d1,
            read_inode(d1, o)->0,
            name,
        ) == lookup_in_dir(d, read_inode(d, o)->0, name) by {
            assert(read_inode(d1, o) == read_inode(d, o));
        }
    }
    assert(leads_on(d1, d, None)) by {
        assert forall|o: u32| (#[trigger] read_inode(d1, o)) is Some implies read_inode(d, o)
            is Some && same_role(d1, read_inode(d1, o)->0, d, read_inode(d, o)->0) by {
            assert(read_inode(d1, o) == read_inode(d, o));
        }
        assert forall|o: u32, name: Seq<u8>|
            read_inode(d1, o) is Some && read_inode(d1, o)->0.is(INODE_DIR) && (
            #[trigger] lookup_in_dir(d1, read_inode(d1, o)->0, name)) is Some implies lookup_in_dir(
            d,
            read_inode(d, o)->0,
            name,
        ) == lookup_in_dir(d1, read_inode(d1, o)->0, name) by {
            assert(read_inode(d1, o) == read_inode(d, o));
        }
    }
    if resolve_path(d, path) is Some {
        law_paths_lead_on(d, d1, None, path);
        lemma_resolved(d, path);
    } else if resolve_path(d1, path) is Some {
        law_paths_lead_on(d1, d, None, path);
    }
}

/// A new file that cannot be entered in its directory leaves no inode behind.
proof fn lemma_link_refused(
    d: Blocks,
    dir: u32,
    name: Seq<u8>,
    inode: InodeView,
    file_type: u8,
    total: u32,
    path: Seq<u8>,
)
    requires
        sound_volume(d),
        device_works(d, total),
        read_inode(d, dir) is Some,
        read_inode(d, dir)->0.is(INODE_DIR),
        inode.is(INODE_USED),
        inode.extents.len() == INLINE_EXTENTS,
        linked(d, dir, name, inode, file_type, total).1 is None,
    ensures
        ({
            let d1 = linked(d, dir, name, inode, file_type, total).0;
            &&& forall|o: u32| #[trigger] read_inode(d1, o) == read_inode(d, o)
            &&& forall|q: u32| #[trigger] taken(d1, q) == taken(d, q)
            &&& resolve_path(d1, path) == resolve_path(d, path)
        }),
{
    if let Some(ino) = free_inode_from(d, 0) {
        lemma_free_inode(d, 0);
        let blk = inode_block(ino);
        assert(inode_ok(d, read_inode(d, dir)->0));
        law_inode_round_trip(inode);
        let (d1, ok) = write_inode(d, ino, inode);
        assert(read_at(d, blk) is Some) by {
            lemma_free_inode_is_read(d, 0);
        }
        assert(d[blk as int].writable);
        let raw = splice(read_at(d, blk)->0, inode_offset(ino), inode_bytes(inode));
        assert(d1 == written(d, blk, raw));
        lemma_written(d, blk, raw);
        assert forall|k: int| 0 <= k < d1.len() implies (#[trigger] d1[k]).readable
            && d1[k].writable by {
            assert(d[k].readable && d[k].writable);
        }
        let e = NewEntry { ino, name, file_type };
        law_a_refused_entry_changes_nothing(d1, dir, e, total);
        let (d2, freed) = free_inode(d1, ino);
        assert(d1[blk as int].writable);
        let raw2 = splice(read_at(d1, blk)->0, inode_offset(ino), zeros(INODE_SIZE as nat));
        assert(d2 == written(d1, blk, raw2));
        lemma_written(d1, blk, raw2);
        assert forall|q: u32| q != blk implies #[trigger] read_at(d2, q) == read_at(d, q) by {
            assert(read_at(d1, q) == read_at(d, q));
        }
        assert(bitmap(d2) == bitmap(d));
        assert(grows_to(d, d2)) by {
            assert forall|q: u32| #[trigger] can_write(d2, q) == can_write(d, q) by {
                assert(can_write(d1, q) == can_write(d, q));
            }
        }
        assert forall|o: u32| #[trigger] read_inode(d2, o) == read_inode(d, o) by {
            if o == ino {
                law_a_freed_inode_is_not_in_use(d1, ino, if ino == 1 {
                    2
                } else {
                    1
                });
            } else {
                law_a_freed_inode_is_not_in_use(d1, ino, o);
                law_stored_inode_is_read(d, ino, inode, o);
            }
        }
        lemma_same_paths(d, d2, path);
    }
}

proof fn lemma_free_inode_is_read(d: Blocks, from: u32)
    ensures
        free_inode_from(d, from) matches Some(ino) ==> read_at(d, inode_block(ino)) is Some,
    decreases INODE_COUNT - from,
{
    if from < INODE_COUNT {
        lemma_free_inode_is_read(d, (from + 1) as u32);
    }
}

/// A directory that is not made leaves no trace on a device that works: no inode
/// is taken, no block is, and every path leads where it led or still leads
/// nowhere.
pub proof fn law_a_refused_directory_leaves_no_trace(
    fs: FsView,
    path: Seq<u8>,
    now: u64,
    other: Seq<u8>,
)
    requires
        sound_volume(fs.disk),
        device_works(fs.disk, fs.total_blocks),
        made_dir(fs, path, now).1 < 0,
    ensures
        ({
            let after = made_dir(fs, path, now).0;
            &&& after == (FsView { disk: after.disk, ..fs })
            &&& forall|o: u32| #[trigger] read_inode(after.disk, o) == read_inode(fs.disk, o)
            &&& forall|q: u32| #[trigger] taken(after.disk, q) == taken(fs.disk, q)
            &&& resolve_path(after.disk, other) == resolve_path(fs.disk, other)
        }),
{
    lemma_flags();
    if new_place(fs, path) is Ok {
        let inode = fresh_inode(INODE_USED | INODE_DIR, 0o755, now);
        let dir = (resolve_path(fs.disk, parent_part(path))->0).0;
        lemma_resolved(fs.disk, parent_part(path));
        lemma_link_refused(
            fs.disk,
            dir,
            name_part(path),
            inode,
            FT_DIR,
            fs.total_blocks,
            other,
        );
    }
}

// ── Removing files ───────────────────────────────────────────────────────────

/// What giving back a file's blocks and its inode does to a volume in order.
#[verifier::spinoff_prover]
#[verifier::rlimit(40)]
proof fn lemma_inode_gone(d: Blocks, ino: u32, total: u32)
    requires
        sound_volume(d),
        device_works(d, total),
        ino != 0,
        read_inode(d, ino) is Some,
        !read_inode(d, ino)->0.is(INODE_SYMLINK),
    ensures
        ({
            let x = read_inode(d, ino)->0;
            let d1 = free_inode(free_inode_blocks(d, x), ino).0;
            &&& read_inode(d1, ino) is None
            &&& forall|o: u32| o != ino ==> #[trigger] read_inode(d1, o) == read_inode(d, o)
            &&& forall|q: u32| #[trigger]
                taken(d1, q) == (taken(d, q) && !holds_data(
                    d,
                    x,
                    0,
                    block_count(x.size) as int,
                    q,
                ) && !file_chain(d, x, q))
            &&& sound_volume(d1)
            &&& forall|o: u32|
                o != ino && (#[trigger] read_inode(d, o)) is Some ==> {
                    let j = read_inode(d, o)->0;
                    &&& symlink_target(d1, j) == symlink_target(d, j)
                    &&& j.is(INODE_DIR) ==> dir_entries(d1, j) == dir_entries(d, j)
                    &&& !j.is(INODE_FAST_SYM) ==> forall|pos: u64| #[trigger]
                        file_byte(d1, j, pos) == file_byte(d, j, pos)
                }
            &&& no_empty_links(d) ==> no_empty_links(d1)
        }),
{
    let x = read_inode(d, ino)->0;
    let e = free_inode_blocks(d, x);
    let (d1, ok) = free_inode(e, ino);
    let blk = inode_block(ino);
    let n = block_count(x.size) as int;
    assert(inode_ok(d, x));
    assert(d[BITMAP_BLOCK as int].writable);
    assert(can_write(d, BITMAP_BLOCK));
    law_a_removed_file_gives_its_blocks_back(d, x);
    assert(read_at(e, blk) == read_at(d, blk));
    assert(d[blk as int].writable);
    assert(can_write(e, blk)) by {
        assert(can_write(d, blk));
    }
    let raw = splice(read_at(e, blk)->0, inode_offset(ino), zeros(INODE_SIZE as nat));
    assert(ok && d1 == written(e, blk, raw));
    lemma_written(e, blk, raw);
    assert(bitmap(d1) == bitmap(e));
    assert forall|q: u32| #[trigger] taken(d1, q) == (taken(d, q) && !holds_data(d, x, 0, n, q)
        && !file_chain(d, x, q)) by {
        if q < BITMAP_SPAN {
            assert(used(bitmap(e), q as int) == (used(bitmap(d), q as int) && !holds_data(
                d,
                x,
                0,
                n,
                q,
            ) && !file_chain(d, x, q)));
        }
    }
    assert(same_shape(d, d1)) by {
        assert forall|q: u32| #[trigger] can_write(d1, q) == can_write(d, q) by {
            assert(can_write(e, q) == can_write(d, q));
        }
        assert forall|q: u32| (#[trigger] read_at(d1, q) is Some) == (read_at(d, q) is Some) by {
            if q != BITMAP_BLOCK && q != blk {
                assert(read_at(e, q) == read_at(d, q));
            }
        }
    }
    assert forall|o: u32| o != ino implies #[trigger] read_inode(d1, o) == read_inode(d, o) by {
        law_a_freed_inode_is_not_in_use(e, ino, o);
        if o < INODE_COUNT {
            assert(read_at(e, inode_block(o)) == read_at(d, inode_block(o)));
        }
    }
    law_a_freed_inode_is_not_in_use(e, ino, 0);
    assert forall|o: u32| o != ino && (#[trigger] read_inode(d, o)) is Some implies ({
        let j = read_inode(d, o)->0;
        &&& inode_ok(d1, j)
        &&& symlink_target(d1, j) == symlink_target(d, j)
        &&& j.is(INODE_DIR) ==> dir_entries(d1, j) == dir_entries(d, j)
        &&& !j.is(INODE_FAST_SYM) ==> (forall|pos: u64| #[trigger]
            file_byte(d1, j, pos) == file_byte(d, j, pos)) && (forall|q: u32| #[trigger]
            owns(d1, j, q) == owns(d, j, q))
    }) by {
        let j = read_inode(d, o)->0;
        assert(inode_ok(d, j));
        if !j.is(INODE_FAST_SYM) {
            assert(apart(d, x, j));
            assert forall|q: u32| taken(d, q) && owns(d, j, q) implies #[trigger] taken(d1, q) by {
                lemma_not_given_back(d, x, j, q, n);
            }
            assert forall|q: u32| taken(d, q) && owns(d, j, q) implies #[trigger] read_at(d1, q)
                == read_at(d, q) by {
                lemma_inode_apart(d, ino, q);
                assert(read_at(e, q) == read_at(d, q));
            }
            lemma_file_frame(d, d1, j);
            if j.is(INODE_DIR) {
                lemma_dir_kept(d, d1, j);
            }
        }
        lemma_target_kept(d, d1, j);
    }
    assert forall|o: u32| (#[trigger] read_inode(d1, o)) is Some implies inode_ok(
        d1,
        read_inode(d1, o)->0,
    ) by {
        assert(o != ino);
        assert(read_inode(d, o) is Some);
    }
    assert forall|o: u32, p: u32|
        o != p && (#[trigger] read_inode(d1, o)) is Some && (#[trigger] read_inode(d1, p)) is Some
            && !read_inode(d1, o)->0.is(INODE_FAST_SYM) && !read_inode(d1, p)->0.is(
            INODE_FAST_SYM,
        ) implies apart(d1, read_inode(d1, o)->0, read_inode(d1, p)->0) by {
        assert(read_inode(d, o) is Some && read_inode(d, p) is Some);
        let a = read_inode(d, o)->0;
        let b = read_inode(d, p)->0;
        assert(apart(d, a, b));
        assert forall|q: u32| #[trigger] owns(d1, a, q) implies !owns(d1, b, q) by {
            assert(owns(d, a, q) == owns(d1, a, q));
        }
    }
    if no_empty_links(d) {
        assert forall|o: u32|
            (#[trigger] read_inode(d1, o)) is Some && read_inode(d1, o)->0.is(
                INODE_SYMLINK,
            ) implies symlink_target(d1, read_inode(d1, o)->0) != Some(Seq::<u8>::empty()) by {
            assert(o != ino);
            assert(read_inode(d, o) is Some);
        }
    }
}

/// A block of another file is none of those that are given back.
proof fn lemma_not_given_back(d: Blocks, x: InodeView, j: InodeView, q: u32, n: int)
    requires
        apart(d, x, j),
        owns(d, j, q),
    ensures
        !holds_data(d, x, 0, n, q),
        !file_chain(d, x, q),
{
    assert(!owns(d, x, q));
}

/// A file that is unlinked is gone: its path leads nowhere, its inode is not in
/// use, and its blocks are free again, they and no others. No other inode
/// changes, nor any other file's bytes, all other names stand for what they
/// stood for, and the volume stays in order. The name must stand for the file
/// itself, not for a symlink to it.
#[verifier::spinoff_prover]
#[verifier::rlimit(30)]
pub proof fn law_an_unlinked_path_is_gone(fs: FsView, path: Seq<u8>)
    requires
        sound_volume(fs.disk),
        no_empty_links(fs.disk),
        device_works(fs.disk, fs.total_blocks),
        unlinked(fs, path).1 == 0,
        ({
            let n = resolve_path(fs.disk, path)->0;
            let a = resolve_path(fs.disk, parent_part(path))->0;
            !n.1.is(INODE_SYMLINK) && lookup_in_dir(fs.disk, a.1, name_part(path)) == Some(n.0)
        }),
    ensures
        ({
            let d = fs.disk;
            let d1 = unlinked(fs, path).0.disk;
            let n = resolve_path(d, path)->0;
            let a = resolve_path(d, parent_part(path))->0;
            &&& resolve_path(d1, path) is None
            &&& read_inode(d1, n.0) is None
            &&& forall|o: u32| o != n.0 ==> #[trigger] read_inode(d1, o) == read_inode(d, o)
            &&& forall|q: u32| #[trigger]
                taken(d1, q) == (taken(d, q) && !holds_data(
                    d,
                    n.1,
                    0,
                    block_count(n.1.size) as int,
                    q,
                ) && !file_chain(d, n.1, q))
            &&& forall|o: u32, pos: u64|
                o != n.0 && o != a.0 && read_inode(d, o) is Some && !read_inode(d, o)->0.is(
                    INODE_FAST_SYM,
                ) ==> #[trigger] file_byte(d1, read_inode(d, o)->0, pos) == file_byte(
                    d,
                    read_inode(d, o)->0,
                    pos,
                )
            &&& leads_on(d, d1, Some((a.0, name_part(path))))
            &&& sound_volume(d1)
            &&& no_empty_links(d1)
        }),
{
    let d = fs.disk;
    let n = resolve_path(d, path)->0;
    let a = resolve_path(d, parent_part(path))->0;
    let name = name_part(path);
    lemma_resolved(d, path);
    lemma_resolved(d, parent_part(path));
    lemma_name_is_text(path);
    law_a_path_is_its_directory_and_its_name(path);
    let h = lemma_walk_on(d, 0, read_inode(d, 0)->0, components(parent_part(path)), 0, name);
    assert(a.1.is(INODE_DIR));
    assert(components(path).len() > 0);
    assert(read_inode(d, 0)->0.is(INODE_DIR));
    assert(n.0 != 0 && n.0 != a.0);
    let d1 = remove_dir_entry(d, a.0, name).0;
    lemma_removed_volume(d, a.0, name);
    lemma_leads_on(d, a.0, d1, None, name, true);
    lemma_volume_kept(d, a.0, d1, None);
    lemma_removal_works(d, a.1, name, 0, fs.total_blocks);
    assert(read_inode(d1, n.0) == Some(n.1));
    lemma_inode_gone(d1, n.0, fs.total_blocks);
    let d2 = free_inode(free_inode_blocks(d1, n.1), n.0).0;
    assert(unlinked(fs, path).0.disk == d2);
    let gone = Some((a.0, name));
    assert(read_inode(d1, a.0) == Some(a.1) && read_inode(d2, a.0) == Some(a.1));
    assert(dir_entries(d2, a.1) == dir_entries(d1, a.1));
    assert(lookup_in_dir(d2, a.1, name) is None);
    assert forall|o: u32| o != n.0 implies #[trigger] read_inode(d2, o) == read_inode(d, o) by {
        assert(read_inode(d1, o) == read_inode(d, o));
    }
    assert(leads_on(d, d2, gone)) by {
        assert(entry_inode(d, gone) == Some(n.0));
        assert forall|o: u32|
            (#[trigger] read_inode(d, o)) is Some && Some(o) != entry_inode(
                d,
                gone,
            ) implies read_inode(d2, o) is Some && same_role(
            d,
            read_inode(d, o)->0,
            d2,
            read_inode(d2, o)->0,
        ) by {
            assert(read_inode(d1, o) is Some);
        }
        assert forall|o: u32, nm: Seq<u8>|
            read_inode(d, o) is Some && read_inode(d, o)->0.is(INODE_DIR) && (
            #[trigger] lookup_in_dir(d, read_inode(d, o)->0, nm)) is Some && gone != Some(
                (o, nm),
            ) implies lookup_in_dir(d2, read_inode(d2, o)->0, nm) == lookup_in_dir(
            d,
            read_inode(d, o)->0,
            nm,
        ) by {
            assert(o != n.0);
            assert(lookup_in_dir(d1, read_inode(d1, o)->0, nm) is Some);
        }
    }
    law_paths_lead_on(d, d2, gone, parent_part(path));
    lemma_resolve_name(d2, path);
    lemma_file_kept(d, a.1, d1, a.1, n.1);
    assert forall|q: u32| #[trigger] taken(d2, q) == (taken(d, q) && !holds_data(
        d,
        n.1,
        0,
        block_count(n.1.size) as int,
        q,
    ) && !file_chain(d, n.1, q)) by {
        lemma_same_given_back(d, a.1, d1, n.1, block_count(n.1.size) as int, q);
    }
    assert forall|o: u32, pos: u64|
        o != n.0 && o != a.0 && read_inode(d, o) is Some && !read_inode(d, o)->0.is(
            INODE_FAST_SYM,
        ) implies #[trigger] file_byte(d2, read_inode(d, o)->0, pos) == file_byte(
        d,
        read_inode(d, o)->0,
        pos,
    ) by {
        let x = read_inode(d, o)->0;
        assert(read_inode(d1, o) == Some(x));
        assert(file_byte(d1, x, pos) == file_byte(d, x, pos));
    }
}

/// Removing an entry takes one block's write, and leaves the device working and
/// the bitmap as it was.
proof fn lemma_removal_works(d: Blocks, i: InodeView, name: Seq<u8>, l: int, total: u32)
    requires
        healthy(d, i),
        device_works(d, total),
        0 <= l,
    ensures
        device_works(remove_in_blocks(d, i, name, l, block_count(i.size) as int).0, total),
        forall|q: u32| #[trigger]
            taken(remove_in_blocks(d, i, name, l, block_count(i.size) as int).0, q) == taken(d, q),
    decreases block_count(i.size) - l,
{
    let n = block_count(i.size) as int;
    let d1 = remove_in_blocks(d, i, name, l, n).0;
    if l < n {
        lemma_removal_works(d, i, name, l + 1, total);
        if let Some(p) = resolve_block(d, i, l as u32) {
            if let Some(b) = read_at(d, p) {
                if let Some(at) = named_slot(b, 0, used_limit(i.size, l, n), name) {
                    assert(taken(d, p));
                    assert(d[p as int].writable);
                    let c = splice(b, at, le32(0));
                    assert(d1 == written(d, p, c));
                    lemma_slot_in_block(b, 0, used_limit(i.size, l, n), name);
                    lemma_written(d, p, c);
                    assert(bitmap(d1) == bitmap(d));
                    assert forall|k: int| 0 <= k < d1.len() implies (#[trigger] d1[k]).readable
                        && d1[k].writable by {
                        assert(d[k].readable && d[k].writable);
                    }
                }
            }
        }
    }
}

proof fn lemma_slot_in_block(b: Seq<u8>, pos: int, limit: int, name: Seq<u8>)
    requires
        0 <= pos,
    ensures
        named_slot(b, pos, limit, name) matches Some(at) ==> pos <= at && at + DIRENT_HDR <= limit,
    decreases left(pos, limit),
{
    if pos + DIRENT_HDR <= limit && rec_len(b, pos) != 0 {
        lemma_slot_in_block(b, pos + rec_len(b, pos), limit, name);
    }
}

/// A file that is as it was would give the same blocks back.
proof fn lemma_same_given_back(
    d: Blocks,
    i: InodeView,
    d1: Blocks,
    x: InodeView,
    n: int,
    q: u32,
)
    requires
        confined(d, i, d1, i),
        healthy(d, x),
        apart(d, i, x),
    ensures
        holds_data(d1, x, 0, n, q) == holds_data(d, x, 0, n, q),
        file_chain(d1, x, q) == file_chain(d, x, q),
{
    assert forall|p: u32| taken(d, p) && owns(d, x, p) implies #[trigger] read_at(d1, p)
        == read_at(d, p) by {
        assert(!owns(d, i, p));
    }
    lemma_file_frame(d, d1, x);
    if holds_data(d, x, 0, n, q) {
        let l = choose|l: u32| 0 <= l < n && #[trigger] resolve_block(d, x, l) == Some(q);
        assert(resolve_block(d1, x, l) == Some(q));
    }
    if holds_data(d1, x, 0, n, q) {
        let l = choose|l: u32| 0 <= l < n && #[trigger] resolve_block(d1, x, l) == Some(q);
        assert(resolve_block(d, x, l) == Some(q));
    }
}

// ── Writing files ────────────────────────────────────────────────────────────

/// Getting a block for the next byte stays within the file.
#[verifier::spinoff_prover]
proof fn lemma_block_stays(d: Blocks, i: InodeView, total: u32)
    requires
        healthy(d, i),
        i.extent_count < u16::MAX,
        i.size < MAX_FILE,
        block_for_append(d, i, total).2 is Some,
    ensures
        ({
            let (d1, i1, _) = block_for_append(d, i, total);
            &&& confined(d, i, d1, i1)
            &&& i1.flags == i.flags
            &&& forall|o: u32| #[trigger] read_inode(d1, o) == read_inode(d, o)
        }),
{
    let (d1, i1, r) = block_for_append(d, i, total);
    let lg = logical_of(i.size);
    if resolve_block(d, i, lg) is None {
        assert(i.size as int / 4096 < 0xFFFF_FFFF);
        lemma_map_block(d, i, lg, total);
        let (da, ra) = alloc_block(d, total);
        let i2 = add_extent(da, i, one_block(lg, ra->0), total).1;
        lemma_same_map(d1, i2, i1);
        assert forall|q: u32| #[trigger] owns(d1, i1, q) implies owns(d, i, q) || !taken(d, q) by {
            if file_chain(d1, i1, q) {
                assert(file_chain(d1, i2, q));
            } else {
                let m = choose|m: u32| #[trigger] resolve_block(d1, i1, m) == Some(q);
                assert(resolve_block(d1, i2, m) == Some(q));
                if m != lg {
                    assert(resolve_block(d, i, m) == Some(q));
                }
            }
        }
        assert forall|q: u32| taken(d, q) && !owns(d, i, q) implies #[trigger] read_at(d1, q)
            == read_at(d, q) by {
            assert(!file_chain(d, i, q));
        }
        assert forall|o: u32| #[trigger] read_inode(d1, o) == read_inode(d, o) by {
            if o < INODE_COUNT {
                assert(read_at(d1, inode_block(o)) == read_at(d, inode_block(o)));
            }
        }
    }
}

/// An append stays within the file.
#[verifier::spinoff_prover]
#[verifier::rlimit(40)]
proof fn lemma_append_stays(d: Blocks, ino: u32, i: InodeView, data: Seq<u8>, total: u32)
    requires
        healthy(d, i),
        tail_mapped(d, i),
        i.is(INODE_USED),
        i.size + data.len() <= MAX_FILE,
        i.extent_count + extents_needed(data.len()) <= u16::MAX,
        append_to_file(d, ino, i, data, total).2,
    ensures
        ({
            let (d1, i1, _) = append_to_file(d, ino, i, data, total);
            &&& confined(d, i, d1, i1)
            &&& i1.flags == i.flags
            &&& read_inode(d1, ino) == Some(i1)
            &&& forall|o: u32| o != ino ==> #[trigger] read_inode(d1, o) == read_inode(d, o)
        }),
    decreases data.len(),
{
    let (d1, i1, _) = append_to_file(d, ino, i, data, total);
    if data.len() == 0 {
        lemma_dir_store(d, ino, i);
        assert(confined(d, i, d, i));
        lemma_confined(d, i, d, i, d1);
    } else {
        let (da, ia, r) = block_for_append(d, i, total);
        let p = r->0;
        lemma_append_chunk(d, i, data, total);
        lemma_block_for_append(d, i, total);
        lemma_block_stays(d, i, total);
        let n = chunk_len(ia.size, data.len() as int);
        let b1 = splice(
            read_at(da, p)->0,
            (ia.size % BLOCK_SIZE as u64) as int,
            data.take(n),
        );
        let d2 = written(da, p, b1);
        let i2 = InodeView { size: wrap64(ia.size, n as u64), ..ia };
        let rest = data.skip(n);
        let lg = logical_of(i.size);
        assert(b1.len() == BLOCK_SIZE);
        lemma_write_data(da, ia, lg, b1);
        lemma_same_map(d2, ia, i2);
        lemma_same_owner(da, ia, d2, ia);
        lemma_same_owner(d2, ia, d2, i2);
        assert(owns(da, ia, p));
        assert(confined(da, ia, d2, i2)) by {
            assert forall|q: u32| #[trigger] owns(d2, i2, q) implies owns(da, ia, q) || !taken(
                da,
                q,
            ) by {
                assert(owns(d2, ia, q));
            }
        }
        lemma_confined_on(d, i, da, ia, d2, i2);
        assert(extents_needed(rest.len()) + (i2.extent_count - i.extent_count) <= extents_needed(
            data.len(),
        ));
        lemma_append_stays(d2, ino, i2, rest, total);
        lemma_confined_on(d, i, d2, i2, d1, i1);
        assert forall|o: u32| o != ino implies #[trigger] read_inode(d1, o) == read_inode(d, o) by {
            assert(read_inode(d2, o) == read_inode(da, o)) by {
                if o < INODE_COUNT {
                    assert(taken(da, p));
                    lemma_inode_apart(da, o, p);
                    assert(read_at(d2, inode_block(o)) == read_at(da, inode_block(o)));
                }
            }
        }
    }
}

/// What is written to an open file reaches that file and no other: its data
/// stands behind what it held, no other inode changes, nor any other file's
/// bytes, all paths lead where they led, and the volume stays in order. The
/// descriptor must hold the file's inode as it is on the device.
#[verifier::spinoff_prover]
#[verifier::rlimit(30)]
pub proof fn law_a_write_reaches_one_file(fs: FsView, fd: u64, data: Seq<u8>, now: u64)
    requires
        sound_volume(fs.disk),
        fs.fds.len() == MAX_FDS,
        is_open(fs, fd),
        ({
            let f = fs.fds[fd as int]->0;
            &&& read_inode(fs.disk, f.ino_num) == Some(f.inode)
            &&& !f.inode.is(INODE_DIR)
            &&& !f.inode.is(INODE_SYMLINK)
            &&& tail_mapped(fs.disk, f.inode)
            &&& f.inode.size + data.len() <= MAX_FILE
            &&& f.inode.extent_count + extents_needed(data.len()) <= u16::MAX
        }),
        wrote(fs, fd, data, now).1 > 0,
    ensures
        ({
            let d = fs.disk;
            let f = fs.fds[fd as int]->0;
            let after = wrote(fs, fd, data, now).0;
            let g = after.fds[fd as int]->0;
            &&& read_inode(after.disk, f.ino_num) == Some(g.inode)
            &&& extends(d, f.inode, after.disk, g.inode, data)
            &&& tail_mapped(after.disk, g.inode)
            &&& forall|o: u32|
                o != f.ino_num ==> #[trigger] read_inode(after.disk, o) == read_inode(d, o)
            &&& forall|o: u32, pos: u64|
                o != f.ino_num && read_inode(d, o) is Some && !read_inode(d, o)->0.is(
                    INODE_FAST_SYM,
                ) ==> #[trigger] file_byte(after.disk, read_inode(d, o)->0, pos) == file_byte(
                    d,
                    read_inode(d, o)->0,
                    pos,
                )
            &&& leads_on(d, after.disk, None)
            &&& sound_volume(after.disk)
            &&& no_empty_links(d) ==> no_empty_links(after.disk)
        }),
{
    let f = fs.fds[fd as int]->0;
    let stamped = InodeView { mtime: now, ..f.inode };
    let (d1, i1, ok) = append_to_file(fs.disk, f.ino_num, stamped, data, fs.total_blocks);
    assert(ok && wrote(fs, fd, data, now).0.disk == d1);
    assert(wrote(fs, fd, data, now).0.fds[fd as int]->0.inode == i1);
    lemma_stamped_append(fs.disk, f.ino_num, f.inode, data, now, fs.total_blocks);
    lemma_volume_kept(fs.disk, f.ino_num, d1, None);
    lemma_leads_on(fs.disk, f.ino_num, d1, None, seq![], false);
}

/// An append to a file whose time is stamped first.
#[verifier::spinoff_prover]
#[verifier::rlimit(30)]
proof fn lemma_stamped_append(
    d: Blocks,
    ino: u32,
    x: InodeView,
    data: Seq<u8>,
    now: u64,
    total: u32,
)
    requires
        sound_volume(d),
        read_inode(d, ino) == Some(x),
        !x.is(INODE_DIR),
        !x.is(INODE_SYMLINK),
        tail_mapped(d, x),
        x.size + data.len() <= MAX_FILE,
        x.extent_count + extents_needed(data.len()) <= u16::MAX,
        append_to_file(d, ino, InodeView { mtime: now, ..x }, data, total).2,
    ensures
        ({
            let (d1, i1, _) = append_to_file(
                d,
                ino,
                InodeView { mtime: now, ..x },
                data,
                total,
            );
            &&& one_file_changed(d, ino, d1, None)
            &&& read_inode(d1, ino) == Some(i1)
            &&& extends(d, x, d1, i1, data)
            &&& tail_mapped(d1, i1)
        }),
{
    let stamped = InodeView { mtime: now, ..x };
    assert(inode_ok(d, x));
    assert(x.is(INODE_USED));
    lemma_same_map(d, x, stamped);
    lemma_same_owner(d, x, d, stamped);
    assert(healthy(d, stamped));
    assert(tail_mapped(d, stamped)) by {
        assert(resolve_block(d, stamped, logical_of(x.size)) == resolve_block(
            d,
            x,
            logical_of(x.size),
        ));
    }
    let (d1, i1, ok) = append_to_file(d, ino, stamped, data, total);
    law_append_extends_the_file(d, ino, stamped, data, total);
    lemma_append_stays(d, ino, stamped, data, total);
    assert forall|q: u32| taken(d, q) && !owns(d, x, q) implies #[trigger] read_at(d1, q)
        == read_at(d, q) by {
        assert(owns(d, stamped, q) == owns(d, x, q));
    }
    assert forall|q: u32| #[trigger] owns(d1, i1, q) implies owns(d, x, q) || !taken(d, q) by {
        assert(owns(d, stamped, q) == owns(d, x, q));
    }
    assert(confined(d, x, d1, i1));
    assert forall|pos: u64| pos < x.size implies #[trigger] file_byte(d1, i1, pos) == file_byte(
        d,
        x,
        pos,
    ) by {
        assert(resolve_block(d, stamped, logical_of(pos)) == resolve_block(d, x, logical_of(pos)));
        assert(file_byte(d, stamped, pos) == file_byte(d, x, pos));
    }
}

} // verus!
