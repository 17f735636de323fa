//! The on-disk file system: blocks, inodes, directories, paths and files.

use lythos::rfs::dir::{FT_DIR, FT_REG, FT_SYMLINK};
use lythos::rfs::disk::{Block, Disk, BITMAP_BLOCK, BLOCK_SIZE, DATA_START};
use lythos::rfs::file::count_blocks;
use lythos::rfs::inode::{
    parse_inode, serialize_inode, Extent, Inode, INODE_DIR, INODE_FAST_SYM, INODE_SIZE,
    INODE_START, INODE_SYMLINK, INODE_USED,
};
use lythos::rfs::ops::{
    close, create, init, load_file, mkdir, open, read, readdir_path, rename, seek, stat_path,
    unlink, Rfs, Stat, EBADF, EEXIST, EINVAL, EISDIR, EMFILE, ENOENT, ENOMNT, ENOSPC, ENOTDIR,
    MAX_FDS,
};
use lythos::rfs::path::{split_components, split_parent};

fn hole() -> Extent {
    Extent { logical: 0, physical: 0, count: 0, flags: 0 }
}

fn inode(flags: u32, size: u64) -> Inode {
    Inode {
        flags,
        mode: 0o755,
        uid: 3,
        gid: 4,
        nlink: 1,
        size,
        blocks: 0,
        mtime: 0x0102_0304_0506_0708,
        ctime: 9,
        ovfl_block: 0,
        extent_count: 0,
        extents: [hole(), hole(), hole(), hole()],
    }
}

/// A formatted device of `total` blocks with an empty root directory.
fn formatted(total: u32) -> Disk {
    let mut blocks = Vec::new();
    for _ in 0..total {
        blocks.push(Block { data: vec![0u8; BLOCK_SIZE], readable: true, writable: true });
    }
    let mut d = Disk { present: true, blocks };
    let magic = b"RFS_V1\0\0";
    d.blocks[0].data[..8].copy_from_slice(magic);
    d.blocks[0].data[16..20].copy_from_slice(&total.to_le_bytes());
    assert!(d.write_inode(0, &inode(INODE_USED | INODE_DIR, 0)));
    d
}

fn mounted(total: u32) -> Rfs {
    let mut fs = Rfs::new(formatted(total));
    assert!(init(&mut fs));
    fs
}

fn put_file(fs: &mut Rfs, path: &[u8], data: &[u8]) {
    let fd = create(fs, path, 7);
    assert!(fd >= 0);
    assert_eq!(lythos::rfs::ops::write(fs, fd as u64, data, 8), data.len() as i64);
    assert_eq!(close(fs, fd as u64), 0);
}

fn used(d: &Disk, blk: u32) -> bool {
    d.blocks[BITMAP_BLOCK as usize].data[blk as usize / 8] & (1 << (blk % 8)) != 0
}

fn empty_stat() -> Stat {
    Stat { size: 0, flags: 0, mode: 0, uid: 0, gid: 0, nlink: 0, mtime: 0, ctime: 0 }
}

// ── Blocks and inodes ────────────────────────────────────────────────────────

#[test]
fn the_first_free_data_block_is_taken() {
    let mut d = formatted(40);
    assert_eq!(d.alloc_block(40), Some(DATA_START));
    assert_eq!(d.alloc_block(40), Some(DATA_START + 1));
    assert!(used(&d, DATA_START));
    d.free_block(DATA_START);
    assert!(!used(&d, DATA_START));
    assert!(used(&d, DATA_START + 1));
    assert_eq!(d.alloc_block(40), Some(DATA_START));
}

#[test]
fn a_full_device_gives_no_block() {
    let mut d = formatted(36);
    assert_eq!(d.alloc_block(36), Some(34));
    assert_eq!(d.alloc_block(36), Some(35));
    assert_eq!(d.alloc_block(36), None);
}

#[test]
fn metadata_blocks_are_never_freed() {
    let mut d = formatted(40);
    d.blocks[BITMAP_BLOCK as usize].data[0] = 0xFF;
    d.free_block(3);
    assert_eq!(d.blocks[BITMAP_BLOCK as usize].data[0], 0xFF);
    d.free_block(0x8000);
}

#[test]
fn a_faulty_block_is_told() {
    let mut d = formatted(40);
    assert!(d.read_block(40).is_none());
    d.blocks[5].readable = false;
    assert!(d.read_block(5).is_none());
    d.blocks[6].writable = false;
    assert!(!d.write_block(6, vec![1u8; BLOCK_SIZE]));
    assert_eq!(d.blocks[6].data[0], 0);
    d.blocks[BITMAP_BLOCK as usize].writable = false;
    assert_eq!(d.alloc_block(40), None);
}

#[test]
fn an_inode_is_stored_in_its_place() {
    let mut d = formatted(40);
    let mut i = inode(INODE_USED, 0x1122_3344_5566);
    i.extent_count = 1;
    i.extents[0] = Extent { logical: 1, physical: 2, count: 3, flags: 4 };
    assert!(d.write_inode(33, &i));
    let b = &d.blocks[INODE_START as usize + 1].data;
    assert_eq!(b[128], 1);
    assert_eq!(b[128 + 4..128 + 6], [0xED, 0x01]);
    assert_eq!(b[128 + 20..128 + 28], [0x66, 0x55, 0x44, 0x33, 0x22, 0x11, 0, 0]);
    assert_eq!(b[128 + 60], 1);
    assert_eq!(b[128 + 64], 2);
    let r = d.read_inode(33).unwrap();
    assert_eq!(r.size, 0x1122_3344_5566);
    assert_eq!(r.mode, 0o755);
    assert_eq!(r.mtime, 0x0102_0304_0506_0708);
    assert_eq!(r.extents[0], Extent { logical: 1, physical: 2, count: 3, flags: 4 });
    assert_eq!(r.extents[1], hole());
}

#[test]
fn inode_numbers_are_handed_out_from_the_lowest() {
    let mut d = formatted(40);
    assert_eq!(d.alloc_inode(), Some(1));
    assert!(d.write_inode(1, &inode(INODE_USED, 0)));
    assert_eq!(d.alloc_inode(), Some(2));
    assert!(d.free_inode(1));
    assert_eq!(d.alloc_inode(), Some(1));
}

#[test]
fn block_counts_round_up() {
    assert_eq!(count_blocks(0), 0);
    assert_eq!(count_blocks(1), 1);
    assert_eq!(count_blocks(4096), 1);
    assert_eq!(count_blocks(4097), 2);
}

// ── Paths ────────────────────────────────────────────────────────────────────

#[test]
fn paths_are_split_at_slashes() {
    assert_eq!(split_components(b"/a//bc/"), vec![b"a".to_vec(), b"bc".to_vec()]);
    assert_eq!(split_components(b"/"), Vec::<Vec<u8>>::new());
    assert_eq!(split_parent(b"/a/b"), (b"/a".to_vec(), b"b".to_vec()));
    assert_eq!(split_parent(b"/a"), (b"/".to_vec(), b"a".to_vec()));
    assert_eq!(split_parent(b"/a/"), (b"/a".to_vec(), b"".to_vec()));
}

#[test]
fn symlinks_are_followed() {
    let mut fs = mounted(60);
    assert_eq!(mkdir(&mut fs, b"/d", 1), 0);
    put_file(&mut fs, b"/d/f", b"here");
    // A short target lies in the inode's extents.
    let mut fast = inode(INODE_USED | INODE_SYMLINK | INODE_FAST_SYM, 2);
    fast.extents[0].logical = u32::from_le_bytes([b'/', b'd', 0, 0]);
    let ino = fs.disk.alloc_inode().unwrap();
    assert!(fs.disk.write_inode(ino, &fast));
    assert!(fs.disk.add_dir_entry(0, ino, b"l", FT_SYMLINK, 60));
    assert_eq!(load_file(&fs, "/l/f"), Some(b"here".to_vec()));
    // A long one is the file's contents; it may be relative.
    let ino = fs.disk.alloc_inode().unwrap();
    let mut slow = inode(INODE_USED | INODE_SYMLINK, 0);
    assert!(fs.disk.write_inode(ino, &slow));
    assert!(fs.disk.append_to_file(ino, &mut slow, b"l/f", 60));
    assert!(fs.disk.add_dir_entry(0, ino, b"m", FT_SYMLINK, 60));
    assert_eq!(load_file(&fs, "/m"), Some(b"here".to_vec()));
}

#[test]
fn a_symlink_to_itself_leads_nowhere() {
    let mut fs = mounted(60);
    let mut fast = inode(INODE_USED | INODE_SYMLINK | INODE_FAST_SYM, 2);
    fast.extents[0].logical = u32::from_le_bytes([b'/', b'x', 0, 0]);
    assert!(fs.disk.write_inode(1, &fast));
    assert!(fs.disk.add_dir_entry(0, 1, b"x", FT_SYMLINK, 60));
    assert!(fs.disk.resolve_path("/x").is_none());
    assert_eq!(open(&mut fs, b"/x"), ENOENT);
}

// ── Directories ──────────────────────────────────────────────────────────────

#[test]
fn entries_are_found_in_the_order_of_entry() {
    let mut d = formatted(60);
    assert!(d.add_dir_entry(0, 5, b"one", FT_REG, 60));
    assert!(d.add_dir_entry(0, 6, b"three", FT_DIR, 60));
    let root = d.read_inode(0).unwrap();
    // Records are 8 bytes and the name, rounded up to 4.
    assert_eq!(root.size, 12 + 16);
    let b = &d.blocks[DATA_START as usize].data;
    assert_eq!(b[..12], [5, 0, 0, 0, 12, 0, 3, FT_REG, b'o', b'n', b'e', 0]);
    let all = d.scan_dir(&root);
    assert_eq!(all.len(), 2);
    assert_eq!((all[0].ino, all[0].file_type, all[0].name.as_str()), (5, FT_REG, "one"));
    assert_eq!((all[1].ino, all[1].file_type, all[1].name.as_str()), (6, FT_DIR, "three"));
    assert_eq!(d.lookup_in_dir(&root, b"three"), Some(6));
    assert_eq!(d.lookup_in_dir(&root, b"two"), None);
}

#[test]
fn a_removed_entry_leaves_the_others() {
    let mut d = formatted(60);
    assert!(d.add_dir_entry(0, 5, b"aa", FT_REG, 60));
    assert!(d.add_dir_entry(0, 6, b"bb", FT_REG, 60));
    assert!(d.remove_dir_entry(0, b"aa"));
    assert!(!d.remove_dir_entry(0, b"aa"));
    let root = d.read_inode(0).unwrap();
    assert_eq!(d.lookup_in_dir(&root, b"aa"), None);
    assert_eq!(d.lookup_in_dir(&root, b"bb"), Some(6));
    // The freed record is used again.
    assert!(d.add_dir_entry(0, 7, b"cc", FT_REG, 60));
    let root = d.read_inode(0).unwrap();
    assert_eq!(root.size, 24);
    assert_eq!(d.scan_dir(&root)[0].name.as_str(), "cc");
}

#[test]
fn names_have_a_length_limit() {
    let mut d = formatted(60);
    assert!(!d.add_dir_entry(0, 5, b"", FT_REG, 60));
    assert!(!d.add_dir_entry(0, 5, &[b'n'; 256], FT_REG, 60));
    assert!(d.add_dir_entry(0, 5, &[b'n'; 255], FT_REG, 60));
    let root = d.read_inode(0).unwrap();
    assert_eq!(d.lookup_in_dir(&root, &[b'n'; 255]), Some(5));
}

#[test]
fn a_directory_grows_into_new_blocks() {
    let mut d = formatted(60);
    let mut name = [b'0'; 56];
    for k in 0..100u32 {
        name[0] = b'0' + (k / 10) as u8;
        name[1] = b'0' + (k % 10) as u8;
        assert!(d.add_dir_entry(0, k + 1, &name, FT_REG, 60));
    }
    // A record has 64 bytes, so the first block takes 64 of them.
    let root = d.read_inode(0).unwrap();
    assert_eq!(root.size, 6400);
    assert_eq!(d.scan_dir(&root).len(), 100);
    name[0] = b'9';
    name[1] = b'7';
    assert_eq!(d.lookup_in_dir(&root, &name), Some(98));
}

#[test]
fn a_longer_deleted_record_keeps_its_length() {
    let mut d = formatted(60);
    assert!(d.add_dir_entry(0, 5, b"a_rather_long_name", FT_REG, 60));
    assert!(d.add_dir_entry(0, 6, b"bb", FT_REG, 60));
    assert!(d.add_dir_entry(0, 7, b"cc", FT_DIR, 60));
    assert!(d.remove_dir_entry(0, b"a_rather_long_name"));
    assert!(d.add_dir_entry(0, 8, b"x", FT_REG, 60));
    let root = d.read_inode(0).unwrap();
    assert_eq!(root.size, 28 + 12 + 12);
    let b = &d.blocks[DATA_START as usize].data;
    assert_eq!(b[..9], [8, 0, 0, 0, 28, 0, 1, FT_REG, b'x']);
    let all = d.scan_dir(&root);
    let found: Vec<(u32, &str)> = all.iter().map(|e| (e.ino, e.name.as_str())).collect();
    assert_eq!(found, vec![(8, "x"), (6, "bb"), (7, "cc")]);
}

/// A root directory whose first block is used but for its last 8 bytes.
fn nearly_full(d: &mut Disk) {
    for k in 0..63u32 {
        let mut name = [b'0'; 56];
        name[0] = b'0' + (k / 10) as u8;
        name[1] = b'0' + (k % 10) as u8;
        assert!(d.add_dir_entry(0, 900, &name, FT_REG, 60));
    }
    assert!(d.add_dir_entry(0, 901, &[b'l'; 48], FT_REG, 60));
    assert_eq!(d.read_inode(0).unwrap().size, 4088);
}

#[test]
fn a_block_is_filled_up_before_the_directory_grows() {
    let mut d = formatted(60);
    nearly_full(&mut d);
    assert!(d.add_dir_entry(0, 902, b"new", FT_REG, 60));
    let root = d.read_inode(0).unwrap();
    assert_eq!(root.size, 4096 + 12);
    assert_eq!(root.blocks, 2);
    assert_eq!(d.blocks[DATA_START as usize].data[4032 + 4..4032 + 6], [64, 0]);
    let all = d.scan_dir(&root);
    assert_eq!(all.len(), 65);
    assert_eq!(all[63].ino, 901);
    assert_eq!((all[64].ino, all[64].name.as_str()), (902, "new"));
    assert_eq!(d.lookup_in_dir(&root, b"new"), Some(902));
    // The next entry goes behind it.
    assert!(d.add_dir_entry(0, 903, b"next", FT_REG, 60));
    let root = d.read_inode(0).unwrap();
    assert_eq!(root.size, 4096 + 24);
    assert_eq!(d.lookup_in_dir(&root, b"next"), Some(903));
    assert_eq!(d.lookup_in_dir(&root, &[b'l'; 48]), Some(901));
}

#[test]
fn a_full_device_leaves_the_directory_as_it_was() {
    let mut d = formatted(60);
    nearly_full(&mut d);
    let before = d.blocks[DATA_START as usize].data.clone();
    // No block is left within the volume.
    assert!(!d.add_dir_entry(0, 902, b"new", FT_REG, 35));
    assert_eq!(d.blocks[DATA_START as usize].data, before);
    assert_eq!(d.read_inode(0).unwrap().size, 4088);
}

#[test]
fn what_is_made_where_a_directory_grows_is_found() {
    let mut fs = mounted(60);
    nearly_full(&mut fs.disk);
    assert_eq!(mkdir(&mut fs, b"/sub", 5), 0);
    let (ino, i) = fs.disk.resolve_path("/sub").unwrap();
    assert_eq!((ino, i.flags, i.mode, i.size, i.nlink), (1, INODE_USED | INODE_DIR, 0o755, 0, 1));
    assert_eq!(mkdir(&mut fs, b"/sub", 6), EEXIST);
    put_file(&mut fs, b"/sub/f", b"moved");
    assert_eq!(rename(&mut fs, b"/sub/f", b"/g"), 0);
    assert_eq!(load_file(&fs, "/g"), Some(b"moved".to_vec()));
    assert_eq!(load_file(&fs, "/sub/f"), None);
    assert_eq!(rename(&mut fs, b"/g", b"/a_name_of_another_length"), 0);
    assert_eq!(load_file(&fs, "/a_name_of_another_length"), Some(b"moved".to_vec()));
    assert!(fs.disk.resolve_path("/g").is_none());
    assert_eq!(fs.disk.resolve_path("/sub").unwrap().0, ino);
    let root = fs.disk.read_inode(0).unwrap();
    assert_eq!(fs.disk.scan_dir(&root).len(), 64 + 2);
    assert!(fs.disk.present);
}

#[test]
fn a_directory_that_is_not_made_takes_no_inode() {
    let mut fs = mounted(60);
    nearly_full(&mut fs.disk);
    fs.total_blocks = 35;
    assert_eq!(mkdir(&mut fs, b"/sub", 5), ENOSPC);
    assert!(fs.disk.resolve_path("/sub").is_none());
    assert_eq!(fs.disk.alloc_inode(), Some(1));
    assert!(!used(&fs.disk, DATA_START + 1));
}

// ── Files ────────────────────────────────────────────────────────────────────

#[test]
fn only_a_formatted_device_is_mounted() {
    let mut fs = Rfs::new(formatted(40));
    assert_eq!(open(&mut fs, b"/x"), ENOMNT);
    assert_eq!(create(&mut fs, b"/x", 0), ENOMNT);
    assert_eq!(mkdir(&mut fs, b"/x", 0), ENOMNT);
    assert_eq!(unlink(&mut fs, b"/x"), ENOMNT);
    assert_eq!(rename(&mut fs, b"/x", b"/y"), ENOMNT);
    assert_eq!(seek(&mut fs, 0, 0, 0), ENOMNT);
    assert_eq!(lythos::rfs::ops::write(&mut fs, 0, b"x", 0), ENOMNT);
    assert_eq!(read(&mut fs, 0, &mut [0u8; 1]), ENOMNT);
    fs.disk.blocks[0].data[3] = b'-';
    assert!(!init(&mut fs));
    fs.disk.blocks[0].data[3] = b'_';
    fs.disk.present = false;
    assert!(!init(&mut fs));
    fs.disk.present = true;
    assert!(init(&mut fs));
    assert_eq!(fs.total_blocks, 40);
}

#[test]
fn what_was_written_is_read() {
    let mut fs = mounted(80);
    let mut data = Vec::new();
    for k in 0..10000u32 {
        data.push((k % 251) as u8);
    }
    let fd = create(&mut fs, b"/big", 11) as u64;
    assert_eq!(lythos::rfs::ops::write(&mut fs, fd, &data[..3000], 12), 3000);
    assert_eq!(lythos::rfs::ops::write(&mut fs, fd, &data[3000..], 13), 7000);
    assert_eq!(close(&mut fs, fd), 0);
    assert_eq!(load_file(&fs, "/big"), Some(data.clone()));
    let fd = open(&mut fs, b"/big") as u64;
    let mut buf = [0u8; 5000];
    assert_eq!(read(&mut fs, fd, &mut buf), 5000);
    assert_eq!(buf[..], data[..5000]);
    assert_eq!(read(&mut fs, fd, &mut buf), 5000);
    assert_eq!(buf[..], data[5000..]);
    assert_eq!(read(&mut fs, fd, &mut buf), 0);
    let mut st = empty_stat();
    assert!(stat_path(&fs, b"/big", &mut st));
    assert_eq!((st.size, st.mode, st.mtime, st.ctime), (10000, 0o644, 13, 11));
}

#[test]
fn only_a_created_file_is_written() {
    let mut fs = mounted(60);
    put_file(&mut fs, b"/f", b"abc");
    let fd = open(&mut fs, b"/f") as u64;
    assert_eq!(lythos::rfs::ops::write(&mut fs, fd, b"x", 0), EBADF);
    assert_eq!(lythos::rfs::ops::write(&mut fs, 63, b"x", 0), EBADF);
    assert_eq!(lythos::rfs::ops::write(&mut fs, 64, b"x", 0), EBADF);
    let fd = create(&mut fs, b"/g", 0) as u64;
    assert_eq!(lythos::rfs::ops::write(&mut fs, fd, b"", 0), 0);
}

#[test]
fn offsets_are_moved() {
    let mut fs = mounted(60);
    put_file(&mut fs, b"/f", b"abcdef");
    let fd = open(&mut fs, b"/f") as u64;
    let mut one = [0u8; 1];
    assert_eq!(seek(&mut fs, fd, 2, 0), 2);
    assert_eq!(read(&mut fs, fd, &mut one), 1);
    assert_eq!(one[0], b'c');
    assert_eq!(seek(&mut fs, fd, -2, 1), 1);
    assert_eq!(seek(&mut fs, fd, -1, 2), 5);
    assert_eq!(read(&mut fs, fd, &mut one), 1);
    assert_eq!(one[0], b'f');
    assert_eq!(seek(&mut fs, fd, 100, 0), 100);
    assert_eq!(read(&mut fs, fd, &mut one), 0);
    assert_eq!(seek(&mut fs, fd, -1, 0), EINVAL);
    assert_eq!(seek(&mut fs, fd, 0, 3), EINVAL);
    assert_eq!(seek(&mut fs, fd + 1, 0, 0), EBADF);
}

#[test]
fn names_that_cannot_be_opened_are_refused() {
    let mut fs = mounted(60);
    assert_eq!(mkdir(&mut fs, b"/d", 1), 0);
    put_file(&mut fs, b"/f", b"x");
    assert_eq!(open(&mut fs, b"/none"), ENOENT);
    assert_eq!(open(&mut fs, b"/d"), EISDIR);
    assert_eq!(open(&mut fs, b"/\xFF"), EINVAL);
    assert_eq!(create(&mut fs, b"/f", 1), EEXIST);
    assert_eq!(create(&mut fs, b"", 1), EINVAL);
    assert_eq!(create(&mut fs, b"/new/", 1), EINVAL);
    assert_eq!(create(&mut fs, b"/none/x", 1), ENOENT);
    assert_eq!(create(&mut fs, b"/f/x", 1), ENOTDIR);
    assert_eq!(mkdir(&mut fs, b"/d", 1), EEXIST);
    assert_eq!(close(&mut fs, 5), EBADF);
    assert!(readdir_path(&fs, b"/f").is_none());
    assert!(readdir_path(&fs, b"/none").is_none());
    assert_eq!(readdir_path(&fs, b"/").unwrap().len(), 2);
    assert!(load_file(&fs, "/d").is_none());
    let mut st = empty_stat();
    assert!(!stat_path(&fs, b"/none", &mut st));
}

#[test]
fn descriptors_run_out() {
    let mut fs = mounted(60);
    put_file(&mut fs, b"/f", b"x");
    for k in 0..MAX_FDS {
        assert_eq!(open(&mut fs, b"/f"), k as i64);
    }
    assert_eq!(open(&mut fs, b"/f"), EMFILE);
    assert_eq!(close(&mut fs, 17), 0);
    assert_eq!(open(&mut fs, b"/f"), 17);
}

#[test]
fn space_runs_out() {
    let mut fs = mounted(37);
    let fd = create(&mut fs, b"/f", 1) as u64;
    // One block is the directory's; two are left.
    assert_eq!(lythos::rfs::ops::write(&mut fs, fd, &[1u8; 8192], 1), 8192);
    assert_eq!(lythos::rfs::ops::write(&mut fs, fd, &[1u8; 1], 1), ENOSPC);
}

#[test]
fn a_file_moves_between_directories() {
    let mut fs = mounted(60);
    assert_eq!(mkdir(&mut fs, b"/d", 1), 0);
    put_file(&mut fs, b"/f", b"text");
    put_file(&mut fs, b"/g", b"else");
    assert_eq!(rename(&mut fs, b"/f", b"/g"), EEXIST);
    assert_eq!(rename(&mut fs, b"/d", b"/e"), EISDIR);
    assert_eq!(rename(&mut fs, b"/none", b"/e"), ENOENT);
    assert_eq!(rename(&mut fs, b"/f", b"/none/f"), ENOENT);
    assert_eq!(rename(&mut fs, b"/f", b"/g/f"), ENOTDIR);
    assert_eq!(rename(&mut fs, b"/f", b""), EINVAL);
    assert_eq!(rename(&mut fs, b"/f", b"/d/h"), 0);
    assert_eq!(load_file(&fs, "/d/h"), Some(b"text".to_vec()));
    assert_eq!(open(&mut fs, b"/f"), ENOENT);
    let d = readdir_path(&fs, b"/d").unwrap();
    assert_eq!(d.len(), 1);
    assert_eq!(d[0].name.as_str(), "h");
}

#[test]
fn an_unlinked_file_gives_its_blocks_back() {
    let mut fs = mounted(60);
    put_file(&mut fs, b"/keep", b"k");
    put_file(&mut fs, b"/f", &[7u8; 9000]);
    let ino = fs.disk.resolve_path("/f").unwrap().0;
    assert!(used(&fs.disk, 36));
    assert!(used(&fs.disk, 38));
    assert_eq!(unlink(&mut fs, b"/f"), 0);
    assert!(used(&fs.disk, 35));
    assert!(!used(&fs.disk, 36));
    assert!(!used(&fs.disk, 38));
    assert_eq!(fs.disk.alloc_inode(), Some(ino));
    assert_eq!(unlink(&mut fs, b"/f"), ENOENT);
    assert_eq!(unlink(&mut fs, b"/"), EINVAL);
    assert_eq!(unlink(&mut fs, b"/."), EINVAL);
    assert_eq!(mkdir(&mut fs, b"/d", 1), 0);
    assert_eq!(unlink(&mut fs, b"/d"), EISDIR);
}

#[test]
fn extents_spill_into_an_overflow_block() {
    let mut fs = mounted(80);
    let a = create(&mut fs, b"/a", 1) as u64;
    let b = create(&mut fs, b"/b", 1) as u64;
    // Two files that grow in turn get one extent for each block.
    for k in 0..7u8 {
        assert_eq!(lythos::rfs::ops::write(&mut fs, a, &[k; 4096], 1), 4096);
        assert_eq!(lythos::rfs::ops::write(&mut fs, b, &[k + 100; 4096], 1), 4096);
    }
    let (_, inode) = fs.disk.resolve_path("/a").unwrap();
    assert_eq!(inode.extent_count, 7);
    assert!(inode.ovfl_block != 0);
    let data = load_file(&fs, "/a").unwrap();
    assert_eq!(data.len(), 7 * 4096);
    for k in 0..7usize {
        assert_eq!(data[k * 4096], k as u8);
        assert_eq!(data[k * 4096 + 4095], k as u8);
    }
    assert_eq!(fs.disk.resolve_block(&inode, 7), None);
    assert_eq!(unlink(&mut fs, b"/a"), 0);
    assert!(!used(&fs.disk, inode.ovfl_block));
}

#[test]
fn an_unlinked_file_is_gone_and_the_others_stay() {
    let mut fs = mounted(60);
    assert_eq!(mkdir(&mut fs, b"/d", 1), 0);
    put_file(&mut fs, b"/d/a", &[1u8; 5000]);
    put_file(&mut fs, b"/d/b", b"kept");
    put_file(&mut fs, b"/c", b"also");
    let a = fs.disk.resolve_path("/d/a").unwrap().0;
    let b = fs.disk.resolve_path("/d/b").unwrap().0;
    let free = (DATA_START..60).filter(|q| !used(&fs.disk, *q)).count();
    assert_eq!(unlink(&mut fs, b"/d/a"), 0);
    assert!(fs.disk.resolve_path("/d/a").is_none());
    assert!(fs.disk.read_inode(a).is_none());
    assert_eq!((DATA_START..60).filter(|q| !used(&fs.disk, *q)).count(), free + 2);
    assert_eq!(fs.disk.resolve_path("/d/b").unwrap().0, b);
    assert_eq!(load_file(&fs, "/d/b"), Some(b"kept".to_vec()));
    assert_eq!(load_file(&fs, "/c"), Some(b"also".to_vec()));
}

#[test]
fn a_write_reaches_one_file_only() {
    let mut fs = mounted(60);
    put_file(&mut fs, b"/a", &[1u8; 4000]);
    put_file(&mut fs, b"/b", &[2u8; 100]);
    let fd = create(&mut fs, b"/c", 3) as u64;
    assert_eq!(lythos::rfs::ops::write(&mut fs, fd, &[3u8; 6000], 4), 6000);
    assert_eq!(load_file(&fs, "/a"), Some(vec![1u8; 4000]));
    assert_eq!(load_file(&fs, "/b"), Some(vec![2u8; 100]));
    assert_eq!(load_file(&fs, "/c"), Some(vec![3u8; 6000]));
}

#[test]
fn an_inode_survives_its_bytes() {
    let mut i = inode(INODE_USED | INODE_DIR, 0xFFFF_FFFF_FFFF);
    i.blocks = 0x0101_0202_0303_0404;
    i.ovfl_block = 77;
    i.extent_count = 0xABCD;
    i.extents[3] = Extent { logical: 9, physical: 8, count: 7, flags: 6 };
    let raw = serialize_inode(&i);
    assert_eq!(raw.len(), INODE_SIZE);
    let back = parse_inode(&raw, 0);
    assert_eq!((back.flags, back.mode, back.uid, back.gid), (3, 0o755, 3, 4));
    assert_eq!((back.nlink, back.size, back.blocks), (1, i.size, i.blocks));
    assert_eq!((back.mtime, back.ctime), (i.mtime, 9));
    assert_eq!((back.ovfl_block, back.extent_count), (77, 0xABCD));
    assert_eq!(back.extents[3], i.extents[3]);
    assert_eq!(serialize_inode(&back), raw);
}

#[test]
fn a_closed_descriptor_is_refused_by_every_call() {
    let mut fs = mounted(60);
    put_file(&mut fs, b"/a", b"abc");
    let other = open(&mut fs, b"/a") as u64;
    let fd = create(&mut fs, b"/b", 1) as u64;
    let mut two = [0u8; 2];
    assert_eq!(read(&mut fs, other, &mut two), 2);
    assert_eq!(close(&mut fs, fd), 0);
    assert_eq!(close(&mut fs, fd), EBADF);
    let mut buf = [7u8; 4];
    assert_eq!(read(&mut fs, fd, &mut buf), EBADF);
    assert_eq!(buf, [7u8; 4]);
    assert_eq!(lythos::rfs::ops::write(&mut fs, fd, b"x", 2), EBADF);
    assert_eq!(seek(&mut fs, fd, 0, 0), EBADF);
    assert_eq!(close(&mut fs, MAX_FDS as u64), EBADF);
    // The other descriptor keeps its file and its offset.
    assert_eq!(read(&mut fs, other, &mut buf), 1);
    assert_eq!(buf[0], b'c');
}
