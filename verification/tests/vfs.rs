//! Mounts, paths through symlinks, descriptors and the store.

use lythos::pmm::{Frames, PhysAddr};
use lythos::store::{settle_removal, top_component};
use lythos::vfs::{
    clock_ns, close_answer, errno_fs, errno_mount, frame_in_direct_map, fresh_store, fs_err,
    join_path, load_target, mount, mount_or_format_store, mounted, obtain_store_dek, ram_volume,
    reconstruct_seals, removal_fault, root_file_inode, root_plan, split_parent_name,
    store_entry, store_key_minted, unlock_step, unmount, unmounted, DirEntry, FsError, InodeMeta,
    KeyStep, MountError, MountPlan, MountState, RamDisk, Removal, RemoveOp, RenameOutcome,
    RenamePlan, RenameSteps, RootPlan, Stat, Steps, StoreRemoval, StoreStep, UnlockStep, Vfs,
    VirtioDisk, VolumeEntry, VolumeError, Walk, EBADF, EEXIST, EINVAL, EIO, EISDIR, EMFILE,
    EMOUNTED, ENOENT, ENOMNT, ENOSPC, ENOTDIR, ENOTEMPTY, EROFS, FT_DIR, FT_REG, FT_SYMLINK,
    INODE_DIR, INODE_SYMLINK, INODE_USED, MAX_FDS, MAX_LOAD,
};

fn fine() -> Steps {
    Steps {
        resolved: Ok(()),
        routed: Ok(()),
        guarded: Ok(()),
        present: true,
        done: Ok(()),
        committed: Ok(()),
    }
}

fn file_meta(ino: u64, size: u64) -> InodeMeta {
    InodeMeta {
        ino,
        size,
        is_dir: false,
        is_symlink: false,
        mode: 0o100644,
        uid: 10,
        gid: 20,
        nlink: 1,
        mtime: 5_999_999,
        ctime: 1_000_000,
    }
}

fn dir_meta(ino: u64) -> InodeMeta {
    InodeMeta { is_dir: true, ..file_meta(ino, 0) }
}

fn entry(name: &[u8], file_type: u8) -> DirEntry {
    DirEntry { ino: 1, file_type, name: name.to_vec() }
}

fn opened(v: &mut Vfs, ino: u64, size: u64) -> u64 {
    let fd = v.open(b"/f", &fine(), Ok(file_meta(ino, size)), Ok(()), 1, None);
    assert!(fd >= 0);
    fd as u64
}

#[test]
fn refusals_have_numbers() {
    assert_eq!(errno_fs(FsError::NotFound), ENOENT);
    assert_eq!(errno_fs(FsError::Exists), EEXIST);
    assert_eq!(errno_fs(FsError::NotDir), ENOTDIR);
    assert_eq!(errno_fs(FsError::IsDir), EISDIR);
    assert_eq!(errno_fs(FsError::NoSpace), ENOSPC);
    assert_eq!(errno_fs(FsError::Invalid), EINVAL);
    assert_eq!(errno_fs(FsError::NotEmpty), ENOTEMPTY);
    assert_eq!(errno_fs(FsError::ReadOnly), EROFS);
    assert_eq!(errno_fs(FsError::Device), EIO);
    assert_eq!(errno_mount(MountError::Invalid), EINVAL);
    assert_eq!(errno_mount(MountError::AlreadyMounted), EMOUNTED);
    assert_eq!(errno_mount(MountError::NoSuchPath), ENOENT);
    assert_eq!(errno_mount(MountError::NotDir), ENOTDIR);
    assert_eq!(errno_mount(MountError::NotMounted), ENOMNT);
    assert_eq!(errno_mount(MountError::Backend(FsError::ReadOnly)), EROFS);
    assert!(matches!(fs_err(VolumeError::GenExhausted), FsError::NoSpace));
    assert!(matches!(fs_err(VolumeError::Perm), FsError::Invalid));
    assert!(matches!(fs_err(VolumeError::Corrupt), FsError::Device));
    assert!(matches!(fs_err(VolumeError::NotEmpty), FsError::NotEmpty));
    assert_eq!((EROFS, EISDIR, ENOTEMPTY, EIO), (-14, -15, -16, -17));
}

#[test]
fn inodes_are_shown_in_milliseconds() {
    let s = Stat::from_meta(&file_meta(1, 77));
    assert_eq!((s.size, s.flags, s.mode), (77, INODE_USED, 0o644));
    assert_eq!((s.uid, s.gid, s.nlink, s.mtime, s.ctime), (10, 20, 1, 5, 1));
    assert_eq!(Stat::from_meta(&dir_meta(1)).flags, INODE_USED | INODE_DIR);
    let link = InodeMeta { is_symlink: true, ..file_meta(1, 3) };
    assert_eq!(Stat::from_meta(&link).flags, INODE_USED | INODE_SYMLINK);
    assert_eq!(clock_ns(3), 3_000_000);
    assert_eq!(load_target(&file_meta(1, 0)), None);
    assert_eq!(load_target(&file_meta(1, MAX_LOAD)), Some((1, 0, MAX_LOAD)));
    assert_eq!(load_target(&file_meta(1, MAX_LOAD + 1)), None);
    assert_eq!(load_target(&dir_meta(1)), None);
}

// ── Paths ────────────────────────────────────────────────────────────────────

#[test]
fn a_plain_path_is_walked_to_itself() {
    let mut w = Walk::new(b"//a/b/");
    assert_eq!(w.result(), b"/".to_vec());
    assert_eq!(w.pending(), Some(b"/a".to_vec()));
    w.pass();
    assert_eq!(w.pending(), Some(b"/a/b".to_vec()));
    w.pass();
    assert_eq!(w.pending(), None);
    assert_eq!(w.result(), b"/a/b".to_vec());
}

#[test]
fn a_symlink_redirects_the_walk() {
    let mut w = Walk::new(b"/a/l/x");
    w.pass();
    assert_eq!(w.pending(), Some(b"/a/l".to_vec()));
    // A relative target starts where the symlink lies.
    assert!(w.follow(b"c/d"));
    assert_eq!(w.pending(), Some(b"/a".to_vec()));
    w.pass();
    w.pass();
    w.pass();
    assert_eq!(w.pending(), Some(b"/a/c/d/x".to_vec()));
    // One from the root does not.
    assert!(w.follow(b"/y"));
    w.pass();
    assert_eq!(w.pending(), None);
    assert_eq!(w.result(), b"/y".to_vec());
}

#[test]
fn symlinks_are_followed_eight_times() {
    let mut w = Walk::new(b"/l");
    for _ in 0..8 {
        assert!(w.follow(b"/l"));
    }
    assert!(!w.follow(b"/l"));
    assert_eq!(w.pending(), Some(b"/l".to_vec()));
}

#[test]
fn paths_are_taken_apart_and_joined() {
    assert_eq!(split_parent_name(b"/a"), Some((b"/".to_vec(), b"a".to_vec())));
    assert_eq!(split_parent_name(b"/a/b"), Some((b"/a".to_vec(), b"b".to_vec())));
    assert_eq!(split_parent_name(b"/a/"), None);
    assert_eq!(split_parent_name(b"a"), None);
    assert_eq!(split_parent_name(b""), None);
    assert_eq!(join_path(b"/", b"x"), b"/x".to_vec());
    assert_eq!(join_path(b"/a", b"x"), b"/a/x".to_vec());
    assert_eq!(store_entry(b"/pkg"), Some(b"pkg".to_vec()));
    assert_eq!(store_entry(b"/pkg/bin"), None);
    assert_eq!(store_entry(b"/"), None);
}

// ── Volumes ──────────────────────────────────────────────────────────────────

#[test]
fn disks_are_counted_in_blocks() {
    let d = VirtioDisk::new(1, 8 * 100 + 7);
    assert_eq!(d.total_blocks(), 100);
    assert_eq!(d.first_sector(3), 24);
    assert_eq!(d.dev_index, 1);
}

#[test]
fn a_ram_disk_takes_and_returns_its_frames() {
    let mut frames = Frames::init_from_limine(&[(0, 0x10_000, 0)], 0, 0x2000);
    let free = frames.free_frame_count();
    let d = RamDisk::new(&mut frames, 4).unwrap();
    assert_eq!(d.total_blocks(), 4);
    assert_eq!(d.frame_of(0), Some(PhysAddr(0x2000)));
    assert_eq!(d.frame_of(3), Some(PhysAddr(0x5000)));
    assert_eq!(d.frame_of(4), None);
    assert_eq!(frames.free_frame_count(), free - 4);
    d.release(&mut frames);
    assert_eq!(frames.free_frame_count(), free);
    assert!(RamDisk::new(&mut frames, 1000).is_none());
    assert_eq!(frames.free_frame_count(), free);
}

#[test]
fn a_ram_disk_lies_in_the_direct_map() {
    assert!(frame_in_direct_map(0x3FFF_F000));
    assert!(!frame_in_direct_map(0x4000_0000));
    assert!(!frame_in_direct_map(0x10));
    let mut frames = Frames::init_from_limine(&[(0x3FFF_F000, 0x2000, 0)], 0, 0);
    assert!(RamDisk::new(&mut frames, 2).is_none());
    assert_eq!(frames.free_frame_count(), 2);
    assert!(RamDisk::new(&mut frames, 1).is_some());
}

#[test]
fn mounts_are_planned() {
    let st = MountState {
        ready: true,
        taken: false,
        disk_sectors: Some(4096),
        root_encrypted: true,
    };
    assert!(matches!(mount(&st, 0, 0), MountPlan::Ram { store: false }));
    assert!(matches!(mount(&st, 0, 1), MountPlan::Ram { store: true }));
    assert!(matches!(
        mount(&st, 1, 1),
        MountPlan::Disk { blocks: 512, encrypted: true, store: true }
    ));
    assert!(matches!(mount(&st, 2, 0), MountPlan::Refuse(EINVAL)));
    assert!(matches!(mount(&st, 0, 2), MountPlan::Refuse(EINVAL)));
    let none = MountState { disk_sectors: None, ..st };
    assert!(matches!(mount(&none, 1, 0), MountPlan::Refuse(EIO)));
    let small = MountState { disk_sectors: Some(7), ..st };
    assert!(matches!(mount(&small, 1, 0), MountPlan::Refuse(EIO)));
    let taken = MountState { taken: true, ..st };
    assert!(matches!(mount(&taken, 0, 0), MountPlan::Refuse(EMOUNTED)));
    let unready = MountState { ready: false, ..st };
    assert!(matches!(mount(&unready, 0, 9), MountPlan::Refuse(ENOMNT)));
}

#[test]
fn the_root_is_planned() {
    assert!(matches!(root_plan(None, None), RootPlan::Absent));
    assert!(matches!(root_plan(Some(80), Some(false)), RootPlan::Plain { blocks: 10 }));
    assert!(matches!(root_plan(Some(80), Some(true)), RootPlan::Encrypted { blocks: 10 }));
    assert_eq!(ram_volume(false, true, true), Some(ENOSPC));
    assert_eq!(ram_volume(true, false, true), Some(EIO));
    assert_eq!(ram_volume(true, true, false), Some(EIO));
    assert_eq!(ram_volume(true, true, true), None);
    assert_eq!(root_file_inode(Ok(5), Err(FsError::Device)), Some(5));
    assert_eq!(root_file_inode(Err(FsError::Exists), Ok(6)), Some(6));
    assert_eq!(root_file_inode(Err(FsError::NoSpace), Ok(6)), None);
    assert_eq!(root_file_inode(Err(FsError::Exists), Err(FsError::Device)), None);
}

#[test]
fn only_a_blank_store_is_formatted() {
    assert!(matches!(mount_or_format_store(Ok(())), StoreStep::Use));
    assert!(matches!(mount_or_format_store(Err(VolumeError::NoSuperblock)), StoreStep::Format));
    assert!(matches!(mount_or_format_store(Err(VolumeError::BadHeader)), StoreStep::Format));
    assert!(matches!(mount_or_format_store(Err(VolumeError::Auth)), StoreStep::Fail(EIO)));
    assert!(matches!(mount_or_format_store(Err(VolumeError::Corrupt)), StoreStep::Fail(EIO)));
    assert!(matches!(obtain_store_dek(Some(32), true), KeyStep::Use));
    assert!(matches!(obtain_store_dek(Some(31), false), KeyStep::Fail(EIO)));
    assert!(matches!(obtain_store_dek(None, true), KeyStep::Fail(EIO)));
    assert!(matches!(obtain_store_dek(None, false), KeyStep::Mint));
    assert_eq!(store_key_minted(true, true), None);
    assert_eq!(store_key_minted(false, true), Some(EIO));
    assert_eq!(store_key_minted(true, false), Some(EIO));
    assert_eq!(fresh_store(true, true), None);
    assert_eq!(fresh_store(true, false), Some(EIO));
    let v = Vfs::init(true);
    assert!(v.write_root_file(&fine(), Ok(3), Err(FsError::NotFound)));
    assert!(v.write_root_file(&fine(), Err(FsError::Exists), Ok(3)));
    assert!(!v.write_root_file(&fine(), Err(FsError::NoSpace), Ok(3)));
    let torn = Steps { committed: Err(FsError::Device), ..fine() };
    assert!(!v.write_root_file(&torn, Ok(3), Ok(3)));
}

#[test]
fn a_passphrase_is_asked_for_three_times() {
    assert!(matches!(unlock_step(1, false, false), UnlockStep::Retry));
    assert!(matches!(unlock_step(2, false, false), UnlockStep::Retry));
    assert!(matches!(unlock_step(3, false, false), UnlockStep::Abort));
    assert!(matches!(unlock_step(3, true, true), UnlockStep::Mounted));
    assert!(matches!(unlock_step(1, true, false), UnlockStep::Abort));
}

#[test]
fn seals_are_found_again() {
    let names = reconstruct_seals(&vec![
        entry(b"pkg-1", FT_DIR),
        entry(b".staging", FT_DIR),
        entry(b"note", FT_REG),
        entry(b"pkg-2", FT_DIR),
    ]);
    assert_eq!(names, vec![b"pkg-1".to_vec(), b"pkg-2".to_vec()]);
}

#[test]
fn the_root_stays_mounted() {
    assert_eq!(unmount(false, false), Some(ENOMNT));
    assert_eq!(unmount(true, true), Some(EINVAL));
    assert_eq!(unmount(true, false), None);
    assert_eq!(mounted(None, Ok(())), 0);
    assert_eq!(mounted(Some(EIO), Ok(())), EIO);
    assert_eq!(mounted(None, Err(MountError::NotDir)), ENOTDIR);
    assert_eq!(unmounted(Ok(()), false), (0, true));
    assert_eq!(unmounted(Ok(()), true), (0, false));
    assert_eq!(unmounted(Err(MountError::NotMounted), false), (ENOMNT, false));
}

// ── Descriptors ──────────────────────────────────────────────────────────────

#[test]
fn reads_and_writes_move_a_descriptor() {
    let mut v = Vfs::init(true);
    let fd = opened(&mut v, 9, 100);
    assert_eq!(v.read_target(fd), Ok((1, 9, 0)));
    assert_eq!(v.read(fd, true, Ok(40)), 40);
    assert_eq!(v.read_target(fd), Ok((1, 9, 40)));
    assert_eq!(v.read(fd, true, Err(FsError::Device)), EIO);
    assert_eq!(v.read_target(fd), Ok((1, 9, 40)));
    assert_eq!(v.write_target(fd, false, 1), Err(EBADF));
    let w = v.create(b"/g", &fine(), Ok(12), Ok(()), 2, Some(b"pkg".to_vec()));
    assert_eq!(w, 1);
    assert_eq!(v.write_target(1, false, 0), Ok(None));
    assert_eq!(v.write_target(1, false, 5), Ok(Some((2, 12, 0))));
    assert_eq!(v.write(1, false, 5, true, Ok(()), Ok(())), 5);
    assert_eq!(v.write_target(1, false, 5), Ok(Some((2, 12, 5))));
    // The offset follows the end of the file.
    assert_eq!(v.read_target(1), Ok((2, 12, 5)));
    assert_eq!(v.write(1, false, 5, true, Err(FsError::NoSpace), Ok(())), ENOSPC);
    assert_eq!(v.write(1, false, 5, true, Ok(()), Err(FsError::Device)), EIO);
    assert_eq!(v.write(1, false, 5, false, Ok(()), Ok(())), EBADF);
    assert_eq!(v.write(1, true, 5, true, Ok(()), Ok(())), EROFS);
    assert_eq!(v.write(1, false, 0, true, Ok(()), Ok(())), 0);
    assert_eq!(v.write(0, false, 5, true, Ok(()), Ok(())), EBADF);
    assert_eq!(v.read(1, false, Ok(1)), EBADF);
    assert_eq!(v.find(1).unwrap().size, 5);
    assert_eq!(v.write_target(1, true, 5), Err(EROFS));
}

#[test]
fn descriptors_are_opened_and_closed() {
    let mut v = Vfs::init(true);
    for k in 0..MAX_FDS as u64 {
        assert_eq!(opened(&mut v, k, 1), k);
    }
    assert_eq!(v.open(b"/f", &fine(), Ok(file_meta(1, 1)), Ok(()), 1, None), EMFILE);
    let f = v.close(7).unwrap();
    assert_eq!(f.ino, 7);
    assert!(matches!(v.close(7), Err(EBADF)));
    assert!(matches!(v.close(64), Err(EBADF)));
    assert_eq!(opened(&mut v, 99, 1), 7);
    assert_eq!(close_answer(None), 0);
    assert_eq!(close_answer(Some(Ok(()))), 0);
    assert_eq!(close_answer(Some(Err(FsError::Device))), EIO);
    let mut v = Vfs::init(false);
    assert_eq!(v.open(b"/f", &fine(), Ok(file_meta(1, 1)), Ok(()), 1, None), ENOMNT);
    assert_eq!(v.read_target(0), Err(ENOMNT));
}

#[test]
fn seeking_stays_in_range() {
    let mut v = Vfs::init(true);
    let fd = opened(&mut v, 9, 100);
    assert_eq!(v.seek(fd, 30, 0), 30);
    assert_eq!(v.seek(fd, 5, 1), 35);
    assert_eq!(v.seek(fd, -10, 2), 90);
    assert_eq!(v.read_target(fd), Ok((1, 9, 90)));
    assert_eq!(v.seek(fd, -1, 0), EINVAL);
    assert_eq!(v.seek(fd, -101, 2), EINVAL);
    assert_eq!(v.seek(fd, i64::MAX, 1), EINVAL);
    assert_eq!(v.seek(fd, 0, 3), EINVAL);
    assert_eq!(v.seek(9, 0, 0), EBADF);
    assert_eq!(v.read_target(fd), Ok((1, 9, 90)));
}

#[test]
fn a_sealed_name_reaches_open_files() {
    let mut v = Vfs::init(true);
    assert_eq!(v.create(b"/a", &fine(), Ok(1), Ok(()), 2, Some(b".new".to_vec())), 0);
    assert_eq!(v.create(b"/b", &fine(), Ok(2), Ok(()), 3, Some(b".new".to_vec())), 1);
    v.retarget(2, b".new", b"pkg");
    assert_eq!(v.close(0).unwrap().top, Some(b"pkg".to_vec()));
    assert_eq!(v.close(1).unwrap().top, Some(b".new".to_vec()));
}

#[test]
fn what_cannot_be_opened_is_refused() {
    let mut v = Vfs::init(true);
    assert_eq!(v.open(b"/d", &fine(), Ok(dir_meta(1)), Ok(()), 1, None), EISDIR);
    assert_eq!(v.open(b"/\xFE", &fine(), Ok(file_meta(1, 1)), Ok(()), 1, None), EINVAL);
    assert_eq!(v.open(b"/x", &fine(), Err(FsError::NotFound), Ok(()), 1, None), ENOENT);
    let pin: Result<(), FsError> = Err(FsError::Device);
    assert_eq!(v.open(b"/x", &fine(), Ok(file_meta(1, 1)), pin, 1, None), EIO);
    let lost = Steps { resolved: Err(ENOENT), ..fine() };
    assert_eq!(v.open(b"/x", &lost, Ok(file_meta(1, 1)), Ok(()), 1, None), ENOENT);
    assert_eq!(v.create(b"/x", &fine(), Err(FsError::Exists), Ok(()), 1, None), EEXIST);
    let torn = Steps { committed: Err(FsError::Device), ..fine() };
    assert_eq!(v.create(b"/x", &torn, Ok(1), Ok(()), 1, None), EIO);
    assert!(matches!(v.close(0), Err(EBADF)));
}

// ── Changes ──────────────────────────────────────────────────────────────────

#[test]
fn the_first_failing_step_answers() {
    let v = Vfs::init(true);
    assert_eq!(v.unlink(b"/x", &fine()), 0);
    assert_eq!(v.unlink(b"/\xFF", &fine()), EINVAL);
    assert_eq!(Vfs::init(false).unlink(b"/x", &fine()), ENOMNT);
    let st = Steps { resolved: Err(ENOENT), routed: Err(MountError::Invalid), ..fine() };
    assert_eq!(v.unlink(b"/x", &st), ENOENT);
    let st = Steps {
        routed: Err(MountError::NotMounted),
        guarded: Err(FsError::ReadOnly),
        ..fine()
    };
    assert_eq!(v.unlink(b"/x", &st), ENOMNT);
    let st = Steps { guarded: Err(FsError::ReadOnly), done: Err(FsError::NotFound), ..fine() };
    assert_eq!(v.unlink(b"/x", &st), EROFS);
    let st = Steps { present: false, ..fine() };
    assert_eq!(v.unlink(b"/x", &st), ENOMNT);
    let st = Steps { done: Err(FsError::IsDir), committed: Err(FsError::Device), ..fine() };
    assert_eq!(v.unlink(b"/x", &st), EISDIR);
    let st = Steps { committed: Err(FsError::Device), ..fine() };
    assert_eq!(v.unlink(b"/x", &st), EIO);
}

#[test]
fn directories_and_symlinks_are_made() {
    let v = Vfs::init(true);
    assert_eq!(v.mkdir(b"/d", &fine(), false), 0);
    assert_eq!(v.mkdir(b"/mnt", &fine(), true), EEXIST);
    assert_eq!(v.symlink(b"/t", b"/l", &fine()), 0);
    assert_eq!(v.symlink(b"", b"/l", &fine()), EINVAL);
    assert_eq!(v.symlink(b"\xFF", b"/l", &fine()), EINVAL);
    let mut out = [0u8; 4];
    assert_eq!(v.readlink(b"/l", &fine(), Ok(b"ab".to_vec()), &mut out), 2);
    assert_eq!(out, [b'a', b'b', 0, 0]);
    assert_eq!(v.readlink(b"/l", &fine(), Ok(b"abcdef".to_vec()), &mut out), 6);
    assert_eq!(out, *b"abcd");
    assert_eq!(v.readlink(b"/l", &fine(), Err(FsError::Invalid), &mut out), EINVAL);
}

#[test]
fn files_and_directories_are_read_whole() {
    let v = Vfs::init(true);
    let s = v.stat_path(b"/f", &fine(), Ok(file_meta(4, 12))).unwrap();
    assert_eq!(s.size, 12);
    assert!(v.stat_path(b"/f", &fine(), Err(FsError::NotFound)).is_none());
    assert_eq!(
        v.load_file(b"/f", &fine(), Ok(file_meta(4, 2)), Ok(b"hi".to_vec())),
        Some(b"hi".to_vec())
    );
    assert_eq!(v.load_file(b"/f", &fine(), Ok(file_meta(4, 3)), Ok(b"hi".to_vec())), None);
    assert_eq!(v.load_file(b"/d", &fine(), Ok(dir_meta(4)), Ok(b"hi".to_vec())), None);
    let listed = vec![VolumeEntry { ino: 3, file_type: FT_REG, name: b"n".to_vec() }];
    let seen = v.readdir_path(b"/d", &fine(), Ok(listed)).unwrap();
    assert_eq!(seen.len(), 1);
    assert_eq!((seen[0].ino, seen[0].file_type), (3, FT_REG));
    assert_eq!(seen[0].name, b"n".to_vec());
    assert!(v.readdir_path(b"/f", &fine(), Err(FsError::NotDir)).is_none());
}

#[test]
fn renames_are_planned() {
    let v = Vfs::init(true);
    let st = RenameSteps {
        old_resolved: Ok(()),
        new_resolved: Ok(()),
        old_mount: Ok(1),
        new_mount: Ok(1),
        guard: None,
        present: true,
    };
    assert!(matches!(v.rename(b"/a", b"/b", &st), RenamePlan::Move { seal: false }));
    let other = RenameSteps { new_mount: Ok(2), ..st };
    assert!(matches!(v.rename(b"/a", b"/b", &other), RenamePlan::Answer(EINVAL)));
    let lost = RenameSteps { new_resolved: Err(ENOENT), ..st };
    assert!(matches!(v.rename(b"/a", b"/b", &lost), RenamePlan::Answer(ENOENT)));
    let seal = RenameSteps { guard: Some(Ok(RenameOutcome::Proceed)), ..st };
    assert!(matches!(v.rename(b"/a", b"/b", &seal), RenamePlan::Move { seal: true }));
    let again = RenameSteps { guard: Some(Ok(RenameOutcome::NoOp)), ..st };
    assert!(matches!(v.rename(b"/a", b"/b", &again), RenamePlan::Answer(0)));
    let held = RenameSteps { guard: Some(Err(FsError::ReadOnly)), ..st };
    assert!(matches!(v.rename(b"/a", b"/b", &held), RenamePlan::Answer(EROFS)));
    assert!(matches!(v.rename(b"/a", b"/\xFF", &st), RenamePlan::Answer(EINVAL)));
    let mut v = v;
    let go = RenamePlan::Move { seal: false };
    assert_eq!(v.settle_rename(go, 1, b"/a", b"/b", Ok(()), Ok(())), (0, None));
    let full = Err(FsError::Exists);
    assert_eq!(v.settle_rename(go, 1, b"/a", b"/b", full, Ok(())), (EEXIST, None));
    let lost = Err(FsError::Device);
    assert_eq!(v.settle_rename(go, 1, b"/a", b"/b", Ok(()), lost), (EIO, None));
    let no = RenamePlan::Answer(EROFS);
    assert_eq!(v.settle_rename(no, 1, b"/a", b"/b", Ok(()), Ok(())), (EROFS, None));
}

// ── Removing trees ───────────────────────────────────────────────────────────

#[test]
fn a_store_entry_is_removed_whole() {
    let v = Vfs::init(true);
    let st = fine();
    assert!(matches!(
        v.store_remove_tree(b"/store/p", &st, true, b"/p", Ok(true)),
        StoreRemoval::Remove { name, is_dir: true } if name == b"p".to_vec()
    ));
    assert!(matches!(
        v.store_remove_tree(b"/store/p", &st, true, b"/p", Err(FsError::NotFound)),
        StoreRemoval::Gone { .. }
    ));
    assert!(matches!(
        v.store_remove_tree(b"/store/p/x", &st, true, b"/p/x", Ok(true)),
        StoreRemoval::Refused(EINVAL)
    ));
    assert!(matches!(
        v.store_remove_tree(b"/p", &st, false, b"/p", Ok(true)),
        StoreRemoval::Refused(EINVAL)
    ));
}

#[test]
fn a_tree_is_removed_from_the_leaves() {
    let mut r = Removal::new(b"/p", true);
    let (op, path) = r.next().unwrap();
    assert!(matches!(op, RemoveOp::List));
    assert_eq!(path.as_slice(), b"/p");
    r.expand(&vec![entry(b"d", FT_DIR), entry(b"l", FT_SYMLINK)]);
    let mut seen: Vec<(bool, Vec<u8>)> = Vec::new();
    while let Some((op, path)) = r.next() {
        let path = path.clone();
        match op {
            RemoveOp::List => r.expand(&Vec::new()),
            RemoveOp::Unlink => {
                seen.push((false, path));
                r.done();
            }
            RemoveOp::Rmdir => {
                seen.push((true, path));
                r.done();
            }
        }
    }
    assert_eq!(seen.len(), 3);
    assert!(seen.contains(&(true, b"/p/d".to_vec())));
    assert!(seen.contains(&(false, b"/p/l".to_vec())));
    assert_eq!(seen[2], (true, b"/p".to_vec()));
    assert_eq!(removal_fault(Ok(())), None);
    assert_eq!(removal_fault(Err(FsError::NotFound)), None);
    assert_eq!(removal_fault(Err(FsError::Device)), Some(EIO));
}

#[test]
fn the_first_writer_of_a_name_wins() {
    let mut v = Vfs::init(true);
    let st = RenameSteps {
        old_resolved: Ok(()),
        new_resolved: Ok(()),
        old_mount: Ok(4),
        new_mount: Ok(4),
        guard: Some(Ok(RenameOutcome::Proceed)),
        present: true,
    };
    let held = v.create(b"/s/.tmp-a/f", &fine(), Ok(1), Ok(()), 4, Some(b".tmp-a".to_vec())) as u64;
    let loser = v.create(b"/s/.tmp-b/f", &fine(), Ok(2), Ok(()), 4, Some(b".tmp-b".to_vec())) as u64;
    let plan = v.rename(b"/s/.tmp-a", b"/s/pkg", &st);
    assert_eq!(plan, RenamePlan::Move { seal: true });
    // A rename that fails seals nothing.
    let torn: Result<(), FsError> = Err(FsError::Device);
    assert_eq!(v.settle_rename(plan, 4, b"/.tmp-a", b"/pkg", Ok(()), torn), (EIO, None));
    assert_eq!(v.find(held).unwrap().top, Some(b".tmp-a".to_vec()));
    let (r, name) = v.settle_rename(plan, 4, b"/.tmp-a", b"/pkg", Ok(()), Ok(()));
    assert_eq!((r, name), (0, Some(b"pkg".to_vec())));
    // What was held below it is sealed with it.
    assert_eq!(v.find(held).unwrap().top, Some(b"pkg".to_vec()));
    assert_eq!(v.write(held, true, 5, true, Ok(()), Ok(())), EROFS);
    // The second writer's rename is left undone, and its own file stays writable.
    let again = RenameSteps { guard: Some(Ok(RenameOutcome::NoOp)), ..st };
    let plan = v.rename(b"/s/.tmp-b", b"/s/pkg", &again);
    assert_eq!(v.settle_rename(plan, 4, b"/.tmp-b", b"/pkg", Ok(()), Ok(())), (0, None));
    assert_eq!(v.find(loser).unwrap().top, Some(b".tmp-b".to_vec()));
    assert_eq!(v.write(loser, false, 5, true, Ok(()), Ok(())), 5);
    let away = RenameSteps { guard: Some(Err(FsError::ReadOnly)), ..st };
    let plan = v.rename(b"/s/pkg", b"/s/elsewhere", &away);
    assert_eq!(v.settle_rename(plan, 4, b"/pkg", b"/elsewhere", Ok(()), Ok(())), (EROFS, None));
    let inside = Steps { guarded: Err(FsError::ReadOnly), ..fine() };
    assert_eq!(v.mkdir(b"/s/pkg/dir", &inside, false), EROFS);
    assert_eq!(v.unlink(b"/s/pkg/f", &inside), EROFS);
    assert_eq!(top_component(b"/pkg/f"), Some(b"pkg".to_vec()));
    assert_eq!(top_component(b"/"), None);
}

#[test]
fn a_removal_is_settled() {
    let plan = || StoreRemoval::Remove { name: b"p".to_vec(), is_dir: true };
    assert_eq!(settle_removal(plan(), None, Ok(())), (0, Some(b"p".to_vec())));
    assert_eq!(settle_removal(plan(), Some(EIO), Ok(())), (EIO, None));
    assert_eq!(settle_removal(plan(), None, Err(FsError::NoSpace)), (ENOSPC, None));
    let gone = StoreRemoval::Gone { name: b"p".to_vec() };
    assert_eq!(settle_removal(gone, None, Ok(())), (0, Some(b"p".to_vec())));
    assert_eq!(settle_removal(StoreRemoval::Refused(EINVAL), None, Ok(())), (EINVAL, None));
}

#[test]
fn a_whole_tree_goes_and_nothing_else() {
    let mut held: Vec<(Vec<u8>, bool)> = vec![
        (b"/p".to_vec(), true),
        (b"/p/a".to_vec(), false),
        (b"/p/d".to_vec(), true),
        (b"/p/d/b".to_vec(), false),
        (b"/p/e".to_vec(), true),
        (b"/pq".to_vec(), true),
        (b"/pq/x".to_vec(), false),
    ];
    let mut r = Removal::new(b"/p", true);
    let mut steps = 0;
    while let Some((op, path)) = r.next() {
        let path = path.clone();
        steps += 1;
        let within = |q: &Vec<u8>| {
            let n = path.len();
            q.len() > n + 1 && q[..n] == path[..] && q[n] == b'/'
        };
        match op {
            RemoveOp::List => {
                let mut es = vec![entry(b".", FT_DIR), entry(b"..", FT_DIR)];
                for (q, is_dir) in held.iter().filter(|(q, _)| within(q)) {
                    let name = &q[path.len() + 1..];
                    if !name.contains(&b'/') {
                        es.push(entry(name, if *is_dir { FT_DIR } else { FT_REG }));
                    }
                }
                r.expand(&es);
            }
            RemoveOp::Unlink | RemoveOp::Rmdir => {
                assert!(op == RemoveOp::Unlink || !held.iter().any(|(q, _)| within(q)));
                held.retain(|(q, _)| *q != path);
                r.done();
            }
        }
    }
    assert_eq!(steps, 8);
    assert_eq!(held, vec![(b"/pq".to_vec(), true), (b"/pq/x".to_vec(), false)]);
}
