//! Frames, the heap, address spaces and binaries.

use lythos::cap::{CapHandle, CapIds, CapKind, CapRights, KernelObjectRef};
use lythos::cap::create_root_cap;
use lythos::elf;
use lythos::elf::{
    alloc_user_stack_into, exec, load_image, load_segment_into, read_ehdr, read_phdr, segment_flags,
    write_initial_stack_frame, Elf64Phdr, ElfError, StackSlots,
};
use lythos::heap;
use lythos::heap::KernelAllocator;
use lythos::pmm::{Frames, PhysAddr};
use lythos::task::Scheduler;
use lythos::vmm::{PageFlags, UserSpace};

fn memory() -> Frames {
    Frames::init_from_limine(&[(0, 0x100_0000, 0)], 0, 0x10_0000)
}

/// A binary of one segment: exit at once.
fn small_binary() -> Vec<u8> {
    let mut b: Vec<u8> = vec![
        0x7F, 0x45, 0x4C, 0x46, 0x02, 0x01, 0x01, 0x00, 0, 0, 0, 0, 0, 0, 0, 0, 0x02, 0x00, 0x3E, 0x00,
        0x01, 0x00, 0x00, 0x00,
    ];
    b.extend_from_slice(&0x1_0000_0078u64.to_le_bytes());
    b.extend_from_slice(&64u64.to_le_bytes());
    b.extend_from_slice(&0u64.to_le_bytes());
    b.extend_from_slice(&[0, 0, 0, 0, 0x40, 0, 0x38, 0, 1, 0, 0x40, 0, 0, 0, 0, 0]);
    b.extend_from_slice(&[1, 0, 0, 0, 5, 0, 0, 0]);
    for x in [0u64, 0x1_0000_0000, 0x1_0000_0000, 128, 128, 0x1000] {
        b.extend_from_slice(&x.to_le_bytes());
    }
    b.extend_from_slice(&[0xB8, 0x01, 0x00, 0x00, 0x00, 0x0F, 0x05, 0xF4]);
    assert_eq!(b.len(), 128);
    b
}

#[test]
fn only_usable_memory_is_handed_out() {
    // Frames 0 and 1 hold the kernel; 2 and 3 are free; 4 is reserved; 5 is free.
    let f = Frames::init_from_limine(
        &[(0, 0x4000, 0), (0x4000, 0x1000, 1), (0x5000, 0x1000, 0)],
        0,
        0x2000,
    );
    assert_eq!(f.free_frame_count(), 3);
    let mut f = f;
    assert_eq!(f.alloc_frame(), Some(PhysAddr(0x2000)));
    assert_eq!(f.alloc_frame(), Some(PhysAddr(0x3000)));
    assert_eq!(f.alloc_frame(), Some(PhysAddr(0x5000)));
    assert_eq!(f.alloc_frame(), None);
    assert!(f.can_free(PhysAddr(0x3000)));
    assert!(!f.can_free(PhysAddr(0x3008)));
    assert!(!f.can_free(PhysAddr(0xFFFF_FFFF_F000)));
    f.free_frame(PhysAddr(0x3000));
    assert!(!f.can_free(PhysAddr(0x3000)));
    assert_eq!(f.free_frame_count(), 1);
    assert_eq!(f.alloc_frame().unwrap().as_u64(), 0x3000);
}

#[test]
fn runs_of_frames_are_found_and_given_back() {
    let mut f = Frames::init_from_limine(&[(0x1000, 0x3000, 0), (0x8000, 0x4000, 0)], 0, 0);
    assert_eq!(f.free_frame_count(), 7);
    assert_eq!(f.alloc_frames_contiguous(4), Some(PhysAddr(0x8000)));
    assert_eq!(f.alloc_frames_contiguous(4), None);
    assert_eq!(f.alloc_frames_contiguous(2), Some(PhysAddr(0x1000)));
    assert_eq!(f.free_frame_count(), 1);
    f.free_frames_contiguous(PhysAddr(0x8000), 4);
    assert_eq!(f.free_frame_count(), 5);
    f.free_all(&vec![PhysAddr(0x1000), PhysAddr(0x2000)]);
    assert_eq!(f.free_frame_count(), 7);
    assert_eq!(f.alloc_frames_contiguous(3), Some(PhysAddr(0x1000)));
}

#[test]
fn the_heap_hands_out_memory_once() {
    assert_eq!(heap::align_up(17, 16), 32);
    assert_eq!(heap::align_up(32, 16), 32);
    assert_eq!(heap::heap_start(0x20_0000), heap::HEAP_BASE_NOMINAL + 0x20_0000);
    let mut a = KernelAllocator::with_region(0x1_0000, 0x1000);
    let x = a.allocate(100, 8).unwrap();
    let y = a.allocate(100, 8).unwrap();
    assert!(x % 8 == 0 && y % 8 == 0);
    assert!(x + 100 <= y || y + 100 <= x);
    assert!(x >= 0x1_0000 && y + 100 <= 0x1_1000);
    assert_eq!(a.allocate(0x2000, 8), None);
    a.dealloc(x, 100);
    assert_eq!(a.allocate(100, 8), Some(x));
    let mut none = KernelAllocator::new();
    assert_eq!(none.allocate(1, 1), None);
    let mut f = memory();
    let before = f.free_frame_count();
    let (mut h, pages) = heap::init(&mut f, 0xFFFF_C000_0000_0000).unwrap();
    assert_eq!(pages.len(), heap::HEAP_INIT_PAGES);
    assert_eq!(f.free_frame_count(), before - heap::HEAP_INIT_PAGES);
    assert!(h.allocate(4096, 16).is_some());
    let mut small = Frames::init_from_limine(&[(0x1000, 0x2000, 0)], 0, 0);
    assert!(heap::init(&mut small, 0).is_none());
}

#[test]
fn pages_are_mapped_and_written() {
    let mut s = UserSpace::new();
    assert_eq!(s.query_page(0x5000), None);
    s.map_page(0x5000, PhysAddr(0x9000), PageFlags(PageFlags::USER_RX));
    assert_eq!(s.query_page(0x5000), Some(PhysAddr(0x9000)));
    assert_eq!(s.query_flags(0x5000).unwrap().0, PageFlags::USER_RX);
    s.update_page_flags(0x5000, PageFlags(PageFlags::USER_RW));
    assert_eq!(s.query_flags(0x5000).unwrap().0, PageFlags::USER_RW);
    s.write_page(0x5000, 4090, &[1, 2, 3, 4], 1, 3);
    assert_eq!(s.page_count(), 1);
    let p = s.page(0).unwrap();
    assert_eq!(&p.data[4088..4096], &[0, 0, 2, 3, 4, 0, 0, 0]);
    assert!(s.page(1).is_none());
}

#[test]
fn headers_are_checked() {
    let good = small_binary();
    let h = read_ehdr(&good).unwrap();
    assert_eq!((h.e_entry, h.e_phoff, h.e_phentsize, h.e_phnum), (0x1_0000_0078, 64, 56, 1));
    let ph = read_phdr(&good, &h, 0).unwrap();
    assert_eq!((ph.p_type, ph.p_flags, ph.p_offset), (1, 5, 0));
    assert_eq!((ph.p_vaddr, ph.p_filesz, ph.p_memsz), (0x1_0000_0000, 128, 128));
    assert_eq!(read_ehdr(&good[..63]).err(), Some(ElfError::TooSmall));
    for (at, value, fault) in [
        (0usize, 0u8, ElfError::BadMagic),
        (4, 1, ElfError::Not64Bit),
        (5, 2, ElfError::NotLittleEndian),
        (16, 3, ElfError::UnsupportedType),
        (18, 0x28, ElfError::UnsupportedMachine),
    ] {
        let mut bad = good.clone();
        bad[at] = value;
        assert_eq!(read_ehdr(&bad).err(), Some(fault));
    }
    let mut bad = good.clone();
    bad[32] = 100;
    let h = read_ehdr(&bad).unwrap();
    assert_eq!(read_phdr(&bad, &h, 0).err(), Some(ElfError::BadProgramHeader));
}

#[test]
fn segments_get_the_flags_they_ask_for() {
    assert_eq!(segment_flags(5).0, PageFlags::USER_RX);
    assert_eq!(segment_flags(6).0, PageFlags::USER_RW);
    let read_only = segment_flags(4).0;
    assert_eq!(read_only & PageFlags::WRITABLE, 0);
    assert!(read_only & PageFlags::NX != 0);
}

#[test]
fn a_segment_is_loaded_and_its_rest_is_zero() {
    let mut f = memory();
    let mut s = UserSpace::new();
    let file: Vec<u8> = (0..200u8).collect();
    let ph = Elf64Phdr {
        p_type: 1,
        p_flags: 6,
        p_offset: 10,
        p_vaddr: 0x1_0000_0FF0,
        p_filesz: 32,
        p_memsz: 0x1020,
    };
    assert_eq!(load_segment_into(&file, &ph, &mut s, &mut f), Ok(()));
    assert_eq!(s.page_count(), 3);
    let first = s.page(0).unwrap();
    assert_eq!(first.va, 0x1_0000_0000);
    assert_eq!(&first.data[0xFF0..], &file[10..26]);
    assert_eq!(first.data[0xFEF], 0);
    let second = s.page(1).unwrap();
    assert_eq!(&second.data[..16], &file[26..42]);
    assert_eq!(second.data[16], 0);
    assert!(s.page(2).unwrap().data.iter().all(|b| *b == 0));
    let outside = Elf64Phdr { p_offset: 190, ..ph };
    assert_eq!(
        load_segment_into(&file, &outside, &mut s, &mut f),
        Err(ElfError::SegmentOutOfBounds)
    );
    let mut none = Frames::init_from_limine(&[], 0, 0);
    let mut t = UserSpace::new();
    assert_eq!(load_segment_into(&file, &ph, &mut t, &mut none), Err(ElfError::OutOfMemory));
}

#[test]
fn stacks_have_slots_of_their_own() {
    let mut f = memory();
    let mut slots = StackSlots::new();
    let mut a = UserSpace::new();
    let mut b = UserSpace::new();
    let top_a = alloc_user_stack_into(&mut a, &mut f, &mut slots).unwrap();
    let top_b = alloc_user_stack_into(&mut b, &mut f, &mut slots).unwrap();
    assert_eq!(top_b - top_a, elf::STACK_SLOT_SIZE);
    assert_eq!(a.page_count() as u64, 1 + elf::USER_STACK_PAGES);
    assert!(a.query_page(top_a - 4096).is_some());
    assert!(a.query_page(top_a - 4096 * elf::USER_STACK_PAGES).is_some());
    let guard = top_a - 4096 * (elf::USER_STACK_PAGES + 1);
    assert_eq!(a.query_flags(guard).unwrap().0, PageFlags::PRESENT | PageFlags::NX);
    assert_eq!(a.query_flags(guard + 4096).unwrap().0, PageFlags::USER_RW);
    assert!(a.query_page(top_a).is_none());
    let mut spent = StackSlots { next: elf::MAX_STACK_SLOTS };
    assert_eq!(
        alloc_user_stack_into(&mut a, &mut f, &mut spent),
        Err(ElfError::StackExhausted)
    );
    let mut none = Frames::init_from_limine(&[], 0, 0);
    let mut c = UserSpace::new();
    assert_eq!(alloc_user_stack_into(&mut c, &mut none, &mut slots), Err(ElfError::OutOfMemory));
}

fn word(frame: &[u8], at: usize) -> u64 {
    let mut b = [0u8; 8];
    b.copy_from_slice(&frame[at..at + 8]);
    u64::from_le_bytes(b)
}

#[test]
fn arguments_are_laid_out_for_the_program() {
    let top = 0x7FFF_0000u64;
    let (rsp, frame) = write_initial_stack_frame(top, &["probe", "argv-ok!"]).unwrap();
    assert_eq!(rsp % 16, 0);
    assert!(rsp + frame.len() as u64 <= top);
    assert_eq!(word(&frame, 0), 2);
    let a0 = (word(&frame, 8) - rsp) as usize;
    let a1 = (word(&frame, 16) - rsp) as usize;
    assert_eq!(&frame[a0..a0 + 6], b"probe\0");
    assert_eq!(&frame[a1..a1 + 9], b"argv-ok!\0");
    assert_eq!(word(&frame, 24), 0);
    assert_eq!(word(&frame, 32), 0);
    assert_eq!((word(&frame, 40), word(&frame, 48)), (6, 4096));
    assert_eq!((word(&frame, 56), word(&frame, 64)), (0, 0));
    let long = "x".repeat(4080);
    assert_eq!(write_initial_stack_frame(top, &[long.as_str()]).err(), Some(ElfError::ArgvTooLarge));
}

#[test]
fn a_binary_becomes_a_task() {
    let mut f = memory();
    let mut slots = StackSlots::new();
    let mut sched = Scheduler::new();
    let mut ids = CapIds::new();
    let h = create_root_cap(
        &mut ids,
        &mut sched.caps.tasks[0].table,
        CapKind::Ipc,
        CapRights(CapRights::ALL),
        KernelObjectRef(3),
    );
    let (id, space) = exec(
        &mut sched,
        &mut ids,
        &mut f,
        &mut slots,
        0xFFFF_C000_0000_0000,
        0x5000,
        0x7000,
        &small_binary(),
        &[h],
        &["probe", "argv-ok!"],
    )
        .ok()
        .unwrap();
    assert_eq!(id, 1);
    assert_eq!(&space.page(0).unwrap().data[120..128], &[0xB8, 1, 0, 0, 0, 0x0F, 5, 0xF4]);
    assert_eq!(space.page_count() as u64, 2 + elf::USER_STACK_PAGES);
    let t = &sched.tasks[1];
    assert_eq!(t.entry_point, Some(0x1_0000_0078));
    assert_eq!(t.page_table, Some(0x7000));
    assert_eq!(sched.caps.tasks[1].table.get(CapHandle(0)).unwrap().object.0, 3);
    let bad = exec(
        &mut sched,
        &mut ids,
        &mut f,
        &mut slots,
        0,
        0,
        0,
        &[1, 2, 3],
        &[],
        &[],
    );
    assert_eq!(bad.err(), Some(ElfError::TooSmall));
    assert_eq!(sched.tasks.len(), 2);
}

#[test]
fn a_failed_load_makes_no_task() {
    let mut slots = StackSlots::new();
    let mut few = Frames::init_from_limine(&[(0x1000, 0x2000, 0)], 0, 0);
    assert_eq!(
        load_image(&small_binary(), &[], &mut few, &mut slots).err(),
        Some(ElfError::OutOfMemory)
    );
}
