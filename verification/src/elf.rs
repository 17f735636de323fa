//! The loader: static ELF64 binaries into fresh address spaces.

use vstd::prelude::*;
use vstd::string::*;
use crate::bytes::{
    get_u16, get_u32, get_u64, le16_at, le32_at, le64, le64_at, lemma_le64_round, push_bytes,
    push_u64, splice, zeros,
};
use crate::cap::{CapHandle, CapIds};
use crate::pmm::{
    lemma_lowest_free_bounds, lowest_free, Frames, PhysAddr, Used, FRAME_SIZE, MAX_FRAMES,
};
use crate::task::{kernel_task, plan_of, user_joined, Scheduler, TaskId, STACK_ALLOC};
use crate::vmm::{PageFlags, PageView, SpaceView, UserSpace, PAGE_SIZE};

verus! {

pub const ELFCLASS64: u8 = 2;

pub const ELFDATA2LSB: u8 = 1;

pub const ET_EXEC: u16 = 2;

pub const EM_X86_64: u16 = 62;

pub const PT_LOAD: u32 = 1;

/// Bytes of the file header.
pub const ELF64_EHDR_SIZE: usize = 64;

/// Bytes of a program header.
pub const ELF64_PHDR_SIZE: usize = 56;

/// The guard page of the first user stack.
pub const STACK_GUARD_VA: u64 = 0x7FFF_0000_0000;

/// Usable pages of a user stack.
pub const USER_STACK_PAGES: u64 = 64;

/// Pages of a stack slot: the guard, the usable pages and a gap.
pub const STACK_SLOT_PAGES: u64 = 66;

/// Bytes of a stack slot.
pub const STACK_SLOT_SIZE: u64 = 0x4_2000;

/// Slots that fit between the first guard page and the end of the user half.
pub const MAX_STACK_SLOTS: u64 = 15887;

/// The most that an initial stack frame may take.
pub const MAX_FRAME_BYTES: usize = 4080;

#[derive(Clone, Copy, Debug, PartialEq, Eq, Structural)]
pub enum ElfError {
    TooSmall,
    BadMagic,
    Not64Bit,
    NotLittleEndian,
    UnsupportedType,
    UnsupportedMachine,
    BadProgramHeader,
    SegmentOutOfBounds,
    OutOfMemory,
    StackExhausted,
    ArgvTooLarge,
}

/// What the loader reads of the file header.
#[derive(Clone, Copy, Debug, PartialEq, Eq, Structural)]
pub struct Elf64Ehdr {
    pub e_entry: u64,
    pub e_phoff: u64,
    pub e_phentsize: u16,
    pub e_phnum: u16,
}

/// What the loader reads of a program header.
#[derive(Clone, Copy, Debug, PartialEq, Eq, Structural)]
pub struct Elf64Phdr {
    pub p_type: u32,
    pub p_flags: u32,
    pub p_offset: u64,
    pub p_vaddr: u64,
    pub p_filesz: u64,
    pub p_memsz: u64,
}

// ── Headers ──────────────────────────────────────────────────────────────────

/// Why a file header is not that of a loadable binary.
pub open spec fn header_fault(file: Seq<u8>) -> Option<ElfError> {
    if file.len() < ELF64_EHDR_SIZE {
        Some(ElfError::TooSmall)
    } else if file.take(4) != seq![0x7Fu8, 0x45, 0x4C, 0x46] {
        Some(ElfError::BadMagic)
    } else if file[4] != ELFCLASS64 {
        Some(ElfError::Not64Bit)
    } else if file[5] != ELFDATA2LSB {
        Some(ElfError::NotLittleEndian)
    } else if le16_at(file, 16) != ET_EXEC {
        Some(ElfError::UnsupportedType)
    } else if le16_at(file, 18) != EM_X86_64 {
        Some(ElfError::UnsupportedMachine)
    } else {
        None
    }
}

/// The fields of the file header.
pub open spec fn ehdr_of(file: Seq<u8>) -> Elf64Ehdr {
    Elf64Ehdr {
        e_entry: le64_at(file, 24),
        e_phoff: le64_at(file, 32),
        e_phentsize: le16_at(file, 54),
        e_phnum: le16_at(file, 56),
    }
}

/// Read and check the file header.
pub fn read_ehdr(data: &[u8]) -> (r: Result<Elf64Ehdr, ElfError>)
    ensures
        r == match header_fault(data@) {
            Some(e) => Err(e),
            None => Ok(ehdr_of(data@)),
        },
{
    if data.len() < ELF64_EHDR_SIZE {
        return Err(ElfError::TooSmall);
    }
    if data[0] != 0x7F || data[1] != 0x45 || data[2] != 0x4C || data[3] != 0x46 {
        assert(data@.take(4)[0] == data@[0] && data@.take(4)[1] == data@[1] && data@.take(4)[2]
            == data@[2] && data@.take(4)[3] == data@[3]);
        return Err(ElfError::BadMagic);
    }
    assert(data@.take(4) =~= seq![0x7Fu8, 0x45, 0x4C, 0x46]);
    if data[4] != ELFCLASS64 {
        return Err(ElfError::Not64Bit);
    }
    if data[5] != ELFDATA2LSB {
        return Err(ElfError::NotLittleEndian);
    }
    if get_u16(data, 16) != ET_EXEC {
        return Err(ElfError::UnsupportedType);
    }
    if get_u16(data, 18) != EM_X86_64 {
        return Err(ElfError::UnsupportedMachine);
    }
    Ok(
        Elf64Ehdr {
            e_entry: get_u64(data, 24),
            e_phoff: get_u64(data, 32),
            e_phentsize: get_u16(data, 54),
            e_phnum: get_u16(data, 56),
        },
    )
}

/// Program header `n`; `None` where it does not lie within the file.
pub open spec fn phdr_of(file: Seq<u8>, h: Elf64Ehdr, n: int) -> Option<Elf64Phdr> {
    let off = h.e_phoff + n * h.e_phentsize;
    if off + ELF64_PHDR_SIZE > file.len() {
        None
    } else {
        Some(
            Elf64Phdr {
                p_type: le32_at(file, off),
                p_flags: le32_at(file, off + 4),
                p_offset: le64_at(file, off + 8),
                p_vaddr: le64_at(file, off + 16),
                p_filesz: le64_at(file, off + 32),
                p_memsz: le64_at(file, off + 40),
            },
        )
    }
}

/// Read program header `n`.
pub fn read_phdr(data: &[u8], h: &Elf64Ehdr, n: u16) -> (r: Result<Elf64Phdr, ElfError>)
    ensures
        r == match phdr_of(data@, *h, n as int) {
            Some(p) => Ok::<Elf64Phdr, ElfError>(p),
            None => Err(ElfError::BadProgramHeader),
        },
{
    assert(0 <= n * h.e_phentsize <= 0xFFFE_0001) by (nonlinear_arith)
        requires
            0 <= n <= 0xFFFF,
            0 <= h.e_phentsize <= 0xFFFF,
    ;
    let off: u128 = h.e_phoff as u128 + n as u128 * h.e_phentsize as u128;
    if off + ELF64_PHDR_SIZE as u128 > data.len() as u128 {
        return Err(ElfError::BadProgramHeader);
    }
    let o: usize = off as usize;
    Ok(
        Elf64Phdr {
            p_type: get_u32(data, o),
            p_flags: get_u32(data, o + 4),
            p_offset: get_u64(data, o + 8),
            p_vaddr: get_u64(data, o + 16),
            p_filesz: get_u64(data, o + 32),
            p_memsz: get_u64(data, o + 40),
        },
    )
}

// ── Segments ─────────────────────────────────────────────────────────────────

/// The page flags of a segment: always readable by users, executable and
/// writable as the header says.
pub open spec fn flags_of(p_flags: u32) -> PageFlags {
    let exec = p_flags % 2 == 1;
    let write = p_flags / 2 % 2 == 1;
    PageFlags(
        match (exec, write) {
            (true, false) => PageFlags::USER_RX,
            (false, true) => PageFlags::USER_RW,
            (true, true) => 0x7,
            (false, false) => 0x8000_0000_0000_0005,
        },
    )
}

/// The page flags of a segment.
pub fn segment_flags(p_flags: u32) -> (r: PageFlags)
    ensures
        r == flags_of(p_flags),
{
    let exec: bool = p_flags % 2 == 1;
    let write: bool = p_flags / 2 % 2 == 1;
    if exec && write {
        PageFlags(0x7)
    } else if exec {
        PageFlags(PageFlags::USER_RX)
    } else if write {
        PageFlags(PageFlags::USER_RW)
    } else {
        PageFlags(0x8000_0000_0000_0005)
    }
}

/// Memory while a binary is loaded: its address space, and the frames in use.
#[verifier::ext_equal]
pub struct LoadView {
    pub space: SpaceView,
    pub used: Used,
}

/// A fresh page of zeros at `va`; `None` where no frame is free.
pub open spec fn page_added(s: LoadView, va: u64, flags: PageFlags) -> Option<LoadView> {
    match lowest_free(s.used, 0) {
        Some(i) => Some(
            LoadView {
                space: s.space.insert(
                    va,
                    PageView {
                        frame: PhysAddr((i * FRAME_SIZE) as u64),
                        flags,
                        data: zeros(PAGE_SIZE as nat),
                    },
                ),
                used: s.used.update(i, true),
            },
        ),
        None => None,
    }
}

/// The page at `va` with the flags of a segment: a page that is mapped keeps
/// its frame and contents.
pub open spec fn page_ready(s: LoadView, ph: Elf64Phdr, va: u64) -> Option<LoadView> {
    let flags = flags_of(ph.p_flags);
    if s.space.contains_key(va) {
        Some(LoadView { space: s.space.insert(va, PageView { flags, ..s.space[va] }), ..s })
    } else {
        page_added(s, va, flags)
    }
}

/// The contents of the page at `va` with the file's bytes laid over it.
pub open spec fn page_filled(data: Seq<u8>, file: Seq<u8>, ph: Elf64Phdr, va: int) -> Seq<u8> {
    Seq::new(
        data.len(),
        |k: int|
            if ph.p_vaddr <= va + k < ph.p_vaddr + ph.p_filesz {
                file[ph.p_offset + (va + k - ph.p_vaddr)]
            } else {
                data[k]
            },
    )
}

/// One page of a segment loaded.
pub open spec fn page_loaded(s: LoadView, file: Seq<u8>, ph: Elf64Phdr, va: u64) -> Option<
    LoadView,
> {
    match page_ready(s, ph, va) {
        Some(s1) => {
            let p = s1.space[va];
            Some(
                LoadView {
                    space: s1.space.insert(
                        va,
                        PageView { data: page_filled(p.data, file, ph, va as int), ..p },
                    ),
                    ..s1
                },
            )
        },
        None => None,
    }
}

/// The first page of a segment.
pub open spec fn first_page(ph: Elf64Phdr) -> int {
    ph.p_vaddr - ph.p_vaddr % 0x1000
}

/// The pages of a segment that holds something.
pub open spec fn page_span(ph: Elf64Phdr) -> nat {
    ((ph.p_vaddr + ph.p_memsz + 0xFFF) / 0x1000 - ph.p_vaddr / 0x1000) as nat
}

/// The first `n` pages of a segment loaded, as far as there are frames.
pub open spec fn pages_loaded(s: LoadView, file: Seq<u8>, ph: Elf64Phdr, n: nat) -> (LoadView, bool)
    decreases n,
{
    if n == 0 {
        (s, true)
    } else {
        let (s1, ok) = pages_loaded(s, file, ph, (n - 1) as nat);
        if !ok {
            (s1, false)
        } else {
            match page_loaded(s1, file, ph, (first_page(ph) + (n - 1) * 0x1000) as u64) {
                Some(s2) => (s2, true),
                None => (s1, false),
            }
        }
    }
}

/// The segment lies within the file, and its pages within the address space.
pub open spec fn segment_in_bounds(file: Seq<u8>, ph: Elf64Phdr) -> bool {
    &&& ph.p_offset + ph.p_filesz <= file.len()
    &&& ph.p_memsz > 0 ==> ph.p_vaddr + ph.p_memsz + 0xFFF <= u64::MAX
}

/// A segment loaded; the error says what stopped it.
pub open spec fn segment_loaded(s: LoadView, file: Seq<u8>, ph: Elf64Phdr) -> (
    LoadView,
    Result<(), ElfError>,
) {
    if !segment_in_bounds(file, ph) {
        (s, Err(ElfError::SegmentOutOfBounds))
    } else if ph.p_memsz == 0 {
        (s, Ok(()))
    } else {
        let (s1, ok) = pages_loaded(s, file, ph, page_span(ph));
        (
            s1,
            if ok {
                Ok(())
            } else {
                Err(ElfError::OutOfMemory)
            },
        )
    }
}

/// Every page of an address space is whole.
pub open spec fn space_ok(space: SpaceView) -> bool {
    forall|va: u64| #[trigger] space.contains_key(va) ==> space[va].data.len() == PAGE_SIZE
}

/// Load one page of a segment.
fn load_page(
    data: &[u8],
    ph: &Elf64Phdr,
    va: u64,
    flags: PageFlags,
    space: &mut UserSpace,
    frames: &mut Frames,
) -> (ok: bool)
    requires
        old(space).wf(),
        old(frames).wf(),
        space_ok(old(space)@),
        flags == flags_of(ph.p_flags),
        ph.p_offset + ph.p_filesz <= data.len(),
        va + PAGE_SIZE <= u64::MAX + 1,
    ensures
        final(space).wf(),
        final(frames).wf(),
        space_ok(final(space)@),
        match page_loaded(
            LoadView { space: old(space)@, used: old(frames)@ },
            data@,
            *ph,
            va,
        ) {
            Some(s) => ok && s == (LoadView { space: final(space)@, used: final(frames)@ }),
            None => !ok && final(space)@ == old(space)@ && final(frames)@ == old(frames)@,
        },
{
    let ghost s0 = LoadView { space: space@, used: frames@ };
    match space.query_page(va) {
        Some(_) => {
            space.update_page_flags(va, flags);
        },
        None => {
            match frames.alloc_frame() {
                Some(f) => {
                    space.map_page(va, f, flags);
                },
                None => {
                    return false;
                },
            }
        },
    }
    let ghost s1 = page_ready(s0, *ph, va)->0;
    assert(s1.space == space@ && s1.used == frames@);
    let ghost before = space@[va].data;
    let file_end: u128 = ph.p_vaddr as u128 + ph.p_filesz as u128;
    let from: u64 = if ph.p_vaddr > va {
        ph.p_vaddr
    } else {
        va
    };
    let to: u128 = if file_end < va as u128 + PAGE_SIZE as u128 {
        file_end
    } else {
        va as u128 + PAGE_SIZE as u128
    };
    if (from as u128) < to {
        let n: usize = (to - from as u128) as usize;
        let at: usize = (from - va) as usize;
        let src: usize = (ph.p_offset + (from - ph.p_vaddr)) as usize;
        space.write_page(va, at, data, src, n);
        assert(space@[va].data =~= page_filled(before, data@, *ph, va as int));
        assert(space@ =~= s1.space.insert(
            va,
            PageView { data: page_filled(before, data@, *ph, va as int), ..s1.space[va] },
        ));
    } else {
        assert(before =~= page_filled(before, data@, *ph, va as int));
        assert(space@ =~= s1.space.insert(
            va,
            PageView { data: page_filled(before, data@, *ph, va as int), ..s1.space[va] },
        ));
    }
    true
}

/// Load one segment: map its pages, and lay the file's bytes over them. What no
/// byte of the file covers on a fresh page is zero.
pub fn load_segment_into(
    data: &[u8],
    ph: &Elf64Phdr,
    space: &mut UserSpace,
    frames: &mut Frames,
) -> (r: Result<(), ElfError>)
    requires
        old(space).wf(),
        old(frames).wf(),
        space_ok(old(space)@),
    ensures
        final(space).wf(),
        final(frames).wf(),
        space_ok(final(space)@),
        (LoadView { space: final(space)@, used: final(frames)@ }, r) == segment_loaded(
            LoadView { space: old(space)@, used: old(frames)@ },
            data@,
            *ph,
        ),
{
    if ph.p_offset as u128 + ph.p_filesz as u128 > data.len() as u128 {
        return Err(ElfError::SegmentOutOfBounds);
    }
    if ph.p_memsz == 0 {
        return Ok(());
    }
    if ph.p_vaddr as u128 + ph.p_memsz as u128 + 0xFFF > u64::MAX as u128 {
        return Err(ElfError::SegmentOutOfBounds);
    }
    let flags: PageFlags = segment_flags(ph.p_flags);
    let start: u64 = ph.p_vaddr - ph.p_vaddr % 0x1000;
    let count: u64 = (ph.p_vaddr + ph.p_memsz + 0xFFF) / 0x1000 - ph.p_vaddr / 0x1000;
    let ghost s0 = LoadView { space: space@, used: frames@ };
    let mut i: u64 = 0;
    while i < count
        invariant
            i <= count,
            s0 == (LoadView { space: old(space)@, used: old(frames)@ }),
            segment_in_bounds(data@, *ph),
            ph.p_memsz > 0,
            count == page_span(*ph),
            start == first_page(*ph),
            start + count * 0x1000 <= u64::MAX,
            start % 0x1000 == 0,
            space.wf(),
            frames.wf(),
            space_ok(space@),
            flags == flags_of(ph.p_flags),
            ph.p_offset + ph.p_filesz <= data.len(),
            (LoadView { space: space@, used: frames@ }, true) == pages_loaded(
                s0,
                data@,
                *ph,
                i as nat,
            ),
        decreases count - i,
    {
        let va: u64 = start + i * 0x1000;
        if !load_page(data, ph, va, flags, space, frames) {
            proof {
                lemma_failed_pages(s0, data@, *ph, (i + 1) as nat, count as nat);
            }
            return Err(ElfError::OutOfMemory);
        }
        i += 1;
    }
    Ok(())
}

/// Once there is no frame for a page, none of the rest is loaded.
proof fn lemma_failed_pages(s: LoadView, file: Seq<u8>, ph: Elf64Phdr, m: nat, n: nat)
    requires
        m <= n,
        !pages_loaded(s, file, ph, m).1,
    ensures
        pages_loaded(s, file, ph, n) == pages_loaded(s, file, ph, m),
    decreases n,
{
    if m < n {
        lemma_failed_pages(s, file, ph, m, (n - 1) as nat);
    }
}

/// The segments of the first `n` program headers loaded, as far as the first
/// error.
pub open spec fn segments_loaded(s: LoadView, file: Seq<u8>, h: Elf64Ehdr, n: nat) -> (
    LoadView,
    Result<(), ElfError>,
)
    decreases n,
{
    if n == 0 {
        (s, Ok(()))
    } else {
        let (s1, r) = segments_loaded(s, file, h, (n - 1) as nat);
        if r is Err {
            (s1, r)
        } else {
            match phdr_of(file, h, n - 1) {
                None => (s1, Err(ElfError::BadProgramHeader)),
                Some(ph) => if ph.p_type != PT_LOAD {
                    (s1, Ok(()))
                } else {
                    segment_loaded(s1, file, ph)
                },
            }
        }
    }
}

proof fn lemma_failed_segments(s: LoadView, file: Seq<u8>, h: Elf64Ehdr, m: nat, n: nat)
    requires
        m <= n,
        segments_loaded(s, file, h, m).1 is Err,
    ensures
        segments_loaded(s, file, h, n) == segments_loaded(s, file, h, m),
    decreases n,
{
    if m < n {
        lemma_failed_segments(s, file, h, m, (n - 1) as nat);
    }
}

fn load_segments(data: &[u8], h: &Elf64Ehdr, space: &mut UserSpace, frames: &mut Frames) -> (r:
    Result<(), ElfError>)
    requires
        old(space).wf(),
        old(frames).wf(),
        space_ok(old(space)@),
    ensures
        final(space).wf(),
        final(frames).wf(),
        space_ok(final(space)@),
        (LoadView { space: final(space)@, used: final(frames)@ }, r) == segments_loaded(
            LoadView { space: old(space)@, used: old(frames)@ },
            data@,
            *h,
            h.e_phnum as nat,
        ),
{
    let ghost s0 = LoadView { space: space@, used: frames@ };
    let mut i: u16 = 0;
    while i < h.e_phnum
        invariant
            i <= h.e_phnum,
            s0 == (LoadView { space: old(space)@, used: old(frames)@ }),
            space.wf(),
            frames.wf(),
            space_ok(space@),
            (LoadView { space: space@, used: frames@ }, Ok::<(), ElfError>(()))
                == segments_loaded(s0, data@, *h, i as nat),
        decreases h.e_phnum - i,
    {
        let ghost k = (i + 1) as nat;
        match read_phdr(data, h, i) {
            Err(e) => {
                proof {
                    lemma_failed_segments(s0, data@, *h, k, h.e_phnum as nat);
                }
                return Err(e);
            },
            Ok(ph) => {
                if ph.p_type == PT_LOAD {
                    let r: Result<(), ElfError> = load_segment_into(data, &ph, space, frames);
                    if r.is_err() {
                        proof {
                            lemma_failed_segments(s0, data@, *h, k, h.e_phnum as nat);
                        }
                        return r;
                    }
                }
            },
        }
        i += 1;
    }
    Ok(())
}

// ── Stack ────────────────────────────────────────────────────────────────────

/// The guard page of a stack slot.
pub open spec fn slot_base(slot: int) -> int {
    STACK_GUARD_VA + slot * STACK_SLOT_SIZE
}

/// The top of the stack in a slot.
pub open spec fn slot_top(slot: int) -> int {
    slot_base(slot) + (USER_STACK_PAGES + 1) * PAGE_SIZE
}

/// The guard page and the first `n` usable pages of a stack mapped, as far as
/// there are frames. The guard is not for users.
pub open spec fn stack_mapped(s: LoadView, slot: int, n: nat) -> (LoadView, bool)
    decreases n,
{
    if n == 0 {
        match page_added(s, slot_base(slot) as u64, PageFlags(0x8000_0000_0000_0001)) {
            Some(s1) => (s1, true),
            None => (s, false),
        }
    } else {
        let (s1, ok) = stack_mapped(s, slot, (n - 1) as nat);
        if !ok {
            (s1, false)
        } else {
            match page_added(
                s1,
                (slot_base(slot) + n * PAGE_SIZE) as u64,
                PageFlags(PageFlags::USER_RW),
            ) {
                Some(s2) => (s2, true),
                None => (s1, false),
            }
        }
    }
}

proof fn lemma_failed_stack(s: LoadView, slot: int, m: nat, n: nat)
    requires
        m <= n,
        !stack_mapped(s, slot, m).1,
    ensures
        stack_mapped(s, slot, n) == stack_mapped(s, slot, m),
    decreases n,
{
    if m < n {
        lemma_failed_stack(s, slot, m, (n - 1) as nat);
    }
}

/// The stack slots that were handed out.
pub struct StackSlots {
    pub next: u64,
}

impl StackSlots {
    pub fn new() -> (s: StackSlots)
        ensures
            s.next == 0,
    {
        StackSlots { next: 0 }
    }
}

/// A stack in slot `next`; the result is its top.
pub open spec fn stack_loaded(s: LoadView, next: u64) -> (LoadView, Result<u64, ElfError>) {
    if next >= MAX_STACK_SLOTS {
        (s, Err(ElfError::StackExhausted))
    } else {
        let (s1, ok) = stack_mapped(s, next as int, USER_STACK_PAGES as nat);
        (
            s1,
            if ok {
                Ok(slot_top(next as int) as u64)
            } else {
                Err(ElfError::OutOfMemory)
            },
        )
    }
}

/// Map a user stack in the next slot; the result is its top. Every attempt uses
/// up a slot.
pub fn alloc_user_stack_into(
    space: &mut UserSpace,
    frames: &mut Frames,
    slots: &mut StackSlots,
) -> (r: Result<u64, ElfError>)
    requires
        old(space).wf(),
        old(frames).wf(),
        space_ok(old(space)@),
    ensures
        final(space).wf(),
        final(frames).wf(),
        space_ok(final(space)@),
        (LoadView { space: final(space)@, used: final(frames)@ }, r) == stack_loaded(
            LoadView { space: old(space)@, used: old(frames)@ },
            old(slots).next,
        ),
        final(slots).next == (old(slots).next + 1) % 0x1_0000_0000_0000_0000,
{
    let ghost s0 = LoadView { space: space@, used: frames@ };
    let slot: u64 = slots.next;
    slots.next = slot.wrapping_add(1);
    if slot >= MAX_STACK_SLOTS {
        return Err(ElfError::StackExhausted);
    }
    let base: u64 = STACK_GUARD_VA + slot * STACK_SLOT_SIZE;
    let ghost full = USER_STACK_PAGES as nat;
    match frames.alloc_frame() {
        Some(f) => {
            space.map_page(base, f, PageFlags(0x8000_0000_0000_0001));
        },
        None => {
            proof {
                lemma_failed_stack(s0, slot as int, 0, full);
            }
            return Err(ElfError::OutOfMemory);
        },
    }
    let mut i: u64 = 1;
    while i <= USER_STACK_PAGES
        invariant
            1 <= i <= USER_STACK_PAGES + 1,
            slot < MAX_STACK_SLOTS,
            slot == old(slots).next,
            slots.next == slot + 1,
            base == slot_base(slot as int),
            base <= 0x8000_0000_0000,
            s0 == (LoadView { space: old(space)@, used: old(frames)@ }),
            full == USER_STACK_PAGES,
            space.wf(),
            frames.wf(),
            space_ok(space@),
            (LoadView { space: space@, used: frames@ }, true) == stack_mapped(
                s0,
                slot as int,
                (i - 1) as nat,
            ),
        decreases USER_STACK_PAGES + 1 - i,
    {
        match frames.alloc_frame() {
            Some(f) => {
                space.map_page(base + i * PAGE_SIZE, f, PageFlags(PageFlags::USER_RW));
            },
            None => {
                proof {
                    lemma_failed_stack(s0, slot as int, i as nat, full);
                }
                return Err(ElfError::OutOfMemory);
            },
        }
        i += 1;
    }
    Ok(base + (USER_STACK_PAGES + 1) * PAGE_SIZE)
}

/// The bytes of the arguments, each with its terminator.
pub open spec fn strings_len(argv: Seq<Seq<u8>>) -> nat
    decreases argv.len(),
{
    if argv.len() == 0 {
        0
    } else {
        strings_len(argv.drop_last()) + argv.last().len() + 1
    }
}

/// The arguments one after another, each with its terminator.
pub open spec fn strings(argv: Seq<Seq<u8>>) -> Seq<u8>
    decreases argv.len(),
{
    if argv.len() == 0 {
        seq![]
    } else {
        strings(argv.drop_last()) + argv.last().push(0)
    }
}

/// Pointers to the arguments, when the strings start at `base`.
pub open spec fn pointers(argv: Seq<Seq<u8>>, base: int) -> Seq<u8>
    decreases argv.len(),
{
    if argv.len() == 0 {
        seq![]
    } else {
        pointers(argv.drop_last(), base) + le64((base + strings_len(argv.drop_last())) as u64)
    }
}

/// Bytes of the table in front of the strings.
pub open spec fn table_len(argv: Seq<Seq<u8>>) -> nat {
    8 * (argv.len() + 7)
}

/// The initial stack frame: the argument count, the argument pointers and their
/// terminator, the terminator of an empty environment, the page size and the
/// end of the auxiliary vector, and the strings.
pub open spec fn frame_bytes(argv: Seq<Seq<u8>>, rsp: int) -> Seq<u8> {
    le64(argv.len() as u64) + pointers(argv, rsp + table_len(argv)) + le64(0) + le64(0) + le64(6)
        + le64(4096) + le64(0) + le64(0) + strings(argv)
}

/// The stack pointer at entry: room for the frame, on a 16-byte boundary.
pub open spec fn initial_rsp(top: int, argv: Seq<Seq<u8>>) -> int {
    (top - table_len(argv) - strings_len(argv)) / 16 * 16
}

/// The bytes of the arguments.
pub open spec fn arg_bytes(argv: Seq<&str>) -> Seq<Seq<u8>> {
    argv.map_values(|a: &str| a.spec_bytes())
}

proof fn lemma_arg_prefix(argv: Seq<&str>, k: int)
    requires
        0 <= k < argv.len(),
    ensures
        arg_bytes(argv.take(k + 1)).drop_last() == arg_bytes(argv.take(k)),
        arg_bytes(argv.take(k + 1)).last() == argv[k].spec_bytes(),
        arg_bytes(argv.take(k + 1)).len() == k + 1,
{
    assert(arg_bytes(argv.take(k + 1)).drop_last() =~= arg_bytes(argv.take(k)));
}

proof fn lemma_strings_len_grows(argv: Seq<&str>, k: int)
    requires
        0 <= k <= argv.len(),
    ensures
        strings_len(arg_bytes(argv.take(k))) <= strings_len(arg_bytes(argv)),
        strings_len(arg_bytes(argv.take(k))) >= k,
    decreases argv.len() - k, k,
{
    if k < argv.len() {
        lemma_arg_prefix(argv, k);
        lemma_strings_len_grows(argv, k + 1);
    } else {
        assert(argv.take(k) =~= argv);
    }
    lemma_strings_len_at_least(arg_bytes(argv.take(k)));
}

proof fn lemma_strings_len_at_least(argv: Seq<Seq<u8>>)
    ensures
        strings_len(argv) >= argv.len(),
    decreases argv.len(),
{
    if argv.len() > 0 {
        lemma_strings_len_at_least(argv.drop_last());
    }
}

/// The bytes that an initial stack frame takes; `None` where they are too many.
fn frame_size(argv: &[&str]) -> (r: Option<usize>)
    ensures
        r == if table_len(arg_bytes(argv@)) + strings_len(arg_bytes(argv@)) > MAX_FRAME_BYTES {
            None
        } else {
            Some((table_len(arg_bytes(argv@)) + strings_len(arg_bytes(argv@))) as usize)
        },
{
    proof {
        lemma_strings_len_at_least(arg_bytes(argv@));
    }
    if argv.len() > MAX_FRAME_BYTES {
        return None;
    }
    let mut total: usize = 8 * (argv.len() + 7);
    if total > MAX_FRAME_BYTES {
        return None;
    }
    assert(arg_bytes(argv@.take(0)) =~= seq![]);
    let mut k: usize = 0;
    while k < argv.len()
        invariant
            k <= argv@.len(),
            total == table_len(arg_bytes(argv@)) + strings_len(arg_bytes(argv@.take(k as int))),
            total <= MAX_FRAME_BYTES,
        decreases argv@.len() - k,
    {
        let b: &[u8] = argv[k].as_bytes();
        proof {
            lemma_arg_prefix(argv@, k as int);
            lemma_strings_len_grows(argv@, k + 1);
        }
        if b.len() >= MAX_FRAME_BYTES || total + b.len() + 1 > MAX_FRAME_BYTES {
            return None;
        }
        total = total + b.len() + 1;
        k += 1;
    }
    assert(argv@.take(argv@.len() as int) =~= argv@);
    Some(total)
}

/// The initial stack frame for a stack with the given top: the stack pointer
/// and the bytes from there on.
pub fn write_initial_stack_frame(top: u64, argv: &[&str]) -> (r: Result<(u64, Vec<u8>), ElfError>)
    requires
        top >= PAGE_SIZE,
    ensures
        ({
            let a = arg_bytes(argv@);
            let total = table_len(a) + strings_len(a);
            if total > MAX_FRAME_BYTES {
                r matches Err(e) && e == ElfError::ArgvTooLarge
            } else {
                r matches Ok((rsp, bytes)) && rsp == initial_rsp(top as int, a) && bytes@
                    == frame_bytes(a, rsp as int)
            }
        }),
{
    let ghost a = arg_bytes(argv@);
    match frame_size(argv) {
        None => Err(ElfError::ArgvTooLarge),
        Some(total) => {
            proof {
                lemma_strings_len_at_least(a);
            }
            let rsp: u64 = (top - total as u64) / 16 * 16;
            let base: u64 = rsp + 8 * (argv.len() as u64 + 7);
            let mut out: Vec<u8> = Vec::new();
            push_u64(&mut out, argv.len() as u64);
            let ghost first = out@;
            assert(first =~= le64(argv@.len() as u64));
            let mut va: u64 = base;
            let mut k: usize = 0;
            assert(arg_bytes(argv@.take(0)) =~= seq![]);
            assert(out@ =~= first + pointers(arg_bytes(argv@.take(0)), base as int));
            while k < argv.len()
                invariant
                    k <= argv@.len(),
                    a == arg_bytes(argv@),
                    strings_len(a) <= MAX_FRAME_BYTES,
                    base + strings_len(a) <= u64::MAX,
                    va == base + strings_len(arg_bytes(argv@.take(k as int))),
                    out@ == first + pointers(arg_bytes(argv@.take(k as int)), base as int),
                decreases argv@.len() - k,
            {
                proof {
                    lemma_arg_prefix(argv@, k as int);
                    lemma_strings_len_grows(argv@, k + 1);
                }
                push_u64(&mut out, va);
                let b: &[u8] = argv[k].as_bytes();
                va = va + b.len() as u64 + 1;
                k += 1;
                assert(out@ =~= first + pointers(arg_bytes(argv@.take(k as int)), base as int));
            }
            assert(argv@.take(argv@.len() as int) =~= argv@);
            push_u64(&mut out, 0);
            push_u64(&mut out, 0);
            push_u64(&mut out, 6);
            push_u64(&mut out, 4096);
            push_u64(&mut out, 0);
            push_u64(&mut out, 0);
            let ghost table = out@;
            let mut j: usize = 0;
            assert(out@ =~= table + strings(arg_bytes(argv@.take(0))));
            while j < argv.len()
                invariant
                    j <= argv@.len(),
                    out@ == table + strings(arg_bytes(argv@.take(j as int))),
                decreases argv@.len() - j,
            {
                proof {
                    lemma_arg_prefix(argv@, j as int);
                }
                let b: &[u8] = argv[j].as_bytes();
                push_bytes(&mut out, b, 0, b.len());
                out.push(0);
                assert(b@.subrange(0, b@.len() as int) =~= b@);
                j += 1;
                assert(out@ =~= table + strings(arg_bytes(argv@.take(j as int))));
            }
            assert(out@ =~= frame_bytes(a, rsp as int));
            Ok((rsp, out))
        },
    }
}

// ── Loading ──────────────────────────────────────────────────────────────────

/// A binary in memory, ready to be entered.
pub struct UserImage {
    pub space: UserSpace,
    pub entry: u64,
    pub rsp: u64,
}

/// The initial stack frame written to the last page of the stack below `top`.
pub open spec fn frame_written(s: LoadView, top: int, argv: Seq<Seq<u8>>) -> LoadView {
    let va = (top - PAGE_SIZE) as u64;
    let rsp = initial_rsp(top, argv);
    let p = s.space[va];
    LoadView {
        space: s.space.insert(
            va,
            PageView { data: splice(p.data, rsp % 0x1000, frame_bytes(argv, rsp)), ..p },
        ),
        ..s
    }
}

/// A binary loaded from a file, with its stack in slot `next`. The value is
/// where it is entered and its stack pointer. Frames stay taken where the load
/// fails.
pub open spec fn image_loaded(used: Used, next: u64, file: Seq<u8>, argv: Seq<Seq<u8>>) -> (
    LoadView,
    Result<(u64, u64), ElfError>,
) {
    let s0 = LoadView { space: Map::empty(), used };
    match header_fault(file) {
        Some(e) => (s0, Err(e)),
        None => {
            let h = ehdr_of(file);
            let (s1, r1) = segments_loaded(s0, file, h, h.e_phnum as nat);
            match r1 {
                Err(e) => (s1, Err(e)),
                Ok(_) => {
                    let (s2, r2) = stack_loaded(s1, next);
                    match r2 {
                        Err(e) => (s2, Err(e)),
                        Ok(top) => if table_len(argv) + strings_len(argv) > MAX_FRAME_BYTES {
                            (s2, Err(ElfError::ArgvTooLarge))
                        } else {
                            (
                                frame_written(s2, top as int, argv),
                                Ok((h.e_entry, initial_rsp(top as int, argv) as u64)),
                            )
                        },
                    }
                },
            }
        },
    }
}

/// A stack slot is used up once the segments are loaded.
pub open spec fn takes_slot(used: Used, file: Seq<u8>) -> bool {
    header_fault(file) is None && segments_loaded(
        LoadView { space: Map::empty(), used },
        file,
        ehdr_of(file),
        ehdr_of(file).e_phnum as nat,
    ).1 is Ok
}

/// The last page of a stack that was mapped is there, and whole.
proof fn lemma_stack_top_mapped(s: LoadView, slot: int)
    requires
        0 <= slot < MAX_STACK_SLOTS,
        stack_mapped(s, slot, USER_STACK_PAGES as nat).1,
    ensures
        ({
            let s1 = stack_mapped(s, slot, USER_STACK_PAGES as nat).0;
            let va = (slot_top(slot) - PAGE_SIZE) as u64;
            s1.space.contains_key(va) && s1.space[va].data.len() == PAGE_SIZE
        }),
{
}

/// The frame fits in the last page of the stack.
proof fn lemma_frame_fits(top: int, argv: Seq<Seq<u8>>)
    requires
        top % 0x1000 == 0,
        top >= PAGE_SIZE,
        table_len(argv) + strings_len(argv) <= MAX_FRAME_BYTES,
    ensures
        top - PAGE_SIZE <= initial_rsp(top, argv) < top,
        initial_rsp(top, argv) % 0x1000 + frame_bytes(argv, initial_rsp(top, argv)).len()
            <= PAGE_SIZE,
        initial_rsp(top, argv) % 0x1000 == initial_rsp(top, argv) - (top - PAGE_SIZE),
        initial_rsp(top, argv) + frame_bytes(argv, initial_rsp(top, argv)).len() <= top,
        initial_rsp(top, argv) % 16 == 0,
        frame_bytes(argv, initial_rsp(top, argv)).len() == table_len(argv) + strings_len(argv),
{
    let rsp = initial_rsp(top, argv);
    let total = (table_len(argv) + strings_len(argv)) as int;
    lemma_frame_len(argv, rsp);
    lemma_rounded_down(top, total);
    assert(rsp == (top - total) / 16 * 16);
}

proof fn lemma_frame_len(argv: Seq<Seq<u8>>, rsp: int)
    ensures
        frame_bytes(argv, rsp).len() == table_len(argv) + strings_len(argv),
{
    lemma_part_lens(argv, rsp + table_len(argv));
}

/// Room for `total` bytes below a page boundary, on a 16-byte boundary.
proof fn lemma_rounded_down(top: int, total: int)
    requires
        top % 0x1000 == 0,
        top >= 0x1000,
        56 <= total <= 4080,
    ensures
        ({
            let rsp = (top - total) / 16 * 16;
            &&& top - 0x1000 <= rsp < top
            &&& rsp + total <= top
            &&& rsp % 16 == 0
            &&& rsp % 0x1000 == rsp - (top - 0x1000)
        }),
{
    let rsp = (top - total) / 16 * 16;
    assert(top - 0x1000 <= rsp < top);
    assert(rsp % 0x1000 == rsp - (top - 0x1000)) by {
        let k = top / 0x1000;
        assert(top == k * 0x1000);
        assert(rsp == (k - 1) * 0x1000 + (rsp - (top - 0x1000)));
    }
}

proof fn lemma_part_lens(argv: Seq<Seq<u8>>, base: int)
    ensures
        pointers(argv, base).len() == 8 * argv.len(),
        strings(argv).len() == strings_len(argv),
    decreases argv.len(),
{
    if argv.len() > 0 {
        lemma_part_lens(argv.drop_last(), base);
    }
}

/// Write the initial frame into the last page of a stack; the result is the stack
/// pointer.
fn place_frame(space: &mut UserSpace, frames: &Frames, top: u64, argv: &[&str]) -> (r: Result<
    u64,
    ElfError,
>)
    requires
        old(space).wf(),
        top % 0x1000 == 0,
        top >= PAGE_SIZE,
        old(space)@.contains_key((top - PAGE_SIZE) as u64),
        old(space)@[(top - PAGE_SIZE) as u64].data.len() == PAGE_SIZE,
    ensures
        final(space).wf(),
        ({
            let a = arg_bytes(argv@);
            let s = LoadView { space: old(space)@, used: frames@ };
            if table_len(a) + strings_len(a) > MAX_FRAME_BYTES {
                r == Err::<u64, ElfError>(ElfError::ArgvTooLarge) && final(space)@ == old(space)@
            } else {
                r == Ok::<u64, ElfError>(initial_rsp(top as int, a) as u64) && final(space)@
                    == frame_written(s, top as int, a).space
            }
        }),
{
    match write_initial_stack_frame(top, argv) {
        Ok((rsp, bytes)) => {
            proof {
                lemma_frame_fits(top as int, arg_bytes(argv@));
            }
            let n: usize = bytes.len();
            space.write_page(top - PAGE_SIZE, (rsp % 0x1000) as usize, bytes.as_slice(), 0, n);
            assert(bytes@.subrange(0, n as int) =~= bytes@);
            Ok(rsp)
        },
        Err(e) => Err(e),
    }
}

/// Load a static binary into a fresh address space, with a stack and the
/// initial frame for its arguments.
#[verifier::spinoff_prover]
pub fn load_image(
    elf_data: &[u8],
    argv: &[&str],
    frames: &mut Frames,
    slots: &mut StackSlots,
) -> (r: Result<UserImage, ElfError>)
    requires
        old(frames).wf(),
    ensures
        final(frames).wf(),
        ({
            let (s, result) = image_loaded(
                old(frames)@,
                old(slots).next,
                elf_data@,
                arg_bytes(argv@),
            );
            &&& final(frames)@ == s.used
            &&& match result {
                Ok((entry, rsp)) => r matches Ok(image) && image.space.wf() && image.space@
                    == s.space && image.entry == entry && image.rsp == rsp,
                Err(e) => r matches Err(err) && err == e,
            }
        }),
        final(slots).next == if takes_slot(old(frames)@, elf_data@) {
            (old(slots).next + 1) % 0x1_0000_0000_0000_0000
        } else {
            old(slots).next as int
        },
{
    let h: Elf64Ehdr = match read_ehdr(elf_data) {
        Ok(h) => h,
        Err(e) => {
            return Err(e);
        },
    };
    let mut space = UserSpace::new();
    match load_segments(elf_data, &h, &mut space, frames) {
        Ok(_) => {},
        Err(e) => {
            return Err(e);
        },
    }
    let ghost slot = slots.next as int;
    let ghost s1 = LoadView { space: space@, used: frames@ };
    let top: u64 = match alloc_user_stack_into(&mut space, frames, slots) {
        Ok(top) => top,
        Err(e) => {
            return Err(e);
        },
    };
    proof {
        lemma_stack_top_mapped(s1, slot);
    }
    match place_frame(&mut space, frames, top, argv) {
        Ok(rsp) => Ok(UserImage { space, entry: h.e_entry, rsp }),
        Err(e) => Err(e),
    }
}

/// The name of a new task: its first argument, or `user`.
pub open spec fn task_name(argv: Seq<Seq<u8>>) -> Seq<u8> {
    if argv.len() > 0 {
        argv[0]
    } else {
        seq![0x75u8, 0x73, 0x65, 0x72]
    }
}

/// Load a static binary and add a task that enters it. The task inherits the
/// capabilities of the current task that `caps` names. Its kernel stack is
/// allocated at `base`, with a guard page whose frame is `guard_phys`; its page
/// table is at `page_table`. The result is the task and the address space to
/// fill that table from.
pub fn exec(
    sched: &mut Scheduler,
    ids: &mut CapIds,
    frames: &mut Frames,
    slots: &mut StackSlots,
    base: u64,
    guard_phys: u64,
    page_table: u64,
    elf_data: &[u8],
    caps: &[CapHandle],
    argv: &[&str],
) -> (r: Result<(TaskId, UserSpace), ElfError>)
    requires
        old(sched).wf(),
        old(sched).next_id < u64::MAX,
        old(frames).wf(),
        base + STACK_ALLOC <= u64::MAX,
    ensures
        final(sched).wf(),
        final(frames).wf(),
        final(slots).next == if takes_slot(old(frames)@, elf_data@) {
            (old(slots).next + 1) % 0x1_0000_0000_0000_0000
        } else {
            old(slots).next as int
        },
        ({
            let a = arg_bytes(argv@);
            let (s, result) = image_loaded(old(frames)@, old(slots).next, elf_data@, a);
            &&& final(frames)@ == s.used
            &&& match result {
                Ok((entry, rsp)) => {
                    &&& r matches Ok((id, space)) && id == old(sched).next_id && space.wf()
                        && space@ == s.space
                    &&& (final(sched)@, *final(ids)) == user_joined(
                        old(sched)@,
                        *old(ids),
                        kernel_task(old(sched)@, plan_of(base), guard_phys),
                        entry,
                        rsp,
                        caps@,
                        page_table,
                        task_name(a),
                    )
                },
                Err(e) => {
                    &&& r matches Err(err) && err == e
                    &&& final(sched)@ == old(sched)@
                    &&& *final(ids) == *old(ids)
                },
            }
        }),
{
    match load_image(elf_data, argv, frames, slots) {
        Err(e) => Err(e),
        Ok(image) => {
            let user: [u8; 4] = [0x75, 0x73, 0x65, 0x72];
            assert(user@ =~= seq![0x75u8, 0x73, 0x65, 0x72]);
            let name: &[u8] = if argv.len() > 0 {
                argv[0].as_bytes()
            } else {
                user.as_slice()
            };
            assert(name@ == task_name(arg_bytes(argv@)));
            let id: TaskId = sched.spawn_userspace_task(
                ids,
                base,
                guard_phys,
                image.entry,
                image.rsp,
                caps,
                page_table,
                name,
            );
            Ok((id, image.space))
        },
    }
}

// ── Laws ─────────────────────────────────────────────────────────────────────

/// The byte at an address.
pub open spec fn byte_at(space: SpaceView, va: int) -> u8 {
    space[(va - va % 0x1000) as u64].data[va % 0x1000]
}

/// The page that holds an address.
pub open spec fn page_of(va: int) -> u64 {
    (va - va % 0x1000) as u64
}

/// A binary with a program header that does not lie within the file, or with a
/// segment to load that does not lie within the file or the address space, is
/// refused. Where the headers before it load, the error says which it was.
pub proof fn law_a_bad_program_header_is_refused(
    used: Used,
    next: u64,
    file: Seq<u8>,
    argv: Seq<Seq<u8>>,
    n: nat,
)
    requires
        header_fault(file) is None,
        n < ehdr_of(file).e_phnum,
        match phdr_of(file, ehdr_of(file), n as int) {
            None => true,
            Some(ph) => ph.p_type == PT_LOAD && !segment_in_bounds(file, ph),
        },
    ensures
        image_loaded(used, next, file, argv).1 is Err,
        segments_loaded(LoadView { space: Map::empty(), used }, file, ehdr_of(file), n).1 is Ok
            ==> image_loaded(used, next, file, argv).1 == Err::<(u64, u64), ElfError>(
            if phdr_of(file, ehdr_of(file), n as int) is None {
                ElfError::BadProgramHeader
            } else {
                ElfError::SegmentOutOfBounds
            },
        ),
{
    let s0 = LoadView { space: Map::empty(), used };
    let h = ehdr_of(file);
    if segments_loaded(s0, file, h, n).1 is Err {
        lemma_failed_segments(s0, file, h, n, h.e_phnum as nat);
    } else {
        assert(segments_loaded(s0, file, h, n + 1).1 is Err);
        lemma_failed_segments(s0, file, h, n + 1, h.e_phnum as nat);
    }
}

/// A segment that was loaded holds the file's bytes, and zeros behind them on
/// pages that were not mapped before.
pub proof fn law_loaded_segment_holds_the_file(
    s: LoadView,
    file: Seq<u8>,
    ph: Elf64Phdr,
    va: int,
)
    requires
        space_ok(s.space),
        ph.p_filesz <= ph.p_memsz,
        segment_loaded(s, file, ph).1 is Ok,
        ph.p_vaddr <= va < ph.p_vaddr + ph.p_memsz,
    ensures
        ({
            let after = segment_loaded(s, file, ph).0.space;
            &&& after.contains_key(page_of(va))
            &&& after[page_of(va)].flags == flags_of(ph.p_flags)
            &&& va < ph.p_vaddr + ph.p_filesz ==> byte_at(after, va) == file[ph.p_offset + (va
                - ph.p_vaddr)]
            &&& va >= ph.p_vaddr + ph.p_filesz && !s.space.contains_key(page_of(va)) ==> byte_at(
                after,
                va,
            ) == 0
        }),
{
    let n = page_span(ph);
    let i = va / 0x1000 - ph.p_vaddr as int / 0x1000;
    assert(0 <= i < n);
    assert(first_page(ph) + i * 0x1000 == va - va % 0x1000);
    lemma_pages_hold(s, file, ph, n, i, va % 0x1000);
}

proof fn lemma_pages_hold(s: LoadView, file: Seq<u8>, ph: Elf64Phdr, n: nat, i: int, k: int)
    requires
        space_ok(s.space),
        pages_loaded(s, file, ph, n).1,
        0 <= i < n,
        n <= page_span(ph),
        0 <= k < 0x1000,
        ph.p_vaddr + ph.p_memsz + 0xFFF <= u64::MAX,
    ensures
        ({
            let after = pages_loaded(s, file, ph, n).0.space;
            let page = (first_page(ph) + i * 0x1000) as u64;
            let va = first_page(ph) + i * 0x1000 + k;
            &&& after.contains_key(page)
            &&& after[page].data.len() == PAGE_SIZE
            &&& after[page].flags == flags_of(ph.p_flags)
            &&& ph.p_vaddr <= va < ph.p_vaddr + ph.p_filesz ==> after[page].data[k]
                == file[ph.p_offset + (va - ph.p_vaddr)]
            &&& !(ph.p_vaddr <= va < ph.p_vaddr + ph.p_filesz) && !s.space.contains_key(page)
                ==> after[page].data[k] == 0
        }),
    decreases n,
{
    let s1 = pages_loaded(s, file, ph, (n - 1) as nat).0;
    let last = (first_page(ph) + (n - 1) * 0x1000) as u64;
    lemma_pages_ok(s, file, ph, (n - 1) as nat);
    if i < n - 1 {
        lemma_pages_hold(s, file, ph, (n - 1) as nat, i, k);
        assert((first_page(ph) + i * 0x1000) as u64 != last);
    } else {
        lemma_pages_new(s, file, ph, (n - 1) as nat, last);
    }
}

proof fn lemma_pages_ok(s: LoadView, file: Seq<u8>, ph: Elf64Phdr, n: nat)
    requires
        space_ok(s.space),
    ensures
        space_ok(pages_loaded(s, file, ph, n).0.space),
    decreases n,
{
    if n > 0 {
        lemma_pages_ok(s, file, ph, (n - 1) as nat);
    }
}

/// Loading the pages below `va` neither maps nor changes the page at `va`.
proof fn lemma_pages_new(s: LoadView, file: Seq<u8>, ph: Elf64Phdr, n: nat, va: u64)
    requires
        n < page_span(ph),
        va >= first_page(ph) + n * 0x1000,
        ph.p_vaddr + ph.p_memsz + 0xFFF <= u64::MAX,
    ensures
        pages_loaded(s, file, ph, n).0.space.contains_key(va) == s.space.contains_key(va),
        s.space.contains_key(va) ==> pages_loaded(s, file, ph, n).0.space[va] == s.space[va],
    decreases n,
{
    if n > 0 {
        lemma_pages_new(s, file, ph, (n - 1) as nat, va);
        assert(((first_page(ph) + (n - 1) * 0x1000) as u64) < va);
    }
}

/// No two pages share a frame, and every frame that is mapped is in use.
pub open spec fn frames_owned(s: LoadView) -> bool {
    &&& s.used.len() == MAX_FRAMES
    &&& forall|va: u64| #[trigger]
        s.space.contains_key(va) ==> {
            let f = s.space[va].frame.0 as int;
            f % 4096 == 0 && 0 <= f / 4096 < s.used.len() && s.used[f / 4096]
        }
    &&& forall|a: u64, b: u64|
        #[trigger] s.space.contains_key(a) && #[trigger] s.space.contains_key(b) && a != b
            ==> s.space[a].frame != s.space[b].frame
}

proof fn lemma_added_owned(s: LoadView, va: u64, flags: PageFlags)
    requires
        frames_owned(s),
        page_added(s, va, flags) is Some,
    ensures
        frames_owned(page_added(s, va, flags)->0),
{
    let i = lowest_free(s.used, 0)->0;
    lemma_lowest_free_bounds(s.used, 0);
    assert((i * 4096) / 4096 == i && (i * 4096) % 4096 == 0);
}

proof fn lemma_page_owned(s: LoadView, file: Seq<u8>, ph: Elf64Phdr, va: u64)
    requires
        frames_owned(s),
        page_loaded(s, file, ph, va) is Some,
    ensures
        frames_owned(page_loaded(s, file, ph, va)->0),
{
    if !s.space.contains_key(va) {
        lemma_added_owned(s, va, flags_of(ph.p_flags));
        lemma_same_frames(page_added(s, va, flags_of(ph.p_flags))->0, page_loaded(s, file, ph, va)->0);
    } else {
        lemma_same_frames(s, page_loaded(s, file, ph, va)->0);
    }
}

proof fn lemma_same_frames(s: LoadView, t: LoadView)
    requires
        frames_owned(s),
        t.used == s.used,
        forall|va: u64| #[trigger] t.space.contains_key(va) ==> s.space.contains_key(va) && t.space[va].frame == s.space[va].frame,
    ensures
        frames_owned(t),
{
    assert forall|a: u64, b: u64|
        #[trigger] t.space.contains_key(a) && #[trigger] t.space.contains_key(b) && a != b implies
        t.space[a].frame != t.space[b].frame by {
        assert(s.space.contains_key(a) && s.space.contains_key(b));
    }
}

proof fn lemma_pages_owned(s: LoadView, file: Seq<u8>, ph: Elf64Phdr, n: nat)
    requires
        frames_owned(s),
    ensures
        frames_owned(pages_loaded(s, file, ph, n).0),
    decreases n,
{
    if n > 0 {
        lemma_pages_owned(s, file, ph, (n - 1) as nat);
        let s1 = pages_loaded(s, file, ph, (n - 1) as nat).0;
        let va = (first_page(ph) + (n - 1) * 0x1000) as u64;
        if page_loaded(s1, file, ph, va) is Some {
            lemma_page_owned(s1, file, ph, va);
        }
    }
}

proof fn lemma_segments_owned(s: LoadView, file: Seq<u8>, h: Elf64Ehdr, n: nat)
    requires
        frames_owned(s),
    ensures
        frames_owned(segments_loaded(s, file, h, n).0),
    decreases n,
{
    if n > 0 {
        lemma_segments_owned(s, file, h, (n - 1) as nat);
        let s1 = segments_loaded(s, file, h, (n - 1) as nat).0;
        match phdr_of(file, h, n - 1) {
            Some(ph) => {
                lemma_pages_owned(s1, file, ph, page_span(ph));
            },
            None => {},
        }
    }
}

proof fn lemma_stack_owned(s: LoadView, slot: int, n: nat)
    requires
        frames_owned(s),
    ensures
        frames_owned(stack_mapped(s, slot, n).0),
    decreases n,
{
    if n == 0 {
        if page_added(s, slot_base(slot) as u64, PageFlags(0x8000_0000_0000_0001)) is Some {
            lemma_added_owned(s, slot_base(slot) as u64, PageFlags(0x8000_0000_0000_0001));
        }
    } else {
        lemma_stack_owned(s, slot, (n - 1) as nat);
        let s1 = stack_mapped(s, slot, (n - 1) as nat).0;
        let va = (slot_base(slot) + n * PAGE_SIZE) as u64;
        if page_added(s1, va, PageFlags(PageFlags::USER_RW)) is Some {
            lemma_added_owned(s1, va, PageFlags(PageFlags::USER_RW));
        }
    }
}

/// Whatever is loaded, no two of its pages share a frame, and each of its
/// frames is in use.
pub proof fn law_pages_share_no_frame(
    used: Used,
    next: u64,
    file: Seq<u8>,
    argv: Seq<Seq<u8>>,
)
    requires
        used.len() == MAX_FRAMES,
    ensures
        frames_owned(image_loaded(used, next, file, argv).0),
{
    let s0 = LoadView { space: Map::empty(), used };
    let h = ehdr_of(file);
    lemma_segments_owned(s0, file, h, h.e_phnum as nat);
    let s1 = segments_loaded(s0, file, h, h.e_phnum as nat).0;
    lemma_stack_owned(s1, next as int, USER_STACK_PAGES as nat);
    if image_loaded(used, next, file, argv).1 is Ok {
        lemma_stack_top_mapped(s1, next as int);
    }
}

/// Stacks in different slots have no page in common, and all lie within the
/// user half.
pub proof fn law_stack_slots_are_apart(a: int, b: int)
    requires
        0 <= a < b < MAX_STACK_SLOTS,
    ensures
        STACK_GUARD_VA <= slot_base(a),
        slot_top(a) < slot_base(b),
        slot_top(b) <= 0x8000_0000_0000,
{
}

/// Below a stack lies a page that is there but not for users, and above it lies
/// one that is not mapped by it: running off either end faults.
pub proof fn law_a_stack_is_guarded(s: LoadView, slot: int, n: nat)
    requires
        0 <= slot < MAX_STACK_SLOTS,
        n <= USER_STACK_PAGES,
        stack_mapped(s, slot, n).1,
    ensures
        ({
            let after = stack_mapped(s, slot, n).0.space;
            &&& after.contains_key(slot_base(slot) as u64)
            &&& after[slot_base(slot) as u64].flags.0 & PageFlags::USER == 0
            &&& after.contains_key(slot_top(slot) as u64) == s.space.contains_key(
                slot_top(slot) as u64,
            )
        }),
    decreases n,
{
    assert(0x8000_0000_0000_0001u64 & 4 == 0) by (bit_vector);
    if n > 0 {
        law_a_stack_is_guarded(s, slot, (n - 1) as nat);
    }
}

/// A new process finds its arguments: the count at its stack pointer, which is
/// on a 16-byte boundary, then a pointer to each argument, where its bytes stand
/// with a terminator.
pub proof fn law_arguments_are_found(top: int, argv: Seq<Seq<u8>>, i: int)
    requires
        top % 0x1000 == 0,
        PAGE_SIZE <= top <= u64::MAX,
        table_len(argv) + strings_len(argv) <= MAX_FRAME_BYTES,
        0 <= i < argv.len(),
    ensures
        ({
            let rsp = initial_rsp(top, argv);
            let f = frame_bytes(argv, rsp);
            let p = le64_at(f, 8 + 8 * i) - rsp;
            &&& rsp % 16 == 0
            &&& le64_at(f, 0) == argv.len()
            &&& 0 <= p && p + argv[i].len() + 1 <= f.len()
            &&& f.subrange(p, p + argv[i].len()) == argv[i]
            &&& f[p + argv[i].len()] == 0
        }),
{
    let rsp = initial_rsp(top, argv);
    let f = frame_bytes(argv, rsp);
    let base = rsp + table_len(argv);
    lemma_frame_fits(top, argv);
    lemma_argument(argv, base, i);
    let at = strings_len(argv.take(i)) as int;
    lemma_frame_parts(argv, rsp);
    assert(f.subrange(0, 8) == le64(argv.len() as u64));
    lemma_le64_round(f, 0, argv.len() as u64);
    let ptrs = f.subrange(8, (8 + 8 * argv.len()) as int);
    assert(ptrs.subrange(8 * i, 8 * i + 8) =~= f.subrange(8 + 8 * i, 8 + 8 * i + 8));
    lemma_le64_round(f, 8 + 8 * i, (base + at) as u64);
    let p = table_len(argv) + at;
    let n = argv[i].len();
    let text = f.subrange(table_len(argv) as int, f.len() as int);
    assert(text.subrange(at, at + n) =~= f.subrange(p, p + n));
    assert(text[at + n] == f[p + n]);
}

/// The parts of the initial frame.
proof fn lemma_frame_parts(argv: Seq<Seq<u8>>, rsp: int)
    requires
        argv.len() <= u64::MAX,
    ensures
        ({
            let f = frame_bytes(argv, rsp);
            &&& f.len() == table_len(argv) + strings_len(argv)
            &&& f.subrange(0, 8) == le64(argv.len() as u64)
            &&& f.subrange(8, (8 + 8 * argv.len()) as int) == pointers(argv, rsp + table_len(argv))
            &&& f.subrange(table_len(argv) as int, f.len() as int) == strings(argv)
        }),
{
    lemma_part_lens(argv, rsp + table_len(argv));
    lemma_joined_parts(
        le64(argv.len() as u64),
        pointers(argv, rsp + table_len(argv)),
        le64(0),
        le64(6),
        le64(4096),
        strings(argv),
    );
}

proof fn lemma_joined_parts(
    a: Seq<u8>,
    b: Seq<u8>,
    z: Seq<u8>,
    t: Seq<u8>,
    v: Seq<u8>,
    d: Seq<u8>,
)
    requires
        a.len() == 8,
        z.len() == 8,
        t.len() == 8,
        v.len() == 8,
    ensures
        ({
            let f = a + b + z + z + t + v + z + z + d;
            &&& f.len() == 56 + b.len() + d.len()
            &&& f.subrange(0, 8) == a
            &&& f.subrange(8, (8 + b.len()) as int) == b
            &&& f.subrange((56 + b.len()) as int, f.len() as int) == d
        }),
{
    let f = a + b + z + z + t + v + z + z + d;
    assert(f.subrange(0, 8) =~= a);
    assert(f.subrange(8, (8 + b.len()) as int) =~= b);
    assert(f.subrange((56 + b.len()) as int, f.len() as int) =~= d);
}

proof fn lemma_take_len(argv: Seq<Seq<u8>>, i: int)
    requires
        0 <= i < argv.len(),
    ensures
        strings_len(argv.take(i)) + argv[i].len() + 1 <= strings_len(argv),
    decreases argv.len(),
{
    if i == argv.len() - 1 {
        assert(argv.take(i) =~= argv.drop_last());
    } else {
        assert(argv.drop_last().take(i) =~= argv.take(i));
        lemma_take_len(argv.drop_last(), i);
    }
}

proof fn lemma_argument(argv: Seq<Seq<u8>>, base: int, i: int)
    requires
        0 <= i < argv.len(),
    ensures
        ({
            let at = strings_len(argv.take(i)) as int;
            &&& pointers(argv, base).len() == 8 * argv.len()
            &&& pointers(argv, base).subrange(8 * i, 8 * i + 8) == le64((base + at) as u64)
            &&& strings(argv).len() == strings_len(argv)
            &&& at + argv[i].len() + 1 <= strings_len(argv)
            &&& strings(argv).subrange(at, at + argv[i].len()) == argv[i]
            &&& strings(argv)[at + argv[i].len()] == 0
        }),
    decreases argv.len(),
{
    let at = strings_len(argv.take(i)) as int;
    let head = argv.drop_last();
    lemma_part_lens(argv, base);
    lemma_part_lens(head, base);
    lemma_take_len(argv, i);
    if i == argv.len() - 1 {
        assert(argv.take(i) =~= head);
        assert(pointers(argv, base).subrange(8 * i, 8 * i + 8) =~= le64((base + at) as u64));
        assert(strings(argv).subrange(at, at + argv[i].len()) =~= argv[i]);
    } else {
        assert(head.take(i) =~= argv.take(i));
        lemma_argument(head, base, i);
        lemma_take_len(head, i);
        assert(pointers(argv, base).subrange(8 * i, 8 * i + 8) =~= pointers(head, base).subrange(
            8 * i,
            8 * i + 8,
        ));
        assert(strings(argv).subrange(at, at + argv[i].len()) =~= strings(head).subrange(
            at,
            at + argv[i].len(),
        ));
    }
}

} // verus!
