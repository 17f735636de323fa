//! What holds of memory: which frames are free, how they are handed out, and what a
//! binary finds in its address space.

use vstd::prelude::*;
use crate::bytes::{le16_at, le32_at, le64, le64_at, lemma_le64_round, zeros};
use crate::elf::{
    ehdr_of, first_page, flags_of, frame_bytes, header_fault, image_loaded, initial_rsp, page_span,
    pages_loaded, phdr_of, pointers, segment_in_bounds, segment_loaded, slot_base, slot_top,
    stack_mapped, strings, strings_len, table_len, Elf64Phdr, ElfError, LoadView,
};
use crate::heap::{first_fit, given_back, rounded, taken_from, FreeBlock};
use crate::pmm::{
    all_freed, frames_taken, free_at_boot, free_below, holds_frame, lemma_lowest_free_bounds,
    lowest_free, run_free, run_of, touches, usable_in, with_run, PhysAddr, Used,
};

verus! {

// ── Frames ───────────────────────────────────────────────────────────────────

/// A frame is free at boot exactly where one usable region of the memory map, which
/// are those of type 0, holds all of its bytes and the kernel none of them. The
/// first frame is never free.
pub proof fn law_what_is_free_at_boot(
    entries: Seq<(u64, u64, u64)>,
    kernel_base: u64,
    kernel_end: u64,
    i: int,
)
    requires
        0 <= i,
    ensures
        free_at_boot(entries, kernel_base, kernel_end, i) == (i != 0 && (exists|k: int|
            0 <= k < entries.len() && (#[trigger] entries[k]).2 == 0 && (forall|a: int|
                #![trigger in_frame(i, a)]
                in_frame(i, a) ==> entries[k].0 <= a < entries[k].0 + entries[k].1)) && (forall|
            a: int,
        |
            #![trigger in_frame(i, a)]
            in_frame(i, a) ==> !(kernel_base <= a < kernel_end))),
{
    assert forall|k: int| 0 <= k < entries.len() implies holds_frame(#[trigger] entries[k], i) == (
    entries[k].2 == 0 && (forall|a: int|
        #![trigger in_frame(i, a)]
        in_frame(i, a) ==> entries[k].0 <= a < entries[k].0 + entries[k].1)) by {
        assert(in_frame(i, i * 4096));
        assert(in_frame(i, i * 4096 + 4095));
    }
    if usable_in(entries, entries.len() as int, i) {
        let k = choose|k: int|
            0 <= k < entries.len() && holds_frame(#[trigger] entries[k], i);
        assert(entries[k].2 == 0);
    }
    if touches(kernel_base, kernel_end, i) {
        let a = if kernel_base <= i * 4096 {
            i * 4096
        } else {
            kernel_base as int
        };
        assert(in_frame(i, a));
        assert(kernel_base <= a < kernel_end);
    }
    assert forall|a: int|
        #![trigger in_frame(i, a)]
        in_frame(i, a) && kernel_base <= a < kernel_end implies touches(
        kernel_base,
        kernel_end,
        i,
    ) by {}
}

/// A byte lies in a frame.
pub open spec fn in_frame(i: int, a: int) -> bool {
    i * 4096 <= a < i * 4096 + 4096
}

/// The frame that is handed out is the lowest that is free, and one is handed out
/// whenever one is free.
pub proof fn law_the_lowest_frame_is_handed_out(used: Used, i: int)
    requires
        0 <= i < used.len(),
        !used[i],
    ensures
        lowest_free(used, 0) is Some,
        0 <= lowest_free(used, 0)->0 <= i,
        !used[lowest_free(used, 0)->0],
{
    lemma_lowest_free_bounds(used, 0);
}

/// The free frames are counted one by one: none where all are in use, and one less
/// for each that is taken into use.
pub proof fn law_free_frames_are_counted(used: Used, n: int, i: int)
    requires
        0 <= n <= used.len(),
    ensures
        (forall|j: int| 0 <= j < n ==> #[trigger] used[j]) ==> free_below(used, n) == 0,
        (forall|j: int| 0 <= j < n ==> !#[trigger] used[j]) ==> free_below(used, n) == n,
        0 <= i < n && !used[i] ==> free_below(used.update(i, true), n) + 1 == free_below(used, n),
        0 <= i < n && used[i] ==> free_below(used.update(i, false), n) == free_below(used, n) + 1,
    decreases n,
{
    if n > 0 {
        law_free_frames_are_counted(used, n - 1, i);
        if i == n - 1 {
            lemma_not_counted(used, n - 1, i, true);
            lemma_not_counted(used, n - 1, i, false);
        }
    }
}

proof fn lemma_not_counted(used: Used, n: int, i: int, mark: bool)
    requires
        0 <= n <= i < used.len(),
    ensures
        free_below(used.update(i, mark), n) == free_below(used, n),
    decreases n,
{
    if n > 0 {
        lemma_not_counted(used, n - 1, i, mark);
    }
}

/// Frames that are taken one after another were all free, no two are the same, they
/// come in rising order, and they and no others are in use afterwards. There are as
/// many as were asked for, unless none is left.
pub proof fn law_frames_are_taken_in_order(used: Used, n: nat)
    requires
        used.len() <= 0x10_0000,
    ensures
        ({
            let (u, v) = frames_taken(used, n);
            &&& v.len() <= n
            &&& u.len() == used.len()
            &&& v.len() < n ==> forall|i: int| 0 <= i < u.len() ==> #[trigger] u[i]
            &&& forall|j: int|
                0 <= j < v.len() ==> {
                    let i = (#[trigger] v[j]).0 as int / 4096;
                    v[j].0 as int == i * 4096 && 0 <= i < used.len() && !used[i] && u[i]
                }
            &&& forall|j: int, m: int|
                0 <= j < m < v.len() ==> (#[trigger] v[j]).0 < (#[trigger] v[m]).0
            &&& forall|i: int|
                0 <= i < used.len() ==> (#[trigger] u[i] == (used[i] || exists|j: int|
                    0 <= j < v.len() && (#[trigger] v[j]).0 as int == i * 4096))
        }),
    decreases n,
{
    if n > 0 {
        law_frames_are_taken_in_order(used, (n - 1) as nat);
        lemma_taken_below(used, (n - 1) as nat);
        let (u0, v0) = frames_taken(used, (n - 1) as nat);
        let (u, v) = frames_taken(used, n);
        lemma_lowest_free_bounds(u0, 0);
        if lowest_free(u0, 0) is Some && v0.len() == n - 1 {
            let i = lowest_free(u0, 0)->0;
            assert(v[v0.len() as int].0 == i * 4096);
            assert((i * 4096) / 4096 == i);
            assert forall|k: int| 0 <= k < used.len() implies (#[trigger] u[k] == (used[k] || exists|
                j: int,
            |
                0 <= j < v.len() && (#[trigger] v[j]).0 as int == k * 4096)) by {
                if k == i {
                    assert(v[v0.len() as int].0 as int == k * 4096);
                } else {
                    assert(u[k] == u0[k]);
                    if exists|j: int| 0 <= j < v.len() && (#[trigger] v[j]).0 as int == k * 4096 {
                        let j = choose|j: int|
                            0 <= j < v.len() && (#[trigger] v[j]).0 as int == k * 4096;
                        assert(j < v0.len());
                        assert(v0[j].0 as int == k * 4096);
                    }
                    if exists|j: int| 0 <= j < v0.len() && (#[trigger] v0[j]).0 as int == k * 4096 {
                        let j = choose|j: int|
                            0 <= j < v0.len() && (#[trigger] v0[j]).0 as int == k * 4096;
                        assert(v[j].0 as int == k * 4096);
                    }
                }
            }
            assert forall|j: int| 0 <= j < v.len() implies ({
                let k = (#[trigger] v[j]).0 as int / 4096;
                v[j].0 as int == k * 4096 && 0 <= k < used.len() && !used[k] && u[k]
            }) by {
                if j < v0.len() {
                    assert(v[j] == v0[j]);
                }
            }
            assert forall|j: int, m: int| 0 <= j < m < v.len() implies (#[trigger] v[j]).0 < (
            #[trigger] v[m]).0 by {
                assert(v[j] == v0[j]);
                let a = v0[j].0 as int / 4096;
                if m < v0.len() {
                    assert(v[m] == v0[m]);
                } else {
                    assert(u0[a]);
                    assert(a < i) by {
                        if a > i {
                            assert(u0[i]);
                        }
                    }
                }
            }
        }
    }
}

/// Below a frame that was taken none is free.
proof fn lemma_taken_below(used: Used, n: nat)
    requires
        used.len() <= 0x10_0000,
    ensures
        ({
            let (u, v) = frames_taken(used, n);
            &&& u.len() == used.len()
            &&& forall|j: int, i: int|
                0 <= j < v.len() && 0 <= i < u.len() && i * 4096 <= (#[trigger] v[j]).0
                    ==> #[trigger] u[i]
        }),
    decreases n,
{
    if n > 0 {
        lemma_taken_below(used, (n - 1) as nat);
        let (u0, v0) = frames_taken(used, (n - 1) as nat);
        let (u, v) = frames_taken(used, n);
        lemma_lowest_free_bounds(u0, 0);
        assert forall|j: int, i: int|
            0 <= j < v.len() && 0 <= i < u.len() && i * 4096 <= (
            #[trigger] v[j]).0 implies #[trigger] u[i] by {
            if j < v0.len() {
                assert(v[j] == v0[j]);
                assert(u0[i]);
            }
        }
    }
}

/// A run of frames is the lowest of its length that is free, and there is one
/// whenever as many in a row are free.
pub proof fn law_the_lowest_run_is_handed_out(used: Used, n: int, k: int, from: int)
    requires
        n > 0,
        0 <= from <= k,
        k + n <= used.len(),
        forall|i: int| k <= i < k + n ==> !#[trigger] used[i],
    ensures
        run_of(used, n, from) is Some,
        from <= run_of(used, n, from)->0 <= k,
        forall|i: int|
            run_of(used, n, from)->0 <= i < run_of(used, n, from)->0 + n ==> !#[trigger] used[i],
        forall|a: int|
            from <= a < run_of(used, n, from)->0 ==> !(#[trigger] run_free(used, a, a + n)),
    decreases k - from,
{
    if run_free(used, from, from + n) {
    } else {
        assert(from != k) by {
            if from == k {
                assert(run_free(used, from, from + n));
            }
        }
        law_the_lowest_run_is_handed_out(used, n, k, from + 1);
    }
}

/// Marking a run changes exactly the frames of the run, and giving a list of frames
/// back frees exactly those.
pub proof fn law_only_the_run_changes(
    used: Used,
    from: int,
    to: int,
    mark: bool,
    list: Seq<PhysAddr>,
    i: int,
)
    requires
        0 <= i < used.len(),
    ensures
        with_run(used, from, to, mark).len() == used.len(),
        from <= i < to ==> with_run(used, from, to, mark)[i] == mark,
        !(from <= i < to) ==> with_run(used, from, to, mark)[i] == used[i],
        all_freed(used, list).len() == used.len(),
        (exists|j: int| 0 <= j < list.len() && (#[trigger] list[j]).0 == i * 4096) ==> !all_freed(
            used,
            list,
        )[i],
        !(exists|j: int| 0 <= j < list.len() && (#[trigger] list[j]).0 == i * 4096) ==> all_freed(
            used,
            list,
        )[i] == used[i],
{
}

// ── The heap ─────────────────────────────────────────────────────────────────

/// A request is rounded up to the next sixteen bytes, and takes at least those.
pub proof fn law_a_request_is_rounded_up(size: u64)
    ensures
        rounded(size) % 16 == 0,
        rounded(size) >= 16,
        rounded(size) >= size,
        rounded(size) < size + 16 || size == 0,
        size == 0 ==> rounded(size) == 16,
{
}

/// Memory comes from the first block that is large enough, and there is some whenever
/// one is. What is left of the block stays free where it is worth it, right behind
/// what was handed out and up to where the block ended; no other block changes.
pub proof fn law_the_first_block_that_fits_is_used(free: Seq<FreeBlock>, n: int, k: int)
    requires
        0 <= k < free.len(),
        free[k].size >= n,
        n >= 0,
        forall|j: int|
            0 <= j < free.len() ==> (#[trigger] free[j]).addr + 16 + free[j].size <= u64::MAX,
    ensures
        ({
            let i = first_fit(free, n, 0);
            let b = free[i];
            let after = taken_from(free, n, i);
            &&& 0 <= i <= k
            &&& b.size >= n
            &&& forall|j: int| 0 <= j < i ==> (#[trigger] free[j]).size < n
            &&& b.size >= n + 32 ==> {
                &&& after.len() == free.len()
                &&& after[i].addr == b.addr + 16 + n
                &&& after[i].addr + 16 + after[i].size == b.addr + 16 + b.size
                &&& forall|j: int|
                    0 <= j < free.len() && j != i ==> #[trigger] after[j] == free[j]
            }
            &&& b.size < n + 32 ==> after == free.remove(i)
        }),
{
    lemma_first_fit_at(free, n, 0, k);
}

proof fn lemma_first_fit_at(free: Seq<FreeBlock>, n: int, from: int, k: int)
    requires
        0 <= from <= k < free.len(),
        free[k].size >= n,
    ensures
        from <= first_fit(free, n, from) <= k,
        free[first_fit(free, n, from)].size >= n,
        forall|j: int| from <= j < first_fit(free, n, from) ==> (#[trigger] free[j]).size < n,
    decreases k - from,
{
    if free[from].size < n {
        lemma_first_fit_at(free, n, from + 1, k);
    }
}

/// Where no block is large enough, nothing is handed out.
pub proof fn law_nothing_fits_where_nothing_is_large_enough(free: Seq<FreeBlock>, n: int, from: int)
    requires
        0 <= from <= free.len(),
        forall|j: int| 0 <= j < free.len() ==> (#[trigger] free[j]).size < n,
    ensures
        first_fit(free, n, from) == free.len(),
    decreases free.len() - from,
{
    if from < free.len() {
        law_nothing_fits_where_nothing_is_large_enough(free, n, from + 1);
    }
}

/// What is given back is the whole of what was handed out, with the sixteen bytes
/// before it.
pub proof fn law_all_is_given_back(ptr: u64, size: u64)
    requires
        ptr >= 16,
        size <= u64::MAX - 16,
    ensures
        given_back(ptr, size).addr + 16 == ptr,
        given_back(ptr, size).size >= size,
        given_back(ptr, size).size % 16 == 0,
        given_back(ptr, size).size > 0,
        given_back(ptr, size).size < size + 16 || size == 0,
{
}

// ── Binaries ─────────────────────────────────────────────────────────────────

/// A page of a segment is there, and for users. It is written to exactly where the
/// second bit of the segment's flags says so, and executed exactly where the first
/// does.
pub proof fn law_a_segment_is_protected_as_it_says(p_flags: u32)
    ensures
        flags_of(p_flags).0 % 2 == 1,
        flags_of(p_flags).0 / 4 % 2 == 1,
        (flags_of(p_flags).0 / 2 % 2 == 1) == (p_flags / 2 % 2 == 1),
        (flags_of(p_flags).0 / 0x8000_0000_0000_0000 == 0) == (p_flags % 2 == 1),
        flags_of(p_flags).0 % 0x8000_0000_0000_0000 < 8,
{
}

/// The pages of a segment are those that hold one of its bytes, and loading it
/// changes no other page.
pub proof fn law_a_segment_takes_its_own_pages(
    s: LoadView,
    file: Seq<u8>,
    ph: Elf64Phdr,
    va: u64,
)
    requires
        ph.p_memsz > 0,
        segment_in_bounds(file, ph),
        va % 0x1000 == 0,
        va + 0x1000 <= ph.p_vaddr || va >= ph.p_vaddr + ph.p_memsz,
    ensures
        segment_loaded(s, file, ph).0.space.contains_key(va) == s.space.contains_key(va),
        s.space.contains_key(va) ==> segment_loaded(s, file, ph).0.space[va] == s.space[va],
        first_page(ph) % 0x1000 == 0,
        first_page(ph) <= ph.p_vaddr < first_page(ph) + 0x1000,
        first_page(ph) + page_span(ph) * 0x1000 >= ph.p_vaddr + ph.p_memsz,
        first_page(ph) + page_span(ph) * 0x1000 < ph.p_vaddr + ph.p_memsz + 0x1000,
{
    let n = page_span(ph);
    let a = ph.p_vaddr as int / 0x1000;
    let b = (ph.p_vaddr + ph.p_memsz + 0xFFF) / 0x1000;
    assert(first_page(ph) == a * 0x1000);
    assert(b >= a);
    assert(first_page(ph) + n * 0x1000 == b * 0x1000);
    lemma_other_page(s, file, ph, n, va);
}

proof fn lemma_other_page(s: LoadView, file: Seq<u8>, ph: Elf64Phdr, n: nat, va: u64)
    requires
        first_page(ph) % 0x1000 == 0,
        0 <= first_page(ph),
        first_page(ph) + n * 0x1000 <= u64::MAX,
        va % 0x1000 == 0,
        va < first_page(ph) || va >= first_page(ph) + n * 0x1000,
    ensures
        pages_loaded(s, file, ph, n).0.space.contains_key(va) == s.space.contains_key(va),
        s.space.contains_key(va) ==> pages_loaded(s, file, ph, n).0.space[va] == s.space[va],
    decreases n,
{
    if n > 0 {
        lemma_other_page(s, file, ph, (n - 1) as nat, va);
    }
}

/// A stack has 64 pages of zeros that users read and write but do not execute, right
/// above a guard page that is not for users, in a slot of its own below the end of
/// the user half.
pub proof fn law_a_stack_has_its_pages(s: LoadView, slot: int, n: nat, i: int)
    requires
        0 <= slot < 15887,
        n <= 64,
        stack_mapped(s, slot, n).1,
        1 <= i <= n,
    ensures
        slot_base(slot) == 0x7FFF_0000_0000 + slot * 0x4_2000,
        slot_top(slot) == slot_base(slot) + 65 * 4096,
        slot_top(slot) + 4096 <= 0x8000_0000_0000,
        ({
            let at = (slot_base(slot) + i * 4096) as u64;
            let after = stack_mapped(s, slot, n).0.space;
            &&& after.contains_key(at)
            &&& after[at].flags.0 == 0x8000_0000_0000_0007
            &&& after[at].data == zeros(4096)
        }),
    decreases n,
{
    if i < n {
        law_a_stack_has_its_pages(s, slot, (n - 1) as nat, i);
    }
}

/// What a process finds on its stack: the count of its arguments, as many pointers,
/// a zero behind them, a zero for an empty environment, the size of a page under its
/// number 6, and two zeros at the end. All of it lies below the top of the stack, as
/// close as sixteen bytes allow.
#[verifier::rlimit(40)]
#[verifier::spinoff_prover]
pub proof fn law_what_a_process_finds_on_its_stack(top: int, argv: Seq<Seq<u8>>)
    requires
        top >= 4096,
        table_len(argv) + strings_len(argv) <= 4080,
    ensures
        ({
            let rsp = initial_rsp(top, argv);
            let f = frame_bytes(argv, rsp);
            let n = 8 * argv.len() as int;
            &&& le64_at(f, 0) == argv.len()
            &&& le64_at(f, n + 8) == 0
            &&& le64_at(f, n + 16) == 0
            &&& le64_at(f, n + 24) == 6
            &&& le64_at(f, n + 32) == 4096
            &&& le64_at(f, n + 40) == 0
            &&& le64_at(f, n + 48) == 0
            &&& f.len() == n + 56 + strings_len(argv)
            &&& rsp % 16 == 0
            &&& rsp + f.len() <= top < rsp + f.len() + 16
        }),
{
    let rsp = initial_rsp(top, argv);
    let f = frame_bytes(argv, rsp);
    let n = 8 * argv.len() as int;
    lemma_lens(argv, rsp + table_len(argv));
    let p = pointers(argv, rsp + table_len(argv));
    assert(le64_at(f, 0) == argv.len()) by {
        assert(f.subrange(0, 8) =~= le64(argv.len() as u64));
        lemma_le64_round(f, 0, argv.len() as u64);
    }
    assert(le64_at(f, n + 8) == 0) by {
        assert(f.subrange(n + 8, n + 16) =~= le64(0));
        lemma_le64_round(f, n + 8, 0);
    }
    assert(le64_at(f, n + 16) == 0) by {
        assert(f.subrange(n + 16, n + 24) =~= le64(0));
        lemma_le64_round(f, n + 16, 0);
    }
    assert(le64_at(f, n + 24) == 6) by {
        assert(f.subrange(n + 24, n + 32) =~= le64(6));
        lemma_le64_round(f, n + 24, 6);
    }
    assert(le64_at(f, n + 32) == 4096) by {
        assert(f.subrange(n + 32, n + 40) =~= le64(4096));
        lemma_le64_round(f, n + 32, 4096);
    }
    assert(le64_at(f, n + 40) == 0) by {
        assert(f.subrange(n + 40, n + 48) =~= le64(0));
        lemma_le64_round(f, n + 40, 0);
    }
    assert(le64_at(f, n + 48) == 0) by {
        assert(f.subrange(n + 48, n + 56) =~= le64(0));
        lemma_le64_round(f, n + 48, 0);
    }
}

proof fn lemma_lens(argv: Seq<Seq<u8>>, base: int)
    ensures
        pointers(argv, base).len() == 8 * argv.len(),
        strings(argv).len() == strings_len(argv),
    decreases argv.len(),
{
    if argv.len() > 0 {
        lemma_lens(argv.drop_last(), base);
    }
}

/// A process is entered where its file says: at the address in bytes 24 to 31.
pub proof fn law_a_process_is_entered_where_it_says(
    used: Used,
    next: u64,
    file: Seq<u8>,
    argv: Seq<Seq<u8>>,
)
    requires
        image_loaded(used, next, file, argv).1 is Ok,
    ensures
        file.len() >= 64,
        file[0] == 0x7F && file[1] == 0x45 && file[2] == 0x4C && file[3] == 0x46,
        (image_loaded(used, next, file, argv).1->Ok_0).0 == le64_at(file, 24),
        next < 15887,
        (image_loaded(used, next, file, argv).1->Ok_0).1 == initial_rsp(
            0x7FFF_0000_0000 + next * 0x4_2000 + 65 * 4096,
            argv,
        ),
{
    let m = file.take(4);
    assert(m[0] == file[0] && m[1] == file[1] && m[2] == file[2] && m[3] == file[3]);
}

// ── Program files ────────────────────────────────────────────────────────────

/// A file is a program exactly where it has a header, starts with the four bytes of the
/// format and says that it is of 64 bits, little-endian, complete and for this machine;
/// the first of these that fails is the fault.
pub proof fn law_what_is_a_program(file: Seq<u8>)
    ensures
        ({
            let magic = file[0] == 0x7F && file[1] == 0x45 && file[2] == 0x4C && file[3] == 0x46;
            let fault = header_fault(file);
            &&& file.len() < 64 <==> fault == Some(ElfError::TooSmall)
            &&& file.len() >= 64 ==> {
                &&& !magic <==> fault == Some(ElfError::BadMagic)
                &&& magic ==> {
                    &&& file[4] != 2 <==> fault == Some(ElfError::Not64Bit)
                    &&& file[4] == 2 && file[5] != 1 <==> fault == Some(
                        ElfError::NotLittleEndian,
                    )
                    &&& file[4] == 2 && file[5] == 1 && le16_at(file, 16) != 2 <==> fault == Some(
                        ElfError::UnsupportedType,
                    )
                    &&& file[4] == 2 && file[5] == 1 && le16_at(file, 16) == 2 && le16_at(file, 18)
                        != 62 <==> fault == Some(ElfError::UnsupportedMachine)
                    &&& file[4] == 2 && file[5] == 1 && le16_at(file, 16) == 2 && le16_at(file, 18)
                        == 62 <==> fault is None
                }
            }
        }),
{
    if file.len() >= 64 {
        let head = file.take(4);
        let magic = seq![0x7Fu8, 0x45, 0x4C, 0x46];
        assert(head[0] == file[0] && head[1] == file[1] && head[2] == file[2] && head[3]
            == file[3]);
        if file[0] == 0x7F && file[1] == 0x45 && file[2] == 0x4C && file[3] == 0x46 {
            assert(head =~= magic);
        } else {
            assert(magic[0] == 0x7F && magic[1] == 0x45 && magic[2] == 0x4C && magic[3] == 0x46);
        }
    }
}

/// The headers of a program say in their places where it is entered, where its segments
/// are told of, and of each what it is, where in the file it lies and where it goes.
pub proof fn law_headers_are_read_in_their_places(file: Seq<u8>, n: int)
    ensures
        ({
            let h = ehdr_of(file);
            let p = phdr_of(file, h, n);
            let at = h.e_phoff + n * h.e_phentsize;
            &&& h.e_entry == le64_at(file, 24)
            &&& h.e_phoff == le64_at(file, 32)
            &&& h.e_phentsize == le16_at(file, 54)
            &&& h.e_phnum == le16_at(file, 56)
            &&& at + 56 > file.len() ==> p is None
            &&& at + 56 <= file.len() ==> {
                &&& p is Some
                &&& p->0.p_type == le32_at(file, at)
                &&& p->0.p_flags == le32_at(file, at + 4)
                &&& p->0.p_offset == le64_at(file, at + 8)
                &&& p->0.p_vaddr == le64_at(file, at + 16)
                &&& p->0.p_filesz == le64_at(file, at + 32)
                &&& p->0.p_memsz == le64_at(file, at + 40)
            }
        }),
{
}

} // verus!
