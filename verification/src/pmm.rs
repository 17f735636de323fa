//! Physical memory: one bit per 4 KiB frame, set where the frame is in use.

use vstd::prelude::*;

verus! {

/// Bytes in a frame.
pub const FRAME_SIZE: u64 = 4096;

/// Frames that are managed: 4 GiB of physical memory.
pub const MAX_FRAMES: usize = 0x10_0000;

/// Words of the bitmap.
pub const BITMAP_WORDS: usize = 0x4000;

/// The type of a usable region in the boot memory map.
pub const MMAP_USABLE: u64 = 0;

/// A physical address.
#[derive(Clone, Copy, Debug, PartialEq, Eq, Structural)]
pub struct PhysAddr(pub u64);

impl PhysAddr {
    pub fn as_u64(self) -> (r: u64)
        ensures
            r == self.0,
    {
        self.0
    }
}

/// The frame allocator.
pub struct Frames {
    words: Vec<u64>,
    free: usize,
}

/// Bit `j` of a word is set.
spec fn bit(w: u64, j: u64) -> bool {
    (w >> j) & 1 == 1
}

/// Which frames are in use.
pub type Used = Seq<bool>;

/// How many of the first `n` frames are free.
pub open spec fn free_below(used: Used, n: int) -> nat
    decreases n,
{
    if n <= 0 {
        0
    } else {
        free_below(used, n - 1) + if used[n - 1] {
            0nat
        } else {
            1nat
        }
    }
}

/// All frames in `[from, to)` are free.
pub open spec fn run_free(used: Used, from: int, to: int) -> bool {
    forall|i: int| from <= i < to ==> !(#[trigger] used[i])
}

/// The frames with `[from, to)` marked.
pub open spec fn with_run(used: Used, from: int, to: int, mark: bool) -> Used {
    Seq::new(
        used.len(),
        |i: int|
            if from <= i < to {
                mark
            } else {
                used[i]
            },
    )
}

impl View for Frames {
    type V = Used;

    closed spec fn view(&self) -> Used {
        Seq::new(MAX_FRAMES as nat, |i: int| bit(self.words@[i / 64], (i % 64) as u64))
    }
}

proof fn lemma_set_bit(w: u64, k: u64, j: u64)
    requires
        k < 64,
        j < 64,
    ensures
        bit(w | (1u64 << k), j) == (j == k || bit(w, j)),
        bit(w & !(1u64 << k), j) == (j != k && bit(w, j)),
{
    assert(((w | (1u64 << k)) >> j) & 1 == 1 <==> (j == k || (w >> j) & 1 == 1)) by (bit_vector)
        requires
            k < 64,
            j < 64,
    ;
    assert(((w & !(1u64 << k)) >> j) & 1 == 1 <==> (j != k && (w >> j) & 1 == 1)) by (bit_vector)
        requires
            k < 64,
            j < 64,
    ;
}

proof fn lemma_full_word(j: u64)
    requires
        j < 64,
    ensures
        bit(u64::MAX, j),
{
    assert((0xFFFF_FFFF_FFFF_FFFFu64 >> j) & 1 == 1) by (bit_vector)
        requires
            j < 64,
    ;
}

proof fn lemma_free_below_update(used: Used, i: int, mark: bool, n: int)
    requires
        0 <= i < used.len(),
        0 <= n <= used.len(),
    ensures
        free_below(used.update(i, mark), n) == free_below(used, n) + if i < n {
            (if used[i] {
                1int
            } else {
                0
            }) - (if mark {
                1int
            } else {
                0
            })
        } else {
            0
        },
    decreases n,
{
    if n > 0 {
        lemma_free_below_update(used, i, mark, n - 1);
    }
}

proof fn lemma_free_below_bound(used: Used, n: int)
    requires
        0 <= n,
    ensures
        free_below(used, n) <= n,
    decreases n,
{
    if n > 0 {
        lemma_free_below_bound(used, n - 1);
    }
}

impl Frames {
    /// The bitmap has its size, and the count is that of the free frames.
    pub closed spec fn wf(&self) -> bool {
        &&& self.words@.len() == BITMAP_WORDS
        &&& self.free == free_below(self@, MAX_FRAMES as int)
    }

    spec fn sized(&self) -> bool {
        self.words@.len() == BITMAP_WORDS
    }

    fn set_used(&mut self, frame: usize)
        requires
            old(self).sized(),
            frame < MAX_FRAMES,
        ensures
            final(self).sized(),
            final(self)@ == old(self)@.update(frame as int, true),
            final(self).free == old(self).free,
    {
        let k: u64 = (frame % 64) as u64;
        let w: u64 = self.words[frame / 64];
        self.words[frame / 64] = w | (1u64 << k);
        proof {
            assert forall|i: int| 0 <= i < MAX_FRAMES implies self@[i] == old(self)@.update(
                frame as int,
                true,
            )[i] by {
                if i / 64 == frame as int / 64 {
                    lemma_set_bit(w, k, (i % 64) as u64);
                }
            }
            assert(self@ =~= old(self)@.update(frame as int, true));
        }
    }

    fn set_free(&mut self, frame: usize)
        requires
            old(self).sized(),
            frame < MAX_FRAMES,
        ensures
            final(self).sized(),
            final(self)@ == old(self)@.update(frame as int, false),
            final(self).free == old(self).free,
    {
        let k: u64 = (frame % 64) as u64;
        let w: u64 = self.words[frame / 64];
        self.words[frame / 64] = w & !(1u64 << k);
        proof {
            assert forall|i: int| 0 <= i < MAX_FRAMES implies self@[i] == old(self)@.update(
                frame as int,
                false,
            )[i] by {
                if i / 64 == frame as int / 64 {
                    lemma_set_bit(w, k, (i % 64) as u64);
                }
            }
            assert(self@ =~= old(self)@.update(frame as int, false));
        }
    }

    fn is_used(&self, frame: usize) -> (r: bool)
        requires
            self.sized(),
            frame < MAX_FRAMES,
        ensures
            r == self@[frame as int],
    {
        (self.words[frame / 64] >> ((frame % 64) as u64)) & 1 == 1
    }
}

// ── Initialisation ───────────────────────────────────────────────────────────

/// The region is usable memory and holds the whole frame.
pub open spec fn holds_frame(entry: (u64, u64, u64), i: int) -> bool {
    entry.2 == MMAP_USABLE && entry.0 <= i * FRAME_SIZE && (i + 1) * FRAME_SIZE <= entry.0
        + entry.1
}

/// The frame and the range `[from, to)` have an address in common.
pub open spec fn touches(from: u64, to: u64, i: int) -> bool {
    from < to && from < (i + 1) * FRAME_SIZE && i * FRAME_SIZE < to
}

/// The first `n` regions give the frame as usable memory.
pub open spec fn usable_in(entries: Seq<(u64, u64, u64)>, n: int, i: int) -> bool {
    exists|k: int| 0 <= k < n && holds_frame(#[trigger] entries[k], i)
}

/// A frame is free at boot: usable memory, not part of the kernel image, and
/// not frame 0.
pub open spec fn free_at_boot(
    entries: Seq<(u64, u64, u64)>,
    kernel_base: u64,
    kernel_end: u64,
    i: int,
) -> bool {
    usable_in(entries, entries.len() as int, i) && !touches(kernel_base, kernel_end, i) && i != 0
}

impl Frames {
    /// Mark the frames that lie wholly in `[start, end)` free.
    fn mark_range_free(&mut self, start: u64, end: u64)
        requires
            old(self).sized(),
            start + FRAME_SIZE <= u64::MAX,
        ensures
            final(self).sized(),
            final(self)@.len() == MAX_FRAMES,
            forall|i: int|
                0 <= i < MAX_FRAMES ==> #[trigger] final(self)@[i] == (old(self)@[i] && !(start <= i
                    * FRAME_SIZE && (i + 1) * FRAME_SIZE <= end)),
    {
        if end <= start {
            return;
        }
        let first: u64 = (start + (FRAME_SIZE - 1)) / FRAME_SIZE;
        let last: u64 = end / FRAME_SIZE;
        let stop: u64 = if last < MAX_FRAMES as u64 {
            last
        } else {
            MAX_FRAMES as u64
        };
        let mut i: u64 = first;
        while i < stop
            invariant
                self.sized(),
                stop <= MAX_FRAMES,
                first <= i,
                first < stop ==> i <= stop,
                first >= stop ==> i == first,
                forall|j: int|
                    0 <= j < MAX_FRAMES ==> #[trigger] self@[j] == (old(self)@[j] && !(first <= j
                        < i && j < stop)),
            decreases stop - i,
        {
            self.set_free(i as usize);
            i += 1;
        }
    }

    /// Mark every frame that has an address in `[start, end)` used.
    fn mark_range_used(&mut self, start: u64, end: u64)
        requires
            old(self).sized(),
            end + FRAME_SIZE <= u64::MAX,
        ensures
            final(self).sized(),
            final(self)@.len() == MAX_FRAMES,
            forall|i: int|
                0 <= i < MAX_FRAMES ==> #[trigger] final(self)@[i] == (old(self)@[i] || touches(
                    start,
                    end,
                    i,
                )),
    {
        if end <= start {
            return;
        }
        let first: u64 = start / FRAME_SIZE;
        let last: u64 = (end + (FRAME_SIZE - 1)) / FRAME_SIZE;
        let stop: u64 = if last < MAX_FRAMES as u64 {
            last
        } else {
            MAX_FRAMES as u64
        };
        let mut i: u64 = first;
        while i < stop
            invariant
                self.sized(),
                stop <= MAX_FRAMES,
                first <= i,
                first < stop ==> i <= stop,
                first >= stop ==> i == first,
                forall|j: int|
                    0 <= j < MAX_FRAMES ==> #[trigger] self@[j] == (old(self)@[j] || (first <= j
                        < i && j < stop)),
            decreases stop - i,
        {
            self.set_used(i as usize);
            i += 1;
        }
    }

    /// Set up the allocator from the boot memory map, whose entries are
    /// `(base, length, type)`, and the physical range of the kernel image.
    pub fn init_from_limine(
        entries: &[(u64, u64, u64)],
        kernel_phys_base: u64,
        kernel_phys_end: u64,
    ) -> (f: Frames)
        requires
            forall|k: int|
                0 <= k < entries@.len() ==> (#[trigger] entries@[k]).0 + entries@[k].1 + FRAME_SIZE
                    <= u64::MAX,
            kernel_phys_end + FRAME_SIZE <= u64::MAX,
        ensures
            f.wf(),
            f@.len() == MAX_FRAMES,
            forall|i: int|
                0 <= i < MAX_FRAMES ==> #[trigger] f@[i] == !free_at_boot(
                    entries@,
                    kernel_phys_base,
                    kernel_phys_end,
                    i,
                ),
    {
        let mut f = Frames { words: vec![u64::MAX; BITMAP_WORDS], free: 0 };
        proof {
            assert forall|i: int| 0 <= i < MAX_FRAMES implies #[trigger] f@[i] by {
                lemma_full_word((i % 64) as u64);
            }
        }
        let mut k: usize = 0;
        while k < entries.len()
            invariant
                f.sized(),
                k <= entries@.len(),
                forall|j: int|
                    0 <= j < entries@.len() ==> (#[trigger] entries@[j]).0 + entries@[j].1
                        + FRAME_SIZE <= u64::MAX,
                forall|i: int|
                    0 <= i < MAX_FRAMES ==> #[trigger] f@[i] == !usable_in(entries@, k as int, i),
            decreases entries@.len() - k,
        {
            let (base, length, kind) = entries[k];
            let ghost before = f@;
            if kind == MMAP_USABLE {
                f.mark_range_free(base, base + length);
            }
            proof {
                assert forall|i: int| 0 <= i < MAX_FRAMES implies #[trigger] f@[i] == !usable_in(
                    entries@,
                    k + 1,
                    i,
                ) by {
                    assert(before[i] == !usable_in(entries@, k as int, i));
                    if usable_in(entries@, k as int, i) {
                        let m = choose|m: int|
                            0 <= m < k && holds_frame(#[trigger] entries@[m], i);
                        assert(holds_frame(entries@[m], i));
                    }
                    if holds_frame(entries@[k as int], i) {
                        assert(usable_in(entries@, k + 1, i));
                    }
                }
            }
            k += 1;
        }
        f.mark_range_used(kernel_phys_base, kernel_phys_end);
        f.set_used(0);
        let mut n: usize = 0;
        let mut i: usize = 0;
        while i < MAX_FRAMES
            invariant
                f.sized(),
                i <= MAX_FRAMES,
                n <= i,
                n == free_below(f@, i as int),
            decreases MAX_FRAMES - i,
        {
            if !f.is_used(i) {
                n += 1;
            }
            i += 1;
        }
        f.free = n;
        f
    }
}

// ── Allocation ───────────────────────────────────────────────────────────────

/// The lowest free frame from `i` on.
pub open spec fn lowest_free(used: Used, i: int) -> Option<int>
    decreases used.len() - i,
{
    if i >= used.len() {
        None
    } else if !used[i] {
        Some(i)
    } else {
        lowest_free(used, i + 1)
    }
}

proof fn lemma_lowest_free_is(used: Used, from: int, i: int)
    requires
        0 <= from <= i <= used.len(),
        forall|k: int| from <= k < i ==> #[trigger] used[k],
        i < used.len() ==> !used[i],
    ensures
        lowest_free(used, from) == if i < used.len() {
            Some(i)
        } else {
            None::<int>
        },
    decreases i - from,
{
    if from < i {
        lemma_lowest_free_is(used, from + 1, i);
    }
}

impl Frames {
    /// Take the lowest free frame; `None` where there is none.
    pub fn alloc_frame(&mut self) -> (r: Option<PhysAddr>)
        requires
            old(self).wf(),
        ensures
            final(self).wf(),
            match lowest_free(old(self)@, 0) {
                Some(i) => r == Some(PhysAddr((i * FRAME_SIZE) as u64)) && final(self)@ == old(
                    self,
                )@.update(i, true),
                None => r is None && final(self)@ == old(self)@,
            },
    {
        let ghost used = self@;
        let mut wi: usize = 0;
        while wi < BITMAP_WORDS
            invariant
                self.wf(),
                *self == *old(self),
                used == self@,
                wi <= BITMAP_WORDS,
                forall|k: int| 0 <= k < wi * 64 ==> #[trigger] used[k],
            decreases BITMAP_WORDS - wi,
        {
            let word: u64 = self.words[wi];
            if word != u64::MAX {
                let b: u32 = word.trailing_ones();
                proof {
                    vstd::std_specs::bits::axiom_u64_trailing_ones(word);
                }
                let frame: usize = wi * 64 + b as usize;
                proof {
                    assert forall|k: int| 0 <= k < frame implies #[trigger] used[k] by {
                        if k >= wi * 64 {
                            let j = (k % 64) as u64;
                            assert(k / 64 == wi);
                            assert(0 <= j < b);
                            assert((word >> j) & 1u64 == 1u64);
                        }
                    }
                    assert(frame as int / 64 == wi && frame as int % 64 == b);
                    assert((word >> (b as u64)) & 1u64 == 0u64);
                    assert(!used[frame as int]);
                    lemma_lowest_free_is(used, 0, frame as int);
                    lemma_free_below_update(used, frame as int, true, MAX_FRAMES as int);
                }
                self.set_used(frame);
                self.free = self.free - 1;
                return Some(PhysAddr(frame as u64 * FRAME_SIZE));
            }
            proof {
                assert forall|k: int| 0 <= k < (wi + 1) * 64 implies #[trigger] used[k] by {
                    if k >= wi * 64 {
                        assert(k / 64 == wi);
                        lemma_full_word((k % 64) as u64);
                    }
                }
            }
            wi += 1;
        }
        proof {
            lemma_lowest_free_is(used, 0, MAX_FRAMES as int);
        }
        None
    }

    /// The address is that of a frame in use, which can be given back.
    pub fn can_free(&self, addr: PhysAddr) -> (r: bool)
        requires
            self.wf(),
        ensures
            r == (addr.0 % FRAME_SIZE == 0 && addr.0 / FRAME_SIZE < MAX_FRAMES
                && self@[addr.0 as int / FRAME_SIZE as int]),
    {
        addr.0 % FRAME_SIZE == 0 && addr.0 / FRAME_SIZE < MAX_FRAMES as u64 && self.is_used(
            (addr.0 / FRAME_SIZE) as usize,
        )
    }

    /// Give a frame back. It must be one that is in use.
    pub fn free_frame(&mut self, addr: PhysAddr)
        requires
            old(self).wf(),
            addr.0 % FRAME_SIZE == 0,
            addr.0 / FRAME_SIZE < MAX_FRAMES,
            old(self)@[addr.0 as int / FRAME_SIZE as int],
        ensures
            final(self).wf(),
            final(self)@ == old(self)@.update(addr.0 as int / FRAME_SIZE as int, false),
    {
        let frame: usize = (addr.0 / FRAME_SIZE) as usize;
        proof {
            lemma_free_below_update(self@, frame as int, false, MAX_FRAMES as int);
            lemma_free_below_bound(self@.update(frame as int, false), MAX_FRAMES as int);
        }
        self.set_free(frame);
        self.free = self.free + 1;
    }

    /// How many frames are free.
    pub fn free_frame_count(&self) -> (n: usize)
        requires
            self.wf(),
        ensures
            n == free_below(self@, MAX_FRAMES as int),
    {
        self.free
    }
}

// ── Runs of frames ───────────────────────────────────────────────────────────

/// `start` is the lowest frame from which `n` frames in a row are free.
pub open spec fn first_run(used: Used, n: int, start: int) -> bool {
    &&& 0 <= start
    &&& start + n <= used.len()
    &&& run_free(used, start, start + n)
    &&& forall|k: int| 0 <= k < start ==> !(#[trigger] run_free(used, k, k + n))
}

/// No `n` frames in a row are free.
pub open spec fn no_run(used: Used, n: int) -> bool {
    forall|k: int| 0 <= k && k + n <= used.len() ==> !(#[trigger] run_free(used, k, k + n))
}

/// The lowest frame, from `k` on, from which `n` frames in a row are free.
pub open spec fn run_of(used: Used, n: int, k: int) -> Option<int>
    decreases used.len() - n - k + 1,
{
    if k < 0 || k + n > used.len() {
        None
    } else if run_free(used, k, k + n) {
        Some(k)
    } else {
        run_of(used, n, k + 1)
    }
}

/// The lowest run is found by going through the frames in order.
pub proof fn lemma_run_of(used: Used, n: int, k: int)
    requires
        0 <= k,
        forall|j: int| 0 <= j < k ==> !(#[trigger] run_free(used, j, j + n)),
    ensures
        match run_of(used, n, k) {
            Some(start) => first_run(used, n, start),
            None => no_run(used, n),
        },
        forall|start: int| #[trigger] first_run(used, n, start) ==> run_of(used, n, k) == Some(start),
    decreases used.len() - n - k + 1,
{
    if k + n <= used.len() && !run_free(used, k, k + n) {
        lemma_run_of(used, n, k + 1);
    }
}

proof fn lemma_free_below_run(used: Used, from: int, to: int, mark: bool, n: int)
    requires
        0 <= from <= to <= used.len(),
        forall|i: int| from <= i < to ==> #[trigger] used[i] == !mark,
        0 <= n <= used.len(),
        to <= n,
    ensures
        free_below(with_run(used, from, to, mark), n) == free_below(used, n) + (if mark {
            from - to
        } else {
            to - from
        }),
    decreases to - from,
{
    if from < to {
        let part = with_run(used, from, to - 1, mark);
        lemma_free_below_run(used, from, to - 1, mark, n);
        lemma_free_below_update(part, to - 1, mark, n);
        assert(part.update(to - 1, mark) =~= with_run(used, from, to, mark));
    } else {
        assert(with_run(used, from, to, mark) =~= used);
    }
}

impl Frames {
    /// Take the lowest run of `n` free frames.
    pub fn alloc_frames_contiguous(&mut self, n: usize) -> (r: Option<PhysAddr>)
        requires
            old(self).wf(),
        ensures
            final(self).wf(),
            r is None ==> final(self)@ == old(self)@ && (n == 0 || no_run(old(self)@, n as int)),
            r is Some ==> {
                let start = (r->0).0 as int / FRAME_SIZE as int;
                &&& n > 0
                &&& (r->0).0 as int % FRAME_SIZE as int == 0
                &&& first_run(old(self)@, n as int, start)
                &&& final(self)@ == with_run(old(self)@, start, start + n, true)
            },
    {
        if n == 0 {
            return None;
        }
        let ghost used = self@;
        let mut start: usize = 0;
        while start <= MAX_FRAMES && n <= MAX_FRAMES - start
            invariant
                n > 0,
                self.wf(),
                *self == *old(self),
                used == self@,
                start <= MAX_FRAMES,
                forall|k: int| 0 <= k < start ==> !(#[trigger] run_free(used, k, k + n)),
            decreases MAX_FRAMES - start,
        {
            let mut i: usize = 0;
            let mut all_free: bool = true;
            while i < n && all_free
                invariant
                    self.wf(),
                    used == self@,
                    start + n <= MAX_FRAMES,
                    i <= n,
                    all_free ==> run_free(used, start as int, start + i),
                    !all_free ==> i < n && used[start + i],
                decreases n - i, if all_free { 1int } else { 0int },
            {
                if self.is_used(start + i) {
                    all_free = false;
                } else {
                    i += 1;
                }
            }
            if all_free {
                self.take_run(start, n);
                return Some(PhysAddr(start as u64 * FRAME_SIZE));
            }
            proof {
                assert forall|k: int| 0 <= k < start + i + 1 implies !(#[trigger] run_free(
                    used,
                    k,
                    k + n,
                )) by {
                    if k >= start {
                        assert(used[start + i]);
                    }
                }
            }
            start = start + i + 1;
        }
        proof {
            assert forall|k: int| 0 <= k && k + n <= used.len() implies !(#[trigger] run_free(
                used,
                k,
                k + n,
            )) by {
                assert(k < start);
            }
        }
        None
    }

    fn take_run(&mut self, start: usize, n: usize)
        requires
            old(self).wf(),
            start + n <= MAX_FRAMES,
            run_free(old(self)@, start as int, start + n),
        ensures
            final(self).wf(),
            final(self)@ == with_run(old(self)@, start as int, start + n, true),
    {
        let ghost used = self@;
        proof {
            lemma_free_below_run(used, start as int, start + n, true, MAX_FRAMES as int);
        }
        let mut j: usize = 0;
        assert(self@ =~= with_run(used, start as int, start as int, true));
        while j < n
            invariant
                self.sized(),
                used.len() == MAX_FRAMES,
                self.free == old(self).free,
                start + n <= MAX_FRAMES,
                j <= n,
                self@ == with_run(used, start as int, start + j, true),
            decreases n - j,
        {
            self.set_used(start + j);
            j += 1;
            assert(self@ =~= with_run(used, start as int, start + j, true));
        }
        self.free = self.free - n;
    }

    /// Give `n` frames in a row back. All of them must be in use.
    pub fn free_frames_contiguous(&mut self, addr: PhysAddr, n: usize)
        requires
            old(self).wf(),
            addr.0 % FRAME_SIZE == 0,
            addr.0 / FRAME_SIZE + n <= MAX_FRAMES,
            forall|i: int|
                addr.0 / FRAME_SIZE <= i < addr.0 / FRAME_SIZE + n ==> #[trigger] old(self)@[i],
        ensures
            final(self).wf(),
            final(self)@ == with_run(
                old(self)@,
                addr.0 as int / FRAME_SIZE as int,
                addr.0 as int / FRAME_SIZE as int + n,
                false,
            ),
    {
        let ghost used = self@;
        let first: u64 = addr.0 / FRAME_SIZE;
        let mut j: usize = 0;
        assert(self@ =~= with_run(used, first as int, first as int, false));
        while j < n
            invariant
                self.wf(),
                used.len() == MAX_FRAMES,
                addr.0 % FRAME_SIZE == 0,
                first == addr.0 / FRAME_SIZE,
                first + n <= MAX_FRAMES,
                j <= n,
                forall|i: int| first <= i < first + n ==> #[trigger] used[i],
                self@ == with_run(used, first as int, first + j, false),
            decreases n - j,
        {
            let a: u64 = addr.0 + j as u64 * FRAME_SIZE;
            assert(a == (first + j) * FRAME_SIZE);
            assert(a / FRAME_SIZE == first + j);
            self.free_frame(PhysAddr(a));
            j += 1;
            assert(self@ =~= with_run(used, first as int, first + j, false));
        }
    }
}

// ── Laws ─────────────────────────────────────────────────────────────────────

/// A frame that is handed out was free, and it is not handed out again while it
/// is in use.
pub proof fn law_no_frame_is_handed_out_twice(used: Used)
    requires
        lowest_free(used, 0) is Some,
    ensures
        ({
            let i = lowest_free(used, 0)->0;
            &&& 0 <= i < used.len()
            &&& !used[i]
            &&& lowest_free(used.update(i, true), 0) != Some(i)
        }),
{
    lemma_lowest_free_bounds(used, 0);
    let i = lowest_free(used, 0)->0;
    lemma_lowest_free_bounds(used.update(i, true), 0);
}

/// The lowest free frame is free, and all below it are in use.
pub proof fn lemma_lowest_free_bounds(used: Used, from: int)
    requires
        0 <= from <= used.len(),
    ensures
        match lowest_free(used, from) {
            Some(i) => from <= i < used.len() && !used[i] && forall|k: int|
                from <= k < i ==> #[trigger] used[k],
            None => forall|k: int| from <= k < used.len() ==> #[trigger] used[k],
        },
    decreases used.len() - from,
{
    if from < used.len() && used[from] {
        lemma_lowest_free_bounds(used, from + 1);
    }
}

/// Giving back the frame that was just handed out restores the allocator, so
/// that the next allocation gives the same frame.
pub proof fn law_free_undoes_alloc(used: Used)
    requires
        lowest_free(used, 0) is Some,
    ensures
        used.update(lowest_free(used, 0)->0, true).update(lowest_free(used, 0)->0, false) == used,
{
    lemma_lowest_free_bounds(used, 0);
    let i = lowest_free(used, 0)->0;
    assert(used.update(i, true).update(i, false) =~= used);
}

/// Giving back a run that was handed out restores the allocator.
pub proof fn law_free_undoes_run(used: Used, n: int, start: int)
    requires
        first_run(used, n, start),
        n > 0,
    ensures
        with_run(with_run(used, start, start + n, true), start, start + n, false) == used,
{
    assert(with_run(with_run(used, start, start + n, true), start, start + n, false) =~= used);
}

// ── Lists of frames ──────────────────────────────────────────────────────────

/// Frames taken one after another, at most `n`.
pub open spec fn frames_taken(used: Used, n: nat) -> (Used, Seq<PhysAddr>)
    decreases n,
{
    if n == 0 {
        (used, seq![])
    } else {
        let (u, v) = frames_taken(used, (n - 1) as nat);
        match lowest_free(u, 0) {
            Some(i) if v.len() == n - 1 => (
                u.update(i, true),
                v.push(PhysAddr((i * FRAME_SIZE) as u64)),
            ),
            _ => (u, v),
        }
    }
}

/// Once no frame is free, no more are taken.
pub proof fn lemma_taken_stuck(used: Used, m: nat, n: nat)
    requires
        m <= n,
        frames_taken(used, m).1.len() < m,
    ensures
        frames_taken(used, n) == frames_taken(used, m),
    decreases n,
{
    if m < n {
        lemma_taken_stuck(used, m, (n - 1) as nat);
    }
}

/// The frame is one of the list.
pub open spec fn listed(list: Seq<PhysAddr>, from: int, i: int) -> bool {
    exists|j: int| from <= j < list.len() && (#[trigger] list[j]).0 == i * FRAME_SIZE
}

/// The frames of a list are different, and all are in use.
pub open spec fn all_in_use(used: Used, list: Seq<PhysAddr>) -> bool {
    &&& forall|j: int|
        0 <= j < list.len() ==> (#[trigger] list[j]).0 % FRAME_SIZE == 0 && (list[j].0 as int
            / FRAME_SIZE as int) < used.len() && used[list[j].0 as int / FRAME_SIZE as int]
    &&& forall|a: int, b: int|
        0 <= a < b < list.len() ==> (#[trigger] list[a]).0 != (#[trigger] list[b]).0
}

/// The frames of a list free.
pub open spec fn all_freed(used: Used, list: Seq<PhysAddr>) -> Used {
    Seq::new(used.len(), |i: int| used[i] && !listed(list, 0, i))
}

/// The frames that were taken were free, are different, and are all that
/// changed; freeing them gives back what was.
pub proof fn lemma_taken(used: Used, n: nat)
    requires
        used.len() == MAX_FRAMES,
    ensures
        ({
            let (u, list) = frames_taken(used, n);
            &&& u.len() == MAX_FRAMES
            &&& list.len() <= n
            &&& all_in_use(u, list)
            &&& all_freed(u, list) == used
            &&& forall|i: int| 0 <= i < used.len() ==> #[trigger] u[i] == (used[i] || listed(list, 0, i))
            &&& forall|i: int| 0 <= i < used.len() && #[trigger] listed(list, 0, i) ==> !used[i]
        }),
    decreases n,
{
    let (u, list) = frames_taken(used, n);
    if n > 0 {
        lemma_taken(used, (n - 1) as nat);
        let (u1, list1) = frames_taken(used, (n - 1) as nat);
        lemma_lowest_free_bounds(u1, 0);
        match lowest_free(u1, 0) {
            Some(f) if list1.len() == n - 1 => {
                let p = PhysAddr((f * FRAME_SIZE) as u64);
                assert(p.0 as int / 4096 == f);
                assert(list == list1.push(p));
                assert(u == u1.update(f, true));
                assert forall|i: int| 0 <= i < used.len() implies listed(list, 0, i) == (listed(
                    list1,
                    0,
                    i,
                ) || i == f) by {
                    if listed(list1, 0, i) {
                        let j = choose|j: int| 0 <= j < list1.len() && (#[trigger] list1[j]).0 == i
                            * FRAME_SIZE;
                        assert(list[j].0 == i * FRAME_SIZE);
                    }
                    if i == f {
                        assert(list[list1.len() as int].0 == i * FRAME_SIZE);
                    }
                    if listed(list, 0, i) && i != f {
                        let j = choose|j: int| 0 <= j < list.len() && (#[trigger] list[j]).0 == i
                            * FRAME_SIZE;
                        if j < list1.len() {
                            assert(list1[j].0 == i * FRAME_SIZE);
                        }
                    }
                }
                assert forall|a: int, b: int| 0 <= a < b < list.len() implies (#[trigger] list[a]).0
                    != (#[trigger] list[b]).0 by {
                    if b == list1.len() {
                        assert(list1[a] == list[a]);
                        assert(u1[list1[a].0 as int / FRAME_SIZE as int]);
                    } else {
                        assert(list1[a].0 != list1[b].0);
                    }
                }
                assert forall|j: int| 0 <= j < list.len() implies (#[trigger] list[j]).0 % FRAME_SIZE
                    == 0 && (list[j].0 as int / FRAME_SIZE as int) < u.len() && u[list[j].0 as int
                    / FRAME_SIZE as int] by {
                    if j < list1.len() {
                        assert(list[j] == list1[j]);
                    }
                }
            },
            _ => {},
        }
    } else {
        assert forall|i: int| 0 <= i < used.len() implies !listed(list, 0, i) by {}
    }
    assert(all_freed(u, list) =~= used);
}

impl Frames {
    /// Every managed frame is accounted for.
    pub proof fn lemma_len(&self)
        requires
            self.wf(),
        ensures
            self@.len() == MAX_FRAMES,
    {
    }

    /// Give the frames of a list back.
    pub fn free_all(&mut self, list: &Vec<PhysAddr>)
        requires
            old(self).wf(),
            all_in_use(old(self)@, list@),
        ensures
            final(self).wf(),
            final(self)@ == all_freed(old(self)@, list@),
    {
        let ghost u0 = self@;
        let mut j: usize = 0;
        assert forall|i: int| 0 <= i < u0.len() implies #[trigger] u0[i] == (u0[i] && (!listed(
            list@,
            0,
            i,
        ) || listed(list@, 0, i))) by {}
        while j < list.len()
            invariant
                self.wf(),
                j <= list@.len(),
                u0 == old(self)@,
                all_in_use(u0, list@),
                self@.len() == u0.len(),
                u0.len() == MAX_FRAMES,
                forall|i: int|
                    0 <= i < u0.len() ==> #[trigger] self@[i] == (u0[i] && (!listed(list@, 0, i)
                        || listed(list@, j as int, i))),
            decreases list@.len() - j,
        {
            let ghost before = self@;
            let p: PhysAddr = list[j];
            let ghost f = p.0 as int / FRAME_SIZE as int;
            assert(f * FRAME_SIZE == p.0);
            assert(listed(list@, j as int, f)) by {
                assert(list@[j as int].0 == f * FRAME_SIZE);
            }
            self.free_frame(p);
            proof {
                assert forall|i: int| 0 <= i < u0.len() implies #[trigger] self@[i] == (u0[i] && (
                !listed(list@, 0, i) || listed(list@, j + 1, i))) by {
                    if i == f {
                        assert(listed(list@, 0, i)) by {
                            assert(list@[j as int].0 == i * FRAME_SIZE);
                        }
                        assert(!listed(list@, j + 1, i)) by {
                            if listed(list@, j + 1, i) {
                                let m = choose|m: int|
                                    j + 1 <= m < list@.len() && (#[trigger] list@[m]).0 == i
                                        * FRAME_SIZE;
                                assert(list@[j as int].0 != list@[m].0);
                            }
                        }
                    } else {
                        assert(before[i] == self@[i]);
                        if listed(list@, j as int, i) {
                            let m = choose|m: int|
                                j <= m < list@.len() && (#[trigger] list@[m]).0 == i * FRAME_SIZE;
                            assert(m != j);
                            assert(listed(list@, j + 1, i));
                        }
                        if listed(list@, j + 1, i) {
                            let m = choose|m: int|
                                j + 1 <= m < list@.len() && (#[trigger] list@[m]).0 == i
                                    * FRAME_SIZE;
                            assert(list@[m].0 == i * FRAME_SIZE);
                            assert(listed(list@, j as int, i));
                        }
                    }
                }
            }
            j += 1;
        }
        assert forall|i: int| 0 <= i < u0.len() implies !listed(list@, j as int, i) by {}
        assert(self@ =~= all_freed(u0, list@));
    }
}

} // verus!
