//! The kernel heap: a first-fit list of free blocks, each behind a header.

use vstd::prelude::*;
use crate::pmm::{frames_taken, lemma_taken_stuck, Frames, PhysAddr};

verus! {

/// Where the heap starts, before it is moved at boot.
pub const HEAP_BASE_NOMINAL: u64 = 0xFFFF_C000_0000_0000;

/// Pages that are mapped at the start.
pub const HEAP_INIT_PAGES: usize = 1024;

/// Bytes of a block's header.
pub const HEADER: u64 = 16;

/// Every block starts on a multiple of this, and is a multiple of it long.
pub const ALIGN: u64 = 16;

/// A free block: where its header is, and the usable bytes behind it.
#[derive(Clone, Copy, Debug, PartialEq, Eq, Structural)]
pub struct FreeBlock {
    pub addr: u64,
    pub size: u64,
}

/// Where the heap starts: the nominal base moved by the boot offset.
pub fn heap_start(offset: u64) -> (a: u64)
    requires
        HEAP_BASE_NOMINAL + offset <= u64::MAX,
    ensures
        a == HEAP_BASE_NOMINAL + offset,
{
    HEAP_BASE_NOMINAL + offset
}

/// The next multiple of `align`.
pub open spec fn aligned_up(val: int, align: int) -> int {
    (val + align - 1) / align * align
}

/// Round up to a multiple of `align`, a power of two.
pub fn align_up(val: u64, align: u64) -> (r: u64)
    requires
        align > 0,
        val + align - 1 <= u64::MAX,
    ensures
        r == aligned_up(val as int, align as int),
{
    let q: u64 = (val + (align - 1)) / align;
    assert(q * align <= val + (align - 1)) by (nonlinear_arith)
        requires
            q == (val + (align - 1)) as int / align as int,
            align > 0,
    ;
    q * align
}

/// The bytes that a request takes: at least one, in whole units.
pub open spec fn rounded(size: u64) -> int {
    aligned_up(
        if size == 0 {
            1
        } else {
            size as int
        },
        ALIGN as int,
    )
}

// ── Blocks ───────────────────────────────────────────────────────────────────

/// Where a block ends.
pub open spec fn end_of(b: FreeBlock) -> int {
    b.addr + HEADER + b.size
}

/// Two blocks have no byte in common, headers included.
pub open spec fn disjoint(a: FreeBlock, b: FreeBlock) -> bool {
    end_of(a) <= b.addr || end_of(b) <= a.addr
}

/// A block in its place: on a boundary, of whole units, within the machine's
/// addresses.
pub open spec fn block_ok(b: FreeBlock) -> bool {
    &&& b.addr % ALIGN == 0
    &&& b.size % ALIGN == 0
    &&& b.size > 0
    &&& end_of(b) <= u64::MAX
}

/// The free list: blocks in their place that do not overlap.
pub open spec fn free_ok(free: Seq<FreeBlock>) -> bool {
    &&& forall|i: int| 0 <= i < free.len() ==> block_ok(#[trigger] free[i])
    &&& forall|i: int, j: int|
        0 <= i < j < free.len() ==> disjoint(#[trigger] free[i], #[trigger] free[j])
}

/// No free block overlaps this one.
pub open spec fn apart(free: Seq<FreeBlock>, b: FreeBlock) -> bool {
    forall|i: int| 0 <= i < free.len() ==> disjoint(#[trigger] free[i], b)
}

/// The first block from `k` on that is large enough, or the length.
pub open spec fn first_fit(free: Seq<FreeBlock>, n: int, k: int) -> int
    decreases free.len() - k,
{
    if k >= free.len() {
        free.len() as int
    } else if free[k].size >= n {
        k
    } else {
        first_fit(free, n, k + 1)
    }
}

/// The list after `n` bytes were taken from block `i`: what is left over stays
/// in its place, where it is enough for a block of its own.
pub open spec fn taken_from(free: Seq<FreeBlock>, n: int, i: int) -> Seq<FreeBlock> {
    let b = free[i];
    if b.size - n >= HEADER + ALIGN {
        free.update(
            i,
            FreeBlock {
                addr: (b.addr + HEADER + n) as u64,
                size: (b.size - n - HEADER) as u64,
            },
        )
    } else {
        free.remove(i)
    }
}

/// The free blocks, in the order of the list.
pub struct KernelAllocator {
    free: Vec<FreeBlock>,
}

impl View for KernelAllocator {
    type V = Seq<FreeBlock>;

    closed spec fn view(&self) -> Seq<FreeBlock> {
        self.free@
    }
}

impl KernelAllocator {
    pub open spec fn wf(&self) -> bool {
        free_ok(self@)
    }

    /// An allocator without memory.
    pub fn new() -> (a: KernelAllocator)
        ensures
            a.wf(),
            a@.len() == 0,
    {
        KernelAllocator { free: Vec::new() }
    }

    /// One free block over a region.
    pub fn with_region(base: u64, bytes: u64) -> (a: KernelAllocator)
        requires
            base % ALIGN == 0,
            bytes % ALIGN == 0,
            bytes > HEADER,
            base + bytes <= u64::MAX,
        ensures
            a.wf(),
            a@ == seq![FreeBlock { addr: base, size: (bytes - HEADER) as u64 }],
    {
        let mut free: Vec<FreeBlock> = Vec::new();
        free.push(FreeBlock { addr: base, size: bytes - HEADER });
        let a = KernelAllocator { free };
        assert(a@ =~= seq![FreeBlock { addr: base, size: (bytes - HEADER) as u64 }]);
        a
    }

    /// Take memory from the first block that is large enough; `None` where there
    /// is none.
    pub fn allocate(&mut self, size: u64, align: u64) -> (r: Option<u64>)
        requires
            old(self).wf(),
            align <= ALIGN,
            size <= u64::MAX - ALIGN,
        ensures
            final(self).wf(),
            ({
                let n = rounded(size);
                let i = first_fit(old(self)@, n, 0);
                if i < old(self)@.len() {
                    r == Some((old(self)@[i].addr + HEADER) as u64) && final(self)@ == taken_from(
                        old(self)@,
                        n,
                        i,
                    )
                } else {
                    r is None && final(self)@ == old(self)@
                }
            }),
    {
        let want: u64 = if size == 0 {
            1
        } else {
            size
        };
        let n: u64 = align_up(want, ALIGN);
        let mut i: usize = 0;
        while i < self.free.len()
            invariant
                *self == *old(self),
                self.wf(),
                i <= self.free@.len(),
                n == rounded(size),
                n > 0,
                n % ALIGN == 0,
                first_fit(self@, n as int, 0) == first_fit(self@, n as int, i as int),
            decreases self.free@.len() - i,
        {
            let b: FreeBlock = self.free[i];
            assert(block_ok(self@[i as int]));
            if b.size >= n {
                proof {
                    lemma_taken_ok(self@, n as int, i as int);
                }
                let left: u64 = b.size - n;
                if left >= HEADER + ALIGN {
                    self.free.set(
                        i,
                        FreeBlock { addr: b.addr + HEADER + n, size: left - HEADER },
                    );
                } else {
                    let _used: FreeBlock = self.free.remove(i);
                }
                return Some(b.addr + HEADER);
            }
            i += 1;
        }
        None
    }

    /// Give memory back that was taken with the same size. It becomes the first
    /// block of the list.
    pub fn dealloc(&mut self, ptr: u64, size: u64)
        requires
            old(self).wf(),
            size <= u64::MAX - ALIGN,
            ptr >= HEADER,
            block_ok(given_back(ptr, size)),
            apart(old(self)@, given_back(ptr, size)),
        ensures
            final(self).wf(),
            final(self)@ == seq![given_back(ptr, size)] + old(self)@,
    {
        let want: u64 = if size == 0 {
            1
        } else {
            size
        };
        let n: u64 = align_up(want, ALIGN);
        let b = FreeBlock { addr: ptr - HEADER, size: n };
        let ghost before = self@;
        self.free.insert(0, b);
        proof {
            assert(self@ =~= seq![b] + before);
            assert forall|i: int, j: int| 0 <= i < j < self@.len() implies disjoint(
                #[trigger] self@[i],
                #[trigger] self@[j],
            ) by {
                if i == 0 {
                    assert(disjoint(before[j - 1], b));
                } else {
                    assert(disjoint(before[i - 1], before[j - 1]));
                }
            }
            assert forall|i: int| 0 <= i < self@.len() implies block_ok(#[trigger] self@[i]) by {
                if i > 0 {
                    assert(block_ok(before[i - 1]));
                }
            }
        }
    }
}

/// The block that memory is given back as.
pub open spec fn given_back(ptr: u64, size: u64) -> FreeBlock {
    FreeBlock { addr: (ptr - HEADER) as u64, size: rounded(size) as u64 }
}

proof fn lemma_taken_ok(free: Seq<FreeBlock>, n: int, i: int)
    requires
        free_ok(free),
        0 <= i < free.len(),
        0 < n <= free[i].size,
        n % ALIGN as int == 0,
    ensures
        free_ok(taken_from(free, n, i)),
{
    let b = free[i];
    let after = taken_from(free, n, i);
    assert(block_ok(b));
    if b.size - n >= HEADER + ALIGN {
        let rest = FreeBlock {
            addr: (b.addr + HEADER + n) as u64,
            size: (b.size - n - HEADER) as u64,
        };
        assert(block_ok(rest));
        assert forall|x: int, y: int| 0 <= x < y < after.len() implies disjoint(
            #[trigger] after[x],
            #[trigger] after[y],
        ) by {
            assert(disjoint(free[x], free[y]));
        }
    } else {
        assert forall|x: int, y: int| 0 <= x < y < after.len() implies disjoint(
            #[trigger] after[x],
            #[trigger] after[y],
        ) by {
            let p = if x < i {
                x
            } else {
                x + 1
            };
            let q = if y < i {
                y
            } else {
                y + 1
            };
            assert(disjoint(free[p], free[q]));
        }
    }
}

/// Take the frames of the initial heap and lay one free block over it; `None`
/// where there are not enough frames.
pub fn init(frames: &mut Frames, base: u64) -> (r: Option<(KernelAllocator, Vec<PhysAddr>)>)
    requires
        old(frames).wf(),
        base % 0x1000 == 0,
        base + HEAP_INIT_PAGES * 0x1000 <= u64::MAX,
    ensures
        final(frames).wf(),
        ({
            let (used, list) = frames_taken(old(frames)@, HEAP_INIT_PAGES as nat);
            &&& final(frames)@ == used
            &&& if list.len() == HEAP_INIT_PAGES {
                r matches Some((a, v)) && v@ == list && a.wf() && a@ == seq![
                    FreeBlock { addr: base, size: (HEAP_INIT_PAGES * 0x1000 - HEADER) as u64 },
                ]
            } else {
                r is None
            }
        }),
{
    let ghost u0 = frames@;
    let mut list: Vec<PhysAddr> = Vec::new();
    let mut i: usize = 0;
    while i < HEAP_INIT_PAGES
        invariant
            frames.wf(),
            u0 == old(frames)@,
            i <= HEAP_INIT_PAGES,
            list@.len() == i,
            (frames@, list@) == frames_taken(u0, i as nat),
        decreases HEAP_INIT_PAGES - i,
    {
        match frames.alloc_frame() {
            Some(p) => {
                list.push(p);
            },
            None => {
                proof {
                    lemma_taken_stuck(u0, (i + 1) as nat, HEAP_INIT_PAGES as nat);
                }
                return None;
            },
        }
        i += 1;
    }
    Some((KernelAllocator::with_region(base, HEAP_INIT_PAGES as u64 * 0x1000), list))
}

// ── Laws ─────────────────────────────────────────────────────────────────────

/// Memory that is handed out overlaps no free block, lies on a boundary, and
/// overlaps nothing that was handed out before.
pub proof fn law_allocations_are_apart(free: Seq<FreeBlock>, size: u64, other: FreeBlock)
    requires
        free_ok(free),
        size <= u64::MAX - ALIGN,
        first_fit(free, rounded(size), 0) < free.len(),
        apart(free, other),
    ensures
        ({
            let n = rounded(size);
            let i = first_fit(free, n, 0);
            let b = FreeBlock { addr: free[i].addr, size: n as u64 };
            let after = taken_from(free, n, i);
            &&& n >= size
            &&& block_ok(b)
            &&& given_back((b.addr + HEADER) as u64, size) == b
            &&& apart(after, b)
            &&& apart(after, other)
            &&& disjoint(b, other)
        }),
{
    let n = rounded(size);
    lemma_first_fit(free, n, 0);
    let i = first_fit(free, n, 0);
    assert(block_ok(free[i]));
    lemma_taken_ok(free, n, i);
    let b = FreeBlock { addr: free[i].addr, size: n as u64 };
    let after = taken_from(free, n, i);
    assert(disjoint(free[i], other));
    if free[i].size - n >= HEADER + ALIGN {
        assert forall|k: int| 0 <= k < after.len() implies disjoint(#[trigger] after[k], b)
            && disjoint(after[k], other) by {
            assert(disjoint(free[k], other));
            if k != i {
                assert(if k < i {
                    disjoint(free[k], free[i])
                } else {
                    disjoint(free[i], free[k])
                });
            }
        }
    } else {
        assert forall|k: int| 0 <= k < after.len() implies disjoint(#[trigger] after[k], b)
            && disjoint(after[k], other) by {
            let p = if k < i {
                k
            } else {
                k + 1
            };
            assert(disjoint(free[p], other));
            assert(if p < i {
                disjoint(free[p], free[i])
            } else {
                disjoint(free[i], free[p])
            });
        }
    }
}

proof fn lemma_first_fit(free: Seq<FreeBlock>, n: int, k: int)
    requires
        0 <= k <= free.len(),
    ensures
        k <= first_fit(free, n, k) <= free.len(),
        first_fit(free, n, k) < free.len() ==> free[first_fit(free, n, k)].size >= n,
    decreases free.len() - k,
{
    if k < free.len() && free[k].size < n {
        lemma_first_fit(free, n, k + 1);
    }
}

/// Memory that is given back is the first to be handed out again for a request
/// of its size, and the free list is then as it was.
pub proof fn law_freed_memory_is_used_again(free: Seq<FreeBlock>, ptr: u64, size: u64)
    requires
        free_ok(free),
        size <= u64::MAX - ALIGN,
        ptr >= HEADER,
        block_ok(given_back(ptr, size)),
        apart(free, given_back(ptr, size)),
    ensures
        ({
            let after = seq![given_back(ptr, size)] + free;
            let i = first_fit(after, rounded(size), 0);
            &&& i == 0
            &&& after[i].addr + HEADER == ptr
            &&& taken_from(after, rounded(size), i) == free
        }),
{
    let b = given_back(ptr, size);
    let after = seq![b] + free;
    assert(after[0] == b);
    assert(after.remove(0) =~= free);
}

} // verus!
