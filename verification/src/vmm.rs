//! User address spaces: which page is mapped to which frame, with what flags
//! and what contents.

use vstd::prelude::*;
use crate::bytes::{put_bytes, splice, zero_bytes, zeros};
use crate::pmm::PhysAddr;

verus! {

/// Bytes in a page.
pub const PAGE_SIZE: u64 = 4096;

/// Flags of a page table entry.
#[derive(Clone, Copy, Debug, PartialEq, Eq, Structural)]
pub struct PageFlags(pub u64);

impl PageFlags {
    pub const PRESENT: u64 = 0x1;

    pub const WRITABLE: u64 = 0x2;

    pub const USER: u64 = 0x4;

    pub const NO_CACHE: u64 = 0x10;

    /// The frame belongs to a device: it is never given back.
    pub const MMIO_NOFREE: u64 = 0x200;

    pub const NX: u64 = 0x8000_0000_0000_0000;

    /// Present and for users: readable and executable.
    pub const USER_RX: u64 = 0x5;

    /// Present, for users, writable and not executable.
    pub const USER_RW: u64 = 0x8000_0000_0000_0007;
}

/// A mapped page.
pub struct UserPage {
    pub va: u64,
    pub frame: PhysAddr,
    pub flags: PageFlags,
    pub data: Vec<u8>,
}

/// What a page is mapped to, and what it holds.
#[verifier::ext_equal]
pub struct PageView {
    pub frame: PhysAddr,
    pub flags: PageFlags,
    pub data: Seq<u8>,
}

/// An address space by page address.
pub type SpaceView = Map<u64, PageView>;

/// The pages of one process, in the order in which they were mapped.
pub struct UserSpace {
    pages: Vec<UserPage>,
}

impl UserPage {
    pub open spec fn content(&self) -> PageView {
        PageView { frame: self.frame, flags: self.flags, data: self.data@ }
    }
}

/// The pages as a map.
pub closed spec fn by_address(pages: Seq<UserPage>) -> SpaceView
    decreases pages.len(),
{
    if pages.len() == 0 {
        Map::empty()
    } else {
        by_address(pages.drop_last()).insert(pages.last().va, pages.last().content())
    }
}

proof fn lemma_by_address(pages: Seq<UserPage>, i: int)
    requires
        0 <= i < pages.len(),
        forall|j: int| i < j < pages.len() ==> (#[trigger] pages[j]).va != pages[i].va,
    ensures
        by_address(pages).contains_key(pages[i].va),
        by_address(pages)[pages[i].va] == pages[i].content(),
    decreases pages.len(),
{
    if i < pages.len() - 1 {
        let head = pages.drop_last();
        assert(forall|j: int| i < j < head.len() ==> (#[trigger] head[j]).va != head[i].va);
        lemma_by_address(head, i);
        assert(pages[pages.len() - 1].va != pages[i].va);
    }
}

proof fn lemma_absent(pages: Seq<UserPage>, va: u64)
    requires
        forall|j: int| 0 <= j < pages.len() ==> (#[trigger] pages[j]).va != va,
    ensures
        !by_address(pages).contains_key(va),
    decreases pages.len(),
{
    if pages.len() > 0 {
        let head = pages.drop_last();
        assert forall|j: int| 0 <= j < head.len() implies (#[trigger] head[j]).va != va by {
            assert(head[j] == pages[j]);
        }
        lemma_absent(head, va);
        assert(pages[pages.len() - 1].va != va);
    }
}

proof fn lemma_replaced(pages: Seq<UserPage>, i: int, p: UserPage)
    requires
        0 <= i < pages.len(),
        p.va == pages[i].va,
        distinct(pages),
    ensures
        by_address(pages.update(i, p)) == by_address(pages).insert(p.va, p.content()),
    decreases pages.len(),
{
    let after = pages.update(i, p);
    let head = pages.drop_last();
    if i == pages.len() - 1 {
        assert(after.drop_last() =~= head);
        assert(by_address(after) =~= by_address(pages).insert(p.va, p.content()));
    } else {
        assert(after.drop_last() =~= head.update(i, p));
        assert(distinct(head)) by {
            assert forall|a: int, b: int| 0 <= a < b < head.len() implies (#[trigger] head[a]).va
                != (#[trigger] head[b]).va by {
                assert(head[a] == pages[a] && head[b] == pages[b]);
            }
        }
        lemma_replaced(head, i, p);
        assert(pages[i].va != pages[pages.len() - 1].va);
        assert(by_address(after) =~= by_address(pages).insert(p.va, p.content()));
    }
}

/// No page is listed twice.
spec fn distinct(pages: Seq<UserPage>) -> bool {
    forall|i: int, j: int|
        0 <= i < j < pages.len() ==> (#[trigger] pages[i]).va != (#[trigger] pages[j]).va
}

impl View for UserSpace {
    type V = SpaceView;

    closed spec fn view(&self) -> SpaceView {
        by_address(self.pages@)
    }
}

impl UserSpace {
    /// Each page is listed once.
    pub closed spec fn wf(&self) -> bool {
        distinct(self.pages@)
    }

    /// An address space without user pages.
    pub fn new() -> (s: UserSpace)
        ensures
            s.wf(),
            s@ == Map::<u64, PageView>::empty(),
    {
        UserSpace { pages: Vec::new() }
    }

    fn find(&self, va: u64) -> (r: Option<usize>)
        requires
            self.wf(),
        ensures
            match r {
                Some(i) => i < self.pages@.len() && self.pages@[i as int].va == va
                    && self@.contains_key(va) && self@[va] == self.pages@[i as int].content(),
                None => !self@.contains_key(va) && forall|j: int|
                    0 <= j < self.pages@.len() ==> (#[trigger] self.pages@[j]).va != va,
            },
    {
        let mut i: usize = 0;
        while i < self.pages.len()
            invariant
                self.wf(),
                i <= self.pages@.len(),
                forall|j: int| 0 <= j < i ==> (#[trigger] self.pages@[j]).va != va,
            decreases self.pages@.len() - i,
        {
            if self.pages[i].va == va {
                proof {
                    lemma_by_address(self.pages@, i as int);
                }
                return Some(i);
            }
            i += 1;
        }
        proof {
            lemma_absent(self.pages@, va);
        }
        None
    }

    /// The frame that a page is mapped to.
    pub fn query_page(&self, va: u64) -> (r: Option<PhysAddr>)
        requires
            self.wf(),
        ensures
            r == if self@.contains_key(va) {
                Some(self@[va].frame)
            } else {
                None
            },
    {
        match self.find(va) {
            Some(i) => Some(self.pages[i].frame),
            None => None,
        }
    }

    /// The flags of a page.
    pub fn query_flags(&self, va: u64) -> (r: Option<PageFlags>)
        requires
            self.wf(),
        ensures
            r == if self@.contains_key(va) {
                Some(self@[va].flags)
            } else {
                None
            },
    {
        match self.find(va) {
            Some(i) => Some(self.pages[i].flags),
            None => None,
        }
    }

    /// Map a page to a frame of zeros.
    pub fn map_page(&mut self, va: u64, frame: PhysAddr, flags: PageFlags)
        requires
            old(self).wf(),
        ensures
            final(self).wf(),
            final(self)@ == old(self)@.insert(
                va,
                PageView { frame, flags, data: zeros(PAGE_SIZE as nat) },
            ),
    {
        let p = UserPage { va, frame, flags, data: zero_bytes(PAGE_SIZE as usize) };
        let ghost pages = self.pages@;
        match self.find(va) {
            Some(i) => {
                proof {
                    lemma_replaced(pages, i as int, p);
                }
                self.pages.set(i, p);
            },
            None => {
                self.pages.push(p);
                assert(self.pages@.drop_last() =~= pages);
            },
        }
    }

    /// Set the flags of a page that is mapped.
    pub fn update_page_flags(&mut self, va: u64, flags: PageFlags)
        requires
            old(self).wf(),
        ensures
            final(self).wf(),
            final(self)@ == if old(self)@.contains_key(va) {
                old(self)@.insert(va, PageView { flags, ..old(self)@[va] })
            } else {
                old(self)@
            },
    {
        let ghost pages = self.pages@;
        match self.find(va) {
            Some(i) => {
                let ghost before = self.pages@[i as int];
                self.pages[i].flags = flags;
                proof {
                    let p = UserPage { flags, ..before };
                    lemma_replaced(pages, i as int, p);
                    assert(self.pages@ =~= pages.update(i as int, p));
                }
            },
            None => {},
        }
    }

    /// Overwrite part of a mapped page with `part[from..from + n]`.
    pub fn write_page(&mut self, va: u64, at: usize, part: &[u8], from: usize, n: usize)
        requires
            old(self).wf(),
            old(self)@.contains_key(va),
            at + n <= old(self)@[va].data.len(),
            from + n <= part.len(),
        ensures
            final(self).wf(),
            final(self)@ == old(self)@.insert(
                va,
                PageView {
                    data: splice(
                        old(self)@[va].data,
                        at as int,
                        part@.subrange(from as int, from + n),
                    ),
                    ..old(self)@[va]
                },
            ),
    {
        let ghost pages = self.pages@;
        match self.find(va) {
            Some(i) => {
                let ghost before = self.pages@[i as int];
                assert(at + n <= self.pages@[i as int].data.len());
                put_bytes(&mut self.pages[i].data, at, part, from, n);
                proof {
                    let p = self.pages@[i as int];
                    lemma_replaced(pages, i as int, p);
                    assert(self.pages@ =~= pages.update(i as int, p));
                }
            },
            None => {},
        }
    }

    /// How many pages are mapped.
    pub fn page_count(&self) -> (n: usize)
        requires
            self.wf(),
        ensures
            n == self@.dom().len(),
    {
        proof {
            lemma_count(self.pages@);
        }
        self.pages.len()
    }

    /// A mapped page by its place in the list: its address, frame, flags and
    /// contents.
    pub fn page(&self, i: usize) -> (r: Option<&UserPage>)
        requires
            self.wf(),
        ensures
            r is None <==> i >= self@.dom().len(),
            r is Some ==> self@.contains_key(r->0.va) && self@[r->0.va] == r->0.content(),
    {
        proof {
            lemma_count(self.pages@);
        }
        if i < self.pages.len() {
            proof {
                lemma_by_address(self.pages@, i as int);
            }
            Some(&self.pages[i])
        } else {
            None
        }
    }
}

proof fn lemma_count(pages: Seq<UserPage>)
    requires
        distinct(pages),
    ensures
        by_address(pages).dom().len() == pages.len(),
        by_address(pages).dom().finite(),
    decreases pages.len(),
{
    if pages.len() == 0 {
        assert(by_address(pages).dom() =~= Set::empty());
    } else {
        let head = pages.drop_last();
        let va = pages.last().va;
        assert forall|a: int, b: int| 0 <= a < b < head.len() implies (#[trigger] head[a]).va != (
        #[trigger] head[b]).va by {
            assert(head[a] == pages[a] && head[b] == pages[b]);
        }
        lemma_count(head);
        assert forall|j: int| 0 <= j < head.len() implies (#[trigger] head[j]).va != va by {
            assert(pages[j].va != pages[pages.len() - 1].va);
        }
        lemma_absent(head, va);
        assert(by_address(pages).dom() =~= by_address(head).dom().insert(va));
    }
}

} // verus!
