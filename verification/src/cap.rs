//! Capabilities: unforgeable, generation-tagged tokens for kernel objects.
//!
//! Tasks hold opaque [`CapHandle`] values; a [`CapabilityTable`] maps a handle
//! to a [`Capability`]. A handle and an object reference carry both a slot
//! index and the generation of the slot, so that a stale one is detected.

use vstd::prelude::*;

verus! {

/// Kernel-internal capability identity.
pub type CapId = u64;

/// What a capability refers to.
#[derive(Clone, Copy, Debug, PartialEq, Eq, Structural)]
pub enum CapKind {
    /// Contiguous physical frame range.
    Memory,
    /// IPC endpoint.
    Ipc,
    /// Hardware device.
    Device,
    /// Privileged rollback trigger.
    Rollback,
    /// Mount authority.
    Filesystem,
}

/// Bit field of rights attached to a capability.
#[derive(Clone, Copy, Debug, PartialEq, Eq, Structural)]
pub struct CapRights(pub u8);

impl CapRights {
    pub const READ: u8 = 1;
    pub const WRITE: u8 = 2;
    pub const GRANT: u8 = 4;
    pub const REVOKE: u8 = 8;
    pub const ALL: u8 = 0x0F;
    pub const NONE: u8 = 0;

    /// Every bit of `other` is set in `self`.
    pub open spec fn spec_has(self, other: CapRights) -> bool {
        self.0 & other.0 == other.0
    }

    /// True if `self` holds all bits in `other`.
    pub fn has(self, other: CapRights) -> (r: bool)
        ensures
            r == self.spec_has(other),
    {
        self.0 & other.0 == other.0
    }

    /// The rights present in both.
    pub fn intersect(self, mask: CapRights) -> (r: CapRights)
        ensures
            r.0 == self.0 & mask.0,
    {
        CapRights(self.0 & mask.0)
    }
}

/// Why a capability operation was refused.
#[derive(Clone, Copy, Debug, PartialEq, Eq, Structural)]
pub enum CapError {
    /// Handle index out of range or slot empty.
    InvalidHandle,
    /// The handle's generation is not the slot's current one.
    GenerationMismatch,
    /// The capability does not carry the grant right.
    NoGrant,
    /// The capability does not carry the revoke right.
    NoRevoke,
    /// The kernel object table is full.
    NoMemory,
}

/// A kernel-managed resource that a capability refers to.
#[derive(Clone, Copy, Debug, PartialEq, Eq, Structural)]
pub enum KernelObject {
    /// Contiguous run of physical frames starting at `base_pa`.
    Memory { base_pa: u64, frame_count: u64 },
    /// IPC endpoint, by index.
    Ipc { endpoint_idx: usize },
    /// Hardware device, by index into the device registry.
    Device { registry_idx: usize },
    /// Privileged rollback trigger.
    Rollback,
    /// Mount authority.
    Filesystem,
}

// ── Generation-tagged references ─────────────────────────────────────────────

/// The number of slot indices that a packed reference can tell apart.
pub const INDEX_SPAN: u64 = 0x1_0000_0000;

/// A slot index and a generation in one word: generation high, index low.
pub open spec fn packed(index: u32, generation: u32) -> int {
    generation * INDEX_SPAN + index
}

/// The slot index in a packed word.
pub open spec fn packed_index(word: u64) -> int {
    word as int % INDEX_SPAN as int
}

/// The generation in a packed word.
pub open spec fn packed_generation(word: u64) -> int {
    word as int / INDEX_SPAN as int
}

fn pack_word(index: u32, generation: u32) -> (word: u64)
    ensures
        word == packed(index, generation),
        packed_index(word) == index,
        packed_generation(word) == generation,
{
    let word: u64 = ((generation as u64) << 32) | index as u64;
    assert(word == generation * 0x1_0000_0000 + index) by (bit_vector)
        requires
            word == ((generation as u64) << 32) | index as u64,
    ;
    word
}

fn unpack_index(word: u64) -> (index: usize)
    ensures
        index == packed_index(word),
{
    assert(word & 0xFFFF_FFFF == word % 0x1_0000_0000) by (bit_vector);
    (word & 0xFFFF_FFFF) as usize
}

fn unpack_generation(word: u64) -> (generation: u32)
    ensures
        generation == packed_generation(word),
{
    assert(word >> 32 == word / 0x1_0000_0000) by (bit_vector);
    (word >> 32) as u32
}

/// Generation-tagged index into the kernel object table.
#[derive(Clone, Copy, Debug, PartialEq, Eq, Structural)]
pub struct KernelObjectRef(pub u64);

/// Opaque per-task capability handle.
#[derive(Clone, Copy, Debug, PartialEq, Eq, Structural)]
pub struct CapHandle(pub u64);

impl KernelObjectRef {
    pub open spec fn slot(self) -> int {
        packed_index(self.0)
    }

    pub open spec fn tag(self) -> int {
        packed_generation(self.0)
    }
}

impl CapHandle {
    pub open spec fn slot(self) -> int {
        packed_index(self.0)
    }

    pub open spec fn tag(self) -> int {
        packed_generation(self.0)
    }
}

// ── Slots ────────────────────────────────────────────────────────────────────

/// One slot of a table: the generation and what the slot holds, if anything.
#[verifier::ext_equal]
pub struct SlotView<T> {
    pub generation: u32,
    pub item: Option<T>,
}

/// The index of the first vacant slot at or after `from`, or the length.
pub open spec fn first_vacant<T>(slots: Seq<SlotView<T>>, from: int) -> int
    decreases slots.len() - from,
{
    if from >= slots.len() {
        slots.len() as int
    } else if slots[from].item is None {
        from
    } else {
        first_vacant(slots, from + 1)
    }
}

/// The generation that the next item put into slot `i` gets.
pub open spec fn next_generation<T>(slots: Seq<SlotView<T>>, i: int) -> u32 {
    if i < slots.len() {
        wrapped_next(slots[i].generation)
    } else {
        0
    }
}

pub open spec fn wrapped_next(g: u32) -> u32 {
    if g == u32::MAX {
        0
    } else {
        (g + 1) as u32
    }
}

/// The slots after `item` is put into the first vacant slot, or into a new one
/// at the end where none is vacant.
pub open spec fn slots_with<T>(slots: Seq<SlotView<T>>, item: T) -> Seq<SlotView<T>> {
    let i = first_vacant(slots, 0);
    let slot = SlotView { generation: next_generation(slots, i), item: Some(item) };
    if i < slots.len() {
        slots.update(i, slot)
    } else {
        slots.push(slot)
    }
}

/// The word that names the slot `slots_with` fills.
pub open spec fn word_for_next<T>(slots: Seq<SlotView<T>>) -> int {
    let i = first_vacant(slots, 0);
    packed(i as u32, next_generation(slots, i))
}

/// What the word names: the item, or why there is none.
pub open spec fn slot_lookup<T>(slots: Seq<SlotView<T>>, word: u64) -> Result<T, CapError> {
    let i = packed_index(word);
    if i >= slots.len() {
        Err(CapError::InvalidHandle)
    } else if slots[i].generation != packed_generation(word) {
        Err(CapError::GenerationMismatch)
    } else {
        match slots[i].item {
            Some(x) => Ok(x),
            None => Err(CapError::InvalidHandle),
        }
    }
}

/// The slots with slot `i` emptied; its generation stays.
pub open spec fn slots_without<T>(slots: Seq<SlotView<T>>, i: int) -> Seq<SlotView<T>> {
    slots.update(i, SlotView { generation: slots[i].generation, item: None })
}

/// The search ends at the first vacant slot, or at the end.
pub proof fn lemma_first_vacant_bounds<T>(slots: Seq<SlotView<T>>, from: int)
    requires
        0 <= from <= slots.len(),
    ensures
        from <= first_vacant(slots, from) <= slots.len(),
        forall|k: int| from <= k < first_vacant(slots, from) ==> slots[k].item is Some,
        first_vacant(slots, from) < slots.len() ==> slots[first_vacant(slots, from)].item is None,
    decreases slots.len() - from,
{
    if from < slots.len() && slots[from].item is Some {
        lemma_first_vacant_bounds(slots, from + 1);
    }
}

/// No slot from `from` on and before `i` is vacant, so `i` is where the search ends.
proof fn lemma_first_vacant_is<T>(slots: Seq<SlotView<T>>, from: int, i: int)
    requires
        0 <= from <= i <= slots.len(),
        forall|k: int| from <= k < i ==> slots[k].item is Some,
        i < slots.len() ==> slots[i].item is None,
    ensures
        first_vacant(slots, from) == i,
    decreases i - from,
{
    if from < i {
        lemma_first_vacant_is(slots, from + 1, i);
    }
}

// ── Kernel object table ──────────────────────────────────────────────────────

/// One slot of the kernel object table.
pub struct KoSlot {
    generation: u32,
    object: Option<KernelObject>,
}

/// The arena of kernel objects.
pub struct KoTable {
    slots: Vec<KoSlot>,
}

impl View for KoSlot {
    type V = SlotView<KernelObject>;

    closed spec fn view(&self) -> SlotView<KernelObject> {
        SlotView { generation: self.generation, item: self.object }
    }
}

impl View for KoTable {
    type V = Seq<SlotView<KernelObject>>;

    closed spec fn view(&self) -> Seq<SlotView<KernelObject>> {
        Seq::new(self.slots@.len(), |i: int| self.slots@[i]@)
    }
}

impl KoTable {
    /// An arena without objects.
    pub fn new() -> (t: KoTable)
        ensures
            t@ == Seq::<SlotView<KernelObject>>::empty(),
    {
        let t = KoTable { slots: Vec::new() };
        assert(t@ =~= Seq::<SlotView<KernelObject>>::empty());
        t
    }

    /// Where no slot is vacant and the next index would not fit in a
    /// reference, the arena is full.
    pub open spec fn full(slots: Seq<SlotView<KernelObject>>) -> bool {
        first_vacant(slots, 0) == slots.len() && slots.len() >= INDEX_SPAN
    }

    /// No object can be registered.
    pub fn is_full(&self) -> (r: bool)
        ensures
            r == KoTable::full(self@),
    {
        let mut i: usize = 0;
        while i < self.slots.len()
            invariant
                0 <= i <= self.slots.len(),
                forall|k: int| 0 <= k < i ==> self@[k].item is Some,
            decreases self.slots.len() - i,
        {
            if self.slots[i].object.is_none() {
                proof {
                    lemma_first_vacant_is(self@, 0, i as int);
                }
                return false;
            }
            i += 1;
        }
        proof {
            lemma_first_vacant_is(self@, 0, i as int);
        }
        i > u32::MAX as usize
    }

    fn create(&mut self, obj: KernelObject) -> (r: Result<KernelObjectRef, CapError>)
        ensures
            KoTable::full(old(self)@) ==> {
                &&& r == Err::<KernelObjectRef, CapError>(CapError::NoMemory)
                &&& final(self)@ == old(self)@
            },
            !KoTable::full(old(self)@) ==> {
                &&& r is Ok
                &&& r->Ok_0.0 == word_for_next(old(self)@)
                &&& final(self)@ == slots_with(old(self)@, obj)
            },
    {
        let mut i: usize = 0;
        while i < self.slots.len()
            invariant
                0 <= i <= self.slots.len(),
                *self == *old(self),
                forall|k: int| 0 <= k < i ==> self@[k].item is Some,
            decreases self.slots.len() - i,
        {
            if self.slots[i].object.is_none() {
                proof {
                    lemma_first_vacant_is(self@, 0, i as int);
                }
                let generation: u32 = self.slots[i].generation.wrapping_add(1);
                self.slots[i] = KoSlot { generation, object: Some(obj) };
                assert(self@ =~= slots_with(old(self)@, obj));
                return Ok(KernelObjectRef(pack_word(i as u32, generation)));
            }
            i += 1;
        }
        proof {
            lemma_first_vacant_is(self@, 0, i as int);
        }
        if i > u32::MAX as usize {
            return Err(CapError::NoMemory);
        }
        self.slots.push(KoSlot { generation: 0, object: Some(obj) });
        assert(self@ =~= slots_with(old(self)@, obj));
        Ok(KernelObjectRef(pack_word(i as u32, 0)))
    }

    fn get(&self, r: KernelObjectRef) -> (o: Option<&KernelObject>)
        ensures
            match slot_lookup(self@, r.0) {
                Ok(x) => o is Some && *o->0 == x,
                Err(_) => o is None,
            },
    {
        let i: usize = unpack_index(r.0);
        if i >= self.slots.len() {
            return None;
        }
        assert(self@[i as int] == self.slots@[i as int]@);
        if self.slots[i].generation != unpack_generation(r.0) {
            return None;
        }
        self.slots[i].object.as_ref()
    }

    fn destroy(&mut self, r: KernelObjectRef) -> (res: Result<(), CapError>)
        ensures
            r.slot() >= old(self)@.len() ==> res == Err::<(), CapError>(CapError::InvalidHandle)
                && final(self)@ == old(self)@,
            r.slot() < old(self)@.len() && old(self)@[r.slot()].generation != r.tag() ==> {
                &&& res == Err::<(), CapError>(CapError::GenerationMismatch)
                &&& final(self)@ == old(self)@
            },
            r.slot() < old(self)@.len() && old(self)@[r.slot()].generation == r.tag() ==> {
                &&& res == Ok::<(), CapError>(())
                &&& final(self)@ == slots_without(old(self)@, r.slot())
            },
    {
        let i: usize = unpack_index(r.0);
        if i >= self.slots.len() {
            return Err(CapError::InvalidHandle);
        }
        assert(self@[i as int] == self.slots@[i as int]@);
        let generation: u32 = self.slots[i].generation;
        if generation != unpack_generation(r.0) {
            return Err(CapError::GenerationMismatch);
        }
        self.slots[i] = KoSlot { generation, object: None };
        assert(self@ =~= slots_without(old(self)@, r.slot()));
        Ok(())
    }
}

/// Register a kernel object; the reference names it until it is destroyed.
pub fn create_object(table: &mut KoTable, obj: KernelObject) -> (r: Result<
    KernelObjectRef,
    CapError,
>)
    ensures
        KoTable::full(old(table)@) ==> {
            &&& r == Err::<KernelObjectRef, CapError>(CapError::NoMemory)
            &&& final(table)@ == old(table)@
        },
        !KoTable::full(old(table)@) ==> {
            &&& r is Ok
            &&& r->Ok_0.0 == word_for_next(old(table)@)
            &&& final(table)@ == slots_with(old(table)@, obj)
        },
{
    table.create(obj)
}

/// Destroy a kernel object. Destroying a vacant slot of the right generation
/// succeeds and changes nothing.
pub fn destroy_object(table: &mut KoTable, r: KernelObjectRef) -> (res: Result<(), CapError>)
    ensures
        r.slot() >= old(table)@.len() ==> res == Err::<(), CapError>(CapError::InvalidHandle)
            && final(table)@ == old(table)@,
        r.slot() < old(table)@.len() && old(table)@[r.slot()].generation != r.tag() ==> {
            &&& res == Err::<(), CapError>(CapError::GenerationMismatch)
            &&& final(table)@ == old(table)@
        },
        r.slot() < old(table)@.len() && old(table)@[r.slot()].generation == r.tag() ==> {
            &&& res == Ok::<(), CapError>(())
            &&& final(table)@ == slots_without(old(table)@, r.slot())
        },
{
    table.destroy(r)
}

/// Resolve a reference; `None` where it is stale or the object is destroyed.
pub fn get_object(table: &KoTable, r: KernelObjectRef) -> (o: Option<&KernelObject>)
    ensures
        match slot_lookup(table@, r.0) {
            Ok(x) => o is Some && *o->0 == x,
            Err(_) => o is None,
        },
{
    table.get(r)
}

// ── Capabilities ─────────────────────────────────────────────────────────────

/// The source of capability identities, counting up from 1.
pub struct CapIds {
    pub next: CapId,
}

impl CapIds {
    pub fn new() -> (c: CapIds)
        ensures
            c.next == 1,
    {
        CapIds { next: 1 }
    }

    /// Hand out the next identity; the counter wraps at the end of its range.
    pub fn alloc_cap_id(&mut self) -> (id: CapId)
        ensures
            id == old(self).next,
            final(self).next == old(self).after(),
    {
        let id: CapId = self.next;
        self.next = self.next.wrapping_add(1);
        id
    }

    /// The counter after one identity is handed out.
    pub open spec fn after(self) -> u64 {
        if self.next == u64::MAX {
            0
        } else {
            (self.next + 1) as u64
        }
    }
}

/// A token that grants `rights` on a kernel object.
pub struct Capability {
    /// Unique kernel-internal identity.
    pub id: CapId,
    pub kind: CapKind,
    pub rights: CapRights,
    /// The underlying kernel object.
    pub object: KernelObjectRef,
    /// The capability this was derived from; `None` for a root.
    pub parent_id: Option<CapId>,
    /// `(task_id, handle)` of the capabilities granted from this one.
    pub children: Vec<(u64, CapHandle)>,
}

/// A capability as a mathematical value.
#[verifier::ext_equal]
pub struct CapView {
    pub id: CapId,
    pub kind: CapKind,
    pub rights: CapRights,
    pub object: KernelObjectRef,
    pub parent_id: Option<CapId>,
    pub children: Seq<(u64, CapHandle)>,
}

impl View for Capability {
    type V = CapView;

    open spec fn view(&self) -> CapView {
        CapView {
            id: self.id,
            kind: self.kind,
            rights: self.rights,
            object: self.object,
            parent_id: self.parent_id,
            children: self.children@,
        }
    }
}

/// One slot of a capability table.
pub struct CapSlot {
    generation: u32,
    cap: Option<Capability>,
}

/// Per-task table from handles to capabilities.
pub struct CapabilityTable {
    slots: Vec<CapSlot>,
}

/// The contents of a capability table.
pub type CapSlots = Seq<SlotView<CapView>>;

impl View for CapSlot {
    type V = SlotView<CapView>;

    closed spec fn view(&self) -> SlotView<CapView> {
        SlotView {
            generation: self.generation,
            item: match self.cap {
                Some(c) => Some(c@),
                None => None,
            },
        }
    }
}

impl View for CapabilityTable {
    type V = CapSlots;

    closed spec fn view(&self) -> CapSlots {
        Seq::new(self.slots@.len(), |i: int| self.slots@[i]@)
    }
}

/// Some slot holds a capability of `kind` with at least `rights`.
pub open spec fn holds_kind(slots: CapSlots, kind: CapKind, rights: CapRights) -> bool {
    exists|i: int|
        0 <= i < slots.len() && (#[trigger] slots[i]).item is Some && slots[i].item->0.kind == kind
            && slots[i].item->0.rights.spec_has(rights)
}

/// Some slot holds a capability of `kind`.
pub open spec fn holds_any(slots: CapSlots, kind: CapKind) -> bool {
    exists|i: int|
        0 <= i < slots.len() && (#[trigger] slots[i]).item is Some && slots[i].item->0.kind == kind
}

/// The handles, in slot order, of the capabilities derived from `parent_id`
/// in the first `n` slots.
pub open spec fn children_of(slots: CapSlots, parent_id: CapId, n: int) -> Seq<CapHandle>
    decreases n,
{
    if n <= 0 {
        seq![]
    } else {
        let rest = children_of(slots, parent_id, n - 1);
        let slot = slots[n - 1];
        if slot.item is Some && slot.item->0.parent_id == Some(parent_id) {
            rest.push(CapHandle(packed((n - 1) as u32, slot.generation) as u64))
        } else {
            rest
        }
    }
}

impl CapabilityTable {
    /// A table without capabilities.
    pub fn new() -> (t: CapabilityTable)
        ensures
            t@ == Seq::<SlotView<CapView>>::empty(),
    {
        let t = CapabilityTable { slots: Vec::new() };
        assert(t@ =~= Seq::<SlotView<CapView>>::empty());
        t
    }

    /// Put a capability into the first vacant slot, or a new one at the end.
    pub fn insert(&mut self, cap: Capability) -> (h: CapHandle)
        ensures
            h.0 == word_for_next(old(self)@),
            final(self)@ == slots_with(old(self)@, cap@),
    {
        let mut i: usize = 0;
        while i < self.slots.len()
            invariant
                0 <= i <= self.slots.len(),
                *self == *old(self),
                forall|k: int| 0 <= k < i ==> self@[k].item is Some,
            decreases self.slots.len() - i,
        {
            if self.slots[i].cap.is_none() {
                proof {
                    lemma_first_vacant_is(self@, 0, i as int);
                }
                let generation: u32 = self.slots[i].generation.wrapping_add(1);
                let ghost cv = cap@;
                self.slots[i] = CapSlot { generation, cap: Some(cap) };
                assert(self@ =~= slots_with(old(self)@, cv));
                return CapHandle(pack_word(i as u32, generation));
            }
            i += 1;
        }
        proof {
            lemma_first_vacant_is(self@, 0, i as int);
        }
        let ghost cv = cap@;
        self.slots.push(CapSlot { generation: 0, cap: Some(cap) });
        assert(self@ =~= slots_with(old(self)@, cv));
        CapHandle(pack_word(i as u32, 0))
    }

    /// Borrow a capability by handle.
    pub fn get(&self, h: CapHandle) -> (r: Result<&Capability, CapError>)
        ensures
            match slot_lookup(self@, h.0) {
                Ok(c) => r is Ok && r->Ok_0@ == c,
                Err(e) => r == Err::<&Capability, CapError>(e),
            },
    {
        let i: usize = unpack_index(h.0);
        if i >= self.slots.len() {
            return Err(CapError::InvalidHandle);
        }
        assert(self@[i as int] == self.slots@[i as int]@);
        if self.slots[i].generation != unpack_generation(h.0) {
            return Err(CapError::GenerationMismatch);
        }
        match &self.slots[i].cap {
            Some(c) => Ok(c),
            None => Err(CapError::InvalidHandle),
        }
    }

    /// Mutably borrow a capability by handle.
    pub fn get_mut(&mut self, h: CapHandle) -> (r: Result<&mut Capability, CapError>)
        ensures
            match slot_lookup(old(self)@, h.0) {
                Ok(c) => r is Ok && (*r->Ok_0)@ == c && final(self)@ == old(self)@.update(
                    h.slot(),
                    SlotView {
                        generation: old(self)@[h.slot()].generation,
                        item: Some((*final(r->Ok_0))@),
                    },
                ),
                Err(e) => r is Err && r->Err_0 == e && final(self)@ == old(self)@,
            },
    {
        let i: usize = unpack_index(h.0);
        if i >= self.slots.len() {
            return Err(CapError::InvalidHandle);
        }
        assert(self@[i as int] == self.slots@[i as int]@);
        if self.slots[i].generation != unpack_generation(h.0) {
            return Err(CapError::GenerationMismatch);
        }
        match &mut self.slots[i].cap {
            Some(c) => Ok(c),
            None => Err(CapError::InvalidHandle),
        }
    }

    /// Remove and return a capability by handle.
    pub fn take(&mut self, h: CapHandle) -> (r: Result<Capability, CapError>)
        ensures
            match slot_lookup(old(self)@, h.0) {
                Ok(c) => r is Ok && r->Ok_0@ == c && final(self)@ == slots_without(
                    old(self)@,
                    h.slot(),
                ),
                Err(e) => r is Err && r->Err_0 == e && final(self)@ == old(self)@,
            },
    {
        let i: usize = unpack_index(h.0);
        if i >= self.slots.len() {
            return Err(CapError::InvalidHandle);
        }
        assert(self@[i as int] == self.slots@[i as int]@);
        if self.slots[i].generation != unpack_generation(h.0) {
            return Err(CapError::GenerationMismatch);
        }
        match self.slots[i].cap.take() {
            Some(c) => {
                assert(self@ =~= slots_without(old(self)@, h.slot()));
                Ok(c)
            },
            None => {
                assert(self@ =~= old(self)@);
                Err(CapError::InvalidHandle)
            },
        }
    }

    /// True if the table holds at least one capability of `kind`.
    pub fn has_kind(&self, kind: CapKind) -> (r: bool)
        ensures
            r == holds_any(self@, kind),
    {
        let mut i: usize = 0;
        while i < self.slots.len()
            invariant
                0 <= i <= self.slots.len(),
                forall|k: int|
                    0 <= k < i && (#[trigger] self@[k]).item is Some ==> self@[k].item->0.kind
                        != kind,
            decreases self.slots.len() - i,
        {
            assert(self@[i as int] == self.slots@[i as int]@);
            if let Some(c) = &self.slots[i].cap {
                if c.kind == kind {
                    return true;
                }
            }
            i += 1;
        }
        false
    }

    /// True if the table holds a capability of `kind` with all of `rights`.
    pub fn has_kind_with_rights(&self, kind: CapKind, rights: CapRights) -> (r: bool)
        ensures
            r == holds_kind(self@, kind, rights),
    {
        let mut i: usize = 0;
        while i < self.slots.len()
            invariant
                0 <= i <= self.slots.len(),
                forall|k: int|
                    0 <= k < i && (#[trigger] self@[k]).item is Some ==> !(self@[k].item->0.kind
                        == kind && self@[k].item->0.rights.spec_has(rights)),
            decreases self.slots.len() - i,
        {
            assert(self@[i as int] == self.slots@[i as int]@);
            if let Some(c) = &self.slots[i].cap {
                if c.kind == kind && c.rights.has(rights) {
                    return true;
                }
            }
            i += 1;
        }
        false
    }

    /// The handles of all capabilities derived from `parent_id`.
    pub fn find_children(&self, parent_id: CapId) -> (v: Vec<CapHandle>)
        ensures
            v@ == children_of(self@, parent_id, self@.len() as int),
    {
        let mut v: Vec<CapHandle> = Vec::new();
        let mut i: usize = 0;
        while i < self.slots.len()
            invariant
                0 <= i <= self.slots.len(),
                v@ == children_of(self@, parent_id, i as int),
            decreases self.slots.len() - i,
        {
            assert(self@[i as int] == self.slots@[i as int]@);
            if let Some(c) = &self.slots[i].cap {
                if let Some(p) = c.parent_id {
                    if p == parent_id {
                        v.push(CapHandle(pack_word(i as u32, self.slots[i].generation)));
                    }
                }
            }
            i += 1;
        }
        v
    }
}

// ── Operations ───────────────────────────────────────────────────────────────

/// A root capability: no parent, nothing derived from it yet.
pub open spec fn root_cap(
    id: CapId,
    kind: CapKind,
    rights: CapRights,
    object: KernelObjectRef,
) -> CapView {
    CapView { id, kind, rights, object, parent_id: None, children: Seq::empty() }
}

/// The capability that a grant of `cap` under `mask` derives.
pub open spec fn derived_cap(cap: CapView, id: CapId, mask: CapRights) -> CapView {
    CapView {
        id,
        kind: cap.kind,
        rights: CapRights(cap.rights.0 & mask.0),
        object: cap.object,
        parent_id: Some(cap.id),
        children: Seq::empty(),
    }
}

/// The copy of `cap` that a new task inherits.
pub open spec fn inherited_cap(cap: CapView, id: CapId) -> CapView {
    CapView {
        id,
        kind: cap.kind,
        rights: cap.rights,
        object: cap.object,
        parent_id: cap.parent_id,
        children: Seq::empty(),
    }
}

/// The slots after `(task, child)` is recorded with the capability in slot `i`.
pub open spec fn with_child(slots: CapSlots, i: int, task: u64, child: CapHandle) -> CapSlots {
    let cap = slots[i].item->0;
    slots.update(
        i,
        SlotView {
            generation: slots[i].generation,
            item: Some(CapView { children: cap.children.push((task, child)), ..cap }),
        },
    )
}

/// Create a root capability in `table`.
pub fn create_root_cap(
    ids: &mut CapIds,
    table: &mut CapabilityTable,
    kind: CapKind,
    rights: CapRights,
    object: KernelObjectRef,
) -> (h: CapHandle)
    ensures
        h.0 == word_for_next(old(table)@),
        final(table)@ == slots_with(old(table)@, root_cap(old(ids).next, kind, rights, object)),
        final(ids).next == old(ids).after(),
{
    let cap = Capability {
        id: ids.alloc_cap_id(),
        kind,
        rights,
        object,
        parent_id: None,
        children: Vec::new(),
    };
    assert(cap@ =~= root_cap(old(ids).next, kind, rights, object));
    table.insert(cap)
}

/// Grant a capability derived from `from[handle]` into `to`.
///
/// The grant right is needed. The new capability's rights are its parent's
/// cut down to `rights_mask`, and the parent records the child.
pub fn cap_grant(
    ids: &mut CapIds,
    from: &mut CapabilityTable,
    handle: CapHandle,
    to_task_id: u64,
    to: &mut CapabilityTable,
    rights_mask: CapRights,
) -> (r: Result<CapHandle, CapError>)
    ensures
        match slot_lookup(old(from)@, handle.0) {
            Err(e) => r == Err::<CapHandle, CapError>(e),
            Ok(cap) => if cap.rights.spec_has(CapRights(CapRights::GRANT)) {
                &&& r is Ok
                &&& r->Ok_0.0 == word_for_next(old(to)@)
                &&& final(to)@ == slots_with(old(to)@, derived_cap(cap, old(ids).next, rights_mask))
                &&& final(from)@ == with_child(old(from)@, handle.slot(), to_task_id, r->Ok_0)
                &&& final(ids).next == old(ids).after()
            } else {
                r == Err::<CapHandle, CapError>(CapError::NoGrant)
            },
        },
        r is Err ==> {
            &&& final(from)@ == old(from)@
            &&& final(to)@ == old(to)@
            &&& *final(ids) == *old(ids)
        },
{
    let (parent_id, kind, object, rights) = match from.get(handle) {
        Ok(cap) => {
            if !cap.rights.has(CapRights(CapRights::GRANT)) {
                return Err(CapError::NoGrant);
            }
            (cap.id, cap.kind, cap.object, cap.rights.intersect(rights_mask))
        },
        Err(e) => {
            return Err(e);
        },
    };
    let ghost cap = slot_lookup(old(from)@, handle.0)->Ok_0;
    let derived = Capability {
        id: ids.alloc_cap_id(),
        kind,
        rights,
        object,
        parent_id: Some(parent_id),
        children: Vec::new(),
    };
    assert(derived@ =~= derived_cap(cap, old(ids).next, rights_mask));
    let new_handle = to.insert(derived);
    match from.get_mut(handle) {
        Ok(parent) => {
            parent.children.push((to_task_id, new_handle));
        },
        Err(_) => {},
    }
    assert(from@ =~= with_child(old(from)@, handle.slot(), to_task_id, new_handle));
    Ok(new_handle)
}

/// Copy a capability into a new task's table, rights and parent included. No
/// right is asked for, and the one inherited from records no child.
pub fn cap_inherit(
    ids: &mut CapIds,
    from: &CapabilityTable,
    handle: CapHandle,
    to: &mut CapabilityTable,
) -> (r: Result<CapHandle, CapError>)
    ensures
        match slot_lookup(from@, handle.0) {
            Err(e) => {
                &&& r == Err::<CapHandle, CapError>(e)
                &&& final(to)@ == old(to)@
                &&& *final(ids) == *old(ids)
            },
            Ok(cap) => {
                &&& r is Ok
                &&& r->Ok_0.0 == word_for_next(old(to)@)
                &&& final(to)@ == slots_with(old(to)@, inherited_cap(cap, old(ids).next))
                &&& final(ids).next == old(ids).after()
            },
        },
{
    match from.get(handle) {
        Ok(src) => {
            let derived = Capability {
                id: ids.alloc_cap_id(),
                kind: src.kind,
                rights: src.rights,
                object: src.object,
                parent_id: src.parent_id,
                children: Vec::new(),
            };
            assert(derived@ =~= inherited_cap(src@, old(ids).next));
            Ok(to.insert(derived))
        },
        Err(e) => Err(e),
    }
}

/// Remove a capability from one table. The revoke right is needed; derived
/// capabilities stay.
pub fn cap_revoke(table: &mut CapabilityTable, handle: CapHandle) -> (r: Result<(), CapError>)
    ensures
        match slot_lookup(old(table)@, handle.0) {
            Err(e) => r == Err::<(), CapError>(e) && final(table)@ == old(table)@,
            Ok(cap) => if cap.rights.spec_has(CapRights(CapRights::REVOKE)) {
                &&& r == Ok::<(), CapError>(())
                &&& final(table)@ == slots_without(old(table)@, handle.slot())
            } else {
                &&& r == Err::<(), CapError>(CapError::NoRevoke)
                &&& final(table)@ == old(table)@
            },
        },
{
    match table.get(handle) {
        Ok(cap) => {
            if !cap.rights.has(CapRights(CapRights::REVOKE)) {
                return Err(CapError::NoRevoke);
            }
        },
        Err(e) => {
            return Err(e);
        },
    }
    match table.take(handle) {
        Ok(_) => Ok(()),
        Err(e) => Err(e),
    }
}

// ── Cascading revocation ─────────────────────────────────────────────────────

/// A task and the table of its capabilities.
pub struct TaskCaps {
    pub task_id: u64,
    pub table: CapabilityTable,
}

/// The capability tables of all tasks.
pub struct CapSpace {
    pub tasks: Vec<TaskCaps>,
}

/// The contents of all tables, each with the task that owns it.
pub type Space = Seq<(u64, CapSlots)>;

/// A capability's place: the table and the slot in it.
pub type Node = (int, int);

impl View for TaskCaps {
    type V = (u64, CapSlots);

    open spec fn view(&self) -> (u64, CapSlots) {
        (self.task_id, self.table@)
    }
}

impl View for CapSpace {
    type V = Space;

    open spec fn view(&self) -> Space {
        Seq::new(self.tasks@.len(), |i: int| self.tasks@[i]@)
    }
}

/// The first table at or after `from` that belongs to `task`, or the length.
pub open spec fn task_at(space: Space, task: u64, from: int) -> int
    decreases space.len() - from,
{
    if from >= space.len() {
        space.len() as int
    } else if space[from].0 == task {
        from
    } else {
        task_at(space, task, from + 1)
    }
}

/// The place of the live capability that `handle` names in `task`'s table.
pub open spec fn node_of(space: Space, task: u64, handle: CapHandle) -> Option<Node> {
    let i = task_at(space, task, 0);
    if i < space.len() && slot_lookup(space[i].1, handle.0) is Ok {
        Some((i, handle.slot()))
    } else {
        None
    }
}

/// The capability at a place.
pub open spec fn cap_at(space: Space, n: Node) -> CapView {
    space[n.0].1[n.1].item->0
}

/// `b` is recorded as granted from `a`.
pub open spec fn derives(space: Space, a: Node, b: Node) -> bool {
    exists|k: int|
        0 <= k < cap_at(space, a).children.len() && node_of(
            space,
            (#[trigger] cap_at(space, a).children[k]).0,
            cap_at(space, a).children[k].1,
        ) == Some(b)
}

/// Each place on the path is granted from the one before it.
pub open spec fn grant_chain(space: Space, path: Seq<Node>) -> bool {
    path.len() > 0 && forall|k: int|
        0 <= k < path.len() - 1 ==> derives(space, #[trigger] path[k], path[k + 1])
}

/// `b` is `a`, or is derived from it through any number of grants.
pub open spec fn descends(space: Space, a: Node, b: Node) -> bool {
    exists|path: Seq<Node>| #[trigger]
        grant_chain(space, path) && path[0] == a && path.last() == b
}

/// The tables with every slot that `gone` names emptied.
pub open spec fn vacated(space: Space, gone: spec_fn(Node) -> bool) -> Space {
    Seq::new(
        space.len(),
        |i: int|
            (
                space[i].0,
                Seq::new(
                    space[i].1.len(),
                    |j: int|
                        if gone((i, j)) {
                            SlotView { generation: space[i].1[j].generation, item: None }
                        } else {
                            space[i].1[j]
                        },
                ),
            ),
    )
}

spec fn live_slots(slots: CapSlots) -> nat
    decreases slots.len(),
{
    if slots.len() == 0 {
        0
    } else {
        live_slots(slots.drop_last()) + if slots.last().item is Some {
            1nat
        } else {
            0nat
        }
    }
}

spec fn live_caps(space: Space) -> nat
    decreases space.len(),
{
    if space.len() == 0 {
        0
    } else {
        live_caps(space.drop_last()) + live_slots(space.last().1)
    }
}

proof fn lemma_live_slots_without(slots: CapSlots, j: int)
    requires
        0 <= j < slots.len(),
        slots[j].item is Some,
    ensures
        live_slots(slots_without(slots, j)) + 1 == live_slots(slots),
    decreases slots.len(),
{
    let after = slots_without(slots, j);
    if j == slots.len() - 1 {
        assert(after.drop_last() =~= slots.drop_last());
    } else {
        lemma_live_slots_without(slots.drop_last(), j);
        assert(after.drop_last() =~= slots_without(slots.drop_last(), j));
    }
}

proof fn lemma_live_caps_without(space: Space, i: int, j: int)
    requires
        0 <= i < space.len(),
        0 <= j < space[i].1.len(),
        space[i].1[j].item is Some,
    ensures
        live_caps(space.update(i, (space[i].0, slots_without(space[i].1, j)))) + 1 == live_caps(
            space,
        ),
    decreases space.len(),
{
    let after = space.update(i, (space[i].0, slots_without(space[i].1, j)));
    if i == space.len() - 1 {
        assert(after.drop_last() =~= space.drop_last());
        lemma_live_slots_without(space[i].1, j);
    } else {
        lemma_live_caps_without(space.drop_last(), i, j);
        assert(after.drop_last() =~= space.drop_last().update(
            i,
            (space[i].0, slots_without(space[i].1, j)),
        ));
    }
}

proof fn lemma_task_at_bounds(space: Space, task: u64, from: int)
    requires
        0 <= from <= space.len(),
    ensures
        from <= task_at(space, task, from) <= space.len(),
        task_at(space, task, from) < space.len() ==> space[task_at(space, task, from)].0 == task,
    decreases space.len() - from,
{
    if from < space.len() && space[from].0 != task {
        lemma_task_at_bounds(space, task, from + 1);
    }
}

proof fn lemma_task_at_vacated(space: Space, gone: spec_fn(Node) -> bool, task: u64, from: int)
    requires
        0 <= from <= space.len(),
    ensures
        task_at(vacated(space, gone), task, from) == task_at(space, task, from),
    decreases space.len() - from,
{
    if from < space.len() && space[from].0 != task {
        lemma_task_at_vacated(space, gone, task, from + 1);
    }
}

/// A name resolves after a removal exactly where it did before and its place
/// was not removed.
proof fn lemma_node_of_vacated(
    space: Space,
    gone: spec_fn(Node) -> bool,
    task: u64,
    handle: CapHandle,
)
    ensures
        node_of(vacated(space, gone), task, handle) == (match node_of(space, task, handle) {
            Some(n) => if gone(n) {
                None
            } else {
                Some(n)
            },
            None => None,
        }),
{
    lemma_task_at_vacated(space, gone, task, 0);
    lemma_task_at_bounds(space, task, 0);
}

pub proof fn lemma_descends_step(space: Space, root: Node, a: Node, b: Node)
    requires
        descends(space, root, a),
        derives(space, a, b),
    ensures
        descends(space, root, b),
{
    let path = choose|path: Seq<Node>| #[trigger]
        grant_chain(space, path) && path[0] == root && path.last() == a;
    let longer = path.push(b);
    assert forall|k: int| 0 <= k < longer.len() - 1 implies derives(
        space,
        #[trigger] longer[k],
        longer[k + 1],
    ) by {
        if k < path.len() - 1 {
            assert(longer[k] == path[k] && longer[k + 1] == path[k + 1]);
        }
    }
    assert(grant_chain(space, longer));
    assert(longer.last() == b);
}

/// A set of places that holds the root and all that is granted from its
/// members holds every descendant.
proof fn lemma_closed_holds_path(space: Space, gone: Set<Node>, path: Seq<Node>, n: int)
    requires
        grant_chain(space, path),
        gone.contains(path[0]),
        forall|a: Node, b: Node|
            gone.contains(a) && #[trigger] derives(space, a, b) ==> gone.contains(b),
        0 <= n < path.len(),
    ensures
        gone.contains(path[n]),
    decreases n,
{
    if n > 0 {
        lemma_closed_holds_path(space, gone, path, n - 1);
        assert(derives(space, path[n - 1], path[n - 1 + 1]));
    }
}

impl CapSpace {
    /// No task, no table.
    pub fn new() -> (s: CapSpace)
        ensures
            s@ == Seq::<(u64, CapSlots)>::empty(),
    {
        let s = CapSpace { tasks: Vec::new() };
        assert(s@ =~= Seq::<(u64, CapSlots)>::empty());
        s
    }

    /// The index of the first table of `task`, if there is one.
    pub fn find(&self, task: u64) -> (r: Option<usize>)
        ensures
            match r {
                Some(i) => i == task_at(self@, task, 0) && i < self@.len(),
                None => task_at(self@, task, 0) == self@.len(),
            },
    {
        let mut i: usize = 0;
        while i < self.tasks.len()
            invariant
                i <= self.tasks.len(),
                task_at(self@, task, 0) == task_at(self@, task, i as int),
            decreases self.tasks.len() - i,
        {
            assert(self@[i as int] == self.tasks@[i as int]@);
            if self.tasks[i].task_id == task {
                return Some(i);
            }
            i += 1;
        }
        None
    }

    /// Remove the capability that `handle` names in `task`'s table and all that
    /// were derived from it, without asking for any right.
    fn cascade_force(&mut self, task: u64, handle: CapHandle)
        ensures
            final(self)@ == (match node_of(old(self)@, task, handle) {
                Some(root) => vacated(old(self)@, |n: Node| descends(old(self)@, root, n)),
                None => old(self)@,
            }),
    {
        let ghost before = self@;
        let ghost start = node_of(before, task, handle);
        let ghost mut gone: Set<Node> = Set::empty();
        let mut work: Vec<(u64, CapHandle)> = Vec::new();
        work.push((task, handle));
        proof {
            assert(self@ =~~= vacated(before, |n: Node| gone.contains(n)));
            assert(work@[0] == (task, handle));
            if start is Some {
                let path = seq![start->0];
                assert(grant_chain(before, path));
                assert(path.last() == start->0);
            }
        }
        while work.len() > 0
            invariant
                start == node_of(before, task, handle),
                self@ == vacated(before, |n: Node| gone.contains(n)),
                start is None ==> gone =~= Set::<Node>::empty(),
                start is None ==> forall|w: int|
                    0 <= w < work.len() ==> node_of(before, (#[trigger] work@[w]).0, work@[w].1) is None,
                forall|n: Node| gone.contains(n) ==> start is Some && descends(before, start->0, n),
                forall|w: int|
                    0 <= w < work.len() ==> (node_of(
                        before,
                        (#[trigger] work@[w]).0,
                        work@[w].1,
                    ) matches Some(n) ==> descends(before, start->0, n)),
                forall|a: Node, b: Node|
                    gone.contains(a) && #[trigger] derives(before, a, b) ==> gone.contains(b)
                        || exists|w: int|
                        0 <= w < work.len() && node_of(
                            before,
                            (#[trigger] work@[w]).0,
                            work@[w].1,
                        ) == Some(b),
                start is Some ==> gone.contains(start->0) || exists|w: int|
                    0 <= w < work.len() && node_of(before, (#[trigger] work@[w]).0, work@[w].1)
                        == start,
            decreases live_caps(self@), work.len(),
        {
            let ghost work0 = work@;
            let ghost gone0 = gone;
            let (t, h) = work.pop().unwrap();
            proof {
                lemma_node_of_vacated(before, |n: Node| gone0.contains(n), t, h);
                lemma_task_at_bounds(self@, t, 0);
                assert(work0[work0.len() - 1] == (t, h));
                assert forall|w: int| 0 <= w < work@.len() implies work@[w] == work0[w] by {}
            }
            let ghost target = node_of(before, t, h);
            let mut removed: Option<Capability> = None;
            if let Some(i) = self.find(t) {
                let ghost cur = self@;
                match self.tasks[i].table.take(h) {
                    Ok(c) => {
                        proof {
                            let n = (i as int, h.slot());
                            assert(target == Some(n));
                            lemma_live_caps_without(cur, i as int, h.slot());
                            assert(self@ =~= cur.update(
                                i as int,
                                (cur[i as int].0, slots_without(cur[i as int].1, h.slot())),
                            ));
                            gone = gone.insert(n);
                            assert(self@ =~~= vacated(before, |m: Node| gone.contains(m)));
                            assert(c@ == cap_at(before, n));
                        }
                        removed = Some(c);
                    },
                    Err(_) => {
                        assert(self@ =~= cur);
                    },
                }
            }
            match removed {
                Some(c) => {
                    let ghost n = target->0;
                    let ghost work1 = work@;
                    let mut k: usize = 0;
                    while k < c.children.len()
                        invariant
                            0 <= k <= c.children.len(),
                            work@ == work1 + c.children@.take(k as int),
                        decreases c.children.len() - k,
                    {
                        work.push(c.children[k]);
                        assert(c.children@.take(k as int + 1) =~= c.children@.take(k as int).push(
                            c.children@[k as int],
                        ));
                        k += 1;
                    }
                    proof {
                        assert(c.children@.take(k as int) =~= c.children@);
                        assert forall|w: int| 0 <= w < work.len() implies (node_of(
                            before,
                            (#[trigger] work@[w]).0,
                            work@[w].1,
                        ) matches Some(m) ==> descends(before, start->0, m)) by {
                            if w < work1.len() {
                                assert(work@[w] == work0[w]);
                            } else {
                                let q = w - work1.len();
                                assert(work@[w] == cap_at(before, n).children[q]);
                                if node_of(before, work@[w].0, work@[w].1) is Some {
                                    let m = node_of(before, work@[w].0, work@[w].1)->0;
                                    assert(derives(before, n, m));
                                    lemma_descends_step(before, start->0, n, m);
                                }
                            }
                        }
                        assert forall|a: Node, b: Node|
                            gone.contains(a) && #[trigger] derives(before, a, b) implies gone.contains(
                            b,
                        ) || exists|w: int|
                            0 <= w < work.len() && node_of(
                                before,
                                (#[trigger] work@[w]).0,
                                work@[w].1,
                            ) == Some(b) by {
                            if a == n {
                                let q = choose|q: int|
                                    0 <= q < cap_at(before, n).children.len() && node_of(
                                        before,
                                        (#[trigger] cap_at(before, n).children[q]).0,
                                        cap_at(before, n).children[q].1,
                                    ) == Some(b);
                                assert(work@[work1.len() + q] == cap_at(before, n).children[q]);
                            } else if !gone0.contains(b) {
                                let w = choose|w: int|
                                    0 <= w < work0.len() && node_of(
                                        before,
                                        (#[trigger] work0[w]).0,
                                        work0[w].1,
                                    ) == Some(b);
                                if w < work1.len() {
                                    assert(work@[w] == work0[w]);
                                }
                            }
                        }
                        if start is Some && !gone.contains(start->0) {
                            let w = choose|w: int|
                                0 <= w < work0.len() && node_of(
                                    before,
                                    (#[trigger] work0[w]).0,
                                    work0[w].1,
                                ) == start;
                            assert(work@[w] == work0[w]);
                        }
                    }
                },
                None => {
                    proof {
                        assert(target matches Some(n) ==> gone.contains(n));
                        assert forall|a: Node, b: Node|
                            gone.contains(a) && #[trigger] derives(before, a, b) implies gone.contains(
                            b,
                        ) || exists|w: int|
                            0 <= w < work.len() && node_of(
                                before,
                                (#[trigger] work@[w]).0,
                                work@[w].1,
                            ) == Some(b) by {
                            if !gone.contains(b) {
                                let w = choose|w: int|
                                    0 <= w < work0.len() && node_of(
                                        before,
                                        (#[trigger] work0[w]).0,
                                        work0[w].1,
                                    ) == Some(b);
                                assert(work@[w] == work0[w]);
                            }
                        }
                        if start is Some && !gone.contains(start->0) {
                            let w = choose|w: int|
                                0 <= w < work0.len() && node_of(
                                    before,
                                    (#[trigger] work0[w]).0,
                                    work0[w].1,
                                ) == start;
                            assert(work@[w] == work0[w]);
                        }
                    }
                },
            }
        }
        proof {
            match start {
                Some(root) => {
                    assert forall|n: Node| #[trigger] descends(before, root, n) implies gone.contains(
                        n,
                    ) by {
                        let path = choose|path: Seq<Node>| #[trigger]
                            grant_chain(before, path) && path[0] == root && path.last() == n;
                        lemma_closed_holds_path(before, gone, path, path.len() - 1);
                    }
                    assert(self@ =~~= vacated(before, |n: Node| descends(before, root, n)));
                },
                None => {
                    assert(self@ =~~= before);
                },
            }
        }
    }
}

/// Remove a capability and every capability derived from it, in all tables.
///
/// The revoke right is asked of the named capability alone. Everything that
/// does not descend from it stays as it was.
pub fn cap_cascade_revoke(space: &mut CapSpace, task: u64, handle: CapHandle) -> (r: Result<
    (),
    CapError,
>)
    requires
        task_at(old(space)@, task, 0) < old(space)@.len(),
    ensures
        match slot_lookup(old(space)@[task_at(old(space)@, task, 0)].1, handle.0) {
            Err(e) => r == Err::<(), CapError>(e) && final(space)@ == old(space)@,
            Ok(cap) => if cap.rights.spec_has(CapRights(CapRights::REVOKE)) {
                &&& r == Ok::<(), CapError>(())
                &&& final(space)@ == vacated(
                    old(space)@,
                    |n: Node|
                        descends(old(space)@, node_of(old(space)@, task, handle)->0, n),
                )
            } else {
                &&& r == Err::<(), CapError>(CapError::NoRevoke)
                &&& final(space)@ == old(space)@
            },
        },
{
    match space.find(task) {
        Some(i) => {
            match space.tasks[i].table.get(handle) {
                Ok(cap) => {
                    if !cap.rights.has(CapRights(CapRights::REVOKE)) {
                        return Err(CapError::NoRevoke);
                    }
                },
                Err(e) => {
                    return Err(e);
                },
            }
        },
        None => {
            return Err(CapError::InvalidHandle);
        },
    }
    space.cascade_force(task, handle);
    Ok(())
}

// ── Laws ─────────────────────────────────────────────────────────────────────

/// What is put into a table is found again under the handle that was given for
/// it, as long as the slot's index fits in a handle.
pub proof fn law_inserted_is_found<T>(slots: Seq<SlotView<T>>, item: T, word: u64)
    requires
        first_vacant(slots, 0) < INDEX_SPAN,
        word == word_for_next(slots),
    ensures
        slot_lookup(slots_with(slots, item), word) == Ok::<T, CapError>(item),
{
    lemma_first_vacant_bounds(slots, 0);
}

/// Putting something into a table changes nothing of what other handles name.
pub proof fn law_insert_keeps_others<T>(slots: Seq<SlotView<T>>, item: T, word: u64)
    requires
        slot_lookup(slots, word) is Ok,
    ensures
        slot_lookup(slots_with(slots, item), word) == slot_lookup(slots, word),
{
    lemma_first_vacant_bounds(slots, 0);
}

/// A handle whose capability was removed is refused, and so it is after the
/// slot is used again.
pub proof fn law_stale_handle_is_refused<T>(slots: Seq<SlotView<T>>, word: u64, item: T)
    requires
        slot_lookup(slots, word) is Ok,
    ensures
        slot_lookup(slots_without(slots, packed_index(word)), word) is Err,
        slot_lookup(slots_with(slots_without(slots, packed_index(word)), item), word) is Err,
{
    lemma_first_vacant_bounds(slots_without(slots, packed_index(word)), 0);
}

/// A call on a table: something is put in, what a word names is taken out, or
/// what a word names is changed.
pub enum TableCall<T> {
    Insert(T),
    Remove(u64),
    Edit(u64, T),
}

/// The slots after a call. A word that names nothing changes nothing.
pub open spec fn after_call<T>(slots: Seq<SlotView<T>>, c: TableCall<T>) -> Seq<SlotView<T>> {
    match c {
        TableCall::Insert(item) => slots_with(slots, item),
        TableCall::Remove(word) => if slot_lookup(slots, word) is Ok {
            slots_without(slots, packed_index(word))
        } else {
            slots
        },
        TableCall::Edit(word, item) => if slot_lookup(slots, word) is Ok {
            let i = packed_index(word);
            slots.update(i, SlotView { generation: slots[i].generation, item: Some(item) })
        } else {
            slots
        },
    }
}

/// The slots after a number of calls.
pub open spec fn after_calls<T>(slots: Seq<SlotView<T>>, calls: Seq<TableCall<T>>) -> Seq<
    SlotView<T>,
>
    decreases calls.len(),
{
    if calls.len() == 0 {
        slots
    } else {
        after_call(after_calls(slots, calls.drop_last()), calls.last())
    }
}

/// How often slot `i` is filled again in the course of the calls.
pub open spec fn refills<T>(slots: Seq<SlotView<T>>, calls: Seq<TableCall<T>>, i: int) -> nat
    decreases calls.len(),
{
    if calls.len() == 0 {
        0
    } else {
        let before = after_calls(slots, calls.drop_last());
        let n = refills(slots, calls.drop_last(), i);
        if calls.last() is Insert && first_vacant(before, 0) == i && i < before.len() {
            n + 1
        } else {
            n
        }
    }
}

/// Some call takes out what the word names.
pub open spec fn removes<T>(calls: Seq<TableCall<T>>, word: u64) -> bool {
    exists|k: int| 0 <= k < calls.len() && (#[trigger] calls[k]) == TableCall::<T>::Remove(word)
}

/// Some call changes what the word names.
pub open spec fn edits<T>(calls: Seq<TableCall<T>>, word: u64) -> bool {
    exists|k: int|
        0 <= k < calls.len() && (#[trigger] calls[k]) is Edit && calls[k]->Edit_0 == word
}

/// A word is its index and its generation.
proof fn lemma_same_word(a: u64, b: u64)
    requires
        packed_index(a) == packed_index(b),
        packed_generation(a) == packed_generation(b),
    ensures
        a == b,
{
    assert(a as int == a as int / 0x1_0000_0000 * 0x1_0000_0000 + a as int % 0x1_0000_0000);
    assert(b as int == b as int / 0x1_0000_0000 * 0x1_0000_0000 + b as int % 0x1_0000_0000);
}

/// What the calls make of a slot whose item a word names.
proof fn lemma_slot_history<T>(slots: Seq<SlotView<T>>, calls: Seq<TableCall<T>>, word: u64)
    requires
        slot_lookup(slots, word) is Ok,
        refills(slots, calls, packed_index(word)) <= u32::MAX,
    ensures
        ({
            let i = packed_index(word);
            let e = after_calls(slots, calls);
            let n = refills(slots, calls, i);
            &&& i < e.len()
            &&& e[i].generation == (packed_generation(word) + n) % INDEX_SPAN as int
            &&& !removes(calls, word) ==> n == 0 && e[i].item is Some
            &&& !removes(calls, word) && !edits(calls, word) ==> e[i].item == slots[i].item
            &&& removes(calls, word) && n == 0 ==> e[i].item is None
        }),
    decreases calls.len(),
{
    let i = packed_index(word);
    let g = packed_generation(word);
    if calls.len() == 0 {
        assert(!removes(calls, word));
    } else {
        let front = calls.drop_last();
        let last = calls.last();
        let b = after_calls(slots, front);
        let e = after_calls(slots, calls);
        let m = refills(slots, front, i);
        let n = refills(slots, calls, i);
        lemma_slot_history(slots, front, word);
        lemma_first_vacant_bounds(b, 0);
        assert(removes(calls, word) == (removes(front, word) || last == TableCall::<T>::Remove(
            word,
        ))) by {
            if removes(front, word) {
                let k = choose|k: int|
                    0 <= k < front.len() && (#[trigger] front[k]) == TableCall::<T>::Remove(word);
                assert(calls[k] == TableCall::<T>::Remove(word));
            }
            if removes(calls, word) {
                let k = choose|k: int|
                    0 <= k < calls.len() && (#[trigger] calls[k]) == TableCall::<T>::Remove(word);
                if k < front.len() {
                    assert(front[k] == TableCall::<T>::Remove(word));
                }
            }
            if last == TableCall::<T>::Remove(word) {
                assert(calls[calls.len() - 1] == TableCall::<T>::Remove(word));
            }
        }
        assert(edits(front, word) ==> edits(calls, word)) by {
            if edits(front, word) {
                let k = choose|k: int|
                    0 <= k < front.len() && (#[trigger] front[k]) is Edit && front[k]->Edit_0
                        == word;
                assert(calls[k] == front[k]);
            }
        }
        match last {
            TableCall::Insert(item) => {
                if first_vacant(b, 0) == i {
                    assert(n == m + 1);
                    assert(e[i].generation == wrapped_next(b[i].generation));
                }
            },
            TableCall::Remove(w) => {
                if slot_lookup(b, w) is Ok && packed_index(w) == i {
                    if m == 0 {
                        lemma_same_word(w, word);
                    }
                }
                if w == word && m == 0 && !removes(front, word) {
                    assert(slot_lookup(b, w) is Ok);
                }
            },
            TableCall::Edit(w, item) => {
                if slot_lookup(b, w) is Ok && packed_index(w) == i {
                    if m == 0 {
                        lemma_same_word(w, word);
                        assert(calls[calls.len() - 1] == TableCall::Edit(word, item));
                        assert(edits(calls, word));
                    }
                }
            },
        }
    }
}

/// From when a word is given out, whatever calls follow: it names its item as
/// long as no call takes that out, and nothing from there on, as long as the
/// generation of its slot has not wrapped. Handles and object references alike.
pub proof fn law_a_word_names_one_item<T>(
    slots: Seq<SlotView<T>>,
    item: T,
    word: u64,
    calls: Seq<TableCall<T>>,
)
    requires
        first_vacant(slots, 0) < INDEX_SPAN,
        word == word_for_next(slots),
        refills(slots_with(slots, item), calls, packed_index(word)) <= u32::MAX,
    ensures
        ({
            let found = slot_lookup(after_calls(slots_with(slots, item), calls), word);
            &&& found is Ok == !removes(calls, word)
            &&& !removes(calls, word) && !edits(calls, word) ==> found == Ok::<T, CapError>(item)
        }),
{
    law_inserted_is_found(slots, item, word);
    lemma_slot_history(slots_with(slots, item), calls, word);
}

/// An object is found by the reference that was given for it until it is
/// destroyed, and never afterwards, whatever is created and destroyed in between
/// and however often its slot is used again, as long as the generation of the slot
/// has not wrapped. The table never outgrows what a reference can tell apart.
pub proof fn law_an_object_is_found_until_destroyed(
    slots: Seq<SlotView<KernelObject>>,
    obj: KernelObject,
    word: u64,
    calls: Seq<TableCall<KernelObject>>,
)
    requires
        slots.len() <= INDEX_SPAN,
        !KoTable::full(slots),
        word == word_for_next(slots),
        forall|k: int| 0 <= k < calls.len() ==> !((#[trigger] calls[k]) is Edit),
        refills(slots_with(slots, obj), calls, packed_index(word)) <= u32::MAX,
    ensures
        slots_with(slots, obj).len() <= INDEX_SPAN,
        slot_lookup(slots_with(slots, obj), word) == Ok::<KernelObject, CapError>(obj),
        !removes(calls, word) ==> slot_lookup(after_calls(slots_with(slots, obj), calls), word)
            == Ok::<KernelObject, CapError>(obj),
        removes(calls, word) ==> slot_lookup(
            after_calls(slots_with(slots, obj), calls),
            word,
        ) is Err,
{
    lemma_first_vacant_bounds(slots, 0);
    law_inserted_is_found(slots, obj, word);
    law_a_word_names_one_item(slots, obj, word, calls);
}

/// A word that was refused because its item was taken out stays refused, whatever
/// calls follow, as long as the generation of its slot has not wrapped.
pub proof fn law_a_stale_word_stays_refused<T>(
    slots: Seq<SlotView<T>>,
    word: u64,
    calls: Seq<TableCall<T>>,
)
    requires
        slot_lookup(slots, word) is Ok,
        refills(slots_without(slots, packed_index(word)), calls, packed_index(word)) <= u32::MAX,
    ensures
        slot_lookup(
            after_calls(slots_without(slots, packed_index(word)), calls),
            word,
        ) is Err,
{
    let i = packed_index(word);
    let all = seq![TableCall::Remove(word)] + calls;
    lemma_calls_join(slots, TableCall::Remove(word), calls, i);
    lemma_slot_history(slots, all, word);
    assert(all[0] == TableCall::<T>::Remove(word));
    assert(removes(all, word));
}

proof fn lemma_calls_join<T>(
    slots: Seq<SlotView<T>>,
    first: TableCall<T>,
    calls: Seq<TableCall<T>>,
    i: int,
)
    requires
        !(first is Insert),
    ensures
        after_calls(slots, seq![first] + calls) == after_calls(after_call(slots, first), calls),
        refills(slots, seq![first] + calls, i) == refills(after_call(slots, first), calls, i),
    decreases calls.len(),
{
    let all = seq![first] + calls;
    if calls.len() == 0 {
        assert(all.drop_last() =~= Seq::<TableCall<T>>::empty());
        assert(all.last() == first);
        assert(after_calls(slots, all.drop_last()) == slots);
        assert(refills(slots, all.drop_last(), i) == 0);
    } else {
        lemma_calls_join(slots, first, calls.drop_last(), i);
        assert(all.drop_last() =~= seq![first] + calls.drop_last());
        assert(all.last() == calls.last());
    }
}

/// A word that is given out differs from every one that was given out before,
/// whatever calls lie between, as long as the generation of its slot has not
/// wrapped. What resolved before resolves afterwards.
pub proof fn law_words_are_not_given_out_twice<T>(
    slots: Seq<SlotView<T>>,
    item: T,
    word: u64,
    calls: Seq<TableCall<T>>,
    next: T,
    live: u64,
)
    requires
        first_vacant(slots, 0) < INDEX_SPAN,
        word == word_for_next(slots),
        refills(slots_with(slots, item), calls, packed_index(word)) < u32::MAX,
        first_vacant(after_calls(slots_with(slots, item), calls), 0) < INDEX_SPAN,
    ensures
        ({
            let t = after_calls(slots_with(slots, item), calls);
            &&& word_for_next(t) != word
            &&& slot_lookup(t, live) is Ok ==> slot_lookup(slots_with(t, next), live)
                == slot_lookup(t, live)
        }),
{
    let t = after_calls(slots_with(slots, item), calls);
    let i = packed_index(word);
    law_inserted_is_found(slots, item, word);
    lemma_slot_history(slots_with(slots, item), calls, word);
    lemma_first_vacant_bounds(t, 0);
    if slot_lookup(t, live) is Ok {
        law_insert_keeps_others(t, next, live);
    }
    let j = first_vacant(t, 0);
    if word_for_next(t) == word {
        assert(packed(j as u32, next_generation(t, j)) == word);
        assert(packed_index(word) == j && packed_generation(word) == next_generation(t, j));
        assert(t[i].item is None);
        assert(removes(calls, word));
        let n = refills(slots_with(slots, item), calls, i);
        assert(t[i].generation == (packed_generation(word) + n) % INDEX_SPAN as int);
    }
}

/// A grant never widens rights: the parent has every right of the child, and
/// nothing outside the mask is passed on.
pub proof fn law_grant_never_amplifies(cap: CapView, id: CapId, mask: CapRights)
    ensures
        cap.rights.spec_has(derived_cap(cap, id, mask).rights),
        mask.spec_has(derived_cap(cap, id, mask).rights),
{
    let a = cap.rights.0;
    let m = mask.0;
    assert(a & (a & m) == a & m && m & (a & m) == a & m) by (bit_vector);
}

/// Holding rights is transitive, so no chain of grants widens them either.
pub proof fn law_rights_shrink_along_chains(a: CapRights, b: CapRights, c: CapRights)
    requires
        a.spec_has(b),
        b.spec_has(c),
    ensures
        a.spec_has(c),
{
    let (x, y, z) = (a.0, b.0, c.0);
    assert(x & y == y && y & z == z ==> x & z == z) by (bit_vector);
}

/// After a grant the child stands as derived from its parent, so that a
/// cascading revocation of the parent removes it.
pub proof fn law_granted_descends(
    space: Space,
    from: int,
    to: int,
    handle: CapHandle,
    to_task: u64,
    child: CapHandle,
    cap: CapView,
    derived: CapView,
)
    requires
        0 <= from < space.len(),
        0 <= to < space.len(),
        from != to,
        task_at(space, to_task, 0) == to,
        slot_lookup(space[from].1, handle.0) == Ok::<CapView, CapError>(cap),
        first_vacant(space[to].1, 0) < INDEX_SPAN,
        child.0 == word_for_next(space[to].1),
    ensures
        ({
            let after = space.update(
                from,
                (space[from].0, with_child(space[from].1, handle.slot(), to_task, child)),
            ).update(to, (space[to].0, slots_with(space[to].1, derived)));
            descends(after, (from, handle.slot()), (to, child.slot()))
        }),
{
    let after = space.update(
        from,
        (space[from].0, with_child(space[from].1, handle.slot(), to_task, child)),
    ).update(to, (space[to].0, slots_with(space[to].1, derived)));
    law_inserted_is_found(space[to].1, derived, child.0);
    lemma_task_at_same_owners(space, after, to_task, 0);
    let parent = (from, handle.slot());
    let k = cap.children.len() as int;
    assert(cap_at(after, parent).children[k] == (to_task, child));
    assert(derives(after, parent, (to, child.slot())));
    let path = seq![parent];
    assert(grant_chain(after, path) && path.last() == parent);
    lemma_descends_step(after, parent, parent, (to, child.slot()));
}

proof fn lemma_task_at_same_owners(a: Space, b: Space, task: u64, from: int)
    requires
        a.len() == b.len(),
        forall|i: int| 0 <= i < a.len() ==> (#[trigger] a[i]).0 == b[i].0,
        0 <= from <= a.len(),
    ensures
        task_at(b, task, from) == task_at(a, task, from),
    decreases a.len() - from,
{
    if from < a.len() && a[from].0 != task {
        lemma_task_at_same_owners(a, b, task, from + 1);
    }
}

/// After a cascading revocation a handle resolves exactly where it did before
/// and its capability does not descend from the revoked one.
pub proof fn law_cascade_removes_descendants_only(
    space: Space,
    root: Node,
    task: u64,
    handle: CapHandle,
)
    ensures
        node_of(vacated(space, |n: Node| descends(space, root, n)), task, handle) == (match node_of(
            space,
            task,
            handle,
        ) {
            Some(n) => if descends(space, root, n) {
                None
            } else {
                Some(n)
            },
            None => None,
        }),
{
    lemma_node_of_vacated(space, |n: Node| descends(space, root, n), task, handle);
}

} // verus!
