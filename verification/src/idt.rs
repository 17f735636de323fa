//! The interrupt descriptors.

use vstd::prelude::*;

verus! {

/// Vectors of processor exceptions.
pub const EXCEPTIONS: usize = 32;

/// Vectors in all.
pub const VECTORS: usize = 256;

/// The last byte of the table.
pub const IDT_LIMIT: u16 = 4095;

/// A gate of the table.
#[derive(Clone, Copy, Debug, PartialEq, Eq, Structural)]
pub struct IdtEntry {
    pub offset_low: u16,
    pub selector: u16,
    pub ist: u8,
    pub type_attr: u8,
    pub offset_mid: u16,
    pub offset_high: u32,
}

impl IdtEntry {
    /// A gate that is not there.
    pub open spec fn none() -> IdtEntry {
        IdtEntry {
            offset_low: 0,
            selector: 0,
            ist: 0,
            type_attr: 0,
            offset_mid: 0,
            offset_high: 0,
        }
    }

    /// A kernel interrupt gate to a handler: its address in three pieces.
    pub open spec fn gate(handler: u64) -> IdtEntry {
        IdtEntry {
            offset_low: (handler % 0x1_0000) as u16,
            selector: 0x08,
            ist: 0,
            type_attr: 0x8E,
            offset_mid: (handler / 0x1_0000 % 0x1_0000) as u16,
            offset_high: (handler / 0x1_0000_0000) as u32,
        }
    }

    pub fn absent() -> (e: IdtEntry)
        ensures
            e == IdtEntry::none(),
    {
        IdtEntry {
            offset_low: 0,
            selector: 0,
            ist: 0,
            type_attr: 0,
            offset_mid: 0,
            offset_high: 0,
        }
    }

    pub fn interrupt(handler: u64) -> (e: IdtEntry)
        ensures
            e == IdtEntry::gate(handler),
    {
        IdtEntry {
            offset_low: (handler % 0x1_0000) as u16,
            selector: 0x08,
            ist: 0,
            type_attr: 0x8E,
            offset_mid: (handler / 0x1_0000 % 0x1_0000) as u16,
            offset_high: (handler / 0x1_0000_0000) as u32,
        }
    }
}

pub struct Idt {
    gates: Vec<IdtEntry>,
}

impl View for Idt {
    type V = Seq<IdtEntry>;

    closed spec fn view(&self) -> Seq<IdtEntry> {
        self.gates@
    }
}

impl Idt {
    pub open spec fn wf(&self) -> bool {
        self@.len() == VECTORS
    }

    /// The exceptions wired to their handlers, and no other gate.
    pub fn init(stubs: &[u64; 32]) -> (t: Idt)
        ensures
            t.wf(),
            forall|v: int| 0 <= v < EXCEPTIONS ==> #[trigger] t@[v] == IdtEntry::gate(stubs@[v]),
            forall|v: int| EXCEPTIONS <= v < VECTORS ==> #[trigger] t@[v] == IdtEntry::none(),
    {
        let mut gates: Vec<IdtEntry> = Vec::new();
        let mut v: usize = 0;
        while v < VECTORS
            invariant
                v <= VECTORS,
                gates@.len() == v,
                forall|k: int|
                    0 <= k < v && k < EXCEPTIONS ==> #[trigger] gates@[k] == IdtEntry::gate(
                        stubs@[k],
                    ),
                forall|k: int|
                    EXCEPTIONS <= k < v ==> #[trigger] gates@[k] == IdtEntry::none(),
            decreases VECTORS - v,
        {
            if v < EXCEPTIONS {
                gates.push(IdtEntry::interrupt(stubs[v]));
            } else {
                gates.push(IdtEntry::absent());
            }
            v += 1;
        }
        Idt { gates }
    }

    /// Wire a vector to a handler.
    pub fn register_irq(&mut self, vector: u8, handler: u64)
        requires
            old(self).wf(),
        ensures
            final(self).wf(),
            final(self)@ == old(self)@.update(vector as int, IdtEntry::gate(handler)),
    {
        self.gates.set(vector as usize, IdtEntry::interrupt(handler));
    }

    /// What a vector leads to.
    pub fn entry(&self, vector: u8) -> (e: IdtEntry)
        requires
            self.wf(),
        ensures
            e == self@[vector as int],
    {
        self.gates[vector as usize]
    }
}

/// What remaps the legacy controller's vectors to 0x20 and up, clear of the
/// exceptions, and masks all its lines: ports and values, in order.
pub fn remap_and_mask_pic() -> (v: Vec<(u16, u8)>)
    ensures
        v@ == seq![
            (0x20u16, 0x11u8),
            (0xA0, 0x11),
            (0x21, 0x20),
            (0xA1, 0x28),
            (0x21, 0x04),
            (0xA1, 0x02),
            (0x21, 0x01),
            (0xA1, 0x01),
            (0x21, 0xFF),
            (0xA1, 0xFF),
        ],
{
    let mut v: Vec<(u16, u8)> = Vec::new();
    v.push((0x20, 0x11));
    v.push((0xA0, 0x11));
    v.push((0x21, 0x20));
    v.push((0xA1, 0x28));
    v.push((0x21, 0x04));
    v.push((0xA1, 0x02));
    v.push((0x21, 0x01));
    v.push((0xA1, 0x01));
    v.push((0x21, 0xFF));
    v.push((0xA1, 0xFF));
    assert(v@ =~= seq![
        (0x20u16, 0x11u8),
        (0xA0, 0x11),
        (0x21, 0x20),
        (0xA1, 0x28),
        (0x21, 0x04),
        (0xA1, 0x02),
        (0x21, 0x01),
        (0xA1, 0x01),
        (0x21, 0xFF),
        (0xA1, 0xFF),
    ]);
    v
}

/// A handler's address comes back from its gate whole.
pub proof fn law_handler_is_kept(handler: u64)
    ensures
        ({
            let g = IdtEntry::gate(handler);
            g.offset_low + g.offset_mid * 0x1_0000 + g.offset_high * 0x1_0000_0000 == handler
        }),
{
}

} // verus!
