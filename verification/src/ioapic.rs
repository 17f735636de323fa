//! The I/O interrupt controller: what is written to its redirection table.

use vstd::prelude::*;

verus! {

/// Where the controller is unless the tables say otherwise.
pub const IOAPIC_PHYS: u64 = 0xFEC0_0000;

/// Where it is mapped.
pub const IOAPIC_VIRT: u64 = 0xFFFF_8000_FEC0_0000;

/// The version register.
pub const IOAPICVER: u8 = 0x01;

/// The first register of the redirection table.
pub const IOREDTBL: u8 = 0x10;

/// No interrupt is delivered.
pub const IRQ_MASKED: u32 = 0x1_0000;

/// Triggered by a level rather than an edge.
pub const IRQ_LEVEL: u32 = 0x8000;

/// Active low rather than high.
pub const IRQ_ACTIVE_LO: u32 = 0x2000;

/// The controller's address, and the last entry of its table once that is known.
#[derive(Clone, Copy, Debug, PartialEq, Eq, Structural)]
pub struct IoApic {
    pub phys: u64,
    pub max_entry: Option<u8>,
}

/// An entry of the redirection table: both registers, and what is written to
/// them.
#[derive(Clone, Copy, Debug, PartialEq, Eq, Structural)]
pub struct Redirection {
    pub lo_reg: u8,
    pub lo: u32,
    pub hi_reg: u8,
    pub hi: u32,
}

/// The low register of an interrupt's entry; two registers make an entry.
pub open spec fn lo_reg_of(gsi: u8) -> u8 {
    ((IOREDTBL + gsi * 2) % 0x100) as u8
}

pub fn redir_lo_reg(gsi: u8) -> (r: u8)
    ensures
        r == lo_reg_of(gsi),
        r <= 254,
{
    ((IOREDTBL as u32 + gsi as u32 * 2) % 0x100) as u8
}

impl IoApic {
    pub fn new() -> (i: IoApic)
        ensures
            i == (IoApic { phys: IOAPIC_PHYS, max_entry: None }),
    {
        IoApic { phys: IOAPIC_PHYS, max_entry: None }
    }

    /// Use another address. To be done before the controller is initialised.
    pub fn set_phys_base(&mut self, phys: u64)
        ensures
            *final(self) == (IoApic { phys, ..*old(self) }),
    {
        self.phys = phys;
    }

    /// Take in the version register. The result masks every entry of the table.
    pub fn init(&mut self, version: u32) -> (v: Vec<Redirection>)
        ensures
            ({
                let max = (version / 0x1_0000 % 0x100) as u8;
                &&& *final(self) == (IoApic { max_entry: Some(max), ..*old(self) })
                &&& v@.len() == max + 1
                &&& forall|g: int|
                    0 <= g <= max ==> #[trigger] v@[g] == (Redirection {
                        lo_reg: lo_reg_of(g as u8),
                        lo: IRQ_MASKED,
                        hi_reg: (lo_reg_of(g as u8) + 1) as u8,
                        hi: 0,
                    })
            }),
    {
        let max: u8 = (version / 0x1_0000 % 0x100) as u8;
        self.max_entry = Some(max);
        let mut v: Vec<Redirection> = Vec::new();
        let mut g: u16 = 0;
        while g <= max as u16
            invariant
                g <= max + 1,
                v@.len() == g,
                forall|k: int|
                    0 <= k < g ==> #[trigger] v@[k] == (Redirection {
                        lo_reg: lo_reg_of(k as u8),
                        lo: IRQ_MASKED,
                        hi_reg: (lo_reg_of(k as u8) + 1) as u8,
                        hi: 0,
                    }),
            decreases max + 1 - g,
        {
            let lo_reg: u8 = redir_lo_reg(g as u8);
            v.push(Redirection { lo_reg, lo: IRQ_MASKED, hi_reg: lo_reg + 1, hi: 0 });
            g += 1;
        }
        v
    }

    /// How many entries the table has; 0 before the controller is initialised.
    pub fn entry_count(&self) -> (n: u8)
        ensures
            n == match self.max_entry {
                None => 0,
                Some(m) => if m == 255 {
                    255
                } else {
                    (m + 1) as u8
                },
            },
    {
        match self.max_entry {
            None => 0,
            Some(m) => m.saturating_add(1),
        }
    }
}

/// An interrupt routed to a vector of the first processor, unmasked.
pub open spec fn routed(gsi: u8, vector: u8, flags: u32) -> Redirection {
    Redirection {
        lo_reg: lo_reg_of(gsi),
        lo: vector as u32 | (flags & !IRQ_MASKED),
        hi_reg: (lo_reg_of(gsi) + 1) as u8,
        hi: 0,
    }
}

/// Route an interrupt to a vector of the first processor, unmasked.
pub fn map_irq(gsi: u8, vector: u8, flags: u32) -> (r: Redirection)
    ensures
        r == routed(gsi, vector, flags),
        r == (Redirection {
            lo_reg: lo_reg_of(gsi),
            lo: vector as u32 | (flags & !IRQ_MASKED),
            hi_reg: (lo_reg_of(gsi) + 1) as u8,
            hi: 0,
        }),
        r.lo & IRQ_MASKED == 0,
{
    let lo: u32 = vector as u32 | (flags & !IRQ_MASKED);
    assert(lo & 0x1_0000 == 0) by (bit_vector)
        requires
            lo == vector as u32 | (flags & !0x1_0000u32),
    ;
    let lo_reg: u8 = redir_lo_reg(gsi);
    Redirection { lo_reg, lo, hi_reg: lo_reg + 1, hi: 0 }
}

/// The low register with the interrupt masked.
pub fn mask_irq(lo: u32) -> (r: u32)
    ensures
        r == lo | IRQ_MASKED,
{
    lo | IRQ_MASKED
}

/// The low register with the interrupt unmasked.
pub fn unmask_irq(lo: u32) -> (r: u32)
    ensures
        r == lo & !IRQ_MASKED,
{
    lo & !IRQ_MASKED
}

/// Unmasking an interrupt that was masked gives back its entry as it was
/// unmasked.
pub proof fn law_unmask_undoes_mask(lo: u32)
    ensures
        (lo | IRQ_MASKED) & !IRQ_MASKED == lo & !IRQ_MASKED,
        (lo | IRQ_MASKED) & IRQ_MASKED == IRQ_MASKED,
{
    assert((lo | 0x1_0000) & !0x1_0000u32 == lo & !0x1_0000u32) by (bit_vector);
    assert((lo | 0x1_0000) & 0x1_0000 == 0x1_0000) by (bit_vector);
}

} // verus!
