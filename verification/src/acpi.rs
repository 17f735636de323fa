//! ACPI tables: from the root pointer to what the interrupt controllers need.

use vstd::prelude::*;
use crate::ioapic::{IRQ_ACTIVE_LO, IRQ_LEVEL};

verus! {

/// The end of the memory that tables are read from.
pub const IDENTITY_LIMIT: u64 = 0x4000_0000;

pub const MADT_IOAPIC: u8 = 1;

pub const MADT_ISO: u8 = 2;

pub const MADT_LAPIC_OVERRIDE: u8 = 5;

/// Legacy interrupts.
pub const ISA_IRQS: usize = 16;

/// The port and the value that switch the machine off.
pub const SHUTDOWN_PORT: u16 = 0x604;

pub const SHUTDOWN_VALUE: u16 = 0x2000;

// ── Reading memory ───────────────────────────────────────────────────────────

/// A byte of physical memory; what lies behind the window reads as zero.
pub open spec fn byte_of(mem: Seq<u8>, a: int) -> u8 {
    if 0 <= a < mem.len() {
        mem[a]
    } else {
        0
    }
}

pub open spec fn word_of(mem: Seq<u8>, a: int) -> u16 {
    (byte_of(mem, a) + 0x100 * byte_of(mem, a + 1)) as u16
}

pub open spec fn dword_of(mem: Seq<u8>, a: int) -> u32 {
    (word_of(mem, a) + 0x1_0000 * word_of(mem, a + 2)) as u32
}

pub open spec fn qword_of(mem: Seq<u8>, a: int) -> u64 {
    (dword_of(mem, a) + 0x1_0000_0000 * dword_of(mem, a + 4)) as u64
}

fn rd_u8(mem: &[u8], a: u64) -> (x: u8)
    ensures
        x == byte_of(mem@, a as int),
{
    if a < mem.len() as u64 {
        mem[a as usize]
    } else {
        0
    }
}

fn rd_u16(mem: &[u8], a: u64) -> (x: u16)
    requires
        a < u64::MAX,
    ensures
        x == word_of(mem@, a as int),
{
    rd_u8(mem, a) as u16 + 0x100 * rd_u8(mem, a + 1) as u16
}

fn rd_u32(mem: &[u8], a: u64) -> (x: u32)
    requires
        a < u64::MAX - 3,
    ensures
        x == dword_of(mem@, a as int),
{
    rd_u16(mem, a) as u32 + 0x1_0000 * rd_u16(mem, a + 2) as u32
}

fn rd_u64(mem: &[u8], a: u64) -> (x: u64)
    requires
        a < u64::MAX - 7,
    ensures
        x == qword_of(mem@, a as int),
{
    rd_u32(mem, a) as u64 + 0x1_0000_0000 * rd_u32(mem, a + 4) as u64
}

/// Four characters of a signature as a number.
pub open spec fn signature(a: u8, b: u8, c: u8, d: u8) -> u32 {
    (a + 0x100 * b + 0x1_0000 * c + 0x100_0000 * d) as u32
}

/// The sum of `n` bytes, modulo 256.
pub open spec fn byte_sum(mem: Seq<u8>, a: int, n: nat) -> int
    decreases n,
{
    if n == 0 {
        0
    } else {
        (byte_sum(mem, a, (n - 1) as nat) + byte_of(mem, a + n - 1)) % 256
    }
}

fn checksum(mem: &[u8], a: u64, n: u64) -> (s: u8)
    requires
        a + n <= u64::MAX,
    ensures
        s == byte_sum(mem@, a as int, n as nat),
{
    let mut s: u8 = 0;
    let mut i: u64 = 0;
    while i < n
        invariant
            i <= n,
            a + n <= u64::MAX,
            s == byte_sum(mem@, a as int, i as nat),
        decreases n - i,
    {
        s = s.wrapping_add(rd_u8(mem, a + i));
        i += 1;
    }
    s
}

// ── Interrupt controllers ────────────────────────────────────────────────────

/// What the tables say of the interrupt controllers; 0 where nothing was found.
pub struct MadtInfo {
    pub lapic: u64,
    pub ioapic: u64,
    pub gsi_base: u32,
    /// Where a legacy interrupt goes, and how, where that is not the default.
    pub overrides: Vec<Option<(u32, u16)>>,
}

/// What the tables say, as a mathematical value.
#[verifier::ext_equal]
pub struct MadtView {
    pub lapic: u64,
    pub ioapic: u64,
    pub gsi_base: u32,
    pub overrides: Seq<Option<(u32, u16)>>,
}

impl View for MadtInfo {
    type V = MadtView;

    open spec fn view(&self) -> MadtView {
        MadtView {
            lapic: self.lapic,
            ioapic: self.ioapic,
            gsi_base: self.gsi_base,
            overrides: self.overrides@,
        }
    }
}

/// One entry of the table taken in.
pub open spec fn entry_taken(m: MadtView, mem: Seq<u8>, p: int) -> MadtView {
    let t = byte_of(mem, p);
    if t == MADT_IOAPIC {
        let gsi_base = dword_of(mem, p + 8);
        if m.ioapic == 0 || gsi_base == 0 {
            MadtView { ioapic: dword_of(mem, p + 4) as u64, gsi_base, ..m }
        } else {
            m
        }
    } else if t == MADT_ISO {
        let source = byte_of(mem, p + 3);
        if source < ISA_IRQS {
            MadtView {
                overrides: m.overrides.update(
                    source as int,
                    Some((dword_of(mem, p + 4), word_of(mem, p + 8))),
                ),
                ..m
            }
        } else {
            m
        }
    } else if t == MADT_LAPIC_OVERRIDE {
        MadtView { lapic: qword_of(mem, p + 4), ..m }
    } else {
        m
    }
}

/// The entries of `[p, end)` taken in, up to the first that is malformed.
pub open spec fn entries_taken(m: MadtView, mem: Seq<u8>, p: int, end: int) -> MadtView
    decreases end - p,
{
    let len = byte_of(mem, p + 1) as int;
    if p + 2 > end || len < 2 || p + len > end {
        m
    } else {
        entries_taken(entry_taken(m, mem, p), mem, p + len, end)
    }
}

/// The table at `madt` taken in.
pub open spec fn madt_taken(m: MadtView, mem: Seq<u8>, madt: int) -> MadtView {
    entries_taken(
        MadtView { lapic: dword_of(mem, madt + 36) as u64, ..m },
        mem,
        madt + 44,
        madt + dword_of(mem, madt + 4),
    )
}

/// The first of the root table's pointers, in `[p, end)`, that leads to the
/// interrupt table.
pub open spec fn madt_in(mem: Seq<u8>, p: int, end: int, size: int) -> Option<int>
    decreases end - p,
{
    if size <= 0 || p + size > end {
        None
    } else {
        let table = if size == 8 {
            qword_of(mem, p)
        } else {
            dword_of(mem, p) as u64
        };
        if table != 0 && table < IDENTITY_LIMIT && dword_of(mem, table as int) == signature(
            0x41,
            0x50,
            0x49,
            0x43,
        ) {
            Some(table as int)
        } else {
            madt_in(mem, p + size, end, size)
        }
    }
}

/// The root pointer is one: both halves of its signature, and its checksum.
pub open spec fn rsdp_ok(mem: Seq<u8>, rsdp: u64) -> bool {
    &&& 0 < rsdp < IDENTITY_LIMIT
    &&& dword_of(mem, rsdp as int) == signature(0x52, 0x53, 0x44, 0x20)
    &&& dword_of(mem, rsdp + 4) == signature(0x50, 0x54, 0x52, 0x20)
    &&& byte_sum(mem, rsdp as int, 20) == 0
}

/// The root table, and the size of its pointers: by the revision.
pub open spec fn root_table(mem: Seq<u8>, rsdp: u64) -> (u64, int) {
    if byte_of(mem, rsdp + 15) >= 2 {
        (qword_of(mem, rsdp + 24), 8)
    } else {
        (dword_of(mem, rsdp + 16) as u64, 4)
    }
}

/// The interrupt table that a root pointer leads to.
pub open spec fn madt_of(mem: Seq<u8>, rsdp: u64) -> Option<int> {
    let (sdt, size) = root_table(mem, rsdp);
    if !rsdp_ok(mem, rsdp) || sdt == 0 || sdt >= IDENTITY_LIMIT {
        None
    } else {
        madt_in(mem, sdt + 36, sdt + dword_of(mem, sdt + 4), size)
    }
}

impl MadtInfo {
    pub open spec fn wf(&self) -> bool {
        self.overrides@.len() == ISA_IRQS
    }

    /// Nothing is known.
    pub fn new() -> (m: MadtInfo)
        ensures
            m.wf(),
            m.lapic == 0,
            m.ioapic == 0,
            m.gsi_base == 0,
            forall|i: int| 0 <= i < ISA_IRQS ==> (#[trigger] m.overrides@[i]) is None,
    {
        let mut overrides: Vec<Option<(u32, u16)>> = Vec::new();
        let mut i: usize = 0;
        while i < ISA_IRQS
            invariant
                i <= ISA_IRQS,
                overrides@.len() == i,
                forall|j: int| 0 <= j < i ==> (#[trigger] overrides@[j]) is None,
            decreases ISA_IRQS - i,
        {
            overrides.push(None);
            i += 1;
        }
        MadtInfo { lapic: 0, ioapic: 0, gsi_base: 0, overrides }
    }

    fn take_entry(&mut self, mem: &[u8], p: u64)
        requires
            old(self).wf(),
            p < 0x1_0000_0000_0000,
        ensures
            final(self).wf(),
            final(self)@ == entry_taken(old(self)@, mem@, p as int),
    {
        let t: u8 = rd_u8(mem, p);
        if t == MADT_IOAPIC {
            let addr: u64 = rd_u32(mem, p + 4) as u64;
            let gsi_base: u32 = rd_u32(mem, p + 8);
            if self.ioapic == 0 || gsi_base == 0 {
                self.ioapic = addr;
                self.gsi_base = gsi_base;
            }
        } else if t == MADT_ISO {
            let source: usize = rd_u8(mem, p + 3) as usize;
            let gsi: u32 = rd_u32(mem, p + 4);
            let flags: u16 = rd_u16(mem, p + 8);
            if source < ISA_IRQS {
                self.overrides.set(source, Some((gsi, flags)));
            }
        } else if t == MADT_LAPIC_OVERRIDE {
            self.lapic = rd_u64(mem, p + 4);
        }
    }

    /// Take in the interrupt table at an address.
    pub fn parse_madt(&mut self, mem: &[u8], madt: u64)
        requires
            old(self).wf(),
            madt < IDENTITY_LIMIT,
        ensures
            final(self).wf(),
            final(self)@ == madt_taken(old(self)@, mem@, madt as int),
    {
        let len: u64 = rd_u32(mem, madt + 4) as u64;
        self.lapic = rd_u32(mem, madt + 36) as u64;
        let ghost goal = madt_taken(old(self)@, mem@, madt as int);
        let end: u64 = madt + len;
        let mut p: u64 = madt + 44;
        let mut more: bool = true;
        assert(goal == entries_taken(self@, mem@, p as int, end as int));
        while more
            invariant
                self.wf(),
                end <= 0x1_4000_0000,
                p <= 0x1_8000_0000,
                more ==> goal == entries_taken(self@, mem@, p as int, end as int),
                !more ==> goal == self@,
            decreases if more {
                0x2_0000_0000 - p
            } else {
                0
            },
        {
            let elen: u64 = rd_u8(mem, p + 1) as u64;
            if p + 2 > end || elen < 2 || p + elen > end {
                more = false;
            } else {
                self.take_entry(mem, p);
                p = p + elen;
            }
        }
    }

    /// Follow the tables from the root pointer; true where the interrupt table
    /// was found and taken in.
    pub fn init(&mut self, mem: &[u8], rsdp: u64) -> (ok: bool)
        requires
            old(self).wf(),
        ensures
            final(self).wf(),
            match madt_of(mem@, rsdp) {
                Some(madt) => ok && final(self)@ == madt_taken(old(self)@, mem@, madt),
                None => !ok && final(self)@ == old(self)@,
            },
    {
        if rsdp == 0 || rsdp >= IDENTITY_LIMIT {
            return false;
        }
        if rd_u32(mem, rsdp) != 0x2044_5352 || rd_u32(mem, rsdp + 4) != 0x2052_5450 {
            return false;
        }
        if checksum(mem, rsdp, 20) != 0 {
            return false;
        }
        let (sdt, size): (u64, u64) = if rd_u8(mem, rsdp + 15) >= 2 {
            (rd_u64(mem, rsdp + 24), 8)
        } else {
            (rd_u32(mem, rsdp + 16) as u64, 4)
        };
        if sdt == 0 || sdt >= IDENTITY_LIMIT {
            return false;
        }
        let end: u64 = sdt + rd_u32(mem, sdt + 4) as u64;
        let mut p: u64 = sdt + 36;
        let ghost goal = madt_of(mem@, rsdp);
        while p + size <= end
            invariant
                self.wf(),
                *self == *old(self),
                size == 4 || size == 8,
                end <= 0x1_4000_0000,
                p <= 0x1_8000_0000,
                goal == madt_of(mem@, rsdp),
                goal == madt_in(mem@, p as int, end as int, size as int),
            decreases 0x2_0000_0000 - p,
        {
            let table: u64 = if size == 8 {
                rd_u64(mem, p)
            } else {
                rd_u32(mem, p) as u64
            };
            if table != 0 && table < IDENTITY_LIMIT && rd_u32(mem, table) == 0x4349_5041 {
                self.parse_madt(mem, table);
                return true;
            }
            p = p + size;
        }
        false
    }

    /// The local controller's address, where it is known.
    pub fn lapic_phys(&self) -> (r: Option<u64>)
        ensures
            r == if self.lapic == 0 {
                None
            } else {
                Some(self.lapic)
            },
    {
        if self.lapic == 0 {
            None
        } else {
            Some(self.lapic)
        }
    }

    /// The I/O controller's address and its first interrupt, where it is known.
    pub fn ioapic_info(&self) -> (r: Option<(u64, u32)>)
        ensures
            r == if self.ioapic == 0 {
                None
            } else {
                Some((self.ioapic, self.gsi_base))
            },
    {
        if self.ioapic == 0 {
            None
        } else {
            Some((self.ioapic, self.gsi_base))
        }
    }

    /// Where a legacy interrupt goes, and the flags of its route. Without an
    /// override it keeps its number, on an edge and active high.
    pub open spec fn route(self, irq: u8) -> (u32, u32) {
        if irq < ISA_IRQS && self.overrides@[irq as int] is Some {
            let (gsi, flags) = self.overrides@[irq as int]->0;
            (
                gsi,
                ((if flags % 4 == 3 {
                    IRQ_ACTIVE_LO as int
                } else {
                    0
                }) + (if flags / 4 % 4 == 3 {
                    IRQ_LEVEL as int
                } else {
                    0
                })) as u32,
            )
        } else {
            (irq as u32, 0)
        }
    }

    pub fn isa_irq_route(&self, irq: u8) -> (r: (u32, u32))
        requires
            self.wf(),
        ensures
            r == self.route(irq),
    {
        if (irq as usize) < ISA_IRQS {
            if let Some((gsi, flags)) = self.overrides[irq as usize] {
                let mut redir: u32 = 0;
                if flags % 4 == 3 {
                    redir = redir + IRQ_ACTIVE_LO;
                }
                if flags / 4 % 4 == 3 {
                    redir = redir + IRQ_LEVEL;
                }
                return (gsi, redir);
            }
        }
        (irq as u32, 0)
    }

    /// True if a legacy interrupt has an override.
    pub fn isa_irq_overridden(&self, irq: u8) -> (r: bool)
        requires
            self.wf(),
        ensures
            r == (irq < ISA_IRQS && self.overrides@[irq as int] is Some),
    {
        (irq as usize) < ISA_IRQS && self.overrides[irq as usize].is_some()
    }
}

} // verus!
