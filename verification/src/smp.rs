//! Starting the other processors.

use vstd::prelude::*;

verus! {

/// Where the code that starts a processor is copied to.
pub const TRAMPOLINE_PHYS: u64 = 0x8000;

/// Where in that page the address of the kernel's entry is.
pub const OFF_AP_ENTRY: usize = 0xFD0;

/// Where in that page the processor's stack is.
pub const OFF_AP_STACK: usize = 0xFD8;

/// Where in that page the page table's address is.
pub const OFF_BSP_CR3: usize = 0xFE0;

/// Where in that page the processor's number is.
pub const OFF_AP_ONLINE: usize = 0xFE8;

pub const MAX_CPUS: usize = 8;

/// Processors besides the first.
pub const MAX_APS: usize = 7;

/// Bytes of a processor's stack.
pub const AP_STACK_BYTES: u64 = 0x1_0000;

/// The command that resets all other processors.
pub const ICR_INIT: u32 = 0xC_C500;

/// The command that ends the reset.
pub const ICR_INIT_DEASSERT: u32 = 0xC_8500;

/// The command that starts all other processors at the trampoline's page.
pub const ICR_STARTUP: u32 = 0xC_4608;

/// Milliseconds that a processor is given to come up.
pub const START_MS: u64 = 200;

/// A processor.
#[derive(Clone, Copy, Debug, PartialEq, Eq, Structural)]
pub struct PerCpu {
    pub lapic_id: u8,
    pub online: bool,
}

/// The processors by identity, and how many besides the first came up.
pub struct Cpus {
    pub per_cpu: Vec<PerCpu>,
    pub ap_online: usize,
}

/// How many processors there are besides the first, by what the first says of
/// itself; no more than are supported.
pub open spec fn ap_count_of(ebx: u32) -> int {
    let total = ebx as int / 0x1_0000 % 0x100;
    if total <= 1 {
        0
    } else if total - 1 > MAX_APS {
        MAX_APS as int
    } else {
        total - 1
    }
}

pub fn ap_count(ebx: u32) -> (n: usize)
    ensures
        n == ap_count_of(ebx),
{
    let total: usize = (ebx / 0x1_0000 % 0x100) as usize;
    if total <= 1 {
        0
    } else if total - 1 > MAX_APS {
        MAX_APS
    } else {
        total - 1
    }
}

/// What starts a processor: commands in order, and the milliseconds to wait after
/// each.
pub fn startup_commands() -> (c: [(u32, u64); 4])
    ensures
        c@ == seq![
            (ICR_INIT, 10u64),
            (ICR_INIT_DEASSERT, 1),
            (ICR_STARTUP, 1),
            (ICR_STARTUP, 0),
        ],
{
    let c: [(u32, u64); 4] = [
        (ICR_INIT, 10),
        (ICR_INIT_DEASSERT, 1),
        (ICR_STARTUP, 1),
        (ICR_STARTUP, 0),
    ];
    assert(c@ =~= seq![
        (ICR_INIT, 10u64),
        (ICR_INIT_DEASSERT, 1),
        (ICR_STARTUP, 1),
        (ICR_STARTUP, 0),
    ]);
    c
}

/// The processors with one of them up; one with too large an identity has no
/// place.
pub open spec fn came_up(cpus: Seq<PerCpu>, id: u8) -> Seq<PerCpu> {
    if id < MAX_CPUS {
        cpus.update(id as int, PerCpu { lapic_id: id, online: true })
    } else {
        cpus
    }
}

impl Cpus {
    pub open spec fn wf(&self) -> bool {
        self.per_cpu@.len() == MAX_CPUS
    }

    /// The first processor is up.
    pub fn init(bsp_id: u8) -> (c: Cpus)
        ensures
            c.wf(),
            c.ap_online == 0,
            c.per_cpu@ == came_up(
                Seq::new(MAX_CPUS as nat, |i: int| PerCpu { lapic_id: 0, online: false }),
                bsp_id,
            ),
    {
        let mut per_cpu: Vec<PerCpu> = Vec::new();
        let mut i: usize = 0;
        while i < MAX_CPUS
            invariant
                i <= MAX_CPUS,
                per_cpu@ == Seq::new(i as nat, |j: int| PerCpu { lapic_id: 0, online: false }),
            decreases MAX_CPUS - i,
        {
            per_cpu.push(PerCpu { lapic_id: 0, online: false });
            i += 1;
            assert(per_cpu@ =~= Seq::new(
                i as nat,
                |j: int| PerCpu { lapic_id: 0, online: false },
            ));
        }
        if (bsp_id as usize) < MAX_CPUS {
            per_cpu.set(bsp_id as usize, PerCpu { lapic_id: bsp_id, online: true });
        }
        Cpus { per_cpu, ap_online: 0 }
    }

    /// Another processor has come up.
    pub fn ap_entry(&mut self, id: u8)
        requires
            old(self).wf(),
            old(self).ap_online < usize::MAX,
        ensures
            final(self).wf(),
            final(self).per_cpu@ == came_up(old(self).per_cpu@, id),
            final(self).ap_online == old(self).ap_online + 1,
    {
        if (id as usize) < MAX_CPUS {
            self.per_cpu.set(id as usize, PerCpu { lapic_id: id, online: true });
        }
        self.ap_online = self.ap_online + 1;
    }

    /// Processor `ap_idx`, counted from 0 behind the first, has come up: as many
    /// as are started before it, and it.
    pub fn started(&self, ap_idx: usize) -> (r: bool)
        ensures
            r == (self.ap_online > ap_idx),
    {
        self.ap_online > ap_idx
    }
}

} // verus!
