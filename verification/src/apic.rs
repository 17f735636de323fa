//! The local interrupt controller and its timer.

use vstd::prelude::*;
use crate::task::{roused, SchedView, Scheduler};

verus! {

/// Where the controller is mapped, before it is moved at boot.
pub const APIC_VIRT_NOMINAL: u64 = 0xFFFF_8000_FEE0_0000;

pub const REG_ID: u64 = 0x020;

pub const REG_EOI: u64 = 0x0B0;

/// Spurious interrupt vector.
pub const REG_SVR: u64 = 0x0F0;

pub const REG_ICR_LOW: u64 = 0x300;

pub const REG_ICR_HIGH: u64 = 0x310;

pub const REG_TIMER: u64 = 0x320;

/// Timer initial count.
pub const REG_TICR: u64 = 0x380;

/// Timer current count.
pub const REG_TCCR: u64 = 0x390;

/// Timer divider.
pub const REG_TDCR: u64 = 0x3E0;

pub const TIMER_PERIODIC: u32 = 0x2_0000;

pub const TIMER_MASKED: u32 = 0x1_0000;

pub const VECTOR_TIMER: u8 = 32;

/// Removed mappings are flushed from other processors by this interrupt.
pub const VECTOR_TLB_SHOOTDOWN: u8 = 33;

pub const VECTOR_SPURIOUS: u8 = 255;

/// The divider by 16.
pub const DIVIDE_16: u32 = 0x3;

/// What is written to enable the controller: the enable bit and the spurious
/// vector.
pub const SVR_ENABLE: u32 = 0x1FF;

/// An interrupt to all processors but this one, that flushes mappings.
pub const ICR_SHOOTDOWN: u32 = 0xC_4021;

/// The controller as it was set up: where it is mapped, the timer's counts in a
/// millisecond, whether it is on, and the milliseconds since.
#[derive(Clone, Copy, Debug, PartialEq, Eq, Structural)]
pub struct Apic {
    pub virt: u64,
    pub ticks_per_ms: u32,
    pub online: bool,
    pub ticks: u64,
}

/// The controller's physical address in its base register.
pub open spec fn base_of(msr: u64) -> int {
    msr as int / 0x1000 % 0x100_0000_0000 * 0x1000
}

pub fn read_apic_base(msr: u64) -> (a: u64)
    ensures
        a == base_of(msr),
{
    msr / 0x1000 % 0x100_0000_0000 * 0x1000
}

/// The count that the reference timer is loaded with for so many milliseconds.
pub fn pit_count(ms: u32) -> (c: u16)
    requires
        ms * 1193 <= u32::MAX,
    ensures
        c == ms * 1193 % 0x1_0000,
{
    (ms * 1193 % 0x1_0000) as u16
}

/// The timer's counts in a millisecond, from what was left of the full count
/// after ten; at least one.
pub open spec fn calibrated(remaining: u32) -> u32 {
    let t = (0xFFFF_FFFF - remaining) / 10;
    if t < 1 {
        1
    } else {
        t as u32
    }
}

impl Apic {
    /// The controller before it is set up.
    pub fn off() -> (a: Apic)
        ensures
            a == (Apic { virt: 0, ticks_per_ms: 1, online: false, ticks: 0 }),
    {
        Apic { virt: 0, ticks_per_ms: 1, online: false, ticks: 0 }
    }

    /// What to write to enable the controller and to count down from the full
    /// count with the timer masked, for its calibration: in order.
    pub fn calibration() -> (w: [(u64, u32); 4])
        ensures
            w@ == seq![
                (REG_SVR, SVR_ENABLE),
                (REG_TDCR, DIVIDE_16),
                (REG_TIMER, 0x1_0020u32),
                (REG_TICR, 0xFFFF_FFFFu32),
            ],
    {
        let w: [(u64, u32); 4] = [
            (REG_SVR, SVR_ENABLE),
            (REG_TDCR, DIVIDE_16),
            (REG_TIMER, TIMER_MASKED + VECTOR_TIMER as u32),
            (REG_TICR, 0xFFFF_FFFF),
        ];
        assert(w@ =~= seq![
            (REG_SVR, SVR_ENABLE),
            (REG_TDCR, DIVIDE_16),
            (REG_TIMER, 0x1_0020u32),
            (REG_TICR, 0xFFFF_FFFFu32),
        ]);
        w
    }

    /// Set up the controller: moved by the boot offset, and calibrated by what
    /// was left of the full count after ten milliseconds. The result is what to
    /// write to start the timer, in order.
    pub fn init(&mut self, offset: u64, remaining: u32) -> (w: [(u64, u32); 3])
        requires
            APIC_VIRT_NOMINAL + offset <= u64::MAX,
        ensures
            *final(self) == (Apic {
                virt: (APIC_VIRT_NOMINAL + offset) as u64,
                ticks_per_ms: calibrated(remaining),
                online: true,
                ticks: old(self).ticks,
            }),
            w@ == seq![
                (REG_TDCR, DIVIDE_16),
                (REG_TICR, calibrated(remaining)),
                (REG_TIMER, 0x2_0020u32),
            ],
    {
        let t: u32 = (0xFFFF_FFFF - remaining) / 10;
        let per_ms: u32 = if t < 1 {
            1
        } else {
            t
        };
        self.virt = APIC_VIRT_NOMINAL + offset;
        self.ticks_per_ms = per_ms;
        self.online = true;
        let w: [(u64, u32); 3] = [
            (REG_TDCR, DIVIDE_16),
            (REG_TICR, per_ms),
            (REG_TIMER, TIMER_PERIODIC + VECTOR_TIMER as u32),
        ];
        assert(w@ =~= seq![(REG_TDCR, DIVIDE_16), (REG_TICR, per_ms), (REG_TIMER, 0x2_0020u32)]);
        w
    }

    /// What to write on another processor, to run its timer at the same rate.
    pub fn ap_apic_init(&self) -> (w: [(u64, u32); 4])
        ensures
            w@ == seq![
                (REG_SVR, SVR_ENABLE),
                (REG_TDCR, DIVIDE_16),
                (REG_TICR, self.ticks_per_ms),
                (REG_TIMER, 0x2_0020u32),
            ],
    {
        let w: [(u64, u32); 4] = [
            (REG_SVR, SVR_ENABLE),
            (REG_TDCR, DIVIDE_16),
            (REG_TICR, self.ticks_per_ms),
            (REG_TIMER, TIMER_PERIODIC + VECTOR_TIMER as u32),
        ];
        assert(w@ =~= seq![
            (REG_SVR, SVR_ENABLE),
            (REG_TDCR, DIVIDE_16),
            (REG_TICR, self.ticks_per_ms),
            (REG_TIMER, 0x2_0020u32),
        ]);
        w
    }

    /// The command that flushes removed mappings on other processors; `None`
    /// before the controller is on.
    pub fn send_tlb_shootdown_ipi(&self) -> (r: Option<u32>)
        ensures
            r == if self.online {
                Some(ICR_SHOOTDOWN)
            } else {
                None
            },
    {
        if self.online {
            Some(ICR_SHOOTDOWN)
        } else {
            None
        }
    }

    /// Where the controller is mapped.
    pub fn mmio_va(&self) -> (a: u64)
        ensures
            a == self.virt,
    {
        self.virt
    }

    /// Milliseconds since the controller was set up.
    pub fn ticks(&self) -> (t: u64)
        ensures
            t == self.ticks,
    {
        self.ticks
    }

    /// A millisecond has passed: it is counted, and the tasks whose time has come
    /// are woken. The caller then yields.
    pub fn timer_interrupt_handler(&mut self, sched: &mut Scheduler)
        requires
            old(sched).wf(),
        ensures
            *final(self) == (Apic {
                ticks: ((old(self).ticks + 1) % 0x1_0000_0000_0000_0000) as u64,
                ..*old(self)
            }),
            final(sched).wf(),
            ({
                let tick = ((old(self).ticks + 1) % 0x1_0000_0000_0000_0000) as u64;
                let (tasks, sleepers) = roused(old(sched)@.tasks, old(sched)@.sleepers, tick, 0);
                final(sched)@ == (SchedView { tasks, sleepers, ..old(sched)@ })
            }),
    {
        let tick: u64 = self.ticks.wrapping_add(1);
        self.ticks = tick;
        sched.wake_sleepers(tick);
    }
}

/// What is written at the end of an interrupt.
pub fn eoi() -> (w: (u64, u32))
    ensures
        w == (REG_EOI, 0u32),
{
    (REG_EOI, 0)
}

/// The identity in a controller's identity register.
pub fn lapic_id(reg: u32) -> (id: u8)
    ensures
        id == reg as int / 0x100_0000,
{
    (reg / 0x100_0000) as u8
}

} // verus!
