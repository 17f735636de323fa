//! The state that system calls work on.

use vstd::prelude::*;
use crate::cap::{
    create_object, create_root_cap, root_cap, slots_with, word_for_next, CapIds, CapKind, CapRights,
    CapSlots, CapView, Capability, CapabilityTable, KernelObject, KernelObjectRef, KoTable,
    SlotView,
};
use crate::device::{idle_irqs, irqs_ok, DevIrq, IrqTable};
use crate::elf::StackSlots;
use crate::pci::{registry_ok, DeviceView, Registry};
use crate::pmm::{Frames, Used};
use crate::task::{boot_sched, sched_ok, SchedView, Scheduler, TaskView};
use crate::time::Clock;

verus! {

pub struct Kernel {
    pub sched: Scheduler,
    pub ids: CapIds,
    pub objects: KoTable,
    pub frames: Frames,
    pub stacks: StackSlots,
    pub registry: Registry,
    pub irqs: IrqTable,
    /// Milliseconds since boot.
    pub ticks: u64,
    pub clock: Clock,
    /// A block device is there.
    pub blk_present: bool,
    /// The capability that left its table to be sent.
    pub in_transit: Option<Capability>,
}

/// The kernel's state as a mathematical value.
#[verifier::ext_equal]
pub struct KernelView {
    pub sched: SchedView,
    pub ids: CapIds,
    pub objects: Seq<SlotView<KernelObject>>,
    pub used: Used,
    pub next_stack: u64,
    pub devices: Seq<DeviceView>,
    pub irqs: Seq<DevIrq>,
    pub ticks: u64,
    pub clock: Clock,
    pub blk_present: bool,
    pub in_transit: Option<CapView>,
}

impl View for Kernel {
    type V = KernelView;

    open spec fn view(&self) -> KernelView {
        KernelView {
            sched: self.sched@,
            ids: self.ids,
            objects: self.objects@,
            used: self.frames@,
            next_stack: self.stacks.next,
            devices: self.registry@,
            irqs: self.irqs@,
            ticks: self.ticks,
            clock: self.clock,
            blk_present: self.blk_present,
            in_transit: match self.in_transit {
                Some(c) => Some(c@),
                None => None,
            },
        }
    }
}

/// The current task.
pub open spec fn current_task(k: KernelView) -> TaskView {
    k.sched.tasks[k.sched.current]
}

/// The capabilities of the current task.
pub open spec fn current_caps(k: KernelView) -> CapSlots {
    k.sched.caps[k.sched.current].1
}

/// The state with other capabilities of the current task.
pub open spec fn with_current_caps(k: KernelView, slots: CapSlots) -> KernelView {
    let c = k.sched.current;
    KernelView {
        sched: SchedView {
            caps: k.sched.caps.update(c, (k.sched.caps[c].0, slots)),
            ..k.sched
        },
        ..k
    }
}

impl Kernel {
    pub open spec fn wf(&self) -> bool {
        &&& self.sched.wf()
        &&& self.frames.wf()
        &&& registry_ok(self.registry@)
        &&& irqs_ok(self.irqs@)
    }
}

/// The kernel's state at boot, with the memory and the devices that were found.
pub open spec fn boot_state(
    used: Used,
    devices: Seq<DeviceView>,
    clock: Clock,
    blk_present: bool,
) -> KernelView {
    KernelView {
        sched: boot_sched(),
        ids: CapIds { next: 1 },
        objects: seq![],
        used,
        next_stack: 0,
        devices,
        irqs: idle_irqs(),
        ticks: 0,
        clock,
        blk_present,
        in_transit: None,
    }
}

impl Kernel {
    /// The state at boot: the bootstrap task alone, without capabilities, objects or
    /// wired interrupts.
    pub fn new(frames: Frames, registry: Registry, clock: Clock, blk_present: bool) -> (k: Kernel)
        requires
            frames.wf(),
            registry_ok(registry@),
        ensures
            k.wf(),
            k@ == boot_state(frames@, registry@, clock, blk_present),
    {
        let k = Kernel {
            sched: Scheduler::new(),
            ids: CapIds::new(),
            objects: KoTable::new(),
            frames,
            stacks: StackSlots::new(),
            registry,
            irqs: IrqTable::new(),
            ticks: 0,
            clock,
            blk_present,
            in_transit: None,
        };
        assert(k@.objects =~= seq![]);
        k
    }
}

/// A new object, and a root capability for it in the current task's table: the
/// state, and the handle.
#[verifier::opaque]
pub open spec fn minted(k: KernelView, obj: KernelObject, kind: CapKind, rights: CapRights) -> (
    KernelView,
    u64,
) {
    let r = KernelObjectRef(word_for_next(k.objects) as u64);
    (
        with_current_caps(
            KernelView {
                objects: slots_with(k.objects, obj),
                ids: CapIds { next: k.ids.after() },
                ..k
            },
            slots_with(current_caps(k), root_cap(k.ids.next, kind, rights, r)),
        ),
        word_for_next(current_caps(k)) as u64,
    )
}

/// Other capabilities in a table do not change the scheduler's shape.
pub proof fn lemma_caps_keep_shape(s: SchedView, i: int, slots: CapSlots)
    requires
        sched_ok(s),
        0 <= i < s.caps.len(),
    ensures
        sched_ok(SchedView { caps: s.caps.update(i, (s.caps[i].0, slots)), ..s }),
{
}

impl Kernel {
    /// The current task's capability table.
    pub fn current_table(&self) -> (t: &CapabilityTable)
        requires
            self.wf(),
        ensures
            t@ == current_caps(self@),
    {
        let c: usize = self.sched.current;
        assert(self.sched@.caps[c as int] == self.sched.caps.tasks@[c as int]@);
        &self.sched.caps.tasks[c].table
    }

    /// Register an object and put a root capability for it into the current
    /// task's table; `None` where there is no room for objects.
    pub fn mint(&mut self, obj: KernelObject, kind: CapKind, rights: CapRights) -> (r: Option<u64>)
        requires
            old(self).wf(),
        ensures
            final(self).wf(),
            if KoTable::full(old(self)@.objects) {
                r is None && final(self)@ == old(self)@
            } else {
                r == Some(minted(old(self)@, obj, kind, rights).1) && final(self)@ == minted(
                    old(self)@,
                    obj,
                    kind,
                    rights,
                ).0
            },
    {
        let c: usize = self.sched.current;
        let ghost k0 = self@;
        reveal(minted);
        assert(self.sched@.caps[c as int] == self.sched.caps.tasks@[c as int]@);
        match create_object(&mut self.objects, obj) {
            Err(_) => None,
            Ok(o) => {
                let h = create_root_cap(
                    &mut self.ids,
                    &mut self.sched.caps.tasks[c].table,
                    kind,
                    rights,
                    o,
                );
                proof {
                    let after = minted(k0, obj, kind, rights).0;
                    assert(self.sched@.tasks =~= k0.sched.tasks);
                    assert(self.sched@.caps =~= after.sched.caps);
                    lemma_caps_keep_shape(k0.sched, c as int, current_caps(after));
                    assert(self.sched@ =~= after.sched);
                    assert(self.ids == after.ids);
                    assert(self@ =~= after);
                }
                Some(h.0)
            },
        }
    }

    /// Move the capability in transit out.
    pub fn take_transit(&mut self) -> (r: Option<Capability>)
        ensures
            match old(self)@.in_transit {
                Some(c) => r matches Some(cap) && cap@ == c,
                None => r is None,
            },
            final(self)@ == (KernelView { in_transit: None, ..old(self)@ }),
    {
        self.in_transit.take()
    }
}

} // verus!
