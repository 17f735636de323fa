//! PCI: configuration addresses, what a scan of bus 0 finds, and the registry
//! of devices that userspace drivers may claim.

use vstd::prelude::*;
use crate::text::same_bytes;

verus! {

/// The port that selects a configuration register.
pub const CONFIG_ADDRESS: u16 = 0xCF8;

/// The port that the selected register is read and written at.
pub const CONFIG_DATA: u16 = 0xCFC;

/// The command register.
pub const COMMAND: u8 = 0x04;

/// Device slots of a bus.
pub const SLOTS: usize = 32;

/// The most devices that the registry tracks.
pub const MAX_REGISTERED_DEVICES: usize = 8;

/// Dwords from the first BAR on that a probe reads: six BARs, and the one
/// behind them that a 64-bit BAR in the last place runs into.
pub const PROBED: usize = 7;

/// The configuration address of a register: the enable bit, the bus, the device,
/// the function, and the register's dword.
pub open spec fn address_of(bus: u8, dev: u8, func: u8, off: u8) -> int {
    0x8000_0000 + bus * 0x1_0000 + dev * 0x800 + func * 0x100 + (off - off % 4)
}

pub fn config_addr(bus: u8, dev: u8, func: u8, off: u8) -> (a: u32)
    requires
        dev < 32,
        func < 8,
    ensures
        a == address_of(bus, dev, func, off),
{
    0x8000_0000 + bus as u32 * 0x1_0000 + dev as u32 * 0x800 + func as u32 * 0x100 + (off
        - off % 4) as u32
}

/// What a scan reads of one slot.
#[derive(Clone, Copy, Debug, PartialEq, Eq, Structural)]
pub struct SlotHeader {
    /// Vendor low, device high.
    pub id: u32,
    pub command: u32,
    pub bar0: u32,
    /// The interrupt line is in the lowest byte.
    pub irq_info: u32,
}

/// There is a device in the slot.
pub open spec fn occupied(h: SlotHeader) -> bool {
    h.id != 0xFFFF_FFFF && h.id != 0
}

/// The slot holds the device asked for.
pub open spec fn matches_id(h: SlotHeader, vendor: u16, device: u16) -> bool {
    occupied(h) && h.id == device * 0x1_0000 + vendor
}

/// The first slot from `k` on that holds the device, or the length.
pub open spec fn slot_of(bus: Seq<SlotHeader>, vendor: u16, device: u16, k: int) -> int
    decreases bus.len() - k,
{
    if k >= bus.len() {
        bus.len() as int
    } else if matches_id(bus[k], vendor, device) {
        k
    } else {
        slot_of(bus, vendor, device, k + 1)
    }
}

fn is_match(h: &SlotHeader, vendor: u16, device: u16) -> (r: bool)
    ensures
        r == matches_id(*h, vendor, device),
{
    h.id != 0xFFFF_FFFF && h.id != 0 && h.id == device as u32 * 0x1_0000 + vendor as u32
}

/// The bus and slot of a device, whatever its BARs are.
pub fn find(bus: &[SlotHeader], vendor: u16, device: u16) -> (r: Option<(u8, u8)>)
    requires
        bus.len() <= SLOTS,
    ensures
        ({
            let k = slot_of(bus@, vendor, device, 0);
            r == if k < bus@.len() {
                Some((0u8, k as u8))
            } else {
                None
            }
        }),
{
    let mut k: usize = 0;
    while k < bus.len()
        invariant
            k <= bus@.len() <= SLOTS,
            slot_of(bus@, vendor, device, 0) == slot_of(bus@, vendor, device, k as int),
        decreases bus@.len() - k,
    {
        if is_match(&bus[k], vendor, device) {
            return Some((0, k as u8));
        }
        k += 1;
    }
    None
}

/// Where a BAR is read: its configuration address.
pub fn read_bar32(bus: u8, dev: u8, bar_idx: u8) -> (a: u32)
    requires
        dev < 32,
        bar_idx < 6,
    ensures
        a == address_of(bus, dev, 0, (0x10 + bar_idx * 4) as u8),
{
    config_addr(bus, dev, 0, 0x10 + bar_idx * 4)
}

/// The command register with I/O and memory space enabled.
pub fn enable_io_mem(command: u32) -> (r: u32)
    ensures
        r == command | 0x3,
{
    command | 0x3
}

/// A device with an I/O BAR.
#[derive(Clone, Copy, Debug, PartialEq, Eq, Structural)]
pub struct PciDevice {
    pub bus: u8,
    pub dev: u8,
    pub vendor: u16,
    pub device: u16,
    /// The I/O port base in BAR0.
    pub io_bar0: u16,
    pub irq_line: u8,
}

/// The slot holds the device asked for, with an I/O BAR.
pub open spec fn matches_io(h: SlotHeader, vendor: u16, device: u16) -> bool {
    matches_id(h, vendor, device) && h.bar0 % 2 == 1
}

/// The slot of the match from `k` on that has `skip` matches before it, or the
/// length.
pub open spec fn nth_slot_of(
    bus: Seq<SlotHeader>,
    vendor: u16,
    device: u16,
    skip: nat,
    k: int,
) -> int
    decreases bus.len() - k,
{
    if k >= bus.len() {
        bus.len() as int
    } else if !matches_io(bus[k], vendor, device) {
        nth_slot_of(bus, vendor, device, skip, k + 1)
    } else if skip > 0 {
        nth_slot_of(bus, vendor, device, (skip - 1) as nat, k + 1)
    } else {
        k
    }
}

/// What is known of a device with an I/O BAR.
pub open spec fn device_in(h: SlotHeader, k: int) -> PciDevice {
    PciDevice {
        bus: 0,
        dev: k as u8,
        vendor: (h.id % 0x1_0000) as u16,
        device: (h.id / 0x1_0000) as u16,
        io_bar0: ((h.bar0 - h.bar0 % 4) % 0x1_0000) as u16,
        irq_line: (h.irq_info % 0x100) as u8,
    }
}

/// The match with `skip` matches before it, in the order of the slots, and the
/// value to write to its command register, so that it may become bus master.
pub fn find_nth_device(bus: &[SlotHeader], vendor: u16, device: u16, skip: usize) -> (r: Option<
    (PciDevice, u32),
>)
    requires
        bus.len() <= SLOTS,
    ensures
        ({
            let k = nth_slot_of(bus@, vendor, device, skip as nat, 0);
            r == if k < bus@.len() {
                Some((device_in(bus@[k], k), bus@[k].command | 0x4))
            } else {
                None
            }
        }),
{
    let mut left: usize = skip;
    let mut k: usize = 0;
    while k < bus.len()
        invariant
            k <= bus@.len() <= SLOTS,
            nth_slot_of(bus@, vendor, device, skip as nat, 0) == nth_slot_of(
                bus@,
                vendor,
                device,
                left as nat,
                k as int,
            ),
        decreases bus@.len() - k,
    {
        let h: SlotHeader = bus[k];
        if is_match(&h, vendor, device) && h.bar0 % 2 == 1 {
            if left > 0 {
                left = left - 1;
            } else {
                let d = PciDevice {
                    bus: 0,
                    dev: k as u8,
                    vendor: (h.id % 0x1_0000) as u16,
                    device: (h.id / 0x1_0000) as u16,
                    io_bar0: ((h.bar0 - h.bar0 % 4) % 0x1_0000) as u16,
                    irq_line: (h.irq_info % 0x100) as u8,
                };
                return Some((d, h.command | 0x4));
            }
        }
        k += 1;
    }
    None
}

/// The first match.
pub fn find_device(bus: &[SlotHeader], vendor: u16, device: u16) -> (r: Option<(PciDevice, u32)>)
    requires
        bus.len() <= SLOTS,
    ensures
        ({
            let k = nth_slot_of(bus@, vendor, device, 0, 0);
            r == if k < bus@.len() {
                Some((device_in(bus@[k], k), bus@[k].command | 0x4))
            } else {
                None
            }
        }),
{
    find_nth_device(bus, vendor, device, 0)
}

// ── BARs ─────────────────────────────────────────────────────────────────────

/// A base address register of a registered device.
#[derive(Clone, Copy, Debug, PartialEq, Eq, Structural)]
pub struct DeviceBar {
    /// Physical base; 0 where the BAR is not implemented.
    pub base: u64,
    /// Bytes; 0 where the BAR is not implemented, or is the high half of one
    /// before it.
    pub size: u64,
    /// A memory BAR, as against an I/O one.
    pub is_mem: bool,
}

/// A probed dword: its value, and what reads back after all ones are written.
#[derive(Clone, Copy, Debug, PartialEq, Eq, Structural)]
pub struct BarProbe {
    pub orig: u32,
    pub mask: u32,
}

/// The BAR is a memory BAR of 64 bits.
pub open spec fn is_wide(p: BarProbe) -> bool {
    p.orig % 2 == 0 && p.orig / 2 % 4 == 2
}

/// The BAR in a probed dword and the one behind it. The writable address bits
/// read back as ones, so the mask is the negated size.
pub open spec fn bar_of(lo: BarProbe, hi: BarProbe) -> DeviceBar {
    if lo.orig % 2 == 1 {
        let base = (lo.orig - lo.orig % 4) as u64;
        DeviceBar {
            base,
            size: if base == 0 {
                0
            } else {
                (0x1_0000 - (lo.mask - lo.mask % 4) % 0x1_0000) as u64
            },
            is_mem: false,
        }
    } else if is_wide(lo) {
        let mask = hi.mask * 0x1_0000_0000 + (lo.mask - lo.mask % 16);
        DeviceBar {
            base: (hi.orig * 0x1_0000_0000 + (lo.orig - lo.orig % 16)) as u64,
            size: if mask == 0 {
                0
            } else {
                (0x1_0000_0000_0000_0000 - mask) as u64
            },
            is_mem: true,
        }
    } else {
        let mask = lo.mask - lo.mask % 16;
        DeviceBar {
            base: (lo.orig - lo.orig % 16) as u64,
            size: if mask == 0 {
                0
            } else {
                (0x1_0000_0000 - mask) as u64
            },
            is_mem: true,
        }
    }
}

/// Decode a probed BAR; the flag tells whether it takes the next dword too.
pub fn probe_bar(lo: BarProbe, hi: BarProbe) -> (r: (DeviceBar, bool))
    ensures
        r.0 == bar_of(lo, hi),
        r.1 == is_wide(lo),
{
    if lo.orig % 2 == 1 {
        let base: u64 = (lo.orig - lo.orig % 4) as u64;
        let size: u64 = if base == 0 {
            0
        } else {
            0x1_0000 - ((lo.mask - lo.mask % 4) % 0x1_0000) as u64
        };
        (DeviceBar { base, size, is_mem: false }, false)
    } else if lo.orig / 2 % 4 == 2 {
        let base: u64 = hi.orig as u64 * 0x1_0000_0000 + (lo.orig - lo.orig % 16) as u64;
        let mask: u64 = hi.mask as u64 * 0x1_0000_0000 + (lo.mask - lo.mask % 16) as u64;
        let size: u64 = if mask == 0 {
            0
        } else {
            u64::MAX - mask + 1
        };
        (DeviceBar { base, size, is_mem: true }, true)
    } else {
        let mask: u32 = lo.mask - lo.mask % 16;
        let size: u64 = if mask == 0 {
            0
        } else {
            0x1_0000_0000 - mask as u64
        };
        (DeviceBar { base: (lo.orig - lo.orig % 16) as u64, size, is_mem: true }, false)
    }
}

/// A BAR that is not implemented.
pub open spec fn empty_bar() -> DeviceBar {
    DeviceBar { base: 0, size: 0, is_mem: false }
}

/// The BARs from `i` on filled in from the probes; the place behind a 64-bit
/// BAR stays empty.
pub open spec fn bars_from(probes: Seq<BarProbe>, bars: Seq<DeviceBar>, i: int) -> Seq<DeviceBar>
    decreases 7 - i,
{
    if i < 0 || i >= 6 {
        bars
    } else {
        bars_from(
            probes,
            bars.update(i, bar_of(probes[i], probes[i + 1])),
            i + if is_wide(probes[i]) {
                2int
            } else {
                1int
            },
        )
    }
}

/// The BARs of a probed device.
pub open spec fn bars_of(probes: Seq<BarProbe>) -> Seq<DeviceBar> {
    bars_from(probes, Seq::new(6, |i: int| empty_bar()), 0)
}

fn decode_bars(probes: &[BarProbe]) -> (bars: [DeviceBar; 6])
    requires
        probes.len() == PROBED,
    ensures
        bars@ == bars_of(probes@),
{
    let mut bars: [DeviceBar; 6] = [DeviceBar { base: 0, size: 0, is_mem: false }; 6];
    assert(bars@ =~= Seq::new(6, |i: int| empty_bar()));
    let mut i: usize = 0;
    while i < 6
        invariant
            probes@.len() == PROBED,
            bars@.len() == 6,
            i <= 7,
            bars_of(probes@) == bars_from(probes@, bars@, i as int),
        decreases 7 - i,
    {
        let (bar, two): (DeviceBar, bool) = probe_bar(probes[i], probes[i + 1]);
        let ghost before = bars@;
        bars[i] = bar;
        assert(bars@ =~= before.update(i as int, bar));
        i = i + if two {
            2
        } else {
            1
        };
    }
    bars
}

// ── Registry ─────────────────────────────────────────────────────────────────

/// A device that may be claimed by name.
pub struct RegisteredDevice {
    pub name: Vec<u8>,
    pub bus: u8,
    pub dev: u8,
    pub vendor: u16,
    pub device: u16,
    pub bars: [DeviceBar; 6],
    /// The interrupt line.
    pub irq_line: u8,
    /// A device is claimed at most once.
    pub claimed: bool,
}

/// A registered device as a mathematical value.
#[verifier::ext_equal]
pub struct DeviceView {
    pub name: Seq<u8>,
    pub bus: u8,
    pub dev: u8,
    pub vendor: u16,
    pub device: u16,
    pub bars: Seq<DeviceBar>,
    pub irq_line: u8,
    pub claimed: bool,
}

impl View for RegisteredDevice {
    type V = DeviceView;

    open spec fn view(&self) -> DeviceView {
        DeviceView {
            name: self.name@,
            bus: self.bus,
            dev: self.dev,
            vendor: self.vendor,
            device: self.device,
            bars: self.bars@,
            irq_line: self.irq_line,
            claimed: self.claimed,
        }
    }
}

pub struct Registry {
    devs: Vec<RegisteredDevice>,
}

impl View for Registry {
    type V = Seq<DeviceView>;

    closed spec fn view(&self) -> Seq<DeviceView> {
        Seq::new(self.devs@.len(), |i: int| self.devs@[i]@)
    }
}

/// The name of a device that the kernel leaves to userspace.
pub open spec fn allowed_name(vendor: u16, device: u16) -> Option<Seq<u8>> {
    if vendor == 0x1AF4 && device == 0x1000 {
        Some(seq![0x76u8, 0x69, 0x72, 0x74, 0x69, 0x6F, 0x2D, 0x6E, 0x65, 0x74])
    } else {
        None
    }
}

/// The name of a device that the kernel leaves to userspace: `virtio-net`.
pub fn allowlisted(vendor: u16, device: u16) -> (r: Option<Vec<u8>>)
    ensures
        match allowed_name(vendor, device) {
            Some(n) => r matches Some(v) && v@ == n,
            None => r is None,
        },
{
    if vendor == 0x1AF4 && device == 0x1000 {
        let name: Vec<u8> = vec![0x76u8, 0x69, 0x72, 0x74, 0x69, 0x6F, 0x2D, 0x6E, 0x65, 0x74];
        assert(name@ =~= seq![0x76u8, 0x69, 0x72, 0x74, 0x69, 0x6F, 0x2D, 0x6E, 0x65, 0x74]);
        Some(name)
    } else {
        None
    }
}

/// The slot holds a device that the kernel leaves to userspace.
pub fn is_allowed(h: &SlotHeader) -> (r: bool)
    ensures
        r == (h.id != 0xFFFF_FFFF && h.id != 0 && allowed_name(
            (h.id % 0x1_0000) as u16,
            (h.id / 0x1_0000) as u16,
        ) is Some),
{
    h.id != 0xFFFF_FFFF && h.id != 0 && allowlisted(
        (h.id % 0x1_0000) as u16,
        (h.id / 0x1_0000) as u16,
    ).is_some()
}

/// The registry after the slots from `k` on were looked at.
pub open spec fn registered(
    bus: Seq<SlotHeader>,
    probes: Seq<Seq<BarProbe>>,
    devs: Seq<DeviceView>,
    k: int,
) -> Seq<DeviceView>
    decreases bus.len() - k,
{
    if k >= bus.len() || devs.len() >= MAX_REGISTERED_DEVICES {
        devs
    } else {
        let h = bus[k];
        let vendor = (h.id % 0x1_0000) as u16;
        let device = (h.id / 0x1_0000) as u16;
        match allowed_name(vendor, device) {
            Some(name) if occupied(h) => registered(
                bus,
                probes,
                devs.push(
                    DeviceView {
                        name,
                        bus: 0,
                        dev: k as u8,
                        vendor,
                        device,
                        bars: bars_of(probes[k]),
                        irq_line: (h.irq_info % 0x100) as u8,
                        claimed: false,
                    },
                ),
                k + 1,
            ),
            _ => registered(bus, probes, devs, k + 1),
        }
    }
}

/// For each device, the address of its command register and the value that
/// enables it.
pub open spec fn enabling(bus: Seq<SlotHeader>, devs: Seq<DeviceView>) -> Seq<(u32, u32)> {
    Seq::new(
        devs.len(),
        |i: int|
            (
                address_of(0, devs[i].dev, 0, COMMAND) as u32,
                bus[devs[i].dev as int].command | 0x7,
            ),
    )
}

/// The probes of every slot.
pub open spec fn probes_view(probes: Seq<Vec<BarProbe>>) -> Seq<Seq<BarProbe>> {
    Seq::new(probes.len(), |i: int| probes[i]@)
}

impl Registry {
    pub fn new() -> (r: Registry)
        ensures
            r@ == Seq::<DeviceView>::empty(),
    {
        let r = Registry { devs: Vec::new() };
        assert(r@ =~= Seq::<DeviceView>::empty());
        r
    }

    /// The devices of bus 0 that the kernel does not drive itself, from what a
    /// scan read of each slot and what its BARs were probed to be; and what to
    /// write to each one's command register, address and value, so that it takes
    /// part in I/O and memory space and may become bus master.
    pub fn init_device_registry(bus: &[SlotHeader], probes: &Vec<Vec<BarProbe>>) -> (r: (
        Registry,
        Vec<(u32, u32)>,
    ))
        requires
            bus.len() <= SLOTS,
            probes@.len() == bus@.len(),
            forall|i: int| 0 <= i < probes@.len() ==> (#[trigger] probes@[i])@.len() == PROBED,
        ensures
            (r.0)@ == registered(bus@, probes_view(probes@), seq![], 0),
            (r.1)@ == enabling(bus@, (r.0)@),
    {
        let mut reg = Registry::new();
        let mut writes: Vec<(u32, u32)> = Vec::new();
        let ghost goal = registered(bus@, probes_view(probes@), seq![], 0);
        assert(writes@ =~= enabling(bus@, reg@));
        let mut k: usize = 0;
        while k < bus.len() && reg.devs.len() < MAX_REGISTERED_DEVICES
            invariant
                k <= bus@.len() <= SLOTS,
                probes@.len() == bus@.len(),
                forall|i: int| 0 <= i < probes@.len() ==> (#[trigger] probes@[i])@.len() == PROBED,
                goal == registered(bus@, probes_view(probes@), reg@, k as int),
                writes@ == enabling(bus@, reg@),
            decreases bus@.len() - k,
        {
            let h: SlotHeader = bus[k];
            let vendor: u16 = (h.id % 0x1_0000) as u16;
            let device: u16 = (h.id / 0x1_0000) as u16;
            assert(reg@.len() == reg.devs@.len());
            assert(probes_view(probes@)[k as int] == probes@[k as int]@);
            if h.id != 0xFFFF_FFFF && h.id != 0 {
                match allowlisted(vendor, device) {
                    Some(name) => {
                        let ghost before = reg@;
                        let d = RegisteredDevice {
                            name,
                            bus: 0,
                            dev: k as u8,
                            vendor,
                            device,
                            bars: decode_bars(probes[k].as_slice()),
                            irq_line: (h.irq_info % 0x100) as u8,
                            claimed: false,
                        };
                        let ghost dv = d@;
                        reg.devs.push(d);
                        assert(reg@ =~= before.push(dv));
                        writes.push((config_addr(0, k as u8, 0, COMMAND), h.command | 0x7));
                        assert(writes@ =~= enabling(bus@, reg@));
                    },
                    None => {},
                }
            }
            k += 1;
        }
        (reg, writes)
    }

    /// How many devices may be claimed.
    pub fn registry_len(&self) -> (n: usize)
        ensures
            n == self@.len(),
    {
        self.devs.len()
    }

    /// A registered device by its index.
    pub fn registry_get(&self, idx: usize) -> (r: Option<&RegisteredDevice>)
        ensures
            match r {
                Some(d) => idx < self@.len() && d@ == self@[idx as int],
                None => idx >= self@.len(),
            },
    {
        if idx < self.devs.len() {
            assert(self@[idx as int] == self.devs@[idx as int]@);
            Some(&self.devs[idx])
        } else {
            None
        }
    }

    /// The index of a registered device by its name.
    pub fn find_registered(&self, name: &[u8]) -> (r: Option<usize>)
        ensures
            match r {
                Some(i) => i < self@.len() && i == named(self@, name@, 0),
                None => named(self@, name@, 0) == self@.len(),
            },
    {
        let mut k: usize = 0;
        while k < self.devs.len()
            invariant
                k <= self.devs@.len(),
                named(self@, name@, 0) == named(self@, name@, k as int),
            decreases self.devs@.len() - k,
        {
            assert(self@[k as int] == self.devs@[k as int]@);
            if same_bytes(self.devs[k].name.as_slice(), name) {
                return Some(k);
            }
            k += 1;
        }
        None
    }

    /// Claim a device; false where it is claimed already or there is none.
    pub fn mark_claimed(&mut self, idx: usize) -> (r: bool)
        ensures
            r == (idx < old(self)@.len() && !old(self)@[idx as int].claimed),
            final(self)@ == if idx < old(self)@.len() {
                claimed(old(self)@, idx as int)
            } else {
                old(self)@
            },
    {
        if idx < self.devs.len() {
            assert(self@[idx as int] == self.devs@[idx as int]@);
            let was: bool = self.devs[idx].claimed;
            self.devs[idx].claimed = true;
            assert(self@ =~~= claimed(old(self)@, idx as int));
            !was
        } else {
            false
        }
    }

    /// Where a register of a registered device is read: its configuration
    /// address.
    pub fn registry_cfg_read(&self, idx: usize, offset: u8) -> (r: Option<u32>)
        requires
            registry_ok(self@),
        ensures
            r == if idx < self@.len() {
                Some(address_of(self@[idx as int].bus, self@[idx as int].dev, 0, offset) as u32)
            } else {
                None
            },
    {
        match self.registry_get(idx) {
            Some(d) => Some(config_addr(d.bus, d.dev, 0, offset)),
            None => None,
        }
    }
}

/// Every registered device is in a slot of its bus.
pub open spec fn registry_ok(devs: Seq<DeviceView>) -> bool {
    forall|i: int| 0 <= i < devs.len() ==> (#[trigger] devs[i]).dev < SLOTS && devs[i].bars.len() == 6
}

/// The first device from `k` on with a name, or the length.
pub open spec fn named(devs: Seq<DeviceView>, name: Seq<u8>, k: int) -> int
    decreases devs.len() - k,
{
    if k >= devs.len() {
        devs.len() as int
    } else if devs[k].name == name {
        k
    } else {
        named(devs, name, k + 1)
    }
}

/// The devices with one of them claimed.
pub open spec fn claimed(devs: Seq<DeviceView>, i: int) -> Seq<DeviceView> {
    devs.update(i, DeviceView { claimed: true, ..devs[i] })
}

// ── Laws ─────────────────────────────────────────────────────────────────────

/// Whatever a scan finds, the registry holds no more than its limit, only
/// devices that the kernel leaves to userspace, and none that is claimed.
pub proof fn law_registry_is_limited(
    bus: Seq<SlotHeader>,
    probes: Seq<Seq<BarProbe>>,
)
    requires
        bus.len() <= SLOTS,
    ensures
        ({
            let devs = registered(bus, probes, seq![], 0);
            &&& devs.len() <= MAX_REGISTERED_DEVICES
            &&& registry_ok(devs)
            &&& forall|i: int|
                0 <= i < devs.len() ==> !(#[trigger] devs[i]).claimed && allowed_name(
                    devs[i].vendor,
                    devs[i].device,
                ) == Some(devs[i].name)
        }),
{
    lemma_registered(bus, probes, seq![], 0);
}

spec fn fresh(devs: Seq<DeviceView>) -> bool {
    forall|i: int|
        0 <= i < devs.len() ==> !(#[trigger] devs[i]).claimed && allowed_name(
            devs[i].vendor,
            devs[i].device,
        ) == Some(devs[i].name)
}

proof fn lemma_registered(
    bus: Seq<SlotHeader>,
    probes: Seq<Seq<BarProbe>>,
    devs: Seq<DeviceView>,
    k: int,
)
    requires
        bus.len() <= SLOTS,
        0 <= k,
        devs.len() <= MAX_REGISTERED_DEVICES,
        registry_ok(devs),
        fresh(devs),
    ensures
        registered(bus, probes, devs, k).len() <= MAX_REGISTERED_DEVICES,
        registry_ok(registered(bus, probes, devs, k)),
        fresh(registered(bus, probes, devs, k)),
    decreases bus.len() - k,
{
    if k < bus.len() && devs.len() < MAX_REGISTERED_DEVICES {
        let h = bus[k];
        let vendor = (h.id % 0x1_0000) as u16;
        let device = (h.id / 0x1_0000) as u16;
        match allowed_name(vendor, device) {
            Some(name) if occupied(h) => {
                let d = DeviceView {
                    name,
                    bus: 0,
                    dev: k as u8,
                    vendor,
                    device,
                    bars: bars_of(probes[k]),
                    irq_line: (h.irq_info % 0x100) as u8,
                    claimed: false,
                };
                lemma_bars_len(probes[k], Seq::new(6, |i: int| empty_bar()), 0);
                lemma_registered(bus, probes, devs.push(d), k + 1);
            },
            _ => {
                lemma_registered(bus, probes, devs, k + 1);
            },
        }
    }
}

proof fn lemma_bars_len(probes: Seq<BarProbe>, bars: Seq<DeviceBar>, i: int)
    requires
        bars.len() == 6,
    ensures
        bars_from(probes, bars, i).len() == 6,
    decreases 7 - i,
{
    if 0 <= i < 6 {
        lemma_bars_len(
            probes,
            bars.update(i, bar_of(probes[i], probes[i + 1])),
            i + if is_wide(probes[i]) {
                2int
            } else {
                1int
            },
        );
    }
}

/// A device is claimed once: a claim that succeeds leaves it claimed, so the
/// next one fails, and no other device changes.
pub proof fn law_a_device_is_claimed_once(devs: Seq<DeviceView>, i: int)
    requires
        0 <= i < devs.len(),
    ensures
        claimed(devs, i)[i].claimed,
        claimed(devs, i)[i].name == devs[i].name,
        forall|j: int| 0 <= j < devs.len() && j != i ==> claimed(devs, i)[j] == devs[j],
{
}

} // verus!
