//! The machine's devices: what is written to them and what is read out of them.

use lythos::acpi::MadtInfo;
use lythos::apic;
use lythos::apic::{eoi, lapic_id, pit_count, read_apic_base, Apic};
use lythos::boot::{build_boot_info, grant_init_caps, kernel_phys_end, physical, task_states};
use lythos::cap::{CapKind, CapRights};
use lythos::exceptions::{exception_handler, page_fault_info, ExceptionFrame, Verdict};
use lythos::framebuffer;
use lythos::framebuffer::{init_bochs_vbe, vbe_mode, Framebuffer, Rect};
use lythos::gdt;
use lythos::idt::{remap_and_mask_pic, Idt, IdtEntry};
use lythos::ioapic;
use lythos::ioapic::{map_irq, mask_irq, redir_lo_reg, unmask_irq, IoApic};
use lythos::kaslr;
use lythos::kdf::{rand_key, rdrand64, read_passphrase, Argon2Scratch, Echo};
use lythos::kernel::Kernel;
use lythos::keyboard;
use lythos::pci::Registry;
use lythos::pmm::Frames;
use lythos::serial::{can_transmit, data_ready, SerialPort, COM1};
use lythos::smp::{ap_count, startup_commands, Cpus, MAX_APS};
use lythos::task::{Scheduler, TaskState};
use lythos::time;
use lythos::time::{
    bcd_to_bin, choose_snapshot, days_from_civil, decode_snapshot, epoch_ms, RtcSnapshot,
};

fn put32(m: &mut [u8], at: usize, x: u32) {
    m[at..at + 4].copy_from_slice(&x.to_le_bytes());
}

/// Root pointer at 0x100, root table at 0x200, interrupt table at 0x300.
fn tables() -> Vec<u8> {
    let mut m = vec![0u8; 0x500];
    m[0x100..0x108].copy_from_slice(b"RSD PTR ");
    put32(&mut m, 0x110, 0x200);
    let sum: u32 = m[0x100..0x114].iter().map(|b| *b as u32).sum();
    m[0x108] = (256 - sum % 256) as u8;
    m[0x200..0x204].copy_from_slice(b"RSDT");
    put32(&mut m, 0x204, 36 + 8);
    put32(&mut m, 0x224, 0x400);
    put32(&mut m, 0x228, 0x300);
    m[0x300..0x304].copy_from_slice(b"APIC");
    put32(&mut m, 0x304, 44 + 12 + 10);
    put32(&mut m, 0x324, 0xFEE0_0000);
    m[0x32C] = 1;
    m[0x32D] = 12;
    put32(&mut m, 0x330, 0xFEC0_1000);
    m[0x338] = 2;
    m[0x339] = 10;
    m[0x33B] = 1;
    put32(&mut m, 0x33C, 9);
    m[0x340] = 0x0F;
    m
}

#[test]
fn interrupt_controllers_are_found_in_the_tables() {
    let mut info = MadtInfo::new();
    assert_eq!(info.lapic_phys(), None);
    assert_eq!(info.ioapic_info(), None);
    assert_eq!(info.isa_irq_route(1), (1, 0));
    assert!(!info.isa_irq_overridden(1));
    assert!(info.init(&tables(), 0x100));
    assert_eq!(info.lapic_phys(), Some(0xFEE0_0000));
    assert_eq!(info.ioapic_info(), Some((0xFEC0_1000, 0)));
    assert_eq!(info.isa_irq_route(1), (9, ioapic::IRQ_LEVEL | ioapic::IRQ_ACTIVE_LO));
    assert!(info.isa_irq_overridden(1));
    assert_eq!(info.isa_irq_route(4), (4, 0));
    let mut bad = tables();
    bad[0x109] = 1;
    let mut none = MadtInfo::new();
    assert!(!none.init(&bad, 0x100));
    assert!(!none.init(&tables(), 0));
    assert_eq!(keyboard::init(None, &info), None);
    assert_eq!(
        keyboard::init(Some(0x60), &info),
        Some((0x21, (9, ioapic::IRQ_LEVEL | ioapic::IRQ_ACTIVE_LO)))
    );
}

#[test]
fn the_local_controller_is_set_up() {
    assert_eq!(read_apic_base(0xFEE0_0900), 0xFEE0_0000);
    assert_eq!(pit_count(10), 11930);
    let mut a = Apic::off();
    assert_eq!(a.send_tlb_shootdown_ipi(), None);
    let w = a.init(0x1000, 0xFFFF_FFFF - 1_000_000);
    assert_eq!(w, [(apic::REG_TDCR, 3), (apic::REG_TICR, 100_000), (apic::REG_TIMER, 0x2_0020)]);
    assert_eq!(a.mmio_va(), apic::APIC_VIRT_NOMINAL + 0x1000);
    assert_eq!(a.ap_apic_init()[2], (apic::REG_TICR, 100_000));
    assert_eq!(a.send_tlb_shootdown_ipi(), Some(0xC_4021));
    assert_eq!(eoi(), (apic::REG_EOI, 0));
    assert_eq!(lapic_id(0x0500_0000), 5);
    let mut slow = Apic::off();
    assert_eq!(slow.init(0, u32::MAX)[1], (apic::REG_TICR, 1));
}

#[test]
fn a_tick_wakes_sleepers() {
    let mut a = Apic::off();
    let mut s = Scheduler::new();
    s.spawn_kernel_task(0xFFFF_C000_0000_0000, 0);
    s.sleep_until(1);
    assert_eq!(s.tasks[0].state, TaskState::Blocked);
    a.timer_interrupt_handler(&mut s);
    assert_eq!(a.ticks(), 1);
    assert_eq!(s.tasks[0].state, TaskState::Ready);
}

#[test]
fn interrupts_are_redirected() {
    assert_eq!(redir_lo_reg(0), 0x10);
    assert_eq!(redir_lo_reg(3), 0x16);
    let mut io = IoApic::new();
    assert_eq!(io.entry_count(), 0);
    io.set_phys_base(0xFEC0_2000);
    assert_eq!(io.phys, 0xFEC0_2000);
    let v = io.init(0x0017_0011);
    assert_eq!(v.len(), 24);
    assert_eq!(io.entry_count(), 24);
    assert!(v.iter().all(|r| r.lo == ioapic::IRQ_MASKED && r.hi == 0));
    assert_eq!(v[23].lo_reg, 0x10 + 46);
    let r = map_irq(1, 36, ioapic::IRQ_LEVEL | ioapic::IRQ_MASKED);
    assert_eq!((r.lo_reg, r.lo, r.hi_reg, r.hi), (0x12, 0x8024, 0x13, 0));
    assert_eq!(mask_irq(0x8024), 0x1_8024);
    assert_eq!(unmask_irq(mask_irq(0x8024)), 0x8024);
}

#[test]
fn descriptors_are_encoded() {
    let (lo, hi) = gdt::encode_tss_descriptor(0x1234_5678_9ABC_DEF0, 0x67);
    assert_eq!(lo, 0x9A00_89BC_DEF0_0067);
    assert_eq!(hi, 0x1234_5678);
    let t = gdt::init(0x1000);
    assert_eq!(t[0], 0);
    assert_eq!(t[1], 0x00AF_9A00_0000_FFFF);
    assert_eq!(t[4], 0x00AF_FA00_0000_FFFF);
    assert_eq!(t[5], 0x0000_8900_1000_0067);
    assert_eq!(t[6], 0);
    let e = IdtEntry::interrupt(0xFFFF_8000_1234_5678);
    assert_eq!((e.offset_low, e.offset_mid, e.offset_high), (0x5678, 0x1234, 0xFFFF_8000));
    assert_eq!((e.selector, e.ist, e.type_attr), (8, 0, 0x8E));
    let mut idt = Idt::init(&[0x1000; 32]);
    assert_eq!(idt.entry(14), IdtEntry::interrupt(0x1000));
    assert_eq!(idt.entry(36), IdtEntry::absent());
    idt.register_irq(36, 0x2000);
    assert_eq!(idt.entry(36), IdtEntry::interrupt(0x2000));
    assert_eq!(remap_and_mask_pic().len(), 10);
    assert_eq!(remap_and_mask_pic()[2], (0x21, 0x20));
}

fn fault(vector: u64, error_code: u64, cs: u64) -> ExceptionFrame {
    ExceptionFrame {
        r15: 0,
        r14: 0,
        r13: 0,
        r12: 0,
        r11: 0,
        r10: 0,
        r9: 0,
        r8: 0,
        rbp: 0,
        rdi: 0,
        rsi: 0,
        rdx: 0,
        rcx: 0,
        rbx: 0,
        rax: 0,
        vector,
        error_code,
        rip: 0,
        cs,
        rflags: 0,
    }
}

#[test]
fn faults_end_the_task_or_the_machine() {
    let i = page_fault_info(6);
    assert_eq!((i.protection, i.write, i.user), (false, true, true));
    let (v, info) = exception_handler(&fault(14, 1, 0x23));
    assert_eq!(v, Verdict::KillTask);
    assert!(info.unwrap().protection);
    let (v, info) = exception_handler(&fault(13, 1, 8));
    assert_eq!(v, Verdict::Halt);
    assert!(info.is_none());
}

#[test]
fn the_serial_port_is_set_up() {
    let p = SerialPort::new(COM1);
    assert_eq!(
        p.init(),
        vec![
            (0x3F9, 0),
            (0x3FB, 0x80),
            (0x3F8, 1),
            (0x3F9, 0),
            (0x3FB, 3),
            (0x3FA, 0xC7),
            (0x3FC, 0x0B)
        ]
    );
    assert!(data_ready(0x61) && !data_ready(0x60));
    assert!(can_transmit(0x20) && !can_transmit(0x1F));
}

#[test]
fn the_screen_clips() {
    let mut f = Framebuffer::none();
    assert!(!f.is_active());
    assert_eq!(f.raw(), None);
    assert_eq!(f.init_from_limine(0, 0, 0, 0, 0, None), None);
    assert_eq!(f.init_from_limine(0x1000, 400, 100, 50, 24, None), None);
    assert_eq!(f.init_from_limine(0xE000_0000, 400, 100, 50, 32, None), Some((0xE000_0000, 5)));
    assert!(f.is_active());
    assert_eq!(f.raw(), Some((framebuffer::FB_VA_BASE, 400, 100, 50)));
    assert_eq!(f.dimensions(), (100, 50));
    assert_eq!((f.width(), f.height()), (100, 50));
    assert_eq!(f.put_pixel(3, 2, 0xFF12_3456), Some((812, 0x12_3456)));
    assert_eq!(f.put_pixel(100, 2, 0), None);
    assert_eq!(
        f.fill_rect(90, 40, 50, u32::MAX, 7),
        Some(Rect { x1: 90, y1: 40, x2: 100, y2: 50, color: 7 })
    );
    assert_eq!(f.fill_rect(100, 0, 1, 1, 7), None);
    assert_eq!(f.clear(1), Some(Rect { x1: 0, y1: 0, x2: 100, y2: 50, color: 1 }));
    let m = init_bochs_vbe(0xFD00_0008).unwrap();
    assert_eq!((m.phys, m.pitch, m.width, m.height, m.bpp), (0xFD00_0000, 4096, 1024, 768, 32));
    assert_eq!(init_bochs_vbe(0xFD01), None);
    assert_eq!(init_bochs_vbe(8), None);
    let mut g = Framebuffer::none();
    assert_eq!(g.init_from_limine(0, 0, 0, 0, 0, Some(m)), Some((0xFD00_0000, 768)));
    assert!(!g.draw_splash().is_empty());
    assert_eq!(vbe_mode()[8], (4, 0x41));
}

fn snapshot(sec: u8) -> RtcSnapshot {
    RtcSnapshot { sec, min: 0x30, hour: 0x12, day: 0x29, mon: 0x02, year: 0x24, century: 0x20 }
}

#[test]
fn the_clock_is_read() {
    assert_eq!(bcd_to_bin(0x59), 59);
    let a = snapshot(1);
    let b = snapshot(2);
    assert_eq!(choose_snapshot(&[(a, b), (b, b)], a), b);
    assert_eq!(choose_snapshot(&[(a, b)], a), a);
    let t = decode_snapshot(snapshot(0x45), 0x02);
    assert_eq!((t.year, t.mon, t.day, t.hour, t.min, t.sec), (2024, 2, 29, 12, 30, 45));
    let afternoon = RtcSnapshot { hour: 0x81, ..snapshot(0) };
    assert_eq!(decode_snapshot(afternoon, 0).hour, 13);
    let midnight = RtcSnapshot { hour: 0x12, ..snapshot(0) };
    assert_eq!(decode_snapshot(midnight, 0).hour, 0);
    let binary = RtcSnapshot { sec: 45, min: 30, hour: 12, day: 29, mon: 2, year: 24, century: 20 };
    assert_eq!(decode_snapshot(binary, 0x06), t);
    assert_eq!(days_from_civil(1970, 1, 1), 0);
    assert_eq!(days_from_civil(2000, 3, 1), 11017);
    assert_eq!(days_from_civil(1969, 12, 31), -1);
    let c = time::init(snapshot(0x45), 0x02, 100);
    assert_eq!(c, time::Clock::Anchored { epoch_ms: 1_709_209_845_000, mono: 100 });
    assert_eq!(epoch_ms(&c, 100), 1_709_209_845_000);
    assert_eq!(epoch_ms(&c, 350), 1_709_209_845_250);
}

#[test]
fn the_offset_is_a_page_below_its_bound() {
    let k = kaslr::init(0x1_2345_6789);
    assert_eq!(kaslr::offset(&k), 0x678_9000);
    assert_eq!(kaslr::get_entropy(0, &[Some(7)], 99), 99);
    assert_eq!(kaslr::get_entropy(1 << 30, &[None, Some(7)], 99), 7);
    assert_eq!(kaslr::get_entropy(1 << 30, &[None; 12], 99), 99);
    assert_eq!(rdrand64(1 << 30, &[None, Some(3), Some(4)]), Some(3));
    assert_eq!(rdrand64(!(1 << 30), &[Some(3)]), None);
}

#[test]
fn the_passphrase_is_masked() {
    let mut b: Vec<u8> = Vec::new();
    assert_eq!(read_passphrase(&mut b, b'a'), Echo::Mask);
    assert_eq!(read_passphrase(&mut b, b'b'), Echo::Mask);
    assert_eq!(read_passphrase(&mut b, 0x7F), Echo::Erase);
    assert_eq!(read_passphrase(&mut b, 0x1B), Echo::Nothing);
    assert_eq!(b, b"a".to_vec());
    assert_eq!(read_passphrase(&mut b, 8), Echo::Erase);
    assert_eq!(read_passphrase(&mut b, 8), Echo::Nothing);
    assert_eq!(read_passphrase(&mut b, b'\r'), Echo::Done);
    assert_eq!(rand_key(&[Some(1), None, Some(3), Some(4)]), None);
    let key = rand_key(&[Some(1), Some(2), Some(3), Some(0x0403_0201)]).unwrap();
    assert_eq!(&key[16..32], &[3, 0, 0, 0, 0, 0, 0, 0, 1, 2, 3, 4, 0, 0, 0, 0]);
}

#[test]
fn scratch_memory_is_given_back() {
    let mut f = Frames::init_from_limine(&[(0x10_0000, 0x1_0000, 0)], 0, 0);
    let before = f.free_frame_count();
    let s = Argon2Scratch::reserve(&mut f, 9).unwrap();
    assert_eq!((s.base, s.nframes, s.blocks), (0x10_0000, 3, 9));
    assert_eq!(f.free_frame_count(), before - 3);
    s.release(&mut f);
    assert_eq!(f.free_frame_count(), before);
    assert!(Argon2Scratch::reserve(&mut f, 0).is_none());
    assert!(Argon2Scratch::reserve(&mut f, 1000).is_none());
    assert_eq!(f.free_frame_count(), before);
    // What the kernel cannot reach directly is not used.
    let mut high = Frames::init_from_limine(&[(0x4000_0000, 0x1_0000, 0)], 0, 0);
    assert!(Argon2Scratch::reserve(&mut high, 1).is_none());
    assert_eq!(high.free_frame_count(), 16);
}

#[test]
fn processors_come_up() {
    assert_eq!(ap_count(0x0001_0000), 0);
    assert_eq!(ap_count(0x0004_0000), 3);
    assert_eq!(ap_count(0x0040_0000), MAX_APS);
    assert_eq!(
        startup_commands(),
        [(0xC_C500, 10), (0xC_8500, 1), (0xC_4608, 1), (0xC_4608, 0)]
    );
    let mut c = Cpus::init(0);
    assert!(c.per_cpu[0].online && !c.per_cpu[1].online);
    assert!(!c.started(0));
    c.ap_entry(1);
    assert!(c.per_cpu[1].online);
    assert!(c.started(0) && !c.started(1));
    c.ap_entry(200);
    assert!(c.started(1));
}

#[test]
fn boot_information_is_handed_over() {
    assert_eq!(physical(0xFFFF_8000_0000_1000, 0xFFFF_8000_0000_0000), 0x1000);
    assert_eq!(physical(0x1000, 0xFFFF_8000_0000_0000), 0x1000);
    assert_eq!(kernel_phys_end(0x10_0000, 5, 0x2005), 0x10_2000);
    assert_eq!(kernel_phys_end(0x10_0000, 5, 4), 0x10_0000);
    let frames = Frames::init_from_limine(&[(0x1000, 0x5000, 0)], 0, 0);
    let clock = time::Clock::Anchored { epoch_ms: 0, mono: 0 };
    let mut k = Kernel::new(frames, Registry::new(), clock, false);
    let b = build_boot_info(&k, 0x756E_6547, 0x4965_6E69, 0x6C65_746E);
    assert_eq!(b.len(), 64);
    assert_eq!(&b[0..8], &0xB007_1000_B007_1000u64.to_le_bytes());
    assert_eq!(&b[8..16], &0x5000u64.to_le_bytes());
    assert_eq!(&b[16..24], &5u64.to_le_bytes());
    assert_eq!(&b[24..36], b"GenuineIntel");
    assert!(b[36..].iter().all(|x| *x == 0));
    let h = grant_init_caps(&mut k, 4);
    assert_eq!(h[0].0, 0);
    assert_eq!(h[3].0, 3);
    let kinds: Vec<CapKind> = h.iter().map(|x| k.current_table().get(*x).unwrap().kind).collect();
    assert_eq!(kinds, vec![CapKind::Memory, CapKind::Rollback, CapKind::Ipc, CapKind::Filesystem]);
    assert!(h.iter().all(|x| k.current_table().get(*x).unwrap().rights.0 == CapRights::ALL));
    assert_eq!(task_states(&k), b"0:1 ".to_vec());
}

#[test]
fn a_clock_that_is_not_set_gives_zero() {
    assert_eq!(epoch_ms(&time::Clock::Unset, 0), 0);
    assert_eq!(epoch_ms(&time::Clock::Unset, 5), 0);
    let c = time::Clock::Anchored { epoch_ms: 1000, mono: 10 };
    assert_eq!(epoch_ms(&c, 5), 1000);
    assert_eq!(epoch_ms(&c, 15), 1005);
}
