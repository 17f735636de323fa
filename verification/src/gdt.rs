//! The segment descriptors.

use vstd::prelude::*;

verus! {

pub const KERNEL_CODE_SEL: u16 = 0x08;

pub const KERNEL_DATA_SEL: u16 = 0x10;

pub const USER_DATA_SEL: u16 = 0x18;

pub const USER_CODE_SEL: u16 = 0x20;

pub const TSS_SEL: u16 = 0x28;

/// The last byte of the task state.
pub const TSS_LIMIT: u32 = 103;

/// The last byte of the table.
pub const GDT_LIMIT: u16 = 55;

/// The low half of the descriptor of a task state: the limit and the base in
/// pieces, around the type of an available 64-bit task state.
pub open spec fn tss_low(base: u64, limit: u32) -> int {
    limit as int % 0x1_0000 + base as int % 0x100_0000 * 0x1_0000 + 0x89 * 0x100_0000_0000 + limit
        as int / 0x1_0000 % 0x10 * 0x1_0000_0000_0000 + base as int / 0x100_0000 % 0x100
        * 0x100_0000_0000_0000
}

/// The high half: the upper part of the base.
pub open spec fn tss_high(base: u64) -> int {
    base as int / 0x1_0000_0000
}

/// The descriptor of a task state.
pub fn encode_tss_descriptor(base: u64, limit: u32) -> (r: (u64, u64))
    ensures
        r.0 == tss_low(base, limit),
        r.1 == tss_high(base),
{
    let low: u64 = limit as u64 % 0x1_0000 + base % 0x100_0000 * 0x1_0000 + 0x89 * 0x100_0000_0000
        + limit as u64 / 0x1_0000 % 0x10 * 0x1_0000_0000_0000 + base / 0x100_0000 % 0x100
        * 0x100_0000_0000_0000;
    (low, base / 0x1_0000_0000)
}

/// The table: nothing, kernel code and data, user data and code, and the task
/// state at `tss_base`.
pub fn init(tss_base: u64) -> (t: [u64; 7])
    ensures
        t@ == seq![
            0u64,
            0x00AF_9A00_0000_FFFF,
            0x00CF_9200_0000_FFFF,
            0x00CF_F200_0000_FFFF,
            0x00AF_FA00_0000_FFFF,
            tss_low(tss_base, TSS_LIMIT) as u64,
            tss_high(tss_base) as u64,
        ],
{
    let (lo, hi): (u64, u64) = encode_tss_descriptor(tss_base, TSS_LIMIT);
    let t: [u64; 7] = [
        0,
        0x00AF_9A00_0000_FFFF,
        0x00CF_9200_0000_FFFF,
        0x00CF_F200_0000_FFFF,
        0x00AF_FA00_0000_FFFF,
        lo,
        hi,
    ];
    assert(t@ =~= seq![
        0u64,
        0x00AF_9A00_0000_FFFF,
        0x00CF_9200_0000_FFFF,
        0x00CF_F200_0000_FFFF,
        0x00AF_FA00_0000_FFFF,
        tss_low(tss_base, TSS_LIMIT) as u64,
        tss_high(tss_base) as u64,
    ]);
    t
}

/// The base comes back from a descriptor whole.
pub proof fn law_tss_base_is_kept(base: u64, limit: u32)
    ensures
        ({
            let low = tss_low(base, limit);
            tss_high(base) * 0x1_0000_0000 + low / 0x100_0000_0000_0000 * 0x100_0000 + low
                / 0x1_0000 % 0x100_0000 == base
        }),
{
}

/// Returning to user mode from the base that the entry register names leads to
/// the user's segments.
pub proof fn law_return_selectors()
    ensures
        KERNEL_DATA_SEL + 16 == USER_CODE_SEL,
        KERNEL_DATA_SEL + 8 == USER_DATA_SEL,
{
}

} // verus!
