//! Randomised placement of the kernel's dynamic regions: one page-aligned
//! offset below 128 MiB, added to the base of each.

use vstd::prelude::*;
use crate::kdf::{drawn, rdrand64};

verus! {

/// Positions that the offset may take.
pub const POSITIONS: u64 = 0x8000;

/// The offset that was chosen at boot.
#[derive(Clone, Copy, Debug, PartialEq, Eq, Structural)]
pub struct Kaslr {
    pub offset: u64,
}

/// The entropy to use: a value of the hardware generator, where it gives one,
/// else the time-stamp counter.
pub fn get_entropy(ecx: u32, tries: &[Option<u64>], tsc: u64) -> (e: u64)
    ensures
        e == match drawn(ecx, tries@) {
            Some(v) => v,
            None => tsc,
        },
{
    match rdrand64(ecx, tries) {
        Some(v) => v,
        None => tsc,
    }
}

/// Choose the offset.
pub fn init(entropy: u64) -> (k: Kaslr)
    ensures
        k.offset == entropy as int % POSITIONS as int * 0x1000,
        k.offset % 0x1000 == 0,
        k.offset < 0x800_0000,
{
    Kaslr { offset: entropy % POSITIONS * 0x1000 }
}

/// The offset: page-aligned, below 128 MiB.
pub fn offset(k: &Kaslr) -> (o: u64)
    ensures
        o == k.offset,
{
    k.offset
}

} // verus!
