//! Around the derivation of a volume's key: its scratch memory, the passphrase
//! prompt, and fresh keys.

use vstd::prelude::*;
use crate::bytes::{le64, push_u64};
use crate::pmm::{
    first_run, lemma_run_of, run_free, run_of, with_run, Frames, PhysAddr, Used, FRAME_SIZE,
    MAX_FRAMES,
};
use crate::vfs::IDENTITY_MAP_LIMIT;

verus! {

/// Bytes of a block of the derivation.
pub const ARGON2_BLOCK_BYTES: u64 = 1024;

/// Attempts at the hardware generator.
pub const MAX_TRIES: usize = 10;

// ── Scratch memory ───────────────────────────────────────────────────────────

/// Memory for a derivation: contiguous frames that the kernel reaches directly.
/// It is wiped before its frames go back.
#[derive(Debug, PartialEq, Eq, Structural)]
pub struct Argon2Scratch {
    pub base: u64,
    pub nframes: usize,
    /// Blocks that the derivation may use.
    pub blocks: usize,
}

/// Frames for so many blocks.
pub open spec fn frames_for(blocks: usize) -> int {
    (blocks * ARGON2_BLOCK_BYTES + FRAME_SIZE - 1) / FRAME_SIZE as int
}

/// Where the scratch memory for so many blocks is taken: the lowest run that is
/// free, where the kernel reaches all of it.
pub open spec fn scratch_at(used: Used, blocks: usize) -> Option<int> {
    match run_of(used, frames_for(blocks), 0) {
        Some(s) if blocks > 0 && (s + frames_for(blocks)) * FRAME_SIZE <= IDENTITY_MAP_LIMIT => Some(
            s,
        ),
        _ => None,
    }
}

impl Argon2Scratch {
    /// Take scratch memory for so many blocks; `None`, with nothing taken, where
    /// there is no such run of frames.
    pub fn reserve(frames: &mut Frames, blocks: usize) -> (r: Option<Argon2Scratch>)
        requires
            old(frames).wf(),
        ensures
            final(frames).wf(),
            match scratch_at(old(frames)@, blocks) {
                Some(s) => r == Some(
                    Argon2Scratch {
                        base: (s * FRAME_SIZE) as u64,
                        nframes: frames_for(blocks) as usize,
                        blocks,
                    },
                ) && final(frames)@ == with_run(
                    old(frames)@,
                    s,
                    s + frames_for(blocks),
                    true,
                ),
                None => r is None && final(frames)@ == old(frames)@,
            },
    {
        let ghost used = frames@;
        proof {
            frames.lemma_len();
        }
        let n: u128 = (blocks as u128 * ARGON2_BLOCK_BYTES as u128 + 4095) / 4096;
        assert(n == frames_for(blocks));
        proof {
            lemma_run_of(used, n as int, 0);
        }
        if n > MAX_FRAMES as u128 {
            assert(run_of(used, n as int, 0) is None);
            return None;
        }
        let nframes: usize = n as usize;
        match frames.alloc_frames_contiguous(nframes) {
            None => {
                proof {
                    let r = run_of(used, n as int, 0);
                    if r is Some && blocks > 0 {
                        assert(run_free(used, r->0, r->0 + n));
                    }
                }
                None
            },
            Some(p) => {
                let ghost s = p.0 as int / FRAME_SIZE as int;
                assert(first_run(used, n as int, s));
                assert(s * FRAME_SIZE == p.0);
                let end: u64 = p.0 + nframes as u64 * FRAME_SIZE;
                if end > IDENTITY_MAP_LIMIT {
                    frames.free_frames_contiguous(p, nframes);
                    assert(frames@ =~= used);
                    return None;
                }
                Some(Argon2Scratch { base: p.0, nframes, blocks })
            },
        }
    }

    /// Give the frames back, once they are wiped.
    pub fn release(self, frames: &mut Frames)
        requires
            old(frames).wf(),
            self.base % FRAME_SIZE == 0,
            self.base / FRAME_SIZE + self.nframes <= MAX_FRAMES,
            forall|i: int|
                self.base / FRAME_SIZE <= i < self.base / FRAME_SIZE + self.nframes
                    ==> #[trigger] old(frames)@[i],
        ensures
            final(frames).wf(),
            final(frames)@ == with_run(
                old(frames)@,
                self.base as int / FRAME_SIZE as int,
                self.base as int / FRAME_SIZE as int + self.nframes,
                false,
            ),
    {
        frames.free_frames_contiguous(PhysAddr(self.base), self.nframes);
    }
}

/// Scratch memory that is given back leaves no trace.
pub proof fn law_scratch_is_given_back(used: Used, blocks: usize)
    requires
        scratch_at(used, blocks) is Some,
    ensures
        ({
            let s = scratch_at(used, blocks)->0;
            let n = frames_for(blocks);
            with_run(with_run(used, s, s + n, true), s, s + n, false) == used
        }),
{
    let s = scratch_at(used, blocks)->0;
    let n = frames_for(blocks);
    lemma_run_of(used, n, 0);
    assert(run_free(used, s, s + n));
    assert(with_run(with_run(used, s, s + n, true), s, s + n, false) =~= used);
}

// ── Passphrase ───────────────────────────────────────────────────────────────

/// What the prompt shows for a typed byte.
#[derive(Clone, Copy, Debug, PartialEq, Eq, Structural)]
pub enum Echo {
    /// End the line: the passphrase is complete.
    Done,
    /// Rub out the last mask.
    Erase,
    /// Show a mask.
    Mask,
    Nothing,
}

/// A passphrase that is being typed, after one more byte: the line end completes
/// it, backspace takes the last byte away, and escape is passed over.
pub open spec fn typed_on(buf: Seq<u8>, b: u8) -> (Seq<u8>, Echo) {
    if b == 0x0A || b == 0x0D {
        (buf, Echo::Done)
    } else if b == 0x08 || b == 0x7F {
        if buf.len() > 0 {
            (buf.drop_last(), Echo::Erase)
        } else {
            (buf, Echo::Nothing)
        }
    } else if b == 0x1B {
        (buf, Echo::Nothing)
    } else {
        (buf.push(b), Echo::Mask)
    }
}

/// Take a typed byte into a passphrase.
pub fn read_passphrase(buf: &mut Vec<u8>, b: u8) -> (e: Echo)
    ensures
        (final(buf)@, e) == typed_on(old(buf)@, b),
{
    if b == 0x0A || b == 0x0D {
        Echo::Done
    } else if b == 0x08 || b == 0x7F {
        match buf.pop() {
            Some(_) => {
                assert(buf@ =~= old(buf)@.drop_last());
                Echo::Erase
            },
            None => Echo::Nothing,
        }
    } else if b == 0x1B {
        Echo::Nothing
    } else {
        buf.push(b);
        Echo::Mask
    }
}

/// The prompt never shows what was typed, and shows one mask for each byte of
/// the passphrase: it grows by one with a mask and shrinks by one with a
/// rub-out.
pub proof fn law_masks_count_the_passphrase(buf: Seq<u8>, b: u8)
    ensures
        ({
            let (after, e) = typed_on(buf, b);
            after.len() == buf.len() + match e {
                Echo::Mask => 1int,
                Echo::Erase => -1,
                _ => 0,
            }
        }),
{
}

// ── Keys ─────────────────────────────────────────────────────────────────────

/// The processor has the hardware generator, by its feature word.
pub fn rdrand_supported(ecx: u32) -> (r: bool)
    ensures
        r == (ecx / 0x4000_0000 % 2 == 1),
{
    ecx / 0x4000_0000 % 2 == 1
}

/// The first of the attempts from `k` on that gave a value.
pub open spec fn first_drawn(tries: Seq<Option<u64>>, k: int) -> Option<u64>
    decreases tries.len() - k,
{
    if k >= tries.len() || k >= MAX_TRIES {
        None
    } else if tries[k] is Some {
        tries[k]
    } else {
        first_drawn(tries, k + 1)
    }
}

/// What the hardware generator gives in so many attempts, where there is one.
pub open spec fn drawn(ecx: u32, tries: Seq<Option<u64>>) -> Option<u64> {
    if ecx / 0x4000_0000 % 2 == 1 {
        first_drawn(tries, 0)
    } else {
        None
    }
}

/// One value of the hardware generator out of a few attempts; `None` where the
/// processor has none, or it failed every time.
pub fn rdrand64(ecx: u32, tries: &[Option<u64>]) -> (r: Option<u64>)
    ensures
        r == drawn(ecx, tries@),
{
    if !rdrand_supported(ecx) {
        return None;
    }
    let mut k: usize = 0;
    while k < tries.len() && k < MAX_TRIES
        invariant
            k <= tries@.len(),
            ecx / 0x4000_0000 % 2 == 1,
            drawn(ecx, tries@) == first_drawn(tries@, k as int),
        decreases tries@.len() - k,
    {
        if tries[k].is_some() {
            return tries[k];
        }
        k += 1;
    }
    None
}

/// A key from four draws of the hardware generator; `None` where one failed.
pub fn rand_key(draws: &[Option<u64>; 4]) -> (r: Option<Vec<u8>>)
    ensures
        match (draws@[0], draws@[1], draws@[2], draws@[3]) {
            (Some(a), Some(b), Some(c), Some(d)) => r matches Some(k) && k@ == le64(a) + le64(b)
                + le64(c) + le64(d) && k@.len() == 32,
            _ => r is None,
        },
{
    match (draws[0], draws[1], draws[2], draws[3]) {
        (Some(a), Some(b), Some(c), Some(d)) => {
            let mut k: Vec<u8> = Vec::new();
            push_u64(&mut k, a);
            push_u64(&mut k, b);
            push_u64(&mut k, c);
            push_u64(&mut k, d);
            assert(k@ =~= le64(a) + le64(b) + le64(c) + le64(d));
            Some(k)
        },
        _ => None,
    }
}

} // verus!
