//! Fixed-width integers in byte sequences.

use vstd::prelude::*;

verus! {

/// `s` with the bytes from `at` on overwritten by `part`.
pub open spec fn splice(s: Seq<u8>, at: int, part: Seq<u8>) -> Seq<u8> {
    Seq::new(
        s.len(),
        |i: int|
            if at <= i < at + part.len() {
                part[i - at]
            } else {
                s[i]
            },
    )
}

/// `n` zero bytes.
pub open spec fn zeros(n: nat) -> Seq<u8> {
    Seq::new(n, |i: int| 0u8)
}

// ── Little-endian ────────────────────────────────────────────────────────────

pub open spec fn le16_at(s: Seq<u8>, at: int) -> u16 {
    (s[at] + 0x100 * s[at + 1]) as u16
}

pub open spec fn le32_at(s: Seq<u8>, at: int) -> u32 {
    (s[at] + 0x100 * s[at + 1] + 0x1_0000 * s[at + 2] + 0x100_0000 * s[at + 3]) as u32
}

pub open spec fn le64_at(s: Seq<u8>, at: int) -> u64 {
    (le32_at(s, at) + 0x1_0000_0000 * le32_at(s, at + 4)) as u64
}

pub open spec fn le16(x: u16) -> Seq<u8> {
    seq![(x % 0x100) as u8, (x / 0x100) as u8]
}

pub open spec fn le32(x: u32) -> Seq<u8> {
    seq![
        (x % 0x100) as u8,
        (x / 0x100 % 0x100) as u8,
        (x / 0x1_0000 % 0x100) as u8,
        (x / 0x100_0000) as u8,
    ]
}

pub open spec fn le64(x: u64) -> Seq<u8> {
    le32((x % 0x1_0000_0000) as u32) + le32((x / 0x1_0000_0000) as u32)
}

/// Reading back what was written gives the value.
pub proof fn lemma_le16_round(s: Seq<u8>, at: int, x: u16)
    requires
        0 <= at,
        at + 2 <= s.len(),
        s.subrange(at, at + 2) == le16(x),
    ensures
        le16_at(s, at) == x,
{
    let t = s.subrange(at, at + 2);
    assert(s[at] == t[0] && s[at + 1] == t[1]);
}

/// Reading back what was written gives the value.
pub proof fn lemma_le32_round(s: Seq<u8>, at: int, x: u32)
    requires
        0 <= at,
        at + 4 <= s.len(),
        s.subrange(at, at + 4) == le32(x),
    ensures
        le32_at(s, at) == x,
{
    let t = s.subrange(at, at + 4);
    assert(s[at] == t[0] && s[at + 1] == t[1] && s[at + 2] == t[2] && s[at + 3] == t[3]);
}

/// Reading back what was written gives the value.
pub proof fn lemma_le64_round(s: Seq<u8>, at: int, x: u64)
    requires
        0 <= at,
        at + 8 <= s.len(),
        s.subrange(at, at + 8) == le64(x),
    ensures
        le64_at(s, at) == x,
{
    let t = s.subrange(at, at + 8);
    assert(s.subrange(at, at + 4) =~= t.subrange(0, 4));
    assert(s.subrange(at + 4, at + 8) =~= t.subrange(4, 8));
    assert(t.subrange(0, 4) =~= le32((x % 0x1_0000_0000) as u32));
    assert(t.subrange(4, 8) =~= le32((x / 0x1_0000_0000) as u32));
    lemma_le32_round(s, at, (x % 0x1_0000_0000) as u32);
    lemma_le32_round(s, at + 4, (x / 0x1_0000_0000) as u32);
}

pub fn get_u16(b: &[u8], o: usize) -> (x: u16)
    requires
        o + 2 <= b.len(),
    ensures
        x == le16_at(b@, o as int),
{
    b[o] as u16 + 0x100 * (b[o + 1] as u16)
}

pub fn get_u32(b: &[u8], o: usize) -> (x: u32)
    requires
        o + 4 <= b.len(),
    ensures
        x == le32_at(b@, o as int),
{
    b[o] as u32 + 0x100 * (b[o + 1] as u32) + 0x1_0000 * (b[o + 2] as u32) + 0x100_0000 * (b[o
        + 3] as u32)
}

pub fn get_u64(b: &[u8], o: usize) -> (x: u64)
    requires
        o + 8 <= b.len(),
    ensures
        x == le64_at(b@, o as int),
{
    get_u32(b, o) as u64 + 0x1_0000_0000 * (get_u32(b, o + 4) as u64)
}

pub fn put_u16(b: &mut Vec<u8>, o: usize, x: u16)
    requires
        o + 2 <= old(b).len(),
    ensures
        final(b)@ == splice(old(b)@, o as int, le16(x)),
{
    b[o] = (x % 0x100) as u8;
    b[o + 1] = (x / 0x100) as u8;
    assert(b@ =~= splice(old(b)@, o as int, le16(x)));
}

pub fn put_u32(b: &mut Vec<u8>, o: usize, x: u32)
    requires
        o + 4 <= old(b).len(),
    ensures
        final(b)@ == splice(old(b)@, o as int, le32(x)),
{
    b[o] = (x % 0x100) as u8;
    b[o + 1] = (x / 0x100 % 0x100) as u8;
    b[o + 2] = (x / 0x1_0000 % 0x100) as u8;
    b[o + 3] = (x / 0x100_0000) as u8;
    assert(b@ =~= splice(old(b)@, o as int, le32(x)));
}

/// Overwrite `b` from `o` on with `part[from..from + n]`.
pub fn put_bytes(b: &mut Vec<u8>, o: usize, part: &[u8], from: usize, n: usize)
    requires
        o + n <= old(b).len(),
        from + n <= part.len(),
    ensures
        final(b)@ == splice(old(b)@, o as int, part@.subrange(from as int, from + n)),
{
    let mut i: usize = 0;
    while i < n
        invariant
            i <= n,
            o + n <= old(b).len(),
            from + n <= part.len(),
            b@ == splice(old(b)@, o as int, part@.subrange(from as int, from + i)),
        decreases n - i,
    {
        b[o + i] = part[from + i];
        i += 1;
        assert(b@ =~= splice(old(b)@, o as int, part@.subrange(from as int, from + i)));
    }
    assert(b@ =~= splice(old(b)@, o as int, part@.subrange(from as int, from + n)));
}

/// `n` zero bytes.
pub fn zero_bytes(n: usize) -> (v: Vec<u8>)
    ensures
        v@ == zeros(n as nat),
{
    let v: Vec<u8> = vec![0u8; n];
    assert(v@ =~= zeros(n as nat));
    v
}

/// A copy of `b[from..to]`.
pub fn copy_range(b: &[u8], from: usize, to: usize) -> (v: Vec<u8>)
    requires
        from <= to <= b.len(),
    ensures
        v@ == b@.subrange(from as int, to as int),
{
    let mut v: Vec<u8> = Vec::new();
    let mut i: usize = from;
    while i < to
        invariant
            from <= i <= to <= b.len(),
            v@ == b@.subrange(from as int, i as int),
        decreases to - i,
    {
        v.push(b[i]);
        i += 1;
        assert(v@ =~= b@.subrange(from as int, i as int));
    }
    v
}

// ── Appending ────────────────────────────────────────────────────────────────

/// Append a range of bytes.
pub fn push_bytes(v: &mut Vec<u8>, part: &[u8], from: usize, to: usize)
    requires
        from <= to <= part.len(),
    ensures
        final(v)@ == old(v)@ + part@.subrange(from as int, to as int),
{
    let mut i: usize = from;
    assert(part@.subrange(from as int, from as int) =~= seq![]);
    while i < to
        invariant
            from <= i <= to <= part.len(),
            v@ == old(v)@ + part@.subrange(from as int, i as int),
        decreases to - i,
    {
        v.push(part[i]);
        i += 1;
        assert(v@ =~= old(v)@ + part@.subrange(from as int, i as int));
    }
}

pub fn push_u16(v: &mut Vec<u8>, x: u16)
    ensures
        final(v)@ == old(v)@ + le16(x),
{
    v.push((x % 0x100) as u8);
    v.push((x / 0x100) as u8);
    assert(v@ =~= old(v)@ + le16(x));
}

pub fn push_u32(v: &mut Vec<u8>, x: u32)
    ensures
        final(v)@ == old(v)@ + le32(x),
{
    v.push((x % 0x100) as u8);
    v.push((x / 0x100 % 0x100) as u8);
    v.push((x / 0x1_0000 % 0x100) as u8);
    v.push((x / 0x100_0000) as u8);
    assert(v@ =~= old(v)@ + le32(x));
}

pub fn push_u64(v: &mut Vec<u8>, x: u64)
    ensures
        final(v)@ == old(v)@ + le64(x),
{
    push_u32(v, (x % 0x1_0000_0000) as u32);
    push_u32(v, (x / 0x1_0000_0000) as u32);
    assert(v@ =~= old(v)@ + le64(x));
}

// ── Big-endian ───────────────────────────────────────────────────────────────

pub open spec fn be16_at(s: Seq<u8>, at: int) -> u16 {
    (0x100 * s[at] + s[at + 1]) as u16
}

pub open spec fn be32_at(s: Seq<u8>, at: int) -> u32 {
    (0x1_0000 * be16_at(s, at) + be16_at(s, at + 2)) as u32
}

pub open spec fn be16(x: u16) -> Seq<u8> {
    seq![(x / 0x100) as u8, (x % 0x100) as u8]
}

pub open spec fn be32(x: u32) -> Seq<u8> {
    be16((x / 0x1_0000) as u16) + be16((x % 0x1_0000) as u16)
}

pub fn get_be16(b: &[u8], o: usize) -> (x: u16)
    requires
        o + 2 <= b.len(),
    ensures
        x == be16_at(b@, o as int),
{
    b[o] as u16 * 0x100 + b[o + 1] as u16
}

pub fn get_be32(b: &[u8], o: usize) -> (x: u32)
    requires
        o + 4 <= b.len(),
    ensures
        x == be32_at(b@, o as int),
{
    get_be16(b, o) as u32 * 0x1_0000 + get_be16(b, o + 2) as u32
}

pub fn push_be16(v: &mut Vec<u8>, x: u16)
    ensures
        final(v)@ == old(v)@ + be16(x),
{
    v.push((x / 0x100) as u8);
    v.push((x % 0x100) as u8);
    assert(v@ =~= old(v)@ + be16(x));
}

pub fn push_be32(v: &mut Vec<u8>, x: u32)
    ensures
        final(v)@ == old(v)@ + be32(x),
{
    push_be16(v, (x / 0x1_0000) as u16);
    push_be16(v, (x % 0x1_0000) as u16);
    assert(v@ =~= old(v)@ + be32(x));
}

/// Overwrite a slice from `o` on.
pub fn copy_into(b: &mut [u8], o: usize, part: &[u8])
    requires
        o + part.len() <= old(b).len(),
    ensures
        final(b)@ == splice(old(b)@, o as int, part@),
{
    let mut i: usize = 0;
    assert(b@ =~= splice(old(b)@, o as int, part@.take(0)));
    while i < part.len()
        invariant
            i <= part@.len(),
            b@.len() == old(b)@.len(),
            o + part.len() <= old(b).len(),
            b@ == splice(old(b)@, o as int, part@.take(i as int)),
        decreases part@.len() - i,
    {
        b[o + i] = part[i];
        i += 1;
        assert(b@ =~= splice(old(b)@, o as int, part@.take(i as int)));
    }
    assert(part@.take(i as int) =~= part@);
}

/// Reading back what was written gives the value.
pub proof fn lemma_be16_round(s: Seq<u8>, at: int, x: u16)
    requires
        0 <= at,
        at + 2 <= s.len(),
        s.subrange(at, at + 2) == be16(x),
    ensures
        be16_at(s, at) == x,
{
    let t = s.subrange(at, at + 2);
    assert(s[at] == t[0] && s[at + 1] == t[1]);
}

/// Reading back what was written gives the value.
pub proof fn lemma_be32_round(s: Seq<u8>, at: int, x: u32)
    requires
        0 <= at,
        at + 4 <= s.len(),
        s.subrange(at, at + 4) == be32(x),
    ensures
        be32_at(s, at) == x,
{
    let t = s.subrange(at, at + 4);
    assert(s.subrange(at, at + 2) =~= t.subrange(0, 2));
    assert(s.subrange(at + 2, at + 4) =~= t.subrange(2, 4));
    assert(t.subrange(0, 2) =~= be16((x / 0x1_0000) as u16));
    assert(t.subrange(2, 4) =~= be16((x % 0x1_0000) as u16));
    lemma_be16_round(s, at, (x / 0x1_0000) as u16);
    lemma_be16_round(s, at + 2, (x % 0x1_0000) as u16);
}

} // verus!
