//! The keyboard: scan code set 2 to ASCII, and the buffer of typed bytes.

use vstd::prelude::*;
use crate::acpi::MadtInfo;

verus! {

/// The interrupt vector of the keyboard.
pub const VECTOR_KBD: u8 = 36;

/// Status bit: a byte waits in the controller.
pub const STATUS_OBF: u8 = 1;

/// Status bit: the controller is not ready for a byte.
pub const STATUS_IBF: u8 = 2;

/// Status bit: the byte that waits comes from the mouse port.
pub const STATUS_AUX: u8 = 0x20;

/// Configuration bit: port 1 raises interrupts.
pub const CFG_P1_IRQ: u8 = 1;

/// Configuration bit: the controller translates scan codes.
pub const CFG_P1_XLAT: u8 = 0x40;

/// Slots of the buffer; one of them always stays empty.
pub const BUF_CAP: usize = 256;

// ── Scan codes ───────────────────────────────────────────────────────────────

/// The character of a key without shift; 0 where it has none.
pub open spec fn plain_key(sc: u8) -> u8 {
    match sc {
        0x0D => 0x09,
        0x0E => 0x60,
        0x15 => 0x71,
        0x16 => 0x31,
        0x1A => 0x7A,
        0x1B => 0x73,
        0x1C => 0x61,
        0x1D => 0x77,
        0x1E => 0x32,
        0x21 => 0x63,
        0x22 => 0x78,
        0x23 => 0x64,
        0x24 => 0x65,
        0x25 => 0x34,
        0x26 => 0x33,
        0x29 => 0x20,
        0x2A => 0x76,
        0x2B => 0x66,
        0x2C => 0x74,
        0x2D => 0x72,
        0x2E => 0x35,
        0x31 => 0x6E,
        0x32 => 0x62,
        0x33 => 0x68,
        0x34 => 0x67,
        0x35 => 0x79,
        0x36 => 0x36,
        0x3A => 0x6D,
        0x3B => 0x6A,
        0x3C => 0x75,
        0x3D => 0x37,
        0x3E => 0x38,
        0x41 => 0x2C,
        0x42 => 0x6B,
        0x43 => 0x69,
        0x44 => 0x6F,
        0x45 => 0x30,
        0x46 => 0x39,
        0x49 => 0x2E,
        0x4A => 0x2F,
        0x4B => 0x6C,
        0x4C => 0x3B,
        0x4D => 0x70,
        0x4E => 0x2D,
        0x52 => 0x27,
        0x54 => 0x5B,
        0x55 => 0x3D,
        0x5A => 0x0D,
        0x5B => 0x5D,
        0x5D => 0x5C,
        0x66 => 0x7F,
        0x76 => 0x1B,
        _ => 0,
    }
}

/// The character of a key with shift; 0 where it has none.
pub open spec fn shift_key(sc: u8) -> u8 {
    match sc {
        0x0D => 0x09,
        0x0E => 0x7E,
        0x15 => 0x51,
        0x16 => 0x21,
        0x1A => 0x5A,
        0x1B => 0x53,
        0x1C => 0x41,
        0x1D => 0x57,
        0x1E => 0x40,
        0x21 => 0x43,
        0x22 => 0x58,
        0x23 => 0x44,
        0x24 => 0x45,
        0x25 => 0x24,
        0x26 => 0x23,
        0x29 => 0x20,
        0x2A => 0x56,
        0x2B => 0x46,
        0x2C => 0x54,
        0x2D => 0x52,
        0x2E => 0x25,
        0x31 => 0x4E,
        0x32 => 0x42,
        0x33 => 0x48,
        0x34 => 0x47,
        0x35 => 0x59,
        0x36 => 0x5E,
        0x3A => 0x4D,
        0x3B => 0x4A,
        0x3C => 0x55,
        0x3D => 0x26,
        0x3E => 0x2A,
        0x41 => 0x3C,
        0x42 => 0x4B,
        0x43 => 0x49,
        0x44 => 0x4F,
        0x45 => 0x29,
        0x46 => 0x28,
        0x49 => 0x3E,
        0x4A => 0x3F,
        0x4B => 0x4C,
        0x4C => 0x3A,
        0x4D => 0x50,
        0x4E => 0x5F,
        0x52 => 0x22,
        0x54 => 0x7B,
        0x55 => 0x2B,
        0x5A => 0x0D,
        0x5B => 0x7D,
        0x5D => 0x7C,
        0x66 => 0x7F,
        0x76 => 0x1B,
        _ => 0,
    }
}

fn plain(sc: u8) -> (ch: u8)
    ensures
        ch == plain_key(sc),
{
    match sc {
        0x0D => 0x09,
        0x0E => 0x60,
        0x15 => 0x71,
        0x16 => 0x31,
        0x1A => 0x7A,
        0x1B => 0x73,
        0x1C => 0x61,
        0x1D => 0x77,
        0x1E => 0x32,
        0x21 => 0x63,
        0x22 => 0x78,
        0x23 => 0x64,
        0x24 => 0x65,
        0x25 => 0x34,
        0x26 => 0x33,
        0x29 => 0x20,
        0x2A => 0x76,
        0x2B => 0x66,
        0x2C => 0x74,
        0x2D => 0x72,
        0x2E => 0x35,
        0x31 => 0x6E,
        0x32 => 0x62,
        0x33 => 0x68,
        0x34 => 0x67,
        0x35 => 0x79,
        0x36 => 0x36,
        0x3A => 0x6D,
        0x3B => 0x6A,
        0x3C => 0x75,
        0x3D => 0x37,
        0x3E => 0x38,
        0x41 => 0x2C,
        0x42 => 0x6B,
        0x43 => 0x69,
        0x44 => 0x6F,
        0x45 => 0x30,
        0x46 => 0x39,
        0x49 => 0x2E,
        0x4A => 0x2F,
        0x4B => 0x6C,
        0x4C => 0x3B,
        0x4D => 0x70,
        0x4E => 0x2D,
        0x52 => 0x27,
        0x54 => 0x5B,
        0x55 => 0x3D,
        0x5A => 0x0D,
        0x5B => 0x5D,
        0x5D => 0x5C,
        0x66 => 0x7F,
        0x76 => 0x1B,
        _ => 0,
    }
}

fn shifted(sc: u8) -> (ch: u8)
    ensures
        ch == shift_key(sc),
{
    match sc {
        0x0D => 0x09,
        0x0E => 0x7E,
        0x15 => 0x51,
        0x16 => 0x21,
        0x1A => 0x5A,
        0x1B => 0x53,
        0x1C => 0x41,
        0x1D => 0x57,
        0x1E => 0x40,
        0x21 => 0x43,
        0x22 => 0x58,
        0x23 => 0x44,
        0x24 => 0x45,
        0x25 => 0x24,
        0x26 => 0x23,
        0x29 => 0x20,
        0x2A => 0x56,
        0x2B => 0x46,
        0x2C => 0x54,
        0x2D => 0x52,
        0x2E => 0x25,
        0x31 => 0x4E,
        0x32 => 0x42,
        0x33 => 0x48,
        0x34 => 0x47,
        0x35 => 0x59,
        0x36 => 0x5E,
        0x3A => 0x4D,
        0x3B => 0x4A,
        0x3C => 0x55,
        0x3D => 0x26,
        0x3E => 0x2A,
        0x41 => 0x3C,
        0x42 => 0x4B,
        0x43 => 0x49,
        0x44 => 0x4F,
        0x45 => 0x29,
        0x46 => 0x28,
        0x49 => 0x3E,
        0x4A => 0x3F,
        0x4B => 0x4C,
        0x4C => 0x3A,
        0x4D => 0x50,
        0x4E => 0x5F,
        0x52 => 0x22,
        0x54 => 0x7B,
        0x55 => 0x2B,
        0x5A => 0x0D,
        0x5B => 0x7D,
        0x5D => 0x7C,
        0x66 => 0x7F,
        0x76 => 0x1B,
        _ => 0,
    }
}

/// What the decoder remembers between bytes: held modifiers and prefixes.
#[derive(Clone, Copy, Debug, PartialEq, Eq, Structural)]
pub struct KbdState {
    /// A shift key is held.
    pub shift: bool,
    /// A control key is held.
    pub ctrl: bool,
    /// The extended prefix was received.
    pub ext: bool,
    /// The release prefix was received.
    pub brk: bool,
    /// Both prefixes were received.
    pub ext_brk: bool,
}

/// The escape sequence of an extended key.
pub open spec fn ext_sequence(sc: u8) -> Seq<u8> {
    match sc {
        0x75 => seq![0x1Bu8, 0x5B, 0x41],
        0x72 => seq![0x1Bu8, 0x5B, 0x42],
        0x74 => seq![0x1Bu8, 0x5B, 0x43],
        0x6B => seq![0x1Bu8, 0x5B, 0x44],
        0x71 => seq![0x1Bu8, 0x5B, 0x33, 0x7E],
        0x6C => seq![0x1Bu8, 0x5B, 0x48],
        0x69 => seq![0x1Bu8, 0x5B, 0x46],
        0x7D => seq![0x1Bu8, 0x5B, 0x35, 0x7E],
        0x7A => seq![0x1Bu8, 0x5B, 0x36, 0x7E],
        _ => seq![],
    }
}

/// An ASCII letter.
pub open spec fn is_letter(ch: u8) -> bool {
    0x41 <= ch <= 0x5A || 0x61 <= ch <= 0x7A
}

/// The byte that a key types under the held modifiers; 0 is none.
pub open spec fn typed_byte(s: KbdState, sc: u8) -> u8 {
    let ch = if s.shift {
        shift_key(sc)
    } else {
        plain_key(sc)
    };
    if s.ctrl && is_letter(ch) {
        (ch % 32) as u8
    } else {
        ch
    }
}

/// The state with the prefixes forgotten.
pub open spec fn settled(s: KbdState) -> KbdState {
    KbdState { ext: false, brk: false, ext_brk: false, ..s }
}

/// One scan code byte decoded: the state afterwards and the bytes typed.
pub open spec fn decoded(s: KbdState, sc: u8) -> (KbdState, Seq<u8>) {
    if sc == 0xE0 {
        if s.brk {
            (KbdState { brk: false, ext_brk: true, ..s }, seq![])
        } else {
            (KbdState { ext: true, ..s }, seq![])
        }
    } else if sc == 0xF0 {
        if s.ext {
            (KbdState { ext: false, ext_brk: true, ..s }, seq![])
        } else {
            (KbdState { brk: true, ..s }, seq![])
        }
    } else {
        let released = s.brk || s.ext_brk;
        let t = settled(s);
        if s.ext || s.ext_brk {
            if sc == 0x14 {
                (KbdState { ctrl: !released, ..t }, seq![])
            } else if released {
                (t, seq![])
            } else {
                (t, ext_sequence(sc))
            }
        } else if sc == 0x12 || sc == 0x59 {
            (KbdState { shift: !released, ..t }, seq![])
        } else if sc == 0x14 {
            (KbdState { ctrl: !released, ..t }, seq![])
        } else if sc == 0x11 || released || typed_byte(s, sc) == 0 {
            (t, seq![])
        } else {
            (t, seq![typed_byte(s, sc)])
        }
    }
}

// ── Buffer ───────────────────────────────────────────────────────────────────

/// A ring of typed bytes, oldest first.
pub struct KbdBuf {
    data: Vec<u8>,
    head: usize,
    tail: usize,
}

impl View for KbdBuf {
    type V = Seq<u8>;

    closed spec fn view(&self) -> Seq<u8> {
        Seq::new(
            ((self.tail + BUF_CAP - self.head) % BUF_CAP as int) as nat,
            |k: int| self.data@[(self.head + k) % BUF_CAP as int],
        )
    }
}

/// The bytes with one more behind them; a full buffer drops it.
pub open spec fn pushed(b: Seq<u8>, x: u8) -> Seq<u8> {
    if b.len() < BUF_CAP - 1 {
        b.push(x)
    } else {
        b
    }
}

/// The bytes with as many more behind them as fit.
pub open spec fn pushed_all(b: Seq<u8>, xs: Seq<u8>) -> Seq<u8>
    decreases xs.len(),
{
    if xs.len() == 0 {
        b
    } else {
        pushed(pushed_all(b, xs.drop_last()), xs.last())
    }
}

impl KbdBuf {
    pub closed spec fn wf(&self) -> bool {
        self.data@.len() == BUF_CAP && self.head < BUF_CAP && self.tail < BUF_CAP
    }

    /// An empty buffer.
    pub fn new() -> (b: KbdBuf)
        ensures
            b.wf(),
            b@.len() == 0,
    {
        KbdBuf { data: vec![0u8; BUF_CAP], head: 0, tail: 0 }
    }

    /// Append a byte; one that finds the buffer full is dropped.
    pub fn push(&mut self, b: u8)
        requires
            old(self).wf(),
        ensures
            final(self).wf(),
            final(self)@ == pushed(old(self)@, b),
    {
        let next: usize = if self.tail + 1 == BUF_CAP {
            0
        } else {
            self.tail + 1
        };
        if next != self.head {
            self.data[self.tail] = b;
            self.tail = next;
        }
        assert(self@ =~= pushed(old(self)@, b));
    }

    pub fn push_bytes(&mut self, bs: &[u8])
        requires
            old(self).wf(),
        ensures
            final(self).wf(),
            final(self)@ == pushed_all(old(self)@, bs@),
    {
        let mut i: usize = 0;
        assert(bs@.take(0) =~= Seq::<u8>::empty());
        while i < bs.len()
            invariant
                self.wf(),
                i <= bs@.len(),
                self@ == pushed_all(old(self)@, bs@.take(i as int)),
            decreases bs@.len() - i,
        {
            assert(bs@.take(i + 1).drop_last() =~= bs@.take(i as int));
            self.push(bs[i]);
            i += 1;
        }
        assert(bs@.take(i as int) =~= bs@);
    }

    /// Take the oldest byte.
    pub fn pop(&mut self) -> (r: Option<u8>)
        requires
            old(self).wf(),
        ensures
            final(self).wf(),
            old(self)@.len() == 0 ==> r is None && final(self)@ == old(self)@,
            old(self)@.len() > 0 ==> r == Some(old(self)@[0]) && final(self)@ == old(
                self,
            )@.drop_first(),
    {
        if self.head == self.tail {
            return None;
        }
        let b: u8 = self.data[self.head];
        self.head = if self.head + 1 == BUF_CAP {
            0
        } else {
            self.head + 1
        };
        assert(self@ =~= old(self)@.drop_first());
        Some(b)
    }

    pub fn is_empty(&self) -> (r: bool)
        requires
            self.wf(),
        ensures
            r == (self@.len() == 0),
    {
        self.head == self.tail
    }

    /// How many bytes wait.
    pub fn len(&self) -> (n: usize)
        requires
            self.wf(),
        ensures
            n == self@.len(),
    {
        (self.tail + BUF_CAP - self.head) % BUF_CAP
    }
}

// ── The keyboard ─────────────────────────────────────────────────────────────

/// The decoder, the bytes that it typed, and whether an interrupt ever came.
pub struct Keyboard {
    pub state: KbdState,
    pub buf: KbdBuf,
    pub irq_seen: bool,
}

/// What waits in the controller.
#[derive(Clone, Copy, Debug, PartialEq, Eq, Structural)]
pub enum Waiting {
    Nothing,
    /// A byte of the mouse, to be discarded.
    Mouse,
    /// A scan code byte.
    Scancode,
}

/// What the controller's status byte says.
pub fn classify_status(status: u8) -> (w: Waiting)
    ensures
        w == (if status & STATUS_OBF == 0 {
            Waiting::Nothing
        } else if status & STATUS_AUX != 0 {
            Waiting::Mouse
        } else {
            Waiting::Scancode
        }),
{
    if status & STATUS_OBF == 0 {
        Waiting::Nothing
    } else if status & STATUS_AUX != 0 {
        Waiting::Mouse
    } else {
        Waiting::Scancode
    }
}

/// The controller's configuration with translation off and port 1's interrupt
/// on.
pub fn keyboard_config(cfg: u8) -> (r: u8)
    ensures
        r == (cfg & !CFG_P1_XLAT) | CFG_P1_IRQ,
{
    (cfg & !CFG_P1_XLAT) | CFG_P1_IRQ
}

/// How the controller is set up, once it was asked for its configuration: the
/// configuration to write, and the route of its interrupt. `None` where no
/// controller answered.
pub fn init(cfg: Option<u8>, tables: &MadtInfo) -> (r: Option<(u8, (u32, u32))>)
    requires
        tables.wf(),
    ensures
        r == match cfg {
            Some(c) => Some(((c & !CFG_P1_XLAT) | CFG_P1_IRQ, tables.route(1))),
            None => None,
        },
{
    match cfg {
        Some(c) => Some((keyboard_config(c), tables.isa_irq_route(1))),
        None => None,
    }
}

fn ext_bytes(sc: u8) -> (v: Vec<u8>)
    ensures
        v@ == ext_sequence(sc),
{
    let (last, tilde): (u8, bool) = match sc {
        0x75 => (0x41, false),
        0x72 => (0x42, false),
        0x74 => (0x43, false),
        0x6B => (0x44, false),
        0x71 => (0x33, true),
        0x6C => (0x48, false),
        0x69 => (0x46, false),
        0x7D => (0x35, true),
        0x7A => (0x36, true),
        _ => {
            let none: Vec<u8> = Vec::new();
            assert(none@ =~= seq![]);
            return none;
        },
    };
    let mut v: Vec<u8> = Vec::new();
    v.push(0x1B);
    v.push(0x5B);
    v.push(last);
    if tilde {
        v.push(0x7E);
    }
    assert(v@ =~= ext_sequence(sc));
    v
}

impl Keyboard {
    pub open spec fn wf(&self) -> bool {
        self.buf.wf()
    }

    pub fn new() -> (k: Keyboard)
        ensures
            k.wf(),
            k.buf@.len() == 0,
            !k.irq_seen,
            k.state == (KbdState {
                shift: false,
                ctrl: false,
                ext: false,
                brk: false,
                ext_brk: false,
            }),
    {
        Keyboard {
            state: KbdState { shift: false, ctrl: false, ext: false, brk: false, ext_brk: false },
            buf: KbdBuf::new(),
            irq_seen: false,
        }
    }

    /// Decode one scan code byte and buffer what it types.
    pub fn decode_scancode(&mut self, sc: u8)
        requires
            old(self).wf(),
        ensures
            final(self).wf(),
            final(self).state == decoded(old(self).state, sc).0,
            final(self).buf@ == pushed_all(old(self).buf@, decoded(old(self).state, sc).1),
            final(self).irq_seen == old(self).irq_seen,
    {
        let mut s: KbdState = self.state;
        let ghost out = decoded(s, sc).1;
        if sc == 0xE0 {
            if s.brk {
                s.brk = false;
                s.ext_brk = true;
            } else {
                s.ext = true;
            }
            self.state = s;
            return;
        }
        if sc == 0xF0 {
            if s.ext {
                s.ext = false;
                s.ext_brk = true;
            } else {
                s.brk = true;
            }
            self.state = s;
            return;
        }
        let extended: bool = s.ext || s.ext_brk;
        let released: bool = s.brk || s.ext_brk;
        s.ext = false;
        s.brk = false;
        s.ext_brk = false;
        if extended {
            if sc == 0x14 {
                s.ctrl = !released;
            } else if !released {
                let seq: Vec<u8> = ext_bytes(sc);
                self.buf.push_bytes(&seq);
            }
        } else if sc == 0x12 || sc == 0x59 {
            s.shift = !released;
        } else if sc == 0x14 {
            s.ctrl = !released;
        } else if sc != 0x11 && !released {
            let ch: u8 = if s.shift {
                shifted(sc)
            } else {
                plain(sc)
            };
            if ch != 0 {
                let letter: bool = (0x41 <= ch && ch <= 0x5A) || (0x61 <= ch && ch <= 0x7A);
                let byte: u8 = if s.ctrl && letter {
                    ch % 32
                } else {
                    ch
                };
                proof {
                    assert(out =~= seq![byte]);
                    assert(out.drop_last() =~= Seq::<u8>::empty());
                    assert(pushed_all(self.buf@, out.drop_last()) == self.buf@);
                }
                self.buf.push(byte);
            }
        }
        self.state = s;
    }

    /// Handle a keyboard interrupt; tells whether it was the first.
    pub fn kbd_irq_handler(&mut self, sc: u8) -> (first: bool)
        requires
            old(self).wf(),
        ensures
            final(self).wf(),
            first == !old(self).irq_seen,
            final(self).irq_seen,
            final(self).state == decoded(old(self).state, sc).0,
            final(self).buf@ == pushed_all(old(self).buf@, decoded(old(self).state, sc).1),
    {
        let first: bool = !self.irq_seen;
        self.irq_seen = true;
        self.decode_scancode(sc);
        first
    }

    /// Buffer bytes as if they had been typed.
    pub fn inject(&mut self, bytes: &[u8])
        requires
            old(self).wf(),
        ensures
            final(self).wf(),
            final(self).buf@ == pushed_all(old(self).buf@, bytes@),
            final(self).state == old(self).state,
            final(self).irq_seen == old(self).irq_seen,
    {
        self.buf.push_bytes(bytes);
    }

    /// Take the oldest typed byte.
    pub fn try_read(&mut self) -> (r: Option<u8>)
        requires
            old(self).wf(),
        ensures
            final(self).wf(),
            final(self).state == old(self).state,
            final(self).irq_seen == old(self).irq_seen,
            old(self).buf@.len() == 0 ==> r is None && final(self).buf@ == old(self).buf@,
            old(self).buf@.len() > 0 ==> r == Some(old(self).buf@[0]) && final(self).buf@ == old(
                self,
            ).buf@.drop_first(),
    {
        self.buf.pop()
    }

    /// True if an interrupt ever came.
    pub fn irq_seen(&self) -> (r: bool)
        ensures
            r == self.irq_seen,
    {
        self.irq_seen
    }

    /// How many typed bytes wait.
    pub fn buffered(&self) -> (n: usize)
        requires
            self.wf(),
        ensures
            n == self.buf@.len(),
    {
        self.buf.len()
    }

    /// True if a typed byte waits.
    pub fn data_ready(&self) -> (r: bool)
        requires
            self.wf(),
        ensures
            r == (self.buf@.len() > 0),
    {
        !self.buf.is_empty()
    }
}

// ── Laws ─────────────────────────────────────────────────────────────────────

/// A byte behind prefixes leaves no prefix behind.
pub proof fn law_a_key_settles_the_prefixes(s: KbdState, sc: u8)
    requires
        sc != 0xE0,
        sc != 0xF0,
    ensures
        ({
            let t = decoded(s, sc).0;
            !t.ext && !t.brk && !t.ext_brk
        }),
{
}

/// Releasing a key types nothing, whichever key it is.
pub proof fn law_release_types_nothing(s: KbdState, sc: u8)
    requires
        s.brk || s.ext_brk,
    ensures
        decoded(s, sc).1.len() == 0,
{
}

/// Pressing and releasing a modifier that was not held leaves the state as it
/// was.
pub proof fn law_modifier_press_and_release(s: KbdState, sc: u8)
    requires
        s == settled(s),
        sc == 0x12 || sc == 0x59 || sc == 0x14,
        sc == 0x14 ==> !s.ctrl,
        sc != 0x14 ==> !s.shift,
    ensures
        decoded(decoded(decoded(s, sc).0, 0xF0).0, sc).0 == s,
{
}

/// With control held, a letter types its control code, shift or not.
pub proof fn law_control_letters(s: KbdState, sc: u8)
    requires
        s == settled(s),
        s.ctrl,
        is_letter(plain_key(sc)),
    ensures
        decoded(s, sc).1 == seq![(plain_key(sc) % 32) as u8],
        1 <= plain_key(sc) % 32 <= 26,
{
}

/// What is typed is read back in the order in which it was typed, as long as
/// the buffer has room.
pub proof fn law_bytes_come_out_in_order(b: Seq<u8>, xs: Seq<u8>)
    requires
        b.len() + xs.len() < BUF_CAP,
    ensures
        pushed_all(b, xs) == b + xs,
    decreases xs.len(),
{
    if xs.len() > 0 {
        law_bytes_come_out_in_order(b, xs.drop_last());
        assert(b + xs =~= (b + xs.drop_last()).push(xs.last()));
    } else {
        assert(b + xs =~= b);
    }
}

} // verus!
