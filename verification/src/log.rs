//! The kernel log: one stream of text to two sinks.
//!
//! Colour sequences are taken out of the serial stream and colour the glyphs
//! of the console. All other control sequences go to serial untouched, and the
//! common cursor and erase controls are carried out on the console.

use vstd::prelude::*;
use vstd::utf8::encode_scalar;
use crate::console::{
    bound, cleared, cursor_at, lemma_put_keeps_binding, line_cleared, put, put_all, Console,
    ConsoleView, FG,
};
use crate::keyboard::{pushed_all, Keyboard};
use crate::text::{decimal, fmt_usize, push_char};

verus! {

/// The colour of dim text.
pub const DIM: u32 = 0x0093_99B2;

/// Parameters kept of a control sequence.
pub const MAX_PARAMS: usize = 8;

/// Bytes kept of a control sequence.
pub const MAX_RAW: usize = 32;

/// Where the parser is.
#[derive(Clone, Copy, Debug, PartialEq, Eq, Structural)]
pub enum EscState {
    Normal,
    /// The escape character was seen.
    Esc,
    /// In a control sequence.
    Csi,
}

/// The parser of the log stream. Its state lasts from write to write, so that
/// a sequence may be split between them.
pub struct Logger {
    state: EscState,
    params: Vec<u16>,
    cur: u16,
    has_cur: bool,
    raw: Vec<u8>,
}

/// The parser as a mathematical value.
#[verifier::ext_equal]
pub struct LogView {
    pub state: EscState,
    pub params: Seq<u16>,
    /// The parameter that is being read.
    pub cur: u16,
    /// A digit of it was seen.
    pub has_cur: bool,
    /// The sequence so far.
    pub raw: Seq<u8>,
}

impl View for Logger {
    type V = LogView;

    closed spec fn view(&self) -> LogView {
        LogView {
            state: self.state,
            params: self.params@,
            cur: self.cur,
            has_cur: self.has_cur,
            raw: self.raw@,
        }
    }
}

/// What the log stream has done to its sinks.
#[verifier::ext_equal]
pub struct SinkView {
    /// Bytes for the serial port.
    pub serial: Seq<u8>,
    pub console: ConsoleView,
    /// Bytes in the keyboard buffer.
    pub typed: Seq<u8>,
}

/// The sinks as one value.
pub open spec fn sinks(serial: Seq<u8>, console: ConsoleView, typed: Seq<u8>) -> SinkView {
    SinkView { serial, console, typed }
}

// ── Colours ──────────────────────────────────────────────────────────────────

/// The colour of an attribute: `None` where it sets none.
pub open spec fn color_of(p: u16) -> Option<u32> {
    match p {
        0 => Some(FG),
        39 => Some(FG),
        2 => Some(DIM),
        30 => Some(0x0045_475A),
        31 => Some(0x00F3_8BA8),
        32 => Some(0x00A6_E3A1),
        33 => Some(0x00F9_E2AF),
        34 => Some(0x0089_B4FA),
        35 => Some(0x00F5_C2E7),
        36 => Some(0x0089_DCEB),
        37 => Some(0x00BA_C2DE),
        90 => Some(0x0058_5B70),
        91 => Some(0x00F3_8BA8),
        92 => Some(0x00A6_E3A1),
        93 => Some(0x00F9_E2AF),
        94 => Some(0x0089_B4FA),
        95 => Some(0x00F5_C2E7),
        96 => Some(0x0089_DCEB),
        97 => Some(0x00CD_D6F4),
        _ => None,
    }
}

fn color(p: u16) -> (r: Option<u32>)
    ensures
        r == color_of(p),
{
    match p {
        0 => Some(FG),
        39 => Some(FG),
        2 => Some(DIM),
        30 => Some(0x0045_475A),
        31 => Some(0x00F3_8BA8),
        32 => Some(0x00A6_E3A1),
        33 => Some(0x00F9_E2AF),
        34 => Some(0x0089_B4FA),
        35 => Some(0x00F5_C2E7),
        36 => Some(0x0089_DCEB),
        37 => Some(0x00BA_C2DE),
        90 => Some(0x0058_5B70),
        91 => Some(0x00F3_8BA8),
        92 => Some(0x00A6_E3A1),
        93 => Some(0x00F9_E2AF),
        94 => Some(0x0089_B4FA),
        95 => Some(0x00F5_C2E7),
        96 => Some(0x0089_DCEB),
        97 => Some(0x00CD_D6F4),
        _ => None,
    }
}

/// The foreground after the attributes from `k` on.
pub open spec fn fg_after(fg: u32, params: Seq<u16>, k: int) -> u32
    decreases params.len() - k,
{
    if k >= params.len() {
        fg
    } else {
        match color_of(params[k]) {
            Some(c) => fg_after(c, params, k + 1),
            None => fg_after(fg, params, k + 1),
        }
    }
}

/// The console's foreground after a colour sequence; one without attributes
/// resets it.
pub open spec fn colored(c: ConsoleView, params: Seq<u16>) -> ConsoleView {
    ConsoleView {
        fg: if params.len() == 0 {
            FG
        } else {
            fg_after(c.fg, params, 0)
        },
        ..c
    }
}

// ── Parser ───────────────────────────────────────────────────────────────────

/// The sequence with one more byte; only ASCII is kept, and only so much.
pub open spec fn raw_pushed(l: LogView, c: char) -> LogView {
    if l.raw.len() < MAX_RAW && (c as u32) < 0x80 {
        LogView { raw: l.raw.push(c as u8), ..l }
    } else {
        l
    }
}

/// The parameter that was read put behind the others, if there is room.
pub open spec fn param_pushed(l: LogView) -> LogView {
    LogView {
        params: if l.params.len() < MAX_PARAMS {
            l.params.push(l.cur)
        } else {
            l.params
        },
        cur: 0,
        has_cur: false,
        ..l
    }
}

/// A parameter that was begun is put behind the others.
pub open spec fn param_closed(l: LogView) -> LogView {
    if l.has_cur {
        param_pushed(l)
    } else {
        l
    }
}

/// A digit behind the parameter that is being read: the product is held at the
/// largest value, the sum is machine arithmetic.
pub open spec fn next_digit(cur: u16, digit: int) -> u16 {
    let tenfold = if cur * 10 > u16::MAX {
        u16::MAX as int
    } else {
        cur * 10
    };
    ((tenfold + digit) % 0x1_0000) as u16
}

/// Parameter `k`, at least 1.
pub open spec fn at_least_one(params: Seq<u16>, k: int) -> int {
    if k < params.len() && params[k] > 1 {
        params[k] as int
    } else {
        1
    }
}

/// The first parameter, or 0.
pub open spec fn first_param(params: Seq<u16>) -> u16 {
    if params.len() > 0 {
        params[0]
    } else {
        0
    }
}

/// A cursor or erase control carried out on the console.
pub open spec fn controlled(c: ConsoleView, params: Seq<u16>, f: char) -> ConsoleView {
    let p0 = first_param(params);
    let n = at_least_one(params, 0);
    if f == 'J' && p0 >= 2 {
        cleared(c)
    } else if f == 'H' || f == 'f' {
        cursor_at(c, n - 1, at_least_one(params, 1) - 1)
    } else if f == 'K' {
        line_cleared(c, p0)
    } else if f == 'A' {
        cursor_at(c, c.row - n, c.col as int)
    } else if f == 'B' {
        cursor_at(c, c.row + n, c.col as int)
    } else if f == 'C' {
        cursor_at(c, c.row as int, c.col + n)
    } else if f == 'D' {
        cursor_at(c, c.row as int, c.col - n)
    } else {
        c
    }
}

/// The reply to a query for the cursor's position.
pub open spec fn position_reply(c: ConsoleView) -> Seq<u8> {
    seq![0x1Bu8, 0x5B] + decimal((c.row + 1) as nat) + seq![0x3Bu8] + decimal((c.col + 1) as nat)
        + seq![0x52u8]
}

/// The final byte of a control sequence that is not a colour sequence.
pub open spec fn finished(l: LogView, s: SinkView, on: bool, c: char) -> (LogView, SinkView) {
    let l1 = raw_pushed(l, c);
    let l2 = param_closed(l1);
    let console = if on {
        controlled(s.console, l2.params, c)
    } else {
        s.console
    };
    let typed = if on && c == 'n' && first_param(l2.params) == 6 {
        pushed_all(s.typed, position_reply(console))
    } else {
        s.typed
    };
    (
        LogView { state: EscState::Normal, ..l2 },
        SinkView { serial: s.serial + l1.raw, console, typed },
    )
}

/// One character of the log stream; `on` tells whether the console takes part.
pub open spec fn logged(l: LogView, s: SinkView, on: bool, c: char) -> (LogView, SinkView) {
    match l.state {
        EscState::Normal => if c == '\x1b' {
            (
                LogView {
                    state: EscState::Esc,
                    params: seq![],
                    cur: 0,
                    has_cur: false,
                    raw: seq![0x1Bu8],
                },
                s,
            )
        } else {
            (
                l,
                SinkView {
                    serial: s.serial + encode_scalar(c as u32),
                    console: if on {
                        put(s.console, c)
                    } else {
                        s.console
                    },
                    typed: s.typed,
                },
            )
        },
        EscState::Esc => if c == '[' {
            (LogView { state: EscState::Csi, ..raw_pushed(l, c) }, s)
        } else {
            (LogView { state: EscState::Normal, ..l }, s)
        },
        EscState::Csi => if '0' <= c <= '9' {
            (
                LogView {
                    cur: next_digit(l.cur, c as u32 - 0x30),
                    has_cur: true,
                    ..raw_pushed(l, c)
                },
                s,
            )
        } else if c == ';' {
            (raw_pushed(param_pushed(l), c), s)
        } else if c == 'm' {
            let l1 = param_closed(l);
            (
                LogView { state: EscState::Normal, ..l1 },
                if on {
                    SinkView { console: colored(s.console, l1.params), ..s }
                } else {
                    s
                },
            )
        } else if 0x40 <= c as u32 <= 0x7E {
            finished(l, s, on, c)
        } else {
            (raw_pushed(l, c), s)
        },
    }
}

/// A run of the log stream.
pub open spec fn logged_all(l: LogView, s: SinkView, on: bool, text: Seq<char>) -> (
    LogView,
    SinkView,
)
    decreases text.len(),
{
    if text.len() == 0 {
        (l, s)
    } else {
        let (l1, s1) = logged_all(l, s, on, text.drop_last());
        logged(l1, s1, on, text.last())
    }
}

// ── Writing ──────────────────────────────────────────────────────────────────

impl Logger {
    pub closed spec fn wf(&self) -> bool {
        self.params@.len() <= MAX_PARAMS && self.raw@.len() <= MAX_RAW
    }

    /// A parser at the start of a stream.
    pub fn new() -> (l: Logger)
        ensures
            l.wf(),
            l@ == (LogView {
                state: EscState::Normal,
                params: Seq::empty(),
                cur: 0,
                has_cur: false,
                raw: Seq::empty(),
            }),
    {
        Logger {
            state: EscState::Normal,
            params: Vec::new(),
            cur: 0,
            has_cur: false,
            raw: Vec::new(),
        }
    }

    fn raw_push(&mut self, c: char)
        requires
            old(self).wf(),
        ensures
            final(self).wf(),
            final(self)@ == raw_pushed(old(self)@, c),
    {
        if self.raw.len() < MAX_RAW && (c as u32) < 0x80 {
            self.raw.push(c as u8);
        }
    }

    fn push_param(&mut self)
        requires
            old(self).wf(),
        ensures
            final(self).wf(),
            final(self)@ == param_pushed(old(self)@),
    {
        if self.params.len() < MAX_PARAMS {
            self.params.push(self.cur);
        }
        self.cur = 0;
        self.has_cur = false;
    }

    fn param(&self, k: usize) -> (p: u16)
        ensures
            p == if k < self@.params.len() {
                self@.params[k as int]
            } else {
                0
            },
    {
        if k < self.params.len() {
            self.params[k]
        } else {
            0
        }
    }

    fn apply_sgr(&self, con: &mut Console)
        requires
            old(con).wf(),
        ensures
            final(con).wf(),
            final(con)@ == colored(old(con)@, self@.params),
    {
        if self.params.len() == 0 {
            con.reset_fg();
            return;
        }
        let mut k: usize = 0;
        while k < self.params.len()
            invariant
                con.wf(),
                k <= self.params@.len(),
                con@ == (ConsoleView { fg: con@.fg, ..old(con)@ }),
                fg_after(con@.fg, self.params@, k as int) == fg_after(
                    old(con)@.fg,
                    self.params@,
                    0,
                ),
            decreases self.params@.len() - k,
        {
            match color(self.params[k]) {
                Some(c) => {
                    assert(c & 0x00FF_FFFF == c) by (bit_vector)
                        requires
                            c <= 0x00FF_FFFF,
                    ;
                    con.set_fg(c);
                },
                None => {},
            }
            k += 1;
        }
    }

    /// The cursor or erase control with final byte `f`, on the console.
    fn control(&self, con: &mut Console, f: char)
        requires
            old(con).wf(),
        ensures
            final(con).wf(),
            final(con)@ == controlled(old(con)@, self@.params, f),
    {
        let p0: u16 = self.param(0);
        let p1: u16 = self.param(1);
        let n: u16 = if p0 > 1 {
            p0
        } else {
            1
        };
        let m: u16 = if p1 > 1 {
            p1
        } else {
            1
        };
        if f == 'J' {
            if p0 >= 2 {
                con.clear();
            }
        } else if f == 'H' || f == 'f' {
            con.set_cursor(n as usize - 1, m as usize - 1);
        } else if f == 'K' {
            con.clear_line(p0);
        } else if f == 'A' {
            con.move_cursor(-(n as i64), 0);
        } else if f == 'B' {
            con.move_cursor(n as i64, 0);
        } else if f == 'C' {
            con.move_cursor(0, n as i64);
        } else if f == 'D' {
            con.move_cursor(0, -(n as i64));
        }
    }

    /// The final byte of a control sequence that is not a colour sequence.
    fn finish(&mut self, c: char, on: bool, serial: &mut Vec<u8>, con: &mut Console, kbd: &mut Keyboard)
        requires
            old(self).wf(),
            old(con).wf(),
            old(kbd).wf(),
            on ==> bound(old(con)@),
        ensures
            final(self).wf(),
            final(con).wf(),
            final(kbd).wf(),
            final(kbd).state == old(kbd).state,
            final(kbd).irq_seen == old(kbd).irq_seen,
            bound(final(con)@) == bound(old(con)@),
            (final(self)@, sinks(final(serial)@, final(con)@, final(kbd).buf@)) == finished(
                old(self)@,
                sinks(old(serial)@, old(con)@, old(kbd).buf@),
                on,
                c,
            ),
    {
        self.raw_push(c);
        let mut i: usize = 0;
        while i < self.raw.len()
            invariant
                i <= self.raw@.len(),
                serial@ == old(serial)@ + self.raw@.take(i as int),
            decreases self.raw@.len() - i,
        {
            serial.push(self.raw[i]);
            i += 1;
        }
        assert(self.raw@.take(self.raw@.len() as int) =~= self.raw@);
        if self.has_cur {
            self.push_param();
        }
        if on {
            self.control(con, c);
            if c == 'n' && self.param(0) == 6 {
                let (r, cl): (usize, usize) = con.cursor_1based();
                let mut reply: Vec<u8> = Vec::new();
                reply.push(0x1B);
                reply.push(0x5B);
                let mut rows: Vec<u8> = fmt_usize(r);
                reply.append(&mut rows);
                reply.push(0x3B);
                let mut cols: Vec<u8> = fmt_usize(cl);
                reply.append(&mut cols);
                reply.push(0x52);
                assert(reply@ =~= position_reply(con@));
                kbd.inject(&reply);
            }
        }
        self.state = EscState::Normal;
    }

    /// One character of the stream.
    fn write_char(&mut self, c: char, on: bool, serial: &mut Vec<u8>, con: &mut Console, kbd: &mut Keyboard)
        requires
            old(self).wf(),
            old(con).wf(),
            old(kbd).wf(),
            on ==> bound(old(con)@),
        ensures
            final(self).wf(),
            final(con).wf(),
            final(kbd).wf(),
            final(kbd).state == old(kbd).state,
            final(kbd).irq_seen == old(kbd).irq_seen,
            bound(final(con)@) == bound(old(con)@),
            (final(self)@, sinks(final(serial)@, final(con)@, final(kbd).buf@)) == logged(
                old(self)@,
                sinks(old(serial)@, old(con)@, old(kbd).buf@),
                on,
                c,
            ),
    {
        match self.state {
            EscState::Normal => {
                if c == '\x1b' {
                    self.state = EscState::Esc;
                    self.params = Vec::new();
                    self.cur = 0;
                    self.has_cur = false;
                    self.raw = Vec::new();
                    self.raw_push(c);
                    assert(self@.raw =~= seq![0x1Bu8]);
                    assert(self@.params =~= Seq::<u16>::empty());
                } else {
                    push_char(serial, c);
                    if on {
                        proof {
                            lemma_put_keeps_binding(con@, c);
                        }
                        con.put_char(c);
                    }
                }
            },
            EscState::Esc => {
                if c == '[' {
                    self.raw_push(c);
                    self.state = EscState::Csi;
                } else {
                    self.state = EscState::Normal;
                }
            },
            EscState::Csi => {
                if '0' <= c && c <= '9' {
                    let tenfold: u32 = if self.cur > 6553 {
                        0xFFFF
                    } else {
                        self.cur as u32 * 10
                    };
                    let next: u32 = (tenfold + (c as u32 - 0x30)) % 0x1_0000;
                    self.cur = next as u16;
                    self.has_cur = true;
                    self.raw_push(c);
                } else if c == ';' {
                    self.push_param();
                    self.raw_push(c);
                } else if c == 'm' {
                    if self.has_cur {
                        self.push_param();
                    }
                    if on {
                        self.apply_sgr(con);
                    }
                    self.state = EscState::Normal;
                } else if 0x40 <= c as u32 && c as u32 <= 0x7E {
                    self.finish(c, on, serial, con, kbd);
                } else {
                    self.raw_push(c);
                }
            },
        }
    }

    /// Write a string to the sinks: bytes behind `serial`, glyphs on the
    /// console if it is asked for and bound, and replies into the keyboard
    /// buffer.
    pub fn write_str_inner(
        &mut self,
        s: &str,
        use_console: bool,
        serial: &mut Vec<u8>,
        con: &mut Console,
        kbd: &mut Keyboard,
    )
        requires
            old(self).wf(),
            old(con).wf(),
            old(kbd).wf(),
        ensures
            final(self).wf(),
            final(con).wf(),
            final(kbd).wf(),
            final(kbd).state == old(kbd).state,
            final(kbd).irq_seen == old(kbd).irq_seen,
            (final(self)@, sinks(final(serial)@, final(con)@, final(kbd).buf@)) == logged_all(
                old(self)@,
                sinks(old(serial)@, old(con)@, old(kbd).buf@),
                use_console && bound(old(con)@),
                s@,
            ),
    {
        let on: bool = use_console && con.is_active();
        let ghost l0 = self@;
        let ghost s0 = sinks(serial@, con@, kbd.buf@);
        assert(s@.take(0) =~= Seq::<char>::empty());
        for c in it: s.chars()
            invariant
                self.wf(),
                con.wf(),
                kbd.wf(),
                kbd.state == old(kbd).state,
                kbd.irq_seen == old(kbd).irq_seen,
                on ==> bound(con@),
                it.seq() == s@,
                (self@, sinks(serial@, con@, kbd.buf@)) == logged_all(
                    l0,
                    s0,
                    on,
                    s@.take(it.index() as int),
                ),
        {
            let ghost k = it.index() as int;
            assert(s@.take(k + 1).drop_last() =~= s@.take(k));
            assert(s@.take(k + 1).last() == c);
            self.write_char(c, on, serial, con, kbd);
        }
        assert(s@.take(s@.len() as int) =~= s@);
    }

    /// Write a string to all active sinks.
    pub fn write_fmt(&mut self, s: &str, serial: &mut Vec<u8>, con: &mut Console, kbd: &mut Keyboard)
        requires
            old(self).wf(),
            old(con).wf(),
            old(kbd).wf(),
        ensures
            final(self).wf(),
            final(con).wf(),
            final(kbd).wf(),
            final(kbd).state == old(kbd).state,
            final(kbd).irq_seen == old(kbd).irq_seen,
            (final(self)@, sinks(final(serial)@, final(con)@, final(kbd).buf@)) == logged_all(
                old(self)@,
                sinks(old(serial)@, old(con)@, old(kbd).buf@),
                bound(old(con)@),
                s@,
            ),
    {
        self.write_str_inner(s, true, serial, con, kbd);
    }

    /// Write a string to the serial sink only. Colour sequences are taken out
    /// as elsewhere.
    pub fn write_fmt_serial(
        &mut self,
        s: &str,
        serial: &mut Vec<u8>,
        con: &mut Console,
        kbd: &mut Keyboard,
    )
        requires
            old(self).wf(),
            old(con).wf(),
            old(kbd).wf(),
        ensures
            final(self).wf(),
            final(con).wf(),
            final(kbd).wf(),
            final(kbd).state == old(kbd).state,
            final(kbd).irq_seen == old(kbd).irq_seen,
            (final(self)@, sinks(final(serial)@, final(con)@, final(kbd).buf@)) == logged_all(
                old(self)@,
                sinks(old(serial)@, old(con)@, old(kbd).buf@),
                false,
                s@,
            ),
    {
        self.write_str_inner(s, false, serial, con, kbd);
    }
}

// ── Laws ─────────────────────────────────────────────────────────────────────

/// Without the console neither its screen nor the keyboard buffer changes.
pub proof fn law_serial_only_leaves_the_console(l: LogView, s: SinkView, text: Seq<char>)
    ensures
        logged_all(l, s, false, text).1.console == s.console,
        logged_all(l, s, false, text).1.typed == s.typed,
    decreases text.len(),
{
    if text.len() > 0 {
        law_serial_only_leaves_the_console(l, s, text.drop_last());
    }
}

/// What serial receives does not depend on whether the console takes part.
pub proof fn law_serial_ignores_the_console(l: LogView, s: SinkView, text: Seq<char>)
    ensures
        logged_all(l, s, true, text).0 == logged_all(l, s, false, text).0,
        logged_all(l, s, true, text).1.serial == logged_all(l, s, false, text).1.serial,
    decreases text.len(),
{
    if text.len() > 0 {
        law_serial_ignores_the_console(l, s, text.drop_last());
    }
}

/// It makes no difference where a stream is split between two writes, even in
/// the middle of a sequence.
pub proof fn law_a_stream_may_be_split(
    l: LogView,
    s: SinkView,
    on: bool,
    a: Seq<char>,
    b: Seq<char>,
)
    ensures
        logged_all(l, s, on, a + b) == logged_all(
            logged_all(l, s, on, a).0,
            logged_all(l, s, on, a).1,
            on,
            b,
        ),
    decreases b.len(),
{
    if b.len() == 0 {
        assert(a + b =~= a);
    } else {
        assert((a + b).drop_last() =~= a + b.drop_last());
        law_a_stream_may_be_split(l, s, on, a, b.drop_last());
    }
}

/// Text without escapes reaches serial as its UTF-8 bytes, and the console
/// character by character.
pub proof fn law_plain_text_passes(l: LogView, s: SinkView, on: bool, text: Seq<char>)
    requires
        l.state == EscState::Normal,
        !text.contains('\x1b'),
    ensures
        logged_all(l, s, on, text).0 == l,
        logged_all(l, s, on, text).1.serial == s.serial + vstd::utf8::encode_utf8(text),
        logged_all(l, s, on, text).1.console == if on {
            put_all(s.console, text)
        } else {
            s.console
        },
        logged_all(l, s, on, text).1.typed == s.typed,
    decreases text.len(),
{
    if text.len() > 0 {
        let head = text.drop_last();
        assert forall|c: char| head.contains(c) implies text.contains(c) by {
            let i = choose|i: int| 0 <= i < head.len() && head[i] == c;
            assert(text[i] == c);
        }
        assert(text.contains(text.last())) by {
            assert(text[text.len() - 1] == text.last());
        }
        law_plain_text_passes(l, s, on, head);
        lemma_encode_last(text);
        assert(logged_all(l, s, on, text).1.serial =~= s.serial + vstd::utf8::encode_utf8(text));
    } else {
        assert(s.serial + vstd::utf8::encode_utf8(text) =~= s.serial);
    }
}

proof fn lemma_encode_last(text: Seq<char>)
    requires
        text.len() > 0,
    ensures
        vstd::utf8::encode_utf8(text) == vstd::utf8::encode_utf8(text.drop_last())
            + encode_scalar(text.last() as u32),
    decreases text.len(),
{
    let head = text.drop_last();
    if text.len() == 1 {
        assert(text.drop_first() =~= Seq::<char>::empty());
        assert(head =~= Seq::<char>::empty());
        assert(vstd::utf8::encode_utf8(text.drop_first()) =~= Seq::<u8>::empty());
        assert(vstd::utf8::encode_utf8(head) =~= Seq::<u8>::empty());
        assert(vstd::utf8::encode_utf8(text) =~= encode_scalar(text.last() as u32));
    } else {
        lemma_encode_last(text.drop_first());
        assert(text.drop_first().drop_last() =~= head.drop_first());
        assert(vstd::utf8::encode_utf8(text) =~= vstd::utf8::encode_utf8(head) + encode_scalar(
            text.last() as u32,
        ));
    }
}

/// The text of a colour sequence: its attributes in decimal between the
/// introducer and the final `m` are digits and separators.
pub open spec fn is_color_body(body: Seq<char>) -> bool {
    forall|i: int| 0 <= i < body.len() ==> '0' <= #[trigger] body[i] <= '9' || body[i] == ';'
}

/// A colour sequence leaves nothing on serial and types nothing, and on the
/// console changes no more than the colour of what follows.
pub proof fn law_colors_do_not_reach_serial(l: LogView, s: SinkView, on: bool, body: Seq<char>)
    requires
        l.state == EscState::Normal,
        is_color_body(body),
    ensures
        ({
            let r = logged_all(l, s, on, seq!['\x1b', '['] + body + seq!['m']);
            &&& r.0.state == EscState::Normal
            &&& r.1.serial == s.serial
            &&& r.1.typed == s.typed
            &&& r.1.console == (ConsoleView { fg: r.1.console.fg, ..s.console })
        }),
{
    let whole = seq!['\x1b', '['] + body + seq!['m'];
    assert(whole.drop_last() =~= seq!['\x1b', '['] + body);
    lemma_color_body(l, s, on, body);
}

proof fn lemma_color_body(l: LogView, s: SinkView, on: bool, body: Seq<char>)
    requires
        l.state == EscState::Normal,
        is_color_body(body),
    ensures
        logged_all(l, s, on, seq!['\x1b', '['] + body).0.state == EscState::Csi,
        logged_all(l, s, on, seq!['\x1b', '['] + body).1 == s,
    decreases body.len(),
{
    let start = seq!['\x1b', '['];
    if body.len() == 0 {
        assert(start + body =~= start);
        assert(start.drop_last() =~= seq!['\x1b']);
        assert(seq!['\x1b'].drop_last() =~= Seq::<char>::empty());
        reveal_with_fuel(logged_all, 3);
    } else {
        assert((start + body).drop_last() =~= start + body.drop_last());
        assert((start + body).last() == body[body.len() - 1]);
        lemma_color_body(l, s, on, body.drop_last());
    }
}

/// The text between the introducer and the final byte of a control sequence:
/// ASCII below the final bytes, and no longer than is kept.
pub open spec fn is_control_body(body: Seq<char>) -> bool {
    &&& body.len() + 3 <= MAX_RAW
    &&& forall|i: int| 0 <= i < body.len() ==> (#[trigger] body[i]) as u32 <= 0x3F
}

/// A control sequence that is not a colour sequence reaches serial untouched.
pub proof fn law_other_controls_pass(l: LogView, s: SinkView, on: bool, body: Seq<char>, f: char)
    requires
        l.state == EscState::Normal,
        is_control_body(body),
        0x40 <= f as u32 <= 0x7E,
        f != 'm',
    ensures
        ({
            let text = seq!['\x1b', '['] + body + seq![f];
            let r = logged_all(l, s, on, text);
            &&& r.0.state == EscState::Normal
            &&& r.1.serial == s.serial + text.map_values(|c: char| c as u8)
        }),
{
    let text = seq!['\x1b', '['] + body + seq![f];
    assert(text.drop_last() =~= seq!['\x1b', '['] + body);
    lemma_control_body(l, s, on, body);
    assert((seq!['\x1b', '['] + body).map_values(|c: char| c as u8).push(f as u8)
        =~= text.map_values(|c: char| c as u8));
}

proof fn lemma_control_body(l: LogView, s: SinkView, on: bool, body: Seq<char>)
    requires
        l.state == EscState::Normal,
        is_control_body(body),
    ensures
        ({
            let text = seq!['\x1b', '['] + body;
            let r = logged_all(l, s, on, text);
            &&& r.0.state == EscState::Csi
            &&& r.0.raw == text.map_values(|c: char| c as u8)
            &&& r.1 == s
        }),
    decreases body.len(),
{
    let start = seq!['\x1b', '['];
    let text = start + body;
    if body.len() == 0 {
        assert(text =~= start);
        assert(start.drop_last() =~= seq!['\x1b']);
        assert(seq!['\x1b'].drop_last() =~= Seq::<char>::empty());
        reveal_with_fuel(logged_all, 3);
        assert(logged_all(l, s, on, text).0.raw =~= text.map_values(|c: char| c as u8));
    } else {
        assert(text.drop_last() =~= start + body.drop_last());
        assert(text.last() == body[body.len() - 1]);
        lemma_control_body(l, s, on, body.drop_last());
        assert(text.drop_last().map_values(|c: char| c as u8).push(text.last() as u8)
            =~= text.map_values(|c: char| c as u8));
    }
}

} // verus!
