//! What is typed and shown: every key types what stands on it, text appears where
//! the cursor is, and control sequences do what they say.

use vstd::prelude::*;
use crate::console::{bound, console_ok, glyph_of, put, spaced, typed, ConsoleView, Draw};
use crate::framebuffer::{pages_of, FbMode, Framebuffer};
use crate::keyboard::{decoded, pushed_all, KbdState};
use crate::layoutlaws::law_digits_say_the_number;
use crate::log::{law_a_stream_may_be_split, logged_all, EscState, LogView, SinkView};
use crate::text::decimal;
use crate::time::{bcd, converted, epoch_of, hour_of, time_in, RtcSnapshot, RtcTime};

verus! {

// ── Keys ─────────────────────────────────────────────────────────────────────

/// The keys of a row, from left to right, type a text.
pub open spec fn types(s: KbdState, keys: Seq<u8>, text: Seq<char>) -> bool {
    &&& keys.len() == text.len()
    &&& forall|i: int|
        0 <= i < keys.len() ==> decoded(s, #[trigger] keys[i]) == (s, seq![text[i] as u8])
}

/// The keys that type visible characters, row by row.
pub open spec fn digit_row() -> Seq<u8> {
    seq![0x0Eu8, 0x16, 0x1E, 0x26, 0x25, 0x2E, 0x36, 0x3D, 0x3E, 0x46, 0x45, 0x4E, 0x55]
}

pub open spec fn upper_row() -> Seq<u8> {
    seq![0x15u8, 0x1D, 0x24, 0x2D, 0x2C, 0x35, 0x3C, 0x43, 0x44, 0x4D, 0x54, 0x5B, 0x5D]
}

pub open spec fn home_row() -> Seq<u8> {
    seq![0x1Cu8, 0x1B, 0x23, 0x2B, 0x34, 0x33, 0x3B, 0x42, 0x4B, 0x4C, 0x52]
}

pub open spec fn lower_row() -> Seq<u8> {
    seq![0x1Au8, 0x22, 0x21, 0x2A, 0x32, 0x31, 0x3A, 0x41, 0x49, 0x4A]
}

/// Every key types what stands on it, with shift or without, and nothing else
/// happens.
#[verifier::spinoff_prover]
pub proof fn law_keys_type_what_stands_on_them(s: KbdState)
    requires
        !s.ext && !s.brk && !s.ext_brk && !s.ctrl,
    ensures
        !s.shift ==> types(s, digit_row(), "`1234567890-="@),
        !s.shift ==> types(s, upper_row(), "qwertyuiop[]\\"@),
        !s.shift ==> types(s, home_row(), "asdfghjkl;'"@),
        !s.shift ==> types(s, lower_row(), "zxcvbnm,./"@),
        s.shift ==> types(s, digit_row(), "~!@#$%^&*()_+"@),
        s.shift ==> types(s, upper_row(), "QWERTYUIOP{}|"@),
        s.shift ==> types(s, home_row(), "ASDFGHJKL:\""@),
        s.shift ==> types(s, lower_row(), "ZXCVBNM<>?"@),
        // The space bar, tab, return, backspace and escape.
        decoded(s, 0x29) == (s, seq![0x20u8]),
        decoded(s, 0x0D) == (s, seq![0x09u8]),
        decoded(s, 0x5A) == (s, seq![0x0Du8]),
        decoded(s, 0x66) == (s, seq![0x7Fu8]),
        decoded(s, 0x76) == (s, seq![0x1Bu8]),
{
    reveal_strlit("`1234567890-=");
    reveal_strlit("qwertyuiop[]\\");
    reveal_strlit("asdfghjkl;'");
    reveal_strlit("zxcvbnm,./");
    reveal_strlit("~!@#$%^&*()_+");
    reveal_strlit("QWERTYUIOP{}|");
    reveal_strlit("ASDFGHJKL:\"");
    reveal_strlit("ZXCVBNM<>?");
}

/// The arrows, and the keys around them, type the sequences that terminals send; what
/// is held, stays held.
pub proof fn law_arrows_type_sequences(s: KbdState)
    requires
        !s.ext && !s.brk && !s.ext_brk,
    ensures
        ({
            let e = decoded(s, 0xE0).0;
            &&& decoded(s, 0xE0).1.len() == 0
            &&& decoded(e, 0x75) == (s, seq![0x1Bu8, 0x5B, 0x41])
            &&& decoded(e, 0x72) == (s, seq![0x1Bu8, 0x5B, 0x42])
            &&& decoded(e, 0x74) == (s, seq![0x1Bu8, 0x5B, 0x43])
            &&& decoded(e, 0x6B) == (s, seq![0x1Bu8, 0x5B, 0x44])
            &&& decoded(e, 0x6C) == (s, seq![0x1Bu8, 0x5B, 0x48])
            &&& decoded(e, 0x69) == (s, seq![0x1Bu8, 0x5B, 0x46])
            &&& decoded(e, 0x71) == (s, seq![0x1Bu8, 0x5B, 0x33, 0x7E])
            &&& decoded(e, 0x7D) == (s, seq![0x1Bu8, 0x5B, 0x35, 0x7E])
            &&& decoded(e, 0x7A) == (s, seq![0x1Bu8, 0x5B, 0x36, 0x7E])
        }),
{
}

/// Either shift key shifts and either control key controls, from when it is pressed
/// until it is released.
pub proof fn law_modifiers_are_held_until_released(s: KbdState)
    requires
        !s.ext && !s.brk && !s.ext_brk,
    ensures
        decoded(s, 0x12) == (KbdState { shift: true, ..s }, Seq::<u8>::empty()),
        decoded(s, 0x59) == (KbdState { shift: true, ..s }, Seq::<u8>::empty()),
        decoded(s, 0x14) == (KbdState { ctrl: true, ..s }, Seq::<u8>::empty()),
        decoded(decoded(s, 0xE0).0, 0x14) == (KbdState { ctrl: true, ..s }, Seq::<u8>::empty()),
        decoded(decoded(s, 0xF0).0, 0x12) == (KbdState { shift: false, ..s }, Seq::<u8>::empty()),
        decoded(decoded(s, 0xF0).0, 0x59) == (KbdState { shift: false, ..s }, Seq::<u8>::empty()),
        decoded(decoded(s, 0xF0).0, 0x14) == (KbdState { ctrl: false, ..s }, Seq::<u8>::empty()),
        decoded(decoded(decoded(s, 0xE0).0, 0xF0).0, 0x14) == (
            KbdState { ctrl: false, ..s },
            Seq::<u8>::empty(),
        ),
        decoded(decoded(s, 0xF0).0, 0x1C) == (s, Seq::<u8>::empty()),
{
}

// ── The console ──────────────────────────────────────────────────────────────

/// Where the cursor goes from the last column or at the end of a line: to the first
/// column of the next row. On the last row everything moves up by a row, and the last
/// is blank.
pub open spec fn on_next_row(before: ConsoleView, after: ConsoleView, draws: Seq<Draw>) -> bool {
    &&& after.col == 0
    &&& before.row + 1 < before.rows ==> after.row == before.row + 1 && after.draws == draws
    &&& before.row + 1 == before.rows ==> {
        &&& after.row == before.row
        &&& after.draws == draws + seq![
            Draw::Scroll { from: 16, count: (before.row * 16) as usize },
            Draw::Fill {
                x0: 0,
                x1: before.fb_w as usize,
                y0: (before.row * 16) as usize,
                y1: (before.row * 16 + 16) as usize,
                color: before.bg,
            },
        ]
    }
}

/// Nothing but the cursor and the screen changes.
pub open spec fn otherwise_same(before: ConsoleView, after: ConsoleView) -> bool {
    after == (ConsoleView { col: after.col, row: after.row, draws: after.draws, ..before })
}

/// A character is drawn where the cursor is, in the colours that hold, and the
/// cursor moves on by one; at the end of a row it goes on to the next.
pub proof fn law_a_character_appears_at_the_cursor(c: ConsoleView, ch: char)
    requires
        console_ok(c),
        bound(c),
        0x20 <= ch as u32,
    ensures
        ({
            let after = put(c, ch);
            let draws = c.draws.push(
                Draw::Glyph {
                    byte: glyph_of(ch),
                    col: c.col as usize,
                    row: c.row as usize,
                    fg: c.fg,
                    bg: c.bg,
                },
            );
            &&& otherwise_same(c, after)
            &&& c.col + 1 < c.cols ==> after.col == c.col + 1 && after.row == c.row && after.draws
                == draws
            &&& c.col + 1 == c.cols ==> on_next_row(c, after, draws)
        }),
        (ch as u32) < 256 ==> glyph_of(ch) == ch as u32,
{
    lemma_scrolls(c);
    let after = put(c, ch);
    if c.col + 1 == c.cols && c.row + 1 == c.rows {
        let draws = c.draws.push(
            Draw::Glyph {
                byte: glyph_of(ch),
                col: c.col as usize,
                row: c.row as usize,
                fg: c.fg,
                bg: c.bg,
            },
        );
        assert(after.draws =~= draws + seq![
            Draw::Scroll { from: 16, count: (c.row * 16) as usize },
            Draw::Fill {
                x0: 0,
                x1: c.fb_w as usize,
                y0: (c.row * 16) as usize,
                y1: (c.row * 16 + 16) as usize,
                color: c.bg,
            },
        ]);
    }
}

proof fn lemma_scrolls(c: ConsoleView)
    requires
        console_ok(c),
        bound(c),
    ensures
        (c.rows - 1) * 16 + 16 == c.rows * 16,
        c.row + 1 == c.rows ==> (c.rows - 1) * 16 == c.row * 16,
{
}

/// A line ends in the first column of the next row; a return goes back to the first
/// column; a backspace blanks the character before the cursor and goes back to it,
/// and in the first column does nothing.
pub proof fn law_lines_and_returns(c: ConsoleView)
    requires
        console_ok(c),
        bound(c),
    ensures
        otherwise_same(c, put(c, '\n')),
        on_next_row(c, put(c, '\n'), c.draws),
        put(c, '\r') == (ConsoleView { col: 0, ..c }),
        c.col == 0 ==> put(c, '\x08') == c,
        c.col > 0 ==> put(c, '\x08') == (ConsoleView {
            col: c.col - 1,
            draws: c.draws.push(
                Draw::Glyph {
                    byte: 0x20,
                    col: (c.col - 1) as usize,
                    row: c.row as usize,
                    fg: c.fg,
                    bg: c.bg,
                },
            ),
            ..c
        }),
{
    lemma_scrolls(c);
    if c.row + 1 == c.rows {
        assert(put(c, '\n').draws =~= c.draws + seq![
            Draw::Scroll { from: 16, count: (c.row * 16) as usize },
            Draw::Fill {
                x0: 0,
                x1: c.fb_w as usize,
                y0: (c.row * 16) as usize,
                y1: (c.row * 16 + 16) as usize,
                color: c.bg,
            },
        ]);
    }
}

/// A tab blanks the cells up to the next column that is a multiple of eight, and the
/// cursor goes there.
pub proof fn law_a_tab_goes_to_the_next_stop(c: ConsoleView, stop: int)
    requires
        console_ok(c),
        bound(c),
        c.col < stop <= c.col + 8,
        stop % 8 == 0,
        stop < c.cols,
    ensures
        ({
            let after = put(c, '\t');
            &&& otherwise_same(c, after)
            &&& after.col == stop
            &&& after.row == c.row
            &&& after.draws.len() == c.draws.len() + (stop - c.col)
            &&& forall|i: int| 0 <= i < c.draws.len() ==> #[trigger] after.draws[i] == c.draws[i]
            &&& forall|i: int|
                0 <= i < stop - c.col ==> #[trigger] after.draws[c.draws.len() + i]
                    == (Draw::Glyph {
                    byte: 0x20,
                    col: (c.col + i) as usize,
                    row: c.row as usize,
                    fg: c.fg,
                    bg: c.bg,
                })
        }),
{
    assert(stop == (c.col / 8 + 1) * 8);
    lemma_spaces(c, stop);
}

proof fn lemma_spaces(c: ConsoleView, stop: int)
    requires
        console_ok(c),
        bound(c),
        c.col <= stop < c.cols,
    ensures
        ({
            let after = spaced(c, stop);
            &&& otherwise_same(c, after)
            &&& after.col == stop
            &&& after.row == c.row
            &&& after.draws.len() == c.draws.len() + (stop - c.col)
            &&& forall|i: int| 0 <= i < c.draws.len() ==> #[trigger] after.draws[i] == c.draws[i]
            &&& forall|i: int|
                0 <= i < stop - c.col ==> #[trigger] after.draws[c.draws.len() + i]
                    == (Draw::Glyph {
                    byte: 0x20,
                    col: (c.col + i) as usize,
                    row: c.row as usize,
                    fg: c.fg,
                    bg: c.bg,
                })
        }),
    decreases stop - c.col,
{
    if c.col < stop {
        let d = typed(c, 0x20);
        lemma_spaces(d, stop);
        let after = spaced(d, stop);
        assert forall|i: int| 0 <= i < stop - c.col implies #[trigger] after.draws[c.draws.len()
            + i] == (Draw::Glyph {
            byte: 0x20,
            col: (c.col + i) as usize,
            row: c.row as usize,
            fg: c.fg,
            bg: c.bg,
        }) by {
            if i > 0 {
                assert(after.draws[d.draws.len() + (i - 1)] is Glyph);
            }
        }
    }
}

// ── Control sequences ────────────────────────────────────────────────────────

/// A number in digits, as characters.
pub open spec fn written(n: nat) -> Seq<char> {
    decimal(n).map_values(|b: u8| b as char)
}

proof fn lemma_digits_are_taken(l: LogView, s: SinkView, on: bool, n: nat)
    requires
        l.state == EscState::Csi,
        l.cur == 0,
        n <= 65535,
    ensures
        ({
            let r = logged_all(l, s, on, written(n));
            &&& r.0.state == EscState::Csi
            &&& r.0.cur == n
            &&& r.0.has_cur
            &&& r.0.params == l.params
            &&& r.1 == s
        }),
    decreases n,
{
    let t = written(n);
    law_digits_say_the_number(n);
    let d = decimal(n);
    assert(t.last() == d.last() as char);
    if n < 10 {
        assert(t.drop_last() =~= seq![]);
        assert(logged_all(l, s, on, t.drop_last()) == (l, s));
    } else {
        lemma_digits_are_taken(l, s, on, n / 10);
        assert(d.drop_last() =~= decimal(n / 10));
        assert(t.drop_last() =~= written(n / 10));
    }
}

/// Where a sequence stands once its introducer and a number were written.
proof fn lemma_one_number(l: LogView, s: SinkView, on: bool, n: nat)
    requires
        l.state == EscState::Normal,
        n <= 65535,
    ensures
        ({
            let r = logged_all(l, s, on, seq!['\x1b', '['] + written(n));
            &&& r.0.state == EscState::Csi
            &&& r.0.cur == n
            &&& r.0.has_cur
            &&& r.0.params.len() == 0
            &&& r.1 == s
        }),
{
    let start = seq!['\x1b', '['];
    assert(start.drop_last() =~= seq!['\x1b']);
    assert(seq!['\x1b'].drop_last() =~= Seq::<char>::empty());
    reveal_with_fuel(logged_all, 3);
    let (l1, s1) = logged_all(l, s, on, start);
    assert(s1 == s && l1.state == EscState::Csi && l1.cur == 0 && l1.params.len() == 0);
    law_a_stream_may_be_split(l, s, on, start, written(n));
    lemma_digits_are_taken(l1, s1, on, n);
}

/// The console after a sequence of one number and a final character.
pub open spec fn shown_after(l: LogView, s: SinkView, n: nat, f: char) -> ConsoleView {
    logged_all(l, s, true, seq!['\x1b', '['] + written(n) + seq![f]).1.console
}

proof fn lemma_one_number_ends(l: LogView, s: SinkView, n: nat, f: char)
    requires
        l.state == EscState::Normal,
        n <= 65535,
        0x40 <= f as u32 <= 0x7E,
    ensures
        f != 'm' ==> shown_after(l, s, n, f) == crate::log::controlled(
            s.console,
            seq![n as u16],
            f,
        ),
        f == 'm' ==> shown_after(l, s, n, f) == crate::log::colored(s.console, seq![n as u16]),
{
    let text = seq!['\x1b', '['] + written(n) + seq![f];
    assert(text.drop_last() =~= seq!['\x1b', '['] + written(n));
    assert(text.last() == f);
    lemma_one_number(l, s, true, n);
    let r = logged_all(l, s, true, text.drop_last());
    assert(r.0.params.push(n as u16) =~= seq![n as u16]);
}

/// The cursor moves by as many rows or columns as the sequence says, and stays on the
/// screen; nothing else changes.
pub proof fn law_the_cursor_moves_by_the_number(l: LogView, s: SinkView, n: nat)
    requires
        l.state == EscState::Normal,
        1 <= n <= 65535,
        console_ok(s.console),
        bound(s.console),
    ensures
        ({
            let c = s.console;
            let up = shown_after(l, s, n, 'A');
            let down = shown_after(l, s, n, 'B');
            let right = shown_after(l, s, n, 'C');
            let left = shown_after(l, s, n, 'D');
            &&& up == (ConsoleView { row: up.row, ..c })
            &&& up.row == if n <= c.row {
                c.row - n
            } else {
                0
            }
            &&& down == (ConsoleView { row: down.row, ..c })
            &&& down.row == if c.row + n < c.rows {
                c.row + n
            } else {
                c.rows - 1
            }
            &&& right == (ConsoleView { col: right.col, ..c })
            &&& right.col == if c.col + n < c.cols {
                c.col + n
            } else {
                c.cols - 1
            }
            &&& left == (ConsoleView { col: left.col, ..c })
            &&& left.col == if n <= c.col {
                c.col - n
            } else {
                0
            }
        }),
{
    lemma_one_number_ends(l, s, n, 'A');
    lemma_one_number_ends(l, s, n, 'B');
    lemma_one_number_ends(l, s, n, 'C');
    lemma_one_number_ends(l, s, n, 'D');
}

/// Clearing the screen fills all of it and sends the cursor to the first cell;
/// clearing a line fills it from the cursor on, up to the cursor, or whole, and leaves
/// the cursor where it is.
pub proof fn law_what_is_cleared_is_filled(l: LogView, s: SinkView)
    requires
        l.state == EscState::Normal,
        console_ok(s.console),
        bound(s.console),
    ensures
        ({
            let c = s.console;
            let y0 = (c.row * 16) as usize;
            let y1 = (c.row * 16 + 16) as usize;
            let here = (c.col * 8) as usize;
            let past = (c.col * 8 + 8) as usize;
            let end = (c.cols * 8) as usize;
            &&& shown_after(l, s, 2, 'J') == (ConsoleView {
                col: 0,
                row: 0,
                draws: c.draws.push(
                    Draw::Fill {
                        x0: 0,
                        x1: c.fb_w as usize,
                        y0: 0,
                        y1: c.fb_h as usize,
                        color: c.bg,
                    },
                ),
                ..c
            })
            &&& shown_after(l, s, 0, 'K') == (ConsoleView {
                draws: c.draws.push(Draw::Fill { x0: here, x1: end, y0, y1, color: c.bg }),
                ..c
            })
            &&& shown_after(l, s, 1, 'K') == (ConsoleView {
                draws: c.draws.push(Draw::Fill { x0: 0, x1: past, y0, y1, color: c.bg }),
                ..c
            })
            &&& shown_after(l, s, 2, 'K') == (ConsoleView {
                draws: c.draws.push(Draw::Fill { x0: 0, x1: end, y0, y1, color: c.bg }),
                ..c
            })
        }),
{
    lemma_one_number_ends(l, s, 2, 'J');
    lemma_one_number_ends(l, s, 0, 'K');
    lemma_one_number_ends(l, s, 1, 'K');
    lemma_one_number_ends(l, s, 2, 'K');
}

/// The eight colours, and the eight bright ones.
pub open spec fn palette() -> Seq<u32> {
    seq![
        0x45475Au32,
        0xF38BA8,
        0xA6E3A1,
        0xF9E2AF,
        0x89B4FA,
        0xF5C2E7,
        0x89DCEB,
        0xBAC2DE,
    ]
}

pub open spec fn bright() -> Seq<u32> {
    seq![
        0x585B70u32,
        0xF38BA8,
        0xA6E3A1,
        0xF9E2AF,
        0x89B4FA,
        0xF5C2E7,
        0x89DCEB,
        0xCDD6F4,
    ]
}

/// A colour holds from its sequence on, and nothing else changes: 30 to 37 are the
/// eight colours, 90 to 97 the bright ones, 0 and 39 give back the first colour, 2 is
/// dim, and what names no colour changes none.
pub proof fn law_a_colour_holds_from_its_sequence_on(l: LogView, s: SinkView, n: nat)
    requires
        l.state == EscState::Normal,
        n <= 65535,
    ensures
        ({
            let after = shown_after(l, s, n, 'm');
            &&& after == (ConsoleView { fg: after.fg, ..s.console })
            &&& 30 <= n <= 37 ==> after.fg == palette()[n - 30]
            &&& 90 <= n <= 97 ==> after.fg == bright()[n - 90]
            &&& n == 0 || n == 39 ==> after.fg == 0xCDD6F4
            &&& n == 2 ==> after.fg == 0x9399B2
            &&& n != 0 && n != 39 && n != 2 && !(30 <= n <= 37) && !(90 <= n <= 97) ==> after.fg
                == s.console.fg
        }),
{
    lemma_one_number_ends(l, s, n, 'm');
    let p = seq![n as u16];
    assert(p[0] == n);
    reveal_with_fuel(crate::log::fg_after, 2);
}

/// The cursor goes to the row and the column that are named, counted from one, or as
/// far as the screen goes; nothing else changes.
pub proof fn law_the_cursor_goes_where_it_is_sent(l: LogView, s: SinkView, r: nat, c: nat)
    requires
        l.state == EscState::Normal,
        1 <= r <= 65535,
        1 <= c <= 65535,
        console_ok(s.console),
        bound(s.console),
    ensures
        ({
            let text = seq!['\x1b', '['] + written(r) + seq![';'] + written(c) + seq!['H'];
            let after = logged_all(l, s, true, text).1.console;
            let before = s.console;
            &&& after == (ConsoleView { row: after.row, col: after.col, ..before })
            &&& after.row == if r <= before.rows {
                r - 1
            } else {
                before.rows - 1
            }
            &&& after.col == if c <= before.cols {
                c - 1
            } else {
                before.cols - 1
            }
        }),
{
    let a = seq!['\x1b', '['] + written(r);
    let b = a + seq![';'];
    let d = b + written(c);
    let text = d + seq!['H'];
    lemma_one_number(l, s, true, r);
    assert(b.drop_last() =~= a);
    let (l1, s1) = logged_all(l, s, true, b);
    assert(l1.params =~= seq![r as u16]);
    law_a_stream_may_be_split(l, s, true, b, written(c));
    lemma_digits_are_taken(l1, s1, true, c);
    let (l2, s2) = logged_all(l, s, true, d);
    assert(text.drop_last() =~= d);
    assert(text.last() == 'H');
    assert(l2.params.push(c as u16) =~= seq![r as u16, c as u16]);
}

/// Who asks where the cursor is, reads the row and the column, counted from one,
/// behind what was typed.
pub proof fn law_the_position_is_told(l: LogView, s: SinkView)
    requires
        l.state == EscState::Normal,
    ensures
        ({
            let text = seq!['\x1b', '['] + written(6) + seq!['n'];
            let after = logged_all(l, s, true, text).1;
            let reply = seq![0x1Bu8, 0x5B] + decimal((s.console.row + 1) as nat) + seq![0x3Bu8]
                + decimal((s.console.col + 1) as nat) + seq![0x52u8];
            &&& after.typed == pushed_all(s.typed, reply)
            &&& after.console == s.console
        }),
{
    let text = seq!['\x1b', '['] + written(6) + seq!['n'];
    assert(text.drop_last() =~= seq!['\x1b', '['] + written(6));
    lemma_one_number(l, s, true, 6);
    let r = logged_all(l, s, true, text.drop_last());
    assert(r.0.params.push(6u16) =~= seq![6u16]);
}

// ── The screen ───────────────────────────────────────────────────────────────

/// A rectangle covers exactly the pixels of it that are on the screen, in its colour.
pub proof fn law_a_rectangle_covers_its_pixels(
    f: Framebuffer,
    x: u32,
    y: u32,
    w: u32,
    h: u32,
    rgb: u32,
    px: int,
    py: int,
)
    requires
        f.virt != 0,
    ensures
        ({
            let r = f.covered(x, y, w, h, rgb);
            let inside = x <= px < x + w && y <= py < y + h && px < f.width && py < f.height;
            &&& inside ==> r is Some
            &&& r is Some ==> (r->0.x1 <= px < r->0.x2 && r->0.y1 <= py < r->0.y2) == inside
            &&& r is Some ==> r->0.color == rgb as int % 0x100_0000
        }),
        ({
            let none = Framebuffer { virt: 0, ..f };
            none.covered(x, y, w, h, rgb) is None
        }),
{
}

/// As many pages are mapped for a screen as its rows take, and no more.
pub proof fn law_a_screen_is_mapped_whole(m: FbMode)
    ensures
        m.pitch * m.height <= pages_of(m) * 4096 < m.pitch * m.height + 4096,
{
}

// ── The clock ────────────────────────────────────────────────────────────────

/// Two decimal digits in one byte are read as the number that they write.
pub proof fn law_two_digits_in_a_byte(tens: int, ones: int)
    requires
        0 <= tens < 10,
        0 <= ones < 10,
    ensures
        bcd((tens * 16 + ones) as u8) == tens * 10 + ones,
{
}

/// An hour is counted from 0 to 23, whatever the clock counts: in the morning, twelve
/// is 0 and the others are as they are; in the afternoon, twelve is twelve and the
/// others are twelve more.
pub proof fn law_the_hour_of_the_day(h: u8)
    requires
        h <= 23,
    ensures
        // A clock of 24 hours, in binary.
        hour_of(h, 6) == h,
        // One of 12 hours, in binary.
        1 <= h < 12 ==> hour_of(h, 4) == h && hour_of((h + 0x80) as u8, 4) == h + 12,
        h == 12 ==> hour_of(h, 4) == 0 && hour_of((h + 0x80) as u8, 4) == 12,
        // The same clocks in decimal digits.
        hour_of((h / 10 * 16 + h % 10) as u8, 2) == h,
        1 <= h < 12 ==> hour_of((h / 10 * 16 + h % 10) as u8, 0) == h && hour_of(
            (h / 10 * 16 + h % 10 + 0x80) as u8,
            0,
        ) == h + 12,
        h == 12 ==> hour_of(0x12, 0) == 0 && hour_of(0x92, 0) == 12,
{
}

/// A clock in decimal digits tells the time that its digits write.
pub proof fn law_the_time_is_what_the_digits_write(t: RtcTime, s: RtcSnapshot)
    requires
        t.sec < 60 && t.min < 60 && t.hour < 24 && t.day <= 31 && t.mon <= 12,
        1900 <= t.year < 2200,
        s.sec == t.sec / 10 * 16 + t.sec % 10,
        s.min == t.min / 10 * 16 + t.min % 10,
        s.hour == t.hour / 10 * 16 + t.hour % 10,
        s.day == t.day / 10 * 16 + t.day % 10,
        s.mon == t.mon / 10 * 16 + t.mon % 10,
        s.year == t.year % 100 / 10 * 16 + t.year % 100 % 10,
        s.century == t.year / 100 / 10 * 16 + t.year / 100 % 10,
    ensures
        time_in(s, 2) == t,
{
    lemma_digit_pair(s.sec, t.sec as int);
    lemma_digit_pair(s.min, t.min as int);
    lemma_digit_pair(s.hour, t.hour as int);
    lemma_digit_pair(s.day, t.day as int);
    lemma_digit_pair(s.mon, t.mon as int);
    lemma_digit_pair(s.year, t.year as int % 100);
    lemma_digit_pair(s.century, t.year as int / 100);
}

proof fn lemma_digit_pair(b: u8, x: int)
    requires
        0 <= x < 100,
        b == x / 10 * 16 + x % 10,
    ensures
        converted(b, 2) == x,
{
}

/// A second is a thousand milliseconds, and so on up to the day.
pub proof fn law_time_is_counted_in_milliseconds(t: RtcTime)
    requires
        1970 <= t.year <= 2199,
        1 <= t.mon <= 12,
        1 <= t.day <= 30,
        t.hour < 24 && t.min < 60 && t.sec < 60,
    ensures
        epoch_of(RtcTime { sec: (t.sec + 1) as u32, ..t }) == epoch_of(t) + 1_000,
        epoch_of(RtcTime { min: (t.min + 1) as u32, ..t }) == epoch_of(t) + 60_000,
        epoch_of(RtcTime { hour: (t.hour + 1) as u32, ..t }) == epoch_of(t) + 3_600_000,
        epoch_of(RtcTime { day: (t.day + 1) as u32, ..t }) == epoch_of(t) + 86_400_000,
        epoch_of(RtcTime { year: 1970, mon: 1, day: 1, hour: 0, min: 0, sec: 0 }) == 0,
{
}

} // verus!
