//! The keyboard, the text console and the log.

use lythos::console::{glyph_line, Console, Draw, BG, FG};
use lythos::keyboard::{classify_status, keyboard_config, KbdBuf, Keyboard, Waiting, BUF_CAP};
use lythos::log::{Logger, DIM};

fn screen() -> Console {
    let mut c = Console::inactive();
    c.init(0x1000, 320 * 4, 320, 64);
    c.take_draws();
    c
}

fn typed(k: &mut Keyboard) -> Vec<u8> {
    let mut v = Vec::new();
    while let Some(b) = k.try_read() {
        v.push(b);
    }
    v
}

fn decode(codes: &[u8]) -> Vec<u8> {
    let mut k = Keyboard::new();
    for &sc in codes {
        k.decode_scancode(sc);
    }
    typed(&mut k)
}

/// What a string leaves behind: serial bytes, the console, and the replies.
fn log(s: &str) -> (Vec<u8>, Console, Vec<u8>) {
    let mut l = Logger::new();
    let mut serial = Vec::new();
    let mut con = screen();
    let mut kbd = Keyboard::new();
    l.write_fmt(s, &mut serial, &mut con, &mut kbd);
    let replies = typed(&mut kbd);
    (serial, con, replies)
}

// ── Keyboard ─────────────────────────────────────────────────────────────────

#[test]
fn keys_type_characters() {
    assert_eq!(decode(&[0x1C, 0xF0, 0x1C]), b"a".to_vec());
    // Shift is held over a letter and a digit.
    assert_eq!(decode(&[0x12, 0x1C, 0x16, 0xF0, 0x12, 0x16]), b"A!1".to_vec());
    assert_eq!(decode(&[0x59, 0x4A]), b"?".to_vec());
    // Control takes letters to their control characters and leaves the rest.
    assert_eq!(decode(&[0x14, 0x21, 0x16, 0xF0, 0x14, 0x21]), vec![3, b'1', b'c']);
    assert_eq!(decode(&[0x5A, 0x66, 0x76, 0x29, 0x0D]), vec![0x0D, 0x7F, 0x1B, 0x20, 0x09]);
    assert_eq!(decode(&[0x05, 0x11]), Vec::<u8>::new());
}

#[test]
fn extended_keys_type_sequences() {
    assert_eq!(decode(&[0xE0, 0x75]), b"\x1B[A".to_vec());
    assert_eq!(decode(&[0xE0, 0x6B]), b"\x1B[D".to_vec());
    assert_eq!(decode(&[0xE0, 0x71]), b"\x1B[3~".to_vec());
    assert_eq!(decode(&[0xE0, 0x7A]), b"\x1B[6~".to_vec());
    // Releases type nothing, whichever prefix comes first.
    assert_eq!(decode(&[0xE0, 0xF0, 0x75]), Vec::<u8>::new());
    assert_eq!(decode(&[0xF0, 0xE0, 0x75, 0x1C]), b"a".to_vec());
    // The right control key is an extended one.
    assert_eq!(decode(&[0xE0, 0x14, 0x1C, 0xE0, 0xF0, 0x14, 0x1C]), vec![1, b'a']);
}

#[test]
fn the_buffer_keeps_the_order_and_drops_what_is_over() {
    let mut b = KbdBuf::new();
    assert!(b.is_empty());
    for k in 0..BUF_CAP + 10 {
        b.push(k as u8);
    }
    let n = b.len();
    assert!(n == BUF_CAP || n == BUF_CAP - 1);
    for k in 0..n {
        assert_eq!(b.pop(), Some(k as u8));
    }
    assert_eq!(b.pop(), None);
    b.push_bytes(b"xy");
    assert_eq!(b.pop(), Some(b'x'));
    assert_eq!(b.len(), 1);
}

#[test]
fn interrupts_are_noticed() {
    let mut k = Keyboard::new();
    assert!(!k.irq_seen());
    assert!(!k.data_ready());
    assert!(k.kbd_irq_handler(0x1C));
    assert!(!k.kbd_irq_handler(0x32));
    assert!(k.irq_seen());
    assert!(k.data_ready());
    assert_eq!(k.buffered(), 2);
    k.inject(b"!");
    assert_eq!(typed(&mut k), b"ab!".to_vec());
}

#[test]
fn the_controller_is_understood() {
    assert!(matches!(classify_status(0x00), Waiting::Nothing));
    assert!(matches!(classify_status(0x20), Waiting::Nothing));
    assert!(matches!(classify_status(0x01), Waiting::Scancode));
    assert!(matches!(classify_status(0x21), Waiting::Mouse));
    assert_eq!(keyboard_config(0x64), 0x25);
}

// ── Console ──────────────────────────────────────────────────────────────────

#[test]
fn glyphs_are_drawn_at_the_cursor() {
    let mut c = screen();
    assert_eq!(c.dimensions(), (40, 4));
    c.put_char('A');
    c.set_fg(0x123456);
    c.put_char('\u{2014}');
    c.reset_fg();
    c.put_char('\u{4E00}');
    assert_eq!(
        c.take_draws(),
        vec![
            Draw::Glyph { byte: b'A', col: 0, row: 0, fg: FG, bg: BG },
            Draw::Glyph { byte: b'-', col: 1, row: 0, fg: 0x123456, bg: BG },
            Draw::Glyph { byte: b'?', col: 2, row: 0, fg: FG, bg: BG },
        ]
    );
    assert_eq!(c.cursor_1based(), (1, 4));
    assert_eq!(glyph_line(0b1000_0001, 7, 9), [7, 9, 9, 9, 9, 9, 9, 7]);
    assert_eq!(c.pixel_addr(3, 2), 0x1000 + 2 * 1280 + 12);
}

#[test]
fn control_characters_move_the_cursor() {
    let mut c = screen();
    c.put_str("ab\n");
    assert_eq!(c.cursor_1based(), (2, 1));
    c.put_str("a\tb");
    assert_eq!(c.cursor_1based(), (2, 10));
    c.put_char('\x08');
    assert_eq!(c.cursor_1based(), (2, 9));
    c.put_char('\r');
    c.put_char('\x08');
    assert_eq!(c.cursor_1based(), (2, 1));
}

#[test]
fn a_full_screen_scrolls() {
    let mut c = screen();
    c.set_cursor(3, 39);
    c.take_draws();
    c.put_char('x');
    assert_eq!(
        c.take_draws(),
        vec![
            Draw::Glyph { byte: b'x', col: 39, row: 3, fg: FG, bg: BG },
            Draw::Scroll { from: 16, count: 48 },
            Draw::Fill { x0: 0, x1: 320, y0: 48, y1: 64, color: BG },
        ]
    );
    assert_eq!(c.cursor_1based(), (4, 1));
}

#[test]
fn the_cursor_stays_on_the_screen() {
    let mut c = screen();
    c.set_cursor(100, 100);
    assert_eq!(c.cursor_1based(), (4, 40));
    c.move_cursor(-2, -100);
    assert_eq!(c.cursor_1based(), (2, 1));
    c.clear_line(1);
    assert_eq!(
        c.take_draws(),
        vec![Draw::Fill { x0: 0, x1: 8, y0: 16, y1: 32, color: BG }]
    );
    c.clear();
    assert_eq!(c.cursor_1based(), (1, 1));
    assert_eq!(c.take_draws(), vec![Draw::Fill { x0: 0, x1: 320, y0: 0, y1: 64, color: BG }]);
}

#[test]
fn an_inactive_console_draws_nothing() {
    let mut c = Console::inactive();
    assert!(!c.is_active());
    c.put_str("text\n");
    c.clear();
    c.set_cursor(2, 2);
    assert_eq!(c.take_draws(), Vec::new());
}

// ── Log ──────────────────────────────────────────────────────────────────────

#[test]
fn text_reaches_both_sinks() {
    let (serial, mut con, replies) = log("h\u{e9}");
    assert_eq!(serial, "h\u{e9}".as_bytes().to_vec());
    assert_eq!(con.take_draws().len(), 2);
    assert!(replies.is_empty());
}

#[test]
fn colours_stay_off_the_serial_line() {
    let (serial, mut con, _) = log("\x1B[1;31mr\x1B[2md\x1B[mn\x1B[95m\x1B[0mz");
    assert_eq!(serial, b"rdnz".to_vec());
    let fgs: Vec<u32> = con
        .take_draws()
        .iter()
        .map(|d| match d {
            Draw::Glyph { fg, .. } => *fg,
            _ => 0,
        })
        .collect();
    assert_eq!(fgs, vec![0x00F3_8BA8, DIM, FG, FG]);
}

#[test]
fn other_controls_reach_the_serial_line_too() {
    let (serial, con, _) = log("\x1B[2;5Hx\x1B[2C\x1B[A");
    assert_eq!(serial, b"\x1B[2;5Hx\x1B[2C\x1B[A".to_vec());
    assert_eq!(con.cursor_1based(), (1, 8));
}

#[test]
fn the_cursor_position_is_told() {
    let (_, _, replies) = log("\x1B[3;12H\x1B[6n");
    assert_eq!(replies, b"\x1B[3;12R".to_vec());
}

#[test]
fn the_screen_is_cleared_by_a_sequence() {
    let (_, mut con, _) = log("abc\x1B[2J");
    assert_eq!(con.cursor_1based(), (1, 1));
    assert_eq!(con.take_draws().len(), 4);
    let (_, mut con, _) = log("abc\x1B[K");
    assert_eq!(
        con.take_draws()[3],
        Draw::Fill { x0: 24, x1: 320, y0: 0, y1: 16, color: BG }
    );
}

#[test]
fn a_sequence_may_be_split_over_writes() {
    let mut l = Logger::new();
    let mut serial = Vec::new();
    let mut con = screen();
    let mut kbd = Keyboard::new();
    l.write_fmt("\x1B[3", &mut serial, &mut con, &mut kbd);
    assert!(serial.is_empty());
    l.write_fmt("2mg", &mut serial, &mut con, &mut kbd);
    assert_eq!(serial, b"g".to_vec());
    assert_eq!(
        con.take_draws(),
        vec![Draw::Glyph { byte: b'g', col: 0, row: 0, fg: 0x00A6_E3A1, bg: BG }]
    );
}

#[test]
fn serial_alone_leaves_the_console() {
    let mut l = Logger::new();
    let mut serial = Vec::new();
    let mut con = screen();
    let mut kbd = Keyboard::new();
    l.write_fmt_serial("a\x1B[31mb\x1B[6n", &mut serial, &mut con, &mut kbd);
    assert_eq!(serial, b"ab\x1B[6n".to_vec());
    assert!(con.take_draws().is_empty());
    assert!(typed(&mut kbd).is_empty());
    // An escape that begins no control sequence is dropped with its character.
    l.write_fmt_serial("\x1BXy", &mut serial, &mut con, &mut kbd);
    assert_eq!(serial, b"ab\x1B[6ny".to_vec());
}
