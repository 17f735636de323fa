//! The text console on a linear framebuffer: cursor, wrapping, scrolling and
//! clearing. What is to be drawn is listed in order, for the caller to blit.

use vstd::prelude::*;

verus! {

/// Default background.
pub const BG: u32 = 0x001E_1E2E;

/// Default foreground.
pub const FG: u32 = 0x00CD_D6F4;

/// Columns between tab stops.
pub const TAB_STOP: usize = 8;

/// Pixels across a glyph.
pub const GLYPH_WIDTH: usize = 8;

/// Pixels down a glyph.
pub const GLYPH_HEIGHT: usize = 16;

/// A drawing operation on the framebuffer.
#[derive(Clone, Copy, Debug, PartialEq, Eq, Structural)]
pub enum Draw {
    /// Fill the pixels `[x0, x1)` by `[y0, y1)`.
    Fill { x0: usize, x1: usize, y0: usize, y1: usize, color: u32 },
    /// Render a glyph in a character cell.
    Glyph { byte: u8, col: usize, row: usize, fg: u32, bg: u32 },
    /// Move the pixel rows from `from` on to the top, `count` of them.
    Scroll { from: usize, count: usize },
}

pub struct Console {
    virt: u64,
    pitch: u64,
    fb_w: u32,
    fb_h: u32,
    cols: usize,
    rows: usize,
    col: usize,
    row: usize,
    fg: u32,
    bg: u32,
    draws: Vec<Draw>,
}

/// The console as a mathematical value.
#[verifier::ext_equal]
pub struct ConsoleView {
    pub virt: u64,
    pub pitch: u64,
    pub fb_w: u32,
    pub fb_h: u32,
    pub cols: int,
    pub rows: int,
    pub col: int,
    pub row: int,
    pub fg: u32,
    pub bg: u32,
    pub draws: Seq<Draw>,
}

impl View for Console {
    type V = ConsoleView;

    closed spec fn view(&self) -> ConsoleView {
        ConsoleView {
            virt: self.virt,
            pitch: self.pitch,
            fb_w: self.fb_w,
            fb_h: self.fb_h,
            cols: self.cols as int,
            rows: self.rows as int,
            col: self.col as int,
            row: self.row as int,
            fg: self.fg,
            bg: self.bg,
            draws: self.draws@,
        }
    }
}

/// The console is bound to a framebuffer.
pub open spec fn bound(c: ConsoleView) -> bool {
    c.virt != 0
}

/// The grid is that of the framebuffer. A bound console has at least one cell,
/// and its cursor is in the grid.
pub open spec fn console_ok(c: ConsoleView) -> bool {
    &&& c.cols == c.fb_w as int / 8
    &&& c.rows == c.fb_h as int / 16
    &&& bound(c) ==> 0 <= c.col < c.cols && 0 <= c.row < c.rows
    &&& !bound(c) ==> c.col == 0 && c.row == 0
}

// ── Drawing ──────────────────────────────────────────────────────────────────

/// The pixels of one line of a glyph: foreground where a bit is set, from the
/// highest bit on.
pub open spec fn line_pixel(bits: u8, fg: u32, bg: u32, dx: int) -> u32 {
    if bits & (0x80u8 >> (dx as u8)) != 0 {
        fg
    } else {
        bg
    }
}

pub fn glyph_line(bits: u8, fg: u32, bg: u32) -> (line: [u32; 8])
    ensures
        forall|dx: int|
            0 <= dx < GLYPH_WIDTH ==> #[trigger] line@[dx] == line_pixel(bits, fg, bg, dx),
{
    let mut line: [u32; 8] = [bg; 8];
    let mut dx: usize = 0;
    while dx < GLYPH_WIDTH
        invariant
            dx <= GLYPH_WIDTH,
            forall|k: int| 0 <= k < dx ==> #[trigger] line@[k] == line_pixel(bits, fg, bg, k),
            forall|k: int| dx <= k < GLYPH_WIDTH ==> #[trigger] line@[k] == bg,
        decreases GLYPH_WIDTH - dx,
    {
        if bits & (0x80u8 >> (dx as u8)) != 0 {
            line[dx] = fg;
        }
        dx += 1;
    }
    line
}

/// The console with one more drawing operation.
pub open spec fn drawn(c: ConsoleView, d: Draw) -> ConsoleView {
    ConsoleView { draws: c.draws.push(d), ..c }
}

/// Fill pixel rows across the full width with the background.
pub open spec fn rows_filled(c: ConsoleView, y0: int, y1: int) -> ConsoleView {
    drawn(
        c,
        Draw::Fill {
            x0: 0,
            x1: c.fb_w as usize,
            y0: y0 as usize,
            y1: y1 as usize,
            color: c.bg,
        },
    )
}

/// Everything moved up by a text row, and the last row cleared.
pub open spec fn scrolled(c: ConsoleView) -> ConsoleView {
    rows_filled(
        drawn(c, Draw::Scroll { from: GLYPH_HEIGHT, count: ((c.rows - 1) * 16) as usize }),
        (c.rows - 1) * 16,
        c.rows * 16,
    )
}

/// The cursor at the start of the next row; the screen scrolls at the last.
pub open spec fn newlined(c: ConsoleView) -> ConsoleView {
    let c1 = ConsoleView { col: 0, ..c };
    if c.row + 1 >= c.rows {
        scrolled(c1)
    } else {
        ConsoleView { row: c.row + 1, ..c1 }
    }
}

/// A glyph at the cursor, and the cursor behind it.
pub open spec fn typed(c: ConsoleView, byte: u8) -> ConsoleView {
    let c1 = drawn(
        c,
        Draw::Glyph { byte, col: c.col as usize, row: c.row as usize, fg: c.fg, bg: c.bg },
    );
    let c2 = ConsoleView { col: c.col + 1, ..c1 };
    if c2.col >= c.cols {
        newlined(c2)
    } else {
        c2
    }
}

/// Spaces up to column `stop`, or to the end of the row.
pub open spec fn spaced(c: ConsoleView, stop: int) -> ConsoleView
    decreases stop - c.col,
{
    if c.col < stop && c.col < c.cols {
        let c1 = typed(c, 0x20);
        if c.col + 1 >= c.cols {
            c1
        } else {
            spaced(c1, stop)
        }
    } else {
        c
    }
}

/// The glyph for a character: Latin-1 as it is, common punctuation as its plain
/// form, and `?` for the rest.
pub open spec fn glyph_of(c: char) -> u8 {
    let u = c as u32;
    if 0x2010 <= u <= 0x2015 {
        0x2D
    } else if u == 0x2018 || u == 0x2019 {
        0x27
    } else if u == 0x201C || u == 0x201D {
        0x22
    } else if u == 0x2026 {
        0x2E
    } else if u < 256 {
        u as u8
    } else {
        0x3F
    }
}

/// A character put on the console.
pub open spec fn put(c: ConsoleView, ch: char) -> ConsoleView {
    if !bound(c) {
        c
    } else if ch == '\n' {
        newlined(c)
    } else if ch == '\r' {
        ConsoleView { col: 0, ..c }
    } else if ch == '\t' {
        spaced(c, (c.col / 8 + 1) * 8)
    } else if ch == '\x08' {
        if c.col > 0 {
            drawn(
                ConsoleView { col: c.col - 1, ..c },
                Draw::Glyph {
                    byte: 0x20,
                    col: (c.col - 1) as usize,
                    row: c.row as usize,
                    fg: c.fg,
                    bg: c.bg,
                },
            )
        } else {
            c
        }
    } else {
        typed(c, glyph_of(ch))
    }
}

/// Characters put on the console one after another.
pub open spec fn put_all(c: ConsoleView, s: Seq<char>) -> ConsoleView
    decreases s.len(),
{
    if s.len() == 0 {
        c
    } else {
        put(put_all(c, s.drop_last()), s.last())
    }
}

impl Console {
    pub open spec fn wf(&self) -> bool {
        console_ok(self@)
    }

    /// A console that is bound to no framebuffer.
    pub fn inactive() -> (c: Console)
        ensures
            c.wf(),
            !bound(c@),
            c@.fg == FG,
            c@.bg == BG,
            c@.cols == 0,
            c@.rows == 0,
            c@.draws.len() == 0,
    {
        Console {
            virt: 0,
            pitch: 0,
            fb_w: 0,
            fb_h: 0,
            cols: 0,
            rows: 0,
            col: 0,
            row: 0,
            fg: FG,
            bg: BG,
            draws: Vec::new(),
        }
    }

    /// True once the console is bound to a framebuffer.
    pub fn is_active(&self) -> (r: bool)
        ensures
            r == bound(self@),
    {
        self.virt != 0
    }

    /// Bind the console to a framebuffer and clear it.
    pub fn init(&mut self, virt: u64, pitch: u64, fb_w: u32, fb_h: u32)
        requires
            virt != 0,
            fb_w >= 8,
            fb_h >= 16,
        ensures
            final(self).wf(),
            final(self)@ == rows_filled(
                ConsoleView {
                    virt,
                    pitch,
                    fb_w,
                    fb_h,
                    cols: fb_w as int / 8,
                    rows: fb_h as int / 16,
                    col: 0,
                    row: 0,
                    ..old(self)@
                },
                0,
                fb_h as int,
            ),
    {
        self.virt = virt;
        self.pitch = pitch;
        self.fb_w = fb_w;
        self.fb_h = fb_h;
        self.cols = fb_w as usize / GLYPH_WIDTH;
        self.rows = fb_h as usize / GLYPH_HEIGHT;
        self.col = 0;
        self.row = 0;
        self.fill_rows(0, fb_h as usize);
    }

    /// Cells across and down.
    pub fn dimensions(&self) -> (r: (usize, usize))
        ensures
            r.0 == self@.cols,
            r.1 == self@.rows,
    {
        (self.cols, self.rows)
    }

    /// The address of a pixel in the framebuffer.
    pub fn pixel_addr(&self, x: u32, y: u32) -> (a: u64)
        requires
            self@.virt + y * self@.pitch + x * 4 <= u64::MAX,
        ensures
            a == self@.virt + y * self@.pitch + x * 4,
    {
        assert(0 <= y * self.pitch) by (nonlinear_arith);
        self.virt + y as u64 * self.pitch + x as u64 * 4
    }

    /// What is to be drawn since the last call, in order.
    pub fn take_draws(&mut self) -> (v: Vec<Draw>)
        ensures
            v@ == old(self)@.draws,
            final(self)@ == (ConsoleView { draws: Seq::empty(), ..old(self)@ }),
    {
        let mut v: Vec<Draw> = Vec::new();
        v.append(&mut self.draws);
        assert(v@ =~= old(self)@.draws);
        assert(self@.draws =~= Seq::<Draw>::empty());
        v
    }

    fn fill_rows(&mut self, y0: usize, y1: usize)
        ensures
            final(self)@ == rows_filled(old(self)@, y0 as int, y1 as int),
    {
        let d = Draw::Fill { x0: 0, x1: self.fb_w as usize, y0, y1, color: self.bg };
        self.draws.push(d);
    }

    fn scroll(&mut self)
        requires
            console_ok(old(self)@) || old(self)@.rows == old(self)@.fb_h as int / 16,
            old(self)@.rows >= 1,
        ensures
            final(self)@ == scrolled(old(self)@),
    {
        let last_top: usize = (self.rows - 1) * GLYPH_HEIGHT;
        self.draws.push(Draw::Scroll { from: GLYPH_HEIGHT, count: last_top });
        self.fill_rows(last_top, last_top + GLYPH_HEIGHT);
    }

    fn newline(&mut self)
        requires
            old(self)@.rows == old(self)@.fb_h as int / 16,
            0 <= old(self)@.row < old(self)@.rows,
        ensures
            final(self)@ == newlined(old(self)@),
    {
        self.col = 0;
        if self.row >= self.rows - 1 {
            self.scroll();
        } else {
            self.row = self.row + 1;
        }
    }

    fn put_glyph(&mut self, byte: u8)
        requires
            old(self).wf(),
            bound(old(self)@),
        ensures
            final(self).wf(),
            final(self)@ == typed(old(self)@, byte),
    {
        let d = Draw::Glyph { byte, col: self.col, row: self.row, fg: self.fg, bg: self.bg };
        self.draws.push(d);
        self.col = self.col + 1;
        if self.col >= self.cols {
            self.newline();
        }
    }

    /// Put a character at the cursor.
    pub fn put_char(&mut self, c: char)
        requires
            old(self).wf(),
        ensures
            final(self).wf(),
            final(self)@ == put(old(self)@, c),
    {
        if !self.is_active() {
            return;
        }
        if c == '\n' {
            self.newline();
        } else if c == '\r' {
            self.col = 0;
        } else if c == '\t' {
            let next: usize = (self.col / TAB_STOP + 1) * TAB_STOP;
            let mut wrapped: bool = false;
            let ghost goal = spaced(self@, next as int);
            while !wrapped && self.col < next && self.col < self.cols
                invariant
                    self.wf(),
                    bound(self@),
                    wrapped ==> self@ == goal,
                    !wrapped ==> goal == spaced(self@, next as int),
                decreases if wrapped { 0int } else { 1 + next - self.col },
            {
                let last: bool = self.col + 1 >= self.cols;
                self.put_glyph(0x20);
                if last {
                    wrapped = true;
                }
            }
        } else if c == '\x08' {
            if self.col > 0 {
                self.col = self.col - 1;
                let d = Draw::Glyph {
                    byte: 0x20,
                    col: self.col,
                    row: self.row,
                    fg: self.fg,
                    bg: self.bg,
                };
                self.draws.push(d);
            }
        } else {
            let u: u32 = c as u32;
            let byte: u8 = if 0x2010 <= u && u <= 0x2015 {
                0x2D
            } else if u == 0x2018 || u == 0x2019 {
                0x27
            } else if u == 0x201C || u == 0x201D {
                0x22
            } else if u == 0x2026 {
                0x2E
            } else if u < 256 {
                u as u8
            } else {
                0x3F
            };
            self.put_glyph(byte);
        }
    }
}

// ── Cursor and clearing ──────────────────────────────────────────────────────

/// `x` held within `[0, n)`.
pub open spec fn clamped(x: int, n: int) -> int {
    if x < 0 || n <= 0 {
        0
    } else if x >= n {
        n - 1
    } else {
        x
    }
}

/// The cursor at a cell, held within the screen.
pub open spec fn cursor_at(c: ConsoleView, row: int, col: int) -> ConsoleView {
    if bound(c) {
        ConsoleView { row: clamped(row, c.rows), col: clamped(col, c.cols), ..c }
    } else {
        c
    }
}

/// The whole screen cleared and the cursor at its start.
pub open spec fn cleared(c: ConsoleView) -> ConsoleView {
    if bound(c) {
        ConsoleView { col: 0, row: 0, ..rows_filled(c, 0, c.fb_h as int) }
    } else {
        c
    }
}

/// Part of the cursor's row cleared: from the cursor on, up to and with it, or
/// all of it.
pub open spec fn line_cleared(c: ConsoleView, mode: u16) -> ConsoleView {
    if !bound(c) || mode > 2 {
        c
    } else {
        let from = if mode == 0 {
            c.col
        } else {
            0
        };
        let to = if mode == 1 && c.col + 1 < c.cols {
            c.col + 1
        } else {
            c.cols
        };
        drawn(
            c,
            Draw::Fill {
                x0: (from * 8) as usize,
                x1: (to * 8) as usize,
                y0: (c.row * 16) as usize,
                y1: (c.row * 16 + 16) as usize,
                color: c.bg,
            },
        )
    }
}

impl Console {
    /// Clear the whole screen and home the cursor.
    pub fn clear(&mut self)
        requires
            old(self).wf(),
        ensures
            final(self).wf(),
            final(self)@ == cleared(old(self)@),
    {
        if !self.is_active() {
            return;
        }
        let h: usize = self.fb_h as usize;
        self.fill_rows(0, h);
        self.col = 0;
        self.row = 0;
    }

    /// Move the cursor to a cell, counted from 0 and held within the screen.
    pub fn set_cursor(&mut self, row: usize, col: usize)
        requires
            old(self).wf(),
        ensures
            final(self).wf(),
            final(self)@ == cursor_at(old(self)@, row as int, col as int),
    {
        if !self.is_active() {
            return;
        }
        self.row = if row >= self.rows {
            self.rows - 1
        } else {
            row
        };
        self.col = if col >= self.cols {
            self.cols - 1
        } else {
            col
        };
    }

    /// Move the cursor by rows and columns, held within the screen.
    pub fn move_cursor(&mut self, drow: i64, dcol: i64)
        requires
            old(self).wf(),
        ensures
            final(self).wf(),
            final(self)@ == cursor_at(
                old(self)@,
                old(self)@.row + drow,
                old(self)@.col + dcol,
            ),
    {
        if !self.is_active() {
            return;
        }
        let row: i128 = self.row as i128 + drow as i128;
        let col: i128 = self.col as i128 + dcol as i128;
        self.row = if row < 0 {
            0
        } else if row >= self.rows as i128 {
            self.rows - 1
        } else {
            row as usize
        };
        self.col = if col < 0 {
            0
        } else if col >= self.cols as i128 {
            self.cols - 1
        } else {
            col as usize
        };
    }

    /// Erase in the cursor's row: 0 from the cursor on, 1 up to and with it, 2
    /// all of it.
    pub fn clear_line(&mut self, mode: u16)
        requires
            old(self).wf(),
        ensures
            final(self).wf(),
            final(self)@ == line_cleared(old(self)@, mode),
    {
        if !self.is_active() || mode > 2 {
            return;
        }
        let from: usize = if mode == 0 {
            self.col
        } else {
            0
        };
        let to: usize = if mode == 1 && self.col + 1 < self.cols {
            self.col + 1
        } else {
            self.cols
        };
        let y0: usize = self.row * GLYPH_HEIGHT;
        let d = Draw::Fill {
            x0: from * GLYPH_WIDTH,
            x1: to * GLYPH_WIDTH,
            y0,
            y1: y0 + GLYPH_HEIGHT,
            color: self.bg,
        };
        self.draws.push(d);
    }

    /// The cursor's row and column, counted from 1.
    pub fn cursor_1based(&self) -> (r: (usize, usize))
        requires
            self.wf(),
        ensures
            r.0 == self@.row + 1,
            r.1 == self@.col + 1,
    {
        (self.row + 1, self.col + 1)
    }

    /// Put the characters of a string one after another.
    pub fn put_str(&mut self, s: &str)
        requires
            old(self).wf(),
        ensures
            final(self).wf(),
            final(self)@ == put_all(old(self)@, s@),
    {
        let ghost c0 = self@;
        assert(s@.take(0) =~= Seq::<char>::empty());
        for c in it: s.chars()
            invariant
                self.wf(),
                it.seq() == s@,
                self@ == put_all(c0, s@.take(it.index() as int)),
        {
            let ghost k = it.index() as int;
            assert(s@.take(k + 1).drop_last() =~= s@.take(k));
            assert(s@.take(k + 1).last() == c);
            self.put_char(c);
        }
        assert(s@.take(s@.len() as int) =~= s@);
    }

    /// Set the foreground for what follows, as `0x00RRGGBB`.
    pub fn set_fg(&mut self, rgb: u32)
        ensures
            final(self)@ == (ConsoleView { fg: rgb & 0x00FF_FFFF, ..old(self)@ }),
            old(self).wf() ==> final(self).wf(),
    {
        self.fg = rgb & 0x00FF_FFFF;
    }

    /// Restore the default foreground.
    pub fn reset_fg(&mut self)
        ensures
            final(self)@ == (ConsoleView { fg: FG, ..old(self)@ }),
            old(self).wf() ==> final(self).wf(),
    {
        self.fg = FG;
    }
}

// ── Laws ─────────────────────────────────────────────────────────────────────

/// However much is put on a console, the cursor stays on the screen and the
/// screen stays the same size.
pub proof fn law_cursor_stays_on_screen(c: ConsoleView, s: Seq<char>)
    requires
        console_ok(c),
    ensures
        console_ok(put_all(c, s)),
        put_all(c, s).cols == c.cols,
        put_all(c, s).rows == c.rows,
    decreases s.len(),
{
    if s.len() > 0 {
        law_cursor_stays_on_screen(c, s.drop_last());
        lemma_put_ok(put_all(c, s.drop_last()), s.last());
    }
}

proof fn lemma_put_ok(c: ConsoleView, ch: char)
    requires
        console_ok(c),
    ensures
        console_ok(put(c, ch)),
        put(c, ch).cols == c.cols,
        put(c, ch).rows == c.rows,
{
    if bound(c) && ch == '\t' {
        lemma_spaced_ok(c, (c.col / 8 + 1) * 8);
    }
}

proof fn lemma_spaced_ok(c: ConsoleView, stop: int)
    requires
        console_ok(c),
        bound(c),
    ensures
        console_ok(spaced(c, stop)),
        bound(spaced(c, stop)),
        spaced(c, stop).cols == c.cols,
        spaced(c, stop).rows == c.rows,
    decreases stop - c.col,
{
    if c.col < stop && c.col < c.cols && c.col + 1 < c.cols {
        lemma_spaced_ok(typed(c, 0x20), stop);
    }
}

/// A console that is bound to nothing draws nothing.
pub proof fn law_inactive_console_draws_nothing(c: ConsoleView, s: Seq<char>)
    requires
        !bound(c),
    ensures
        put_all(c, s) == c,
    decreases s.len(),
{
    if s.len() > 0 {
        law_inactive_console_draws_nothing(c, s.drop_last());
    }
}

/// Putting a character neither binds a console nor lets it go.
pub proof fn lemma_put_keeps_binding(c: ConsoleView, ch: char)
    requires
        console_ok(c),
    ensures
        bound(put(c, ch)) == bound(c),
{
    if bound(c) && ch == '\t' {
        lemma_spaced_ok(c, (c.col / 8 + 1) * 8);
    }
}

} // verus!
