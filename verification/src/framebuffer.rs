//! The linear framebuffer: which one is used, and what a rectangle covers of it.

use vstd::prelude::*;

verus! {

/// Where the framebuffer is mapped.
pub const FB_VA_BASE: u64 = 0xFFFF_E000_0000_0000;

/// The bits of a pixel.
pub const FB_BPP: u16 = 32;

/// The registers that set the fallback adapter to 1024 by 768 at 32 bits, each
/// with its value, in order.
pub fn vbe_mode() -> (v: Vec<(u16, u16)>)
    ensures
        v@ == seq![
            (4u16, 0u16),
            (1, 1024),
            (2, 768),
            (3, 32),
            (6, 1024),
            (7, 768),
            (8, 0),
            (9, 0),
            (4, 0x41),
        ],
{
    let mut v: Vec<(u16, u16)> = Vec::new();
    v.push((4, 0));
    v.push((1, 1024));
    v.push((2, 768));
    v.push((3, 32));
    v.push((6, 1024));
    v.push((7, 768));
    v.push((8, 0));
    v.push((9, 0));
    v.push((4, 0x41));
    assert(v@ =~= seq![
        (4u16, 0u16),
        (1, 1024),
        (2, 768),
        (3, 32),
        (6, 1024),
        (7, 768),
        (8, 0),
        (9, 0),
        (4, 0x41),
    ]);
    v
}

/// A framebuffer as the boot loader or the fallback adapter gives it.
#[derive(Clone, Copy, Debug, PartialEq, Eq, Structural)]
pub struct FbMode {
    pub phys: u64,
    pub pitch: u32,
    pub width: u32,
    pub height: u32,
    pub bpp: u8,
}

/// The fallback adapter's framebuffer, from its first BAR: a memory BAR with an
/// address.
pub fn init_bochs_vbe(bar0: u32) -> (r: Option<FbMode>)
    ensures
        r == if bar0 % 2 == 0 && bar0 - bar0 % 16 != 0 {
            Some(
                FbMode {
                    phys: (bar0 - bar0 % 16) as u64,
                    pitch: 4096,
                    width: 1024,
                    height: 768,
                    bpp: 32,
                },
            )
        } else {
            None
        },
{
    if bar0 % 2 != 0 {
        return None;
    }
    let phys: u64 = (bar0 - bar0 % 16) as u64;
    if phys == 0 {
        return None;
    }
    Some(FbMode { phys, pitch: 4096, width: 1024, height: 768, bpp: 32 })
}

/// The framebuffer that is in use; not mapped while `virt` is 0.
#[derive(Clone, Copy, Debug, PartialEq, Eq, Structural)]
pub struct Framebuffer {
    pub virt: u64,
    pub pitch: u32,
    pub width: u32,
    pub height: u32,
}

/// A rectangle of pixels, `[x1, x2)` by `[y1, y2)`, in one colour.
#[derive(Clone, Copy, Debug, PartialEq, Eq, Structural)]
pub struct Rect {
    pub x1: u32,
    pub y1: u32,
    pub x2: u32,
    pub y2: u32,
    pub color: u32,
}

/// The pages that a framebuffer takes.
pub open spec fn pages_of(m: FbMode) -> int {
    (m.pitch * m.height + 4095) / 4096
}

/// The mode to use: the boot loader's where it gave one, else the fallback
/// adapter's. `None` where there is neither, or where it is not of 32 bits a
/// pixel or is empty.
pub open spec fn chosen_mode(boot: FbMode, fallback: Option<FbMode>) -> Option<FbMode> {
    let m = if boot.phys != 0 {
        Some(boot)
    } else {
        fallback
    };
    match m {
        Some(m) if m.bpp == 32 && m.width != 0 && m.height != 0 => Some(m),
        _ => None,
    }
}

/// What the boot loader says, cut to the fields of a mode.
pub open spec fn boot_mode(phys: u64, pitch: u64, width: u64, height: u64, bpp: u16) -> FbMode {
    FbMode {
        phys,
        pitch: pitch as u32,
        width: width as u32,
        height: height as u32,
        bpp: bpp as u8,
    }
}

impl Framebuffer {
    /// No framebuffer.
    pub fn none() -> (f: Framebuffer)
        ensures
            f == (Framebuffer { virt: 0, pitch: 0, width: 0, height: 0 }),
    {
        Framebuffer { virt: 0, pitch: 0, width: 0, height: 0 }
    }

    /// Choose a framebuffer. The result is its physical address and the pages to
    /// map uncached at [`FB_VA_BASE`]; `None` where none is used.
    pub fn init_from_limine(
        &mut self,
        phys: u64,
        pitch: u64,
        width: u64,
        height: u64,
        bpp: u16,
        fallback: Option<FbMode>,
    ) -> (r: Option<(u64, u64)>)
        ensures
            match chosen_mode(boot_mode(phys, pitch, width, height, bpp), fallback) {
                Some(m) => r == Some((m.phys, pages_of(m) as u64)) && *final(self) == (Framebuffer {
                    virt: FB_VA_BASE,
                    pitch: m.pitch,
                    width: m.width,
                    height: m.height,
                }),
                None => r is None && *final(self) == *old(self),
            },
    {
        let m: FbMode = if phys != 0 {
            FbMode {
                phys,
                pitch: #[verifier::truncate] (pitch as u32),
                width: #[verifier::truncate] (width as u32),
                height: #[verifier::truncate] (height as u32),
                bpp: #[verifier::truncate] (bpp as u8),
            }
        } else {
            match fallback {
                Some(m) => m,
                None => {
                    return None;
                },
            }
        };
        if m.bpp != 32 || m.width == 0 || m.height == 0 {
            return None;
        }
        assert(0 <= m.pitch * m.height <= 0xFFFF_FFFF * 0xFFFF_FFFF) by (nonlinear_arith)
            requires
                0 <= m.pitch <= 0xFFFF_FFFF,
                0 <= m.height <= 0xFFFF_FFFF,
        ;
        let bytes: u64 = m.pitch as u64 * m.height as u64;
        let pages: u64 = (bytes + 4095) / 4096;
        *self = Framebuffer {
            virt: FB_VA_BASE,
            pitch: m.pitch,
            width: m.width,
            height: m.height,
        };
        Some((m.phys, pages))
    }

    pub fn is_active(&self) -> (r: bool)
        ensures
            r == (self.virt != 0),
    {
        self.virt != 0
    }

    /// Where the framebuffer is, its pitch and its size; `None` while it is not
    /// mapped.
    pub fn raw(&self) -> (r: Option<(u64, u64, u32, u32)>)
        ensures
            r == if self.virt == 0 {
                None
            } else {
                Some((self.virt, self.pitch as u64, self.width, self.height))
            },
    {
        if self.virt == 0 {
            None
        } else {
            Some((self.virt, self.pitch as u64, self.width, self.height))
        }
    }

    pub fn width(&self) -> (w: u32)
        ensures
            w == self.width,
    {
        self.width
    }

    pub fn height(&self) -> (h: u32)
        ensures
            h == self.height,
    {
        self.height
    }

    pub fn dimensions(&self) -> (r: (u32, u32))
        ensures
            r == (self.width, self.height),
    {
        (self.width, self.height)
    }

    /// Where a pixel is in the framebuffer, from its start; `None` for one that
    /// is not on the screen. Its colour is the low 24 bits.
    pub fn put_pixel(&self, x: u32, y: u32, rgb: u32) -> (r: Option<(u64, u32)>)
        requires
            y * self.pitch + x * 4 <= u64::MAX,
        ensures
            r == if self.virt == 0 || x >= self.width || y >= self.height {
                None
            } else {
                Some(((y * self.pitch + x * 4) as u64, (rgb % 0x100_0000) as u32))
            },
    {
        if self.virt == 0 || x >= self.width || y >= self.height {
            return None;
        }
        assert(0 <= y * self.pitch) by (nonlinear_arith);
        Some((y as u64 * self.pitch as u64 + x as u64 * 4, rgb % 0x100_0000))
    }

    /// What a rectangle covers of the screen; `None` where that is nothing.
    pub open spec fn covered(self, x: u32, y: u32, w: u32, h: u32, rgb: u32) -> Option<Rect> {
        let x2 = if x + w < self.width {
            x + w
        } else {
            self.width as int
        };
        let y2 = if y + h < self.height {
            y + h
        } else {
            self.height as int
        };
        if self.virt == 0 || x >= x2 || y >= y2 {
            None
        } else {
            Some(
                Rect {
                    x1: x,
                    y1: y,
                    x2: x2 as u32,
                    y2: y2 as u32,
                    color: (rgb % 0x100_0000) as u32,
                },
            )
        }
    }

    /// Clip a rectangle to the screen.
    pub fn fill_rect(&self, x: u32, y: u32, w: u32, h: u32, rgb: u32) -> (r: Option<Rect>)
        ensures
            r == self.covered(x, y, w, h, rgb),
    {
        let x2: u64 = if x as u64 + (w as u64) < self.width as u64 {
            x as u64 + w as u64
        } else {
            self.width as u64
        };
        let y2: u64 = if y as u64 + (h as u64) < self.height as u64 {
            y as u64 + h as u64
        } else {
            self.height as u64
        };
        if self.virt == 0 || x as u64 >= x2 || y as u64 >= y2 {
            return None;
        }
        Some(Rect { x1: x, y1: y, x2: x2 as u32, y2: y2 as u32, color: rgb % 0x100_0000 })
    }

    /// The whole screen in one colour.
    pub fn clear(&self, rgb: u32) -> (r: Option<Rect>)
        ensures
            r == self.covered(0, 0, self.width, self.height, rgb),
    {
        self.fill_rect(0, 0, self.width, self.height, rgb)
    }

    /// The rectangles of the boot screen, before they are clipped.
    pub open spec fn splash(self) -> Seq<(int, int, int, int, u32)> {
        let w = self.width as int;
        let h = self.height as int;
        let bw = w / 4;
        let px = w / 2 - 120;
        let py = h / 2 - 40;
        seq![
            (0, 0, w, h, 0x0D_1117u32),
            (0, 0, bw, 6, 0x63_66F1u32),
            (bw, 0, bw, 6, 0x8B_5CF6u32),
            (2 * bw, 0, bw, 6, 0x06_B6D4u32),
            (3 * bw, 0, bw, 6, 0x10_B981u32),
            (4 * bw, 0, w - 4 * bw, 6, 0x10_B981u32),
            (0, 6, w, 1, 0x21_262Du32),
            (0, h - 1, w, 1, 0x21_262Du32),
            (0, h - 24, w, 23, 0x16_1B22u32),
            (px, py, 240, 80, 0x21_262Du32),
            (px + 2, py + 2, 236, 76, 0x0D_1117u32),
        ]
    }

    fn add(&self, v: &mut Vec<Rect>, x: u32, y: u32, w: u32, h: u32, rgb: u32)
        ensures
            final(v)@ == match self.covered(x, y, w, h, rgb) {
                Some(r) => old(v)@.push(r),
                None => old(v)@,
            },
    {
        if let Some(r) = self.fill_rect(x, y, w, h, rgb) {
            v.push(r);
        }
    }

    /// The boot screen: what is filled, in order. It needs a screen of 240 by 80
    /// at least; without one nothing is filled.
    pub fn draw_splash(&self) -> (v: Vec<Rect>)
        requires
            self.width == 0 || self.height == 0 || (self.width >= 240 && self.height >= 80),
        ensures
            v@ == if self.width == 0 || self.height == 0 {
                seq![]
            } else {
                filled(*self, self.splash(), 11)
            },
    {
        let mut v: Vec<Rect> = Vec::new();
        let w: u32 = self.width;
        let h: u32 = self.height;
        if w == 0 || h == 0 {
            return v;
        }
        let bw: u32 = w / 4;
        let px: u32 = w / 2 - 120;
        let py: u32 = h / 2 - 40;
        proof {
            reveal_with_fuel(filled, 12);
        }
        self.add(&mut v, 0, 0, w, h, 0x0D_1117);
        self.add(&mut v, 0, 0, bw, 6, 0x63_66F1);
        self.add(&mut v, bw, 0, bw, 6, 0x8B_5CF6);
        self.add(&mut v, 2 * bw, 0, bw, 6, 0x06_B6D4);
        self.add(&mut v, 3 * bw, 0, bw, 6, 0x10_B981);
        self.add(&mut v, 4 * bw, 0, w - 4 * bw, 6, 0x10_B981);
        self.add(&mut v, 0, 6, w, 1, 0x21_262D);
        self.add(&mut v, 0, h - 1, w, 1, 0x21_262D);
        self.add(&mut v, 0, h - 24, w, 23, 0x16_1B22);
        self.add(&mut v, px, py, 240, 80, 0x21_262D);
        self.add(&mut v, px + 2, py + 2, 236, 76, 0x0D_1117);
        v
    }
}

/// The first `n` of the rectangles, clipped.
pub open spec fn filled(f: Framebuffer, rects: Seq<(int, int, int, int, u32)>, n: nat) -> Seq<Rect>
    decreases n,
{
    if n == 0 {
        seq![]
    } else {
        let head = filled(f, rects, (n - 1) as nat);
        let (x, y, w, h, c) = rects[n - 1];
        match f.covered(x as u32, y as u32, w as u32, h as u32, c) {
            Some(r) => head.push(r),
            None => head,
        }
    }
}

/// Whatever is filled lies on the screen.
pub proof fn law_fills_stay_on_screen(f: Framebuffer, x: u32, y: u32, w: u32, h: u32, rgb: u32)
    ensures
        f.covered(x, y, w, h, rgb) matches Some(r) ==> r.x1 < r.x2 <= f.width && r.y1 < r.y2
            <= f.height && r.color < 0x100_0000,
{
}

} // verus!
