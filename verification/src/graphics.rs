//! Bitmap drawing surface with double-buffered page flipping.
//!
//! `Display` models the console's video hardware as plain values: the video
//! RAM as one word per 16bpp pixel, the display-control register, and the
//! word offset of the page that drawing currently targets. Every primitive
//! states exactly which words it overwrites and that every other word keeps
//! its value. The host program copies the modelled state to the real
//! memory-mapped registers and video memory; nothing here performs I/O.

use vstd::prelude::*;
use vstd::pervasive::VecAdditionalExecFns;
use vstd::arithmetic::mul::lemma_mul_inequality;
use vstd::set_lib::set_int_range;
use vstd::set_lib::lemma_int_range;
use vstd::set_lib::lemma_set_disjoint_lens;
use crate::vec2::Vec2;
use crate::vec2::iabs;

verus! {

/// Pixels per row in the single-page video mode.
pub const SCREEN_WIDTH: u32 = 240;
/// Rows in the single-page video mode.
pub const SCREEN_HEIGHT: u32 = 160;
/// Pixels per row in the double-buffered video mode.
pub const M5_SCREEN_WIDTH: u32 = 160;
/// Rows in the double-buffered video mode.
pub const M5_SCREEN_HEIGHT: u32 = 128;

/// Size of one framebuffer page, in 16-bit words (0xA000 bytes).
pub const PAGE_WORDS: usize = 20480;
/// Size of the whole video RAM, in 16-bit words (96 KiB).
pub const VRAM_WORDS: usize = 49152;
/// Display-control bit that selects which page the hardware scans out.
pub const SHOW_FRAME1: u16 = 0x0010;

/// The scanline index at which the vertical blank begins.
pub const VBLANK_START: u16 = 160;

/// The modelled video hardware: video RAM, the display-control register, and
/// the word offset of the page that drawing currently targets.
pub struct Display {
    vram: Vec<u16>,
    dispcnt: u16,
    page_base: usize,
}

impl Display {
    /// The video RAM contents, one word per pixel.
    pub closed spec fn mem(self) -> Seq<u16> {
        self.vram@
    }

    /// The display-control register.
    pub closed spec fn ctrl(self) -> u16 {
        self.dispcnt
    }

    /// Word offset of the writable page: 0 or `PAGE_WORDS`.
    pub closed spec fn page(self) -> int {
        self.page_base as int
    }

    /// The state a display always has: full-size video RAM and a page
    /// offset that names one of the two framebuffer pages.
    pub open spec fn wf(self) -> bool {
        &&& self.mem().len() == VRAM_WORDS
        &&& (self.page() == 0 || self.page() == PAGE_WORDS as int)
    }

    /// The video-mode field of the display-control register.
    pub open spec fn spec_video_mode(self) -> u16 {
        self.ctrl() & 7
    }

    /// Pixels per row of the current video mode.
    pub open spec fn stride(self) -> int {
        if self.spec_video_mode() == 5 {
            M5_SCREEN_WIDTH as int
        } else {
            SCREEN_WIDTH as int
        }
    }

    /// The video RAM word that holds pixel `(x, y)` of the writable page.
    pub open spec fn pix(self, x: int, y: int) -> int {
        pix_at(self.page(), self.stride(), x, y)
    }

    /// A fresh display: video RAM cleared to zero (black), register zero,
    /// drawing to the first page.
    pub fn new() -> (r: Display)
        ensures
            r.wf(),
            r.mem() =~= Seq::new(VRAM_WORDS as nat, |i: int| 0u16),
            r.ctrl() == 0,
            r.page() == 0,
    {
        let vram: Vec<u16> = vec![0u16; VRAM_WORDS];
        Display { vram, dispcnt: 0, page_base: 0 }
    }

    /// Read back one word of video RAM.
    pub fn vram_word(&self, idx: usize) -> (r: u16)
        requires
            idx < VRAM_WORDS,
            self.wf(),
        ensures
            r == self.mem()[idx as int],
    {
        self.vram[idx]
    }

    /// Word offset of the page that drawing currently targets.
    pub fn page_offset(&self) -> (r: usize)
        ensures
            r == self.page(),
    {
        self.page_base
    }

    /// The display-control register as last written.
    pub fn display_control(&self) -> (r: u16)
        ensures
            r == self.ctrl(),
    {
        self.dispcnt
    }

    /// Sets full display mode mask.
    pub fn set_display_mode(&mut self, mode: u16)
        requires
            old(self).wf(),
        ensures
            final(self).wf(),
            final(self).ctrl() == mode,
            final(self).mem() == old(self).mem(),
            final(self).page() == old(self).page(),
    {
        self.dispcnt = mode;
    }

    /// Returns current display mode (the low three register bits).
    pub fn video_mode(&self) -> (r: u32)
        ensures
            r == self.spec_video_mode(),
    {
        (self.dispcnt & 7) as u32
    }

    /// Flips the back and front pages: drawing moves to the other page and
    /// the register bit that selects the scanned-out page is toggled.
    pub fn flip_page(&mut self)
        requires
            old(self).wf(),
        ensures
            final(self).wf(),
            flipped(*old(self), *final(self)),
    {
        self.page_base = if self.page_base == 0 {
            PAGE_WORDS
        } else {
            0
        };
        self.dispcnt = self.dispcnt ^ SHOW_FRAME1;
    }
}

/// How one page flip relates the display before it to the display after it.
pub open spec fn flipped(pre: Display, post: Display) -> bool {
    &&& post.page() == (if pre.page() == 0 {
        PAGE_WORDS as int
    } else {
        0
    })
    &&& post.ctrl() == pre.ctrl() ^ SHOW_FRAME1
    &&& post.mem() == pre.mem()
}

/// Law: two consecutive page flips restore the page offset, the
/// display-control register, and the video RAM.
pub proof fn lemma_flip_involution(d0: Display, d1: Display, d2: Display)
    requires
        d0.wf(),
        flipped(d0, d1),
        flipped(d1, d2),
    ensures
        d2.page() == d0.page(),
        d2.ctrl() == d0.ctrl(),
        d2.mem() == d0.mem(),
{
    let c: u16 = d0.ctrl();
    assert((c ^ SHOW_FRAME1) ^ SHOW_FRAME1 == c) by (bit_vector);
}

/// Where the busy wait for the vertical blank stands: still inside a
/// previous blank, inside the active draw, or at a fresh blank's start.
#[derive(Copy, Clone, Debug, PartialEq, Eq, Structural)]
pub enum VsyncPhase {
    AwaitVdraw,
    AwaitVblank,
    Done,
}

/// What one vertical-count sample decides for the vertical-blank wait.
pub open spec fn spec_vsync_step(phase: VsyncPhase, vcount: u16) -> VsyncPhase {
    match phase {
        VsyncPhase::AwaitVdraw => if vcount >= VBLANK_START {
            VsyncPhase::AwaitVdraw
        } else {
            VsyncPhase::AwaitVblank
        },
        VsyncPhase::AwaitVblank => if vcount < VBLANK_START {
            VsyncPhase::AwaitVblank
        } else {
            VsyncPhase::Done
        },
        VsyncPhase::Done => VsyncPhase::Done,
    }
}

/// One step of the vertical-blank wait: first leave any blank already in
/// progress, then wait out the active draw; the first sample at or past
/// `VBLANK_START` after that marks a fresh blank. The host loop reads the
/// vertical-count register and feeds each sample through here until `Done`.
pub fn vsync_step(phase: VsyncPhase, vcount: u16) -> (r: VsyncPhase)
    ensures
        r == spec_vsync_step(phase, vcount),
{
    match phase {
        VsyncPhase::AwaitVdraw => if vcount >= VBLANK_START {
            VsyncPhase::AwaitVdraw
        } else {
            VsyncPhase::AwaitVblank
        },
        VsyncPhase::AwaitVblank => if vcount < VBLANK_START {
            VsyncPhase::AwaitVblank
        } else {
            VsyncPhase::Done
        },
        VsyncPhase::Done => VsyncPhase::Done,
    }
}

impl Display {
    /// Draws a point with specified color at coords (x,y).
    pub fn point(&mut self, p: Vec2<u32>, color: u16)
        requires
            old(self).wf(),
            p.x < old(self).stride(),
            old(self).pix(p.x as int, p.y as int) < VRAM_WORDS,
        ensures
            final(self).wf(),
            final(self).ctrl() == old(self).ctrl(),
            final(self).page() == old(self).page(),
            final(self).mem() == old(self).mem().update(
                old(self).pix(p.x as int, p.y as int),
                color,
            ),
    {
        let stride: u32 = if self.video_mode() == 5 {
            M5_SCREEN_WIDTH
        } else {
            SCREEN_WIDTH
        };
        let idx: usize = self.page_base + (p.y * stride + p.x) as usize;
        self.vram.set(idx, color);
    }
}

/// The video RAM word that holds pixel `(x, y)` of a page at word offset
/// `page` under row length `stride`.
pub open spec fn pix_at(page: int, stride: int, x: int, y: int) -> int {
    page + y * stride + x
}

/// Whether video RAM word `i` holds a pixel of the inclusive coordinate
/// rectangle `[x0, x1] x [y0, y1]`.
pub open spec fn span_covers(page: int, stride: int, x0: int, x1: int, y0: int, y1: int, i: int) -> bool {
    exists|x: int, y: int| x0 <= x <= x1 && y0 <= y <= y1 && i == #[trigger] pix_at(page, stride, x, y)
}

/// Whether video RAM word `i` holds a pixel of the inclusive rectangle with
/// top-left corner `p` and extents `w` and `h`.
pub open spec fn rect_covers(page: int, stride: int, p: Vec2<u32>, w: u32, h: u32, i: int) -> bool {
    span_covers(page, stride, p.x as int, p.x + w, p.y as int, p.y + h, i)
}

/// Word indices grow with both coordinates.
proof fn lemma_pix_mono(page: int, stride: int, x1: int, y1: int, x2: int, y2: int)
    requires
        x1 <= x2,
        y1 <= y2,
        stride >= 0,
    ensures
        pix_at(page, stride, x1, y1) <= pix_at(page, stride, x2, y2),
{
    lemma_mul_inequality(y1, y2, stride);
}

impl Display {
    /// Draws a full rect with specified width + height with top-left at
    /// point p and specified color. Both edges are inclusive: the rectangle
    /// is `(width + 1) x (height + 1)` pixels.
    pub fn rect(&mut self, p: Vec2<u32>, width: u32, height: u32, color: u16)
        requires
            old(self).wf(),
            p.x + width < old(self).stride(),
            old(self).pix(p.x + width, p.y + height) < VRAM_WORDS,
        ensures
            final(self).wf(),
            final(self).ctrl() == old(self).ctrl(),
            final(self).page() == old(self).page(),
            forall|k: int|
                0 <= k < VRAM_WORDS
                    && rect_covers(old(self).page(), old(self).stride(), p, width, height, k)
                    ==> final(self).mem()[k] == color,
            forall|k: int|
                0 <= k < VRAM_WORDS
                    && !rect_covers(old(self).page(), old(self).stride(), p, width, height, k)
                    ==> final(self).mem()[k] == old(self).mem()[k],
    {
        let ghost d0 = *self;
        let ghost pg = d0.page();
        let ghost st = d0.stride();
        proof {
            assert(st == 160 || st == 240);
            lemma_row_bound(pg, st, p.x + width, p.y + height);
        }
        let mut i: u32 = 0;
        while i <= width
            invariant
                d0.wf(),
                pg == d0.page(),
                st == d0.stride(),
                p.x + width < st,
                pix_at(pg, st, p.x + width, p.y + height) < VRAM_WORDS,
                p.x + width < 240,
                p.y + height < 308,
                i <= width + 1,
                self.wf(),
                self.ctrl() == d0.ctrl(),
                self.page() == d0.page(),
                forall|k: int|
                    0 <= k < VRAM_WORDS
                        && span_covers(pg, st, p.x as int, p.x + i - 1, p.y as int, p.y + height, k)
                        ==> self.mem()[k] == color,
                forall|k: int|
                    0 <= k < VRAM_WORDS && !rect_covers(pg, st, p, width, height, k)
                        ==> self.mem()[k] == d0.mem()[k],
            decreases width + 1 - i,
        {
            let mut j: u32 = 0;
            while j <= height
                invariant
                    d0.wf(),
                    pg == d0.page(),
                    st == d0.stride(),
                    p.x + width < st,
                    pix_at(pg, st, p.x + width, p.y + height) < VRAM_WORDS,
                    p.x + width < 240,
                    p.y + height < 308,
                    i <= width,
                    j <= height + 1,
                    self.wf(),
                    self.ctrl() == d0.ctrl(),
                    self.page() == d0.page(),
                    forall|k: int|
                        0 <= k < VRAM_WORDS
                            && (span_covers(pg, st, p.x as int, p.x + i - 1, p.y as int, p.y + height, k)
                                || span_covers(pg, st, p.x + i, p.x + i, p.y as int, p.y + j - 1, k))
                            ==> self.mem()[k] == color,
                    forall|k: int|
                        0 <= k < VRAM_WORDS && !rect_covers(pg, st, p, width, height, k)
                            ==> self.mem()[k] == d0.mem()[k],
                decreases height + 1 - j,
            {
                proof {
                    lemma_pix_mono(pg, st, p.x + i, p.y + j, p.x + width, p.y + height);
                    lemma_pix_mono(pg, st, 0, 0, p.x + i, p.y + j);
                }
                let ghost pre = *self;
                let q = p.add(Vec2::new(i, j));
                self.point(q, color);
                proof {
                    let cur = pix_at(pg, st, p.x + i, p.y + j);
                    assert(pix_at(pg, st, q.x as int, q.y as int) == cur);
                    assert forall|k: int|
                        0 <= k < VRAM_WORDS
                            && (span_covers(pg, st, p.x as int, p.x + i - 1, p.y as int, p.y + height, k)
                                || span_covers(pg, st, p.x + i, p.x + i, p.y as int, p.y + j + 1 - 1, k))
                        implies self.mem()[k] == color by {
                        if k == cur {
                        } else {
                            if span_covers(pg, st, p.x + i, p.x + i, p.y as int, p.y + j + 1 - 1, k) {
                                let (x, y): (int, int) = choose|x: int, y: int|
                                    p.x + i <= x <= p.x + i && p.y <= y <= p.y + j + 1 - 1
                                        && k == #[trigger] pix_at(pg, st, x, y);
                                if y == p.y + j {
                                    assert(k == cur);
                                } else {
                                    assert(span_covers(pg, st, p.x + i, p.x + i, p.y as int, p.y + j - 1, k));
                                }
                            }
                            assert(self.mem()[k] == pre.mem()[k]);
                        }
                    }
                    assert forall|k: int|
                        0 <= k < VRAM_WORDS && !rect_covers(pg, st, p, width, height, k)
                        implies self.mem()[k] == d0.mem()[k] by {
                        assert(p.x <= p.x + i <= p.x + width && p.y <= p.y + j <= p.y + height);
                        assert(rect_covers(pg, st, p, width, height, cur));
                        assert(k != cur);
                        assert(self.mem()[k] == pre.mem()[k]);
                    }
                }
                j = j + 1;
            }
            proof {
                assert forall|k: int|
                    0 <= k < VRAM_WORDS
                        && span_covers(pg, st, p.x as int, p.x + i + 1 - 1, p.y as int, p.y + height, k)
                    implies self.mem()[k] == color by {
                    let (x, y): (int, int) = choose|x: int, y: int|
                        p.x <= x <= p.x + i && p.y <= y <= p.y + height
                            && k == #[trigger] pix_at(pg, st, x, y);
                    if x <= p.x + i - 1 {
                        assert(span_covers(pg, st, p.x as int, p.x + i - 1, p.y as int, p.y + height, k));
                    } else {
                        assert(x == p.x + i);
                        assert(span_covers(pg, st, p.x + i, p.x + i, p.y as int, p.y + height + 1 - 1, k));
                    }
                }
            }
            i = i + 1;
        }
    }
}

/// Larger of two integers.
pub open spec fn imax(a: int, b: int) -> int {
    if a >= b {
        a
    } else {
        b
    }
}

/// The pixels the error-accumulator walk visits from `(x, y)` to
/// `(x2, y2)`: at each step the doubled error decides whether the walk
/// advances in x (by `sx`), in y (by `sy`), or in both, until it reaches
/// the end point. The recursion stops early if a step fails to approach
/// the end point; the walk lemmas show that from a well-formed start this
/// never happens.
pub open spec fn bres_pts(
    x: int,
    y: int,
    x2: int,
    y2: int,
    sx: int,
    sy: int,
    dx: int,
    dy: int,
    err: int,
) -> Seq<(int, int)>
    decreases iabs(x2 - x) + iabs(y2 - y),
{
    if x == x2 && y == y2 {
        seq![(x, y)]
    } else {
        let e2 = 2 * err;
        let nx = if e2 > -dy {
            x + sx
        } else {
            x
        };
        let ny = if e2 < dx {
            y + sy
        } else {
            y
        };
        let ne = err + (if e2 > -dy {
            -dy
        } else {
            0
        }) + (if e2 < dx {
            dx
        } else {
            0
        });
        if iabs(x2 - nx) + iabs(y2 - ny) < iabs(x2 - x) + iabs(y2 - y) {
            seq![(x, y)] + bres_pts(nx, ny, x2, y2, sx, sy, dx, dy, ne)
        } else {
            seq![(x, y)]
        }
    }
}

/// The states the error-accumulator walk can actually be in: unit steps,
/// both remaining distances within the line's extents, and the error
/// determined by the remaining distances.
pub open spec fn bres_inv(
    x: int,
    y: int,
    x2: int,
    y2: int,
    sx: int,
    sy: int,
    dx: int,
    dy: int,
    err: int,
) -> bool {
    &&& dx >= 1
    &&& dy >= 1
    &&& (sx == 1 || sx == -1)
    &&& (sy == 1 || sy == -1)
    &&& 0 <= sx * (x2 - x) <= dx
    &&& 0 <= sy * (y2 - y) <= dy
    &&& err == dx - dy - (dx - sx * (x2 - x)) * dy + (dy - sy * (y2 - y)) * dx
}

/// From a well-formed state that has not reached the end point, one step of
/// the walk strictly approaches the end point and lands in a well-formed
/// state again; in particular the walk never overshoots either coordinate.
proof fn lemma_bres_step(
    x: int,
    y: int,
    x2: int,
    y2: int,
    sx: int,
    sy: int,
    dx: int,
    dy: int,
    err: int,
)
    requires
        bres_inv(x, y, x2, y2, sx, sy, dx, dy, err),
        !(x == x2 && y == y2),
    ensures
        ({
            let e2 = 2 * err;
            let nx = if e2 > -dy {
                x + sx
            } else {
                x
            };
            let ny = if e2 < dx {
                y + sy
            } else {
                y
            };
            let ne = err + (if e2 > -dy {
                -dy
            } else {
                0
            }) + (if e2 < dx {
                dx
            } else {
                0
            });
            &&& iabs(x2 - nx) + iabs(y2 - ny) < iabs(x2 - x) + iabs(y2 - y)
            &&& bres_inv(nx, ny, x2, y2, sx, sy, dx, dy, ne)
            &&& bres_pts(x, y, x2, y2, sx, sy, dx, dy, err)
                == seq![(x, y)] + bres_pts(nx, ny, x2, y2, sx, sy, dx, dy, ne)
        }),
{
    let u = sx * (x2 - x);
    let v = sy * (y2 - y);
    assert((sx == 1 || sx == -1) && sx * (x2 - x) == 0 ==> x2 - x == 0) by (nonlinear_arith);
    assert((sy == 1 || sy == -1) && sy * (y2 - y) == 0 ==> y2 - y == 0) by (nonlinear_arith);
    assert(u == 0 ==> x == x2);
    assert(v == 0 ==> y == y2);
    assert(u + v >= 1);
    assert((dx - u) * dy == dx * dy - u * dy) by (nonlinear_arith);
    assert((dy - v) * dx == dy * dx - v * dx) by (nonlinear_arith);
    assert(dx * dy == dy * dx) by (nonlinear_arith);
    assert(err == dx - dy - dx * dy + u * dy + dy * dx - v * dx);
    let e2 = 2 * err;
    if u == 0 {
        assert(v >= 1);
        assert(dx * (1 - v) <= 0) by (nonlinear_arith)
            requires
                dx >= 1,
                v >= 1,
        ;
        assert(dx * (1 - v) == dx - v * dx + 0 * dy) by (nonlinear_arith);
        assert(e2 == 2 * (dx - dy - v * dx));
        assert(e2 <= -2 * dy);
        assert(!(e2 > -dy));
    }
    if v == 0 {
        assert(u >= 1);
        assert(u * dy >= dy) by (nonlinear_arith)
            requires
                u >= 1,
                dy >= 1,
        ;
        assert(e2 == 2 * (dx - dy + u * dy));
        assert(e2 >= 2 * dx);
        assert(!(e2 < dx));
    }
    assert(e2 > -dy || e2 < dx);
    let cx = e2 > -dy;
    let cy = e2 < dx;
    let nx = if cx {
        x + sx
    } else {
        x
    };
    let ny = if cy {
        y + sy
    } else {
        y
    };
    let ne = err + (if cx {
        -dy
    } else {
        0
    }) + (if cy {
        dx
    } else {
        0
    });
    let nu = sx * (x2 - nx);
    let nv = sy * (y2 - ny);
    assert((sx == 1 || sx == -1) ==> sx * sx == 1) by (nonlinear_arith);
    assert((sy == 1 || sy == -1) ==> sy * sy == 1) by (nonlinear_arith);
    assert(sx * (x2 - (x + sx)) == sx * (x2 - x) - sx * sx) by (nonlinear_arith);
    assert(sy * (y2 - (y + sy)) == sy * (y2 - y) - sy * sy) by (nonlinear_arith);
    if cx {
        assert(u >= 1);
        assert(nu == u - 1);
    } else {
        assert(nu == u);
    }
    if cy {
        assert(v >= 1);
        assert(nv == v - 1);
    } else {
        assert(nv == v);
    }
    assert((sx == 1 || sx == -1) && sx * (x2 - x) >= 0 ==> iabs(x2 - x) == sx * (x2 - x))
        by (nonlinear_arith);
    assert((sy == 1 || sy == -1) && sy * (y2 - y) >= 0 ==> iabs(y2 - y) == sy * (y2 - y))
        by (nonlinear_arith);
    assert((sx == 1 || sx == -1) && sx * (x2 - nx) >= 0 ==> iabs(x2 - nx) == sx * (x2 - nx))
        by (nonlinear_arith);
    assert((sy == 1 || sy == -1) && sy * (y2 - ny) >= 0 ==> iabs(y2 - ny) == sy * (y2 - ny))
        by (nonlinear_arith);
    assert(iabs(x2 - x) == u && iabs(y2 - y) == v);
    assert(iabs(x2 - nx) == nu && iabs(y2 - ny) == nv);
    assert(nu + nv < u + v);
    assert((dx - nu) * dy == (dx - u) * dy + (if cx {
        dy
    } else {
        0
    })) by (nonlinear_arith)
        requires
            nu == (if cx {
                u - 1
            } else {
                u
            }),
    ;
    assert((dy - nv) * dx == (dy - v) * dx + (if cy {
        dx
    } else {
        0
    })) by (nonlinear_arith)
        requires
            nv == (if cy {
                v - 1
            } else {
                v
            }),
    ;
    assert(ne == dx - dy - (dx - nu) * dy + (dy - nv) * dx);
    assert(bres_inv(nx, ny, x2, y2, sx, sy, dx, dy, ne));
}

/// The pixels `line` writes, as coordinates in drawing order: the inclusive
/// horizontal or vertical span where the end points share a coordinate, and
/// the error-accumulator walk otherwise.
pub open spec fn line_pts(p1: Vec2<u32>, p2: Vec2<u32>) -> Seq<(int, int)> {
    let xlo = if p1.x <= p2.x {
        p1.x as int
    } else {
        p2.x as int
    };
    let xhi = if p1.x <= p2.x {
        p2.x as int
    } else {
        p1.x as int
    };
    let ylo = if p1.y <= p2.y {
        p1.y as int
    } else {
        p2.y as int
    };
    let yhi = if p1.y <= p2.y {
        p2.y as int
    } else {
        p1.y as int
    };
    if p1.y == p2.y {
        Seq::new((xhi - xlo + 1) as nat, |n: int| (xlo + n, ylo))
    } else if p1.x == p2.x {
        Seq::new((yhi - ylo + 1) as nat, |n: int| (xlo, ylo + n))
    } else {
        bres_pts(
            p1.x as int,
            p1.y as int,
            p2.x as int,
            p2.y as int,
            if p2.x > p1.x {
                1
            } else {
                -1
            },
            if p2.y > p1.y {
                1
            } else {
                -1
            },
            xhi - xlo,
            yhi - ylo,
            (xhi - xlo) - (yhi - ylo),
        )
    }
}

/// Whether video RAM word `k` holds one of the first `hi` coordinates of `q`.
pub open spec fn pts_covers(page: int, stride: int, q: Seq<(int, int)>, hi: int, k: int) -> bool {
    exists|m: int| 0 <= m < hi && k == pix_at(page, stride, (#[trigger] q[m]).0, q[m].1)
}

/// Whether video RAM word `k` holds a pixel of the line from `p1` to `p2`.
pub open spec fn line_covers(page: int, stride: int, p1: Vec2<u32>, p2: Vec2<u32>, k: int) -> bool {
    pts_covers(page, stride, line_pts(p1, p2), line_pts(p1, p2).len() as int, k)
}

/// A row index low enough that its pixels fit in video RAM is below 308.
proof fn lemma_row_bound(pg: int, st: int, x: int, y: int)
    requires
        st == 160 || st == 240,
        pg >= 0,
        0 <= x,
        0 <= y,
        pix_at(pg, st, x, y) < VRAM_WORDS,
    ensures
        y < 308,
{
    lemma_mul_inequality(160, st, y);
    assert(160 * y == y * 160) by (nonlinear_arith);
    assert(st * y == y * st) by (nonlinear_arith);
}

impl Display {
    /// Draws a line from point p1 to point p2 with specified color: the
    /// inclusive horizontal or vertical span where the end points share a
    /// coordinate, and the error-accumulator walk of `line_pts` otherwise.
    #[verifier::rlimit(100)]
    pub fn line(&mut self, p1: Vec2<u32>, p2: Vec2<u32>, color: u16)
        requires
            old(self).wf(),
            p1.x < old(self).stride(),
            p2.x < old(self).stride(),
            pix_at(
                old(self).page(),
                old(self).stride(),
                imax(p1.x as int, p2.x as int),
                imax(p1.y as int, p2.y as int),
            ) < VRAM_WORDS,
        ensures
            final(self).wf(),
            final(self).ctrl() == old(self).ctrl(),
            final(self).page() == old(self).page(),
            forall|k: int|
                0 <= k < VRAM_WORDS
                    && line_covers(old(self).page(), old(self).stride(), p1, p2, k)
                    ==> final(self).mem()[k] == color,
            forall|k: int|
                0 <= k < VRAM_WORDS
                    && !line_covers(old(self).page(), old(self).stride(), p1, p2, k)
                    ==> final(self).mem()[k] == old(self).mem()[k],
    {
        let ghost d0 = *self;
        let ghost pg = d0.page();
        let ghost st = d0.stride();
        let ghost S = line_pts(p1, p2);
        let xlo: u32 = if p1.x < p2.x {
            p1.x
        } else {
            p2.x
        };
        let xhi: u32 = if p1.x < p2.x {
            p2.x
        } else {
            p1.x
        };
        let ylo: u32 = if p1.y < p2.y {
            p1.y
        } else {
            p2.y
        };
        let yhi: u32 = if p1.y < p2.y {
            p2.y
        } else {
            p1.y
        };
        let dxu: u32 = xhi - xlo;
        let dyu: u32 = yhi - ylo;
        proof {
            assert(st == 160 || st == 240);
            lemma_row_bound(pg, st, xhi as int, yhi as int);
        }
        if dyu == 0 {
            proof {
                lemma_pix_mono(pg, st, xhi as int, ylo as int, xhi as int, yhi as int);
            }
            let q = Vec2::new(xlo, ylo);
            self.rect(q, dxu, 0, color);
            proof {
                assert(S =~= Seq::new((xhi - xlo + 1) as nat, |n: int| (xlo + n, ylo as int)));
                assert forall|k: int| line_covers(pg, st, p1, p2, k)
                    implies rect_covers(pg, st, q, dxu, 0, k) by {
                    let m = choose|m: int|
                        0 <= m < S.len() && k == pix_at(pg, st, (#[trigger] S[m]).0, S[m].1);
                    assert(S[m] == (xlo + m, ylo as int));
                    assert(k == pix_at(pg, st, xlo + m, ylo as int));
                    assert(span_covers(pg, st, xlo as int, xlo + dxu, ylo as int, ylo as int, k));
                }
                assert forall|k: int| rect_covers(pg, st, q, dxu, 0, k)
                    implies line_covers(pg, st, p1, p2, k) by {
                    let (x, y): (int, int) = choose|x: int, y: int|
                        xlo <= x <= xlo + dxu && ylo <= y <= ylo + 0
                            && k == #[trigger] pix_at(pg, st, x, y);
                    let m = x - xlo;
                    assert(S[m] == (x, ylo as int));
                    assert(k == pix_at(pg, st, S[m].0, S[m].1));
                }
            }
        } else if dxu == 0 {
            proof {
                lemma_pix_mono(pg, st, xlo as int, yhi as int, xhi as int, yhi as int);
            }
            let q = Vec2::new(xlo, ylo);
            self.rect(q, 0, dyu, color);
            proof {
                assert(S =~= Seq::new((yhi - ylo + 1) as nat, |n: int| (xlo as int, ylo + n)));
                assert forall|k: int| line_covers(pg, st, p1, p2, k)
                    implies rect_covers(pg, st, q, 0, dyu, k) by {
                    let m = choose|m: int|
                        0 <= m < S.len() && k == pix_at(pg, st, (#[trigger] S[m]).0, S[m].1);
                    assert(S[m] == (xlo as int, ylo + m));
                    assert(k == pix_at(pg, st, xlo as int, ylo + m));
                    assert(span_covers(pg, st, xlo as int, xlo + 0, ylo as int, ylo + dyu, k));
                }
                assert forall|k: int| rect_covers(pg, st, q, 0, dyu, k)
                    implies line_covers(pg, st, p1, p2, k) by {
                    let (x, y): (int, int) = choose|x: int, y: int|
                        xlo <= x <= xlo + 0 && ylo <= y <= ylo + dyu
                            && k == #[trigger] pix_at(pg, st, x, y);
                    let m = y - ylo;
                    assert(S[m] == (xlo as int, y));
                    assert(k == pix_at(pg, st, S[m].0, S[m].1));
                }
            }
        } else {
            let mut x: i32 = p1.x as i32;
            let mut y: i32 = p1.y as i32;
            let tx: i32 = p2.x as i32;
            let ty: i32 = p2.y as i32;
            let dx: i32 = dxu as i32;
            let dy: i32 = dyu as i32;
            let sx: i32 = if p2.x > p1.x {
                1
            } else {
                -1
            };
            let sy: i32 = if p2.y > p1.y {
                1
            } else {
                -1
            };
            let mut err: i32 = dx - dy;
            let ghost mut n: int = 0;
            proof {
                assert(S == bres_pts(
                    p1.x as int,
                    p1.y as int,
                    p2.x as int,
                    p2.y as int,
                    sx as int,
                    sy as int,
                    dx as int,
                    dy as int,
                    dx as int - dy as int,
                ));
                assert((dx as int - dx as int) * (dy as int) == 0) by (nonlinear_arith);
                assert((dy as int - dy as int) * (dx as int) == 0) by (nonlinear_arith);
                assert(1 * (p2.x - p1.x as int) == p2.x - p1.x as int) by (nonlinear_arith);
                assert(-1 * (p2.x - p1.x as int) == -(p2.x - p1.x as int)) by (nonlinear_arith);
                assert(1 * (p2.y - p1.y as int) == p2.y - p1.y as int) by (nonlinear_arith);
                assert(-1 * (p2.y - p1.y as int) == -(p2.y - p1.y as int)) by (nonlinear_arith);
                assert(bres_inv(
                    x as int,
                    y as int,
                    p2.x as int,
                    p2.y as int,
                    sx as int,
                    sy as int,
                    dx as int,
                    dy as int,
                    err as int,
                ));
                assert(S.skip(0) =~= S);
                assert(S[0] == (x as int, y as int));
                lemma_pix_mono(pg, st, p1.x as int, p1.y as int, xhi as int, yhi as int);
            }
            self.point(p1, color);
            proof {
                let cur = pix_at(pg, st, p1.x as int, p1.y as int);
                assert forall|k: int| 0 <= k < VRAM_WORDS && pts_covers(pg, st, S, 1, k)
                    implies self.mem()[k] == color by {
                    let m = choose|m: int|
                        0 <= m < 1 && k == pix_at(pg, st, (#[trigger] S[m]).0, S[m].1);
                    assert(m == 0);
                    assert(k == cur);
                }
                assert(0 <= 0 < S.len() && cur == pix_at(pg, st, S[0].0, S[0].1));
                assert(pts_covers(pg, st, S, S.len() as int, cur));
            }
            while x != tx || y != ty
                invariant
                    d0.wf(),
                    self.wf(),
                    self.ctrl() == d0.ctrl(),
                    self.page() == d0.page(),
                    pg == d0.page(),
                    st == d0.stride(),
                    st == 160 || st == 240,
                    pg >= 0,
                    S == line_pts(p1, p2),
                    p1.x < st,
                    p2.x < st,
                    xlo == (if p1.x < p2.x { p1.x } else { p2.x }),
                    xhi == (if p1.x < p2.x { p2.x } else { p1.x }),
                    ylo == (if p1.y < p2.y { p1.y } else { p2.y }),
                    yhi == (if p1.y < p2.y { p2.y } else { p1.y }),
                    pix_at(pg, st, xhi as int, yhi as int) < VRAM_WORDS,
                    yhi < 308,
                    tx == p2.x as int,
                    ty == p2.y as int,
                    dx == xhi - xlo,
                    dy == yhi - ylo,
                    1 <= dx <= 239,
                    1 <= dy <= 307,
                    sx == (if p2.x > p1.x { 1int } else { -1int }),
                    sy == (if p2.y > p1.y { 1int } else { -1int }),
                    bres_inv(
                        x as int,
                        y as int,
                        p2.x as int,
                        p2.y as int,
                        sx as int,
                        sy as int,
                        dx as int,
                        dy as int,
                        err as int,
                    ),
                    xlo <= x <= xhi,
                    ylo <= y <= yhi,
                    0 <= n < S.len(),
                    S[n] == (x as int, y as int),
                    S.skip(n) == bres_pts(
                        x as int,
                        y as int,
                        p2.x as int,
                        p2.y as int,
                        sx as int,
                        sy as int,
                        dx as int,
                        dy as int,
                        err as int,
                    ),
                    forall|k: int|
                        0 <= k < VRAM_WORDS && pts_covers(pg, st, S, n + 1, k)
                            ==> self.mem()[k] == color,
                    forall|k: int|
                        0 <= k < VRAM_WORDS && !pts_covers(pg, st, S, S.len() as int, k)
                            ==> self.mem()[k] == d0.mem()[k],
                decreases iabs(p2.x - x as int) + iabs(p2.y - y as int),
            {
                let ghost oldx = x as int;
                let ghost oldy = y as int;
                let ghost olderr = err as int;
                let ghost oldn = n;
                proof {
                    lemma_bres_step(
                        oldx,
                        oldy,
                        p2.x as int,
                        p2.y as int,
                        sx as int,
                        sy as int,
                        dx as int,
                        dy as int,
                        olderr,
                    );
                    let uu = sx as int * (p2.x - oldx);
                    let vv = sy as int * (p2.y - oldy);
                    assert(0 <= (dx as int - uu) * (dy as int) <= 240 * 308) by (nonlinear_arith)
                        requires
                            0 <= dx as int - uu <= 240,
                            0 <= dy as int <= 308,
                    ;
                    assert(0 <= (dy as int - vv) * (dx as int) <= 240 * 308) by (nonlinear_arith)
                        requires
                            0 <= dy as int - vv <= 308,
                            0 <= dx as int <= 240,
                    ;
                    assert(-200000 <= olderr <= 200000);
                }
                let e2: i32 = 2 * err;
                if e2 > -dy {
                    err = err - dy;
                    x = x + sx;
                }
                if e2 < dx {
                    err = err + dx;
                    y = y + sy;
                }
                proof {
                    assert(bres_inv(
                        x as int,
                        y as int,
                        p2.x as int,
                        p2.y as int,
                        sx as int,
                        sy as int,
                        dx as int,
                        dy as int,
                        err as int,
                    ));
                    let rest = bres_pts(
                        x as int,
                        y as int,
                        p2.x as int,
                        p2.y as int,
                        sx as int,
                        sy as int,
                        dx as int,
                        dy as int,
                        err as int,
                    );
                    assert(S.skip(oldn) == seq![(oldx, oldy)] + rest);
                    assert(rest.len() >= 1 && rest[0] == (x as int, y as int));
                    n = oldn + 1;
                    assert(S.skip(oldn).len() == S.len() - oldn);
                    assert((seq![(oldx, oldy)] + rest).len() == 1 + rest.len());
                    assert(S.len() - oldn == 1 + rest.len());
                    assert(n < S.len());
                    assert forall|j: int| 0 <= j < S.len() - n implies S.skip(n)[j] == rest[j] by {
                        assert(S.skip(n)[j] == S[n + j]);
                        assert(S.skip(oldn)[j + 1] == S[n + j]);
                        assert((seq![(oldx, oldy)] + rest)[j + 1] == rest[j]);
                    }
                    assert(S.skip(n) =~= rest);
                    assert(S[n] == rest[0]);
                    // the walk stays inside the bounding box
                    let uu = sx as int * (p2.x - x as int);
                    let vv = sy as int * (p2.y - y as int);
                    assert(1 * (p2.x - x as int) == p2.x - x as int) by (nonlinear_arith);
                    assert(-1 * (p2.x - x as int) == -(p2.x - x as int)) by (nonlinear_arith);
                    assert(1 * (p2.y - y as int) == p2.y - y as int) by (nonlinear_arith);
                    assert(-1 * (p2.y - y as int) == -(p2.y - y as int)) by (nonlinear_arith);
                    if p2.x > p1.x {
                        assert(uu == p2.x - x as int);
                        assert(xlo <= x <= xhi);
                    } else {
                        assert(uu == -(p2.x - x as int));
                        assert(xlo <= x <= xhi);
                    }
                    if p2.y > p1.y {
                        assert(vv == p2.y - y as int);
                        assert(ylo <= y <= yhi);
                    } else {
                        assert(vv == -(p2.y - y as int));
                        assert(ylo <= y <= yhi);
                    }
                    lemma_pix_mono(pg, st, x as int, y as int, xhi as int, yhi as int);
                    lemma_pix_mono(pg, st, 0, 0, x as int, y as int);
                }
                let ghost pre = *self;
                self.point(Vec2::new(x as u32, y as u32), color);
                proof {
                    let cur = pix_at(pg, st, x as int, y as int);
                    assert forall|k: int| 0 <= k < VRAM_WORDS && pts_covers(pg, st, S, n + 1, k)
                        implies self.mem()[k] == color by {
                        if k == cur {
                        } else {
                            let m = choose|m: int|
                                0 <= m < n + 1 && k == pix_at(pg, st, (#[trigger] S[m]).0, S[m].1);
                            if m == n {
                                assert(k == cur);
                            } else {
                                assert(pts_covers(pg, st, S, n, k));
                                assert(pre.mem()[k] == color);
                            }
                            assert(self.mem()[k] == pre.mem()[k]);
                        }
                    }
                    assert(cur == pix_at(pg, st, S[n].0, S[n].1));
                    assert(pts_covers(pg, st, S, S.len() as int, cur));
                    assert forall|k: int|
                        0 <= k < VRAM_WORDS && !pts_covers(pg, st, S, S.len() as int, k)
                        implies self.mem()[k] == d0.mem()[k] by {
                        assert(k != cur);
                        assert(self.mem()[k] == pre.mem()[k]);
                    }
                }
            }
            proof {
                assert(bres_pts(
                    x as int,
                    y as int,
                    p2.x as int,
                    p2.y as int,
                    sx as int,
                    sy as int,
                    dx as int,
                    dy as int,
                    err as int,
                ) == seq![(p2.x as int, p2.y as int)]);
                assert(S.skip(n).len() == 1);
                assert(n == S.len() - 1);
                assert forall|k: int|
                    0 <= k < VRAM_WORDS && pts_covers(pg, st, S, S.len() as int, k)
                    implies self.mem()[k] == color by {
                    assert(pts_covers(pg, st, S, n + 1, k));
                }
            }
        }
    }
}

/// Whether video RAM word `k` holds a pixel of one of the four edges of the
/// rectangle outline with top-left corner `p` and extents `w` and `h`.
pub open spec fn frame_covers(page: int, stride: int, p: Vec2<u32>, w: u32, h: u32, k: int) -> bool {
    let tr = Vec2 { x: (p.x + w) as u32, y: p.y };
    let bl = Vec2 { x: p.x, y: (p.y + h) as u32 };
    let br = Vec2 { x: (p.x + w) as u32, y: (p.y + h) as u32 };
    ||| line_covers(page, stride, p, tr, k)
    ||| line_covers(page, stride, bl, br, k)
    ||| line_covers(page, stride, p, bl, k)
    ||| line_covers(page, stride, tr, br, k)
}

impl Display {
    /// Draws the frame of a rect with specified width + height with top-left
    /// at point p and specified color: the four lines joining the corners.
    /// No fill.
    pub fn frame(&mut self, p: Vec2<u32>, width: u32, height: u32, color: u16)
        requires
            old(self).wf(),
            p.x + width < old(self).stride(),
            pix_at(old(self).page(), old(self).stride(), p.x + width, p.y + height) < VRAM_WORDS,
        ensures
            final(self).wf(),
            final(self).ctrl() == old(self).ctrl(),
            final(self).page() == old(self).page(),
            forall|k: int|
                0 <= k < VRAM_WORDS
                    && frame_covers(old(self).page(), old(self).stride(), p, width, height, k)
                    ==> final(self).mem()[k] == color,
            forall|k: int|
                0 <= k < VRAM_WORDS
                    && !frame_covers(old(self).page(), old(self).stride(), p, width, height, k)
                    ==> final(self).mem()[k] == old(self).mem()[k],
    {
        let ghost d0 = *self;
        let ghost pg = d0.page();
        let ghost st = d0.stride();
        proof {
            assert(st == 160 || st == 240);
            lemma_row_bound(pg, st, p.x + width, p.y + height);
            lemma_pix_mono(pg, st, p.x + width, p.y as int, p.x + width, p.y + height);
            lemma_pix_mono(pg, st, p.x as int, p.y + height, p.x + width, p.y + height);
        }
        let top_left = p;
        let top_right = p.add(Vec2::new(width, 0));
        let bottom_left = p.add(Vec2::new(0, height));
        let bottom_right = p.add(Vec2::new(width, height));
        proof {
            assert(top_right == (Vec2 { x: (p.x + width) as u32, y: p.y }));
            assert(bottom_left == (Vec2 { x: p.x, y: (p.y + height) as u32 }));
            assert(bottom_right == (Vec2 { x: (p.x + width) as u32, y: (p.y + height) as u32 }));
        }
        self.line(top_left, top_right, color);
        let ghost m1 = *self;
        self.line(bottom_left, bottom_right, color);
        let ghost m2 = *self;
        self.line(top_left, bottom_left, color);
        let ghost m3 = *self;
        self.line(top_right, bottom_right, color);
        proof {
            assert forall|k: int|
                0 <= k < VRAM_WORDS && frame_covers(pg, st, p, width, height, k)
                implies self.mem()[k] == color by {
                if line_covers(pg, st, top_right, bottom_right, k) {
                } else if line_covers(pg, st, top_left, bottom_left, k) {
                    assert(m3.mem()[k] == color);
                } else if line_covers(pg, st, bottom_left, bottom_right, k) {
                    assert(m2.mem()[k] == color);
                } else {
                    assert(line_covers(pg, st, top_left, top_right, k));
                    assert(m1.mem()[k] == color);
                }
            }
            assert forall|k: int|
                0 <= k < VRAM_WORDS && !frame_covers(pg, st, p, width, height, k)
                implies self.mem()[k] == d0.mem()[k] by {
                assert(m1.mem()[k] == d0.mem()[k]);
                assert(m2.mem()[k] == m1.mem()[k]);
                assert(m3.mem()[k] == m2.mem()[k]);
            }
        }
    }
}

/// Law: a draw that paints exactly the words of `region` with `color` and
/// keeps every other word leaves the same video RAM whichever of two runs
/// produced it: the primitives are deterministic.
pub proof fn lemma_draw_determinism(
    pre: Display,
    a: Display,
    b: Display,
    region: spec_fn(int) -> bool,
    color: u16,
)
    requires
        a.mem().len() == VRAM_WORDS,
        b.mem().len() == VRAM_WORDS,
        forall|k: int| 0 <= k < VRAM_WORDS && #[trigger] region(k) ==> a.mem()[k] == color,
        forall|k: int| 0 <= k < VRAM_WORDS && !(#[trigger] region(k)) ==> a.mem()[k] == pre.mem()[k],
        forall|k: int| 0 <= k < VRAM_WORDS && #[trigger] region(k) ==> b.mem()[k] == color,
        forall|k: int| 0 <= k < VRAM_WORDS && !(#[trigger] region(k)) ==> b.mem()[k] == pre.mem()[k],
    ensures
        a.mem() == b.mem(),
{
    assert forall|k: int| 0 <= k < VRAM_WORDS implies a.mem()[k] == b.mem()[k] by {
        if region(k) {
        }
    }
    assert(a.mem() =~= b.mem());
}

/// Law: painting the same region with the same color a second time changes
/// nothing: the primitives are idempotent.
pub proof fn lemma_draw_idempotent(
    a: Display,
    b: Display,
    region: spec_fn(int) -> bool,
    color: u16,
)
    requires
        a.mem().len() == VRAM_WORDS,
        b.mem().len() == VRAM_WORDS,
        forall|k: int| 0 <= k < VRAM_WORDS && #[trigger] region(k) ==> b.mem()[k] == color,
        forall|k: int| 0 <= k < VRAM_WORDS && !(#[trigger] region(k)) ==> b.mem()[k] == a.mem()[k],
        forall|k: int| 0 <= k < VRAM_WORDS && #[trigger] region(k) ==> a.mem()[k] == color,
    ensures
        b.mem() == a.mem(),
{
    assert forall|k: int| 0 <= k < VRAM_WORDS implies b.mem()[k] == a.mem()[k] by {
        if region(k) {
        }
    }
    assert(b.mem() =~= a.mem());
}

/// From a well-formed state the walk's pixel list starts at that state's
/// coordinates and ends exactly at the end point.
proof fn lemma_bres_reaches(
    x: int,
    y: int,
    x2: int,
    y2: int,
    sx: int,
    sy: int,
    dx: int,
    dy: int,
    err: int,
)
    requires
        bres_inv(x, y, x2, y2, sx, sy, dx, dy, err),
    ensures
        bres_pts(x, y, x2, y2, sx, sy, dx, dy, err).len() >= 1,
        bres_pts(x, y, x2, y2, sx, sy, dx, dy, err)[0] == (x, y),
        bres_pts(x, y, x2, y2, sx, sy, dx, dy, err).last() == (x2, y2),
    decreases iabs(x2 - x) + iabs(y2 - y),
{
    if x == x2 && y == y2 {
    } else {
        lemma_bres_step(x, y, x2, y2, sx, sy, dx, dy, err);
        let e2 = 2 * err;
        let nx = if e2 > -dy {
            x + sx
        } else {
            x
        };
        let ny = if e2 < dx {
            y + sy
        } else {
            y
        };
        let ne = err + (if e2 > -dy {
            -dy
        } else {
            0
        }) + (if e2 < dx {
            dx
        } else {
            0
        });
        lemma_bres_reaches(nx, ny, x2, y2, sx, sy, dx, dy, ne);
        let rest = bres_pts(nx, ny, x2, y2, sx, sy, dx, dy, ne);
        assert((seq![(x, y)] + rest).last() == rest.last());
    }
}

/// Law: a line is drawn through both of its end points: each one's
/// coordinates are in the pixel list.
pub proof fn lemma_line_endpoints(p1: Vec2<u32>, p2: Vec2<u32>)
    ensures
        line_pts(p1, p2).contains((p1.x as int, p1.y as int)),
        line_pts(p1, p2).contains((p2.x as int, p2.y as int)),
{
    let s = line_pts(p1, p2);
    let xlo = if p1.x <= p2.x {
        p1.x as int
    } else {
        p2.x as int
    };
    let xhi = if p1.x <= p2.x {
        p2.x as int
    } else {
        p1.x as int
    };
    let ylo = if p1.y <= p2.y {
        p1.y as int
    } else {
        p2.y as int
    };
    let yhi = if p1.y <= p2.y {
        p2.y as int
    } else {
        p1.y as int
    };
    if p1.y == p2.y {
        assert(s[p1.x - xlo] == (p1.x as int, p1.y as int));
        assert(s[p2.x - xlo] == (p2.x as int, p2.y as int));
    } else if p1.x == p2.x {
        assert(s[p1.y - ylo] == (p1.x as int, p1.y as int));
        assert(s[p2.y - ylo] == (p2.x as int, p2.y as int));
    } else {
        let sx: int = if p2.x > p1.x {
            1
        } else {
            -1
        };
        let sy: int = if p2.y > p1.y {
            1
        } else {
            -1
        };
        let dx = xhi - xlo;
        let dy = yhi - ylo;
        let err = dx - dy;
        assert((dx - dx) * dy == 0) by (nonlinear_arith);
        assert((dy - dy) * dx == 0) by (nonlinear_arith);
        assert(1 * (p2.x - p1.x as int) == p2.x - p1.x as int) by (nonlinear_arith);
        assert(-1 * (p2.x - p1.x as int) == -(p2.x - p1.x as int)) by (nonlinear_arith);
        assert(1 * (p2.y - p1.y as int) == p2.y - p1.y as int) by (nonlinear_arith);
        assert(-1 * (p2.y - p1.y as int) == -(p2.y - p1.y as int)) by (nonlinear_arith);
        assert(bres_inv(p1.x as int, p1.y as int, p2.x as int, p2.y as int, sx, sy, dx, dy, err));
        lemma_bres_reaches(p1.x as int, p1.y as int, p2.x as int, p2.y as int, sx, sy, dx, dy, err);
        assert(s.contains((p1.x as int, p1.y as int))) by {
            assert(s[0] == (p1.x as int, p1.y as int));
        }
        assert(s.contains((p2.x as int, p2.y as int))) by {
            assert(s[s.len() - 1] == (p2.x as int, p2.y as int));
        }
    }
}

/// Law: a horizontal or vertical line writes each pixel of its inclusive
/// span exactly once: the pixel list repeats no coordinate and no two of
/// its entries share a video RAM word.
pub proof fn lemma_axis_line_once(page: int, stride: int, p1: Vec2<u32>, p2: Vec2<u32>)
    requires
        p1.y == p2.y || p1.x == p2.x,
        stride >= 1,
    ensures
        forall|m: int, n: int|
            0 <= m < n < line_pts(p1, p2).len()
                ==> pix_at(page, stride, (#[trigger] line_pts(p1, p2)[m]).0, line_pts(p1, p2)[m].1)
                    != pix_at(page, stride, (#[trigger] line_pts(p1, p2)[n]).0, line_pts(p1, p2)[n].1),
{
    let s = line_pts(p1, p2);
    assert forall|m: int, n: int| 0 <= m < n < s.len()
        implies pix_at(page, stride, (#[trigger] s[m]).0, s[m].1)
            != pix_at(page, stride, (#[trigger] s[n]).0, s[n].1) by {
        if p1.y == p2.y {
            assert(s[n].0 - s[m].0 == n - m);
        } else {
            assert(s[n].1 - s[m].1 == n - m);
            assert((s[n].1 - s[m].1) * stride >= 1) by (nonlinear_arith)
                requires
                    s[n].1 - s[m].1 >= 1,
                    stride >= 1,
            ;
            assert(s[n].1 * stride - s[m].1 * stride == (s[n].1 - s[m].1) * stride)
                by (nonlinear_arith);
        }
    }
}

/// Law: for a horizontal or vertical line the pixel list does not depend on
/// which end point is named first. (The diagonal walk does not share this
/// law: where the doubled error exactly ties, the two directions choose
/// different side pixels.)
pub proof fn lemma_axis_line_symmetry(p1: Vec2<u32>, p2: Vec2<u32>)
    requires
        p1.y == p2.y || p1.x == p2.x,
    ensures
        line_pts(p1, p2) == line_pts(p2, p1),
{
    assert(line_pts(p1, p2) =~= line_pts(p2, p1));
}

/// One row of rectangle pixels: the consecutive video RAM words from column
/// `x0` to column `x1` of row `y`.
spec fn row_set(page: int, stride: int, x0: int, x1: int, y: int) -> Set<int> {
    set_int_range(pix_at(page, stride, x0, y), pix_at(page, stride, x1, y) + 1)
}

/// The words of the first `j + 1` rows of a rectangle.
spec fn rows_set(page: int, stride: int, p: Vec2<u32>, w: u32, j: int) -> Set<int>
    decreases j,
{
    if j <= 0 {
        row_set(page, stride, p.x as int, p.x + w, p.y as int)
    } else {
        rows_set(page, stride, p, w, j - 1) + row_set(page, stride, p.x as int, p.x + w, p.y + j)
    }
}

/// Row after row, the words of a rectangle's first rows form disjoint
/// consecutive ranges: their number is rows times columns.
proof fn lemma_rows_set(page: int, stride: int, p: Vec2<u32>, w: u32, j: int)
    requires
        0 <= j,
        w < stride,
    ensures
        rows_set(page, stride, p, w, j).finite(),
        rows_set(page, stride, p, w, j).len() == (j + 1) * (w + 1),
        forall|k: int|
            rows_set(page, stride, p, w, j).contains(k)
                <==> span_covers(page, stride, p.x as int, p.x + w, p.y as int, p.y + j, k),
    decreases j,
{
    let full = rows_set(page, stride, p, w, j);
    let row = row_set(page, stride, p.x as int, p.x + w, p.y + j);
    lemma_int_range(pix_at(page, stride, p.x as int, p.y + j), pix_at(page, stride, p.x + w, p.y + j) + 1);
    if j == 0 {
        assert(full == row_set(page, stride, p.x as int, p.x + w, p.y as int));
        assert(full.len() == (w + 1) as int);
        assert(1 * (w + 1) == (w + 1) as int) by (nonlinear_arith);
        assert forall|k: int|
            full.contains(k)
                <==> span_covers(page, stride, p.x as int, p.x + w, p.y as int, p.y + 0, k) by {
            if full.contains(k) {
                let x = k - page - (p.y as int) * stride;
                assert(k == pix_at(page, stride, x, p.y as int));
                assert(span_covers(page, stride, p.x as int, p.x + w, p.y as int, p.y + 0, k));
            }
            if span_covers(page, stride, p.x as int, p.x + w, p.y as int, p.y + 0, k) {
                let (x, y): (int, int) = choose|x: int, y: int|
                    p.x <= x <= p.x + w && p.y <= y <= p.y + 0
                        && k == #[trigger] pix_at(page, stride, x, y);
                assert(y == p.y as int);
                assert(full.contains(k));
            }
        }
    } else {
        lemma_rows_set(page, stride, p, w, j - 1);
        let prev = rows_set(page, stride, p, w, j - 1);
        assert((p.y + j) * stride == (p.y + j - 1) * stride + stride) by (nonlinear_arith);
        // every word of the earlier rows lies strictly below the new row
        assert forall|k: int| prev.contains(k) implies k < pix_at(page, stride, p.x as int, p.y + j) by {
            let (x, y): (int, int) = choose|x: int, y: int|
                p.x <= x <= p.x + w && p.y <= y <= p.y + j - 1
                    && k == #[trigger] pix_at(page, stride, x, y);
            lemma_mul_inequality(y, p.y + j - 1, stride);
            assert(y * stride <= (p.y + j - 1) * stride);
        }
        assert(prev.disjoint(row));
        lemma_set_disjoint_lens(prev, row);
        assert(row.len() == (w + 1) as int);
        assert(full == prev + row);
        assert((j + 1) * (w + 1) == j * (w + 1) + (w + 1)) by (nonlinear_arith);
        assert(full.len() == (j + 1) * (w + 1));
        assert forall|k: int|
            full.contains(k)
                <==> span_covers(page, stride, p.x as int, p.x + w, p.y as int, p.y + j, k) by {
            if full.contains(k) {
                if prev.contains(k) {
                    let (x, y): (int, int) = choose|x: int, y: int|
                        p.x <= x <= p.x + w && p.y <= y <= p.y + j - 1
                            && k == #[trigger] pix_at(page, stride, x, y);
                    assert(span_covers(page, stride, p.x as int, p.x + w, p.y as int, p.y + j, k));
                } else {
                    let x = k - page - (p.y + j) * stride;
                    assert(k == pix_at(page, stride, x, p.y + j));
                    assert(span_covers(page, stride, p.x as int, p.x + w, p.y as int, p.y + j, k));
                }
            }
            if span_covers(page, stride, p.x as int, p.x + w, p.y as int, p.y + j, k) {
                let (x, y): (int, int) = choose|x: int, y: int|
                    p.x <= x <= p.x + w && p.y <= y <= p.y + j
                        && k == #[trigger] pix_at(page, stride, x, y);
                if y <= p.y + j - 1 {
                    assert(span_covers(page, stride, p.x as int, p.x + w, p.y as int, p.y + j - 1, k));
                    assert(prev.contains(k));
                } else {
                    assert(y == p.y + j);
                    assert(row.contains(k));
                }
                assert(full.contains(k));
            }
        }
    }
}

/// Law: an inclusive rectangle of extents `w` and `h` overwrites exactly
/// `(w + 1) * (h + 1)` video RAM words.
pub proof fn lemma_rect_pixel_count(page: int, stride: int, p: Vec2<u32>, w: u32, h: u32)
    requires
        w < stride,
    ensures
        Set::new(|k: int| rect_covers(page, stride, p, w, h, k)).finite(),
        Set::new(|k: int| rect_covers(page, stride, p, w, h, k)).len() == (w + 1) * (h + 1),
{
    lemma_rows_set(page, stride, p, w, h as int);
    assert(Set::new(|k: int| rect_covers(page, stride, p, w, h, k))
        =~= rows_set(page, stride, p, w, h as int));
}

} // verus!
