//! Pixel geometry and RGBA helpers around screen capture.
//!
//! Every function works in **monitor-local physical pixels**: `(0,0)` is a
//! display's top-left corner. RGBA buffers are row-major, 4 bytes per pixel.
use vstd::prelude::*;

verus! {

/// A rectangle in monitor-local pixels: (x, y, width, height).
#[derive(Debug, Clone, Copy, PartialEq, Eq, Structural)]
pub struct ScreenRect {
    pub x: u32,
    pub y: u32,
    pub w: u32,
    pub h: u32,
}

pub open spec fn min_u32(a: u32, b: u32) -> u32 {
    if a < b {
        a
    } else {
        b
    }
}

pub open spec fn max_u32(a: u32, b: u32) -> u32 {
    if a > b {
        a
    } else {
        b
    }
}

impl ScreenRect {
    /// The right and bottom edges fit in `u32`.
    pub open spec fn fits(&self) -> bool {
        &&& self.x + self.w <= u32::MAX
        &&& self.y + self.h <= u32::MAX
    }

    pub open spec fn spec_contains(&self, px: u32, py: u32) -> bool {
        px >= self.x && py >= self.y && px < self.x + self.w && py < self.y + self.h
    }

    pub open spec fn spec_intersect(&self, bounds: ScreenRect) -> ScreenRect {
        let x0 = max_u32(self.x, bounds.x);
        let y0 = max_u32(self.y, bounds.y);
        let x1 = min_u32((self.x + self.w) as u32, (bounds.x + bounds.w) as u32);
        let y1 = min_u32((self.y + self.h) as u32, (bounds.y + bounds.h) as u32);
        ScreenRect {
            x: x0,
            y: y0,
            w: if x1 > x0 {
                (x1 - x0) as u32
            } else {
                0
            },
            h: if y1 > y0 {
                (y1 - y0) as u32
            } else {
                0
            },
        }
    }

    pub fn contains(&self, px: u32, py: u32) -> (r: bool)
        requires
            self.fits(),
        ensures
            r == self.spec_contains(px, py),
    {
        px >= self.x && py >= self.y && px < self.x + self.w && py < self.y + self.h
    }

    pub fn area(&self) -> (r: u64)
        ensures
            r == self.w * self.h,
    {
        proof {
            vstd::arithmetic::mul::lemma_mul_upper_bound(
                self.w as int,
                u32::MAX as int,
                self.h as int,
                u32::MAX as int,
            );
        }
        self.w as u64 * self.h as u64
    }

    /// Keep only the part of `self` inside `bounds`.
    pub fn intersect(&self, bounds: &ScreenRect) -> (r: ScreenRect)
        requires
            self.fits(),
            bounds.fits(),
        ensures
            r == self.spec_intersect(*bounds),
            r.fits(),
    {
        let x0 = if self.x > bounds.x {
            self.x
        } else {
            bounds.x
        };
        let y0 = if self.y > bounds.y {
            self.y
        } else {
            bounds.y
        };
        let ax1 = self.x + self.w;
        let bx1 = bounds.x + bounds.w;
        let x1 = if ax1 < bx1 {
            ax1
        } else {
            bx1
        };
        let ay1 = self.y + self.h;
        let by1 = bounds.y + bounds.h;
        let y1 = if ay1 < by1 {
            ay1
        } else {
            by1
        };
        ScreenRect { x: x0, y: y0, w: x1.saturating_sub(x0), h: y1.saturating_sub(y0) }
    }
}

/// Intersection law: a pixel lies in the intersection exactly when it lies
/// in both rectangles.
pub proof fn lemma_intersect_contains(a: ScreenRect, b: ScreenRect, px: u32, py: u32)
    requires
        a.fits(),
        b.fits(),
    ensures
        a.spec_intersect(b).spec_contains(px, py) <==> (a.spec_contains(px, py)
            && b.spec_contains(px, py)),
{
}

/// One connected display, in capture order (primary first).
#[derive(Debug, Clone, PartialEq, Eq)]
pub struct DisplayInfo {
    pub index: usize,
    pub name: String,
    /// Logical (point) size — what macOS window/coordinate APIs use.
    pub logical_w: u32,
    pub logical_h: u32,
    pub primary: bool,
}

// ─── RGBA buffers ───────────────────────────────────────────────────────────

/// A `w × h` RGBA frame whose byte offsets fit in `u32`.
pub open spec fn frame_ok(len: int, w: u32, h: u32) -> bool {
    &&& w as int * h as int * 4 <= u32::MAX
    &&& len >= w as int * h as int * 4
}

/// Row `y`, columns `x0..x1`, of an RGBA frame of width `w`.
pub open spec fn row_span(rgba: Seq<u8>, w: int, y: int, x0: int, x1: int) -> Seq<u8> {
    rgba.subrange((y * w + x0) * 4, (y * w + x1) * 4)
}

/// The crop window `x0..x1 × y0..y1` of a `w × h` frame for `rect`, clamped
/// to the frame, or `None` when it is empty.
pub open spec fn crop_window(w: u32, h: u32, rect: ScreenRect) -> Option<(int, int, int, int)> {
    let x0 = min_u32(rect.x, w) as int;
    let y0 = min_u32(rect.y, h) as int;
    let x1 = min_u32((rect.x + rect.w) as u32, w) as int;
    let y1 = min_u32((rect.y + rect.h) as u32, h) as int;
    if x1 <= x0 || y1 <= y0 {
        None
    } else {
        Some((x0, y0, x1, y1))
    }
}

/// The rows of the crop, each clipped to the window's columns.
pub open spec fn crop_rows(rgba: Seq<u8>, w: int, x0: int, y0: int, x1: int, y1: int) -> Seq<
    Seq<u8>,
> {
    Seq::new((y1 - y0) as nat, |r: int| row_span(rgba, w, y0 + r, x0, x1))
}

proof fn lemma_row_offsets(w: int, h: int, y: int, x0: int, x1: int)
    requires
        0 <= y < h,
        0 <= x0 <= x1 <= w,
    ensures
        0 <= (y * w + x0) * 4 <= (y * w + x1) * 4 <= w * h * 4,
{
    assert(0 <= (y * w + x0) * 4 <= (y * w + x1) * 4 <= w * h * 4) by (nonlinear_arith)
        requires
            0 <= y < h,
            0 <= x0 <= x1 <= w,
    ;
}

/// Crop an RGBA buffer to `rect` (clamped to the image bounds).
pub fn crop(rgba: &[u8], w: u32, h: u32, rect: &ScreenRect) -> (r: Option<(Vec<u8>, u32, u32)>)
    requires
        frame_ok(rgba@.len() as int, w, h),
        rect.fits(),
    ensures
        match crop_window(w, h, *rect) {
            None => r is None,
            Some((x0, y0, x1, y1)) => r matches Some(t) && t.0@ == crop_rows(
                rgba@,
                w as int,
                x0,
                y0,
                x1,
                y1,
            ).flatten() && t.1 == x1 - x0 && t.2 == y1 - y0,
        },
{
    let x0 = if rect.x < w {
        rect.x
    } else {
        w
    };
    let y0 = if rect.y < h {
        rect.y
    } else {
        h
    };
    let x1 = if rect.x + rect.w < w {
        rect.x + rect.w
    } else {
        w
    };
    let y1 = if rect.y + rect.h < h {
        rect.y + rect.h
    } else {
        h
    };
    if x1 <= x0 || y1 <= y0 {
        return None;
    }
    let cw = x1 - x0;
    let ch = y1 - y0;
    proof {
        assert(cw as int * ch as int * 4 <= w as int * h as int * 4) by (nonlinear_arith)
            requires
                cw <= w,
                ch <= h,
        ;
    }
    let mut out: Vec<u8> = Vec::with_capacity((cw * ch * 4) as usize);
    let ghost rows = crop_rows(rgba@, w as int, x0 as int, y0 as int, x1 as int, y1 as int);
    let mut y = y0;
    while y < y1
        invariant
            y0 <= y <= y1 <= h,
            x0 < x1 <= w,
            frame_ok(rgba@.len() as int, w, h),
            rows == crop_rows(rgba@, w as int, x0 as int, y0 as int, x1 as int, y1 as int),
            out@ == rows.take(y - y0).flatten(),
        decreases y1 - y,
    {
        proof {
            lemma_row_offsets(w as int, h as int, y as int, x0 as int, x1 as int);
            assert(y as int * w as int <= h as int * w as int) by (nonlinear_arith)
                requires
                    y < h,
            ;
        }
        let row_start = ((y * w + x0) * 4) as usize;
        let row_end = ((y * w + x1) * 4) as usize;
        let span = &rgba[row_start..row_end];
        let ghost before = rows.take(y - y0);
        out.extend_from_slice(span);
        proof {
            assert(rows.take(y - y0 + 1) =~= before.push(rows[y - y0]));
            before.lemma_flatten_push(rows[y - y0]);
            assert(span@ =~= rows[y - y0]);
        }
        y = y + 1;
    }
    proof {
        assert(rows.take(y1 - y0) =~= rows);
    }
    Some((out, cw, ch))
}

/// Nearest-neighbor source index of destination index `d` when `dst`
/// pixels sample `src` pixels.
pub open spec fn nn_index(d: int, src: int, dst: int) -> int {
    d * src / dst
}

/// One RGBA pixel.
pub open spec fn pixel(rgba: Seq<u8>, w: int, x: int, y: int) -> Seq<u8> {
    rgba.subrange((y * w + x) * 4, (y * w + x) * 4 + 4)
}

/// Destination row `y` of a nearest-neighbor downscale to `dw × dh`.
pub open spec fn scaled_row(rgba: Seq<u8>, w: int, h: int, dw: int, dh: int, y: int) -> Seq<u8> {
    Seq::new(dw as nat, |x: int| pixel(rgba, w, nn_index(x, w, dw), nn_index(y, h, dh))).flatten()
}

/// A nearest-neighbor downscale of a `w × h` frame to `dw × dh`.
pub open spec fn scaled(rgba: Seq<u8>, w: int, h: int, dw: int, dh: int) -> Seq<u8> {
    Seq::new(dh as nat, |y: int| scaled_row(rgba, w, h, dw, dh, y)).flatten()
}

/// Flattening pieces of one length `l`: piece `i`, element `j` sits at
/// `i * l + j`.
proof fn lemma_flatten_uniform<A>(s: Seq<Seq<A>>, l: int)
    requires
        l >= 0,
        forall|i: int| 0 <= i < s.len() ==> #[trigger] s[i].len() == l,
    ensures
        s.flatten().len() == s.len() * l,
        forall|i: int, j: int|
            0 <= i < s.len() && 0 <= j < l ==> s.flatten()[i * l + j] == #[trigger] s[i][j],
    decreases s.len(),
{
    if s.len() > 0 {
        let t = s.drop_last();
        let e = s.last();
        lemma_flatten_uniform(t, l);
        assert(s =~= t.push(e));
        t.lemma_flatten_push(e);
        assert(s.flatten() == t.flatten() + e);
        assert(t.len() * l + l == s.len() * l) by (nonlinear_arith)
            requires
                t.len() + 1 == s.len(),
        ;
        assert forall|i: int, j: int| 0 <= i < s.len() && 0 <= j < l implies s.flatten()[i * l
            + j] == #[trigger] s[i][j] by {
            if i < t.len() {
                assert(i * l + j < t.len() * l) by (nonlinear_arith)
                    requires
                        0 <= i < t.len(),
                        0 <= j < l,
                ;
                assert(t[i] == s[i]);
            } else {
                assert(i * l == t.len() * l);
            }
        }
    }
}

/// A nearest-neighbour downscale samples both axes by the same rule: output
/// pixel (x, y) of a `dw × dh` picture of a `w × h` frame is source pixel
/// (x·w/dw, y·h/dh). So the picture spans the whole frame: its last row
/// comes from the bottom part of the source, not from row `dh − 1`.
pub proof fn lemma_scaled_samples(rgba: Seq<u8>, w: int, h: int, dw: int, dh: int)
    requires
        0 < dw,
        0 < dh,
        0 < w,
        0 < h,
        rgba.len() >= w * h * 4,
    ensures
        scaled(rgba, w, h, dw, dh).len() == dw * dh * 4,
        forall|x: int, y: int, c: int|
            0 <= x < dw && 0 <= y < dh && 0 <= c < 4 ==> #[trigger] scaled(rgba, w, h, dw, dh)[(y
                * dw + x) * 4 + c] == rgba[((y * h / dh) * w + x * w / dw) * 4 + c],
{
    let rows = Seq::new(dh as nat, |y: int| scaled_row(rgba, w, h, dw, dh, y));
    assert forall|y: int| 0 <= y < dh implies #[trigger] rows[y].len() == dw * 4
        && forall|x: int, c: int|
        0 <= x < dw && 0 <= c < 4 ==> #[trigger] rows[y][x * 4 + c] == rgba[((y * h / dh) * w + x
            * w / dw) * 4 + c] by {
        let cells = Seq::new(
            dw as nat,
            |x: int| pixel(rgba, w, nn_index(x, w, dw), nn_index(y, h, dh)),
        );
        assert forall|x: int| 0 <= x < dw implies #[trigger] cells[x].len() == 4 by {
            lemma_nn_index(x, w, dw);
            lemma_nn_index(y, h, dh);
            let sx = nn_index(x, w, dw);
            let sy = nn_index(y, h, dh);
            assert((sy * w + sx) * 4 + 4 <= w * h * 4) by (nonlinear_arith)
                requires
                    0 <= sx < w,
                    0 <= sy < h,
            ;
            assert(0 <= (sy * w + sx) * 4) by (nonlinear_arith)
                requires
                    0 <= sx,
                    0 <= sy,
                    w > 0,
            ;
        }
        lemma_flatten_uniform(cells, 4);
        assert(rows[y] == cells.flatten());
        assert forall|x: int, c: int| 0 <= x < dw && 0 <= c < 4 implies #[trigger] rows[y][x * 4
            + c] == rgba[((y * h / dh) * w + x * w / dw) * 4 + c] by {
            assert(cells[x].len() == 4);
            assert(rows[y][x * 4 + c] == cells[x][c]);
            lemma_nn_index(x, w, dw);
            lemma_nn_index(y, h, dh);
            let sx = nn_index(x, w, dw);
            let sy = nn_index(y, h, dh);
            assert((sy * w + sx) * 4 + 4 <= w * h * 4) by (nonlinear_arith)
                requires
                    0 <= sx < w,
                    0 <= sy < h,
            ;
            assert(0 <= (sy * w + sx) * 4) by (nonlinear_arith)
                requires
                    0 <= sx,
                    0 <= sy,
                    w > 0,
            ;
            assert(cells[x] == rgba.subrange((sy * w + sx) * 4, (sy * w + sx) * 4 + 4));
            assert(cells[x][c] == rgba[(sy * w + sx) * 4 + c]);
        }
    }
    lemma_flatten_uniform(rows, dw * 4);
    assert(dh * (dw * 4) == dw * dh * 4) by (nonlinear_arith);
    assert forall|x: int, y: int, c: int| 0 <= x < dw && 0 <= y < dh && 0 <= c < 4 implies
        #[trigger] scaled(rgba, w, h, dw, dh)[(y * dw + x) * 4 + c] == rgba[((y * h / dh) * w + x
        * w / dw) * 4 + c] by {
        assert((y * dw + x) * 4 + c == y * (dw * 4) + (x * 4 + c)) by (nonlinear_arith);
        assert(0 <= x * 4 + c < dw * 4);
        assert(rows[y].len() == dw * 4);
        assert(rows[y][x * 4 + c] == rgba[((y * h / dh) * w + x * w / dw) * 4 + c]);
    }
}

proof fn lemma_nn_index(d: int, src: int, dst: int)
    requires
        0 <= d < dst,
        0 < src,
    ensures
        0 <= nn_index(d, src, dst) < src,
{
    assert(0 <= d * src < dst * src) by (nonlinear_arith)
        requires
            0 <= d < dst,
            0 < src,
    ;
    vstd::arithmetic::div_mod::lemma_multiply_divide_lt(d * src, dst, src);
    vstd::arithmetic::div_mod::lemma_div_pos_is_pos(d * src, dst);
}

/// Downscale an RGBA buffer so its width is at most `max_w` (nearest-neighbor).
pub fn downscale(rgba: &[u8], w: u32, h: u32, max_w: u32) -> (r: (Vec<u8>, u32, u32))
    requires
        frame_ok(rgba@.len() as int, w, h),
    ensures
        if w <= max_w {
            r.0@ == rgba@ && r.1 == w && r.2 == h
        } else {
            &&& r.1 == max_w
            &&& r.2 == h as int * max_w as int / w as int
            &&& r.0@ == scaled(rgba@, w as int, h as int, r.1 as int, r.2 as int)
        },
{
    if w <= max_w {
        let all = crate::protocol::copy_range(rgba, 0, rgba.len());
        assert(all@ =~= rgba@);
        return (all, w, h);
    }
    let dw = max_w;
    proof {
        assert(h as int * dw as int <= w as int * h as int) by (nonlinear_arith)
            requires
                dw < w,
        ;
        vstd::arithmetic::div_mod::lemma_multiply_divide_le(
            h as int * dw as int,
            w as int,
            h as int,
        );
    }
    let dh = ((h as u64 * dw as u64) / w as u64) as u32;
    proof {
        assert(dw as int * dh as int * 4 <= w as int * h as int * 4) by (nonlinear_arith)
            requires
                dw <= w,
                dh <= h,
        ;
    }
    let mut out: Vec<u8> = Vec::with_capacity((dw * dh * 4) as usize);
    let ghost rows = Seq::new(
        dh as nat,
        |y: int| scaled_row(rgba@, w as int, h as int, dw as int, dh as int, y),
    );
    let mut y: u32 = 0;
    while y < dh
        invariant
            y <= dh <= h,
            dw < w,
            frame_ok(rgba@.len() as int, w, h),
            rows == Seq::new(
                dh as nat,
                |y: int| scaled_row(rgba@, w as int, h as int, dw as int, dh as int, y),
            ),
            out@ == rows.take(y as int).flatten(),
        decreases dh - y,
    {
        proof {
            lemma_nn_index(y as int, h as int, dh as int);
        }
        assert(y as int * h as int <= u32::MAX as int * u32::MAX as int) by (nonlinear_arith)
            requires
                y <= u32::MAX,
                h <= u32::MAX,
        ;
        let sy = (y as u64 * h as u64 / dh as u64) as u32;
        proof {
            assert(sy as int * w as int * 4 + w as int * 4 <= w as int * h as int * 4)
                by (nonlinear_arith)
                requires
                    sy < h,
            ;
        }
        let ghost cells = Seq::new(
            dw as nat,
            |x: int| pixel(rgba@, w as int, nn_index(x, w as int, dw as int), sy as int),
        );
        let ghost start = out@;
        let mut x: u32 = 0;
        while x < dw
            invariant
                x <= dw < w,
                y < dh <= h,
                sy < h,
                sy == nn_index(y as int, h as int, dh as int),
                frame_ok(rgba@.len() as int, w, h),
                cells == Seq::new(
                    dw as nat,
                    |x: int| pixel(rgba@, w as int, nn_index(x, w as int, dw as int), sy as int),
                ),
                out@ == start + cells.take(x as int).flatten(),
            decreases dw - x,
        {
            proof {
                lemma_nn_index(x as int, w as int, dw as int);
            }
            assert(x as int * w as int <= u32::MAX as int * u32::MAX as int) by (nonlinear_arith)
                requires
                    x <= u32::MAX,
                    w <= u32::MAX,
            ;
            let sx = (x as u64 * w as u64 / dw as u64) as u32;
            proof {
                assert((sy as int * w as int + sx as int) * 4 + 4 <= w as int * h as int * 4)
                    by (nonlinear_arith)
                    requires
                        sy < h,
                        sx < w,
                ;
            }
            let p0 = ((sy * w + sx) * 4) as usize;
            let px = &rgba[p0..p0 + 4];
            let ghost before = cells.take(x as int);
            out.extend_from_slice(px);
            proof {
                assert(cells.take(x + 1) =~= before.push(cells[x as int]));
                before.lemma_flatten_push(cells[x as int]);
                assert(px@ =~= cells[x as int]);
                assert(out@ =~= start + cells.take(x + 1).flatten());
            }
            x = x + 1;
        }
        proof {
            assert(cells.take(dw as int) =~= cells);
            assert(cells == Seq::new(
                dw as nat,
                |x: int|
                    pixel(
                        rgba@,
                        w as int,
                        nn_index(x, w as int, dw as int),
                        nn_index(y as int, h as int, dh as int),
                    ),
            ));
            assert(cells.flatten() == rows[y as int]);
            let before = rows.take(y as int);
            assert(rows.take(y + 1) =~= before.push(rows[y as int]));
            before.lemma_flatten_push(rows[y as int]);
        }
        y = y + 1;
    }
    proof {
        assert(rows.take(dh as int) =~= rows);
    }
    (out, dw, dh)
}

/// ITU-R BT.601 luma of one RGB pixel.
pub open spec fn luma_of(r: u8, g: u8, b: u8) -> u8 {
    ((r as int * 77 + g as int * 150 + b as int * 29) / 256) as u8
}

/// Convert RGBA to luma for the QR decoder (a trailing partial pixel is
/// dropped).
pub fn rgba_to_luma(rgba: &[u8]) -> (r: Vec<u8>)
    ensures
        r@ == Seq::new(
            rgba@.len() / 4,
            |i: int| luma_of(rgba@[4 * i], rgba@[4 * i + 1], rgba@[4 * i + 2]),
        ),
{
    let n = rgba.len() / 4;
    let mut out: Vec<u8> = Vec::with_capacity(n);
    let mut i: usize = 0;
    while i < n
        invariant
            n == rgba@.len() / 4,
            rgba@.len() <= usize::MAX,
            i <= n,
            out@ == Seq::new(
                i as nat,
                |j: int| luma_of(rgba@[4 * j], rgba@[4 * j + 1], rgba@[4 * j + 2]),
            ),
        decreases n - i,
    {
        assert(4 * i + 3 < rgba@.len()) by {
            vstd::arithmetic::div_mod::lemma_fundamental_div_mod(rgba@.len() as int, 4);
        }
        let base: usize = 4 * i;
        let r = rgba[base] as u32;
        let g = rgba[base + 1] as u32;
        let b = rgba[base + 2] as u32;
        let v = r * 77 + g * 150 + b * 29;
        assert((v >> 8) == v / 256 && v / 256 < 256) by (bit_vector)
            requires
                v <= 255 * 256,
        ;
        out.push((v >> 8) as u8);
        i = i + 1;
        assert(out@ =~= Seq::new(
            i as nat,
            |j: int| luma_of(rgba@[4 * j], rgba@[4 * j + 1], rgba@[4 * j + 2]),
        ));
    }
    out
}

} // verus!
