use crate::error::{ConfigError, ConversionError};
use crate::raster::{lemma_grid_index, max_u8, CoverageMask};
use vstd::prelude::*;

verus! {

/// Pen positions are kept in 1/64 pixel.
pub const SUBPIXELS: u64 = 64;

/// A glyph rasterized with the pen at the origin: its coverage mask, the
/// offset in whole pixels of the mask's top-left cell from the pen, and the
/// pen's advance after it in 1/64 pixel. A glyph without an outline
/// (whitespace) has an empty mask and still advances the pen.
#[derive(Clone, Debug)]
pub struct GlyphRaster {
    pub left: i32,
    pub top: i32,
    pub advance: u32,
    pub mask: CoverageMask,
}

/// A run of rasterized glyphs, in text order, and the pen's starting point
/// in whole pixels (`pen_y` is the baseline).
#[derive(Clone, Debug)]
pub struct TextRun {
    pub pen_x: u32,
    pub pen_y: u32,
    pub glyphs: Vec<GlyphRaster>,
}

impl TextRun {
    /// Every glyph's mask holds one value per cell.
    pub open spec fn wf(&self) -> bool {
        forall|k: int| 0 <= k < self.glyphs@.len() ==> (#[trigger] self.glyphs@[k]).mask.wf()
    }

    /// The pen's x position, in 1/64 pixel, before glyph `k` (after the last
    /// glyph where `k` is the glyph count).
    pub open spec fn pen_at(&self, k: int) -> int
        decreases k,
    {
        if k <= 0 {
            SUBPIXELS * self.pen_x
        } else {
            self.pen_at(k - 1) + self.glyphs@[k - 1].advance
        }
    }

    /// The pen's position after the whole run.
    pub open spec fn final_pen(&self) -> int {
        self.pen_at(self.glyphs@.len() as int)
    }

    /// Column of the top-left cell of glyph `k`'s mask: the pen rounded to the
    /// nearest pixel, plus the glyph's offset.
    pub open spec fn origin_x(&self, k: int) -> int {
        round_px(self.pen_at(k)) + self.glyphs@[k].left
    }

    /// Row of the top-left cell of glyph `k`'s mask.
    pub open spec fn origin_y(&self, k: int) -> int {
        self.pen_y + self.glyphs@[k].top
    }

    /// Coverage of the cell `(x, y)` by glyph `k` alone.
    pub open spec fn glyph_cover(&self, k: int, x: int, y: int) -> u8 {
        glyph_value(self.glyphs@[k].mask, self.origin_x(k), self.origin_y(k), x, y)
    }

    /// Coverage of the cell `(x, y)` by the first `k` glyphs: the largest of
    /// their coverages there, overlapping glyphs never adding up.
    pub open spec fn coverage(&self, k: int, x: int, y: int) -> u8
        decreases k,
    {
        if k <= 0 {
            0
        } else {
            max_u8(self.coverage(k - 1, x, y), self.glyph_cover(k - 1, x, y))
        }
    }
}

/// A position in 1/64 pixel rounded to the nearest whole pixel, halves up.
pub open spec fn round_px(p: int) -> int {
    (p + 32) / 64
}

/// The coverage that `mask`, with its top-left cell at `(gx, gy)`, gives the
/// cell `(x, y)`: none outside the mask.
pub open spec fn glyph_value(mask: CoverageMask, gx: int, gy: int, x: int, y: int) -> u8 {
    if gx <= x < gx + mask.width && gy <= y < gy + mask.height {
        mask.at(x - gx, y - gy)
    } else {
        0
    }
}

/// With no negative advances the pen never moves back.
proof fn lemma_pen_monotone(run: &TextRun, j: int, k: int)
    requires
        0 <= j <= k,
    ensures
        run.pen_at(j) <= run.pen_at(k),
    decreases k - j,
{
    if j < k {
        lemma_pen_monotone(run, j, k - 1);
    }
}

/// In a non-empty run whose glyphs all have a positive advance, the pen ends
/// strictly to the right of where it started.
pub proof fn lemma_pen_advances(run: &TextRun)
    requires
        run.glyphs@.len() > 0,
        forall|k: int| 0 <= k < run.glyphs@.len() ==> (#[trigger] run.glyphs@[k]).advance > 0,
    ensures
        run.final_pen() > run.pen_at(0),
{
    let n = run.glyphs@.len() as int;
    lemma_pen_monotone(run, 0, n - 1);
    assert(run.glyphs@[n - 1].advance > 0);
}

/// The pen position, in 1/64 pixel, before each glyph of the run and after
/// the last one; refused where a position does not fit in `u64`.
pub fn pen_positions(run: &TextRun) -> (r: Result<Vec<u64>, ConversionError>)
    ensures
        r is Err <==> run.final_pen() > u64::MAX,
        r is Err ==> r matches Err(ConversionError::Config(ConfigError::TextTooLong)),
        r matches Ok(pens) ==> pens@.len() == run.glyphs@.len() + 1 && forall|k: int|
            0 <= k < pens@.len() ==> #[trigger] pens@[k] == run.pen_at(k),
{
    let n: usize = run.glyphs.len();
    let mut pens: Vec<u64> = Vec::new();
    let mut pen: u64 = SUBPIXELS * run.pen_x as u64;
    pens.push(pen);
    let mut k: usize = 0;
    while k < n
        invariant
            n == run.glyphs@.len(),
            k <= n,
            pen == run.pen_at(k as int),
            pens@.len() == k + 1,
            forall|j: int| 0 <= j < pens@.len() ==> #[trigger] pens@[j] == run.pen_at(j),
        decreases n - k,
    {
        let adv: u64 = run.glyphs[k].advance as u64;
        if pen > u64::MAX - adv {
            proof { lemma_pen_monotone(run, k + 1, n as int); }
            return Err(ConversionError::Config(ConfigError::TextTooLong));
        }
        pen = pen + adv;
        pens.push(pen);
        k = k + 1;
    }
    Ok(pens)
}

/// Writes a glyph mask whose top-left cell lies at `(gx, gy)` into the
/// coverage buffer, keeping at each cell the larger of the two coverages.
/// Cells that fall off the canvas are dropped.
pub fn plot_glyph(cov: &mut CoverageMask, mask: &CoverageMask, gx: i64, gy: i64)
    requires
        old(cov).wf(),
        mask.wf(),
        gx + mask.width <= i64::MAX,
        gy + mask.height <= i64::MAX,
    ensures
        final(cov).wf(),
        final(cov).width == old(cov).width,
        final(cov).height == old(cov).height,
        forall|x: int, y: int| 0 <= x < old(cov).width && 0 <= y < old(cov).height ==> #[trigger] final(cov).at(x, y)
            == max_u8(old(cov).at(x, y), glyph_value(*mask, gx as int, gy as int, x, y)),
{
    let ghost before = *cov;
    let w: i64 = cov.width as i64;
    let h: i64 = cov.height as i64;
    let gw: i64 = mask.width as i64;
    let gh: i64 = mask.height as i64;
    let _n: usize = cov.values.len();
    let _m: usize = mask.values.len();
    let x0: i64 = if gx > 0 { gx } else { 0 };
    let y0: i64 = if gy > 0 { gy } else { 0 };
    let x1: i64 = if gx + gw < w { gx + gw } else { w };
    let y1: i64 = if gy + gh < h { gy + gh } else { h };
    let mut y: i64 = y0;
    while y < y1
        invariant
            cov.wf(),
            cov.width == before.width,
            cov.height == before.height,
            w == cov.width,
            h == cov.height,
            gw == mask.width,
            gh == mask.height,
            mask.wf(),
            before.wf(),
            cov.values@.len() <= usize::MAX,
            mask.values@.len() <= usize::MAX,
            0 <= x0,
            0 <= y0 <= y,
            x1 <= w,
            y1 <= h,
            x0 == if gx > 0 { gx } else { 0 },
            x1 == if gx + gw < w { gx + gw } else { w as int },
            y0 == if gy > 0 { gy } else { 0 },
            y1 == if gy + gh < h { gy + gh } else { h as int },
            forall|cx: int, cy: int| 0 <= cx < w && 0 <= cy < h ==> #[trigger] cov.at(cx, cy) == if cy < y {
                max_u8(before.at(cx, cy), glyph_value(*mask, gx as int, gy as int, cx, cy))
            } else {
                before.at(cx, cy)
            },
        decreases y1 - y,
    {
        let mut x: i64 = x0;
        while x < x1
            invariant
                cov.wf(),
                cov.width == before.width,
                cov.height == before.height,
                w == cov.width,
                h == cov.height,
                gw == mask.width,
                gh == mask.height,
                mask.wf(),
                before.wf(),
                cov.values@.len() <= usize::MAX,
                mask.values@.len() <= usize::MAX,
                0 <= x0 <= x,
                0 <= y0 <= y < y1,
                x1 <= w,
                y1 <= h,
                x0 == if gx > 0 { gx } else { 0 },
                x1 == if gx + gw < w { gx + gw } else { w as int },
                y0 == if gy > 0 { gy } else { 0 },
                y1 == if gy + gh < h { gy + gh } else { h as int },
                forall|cx: int, cy: int| 0 <= cx < w && 0 <= cy < h ==> #[trigger] cov.at(cx, cy) == if cy < y || (cy
                    == y && cx < x) {
                    max_u8(before.at(cx, cy), glyph_value(*mask, gx as int, gy as int, cx, cy))
                } else {
                    before.at(cx, cy)
                },
            decreases x1 - x,
        {
            proof {
                lemma_grid_index(x as int, y as int, w as int, h as int);
                lemma_grid_index(x - gx, y - gy, gw as int, gh as int);
            }
            let i: usize = y as usize * w as usize + x as usize;
            let j: usize = (y - gy) as usize * gw as usize + (x - gx) as usize;
            let c: u8 = mask.values[j];
            let old_c: u8 = cov.values[i];
            let ghost prev = *cov;
            assert(prev.at(x as int, y as int) == before.at(x as int, y as int));
            assert(c == glyph_value(*mask, gx as int, gy as int, x as int, y as int));
            if c > old_c {
                cov.values.set(i, c);
            }
            assert(cov.at(x as int, y as int) == max_u8(before.at(x as int, y as int), c));
            assert forall|cx: int, cy: int| 0 <= cx < w && 0 <= cy < h && (cx != x || cy != y) implies #[trigger] cov.at(cx, cy)
                == prev.at(cx, cy) by {
                lemma_grid_index(cx, cy, w as int, h as int);
                lemma_grid_cells_differ(cx, cy, x as int, y as int, w as int);
            }
            x = x + 1;
        }
        y = y + 1;
    }
}

/// The coverage of a whole run on a `w` by `h` canvas, row-major.
pub open spec fn run_mask(run: &TextRun, w: int, h: int) -> Seq<u8> {
    Seq::new((w * h) as nat, |i: int| run.coverage(run.glyphs@.len() as int, i % w, i / w))
}

/// Rasterizes a run onto a `width` by `height` coverage canvas: each glyph's
/// mask is placed at the pen rounded to the nearest pixel plus the glyph's
/// offset, cells off the canvas are dropped, and overlapping coverage is
/// combined by maximum. Refused where the pen runs out of range.
pub fn rasterize(run: &TextRun, width: u32, height: u32) -> (r: Result<CoverageMask, ConversionError>)
    requires
        run.wf(),
        width * height <= usize::MAX,
    ensures
        r is Err <==> run.final_pen() > u64::MAX,
        r is Err ==> r matches Err(ConversionError::Config(ConfigError::TextTooLong)),
        r matches Ok(m) ==> m.wf() && m.width == width && m.height == height && m.values@ == run_mask(
            run,
            width as int,
            height as int,
        ),
{
    let pens = match pen_positions(run) {
        Ok(p) => p,
        Err(e) => {
            return Err(e);
        },
    };
    let mut cov = CoverageMask::empty(width, height);
    assert forall|x: int, y: int| 0 <= x < width && 0 <= y < height implies #[trigger] cov.at(x, y) == run.coverage(
        0,
        x,
        y,
    ) by {
        lemma_grid_index(x, y, width as int, height as int);
    }
    let n: usize = run.glyphs.len();
    let mut k: usize = 0;
    while k < n
        invariant
            run.wf(),
            n == run.glyphs@.len(),
            k <= n,
            pens@.len() == n + 1,
            forall|j: int| 0 <= j < pens@.len() ==> #[trigger] pens@[j] == run.pen_at(j),
            cov.wf(),
            cov.width == width,
            cov.height == height,
            forall|x: int, y: int| 0 <= x < width && 0 <= y < height ==> #[trigger] cov.at(x, y) == run.coverage(
                k as int,
                x,
                y,
            ),
        decreases n - k,
    {
        let pen: u64 = pens[k];
        let g = &run.glyphs[k];
        assert(g.mask.wf());
        let gx: i64 = ((pen as u128 + 32) / 64) as i64 + g.left as i64;
        let gy: i64 = run.pen_y as i64 + g.top as i64;
        let ghost prev = cov;
        plot_glyph(&mut cov, &g.mask, gx, gy);
        assert forall|x: int, y: int| 0 <= x < width && 0 <= y < height implies #[trigger] cov.at(x, y)
            == run.coverage(k + 1, x, y) by {
            assert(prev.at(x, y) == run.coverage(k as int, x, y));
        }
        k = k + 1;
    }
    let ghost w = width as int;
    let ghost h = height as int;
    assert forall|i: int| 0 <= i < w * h implies #[trigger] cov.values@[i] == run_mask(run, w, h)[i] by {
        lemma_cell_of_index(i, w, h);
        assert(cov.at(i % w, i / w) == run.coverage(n as int, i % w, i / w));
    }
    assert(cov.values@ =~= run_mask(run, w, h));
    Ok(cov)
}

/// Every index of a `w` by `h` grid is that of the cell `(i % w, i / w)`.
pub proof fn lemma_cell_of_index(i: int, w: int, h: int)
    requires
        0 <= i < w * h,
        0 <= w,
        0 <= h,
    ensures
        0 <= i % w < w,
        0 <= i / w < h,
        (i / w) * w + i % w == i,
{
    if w == 0 {
        assert(w * h == 0);
    }
    vstd::arithmetic::div_mod::lemma_fundamental_div_mod(i, w);
    vstd::arithmetic::div_mod::lemma_mod_bound(i, w);
    vstd::arithmetic::div_mod::lemma_div_pos_is_pos(i, w);
    let q = i / w;
    let m = i % w;
    assert(q * w == w * q) by (nonlinear_arith);
    if q >= h {
        assert(false) by (nonlinear_arith)
            requires
                q >= h,
                w > 0,
                i == w * q + m,
                m >= 0,
                i < w * h,
        ;
    }
}

/// Two different cells of a grid `w` wide have different row-major indices.
proof fn lemma_grid_cells_differ(x1: int, y1: int, x2: int, y2: int, w: int)
    requires
        0 <= x1 < w,
        0 <= x2 < w,
        x1 != x2 || y1 != y2,
    ensures
        y1 * w + x1 != y2 * w + x2,
{
    if y1 == y2 {
    } else if y1 < y2 {
        assert(y1 * w + x1 < y2 * w + x2) by (nonlinear_arith)
            requires 0 <= x1 < w, 0 <= x2 < w, y1 < y2;
    } else {
        assert(y2 * w + x2 < y1 * w + x1) by (nonlinear_arith)
            requires 0 <= x1 < w, 0 <= x2 < w, y2 < y1;
    }
}

} // verus!
