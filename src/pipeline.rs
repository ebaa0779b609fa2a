use crate::codec::{encode_png, png_of};
use crate::composite::{composite, layer_pixels, lemma_over_transparent, over, over_all, stacked, tint, tint_px};
use crate::dilate::{dilate, dilated_at, lemma_dilated_witness};
use crate::error::{ConfigError, ConversionError};
use crate::glyph::{lemma_cell_of_index, rasterize, run_mask, TextRun};
use crate::raster::{grid_at, lemma_grid_index, lemma_u32_product, pixel_of, CoverageMask, RasterImage, Rgba};
use vstd::prelude::*;

verus! {

/// How large the text is drawn.
#[derive(Clone, Copy, Debug, PartialEq, Eq, Structural)]
pub enum TextScale {
    /// Thousandths of the canvas width (horizontally) and height (vertically).
    PerMille(u32),
    /// An absolute size in pixels.
    Pixels(u32),
}

/// Where the pen starts.
#[derive(Clone, Copy, Debug, PartialEq, Eq, Structural)]
pub enum Anchor {
    /// Inset from the top-left corner by thousandths of the canvas width and height.
    InsetPerMille(u32),
    /// An absolute pixel position.
    Pixels(u32, u32),
}

/// How a caption looks.
#[derive(Clone, Copy, Debug, PartialEq, Eq, Structural)]
pub struct Style {
    pub fill: Rgba,
    pub outline: Rgba,
    /// Halo thickness in pixels; 0 draws no halo.
    pub outline_radius: u32,
    pub scale: TextScale,
    pub anchor: Anchor,
}

/// Glyph size and pen start, in pixels, for one canvas.
#[derive(Clone, Copy, Debug, PartialEq, Eq, Structural)]
pub struct TextPlacement {
    pub scale_x: u64,
    pub scale_y: u64,
    pub pen_x: u32,
    pub pen_y: u32,
}

/// `pm` thousandths of `dim`, rounded down.
pub open spec fn per_mille_of(dim: int, pm: int) -> int {
    dim * pm / 1000
}

impl Style {
    /// The glyph size in pixels on a `w` by `h` canvas.
    pub open spec fn scale_px(&self, w: int, h: int) -> (int, int) {
        match self.scale {
            TextScale::PerMille(p) => (per_mille_of(w, p as int), per_mille_of(h, p as int)),
            TextScale::Pixels(p) => (p as int, p as int),
        }
    }

    /// The pen start in pixels on a `w` by `h` canvas.
    pub open spec fn anchor_px(&self, w: int, h: int) -> (int, int) {
        match self.anchor {
            Anchor::InsetPerMille(p) => (per_mille_of(w, p as int), per_mille_of(h, p as int)),
            Anchor::Pixels(x, y) => (x as int, y as int),
        }
    }

    /// A caption style that scales with the picture: glyphs a tenth of the
    /// canvas in size, inset a tenth of the canvas from the top-left corner.
    pub fn caption(fill: Rgba, outline: Rgba, outline_radius: u32) -> (r: Style)
        ensures
            r.fill == fill,
            r.outline == outline,
            r.outline_radius == outline_radius,
            r.scale == TextScale::PerMille(100),
            r.anchor == Anchor::InsetPerMille(100),
    {
        Style { fill, outline, outline_radius, scale: TextScale::PerMille(100), anchor: Anchor::InsetPerMille(100) }
    }
}

fn per_mille(dim: u32, pm: u32) -> (r: u64)
    ensures
        r == per_mille_of(dim as int, pm as int),
{
    proof { lemma_u32_product(dim as int, pm as int); }
    dim as u64 * pm as u64 / 1000
}

/// The glyph size and pen start of a caption on a `width` by `height`
/// canvas. A size of zero pixels is refused, and so is a pen start beyond `u32`.
pub fn text_placement(width: u32, height: u32, style: &Style) -> (r: Result<TextPlacement, ConversionError>)
    ensures
        ({
            let s = style.scale_px(width as int, height as int);
            let a = style.anchor_px(width as int, height as int);
            if s.0 == 0 || s.1 == 0 {
                r == Err::<TextPlacement, ConversionError>(ConversionError::Config(ConfigError::ScaleNotPositive))
            } else if a.0 > u32::MAX || a.1 > u32::MAX {
                r == Err::<TextPlacement, ConversionError>(ConversionError::Config(ConfigError::AnchorOutOfRange))
            } else {
                r == Ok::<TextPlacement, ConversionError>(
                    (TextPlacement { scale_x: s.0 as u64, scale_y: s.1 as u64, pen_x: a.0 as u32, pen_y: a.1 as u32 }),
                )
            }
        }),
{
    let (sx, sy) = match style.scale {
        TextScale::PerMille(p) => (per_mille(width, p), per_mille(height, p)),
        TextScale::Pixels(p) => (p as u64, p as u64),
    };
    if sx == 0 || sy == 0 {
        return Err(ConversionError::Config(ConfigError::ScaleNotPositive));
    }
    let (ax, ay) = match style.anchor {
        Anchor::InsetPerMille(p) => (per_mille(width, p), per_mille(height, p)),
        Anchor::Pixels(x, y) => (x as u64, y as u64),
    };
    if ax > u32::MAX as u64 || ay > u32::MAX as u64 {
        return Err(ConversionError::Config(ConfigError::AnchorOutOfRange));
    }
    Ok(TextPlacement { scale_x: sx, scale_y: sy, pen_x: ax as u32, pen_y: ay as u32 })
}

/// The halo coverage at `(x, y)`: the glyph coverage dilated by `r`, or none
/// where `r` is 0.
pub open spec fn halo_at(cov: Seq<u8>, w: int, h: int, r: int, x: int, y: int) -> u8 {
    if r == 0 {
        0
    } else {
        dilated_at(cov, w, h, r, x, y)
    }
}

/// A captioned pixel: the halo, then the fill, each tinted by its coverage,
/// blended source-over onto the background.
pub open spec fn caption_pixel(bg: Rgba, cov: u8, halo: u8, style: Style) -> Rgba {
    over(tint_px(style.fill, cov), over(tint_px(style.outline, halo), bg))
}

/// `out` is `canvas` with `run` drawn on it in `style`.
pub open spec fn is_caption(canvas: RasterImage, run: TextRun, style: Style, out: RasterImage) -> bool {
    let w = canvas.width as int;
    let h = canvas.height as int;
    let cov = run_mask(&run, w, h);
    &&& out.wf()
    &&& out.width == canvas.width
    &&& out.height == canvas.height
    &&& forall|x: int, y: int|
        0 <= x < w && 0 <= y < h ==> #[trigger] grid_at(out.px(), w, x, y) == caption_pixel(
            grid_at(canvas.px(), w, x, y),
            grid_at(cov, w, x, y),
            halo_at(cov, w, h, style.outline_radius as int, x, y),
            style,
        )
}

/// Draws a rasterized text run onto the canvas: its coverage is dilated into
/// a halo, both are tinted, and background, halo and fill are composited in
/// that order. Refused, with the canvas untouched, where the pen runs out of
/// range.
pub fn compose(canvas: &mut RasterImage, run: &TextRun, style: &Style) -> (r: Result<(), ConversionError>)
    requires
        old(canvas).wf(),
        run.wf(),
    ensures
        r is Err <==> run.final_pen() > u64::MAX,
        r is Err ==> r matches Err(ConversionError::Config(ConfigError::TextTooLong)),
        r is Err ==> *final(canvas) == *old(canvas),
        r is Ok ==> is_caption(*old(canvas), *run, *style, *final(canvas)),
{
    let w: u32 = canvas.width;
    let h: u32 = canvas.height;
    let _len: usize = canvas.pixels.len();
    let cov = match rasterize(run, w, h) {
        Ok(m) => m,
        Err(e) => {
            return Err(e);
        },
    };
    let halo_mask = if style.outline_radius == 0 {
        CoverageMask::empty(w, h)
    } else {
        dilate(&cov, style.outline_radius)
    };
    let halo = tint(&halo_mask, style.outline);
    let fill = tint(&cov, style.fill);
    let ghost hp = halo.px();
    let ghost fp = fill.px();
    let ghost base = canvas.px();
    let ghost before = *canvas;
    let mut layers: Vec<RasterImage> = Vec::new();
    layers.push(halo);
    layers.push(fill);
    let done = composite(canvas, &layers);
    assert(done is Ok);
    proof {
        let lp = layer_pixels(layers@);
        assert(lp.drop_last().drop_last() =~= Seq::<Seq<Rgba>>::empty());
        assert(lp.drop_last().last() == hp);
        assert(lp.last() == fp);
        assert(stacked(base, lp.drop_last().drop_last()) == base);
        assert(stacked(base, lp.drop_last()) == over_all(hp, base));
        assert(canvas.px() == over_all(fp, over_all(hp, base)));
        let ww = w as int;
        let hh = h as int;
        let cm = run_mask(run, ww, hh);
        assert forall|x: int, y: int| 0 <= x < ww && 0 <= y < hh implies #[trigger] grid_at(canvas.px(), ww, x, y)
            == caption_pixel(
            grid_at(before.px(), ww, x, y),
            grid_at(cm, ww, x, y),
            halo_at(cm, ww, hh, style.outline_radius as int, x, y),
            *style,
        ) by {
            lemma_grid_index(x, y, ww, hh);
            let i = y * ww + x;
            assert(halo_mask.at(x, y) == halo_at(cm, ww, hh, style.outline_radius as int, x, y));
            assert(hp[i] == tint_px(style.outline, halo_mask.values@[i]));
            assert(fp[i] == tint_px(style.fill, cov.values@[i]));
            assert(cov.values@[i] == grid_at(cm, ww, x, y));
            assert(canvas.px()[i] == over(fp[i], over(hp[i], base[i])));
        }
    }
    Ok(())
}

/// Draws a rasterized text run onto the canvas (see `compose`) and encodes
/// the result as PNG.
pub fn render(canvas: RasterImage, run: &TextRun, style: &Style) -> (r: Result<Vec<u8>, ConversionError>)
    requires
        canvas.wf(),
        run.wf(),
    ensures
        r is Ok <==> run.final_pen() <= u64::MAX,
        r is Err ==> r matches Err(ConversionError::Config(ConfigError::TextTooLong)),
        r matches Ok(png) ==> exists|out: RasterImage|
            is_caption(canvas, *run, *style, out) && png@ == png_of(out.width, out.height, out.pixels@),
        run.glyphs@.len() == 0 ==> (r matches Ok(png) ==> png@ == png_of(
            canvas.width,
            canvas.height,
            canvas.pixels@,
        )),
{
    let ghost background = canvas;
    let mut out = canvas;
    match compose(&mut out, run, style) {
        Ok(()) => {},
        Err(e) => {
            return Err(e);
        },
    }
    let r = encode_png(&out);
    proof {
        if run.glyphs@.len() == 0 {
            lemma_empty_text_keeps_background(background, *run, *style, out);
        }
    }
    r
}

/// With no glyphs in the run the caption leaves the canvas as it was, byte
/// for byte.
pub proof fn lemma_empty_text_keeps_background(canvas: RasterImage, run: TextRun, style: Style, out: RasterImage)
    requires
        canvas.wf(),
        run.glyphs@.len() == 0,
        is_caption(canvas, run, style, out),
    ensures
        out.pixels@ == canvas.pixels@,
{
    let w = canvas.width as int;
    let h = canvas.height as int;
    let cm = run_mask(&run, w, h);
    assert forall|i: int| 0 <= i < w * h implies #[trigger] cm[i] == 0 by {}
    assert forall|p: int| 0 <= p < w * h implies #[trigger] out.px()[p] == canvas.px()[p] by {
        lemma_cell_of_index(p, w, h);
        let x = p % w;
        let y = p / w;
        if style.outline_radius != 0 {
            let c = lemma_dilated_witness(cm, w, h, style.outline_radius as int, x, y);
            lemma_grid_index(c.0, c.1, w, h);
        }
        assert(grid_at(cm, w, x, y) == 0);
        assert(halo_at(cm, w, h, style.outline_radius as int, x, y) == 0);
        lemma_over_transparent(tint_px(style.outline, 0), grid_at(canvas.px(), w, x, y));
        lemma_over_transparent(tint_px(style.fill, 0), grid_at(canvas.px(), w, x, y));
        assert(grid_at(out.px(), w, x, y) == grid_at(canvas.px(), w, x, y));
    }
    assert forall|b: int| 0 <= b < out.pixels@.len() implies #[trigger] out.pixels@[b] == canvas.pixels@[b] by {
        let p = b / 4;
        assert(b == 4 * p + b % 4 && 0 <= b % 4 < 4);
        assert(0 <= p < w * h);
        assert(out.px()[p] == canvas.px()[p]);
        assert(pixel_of(out.pixels@, p) == pixel_of(canvas.pixels@, p));
    }
    assert(out.pixels@ =~= canvas.pixels@);
}

/// With an outline radius of 0 there is no halo: the caption is the
/// background with only the tinted fill composited on it.
pub proof fn lemma_zero_radius_fill_only(canvas: RasterImage, run: TextRun, style: Style, out: RasterImage)
    requires
        canvas.wf(),
        style.outline_radius == 0,
        is_caption(canvas, run, style, out),
    ensures
        forall|x: int, y: int|
            0 <= x < canvas.width && 0 <= y < canvas.height ==> #[trigger] grid_at(out.px(), canvas.width as int, x, y)
                == over(
                tint_px(style.fill, grid_at(run_mask(&run, canvas.width as int, canvas.height as int), canvas.width as int, x, y)),
                grid_at(canvas.px(), canvas.width as int, x, y),
            ),
{
    let w = canvas.width as int;
    assert forall|x: int, y: int| 0 <= x < canvas.width && 0 <= y < canvas.height implies #[trigger] grid_at(
        out.px(),
        w,
        x,
        y,
    ) == over(
        tint_px(style.fill, grid_at(run_mask(&run, w, canvas.height as int), w, x, y)),
        grid_at(canvas.px(), w, x, y),
    ) by {
        lemma_over_transparent(tint_px(style.outline, 0), grid_at(canvas.px(), w, x, y));
    }
}

} // verus!
