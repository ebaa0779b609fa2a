use crate::error::{ConfigError, ConversionError};
use crate::raster::{pixel_of, CoverageMask, RasterImage, Rgba};
use vstd::arithmetic::div_mod::lemma_fundamental_div_mod_converse;
use vstd::prelude::*;

verus! {

/// `n / d` rounded to the nearest integer, halves rounded up (for `n >= 0`, `d > 0`).
pub open spec fn round_div(n: int, d: int) -> int {
    (2 * n + d) / (2 * d)
}

/// Source-over: `s` blended on top of `d`. In normalised terms the alpha is
/// `as + ad (1 - as)` and each color channel `(cs as + cd ad (1 - as)) / alpha`,
/// which is `out = src + dst (1 - src.alpha)` on premultiplied values; every
/// result is rounded to the nearest 8-bit value. Where both pixels are fully
/// transparent there is nothing to blend and `d` stays.
pub open spec fn over(s: Rgba, d: Rgba) -> Rgba {
    let sa = s.a as int;
    let dw = d.a as int * (255 - sa);
    let a = sa * 255 + dw;
    if a == 0 {
        d
    } else {
        Rgba {
            r: round_div(s.r as int * sa * 255 + d.r as int * dw, a) as u8,
            g: round_div(s.g as int * sa * 255 + d.g as int * dw, a) as u8,
            b: round_div(s.b as int * sa * 255 + d.b as int * dw, a) as u8,
            a: round_div(a, 255) as u8,
        }
    }
}

/// Each pixel of `s` blended over the pixel of `d` at the same place.
pub open spec fn over_all(s: Seq<Rgba>, d: Seq<Rgba>) -> Seq<Rgba> {
    Seq::new(d.len(), |i: int| over(s[i], d[i]))
}

/// Layers blended one after another over `base`, the first one lowest.
pub open spec fn stacked(base: Seq<Rgba>, layers: Seq<Seq<Rgba>>) -> Seq<Rgba>
    decreases layers.len(),
{
    if layers.len() == 0 {
        base
    } else {
        over_all(layers.last(), stacked(base, layers.drop_last()))
    }
}

/// The pixels of each layer.
pub open spec fn layer_pixels(layers: Seq<RasterImage>) -> Seq<Seq<Rgba>> {
    layers.map_values(|l: RasterImage| l.px())
}

/// A coverage value recolored: the color with its alpha scaled by the coverage.
pub open spec fn tint_px(color: Rgba, cov: u8) -> Rgba {
    Rgba { r: color.r, g: color.g, b: color.b, a: round_div(cov as int * color.a as int, 255) as u8 }
}

/// `c * k / k` rounds to `c`.
proof fn lemma_round_div_exact(c: int, k: int)
    requires
        0 <= c,
        k > 0,
    ensures
        round_div(c * k, k) == c,
{
    assert(2 * (c * k) + k == c * (2 * k) + k) by (nonlinear_arith);
    lemma_fundamental_div_mod_converse(2 * (c * k) + k, 2 * k, c, k);
}

/// A fully transparent pixel blended over `d` leaves `d`.
pub proof fn lemma_over_transparent(s: Rgba, d: Rgba)
    requires
        s.a == 0,
    ensures
        over(s, d) == d,
{
    let k = d.a as int * 255;
    if d.a > 0 {
        assert(d.a as int * (255 - 0) == k);
        lemma_round_div_exact(d.r as int, k);
        lemma_round_div_exact(d.g as int, k);
        lemma_round_div_exact(d.b as int, k);
        lemma_round_div_exact(d.a as int, 255);
    }
}

/// Compositing a fully transparent layer onto any background leaves the
/// background unchanged, pixel for pixel.
pub proof fn lemma_transparent_layer_keeps_background(layer: RasterImage, background: RasterImage)
    requires
        layer.wf(),
        background.wf(),
        layer.width == background.width,
        layer.height == background.height,
        forall|i: int| 0 <= i < layer.area() ==> (#[trigger] layer.px()[i]).a == 0,
    ensures
        over_all(layer.px(), background.px()) == background.px(),
{
    let l = layer.px();
    let b = background.px();
    assert forall|i: int| 0 <= i < b.len() implies #[trigger] over_all(l, b)[i] == b[i] by {
        lemma_over_transparent(l[i], b[i]);
    }
    assert(over_all(l, b) =~= b);
}

fn mix(sc: u8, dc: u8, sa: u32, dw: u32, a: u32) -> (r: u8)
    requires
        sa <= 255,
        dw <= 255 * 255,
        0 < a,
        a == sa * 255 + dw,
    ensures
        r == round_div(sc as int * sa * 255 + dc as int * dw, a as int) as u8,
{
    assert(sc as int * sa * 255 <= 255 * 255 * 255) by (nonlinear_arith)
        requires sc <= 255, sa <= 255;
    assert(dc as int * dw <= 255 * 255 * 255) by (nonlinear_arith)
        requires dc <= 255, dw <= 255 * 255;
    let n: u32 = sc as u32 * sa * 255 + dc as u32 * dw;
    ((2 * n + a) / (2 * a)) as u8
}

/// Source-over for one pixel.
pub fn blend(s: Rgba, d: Rgba) -> (r: Rgba)
    ensures
        r == over(s, d),
{
    let sa: u32 = s.a as u32;
    assert(d.a as int * (255 - sa) <= 255 * 255) by (nonlinear_arith)
        requires d.a <= 255, sa <= 255;
    let dw: u32 = d.a as u32 * (255 - sa);
    let a: u32 = sa * 255 + dw;
    if a == 0 {
        d
    } else {
        Rgba {
            r: mix(s.r, d.r, sa, dw, a),
            g: mix(s.g, d.g, sa, dw, a),
            b: mix(s.b, d.b, sa, dw, a),
            a: ((2 * a + 255) / 510) as u8,
        }
    }
}

/// Recolors a coverage mask: every pixel takes `color`, with the color's alpha
/// scaled by the coverage there.
pub fn tint(mask: &CoverageMask, color: Rgba) -> (r: RasterImage)
    requires
        mask.wf(),
        mask.width > 0,
        mask.height > 0,
        4 * (mask.width * mask.height) <= usize::MAX,
    ensures
        r.wf(),
        r.width == mask.width,
        r.height == mask.height,
        r.px() == Seq::new(r.area(), |i: int| tint_px(color, mask.values@[i])),
{
    let n: usize = mask.values.len();
    let mut pixels: Vec<u8> = Vec::new();
    let mut i: usize = 0;
    while i < n
        invariant
            n == mask.values@.len(),
            4 * n <= usize::MAX,
            i <= n,
            pixels@.len() == 4 * i,
            forall|j: int| 0 <= j < i ==> #[trigger] pixel_of(pixels@, j) == tint_px(color, mask.values@[j]),
        decreases n - i,
    {
        let c: u8 = mask.values[i];
        assert(c as int * color.a as int <= 255 * 255) by (nonlinear_arith)
            requires c <= 255, color.a <= 255;
        let alpha: u32 = c as u32 * color.a as u32;
        let ghost prev = pixels@;
        pixels.push(color.r);
        pixels.push(color.g);
        pixels.push(color.b);
        pixels.push(((2 * alpha + 255) / 510) as u8);
        assert forall|j: int| 0 <= j < i + 1 implies #[trigger] pixel_of(pixels@, j) == tint_px(color, mask.values@[j]) by {
            if j < i {
                assert(pixel_of(prev, j) == tint_px(color, mask.values@[j]));
            }
        }
        i = i + 1;
    }
    let img = RasterImage { width: mask.width, height: mask.height, pixels };
    assert(img.px() =~= Seq::new(img.area(), |i: int| tint_px(color, mask.values@[i])));
    img
}

/// Blends `layer` source-over onto `canvas`, pixel by pixel.
pub fn blend_layer(canvas: &mut RasterImage, layer: &RasterImage)
    requires
        old(canvas).wf(),
        layer.wf(),
        layer.width == old(canvas).width,
        layer.height == old(canvas).height,
    ensures
        final(canvas).wf(),
        final(canvas).width == old(canvas).width,
        final(canvas).height == old(canvas).height,
        final(canvas).px() == over_all(layer.px(), old(canvas).px()),
{
    let ghost before = canvas.pixels@;
    let _len: usize = canvas.pixels.len();
    let n: usize = layer.pixels.len() / 4;
    let mut i: usize = 0;
    while i < n
        invariant
            canvas.wf(),
            canvas.width == old(canvas).width,
            canvas.height == old(canvas).height,
            before == old(canvas).pixels@,
            layer.wf(),
            layer.width == canvas.width,
            layer.height == canvas.height,
            n == canvas.area(),
            4 * n <= usize::MAX,
            i <= n,
            forall|j: int| 0 <= j < i ==> #[trigger] pixel_of(canvas.pixels@, j) == over(
                pixel_of(layer.pixels@, j),
                pixel_of(before, j),
            ),
            forall|j: int| i <= j < n ==> #[trigger] pixel_of(canvas.pixels@, j) == pixel_of(before, j),
        decreases n - i,
    {
        let k: usize = 4 * i;
        let s = Rgba { r: layer.pixels[k], g: layer.pixels[k + 1], b: layer.pixels[k + 2], a: layer.pixels[k + 3] };
        let d = Rgba { r: canvas.pixels[k], g: canvas.pixels[k + 1], b: canvas.pixels[k + 2], a: canvas.pixels[k + 3] };
        assert(pixel_of(canvas.pixels@, i as int) == pixel_of(before, i as int));
        assert(d == pixel_of(before, i as int));
        let o = blend(s, d);
        let ghost prev = canvas.pixels@;
        canvas.pixels.set(k, o.r);
        canvas.pixels.set(k + 1, o.g);
        canvas.pixels.set(k + 2, o.b);
        canvas.pixels.set(k + 3, o.a);
        assert forall|j: int| 0 <= j < n && j != i implies #[trigger] pixel_of(canvas.pixels@, j) == pixel_of(prev, j) by {
            assert(canvas.pixels@[4 * j] == prev[4 * j]);
            assert(canvas.pixels@[4 * j + 1] == prev[4 * j + 1]);
            assert(canvas.pixels@[4 * j + 2] == prev[4 * j + 2]);
            assert(canvas.pixels@[4 * j + 3] == prev[4 * j + 3]);
        }
        assert(pixel_of(canvas.pixels@, i as int) == o);
        i = i + 1;
    }
    assert(canvas.px() =~= over_all(layer.px(), old(canvas).px()));
}

/// Composites `layers` onto `canvas`, lowest first, each source-over. A layer
/// whose dimensions differ from the canvas is refused before any pixel is
/// written.
pub fn composite(canvas: &mut RasterImage, layers: &Vec<RasterImage>) -> (r: Result<(), ConversionError>)
    requires
        old(canvas).wf(),
        forall|i: int| 0 <= i < layers@.len() ==> (#[trigger] layers@[i]).wf(),
    ensures
        r is Ok <==> forall|i: int| 0 <= i < layers@.len() ==> (#[trigger] layers@[i]).width == old(canvas).width
            && layers@[i].height == old(canvas).height,
        r is Err ==> r matches Err(ConversionError::Config(ConfigError::LayerSizeMismatch)),
        final(canvas).wf(),
        final(canvas).width == old(canvas).width,
        final(canvas).height == old(canvas).height,
        r is Err ==> final(canvas).pixels@ == old(canvas).pixels@,
        r is Ok ==> final(canvas).px() == stacked(old(canvas).px(), layer_pixels(layers@)),
{
    let mut k: usize = 0;
    while k < layers.len()
        invariant
            k <= layers@.len(),
            canvas.wf(),
            canvas.width == old(canvas).width,
            canvas.height == old(canvas).height,
            canvas.pixels@ == old(canvas).pixels@,
            forall|i: int| 0 <= i < k ==> (#[trigger] layers@[i]).width == canvas.width && layers@[i].height == canvas.height,
        decreases layers@.len() - k,
    {
        if layers[k].width != canvas.width || layers[k].height != canvas.height {
            return Err(ConversionError::Config(ConfigError::LayerSizeMismatch));
        }
        k = k + 1;
    }
    let ghost base = canvas.px();
    k = 0;
    while k < layers.len()
        invariant
            k <= layers@.len(),
            canvas.wf(),
            canvas.width == old(canvas).width,
            canvas.height == old(canvas).height,
            base == old(canvas).px(),
            forall|i: int| 0 <= i < layers@.len() ==> (#[trigger] layers@[i]).wf(),
            forall|i: int| 0 <= i < layers@.len() ==> (#[trigger] layers@[i]).width == canvas.width && layers@[i].height == canvas.height,
            canvas.px() == stacked(base, layer_pixels(layers@.take(k as int))),
        decreases layers@.len() - k,
    {
        blend_layer(canvas, &layers[k]);
        assert(layer_pixels(layers@.take(k + 1)).drop_last() =~= layer_pixels(layers@.take(k as int)));
        k = k + 1;
    }
    assert(layers@.take(k as int) =~= layers@);
    Ok(())
}

} // verus!
